//! CPU marketing name from the text of `/proc/cpuinfo`, for friendlier panel titles.

use vstd::prelude::*;
use crate::text::{
    chars_eq, chars_of, join, join_chars, lines, lines_of, split_once, split_once_char, string_from_chars,
    trim, trim_chars, views, words, words_of,
};

verus! {

/// Words of `s` joined by single spaces (`split_whitespace` then `join(" ")`).
pub open spec fn squeezed(s: Seq<char>) -> Seq<char> {
    join(words(s), seq![' '])
}

/// Squeezing is idempotent: squeezed text has single spaces between its words only, so
/// squeezing it again changes nothing.
pub proof fn lemma_squeezed_idempotent(s: Seq<char>)
    ensures
        squeezed(squeezed(s)) == squeezed(s),
{
    crate::text::lemma_words_plain(s);
    crate::text::lemma_words_of_join(words(s));
}

/// The value of a `model name` / `Model` line, if the line is one with a non-empty value.
pub open spec fn model_line_value(line: Seq<char>) -> Option<Seq<char>> {
    match split_once(trim(line), ':') {
        None => None,
        Some(kv) => {
            let key = trim(kv.0);
            let val = trim(kv.1);
            if (key == "model name"@ || key == "Model"@) && val.len() > 0 {
                Some(val)
            } else {
                None
            }
        },
    }
}

/// The squeezed value of the first model line among `ls`.
pub open spec fn first_model(ls: Seq<Seq<char>>) -> Option<Seq<char>>
    decreases ls.len(),
{
    if ls.len() == 0 {
        None
    } else {
        match model_line_value(ls[0]) {
            Some(v) => Some(squeezed(v)),
            None => first_model(ls.drop_first()),
        }
    }
}

/// Model name found in cpuinfo text.
pub open spec fn cpu_model_of(cpuinfo: Seq<char>) -> Option<Seq<char>> {
    first_model(lines(cpuinfo))
}

/// Normalise whitespace: the words of `s` joined by single spaces.
pub fn squeeze_spaces(s: &str) -> (r: String)
    ensures
        r@ == squeezed(s@),
{
    let cs = chars_of(s);
    squeeze_chars(cs.as_slice())
}

fn squeeze_chars(s: &[char]) -> (r: String)
    ensures
        r@ == squeezed(s@),
{
    let ws = words_of(s);
    let sep = vec![' '];
    assert(sep@ =~= seq![' ']);
    let j = join_chars(&ws, sep.as_slice());
    string_from_chars(j.as_slice())
}

fn model_line_value_exec(line: &[char]) -> (r: Option<Vec<char>>)
    ensures
        r matches Some(v) ==> model_line_value(line@) == Some(v@),
        r is None ==> model_line_value(line@) is None,
{
    let t = trim_chars(line);
    match split_once_char(t.as_slice(), ':') {
        None => None,
        Some((k, v)) => {
            let key = trim_chars(k.as_slice());
            let val = trim_chars(v.as_slice());
            let mn = chars_of("model name");
            let m = chars_of("Model");
            if (chars_eq(key.as_slice(), mn.as_slice()) || chars_eq(key.as_slice(), m.as_slice()))
                && val.len() > 0 {
                Some(val)
            } else {
                None
            }
        },
    }
}

/// First `model name` (x86) or `Model` (some ARM) line of cpuinfo text, whitespace normalised.
pub fn parse_model_name(cpuinfo: &str) -> (r: Option<String>)
    ensures
        r matches Some(m) ==> cpu_model_of(cpuinfo@) == Some(m@),
        r is None ==> cpu_model_of(cpuinfo@) is None,
{
    let cs = chars_of(cpuinfo);
    let ls = lines_of(cs.as_slice());
    let mut i: usize = 0;
    assert(views(ls@).skip(0) =~= views(ls@));
    while i < ls.len()
        invariant
            i <= ls@.len(),
            cpu_model_of(cpuinfo@) == first_model(views(ls@).skip(i as int)),
        decreases ls@.len() - i,
    {
        let ghost rest = views(ls@).skip(i as int);
        assert(rest[0] == ls@[i as int]@);
        assert(rest.drop_first() =~= views(ls@).skip(i + 1));
        match model_line_value_exec(ls[i].as_slice()) {
            Some(v) => {
                return Some(squeeze_chars(v.as_slice()));
            },
            None => {},
        }
        i = i + 1;
    }
    None
}

} // verus!

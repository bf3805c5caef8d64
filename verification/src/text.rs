//! Character-level string helpers with specifications over `Seq<char>`.
//!
//! Strings are handled as sequences of Unicode scalar values. Every helper states
//! its result as a spec function over `Seq<char>`.

use vstd::prelude::*;

verus! {

// ---------------------------------------------------------------------------
// Characters
// ---------------------------------------------------------------------------

/// ASCII lowercase of one character; other characters are unchanged.
pub open spec fn ascii_lower_char(c: char) -> char {
    if 'A' <= c && c <= 'Z' {
        ((c as u32) + 32) as char
    } else {
        c
    }
}

/// ASCII lowercase of every character of a sequence.
pub open spec fn ascii_lower(s: Seq<char>) -> Seq<char> {
    Seq::new(s.len(), |i: int| ascii_lower_char(s[i]))
}

/// Every character is in the ASCII range.
pub open spec fn all_ascii(s: Seq<char>) -> bool {
    forall|i: int| 0 <= i < s.len() ==> (s[i] as u32) < 128
}

/// The Unicode `White_Space` property (the set `char::is_whitespace` accepts).
pub open spec fn is_white_space(c: char) -> bool {
    let u = c as u32;
    (0x09 <= u && u <= 0x0d) || u == 0x20 || u == 0x85 || u == 0xa0 || u == 0x1680
        || (0x2000 <= u && u <= 0x200a) || u == 0x2028 || u == 0x2029 || u == 0x202f
        || u == 0x205f || u == 0x3000
}

/// ASCII decimal digit.
pub open spec fn is_ascii_digit(c: char) -> bool {
    '0' <= c && c <= '9'
}

/// Lowercase a single character the ASCII way.
pub fn to_ascii_lower(c: char) -> (r: char)
    ensures
        r == ascii_lower_char(c),
{
    if 'A' <= c && c <= 'Z' {
        let b: u8 = c as u8;
        (b + 32) as char
    } else {
        c
    }
}

/// Whether `c` has the Unicode `White_Space` property.
pub fn white_space(c: char) -> (b: bool)
    ensures
        b == is_white_space(c),
{
    let u: u32 = c as u32;
    (0x09 <= u && u <= 0x0d) || u == 0x20 || u == 0x85 || u == 0xa0 || u == 0x1680
        || (0x2000 <= u && u <= 0x200a) || u == 0x2028 || u == 0x2029 || u == 0x202f
        || u == 0x205f || u == 0x3000
}

/// Whether `c` is an ASCII decimal digit.
pub fn ascii_digit(c: char) -> (b: bool)
    ensures
        b == is_ascii_digit(c),
{
    '0' <= c && c <= '9'
}

// ---------------------------------------------------------------------------
// Unicode lowercase (`str::to_lowercase`)
// ---------------------------------------------------------------------------

/// What `str::to_lowercase` returns for a string (the Unicode lowercase mapping).
pub uninterp spec fn spec_to_lowercase(s: Seq<char>) -> Seq<char>;

/// `str::to_lowercase`: the Unicode lowercase of `s`. The contract names the
/// result and states only that an all-ASCII input is lowercased the ASCII way;
/// the mapping of other characters is left to the name.
#[verifier::external_body]
pub(crate) fn to_lowercase(s: &str) -> (r: String)
    ensures
        r@ == spec_to_lowercase(s@),
        all_ascii(s@) ==> r@ == ascii_lower(s@),
{
    s.to_lowercase()
}

// ---------------------------------------------------------------------------
// Conversions between `str`/`String` and character vectors
// ---------------------------------------------------------------------------

/// Copy the characters of a string slice into a vector.
pub fn chars_of(s: &str) -> (v: Vec<char>)
    ensures
        v@ == s@,
{
    let n = s.unicode_len();
    let mut v: Vec<char> = Vec::new();
    let mut i: usize = 0;
    while i < n
        invariant
            n == s@.len(),
            i <= n,
            v@ == s@.subrange(0, i as int),
        decreases n - i,
    {
        v.push(s.get_char(i));
        i = i + 1;
    }
    v
}

/// Build a `String` from characters (`String: FromIterator<char>`).
#[verifier::external_body]
pub(crate) fn string_from_chars(v: &[char]) -> (s: String)
    ensures
        s@ == v@,
{
    v.iter().collect()
}

/// Copy `s[a..b]` into a new vector.
pub fn slice_chars(s: &[char], a: usize, b: usize) -> (r: Vec<char>)
    requires
        a <= b <= s@.len(),
    ensures
        r@ == s@.subrange(a as int, b as int),
{
    let mut r: Vec<char> = Vec::new();
    let mut i: usize = a;
    while i < b
        invariant
            a <= i <= b,
            b <= s@.len(),
            r@ == s@.subrange(a as int, i as int),
        decreases b - i,
    {
        r.push(s[i]);
        i = i + 1;
    }
    r
}

/// Characters of `s` followed by those of `t`.
pub fn concat(s: &[char], t: &[char]) -> (r: Vec<char>)
    ensures
        r@ == s@ + t@,
{
    let mut r = slice_chars(s, 0, s.len());
    let mut i: usize = 0;
    while i < t.len()
        invariant
            i <= t@.len(),
            r@ == s@ + t@.subrange(0, i as int),
        decreases t@.len() - i,
    {
        r.push(t[i]);
        i = i + 1;
    }
    assert(t@.subrange(0, t@.len() as int) =~= t@);
    r
}

/// Character sequences are equal.
pub fn chars_eq(s: &[char], t: &[char]) -> (b: bool)
    ensures
        b == (s@ == t@),
{
    if s.len() != t.len() {
        return false;
    }
    let mut i: usize = 0;
    while i < s.len()
        invariant
            s@.len() == t@.len(),
            i <= s@.len(),
            forall|j: int| 0 <= j < i ==> s@[j] == t@[j],
        decreases s@.len() - i,
    {
        if s[i] != t[i] {
            return false;
        }
        i = i + 1;
    }
    assert(s@ =~= t@);
    true
}

/// ASCII lowercase of a whole character slice.
pub fn lower_ascii(s: &[char]) -> (r: Vec<char>)
    ensures
        r@ == ascii_lower(s@),
{
    let mut r: Vec<char> = Vec::new();
    let mut i: usize = 0;
    while i < s.len()
        invariant
            i <= s@.len(),
            r@ == ascii_lower(s@.subrange(0, i as int)),
        decreases s@.len() - i,
    {
        r.push(to_ascii_lower(s[i]));
        i = i + 1;
        assert(ascii_lower(s@.subrange(0, i as int)) =~= ascii_lower(
            s@.subrange(0, i - 1 as int),
        ).push(ascii_lower_char(s@[i - 1])));
    }
    assert(s@.subrange(0, s@.len() as int) =~= s@);
    r
}

/// `a` and `b` are equal ignoring ASCII case (`str::eq_ignore_ascii_case`).
pub fn eq_ignore_ascii_case(a: &[char], b: &[char]) -> (r: bool)
    ensures
        r == (ascii_lower(a@) == ascii_lower(b@)),
{
    let la = lower_ascii(a);
    let lb = lower_ascii(b);
    chars_eq(la.as_slice(), lb.as_slice())
}

/// All characters are ASCII digits (true for an empty slice).
pub fn all_ascii_digits(s: &[char]) -> (b: bool)
    ensures
        b == (forall|i: int| 0 <= i < s@.len() ==> is_ascii_digit(#[trigger] s@[i])),
{
    let mut i: usize = 0;
    while i < s.len()
        invariant
            i <= s@.len(),
            forall|j: int| 0 <= j < i ==> is_ascii_digit(#[trigger] s@[j]),
        decreases s@.len() - i,
    {
        if !ascii_digit(s[i]) {
            return false;
        }
        i = i + 1;
    }
    true
}


// ---------------------------------------------------------------------------
// Trimming (`str::trim`, `str::trim_start`, `str::trim_end`)
// ---------------------------------------------------------------------------

/// Number of leading `White_Space` characters.
pub open spec fn lead_ws(s: Seq<char>) -> nat
    decreases s.len(),
{
    if s.len() > 0 && is_white_space(s[0]) {
        1 + lead_ws(s.drop_first())
    } else {
        0
    }
}

/// Number of trailing `White_Space` characters.
pub open spec fn trail_ws(s: Seq<char>) -> nat
    decreases s.len(),
{
    if s.len() > 0 && is_white_space(s.last()) {
        1 + trail_ws(s.drop_last())
    } else {
        0
    }
}

/// `s` without leading whitespace.
pub open spec fn trim_start(s: Seq<char>) -> Seq<char> {
    s.skip(lead_ws(s) as int)
}

/// `s` without trailing whitespace.
pub open spec fn trim_end(s: Seq<char>) -> Seq<char> {
    s.take(s.len() - trail_ws(s))
}

/// `s` without leading and trailing whitespace.
pub open spec fn trim(s: Seq<char>) -> Seq<char> {
    trim_end(trim_start(s))
}

/// Leading whitespace ends at the first character that is not whitespace.
pub proof fn lemma_lead_ws_le(s: Seq<char>, k: int)
    requires
        0 <= k < s.len(),
        !is_white_space(s[k]),
    ensures
        lead_ws(s) <= k,
    decreases k,
{
    if k > 0 && is_white_space(s[0]) {
        lemma_lead_ws_le(s.drop_first(), k - 1);
    }
}

pub proof fn lemma_lead_ws_bound(s: Seq<char>)
    ensures
        lead_ws(s) <= s.len(),
    decreases s.len(),
{
    if s.len() > 0 && is_white_space(s[0]) {
        lemma_lead_ws_bound(s.drop_first());
    }
}

pub proof fn lemma_trail_ws_bound(s: Seq<char>)
    ensures
        trail_ws(s) <= s.len(),
    decreases s.len(),
{
    if s.len() > 0 && is_white_space(s.last()) {
        lemma_trail_ws_bound(s.drop_last());
    }
}

/// Index of the first character that is not whitespace (or the length).
fn lead_ws_exec(s: &[char]) -> (i: usize)
    ensures
        i == lead_ws(s@),
{
    let n = s.len();
    let mut i: usize = 0;
    assert(s@.skip(0) =~= s@);
    while i < n && white_space(s[i])
        invariant
            n == s@.len(),
            i <= n,
            lead_ws(s@) == i + lead_ws(s@.skip(i as int)),
        decreases n - i,
    {
        assert(s@.skip(i as int).drop_first() =~= s@.skip(i + 1));
        i = i + 1;
    }
    i
}

/// Length of `s` without its trailing whitespace.
fn trim_end_len(s: &[char]) -> (j: usize)
    ensures
        j == s@.len() - trail_ws(s@),
{
    let n = s.len();
    let mut j: usize = n;
    assert(s@.take(n as int) =~= s@);
    while j > 0 && white_space(s[j - 1])
        invariant
            n == s@.len(),
            j <= n,
            trail_ws(s@) == (n - j) + trail_ws(s@.take(j as int)),
        decreases j,
    {
        assert(s@.take(j as int).drop_last() =~= s@.take(j - 1));
        j = j - 1;
    }
    j
}

/// `str::trim_start` on characters.
pub fn trim_start_chars(s: &[char]) -> (r: Vec<char>)
    ensures
        r@ == trim_start(s@),
{
    proof {
        lemma_lead_ws_bound(s@);
    }
    let i = lead_ws_exec(s);
    slice_chars(s, i, s.len())
}

/// `str::trim_end` on characters.
pub fn trim_end_chars(s: &[char]) -> (r: Vec<char>)
    ensures
        r@ == trim_end(s@),
{
    proof {
        lemma_trail_ws_bound(s@);
    }
    let j = trim_end_len(s);
    slice_chars(s, 0, j)
}

/// `str::trim` on characters.
pub fn trim_chars(s: &[char]) -> (r: Vec<char>)
    ensures
        r@ == trim(s@),
{
    let t = trim_start_chars(s);
    trim_end_chars(t.as_slice())
}

// ---------------------------------------------------------------------------
// Searching
// ---------------------------------------------------------------------------

/// `needle` occurs in `hay` at position `i`.
pub open spec fn matches_at(hay: Seq<char>, needle: Seq<char>, i: int) -> bool {
    0 <= i && i + needle.len() <= hay.len() && hay.subrange(i, i + needle.len()) == needle
}

/// `needle` occurs somewhere in `hay` (`str::contains`).
pub open spec fn contains_seq(hay: Seq<char>, needle: Seq<char>) -> bool {
    exists|i: int| matches_at(hay, needle, i)
}

/// A text found in either half of a concatenation is found in the whole.
pub proof fn lemma_contains_concat(a: Seq<char>, b: Seq<char>, needle: Seq<char>)
    ensures
        contains_seq(a, needle) ==> contains_seq(a + b, needle),
        contains_seq(b, needle) ==> contains_seq(a + b, needle),
{
    if contains_seq(a, needle) {
        let i = choose|i: int| matches_at(a, needle, i);
        assert((a + b).subrange(i, i + needle.len()) =~= a.subrange(i, i + needle.len()));
        assert(matches_at(a + b, needle, i));
    }
    if contains_seq(b, needle) {
        let i = choose|i: int| matches_at(b, needle, i);
        let j = a.len() + i;
        assert((a + b).subrange(j, j + needle.len()) =~= b.subrange(i, i + needle.len()));
        assert(matches_at(a + b, needle, j));
    }
}

/// First position `>= i` where `needle` occurs.
pub open spec fn find_from(hay: Seq<char>, needle: Seq<char>, i: int) -> Option<int>
    decreases hay.len() + 1 - i,
{
    if i < 0 || i + needle.len() > hay.len() {
        None
    } else if matches_at(hay, needle, i) {
        Some(i)
    } else {
        find_from(hay, needle, i + 1)
    }
}

/// First position where `needle` occurs (`str::find`, counted in characters).
pub open spec fn find_seq(hay: Seq<char>, needle: Seq<char>) -> Option<int> {
    find_from(hay, needle, 0)
}

pub proof fn lemma_find_from(hay: Seq<char>, needle: Seq<char>, i: int)
    requires
        0 <= i,
    ensures
        find_from(hay, needle, i) matches Some(k) ==> i <= k && matches_at(hay, needle, k) && (
        forall|j: int| i <= j < k ==> !matches_at(hay, needle, j)),
        find_from(hay, needle, i) is None ==> forall|j: int| i <= j ==> !matches_at(hay, needle, j),
    decreases hay.len() + 1 - i,
{
    if i + needle.len() > hay.len() {
    } else if matches_at(hay, needle, i) {
    } else {
        lemma_find_from(hay, needle, i + 1);
    }
}

/// The characterisation of `find_seq`: the least matching position.
pub proof fn lemma_find_seq(hay: Seq<char>, needle: Seq<char>)
    ensures
        find_seq(hay, needle) matches Some(k) ==> matches_at(hay, needle, k) && (forall|j: int|
            0 <= j < k ==> !matches_at(hay, needle, j)),
        find_seq(hay, needle) is Some <==> contains_seq(hay, needle),
{
    lemma_find_from(hay, needle, 0);
}

/// `needle` occurs in `hay` at position `i` (executable).
pub fn matches_at_exec(hay: &[char], needle: &[char], i: usize) -> (b: bool)
    ensures
        b == matches_at(hay@, needle@, i as int),
{
    if i > hay.len() || needle.len() > hay.len() - i {
        return false;
    }
    let mut k: usize = 0;
    while k < needle.len()
        invariant
            i + needle.len() <= hay.len(),
            k <= needle@.len(),
            forall|j: int| 0 <= j < k ==> hay@[i + j] == needle@[j],
        decreases needle@.len() - k,
    {
        if hay[i + k] != needle[k] {
            assert(hay@.subrange(i as int, i + needle@.len())[k as int] != needle@[k as int]);
            return false;
        }
        k = k + 1;
    }
    assert(hay@.subrange(i as int, i + needle@.len()) =~= needle@);
    true
}

/// First position where `needle` occurs.
pub fn find_chars(hay: &[char], needle: &[char]) -> (r: Option<usize>)
    ensures
        r matches Some(k) ==> find_seq(hay@, needle@) == Some(k as int),
        r is None ==> find_seq(hay@, needle@) is None,
{
    if needle.len() == 0 {
        assert(matches_at(hay@, needle@, 0)) by {
            assert(hay@.subrange(0, 0) =~= needle@);
        }
        return Some(0);
    }
    if needle.len() > hay.len() {
        return None;
    }
    let last = hay.len() - needle.len();
    let mut i: usize = 0;
    while i <= last
        invariant
            last + needle.len() == hay.len(),
            needle.len() >= 1,
            find_seq(hay@, needle@) == find_from(hay@, needle@, i as int),
        decreases last + 1 - i,
    {
        if matches_at_exec(hay, needle, i) {
            return Some(i);
        }
        i = i + 1;
    }
    None
}

/// `needle` occurs in `hay`.
pub fn contains_chars(hay: &[char], needle: &[char]) -> (b: bool)
    ensures
        b == contains_seq(hay@, needle@),
{
    proof {
        lemma_find_seq(hay@, needle@);
    }
    find_chars(hay, needle).is_some()
}

/// `needle` occurs in `hay`, where `needle` is a string literal.
pub fn contains_str(hay: &[char], needle: &str) -> (b: bool)
    ensures
        b == contains_seq(hay@, needle@),
{
    let n = chars_of(needle);
    contains_chars(hay, n.as_slice())
}

/// First index of character `c` at or after `i`.
pub open spec fn char_pos_from(s: Seq<char>, c: char, i: int) -> Option<int>
    decreases s.len() - i,
{
    if i < 0 || i >= s.len() {
        None
    } else if s[i] == c {
        Some(i)
    } else {
        char_pos_from(s, c, i + 1)
    }
}

/// First index of character `c` (`str::find` with a `char` pattern, in characters).
pub open spec fn char_pos(s: Seq<char>, c: char) -> Option<int> {
    char_pos_from(s, c, 0)
}

/// Last index of character `c` below `j`.
pub open spec fn char_rpos_below(s: Seq<char>, c: char, j: int) -> Option<int>
    decreases j,
{
    if j <= 0 || j > s.len() {
        None
    } else if s[j - 1] == c {
        Some(j - 1)
    } else {
        char_rpos_below(s, c, j - 1)
    }
}

/// Last index of character `c` (`str::rfind` with a `char` pattern, in characters).
pub open spec fn char_rpos(s: Seq<char>, c: char) -> Option<int> {
    char_rpos_below(s, c, s.len() as int)
}

/// `c` occurs in `s`.
pub open spec fn has_char(s: Seq<char>, c: char) -> bool {
    exists|i: int| 0 <= i < s.len() && s[i] == c
}

pub proof fn lemma_char_pos_from(s: Seq<char>, c: char, i: int)
    requires
        0 <= i,
    ensures
        char_pos_from(s, c, i) matches Some(k) ==> i <= k < s.len() && s[k] == c && (forall|j: int|
            i <= j < k ==> s[j] != c),
        char_pos_from(s, c, i) is None ==> forall|j: int| i <= j < s.len() ==> s[j] != c,
    decreases s.len() - i,
{
    if i < s.len() && s[i] != c {
        lemma_char_pos_from(s, c, i + 1);
    }
}

/// The characterisation of `char_pos`: the least index holding `c`.
pub proof fn lemma_char_pos(s: Seq<char>, c: char)
    ensures
        char_pos(s, c) matches Some(k) ==> 0 <= k < s.len() && s[k] == c && (forall|j: int|
            0 <= j < k ==> s[j] != c),
        char_pos(s, c) is Some <==> has_char(s, c),
{
    lemma_char_pos_from(s, c, 0);
}

pub proof fn lemma_char_rpos_below(s: Seq<char>, c: char, j: int)
    requires
        j <= s.len(),
    ensures
        char_rpos_below(s, c, j) matches Some(k) ==> 0 <= k < j && s[k] == c && (forall|m: int|
            k < m < j ==> s[m] != c),
        char_rpos_below(s, c, j) is None ==> forall|m: int| 0 <= m < j ==> s[m] != c,
    decreases j,
{
    if j > 0 && s[j - 1] != c {
        lemma_char_rpos_below(s, c, j - 1);
    }
}

/// First index of `c`.
pub fn find_char(s: &[char], c: char) -> (r: Option<usize>)
    ensures
        r matches Some(k) ==> char_pos(s@, c) == Some(k as int),
        r is None ==> char_pos(s@, c) is None,
{
    let mut i: usize = 0;
    while i < s.len()
        invariant
            i <= s@.len(),
            char_pos(s@, c) == char_pos_from(s@, c, i as int),
        decreases s@.len() - i,
    {
        if s[i] == c {
            return Some(i);
        }
        i = i + 1;
    }
    None
}

/// Last index of `c`.
pub fn rfind_char(s: &[char], c: char) -> (r: Option<usize>)
    ensures
        r matches Some(k) ==> char_rpos(s@, c) == Some(k as int),
        r is None ==> char_rpos(s@, c) is None,
{
    let mut j: usize = s.len();
    while j > 0
        invariant
            j <= s@.len(),
            char_rpos(s@, c) == char_rpos_below(s@, c, j as int),
        decreases j,
    {
        if s[j - 1] == c {
            return Some(j - 1);
        }
        j = j - 1;
    }
    None
}

/// `c` occurs in `s`.
pub fn has_char_exec(s: &[char], c: char) -> (b: bool)
    ensures
        b == has_char(s@, c),
{
    proof {
        lemma_char_pos(s@, c);
    }
    find_char(s, c).is_some()
}

// ---------------------------------------------------------------------------
// Prefixes and splitting
// ---------------------------------------------------------------------------

/// `s` begins with `p`.
pub open spec fn starts_with(s: Seq<char>, p: Seq<char>) -> bool {
    p.len() <= s.len() && s.take(p.len() as int) == p
}

/// `str::strip_prefix`.
pub open spec fn strip_prefix(s: Seq<char>, p: Seq<char>) -> Option<Seq<char>> {
    if starts_with(s, p) {
        Some(s.skip(p.len() as int))
    } else {
        None
    }
}

/// `str::split_once` with a `char` separator.
pub open spec fn split_once(s: Seq<char>, c: char) -> Option<(Seq<char>, Seq<char>)> {
    match char_pos(s, c) {
        Some(i) => Some((s.take(i), s.skip(i + 1))),
        None => None,
    }
}

/// `s` begins with `p` (executable).
pub fn starts_with_chars(s: &[char], p: &[char]) -> (b: bool)
    ensures
        b == starts_with(s@, p@),
{
    if p.len() > s.len() {
        return false;
    }
    let r = matches_at_exec(s, p, 0);
    assert(s@.subrange(0, p@.len() as int) =~= s@.take(p@.len() as int));
    r
}

/// `str::strip_prefix` with a literal prefix.
pub fn strip_prefix_str(s: &[char], p: &str) -> (r: Option<Vec<char>>)
    ensures
        r matches Some(v) ==> strip_prefix(s@, p@) == Some(v@),
        r is None ==> strip_prefix(s@, p@) is None,
{
    let pv = chars_of(p);
    if starts_with_chars(s, pv.as_slice()) {
        Some(slice_chars(s, pv.len(), s.len()))
    } else {
        None
    }
}

/// `str::split_once` with a `char` separator.
pub fn split_once_char(s: &[char], c: char) -> (r: Option<(Vec<char>, Vec<char>)>)
    ensures
        r matches Some(p) ==> split_once(s@, c) == Some((p.0@, p.1@)),
        r is None ==> split_once(s@, c) is None,
{
    proof {
        lemma_char_pos(s@, c);
    }
    match find_char(s, c) {
        Some(i) => {
            assert(i < s.len());
            Some((slice_chars(s, 0, i), slice_chars(s, i + 1, s.len())))
        },
        None => None,
    }
}


/// Splitting `x`, a separator, then `y` gives the pieces of `x`, then those of `y`.
pub proof fn lemma_split_concat(x: Seq<char>, c: char, y: Seq<char>)
    ensures
        split_char(x + seq![c] + y, c) == split_char(x, c) + split_char(y, c),
    decreases x.len(),
{
    let s = x + seq![c] + y;
    lemma_char_pos(x, c);
    lemma_char_pos_from(x, c, 0);
    match char_pos(x, c) {
        Some(i) => {
            lemma_char_pos_is(s, c, i);
            assert(s.take(i) =~= x.take(i));
            assert(s.skip(i + 1) =~= x.skip(i + 1) + seq![c] + y);
            lemma_split_concat(x.skip(i + 1), c, y);
            assert(split_char(s, c) =~= split_char(x, c) + split_char(y, c));
        },
        None => {
            lemma_char_pos_is(s, c, x.len() as int);
            assert(s.take(x.len() as int) =~= x);
            assert(s.skip(x.len() as int + 1) =~= y);
            assert(split_char(s, c) =~= split_char(x, c) + split_char(y, c));
        },
    }
}

/// A text without the separator is one piece.
pub proof fn lemma_split_none(x: Seq<char>, c: char)
    requires
        forall|j: int| 0 <= j < x.len() ==> x[j] != c,
    ensures
        split_char(x, c) == seq![x],
{
    lemma_char_pos_from(x, c, 0);
}

/// Exact position of the first occurrence of `c`.
pub proof fn lemma_char_pos_is(s: Seq<char>, c: char, k: int)
    requires
        0 <= k < s.len(),
        s[k] == c,
        forall|j: int| 0 <= j < k ==> s[j] != c,
    ensures
        char_pos(s, c) == Some(k),
{
    lemma_char_pos(s, c);
}

/// No occurrence of `c`.
pub proof fn lemma_char_pos_none(s: Seq<char>, c: char)
    requires
        forall|j: int| 0 <= j < s.len() ==> s[j] != c,
    ensures
        char_pos(s, c) is None,
{
    lemma_char_pos(s, c);
}

// ---------------------------------------------------------------------------
// Lines (`str::lines`)
// ---------------------------------------------------------------------------

/// A line without its `\r` before the line feed.
pub open spec fn strip_cr(l: Seq<char>) -> Seq<char> {
    if l.len() > 0 && l.last() == '\r' {
        l.drop_last()
    } else {
        l
    }
}

/// `str::lines`: pieces between `\n`, a `\r` before each `\n` removed; a final
/// line ending adds no empty line.
pub open spec fn lines(s: Seq<char>) -> Seq<Seq<char>>
    decreases s.len(),
{
    if s.len() == 0 {
        seq![]
    } else {
        match char_pos(s, '\n') {
            None => seq![s],
            Some(i) => {
                proof {
                    lemma_char_pos(s, '\n');
                }
                seq![strip_cr(s.take(i))] + lines(s.skip(i + 1))
            },
        }
    }
}

/// The character sequences held by a vector of character vectors.
pub open spec fn views(v: Seq<Vec<char>>) -> Seq<Seq<char>> {
    v.map_values(|x: Vec<char>| x@)
}

/// `strip_cr` on a vector.
fn strip_cr_exec(l: Vec<char>) -> (r: Vec<char>)
    ensures
        r@ == strip_cr(l@),
{
    let n = l.len();
    if n > 0 && l[n - 1] == '\r' {
        slice_chars(l.as_slice(), 0, n - 1)
    } else {
        l
    }
}

/// Split text into lines as `str::lines` does.
pub fn lines_of(s: &[char]) -> (r: Vec<Vec<char>>)
    ensures
        views(r@) == lines(s@),
{
    let n = s.len();
    let mut out: Vec<Vec<char>> = Vec::new();
    let mut start: usize = 0;
    let mut i: usize = 0;
    assert(s@.skip(0) =~= s@);
    while i < n
        invariant
            n == s@.len(),
            start <= i <= n,
            forall|j: int| start <= j < i ==> s@[j] != '\n',
            lines(s@) == views(out@) + lines(s@.skip(start as int)),
        decreases n - i,
    {
        if s[i] == '\n' {
            let ghost t = s@.skip(start as int);
            proof {
                lemma_char_pos_is(t, '\n', i - start);
                assert(t.take(i - start) =~= s@.subrange(start as int, i as int));
                assert(t.skip(i - start + 1) =~= s@.skip(i + 1));
            }
            let l = strip_cr_exec(slice_chars(s, start, i));
            let ghost old_out = out@;
            out.push(l);
            assert(views(out@) =~= views(old_out) + seq![l@]);
            start = i + 1;
        }
        i = i + 1;
    }
    let ghost t = s@.skip(start as int);
    if start < n {
        proof {
            lemma_char_pos_none(t, '\n');
            assert(s@.subrange(start as int, n as int) =~= t);
        }
        let l = slice_chars(s, start, n);
        let ghost old_out = out@;
        out.push(l);
        assert(views(out@) =~= views(old_out) + seq![l@]);
    } else {
        assert(views(out@) =~= views(out@) + lines(t));
    }
    out
}

// ---------------------------------------------------------------------------
// Splitting on a character (`str::split` with a `char` pattern)
// ---------------------------------------------------------------------------

/// `str::split(c)`: the pieces between occurrences of `c` (one more piece than separators).
pub open spec fn split_char(s: Seq<char>, c: char) -> Seq<Seq<char>>
    decreases s.len(),
{
    match char_pos(s, c) {
        None => seq![s],
        Some(i) => {
            proof {
                lemma_char_pos(s, c);
            }
            seq![s.take(i)] + split_char(s.skip(i + 1), c)
        },
    }
}

/// Split on a character as `str::split` does.
pub fn split_on_char(s: &[char], c: char) -> (r: Vec<Vec<char>>)
    ensures
        views(r@) == split_char(s@, c),
{
    let n = s.len();
    let mut out: Vec<Vec<char>> = Vec::new();
    let mut start: usize = 0;
    let mut i: usize = 0;
    assert(s@.skip(0) =~= s@);
    while i < n
        invariant
            n == s@.len(),
            start <= i <= n,
            forall|j: int| start <= j < i ==> s@[j] != c,
            split_char(s@, c) == views(out@) + split_char(s@.skip(start as int), c),
        decreases n - i,
    {
        if s[i] == c {
            let ghost t = s@.skip(start as int);
            proof {
                lemma_char_pos_is(t, c, i - start);
                assert(t.take(i - start) =~= s@.subrange(start as int, i as int));
                assert(t.skip(i - start + 1) =~= s@.skip(i + 1));
            }
            let l = slice_chars(s, start, i);
            let ghost old_out = out@;
            out.push(l);
            assert(views(out@) =~= views(old_out) + seq![l@]);
            start = i + 1;
        }
        i = i + 1;
    }
    let ghost t = s@.skip(start as int);
    proof {
        lemma_char_pos_none(t, c);
        assert(s@.subrange(start as int, n as int) =~= t);
    }
    let l = slice_chars(s, start, n);
    let ghost old_out = out@;
    out.push(l);
    assert(views(out@) =~= views(old_out) + seq![l@]);
    out
}

// ---------------------------------------------------------------------------
// Words (`str::split_whitespace`) and joining
// ---------------------------------------------------------------------------

/// Length of the leading run of non-whitespace characters.
pub open spec fn word_len(s: Seq<char>) -> nat
    decreases s.len(),
{
    if s.len() > 0 && !is_white_space(s[0]) {
        1 + word_len(s.drop_first())
    } else {
        0
    }
}

pub proof fn lemma_word_len_bound(s: Seq<char>)
    ensures
        word_len(s) <= s.len(),
    decreases s.len(),
{
    if s.len() > 0 && !is_white_space(s[0]) {
        lemma_word_len_bound(s.drop_first());
    }
}

/// The characterisation of `lead_ws`.
pub proof fn lemma_lead_ws_is(s: Seq<char>, k: int)
    requires
        0 <= k <= s.len(),
        forall|j: int| 0 <= j < k ==> is_white_space(s[j]),
        k == s.len() || !is_white_space(s[k]),
    ensures
        lead_ws(s) == k,
    decreases k,
{
    if k > 0 {
        lemma_lead_ws_is(s.drop_first(), k - 1);
    }
}

/// The characterisation of `word_len`.
pub proof fn lemma_word_len_is(s: Seq<char>, k: int)
    requires
        0 <= k <= s.len(),
        forall|j: int| 0 <= j < k ==> !is_white_space(s[j]),
        k == s.len() || is_white_space(s[k]),
    ensures
        word_len(s) == k,
    decreases k,
{
    if k > 0 {
        lemma_word_len_is(s.drop_first(), k - 1);
    }
}

pub proof fn lemma_lead_ws_stop(s: Seq<char>)
    ensures
        lead_ws(s) <= s.len(),
        lead_ws(s) < s.len() ==> !is_white_space(s[lead_ws(s) as int]),
    decreases s.len(),
{
    if s.len() > 0 && is_white_space(s[0]) {
        lemma_lead_ws_stop(s.drop_first());
    }
}

/// `str::split_whitespace`: the maximal runs of non-whitespace characters.
pub open spec fn words(s: Seq<char>) -> Seq<Seq<char>>
    decreases s.len(),
{
    let t = trim_start(s);
    if t.len() == 0 {
        seq![]
    } else {
        let w = word_len(t);
        proof {
            lemma_lead_ws_stop(s);
            lemma_word_len_bound(t);
            assert(t[0] == s[lead_ws(s) as int]);
            assert(w >= 1);
        }
        seq![t.take(w as int)] + words(t.skip(w as int))
    }
}

/// Pieces joined with a separator between neighbours (`[..].join(sep)`).
pub open spec fn join(pieces: Seq<Seq<char>>, sep: Seq<char>) -> Seq<char>
    decreases pieces.len(),
{
    if pieces.len() == 0 {
        seq![]
    } else if pieces.len() == 1 {
        pieces[0]
    } else {
        join(pieces.drop_last(), sep) + sep + pieces.last()
    }
}

/// A non-empty piece of text without whitespace.
pub open spec fn plain_word(w: Seq<char>) -> bool {
    w.len() > 0 && forall|j: int| 0 <= j < w.len() ==> !is_white_space(#[trigger] w[j])
}

/// The characters before `word_len` are not whitespace.
pub proof fn lemma_word_len_prefix(s: Seq<char>)
    ensures
        forall|j: int| 0 <= j < word_len(s) ==> !is_white_space(#[trigger] s[j]),
    decreases s.len(),
{
    if s.len() > 0 && !is_white_space(s[0]) {
        lemma_word_len_prefix(s.drop_first());
        lemma_word_len_bound(s.drop_first());
        assert forall|j: int| 0 <= j < word_len(s) implies !is_white_space(#[trigger] s[j]) by {
            if j > 0 {
                assert(s[j] == s.drop_first()[j - 1]);
            }
        }
    }
}

/// Every word is a non-empty run of non-whitespace characters.
pub proof fn lemma_words_plain(s: Seq<char>)
    ensures
        forall|i: int| 0 <= i < words(s).len() ==> plain_word(#[trigger] words(s)[i]),
    decreases s.len(),
{
    let t = trim_start(s);
    if t.len() > 0 {
        lemma_lead_ws_stop(s);
        lemma_word_len_bound(t);
        lemma_word_len_prefix(t);
        assert(t[0] == s[lead_ws(s) as int]);
        let w = word_len(t);
        assert(w >= 1);
        lemma_words_plain(t.skip(w as int));
        let ws = words(s);
        assert(ws == seq![t.take(w as int)] + words(t.skip(w as int)));
        assert forall|i: int| 0 <= i < ws.len() implies plain_word(#[trigger] ws[i]) by {
            if i == 0 {
                assert forall|j: int| 0 <= j < ws[0].len() implies !is_white_space(#[trigger] ws[0][j]) by {
                    assert(ws[0][j] == t[j]);
                }
            } else {
                assert(ws[i] == words(t.skip(w as int))[i - 1]);
            }
        }
    }
}

/// Text with the same leading-whitespace-free rest has the same words.
proof fn lemma_words_after_space(r: Seq<char>)
    ensures
        words(seq![' '] + r) == words(r),
{
    let s = seq![' '] + r;
    assert(s.drop_first() =~= r);
    assert(lead_ws(s) == 1 + lead_ws(r));
    lemma_lead_ws_bound(r);
    assert(trim_start(s) =~= trim_start(r));
}

/// A plain word, a space, then more text: the word comes first, then the words of the rest.
pub proof fn lemma_words_word_then(w: Seq<char>, r: Seq<char>)
    requires
        plain_word(w),
    ensures
        words(w + seq![' '] + r) == seq![w] + words(r),
        words(w) == seq![w],
{
    let s = w + seq![' '] + r;
    assert(!is_white_space(s[0]));
    assert(lead_ws(s) == 0);
    assert(trim_start(s) =~= s);
    lemma_word_len_is(s, w.len() as int);
    assert(s.take(w.len() as int) =~= w);
    assert(s.skip(w.len() as int) =~= seq![' '] + r);
    lemma_words_after_space(r);
    assert(words(s) == seq![w] + words(seq![' '] + r));
    assert(!is_white_space(w[0]));
    assert(lead_ws(w) == 0);
    assert(trim_start(w) =~= w);
    lemma_word_len_is(w, w.len() as int);
    assert(w.take(w.len() as int) =~= w);
    assert(w.skip(w.len() as int) =~= Seq::<char>::empty());
    assert(lead_ws(Seq::<char>::empty()) == 0);
    assert(words(Seq::<char>::empty()) =~= Seq::<Seq<char>>::empty());
    assert(words(w) =~= seq![w]);
}

/// Joining splits off the first piece: the first piece, the separator, the rest joined.
pub proof fn lemma_join_front(ws: Seq<Seq<char>>, sep: Seq<char>)
    requires
        ws.len() >= 2,
    ensures
        join(ws, sep) == ws[0] + sep + join(ws.drop_first(), sep),
    decreases ws.len(),
{
    if ws.len() > 2 {
        lemma_join_front(ws.drop_last(), sep);
        assert(ws.drop_last().drop_first() =~= ws.drop_first().drop_last());
        assert(ws.drop_last()[0] == ws[0]);
        assert(ws.drop_first().last() == ws.last());
        assert(join(ws, sep) == join(ws.drop_last(), sep) + sep + ws.last());
        assert(join(ws.drop_first(), sep) == join(ws.drop_first().drop_last(), sep) + sep
            + ws.drop_first().last());
        assert(join(ws, sep) =~= ws[0] + sep + join(ws.drop_first(), sep));
    } else {
        assert(ws.drop_last() =~= seq![ws[0]]);
        assert(ws.drop_first() =~= seq![ws[1]]);
        assert(join(ws.drop_last(), sep) == ws[0]);
        assert(join(ws.drop_first(), sep) == ws[1]);
        assert(join(ws, sep) == join(ws.drop_last(), sep) + sep + ws.last());
        assert(join(ws, sep) =~= ws[0] + sep + join(ws.drop_first(), sep));
    }
}

/// Plain words joined by single spaces split back into the same words.
pub proof fn lemma_words_of_join(ws: Seq<Seq<char>>)
    requires
        forall|i: int| 0 <= i < ws.len() ==> plain_word(#[trigger] ws[i]),
    ensures
        words(join(ws, seq![' '])) == ws,
    decreases ws.len(),
{
    if ws.len() == 0 {
        assert(lead_ws(Seq::<char>::empty()) == 0);
        assert(words(Seq::<char>::empty()) =~= ws);
    } else if ws.len() == 1 {
        lemma_words_word_then(ws[0], Seq::<char>::empty());
        assert(seq![ws[0]] =~= ws);
    } else {
        lemma_join_front(ws, seq![' ']);
        let rest = ws.drop_first();
        assert forall|i: int| 0 <= i < rest.len() implies plain_word(#[trigger] rest[i]) by {
            assert(rest[i] == ws[i + 1]);
        }
        lemma_words_of_join(rest);
        lemma_words_word_then(ws[0], join(rest, seq![' ']));
        assert(seq![ws[0]] + rest =~= ws);
    }
}

/// The words of `s`.
pub fn words_of(s: &[char]) -> (r: Vec<Vec<char>>)
    ensures
        views(r@) == words(s@),
{
    let n = s.len();
    let mut out: Vec<Vec<char>> = Vec::new();
    let mut i: usize = 0;
    assert(s@.skip(0) =~= s@);
    loop
        invariant
            n == s@.len(),
            i <= n,
            words(s@) == views(out@) + words(s@.skip(i as int)),
        decreases n - i,
    {
        let ghost i0 = i;
        while i < n && white_space(s[i])
            invariant
                n == s@.len(),
                i0 <= i <= n,
                forall|j: int| i0 <= j < i ==> is_white_space(s@[j]),
            decreases n - i,
        {
            i = i + 1;
        }
        let ghost x = s@.skip(i0 as int);
        proof {
            lemma_lead_ws_is(x, i - i0);
            assert(trim_start(x) =~= s@.skip(i as int));
        }
        if i == n {
            assert(views(out@) =~= views(out@) + words(x));
            return out;
        }
        let st = i;
        while i < n && !white_space(s[i])
            invariant
                n == s@.len(),
                st <= i <= n,
                forall|j: int| st <= j < i ==> !is_white_space(s@[j]),
            decreases n - i,
        {
            i = i + 1;
        }
        let ghost t = s@.skip(st as int);
        proof {
            lemma_word_len_is(t, i - st);
            assert(t.take(i - st) =~= s@.subrange(st as int, i as int));
            assert(t.skip(i - st) =~= s@.skip(i as int));
        }
        let w = slice_chars(s, st, i);
        let ghost old_out = out@;
        out.push(w);
        assert(views(out@) =~= views(old_out) + seq![w@]);
    }
}

/// Join character vectors with a separator.
pub fn join_chars(pieces: &Vec<Vec<char>>, sep: &[char]) -> (r: Vec<char>)
    ensures
        r@ == join(views(pieces@), sep@),
{
    let mut out: Vec<char> = Vec::new();
    let mut i: usize = 0;
    while i < pieces.len()
        invariant
            i <= pieces@.len(),
            out@ == join(views(pieces@).take(i as int), sep@),
        decreases pieces@.len() - i,
    {
        let ghost pre = views(pieces@).take(i as int);
        assert(views(pieces@).take(i + 1).drop_last() =~= pre);
        if i == 0 {
            out = concat(out.as_slice(), pieces[i].as_slice());
            assert(views(pieces@).take(1) =~= seq![pieces@[0]@]);
        } else {
            let o2 = concat(out.as_slice(), sep);
            out = concat(o2.as_slice(), pieces[i].as_slice());
        }
        i = i + 1;
    }
    assert(views(pieces@).take(pieces@.len() as int) =~= views(pieces@));
    out
}


// ---------------------------------------------------------------------------
// Lexicographic order (`String` ordering)
// ---------------------------------------------------------------------------

/// `a` sorts strictly before `b` character by character (for UTF-8 strings this is
/// the byte order `String::cmp` uses).
pub open spec fn lex_lt(a: Seq<char>, b: Seq<char>) -> bool
    decreases a.len(),
{
    if a.len() == 0 {
        b.len() > 0
    } else if b.len() == 0 {
        false
    } else if a[0] != b[0] {
        (a[0] as u32) < (b[0] as u32)
    } else {
        lex_lt(a.drop_first(), b.drop_first())
    }
}

/// `a < b` in lexicographic order.
pub fn lex_less(a: &[char], b: &[char]) -> (r: bool)
    ensures
        r == lex_lt(a@, b@),
{
    let mut i: usize = 0;
    assert(a@.skip(0) =~= a@ && b@.skip(0) =~= b@);
    while i < a.len() && i < b.len() && a[i] == b[i]
        invariant
            i <= a@.len(),
            i <= b@.len(),
            lex_lt(a@, b@) == lex_lt(a@.skip(i as int), b@.skip(i as int)),
        decreases a@.len() - i,
    {
        assert(a@.skip(i as int).drop_first() =~= a@.skip(i + 1));
        assert(b@.skip(i as int).drop_first() =~= b@.skip(i + 1));
        i = i + 1;
    }
    if i == a.len() {
        i < b.len()
    } else if i == b.len() {
        false
    } else {
        (a[i] as u32) < (b[i] as u32)
    }
}

} // verus!

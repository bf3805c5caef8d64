//! Normalised temperature readings from lm-sensors output: the JSON of `sensors -j`
//! (already decoded into [`Json`]) and the plain text of `sensors`.
//!
//! Temperatures are carried as a type parameter `N`: the JSON walk keeps whatever
//! number values the decoded document holds, and the text parser keeps the decimal
//! literal exactly as printed.

use vstd::prelude::*;
use serde_json::Value;
use crate::text::{
    all_ascii_digits, ascii_lower, char_pos, char_rpos, chars_eq, chars_of, concat, find_char,
    find_chars, find_seq, has_char, matches_at, has_char_exec, is_ascii_digit, is_white_space, lines,
    lines_of, lower_ascii, rfind_char, slice_chars, split_char, split_on_char, split_once,
    split_once_char, string_from_chars, strip_prefix, strip_prefix_str, trim, trim_chars, trim_end,
    trim_end_chars, views, white_space,
};

verus! {

/// One temperature sample from lm-sensors after normalisation.
#[derive(Debug, Clone, PartialEq)]
pub struct SensorReading<N> {
    pub chip: String,
    pub adapter: String,
    pub label: String,
    pub value_c: N,
    pub max_c: Option<N>,
    pub crit_c: Option<N>,
}

/// A reading in specifications: names as character sequences, values of type `V`.
pub struct ReadingSpec<V> {
    pub chip: Seq<char>,
    pub adapter: Seq<char>,
    pub label: Seq<char>,
    pub value: V,
    pub max: Option<V>,
    pub crit: Option<V>,
}

impl<N> SensorReading<N> {
    /// The reading with its names seen as character sequences.
    pub open spec fn spec_of(self) -> ReadingSpec<N> {
        ReadingSpec {
            chip: self.chip@,
            adapter: self.adapter@,
            label: self.label@,
            value: self.value_c,
            max: self.max_c,
            crit: self.crit_c,
        }
    }
}

/// Readings seen through `spec_of`.
pub open spec fn reading_specs<N>(rs: Seq<SensorReading<N>>) -> Seq<ReadingSpec<N>> {
    rs.map_values(|r: SensorReading<N>| r.spec_of())
}

/// Stable id of a series: chip name, `::`, feature label.
pub open spec fn series_id(chip: Seq<char>, label: Seq<char>) -> Seq<char> {
    chip + "::"@ + label
}

/// Ids are stable and tell the series of one chip apart: the same chip and label always
/// give the same id, and two labels of one chip give one id only when they are equal.
pub proof fn lemma_series_id_per_chip(chip: Seq<char>, l1: Seq<char>, l2: Seq<char>)
    ensures
        series_id(chip, l1) == series_id(chip, l2) <==> l1 == l2,
{
    reveal_strlit("::");
    let k = chip.len() + 2;
    assert(series_id(chip, l1).skip(k as int) =~= l1);
    assert(series_id(chip, l2).skip(k as int) =~= l2);
}

/// Stable id for history buffers (chip + feature label).
pub fn stable_series_id<N>(reading: &SensorReading<N>) -> (id: String)
    ensures
        id@ == series_id(reading.chip@, reading.label@),
{
    let c = chars_of(reading.chip.as_str());
    let sep = chars_of("::");
    let l = chars_of(reading.label.as_str());
    let a = concat(c.as_slice(), sep.as_slice());
    let b = concat(a.as_slice(), l.as_slice());
    string_from_chars(b.as_slice())
}

// ---------------------------------------------------------------------------
// JSON (`sensors -j`)
// ---------------------------------------------------------------------------

/// A decoded JSON document whose numbers are values of type `N`. Object members keep
/// the order in which the decoder lists them.
#[verifier::reject_recursive_types(N)]
#[derive(Debug)]
pub enum Json<N> {
    Null,
    Bool(bool),
    Number(N),
    Str(String),
    Array(Vec<Json<N>>),
    Object(Vec<(String, Json<N>)>),
}

/// Why a decoded document yields no readings.
#[derive(Debug, Clone, Copy, PartialEq, Eq)]
pub enum JsonShapeError {
    /// The document root is not an object.
    RootNotObject,
}

/// The first member named `key` (`Map::get`).
pub open spec fn lookup<N>(m: Seq<(String, Json<N>)>, key: Seq<char>) -> Option<Json<N>>
    decreases m.len(),
{
    if m.len() == 0 {
        None
    } else if m[0].0@ == key {
        Some(m[0].1)
    } else {
        lookup(m.drop_first(), key)
    }
}

/// The number held by an optional value.
pub open spec fn number_of<N>(v: Option<Json<N>>) -> Option<N> {
    match v {
        Some(Json::Number(n)) => Some(n),
        _ => None,
    }
}

/// A member lookup finds the first member with the key, and nothing when no member has it.
pub proof fn lemma_lookup_first<N>(m: Seq<(String, Json<N>)>, key: Seq<char>, i: int)
    requires
        0 <= i <= m.len(),
        forall|j: int| 0 <= j < i ==> (#[trigger] m[j]).0@ != key,
        i < m.len() ==> m[i].0@ == key,
    ensures
        lookup(m, key) == if i < m.len() {
            Some(m[i].1)
        } else {
            None::<Json<N>>
        },
    decreases i,
{
    if i > 0 {
        assert(m[0].0@ != key);
        assert forall|j: int| 0 <= j < i - 1 implies (#[trigger] m.drop_first()[j]).0@ != key by {
            assert(m.drop_first()[j] == m[j + 1]);
        }
        if i < m.len() {
            assert(m.drop_first()[i - 1] == m[i]);
        }
        lemma_lookup_first(m.drop_first(), key, i - 1);
    }
}

/// Keys `temp<digits>_input` name temperature inputs, with their digits as index.
pub proof fn lemma_temp_input_key(d: Seq<char>)
    requires
        forall|i: int| 0 <= i < d.len() ==> is_ascii_digit(#[trigger] d[i]),
    ensures
        temp_input_index("temp"@ + d + "_input"@) == Some(d),
{
    reveal_strlit("temp");
    reveal_strlit("_input");
    reveal_strlit("input");
    let k = "temp"@ + d + "_input"@;
    assert(k.take(4) =~= "temp"@);
    let suffix = k.skip(4);
    assert(suffix =~= d + "_input"@);
    assert forall|j: int| 0 <= j < d.len() implies suffix[j] != '_' by {
        assert(suffix[j] == d[j]);
    }
    crate::text::lemma_char_pos_is(suffix, '_', d.len() as int);
    assert(suffix.take(d.len() as int) =~= d);
    assert(suffix.skip(d.len() as int + 1) =~= "input"@);
}

/// The value of a feature comes from its first numeric member whose key is a
/// temperature input (`temp<digits>_input`), whatever follows it.
pub proof fn lemma_first_temp_input_is_first<N>(fm: Seq<(String, Json<N>)>, i: int, idx: Seq<char>, n: N)
    requires
        0 <= i < fm.len(),
        fm[i].1 == Json::Number(n),
        temp_input_index(fm[i].0@) == Some(idx),
        forall|j: int|
            0 <= j < i ==> !((#[trigger] fm[j]).1 is Number && temp_input_index(fm[j].0@) is Some),
    ensures
        first_temp_input(fm) == Some((idx, n)),
    decreases i,
{
    if i > 0 {
        assert(!(fm[0].1 is Number && temp_input_index(fm[0].0@) is Some));
        assert forall|j: int| 0 <= j < i - 1 implies !((#[trigger] fm.drop_first()[j]).1 is Number
            && temp_input_index(fm.drop_first()[j].0@) is Some) by {
            assert(fm.drop_first()[j] == fm[j + 1]);
        }
        assert(fm.drop_first()[i - 1] == fm[i]);
        lemma_first_temp_input_is_first(fm.drop_first(), i - 1, idx, n);
    }
}

/// A limit read from a member value: its number, or nothing when it is not a number.
pub open spec fn limit_of_member<N>(v: Json<N>) -> Option<N> {
    match v {
        Json::Number(c) => Some(c),
        _ => None,
    }
}

/// The limits of a feature read from its `tempN_input` are taken one by one from the
/// first `tempN_max` and `tempN_crit` members of the same index: each is that member's
/// number (nothing when it is not a number, or when there is no such member), whatever
/// the other limit holds.
pub proof fn lemma_feature_limits<N>(
    chip: Seq<char>,
    adapter: Seq<char>,
    feature: Seq<char>,
    fm: Seq<(String, Json<N>)>,
    idx: Seq<char>,
    n: N,
    key: Seq<char>,
    i: int,
)
    requires
        first_temp_input(fm) == Some((idx, n)),
        key == "temp"@ + idx + "_crit"@ || key == "temp"@ + idx + "_max"@,
        0 <= i <= fm.len(),
        forall|j: int| 0 <= j < i ==> (#[trigger] fm[j]).0@ != key,
        i < fm.len() ==> fm[i].0@ == key,
    ensures
        feature_reading(chip, adapter, feature, fm) matches Some(r) && r.value == n && r.chip == chip
            && r.adapter == adapter && r.label == feature && (key == "temp"@ + idx + "_crit"@
            ==> r.crit == (if i < fm.len() {
            limit_of_member(fm[i].1)
        } else {
            None
        })) && (key == "temp"@ + idx + "_max"@ ==> r.max == (if i < fm.len() {
            limit_of_member(fm[i].1)
        } else {
            None
        })),
{
    lemma_lookup_first(fm, key, i);
}

/// `tempN_input` keys: the index `N` (all ASCII digits, possibly empty).
pub open spec fn temp_input_index(k: Seq<char>) -> Option<Seq<char>> {
    match strip_prefix(k, "temp"@) {
        None => None,
        Some(suffix) => match split_once(suffix, '_') {
            None => None,
            Some(parts) => if (forall|i: int|
                0 <= i < parts.0.len() ==> is_ascii_digit(#[trigger] parts.0[i])) && parts.1
                == "input"@ {
                Some(parts.0)
            } else {
                None
            },
        },
    }
}

/// The first numeric `tempN_input` member of a feature: its index and value.
pub open spec fn first_temp_input<N>(fm: Seq<(String, Json<N>)>) -> Option<(Seq<char>, N)>
    decreases fm.len(),
{
    if fm.len() == 0 {
        None
    } else {
        match (fm[0].1, temp_input_index(fm[0].0@)) {
            (Json::Number(n), Some(idx)) => Some((idx, n)),
            _ => first_temp_input(fm.drop_first()),
        }
    }
}

/// The reading of one feature, if it has a numeric `tempN_input`; `tempN_max` and
/// `tempN_crit` of the same index give the limits.
pub open spec fn feature_reading<N>(
    chip: Seq<char>,
    adapter: Seq<char>,
    feature: Seq<char>,
    fm: Seq<(String, Json<N>)>,
) -> Option<ReadingSpec<N>> {
    match first_temp_input(fm) {
        None => None,
        Some(found) => Some(
            ReadingSpec {
                chip,
                adapter,
                label: feature,
                value: found.1,
                max: number_of(lookup(fm, "temp"@ + found.0 + "_max"@)),
                crit: number_of(lookup(fm, "temp"@ + found.0 + "_crit"@)),
            },
        ),
    }
}

/// Readings of the features of one chip, in member order (the `Adapter` member and
/// non-object members are skipped).
pub open spec fn feature_readings<N>(
    chip: Seq<char>,
    adapter: Seq<char>,
    feats: Seq<(String, Json<N>)>,
) -> Seq<ReadingSpec<N>>
    decreases feats.len(),
{
    if feats.len() == 0 {
        seq![]
    } else {
        let here = if feats[0].0@ == "Adapter"@ {
            seq![]
        } else {
            match feats[0].1 {
                Json::Object(fm) => match feature_reading(chip, adapter, feats[0].0@, fm@) {
                    Some(r) => seq![r],
                    None => seq![],
                },
                _ => seq![],
            }
        };
        here + feature_readings(chip, adapter, feats.drop_first())
    }
}

/// The `Adapter` string of a chip object, or empty.
pub open spec fn adapter_name<N>(cm: Seq<(String, Json<N>)>) -> Seq<char> {
    match lookup(cm, "Adapter"@) {
        Some(Json::Str(s)) => s@,
        _ => seq![],
    }
}

/// Readings of all chips, in member order (non-object chips are skipped).
pub open spec fn chip_readings<N>(chips: Seq<(String, Json<N>)>) -> Seq<ReadingSpec<N>>
    decreases chips.len(),
{
    if chips.len() == 0 {
        seq![]
    } else {
        let here = match chips[0].1 {
            Json::Object(cm) => feature_readings(chips[0].0@, adapter_name(cm@), cm@),
            _ => seq![],
        };
        here + chip_readings(chips.drop_first())
    }
}

/// Readings of a `sensors -j` document, or `None` when the root is not an object.
pub open spec fn json_readings<N>(root: Json<N>) -> Option<Seq<ReadingSpec<N>>> {
    match root {
        Json::Object(chips) => Some(chip_readings(chips@)),
        _ => None,
    }
}

/// Every feature object with a numeric `tempN_input` gives a reading of its chip.
proof fn lemma_feature_readings_contain<N>(
    chip: Seq<char>,
    adapter: Seq<char>,
    feats: Seq<(String, Json<N>)>,
    fi: int,
    fm: Vec<(String, Json<N>)>,
)
    requires
        0 <= fi < feats.len(),
        feats[fi].0@ != "Adapter"@,
        feats[fi].1 == Json::Object(fm),
        feature_reading(chip, adapter, feats[fi].0@, fm@) is Some,
    ensures
        feature_readings(chip, adapter, feats).contains(
            feature_reading(chip, adapter, feats[fi].0@, fm@)->0,
        ),
    decreases fi,
{
    let r = feature_reading(chip, adapter, feats[fi].0@, fm@)->0;
    let rest = feature_readings(chip, adapter, feats.drop_first());
    let all = feature_readings(chip, adapter, feats);
    if fi == 0 {
        assert(all[0] == r);
    } else {
        assert(feats.drop_first()[fi - 1] == feats[fi]);
        lemma_feature_readings_contain(chip, adapter, feats.drop_first(), fi - 1, fm);
        let k = choose|k: int| 0 <= k < rest.len() && rest[k] == r;
        let here_len = all.len() - rest.len();
        assert(all[here_len + k] == r);
    }
}

/// Every chip object's readings are among the document's readings.
proof fn lemma_chip_readings_contain<N>(chips: Seq<(String, Json<N>)>, ci: int, cm: Vec<(String, Json<N>)>, r: ReadingSpec<N>)
    requires
        0 <= ci < chips.len(),
        chips[ci].1 == Json::Object(cm),
        feature_readings(chips[ci].0@, adapter_name(cm@), cm@).contains(r),
    ensures
        chip_readings(chips).contains(r),
    decreases ci,
{
    let rest = chip_readings(chips.drop_first());
    let all = chip_readings(chips);
    if ci == 0 {
        let here = feature_readings(chips[0].0@, adapter_name(cm@), cm@);
        let k = choose|k: int| 0 <= k < here.len() && here[k] == r;
        assert(all == here + rest);
        assert(all[k] == r);
    } else {
        assert(chips.drop_first()[ci - 1] == chips[ci]);
        lemma_chip_readings_contain(chips.drop_first(), ci - 1, cm, r);
        let k = choose|k: int| 0 <= k < rest.len() && rest[k] == r;
        let here_len = all.len() - rest.len();
        assert(all[here_len + k] == r);
    }
}

/// Every feature of every chip of a document that has a numeric `tempN_input` gives a
/// reading: named after its chip, the chip's adapter and the feature, with the input's
/// value and with each limit the number under the feature's first `tempN_max` /
/// `tempN_crit` member of that index (nothing when absent or not a number), each read on
/// its own.
pub proof fn lemma_document_feature_reading<N>(
    chips: Vec<(String, Json<N>)>,
    ci: int,
    cm: Vec<(String, Json<N>)>,
    fi: int,
    fm: Vec<(String, Json<N>)>,
    idx: Seq<char>,
    n: N,
    key: Seq<char>,
    i: int,
)
    requires
        0 <= ci < chips@.len(),
        chips@[ci].1 == Json::Object(cm),
        0 <= fi < cm@.len(),
        cm@[fi].0@ != "Adapter"@,
        cm@[fi].1 == Json::Object(fm),
        first_temp_input(fm@) == Some((idx, n)),
        key == "temp"@ + idx + "_crit"@ || key == "temp"@ + idx + "_max"@,
        0 <= i <= fm@.len(),
        forall|j: int| 0 <= j < i ==> (#[trigger] fm@[j]).0@ != key,
        i < fm@.len() ==> fm@[i].0@ == key,
    ensures
        exists|r: ReadingSpec<N>|
            #[trigger] json_readings(Json::Object(chips))->0.contains(r) && r.chip == chips@[ci].0@
                && r.adapter == adapter_name(cm@) && r.label == cm@[fi].0@ && r.value == n && (key
                == "temp"@ + idx + "_crit"@ ==> r.crit == (if i < fm@.len() {
                limit_of_member(fm@[i].1)
            } else {
                None
            })) && (key == "temp"@ + idx + "_max"@ ==> r.max == (if i < fm@.len() {
                limit_of_member(fm@[i].1)
            } else {
                None
            })),
{
    let chip = chips@[ci].0@;
    let adapter = adapter_name(cm@);
    lemma_feature_limits(chip, adapter, cm@[fi].0@, fm@, idx, n, key, i);
    let r = feature_reading(chip, adapter, cm@[fi].0@, fm@)->0;
    lemma_feature_readings_contain(chip, adapter, cm@, fi, fm);
    lemma_chip_readings_contain(chips@, ci, cm, r);
    assert(json_readings(Json::Object(chips))->0.contains(r));
}

fn key_is(k: &String, lit: &str) -> (b: bool)
    ensures
        b == (k@ == lit@),
{
    let a = chars_of(k.as_str());
    let b = chars_of(lit);
    chars_eq(a.as_slice(), b.as_slice())
}

fn lookup_exec<'a, N>(m: &'a Vec<(String, Json<N>)>, key: &[char]) -> (r: Option<&'a Json<N>>)
    ensures
        r matches Some(v) ==> lookup(m@, key@) == Some(*v),
        r is None ==> lookup(m@, key@) is None,
{
    let mut i: usize = 0;
    assert(m@.skip(0) =~= m@);
    while i < m.len()
        invariant
            i <= m@.len(),
            lookup(m@, key@) == lookup(m@.skip(i as int), key@),
        decreases m@.len() - i,
    {
        assert(m@.skip(i as int)[0] == m@[i as int]);
        assert(m@.skip(i as int).drop_first() =~= m@.skip(i + 1));
        let kc = chars_of(m[i].0.as_str());
        if chars_eq(kc.as_slice(), key) {
            return Some(&m[i].1);
        }
        i = i + 1;
    }
    None
}

fn number_exec(v: Option<&Json<String>>) -> (r: Option<String>)
    ensures
        r == number_of(match v {
            Some(x) => Some(*x),
            None => None,
        }),
{
    match v {
        Some(Json::Number(n)) => Some(n.clone()),
        _ => None,
    }
}

fn temp_input_index_exec(k: &String) -> (r: Option<Vec<char>>)
    ensures
        r matches Some(v) ==> temp_input_index(k@) == Some(v@),
        r is None ==> temp_input_index(k@) is None,
{
    let kc = chars_of(k.as_str());
    match strip_prefix_str(kc.as_slice(), "temp") {
        None => None,
        Some(suffix) => match split_once_char(suffix.as_slice(), '_') {
            None => None,
            Some((idx, rest)) => {
                let input = chars_of("input");
                if all_ascii_digits(idx.as_slice()) && chars_eq(rest.as_slice(), input.as_slice()) {
                    Some(idx)
                } else {
                    None
                }
            },
        },
    }
}

fn first_temp_input_exec(fm: &Vec<(String, Json<String>)>) -> (r: Option<(Vec<char>, String)>)
    ensures
        r matches Some(p) ==> first_temp_input(fm@) == Some((p.0@, p.1)),
        r is None ==> first_temp_input(fm@) is None,
{
    let mut i: usize = 0;
    assert(fm@.skip(0) =~= fm@);
    while i < fm.len()
        invariant
            i <= fm@.len(),
            first_temp_input(fm@) == first_temp_input(fm@.skip(i as int)),
        decreases fm@.len() - i,
    {
        assert(fm@.skip(i as int)[0] == fm@[i as int]);
        assert(fm@.skip(i as int).drop_first() =~= fm@.skip(i + 1));
        match &fm[i].1 {
            Json::Number(n) => {
                match temp_input_index_exec(&fm[i].0) {
                    Some(idx) => {
                        return Some((idx, n.clone()));
                    },
                    None => {},
                }
            },
            _ => {},
        }
        i = i + 1;
    }
    None
}

fn limit_key(idx: &[char], suffix: &str) -> (k: Vec<char>)
    ensures
        k@ == "temp"@ + idx@ + suffix@,
{
    let t = chars_of("temp");
    let s = chars_of(suffix);
    let a = concat(t.as_slice(), idx);
    concat(a.as_slice(), s.as_slice())
}

fn copy_string(s: &String) -> (r: String)
    ensures
        r@ == s@,
{
    string_from_chars(chars_of(s.as_str()).as_slice())
}

fn feature_readings_exec(
    chip: &String,
    adapter: &String,
    feats: &Vec<(String, Json<String>)>,
    out: &mut Vec<SensorReading<String>>,
)
    ensures
        reading_specs(final(out)@) == reading_specs(old(out)@) + feature_readings(
            chip@,
            adapter@,
            feats@,
        ),
{
    let mut i: usize = 0;
    let ghost start = reading_specs(out@);
    assert(feats@.skip(0) =~= feats@);
    assert(start + seq![] =~= start);
    while i < feats.len()
        invariant
            i <= feats@.len(),
            start + feature_readings(chip@, adapter@, feats@) == reading_specs(out@)
                + feature_readings(chip@, adapter@, feats@.skip(i as int)),
        decreases feats@.len() - i,
    {
        let ghost rest = feats@.skip(i as int);
        assert(rest[0] == feats@[i as int]);
        assert(rest.drop_first() =~= feats@.skip(i + 1));
        let ghost before = reading_specs(out@);
        if !key_is(&feats[i].0, "Adapter") {
            match &feats[i].1 {
                Json::Object(fm) => {
                    match first_temp_input_exec(fm) {
                        Some((idx, n)) => {
                            let kmax = limit_key(idx.as_slice(), "_max");
                            let kcrit = limit_key(idx.as_slice(), "_crit");
                            let max_c = number_exec(lookup_exec(fm, kmax.as_slice()));
                            let crit_c = number_exec(lookup_exec(fm, kcrit.as_slice()));
                            let r = SensorReading {
                                chip: copy_string(chip),
                                adapter: copy_string(adapter),
                                label: copy_string(&feats[i].0),
                                value_c: n,
                                max_c,
                                crit_c,
                            };
                            out.push(r);
                            assert(reading_specs(out@) =~= before + seq![r.spec_of()]);
                        },
                        None => {},
                    }
                },
                _ => {},
            }
        }
        i = i + 1;
    }
    assert(feats@.skip(feats@.len() as int) =~= Seq::<(String, Json<String>)>::empty());
}

/// Readings of a decoded `sensors -j` document: for each chip object (member order),
/// for each feature object except `Adapter`, the first numeric `tempN_input` member,
/// with `tempN_max` / `tempN_crit` as limits (numbers kept as their literal text). A
/// root that is not an object is an error.
pub fn readings_from_json(root: &Json<String>) -> (r: Result<Vec<SensorReading<String>>, JsonShapeError>)
    ensures
        r matches Ok(v) ==> json_readings(*root) == Some(reading_specs(v@)),
        r is Err ==> json_readings(*root) is None,
{
    let chips = match root {
        Json::Object(chips) => chips,
        _ => {
            return Err(JsonShapeError::RootNotObject);
        },
    };
    let mut out: Vec<SensorReading<String>> = Vec::new();
    let mut i: usize = 0;
    assert(chips@.skip(0) =~= chips@);
    assert(reading_specs(out@) =~= Seq::<ReadingSpec<String>>::empty());
    while i < chips.len()
        invariant
            i <= chips@.len(),
            chip_readings(chips@) == reading_specs(out@) + chip_readings(chips@.skip(i as int)),
        decreases chips@.len() - i,
    {
        let ghost rest = chips@.skip(i as int);
        assert(rest[0] == chips@[i as int]);
        assert(rest.drop_first() =~= chips@.skip(i + 1));
        match &chips[i].1 {
            Json::Object(cm) => {
                let adapter = match lookup_exec(cm, chars_of("Adapter").as_slice()) {
                    Some(Json::Str(s)) => copy_string(s),
                    _ => String::new(),
                };
                feature_readings_exec(&chips[i].0, &adapter, cm, &mut out);
            },
            _ => {},
        }
        i = i + 1;
    }
    assert(chips@.skip(chips@.len() as int) =~= Seq::<(String, Json<String>)>::empty());
    assert(reading_specs(out@) + Seq::<ReadingSpec<String>>::empty() =~= reading_specs(out@));
    Ok(out)
}

/// What `serde_json::from_str::<serde_json::Value>` makes of a text: `None` when it
/// rejects the text, else the document (objects with their members in key order, as
/// serde_json's map keeps them) with every number kept as the text serde_json writes
/// for it.
pub uninterp spec fn decoded_json(raw: Seq<char>) -> Option<Json<String>>;

/// `serde_json::from_str::<serde_json::Value>`, the value taken one for one into the
/// library's document type; each nested value is taken by decoding the text serde_json
/// writes for it. The result is named: as serde_json's source shows, it depends on the
/// text alone.
#[verifier::external_body]
fn decode_json(raw: &str) -> (r: Option<Json<String>>)
    ensures
        r == decoded_json(raw@),
{
    let inner = |x: &Value| decode_json(&x.to_string());
    Some(match serde_json::from_str::<Value>(raw).ok()? {
        Value::Null => Json::Null,
        Value::Bool(b) => Json::Bool(b),
        Value::Number(n) => Json::Number(n.to_string()),
        Value::String(t) => Json::Str(t),
        Value::Array(a) => Json::Array(a.iter().map(inner).collect::<Option<Vec<_>>>()?),
        Value::Object(m) => Json::Object(m.iter().map(|(k, x)| Some((k.clone(), inner(x)?))).collect::<Option<Vec<_>>>()?),
    })
}

/// Why `sensors -j` output yields no readings.
#[derive(Debug, Clone, Copy, PartialEq, Eq)]
pub enum JsonParseError {
    /// serde_json rejects the text.
    Invalid,
    /// The document root is not an object.
    RootNotObject,
}

/// Parse JSON produced by `sensors -j`: decode the text, then read the readings of the
/// document (numbers kept as their literal text).
pub fn parse_json(raw: &str) -> (r: Result<Vec<SensorReading<String>>, JsonParseError>)
    ensures
        decoded_json(raw@) is None ==> r == Err::<Vec<SensorReading<String>>, JsonParseError>(
            JsonParseError::Invalid,
        ),
        decoded_json(raw@) matches Some(root) ==> match json_readings(root) {
            None => r == Err::<Vec<SensorReading<String>>, JsonParseError>(
                JsonParseError::RootNotObject,
            ),
            Some(s) => r matches Ok(v) && reading_specs(v@) == s,
        },
{
    match decode_json(raw) {
        None => Err(JsonParseError::Invalid),
        Some(root) => match readings_from_json(&root) {
            Ok(v) => Ok(v),
            Err(_) => Err(JsonParseError::RootNotObject),
        },
    }
}


// ---------------------------------------------------------------------------
// Decimal literals (`f64::from_str` acceptance)
// ---------------------------------------------------------------------------

/// Number of leading ASCII digits.
pub open spec fn digit_run(s: Seq<char>) -> nat
    decreases s.len(),
{
    if s.len() > 0 && is_ascii_digit(s[0]) {
        1 + digit_run(s.drop_first())
    } else {
        0
    }
}

/// Number of leading copies of `c`.
pub open spec fn char_run(s: Seq<char>, c: char) -> nat
    decreases s.len(),
{
    if s.len() > 0 && s[0] == c {
        1 + char_run(s.drop_first(), c)
    } else {
        0
    }
}

/// `str::trim_start_matches(c)`: `s` without its leading copies of `c`.
pub open spec fn trim_start_char(s: Seq<char>, c: char) -> Seq<char> {
    s.skip(char_run(s, c) as int)
}

/// Every character is an ASCII digit.
pub open spec fn all_digits(s: Seq<char>) -> bool {
    forall|i: int| 0 <= i < s.len() ==> is_ascii_digit(#[trigger] s[i])
}

/// An optional exponent: nothing, or `e`/`E`, an optional sign and at least one digit.
pub open spec fn exponent_ok(r: Seq<char>) -> bool {
    r.len() == 0 || ((r[0] == 'e' || r[0] == 'E') && {
        let r3 = r.drop_first();
        let r4 = if r3.len() > 0 && (r3[0] == '+' || r3[0] == '-') {
            r3.drop_first()
        } else {
            r3
        };
        r4.len() > 0 && all_digits(r4)
    })
}

/// `Digit+ | Digit+ '.' Digit* | Digit* '.' Digit+`, then an optional exponent.
pub open spec fn decimal_ok(t: Seq<char>) -> bool {
    let a = digit_run(t);
    let r = t.skip(a as int);
    if r.len() > 0 && r[0] == '.' {
        let f = r.drop_first();
        let b = digit_run(f);
        a + b >= 1 && exponent_ok(f.skip(b as int))
    } else {
        a >= 1 && exponent_ok(r)
    }
}

/// The strings `f64::from_str` accepts: an optional sign, then `inf`, `infinity`, `nan`
/// (any ASCII case) or a decimal number.
pub open spec fn float_literal(s: Seq<char>) -> bool {
    let t = if s.len() > 0 && (s[0] == '+' || s[0] == '-') {
        s.drop_first()
    } else {
        s
    };
    let l = ascii_lower(t);
    l == "inf"@ || l == "infinity"@ || l == "nan"@ || decimal_ok(t)
}

pub proof fn lemma_digit_run_is(s: Seq<char>, k: int)
    requires
        0 <= k <= s.len(),
        forall|j: int| 0 <= j < k ==> is_ascii_digit(s[j]),
        k == s.len() || !is_ascii_digit(s[k]),
    ensures
        digit_run(s) == k,
    decreases k,
{
    if k > 0 {
        lemma_digit_run_is(s.drop_first(), k - 1);
    }
}

pub proof fn lemma_char_run_is(s: Seq<char>, c: char, k: int)
    requires
        0 <= k <= s.len(),
        forall|j: int| 0 <= j < k ==> s[j] == c,
        k == s.len() || s[k] != c,
    ensures
        char_run(s, c) == k,
    decreases k,
{
    if k > 0 {
        lemma_char_run_is(s.drop_first(), c, k - 1);
    }
}

/// End of the run of ASCII digits starting at `i`.
fn digit_run_end(s: &[char], i: usize) -> (j: usize)
    requires
        i <= s@.len(),
    ensures
        i <= j <= s@.len(),
        j - i == digit_run(s@.skip(i as int)),
{
    let mut j = i;
    while j < s.len() && '0' <= s[j] && s[j] <= '9'
        invariant
            i <= j <= s@.len(),
            forall|m: int| i <= m < j ==> is_ascii_digit(s@[m]),
        decreases s@.len() - j,
    {
        j = j + 1;
    }
    proof {
        lemma_digit_run_is(s@.skip(i as int), j - i);
    }
    j
}

/// `str::trim_start_matches(c)` on characters.
pub fn trim_start_char_exec(s: &[char], c: char) -> (r: Vec<char>)
    ensures
        r@ == trim_start_char(s@, c),
{
    let mut j: usize = 0;
    while j < s.len() && s[j] == c
        invariant
            j <= s@.len(),
            forall|m: int| 0 <= m < j ==> s@[m] == c,
        decreases s@.len() - j,
    {
        j = j + 1;
    }
    proof {
        lemma_char_run_is(s@, c, j as int);
    }
    slice_chars(s, j, s.len())
}

fn all_digits_from(s: &[char], i: usize) -> (b: bool)
    requires
        i <= s@.len(),
    ensures
        b == all_digits(s@.skip(i as int)),
{
    let j = digit_run_end(s, i);
    proof {
        let t = s@.skip(i as int);
        if j < s@.len() {
            assert(!is_ascii_digit(t[j - i])) by {
                lemma_digit_run_stop(t);
            }
        } else {
            assert forall|m: int| 0 <= m < t.len() implies is_ascii_digit(#[trigger] t[m]) by {
                lemma_digit_run_prefix(t, m);
            }
        }
    }
    j == s.len()
}

pub proof fn lemma_digit_run_stop(s: Seq<char>)
    ensures
        digit_run(s) <= s.len(),
        digit_run(s) < s.len() ==> !is_ascii_digit(s[digit_run(s) as int]),
    decreases s.len(),
{
    if s.len() > 0 && is_ascii_digit(s[0]) {
        lemma_digit_run_stop(s.drop_first());
    }
}

pub proof fn lemma_digit_run_prefix(s: Seq<char>, m: int)
    requires
        0 <= m < digit_run(s),
    ensures
        is_ascii_digit(s[m]),
    decreases s.len(),
{
    lemma_digit_run_stop(s);
    assert(s.len() > 0 && is_ascii_digit(s[0]));
    if m > 0 {
        lemma_digit_run_prefix(s.drop_first(), m - 1);
        assert(s.drop_first()[m - 1] == s[m]);
    }
}

fn exponent_ok_from(s: &[char], i: usize) -> (b: bool)
    requires
        i <= s@.len(),
    ensures
        b == exponent_ok(s@.skip(i as int)),
{
    let n = s.len();
    if i == n {
        return true;
    }
    let ghost r = s@.skip(i as int);
    if s[i] != 'e' && s[i] != 'E' {
        return false;
    }
    let mut j = i + 1;
    assert(r.drop_first() =~= s@.skip(j as int));
    if j < n && (s[j] == '+' || s[j] == '-') {
        assert(s@.skip(j as int).drop_first() =~= s@.skip(j + 1));
        j = j + 1;
    }
    if j == n {
        return false;
    }
    all_digits_from(s, j)
}

fn decimal_ok_exec(t: &[char]) -> (b: bool)
    ensures
        b == decimal_ok(t@),
{
    assert(t@.skip(0) =~= t@);
    let a = digit_run_end(t, 0);
    if a < t.len() && t[a] == '.' {
        assert(t@.skip(a as int).drop_first() =~= t@.skip(a + 1));
        let e = digit_run_end(t, a + 1);
        assert(t@.skip(a + 1).skip(e - (a + 1)) =~= t@.skip(e as int));
        a + (e - (a + 1)) >= 1 && exponent_ok_from(t, e)
    } else {
        a >= 1 && exponent_ok_from(t, a)
    }
}

fn lower_is(l: &[char], lit: &str) -> (b: bool)
    ensures
        b == (l@ == lit@),
{
    let v = chars_of(lit);
    chars_eq(l, v.as_slice())
}

/// Whether `f64::from_str` accepts the characters.
pub fn is_float_literal(s: &[char]) -> (b: bool)
    ensures
        b == float_literal(s@),
{
    let start: usize = if s.len() > 0 && (s[0] == '+' || s[0] == '-') {
        1
    } else {
        0
    };
    let t = slice_chars(s, start, s.len());
    assert(t@ =~= (if s@.len() > 0 && (s@[0] == '+' || s@[0] == '-') {
        s@.drop_first()
    } else {
        s@
    }));
    let l = lower_ascii(t.as_slice());
    if lower_is(l.as_slice(), "inf") || lower_is(l.as_slice(), "infinity") || lower_is(
        l.as_slice(),
        "nan",
    ) {
        return true;
    }
    decimal_ok_exec(t.as_slice())
}

// ---------------------------------------------------------------------------
// Plain `sensors` text
// ---------------------------------------------------------------------------

/// A temperature read from one line of `sensors` text: label, value literal, `high`
/// and `crit` literals.
pub struct TextParsed {
    pub label: String,
    pub value_c: String,
    pub max_c: Option<String>,
    pub crit_c: Option<String>,
}

/// `key = <number>` inside a part such as `high = +80.0°C`: the number literal after
/// `key =` (leading `+` removed, cut at `°`, trimmed), if `f64::from_str` accepts it.
pub open spec fn temp_assignment(part: Seq<char>, key: Seq<char>) -> Option<Seq<char>> {
    let needle = key + " ="@;
    match find_seq(part, needle) {
        None => None,
        Some(idx) => {
            let tail = trim_start_char(trim(part.skip(idx + needle.len())), '+');
            let end = match char_pos(tail, '°') {
                Some(e) => e,
                None => tail.len() as int,
            };
            let num = trim(tail.take(end));
            if float_literal(num) {
                Some(num)
            } else {
                None
            }
        },
    }
}

/// Limits gathered so far: (`high`, `crit`).
pub type Limits = (Option<Seq<char>>, Option<Seq<char>>);

/// One comma-separated part of the parenthesised limits: a `high =` value sets the
/// maximum; otherwise a `crit =` value sets the critical limit.
pub open spec fn limits_step(acc: Limits, part: Seq<char>) -> Limits {
    let p = trim(part);
    match temp_assignment(p, "high"@) {
        Some(v) => (Some(v), acc.1),
        None => match temp_assignment(p, "crit"@) {
            Some(v) => (acc.0, Some(v)),
            None => acc,
        },
    }
}

/// Fold `limits_step` over the parts from left to right.
pub open spec fn limits_fold(parts: Seq<Seq<char>>, acc: Limits) -> Limits
    decreases parts.len(),
{
    if parts.len() == 0 {
        acc
    } else {
        limits_fold(parts.drop_first(), limits_step(acc, parts[0]))
    }
}

/// A limits part that leaves the critical limit alone: it sets `high`, or has no
/// readable `crit =` value.
pub open spec fn keeps_crit(part: Seq<char>) -> bool {
    temp_assignment(trim(part), "high"@) is Some || temp_assignment(trim(part), "crit"@) is None
}

/// Parts that do not set a limit leave it as it was.
proof fn lemma_limits_kept(parts: Seq<Seq<char>>, acc: Limits)
    ensures
        (forall|j: int| 0 <= j < parts.len() ==> temp_assignment(trim(#[trigger] parts[j]), "high"@) is None)
            ==> limits_fold(parts, acc).0 == acc.0,
        (forall|j: int| 0 <= j < parts.len() ==> keeps_crit(#[trigger] parts[j])) ==> limits_fold(parts, acc).1
            == acc.1,
    decreases parts.len(),
{
    if parts.len() > 0 {
        let rest = parts.drop_first();
        lemma_limits_kept(rest, limits_step(acc, parts[0]));
        assert forall|j: int| 0 <= j < rest.len() implies rest[j] == parts[j + 1] by {}
    }
}

/// The last part that sets a limit decides it, whatever the other limit and the parts
/// before it hold: the last readable `high =` value is the maximum, and the last part
/// with a readable `crit =` value (and no `high =` value) is the critical limit.
pub proof fn lemma_limits_last_assignment(parts: Seq<Seq<char>>, acc: Limits, k: int, v: Seq<char>)
    requires
        0 <= k < parts.len(),
    ensures
        temp_assignment(trim(parts[k]), "high"@) == Some(v) && (forall|j: int|
            k < j < parts.len() ==> temp_assignment(trim(#[trigger] parts[j]), "high"@) is None)
            ==> limits_fold(parts, acc).0 == Some(v),
        temp_assignment(trim(parts[k]), "high"@) is None && temp_assignment(trim(parts[k]), "crit"@)
            == Some(v) && (forall|j: int| k < j < parts.len() ==> keeps_crit(#[trigger] parts[j]))
            ==> limits_fold(parts, acc).1 == Some(v),
    decreases k,
{
    let rest = parts.drop_first();
    assert forall|j: int| 0 <= j < rest.len() implies rest[j] == parts[j + 1] by {}
    if k == 0 {
        let next = limits_step(acc, parts[0]);
        lemma_limits_kept(rest, next);
        if (forall|j: int| 0 < j < parts.len() ==> temp_assignment(trim(#[trigger] parts[j]), "high"@) is None) {
            assert forall|j: int| 0 <= j < rest.len() implies temp_assignment(trim(#[trigger] rest[j]), "high"@) is None by {
                assert(rest[j] == parts[j + 1]);
            }
        }
        if (forall|j: int| 0 < j < parts.len() ==> keeps_crit(#[trigger] parts[j])) {
            assert forall|j: int| 0 <= j < rest.len() implies keeps_crit(#[trigger] rest[j]) by {
                assert(rest[j] == parts[j + 1]);
            }
        }
    } else {
        lemma_limits_last_assignment(rest, limits_step(acc, parts[0]), k - 1, v);
        assert(rest[k - 1] == parts[k]);
        if (forall|j: int| k < j < parts.len() ==> temp_assignment(trim(#[trigger] parts[j]), "high"@) is None) {
            assert forall|j: int| k - 1 < j < rest.len() implies temp_assignment(trim(#[trigger] rest[j]), "high"@) is None by {
                assert(rest[j] == parts[j + 1]);
            }
        }
        if (forall|j: int| k < j < parts.len() ==> keeps_crit(#[trigger] parts[j])) {
            assert forall|j: int| k - 1 < j < rest.len() implies keeps_crit(#[trigger] rest[j]) by {
                assert(rest[j] == parts[j + 1]);
            }
        }
    }
}

/// The value literal of a sensor line's right-hand side: text before `°`, trimmed,
/// leading `+` removed.
pub open spec fn number_part(rest: Seq<char>, deg: int) -> Seq<char> {
    trim_start_char(trim(rest.take(deg)), '+')
}

/// Label, value, high and crit of a line `label: +45.0°C  (high = +80.0°C, crit = +90.0°C)`.
pub open spec fn sensor_line(line: Seq<char>) -> Option<
    (Seq<char>, Seq<char>, Option<Seq<char>>, Option<Seq<char>>),
> {
    match split_once(line, ':') {
        None => None,
        Some(lr) => {
            let label = trim(lr.0);
            let rest = trim(lr.1);
            match char_pos(rest, '°') {
                None => None,
                Some(deg) => {
                    let num = number_part(rest, deg);
                    if !float_literal(num) {
                        None
                    } else {
                        let lim = match (char_pos(rest, '('), char_rpos(rest, ')')) {
                            (Some(open), Some(close)) => limits_fold(
                                split_char(rest.subrange(open + 1, close), ','),
                                (None, None),
                            ),
                            _ => (None, None),
                        };
                        Some((label, num, lim.0, lim.1))
                    }
                },
            }
        },
    }
}

/// The comma-separated parts between the first `(` and the last `)` of a sensor line's
/// right-hand side (none when it has no such pair).
pub open spec fn limit_parts(line: Seq<char>) -> Seq<Seq<char>> {
    match split_once(line, ':') {
        None => seq![],
        Some(lr) => {
            let rest = trim(lr.1);
            match (char_pos(rest, '('), char_rpos(rest, ')')) {
                (Some(open), Some(close)) => split_char(rest.subrange(open + 1, close), ','),
                _ => seq![],
            }
        },
    }
}

/// A sensor line's limits come from its parenthesised parts, each limit from the last
/// part that sets it, whatever the other parts hold: the maximum from the last readable
/// `high =` value, the critical limit from the last part with a readable `crit =` value
/// and no `high =` value; a limit no part sets is absent.
pub proof fn lemma_sensor_line_limits(line: Seq<char>, k: int, v: Seq<char>)
    ensures
        sensor_line(line) matches Some(t) ==> {
            let parts = limit_parts(line);
            &&& (0 <= k < parts.len() && temp_assignment(trim(parts[k]), "high"@) == Some(v)
                && (forall|j: int|
                k < j < parts.len() ==> temp_assignment(trim(#[trigger] parts[j]), "high"@) is None))
                ==> t.2 == Some(v)
            &&& (0 <= k < parts.len() && temp_assignment(trim(parts[k]), "high"@) is None
                && temp_assignment(trim(parts[k]), "crit"@) == Some(v) && (forall|j: int|
                k < j < parts.len() ==> keeps_crit(#[trigger] parts[j]))) ==> t.3 == Some(v)
            &&& (forall|j: int| 0 <= j < parts.len() ==> temp_assignment(trim(#[trigger] parts[j]), "high"@) is None) ==> t.2 is None
            &&& (forall|j: int| 0 <= j < parts.len() ==> keeps_crit(#[trigger] parts[j])) ==> t.3 is None
        },
{
    let parts = limit_parts(line);
    let none: Limits = (None, None);
    lemma_limits_kept(parts, none);
    if 0 <= k < parts.len() {
        lemma_limits_last_assignment(parts, none, k, v);
    }
}

/// The line has a last `)` before its first `(`, where slicing the limits panics.
pub open spec fn sensor_line_panics(line: Seq<char>) -> bool {
    match split_once(line, ':') {
        None => false,
        Some(lr) => {
            let rest = trim(lr.1);
            match char_pos(rest, '°') {
                None => false,
                Some(deg) => float_literal(number_part(rest, deg)) && match (
                    char_pos(rest, '('),
                    char_rpos(rest, ')'),
                ) {
                    (Some(open), Some(close)) => close <= open,
                    _ => false,
                },
            }
        },
    }
}

/// State carried from line to line: current chip and adapter names.
pub type TextState = (Seq<char>, Seq<char>);

/// One line of `sensors` text: a blank line ends a chip block; `Adapter:` sets the
/// adapter; a line without both `:` and `°` names the chip when none is set and it
/// does not start with whitespace; other lines are sensor lines, kept when a chip is set.
pub open spec fn text_step(st: TextState, line: Seq<char>) -> (TextState, Option<ReadingSpec<Seq<char>>>) {
    let l = trim_end(line);
    if l.len() == 0 {
        ((seq![], seq![]), None)
    } else {
        match strip_prefix(l, "Adapter:"@) {
            Some(rest) => ((st.0, trim(rest)), None),
            None => if !has_char(l, ':') || !has_char(l, '°') {
                if st.0.len() == 0 && !is_white_space(l[0]) {
                    ((trim(l), st.1), None)
                } else {
                    (st, None)
                }
            } else {
                match sensor_line(l) {
                    None => (st, None),
                    Some(p) => if st.0.len() == 0 {
                        (st, None)
                    } else {
                        (
                            st,
                            Some(
                                ReadingSpec {
                                    chip: st.0,
                                    adapter: st.1,
                                    label: p.0,
                                    value: p.1,
                                    max: p.2,
                                    crit: p.3,
                                },
                            ),
                        )
                    },
                }
            },
        }
    }
}

/// Readings of the lines, starting in state `st`.
pub open spec fn text_readings_from(ls: Seq<Seq<char>>, st: TextState) -> Seq<ReadingSpec<Seq<char>>>
    decreases ls.len(),
{
    if ls.len() == 0 {
        seq![]
    } else {
        let (st2, r) = text_step(st, ls[0]);
        let here = match r {
            Some(x) => seq![x],
            None => seq![],
        };
        here + text_readings_from(ls.drop_first(), st2)
    }
}

/// Readings of plain `sensors` text.
pub open spec fn text_readings(raw: Seq<char>) -> Seq<ReadingSpec<Seq<char>>> {
    text_readings_from(lines(raw), (seq![], seq![]))
}

/// A line on which the parser reaches the limits slicing and it panics.
pub open spec fn line_panics(line: Seq<char>) -> bool {
    let l = trim_end(line);
    l.len() > 0 && strip_prefix(l, "Adapter:"@) is None && has_char(l, ':') && has_char(l, '°')
        && sensor_line_panics(l)
}

/// No line of the text makes the parser panic.
pub open spec fn text_parses(raw: Seq<char>) -> bool {
    forall|i: int| 0 <= i < lines(raw).len() ==> !line_panics(#[trigger] lines(raw)[i])
}

/// A text reading in specifications (value literals as character sequences).
pub open spec fn text_spec_of(r: SensorReading<String>) -> ReadingSpec<Seq<char>> {
    ReadingSpec {
        chip: r.chip@,
        adapter: r.adapter@,
        label: r.label@,
        value: r.value_c@,
        max: match r.max_c {
            Some(m) => Some(m@),
            None => None,
        },
        crit: match r.crit_c {
            Some(c) => Some(c@),
            None => None,
        },
    }
}

/// Text readings seen through `text_spec_of`.
pub open spec fn text_specs(rs: Seq<SensorReading<String>>) -> Seq<ReadingSpec<Seq<char>>> {
    rs.map_values(|r: SensorReading<String>| text_spec_of(r))
}

/// `parse_temp_assignment`: the number after `key =` in a part.
pub fn parse_temp_assignment(part: &[char], key: &str) -> (r: Option<Vec<char>>)
    ensures
        r matches Some(v) ==> temp_assignment(part@, key@) == Some(v@),
        r is None ==> temp_assignment(part@, key@) is None,
{
    let k = chars_of(key);
    let eq = chars_of(" =");
    let needle = concat(k.as_slice(), eq.as_slice());
    match find_chars(part, needle.as_slice()) {
        None => None,
        Some(idx) => {
            proof {
                crate::text::lemma_find_seq(part@, needle@);
                assert(find_seq(part@, needle@) == Some(idx as int));
                assert(matches_at(part@, needle@, idx as int));
                assert(idx + needle@.len() <= part@.len());
            }
            let plen = part.len();
            assert(plen == part@.len());
            let after = slice_chars(part, idx + needle.len(), plen);
            let t0 = trim_chars(after.as_slice());
            let tail = trim_start_char_exec(t0.as_slice(), '+');
            proof {
                crate::text::lemma_char_pos(tail@, '°');
            }
            let end = match find_char(tail.as_slice(), '°') {
                Some(e) => e,
                None => tail.len(),
            };
            let head = slice_chars(tail.as_slice(), 0, end);
            let num = trim_chars(head.as_slice());
            if is_float_literal(num.as_slice()) {
                Some(num)
            } else {
                None
            }
        },
    }
}

/// `parse_text_sensor_line`: label, value and limits of one sensor line.
pub fn parse_text_sensor_line(line: &[char]) -> (r: Option<TextParsed>)
    requires
        !sensor_line_panics(line@),
    ensures
        r matches Some(p) ==> sensor_line(line@) == Some(
            (
                p.label@,
                p.value_c@,
                match p.max_c {
                    Some(m) => Some(m@),
                    None => None,
                },
                match p.crit_c {
                    Some(c) => Some(c@),
                    None => None,
                },
            ),
        ),
        r is None ==> sensor_line(line@) is None,
{
    let (left, right) = match split_once_char(line, ':') {
        Some(lr) => lr,
        None => {
            return None;
        },
    };
    let label = trim_chars(left.as_slice());
    let rest = trim_chars(right.as_slice());
    proof {
        crate::text::lemma_char_pos(rest@, '°');
    }
    let deg = match find_char(rest.as_slice(), '°') {
        Some(d) => d,
        None => {
            return None;
        },
    };
    let head = slice_chars(rest.as_slice(), 0, deg);
    let th = trim_chars(head.as_slice());
    let num = trim_start_char_exec(th.as_slice(), '+');
    if !is_float_literal(num.as_slice()) {
        return None;
    }
    let mut max_c: Option<Vec<char>> = None;
    let mut crit_c: Option<Vec<char>> = None;
    proof {
        crate::text::lemma_char_pos(rest@, '(');
        crate::text::lemma_char_rpos_below(rest@, ')', rest@.len() as int);
    }
    if let Some(open) = find_char(rest.as_slice(), '(') {
        if let Some(close) = rfind_char(rest.as_slice(), ')') {
            let inside = slice_chars(rest.as_slice(), open + 1, close);
            let parts = split_on_char(inside.as_slice(), ',');
            let mut i: usize = 0;
            assert(views(parts@).skip(0) =~= views(parts@));
            while i < parts.len()
                invariant
                    i <= parts@.len(),
                    limits_fold(views(parts@), (None, None)) == limits_fold(
                        views(parts@).skip(i as int),
                        (opt_view(max_c), opt_view(crit_c)),
                    ),
                decreases parts@.len() - i,
            {
                let ghost rest_parts = views(parts@).skip(i as int);
                assert(rest_parts[0] == parts@[i as int]@);
                assert(rest_parts.drop_first() =~= views(parts@).skip(i + 1));
                let p = trim_chars(parts[i].as_slice());
                match parse_temp_assignment(p.as_slice(), "high") {
                    Some(v) => {
                        max_c = Some(v);
                    },
                    None => match parse_temp_assignment(p.as_slice(), "crit") {
                        Some(v) => {
                            crit_c = Some(v);
                        },
                        None => {},
                    },
                }
                i = i + 1;
            }
        }
    }
    Some(
        TextParsed {
            label: string_from_chars(label.as_slice()),
            value_c: string_from_chars(num.as_slice()),
            max_c: opt_string(max_c),
            crit_c: opt_string(crit_c),
        },
    )
}

/// The characters held by an optional vector.
pub open spec fn opt_view(v: Option<Vec<char>>) -> Option<Seq<char>> {
    match v {
        Some(x) => Some(x@),
        None => None,
    }
}

fn opt_string(v: Option<Vec<char>>) -> (r: Option<String>)
    ensures
        match r {
            Some(s) => opt_view(v) == Some(s@),
            None => v is None,
        },
{
    match v {
        Some(x) => Some(string_from_chars(x.as_slice())),
        None => None,
    }
}


fn copy_chars_string(v: &Vec<char>) -> (s: String)
    ensures
        s@ == v@,
{
    string_from_chars(v.as_slice())
}

/// Parse classic `sensors` text output (no `-j`). Value and limit literals are kept
/// as printed (leading `+` removed); each is accepted by `f64::from_str`.
pub fn parse_text(raw: &str) -> (r: Vec<SensorReading<String>>)
    requires
        text_parses(raw@),
    ensures
        text_specs(r@) == text_readings(raw@),
{
    let cs = chars_of(raw);
    let ls = lines_of(cs.as_slice());
    let mut chip: Vec<char> = Vec::new();
    let mut adapter: Vec<char> = Vec::new();
    let mut out: Vec<SensorReading<String>> = Vec::new();
    let mut i: usize = 0;
    assert(views(ls@).skip(0) =~= views(ls@));
    assert(text_specs(out@) =~= Seq::<ReadingSpec<Seq<char>>>::empty());
    assert(chip@ =~= Seq::<char>::empty() && adapter@ =~= Seq::<char>::empty());
    while i < ls.len()
        invariant
            i <= ls@.len(),
            views(ls@) == lines(raw@),
            text_parses(raw@),
            text_readings(raw@) == text_specs(out@) + text_readings_from(
                views(ls@).skip(i as int),
                (chip@, adapter@),
            ),
        decreases ls@.len() - i,
    {
        let ghost rest = views(ls@).skip(i as int);
        let ghost st = (chip@, adapter@);
        let ghost before = text_specs(out@);
        assert(rest[0] == ls@[i as int]@);
        assert(rest.drop_first() =~= views(ls@).skip(i + 1));
        assert(!line_panics(lines(raw@)[i as int]));
        let line = trim_end_chars(ls[i].as_slice());
        if line.len() == 0 {
            chip = Vec::new();
            adapter = Vec::new();
            assert(chip@ =~= Seq::<char>::empty() && adapter@ =~= Seq::<char>::empty());
            assert(text_specs(out@) =~= before + Seq::<ReadingSpec<Seq<char>>>::empty());
        } else {
            match strip_prefix_str(line.as_slice(), "Adapter:") {
                Some(r) => {
                    adapter = trim_chars(r.as_slice());
                    assert(text_specs(out@) =~= before + Seq::<ReadingSpec<Seq<char>>>::empty());
                },
                None => {
                    if !has_char_exec(line.as_slice(), ':') || !has_char_exec(line.as_slice(), '°') {
                        if chip.len() == 0 && !white_space(line[0]) {
                            chip = trim_chars(line.as_slice());
                        }
                        assert(text_specs(out@) =~= before + Seq::<ReadingSpec<Seq<char>>>::empty());
                    } else {
                        match parse_text_sensor_line(line.as_slice()) {
                            Some(p) => {
                                if chip.len() > 0 {
                                    let r = SensorReading {
                                        chip: copy_chars_string(&chip),
                                        adapter: copy_chars_string(&adapter),
                                        label: p.label,
                                        value_c: p.value_c,
                                        max_c: p.max_c,
                                        crit_c: p.crit_c,
                                    };
                                    out.push(r);
                                    assert(text_specs(out@) =~= before + seq![text_spec_of(r)]);
                                } else {
                                    assert(text_specs(out@) =~= before + Seq::<ReadingSpec<Seq<char>>>::empty());
                                }
                            },
                            None => {
                                assert(text_specs(out@) =~= before + Seq::<ReadingSpec<Seq<char>>>::empty());
                            },
                        }
                    }
                },
            }
        }
        i = i + 1;
    }
    assert(views(ls@).skip(ls@.len() as int) =~= Seq::<Seq<char>>::empty());
    assert(text_specs(out@) + Seq::<ReadingSpec<Seq<char>>>::empty() =~= text_specs(out@));
    out
}

fn sensor_line_panics_exec(line: &[char]) -> (b: bool)
    ensures
        b == sensor_line_panics(line@),
{
    let (_left, right) = match split_once_char(line, ':') {
        Some(lr) => lr,
        None => {
            return false;
        },
    };
    let rest = trim_chars(right.as_slice());
    proof {
        crate::text::lemma_char_pos(rest@, '°');
    }
    let deg = match find_char(rest.as_slice(), '°') {
        Some(d) => d,
        None => {
            return false;
        },
    };
    let head = slice_chars(rest.as_slice(), 0, deg);
    let th = trim_chars(head.as_slice());
    let num = trim_start_char_exec(th.as_slice(), '+');
    if !is_float_literal(num.as_slice()) {
        return false;
    }
    match (find_char(rest.as_slice(), '('), rfind_char(rest.as_slice(), ')')) {
        (Some(open), Some(close)) => close <= open,
        _ => false,
    }
}

fn line_panics_exec(line: &[char]) -> (b: bool)
    ensures
        b == line_panics(line@),
{
    let l = trim_end_chars(line);
    l.len() > 0 && strip_prefix_str(l.as_slice(), "Adapter:").is_none() && has_char_exec(
        l.as_slice(),
        ':',
    ) && has_char_exec(l.as_slice(), '°') && sensor_line_panics_exec(l.as_slice())
}

/// Whether `parse_text` accepts the text: no sensor line has its last `)` before
/// its first `(` (where the limits slicing would panic).
pub fn text_parses_exec(raw: &str) -> (b: bool)
    ensures
        b == text_parses(raw@),
{
    let cs = chars_of(raw);
    let ls = lines_of(cs.as_slice());
    let mut i: usize = 0;
    while i < ls.len()
        invariant
            i <= ls@.len(),
            views(ls@) == lines(raw@),
            forall|j: int| 0 <= j < i ==> !line_panics(#[trigger] lines(raw@)[j]),
        decreases ls@.len() - i,
    {
        assert(views(ls@)[i as int] == ls@[i as int]@);
        if line_panics_exec(ls[i].as_slice()) {
            return false;
        }
        i = i + 1;
    }
    true
}

// ---------------------------------------------------------------------------
// Choosing between `sensors -j` and plain `sensors`
// ---------------------------------------------------------------------------

/// The JSON attempt is used when the command succeeded, printed something, decoded,
/// and yielded at least one reading; otherwise the caller falls back to plain text.
pub open spec fn json_attempt_used<N>(
    status_ok: bool,
    stdout_empty: bool,
    parsed: Option<Seq<SensorReading<N>>>,
) -> bool {
    &&& status_ok
    &&& !stdout_empty
    &&& parsed matches Some(v) && v.len() > 0
}

/// Keep the readings of the `sensors -j` attempt when they are usable, else `None`.
pub fn json_attempt<N>(
    status_ok: bool,
    stdout_empty: bool,
    parsed: Option<Vec<SensorReading<N>>>,
) -> (r: Option<Vec<SensorReading<N>>>)
    ensures
        r is Some <==> json_attempt_used(status_ok, stdout_empty, match parsed {
            Some(v) => Some(v@),
            None => None,
        }),
        r matches Some(v) ==> parsed == Some(v),
{
    if status_ok && !stdout_empty {
        match parsed {
            Some(v) => if v.len() > 0 {
                Some(v)
            } else {
                None
            },
            None => None,
        }
    } else {
        None
    }
}

} // verus!

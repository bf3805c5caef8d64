//! Heuristic grouping of sensor readings into UI panels.

use vstd::prelude::*;
use crate::sensors::{series_id, stable_series_id, SensorReading};
use crate::storage_names::{drive_label, storage_drive_label, NvmeEntry};
use crate::text::{
    ascii_lower, chars_eq, chars_of, concat, contains_seq, contains_str, eq_ignore_ascii_case,
    lex_less, lex_lt, slice_chars, spec_to_lowercase, string_from_chars, to_lowercase,
};

verus! {

/// High-level panel bucket for layout.
#[derive(Debug, Clone, Copy, PartialEq, Eq, Hash, Structural)]
pub enum PanelKind {
    Cpu,
    Storage,
    Gpu,
    Motherboard,
    Other,
}

/// CPU: composite graph vs per-core strip.
#[derive(Debug, Clone, Copy, PartialEq, Eq, Structural)]
pub enum CpuRole {
    Composite,
    Core,
}

/// One logical series shown in the UI (may share a panel).
#[derive(Debug)]
pub struct SeriesSpec<N> {
    pub id: String,
    pub chip: String,
    pub label: String,
    /// Shown in the UI (e.g. NVMe model from sysfs).
    pub display_name: String,
    pub max_c: Option<N>,
    pub crit_c: Option<N>,
    /// CPU: composite graph vs per-core strip.
    pub cpu_role: Option<CpuRole>,
}

/// A series in specifications.
pub struct SeriesView<N> {
    pub id: Seq<char>,
    pub chip: Seq<char>,
    pub label: Seq<char>,
    pub display_name: Seq<char>,
    pub max: Option<N>,
    pub crit: Option<N>,
    pub cpu_role: Option<CpuRole>,
}

impl<N> View for SeriesSpec<N> {
    type V = SeriesView<N>;

    open spec fn view(&self) -> SeriesView<N> {
        SeriesView {
            id: self.id@,
            chip: self.chip@,
            label: self.label@,
            display_name: self.display_name@,
            max: self.max_c,
            crit: self.crit_c,
            cpu_role: self.cpu_role,
        }
    }
}

/// Series seen through `view`.
pub open spec fn series_views<N>(s: Seq<SeriesSpec<N>>) -> Seq<SeriesView<N>> {
    s.map_values(|x: SeriesSpec<N>| x@)
}

impl<N: Copy> SeriesSpec<N> {
    /// A copy of the series.
    pub fn copy(&self) -> (r: Self)
        ensures
            r@ == self@,
    {
        SeriesSpec {
            id: self.id.clone(),
            chip: self.chip.clone(),
            label: self.label.clone(),
            display_name: self.display_name.clone(),
            max_c: self.max_c,
            crit_c: self.crit_c,
            cpu_role: self.cpu_role,
        }
    }
}

/// One NVMe (or storage chip) with composite vs auxiliary sensors for layout.
#[derive(Debug)]
pub struct StorageDriveSpec<N> {
    /// Model from sysfs (or chip); shown once as a subsection title.
    pub display_name: String,
    pub chip: String,
    pub composite: Option<SeriesSpec<N>>,
    /// Non-composite sensors (Sensor 2, etc.); right column.
    pub sensors: Vec<SeriesSpec<N>>,
}

/// A drive in specifications.
pub struct DriveView<N> {
    pub display_name: Seq<char>,
    pub chip: Seq<char>,
    pub composite: Option<SeriesView<N>>,
    pub sensors: Seq<SeriesView<N>>,
}

/// An optional series seen through `view`.
pub open spec fn opt_series_view<N>(s: Option<SeriesSpec<N>>) -> Option<SeriesView<N>> {
    match s {
        Some(x) => Some(x@),
        None => None,
    }
}

impl<N> View for StorageDriveSpec<N> {
    type V = DriveView<N>;

    open spec fn view(&self) -> DriveView<N> {
        DriveView {
            display_name: self.display_name@,
            chip: self.chip@,
            composite: opt_series_view(self.composite),
            sensors: series_views(self.sensors@),
        }
    }
}

/// Drives seen through `view`.
pub open spec fn drive_views<N>(s: Seq<StorageDriveSpec<N>>) -> Seq<DriveView<N>> {
    s.map_values(|x: StorageDriveSpec<N>| x@)
}

/// One panel of the layout.
#[derive(Debug)]
pub struct PanelSpec<N> {
    pub kind: PanelKind,
    pub title: &'static str,
    pub series: Vec<SeriesSpec<N>>,
    /// Filled for `PanelKind::Storage` to drive per-drive composite layout.
    pub storage_drives: Vec<StorageDriveSpec<N>>,
}

/// A panel in specifications.
pub struct PanelView<N> {
    pub kind: PanelKind,
    pub title: Seq<char>,
    pub series: Seq<SeriesView<N>>,
    pub storage_drives: Seq<DriveView<N>>,
}

impl<N> View for PanelSpec<N> {
    type V = PanelView<N>;

    open spec fn view(&self) -> PanelView<N> {
        PanelView {
            kind: self.kind,
            title: self.title@,
            series: series_views(self.series@),
            storage_drives: drive_views(self.storage_drives@),
        }
    }
}

/// Panels seen through `view`.
pub open spec fn panel_views<N>(s: Seq<PanelSpec<N>>) -> Seq<PanelView<N>> {
    s.map_values(|x: PanelSpec<N>| x@)
}

// ---------------------------------------------------------------------------
// Labels
// ---------------------------------------------------------------------------

/// `label` is exactly `composite` in any ASCII case.
pub open spec fn is_exact_composite(label: Seq<char>) -> bool {
    ascii_lower(label) == ascii_lower("composite"@)
}

/// The lowercased `label` contains `composite`.
pub open spec fn has_composite(label: Seq<char>) -> bool {
    contains_seq(spec_to_lowercase(label), "composite"@)
}

/// `label` is exactly `composite` (any ASCII case).
pub fn label_is_exact_composite(label: &str) -> (b: bool)
    ensures
        b == is_exact_composite(label@),
{
    let l = chars_of(label);
    let c = chars_of("composite");
    eq_ignore_ascii_case(l.as_slice(), c.as_slice())
}

/// `label` contains the substring `composite` after lowercasing.
pub fn label_contains_composite_substring(label: &str) -> (b: bool)
    ensures
        b == has_composite(label@),
{
    let low = to_lowercase(label);
    let lc = chars_of(low.as_str());
    contains_str(lc.as_slice(), "composite")
}

/// At most `max` characters: longer text keeps `max - 1` (saturating) characters and
/// ends with `…`.
pub open spec fn truncated(s: Seq<char>, max: nat) -> Seq<char> {
    if s.len() <= max {
        s
    } else {
        s.take(if max >= 1 {
            max - 1
        } else {
            0
        }) + seq!['…']
    }
}

/// A cut text fits its limit (any limit of at least one character), is left alone when
/// it already fits, and otherwise keeps its start and ends with `…`; cutting twice to
/// the same limit changes nothing more.
pub proof fn lemma_truncated_fits(s: Seq<char>, max: nat)
    ensures
        max >= 1 ==> truncated(s, max).len() <= max,
        s.len() <= max ==> truncated(s, max) == s,
        s.len() > max ==> truncated(s, max).last() == '…' && truncated(s, max).drop_last()
            =~= s.take(truncated(s, max).len() - 1),
        max >= 1 ==> truncated(truncated(s, max), max) == truncated(s, max),
{
}

/// Truncate to `max_chars` characters, marking a cut with `…`.
pub fn truncate_label_chars(s: &str, max_chars: usize) -> (r: String)
    ensures
        r@ == truncated(s@, max_chars as nat),
{
    let cs = chars_of(s);
    if cs.len() <= max_chars {
        return string_from_chars(cs.as_slice());
    }
    let keep: usize = if max_chars >= 1 {
        max_chars - 1
    } else {
        0
    };
    let head = slice_chars(cs.as_slice(), 0, keep);
    let ell = vec!['…'];
    let all = concat(head.as_slice(), ell.as_slice());
    assert(ell@ =~= seq!['…']);
    string_from_chars(all.as_slice())
}

/// Title of the left column under a drive header.
pub open spec fn composite_row_title(label: Seq<char>) -> Seq<char> {
    if is_exact_composite(label) || has_composite(label) {
        "Composite"@
    } else {
        truncated(label, 12)
    }
}

/// Left-column title under a drive header: "Composite" when the sensor name looks
/// composite, else the label cut to 12 characters.
pub fn composite_storage_row_title(label: &str) -> (r: String)
    ensures
        r@ == composite_row_title(label@),
{
    if label_is_exact_composite(label) || label_contains_composite_substring(label) {
        string_from_chars(chars_of("Composite").as_slice())
    } else {
        truncate_label_chars(label, 12)
    }
}

// ---------------------------------------------------------------------------
// Classification
// ---------------------------------------------------------------------------

/// The text searched by the classifier: lowercased adapter, chip and label joined by spaces.
pub open spec fn haystack(adapter: Seq<char>, chip: Seq<char>, label: Seq<char>) -> Seq<char> {
    spec_to_lowercase(adapter) + " "@ + spec_to_lowercase(chip) + " "@ + spec_to_lowercase(label)
}

/// A lowercased label that names a CPU package temperature (`Tctl`, `Tdie`, `package`).
pub open spec fn cpu_package_label(l: Seq<char>) -> bool {
    contains_seq(l, "tctl"@) || contains_seq(l, "tdie"@) || contains_seq(l, "package"@)
}

/// Panel bucket for a haystack and the lowercased label: CPU markers (or a CPU package
/// label) first, then storage, GPU, motherboard.
pub open spec fn kind_of_lowered(h: Seq<char>, l: Seq<char>) -> PanelKind {
    if contains_seq(h, "k10temp"@) || contains_seq(h, "coretemp"@) || contains_seq(h, "zenpower"@)
        || contains_seq(h, "cpu thermal"@) || contains_seq(h, "cpu diode"@) || cpu_package_label(l) {
        PanelKind::Cpu
    } else if contains_seq(h, "nvme"@) {
        PanelKind::Storage
    } else if contains_seq(h, "amdgpu"@) || contains_seq(h, "radeon"@) || contains_seq(
        h,
        "nouveau"@,
    ) || contains_seq(h, "nvidia"@) || contains_seq(h, "gpu"@) {
        PanelKind::Gpu
    } else if contains_seq(h, "acpitz"@) || contains_seq(h, "nct"@) || contains_seq(h, "it87"@)
        || contains_seq(h, "asus"@) || contains_seq(h, "super i/o"@) || contains_seq(h, "sio"@)
        || contains_seq(h, "pch"@) {
        PanelKind::Motherboard
    } else {
        PanelKind::Other
    }
}

/// Panel bucket of a reading.
pub open spec fn kind_of<N>(r: SensorReading<N>) -> PanelKind {
    kind_of_lowered(haystack(r.adapter@, r.chip@, r.label@), spec_to_lowercase(r.label@))
}

fn lowered(s: &String) -> (r: Vec<char>)
    ensures
        r@ == spec_to_lowercase(s@),
{
    let l = to_lowercase(s.as_str());
    chars_of(l.as_str())
}

/// Panel bucket for an already lowercased haystack (see `haystack`) and label.
pub fn panel_kind_of_lowered(h: &[char], l: &[char]) -> (k: PanelKind)
    ensures
        k == kind_of_lowered(h@, l@),
{
    if contains_str(h, "k10temp") || contains_str(h, "coretemp") || contains_str(h, "zenpower")
        || contains_str(h, "cpu thermal") || contains_str(h, "cpu diode") || contains_str(l, "tctl")
        || contains_str(l, "tdie") || contains_str(l, "package") {
        return PanelKind::Cpu;
    }
    if contains_str(h, "nvme") {
        return PanelKind::Storage;
    }
    if contains_str(h, "amdgpu") || contains_str(h, "radeon") || contains_str(h, "nouveau")
        || contains_str(h, "nvidia") || contains_str(h, "gpu") {
        return PanelKind::Gpu;
    }
    if contains_str(h, "acpitz") || contains_str(h, "nct") || contains_str(h, "it87")
        || contains_str(h, "asus") || contains_str(h, "super i/o") || contains_str(h, "sio")
        || contains_str(h, "pch") {
        return PanelKind::Motherboard;
    }
    PanelKind::Other
}

fn classify_reading<N>(r: &SensorReading<N>) -> (k: PanelKind)
    ensures
        k == kind_of(*r),
{
    let a = lowered(&r.adapter);
    let c = lowered(&r.chip);
    let l = lowered(&r.label);
    let sp = chars_of(" ");
    let h1 = concat(a.as_slice(), sp.as_slice());
    let h2 = concat(h1.as_slice(), c.as_slice());
    let h3 = concat(h2.as_slice(), sp.as_slice());
    let hv = concat(h3.as_slice(), l.as_slice());
    panel_kind_of_lowered(hv.as_slice(), l.as_slice())
}

/// Classify a single reading for panel bucketing (same rules as `group_readings`).
pub fn classify_panel_kind<N>(r: &SensorReading<N>) -> (k: PanelKind)
    ensures
        k == kind_of(*r),
{
    classify_reading(r)
}

/// CPU role of a label: package-level names are composite, core/CCD names are cores,
/// anything else is composite.
pub open spec fn cpu_role_of(label: Seq<char>) -> CpuRole {
    role_of_lowered(spec_to_lowercase(label))
}

/// CPU role of an already lowercased label.
pub open spec fn role_of_lowered(l: Seq<char>) -> CpuRole {
    if contains_seq(l, "tctl"@) || contains_seq(l, "tdie"@) || contains_seq(l, "package"@)
        || contains_seq(l, "socket"@) || l == "cpu"@ {
        CpuRole::Composite
    } else if contains_seq(l, "core"@) || contains_seq(l, "ccd"@) || contains_seq(l, "tccd"@)
        || contains_seq(l, "ccd#"@) {
        CpuRole::Core
    } else {
        CpuRole::Composite
    }
}

/// CPU role for an already lowercased label.
pub fn cpu_role_for_lowered_label(l: &[char]) -> (r: CpuRole)
    ensures
        r == role_of_lowered(l@),
{
    let cpu = chars_of("cpu");
    if contains_str(l, "tctl") || contains_str(l, "tdie") || contains_str(l, "package")
        || contains_str(l, "socket") || chars_eq(l, cpu.as_slice()) {
        return CpuRole::Composite;
    }
    if contains_str(l, "core") || contains_str(l, "ccd") || contains_str(l, "tccd") || contains_str(
        l,
        "ccd#",
    ) {
        return CpuRole::Core;
    }
    CpuRole::Composite
}

/// CPU role for a sensor label.
pub fn cpu_role_for_label(label: &str) -> (r: CpuRole)
    ensures
        r == cpu_role_of(label@),
{
    let low = to_lowercase(label);
    let lv = chars_of(low.as_str());
    cpu_role_for_lowered_label(lv.as_slice())
}


// ---------------------------------------------------------------------------
// Stable sorting of series
// ---------------------------------------------------------------------------

/// Orders used when laying out series.
#[derive(Debug, Clone, Copy, PartialEq, Eq, Structural)]
pub enum SeriesOrder {
    /// By label.
    ByLabel,
    /// Composite CPU series before core series; otherwise by label.
    ByRoleThenLabel,
    /// By chip, then by label.
    ByChipThenLabel,
}

/// The CPU role used for ordering (a missing role counts as composite).
pub open spec fn role_or_composite(r: Option<CpuRole>) -> CpuRole {
    match r {
        Some(x) => x,
        None => CpuRole::Composite,
    }
}

/// `a` sorts strictly before `b` in order `o`.
pub open spec fn series_lt<N>(a: SeriesView<N>, b: SeriesView<N>, o: SeriesOrder) -> bool {
    match o {
        SeriesOrder::ByLabel => lex_lt(a.label, b.label),
        SeriesOrder::ByRoleThenLabel => match (
            role_or_composite(a.cpu_role),
            role_or_composite(b.cpu_role),
        ) {
            (CpuRole::Composite, CpuRole::Core) => true,
            (CpuRole::Core, CpuRole::Composite) => false,
            _ => lex_lt(a.label, b.label),
        },
        SeriesOrder::ByChipThenLabel => lex_lt(a.chip, b.chip) || (a.chip == b.chip && lex_lt(
            a.label,
            b.label,
        )),
    }
}

/// First position at or after `j` holding an item that `x` sorts before (or the length).
pub open spec fn insert_pos_from<N>(s: Seq<SeriesView<N>>, x: SeriesView<N>, o: SeriesOrder, j: int) -> int
    decreases s.len() - j,
{
    if j < 0 || j >= s.len() {
        s.len() as int
    } else if series_lt(x, s[j], o) {
        j
    } else {
        insert_pos_from(s, x, o, j + 1)
    }
}

/// Stable sort (`slice::sort_by`): each item, in input order, goes before the first
/// already placed item that it sorts strictly before, so equal items keep their order.
pub open spec fn sorted_by<N>(s: Seq<SeriesView<N>>, o: SeriesOrder) -> Seq<SeriesView<N>>
    decreases s.len(),
{
    if s.len() == 0 {
        s
    } else {
        let t = sorted_by(s.drop_last(), o);
        t.insert(insert_pos_from(t, s.last(), o, 0), s.last())
    }
}

/// The insertion point found from `j` lies between `j` and the length.
pub proof fn lemma_insert_pos_range<N>(s: Seq<SeriesView<N>>, x: SeriesView<N>, o: SeriesOrder, j: int)
    requires
        0 <= j <= s.len(),
    ensures
        j <= insert_pos_from(s, x, o, j) <= s.len(),
    decreases s.len() - j,
{
    if j < s.len() && !series_lt(x, s[j], o) {
        lemma_insert_pos_range(s, x, o, j + 1);
    }
}

fn series_less<N>(a: &SeriesSpec<N>, b: &SeriesSpec<N>, o: SeriesOrder) -> (r: bool)
    ensures
        r == series_lt(a@, b@, o),
{
    match o {
        SeriesOrder::ByLabel => {
            let la = chars_of(a.label.as_str());
            let lb = chars_of(b.label.as_str());
            lex_less(la.as_slice(), lb.as_slice())
        },
        SeriesOrder::ByRoleThenLabel => {
            let ra = match a.cpu_role {
                Some(x) => x,
                None => CpuRole::Composite,
            };
            let rb = match b.cpu_role {
                Some(x) => x,
                None => CpuRole::Composite,
            };
            match (ra, rb) {
                (CpuRole::Composite, CpuRole::Core) => true,
                (CpuRole::Core, CpuRole::Composite) => false,
                _ => {
                    let la = chars_of(a.label.as_str());
                    let lb = chars_of(b.label.as_str());
                    lex_less(la.as_slice(), lb.as_slice())
                },
            }
        },
        SeriesOrder::ByChipThenLabel => {
            let ca = chars_of(a.chip.as_str());
            let cb = chars_of(b.chip.as_str());
            if lex_less(ca.as_slice(), cb.as_slice()) {
                true
            } else if chars_eq(ca.as_slice(), cb.as_slice()) {
                let la = chars_of(a.label.as_str());
                let lb = chars_of(b.label.as_str());
                lex_less(la.as_slice(), lb.as_slice())
            } else {
                false
            }
        },
    }
}

/// Stable sort of series in order `o`.
pub fn sort_series<N>(v: Vec<SeriesSpec<N>>, o: SeriesOrder) -> (r: Vec<SeriesSpec<N>>)
    ensures
        series_views(r@) == sorted_by(series_views(v@), o),
{
    let ghost orig = series_views(v@);
    let mut input = v;
    let mut out: Vec<SeriesSpec<N>> = Vec::new();
    let ghost mut i: int = 0;
    assert(orig.take(0) =~= Seq::<SeriesView<N>>::empty());
    assert(series_views(out@) =~= Seq::<SeriesView<N>>::empty());
    assert(series_views(input@) =~= orig.skip(0));
    while input.len() > 0
        invariant
            0 <= i <= orig.len(),
            series_views(input@) == orig.skip(i),
            series_views(out@) == sorted_by(orig.take(i), o),
        decreases input@.len(),
    {
        let ghost old_in = input@;
        assert(i < orig.len()) by {
            assert(series_views(old_in).len() == old_in.len());
        }
        let x = input.remove(0);
        let ghost t = series_views(out@);
        proof {
            assert(series_views(old_in)[0] == x@);
            assert(orig.skip(i)[0] == x@);
            assert(input@ =~= old_in.drop_first());
            assert(series_views(input@) =~= series_views(old_in).drop_first());
            assert(orig.skip(i).drop_first() =~= orig.skip(i + 1));
            assert(series_views(input@) =~= orig.skip(i + 1));
            assert(orig.take(i + 1).drop_last() =~= orig.take(i));
            assert(orig.take(i + 1).last() == x@);
        }
        let mut j: usize = 0;
        while j < out.len() && !series_less(&x, &out[j], o)
            invariant
                j <= out@.len(),
                t == series_views(out@),
                insert_pos_from(t, x@, o, 0) == insert_pos_from(t, x@, o, j as int),
            decreases out@.len() - j,
        {
            j = j + 1;
        }
        out.insert(j, x);
        proof {
            assert(series_views(out@) =~= t.insert(j as int, x@));
            i = i + 1;
        }
    }
    assert(orig.take(i) =~= orig);
    out
}

// ---------------------------------------------------------------------------
// Storage drives
// ---------------------------------------------------------------------------

/// First position at or after `j` whose label is exactly `composite`.
pub open spec fn exact_from<N>(s: Seq<SeriesView<N>>, j: int) -> Option<int>
    decreases s.len() - j,
{
    if j < 0 || j >= s.len() {
        None
    } else if is_exact_composite(s[j].label) {
        Some(j)
    } else {
        exact_from(s, j + 1)
    }
}

/// First position at or after `j` whose label contains `composite`.
pub open spec fn containing_from<N>(s: Seq<SeriesView<N>>, j: int) -> Option<int>
    decreases s.len() - j,
{
    if j < 0 || j >= s.len() {
        None
    } else if has_composite(s[j].label) {
        Some(j)
    } else {
        containing_from(s, j + 1)
    }
}

/// The composite sensor of a drive, with the other sensors: sort by label; take the
/// first exactly-`composite` label, else the first label containing `composite`, else
/// the first sensor.
pub open spec fn split_composite<N>(specs: Seq<SeriesView<N>>) -> (Option<SeriesView<N>>, Seq<SeriesView<N>>) {
    let s = sorted_by(specs, SeriesOrder::ByLabel);
    if s.len() == 0 {
        (None, seq![])
    } else {
        let idx = match exact_from(s, 0) {
            Some(i) => Some(i),
            None => containing_from(s, 0),
        };
        match idx {
            Some(i) => (Some(s[i]), s.remove(i)),
            None => (Some(s[0]), s.drop_first()),
        }
    }
}

/// A position found by `exact_from` lies between `j` and the end.
pub proof fn lemma_exact_from<N>(s: Seq<SeriesView<N>>, j: int)
    requires
        0 <= j,
    ensures
        exact_from(s, j) matches Some(k) ==> j <= k < s.len(),
    decreases s.len() - j,
{
    if j < s.len() && !is_exact_composite(s[j].label) {
        lemma_exact_from(s, j + 1);
    }
}

/// A position found by `containing_from` lies between `j` and the end.
pub proof fn lemma_containing_from<N>(s: Seq<SeriesView<N>>, j: int)
    requires
        0 <= j,
    ensures
        containing_from(s, j) matches Some(k) ==> j <= k < s.len(),
    decreases s.len() - j,
{
    if j < s.len() && !has_composite(s[j].label) {
        lemma_containing_from(s, j + 1);
    }
}

/// Split one chip's series into its composite series and the others.
pub fn partition_composite_for_chip<N>(specs: Vec<SeriesSpec<N>>) -> (r: (Option<SeriesSpec<N>>, Vec<SeriesSpec<N>>))
    ensures
        (opt_series_view(r.0), series_views(r.1@)) == split_composite(series_views(specs@)),
{
    let ghost sv = series_views(specs@);
    let mut s = sort_series(specs, SeriesOrder::ByLabel);
    let ghost ss = series_views(s@);
    if s.len() == 0 {
        let e: Vec<SeriesSpec<N>> = Vec::new();
        assert(series_views(e@) =~= Seq::<SeriesView<N>>::empty());
        return (None, e);
    }
    let mut idx: Option<usize> = None;
    let mut j: usize = 0;
    while j < s.len() && !label_is_exact_composite(s[j].label.as_str())
        invariant
            j <= s@.len(),
            ss == series_views(s@),
            exact_from(ss, 0) == exact_from(ss, j as int),
        decreases s@.len() - j,
    {
        j = j + 1;
    }
    if j < s.len() {
        idx = Some(j);
    } else {
        let mut k: usize = 0;
        while k < s.len() && !label_contains_composite_substring(s[k].label.as_str())
            invariant
                k <= s@.len(),
                ss == series_views(s@),
                containing_from(ss, 0) == containing_from(ss, k as int),
            decreases s@.len() - k,
        {
            k = k + 1;
        }
        if k < s.len() {
            idx = Some(k);
        }
    }
    proof {
        lemma_exact_from(ss, 0);
        lemma_containing_from(ss, 0);
    }
    match idx {
        Some(i) => {
            assert(i < s@.len());
            let c = s.remove(i);
            assert(series_views(s@) =~= ss.remove(i as int));
            (Some(c), s)
        },
        None => {
            if s.len() == 1 {
                let c = s.remove(0);
                let e: Vec<SeriesSpec<N>> = Vec::new();
                assert(series_views(e@) =~= ss.drop_first());
                (Some(c), e)
            } else {
                let c = s.remove(0);
                assert(series_views(s@) =~= ss.drop_first());
                (Some(c), s)
            }
        },
    }
}


/// First position at or after `j` holding a key that `k` sorts before (or the length).
pub open spec fn key_pos_from(keys: Seq<Seq<char>>, k: Seq<char>, j: int) -> int
    decreases keys.len() - j,
{
    if j < 0 || j >= keys.len() {
        keys.len() as int
    } else if lex_lt(k, keys[j]) {
        j
    } else {
        key_pos_from(keys, k, j + 1)
    }
}

/// Add `k` to ordered distinct keys (a `BTreeMap` entry).
pub open spec fn insert_key(keys: Seq<Seq<char>>, k: Seq<char>) -> Seq<Seq<char>> {
    if keys.contains(k) {
        keys
    } else {
        keys.insert(key_pos_from(keys, k, 0), k)
    }
}

/// The distinct chips of the series, in `String` order (the keys of a `BTreeMap`).
pub open spec fn chip_keys<N>(s: Seq<SeriesView<N>>) -> Seq<Seq<char>>
    decreases s.len(),
{
    if s.len() == 0 {
        seq![]
    } else {
        insert_key(chip_keys(s.drop_last()), s.last().chip)
    }
}

/// The series of chip `c`, in order.
pub open spec fn with_chip<N>(s: Seq<SeriesView<N>>, c: Seq<char>) -> Seq<SeriesView<N>>
    decreases s.len(),
{
    if s.len() == 0 {
        seq![]
    } else {
        with_chip(s.drop_last(), c) + if s.last().chip == c {
            seq![s.last()]
        } else {
            seq![]
        }
    }
}

/// The drive of chip `c`: named after its first series, composite split off.
pub open spec fn drive_of<N>(s: Seq<SeriesView<N>>, c: Seq<char>) -> DriveView<N> {
    let g = with_chip(s, c);
    let p = split_composite(g);
    DriveView { display_name: g[0].display_name, chip: c, composite: p.0, sensors: p.1 }
}

/// One drive per distinct chip, chips in `String` order.
pub open spec fn storage_drives_of<N>(s: Seq<SeriesView<N>>) -> Seq<DriveView<N>> {
    chip_keys(s).map_values(|c: Seq<char>| drive_of(s, c))
}

/// Strings seen as character sequences.
pub open spec fn string_views(v: Seq<String>) -> Seq<Seq<char>> {
    v.map_values(|x: String| x@)
}

/// The insertion point of a key found from `j` lies between `j` and the length.
pub proof fn lemma_key_pos_range(keys: Seq<Seq<char>>, k: Seq<char>, j: int)
    requires
        0 <= j <= keys.len(),
    ensures
        j <= key_pos_from(keys, k, j) <= keys.len(),
    decreases keys.len() - j,
{
    if j < keys.len() && !lex_lt(k, keys[j]) {
        lemma_key_pos_range(keys, k, j + 1);
    }
}

proof fn lemma_keys_from_series<N>(s: Seq<SeriesView<N>>)
    ensures
        forall|c: Seq<char>|
            chip_keys(s).contains(c) ==> exists|i: int| 0 <= i < s.len() && #[trigger] s[i].chip == c,
    decreases s.len(),
{
    if s.len() > 0 {
        let p = s.drop_last();
        lemma_keys_from_series(p);
        let keys = chip_keys(p);
        let x = s.last().chip;
        if !keys.contains(x) {
            lemma_key_pos_range(keys, x, 0);
            keys.insert_ensures(key_pos_from(keys, x, 0), x);
        }
        assert forall|c: Seq<char>| chip_keys(s).contains(c) implies exists|i: int|
            0 <= i < s.len() && #[trigger] s[i].chip == c by {
            if c == x {
                assert(s[s.len() - 1].chip == c);
            } else {
                if !keys.contains(x) {
                    let pos = key_pos_from(keys, x, 0);
                    let m = choose|m: int| 0 <= m < chip_keys(s).len() && chip_keys(s)[m] == c;
                    if m < pos {
                        assert(keys[m] == c);
                    } else {
                        assert(m != pos);
                        assert(keys[m - 1] == c);
                    }
                }
                assert(keys.contains(c));
                let i = choose|i: int| 0 <= i < p.len() && #[trigger] p[i].chip == c;
                assert(s[i].chip == c);
            }
        }
    }
}

proof fn lemma_with_chip_nonempty<N>(s: Seq<SeriesView<N>>, c: Seq<char>, i: int)
    requires
        0 <= i < s.len(),
        s[i].chip == c,
    ensures
        with_chip(s, c).len() > 0,
    decreases s.len(),
{
    if i < s.len() - 1 {
        lemma_with_chip_nonempty(s.drop_last(), c, i);
    }
}

fn chip_keys_exec<N>(series: &[SeriesSpec<N>]) -> (keys: Vec<String>)
    ensures
        string_views(keys@) == chip_keys(series_views(series@)),
{
    let ghost sv = series_views(series@);
    let mut keys: Vec<String> = Vec::new();
    let mut i: usize = 0;
    assert(sv.take(0) =~= Seq::<SeriesView<N>>::empty());
    assert(string_views(keys@) =~= Seq::<Seq<char>>::empty());
    while i < series.len()
        invariant
            i <= series@.len(),
            sv == series_views(series@),
            string_views(keys@) == chip_keys(sv.take(i as int)),
        decreases series@.len() - i,
    {
        let ghost kv = string_views(keys@);
        assert(sv.take(i + 1).drop_last() =~= sv.take(i as int));
        assert(sv.take(i + 1).last() == series@[i as int]@);
        let c = chars_of(series[i].chip.as_str());
        let mut found = false;
        let mut m: usize = 0;
        while m < keys.len()
            invariant
                m <= keys@.len(),
                kv == string_views(keys@),
                found == (exists|q: int| 0 <= q < m && kv[q] == c@),
            decreases keys@.len() - m,
        {
            let kc = chars_of(keys[m].as_str());
            assert(kv[m as int] == kc@);
            if chars_eq(kc.as_slice(), c.as_slice()) {
                found = true;
            }
            proof {
                if !found {
                    assert forall|q: int| 0 <= q < m + 1 implies kv[q] != c@ by {
                        if q < m {
                            assert(!(0 <= q < m && kv[q] == c@));
                        }
                    }
                }
            }
            m = m + 1;
        }
        assert(found == kv.contains(c@));
        if !found {
            let mut j: usize = 0;
            while j < keys.len() && !lex_less(c.as_slice(), chars_of(keys[j].as_str()).as_slice())
                invariant
                    j <= keys@.len(),
                    kv == string_views(keys@),
                    key_pos_from(kv, c@, 0) == key_pos_from(kv, c@, j as int),
                decreases keys@.len() - j,
            {
                j = j + 1;
            }
            let k = series[i].chip.clone();
            keys.insert(j, k);
            assert(string_views(keys@) =~= kv.insert(j as int, c@));
        }
        i = i + 1;
    }
    assert(sv.take(series@.len() as int) =~= sv);
    keys
}

fn series_of_chip<N: Copy>(series: &[SeriesSpec<N>], chip: &String) -> (g: Vec<SeriesSpec<N>>)
    ensures
        series_views(g@) == with_chip(series_views(series@), chip@),
{
    let ghost sv = series_views(series@);
    let c = chars_of(chip.as_str());
    let mut g: Vec<SeriesSpec<N>> = Vec::new();
    let mut j: usize = 0;
    assert(sv.take(0) =~= Seq::<SeriesView<N>>::empty());
    assert(series_views(g@) =~= Seq::<SeriesView<N>>::empty());
    while j < series.len()
        invariant
            j <= series@.len(),
            sv == series_views(series@),
            series_views(g@) == with_chip(sv.take(j as int), c@),
        decreases series@.len() - j,
    {
        let ghost before = series_views(g@);
        assert(sv.take(j + 1).drop_last() =~= sv.take(j as int));
        assert(sv.take(j + 1).last() == series@[j as int]@);
        let cc = chars_of(series[j].chip.as_str());
        if chars_eq(cc.as_slice(), c.as_slice()) {
            g.push(series[j].copy());
            assert(series_views(g@) =~= before + seq![series@[j as int]@]);
        } else {
            assert(before + Seq::<SeriesView<N>>::empty() =~= before);
        }
        j = j + 1;
    }
    assert(sv.take(series@.len() as int) =~= sv);
    g
}

/// One drive per distinct chip (chips in `String` order): named after the first
/// series of the chip, with its composite series split off.
pub fn build_storage_drives<N: Copy>(series: &[SeriesSpec<N>]) -> (r: Vec<StorageDriveSpec<N>>)
    ensures
        drive_views(r@) == storage_drives_of(series_views(series@)),
{
    let ghost sv = series_views(series@);
    let keys = chip_keys_exec(series);
    let ghost kv = string_views(keys@);
    proof {
        lemma_keys_from_series(sv);
    }
    let mut out: Vec<StorageDriveSpec<N>> = Vec::new();
    let mut k: usize = 0;
    assert(drive_views(out@) =~= Seq::<DriveView<N>>::empty());
    while k < keys.len()
        invariant
            k <= keys@.len(),
            sv == series_views(series@),
            kv == string_views(keys@),
            kv == chip_keys(sv),
            forall|c: Seq<char>|
                chip_keys(sv).contains(c) ==> exists|i: int| 0 <= i < sv.len() && #[trigger] sv[i].chip == c,
            drive_views(out@) == kv.take(k as int).map_values(|c: Seq<char>| drive_of(sv, c)),
        decreases keys@.len() - k,
    {
        let ghost before = drive_views(out@);
        let chip = &keys[k];
        let g = series_of_chip(series, chip);
        proof {
            assert(kv[k as int] == chip@);
            assert(kv.contains(chip@));
            let i = choose|i: int| 0 <= i < sv.len() && #[trigger] sv[i].chip == chip@;
            lemma_with_chip_nonempty(sv, chip@, i);
        }
        let display_name = g[0].display_name.clone();
        let ghost gv = series_views(g@);
        let (composite, sensors) = partition_composite_for_chip(g);
        let d = StorageDriveSpec { display_name, chip: chip.clone(), composite, sensors };
        out.push(d);
        proof {
            assert(d@ == drive_of(sv, chip@));
            assert(kv.take(k + 1) =~= kv.take(k as int).push(chip@));
            assert(drive_views(out@) =~= before.push(d@));
            assert(kv.take(k + 1).map_values(|c: Seq<char>| drive_of(sv, c)) =~= kv.take(
                k as int,
            ).map_values(|c: Seq<char>| drive_of(sv, c)).push(drive_of(sv, chip@)));
        }
        k = k + 1;
    }
    assert(kv.take(keys@.len() as int) =~= kv);
    out
}


// ---------------------------------------------------------------------------
// Panels
// ---------------------------------------------------------------------------

/// The id of a reading's series.
pub open spec fn reading_id<N>(r: SensorReading<N>) -> Seq<char> {
    series_id(r.chip@, r.label@)
}

/// The first reading of each series id, in order (later duplicates are dropped).
pub open spec fn first_of_each_id<N>(rs: Seq<SensorReading<N>>) -> Seq<SensorReading<N>>
    decreases rs.len(),
{
    if rs.len() == 0 {
        seq![]
    } else {
        let p = first_of_each_id(rs.drop_last());
        if exists|i: int| 0 <= i < p.len() && reading_id(#[trigger] p[i]) == reading_id(rs.last()) {
            p
        } else {
            p.push(rs.last())
        }
    }
}

/// The series shown for a reading: storage series are named after their drive, CPU
/// series carry a role, other series are named after their label.
pub open spec fn series_view_of<N>(r: SensorReading<N>, entries: Seq<NvmeEntry>) -> SeriesView<N> {
    let kind = kind_of(r);
    SeriesView {
        id: reading_id(r),
        chip: r.chip@,
        label: r.label@,
        display_name: if kind == PanelKind::Storage {
            drive_label(r.chip@, entries)
        } else {
            r.label@
        },
        max: r.max_c,
        crit: r.crit_c,
        cpu_role: if kind == PanelKind::Cpu {
            Some(cpu_role_of(r.label@))
        } else {
            None
        },
    }
}

/// The series of the readings that fall in panel kind `k`, in reading order.
pub open spec fn bucket<N>(rs: Seq<SensorReading<N>>, k: PanelKind, entries: Seq<NvmeEntry>) -> Seq<SeriesView<N>>
    decreases rs.len(),
{
    if rs.len() == 0 {
        seq![]
    } else {
        bucket(rs.drop_last(), k, entries) + if kind_of(rs.last()) == k {
            seq![series_view_of(rs.last(), entries)]
        } else {
            seq![]
        }
    }
}

/// Panel title.
pub open spec fn panel_title(k: PanelKind) -> Seq<char> {
    match k {
        PanelKind::Cpu => "CPU"@,
        PanelKind::Storage => "Storage"@,
        PanelKind::Gpu => "GPU"@,
        PanelKind::Motherboard => "Motherboard"@,
        PanelKind::Other => "Other"@,
    }
}

/// Order of the series inside a panel.
pub open spec fn panel_order(k: PanelKind) -> SeriesOrder {
    if k == PanelKind::Cpu {
        SeriesOrder::ByRoleThenLabel
    } else {
        SeriesOrder::ByChipThenLabel
    }
}

/// The panel of kind `k` (none when no reading falls in it).
pub open spec fn panel_for<N>(kept: Seq<SensorReading<N>>, k: PanelKind, entries: Seq<NvmeEntry>) -> Seq<PanelView<N>> {
    let b = bucket(kept, k, entries);
    if b.len() == 0 {
        seq![]
    } else {
        let series = sorted_by(b, panel_order(k));
        seq![
            PanelView {
                kind: k,
                title: panel_title(k),
                series,
                storage_drives: if k == PanelKind::Storage {
                    storage_drives_of(series)
                } else {
                    seq![]
                },
            },
        ]
    }
}

/// Panels for the readings: one per kind that has data, in the order CPU, storage,
/// GPU, motherboard, other.
pub open spec fn panels_of<N>(rs: Seq<SensorReading<N>>, entries: Seq<NvmeEntry>) -> Seq<PanelView<N>> {
    let kept = first_of_each_id(rs);
    panel_for(kept, PanelKind::Cpu, entries) + panel_for(kept, PanelKind::Storage, entries)
        + panel_for(kept, PanelKind::Gpu, entries) + panel_for(kept, PanelKind::Motherboard, entries)
        + panel_for(kept, PanelKind::Other, entries)
}

fn title_of(k: PanelKind) -> (t: &'static str)
    ensures
        t@ == panel_title(k),
{
    match k {
        PanelKind::Cpu => "CPU",
        PanelKind::Storage => "Storage",
        PanelKind::Gpu => "GPU",
        PanelKind::Motherboard => "Motherboard",
        PanelKind::Other => "Other",
    }
}

fn make_panel<N: Copy>(k: PanelKind, b: Vec<SeriesSpec<N>>) -> (r: Vec<PanelSpec<N>>)
    ensures
        panel_views(r@) == (if b@.len() == 0 {
            Seq::<PanelView<N>>::empty()
        } else {
            let series = sorted_by(series_views(b@), panel_order(k));
            seq![
                PanelView {
                    kind: k,
                    title: panel_title(k),
                    series,
                    storage_drives: if k == PanelKind::Storage {
                        storage_drives_of(series)
                    } else {
                        seq![]
                    },
                },
            ]
        }),
{
    let mut r: Vec<PanelSpec<N>> = Vec::new();
    if b.len() == 0 {
        assert(panel_views(r@) =~= Seq::<PanelView<N>>::empty());
        return r;
    }
    let order = if k == PanelKind::Cpu {
        SeriesOrder::ByRoleThenLabel
    } else {
        SeriesOrder::ByChipThenLabel
    };
    let series = sort_series(b, order);
    let storage_drives = if k == PanelKind::Storage {
        build_storage_drives(series.as_slice())
    } else {
        let e: Vec<StorageDriveSpec<N>> = Vec::new();
        assert(drive_views(e@) =~= Seq::<DriveView<N>>::empty());
        e
    };
    let p = PanelSpec { kind: k, title: title_of(k), series, storage_drives };
    r.push(p);
    assert(panel_views(r@) =~= seq![p@]);
    r
}

fn make_series<N: Copy>(r: &SensorReading<N>, kind: PanelKind, entries: &[NvmeEntry]) -> (s: SeriesSpec<N>)
    requires
        kind == kind_of(*r),
    ensures
        s@ == series_view_of(*r, entries@),
{
    let id = stable_series_id(r);
    let cpu_role = if kind == PanelKind::Cpu {
        Some(cpu_role_for_label(r.label.as_str()))
    } else {
        None
    };
    let display_name = if kind == PanelKind::Storage {
        storage_drive_label(r.chip.as_str(), entries)
    } else {
        r.label.clone()
    };
    SeriesSpec {
        id,
        chip: r.chip.clone(),
        label: r.label.clone(),
        display_name,
        max_c: r.max_c,
        crit_c: r.crit_c,
        cpu_role,
    }
}

proof fn lemma_bucket_push<N>(rs: Seq<SensorReading<N>>, r: SensorReading<N>, k: PanelKind, entries: Seq<NvmeEntry>)
    ensures
        bucket(rs.push(r), k, entries) == bucket(rs, k, entries) + if kind_of(r) == k {
            seq![series_view_of(r, entries)]
        } else {
            seq![]
        },
{
    assert(rs.push(r).drop_last() =~= rs);
}

fn push_series<N>(
    v: &mut Vec<SeriesSpec<N>>,
    s: SeriesSpec<N>,
    here: bool,
)
    ensures
        series_views(final(v)@) == series_views(old(v)@) + if here {
            seq![s@]
        } else {
            Seq::<SeriesView<N>>::empty()
        },
{
    if here {
        v.push(s);
        assert(series_views(v@) =~= series_views(old(v)@) + seq![s@]);
    } else {
        assert(series_views(v@) =~= series_views(old(v)@) + Seq::<SeriesView<N>>::empty());
    }
}

/// Build the panel list: one panel per kind that has data, in a stable order. Each
/// series id is shown once (the first reading wins). Storage series are named after
/// their drive model as found in the sysfs snapshot `nvme_entries`.
pub fn group_readings<N: Copy>(readings: &[SensorReading<N>], nvme_entries: &[NvmeEntry]) -> (r: Vec<PanelSpec<N>>)
    ensures
        panel_views(r@) == panels_of(readings@, nvme_entries@),
{
    let ghost rs = readings@;
    let ghost e = nvme_entries@;
    let mut seen: Vec<String> = Vec::new();
    let mut cpu: Vec<SeriesSpec<N>> = Vec::new();
    let mut storage: Vec<SeriesSpec<N>> = Vec::new();
    let mut gpu: Vec<SeriesSpec<N>> = Vec::new();
    let mut board: Vec<SeriesSpec<N>> = Vec::new();
    let mut other: Vec<SeriesSpec<N>> = Vec::new();
    let mut i: usize = 0;
    assert(rs.take(0) =~= Seq::<SensorReading<N>>::empty());
    assert(string_views(seen@) =~= Seq::<Seq<char>>::empty());
    assert(series_views(cpu@) =~= Seq::<SeriesView<N>>::empty());
    while i < readings.len()
        invariant
            i <= rs.len(),
            rs == readings@,
            e == nvme_entries@,
            string_views(seen@) == first_of_each_id(rs.take(i as int)).map_values(
                |x: SensorReading<N>| reading_id(x),
            ),
            series_views(cpu@) == bucket(first_of_each_id(rs.take(i as int)), PanelKind::Cpu, e),
            series_views(storage@) == bucket(first_of_each_id(rs.take(i as int)), PanelKind::Storage, e),
            series_views(gpu@) == bucket(first_of_each_id(rs.take(i as int)), PanelKind::Gpu, e),
            series_views(board@) == bucket(first_of_each_id(rs.take(i as int)), PanelKind::Motherboard, e),
            series_views(other@) == bucket(first_of_each_id(rs.take(i as int)), PanelKind::Other, e),
        decreases rs.len() - i,
    {
        let r = &readings[i];
        let ghost kept = first_of_each_id(rs.take(i as int));
        let ghost ids = string_views(seen@);
        assert(rs.take(i + 1).drop_last() =~= rs.take(i as int));
        assert(rs.take(i + 1).last() == *r);
        let id = stable_series_id(r);
        let idc = chars_of(id.as_str());
        let mut dup = false;
        let mut m: usize = 0;
        while m < seen.len()
            invariant
                m <= seen@.len(),
                ids == string_views(seen@),
                ids.len() == kept.len(),
                forall|q: int| 0 <= q < kept.len() ==> ids[q] == reading_id(#[trigger] kept[q]),
                dup == (exists|q: int| 0 <= q < m && reading_id(#[trigger] kept[q]) == idc@),
            decreases seen@.len() - m,
        {
            let sc = chars_of(seen[m].as_str());
            assert(ids[m as int] == sc@);
            let ghost was = dup;
            if chars_eq(sc.as_slice(), idc.as_slice()) {
                dup = true;
                assert(reading_id(kept[m as int]) == idc@);
            }
            proof {
                if was {
                    let q0 = choose|q: int| 0 <= q < m && reading_id(#[trigger] kept[q]) == idc@;
                    assert(0 <= q0 < m + 1 && reading_id(kept[q0]) == idc@);
                }
                if !dup {
                    assert forall|q: int| 0 <= q < m + 1 implies reading_id(#[trigger] kept[q]) != idc@ by {
                        if q < m {
                            assert(!(0 <= q < m && reading_id(kept[q]) == idc@));
                        }
                    }
                }
            }
            m = m + 1;
        }
        if !dup {
            let kind = classify_reading(r);
            let s = make_series(r, kind, nvme_entries);
            proof {
                lemma_bucket_push(kept, *r, PanelKind::Cpu, e);
                lemma_bucket_push(kept, *r, PanelKind::Storage, e);
                lemma_bucket_push(kept, *r, PanelKind::Gpu, e);
                lemma_bucket_push(kept, *r, PanelKind::Motherboard, e);
                lemma_bucket_push(kept, *r, PanelKind::Other, e);
            }
            match kind {
                PanelKind::Cpu => {
                    push_series(&mut cpu, s, true);
                },
                PanelKind::Storage => {
                    push_series(&mut storage, s, true);
                },
                PanelKind::Gpu => {
                    push_series(&mut gpu, s, true);
                },
                PanelKind::Motherboard => {
                    push_series(&mut board, s, true);
                },
                PanelKind::Other => {
                    push_series(&mut other, s, true);
                },
            }
            proof {
                assert(series_views(cpu@) =~= bucket(kept.push(*r), PanelKind::Cpu, e));
                assert(series_views(storage@) =~= bucket(kept.push(*r), PanelKind::Storage, e));
                assert(series_views(gpu@) =~= bucket(kept.push(*r), PanelKind::Gpu, e));
                assert(series_views(board@) =~= bucket(kept.push(*r), PanelKind::Motherboard, e));
                assert(series_views(other@) =~= bucket(kept.push(*r), PanelKind::Other, e));
            }
            seen.push(id);
            proof {
                assert(string_views(seen@) =~= ids.push(idc@));
                assert(kept.push(*r).map_values(|x: SensorReading<N>| reading_id(x)) =~= kept.map_values(
                    |x: SensorReading<N>| reading_id(x),
                ).push(reading_id(*r)));
            }
        }
        i = i + 1;
    }
    assert(rs.take(rs.len() as int) =~= rs);
    let mut panels: Vec<PanelSpec<N>> = Vec::new();
    let mut p1 = make_panel(PanelKind::Cpu, cpu);
    let mut p2 = make_panel(PanelKind::Storage, storage);
    let mut p3 = make_panel(PanelKind::Gpu, gpu);
    let mut p4 = make_panel(PanelKind::Motherboard, board);
    let mut p5 = make_panel(PanelKind::Other, other);
    let ghost v1 = panel_views(p1@);
    let ghost v2 = panel_views(p2@);
    let ghost v3 = panel_views(p3@);
    let ghost v4 = panel_views(p4@);
    let ghost v5 = panel_views(p5@);
    panels.append(&mut p1);
    panels.append(&mut p2);
    panels.append(&mut p3);
    panels.append(&mut p4);
    panels.append(&mut p5);
    assert(panel_views(panels@) =~= v1 + v2 + v3 + v4 + v5);
    panels
}

} // verus!

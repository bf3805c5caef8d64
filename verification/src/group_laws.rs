//! Properties of the panel grouping: one panel per kind that has data, in a fixed
//! order; every series shown once, in the panel that its reading's classification names.

use vstd::prelude::*;
use crate::group::{
    bucket, chip_keys, containing_from, drive_of, exact_from, first_of_each_id, insert_pos_from,
    key_pos_from, kind_of, lemma_containing_from, lemma_exact_from, lemma_insert_pos_range,
    lemma_key_pos_range, panel_for, panel_order, panel_title, panels_of, reading_id,
    series_view_of, sorted_by, split_composite, storage_drives_of, with_chip,
    PanelKind, PanelView, SeriesOrder, SeriesView,
};
use crate::sensors::SensorReading;
use crate::text::{contains_seq, lemma_contains_concat, lex_lt, spec_to_lowercase};
use crate::group::{cpu_role_of, haystack, role_or_composite, CpuRole};
use crate::storage_names::drive_label;
use crate::group::series_lt;
use crate::storage_names::NvmeEntry;

verus! {

/// Position of a panel kind in the fixed panel order.
pub open spec fn kind_rank(k: PanelKind) -> int {
    match k {
        PanelKind::Cpu => 0,
        PanelKind::Storage => 1,
        PanelKind::Gpu => 2,
        PanelKind::Motherboard => 3,
        PanelKind::Other => 4,
    }
}

/// No two series share an id.
pub open spec fn distinct_ids<N>(s: Seq<SeriesView<N>>) -> bool {
    forall|i: int, j: int| 0 <= i < j < s.len() ==> #[trigger] s[i].id != #[trigger] s[j].id
}

/// No two readings share an id.
pub open spec fn distinct_reading_ids<N>(rs: Seq<SensorReading<N>>) -> bool {
    forall|i: int, j: int|
        0 <= i < j < rs.len() ==> reading_id(#[trigger] rs[i]) != reading_id(#[trigger] rs[j])
}

/// Some reading of `rs` has id `id`.
pub open spec fn has_reading_id<N>(rs: Seq<SensorReading<N>>, id: Seq<char>) -> bool {
    exists|j: int| 0 <= j < rs.len() && reading_id(#[trigger] rs[j]) == id
}

/// `v` is the series of a reading of `rs` classified as `k`.
pub open spec fn series_of_kind<N>(
    rs: Seq<SensorReading<N>>,
    k: PanelKind,
    e: Seq<NvmeEntry>,
    v: SeriesView<N>,
) -> bool {
    exists|i: int| 0 <= i < rs.len() && kind_of(rs[i]) == k && #[trigger] series_view_of(rs[i], e) == v
}

/// Some panel has kind `k`.
pub open spec fn has_kind<N>(ps: Seq<PanelView<N>>, k: PanelKind) -> bool {
    exists|i: int| 0 <= i < ps.len() && (#[trigger] ps[i]).kind == k
}

/// Some panel of kind `k` shows series `v`.
pub open spec fn shows_series<N>(ps: Seq<PanelView<N>>, k: PanelKind, v: SeriesView<N>) -> bool {
    exists|p: int, s: int|
        0 <= p < ps.len() && 0 <= s < ps[p].series.len() && ps[p].kind == k && #[trigger] ps[p].series[s]
            == v
}

/// Some panel shows a series named `id`.
pub open spec fn shown_in<N>(panels: Seq<PanelView<N>>, id: Seq<char>) -> bool {
    exists|p: int, s: int|
        0 <= p < panels.len() && 0 <= s < panels[p].series.len() && #[trigger] panels[p].series[s].id
            == id
}

/// Panels in strictly increasing kind order, each one the panel of its kind.
pub open spec fn ordered_panels<N>(ps: Seq<PanelView<N>>, kept: Seq<SensorReading<N>>, e: Seq<NvmeEntry>) -> bool {
    &&& forall|i: int, j: int|
        0 <= i < j < ps.len() ==> kind_rank(#[trigger] ps[i].kind) < kind_rank(#[trigger] ps[j].kind)
    &&& forall|i: int| 0 <= i < ps.len() ==> panel_for(kept, (#[trigger] ps[i]).kind, e) == seq![ps[i]]
}

/// Sorting keeps the length and the items, and keeps ids distinct.
pub proof fn lemma_sorted_elements<N>(s: Seq<SeriesView<N>>, o: SeriesOrder)
    ensures
        sorted_by(s, o).len() == s.len(),
        forall|x: SeriesView<N>| #[trigger] sorted_by(s, o).contains(x) <==> s.contains(x),
        distinct_ids(s) ==> distinct_ids(sorted_by(s, o)),
    decreases s.len(),
{
    if s.len() > 0 {
        let p = s.drop_last();
        let x = s.last();
        lemma_sorted_elements(p, o);
        let t = sorted_by(p, o);
        let pos = insert_pos_from(t, x, o, 0);
        lemma_insert_pos_range(t, x, o, 0);
        t.insert_ensures(pos, x);
        let r = t.insert(pos, x);
        assert(sorted_by(s, o) == r);
        assert forall|y: SeriesView<N>| #[trigger] r.contains(y) <==> s.contains(y) by {
            if r.contains(y) {
                let k = choose|k: int| 0 <= k < r.len() && r[k] == y;
                if k == pos {
                    assert(s[s.len() - 1] == y);
                } else {
                    let m = if k < pos {
                        k
                    } else {
                        k - 1
                    };
                    assert(r[k] == t[m]);
                    assert(t.contains(t[m]));
                    assert(p.contains(y));
                    let i = choose|i: int| 0 <= i < p.len() && p[i] == y;
                    assert(s[i] == y);
                }
            }
            if s.contains(y) {
                let i = choose|i: int| 0 <= i < s.len() && s[i] == y;
                if i == s.len() - 1 {
                    assert(r[pos] == y);
                } else {
                    assert(p[i] == y);
                    assert(p.contains(y));
                    assert(t.contains(y));
                    let k = choose|k: int| 0 <= k < t.len() && t[k] == y;
                    if k < pos {
                        assert(r[k] == y);
                    } else {
                        assert(r[k + 1] == t[k]);
                    }
                }
            }
        }
        if distinct_ids(s) {
            assert forall|i: int, j: int| 0 <= i < j < p.len() implies #[trigger] p[i].id
                != #[trigger] p[j].id by {
                assert(p[i] == s[i] && p[j] == s[j]);
            }
            assert forall|m: int| 0 <= m < t.len() implies (#[trigger] t[m]).id != x.id by {
                assert(t.contains(t[m]));
                assert(p.contains(t[m]));
                let i = choose|i: int| 0 <= i < p.len() && p[i] == t[m];
                assert(s[i] == p[i]);
                assert(s[s.len() - 1] == x);
            }
            assert forall|a: int, b: int| 0 <= a < b < r.len() implies #[trigger] r[a].id
                != #[trigger] r[b].id by {
                if a == pos {
                    assert(r[b] == t[b - 1]);
                } else if b == pos {
                    assert(r[a] == t[a]);
                } else {
                    let ta = if a < pos {
                        a
                    } else {
                        a - 1
                    };
                    let tb = if b < pos {
                        b
                    } else {
                        b - 1
                    };
                    assert(r[a] == t[ta]);
                    assert(r[b] == t[tb]);
                }
            }
        }
    }
}

/// A kind's bucket holds exactly the series of the readings classified as that kind,
/// with distinct ids when the readings have distinct ids.
pub proof fn lemma_bucket_elements<N>(rs: Seq<SensorReading<N>>, k: PanelKind, e: Seq<NvmeEntry>)
    ensures
        forall|v: SeriesView<N>| #[trigger] bucket(rs, k, e).contains(v) <==> series_of_kind(rs, k, e, v),
        distinct_reading_ids(rs) ==> distinct_ids(bucket(rs, k, e)),
    decreases rs.len(),
{
    if rs.len() > 0 {
        let p = rs.drop_last();
        let r = rs.last();
        lemma_bucket_elements(p, k, e);
        let b = bucket(p, k, e);
        let tail = if kind_of(r) == k {
            seq![series_view_of(r, e)]
        } else {
            Seq::<SeriesView<N>>::empty()
        };
        let full = bucket(rs, k, e);
        assert(full == b + tail);
        assert forall|v: SeriesView<N>| #[trigger] full.contains(v) <==> series_of_kind(rs, k, e, v) by {
            if full.contains(v) {
                let m = choose|m: int| 0 <= m < full.len() && full[m] == v;
                if m < b.len() {
                    assert(b[m] == v);
                    assert(b.contains(v));
                    let i = choose|i: int|
                        0 <= i < p.len() && kind_of(p[i]) == k && #[trigger] series_view_of(p[i], e) == v;
                    assert(rs[i] == p[i]);
                } else {
                    assert(rs[rs.len() - 1] == r);
                    assert(series_view_of(rs[rs.len() - 1], e) == v);
                }
            }
            if series_of_kind(rs, k, e, v) {
                let i = choose|i: int|
                    0 <= i < rs.len() && kind_of(rs[i]) == k && #[trigger] series_view_of(rs[i], e) == v;
                if i == rs.len() - 1 {
                    assert(full[b.len() as int] == v);
                } else {
                    assert(p[i] == rs[i]);
                    assert(series_view_of(p[i], e) == v);
                    assert(b.contains(v));
                    let m = choose|m: int| 0 <= m < b.len() && b[m] == v;
                    assert(full[m] == v);
                }
            }
        }
        if distinct_reading_ids(rs) {
            assert forall|i: int, j: int| 0 <= i < j < p.len() implies reading_id(#[trigger] p[i])
                != reading_id(#[trigger] p[j]) by {
                assert(p[i] == rs[i] && p[j] == rs[j]);
            }
            assert forall|a: int, c: int| 0 <= a < c < full.len() implies #[trigger] full[a].id
                != #[trigger] full[c].id by {
                assert(full[a] == b[a]);
                if c < b.len() {
                    assert(full[c] == b[c]);
                } else {
                    assert(full[c] == series_view_of(r, e));
                    assert(b.contains(b[a]));
                    let i = choose|i: int|
                        0 <= i < p.len() && kind_of(p[i]) == k && #[trigger] series_view_of(p[i], e)
                            == b[a];
                    assert(p[i] == rs[i]);
                    assert(rs[rs.len() - 1] == r);
                    assert(reading_id(rs[i]) != reading_id(rs[rs.len() - 1]));
                }
            }
        }
    }
}

/// Dropping later duplicates keeps one reading per id: the kept readings have distinct
/// ids, all come from the input, every input id is kept, and the first reading of an id
/// is the one kept.
pub proof fn lemma_first_of_each_id<N>(rs: Seq<SensorReading<N>>)
    ensures
        distinct_reading_ids(first_of_each_id(rs)),
        forall|x: SensorReading<N>| #[trigger] first_of_each_id(rs).contains(x) ==> rs.contains(x),
        forall|i: int|
            0 <= i < rs.len() ==> has_reading_id(first_of_each_id(rs), reading_id(#[trigger] rs[i])),
        forall|i: int|
            0 <= i < rs.len() && !has_reading_id(rs.take(i), reading_id(rs[i]))
                ==> first_of_each_id(rs).contains(#[trigger] rs[i]),
    decreases rs.len(),
{
    if rs.len() > 0 {
        let q = rs.drop_last();
        let last = rs.last();
        lemma_first_of_each_id(q);
        let p = first_of_each_id(q);
        let kept = first_of_each_id(rs);
        let dup = exists|i: int| 0 <= i < p.len() && reading_id(#[trigger] p[i]) == reading_id(last);
        if dup {
            assert(kept == p);
        } else {
            assert(kept == p.push(last));
        }
        assert forall|i: int, j: int| 0 <= i < j < kept.len() implies reading_id(#[trigger] kept[i])
            != reading_id(#[trigger] kept[j]) by {
            if !dup && j == p.len() {
                assert(kept[i] == p[i]);
            } else {
                assert(kept[i] == p[i] && kept[j] == p[j]);
            }
        }
        assert forall|x: SensorReading<N>| #[trigger] kept.contains(x) implies rs.contains(x) by {
            let m = choose|m: int| 0 <= m < kept.len() && kept[m] == x;
            if !dup && m == p.len() {
                assert(rs[rs.len() - 1] == x);
            } else {
                assert(p[m] == x);
                assert(p.contains(x));
                let i = choose|i: int| 0 <= i < q.len() && q[i] == x;
                assert(rs[i] == x);
            }
        }
        assert forall|i: int| 0 <= i < rs.len() implies has_reading_id(kept, reading_id(#[trigger] rs[i])) by {
            if i == rs.len() - 1 {
                if dup {
                    let m = choose|m: int| 0 <= m < p.len() && reading_id(#[trigger] p[m]) == reading_id(last);
                    assert(kept[m] == p[m]);
                } else {
                    assert(kept[p.len() as int] == last);
                }
            } else {
                assert(q[i] == rs[i]);
                assert(has_reading_id(p, reading_id(q[i])));
                let m = choose|m: int| 0 <= m < p.len() && reading_id(#[trigger] p[m]) == reading_id(q[i]);
                assert(kept[m] == p[m]);
            }
        }
        assert forall|i: int|
            0 <= i < rs.len() && !has_reading_id(rs.take(i), reading_id(rs[i])) implies kept.contains(
            #[trigger] rs[i],
        ) by {
            if i == rs.len() - 1 {
                if dup {
                    let m = choose|m: int| 0 <= m < p.len() && reading_id(#[trigger] p[m]) == reading_id(last);
                    assert(p.contains(p[m]));
                    assert(q.contains(p[m]));
                    let j = choose|j: int| 0 <= j < q.len() && q[j] == p[m];
                    assert(rs.take(i)[j] == q[j]);
                    assert(false);
                } else {
                    assert(kept[p.len() as int] == rs[i]);
                }
            } else {
                assert(q[i] == rs[i]);
                assert(q.take(i) =~= rs.take(i));
                assert(p.contains(q[i]));
                let m = choose|m: int| 0 <= m < p.len() && p[m] == q[i];
                assert(kept[m] == p[m]);
            }
        }
    }
}

/// Appending the panel of a later kind keeps the panels ordered.
proof fn lemma_append_panel<N>(
    a: Seq<PanelView<N>>,
    kept: Seq<SensorReading<N>>,
    k: PanelKind,
    e: Seq<NvmeEntry>,
)
    requires
        ordered_panels(a, kept, e),
        forall|i: int| 0 <= i < a.len() ==> kind_rank((#[trigger] a[i]).kind) < kind_rank(k),
    ensures
        ordered_panels(a + panel_for(kept, k, e), kept, e),
        forall|i: int|
            0 <= i < (a + panel_for(kept, k, e)).len() ==> kind_rank(
                (#[trigger] (a + panel_for(kept, k, e))[i]).kind,
            ) <= kind_rank(k),
        forall|k2: PanelKind|
            #[trigger] has_kind(a + panel_for(kept, k, e), k2) <==> (has_kind(a, k2) || (k2 == k
                && bucket(kept, k, e).len() > 0)),
{
    let b = panel_for(kept, k, e);
    let c = a + b;
    if bucket(kept, k, e).len() == 0 {
        assert(c =~= a);
    } else {
        let pv = b[0];
        assert(b == seq![pv]);
        assert(pv.kind == k);
        assert(c[a.len() as int] == pv);
        assert forall|i: int, j: int| 0 <= i < j < c.len() implies kind_rank(#[trigger] c[i].kind)
            < kind_rank(#[trigger] c[j].kind) by {
            assert(c[i] == a[i]);
            if j < a.len() {
                assert(c[j] == a[j]);
            }
        }
        assert forall|i: int| 0 <= i < c.len() implies panel_for(kept, (#[trigger] c[i]).kind, e)
            == seq![c[i]] by {
            if i < a.len() {
                assert(c[i] == a[i]);
            }
        }
        assert forall|i: int| 0 <= i < c.len() implies kind_rank((#[trigger] c[i]).kind) <= kind_rank(k) by {
            if i < a.len() {
                assert(c[i] == a[i]);
            }
        }
        assert forall|k2: PanelKind| #[trigger] has_kind(c, k2) <==> (has_kind(a, k2) || k2 == k) by {
            if has_kind(c, k2) {
                let i = choose|i: int| 0 <= i < c.len() && (#[trigger] c[i]).kind == k2;
                if i < a.len() {
                    assert(c[i] == a[i]);
                }
            }
            if has_kind(a, k2) {
                let i = choose|i: int| 0 <= i < a.len() && (#[trigger] a[i]).kind == k2;
                assert(c[i] == a[i]);
            }
            if k2 == k {
                assert(c[a.len() as int].kind == k2);
            }
        }
    }
}

/// The panels are ordered, and there is a panel of kind `k` exactly when some kept
/// reading is classified as `k`.
proof fn lemma_panels_ordered<N>(rs: Seq<SensorReading<N>>, e: Seq<NvmeEntry>)
    ensures
        ordered_panels(panels_of(rs, e), first_of_each_id(rs), e),
        forall|k: PanelKind|
            #[trigger] has_kind(panels_of(rs, e), k) <==> bucket(first_of_each_id(rs), k, e).len() > 0,
{
    let kept = first_of_each_id(rs);
    let a0 = Seq::<PanelView<N>>::empty();
    assert(a0 + panel_for(kept, PanelKind::Cpu, e) =~= panel_for(kept, PanelKind::Cpu, e));
    lemma_append_panel(a0, kept, PanelKind::Cpu, e);
    let a1 = panel_for(kept, PanelKind::Cpu, e);
    lemma_append_panel(a1, kept, PanelKind::Storage, e);
    let a2 = a1 + panel_for(kept, PanelKind::Storage, e);
    lemma_append_panel(a2, kept, PanelKind::Gpu, e);
    let a3 = a2 + panel_for(kept, PanelKind::Gpu, e);
    lemma_append_panel(a3, kept, PanelKind::Motherboard, e);
    let a4 = a3 + panel_for(kept, PanelKind::Motherboard, e);
    lemma_append_panel(a4, kept, PanelKind::Other, e);
    let a5 = a4 + panel_for(kept, PanelKind::Other, e);
    assert(panels_of(rs, e) == a5);
    assert forall|k: PanelKind| #[trigger] has_kind(a5, k) <==> bucket(kept, k, e).len() > 0 by {
        assert(!has_kind(a0, k));
        assert(has_kind(a5, k) <==> has_kind(a4, k) || (k == PanelKind::Other && bucket(kept, k, e).len() > 0));
        assert(has_kind(a4, k) <==> has_kind(a3, k) || (k == PanelKind::Motherboard && bucket(kept, k, e).len() > 0));
        assert(has_kind(a3, k) <==> has_kind(a2, k) || (k == PanelKind::Gpu && bucket(kept, k, e).len() > 0));
        assert(has_kind(a2, k) <==> has_kind(a1, k) || (k == PanelKind::Storage && bucket(kept, k, e).len() > 0));
        assert(has_kind(a0 + a1, k) <==> has_kind(a0, k) || (k == PanelKind::Cpu && bucket(kept, k, e).len() > 0));
    }
}

/// One panel per kind that has data, in the order CPU, storage, GPU, motherboard,
/// other: kinds strictly increase in that order, no panel is empty, each panel carries
/// its kind's title, and there is a panel of kind `k` exactly when a kept reading (the
/// first reading of its id) is classified as `k`.
pub proof fn lemma_one_panel_per_kind<N>(rs: Seq<SensorReading<N>>, e: Seq<NvmeEntry>, k: PanelKind)
    ensures
        forall|i: int, j: int|
            0 <= i < j < panels_of(rs, e).len() ==> kind_rank(#[trigger] panels_of(rs, e)[i].kind)
                < kind_rank(#[trigger] panels_of(rs, e)[j].kind),
        forall|i: int|
            0 <= i < panels_of(rs, e).len() ==> (#[trigger] panels_of(rs, e)[i]).series.len() > 0
                && panels_of(rs, e)[i].title == panel_title(panels_of(rs, e)[i].kind),
        has_kind(panels_of(rs, e), k) <==> exists|j: int|
            0 <= j < first_of_each_id(rs).len() && kind_of(#[trigger] first_of_each_id(rs)[j]) == k,
{
    let ps = panels_of(rs, e);
    let kept = first_of_each_id(rs);
    lemma_panels_ordered(rs, e);
    assert forall|i: int| 0 <= i < ps.len() implies (#[trigger] ps[i]).series.len() > 0 && ps[i].title
        == panel_title(ps[i].kind) by {
        let b = bucket(kept, ps[i].kind, e);
        assert(panel_for(kept, ps[i].kind, e) == seq![ps[i]]);
        assert(b.len() > 0);
        lemma_sorted_elements(b, panel_order(ps[i].kind));
    }
    lemma_bucket_elements(kept, k, e);
    let b = bucket(kept, k, e);
    if b.len() > 0 {
        assert(b.contains(b[0]));
        let j = choose|j: int| 0 <= j < kept.len() && kind_of(kept[j]) == k && #[trigger] series_view_of(kept[j], e) == b[0];
        assert(kind_of(kept[j]) == k);
    }
    if exists|j: int| 0 <= j < kept.len() && kind_of(#[trigger] kept[j]) == k {
        let j = choose|j: int| 0 <= j < kept.len() && kind_of(#[trigger] kept[j]) == k;
        assert(series_of_kind(kept, k, e, series_view_of(kept[j], e)));
        assert(b.contains(series_view_of(kept[j], e)));
    }
}

/// The series of panel `p` are the sorted bucket of its kind.
proof fn lemma_panel_series<N>(rs: Seq<SensorReading<N>>, e: Seq<NvmeEntry>, p: int)
    requires
        0 <= p < panels_of(rs, e).len(),
    ensures
        forall|v: SeriesView<N>|
            #[trigger] panels_of(rs, e)[p].series.contains(v) <==> series_of_kind(
                first_of_each_id(rs),
                panels_of(rs, e)[p].kind,
                e,
                v,
            ),
        distinct_ids(panels_of(rs, e)[p].series),
{
    let ps = panels_of(rs, e);
    let kept = first_of_each_id(rs);
    let k = ps[p].kind;
    lemma_panels_ordered(rs, e);
    assert(panel_for(kept, k, e) == seq![ps[p]]);
    let b = bucket(kept, k, e);
    lemma_bucket_elements(kept, k, e);
    lemma_first_of_each_id(rs);
    lemma_sorted_elements(b, panel_order(k));
    assert(ps[p].series == sorted_by(b, panel_order(k)));
}

/// Grouping agrees with classification (`classify_panel_kind`): every series shown is
/// the series of a kept reading classified as its panel's kind, and every kept reading's
/// series is shown in the panel of the kind it is classified as.
pub proof fn lemma_grouping_matches_classification<N>(rs: Seq<SensorReading<N>>, e: Seq<NvmeEntry>)
    ensures
        forall|p: int, s: int|
            0 <= p < panels_of(rs, e).len() && 0 <= s < panels_of(rs, e)[p].series.len()
                ==> series_of_kind(
                first_of_each_id(rs),
                panels_of(rs, e)[p].kind,
                e,
                #[trigger] panels_of(rs, e)[p].series[s],
            ),
        forall|j: int|
            0 <= j < first_of_each_id(rs).len() ==> shows_series(
                panels_of(rs, e),
                kind_of(first_of_each_id(rs)[j]),
                #[trigger] series_view_of(first_of_each_id(rs)[j], e),
            ),
{
    let ps = panels_of(rs, e);
    let kept = first_of_each_id(rs);
    assert forall|p: int, s: int|
        0 <= p < ps.len() && 0 <= s < ps[p].series.len() implies series_of_kind(
        kept,
        ps[p].kind,
        e,
        #[trigger] ps[p].series[s],
    ) by {
        lemma_panel_series(rs, e, p);
        assert(ps[p].series.contains(ps[p].series[s]));
    }
    assert forall|j: int| 0 <= j < kept.len() implies shows_series(
        ps,
        kind_of(kept[j]),
        #[trigger] series_view_of(kept[j], e),
    ) by {
        let k = kind_of(kept[j]);
        let v = series_view_of(kept[j], e);
        lemma_one_panel_per_kind(rs, e, k);
        let p = choose|p: int| 0 <= p < ps.len() && (#[trigger] ps[p]).kind == k;
        lemma_panel_series(rs, e, p);
        assert(series_of_kind(kept, k, e, v));
        assert(ps[p].series.contains(v));
        let s = choose|s: int| 0 <= s < ps[p].series.len() && ps[p].series[s] == v;
        assert(ps[p].series[s] == v);
    }
}

/// Every series id is shown once: no two series on screen share an id (a repeated
/// reading does not add a second graph), and the id of every reading is shown.
pub proof fn lemma_series_ids_shown_once<N>(rs: Seq<SensorReading<N>>, e: Seq<NvmeEntry>)
    ensures
        forall|p: int, s: int, q: int, t: int|
            #![trigger panels_of(rs, e)[p].series[s], panels_of(rs, e)[q].series[t]]
            0 <= p < panels_of(rs, e).len() && 0 <= s < panels_of(rs, e)[p].series.len() && 0 <= q
                < panels_of(rs, e).len() && 0 <= t < panels_of(rs, e)[q].series.len()
                && panels_of(rs, e)[p].series[s].id == panels_of(rs, e)[q].series[t].id ==> p == q
                && s == t,
        forall|i: int| 0 <= i < rs.len() ==> shown_in(panels_of(rs, e), reading_id(#[trigger] rs[i])),
{
    let ps = panels_of(rs, e);
    let kept = first_of_each_id(rs);
    lemma_first_of_each_id(rs);
    lemma_panels_ordered(rs, e);
    lemma_grouping_matches_classification(rs, e);
    assert forall|p: int, s: int, q: int, t: int|
        #![trigger ps[p].series[s], ps[q].series[t]]
        0 <= p < ps.len() && 0 <= s < ps[p].series.len() && 0 <= q < ps.len() && 0 <= t
            < ps[q].series.len() && ps[p].series[s].id == ps[q].series[t].id implies p == q && s
        == t by {
        let v = ps[p].series[s];
        let w = ps[q].series[t];
        assert(series_of_kind(kept, ps[p].kind, e, v));
        assert(series_of_kind(kept, ps[q].kind, e, w));
        let i = choose|i: int|
            0 <= i < kept.len() && kind_of(kept[i]) == ps[p].kind && #[trigger] series_view_of(kept[i], e) == v;
        let j = choose|j: int|
            0 <= j < kept.len() && kind_of(kept[j]) == ps[q].kind && #[trigger] series_view_of(kept[j], e) == w;
        if i != j {
            if i < j {
                assert(reading_id(kept[i]) != reading_id(kept[j]));
            } else {
                assert(reading_id(kept[j]) != reading_id(kept[i]));
            }
        }
        assert(i == j);
        if p != q {
            if p < q {
                assert(kind_rank(ps[p].kind) < kind_rank(ps[q].kind));
            } else {
                assert(kind_rank(ps[q].kind) < kind_rank(ps[p].kind));
            }
        }
        assert(p == q);
        lemma_panel_series(rs, e, p);
        if s != t {
            if s < t {
                assert(ps[p].series[s].id != ps[p].series[t].id);
            } else {
                assert(ps[p].series[t].id != ps[p].series[s].id);
            }
        }
    }
    assert forall|i: int| 0 <= i < rs.len() implies shown_in(ps, reading_id(#[trigger] rs[i])) by {
        assert(has_reading_id(kept, reading_id(rs[i])));
        let j = choose|j: int| 0 <= j < kept.len() && reading_id(#[trigger] kept[j]) == reading_id(rs[i]);
        let v = series_view_of(kept[j], e);
        assert(shows_series(ps, kind_of(kept[j]), v));
        let (p, s) = choose|p: int, s: int|
            0 <= p < ps.len() && 0 <= s < ps[p].series.len() && ps[p].kind == kind_of(kept[j])
                && #[trigger] ps[p].series[s] == v;
        assert(ps[p].series[s].id == reading_id(rs[i]));
    }
}

/// The chip keys are distinct and are exactly the chips of the series.
pub proof fn lemma_chip_keys<N>(s: Seq<SeriesView<N>>)
    ensures
        forall|i: int, j: int|
            0 <= i < j < chip_keys(s).len() ==> #[trigger] chip_keys(s)[i] != #[trigger] chip_keys(s)[j],
        forall|c: Seq<char>|
            #[trigger] chip_keys(s).contains(c) <==> exists|i: int| 0 <= i < s.len() && #[trigger] s[i].chip == c,
    decreases s.len(),
{
    if s.len() > 0 {
        let p = s.drop_last();
        lemma_chip_keys(p);
        let keys = chip_keys(p);
        let x = s.last().chip;
        let out = chip_keys(s);
        if keys.contains(x) {
            assert(out == keys);
        } else {
            let pos = key_pos_from(keys, x, 0);
            lemma_key_pos_range(keys, x, 0);
            keys.insert_ensures(pos, x);
            assert(out == keys.insert(pos, x));
            assert forall|i: int, j: int| 0 <= i < j < out.len() implies #[trigger] out[i] != #[trigger] out[j] by {
                if i == pos {
                    assert(out[j] == keys[j - 1]);
                    assert(keys.contains(keys[j - 1]));
                } else if j == pos {
                    assert(out[i] == keys[i]);
                    assert(keys.contains(keys[i]));
                } else {
                    let ti = if i < pos {
                        i
                    } else {
                        i - 1
                    };
                    let tj = if j < pos {
                        j
                    } else {
                        j - 1
                    };
                    assert(out[i] == keys[ti]);
                    assert(out[j] == keys[tj]);
                }
            }
        }
        assert forall|c: Seq<char>| #[trigger] out.contains(c) <==> exists|i: int|
            0 <= i < s.len() && #[trigger] s[i].chip == c by {
            let in_p = exists|i: int| 0 <= i < p.len() && #[trigger] p[i].chip == c;
            if in_p {
                let i = choose|i: int| 0 <= i < p.len() && #[trigger] p[i].chip == c;
                assert(s[i].chip == c);
            }
            if exists|i: int| 0 <= i < s.len() && #[trigger] s[i].chip == c {
                let i = choose|i: int| 0 <= i < s.len() && #[trigger] s[i].chip == c;
                if i < s.len() - 1 {
                    assert(p[i].chip == c);
                }
            }
            if !keys.contains(x) {
                let pos = key_pos_from(keys, x, 0);
                if out.contains(c) {
                    let m = choose|m: int| 0 <= m < out.len() && out[m] == c;
                    if m < pos {
                        assert(keys[m] == c);
                    } else if m > pos {
                        assert(keys[m - 1] == c);
                    }
                }
                if keys.contains(c) {
                    let m = choose|m: int| 0 <= m < keys.len() && keys[m] == c;
                    if m < pos {
                        assert(out[m] == c);
                    } else {
                        assert(out[m + 1] == c);
                    }
                }
                if c == x {
                    assert(out[pos] == c);
                }
            }
            if c == x {
                assert(s[s.len() - 1].chip == c);
            }
        }
    }
}

/// The series of one chip are exactly the series with that chip.
pub proof fn lemma_with_chip<N>(s: Seq<SeriesView<N>>, c: Seq<char>)
    ensures
        forall|y: SeriesView<N>| #[trigger] with_chip(s, c).contains(y) <==> (s.contains(y) && y.chip == c),
    decreases s.len(),
{
    if s.len() > 0 {
        let p = s.drop_last();
        let x = s.last();
        lemma_with_chip(p, c);
        let g = with_chip(p, c);
        let tail = if x.chip == c {
            seq![x]
        } else {
            Seq::<SeriesView<N>>::empty()
        };
        let out = with_chip(s, c);
        assert(out == g + tail);
        assert forall|y: SeriesView<N>| #[trigger] out.contains(y) <==> (s.contains(y) && y.chip == c) by {
            if out.contains(y) {
                let m = choose|m: int| 0 <= m < out.len() && out[m] == y;
                if m < g.len() {
                    assert(g[m] == y);
                    assert(g.contains(y));
                    assert(p.contains(y));
                    let i = choose|i: int| 0 <= i < p.len() && p[i] == y;
                    assert(s[i] == y);
                } else {
                    assert(s[s.len() - 1] == y);
                }
            }
            if s.contains(y) && y.chip == c {
                let i = choose|i: int| 0 <= i < s.len() && s[i] == y;
                if i == s.len() - 1 {
                    assert(out[g.len() as int] == y);
                } else {
                    assert(p[i] == y);
                    assert(p.contains(y));
                    assert(g.contains(y));
                    let m = choose|m: int| 0 <= m < g.len() && g[m] == y;
                    assert(out[m] == y);
                }
            }
        }
    }
}

/// Splitting off the composite series loses and adds nothing: a non-empty group gets a
/// composite series, and the composite with the other sensors are the group's series.
pub proof fn lemma_split_composite<N>(g: Seq<SeriesView<N>>)
    ensures
        g.len() > 0 ==> split_composite(g).0 is Some,
        forall|y: SeriesView<N>|
            #[trigger] g.contains(y) ==> split_composite(g).0 == Some(y) || split_composite(g).1.contains(y),
        forall|y: SeriesView<N>|
            #[trigger] split_composite(g).1.contains(y) ==> g.contains(y),
        forall|y: SeriesView<N>| split_composite(g).0 == Some(y) ==> #[trigger] g.contains(y),
{
    let s = sorted_by(g, SeriesOrder::ByLabel);
    lemma_sorted_elements(g, SeriesOrder::ByLabel);
    lemma_exact_from(s, 0);
    lemma_containing_from(s, 0);
    if s.len() > 0 {
        let idx = match exact_from(s, 0) {
            Some(i) => Some(i),
            None => containing_from(s, 0),
        };
        match idx {
            Some(i) => {
                s.remove_ensures(i);
                assert(split_composite(g) == (Some(s[i]), s.remove(i)));
                assert(s.contains(s[i]));
                assert forall|y: SeriesView<N>| #[trigger] g.contains(y) implies Some(s[i]) == Some(y)
                    || s.remove(i).contains(y) by {
                    assert(s.contains(y));
                    let m = choose|m: int| 0 <= m < s.len() && s[m] == y;
                    if m < i {
                        assert(s.remove(i)[m] == y);
                    } else if m > i {
                        assert(s.remove(i)[m - 1] == y);
                    }
                }
                assert forall|y: SeriesView<N>| #[trigger] s.remove(i).contains(y) implies g.contains(y) by {
                    let m = choose|m: int| 0 <= m < s.remove(i).len() && s.remove(i)[m] == y;
                    if m < i {
                        assert(s[m] == y);
                    } else {
                        assert(s[m + 1] == y);
                    }
                    assert(s.contains(y));
                }
            },
            None => {
                let rest = s.drop_first();
                assert(split_composite(g) == (Some(s[0]), rest));
                assert(s.contains(s[0]));
                assert forall|y: SeriesView<N>| #[trigger] g.contains(y) implies Some(s[0]) == Some(y)
                    || rest.contains(y) by {
                    assert(s.contains(y));
                    let m = choose|m: int| 0 <= m < s.len() && s[m] == y;
                    if m > 0 {
                        assert(rest[m - 1] == y);
                    }
                }
                assert forall|y: SeriesView<N>| #[trigger] rest.contains(y) implies g.contains(y) by {
                    let m = choose|m: int| 0 <= m < rest.len() && rest[m] == y;
                    assert(s[m + 1] == y);
                    assert(s.contains(y));
                }
            },
        }
    } else {
        assert(split_composite(g).1 =~= Seq::<SeriesView<N>>::empty());
    }
}

/// Storage drives group the series by chip: drive chips are distinct, every drive has a
/// composite series, every series of a drive has the drive's chip, and every series
/// appears in the drive of its chip, as its composite or among its other sensors.
pub proof fn lemma_drives_group_by_chip<N>(s: Seq<SeriesView<N>>)
    ensures
        forall|i: int, j: int|
            0 <= i < j < storage_drives_of(s).len() ==> #[trigger] storage_drives_of(s)[i].chip
                != #[trigger] storage_drives_of(s)[j].chip,
        forall|i: int|
            0 <= i < storage_drives_of(s).len() ==> (#[trigger] storage_drives_of(s)[i]).composite is Some
                && storage_drives_of(s)[i].composite->0.chip == storage_drives_of(s)[i].chip,
        forall|i: int, m: int|
            0 <= i < storage_drives_of(s).len() && 0 <= m < storage_drives_of(s)[i].sensors.len()
                ==> #[trigger] storage_drives_of(s)[i].sensors[m].chip == storage_drives_of(s)[i].chip,
        forall|x: SeriesView<N>|
            #[trigger] s.contains(x) ==> exists|i: int|
                0 <= i < storage_drives_of(s).len() && (#[trigger] storage_drives_of(s)[i]).chip == x.chip
                    && (storage_drives_of(s)[i].composite == Some(x) || storage_drives_of(s)[i].sensors.contains(x)),
{
    let keys = chip_keys(s);
    let ds = storage_drives_of(s);
    lemma_chip_keys(s);
    assert(ds.len() == keys.len());
    assert forall|i: int| 0 <= i < ds.len() implies #[trigger] ds[i] == drive_of(s, keys[i]) by {}
    assert forall|i: int, j: int| 0 <= i < j < ds.len() implies #[trigger] ds[i].chip != #[trigger] ds[j].chip by {
        assert(ds[i] == drive_of(s, keys[i]));
        assert(ds[j] == drive_of(s, keys[j]));
    }
    assert forall|i: int| 0 <= i < ds.len() implies (#[trigger] ds[i]).composite is Some && ds[i].composite->0.chip
        == ds[i].chip by {
        let c = keys[i];
        assert(ds[i] == drive_of(s, c));
        assert(keys.contains(c));
        let m = choose|m: int| 0 <= m < s.len() && #[trigger] s[m].chip == c;
        lemma_with_chip(s, c);
        let g = with_chip(s, c);
        assert(s.contains(s[m]));
        assert(g.contains(s[m]));
        lemma_split_composite(g);
        let y = split_composite(g).0->0;
        assert(g.contains(y));
    }
    assert forall|i: int, m: int|
        0 <= i < ds.len() && 0 <= m < ds[i].sensors.len() implies #[trigger] ds[i].sensors[m].chip
        == ds[i].chip by {
        let c = keys[i];
        assert(ds[i] == drive_of(s, c));
        lemma_with_chip(s, c);
        let g = with_chip(s, c);
        lemma_split_composite(g);
        let y = ds[i].sensors[m];
        assert(split_composite(g).1.contains(y));
        assert(g.contains(y));
    }
    assert forall|x: SeriesView<N>| #[trigger] s.contains(x) implies exists|i: int|
        0 <= i < ds.len() && (#[trigger] ds[i]).chip == x.chip && (ds[i].composite == Some(x)
            || ds[i].sensors.contains(x)) by {
        let m = choose|m: int| 0 <= m < s.len() && s[m] == x;
        assert(s[m].chip == x.chip);
        assert(keys.contains(x.chip));
        let i = choose|i: int| 0 <= i < keys.len() && keys[i] == x.chip;
        assert(ds[i] == drive_of(s, x.chip));
        lemma_with_chip(s, x.chip);
        let g = with_chip(s, x.chip);
        assert(g.contains(x));
        lemma_split_composite(g);
    }
}

/// Lexicographic order is irreflexive.
pub proof fn lemma_lex_lt_irreflexive(a: Seq<char>)
    ensures
        !lex_lt(a, a),
    decreases a.len(),
{
    if a.len() > 0 {
        lemma_lex_lt_irreflexive(a.drop_first());
    }
}

/// Lexicographic order is transitive.
pub proof fn lemma_lex_lt_transitive(a: Seq<char>, b: Seq<char>, c: Seq<char>)
    requires
        lex_lt(a, b),
        lex_lt(b, c),
    ensures
        lex_lt(a, c),
    decreases a.len(),
{
    if a.len() > 0 && b.len() > 0 && c.len() > 0 && a[0] == b[0] && b[0] == c[0] {
        lemma_lex_lt_transitive(a.drop_first(), b.drop_first(), c.drop_first());
    }
}

/// Every series order is a strict order: irreflexive and transitive.
pub proof fn lemma_series_lt_strict<N>(a: SeriesView<N>, b: SeriesView<N>, c: SeriesView<N>, o: SeriesOrder)
    ensures
        !series_lt(a, a, o),
        series_lt(a, b, o) && series_lt(b, c, o) ==> series_lt(a, c, o),
{
    lemma_lex_lt_irreflexive(a.label);
    lemma_lex_lt_irreflexive(a.chip);
    if lex_lt(a.label, b.label) && lex_lt(b.label, c.label) {
        lemma_lex_lt_transitive(a.label, b.label, c.label);
    }
    if lex_lt(a.chip, b.chip) && lex_lt(b.chip, c.chip) {
        lemma_lex_lt_transitive(a.chip, b.chip, c.chip);
    }
}

/// No series sorts strictly before one placed ahead of it.
pub open spec fn is_sorted_by<N>(s: Seq<SeriesView<N>>, o: SeriesOrder) -> bool {
    forall|i: int, j: int| 0 <= i < j < s.len() ==> !series_lt(#[trigger] s[j], #[trigger] s[i], o)
}

proof fn lemma_insert_pos_props<N>(t: Seq<SeriesView<N>>, x: SeriesView<N>, o: SeriesOrder, j: int)
    requires
        0 <= j <= t.len(),
    ensures
        forall|k: int| j <= k < insert_pos_from(t, x, o, j) ==> !series_lt(x, #[trigger] t[k], o),
        insert_pos_from(t, x, o, j) < t.len() ==> series_lt(x, t[insert_pos_from(t, x, o, j)], o),
    decreases t.len() - j,
{
    if j < t.len() && !series_lt(x, t[j], o) {
        lemma_insert_pos_props(t, x, o, j + 1);
    }
}

/// The stable sort leaves its series in order.
pub proof fn lemma_sorted_is_ordered<N>(s: Seq<SeriesView<N>>, o: SeriesOrder)
    ensures
        is_sorted_by(sorted_by(s, o), o),
    decreases s.len(),
{
    if s.len() > 0 {
        let p = s.drop_last();
        let x = s.last();
        lemma_sorted_is_ordered(p, o);
        let t = sorted_by(p, o);
        let pos = insert_pos_from(t, x, o, 0);
        lemma_insert_pos_range(t, x, o, 0);
        lemma_insert_pos_props(t, x, o, 0);
        t.insert_ensures(pos, x);
        let r = t.insert(pos, x);
        assert(sorted_by(s, o) == r);
        assert forall|a: int, b: int| 0 <= a < b < r.len() implies !series_lt(#[trigger] r[b], #[trigger] r[a], o) by {
            if a == pos {
                assert(r[b] == t[b - 1]);
                lemma_series_lt_strict(t[b - 1], x, t[pos], o);
                lemma_series_lt_strict(t[pos], t[pos], t[pos], o);
                if b - 1 > pos {
                    assert(!series_lt(t[b - 1], t[pos], o));
                }
            } else if b == pos {
                assert(r[a] == t[a]);
            } else {
                let ta = if a < pos {
                    a
                } else {
                    a - 1
                };
                let tb = if b < pos {
                    b
                } else {
                    b - 1
                };
                assert(r[a] == t[ta]);
                assert(r[b] == t[tb]);
            }
        }
    }
}

/// Series within a panel are in the panel's order: composite CPU series before core
/// series and each by label in the CPU panel, by chip then label elsewhere.
pub proof fn lemma_panel_series_ordered<N>(rs: Seq<SensorReading<N>>, e: Seq<NvmeEntry>)
    ensures
        forall|p: int|
            0 <= p < panels_of(rs, e).len() ==> is_sorted_by(
                (#[trigger] panels_of(rs, e)[p]).series,
                panel_order(panels_of(rs, e)[p].kind),
            ),
{
    let ps = panels_of(rs, e);
    let kept = first_of_each_id(rs);
    lemma_panels_ordered(rs, e);
    assert forall|p: int| 0 <= p < ps.len() implies is_sorted_by(
        (#[trigger] ps[p]).series,
        panel_order(ps[p].kind),
    ) by {
        assert(panel_for(kept, ps[p].kind, e) == seq![ps[p]]);
        lemma_sorted_is_ordered(bucket(kept, ps[p].kind, e), panel_order(ps[p].kind));
    }
}

/// A CPU marker anywhere sends a reading to the CPU panel: `k10temp`, `coretemp` or
/// `zenpower` in its lowercased adapter, chip or label, or `tctl`, `tdie` or `package` in
/// its lowercased label, whatever else the reading holds.
pub proof fn lemma_cpu_markers_classify_cpu<N>(r: SensorReading<N>, marker: Seq<char>)
    requires
        marker == "k10temp"@ || marker == "coretemp"@ || marker == "zenpower"@,
        contains_seq(spec_to_lowercase(r.adapter@), marker) || contains_seq(
            spec_to_lowercase(r.chip@),
            marker,
        ) || contains_seq(spec_to_lowercase(r.label@), marker),
    ensures
        kind_of(r) == PanelKind::Cpu,
{
    let a = spec_to_lowercase(r.adapter@);
    let c = spec_to_lowercase(r.chip@);
    let l = spec_to_lowercase(r.label@);
    let h = haystack(r.adapter@, r.chip@, r.label@);
    assert(h == a + " "@ + c + " "@ + l);
    lemma_contains_concat(a, " "@, marker);
    lemma_contains_concat(a + " "@, c, marker);
    lemma_contains_concat(a + " "@ + c, " "@, marker);
    lemma_contains_concat(a + " "@ + c + " "@, l, marker);
    assert(contains_seq(h, marker));
}

/// A label naming a CPU package temperature (`tctl`, `tdie` or `package` in its lowercase)
/// sends a reading to the CPU panel, whatever its adapter and chip.
pub proof fn lemma_package_label_classifies_cpu<N>(r: SensorReading<N>, marker: Seq<char>)
    requires
        marker == "tctl"@ || marker == "tdie"@ || marker == "package"@,
        contains_seq(spec_to_lowercase(r.label@), marker),
    ensures
        kind_of(r) == PanelKind::Cpu,
{
}

/// A reading with `nvme` in its lowercased adapter, chip or label that is not a CPU
/// reading goes to the storage panel.
pub proof fn lemma_nvme_classifies_storage<N>(r: SensorReading<N>)
    requires
        contains_seq(spec_to_lowercase(r.adapter@), "nvme"@) || contains_seq(
            spec_to_lowercase(r.chip@),
            "nvme"@,
        ) || contains_seq(spec_to_lowercase(r.label@), "nvme"@),
        kind_of(r) != PanelKind::Cpu,
    ensures
        kind_of(r) == PanelKind::Storage,
{
    let a = spec_to_lowercase(r.adapter@);
    let c = spec_to_lowercase(r.chip@);
    let l = spec_to_lowercase(r.label@);
    let h = haystack(r.adapter@, r.chip@, r.label@);
    let m = "nvme"@;
    assert(h == a + " "@ + c + " "@ + l);
    lemma_contains_concat(a, " "@, m);
    lemma_contains_concat(a + " "@, c, m);
    lemma_contains_concat(a + " "@ + c, " "@, m);
    lemma_contains_concat(a + " "@ + c + " "@, l, m);
    assert(contains_seq(h, m));
}

/// The first reading of an id that occurs: its position, with no earlier reading of
/// the same id.
proof fn lemma_first_index<N>(rs: Seq<SensorReading<N>>, id: Seq<char>)
    requires
        has_reading_id(rs, id),
    ensures
        exists|f: int|
            0 <= f < rs.len() && reading_id(#[trigger] rs[f]) == id && !has_reading_id(rs.take(f), id),
    decreases rs.len(),
{
    let p = rs.drop_last();
    if has_reading_id(p, id) {
        lemma_first_index(p, id);
        let f = choose|f: int| 0 <= f < p.len() && reading_id(#[trigger] p[f]) == id && !has_reading_id(p.take(f), id);
        assert(rs.take(f) =~= p.take(f));
        assert(rs[f] == p[f]);
    } else {
        let f = rs.len() - 1;
        assert(rs.take(f) =~= p);
        let j = choose|j: int| 0 <= j < rs.len() && reading_id(#[trigger] rs[j]) == id;
        if j < f {
            assert(p[j] == rs[j]);
        }
        assert(reading_id(rs[f]) == id);
    }
}

/// Every series shown carries the names and limits of the first reading with its id
/// (same chip, label, maximum and critical limit) and sits in the panel of that
/// reading's kind; a storage series is named after its drive, any other after its
/// label, and only CPU series carry a role (the role of their label).
pub proof fn lemma_series_carry_first_reading<N>(rs: Seq<SensorReading<N>>, e: Seq<NvmeEntry>)
    ensures
        forall|p: int, s: int|
            0 <= p < panels_of(rs, e).len() && 0 <= s < panels_of(rs, e)[p].series.len() ==> exists|f: int|
                0 <= f < rs.len() && reading_id(#[trigger] rs[f]) == (#[trigger] panels_of(rs, e)[p].series[s]).id
                    && !has_reading_id(rs.take(f), reading_id(rs[f]))
                    && panels_of(rs, e)[p].series[s].chip == rs[f].chip@
                    && panels_of(rs, e)[p].series[s].label == rs[f].label@
                    && panels_of(rs, e)[p].series[s].max == rs[f].max_c
                    && panels_of(rs, e)[p].series[s].crit == rs[f].crit_c
                    && panels_of(rs, e)[p].kind == kind_of(rs[f])
                    && panels_of(rs, e)[p].series[s].display_name == (if panels_of(rs, e)[p].kind
                    == PanelKind::Storage {
                    drive_label(rs[f].chip@, e)
                } else {
                    rs[f].label@
                }) && panels_of(rs, e)[p].series[s].cpu_role == (if panels_of(rs, e)[p].kind
                    == PanelKind::Cpu {
                    Some(cpu_role_of(rs[f].label@))
                } else {
                    None
                }),
{
    let ps = panels_of(rs, e);
    let kept = first_of_each_id(rs);
    lemma_first_of_each_id(rs);
    lemma_grouping_matches_classification(rs, e);
    assert forall|p: int, s: int|
        0 <= p < ps.len() && 0 <= s < ps[p].series.len() implies exists|f: int|
            0 <= f < rs.len() && reading_id(#[trigger] rs[f]) == (#[trigger] ps[p].series[s]).id
                && !has_reading_id(rs.take(f), reading_id(rs[f])) && ps[p].series[s].chip == rs[f].chip@
                && ps[p].series[s].label == rs[f].label@ && ps[p].series[s].max == rs[f].max_c
                && ps[p].series[s].crit == rs[f].crit_c && ps[p].kind == kind_of(rs[f])
                && ps[p].series[s].display_name == (if ps[p].kind == PanelKind::Storage {
                drive_label(rs[f].chip@, e)
            } else {
                rs[f].label@
            }) && ps[p].series[s].cpu_role == (if ps[p].kind == PanelKind::Cpu {
                Some(cpu_role_of(rs[f].label@))
            } else {
                None
            }) by {
        let v = ps[p].series[s];
        assert(series_of_kind(kept, ps[p].kind, e, v));
        let i = choose|i: int| 0 <= i < kept.len() && kind_of(kept[i]) == ps[p].kind && #[trigger] series_view_of(kept[i], e) == v;
        let x = kept[i];
        assert(v.id == reading_id(x) && v.chip == x.chip@ && v.label == x.label@ && v.max == x.max_c && v.crit == x.crit_c);
        assert(kept.contains(x));
        assert(rs.contains(x));
        let j = choose|j: int| 0 <= j < rs.len() && rs[j] == x;
        assert(has_reading_id(rs, reading_id(x)));
        lemma_first_index(rs, reading_id(x));
        let f = choose|f: int| 0 <= f < rs.len() && reading_id(#[trigger] rs[f]) == reading_id(x) && !has_reading_id(rs.take(f), reading_id(x));
        assert(kept.contains(rs[f]));
        let m = choose|m: int| 0 <= m < kept.len() && kept[m] == rs[f];
        if m != i {
            if m < i {
                assert(reading_id(kept[m]) != reading_id(kept[i]));
            } else {
                assert(reading_id(kept[i]) != reading_id(kept[m]));
            }
        }
        assert(rs[f] == x);
    }
}

/// What the order inside a panel means: in the CPU panel no core series comes before a
/// composite one (a missing role counts as composite) and series of one role go by label;
/// in every other panel series go by chip, and by label within a chip.
pub proof fn lemma_panel_order_meaning<N>(rs: Seq<SensorReading<N>>, e: Seq<NvmeEntry>, p: int, i: int, j: int)
    requires
        0 <= p < panels_of(rs, e).len(),
        0 <= i < j < panels_of(rs, e)[p].series.len(),
    ensures
        ({
            let a = panels_of(rs, e)[p].series[i];
            let b = panels_of(rs, e)[p].series[j];
            if panels_of(rs, e)[p].kind == PanelKind::Cpu {
                &&& !(role_or_composite(a.cpu_role) == CpuRole::Core && role_or_composite(b.cpu_role)
                    == CpuRole::Composite)
                &&& role_or_composite(a.cpu_role) == role_or_composite(b.cpu_role) ==> !lex_lt(b.label, a.label)
            } else {
                &&& !lex_lt(b.chip, a.chip)
                &&& a.chip == b.chip ==> !lex_lt(b.label, a.label)
            }
        }),
{
    lemma_panel_series_ordered(rs, e);
    let ps = panels_of(rs, e);
    assert(is_sorted_by(ps[p].series, panel_order(ps[p].kind)));
    assert(!series_lt(ps[p].series[j], ps[p].series[i], panel_order(ps[p].kind)));
}

} // verus!

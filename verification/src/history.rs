//! Fixed-size ring buffers of recent samples per series (for the graphs).

use vstd::prelude::*;
use std::collections::VecDeque;
use crate::text::{chars_eq, chars_of, string_from_chars};

verus! {

/// The newest `k` items of `s` (all of `s` when it has at most `k`).
pub open spec fn keep_last<N>(s: Seq<N>, k: nat) -> Seq<N> {
    if s.len() > k {
        s.skip(s.len() - k)
    } else {
        s
    }
}

/// Ring buffer of samples: keeps the newest `capacity` values, oldest first.
#[derive(Debug)]
pub struct RingBuffer<N> {
    cap: usize,
    buf: VecDeque<N>,
}

impl<N> View for RingBuffer<N> {
    type V = Seq<N>;

    /// The samples, oldest first.
    closed spec fn view(&self) -> Seq<N> {
        self.buf@
    }
}

impl<N> RingBuffer<N> {
    /// How many samples the buffer keeps.
    pub closed spec fn capacity(&self) -> nat {
        self.cap as nat
    }

    /// Capacity is at least one and never exceeded.
    spec fn wf(&self) -> bool {
        self.cap >= 1 && self.buf@.len() <= self.cap
    }

    /// Every ring buffer keeps its capacity: at least one sample, never more.
    #[verifier::type_invariant]
    spec fn ring_inv(self) -> bool {
        self.wf()
    }

    /// Empty buffer keeping `max(cap, 1)` samples.
    pub fn new(cap: usize) -> (r: Self)
        ensures
            r@ == Seq::<N>::empty(),
            r.capacity() == if cap >= 1 {
                cap as nat
            } else {
                1
            },
    {
        RingBuffer { cap: if cap >= 1 {
            cap
        } else {
            1
        }, buf: VecDeque::new() }
    }

    /// Append a sample, dropping the oldest one when the buffer is full.
    pub fn push(&mut self, v: N)
        ensures
            final(self).capacity() == old(self).capacity(),
            final(self)@ == keep_last(old(self)@.push(v), old(self).capacity()),
    {
        proof {
            use_type_invariant(&*self);
        }
        let mut b: VecDeque<N> = VecDeque::new();
        std::mem::swap(&mut b, &mut self.buf);
        if b.len() >= self.cap {
            let _ = b.pop_front();
        }
        b.push_back(v);
        proof {
            let s = old(self)@.push(v);
            if s.len() > old(self).capacity() {
                assert(b@ =~= s.skip(s.len() - old(self).capacity()));
            } else {
                assert(b@ =~= s);
            }
        }
        self.buf = b;
    }

    /// Values in chronological order, length at most the capacity.
    pub fn as_slice(&self) -> (r: Vec<N>)
        where
            N: Copy,
        ensures
            r@ == self@,
            r@.len() <= self.capacity(),
    {
        proof {
            use_type_invariant(self);
        }
        let mut r: Vec<N> = Vec::new();
        let mut i: usize = 0;
        while i < self.buf.len()
            invariant
                i <= self.buf@.len(),
                r@ == self.buf@.subrange(0, i as int),
            decreases self.buf@.len() - i,
        {
            r.push(self.buf[i]);
            i = i + 1;
        }
        assert(self.buf@.subrange(0, self.buf@.len() as int) =~= self.buf@);
        r
    }

    /// The newest value, if any.
    pub fn last(&self) -> (r: Option<N>)
        where
            N: Copy,
        ensures
            r == if self@.len() > 0 {
                Some(self@.last())
            } else {
                None
            },
    {
        let n = self.buf.len();
        if n > 0 {
            Some(self.buf[n - 1])
        } else {
            None
        }
    }
}

/// A ring buffer after pushing every value of `vs` in order.
pub open spec fn after_pushes<N>(start: Seq<N>, vs: Seq<N>, cap: nat) -> Seq<N>
    decreases vs.len(),
{
    if vs.len() == 0 {
        start
    } else {
        keep_last(after_pushes(start, vs.drop_last(), cap).push(vs.last()), cap)
    }
}

/// Windowing law: pushing values one at a time into a buffer of capacity `cap` leaves
/// exactly the newest `cap` of all values pushed, in order.
pub proof fn lemma_ring_keeps_newest<N>(vs: Seq<N>, cap: nat)
    requires
        cap >= 1,
    ensures
        after_pushes(Seq::<N>::empty(), vs, cap) == keep_last(vs, cap),
    decreases vs.len(),
{
    if vs.len() > 0 {
        lemma_ring_keeps_newest(vs.drop_last(), cap);
        let p = vs.drop_last();
        let kp = keep_last(p, cap);
        if p.len() > cap {
            assert(kp.push(vs.last()).skip(1) =~= vs.skip(vs.len() - cap));
        } else if p.len() == cap {
            assert(kp.push(vs.last()) =~= vs);
        } else {
            assert(kp.push(vs.last()) =~= vs);
        }
    } else {
        assert(keep_last(vs, cap) =~= vs);
    }
}

/// The series after recording sample `v` for `id` in buffers of capacity `cap`: the
/// series of `id` (empty when new) gets `v` appended and keeps its newest `cap` samples.
pub open spec fn recorded<N>(series: Map<Seq<char>, Seq<N>>, id: Seq<char>, v: N, cap: nat) -> Map<
    Seq<char>,
    Seq<N>,
> {
    let prev = if series.contains_key(id) {
        series[id]
    } else {
        Seq::<N>::empty()
    };
    series.insert(id, keep_last(prev.push(v), cap))
}

/// The series after making sure `id` exists: unchanged when it does, else `id` is
/// added with no samples.
pub open spec fn ensured<N>(series: Map<Seq<char>, Seq<N>>, id: Seq<char>) -> Map<Seq<char>, Seq<N>> {
    if series.contains_key(id) {
        series
    } else {
        series.insert(id, Seq::<N>::empty())
    }
}

/// Read-after-write: after recording `v` for `id`, the series of `id` exists, its newest
/// sample is `v` and it holds between 1 and `cap` samples; every other series is left
/// as it was.
pub proof fn lemma_record_reads_back<N>(
    series: Map<Seq<char>, Seq<N>>,
    id: Seq<char>,
    v: N,
    cap: nat,
    other: Seq<char>,
)
    requires
        cap >= 1,
    ensures
        recorded(series, id, v, cap).contains_key(id),
        recorded(series, id, v, cap)[id].last() == v,
        1 <= recorded(series, id, v, cap)[id].len() <= cap,
        other != id ==> recorded(series, id, v, cap).contains_key(other) == series.contains_key(
            other,
        ),
        other != id && series.contains_key(other) ==> recorded(series, id, v, cap)[other]
            == series[other],
{
    let prev = if series.contains_key(id) {
        series[id]
    } else {
        Seq::<N>::empty()
    };
    let s = prev.push(v);
    if s.len() > cap {
        assert(keep_last(s, cap).last() == s.last());
    }
}

/// Making sure a series exists never changes a series that has samples, and doing it
/// twice is the same as doing it once.
pub proof fn lemma_ensure_keeps_samples<N>(series: Map<Seq<char>, Seq<N>>, id: Seq<char>, k: Seq<char>)
    ensures
        ensured(series, id).contains_key(id),
        ensured(ensured(series, id), id) == ensured(series, id),
        series.contains_key(k) ==> ensured(series, id).contains_key(k) && ensured(series, id)[k]
            == series[k],
        !series.contains_key(id) ==> ensured(series, id)[id] == Seq::<N>::empty(),
{
}

/// One named series and its samples.
#[derive(Debug)]
pub struct SeriesBuffer<N> {
    id: String,
    ring: RingBuffer<N>,
}

/// Position of the series named `id`, if present.
pub closed spec fn series_index<N>(entries: Seq<SeriesBuffer<N>>, id: Seq<char>) -> Option<int>
    decreases entries.len(),
{
    if entries.len() == 0 {
        None
    } else if entries.last().id@ == id {
        Some(entries.len() - 1)
    } else {
        series_index(entries.drop_last(), id)
    }
}

/// One history entry per series id.
#[derive(Debug)]
pub struct History<N> {
    cap: usize,
    inner: Vec<SeriesBuffer<N>>,
}

impl<N> History<N> {
    /// Capacity given to new series.
    pub closed spec fn capacity(&self) -> nat {
        self.cap as nat
    }

    /// The samples of every series, by id.
    pub closed spec fn series(&self) -> Map<Seq<char>, Seq<N>> {
        Map::new(
            |k: Seq<char>| series_index(self.inner@, k) is Some,
            |k: Seq<char>| self.inner@[series_index(self.inner@, k)->0].ring@,
        )
    }

    /// Each id appears once and each buffer keeps `max(capacity, 1)` samples.
    spec fn wf(&self) -> bool {
        &&& forall|i: int, j: int|
            0 <= i < j < self.inner@.len() ==> #[trigger] self.inner@[i].id@
                != #[trigger] self.inner@[j].id@
        &&& forall|i: int|
            0 <= i < self.inner@.len() ==> (#[trigger] self.inner@[i]).ring.wf()
                && self.inner@[i].ring.capacity() == ring_capacity(self.cap as nat)
    }

    /// Every history keeps one buffer per id, each of the history's capacity.
    #[verifier::type_invariant]
    spec fn history_inv(self) -> bool {
        self.wf()
    }

    /// Window law: no series holds more than `max(capacity, 1)` samples, the width of
    /// the graph window.
    pub open spec fn within_window(&self) -> bool {
        forall|k: Seq<char>|
            #[trigger] self.series().contains_key(k) ==> self.series()[k].len() <= ring_capacity(
                self.capacity(),
            )
    }

    proof fn lemma_window(&self)
        requires
            self.wf(),
        ensures
            self.within_window(),
    {
        assert forall|k: Seq<char>| #[trigger] self.series().contains_key(k) implies self.series()[k].len()
            <= ring_capacity(self.capacity()) by {
            lemma_series_index_range(self.inner@, k);
            let i = series_index(self.inner@, k)->0;
            assert(self.inner@[i].ring.wf());
        }
    }

    /// Empty history; series created later keep `max(cap, 1)` samples.
    pub fn new(cap: usize) -> (h: Self)
        ensures
            h.within_window(),
            h.capacity() == cap,
            h.series() == Map::<Seq<char>, Seq<N>>::empty(),
    {
        let h = History { cap, inner: Vec::new() };
        assert(h.series() =~= Map::<Seq<char>, Seq<N>>::empty());
        h
    }

    fn find(&self, id: &[char]) -> (r: Option<usize>)
        ensures
            r matches Some(i) ==> series_index(self.inner@, id@) == Some(i as int),
            r is None ==> series_index(self.inner@, id@) is None,
    {
        let mut j: usize = self.inner.len();
        assert(self.inner@.take(j as int) =~= self.inner@);
        while j > 0
            invariant
                j <= self.inner@.len(),
                series_index(self.inner@, id@) == series_index(self.inner@.take(j as int), id@),
            decreases j,
        {
            let ghost pre = self.inner@.take(j as int);
            assert(pre.last() == self.inner@[j - 1]);
            assert(pre.drop_last() =~= self.inner@.take(j - 1));
            let k = chars_of(self.inner[j - 1].id.as_str());
            if chars_eq(k.as_slice(), id) {
                return Some(j - 1);
            }
            j = j - 1;
        }
        None
    }

    /// The samples of series `id`, if it exists.
    pub fn buffer(&self, id: &str) -> (r: Option<&RingBuffer<N>>)
        ensures
            r matches Some(b) ==> self.series().contains_key(id@) && b@ == self.series()[id@]
                && b.capacity() == ring_capacity(self.capacity()) && b@.len() <= b.capacity(),
            r is None ==> !self.series().contains_key(id@),
    {
        proof {
            use_type_invariant(self);
        }
        let idc = chars_of(id);
        match self.find(idc.as_slice()) {
            Some(i) => {
                proof {
                    lemma_series_index_range(self.inner@, id@);
                }
                Some(&self.inner[i].ring)
            },
            None => None,
        }
    }

    /// Append a sample to series `id`, creating the series when it is new.
    pub fn record(&mut self, id: &str, value_c: N)
        ensures
            final(self).within_window(),
            final(self).capacity() == old(self).capacity(),
            final(self).series() == recorded(
                old(self).series(),
                id@,
                value_c,
                ring_capacity(old(self).capacity()),
            ),
    {
        self.ensure_series(id);
        let idc = chars_of(id);
        assert(self.series().dom().contains(id@));
        assert(series_index(self.inner@, id@) is Some);
        let i = match self.find(idc.as_slice()) {
            Some(i) => i,
            None => {
                return;
            },
        };
        let ghost mid = self.inner@;
        let ghost mid_series = self.series();
        proof {
            lemma_series_index_range(self.inner@, id@);
        }
        proof {
            use_type_invariant(&*self);
        }
        let mut inner: Vec<SeriesBuffer<N>> = Vec::new();
        std::mem::swap(&mut inner, &mut self.inner);
        let mut entry = inner.remove(i);
        let ghost old_ring = entry.ring@;
        entry.ring.push(value_c);
        proof {
            use_type_invariant(&entry.ring);
        }
        inner.insert(i, entry);
        proof {
            assert(inner@ =~= mid.update(i as int, entry));
            assert forall|a: int, b: int|
                0 <= a < b < inner@.len() implies #[trigger] inner@[a].id@
                != #[trigger] inner@[b].id@ by {
                assert(mid[a].id@ != mid[b].id@);
            }
            assert forall|a: int| 0 <= a < inner@.len() implies (#[trigger] inner@[a]).ring.wf()
                && inner@[a].ring.capacity() == ring_capacity(self.cap as nat) by {
                if a != i {
                    assert(inner@[a] == mid[a]);
                }
            }
        }
        self.inner = inner;
        proof {
            lemma_series_index_update(mid, i as int, entry);
            let target = old(self).series().insert(
                id@,
                keep_last(
                    if old(self).series().contains_key(id@) {
                        old(self).series()[id@]
                    } else {
                        Seq::<N>::empty()
                    }.push(value_c),
                    ring_capacity(old(self).capacity()),
                ),
            );
            assert(old_ring == mid_series[id@]);
            assert forall|k: Seq<char>| #[trigger]
                self.series().dom().contains(k) == target.dom().contains(k) by {}
            assert forall|k: Seq<char>| #[trigger]
                self.series().dom().contains(k) implies self.series()[k] == target[k] by {
                if k != id@ {
                    lemma_series_index_range(mid, k);
                    assert(mid_series.contains_key(k));
                    let j = series_index(mid, k)->0;
                    assert(mid[j].id@ == k);
                    assert(j != i);
                    assert(self.inner@[j] == mid[j]);
                    assert(self.series()[k] == mid_series[k]);
                    assert(mid_series[k] == old(self).series()[k]);
                } else {
                    assert(series_index(self.inner@, id@) == Some(i as int));
                    assert(self.series()[k] == entry.ring@);
                    assert(mid[i as int].ring.wf());
                    assert(mid[i as int].ring.capacity() == ring_capacity(old(self).capacity()));
                    assert(entry.ring@ == keep_last(old_ring.push(value_c), ring_capacity(old(self).capacity())));
                    assert(mid_series[id@] == (if old(self).series().contains_key(id@) {
                        old(self).series()[id@]
                    } else {
                        Seq::<N>::empty()
                    }));
                }
            }
            assert(self.series() =~= target);
        }
    }

    /// Make sure series `id` exists (empty when new); existing samples are kept.
    pub fn ensure_series(&mut self, id: &str)
        ensures
            final(self).within_window(),
            final(self).capacity() == old(self).capacity(),
            final(self).series() == ensured(old(self).series(), id@),
    {
        let idc = chars_of(id);
        match self.find(idc.as_slice()) {
            Some(_) => {
                assert(self.series() =~= old(self).series());
            },
            None => {
                let ghost before = self.inner@;
                proof {
                    use_type_invariant(&*self);
                }
                let e = SeriesBuffer { id: string_from_chars(idc.as_slice()), ring: RingBuffer::new(self.cap) };
                proof {
                    use_type_invariant(&e.ring);
                }
                let mut inner: Vec<SeriesBuffer<N>> = Vec::new();
                std::mem::swap(&mut inner, &mut self.inner);
                inner.push(e);
                proof {
                    assert(inner@.drop_last() =~= before);
                    assert forall|a: int, b: int|
                        0 <= a < b < inner@.len() implies #[trigger] inner@[a].id@
                        != #[trigger] inner@[b].id@ by {
                        if b == before.len() {
                            lemma_series_index_absent(before, id@, a);
                        }
                    }
                    assert forall|a: int| 0 <= a < inner@.len() implies (#[trigger] inner@[a]).ring.wf()
                        && inner@[a].ring.capacity() == ring_capacity(self.cap as nat) by {
                        if a < before.len() {
                            assert(inner@[a] == before[a]);
                        }
                    }
                }
                self.inner = inner;
                proof {
                    assert(self.inner@.drop_last() =~= before);
                    lemma_series_index_push(before, e);
                    lemma_series_index_range(before, id@);
                    assert forall|k: Seq<char>| #[trigger]
                        self.series().dom().contains(k) == old(self).series().insert(
                            id@,
                            Seq::<N>::empty(),
                        ).dom().contains(k) by {}
                    assert forall|k: Seq<char>| #[trigger]
                        self.series().dom().contains(k) implies self.series()[k] == old(
                        self,
                    ).series().insert(id@, Seq::<N>::empty())[k] by {
                        if k != id@ {
                            lemma_series_index_range(before, k);
                        }
                    }
                    assert(self.series() =~= old(self).series().insert(id@, Seq::<N>::empty()));
                }
            },
        }
        proof {
            use_type_invariant(&*self);
            self.lemma_window();
        }
    }
}

/// Capacity of the buffers created for a history of capacity `cap`.
pub open spec fn ring_capacity(cap: nat) -> nat {
    if cap >= 1 {
        cap
    } else {
        1
    }
}

proof fn lemma_series_index_range<N>(entries: Seq<SeriesBuffer<N>>, id: Seq<char>)
    ensures
        series_index(entries, id) matches Some(i) ==> 0 <= i < entries.len() && entries[i].id@ == id,
    decreases entries.len(),
{
    if entries.len() > 0 && entries.last().id@ != id {
        lemma_series_index_range(entries.drop_last(), id);
    }
}

proof fn lemma_series_index_absent<N>(entries: Seq<SeriesBuffer<N>>, id: Seq<char>, a: int)
    requires
        series_index(entries, id) is None,
        0 <= a < entries.len(),
    ensures
        entries[a].id@ != id,
    decreases entries.len(),
{
    if a < entries.len() - 1 {
        lemma_series_index_absent(entries.drop_last(), id, a);
    }
}

proof fn lemma_series_index_push<N>(entries: Seq<SeriesBuffer<N>>, e: SeriesBuffer<N>)
    ensures
        forall|k: Seq<char>|
            #[trigger] series_index(entries.push(e), k) == if e.id@ == k {
                Some(entries.len() as int)
            } else {
                series_index(entries, k)
            },
{
    assert forall|k: Seq<char>|
        #[trigger] series_index(entries.push(e), k) == if e.id@ == k {
            Some(entries.len() as int)
        } else {
            series_index(entries, k)
        } by {
        assert(entries.push(e).drop_last() =~= entries);
    }
}

proof fn lemma_series_index_update<N>(entries: Seq<SeriesBuffer<N>>, i: int, e: SeriesBuffer<N>)
    requires
        0 <= i < entries.len(),
        entries[i].id@ == e.id@,
    ensures
        forall|k: Seq<char>| #[trigger] series_index(entries.update(i, e), k) == series_index(entries, k),
    decreases entries.len(),
{
    assert forall|k: Seq<char>|
        #[trigger] series_index(entries.update(i, e), k) == series_index(entries, k) by {
        lemma_series_index_update_one(entries, i, e, k);
    }
}

proof fn lemma_series_index_update_one<N>(
    entries: Seq<SeriesBuffer<N>>,
    i: int,
    e: SeriesBuffer<N>,
    k: Seq<char>,
)
    requires
        0 <= i < entries.len(),
        entries[i].id@ == e.id@,
    ensures
        series_index(entries.update(i, e), k) == series_index(entries, k),
    decreases entries.len(),
{
    let u = entries.update(i, e);
    if i < entries.len() - 1 {
        assert(u.drop_last() =~= entries.drop_last().update(i, e));
        lemma_series_index_update_one(entries.drop_last(), i, e, k);
    } else {
        assert(u.drop_last() =~= entries.drop_last());
    }
}

} // verus!

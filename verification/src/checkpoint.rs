use vstd::prelude::*;
use crate::addr::{Epoch, LogicalAddr, SpacetimeAddr};
use crate::gc::GcError;
use crate::text::{decimal, decimal_text};

verus! {

/// Immutable compressed snapshot of a sealed historical epoch slice.
#[derive(Debug)]
pub struct EpochCheckpoint<T> {
    pub id: u64,
    pub tau_lo: i64,
    pub tau_hi: i64,
    /// Packed cells: (logical address, τ, values), ordered by address then τ.
    pub cells: Vec<(u64, i64, Vec<T>)>,
    pub bytes_raw: usize,
    pub bytes_compressed: usize,
}

/// In-memory checkpoint archive, a stand-in for cold storage.
///
/// Checkpoints receive identities 1, 2, … in creation order and are never
/// removed.
#[derive(Debug)]
pub struct CheckpointStore<T> {
    next_id: u64,
    capacity: usize,
    entries: Vec<EpochCheckpoint<T>>,
}

/// A packed cell as plain values.
pub open spec fn cell_view<T>(c: (u64, i64, Vec<T>)) -> (u64, i64, Seq<T>) {
    (c.0, c.1, c.2@)
}

pub open spec fn cells_view<T>(s: Seq<(u64, i64, Vec<T>)>) -> Seq<(u64, i64, Seq<T>)> {
    s.map_values(|c: (u64, i64, Vec<T>)| cell_view(c))
}

/// The cells handed to `compress`, packed as (address, τ, values).
pub open spec fn packed_input<T>(s: Seq<(SpacetimeAddr, Vec<T>)>) -> Seq<(u64, i64, Seq<T>)> {
    s.map_values(|c: (SpacetimeAddr, Vec<T>)| (c.0.address.0, c.0.tau.0, c.1@))
}

/// Uncompressed size: 8 bytes per value plus 16 bytes of coordinates per
/// cell.
pub open spec fn raw_bytes<T>(s: Seq<(u64, i64, Seq<T>)>) -> int
    decreases s.len(),
{
    if s.len() == 0 {
        0
    } else {
        raw_bytes(s.drop_last()) + s.last().2.len() * 8 + 16
    }
}

/// Simulated compressed size: 45% of the raw size, rounded up.
pub open spec fn compressed_size(raw: int) -> int {
    (45 * raw + 99) / 100
}

/// Smallest epoch of the cells, 0 when there are none.
pub open spec fn tau_low<T>(s: Seq<(u64, i64, Seq<T>)>) -> i64
    decreases s.len(),
{
    if s.len() == 0 {
        0
    } else if s.len() == 1 || s.last().1 < tau_low(s.drop_last()) {
        s.last().1
    } else {
        tau_low(s.drop_last())
    }
}

/// Largest epoch of the cells, 0 when there are none.
pub open spec fn tau_high<T>(s: Seq<(u64, i64, Seq<T>)>) -> i64
    decreases s.len(),
{
    if s.len() == 0 {
        0
    } else if s.len() == 1 || s.last().1 > tau_high(s.drop_last()) {
        s.last().1
    } else {
        tau_high(s.drop_last())
    }
}

/// Cells ordered by logical address, then by epoch.
pub open spec fn cells_sorted<T>(s: Seq<(u64, i64, Seq<T>)>) -> bool {
    forall|i: int, j: int|
        0 <= i < j < s.len() ==> (#[trigger] s[i]).0 < (#[trigger] s[j]).0 || (s[i].0 == s[j].0 && s[i].1
            <= s[j].1)
}

impl<T> CheckpointStore<T> {
    /// The checkpoints, in creation order.
    pub closed spec fn entries_view(&self) -> Seq<EpochCheckpoint<T>> {
        self.entries@
    }

    pub closed spec fn capacity_view(&self) -> usize {
        self.capacity
    }

    /// Identities are dense and count up from 1.
    pub closed spec fn wf(&self) -> bool {
        &&& self.next_id == self.entries@.len() + 1
        &&& forall|k: int| 0 <= k < self.entries@.len() ==> (#[trigger] self.entries@[k]).id == k + 1
    }

    /// An empty archive holding at most `capacity` checkpoints.
    pub fn new(capacity: usize) -> (s: Self)
        ensures
            s.wf(),
            s.entries_view().len() == 0,
            s.capacity_view() == capacity,
    {
        CheckpointStore { next_id: 1, capacity, entries: Vec::new() }
    }

    pub fn len(&self) -> (n: usize)
        ensures
            n == self.entries_view().len(),
    {
        self.entries.len()
    }

    pub fn is_empty(&self) -> (b: bool)
        ensures
            b == (self.entries_view().len() == 0),
    {
        self.entries.len() == 0
    }

    /// The checkpoint with identity `id`.
    pub fn get(&self, id: u64) -> (r: Option<&EpochCheckpoint<T>>)
        requires
            self.wf(),
        ensures
            match r {
                Some(c) => 1 <= id <= self.entries_view().len() && *c == self.entries_view()[id - 1],
                None => !(1 <= id <= self.entries_view().len()),
            },
    {
        if id >= 1 && id <= self.entries.len() as u64 {
            Some(&self.entries[(id - 1) as usize])
        } else {
            None
        }
    }
}

/// Total compressed size of the checkpoints.
pub open spec fn compressed_total<T>(s: Seq<EpochCheckpoint<T>>) -> int
    decreases s.len(),
{
    if s.len() == 0 {
        0
    } else {
        compressed_total(s.drop_last()) + s.last().bytes_compressed
    }
}

proof fn lemma_raw_prefix<T>(s: Seq<(u64, i64, Seq<T>)>, k: int)
    requires
        0 <= k <= s.len(),
    ensures
        0 <= raw_bytes(s.take(k)) <= raw_bytes(s),
    decreases s.len() - k,
{
    if k < s.len() {
        lemma_raw_prefix(s, k + 1);
        assert(s.take(k + 1).drop_last() =~= s.take(k));
        lemma_raw_nonneg(s.take(k));
    } else {
        assert(s.take(k) =~= s);
        lemma_raw_nonneg(s);
    }
}

proof fn lemma_raw_nonneg<T>(s: Seq<(u64, i64, Seq<T>)>)
    ensures
        raw_bytes(s) >= 0,
    decreases s.len(),
{
    if s.len() > 0 {
        lemma_raw_nonneg(s.drop_last());
    }
}

proof fn lemma_compressed_split(raw: int)
    requires
        raw >= 0,
    ensures
        (raw / 100) * 45 + ((raw % 100) * 45 + 99) / 100 == compressed_size(raw),
        compressed_size(raw) <= raw,
{
    assert((raw / 100) * 45 + ((raw % 100) * 45 + 99) / 100 == (45 * raw + 99) / 100) by (nonlinear_arith)
        requires
            raw >= 0,
    {
        let q = raw / 100;
        let r = raw % 100;
        assert(raw == 100 * q + r);
        assert(45 * raw + 99 == 100 * (45 * q) + (45 * r + 99));
    }
    assert((45 * raw + 99) / 100 <= raw + 1) by (nonlinear_arith)
        requires
            raw >= 0,
    ;
    if raw == 0 {
        assert((45 * raw + 99) / 100 == 0);
    } else {
        assert((45 * raw + 99) / 100 <= raw) by (nonlinear_arith)
            requires
                raw >= 1,
        ;
    }
}

/// Keeping the elements that satisfy `pred` keeps none from a sequence
/// that has none.
proof fn lemma_filter_none<A>(s: Seq<A>, pred: spec_fn(A) -> bool)
    requires
        forall|q: int| 0 <= q < s.len() ==> !pred(#[trigger] s[q]),
    ensures
        s.filter(pred) == Seq::<A>::empty(),
    decreases s.len(),
{
    reveal(Seq::filter);
    if s.len() > 0 {
        lemma_filter_none(s.drop_last(), pred);
    }
}

/// Inserting `x` at `p` adds it to the kept elements at their end when no
/// element from `p` on is kept, and changes nothing when `x` is not kept.
proof fn lemma_filter_insert<A>(s: Seq<A>, p: int, x: A, pred: spec_fn(A) -> bool)
    requires
        0 <= p <= s.len(),
        pred(x) ==> forall|q: int| p <= q < s.len() ==> !pred(#[trigger] s[q]),
    ensures
        s.insert(p, x).filter(pred) == (if pred(x) {
            s.filter(pred).push(x)
        } else {
            s.filter(pred)
        }),
{
    reveal_with_fuel(Seq::filter, 2);
    let a = s.take(p);
    let b = s.skip(p);
    assert(s =~= a + b);
    assert(s.insert(p, x) =~= a + (seq![x] + b));
    Seq::filter_distributes_over_add(a, b, pred);
    Seq::filter_distributes_over_add(seq![x], b, pred);
    Seq::filter_distributes_over_add(a, seq![x] + b, pred);
    assert(seq![x].drop_last() =~= Seq::<A>::empty());
    if pred(x) {
        assert forall|q: int| 0 <= q < b.len() implies !pred(#[trigger] b[q]) by {
            assert(b[q] == s[p + q]);
        }
        lemma_filter_none(b, pred);
        assert(a.filter(pred) + (seq![x] + Seq::<A>::empty()) =~= (a.filter(pred) + Seq::<A>::empty()).push(x));
    }
}

/// Whether a packed cell sits at address `a` and epoch `t`.
pub open spec fn at_key<T>(a: u64, t: i64) -> spec_fn((u64, i64, Seq<T>)) -> bool {
    |c: (u64, i64, Seq<T>)| c.0 == a && c.1 == t
}

/// `cp` is checkpoint `id` of the packed cells `input`: the cells reordered
/// by address then τ (cells at the same address and τ keep their input
/// order), their epoch range and their raw and compressed sizes.
pub open spec fn checkpoint_of<T>(cp: EpochCheckpoint<T>, id: u64, input: Seq<(u64, i64, Seq<T>)>) -> bool {
    &&& cp.id == id
    &&& cp.tau_lo == tau_low(input)
    &&& cp.tau_hi == tau_high(input)
    &&& cells_view(cp.cells@).to_multiset() == input.to_multiset()
    &&& cells_sorted(cells_view(cp.cells@))
    &&& forall|a: u64, t: i64|
        #[trigger] cells_view(cp.cells@).filter(at_key::<T>(a, t)) == input.filter(at_key::<T>(a, t))
    &&& cp.bytes_raw == raw_bytes(input)
    &&& cp.bytes_compressed == compressed_size(raw_bytes(input))
}

impl<T> CheckpointStore<T> {
    /// Sum of the compressed sizes, saturating at `usize::MAX`.
    pub fn total_compressed_bytes(&self) -> (n: usize)
        ensures
            n == (if compressed_total(self.entries_view()) > usize::MAX {
                usize::MAX as int
            } else {
                compressed_total(self.entries_view())
            }),
    {
        let mut total: usize = 0;
        let mut k: usize = 0;
        let ghost s = self.entries@;
        while k < self.entries.len()
            invariant
                s == self.entries@,
                k <= s.len(),
                total == (if compressed_total(s.take(k as int)) > usize::MAX {
                    usize::MAX as int
                } else {
                    compressed_total(s.take(k as int))
                }),
                compressed_total(s.take(k as int)) >= 0,
            decreases s.len() - k,
        {
            assert(s.take(k + 1).drop_last() =~= s.take(k as int));
            total = total.saturating_add(self.entries[k].bytes_compressed);
            k = k + 1;
        }
        assert(s.take(s.len() as int) =~= s);
        total
    }

    /// The epoch range `[τ_lo, τ_hi]` of each checkpoint, in creation order.
    pub fn epochs_covered(&self) -> (r: Vec<(Epoch, Epoch)>)
        ensures
            r@.len() == self.entries_view().len(),
            forall|k: int|
                0 <= k < r@.len() ==> (#[trigger] r@[k]) == (
                    Epoch(self.entries_view()[k].tau_lo),
                    Epoch(self.entries_view()[k].tau_hi),
                ),
    {
        let mut out: Vec<(Epoch, Epoch)> = Vec::new();
        let mut k: usize = 0;
        while k < self.entries.len()
            invariant
                k <= self.entries@.len(),
                out@.len() == k,
                forall|j: int|
                    0 <= j < k ==> (#[trigger] out@[j]) == (
                        Epoch(self.entries@[j].tau_lo),
                        Epoch(self.entries@[j].tau_hi),
                    ),
            decreases self.entries@.len() - k,
        {
            out.push((Epoch(self.entries[k].tau_lo), Epoch(self.entries[k].tau_hi)));
            k = k + 1;
        }
        out
    }

    /// Compress a set of sealed cells into a new checkpoint and return its
    /// identity.
    ///
    /// The cells are packed as (address, τ, values) and ordered by address,
    /// then τ; a full archive refuses the checkpoint.
    pub fn compress(&mut self, cells: Vec<(SpacetimeAddr, Vec<T>)>) -> (r: Result<u64, GcError>)
        requires
            old(self).wf(),
            raw_bytes(packed_input(cells@)) <= usize::MAX,
            old(self).entries_view().len() + 2 <= u64::MAX,
        ensures
            final(self).wf(),
            final(self).capacity_view() == old(self).capacity_view(),
            old(self).entries_view().len() >= old(self).capacity_view() ==> {
                &&& r matches Err(GcError::CheckpointOverflow(c)) && c == old(self).capacity_view()
                &&& final(self).entries_view() == old(self).entries_view()
            },
            old(self).entries_view().len() < old(self).capacity_view() ==> {
                let id = (old(self).entries_view().len() + 1) as u64;
                &&& r == Ok::<u64, GcError>(id)
                &&& final(self).entries_view().drop_last() == old(self).entries_view()
                &&& final(self).entries_view().len() == old(self).entries_view().len() + 1
                &&& checkpoint_of(final(self).entries_view().last(), id, packed_input(cells@))
            },
    {
        if self.entries.len() >= self.capacity {
            return Err(GcError::CheckpointOverflow(self.capacity));
        }
        let ghost input = packed_input(cells@);
        let mut raw: usize = 0;
        let mut lo: i64 = 0;
        let mut hi: i64 = 0;
        let mut k: usize = 0;
        while k < cells.len()
            invariant
                input == packed_input(cells@),
                raw_bytes(input) <= usize::MAX,
                k <= cells@.len(),
                raw == raw_bytes(input.take(k as int)),
                lo == tau_low(input.take(k as int)),
                hi == tau_high(input.take(k as int)),
            decreases cells@.len() - k,
        {
            proof {
                assert(input.take(k + 1).drop_last() =~= input.take(k as int));
                lemma_raw_prefix(input, k + 1);
            }
            let tau = cells[k].0.tau.0;
            raw = raw + cells[k].1.len() * 8 + 16;
            if k == 0 || tau < lo {
                lo = tau;
            }
            if k == 0 || tau > hi {
                hi = tau;
            }
            k = k + 1;
        }
        assert(input.take(input.len() as int) =~= input);
        let mut packed: Vec<(u64, i64, Vec<T>)> = Vec::new();
        let mut rest = cells;
        let ghost mut done: int = 0;
        assert(cells_view(packed@) =~= input.take(0));
        while rest.len() > 0
            invariant
                0 <= done <= input.len(),
                packed_input(rest@) == input.skip(done),
                cells_view(packed@).to_multiset() == input.take(done).to_multiset(),
                cells_sorted(cells_view(packed@)),
                forall|a: u64, t: i64|
                    #[trigger] cells_view(packed@).filter(at_key::<T>(a, t)) == input.take(done).filter(
                        at_key::<T>(a, t),
                    ),
            decreases rest@.len(),
        {
            let ghost old_rest = rest@;
            let (addr, values) = rest.remove(0);
            let a = addr.address.0;
            let t = addr.tau.0;
            let ghost x = (a, t, values@);
            proof {
                assert(packed_input(old_rest)[0] == x);
                assert(packed_input(old_rest).len() == old_rest.len());
                assert(old_rest.len() > 0);
                assert(input.skip(done).len() > 0);
                assert(done < input.len());
                assert(input.skip(done)[0] == input[done]);
                assert(input[done] == x);
                assert(rest@ =~= old_rest.subrange(1, old_rest.len() as int));
                assert forall|q: int| 0 <= q < rest@.len() implies #[trigger] packed_input(rest@)[q] == input.skip(
                    done + 1,
                )[q] by {
                    assert(rest@[q] == old_rest[q + 1]);
                    assert(packed_input(old_rest)[q + 1] == input.skip(done)[q + 1]);
                }
                assert(packed_input(rest@) =~= input.skip(done + 1));
            }
            let ghost pv = cells_view(packed@);
            let mut p: usize = 0;
            while p < packed.len() && (packed[p].0 < a || (packed[p].0 == a && packed[p].1 <= t))
                invariant
                    pv == cells_view(packed@),
                    p <= packed@.len(),
                    forall|q: int| 0 <= q < p ==> (#[trigger] pv[q]).0 < a || (pv[q].0 == a && pv[q].1 <= t),
                decreases packed@.len() - p,
            {
                p = p + 1;
            }
            packed.insert(p, (a, t, values));
            proof {
                let nv = cells_view(packed@);
                assert(nv =~= pv.insert(p as int, x));
                assert(input.take(done + 1) =~= input.take(done).push(x));
                vstd::seq_lib::to_multiset_insert(pv, p as int, x);
                vstd::seq_lib::to_multiset_build(input.take(done), x);
                assert forall|a2: u64, t2: i64| #[trigger] nv.filter(at_key::<T>(a2, t2)) == input.take(done + 1).filter(
                    at_key::<T>(a2, t2),
                ) by {
                    let pred = at_key::<T>(a2, t2);
                    if pred(x) {
                        assert forall|q: int| p <= q < pv.len() implies !pred(#[trigger] pv[q]) by {
                            assert(!(pv[p as int].0 < a || (pv[p as int].0 == a && pv[p as int].1 <= t)));
                            if q > p {
                                assert(pv[p as int].0 < pv[q].0 || (pv[p as int].0 == pv[q].0 && pv[p as int].1 <= pv[q].1));
                            }
                        }
                    }
                    lemma_filter_insert(pv, p as int, x, pred);
                    input.take(done).lemma_filter_push(x, pred);
                }
                assert forall|i: int, j: int| 0 <= i < j < nv.len() implies (#[trigger] nv[i]).0 < (
                #[trigger] nv[j]).0 || (nv[i].0 == nv[j].0 && nv[i].1 <= nv[j].1) by {
                    if j < p {
                        assert(nv[i] == pv[i] && nv[j] == pv[j]);
                    } else if j == p {
                        assert(nv[i] == pv[i]);
                    } else if i > p {
                        assert(nv[i] == pv[i - 1] && nv[j] == pv[j - 1]);
                    } else if i == p {
                        assert(nv[j] == pv[j - 1]);
                        assert(!(pv[p as int].0 < a || (pv[p as int].0 == a && pv[p as int].1 <= t)));
                        if j - 1 > p {
                            assert(pv[p as int].0 < pv[j - 1].0 || (pv[p as int].0 == pv[j - 1].0 && pv[p as int].1
                                <= pv[j - 1].1));
                        }
                    } else {
                        assert(nv[i] == pv[i] && nv[j] == pv[j - 1]);
                    }
                }
                done = done + 1;
            }
        }
        proof {
            assert(input.skip(done).len() == 0);
            assert(input.take(done) =~= input);
            lemma_compressed_split(raw as int);
        }
        let compressed = (raw / 100) * 45 + ((raw % 100) * 45 + 99) / 100;
        let id = self.next_id;
        self.next_id = self.next_id + 1;
        self.entries.push(
            EpochCheckpoint { id, tau_lo: lo, tau_hi: hi, cells: packed, bytes_raw: raw, bytes_compressed: compressed },
        );
        assert(self.entries@.drop_last() =~= old(self).entries@);
        Ok(id)
    }
}

impl<T: Copy> CheckpointStore<T> {
    /// Expand a checkpoint back into spacetime cells, in packed order.
    pub fn expand(&self, id: u64) -> (r: Result<Vec<(SpacetimeAddr, Vec<T>)>, GcError>)
        requires
            self.wf(),
        ensures
            !(1 <= id <= self.entries_view().len()) ==> (r matches Err(GcError::Dag(m)) && m@
                == "missing checkpoint "@ + decimal(id as nat)),
            1 <= id <= self.entries_view().len() ==> (r matches Ok(v) && {
                let cs = self.entries_view()[id - 1].cells@;
                &&& v@.len() == cs.len()
                &&& forall|k: int|
                    0 <= k < v@.len() ==> (#[trigger] v@[k]).0 == (SpacetimeAddr {
                        address: LogicalAddr(cs[k].0),
                        tau: Epoch(cs[k].1),
                    }) && v@[k].1@ == cs[k].2@
            }),
    {
        let cp = match self.get(id) {
            Some(c) => c,
            None => {
                let mut m = String::from_str("missing checkpoint ");
                let digits = decimal_text(id);
                m.append(digits.as_str());
                return Err(GcError::Dag(m));
            },
        };
        let mut out: Vec<(SpacetimeAddr, Vec<T>)> = Vec::new();
        let mut k: usize = 0;
        while k < cp.cells.len()
            invariant
                k <= cp.cells@.len(),
                out@.len() == k,
                forall|j: int|
                    0 <= j < k ==> (#[trigger] out@[j]).0 == (SpacetimeAddr {
                        address: LogicalAddr(cp.cells@[j].0),
                        tau: Epoch(cp.cells@[j].1),
                    }) && out@[j].1@ == cp.cells@[j].2@,
            decreases cp.cells@.len() - k,
        {
            let src = &cp.cells[k].2;
            let mut values: Vec<T> = Vec::new();
            let mut i: usize = 0;
            while i < src.len()
                invariant
                    i <= src@.len(),
                    values@ == src@.take(i as int),
                decreases src@.len() - i,
            {
                values.push(src[i]);
                assert(values@ =~= src@.take(i + 1));
                i = i + 1;
            }
            assert(src@.take(src@.len() as int) =~= src@);
            let addr = SpacetimeAddr { address: LogicalAddr(cp.cells[k].0), tau: Epoch(cp.cells[k].1) };
            out.push((addr, values));
            k = k + 1;
        }
        Ok(out)
    }
}

/// The cells handed out by `expand`, packed again.
pub open spec fn expanded_cells<T>(v: Seq<(SpacetimeAddr, Vec<T>)>) -> Seq<(u64, i64, Seq<T>)> {
    packed_input(v)
}

/// Expanding a checkpoint gives back the cells it was made of: the same
/// cells, each as often, ordered by address then epoch.
pub proof fn lemma_expand_restores<T>(
    cp: EpochCheckpoint<T>,
    id: u64,
    input: Seq<(u64, i64, Seq<T>)>,
    v: Seq<(SpacetimeAddr, Vec<T>)>,
)
    requires
        checkpoint_of(cp, id, input),
        v.len() == cp.cells@.len(),
        forall|k: int|
            0 <= k < v.len() ==> (#[trigger] v[k]).0 == (SpacetimeAddr {
                address: LogicalAddr(cp.cells@[k].0),
                tau: Epoch(cp.cells@[k].1),
            }) && v[k].1@ == cp.cells@[k].2@,
    ensures
        expanded_cells(v).to_multiset() == input.to_multiset(),
        cells_sorted(expanded_cells(v)),
{
    assert(expanded_cells(v) =~= cells_view(cp.cells@));
}

} // verus!

use vstd::prelude::*;
use core::cmp::Ordering;

verus! {

/// Proper-time / epoch coordinate `τ ∈ ℤ`.
///
/// Negative epochs are permitted: they represent pre-boundary conditions
/// injected into a CTC loop before the chronological horizon.
#[derive(Clone, Copy, Debug, PartialEq, Eq, Structural, Hash, PartialOrd, Ord)]
pub struct Epoch(pub i64);

/// Largest `i64`, the upper end of the epoch axis.
pub open spec fn tau_max() -> int {
    0x7fff_ffff_ffff_ffff
}

/// Smallest `i64`, the lower end of the epoch axis.
pub open spec fn tau_min() -> int {
    -0x8000_0000_0000_0000
}

/// `x + d` clamped to the `i64` range (what `saturating_add` computes).
pub open spec fn saturate(x: int) -> int {
    if x > tau_max() {
        tau_max()
    } else if x < tau_min() {
        tau_min()
    } else {
        x
    }
}

impl Epoch {
    /// The epoch `τ = 0`.
    pub fn origin() -> (e: Epoch)
        ensures
            e.0 == 0,
    {
        Epoch(0)
    }

    /// The next epoch, saturating at the top of the axis.
    pub fn succ(self) -> (e: Epoch)
        ensures
            e.0 == saturate(self.0 + 1),
    {
        if self.0 == i64::MAX {
            Epoch(self.0)
        } else {
            Epoch(self.0 + 1)
        }
    }

    /// The previous epoch, saturating at the bottom of the axis.
    pub fn pred(self) -> (e: Epoch)
        ensures
            e.0 == saturate(self.0 - 1),
    {
        if self.0 == i64::MIN {
            Epoch(self.0)
        } else {
            Epoch(self.0 - 1)
        }
    }

    /// Signed epoch distance `self − other`.
    pub fn delta(self, other: Self) -> (d: i64)
        requires
            tau_min() <= self.0 - other.0 <= tau_max(),
        ensures
            d == self.0 - other.0,
    {
        self.0 - other.0
    }
}

/// Stepping back undoes stepping forward, and stepping forward undoes
/// stepping back, away from the saturated ends of the epoch axis.
pub proof fn lemma_succ_pred_inverse(t: int)
    requires
        tau_min() <= t <= tau_max(),
    ensures
        t < tau_max() ==> saturate(saturate(t + 1) - 1) == t,
        t > tau_min() ==> saturate(saturate(t - 1) + 1) == t,
{
}

/// Logical address `a`: identity of a chronal register, independent of epoch.
#[derive(Clone, Copy, Debug, PartialEq, Eq, Structural, Hash, PartialOrd, Ord)]
pub struct LogicalAddr(pub u64);

/// Spacetime coordinate `(a, τ)`, the sole legal memory key.
///
/// Ordering is lexicographic on `(a, τ)`. This is not a causal order; causal
/// order is carried by the edges of the worldline DAG.
#[derive(Clone, Copy, Debug, PartialEq, Eq, Structural, Hash, Ord)]
pub struct SpacetimeAddr {
    pub address: LogicalAddr,
    pub tau: Epoch,
}

/// Strict lexicographic order on `(a, τ)`.
pub open spec fn addr_lt(x: SpacetimeAddr, y: SpacetimeAddr) -> bool {
    x.address.0 < y.address.0 || (x.address.0 == y.address.0 && x.tau.0 < y.tau.0)
}

/// Non-strict lexicographic order on `(a, τ)`.
pub open spec fn addr_le(x: SpacetimeAddr, y: SpacetimeAddr) -> bool {
    addr_lt(x, y) || x == y
}

/// Three-way lexicographic comparison on `(a, τ)`.
pub open spec fn addr_order(x: SpacetimeAddr, y: SpacetimeAddr) -> Ordering {
    if addr_lt(x, y) {
        Ordering::Less
    } else if x == y {
        Ordering::Equal
    } else {
        Ordering::Greater
    }
}

impl SpacetimeAddr {
    pub fn new(address: u64, tau: i64) -> (s: SpacetimeAddr)
        ensures
            s.address.0 == address,
            s.tau.0 == tau,
    {
        SpacetimeAddr { address: LogicalAddr(address), tau: Epoch(tau) }
    }

    /// Shift the epoch coordinate while preserving logical identity.
    pub fn at_epoch(self, tau: Epoch) -> (s: SpacetimeAddr)
        ensures
            s.address == self.address,
            s.tau == tau,
    {
        SpacetimeAddr { address: self.address, tau }
    }

    /// True when `self` is chronologically before `other` on the same
    /// worldline (same logical address, strictly earlier `τ`).
    pub fn precedes_on_worldline(self, other: Self) -> (b: bool)
        ensures
            b <==> (self.address == other.address && self.tau.0 < other.tau.0),
    {
        self.address.0 == other.address.0 && self.tau.0 < other.tau.0
    }

    /// Lexicographic comparison, as a three-way result.
    pub fn compare(&self, other: &Self) -> (o: Ordering)
        ensures
            o == addr_order(*self, *other),
    {
        if self.address.0 < other.address.0 {
            Ordering::Less
        } else if self.address.0 > other.address.0 {
            Ordering::Greater
        } else if self.tau.0 < other.tau.0 {
            Ordering::Less
        } else if self.tau.0 > other.tau.0 {
            Ordering::Greater
        } else {
            Ordering::Equal
        }
    }
}

impl PartialOrd for SpacetimeAddr {
    fn partial_cmp(&self, other: &Self) -> (r: Option<Ordering>) {
        Some(self.compare(other))
    }
}

impl vstd::std_specs::cmp::PartialOrdSpecImpl for SpacetimeAddr {
    open spec fn obeys_partial_cmp_spec() -> bool {
        true
    }

    open spec fn partial_cmp_spec(&self, other: &Self) -> Option<Ordering> {
        Some(addr_order(*self, *other))
    }
}

/// Lexicographic order on spacetime addresses is a strict total order:
/// irreflexive, transitive, and any two distinct addresses are comparable.
pub proof fn lemma_addr_order_total(x: SpacetimeAddr, y: SpacetimeAddr, z: SpacetimeAddr)
    ensures
        !addr_lt(x, x),
        addr_lt(x, y) && addr_lt(y, z) ==> addr_lt(x, z),
        x != y ==> (addr_lt(x, y) || addr_lt(y, x)),
        !(addr_lt(x, y) && addr_lt(y, x)),
{
}

} // verus!

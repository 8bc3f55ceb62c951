use vstd::prelude::*;
use crate::text::same_text;

verus! {

/// Limits of a continuum federation.
#[derive(Clone, Copy, Debug)]
pub struct ContinuumConfig {
    pub max_regions: usize,
    pub portal_capacity: usize,
    pub federation_ticks: u64,
}

impl Default for ContinuumConfig {
    /// Eight regions, portals of capacity 16, four ticks per run.
    fn default() -> (c: Self)
        ensures
            c.max_regions == 8,
            c.portal_capacity == 16,
            c.federation_ticks == 4,
    {
        ContinuumConfig { max_regions: 8, portal_capacity: 16, federation_ticks: 4 }
    }
}

/// Errors of a continuum federation.
#[derive(Clone, Debug)]
pub enum ContinuumError {
    /// The region is already admitted.
    DuplicateRegion(String),
    /// The region is not admitted.
    UnknownRegion(String),
    /// A wormhole link failed.
    Wormhole(String),
    /// The federation has no admitted region.
    EmptyFederation,
    /// The region budget is exhausted.
    TickBudget(u64),
}

pub open spec fn names_of(v: Seq<String>) -> Seq<Seq<char>> {
    v.map_values(|s: String| s@)
}

/// Whether `name` is among the admitted regions.
pub fn is_admitted(admitted: &Vec<String>, name: &str) -> (b: bool)
    ensures
        b == names_of(admitted@).contains(name@),
{
    let ghost nv = names_of(admitted@);
    let mut i: usize = 0;
    while i < admitted.len()
        invariant
            nv == names_of(admitted@),
            i <= admitted@.len(),
            forall|j: int| 0 <= j < i ==> nv[j] != name@,
        decreases admitted@.len() - i,
    {
        if same_text(admitted[i].as_str(), name) {
            assert(nv[i as int] == name@);
            return true;
        }
        i = i + 1;
    }
    false
}

/// Whether a region may join a federation that has admitted `admitted`:
/// a name is admitted once, and at most `max_regions` regions take part.
pub fn check_admission(admitted: &Vec<String>, name: &str, max_regions: usize) -> (r: Result<(), ContinuumError>)
    ensures
        names_of(admitted@).contains(name@) ==> (r matches Err(ContinuumError::DuplicateRegion(n)) && n@ == name@),
        !names_of(admitted@).contains(name@) && admitted@.len() >= max_regions ==> (r matches Err(
            ContinuumError::TickBudget(b),
        ) && b == max_regions),
        r is Ok <==> !names_of(admitted@).contains(name@) && admitted@.len() < max_regions,
{
    if is_admitted(admitted, name) {
        return Err(ContinuumError::DuplicateRegion(String::from_str(name)));
    }
    if admitted.len() >= max_regions {
        return Err(ContinuumError::TickBudget(max_regions as u64));
    }
    Ok(())
}

/// Whether two regions may be linked: both must be admitted, the first
/// checked first.
pub fn check_link(admitted: &Vec<String>, region_a: &str, region_b: &str) -> (r: Result<(), ContinuumError>)
    ensures
        !names_of(admitted@).contains(region_a@) ==> (r matches Err(ContinuumError::UnknownRegion(n)) && n@
            == region_a@),
        names_of(admitted@).contains(region_a@) && !names_of(admitted@).contains(region_b@) ==> (r matches Err(
            ContinuumError::UnknownRegion(n),
        ) && n@ == region_b@),
        r is Ok <==> names_of(admitted@).contains(region_a@) && names_of(admitted@).contains(region_b@),
{
    if !is_admitted(admitted, region_a) {
        return Err(ContinuumError::UnknownRegion(String::from_str(region_a)));
    }
    if !is_admitted(admitted, region_b) {
        return Err(ContinuumError::UnknownRegion(String::from_str(region_b)));
    }
    Ok(())
}

} // verus!

verus! {

/// Packet counters of an admitted region.
#[derive(Clone, Copy, Debug, PartialEq, Eq, Structural)]
pub struct RegionCounters {
    /// Federation tick the region last took part in.
    pub tick: u64,
    pub packets_sent: u64,
    pub packets_recv: u64,
}

/// Bookkeeping of a continuum federation: the admitted regions in admission
/// order with their packet counters, the portals as pairs of region
/// positions, and the tick counter.
///
/// Portals receive identities 1, 2, … in link order.
#[derive(Clone, Debug)]
pub struct Federation {
    config: ContinuumConfig,
    names: Vec<String>,
    counters: Vec<RegionCounters>,
    portals: Vec<(usize, usize)>,
    next_portal_id: u64,
    tick: u64,
}

/// Whether region `r` is an end of portal `p`.
pub open spec fn is_endpoint(p: (usize, usize), r: int) -> bool {
    p.0 == r || p.1 == r
}

/// Strict order on (portal, region) pairs: by portal, then by region.
pub open spec fn pair_lt(x: (usize, usize), y: (usize, usize)) -> bool {
    x.0 < y.0 || (x.0 == y.0 && x.1 < y.1)
}

/// The counters of a region that took part in tick `t`.
pub open spec fn stamped(c: RegionCounters, t: u64) -> RegionCounters {
    RegionCounters { tick: t, ..c }
}

/// Sum of the packets sent and received over the regions.
pub open spec fn packet_total(c: Seq<RegionCounters>) -> int
    decreases c.len(),
{
    if c.len() == 0 {
        0
    } else {
        packet_total(c.drop_last()) + c.last().packets_sent + c.last().packets_recv
    }
}

impl Federation {
    /// The admitted region names, in admission order.
    pub closed spec fn region_names(&self) -> Seq<Seq<char>> {
        names_of(self.names@)
    }

    /// The regions' counters, in admission order.
    pub closed spec fn counters_view(&self) -> Seq<RegionCounters> {
        self.counters@
    }

    /// The portals, in link order, as positions of their two regions.
    pub closed spec fn portals_view(&self) -> Seq<(usize, usize)> {
        self.portals@
    }

    pub closed spec fn tick_view(&self) -> u64 {
        self.tick
    }

    pub closed spec fn config_view(&self) -> ContinuumConfig {
        self.config
    }

    pub closed spec fn wf(&self) -> bool {
        &&& self.names@.len() == self.counters@.len()
        &&& self.next_portal_id == self.portals@.len() + 1
        &&& forall|p: int|
            0 <= p < self.portals@.len() ==> (#[trigger] self.portals@[p]).0 < self.names@.len()
                && self.portals@[p].1 < self.names@.len()
    }

    /// Whether a region named `name` may join now.
    pub open spec fn admissible(&self, name: Seq<char>) -> bool {
        !self.region_names().contains(name) && self.region_names().len() < self.config_view().max_regions
    }

    /// An empty federation at tick 0.
    pub fn new(config: ContinuumConfig) -> (f: Self)
        ensures
            f.wf(),
            f.config_view() == config,
            f.region_names().len() == 0,
            f.portals_view().len() == 0,
            f.tick_view() == 0,
    {
        Federation { config, names: Vec::new(), counters: Vec::new(), portals: Vec::new(), next_portal_id: 1, tick: 0 }
    }

    /// Number of admitted regions.
    pub fn region_count(&self) -> (n: usize)
        requires
            self.wf(),
        ensures
            n == self.region_names().len(),
    {
        self.names.len()
    }

    /// Number of linked portals.
    pub fn portal_count(&self) -> (n: usize)
        ensures
            n == self.portals_view().len(),
    {
        self.portals.len()
    }

    /// The federation's limits.
    pub fn config(&self) -> (c: ContinuumConfig)
        ensures
            c == self.config_view(),
    {
        self.config
    }

    /// The current tick.
    pub fn tick(&self) -> (t: u64)
        ensures
            t == self.tick_view(),
    {
        self.tick
    }

    /// The admitted region names, in admission order.
    pub fn names(&self) -> (v: &Vec<String>)
        ensures
            names_of(v@) == self.region_names(),
    {
        &self.names
    }

    /// The regions' counters, in admission order.
    pub fn counters(&self) -> (v: &Vec<RegionCounters>)
        ensures
            v@ == self.counters_view(),
    {
        &self.counters
    }

    /// Admit a region: a name joins once, and at most `max_regions` regions
    /// take part. A new region starts with zero counters.
    pub fn join_region(&mut self, name: &str) -> (r: Result<(), ContinuumError>)
        requires
            old(self).wf(),
        ensures
            final(self).wf(),
            final(self).config_view() == old(self).config_view(),
            final(self).portals_view() == old(self).portals_view(),
            final(self).tick_view() == old(self).tick_view(),
            r is Ok <==> old(self).admissible(name@),
            old(self).region_names().contains(name@) ==> (r matches Err(ContinuumError::DuplicateRegion(n))
                && n@ == name@),
            !old(self).region_names().contains(name@) && !old(self).admissible(name@) ==> (r matches Err(
                ContinuumError::TickBudget(b),
            ) && b == old(self).config_view().max_regions),
            r is Ok ==> final(self).region_names() == old(self).region_names().push(name@)
                && final(self).counters_view() == old(self).counters_view().push(
                RegionCounters { tick: 0, packets_sent: 0, packets_recv: 0 },
            ),
            r is Err ==> final(self).region_names() == old(self).region_names() && final(self).counters_view()
                == old(self).counters_view(),
    {
        check_admission(&self.names, name, self.config.max_regions)?;
        self.names.push(String::from_str(name));
        self.counters.push(RegionCounters { tick: 0, packets_sent: 0, packets_recv: 0 });
        proof {
            assert(names_of(self.names@) =~= names_of(old(self).names@).push(name@));
        }
        Ok(())
    }

    /// Position of an admitted region.
    fn position(&self, name: &str) -> (i: usize)
        requires
            self.region_names().contains(name@),
        ensures
            i < self.names@.len(),
            self.region_names()[i as int] == name@,
            forall|j: int| 0 <= j < i ==> self.region_names()[j] != name@,
    {
        let ghost nv = names_of(self.names@);
        let mut i: usize = 0;
        while i < self.names.len()
            invariant
                nv == names_of(self.names@),
                nv.contains(name@),
                i <= self.names@.len(),
                forall|j: int| 0 <= j < i ==> nv[j] != name@,
            decreases self.names@.len() - i,
        {
            if same_text(self.names[i].as_str(), name) {
                return i;
            }
            i = i + 1;
        }
        assert(false);
        0
    }

    /// Link two admitted regions with a portal and return its identity.
    pub fn link(&mut self, region_a: &str, region_b: &str) -> (r: Result<u64, ContinuumError>)
        requires
            old(self).wf(),
            old(self).portals_view().len() + 2 <= u64::MAX,
        ensures
            final(self).wf(),
            final(self).config_view() == old(self).config_view(),
            final(self).region_names() == old(self).region_names(),
            final(self).counters_view() == old(self).counters_view(),
            final(self).tick_view() == old(self).tick_view(),
            !old(self).region_names().contains(region_a@) ==> (r matches Err(ContinuumError::UnknownRegion(n))
                && n@ == region_a@),
            old(self).region_names().contains(region_a@) && !old(self).region_names().contains(region_b@) ==> (r matches Err(
                ContinuumError::UnknownRegion(n),
            ) && n@ == region_b@),
            r is Ok <==> old(self).region_names().contains(region_a@) && old(self).region_names().contains(region_b@),
            r is Err ==> final(self).portals_view() == old(self).portals_view(),
            r matches Ok(id) ==> id == old(self).portals_view().len() + 1 && final(self).portals_view().len()
                == old(self).portals_view().len() + 1 && final(self).portals_view().drop_last()
                == old(self).portals_view() && final(self).region_names()[final(self).portals_view().last().0 as int]
                == region_a@ && final(self).region_names()[final(self).portals_view().last().1 as int] == region_b@,
    {
        check_link(&self.names, region_a, region_b)?;
        let a = self.position(region_a);
        let b = self.position(region_b);
        let id = self.next_portal_id;
        self.next_portal_id = id + 1;
        self.portals.push((a, b));
        proof {
            assert(self.portals@.drop_last() =~= old(self).portals@);
        }
        Ok(id)
    }

    /// Start the next tick. A federation with no region cannot tick.
    pub fn begin_tick(&mut self) -> (r: Result<u64, ContinuumError>)
        requires
            old(self).wf(),
            old(self).tick_view() < u64::MAX,
        ensures
            final(self).wf(),
            final(self).config_view() == old(self).config_view(),
            final(self).region_names() == old(self).region_names(),
            final(self).counters_view() == old(self).counters_view(),
            final(self).portals_view() == old(self).portals_view(),
            r is Err <==> old(self).region_names().len() == 0,
            r is Err ==> r == Err::<u64, ContinuumError>(ContinuumError::EmptyFederation) && final(self).tick_view()
                == old(self).tick_view(),
            r matches Ok(t) ==> t == old(self).tick_view() + 1 && final(self).tick_view() == t,
    {
        if self.names.len() == 0 {
            return Err(ContinuumError::EmptyFederation);
        }
        self.tick = self.tick + 1;
        Ok(self.tick)
    }

    /// Every (portal, region) pair in which the region is an end of the
    /// portal, ordered by portal, then by region: each region sends and
    /// receives through each of its portals once per tick, in this order.
    pub fn endpoint_pairs(&self) -> (v: Vec<(usize, usize)>)
        requires
            self.wf(),
        ensures
            forall|i: int, j: int| 0 <= i < j < v@.len() ==> pair_lt(#[trigger] v@[i], #[trigger] v@[j]),
            forall|i: int|
                0 <= i < v@.len() ==> (#[trigger] v@[i]).0 < self.portals_view().len() && v@[i].1
                    < self.region_names().len() && is_endpoint(self.portals_view()[v@[i].0 as int], v@[i].1 as int),
            forall|p: int, r: int|
                0 <= p < self.portals_view().len() && 0 <= r < self.region_names().len() && is_endpoint(
                    #[trigger] self.portals_view()[p],
                    r,
                ) ==> #[trigger] v@.contains((p as usize, r as usize)),
    {
        let mut v: Vec<(usize, usize)> = Vec::new();
        let n = self.names.len();
        let mut p: usize = 0;
        while p < self.portals.len()
            invariant
                self.wf(),
                n == self.names@.len(),
                p <= self.portals@.len(),
                forall|i: int, j: int| 0 <= i < j < v@.len() ==> pair_lt(#[trigger] v@[i], #[trigger] v@[j]),
                forall|i: int|
                    0 <= i < v@.len() ==> (#[trigger] v@[i]).0 < p && v@[i].1 < n && is_endpoint(
                        self.portals@[v@[i].0 as int],
                        v@[i].1 as int,
                    ),
                forall|q: int, r: int|
                    0 <= q < p && 0 <= r < n && is_endpoint(#[trigger] self.portals@[q], r) ==> #[trigger] v@.contains(
                        (q as usize, r as usize),
                    ),
            decreases self.portals@.len() - p,
        {
            let (a, b) = self.portals[p];
            let mut r: usize = 0;
            let ghost start = v@.len();
            while r < n
                invariant
                    self.wf(),
                    n == self.names@.len(),
                    p < self.portals@.len(),
                    self.portals@[p as int] == (a, b),
                    r <= n,
                    start <= v@.len(),
                    forall|i: int, j: int| 0 <= i < j < v@.len() ==> pair_lt(#[trigger] v@[i], #[trigger] v@[j]),
                    forall|i: int|
                        0 <= i < v@.len() ==> (#[trigger] v@[i]).0 <= p && v@[i].1 < n && is_endpoint(
                            self.portals@[v@[i].0 as int],
                            v@[i].1 as int,
                        ),
                    forall|i: int| start <= i < v@.len() ==> (#[trigger] v@[i]).0 == p && v@[i].1 < r,
                    forall|i: int| 0 <= i < start ==> (#[trigger] v@[i]).0 < p,
                    forall|q: int, s: int|
                        0 <= q < p && 0 <= s < n && is_endpoint(#[trigger] self.portals@[q], s) ==> #[trigger] v@.contains(
                            (q as usize, s as usize),
                        ),
                    forall|s: int|
                        0 <= s < r && is_endpoint(self.portals@[p as int], s) ==> #[trigger] v@.contains(
                            (p, s as usize),
                        ),
                decreases n - r,
            {
                if a == r || b == r {
                    let ghost old_v = v@;
                    v.push((p, r));
                    proof {
                        assert forall|q: int, s: int|
                            0 <= q < p && 0 <= s < n && is_endpoint(#[trigger] self.portals@[q], s) implies #[trigger] v@.contains(
                                (q as usize, s as usize),
                            ) by {
                            assert(old_v.contains((q as usize, s as usize)));
                            let k = choose|k: int| 0 <= k < old_v.len() && old_v[k] == (q as usize, s as usize);
                            assert(v@[k] == old_v[k]);
                        }
                        assert forall|s: int| 0 <= s < r + 1 && is_endpoint(self.portals@[p as int], s) implies #[trigger] v@.contains(
                            (p, s as usize),
                        ) by {
                            if s < r {
                                assert(old_v.contains((p, s as usize)));
                                let k = choose|k: int| 0 <= k < old_v.len() && old_v[k] == (p, s as usize);
                                assert(v@[k] == old_v[k]);
                            } else {
                                assert(v@[old_v.len() as int] == (p, r));
                            }
                        }
                    }
                }
                r = r + 1;
            }
            p = p + 1;
        }
        v
    }

    /// Count a packet that region `r` sent.
    pub fn record_send(&mut self, r: usize)
        requires
            old(self).wf(),
            r < old(self).counters_view().len(),
            old(self).counters_view()[r as int].packets_sent < u64::MAX,
        ensures
            final(self).wf(),
            final(self).config_view() == old(self).config_view(),
            final(self).region_names() == old(self).region_names(),
            final(self).portals_view() == old(self).portals_view(),
            final(self).tick_view() == old(self).tick_view(),
            final(self).counters_view() == old(self).counters_view().update(
                r as int,
                RegionCounters {
                    packets_sent: (old(self).counters_view()[r as int].packets_sent + 1) as u64,
                    ..old(self).counters_view()[r as int]
                },
            ),
    {
        let mut c = self.counters[r];
        c.packets_sent = c.packets_sent + 1;
        self.counters.set(r, c);
    }

    /// Count a packet that region `r` received.
    pub fn record_receive(&mut self, r: usize)
        requires
            old(self).wf(),
            r < old(self).counters_view().len(),
            old(self).counters_view()[r as int].packets_recv < u64::MAX,
        ensures
            final(self).wf(),
            final(self).config_view() == old(self).config_view(),
            final(self).region_names() == old(self).region_names(),
            final(self).portals_view() == old(self).portals_view(),
            final(self).tick_view() == old(self).tick_view(),
            final(self).counters_view() == old(self).counters_view().update(
                r as int,
                RegionCounters {
                    packets_recv: (old(self).counters_view()[r as int].packets_recv + 1) as u64,
                    ..old(self).counters_view()[r as int]
                },
            ),
    {
        let mut c = self.counters[r];
        c.packets_recv = c.packets_recv + 1;
        self.counters.set(r, c);
    }

    /// Close the tick: every region is stamped with the current tick, its
    /// packet counts unchanged.
    pub fn finish_tick(&mut self)
        requires
            old(self).wf(),
        ensures
            final(self).wf(),
            final(self).config_view() == old(self).config_view(),
            final(self).region_names() == old(self).region_names(),
            final(self).portals_view() == old(self).portals_view(),
            final(self).tick_view() == old(self).tick_view(),
            final(self).counters_view().len() == old(self).counters_view().len(),
            forall|i: int|
                0 <= i < final(self).counters_view().len() ==> #[trigger] final(self).counters_view()[i]
                    == stamped(old(self).counters_view()[i], old(self).tick_view()),
    {
        let mut i: usize = 0;
        while i < self.counters.len()
            invariant
                self.names@ == old(self).names@,
                self.portals@ == old(self).portals@,
                self.next_portal_id == old(self).next_portal_id,
                self.config == old(self).config,
                self.tick == old(self).tick,
                self.counters@.len() == old(self).counters@.len(),
                i <= self.counters@.len(),
                forall|j: int| 0 <= j < i ==> #[trigger] self.counters@[j] == stamped(old(self).counters@[j], self.tick),
                forall|j: int| i <= j < self.counters@.len() ==> #[trigger] self.counters@[j] == old(self).counters@[j],
            decreases self.counters@.len() - i,
        {
            let mut c = self.counters[i];
            c.tick = self.tick;
            self.counters.set(i, c);
            i = i + 1;
        }
    }

    /// Total packets sent and received over all regions.
    pub fn total_packets(&self) -> (t: u64)
        requires
            packet_total(self.counters_view()) <= u64::MAX,
        ensures
            t == packet_total(self.counters_view()),
    {
        let mut t: u64 = 0;
        let mut i: usize = 0;
        while i < self.counters.len()
            invariant
                i <= self.counters@.len(),
                packet_total(self.counters@) <= u64::MAX,
                t == packet_total(self.counters@.take(i as int)),
            decreases self.counters@.len() - i,
        {
            proof {
                assert(self.counters@.take(i + 1).drop_last() =~= self.counters@.take(i as int));
                lemma_packet_total_prefix(self.counters@, i + 1);
            }
            let c = self.counters[i];
            t = t + c.packets_sent + c.packets_recv;
            i = i + 1;
        }
        proof {
            assert(self.counters@.take(self.counters@.len() as int) =~= self.counters@);
        }
        t
    }
}

/// A prefix of the regions carries no more packets than all of them.
proof fn lemma_packet_total_prefix(c: Seq<RegionCounters>, k: int)
    requires
        0 <= k <= c.len(),
    ensures
        packet_total(c.take(k)) <= packet_total(c),
    decreases c.len() - k,
{
    if k < c.len() {
        lemma_packet_total_prefix(c, k + 1);
        assert(c.take(k + 1).drop_last() =~= c.take(k));
    } else {
        assert(c.take(k) =~= c);
    }
}

/// A region admitted once is refused a second time: after `name` joined,
/// it is among the regions and no longer admissible.
pub proof fn lemma_admitted_once(before: Federation, after: Federation, name: Seq<char>)
    requires
        after.region_names() == before.region_names().push(name),
    ensures
        after.region_names().contains(name),
        !after.admissible(name),
{
    assert(after.region_names()[before.region_names().len() as int] == name);
}

} // verus!

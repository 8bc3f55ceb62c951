use vstd::prelude::*;

verus! {

/// Identity of a chronal agent within its fleet.
#[derive(Clone, Copy, Debug, PartialEq, Eq, Hash, Structural)]
pub struct AgentId(pub u64);

/// What an agent watches for.
#[derive(Clone, Copy, Debug, PartialEq, Eq, Structural)]
pub enum AgentRole {
    /// Scans for paradox / residual divergence.
    ParadoxWarden,
    /// Audits convergence quality and weight mass.
    ConvergenceAuditor,
    /// Speculatively probes future failure modes.
    FutureScout,
}

/// The kind of scan behind a probe finding.
#[derive(Clone, Copy, Debug, PartialEq, Eq, Structural)]
pub enum ProbeKind {
    ParadoxScan,
    DeadlockScan,
    ConvergenceAudit,
    FutureFailureProbe,
}

/// Errors of agent navigation and fleet management.
#[derive(Clone, Debug)]
pub enum AgentError {
    /// No agent with this identity is registered in the fleet.
    UnknownAgent(u64),
    /// The omniversal ledger refused a navigation step.
    Ledger(String),
    /// Injecting a correction through the signal daemon failed.
    Signal(String),
    /// The target universe is not navigable.
    UnnavigableUniverse(u64),
    /// The agent has been decommissioned.
    Decommissioned(u64),
}

/// The bookkeeping part of an agent: who it is, what it does, where it lives,
/// whether it still runs, and the seed of its exploration jitter.
#[derive(Clone, Copy, Debug, PartialEq, Eq, Structural)]
pub struct AgentEntry {
    pub id: AgentId,
    pub role: AgentRole,
    pub home: u64,
    pub active: bool,
    pub seed: u64,
}

/// Golden-ratio multiplier that spreads agent seeds over the 64-bit range.
pub const SEED_MULTIPLIER: u64 = 2654435761;

/// Exploration seed of the agent with identity `n`: `n · 2654435761`, wrapped
/// to 64 bits.
pub open spec fn seed_for(n: u64) -> u64 {
    ((n as nat * SEED_MULTIPLIER as nat) % 0x1_0000_0000_0000_0000nat) as u64
}

/// A freshly spawned agent.
pub open spec fn spawned(id: u64, role: AgentRole, home: u64) -> AgentEntry {
    AgentEntry { id: AgentId(id), role, home, active: true, seed: seed_for(id) }
}

/// The role of the `j`-th member of a triad: warden, auditor, scout.
pub open spec fn triad_role(j: int) -> AgentRole {
    if j == 0 {
        AgentRole::ParadoxWarden
    } else if j == 1 {
        AgentRole::ConvergenceAuditor
    } else {
        AgentRole::FutureScout
    }
}

/// The agents a triad deployment adds after `base` agents: three per home,
/// in the order of the homes, each triad in role order.
pub open spec fn triad_entries(base: int, homes: Seq<u64>) -> Seq<AgentEntry> {
    Seq::new(3 * homes.len(), |k: int| spawned((base + k + 1) as u64, triad_role(k % 3), homes[k / 3]))
}

/// The registry of a fleet's agents.
///
/// Agents receive identities 1, 2, … in spawn order and stay registered after
/// they are decommissioned.
#[derive(Clone, Debug)]
pub struct AgentRoster {
    next_id: u64,
    entries: Vec<AgentEntry>,
}

impl AgentRoster {
    /// The registered agents, in spawn order.
    pub closed spec fn entries_view(&self) -> Seq<AgentEntry> {
        self.entries@
    }

    /// Identities are dense and count up from 1.
    pub closed spec fn wf(&self) -> bool {
        &&& self.next_id == self.entries@.len() + 1
        &&& forall|k: int| 0 <= k < self.entries@.len() ==> (#[trigger] self.entries@[k]).id == AgentId((k + 1) as u64)
    }

    /// Whether an agent with identity `id` is registered.
    pub open spec fn registered(&self, id: u64) -> bool {
        exists|k: int| 0 <= k < self.entries_view().len() && (#[trigger] self.entries_view()[k]).id.0 == id
    }

    /// An empty roster.
    pub fn new() -> (r: Self)
        ensures
            r.wf(),
            r.entries_view().len() == 0,
    {
        AgentRoster { next_id: 1, entries: Vec::new() }
    }

    /// Number of registered agents, decommissioned ones included.
    pub fn len(&self) -> (n: usize)
        ensures
            n == self.entries_view().len(),
    {
        self.entries.len()
    }

    /// Whether no agent was ever spawned.
    pub fn is_empty(&self) -> (b: bool)
        ensures
            b == (self.entries_view().len() == 0),
    {
        self.entries.len() == 0
    }

    /// Register a new active agent with the next identity.
    pub fn spawn(&mut self, role: AgentRole, home: u64) -> (id: AgentId)
        requires
            old(self).wf(),
            old(self).entries_view().len() + 2 <= u64::MAX,
        ensures
            final(self).wf(),
            id.0 == old(self).entries_view().len() + 1,
            final(self).entries_view() == old(self).entries_view().push(spawned(id.0, role, home)),
    {
        let n = self.next_id;
        let id = AgentId(n);
        let seed = n.wrapping_mul(SEED_MULTIPLIER);
        self.next_id = n + 1;
        self.entries.push(AgentEntry { id, role, home, active: true, seed });
        id
    }

    /// Deploy a warden, an auditor and a scout onto each home, in order.
    pub fn deploy_triad(&mut self, homes: &[u64]) -> (ids: Vec<AgentId>)
        requires
            old(self).wf(),
            old(self).entries_view().len() + 3 * homes@.len() + 2 <= u64::MAX,
        ensures
            final(self).wf(),
            final(self).entries_view() == old(self).entries_view() + triad_entries(
                old(self).entries_view().len() as int,
                homes@,
            ),
            ids@.len() == 3 * homes@.len(),
            forall|k: int| 0 <= k < ids@.len() ==> (#[trigger] ids@[k]).0 == old(self).entries_view().len() + k + 1,
    {
        let ghost base = self.entries@.len() as int;
        let mut ids: Vec<AgentId> = Vec::new();
        let mut i: usize = 0;
        while i < homes.len()
            invariant
                self.wf(),
                i <= homes@.len(),
                base == old(self).entries_view().len(),
                base + 3 * homes@.len() + 2 <= u64::MAX,
                self.entries@ == old(self).entries_view() + triad_entries(base, homes@.take(i as int)),
                ids@.len() == 3 * i,
                forall|k: int| 0 <= k < ids@.len() ==> (#[trigger] ids@[k]).0 == base + k + 1,
            decreases homes@.len() - i,
        {
            let home = homes[i];
            let ghost before = self.entries@;
            let a = self.spawn(AgentRole::ParadoxWarden, home);
            let b = self.spawn(AgentRole::ConvergenceAuditor, home);
            let c = self.spawn(AgentRole::FutureScout, home);
            ids.push(a);
            ids.push(b);
            ids.push(c);
            proof {
                let t0 = triad_entries(base, homes@.take(i as int));
                let t1 = triad_entries(base, homes@.take(i + 1));
                assert(t1.len() == t0.len() + 3);
                assert forall|k: int| 0 <= k < t0.len() implies t1[k] == t0[k] by {
                    assert(homes@.take(i + 1)[k / 3] == homes@.take(i as int)[k / 3]);
                }
                assert(t1[3 * i] == spawned((base + 3 * i + 1) as u64, AgentRole::ParadoxWarden, home));
                assert(t1[3 * i + 1] == spawned((base + 3 * i + 2) as u64, AgentRole::ConvergenceAuditor, home));
                assert(t1[3 * i + 2] == spawned((base + 3 * i + 3) as u64, AgentRole::FutureScout, home));
                assert(self.entries@ =~= old(self).entries_view() + t1);
            }
            i = i + 1;
        }
        proof {
            assert(homes@.take(homes@.len() as int) =~= homes@);
        }
        ids
    }

    /// Stop an agent. Stopping an agent that already stopped is no error.
    pub fn decommission(&mut self, id: AgentId) -> (r: Result<(), AgentError>)
        requires
            old(self).wf(),
        ensures
            final(self).wf(),
            r is Ok <==> old(self).registered(id.0),
            r matches Err(e) ==> e == AgentError::UnknownAgent(id.0) && final(self).entries_view() == old(
                self,
            ).entries_view(),
            r is Ok ==> final(self).entries_view() == old(self).entries_view().update(
                id.0 - 1,
                AgentEntry { active: false, ..old(self).entries_view()[id.0 - 1] },
            ),
    {
        if id.0 == 0 || id.0 >= self.next_id {
            proof {
                assert forall|k: int| 0 <= k < self.entries@.len() implies (#[trigger] self.entries@[k]).id.0
                    != id.0 by {}
            }
            return Err(AgentError::UnknownAgent(id.0));
        }
        let len = self.entries.len();
        assert(id.0 - 1 < len);
        let k = (id.0 - 1) as usize;
        assert(k as int == id.0 - 1);
        assert(self.entries@[k as int].id == AgentId((k + 1) as u64));
        assert(self.entries@[k as int].id.0 == id.0);
        let mut e = self.entries[k];
        e.active = false;
        self.entries.set(k, e);
        proof {
            assert(old(self).entries_view()[k as int].id.0 == id.0);
        }
        Ok(())
    }

    /// The agents that still run, in spawn order.
    pub fn active_agents(&self) -> (v: Vec<AgentEntry>)
        ensures
            v@ == self.entries_view().filter(|e: AgentEntry| e.active),
    {
        let mut v: Vec<AgentEntry> = Vec::new();
        let mut i: usize = 0;
        while i < self.entries.len()
            invariant
                i <= self.entries@.len(),
                v@ == self.entries@.take(i as int).filter(|e: AgentEntry| e.active),
            decreases self.entries@.len() - i,
        {
            let e = self.entries[i];
            proof {
                reveal(Seq::filter);
                assert(self.entries@.take(i + 1).drop_last() =~= self.entries@.take(i as int));
                assert(self.entries@.take(i + 1).last() == e);
            }
            if e.active {
                v.push(e);
            }
            i = i + 1;
        }
        proof {
            assert(self.entries@.take(self.entries@.len() as int) =~= self.entries@);
        }
        v
    }
}

/// Whether an agent may explore a universe. A decommissioned agent goes
/// nowhere; otherwise the target must be known to the ledger and be live
/// (active or condemned). `target_live` is `None` for a universe the ledger
/// does not know, and otherwise whether it is live.
pub fn check_navigation(agent_active: bool, agent: u64, target: u64, target_live: Option<bool>) -> (r: Result<
    (),
    AgentError,
>)
    ensures
        !agent_active ==> r == Err::<(), AgentError>(AgentError::Decommissioned(agent)),
        agent_active && target_live != Some(true) ==> r == Err::<(), AgentError>(
            AgentError::UnnavigableUniverse(target),
        ),
        r is Ok <==> agent_active && target_live == Some(true),
{
    if !agent_active {
        return Err(AgentError::Decommissioned(agent));
    }
    match target_live {
        Some(true) => Ok(()),
        _ => Err(AgentError::UnnavigableUniverse(target)),
    }
}

/// Every spawned agent receives an identity that no registered agent holds.
pub proof fn lemma_spawn_fresh(r: AgentRoster, id: u64)
    requires
        r.wf(),
        id == r.entries_view().len() + 1,
    ensures
        !r.registered(id),
{
}

/// A decommissioned agent is no longer among the active agents, and
/// decommissioning it again changes nothing.
pub proof fn lemma_decommission_retires(before: AgentRoster, after: AgentRoster, id: u64)
    requires
        before.wf(),
        before.registered(id),
        after.entries_view() == before.entries_view().update(
            id - 1,
            AgentEntry { active: false, ..before.entries_view()[id - 1] },
        ),
    ensures
        forall|k: int| 0 <= k < after.entries_view().len() && (#[trigger] after.entries_view()[k]).id.0 == id ==> !after.entries_view()[k].active,
        after.entries_view().update(id - 1, AgentEntry { active: false, ..after.entries_view()[id - 1] })
            == after.entries_view(),
{
    let k0 = choose|k: int| 0 <= k < before.entries_view().len() && (#[trigger] before.entries_view()[k]).id.0 == id;
    assert(k0 == id - 1);
    assert forall|k: int| 0 <= k < after.entries_view().len() && (#[trigger] after.entries_view()[k]).id.0 == id implies !after.entries_view()[k].active by {
        if k != id - 1 {
            assert(after.entries_view()[k] == before.entries_view()[k]);
        }
    }
    assert(after.entries_view().update(id - 1, AgentEntry { active: false, ..after.entries_view()[id - 1] })
        =~= after.entries_view());
}

} // verus!

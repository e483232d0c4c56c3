use vstd::prelude::*;

use crate::creeps::Creeps;
use crate::game_helpers::{expand_parts, gen_parts, Creep, Part};
use crate::host::{commands_view, energy_of, find_energy, Command, CommandView, ContainerInfo, CreepInfo, SpawnInfo, World};
use crate::plan::Plan;
use crate::predicate::{all_status, all_status_is, any_status, any_status_is, value, Predicates};

verus! {

/// How a `ModifyStatus` node transforms the status of its first child.
#[derive(Clone, Copy, Debug, PartialEq, Eq, Structural)]
pub enum StatusMap {
    /// Success becomes failure and failure success; in progress stays.
    Invert,
    /// Always in progress.
    ForceNone,
    /// Always success.
    ForceSuccess,
    /// Always failure.
    ForceFailure,
}

/// How a `MultiBehaviour` node aggregates the statuses of its children.
#[derive(Clone, Copy, Debug, PartialEq, Eq, Structural)]
pub enum Aggregate {
    /// Success once every child succeeded; failure once any failed.
    All,
    /// Success once any child succeeded; failure once every child failed.
    Any,
}

/// Runs its children pass after pass within one tick, at most `max_passes`
/// times, and stops before a pass once `until` holds over their statuses.
pub struct RepeatBehaviour {
    pub until: Predicates,
    pub max_passes: u32,
}

/// The root strategy: finds the spawns, creates the harvest and attack
/// plans, and requests an attacker every tick.
pub struct RootBehaviour {
    pub my_spawn: Option<u64>,
    pub op_spawn: Option<u64>,
    pub my_creeps: Vec<Creep>,
    pub op_creeps: Vec<Creep>,
    pub attack_parts: Vec<Part>,
}

/// Carries energy from containers to the own spawn.
pub struct HarvestBehaviour {
    pub my_spawn: Option<u64>,
    pub creeps: Creeps,
}

/// Sends attackers at the opponent's spawn.
pub struct AttackBehaviour {
    pub op_spawn: Option<u64>,
    pub creeps: Creeps,
}

/// A behaviour that keeps a registry of the creeps it commands.
pub trait HasCreeps: Sized {
    /// The registry it keeps.
    spec fn registry(&self) -> Creeps;

    /// The same behaviour with the registry `c` in place of its own.
    spec fn with_registry(&self, c: Creeps) -> Self;

    fn creeps(&self) -> (r: &Creeps)
        ensures
            *r == self.registry(),
    ;

    fn creeps_mut(&mut self) -> (r: &mut Creeps)
        ensures
            *r == old(self).registry(),
            final(self).registry() == *final(r),
            *final(self) == old(self).with_registry(*final(r)),
    ;
}

impl HasCreeps for HarvestBehaviour {
    open spec fn registry(&self) -> Creeps {
        self.creeps
    }

    open spec fn with_registry(&self, c: Creeps) -> HarvestBehaviour {
        HarvestBehaviour { my_spawn: self.my_spawn, creeps: c }
    }

    fn creeps(&self) -> (r: &Creeps) {
        &self.creeps
    }

    fn creeps_mut(&mut self) -> (r: &mut Creeps) {
        &mut self.creeps
    }
}

impl HasCreeps for AttackBehaviour {
    open spec fn registry(&self) -> Creeps {
        self.creeps
    }

    open spec fn with_registry(&self, c: Creeps) -> AttackBehaviour {
        AttackBehaviour { op_spawn: self.op_spawn, creeps: c }
    }

    fn creeps(&self) -> (r: &Creeps) {
        &self.creeps
    }

    fn creeps_mut(&mut self) -> (r: &mut Creeps) {
        &mut self.creeps
    }
}

/// The closed set of behaviours a plan can hold.
pub enum Behaviours {
    /// Succeeds when every child has succeeded, fails otherwise.
    AllSuccessStatus,
    /// Succeeds when some child has succeeded, fails otherwise.
    AnySuccessStatus,
    /// Reports the value of a predicate over the children's statuses.
    EvaluateStatus(Predicates),
    /// Reports the status of its first child, transformed.
    ModifyStatus(StatusMap),
    /// Runs every due child each tick and aggregates their statuses.
    MultiBehaviour(Aggregate),
    /// Runs whole passes over its children until a predicate holds.
    RepeatBehaviour(RepeatBehaviour),
    /// Runs children in order while they succeed.
    SequenceBehaviour,
    /// Runs children in order while they fail.
    FallbackBehaviour,
    /// Runs only the due child of highest utility.
    MaxUtilBehaviour,
    RootBehaviour(RootBehaviour),
    HarvestBehaviour(HarvestBehaviour),
    AttackBehaviour(AttackBehaviour),
}

/// The status of a sequence over its children's statuses: that of the first
/// child that has not succeeded, or success when all have.
pub open spec fn sequence_status(st: Seq<Option<bool>>) -> Option<bool>
    decreases st.len(),
{
    if st.len() == 0 {
        Some(true)
    } else if st[0] == Some(true) {
        sequence_status(st.drop_first())
    } else {
        st[0]
    }
}

/// The status of a fallback over its children's statuses: that of the first
/// child that has not failed, or failure when all have.
pub open spec fn fallback_status(st: Seq<Option<bool>>) -> Option<bool>
    decreases st.len(),
{
    if st.len() == 0 {
        Some(false)
    } else if st[0] == Some(false) {
        fallback_status(st.drop_first())
    } else {
        st[0]
    }
}

/// The number of children a sequence runs in one pass when each child
/// reports the status in `st` after it ran: up to and including the first
/// that did not succeed.
pub open spec fn sequence_runs(st: Seq<Option<bool>>) -> nat
    decreases st.len(),
{
    if st.len() == 0 {
        0
    } else if st[0] == Some(true) {
        1 + sequence_runs(st.drop_first())
    } else {
        1
    }
}

/// The number of children a fallback runs in one pass: up to and including
/// the first that did not fail.
pub open spec fn fallback_runs(st: Seq<Option<bool>>) -> nat
    decreases st.len(),
{
    if st.len() == 0 {
        0
    } else if st[0] == Some(false) {
        1 + fallback_runs(st.drop_first())
    } else {
        1
    }
}

/// A status after the mapping of a `ModifyStatus` node.
pub open spec fn modified(map: StatusMap, s: Option<bool>) -> Option<bool> {
    match map {
        StatusMap::Invert => match s {
            Some(b) => Some(!b),
            None => None,
        },
        StatusMap::ForceNone => None,
        StatusMap::ForceSuccess => Some(true),
        StatusMap::ForceFailure => Some(false),
    }
}

/// The status of a `MultiBehaviour` node under its aggregation policy.
pub open spec fn multi_status(agg: Aggregate, st: Seq<Option<bool>>) -> Option<bool> {
    match agg {
        Aggregate::All => if any_status(st, false) {
            Some(false)
        } else if all_status(st, true) {
            Some(true)
        } else {
            None
        },
        Aggregate::Any => if any_status(st, true) {
            Some(true)
        } else if all_status(st, false) {
            Some(false)
        } else {
            None
        },
    }
}

/// The status a node with behaviour `b` reports, given its children's
/// statuses in order. Strategy leaves stay in progress; a max-utility node
/// reports the status of its first child.
pub open spec fn behaviour_status(b: &Behaviours, st: Seq<Option<bool>>) -> Option<bool> {
    match b {
        Behaviours::AllSuccessStatus => Some(all_status(st, true)),
        Behaviours::AnySuccessStatus => Some(any_status(st, true)),
        Behaviours::EvaluateStatus(p) => Some(value(*p, st)),
        Behaviours::ModifyStatus(m) => modified(*m, if st.len() > 0 { st[0] } else { None }),
        Behaviours::MultiBehaviour(agg) => multi_status(*agg, st),
        Behaviours::RepeatBehaviour(r) => if value(r.until, st) { Some(true) } else { None },
        Behaviours::SequenceBehaviour => sequence_status(st),
        Behaviours::FallbackBehaviour => fallback_status(st),
        Behaviours::MaxUtilBehaviour => if st.len() > 0 { st[0] } else { None },
        _ => None,
    }
}

/// Whether a node with behaviour `b` goes on to its next child after one
/// that reported `s`: a sequence only past a success, a fallback only past
/// a failure, the others always.
pub open spec fn goes_on(b: &Behaviours, s: Option<bool>) -> bool {
    match b {
        Behaviours::SequenceBehaviour => s == Some(true),
        Behaviours::FallbackBehaviour => s == Some(false),
        _ => true,
    }
}

/// Runs the sequence rule over the statuses its children report after
/// running: gives how many children ran and the overall status.
pub fn sequence_pass(statuses: &Vec<Option<bool>>) -> (r: (usize, Option<bool>))
    ensures
        r.0 == sequence_runs(statuses@),
        r.1 == sequence_status(statuses@),
{
    let mut i: usize = 0;
    assert(statuses@.subrange(0, statuses@.len() as int) =~= statuses@);
    while i < statuses.len()
        invariant
            i <= statuses@.len(),
            forall|j: int| 0 <= j < i ==> statuses@[j] == Some(true),
            sequence_runs(statuses@) == i + sequence_runs(statuses@.subrange(i as int, statuses@.len() as int)),
            sequence_status(statuses@) == sequence_status(statuses@.subrange(i as int, statuses@.len() as int)),
        decreases statuses@.len() - i,
    {
        let ghost rest = statuses@.subrange(i as int, statuses@.len() as int);
        assert(rest[0] == statuses@[i as int]);
        assert(rest.drop_first() =~= statuses@.subrange(i + 1, statuses@.len() as int));
        if statuses[i] != Some(true) {
            return (i + 1, statuses[i]);
        }
        i = i + 1;
    }
    assert(statuses@.subrange(i as int, statuses@.len() as int).len() == 0);
    (i, Some(true))
}

/// Runs the fallback rule over the statuses its children report after
/// running: gives how many children ran and the overall status.
pub fn fallback_pass(statuses: &Vec<Option<bool>>) -> (r: (usize, Option<bool>))
    ensures
        r.0 == fallback_runs(statuses@),
        r.1 == fallback_status(statuses@),
{
    let mut i: usize = 0;
    assert(statuses@.subrange(0, statuses@.len() as int) =~= statuses@);
    while i < statuses.len()
        invariant
            i <= statuses@.len(),
            forall|j: int| 0 <= j < i ==> statuses@[j] == Some(false),
            fallback_runs(statuses@) == i + fallback_runs(statuses@.subrange(i as int, statuses@.len() as int)),
            fallback_status(statuses@) == fallback_status(statuses@.subrange(i as int, statuses@.len() as int)),
        decreases statuses@.len() - i,
    {
        let ghost rest = statuses@.subrange(i as int, statuses@.len() as int);
        assert(rest[0] == statuses@[i as int]);
        assert(rest.drop_first() =~= statuses@.subrange(i + 1, statuses@.len() as int));
        if statuses[i] != Some(false) {
            return (i + 1, statuses[i]);
        }
        i = i + 1;
    }
    assert(statuses@.subrange(i as int, statuses@.len() as int).len() == 0);
    (i, Some(false))
}

fn seq_status_of(st: &Vec<Option<bool>>) -> (r: Option<bool>)
    ensures
        r == sequence_status(st@),
{
    sequence_pass(st).1
}

fn fallback_status_of(st: &Vec<Option<bool>>) -> (r: Option<bool>)
    ensures
        r == fallback_status(st@),
{
    fallback_pass(st).1
}

impl Behaviours {
    /// The status this behaviour reports given its children's statuses;
    /// nothing is run.
    pub fn status(&self, statuses: &Vec<Option<bool>>) -> (r: Option<bool>)
        ensures
            r == behaviour_status(self, statuses@),
    {
        match self {
            Behaviours::AllSuccessStatus => Some(all_status_is(statuses, true)),
            Behaviours::AnySuccessStatus => Some(any_status_is(statuses, true)),
            Behaviours::EvaluateStatus(p) => Some(p.evaluate(statuses)),
            Behaviours::ModifyStatus(m) => {
                let first = if statuses.len() > 0 { statuses[0] } else { None };
                match m {
                    StatusMap::Invert => match first {
                        Some(b) => Some(!b),
                        None => None,
                    },
                    StatusMap::ForceNone => None,
                    StatusMap::ForceSuccess => Some(true),
                    StatusMap::ForceFailure => Some(false),
                }
            },
            Behaviours::MultiBehaviour(agg) => match agg {
                Aggregate::All => if any_status_is(statuses, false) {
                    Some(false)
                } else if all_status_is(statuses, true) {
                    Some(true)
                } else {
                    None
                },
                Aggregate::Any => if any_status_is(statuses, true) {
                    Some(true)
                } else if all_status_is(statuses, false) {
                    Some(false)
                } else {
                    None
                },
            },
            Behaviours::RepeatBehaviour(r) => if r.until.evaluate(statuses) {
                Some(true)
            } else {
                None
            },
            Behaviours::SequenceBehaviour => seq_status_of(statuses),
            Behaviours::FallbackBehaviour => fallback_status_of(statuses),
            Behaviours::MaxUtilBehaviour => if statuses.len() > 0 { statuses[0] } else { None },
            _ => None,
        }
    }

    /// Whether to go on to the next child after one that reported `s`.
    pub fn goes_on(&self, s: Option<bool>) -> (r: bool)
        ensures
            r == goes_on(self, s),
    {
        match self {
            Behaviours::SequenceBehaviour => s == Some(true),
            Behaviours::FallbackBehaviour => s == Some(false),
            _ => true,
        }
    }
}

/// The name of the child plan that gathers energy.
pub open spec fn harvest_route() -> Seq<char> {
    seq!['h', 'a', 'r', 'v', 'e', 's', 't']
}

/// The name of the child plan that attacks.
pub open spec fn attack_route() -> Seq<char> {
    seq!['a', 't', 't', 'a', 'c', 'k']
}

/// The body of a harvester.
pub open spec fn harvester_body() -> Seq<Part> {
    expand_parts(seq![(Part::Carry, 5usize), (Part::Move, 2usize)])
}

/// The body of an attacker.
pub open spec fn attacker_body() -> Seq<Part> {
    expand_parts(seq![(Part::Move, 5usize), (Part::Attack, 5usize)])
}

/// The handle of the last spawn in `s` whose ownership is `mine` (a spawn
/// of unknown ownership counts as the opponent's).
pub open spec fn last_spawn(s: Seq<SpawnInfo>, mine: bool) -> Option<u64>
    decreases s.len(),
{
    if s.len() == 0 {
        None
    } else if (s.last().my == Some(true)) == mine {
        Some(s.last().handle)
    } else {
        last_spawn(s.drop_last(), mine)
    }
}

/// The creeps of `s` whose ownership is `mine`, in order.
pub open spec fn creeps_owned(s: Seq<CreepInfo>, mine: bool) -> Seq<Creep>
    decreases s.len(),
{
    if s.len() == 0 {
        Seq::empty()
    } else if s.last().my == mine {
        creeps_owned(s.drop_last(), mine).push(s.last().creep)
    } else {
        creeps_owned(s.drop_last(), mine)
    }
}

/// The handles of the containers holding more than 20 energy, in order.
pub open spec fn stocked(s: Seq<ContainerInfo>) -> Seq<u64>
    decreases s.len(),
{
    if s.len() == 0 {
        Seq::empty()
    } else if match s.last().energy { Some(e) => e > 20, None => false } {
        stocked(s.drop_last()).push(s.last().handle)
    } else {
        stocked(s.drop_last())
    }
}

/// The orders for one harvester: an empty one withdraws from the stocked
/// containers (if any), a loaded one delivers to the spawn, one whose load
/// is unknown waits. Without a known own spawn no harvester is given work
/// this tick.
pub open spec fn harvest_order(
    c: Creep,
    reports: Seq<CreepInfo>,
    full: Seq<u64>,
    spawn: Option<u64>,
) -> Seq<CommandView> {
    match (energy_of(reports, c.handle), spawn) {
        (Some(e), Some(t)) => if e == 0 {
            if full.len() > 0 {
                seq![CommandView::Withdraw { creep: c, containers: full }]
            } else {
                Seq::empty()
            }
        } else {
            seq![CommandView::Transfer { creep: c, target: t }]
        },
        _ => Seq::empty(),
    }
}

/// The orders for all harvesters, in order.
pub open spec fn harvest_orders(
    cs: Seq<Creep>,
    reports: Seq<CreepInfo>,
    full: Seq<u64>,
    spawn: Option<u64>,
) -> Seq<CommandView>
    decreases cs.len(),
{
    if cs.len() == 0 {
        Seq::empty()
    } else {
        harvest_orders(cs.drop_last(), reports, full, spawn) + harvest_order(cs.last(), reports, full, spawn)
    }
}

/// The orders for all attackers: each attacks the target, if it is known.
pub open spec fn attack_orders(cs: Seq<Creep>, target: Option<u64>) -> Seq<CommandView>
    decreases cs.len(),
{
    if cs.len() == 0 {
        Seq::empty()
    } else {
        match target {
            Some(t) => attack_orders(cs.drop_last(), target).push(
                CommandView::Attack { creep: cs.last(), target: t },
            ),
            None => Seq::empty(),
        }
    }
}

/// The spawn order of a creep with `parts` at `spawn`, for the child `route`.
pub open spec fn spawn_order(spawn: Option<u64>, parts: Seq<Part>, route: Seq<char>) -> Seq<CommandView> {
    match spawn {
        Some(s) => seq![CommandView::Spawn { spawn: s, parts, route }],
        None => Seq::empty(),
    }
}

fn find_last_spawn(s: &Vec<SpawnInfo>, mine: bool) -> (r: Option<u64>)
    ensures
        r == last_spawn(s@, mine),
{
    let mut r: Option<u64> = None;
    let mut i: usize = 0;
    while i < s.len()
        invariant
            i <= s@.len(),
            r == last_spawn(s@.subrange(0, i as int), mine),
        decreases s@.len() - i,
    {
        assert(s@.subrange(0, i + 1).drop_last() =~= s@.subrange(0, i as int));
        if (s[i].my == Some(true)) == mine {
            r = Some(s[i].handle);
        }
        i = i + 1;
    }
    assert(s@.subrange(0, i as int) =~= s@);
    r
}

fn owned_creeps(s: &Vec<CreepInfo>, mine: bool) -> (r: Vec<Creep>)
    ensures
        r@ == creeps_owned(s@, mine),
{
    let mut r: Vec<Creep> = Vec::new();
    let mut i: usize = 0;
    while i < s.len()
        invariant
            i <= s@.len(),
            r@ == creeps_owned(s@.subrange(0, i as int), mine),
        decreases s@.len() - i,
    {
        assert(s@.subrange(0, i + 1).drop_last() =~= s@.subrange(0, i as int));
        if s[i].my == mine {
            r.push(s[i].creep);
        }
        i = i + 1;
    }
    assert(s@.subrange(0, i as int) =~= s@);
    r
}

fn stocked_containers(s: &Vec<ContainerInfo>) -> (r: Vec<u64>)
    ensures
        r@ == stocked(s@),
{
    let mut r: Vec<u64> = Vec::new();
    let mut i: usize = 0;
    while i < s.len()
        invariant
            i <= s@.len(),
            r@ == stocked(s@.subrange(0, i as int)),
        decreases s@.len() - i,
    {
        assert(s@.subrange(0, i + 1).drop_last() =~= s@.subrange(0, i as int));
        let full = match s[i].energy {
            Some(e) => e > 20,
            None => false,
        };
        if full {
            r.push(s[i].handle);
        }
        i = i + 1;
    }
    assert(s@.subrange(0, i as int) =~= s@);
    r
}

fn copy_of<T: Copy>(v: &Vec<T>) -> (r: Vec<T>)
    ensures
        r@ == v@,
{
    let mut r: Vec<T> = Vec::new();
    let mut i: usize = 0;
    while i < v.len()
        invariant
            i <= v@.len(),
            r@ == v@.subrange(0, i as int),
        decreases v@.len() - i,
    {
        r.push(v[i]);
        i = i + 1;
    }
    assert(r@ =~= v@);
    r
}

/// Appends a spawn order for `route` where the spawn is known.
fn order_spawn(out: &mut Vec<Command>, spawn: Option<u64>, parts: Vec<Part>, route: &str)
    ensures
        commands_view(final(out)@) == commands_view(old(out)@) + spawn_order(spawn, parts@, route@),
{
    match spawn {
        Some(s) => {
            out.push(Command::Spawn { spawn: s, parts, route: String::from_str(route) });
            assert(commands_view(out@) =~= commands_view(old(out)@) + spawn_order(spawn, parts@, route@));
        },
        None => {
            assert(commands_view(out@) =~= commands_view(old(out)@) + spawn_order(spawn, parts@, route@));
        },
    }
}

impl RootBehaviour {
    /// A root that has not looked at the game yet.
    pub fn new() -> (r: RootBehaviour)
        ensures
            r.my_spawn is None,
            r.op_spawn is None,
            r.my_creeps@ == Seq::<Creep>::empty(),
            r.op_creeps@ == Seq::<Creep>::empty(),
            r.attack_parts@ == Seq::<Part>::empty(),
    {
        RootBehaviour {
            my_spawn: None,
            op_spawn: None,
            my_creeps: Vec::new(),
            op_creeps: Vec::new(),
            attack_parts: Vec::new(),
        }
    }

    /// One-time setup: picks the last own and the last opposing spawn,
    /// orders a harvester at the own spawn where the "harvest" child is still
    /// to be created (`harvest_free`), and gives the two child plans to
    /// insert: "harvest" and "attack", each run every tick.
    pub fn on_entry(&mut self, world: &World, out: &mut Vec<Command>, harvest_free: bool) -> (r: (Plan, Plan))
        ensures
            final(self).attack_parts@ == attacker_body(),
            final(self).my_spawn == last_spawn(world.spawns@, true),
            final(self).op_spawn == last_spawn(world.spawns@, false),
            final(self).my_creeps == old(self).my_creeps,
            final(self).op_creeps == old(self).op_creeps,
            commands_view(final(out)@) == commands_view(old(out)@) + if harvest_free {
                spawn_order(final(self).my_spawn, harvester_body(), harvest_route())
            } else {
                Seq::<CommandView>::empty()
            },
            r.0.wf(),
            r.0.tree_wf(),
            r.1.tree_wf(),
            r.0.name_view() == harvest_route(),
            r.0.period_view() == 1,
            r.0.enabled_view(),
            !r.0.active_view(),
            r.0.children_view() == Seq::<Plan>::empty(),
            r.0.behaviour_view() matches Behaviours::HarvestBehaviour(h) && h.my_spawn == final(self).my_spawn
                && h.creeps.wf() && h.creeps.existing_view() == Seq::<Creep>::empty()
                && h.creeps.spawning_view() == Seq::<Creep>::empty(),
            r.1.wf(),
            r.1.name_view() == attack_route(),
            r.1.period_view() == 1,
            r.1.enabled_view(),
            !r.1.active_view(),
            r.1.children_view() == Seq::<Plan>::empty(),
            r.1.behaviour_view() matches Behaviours::AttackBehaviour(a) && a.op_spawn == final(self).op_spawn
                && a.creeps.wf() && a.creeps.existing_view() == Seq::<Creep>::empty()
                && a.creeps.spawning_view() == Seq::<Creep>::empty(),
    {
        proof {
            reveal_strlit("harvest");
            reveal_strlit("attack");
        }
        self.attack_parts = gen_parts(&[(Part::Move, 5usize), (Part::Attack, 5usize)]);
        assert(self.attack_parts@ == attacker_body()) by {
            assert(seq![(Part::Move, 5usize), (Part::Attack, 5usize)] =~= seq![(Part::Move, 5usize), (Part::Attack, 5usize)]);
        }
        self.my_spawn = find_last_spawn(&world.spawns, true);
        self.op_spawn = find_last_spawn(&world.spawns, false);
        let body = gen_parts(&[(Part::Carry, 5usize), (Part::Move, 2usize)]);
        assert(body@ == harvester_body()) by {
            assert(seq![(Part::Carry, 5usize), (Part::Move, 2usize)] =~= seq![(Part::Carry, 5usize), (Part::Move, 2usize)]);
        }
        assert("harvest"@ =~= harvest_route());
        assert("attack"@ =~= attack_route());
        if harvest_free {
            order_spawn(out, self.my_spawn, body, "harvest");
        } else {
            assert(commands_view(out@) =~= commands_view(old(out)@) + Seq::<CommandView>::empty());
        }
        let harvest = HarvestBehaviour { my_spawn: self.my_spawn, creeps: Creeps::new() };
        let attack = AttackBehaviour { op_spawn: self.op_spawn, creeps: Creeps::new() };
        (
            Plan::new(Behaviours::HarvestBehaviour(harvest), "harvest", 1, true),
            Plan::new(Behaviours::AttackBehaviour(attack), "attack", 1, true),
        )
    }

    /// Before the children run: sorts the creeps of the game into own and
    /// opposing ones and orders an attacker at the own spawn, for "attack".
    pub fn on_pre_run(&mut self, world: &World, out: &mut Vec<Command>)
        ensures
            final(self).my_spawn == old(self).my_spawn,
            final(self).op_spawn == old(self).op_spawn,
            final(self).attack_parts == old(self).attack_parts,
            final(self).my_creeps@ == creeps_owned(world.creeps@, true),
            final(self).op_creeps@ == creeps_owned(world.creeps@, false),
            commands_view(final(out)@) == commands_view(old(out)@) + spawn_order(
                old(self).my_spawn,
                old(self).attack_parts@,
                attack_route(),
            ),
    {
        proof {
            reveal_strlit("attack");
        }
        self.my_creeps = owned_creeps(&world.creeps, true);
        self.op_creeps = owned_creeps(&world.creeps, false);
        let parts = copy_of(&self.attack_parts);
        assert("attack"@ =~= attack_route());
        order_spawn(out, self.my_spawn, parts, "attack");
    }
}

impl Default for RootBehaviour {
    fn default() -> (r: RootBehaviour)
        ensures
            r.my_spawn is None,
            r.op_spawn is None,
            r.my_creeps@ == Seq::<Creep>::empty(),
            r.op_creeps@ == Seq::<Creep>::empty(),
            r.attack_parts@ == Seq::<Part>::empty(),
    {
        RootBehaviour::new()
    }
}

impl Default for AttackBehaviour {
    fn default() -> (r: AttackBehaviour)
        ensures
            r.op_spawn is None,
            r.creeps.wf(),
            r.creeps.existing_view() == Seq::<Creep>::empty(),
            r.creeps.spawning_view() == Seq::<Creep>::empty(),
    {
        AttackBehaviour { op_spawn: None, creeps: Creeps::new() }
    }
}

impl HarvestBehaviour {
    /// Reconciles the tracked harvesters with the host, then orders each:
    /// an empty one withdraws from the containers holding more than 20
    /// energy, a loaded one delivers to the own spawn.
    pub fn on_run(&mut self, world: &World, out: &mut Vec<Command>)
        requires
            old(self).creeps.wf(),
        ensures
            final(self).my_spawn == old(self).my_spawn,
            final(self).creeps.wf(),
            final(self).creeps.existing_view() == crate::creeps::reconciled(
                old(self).creeps.existing_view(),
                old(self).creeps.spawning_view(),
                world.live@,
            ),
            final(self).creeps.spawning_view() == Seq::<Creep>::empty(),
            commands_view(final(out)@) == commands_view(old(out)@) + harvest_orders(
                final(self).creeps.existing_view(),
                world.creeps@,
                stocked(world.containers@),
                old(self).my_spawn,
            ),
    {
        let full = stocked_containers(&world.containers);
        self.creeps.check_existence(&world.live);
        let cs = self.creeps.existing();
        let ghost start = commands_view(out@);
        let mut i: usize = 0;
        while i < cs.len()
            invariant
                i <= cs@.len(),
                start == commands_view(old(out)@),
                full@ == stocked(world.containers@),
                commands_view(out@) == start + harvest_orders(
                    cs@.subrange(0, i as int),
                    world.creeps@,
                    full@,
                    self.my_spawn,
                ),
            decreases cs@.len() - i,
        {
            let c = cs[i];
            let ghost before = commands_view(out@);
            assert(cs@.subrange(0, i + 1).drop_last() =~= cs@.subrange(0, i as int));
            assert(cs@.subrange(0, i + 1).last() == c);
            match (find_energy(&world.creeps, c.handle), self.my_spawn) {
                (Some(e), Some(t)) => {
                    if e == 0 {
                        if full.len() > 0 {
                            out.push(Command::Withdraw { creep: c, containers: copy_of(&full) });
                        }
                    } else {
                        out.push(Command::Transfer { creep: c, target: t });
                    }
                },
                _ => {},
            }
            assert(commands_view(out@) =~= before + harvest_order(c, world.creeps@, full@, self.my_spawn));
            i = i + 1;
        }
        assert(cs@.subrange(0, i as int) =~= cs@);
    }
}

impl AttackBehaviour {
    /// Reconciles the tracked attackers with the host, then orders each to
    /// attack the opposing spawn, where it is known.
    pub fn on_run(&mut self, world: &World, out: &mut Vec<Command>)
        requires
            old(self).creeps.wf(),
        ensures
            final(self).op_spawn == old(self).op_spawn,
            final(self).creeps.wf(),
            final(self).creeps.existing_view() == crate::creeps::reconciled(
                old(self).creeps.existing_view(),
                old(self).creeps.spawning_view(),
                world.live@,
            ),
            final(self).creeps.spawning_view() == Seq::<Creep>::empty(),
            commands_view(final(out)@) == commands_view(old(out)@) + attack_orders(
                final(self).creeps.existing_view(),
                old(self).op_spawn,
            ),
    {
        self.creeps.check_existence(&world.live);
        let cs = self.creeps.existing();
        let ghost start = commands_view(out@);
        match self.op_spawn {
            Some(t) => {
                let mut i: usize = 0;
                while i < cs.len()
                    invariant
                        i <= cs@.len(),
                        start == commands_view(old(out)@),
                        self.op_spawn == Some(t),
                        commands_view(out@) == start + attack_orders(cs@.subrange(0, i as int), self.op_spawn),
                    decreases cs@.len() - i,
                {
                    let c = cs[i];
                    let ghost before = commands_view(out@);
                    assert(cs@.subrange(0, i + 1).drop_last() =~= cs@.subrange(0, i as int));
                    out.push(Command::Attack { creep: c, target: t });
                    assert(commands_view(out@) =~= before.push(CommandView::Attack { creep: c, target: t }));
                    i = i + 1;
                }
                assert(cs@.subrange(0, i as int) =~= cs@);
            },
            None => {
                assert(commands_view(out@) =~= start + attack_orders(cs@, self.op_spawn));
            },
        }
    }
}

} // verus!

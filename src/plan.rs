use vstd::prelude::*;

use crate::behaviour::{
    attack_orders, attack_route, attacker_body, behaviour_status, creeps_owned, harvest_orders, harvest_route,
    harvester_body, last_spawn, spawn_order, stocked, Behaviours, HasCreeps,
};
use crate::creeps::{offer, reconciled, Creeps};
use crate::game_helpers::{creep_key, Creep};
use crate::host::{commands_view, Command, CommandView, World};
use crate::predicate::{value, Predicates};

verus! {

/// Why a lookup or an insertion in a plan tree failed.
#[derive(Clone, Copy, Debug, PartialEq, Eq, Structural)]
pub enum PlanError {
    /// A sibling already has the name.
    NameTaken,
    /// No child has the name.
    NotFound,
    /// The child exists but holds another behaviour than the one asked for.
    WrongBehaviour,
}

/// A node of the behaviour tree: a named behaviour with its scheduling data
/// and its children, in insertion order.
pub struct Plan {
    name: String,
    period: u32,
    enabled: bool,
    active: bool,
    behaviour: Behaviours,
    children: Vec<Plan>,
}

/// Whether some plan of `cs` is named `n`.
pub open spec fn has_child(cs: Seq<Plan>, n: Seq<char>) -> bool {
    exists|i: int| 0 <= i < cs.len() && (#[trigger] cs[i]).name_view() == n
}

/// No two plans of `cs` share a name.
pub open spec fn names_unique(cs: Seq<Plan>) -> bool {
    forall|i: int, j: int|
        0 <= i < j < cs.len() ==> (#[trigger] cs[i]).name_view() != (#[trigger] cs[j]).name_view()
}

/// The position of the plan named `n` in `cs`.
pub open spec fn index_of(cs: Seq<Plan>, n: Seq<char>) -> int {
    choose|i: int| 0 <= i < cs.len() && (#[trigger] cs[i]).name_view() == n
}

/// The names of `cs`, in order.
pub open spec fn names_of(cs: Seq<Plan>) -> Seq<Seq<char>> {
    Seq::new(cs.len(), |i: int| cs[i].name_view())
}

impl Plan {
    pub closed spec fn name_view(&self) -> Seq<char> {
        self.name@
    }

    pub closed spec fn period_view(&self) -> u32 {
        self.period
    }

    pub closed spec fn enabled_view(&self) -> bool {
        self.enabled
    }

    /// Whether the entry hook has run since the plan was created or last left.
    pub closed spec fn active_view(&self) -> bool {
        self.active
    }

    pub closed spec fn behaviour_view(&self) -> &Behaviours {
        &self.behaviour
    }

    pub closed spec fn children_view(&self) -> Seq<Plan> {
        self.children@
    }

    /// The node's invariant: a positive period and uniquely named children.
    pub open spec fn wf(&self) -> bool {
        &&& self.period_view() > 0
        &&& names_unique(self.children_view())
    }

    /// The node's scheduling data and behaviour are those of `other`.
    pub open spec fn same_node(&self, other: &Plan) -> bool {
        &&& self.name_view() == other.name_view()
        &&& self.period_view() == other.period_view()
        &&& self.enabled_view() == other.enabled_view()
        &&& self.active_view() == other.active_view()
        &&& self.behaviour_view() == other.behaviour_view()
    }

    /// A new plan without children, not yet entered.
    pub fn new(behaviour: Behaviours, name: &str, period: u32, enabled: bool) -> (r: Plan)
        requires
            period > 0,
        ensures
            r.wf(),
            r.name_view() == name@,
            r.period_view() == period,
            r.enabled_view() == enabled,
            !r.active_view(),
            r.behaviour_view() == &behaviour,
            r.children_view() == Seq::<Plan>::empty(),
            behaviour_ok(&behaviour) ==> r.tree_wf(),
    {
        Plan {
            name: String::from_str(name),
            period,
            enabled,
            active: false,
            behaviour,
            children: Vec::new(),
        }
    }

    pub fn name(&self) -> (r: &String)
        ensures
            r@ == self.name_view(),
    {
        &self.name
    }

    pub fn period(&self) -> (r: u32)
        ensures
            r == self.period_view(),
    {
        self.period
    }

    pub fn enabled(&self) -> (r: bool)
        ensures
            r == self.enabled_view(),
    {
        self.enabled
    }

    pub fn is_active(&self) -> (r: bool)
        ensures
            r == self.active_view(),
    {
        self.active
    }

    pub fn behaviour(&self) -> (r: &Behaviours)
        ensures
            r == self.behaviour_view(),
    {
        &self.behaviour
    }

    /// The children, in insertion order.
    pub fn children(&self) -> (r: &Vec<Plan>)
        ensures
            r@ == self.children_view(),
    {
        &self.children
    }

    /// The position of the child named `n`, if any.
    fn position(&self, n: &String) -> (r: Option<usize>)
        ensures
            r is None <==> !has_child(self.children_view(), n@),
            r matches Some(i) ==> i < self.children_view().len()
                && self.children_view()[i as int].name_view() == n@,
    {
        let mut i: usize = 0;
        while i < self.children.len()
            invariant
                i <= self.children@.len(),
                forall|j: int| 0 <= j < i ==> (#[trigger] self.children@[j]).name_view() != n@,
            decreases self.children@.len() - i,
        {
            if self.children[i].name == *n {
                return Some(i);
            }
            i = i + 1;
        }
        None
    }

    /// Adds `child` as the last child, unless a child already has its name;
    /// then the tree is left unchanged.
    pub fn insert(&mut self, child: Plan) -> (r: Result<(), PlanError>)
        requires
            old(self).wf(),
        ensures
            final(self).wf(),
            final(self).same_node(old(self)),
            r is Err <==> has_child(old(self).children_view(), child.name_view()),
            r matches Err(e) ==> e == PlanError::NameTaken,
            r is Err ==> final(self).children_view() == old(self).children_view(),
            r is Ok ==> final(self).children_view() == old(self).children_view().push(child),
            old(self).tree_wf() && child.tree_wf() ==> final(self).tree_wf(),
    {
        match self.position(&child.name) {
            Some(_) => Err(PlanError::NameTaken),
            None => {
                let ghost cs = self.children@;
                self.children.push(child);
                assert forall|i: int, j: int| 0 <= i < j < self.children@.len() implies
                    (#[trigger] self.children@[i]).name_view() != (#[trigger] self.children@[j]).name_view() by {
                    if j == cs.len() {
                        assert(cs[i] == self.children@[i]);
                    }
                }
                assert(forall|i: int| 0 <= i < cs.len() ==> #[trigger] self.children@[i] == cs[i]);
                Ok(())
            },
        }
    }

    /// The child named `name`, if any.
    pub fn get(&self, name: &str) -> (r: Option<&Plan>)
        ensures
            r is Some <==> has_child(self.children_view(), name@),
            r matches Some(c) ==> self.children_view().contains(*c) && c.name_view() == name@,
    {
        let n = String::from_str(name);
        match self.position(&n) {
            Some(i) => Some(&self.children[i]),
            None => None,
        }
    }

    /// The child named `name`, if any, for changing in place. The node stays
    /// well formed as long as the child keeps its name.
    pub fn get_mut(&mut self, name: &str) -> (r: Option<&mut Plan>)
        requires
            old(self).wf(),
        ensures
            final(self).same_node(old(self)),
            r is Some <==> has_child(old(self).children_view(), name@),
            r is None ==> final(self).children_view() == old(self).children_view(),
            r matches Some(c) ==> {
                let i = index_of(old(self).children_view(), name@);
                &&& 0 <= i < old(self).children_view().len()
                &&& *c == old(self).children_view()[i]
                &&& c.name_view() == name@
                &&& final(self).children_view() == old(self).children_view().update(i, *final(c))
                &&& final(c).name_view() == name@ ==> final(self).wf()
                &&& old(self).tree_wf() ==> c.tree_wf()
                &&& final(c).name_view() == name@ && old(self).tree_wf() && final(c).tree_wf()
                    ==> final(self).tree_wf()
            },
            r is None ==> (old(self).tree_wf() ==> final(self).tree_wf()),
    {
        let n = String::from_str(name);
        match self.position(&n) {
            Some(i) => {
                proof {
                    let cs = self.children@;
                    let k = index_of(cs, name@);
                    assert(cs[i as int].name_view() == name@);
                    if k != i as int {
                        if k < i {
                            assert(cs[k].name_view() != cs[i as int].name_view());
                        } else {
                            assert(cs[i as int].name_view() != cs[k].name_view());
                        }
                    }
                }
                Some(&mut self.children[i])
            },
            None => None,
        }
    }

    /// Takes out the child named `name`, if any, as exited: it is entered
    /// afresh should it run again. The others keep their order.
    pub fn remove(&mut self, name: &str) -> (r: Option<Plan>)
        requires
            old(self).wf(),
        ensures
            final(self).wf(),
            final(self).same_node(old(self)),
            r is Some <==> has_child(old(self).children_view(), name@),
            r is None ==> final(self).children_view() == old(self).children_view(),
            r matches Some(c) ==> {
                let i = index_of(old(self).children_view(), name@);
                &&& 0 <= i < old(self).children_view().len()
                &&& c.name_view() == old(self).children_view()[i].name_view()
                &&& c.period_view() == old(self).children_view()[i].period_view()
                &&& c.enabled_view() == old(self).children_view()[i].enabled_view()
                &&& !c.active_view()
                &&& c.behaviour_view() == old(self).children_view()[i].behaviour_view()
                &&& c.children_view() == old(self).children_view()[i].children_view()
                &&& final(self).children_view() == old(self).children_view().remove(i)
                &&& old(self).tree_wf() ==> c.tree_wf()
            },
            old(self).tree_wf() ==> final(self).tree_wf(),
    {
        let n = String::from_str(name);
        match self.position(&n) {
            Some(i) => {
                let ghost cs = self.children@;
                proof {
                    let k = index_of(cs, name@);
                    assert(cs[i as int].name_view() == name@);
                    if k != i as int {
                        if k < i {
                            assert(cs[k].name_view() != cs[i as int].name_view());
                        } else {
                            assert(cs[i as int].name_view() != cs[k].name_view());
                        }
                    }
                }
                let mut c = self.children.remove(i);
                c.active = false;
                proof {
                    if tree_wf(*old(self)) {
                        assert(tree_wf(cs[i as int]));
                        assert(tree_wf(c));
                    }
                }
                assert forall|a: int, b: int| 0 <= a < b < self.children@.len() implies
                    (#[trigger] self.children@[a]).name_view() != (#[trigger] self.children@[b]).name_view() by {
                    let a2 = if a < i { a } else { a + 1 };
                    let b2 = if b < i { b } else { b + 1 };
                    assert(self.children@[a] == cs[a2]);
                    assert(self.children@[b] == cs[b2]);
                }
                assert forall|a: int| 0 <= a < self.children@.len() implies
                    #[trigger] self.children@[a] == cs[if a < i { a } else { a + 1 }] by {}
                Some(c)
            },
            None => None,
        }
    }
}

/// The registry a behaviour keeps, for those that keep one.
pub open spec fn registry_of(b: &Behaviours) -> Option<&Creeps> {
    match b {
        Behaviours::HarvestBehaviour(h) => Some(&h.creeps),
        Behaviours::AttackBehaviour(a) => Some(&a.creeps),
        _ => None,
    }
}

/// A behaviour's own invariant: a registry it keeps is well formed.
pub open spec fn behaviour_ok(b: &Behaviours) -> bool {
    match registry_of(b) {
        Some(c) => c.wf(),
        None => true,
    }
}

/// Whether `p` runs at `tick`: it is enabled and `tick` is a multiple of its period.
pub open spec fn due(p: &Plan, tick: u64) -> bool {
    p.enabled_view() && tick as int % p.period_view() as int == 0
}

/// The status of `p`, computed from its behaviour and its children's statuses.
pub closed spec fn plan_status(p: Plan) -> Option<bool>
    decreases p,
{
    behaviour_status(&p.behaviour, statuses_of(p.children@))
}

/// The status of each of `cs`, in order.
pub closed spec fn statuses_of(cs: Seq<Plan>) -> Seq<Option<bool>>
    decreases cs,
{
    Seq::new(cs.len(), |i: int| if 0 <= i < cs.len() { plan_status(cs[i]) } else { None })
}

/// The whole tree is well formed: every node has a positive period, uniquely
/// named children and a well-formed registry where it keeps one.
pub closed spec fn tree_wf(p: Plan) -> bool
    decreases p,
{
    &&& p.period > 0
    &&& names_unique(p.children@)
    &&& behaviour_ok(&p.behaviour)
    &&& forall|i: int| 0 <= i < p.children@.len() ==> tree_wf(#[trigger] p.children@[i])
}

/// A node that will add children when it is entered.
closed spec fn grows(p: Plan) -> bool {
    !p.active && p.behaviour is RootBehaviour
}

/// How deep the tree under `p` can still become: its height, counting the
/// level a node adds when it is entered.
closed spec fn reach(p: Plan) -> int
    decreases p,
{
    let k = reach_all(p.children@);
    if grows(p) && k < 0 { 1 } else { k + 1 }
}

/// The largest `reach` of `cs`, or -1 for none.
closed spec fn reach_all(cs: Seq<Plan>) -> int
    decreases cs,
{
    if cs.len() == 0 {
        -1
    } else {
        let a = reach_all(cs.drop_last());
        let b = reach(cs.last());
        if a < b { b } else { a }
    }
}

proof fn lemma_reach_nonneg(p: Plan)
    ensures
        reach(p) >= 0,
        reach_all(p.children@) >= -1,
    decreases p,
{
    lemma_reach_all_floor(p.children@);
}

proof fn lemma_reach_all_floor(cs: Seq<Plan>)
    ensures
        reach_all(cs) >= -1,
    decreases cs,
{
    if cs.len() > 0 {
        lemma_reach_all_floor(cs.drop_last());
    }
}

proof fn lemma_reach_all_bounds(cs: Seq<Plan>, i: int)
    requires
        0 <= i < cs.len(),
    ensures
        reach(cs[i]) <= reach_all(cs),
    decreases cs.len(),
{
    if i < cs.len() - 1 {
        lemma_reach_all_bounds(cs.drop_last(), i);
        assert(cs.drop_last()[i] == cs[i]);
    }
}

proof fn lemma_reach_all_update(cs: Seq<Plan>, i: int, c: Plan)
    requires
        0 <= i < cs.len(),
        reach(c) <= reach(cs[i]),
    ensures
        reach_all(cs.update(i, c)) <= reach_all(cs),
    decreases cs.len(),
{
    let u = cs.update(i, c);
    if i < cs.len() - 1 {
        lemma_reach_all_update(cs.drop_last(), i, c);
        assert(u.drop_last() =~= cs.drop_last().update(i, c));
        assert(u.last() == cs.last());
    } else {
        assert(u.drop_last() =~= cs.drop_last());
    }
}

proof fn lemma_reach_all_push(cs: Seq<Plan>, c: Plan)
    ensures
        reach_all(cs.push(c)) == if reach_all(cs) < reach(c) { reach(c) } else { reach_all(cs) },
{
    assert(cs.push(c).drop_last() =~= cs);
}

proof fn lemma_statuses_of(cs: Seq<Plan>)
    ensures
        statuses_of(cs).len() == cs.len(),
        forall|i: int| 0 <= i < cs.len() ==> #[trigger] statuses_of(cs)[i] == plan_status(cs[i]),
{
}

/// The child named `n` of `cs` exists and keeps a registry.
pub open spec fn keeps_registry(cs: Seq<Plan>, n: Seq<char>) -> bool {
    has_child(cs, n) && registry_of(cs[index_of(cs, n)].behaviour_view()) is Some
}

/// `a` is the behaviour `b` with nothing but its registry changed.
pub open spec fn with_registry(b: &Behaviours, a: &Behaviours) -> bool {
    match (b, a) {
        (Behaviours::HarvestBehaviour(hb), Behaviours::HarvestBehaviour(ha)) => ha.my_spawn == hb.my_spawn,
        (Behaviours::AttackBehaviour(ab), Behaviours::AttackBehaviour(aa)) => aa.op_spawn == ab.op_spawn,
        _ => false,
    }
}

/// `after` is `before` with only the registry of the child at `i` changed.
pub open spec fn only_registry_changed(before: Seq<Plan>, after: Seq<Plan>, i: int) -> bool {
    &&& 0 <= i < before.len()
    &&& after.len() == before.len()
    &&& forall|j: int| 0 <= j < before.len() && j != i ==> #[trigger] after[j] == before[j]
    &&& after[i].same_node_but_behaviour(&before[i])
    &&& after[i].children_view() == before[i].children_view()
    &&& with_registry(before[i].behaviour_view(), after[i].behaviour_view())
}

proof fn lemma_index_of(cs: Seq<Plan>, n: Seq<char>, i: int)
    requires
        names_unique(cs),
        0 <= i < cs.len(),
        cs[i].name_view() == n,
    ensures
        index_of(cs, n) == i,
{
    let k = index_of(cs, n);
    if k != i {
        if k < i {
            assert(cs[k].name_view() != cs[i].name_view());
        } else {
            assert(cs[i].name_view() != cs[k].name_view());
        }
    }
}

/// Changing only the registry of one child keeps the tree well formed.
proof fn lemma_registry_step(cs: Seq<Plan>, after: Seq<Plan>, i: int)
    requires
        forall|j: int| 0 <= j < cs.len() ==> tree_wf(#[trigger] cs[j]),
        names_unique(cs),
        0 <= i < cs.len(),
        after.len() == cs.len(),
        forall|j: int| 0 <= j < cs.len() && j != i ==> #[trigger] after[j] == cs[j],
        after[i].name_view() == cs[i].name_view(),
        after[i].period_view() == cs[i].period_view(),
        after[i].children_view() == cs[i].children_view(),
        behaviour_ok(after[i].behaviour_view()),
    ensures
        names_unique(after),
        forall|j: int| 0 <= j < after.len() ==> tree_wf(#[trigger] after[j]),
{
    assert forall|a: int, b: int| 0 <= a < b < after.len() implies
        (#[trigger] after[a]).name_view() != (#[trigger] after[b]).name_view() by {
        assert(cs[a].name_view() != cs[b].name_view());
    }
    assert forall|j: int| 0 <= j < after.len() implies tree_wf(#[trigger] after[j]) by {
        if j != i {
            assert(tree_wf(cs[j]));
        } else {
            assert(tree_wf(cs[i]));
        }
    }
}

/// The status of each child, in order.
fn child_statuses(cs: &Vec<Plan>) -> (r: Vec<Option<bool>>)
    ensures
        r@ == statuses_of(cs@),
    decreases cs,
{
    let mut r: Vec<Option<bool>> = Vec::new();
    let mut i: usize = 0;
    while i < cs.len()
        invariant
            i <= cs@.len(),
            r@.len() == i,
            forall|j: int| 0 <= j < i ==> r@[j] == plan_status(#[trigger] cs@[j]),
        decreases cs@.len() - i,
    {
        assert(decreases_to!(cs => cs@[i as int]));
        r.push(cs[i].status());
        i = i + 1;
    }
    proof {
        lemma_statuses_of(cs@);
    }
    assert(r@ =~= statuses_of(cs@));
    r
}

impl Plan {
    /// The status this plan reports: a side-effect-free query over its
    /// behaviour and its children's statuses.
    pub fn status(&self) -> (r: Option<bool>)
        ensures
            r == plan_status(*self),
            r == behaviour_status(self.behaviour_view(), statuses_of(self.children_view())),
        decreases self,
    {
        let st = child_statuses(&self.children);
        self.behaviour.status(&st)
    }

    /// The whole tree under this plan is well formed.
    pub open spec fn tree_wf(&self) -> bool {
        tree_wf(*self)
    }

    /// Enables or disables the plan; disabling an enabled plan is its exit,
    /// after which it is entered afresh when it next runs.
    pub fn set_enabled(&mut self, enabled: bool)
        requires
            old(self).tree_wf(),
        ensures
            final(self).tree_wf(),
            final(self).enabled_view() == enabled,
            final(self).active_view() == (old(self).active_view() && (enabled || !old(self).enabled_view())),
            final(self).name_view() == old(self).name_view(),
            final(self).period_view() == old(self).period_view(),
            final(self).behaviour_view() == old(self).behaviour_view(),
            final(self).children_view() == old(self).children_view(),
    {
        if self.enabled && !enabled {
            self.active = false;
        }
        self.enabled = enabled;
    }

    /// Records a spawn request in the registry of the child named `name`.
    /// It succeeds exactly when that child exists and keeps a registry; only
    /// the spawning list of that registry grows.
    pub fn add_spawning_to(&mut self, name: &str, creep: Creep) -> (r: Result<(), PlanError>)
        requires
            old(self).tree_wf(),
        ensures
            final(self).tree_wf(),
            final(self).same_node(old(self)),
            r is Ok <==> keeps_registry(old(self).children_view(), name@),
            r == Err::<(), PlanError>(PlanError::NotFound) <==> !has_child(old(self).children_view(), name@),
            r == Err::<(), PlanError>(PlanError::WrongBehaviour) <==> has_child(old(self).children_view(), name@)
                && !keeps_registry(old(self).children_view(), name@),
            r is Err ==> final(self).children_view() == old(self).children_view(),
            r is Ok ==> {
                let i = index_of(old(self).children_view(), name@);
                let before = registry_of(old(self).children_view()[i].behaviour_view())->0;
                let after = registry_of(final(self).children_view()[i].behaviour_view())->0;
                &&& only_registry_changed(old(self).children_view(), final(self).children_view(), i)
                &&& after.wf()
                &&& after.spawning_view() == before.spawning_view().push(creep)
                &&& after.existing_view() == before.existing_view()
            },
    {
        let n = String::from_str(name);
        match self.position(&n) {
            Some(i) => {
                let ghost cs = self.children@;
                proof {
                    lemma_index_of(cs, name@, i as int);
                    assert(tree_wf(cs[i as int]));
                }
                let child = &mut self.children[i];
                let r = match &mut child.behaviour {
                    Behaviours::HarvestBehaviour(h) => {
                        h.creeps_mut().add_spawning(creep);
                        Ok(())
                    },
                    Behaviours::AttackBehaviour(a) => {
                        a.creeps_mut().add_spawning(creep);
                        Ok(())
                    },
                    _ => Err(PlanError::WrongBehaviour),
                };
                proof {
                    lemma_registry_step(cs, self.children@, i as int);
                    if r is Ok {
                        assert(keeps_registry(cs, name@));
                        assert(only_registry_changed(cs, self.children@, i as int));
                    }
                }
                if r.is_err() {
                    proof {
                        assert(self.children@ =~= cs);
                    }
                }
                r
            },
            None => Err(PlanError::NotFound),
        }
    }

    /// Tracks a confirmed creep in the registry of the child named `name`
    /// and gives a copy of the entry for its id (`None` for a creep without
    /// a usable id). It succeeds exactly when that child exists and keeps a
    /// registry; only the confirmed entries of that registry change.
    pub fn add_creep_to(&mut self, name: &str, creep: Creep) -> (r: Result<Option<Creep>, PlanError>)
        requires
            old(self).tree_wf(),
        ensures
            final(self).tree_wf(),
            final(self).same_node(old(self)),
            r is Ok <==> keeps_registry(old(self).children_view(), name@),
            r == Err::<Option<Creep>, PlanError>(PlanError::NotFound) <==> !has_child(old(self).children_view(), name@),
            r == Err::<Option<Creep>, PlanError>(PlanError::WrongBehaviour) <==> has_child(old(self).children_view(), name@)
                && !keeps_registry(old(self).children_view(), name@),
            r is Err ==> final(self).children_view() == old(self).children_view(),
            r matches Ok(found) ==> {
                let i = index_of(old(self).children_view(), name@);
                let before = registry_of(old(self).children_view()[i].behaviour_view())->0;
                let after = registry_of(final(self).children_view()[i].behaviour_view())->0;
                &&& only_registry_changed(old(self).children_view(), final(self).children_view(), i)
                &&& after.wf()
                &&& after.existing_view() == offer(before.existing_view(), creep)
                &&& after.spawning_view() == before.spawning_view()
                &&& (found is None <==> creep_key(creep) is None)
                &&& (found matches Some(c) ==> creep_key(c) == creep_key(creep) && after.existing_view().contains(c))
            },
    {
        let n = String::from_str(name);
        match self.position(&n) {
            Some(i) => {
                let ghost cs = self.children@;
                proof {
                    lemma_index_of(cs, name@, i as int);
                    assert(tree_wf(cs[i as int]));
                }
                let child = &mut self.children[i];
                let r = match &mut child.behaviour {
                    Behaviours::HarvestBehaviour(h) => Ok(h.creeps_mut().add_creep_copy(creep)),
                    Behaviours::AttackBehaviour(a) => Ok(a.creeps_mut().add_creep_copy(creep)),
                    _ => Err(PlanError::WrongBehaviour),
                };
                proof {
                    lemma_registry_step(cs, self.children@, i as int);
                    if r is Ok {
                        assert(keeps_registry(cs, name@));
                        assert(only_registry_changed(cs, self.children@, i as int));
                    }
                }
                if r.is_err() {
                    proof {
                        assert(self.children@ =~= cs);
                    }
                }
                r
            },
            None => Err(PlanError::NotFound),
        }
    }

    /// Same name, period, flags and kind of behaviour as `other`.
    pub open spec fn same_node_but_behaviour(&self, other: &Plan) -> bool {
        &&& self.name_view() == other.name_view()
        &&& self.period_view() == other.period_view()
        &&& self.enabled_view() == other.enabled_view()
        &&& self.active_view() == other.active_view()
    }
}

/// How a node schedules its children.
pub enum ChildPolicy {
    /// In order, while each child succeeds.
    Sequence,
    /// In order, while each child fails.
    Fallback,
    /// In order, all of them.
    Every,
    /// Only the first due child (all utilities are equal).
    MaxUtil,
    /// Whole passes in order, until the predicate holds or the passes are used up.
    Repeat(Predicates, u32),
}

/// The child policy of a behaviour.
pub open spec fn policy_of(b: &Behaviours) -> ChildPolicy {
    match b {
        Behaviours::SequenceBehaviour => ChildPolicy::Sequence,
        Behaviours::FallbackBehaviour => ChildPolicy::Fallback,
        Behaviours::MaxUtilBehaviour => ChildPolicy::MaxUtil,
        Behaviours::RepeatBehaviour(r) => ChildPolicy::Repeat(r.until, r.max_passes),
        _ => ChildPolicy::Every,
    }
}

/// Whether a pass goes on past a child that reported `s`.
pub open spec fn policy_goes_on(p: ChildPolicy, s: Option<bool>) -> bool {
    match p {
        ChildPolicy::Sequence => s == Some(true),
        ChildPolicy::Fallback => s == Some(false),
        _ => true,
    }
}

/// `p` is the first child of `k` due at `tick`.
pub open spec fn first_due(k: Seq<Plan>, tick: u64, p: int) -> bool {
    &&& 0 <= p < k.len()
    &&& due(&k[p], tick)
    &&& forall|j: int| 0 <= j < p ==> !due(#[trigger] &k[j], tick)
}

/// A child just built by a root's entry: named `n`, run every tick,
/// enabled, not entered, without children.
pub open spec fn fresh_child(p: Plan, n: Seq<char>) -> bool {
    &&& p.name_view() == n
    &&& p.period_view() == 1
    &&& p.enabled_view()
    &&& !p.active_view()
    &&& p.children_view() == Seq::<Plan>::empty()
}

/// A fresh "harvest" child serving the own spawn `s`, with an empty registry.
pub open spec fn fresh_harvest(p: Plan, s: Option<u64>) -> bool {
    &&& fresh_child(p, harvest_route())
    &&& p.behaviour_view() matches Behaviours::HarvestBehaviour(h) && h.my_spawn == s && h.creeps.wf()
        && h.creeps.existing_view() == Seq::<Creep>::empty() && h.creeps.spawning_view() == Seq::<Creep>::empty()
}

/// A fresh "attack" child aimed at the opposing spawn `s`, with an empty registry.
pub open spec fn fresh_attack(p: Plan, s: Option<u64>) -> bool {
    &&& fresh_child(p, attack_route())
    &&& p.behaviour_view() matches Behaviours::AttackBehaviour(a) && a.op_spawn == s && a.creeps.wf()
        && a.creeps.existing_view() == Seq::<Creep>::empty() && a.creeps.spawning_view() == Seq::<Creep>::empty()
}

/// A root that has not been entered yet.
pub open spec fn enters_root(b: Plan) -> bool {
    !b.active_view() && b.behaviour_view() is RootBehaviour
}

/// The children `k` that `b` has once entered in world `w`: a root entered
/// for the first time gains a fresh "harvest" and a fresh "attack" child,
/// each only where no child has that name yet; the children it had stay as
/// they were. Any other plan keeps its children.
pub open spec fn entry_children(b: Plan, w: World, k: Seq<Plan>) -> bool {
    let bc = b.children_view();
    if enters_root(b) {
        let hf = !has_child(bc, harvest_route());
        let af = !has_child(bc, attack_route());
        let at = bc.len() + if hf { 1int } else { 0int };
        &&& k.len() == at + if af { 1int } else { 0int }
        &&& k.subrange(0, bc.len() as int) == bc
        &&& hf ==> fresh_harvest(k[bc.len() as int], last_spawn(w.spawns@, true))
        &&& af ==> fresh_attack(k[at], last_spawn(w.spawns@, false))
    } else {
        k == bc
    }
}

/// The orders of a root's entry: a harvester, where the "harvest" child is created.
pub open spec fn entry_orders(b: Plan, w: World) -> Seq<CommandView> {
    if enters_root(b) && !has_child(b.children_view(), harvest_route()) {
        spawn_order(last_spawn(w.spawns@, true), harvester_body(), harvest_route())
    } else {
        Seq::empty()
    }
}

/// How a node's own behaviour changed over its hooks in world `w`.
pub open spec fn behaviour_ran(b: Plan, w: World, a: Plan) -> bool {
    match (b.behaviour_view(), a.behaviour_view()) {
        (Behaviours::RootBehaviour(rb), Behaviours::RootBehaviour(ra)) => {
            let entering = !b.active_view();
            &&& ra.my_spawn == if entering { last_spawn(w.spawns@, true) } else { rb.my_spawn }
            &&& ra.op_spawn == if entering { last_spawn(w.spawns@, false) } else { rb.op_spawn }
            &&& ra.attack_parts@ == if entering { attacker_body() } else { rb.attack_parts@ }
            &&& ra.my_creeps@ == creeps_owned(w.creeps@, true)
            &&& ra.op_creeps@ == creeps_owned(w.creeps@, false)
        },
        (Behaviours::HarvestBehaviour(hb), Behaviours::HarvestBehaviour(ha)) => {
            &&& ha.my_spawn == hb.my_spawn
            &&& ha.creeps.wf()
            &&& ha.creeps.existing_view() == reconciled(hb.creeps.existing_view(), hb.creeps.spawning_view(), w.live@)
            &&& ha.creeps.spawning_view() == Seq::<Creep>::empty()
        },
        (Behaviours::AttackBehaviour(ab), Behaviours::AttackBehaviour(aa)) => {
            &&& aa.op_spawn == ab.op_spawn
            &&& aa.creeps.wf()
            &&& aa.creeps.existing_view() == reconciled(ab.creeps.existing_view(), ab.creeps.spawning_view(), w.live@)
            &&& aa.creeps.spawning_view() == Seq::<Creep>::empty()
        },
        (Behaviours::RootBehaviour(_), _) => false,
        (Behaviours::HarvestBehaviour(_), _) => false,
        (Behaviours::AttackBehaviour(_), _) => false,
        _ => a.behaviour_view() == b.behaviour_view(),
    }
}

/// The orders a node gives before its children run: a root's entry orders,
/// then its attacker order.
pub open spec fn leading_orders(b: Plan, w: World, a: Plan) -> Seq<CommandView> {
    match a.behaviour_view() {
        Behaviours::RootBehaviour(ra) => entry_orders(b, w) + spawn_order(ra.my_spawn, ra.attack_parts@, attack_route()),
        _ => Seq::empty(),
    }
}

/// The orders a node gives after its children ran: a harvester or attacker
/// plan's orders for its reconciled creeps.
pub open spec fn trailing_orders(w: World, a: Plan) -> Seq<CommandView> {
    match a.behaviour_view() {
        Behaviours::HarvestBehaviour(ha) => harvest_orders(
            ha.creeps.existing_view(),
            w.creeps@,
            stocked(w.containers@),
            ha.my_spawn,
        ),
        Behaviours::AttackBehaviour(aa) => attack_orders(aa.creeps.existing_view(), aa.op_spawn),
        _ => Seq::empty(),
    }
}

/// One child run within a pass: the child at position `at` became `after`,
/// giving `cmds`, as `trace` records.
pub struct Step {
    pub at: int,
    pub after: Plan,
    pub cmds: Seq<CommandView>,
    pub trace: RunTrace,
}

/// The record of one run of a plan, which the relation `ran` checks.
pub enum RunTrace {
    /// The plan was not due.
    Idle,
    /// The plan ran; `children` are its children once entered, `rounds` the
    /// passes made over them.
    Ran { children: Seq<Plan>, rounds: Seq<Seq<Step>> },
}

/// The run of plan `b` at `tick` in world `w`, as recorded by `t`, turned it
/// into `a` and gave the orders `cmds`. A plan that is not due is left as it
/// is and gives none. A due plan is entered (a root gains its children), gives
/// its leading orders, runs its children by its policy (each by this same
/// protocol), then gives its trailing orders.
pub open spec fn ran(t: RunTrace, b: Plan, tick: u64, w: World, a: Plan, cmds: Seq<CommandView>) -> bool
    decreases t, 2nat,
{
    match t {
        RunTrace::Idle => !due(&b, tick) && a == b && cmds == Seq::<CommandView>::empty(),
        RunTrace::Ran { children: k, rounds } => {
            let lead = leading_orders(b, w, a);
            let trail = trailing_orders(w, a);
            &&& due(&b, tick)
            &&& a.name_view() == b.name_view()
            &&& a.period_view() == b.period_view()
            &&& a.enabled_view() == b.enabled_view()
            &&& a.active_view()
            &&& behaviour_ran(b, w, a)
            &&& lead.len() + trail.len() <= cmds.len()
            &&& cmds.subrange(0, lead.len() as int) == lead
            &&& cmds.subrange(cmds.len() - trail.len(), cmds.len() as int) == trail
            &&& entry_children(b, w, k)
            &&& children_ran(
                policy_of(b.behaviour_view()),
                k,
                rounds,
                tick,
                w,
                a.children_view(),
                cmds.subrange(lead.len() as int, cmds.len() - trail.len()),
            )
        },
    }
}

/// The children after a pass over `start` that made `steps`, in order.
pub open spec fn round_end(start: Seq<Plan>, steps: Seq<Step>) -> Seq<Plan> {
    Seq::new(start.len(), |j: int| if j < steps.len() { steps[j].after } else { start[j] })
}

/// The orders of `steps`, in order.
pub open spec fn steps_cmds(steps: Seq<Step>) -> Seq<CommandView>
    decreases steps.len(),
{
    if steps.len() == 0 {
        Seq::empty()
    } else {
        steps_cmds(steps.drop_last()) + steps.last().cmds
    }
}

/// The orders of all `rounds`, in order.
pub open spec fn rounds_cmds(rounds: Seq<Seq<Step>>) -> Seq<CommandView>
    decreases rounds.len(),
{
    if rounds.len() == 0 {
        Seq::empty()
    } else {
        rounds_cmds(rounds.drop_last()) + steps_cmds(rounds.last())
    }
}

/// The first children of `start` ran in order as `steps` records, each by
/// the protocol, and each but the last let policy `p` go on.
pub open spec fn steps_ok(p: ChildPolicy, start: Seq<Plan>, steps: Seq<Step>, tick: u64, w: World) -> bool
    decreases steps, 0nat,
{
    if steps.len() == 0 {
        true
    } else {
        let n = steps.len() - 1;
        &&& steps.len() <= start.len()
        &&& steps_ok(p, start, steps.drop_last(), tick, w)
        &&& steps[n].at == n
        &&& ran(steps[n].trace, start[n], tick, w, steps[n].after, steps[n].cmds)
        &&& n > 0 ==> policy_goes_on(p, plan_status(steps[n - 1].after))
    }
}

/// A pass that made `steps` ended where it should: after every child, or
/// after the first child whose status does not let policy `p` go on.
pub open spec fn round_done(p: ChildPolicy, start: Seq<Plan>, steps: Seq<Step>) -> bool {
    ||| steps.len() == start.len()
    ||| steps.len() > 0 && !policy_goes_on(p, plan_status(steps.last().after))
}

/// The children after the passes `rounds` over `k`.
pub open spec fn state_after(k: Seq<Plan>, rounds: Seq<Seq<Step>>) -> Seq<Plan>
    decreases rounds.len(),
{
    if rounds.len() == 0 {
        k
    } else {
        round_end(state_after(k, rounds.drop_last()), rounds.last())
    }
}

/// The passes `rounds` of a repeat node over its children `k`: each began
/// while `until` did not hold, and ran as a pass should.
pub open spec fn rounds_ok(p: ChildPolicy, until: Predicates, k: Seq<Plan>, rounds: Seq<Seq<Step>>, tick: u64, w: World) -> bool
    decreases rounds, 0nat,
{
    if rounds.len() == 0 {
        true
    } else {
        let s = state_after(k, rounds.drop_last());
        &&& rounds_ok(p, until, k, rounds.drop_last(), tick, w)
        &&& !value(until, statuses_of(s))
        &&& steps_ok(p, s, rounds.last(), tick, w)
        &&& round_done(p, s, rounds.last())
    }
}

/// The children `k` of a node with policy `p` became `after`, giving
/// `cmds`, by the passes `rounds`: a max-utility node runs only its first
/// due child; a repeat node makes passes until `until` holds or `max` passes
/// are made; any other node makes one pass.
pub open spec fn children_ran(
    p: ChildPolicy,
    k: Seq<Plan>,
    rounds: Seq<Seq<Step>>,
    tick: u64,
    w: World,
    after: Seq<Plan>,
    cmds: Seq<CommandView>,
) -> bool
    decreases rounds, 1nat,
{
    match p {
        ChildPolicy::MaxUtil => {
            &&& rounds.len() == 1
            &&& if rounds[0].len() == 1 {
                let st = rounds[0][0];
                &&& first_due(k, tick, st.at)
                &&& ran(st.trace, k[st.at], tick, w, st.after, st.cmds)
                &&& after == k.update(st.at, st.after)
                &&& cmds == st.cmds
            } else {
                &&& rounds[0].len() == 0
                &&& forall|j: int| 0 <= j < k.len() ==> !due(#[trigger] &k[j], tick)
                &&& after == k
                &&& cmds == Seq::<CommandView>::empty()
            }
        },
        ChildPolicy::Repeat(until, max) => {
            &&& rounds.len() <= max
            &&& rounds_ok(p, until, k, rounds, tick, w)
            &&& after == state_after(k, rounds)
            &&& cmds == rounds_cmds(rounds)
            &&& (rounds.len() == max || value(until, statuses_of(after)))
        },
        _ => {
            &&& rounds.len() == 1
            &&& steps_ok(p, k, rounds[0], tick, w)
            &&& round_done(p, k, rounds[0])
            &&& after == round_end(k, rounds[0])
            &&& cmds == steps_cmds(rounds[0])
        },
    }
}

/// `b` begins with `a`.
pub open spec fn extends(a: Seq<CommandView>, b: Seq<CommandView>) -> bool {
    &&& a.len() <= b.len()
    &&& forall|i: int| 0 <= i < a.len() ==> #[trigger] b[i] == a[i]
}

/// Picks the child a max-utility node runs: the first of highest utility
/// among those that may run (ties go to the earlier child).
pub fn max_util_pick(utils: &Vec<Option<u32>>) -> (r: Option<usize>)
    ensures
        r is None <==> forall|i: int| 0 <= i < utils@.len() ==> #[trigger] utils@[i] is None,
        r matches Some(k) ==> {
            &&& k < utils@.len()
            &&& utils@[k as int] is Some
            &&& forall|j: int| 0 <= j < utils@.len() && #[trigger] utils@[j] is Some
                ==> utils@[j]->0 <= utils@[k as int]->0
            &&& forall|j: int| 0 <= j < k && #[trigger] utils@[j] is Some
                ==> utils@[j]->0 < utils@[k as int]->0
        },
{
    let mut best: Option<usize> = None;
    let mut i: usize = 0;
    while i < utils.len()
        invariant
            i <= utils@.len(),
            best is None <==> forall|j: int| 0 <= j < i ==> #[trigger] utils@[j] is None,
            best matches Some(k) ==> {
                &&& k < i
                &&& utils@[k as int] is Some
                &&& forall|j: int| 0 <= j < i && #[trigger] utils@[j] is Some
                    ==> utils@[j]->0 <= utils@[k as int]->0
                &&& forall|j: int| 0 <= j < k && #[trigger] utils@[j] is Some
                    ==> utils@[j]->0 < utils@[k as int]->0
            },
        decreases utils@.len() - i,
    {
        match utils[i] {
            Some(u) => {
                match best {
                    Some(k) => {
                        match utils[k] {
                            Some(bu) => {
                                if u > bu {
                                    best = Some(i);
                                }
                            },
                            None => {},
                        }
                    },
                    None => {
                        best = Some(i);
                    },
                }
            },
            None => {},
        }
        i = i + 1;
    }
    best
}

impl Behaviours {
    /// The utility score a max-utility parent weighs this behaviour by. No
    /// behaviour of this strategy defines one, so all score zero and the
    /// earliest child wins.
    pub fn utility(&self) -> (r: u32)
        ensures
            r == 0,
    {
        0
    }
}

/// The orders given after `a`: what `b` holds past its first `a.len()`.
pub open spec fn tail_of(a: Seq<CommandView>, b: Seq<CommandView>) -> Seq<CommandView> {
    b.subrange(a.len() as int, b.len() as int)
}

proof fn lemma_tail_join(a: Seq<CommandView>, b: Seq<CommandView>, c: Seq<CommandView>)
    requires
        extends(a, b),
        extends(b, c),
    ensures
        extends(a, c),
        tail_of(a, c) == tail_of(a, b) + tail_of(b, c),
        b == a + tail_of(a, b),
{
    assert(tail_of(a, c) =~= tail_of(a, b) + tail_of(b, c));
    assert(b =~= a + tail_of(a, b));
}

proof fn lemma_tail_self(a: Seq<CommandView>)
    ensures
        extends(a, a),
        tail_of(a, a) == Seq::<CommandView>::empty(),
{
    assert(tail_of(a, a) =~= Seq::<CommandView>::empty());
}

proof fn lemma_tail_add(a: Seq<CommandView>, x: Seq<CommandView>)
    ensures
        extends(a, a + x),
        tail_of(a, a + x) == x,
{
    assert(tail_of(a, a + x) =~= x);
}

impl Plan {
    /// Runs this plan for `tick`, if it is due, by the protocol that `ran`
    /// states: the entry hook the first time, then the pre-run hook, then the
    /// children (each by the same protocol, as the behaviour decides), then
    /// the run hook. Orders for the host are appended to `out`.
    pub fn run(&mut self, tick: u64, world: &World, out: &mut Vec<Command>)
        requires
            old(self).tree_wf(),
        ensures
            final(self).tree_wf(),
            extends(commands_view(old(out)@), commands_view(final(out)@)),
            exists|t: RunTrace| ran(
                t,
                *old(self),
                tick,
                *world,
                *final(self),
                tail_of(commands_view(old(out)@), commands_view(final(out)@)),
            ),
    {
        proof {
            lemma_reach_nonneg(*self);
        }
        let ghost budget = reach(*self) as nat;
        let t = self.run_within(tick, world, out, Ghost(budget));
        assert(ran(t@, *old(self), tick, *world, *self, tail_of(commands_view(old(out)@), commands_view(out@))));
    }

    fn run_within(&mut self, tick: u64, world: &World, out: &mut Vec<Command>, budget: Ghost<nat>) -> (t: Ghost<RunTrace>)
        requires
            old(self).tree_wf(),
            reach(*old(self)) <= budget@,
        ensures
            final(self).tree_wf(),
            extends(commands_view(old(out)@), commands_view(final(out)@)),
            ran(
                t@,
                *old(self),
                tick,
                *world,
                *final(self),
                tail_of(commands_view(old(out)@), commands_view(final(out)@)),
            ),
            reach(*final(self)) <= reach(*old(self)),
        decreases budget@, 4nat,
    {
        let ghost b = *self;
        let ghost w = *world;
        let ghost out0 = commands_view(out@);
        if !self.enabled || tick % (self.period as u64) != 0 {
            proof {
                lemma_tail_self(out0);
            }
            return Ghost(RunTrace::Idle);
        }
        if !self.active {
            self.enter(world, out);
        } else {
            proof {
                lemma_tail_self(out0);
                assert(entry_children(b, w, b.children@));
            }
        }
        let ghost out1 = commands_view(out@);
        let ghost k = self.children@;
        match &mut self.behaviour {
            Behaviours::RootBehaviour(r) => r.on_pre_run(world, out),
            _ => {},
        }
        let ghost pre = *self;
        let ghost out2 = commands_view(out@);
        proof {
            assert(tree_wf(*self));
            lemma_reach_nonneg(*self);
            if !(pre.behaviour is RootBehaviour) {
                lemma_tail_self(out2);
            } else {
                lemma_tail_add(out1, tail_of(out1, out2));
            }
        }
        let rounds = self.run_children(tick, world, out, budget);
        let ghost passed = *self;
        let ghost out3 = commands_view(out@);
        match &mut self.behaviour {
            Behaviours::HarvestBehaviour(h) => h.on_run(world, out),
            Behaviours::AttackBehaviour(a) => a.on_run(world, out),
            _ => {},
        }
        let ghost out4 = commands_view(out@);
        let ghost t = RunTrace::Ran { children: k, rounds: rounds@ };
        proof {
            assert(tree_wf(*self)) by {
                assert(self.children@ == passed.children@);
            }
            if !(self.behaviour is HarvestBehaviour) && !(self.behaviour is AttackBehaviour) {
                lemma_tail_self(out4);
            } else {
                assert(out4 =~= out3 + tail_of(out3, out4));
            }
            lemma_tail_join(out0, out1, out2);
            lemma_tail_join(out0, out2, out3);
            lemma_tail_join(out0, out3, out4);
            let a = *self;
            let cmds = tail_of(out0, out4);
            let lead = leading_orders(b, w, a);
            let trail = trailing_orders(w, a);
            assert(policy_of(pre.behaviour_view()) == policy_of(b.behaviour_view()));
            assert(tail_of(out0, out2) == lead);
            assert(tail_of(out3, out4) == trail);
            assert(cmds.subrange(0, lead.len() as int) =~= lead);
            assert(cmds.subrange(cmds.len() - trail.len(), cmds.len() as int) =~= trail);
            assert(cmds.subrange(lead.len() as int, cmds.len() - trail.len()) =~= tail_of(out2, out3));
            assert(entry_children(b, w, k));
            assert(behaviour_ran(b, w, a));
        }
        Ghost(t)
    }

    /// The entry hook: a root creates its "harvest" and "attack" children
    /// where those names are free (and orders a harvester for a new
    /// "harvest" child); every plan is marked entered.
    fn enter(&mut self, world: &World, out: &mut Vec<Command>)
        requires
            old(self).tree_wf(),
            !old(self).active_view(),
        ensures
            final(self).tree_wf(),
            final(self).active_view(),
            final(self).name_view() == old(self).name_view(),
            final(self).period_view() == old(self).period_view(),
            final(self).enabled_view() == old(self).enabled_view(),
            commands_view(final(out)@) == commands_view(old(out)@) + entry_orders(*old(self), *world),
            entry_children(*old(self), *world, final(self).children_view()),
            reach(*final(self)) <= reach(*old(self)),
            !(old(self).behaviour_view() is RootBehaviour) ==> final(self).behaviour_view() == old(self).behaviour_view(),
            old(self).behaviour_view() matches Behaviours::RootBehaviour(rb) ==> (final(self).behaviour_view() matches Behaviours::RootBehaviour(ra)
                && ra.my_spawn == last_spawn(world.spawns@, true) && ra.op_spawn == last_spawn(world.spawns@, false)
                && ra.attack_parts@ == attacker_body()),
    {
        let ghost k = reach_all(self.children@);
        let ghost bc = self.children@;
        proof {
            lemma_reach_all_floor(self.children@);
            reveal_strlit("harvest");
            reveal_strlit("attack");
        }
        let hname = String::from_str("harvest");
        let aname = String::from_str("attack");
        assert(hname@ =~= harvest_route());
        assert(aname@ =~= attack_route());
        let harvest_free = match self.position(&hname) {
            Some(_) => false,
            None => true,
        };
        let attack_free = match self.position(&aname) {
            Some(_) => false,
            None => true,
        };
        let fresh = match &mut self.behaviour {
            Behaviours::RootBehaviour(r) => Some(r.on_entry(world, out, harvest_free)),
            _ => None,
        };
        self.active = true;
        match fresh {
            Some((h, a)) => {
                assert(reach(h) == 0) by {
                    assert(reach_all(h.children@) == -1);
                }
                assert(reach(a) == 0) by {
                    assert(reach_all(a.children@) == -1);
                }
                if harvest_free {
                    let ghost cs0 = self.children@;
                    let inserted = self.insert(h);
                    assert(inserted is Ok);
                    proof {
                        lemma_reach_all_push(cs0, h);
                    }
                }
                let ghost cs1 = self.children@;
                if attack_free {
                    proof {
                        assert(!has_child(cs1, attack_route())) by {
                            if has_child(cs1, attack_route()) {
                                let j = choose|j: int| 0 <= j < cs1.len() && (#[trigger] cs1[j]).name_view() == attack_route();
                                if j < bc.len() {
                                    assert(cs1[j] == bc[j]);
                                } else {
                                    assert(harvest_route().len() != attack_route().len());
                                }
                            }
                        }
                    }
                    let inserted = self.insert(a);
                    assert(inserted is Ok);
                    proof {
                        lemma_reach_all_push(cs1, a);
                    }
                }
                proof {
                    let at = bc.len() + if harvest_free { 1int } else { 0int };
                    assert(self.children@.subrange(0, bc.len() as int) =~= bc);
                    if harvest_free {
                        assert(self.children@[bc.len() as int] == h);
                    }
                    if attack_free {
                        assert(self.children@[at] == a);
                    }
                }
            },
            None => {},
        }
    }

    /// Runs the children by the behaviour's policy: a max-utility node only
    /// its first due child (no behaviour here defines a utility, so all tie);
    /// a repeat node whole passes until its stop predicate holds or its
    /// passes are used up; every other node one pass.
    fn run_children(&mut self, tick: u64, world: &World, out: &mut Vec<Command>, budget: Ghost<nat>) -> (rounds: Ghost<Seq<Seq<Step>>>)
        requires
            old(self).tree_wf(),
            old(self).active_view(),
            reach(*old(self)) <= budget@,
        ensures
            final(self).tree_wf(),
            final(self).same_node(old(self)),
            final(self).children_view().len() == old(self).children_view().len(),
            names_of(final(self).children_view()) == names_of(old(self).children_view()),
            extends(commands_view(old(out)@), commands_view(final(out)@)),
            reach(*final(self)) <= reach(*old(self)),
            children_ran(
                policy_of(old(self).behaviour_view()),
                old(self).children_view(),
                rounds@,
                tick,
                *world,
                final(self).children_view(),
                tail_of(commands_view(old(out)@), commands_view(final(out)@)),
            ),
        decreases budget@, 3nat,
    {
        let ghost orig = *self;
        let ghost out0 = commands_view(out@);
        let ghost w = *world;
        let ghost pol = policy_of(orig.behaviour_view());
        let ghost k = orig.children_view();
        match &self.behaviour {
            Behaviours::MaxUtilBehaviour => {
                let mut utils: Vec<Option<u32>> = Vec::new();
                let mut i: usize = 0;
                while i < self.children.len()
                    invariant
                        i <= self.children@.len(),
                        utils@.len() == i,
                        tree_wf(*self),
                        forall|j: int| 0 <= j < i ==> #[trigger] utils@[j] == if due(&self.children@[j], tick) {
                            Some(0u32)
                        } else {
                            None
                        },
                    decreases self.children@.len() - i,
                {
                    assert(tree_wf(self.children@[i as int]));
                    let c = &self.children[i];
                    if c.enabled && tick % (c.period as u64) == 0 {
                        utils.push(Some(c.behaviour.utility()));
                    } else {
                        utils.push(None);
                    }
                    i = i + 1;
                }
                match max_util_pick(&utils) {
                    Some(p) => {
                        proof {
                            assert(utils@[p as int] == Some(0u32));
                            assert forall|j: int| 0 <= j < p implies !due(#[trigger] &k[j], tick) by {
                                if due(&k[j], tick) {
                                    assert(utils@[j] is Some);
                                }
                            }
                            assert(first_due(k, tick, p as int));
                        }
                        let (_, st) = self.run_child(p, tick, world, out, budget);
                        let ghost step = Step {
                            at: p as int,
                            after: self.children@[p as int],
                            cmds: tail_of(out0, commands_view(out@)),
                            trace: st@,
                        };
                        proof {
                            assert(self.children@ =~= k.update(p as int, step.after));
                        }
                        let ghost rs = seq![seq![step]];
                        Ghost(rs)
                    },
                    None => {
                        proof {
                            assert forall|j: int| 0 <= j < k.len() implies !due(#[trigger] &k[j], tick) by {
                                assert(utils@[j] is None);
                            }
                            lemma_tail_self(out0);
                        }
                        let ghost rs = seq![Seq::<Step>::empty()];
                        Ghost(rs)
                    },
                }
            },
            Behaviours::RepeatBehaviour(r) => {
                let max = r.max_passes;
                let ghost until = r.until;
                let st0 = child_statuses(&self.children);
                let mut stop = match &self.behaviour {
                    Behaviours::RepeatBehaviour(r) => r.until.evaluate(&st0),
                    _ => true,
                };
                let mut pass: u32 = 0;
                let ghost mut rounds: Seq<Seq<Step>> = Seq::empty();
                proof {
                    lemma_tail_self(out0);
                }
                while pass < max && !stop
                    invariant
                        self.tree_wf(),
                        self.active_view(),
                        self.same_node(&orig),
                        self.children_view().len() == k.len(),
                        names_of(self.children_view()) == names_of(k),
                        extends(out0, commands_view(out@)),
                        reach(*self) <= reach(orig),
                        reach(orig) <= budget@,
                        pass <= max,
                        rounds.len() == pass,
                        pol == ChildPolicy::Repeat(until, max),
                        pol == policy_of(orig.behaviour_view()),
                        orig.behaviour_view() matches Behaviours::RepeatBehaviour(r0) && r0.until == until,
                        w == *world,
                        k == orig.children_view(),
                        stop == value(until, statuses_of(self.children_view())),
                        rounds_ok(pol, until, k, rounds, tick, w),
                        self.children_view() == state_after(k, rounds),
                        tail_of(out0, commands_view(out@)) == rounds_cmds(rounds),
                    decreases max - pass,
                {
                    let ghost o_mid = commands_view(out@);
                    let ghost prev_rounds = rounds;
                    let ghost mid = self.children@;
                    assert(!value(until, statuses_of(mid)));
                    assert(policy_of(self.behaviour_view()) == pol);
                    assert(self.children_view() == mid);
                    let steps = self.run_pass(tick, world, out, budget);
                    proof {
                        lemma_tail_join(out0, o_mid, commands_view(out@));
                        rounds = rounds.push(steps@);
                        assert(rounds.drop_last() =~= prev_rounds);
                        assert(rounds.last() == steps@);
                        assert(state_after(k, rounds.drop_last()) == mid);
                        assert(steps_ok(pol, mid, steps@, tick, w));
                        assert(round_done(pol, mid, steps@));
                        assert(rounds_ok(pol, until, k, prev_rounds, tick, w));
                    }
                    pass = pass + 1;
                    let st = child_statuses(&self.children);
                    stop = match &self.behaviour {
                        Behaviours::RepeatBehaviour(r) => r.until.evaluate(&st),
                        _ => true,
                    };
                }
                Ghost(rounds)
            },
            _ => {
                let steps = self.run_pass(tick, world, out, budget);
                let ghost rs = seq![steps@];
                Ghost(rs)
            },
        }
    }

    /// Runs the children in order, each by the full protocol, and stops
    /// early where the behaviour does not go on past a child's status.
    fn run_pass(&mut self, tick: u64, world: &World, out: &mut Vec<Command>, budget: Ghost<nat>) -> (steps: Ghost<Seq<Step>>)
        requires
            old(self).tree_wf(),
            old(self).active_view(),
            reach(*old(self)) <= budget@,
        ensures
            final(self).tree_wf(),
            final(self).same_node(old(self)),
            final(self).children_view().len() == old(self).children_view().len(),
            names_of(final(self).children_view()) == names_of(old(self).children_view()),
            extends(commands_view(old(out)@), commands_view(final(out)@)),
            reach(*final(self)) <= reach(*old(self)),
            steps_ok(policy_of(old(self).behaviour_view()), old(self).children_view(), steps@, tick, *world),
            round_done(policy_of(old(self).behaviour_view()), old(self).children_view(), steps@),
            final(self).children_view() == round_end(old(self).children_view(), steps@),
            tail_of(commands_view(old(out)@), commands_view(final(out)@)) == steps_cmds(steps@),
        decreases budget@, 2nat,
    {
        let ghost orig = *self;
        let ghost out0 = commands_view(out@);
        let ghost w = *world;
        let ghost pol = policy_of(orig.behaviour_view());
        let ghost k = orig.children_view();
        let ghost mut steps: Seq<Step> = Seq::empty();
        let n = self.children.len();
        let mut i: usize = 0;
        proof {
            lemma_tail_self(out0);
            assert(self.children@ =~= round_end(k, steps));
        }
        while i < n
            invariant
                n == k.len(),
                i <= n,
                self.tree_wf(),
                self.active_view(),
                self.same_node(&orig),
                self.children_view().len() == k.len(),
                names_of(self.children_view()) == names_of(k),
                extends(out0, commands_view(out@)),
                reach(*self) <= reach(orig),
                reach(orig) <= budget@,
                steps.len() == i,
                steps_ok(pol, k, steps, tick, w),
                i > 0 ==> policy_goes_on(pol, plan_status(steps[i - 1].after)),
                self.children_view() == round_end(k, steps),
                tail_of(out0, commands_view(out@)) == steps_cmds(steps),
                orig == *old(self),
                out0 == commands_view(old(out)@),
                w == *world,
                pol == policy_of(orig.behaviour_view()),
                k == orig.children_view(),
            decreases n - i,
        {
            let ghost prev = self.children@;
            let ghost o_prev = commands_view(out@);
            let ghost prev_steps = steps;
            let (s, st) = self.run_child(i, tick, world, out, budget);
            proof {
                lemma_tail_join(out0, o_prev, commands_view(out@));
                let step = Step {
                    at: i as int,
                    after: self.children@[i as int],
                    cmds: tail_of(o_prev, commands_view(out@)),
                    trace: st@,
                };
                assert(prev[i as int] == k[i as int]);
                steps = steps.push(step);
                assert(steps.drop_last() =~= prev_steps);
                assert(self.children@ =~= round_end(k, steps));
            }
            if !self.behaviour.goes_on(s) {
                return Ghost(steps);
            }
            i = i + 1;
        }
        Ghost(steps)
    }

    /// Runs child `i` and gives its status afterwards, with the record of its run.
    fn run_child(&mut self, i: usize, tick: u64, world: &World, out: &mut Vec<Command>, budget: Ghost<nat>) -> (r: (Option<bool>, Ghost<RunTrace>))
        requires
            old(self).tree_wf(),
            old(self).active_view(),
            i < old(self).children_view().len(),
            reach(*old(self)) <= budget@,
        ensures
            final(self).tree_wf(),
            final(self).same_node(old(self)),
            final(self).children_view().len() == old(self).children_view().len(),
            names_of(final(self).children_view()) == names_of(old(self).children_view()),
            extends(commands_view(old(out)@), commands_view(final(out)@)),
            reach(*final(self)) <= reach(*old(self)),
            r.0 == plan_status(final(self).children_view()[i as int]),
            final(self).children_view() == old(self).children_view().update(i as int, final(self).children_view()[i as int]),
            ran(
                r.1@,
                old(self).children_view()[i as int],
                tick,
                *world,
                final(self).children_view()[i as int],
                tail_of(commands_view(old(out)@), commands_view(final(out)@)),
            ),
        decreases budget@, 0nat,
    {
        let ghost cs = self.children@;
        proof {
            lemma_reach_all_bounds(cs, i as int);
            lemma_reach_nonneg(cs[i as int]);
            assert(tree_wf(cs[i as int]));
        }
        let ghost inner = (budget@ - 1) as nat;
        let t = self.children[i].run_within(tick, world, out, Ghost(inner));
        proof {
            lemma_reach_all_update(cs, i as int, self.children@[i as int]);
            assert(self.children@ == cs.update(i as int, self.children@[i as int]));
            assert forall|a: int, b: int| 0 <= a < b < self.children@.len() implies
                (#[trigger] self.children@[a]).name_view() != (#[trigger] self.children@[b]).name_view() by {
                assert(cs[a].name_view() != cs[b].name_view());
            }
            assert forall|j: int| 0 <= j < self.children@.len() implies tree_wf(#[trigger] self.children@[j]) by {
                if j != i {
                    assert(tree_wf(cs[j]));
                }
            }
            assert(names_of(self.children@) =~= names_of(cs));
        }
        (self.children[i].status(), t)
    }
}

/// A run keeps the name of the plan.
proof fn lemma_ran_keeps_name(t: RunTrace, b: Plan, tick: u64, w: World, a: Plan, cmds: Seq<CommandView>)
    requires
        ran(t, b, tick, w, a, cmds),
    ensures
        a.name_view() == b.name_view(),
{
}

/// A pass keeps the name of every child.
proof fn lemma_steps_keep_names(p: ChildPolicy, start: Seq<Plan>, steps: Seq<Step>, tick: u64, w: World)
    requires
        steps_ok(p, start, steps, tick, w),
    ensures
        names_of(round_end(start, steps)) == names_of(start),
    decreases steps.len(),
{
    if steps.len() > 0 {
        let n = steps.len() - 1;
        lemma_steps_keep_names(p, start, steps.drop_last(), tick, w);
        lemma_ran_keeps_name(steps[n].trace, start[n], tick, w, steps[n].after, steps[n].cmds);
        assert forall|j: int| 0 <= j < start.len() implies #[trigger] round_end(start, steps)[j].name_view()
            == start[j].name_view() by {
            if j < n {
                assert(round_end(start, steps)[j] == round_end(start, steps.drop_last())[j]);
                assert(names_of(round_end(start, steps.drop_last()))[j] == names_of(start)[j]);
            }
        }
        assert(names_of(round_end(start, steps)) =~= names_of(start));
    }
}

/// A root run while due and not yet entered ends its run holding a child
/// named "harvest" and one named "attack" (so `get` and `get_mut` find
/// them), while the children it had keep their names and places.
pub proof fn law_root_entry_children(t: RunTrace, b: Plan, tick: u64, w: World, a: Plan, cmds: Seq<CommandView>)
    requires
        ran(t, b, tick, w, a, cmds),
        due(&b, tick),
        enters_root(b),
    ensures
        has_child(a.children_view(), harvest_route()),
        has_child(a.children_view(), attack_route()),
        a.children_view().len() >= b.children_view().len(),
        forall|j: int| 0 <= j < b.children_view().len()
            ==> (#[trigger] a.children_view()[j]).name_view() == b.children_view()[j].name_view(),
{
    match t {
        RunTrace::Ran { children: k, rounds } => {
            let bc = b.children_view();
            assert(policy_of(b.behaviour_view()) == ChildPolicy::Every);
            lemma_steps_keep_names(ChildPolicy::Every, k, rounds[0], tick, w);
            let ac = a.children_view();
            assert(ac == round_end(k, rounds[0]));
            assert forall|j: int| 0 <= j < k.len() implies #[trigger] ac[j].name_view() == k[j].name_view() by {
                assert(names_of(ac)[j] == names_of(k)[j]);
            }
            assert forall|j: int| 0 <= j < bc.len() implies (#[trigger] ac[j]).name_view() == bc[j].name_view() by {
                assert(k.subrange(0, bc.len() as int)[j] == k[j]);
            }
            if has_child(bc, harvest_route()) {
                let j = choose|j: int| 0 <= j < bc.len() && (#[trigger] bc[j]).name_view() == harvest_route();
                assert(ac[j].name_view() == harvest_route());
            } else {
                assert(ac[bc.len() as int].name_view() == harvest_route());
            }
            if has_child(bc, attack_route()) {
                let j = choose|j: int| 0 <= j < bc.len() && (#[trigger] bc[j]).name_view() == attack_route();
                assert(ac[j].name_view() == attack_route());
            } else {
                let at = bc.len() + if has_child(bc, harvest_route()) { 0int } else { 1int };
                assert(ac[at].name_view() == attack_route());
            }
        },
        RunTrace::Idle => {},
    }
}

/// Inserting plans with pairwise distinct names one after another into a
/// node without children: each insertion finds its name free (so succeeds),
/// the children are then those plans in order, and each is found by its
/// name at its own position, so a repeated name is always taken.
pub proof fn law_distinct_inserts_found(ps: Seq<Plan>)
    requires
        names_unique(ps),
    ensures
        forall|k: int| 0 <= k < ps.len() ==> !has_child(#[trigger] ps.subrange(0, k), ps[k].name_view()),
        forall|k: int| 0 <= k < ps.len() ==> has_child(ps, (#[trigger] ps[k]).name_view())
            && index_of(ps, ps[k].name_view()) == k,
{
    assert forall|k: int| 0 <= k < ps.len() implies !has_child(#[trigger] ps.subrange(0, k), ps[k].name_view()) by {
        if has_child(ps.subrange(0, k), ps[k].name_view()) {
            let i = choose|i: int| 0 <= i < k && (#[trigger] ps.subrange(0, k)[i]).name_view() == ps[k].name_view();
            assert(ps.subrange(0, k)[i] == ps[i]);
        }
    }
    assert forall|k: int| 0 <= k < ps.len() implies has_child(ps, (#[trigger] ps[k]).name_view())
        && index_of(ps, ps[k].name_view()) == k by {
        assert(ps[k].name_view() == ps[k].name_view());
        let i = index_of(ps, ps[k].name_view());
        if i != k {
            if i < k {
                assert(ps[i].name_view() != ps[k].name_view());
            } else {
                assert(ps[k].name_view() != ps[i].name_view());
            }
        }
    }
}

} // verus!

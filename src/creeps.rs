use vstd::prelude::*;

use crate::game_helpers::{creep_key, Creep};

verus! {

/// Whether a tracked sequence holds an entry with id `k`.
pub open spec fn tracks(e: Seq<Creep>, k: u64) -> bool {
    exists|i: int| 0 <= i < e.len() && creep_key(#[trigger] e[i]) == Some(k)
}

/// The position of the entry with id `k` in `e`.
pub open spec fn key_index(e: Seq<Creep>, k: u64) -> int {
    choose|i: int| 0 <= i < e.len() && creep_key(#[trigger] e[i]) == Some(k)
}

/// Every entry has a stable id, and no two entries share one.
pub open spec fn keyed(e: Seq<Creep>) -> bool {
    &&& forall|i: int| 0 <= i < e.len() ==> (#[trigger] creep_key(e[i])) is Some
    &&& forall|i: int, j: int|
        0 <= i < j < e.len() ==> creep_key(#[trigger] e[i]) != creep_key(#[trigger] e[j])
}

/// The entries after offering `c`: it is added when it has an id that is
/// not tracked yet; the first entry seen for an id is kept.
pub open spec fn offer(e: Seq<Creep>, c: Creep) -> Seq<Creep> {
    match creep_key(c) {
        Some(k) => if tracks(e, k) { e } else { e.push(c) },
        None => e,
    }
}

/// The entries after offering each of `s` in order.
pub open spec fn offer_all(e: Seq<Creep>, s: Seq<Creep>) -> Seq<Creep>
    decreases s.len(),
{
    if s.len() == 0 {
        e
    } else {
        offer(offer_all(e, s.drop_last()), s.last())
    }
}

/// Whether the host reports `c` as existing, given the handles it reports.
pub open spec fn is_alive(c: Creep, live: Seq<u64>) -> bool {
    live.contains(c.handle)
}

/// The entries of `s` that exist, in order.
pub open spec fn survivors(s: Seq<Creep>, live: Seq<u64>) -> Seq<Creep>
    decreases s.len(),
{
    if s.len() == 0 {
        s
    } else if is_alive(s.last(), live) {
        survivors(s.drop_last(), live).push(s.last())
    } else {
        survivors(s.drop_last(), live)
    }
}

/// The tracked entries after one reconciliation pass: the existing entries
/// that still exist, then the spawning handles that now exist, offered in order.
pub open spec fn reconciled(existing: Seq<Creep>, spawning: Seq<Creep>, live: Seq<u64>) -> Seq<Creep> {
    offer_all(survivors(existing, live), survivors(spawning, live))
}

/// The entity registry: handles requested but not yet confirmed, and
/// confirmed handles keyed by their stable id.
pub struct Creeps {
    existing: Vec<Creep>,
    spawning: Vec<Creep>,
}

impl Creeps {
    /// The confirmed entries, first seen first.
    pub closed spec fn existing_view(&self) -> Seq<Creep> {
        self.existing@
    }

    /// The handles waiting for confirmation, in request order.
    pub closed spec fn spawning_view(&self) -> Seq<Creep> {
        self.spawning@
    }

    /// The registry's invariant: confirmed entries are keyed uniquely.
    pub open spec fn wf(&self) -> bool {
        keyed(self.existing_view())
    }

    /// An empty registry.
    pub fn new() -> (r: Creeps)
        ensures
            r.wf(),
            r.existing_view() == Seq::<Creep>::empty(),
            r.spawning_view() == Seq::<Creep>::empty(),
    {
        Creeps { existing: Vec::new(), spawning: Vec::new() }
    }

    /// A registry whose spawning list holds `spawning`, with nothing confirmed.
    pub fn with_spawning(spawning: Vec<Creep>) -> (r: Creeps)
        ensures
            r.wf(),
            r.existing_view() == Seq::<Creep>::empty(),
            r.spawning_view() == spawning@,
    {
        Creeps { existing: Vec::new(), spawning }
    }

    /// The confirmed entries.
    pub fn existing(&self) -> (r: &Vec<Creep>)
        ensures
            r@ == self.existing_view(),
    {
        &self.existing
    }

    /// The handles waiting for confirmation.
    pub fn spawning(&self) -> (r: &Vec<Creep>)
        ensures
            r@ == self.spawning_view(),
    {
        &self.spawning
    }

    /// The position of the entry with id `k`, if any.
    fn position_of(&self, k: u64) -> (r: Option<usize>)
        requires
            self.wf(),
        ensures
            r is None <==> !tracks(self.existing_view(), k),
            r matches Some(i) ==> i < self.existing_view().len()
                && creep_key(self.existing_view()[i as int]) == Some(k),
    {
        let mut i: usize = 0;
        while i < self.existing.len()
            invariant
                i <= self.existing@.len(),
                forall|j: int| 0 <= j < i ==> creep_key(#[trigger] self.existing@[j]) != Some(k),
            decreases self.existing@.len() - i,
        {
            match self.existing[i].id {
                crate::game_helpers::IdValue::Number(n) => {
                    if n == k {
                        return Some(i);
                    }
                },
                _ => {},
            }
            i = i + 1;
        }
        None
    }

    /// Offers `creep` to the confirmed entries and gives the position of
    /// the entry for its id, if it has one.
    fn offer_creep(&mut self, creep: Creep) -> (r: Option<usize>)
        requires
            old(self).wf(),
        ensures
            final(self).wf(),
            final(self).existing_view() == offer(old(self).existing_view(), creep),
            final(self).spawning_view() == old(self).spawning_view(),
            r is None <==> creep_key(creep) is None,
            r matches Some(i) ==> i < final(self).existing_view().len()
                && creep_key(final(self).existing_view()[i as int]) == creep_key(creep),
    {
        match creep.id {
            crate::game_helpers::IdValue::Number(k) => {
                match self.position_of(k) {
                    Some(i) => Some(i),
                    None => {
                        let ghost e = self.existing@;
                        self.existing.push(creep);
                        assert forall|i: int, j: int|
                            0 <= i < j < self.existing@.len() implies creep_key(
                                #[trigger] self.existing@[i],
                            ) != creep_key(#[trigger] self.existing@[j]) by {
                            if j == e.len() {
                                assert(creep_key(e[i]) != Some(k));
                            }
                        }
                        Some(self.existing.len() - 1)
                    },
                }
            },
            _ => None,
        }
    }

    /// Tracks a confirmed handle under its stable id and gives the entry
    /// for that id, for changing in place: the earlier one where the id was
    /// tracked already. A handle without a usable id is dropped and `None`
    /// comes back. The registry stays well formed as long as the entry keeps
    /// its id.
    pub fn add_creep(&mut self, creep: Creep) -> (r: Option<&mut Creep>)
        requires
            old(self).wf(),
        ensures
            final(self).spawning_view() == old(self).spawning_view(),
            r is None <==> creep_key(creep) is None,
            r is None ==> final(self).existing_view() == old(self).existing_view() && final(self).wf(),
            r matches Some(c) ==> {
                let e = offer(old(self).existing_view(), creep);
                let i = key_index(e, creep_key(creep)->0);
                &&& 0 <= i < e.len()
                &&& *c == e[i]
                &&& creep_key(*c) == creep_key(creep)
                &&& final(self).existing_view() == e.update(i, *final(c))
                &&& creep_key(*final(c)) == creep_key(creep) ==> final(self).wf()
            },
    {
        match self.offer_creep(creep) {
            Some(i) => {
                let ghost e = self.existing@;
                proof {
                    let k = creep_key(creep)->0;
                    let j = key_index(e, k);
                    assert(creep_key(e[i as int]) == Some(k));
                    if j != i as int {
                        if j < i {
                            assert(creep_key(e[j]) != creep_key(e[i as int]));
                        } else {
                            assert(creep_key(e[i as int]) != creep_key(e[j]));
                        }
                    }
                }
                let c = &mut self.existing[i];
                Some(c)
            },
            None => None,
        }
    }

    /// Tracks a confirmed handle as `add_creep` does and gives a copy of
    /// the entry for its id.
    pub fn add_creep_copy(&mut self, creep: Creep) -> (r: Option<Creep>)
        requires
            old(self).wf(),
        ensures
            final(self).wf(),
            final(self).existing_view() == offer(old(self).existing_view(), creep),
            final(self).spawning_view() == old(self).spawning_view(),
            r is None <==> creep_key(creep) is None,
            r matches Some(c) ==> creep_key(c) == creep_key(creep) && final(self).existing_view().contains(c),
    {
        match self.offer_creep(creep) {
            Some(i) => Some(self.existing[i]),
            None => None,
        }
    }

    /// Records a spawn request; requests are never merged.
    pub fn add_spawning(&mut self, creep: Creep)
        ensures
            final(self).existing_view() == old(self).existing_view(),
            final(self).spawning_view() == old(self).spawning_view().push(creep),
    {
        self.spawning.push(creep);
    }

    /// One reconciliation pass against the handles that the host reports as
    /// existing: confirmed entries that no longer exist are purged, spawning
    /// handles that exist are tracked under their id, the others are dropped.
    /// Gives the number of handles left spawning.
    pub fn check_existence(&mut self, live: &Vec<u64>) -> (n: usize)
        requires
            old(self).wf(),
        ensures
            final(self).wf(),
            final(self).existing_view() == reconciled(
                old(self).existing_view(),
                old(self).spawning_view(),
                live@,
            ),
            final(self).spawning_view() == Seq::<Creep>::empty(),
            n == final(self).spawning_view().len(),
    {
        let ghost old_existing = self.existing@;
        let ghost old_spawning = self.spawning@;
        let mut kept: Vec<Creep> = Vec::new();
        let mut i: usize = 0;
        while i < self.existing.len()
            invariant
                self.existing@ == old_existing,
                keyed(old_existing),
                i <= old_existing.len(),
                kept@ == survivors(old_existing.subrange(0, i as int), live@),
            decreases old_existing.len() - i,
        {
            let c = self.existing[i];
            let ghost pre = old_existing.subrange(0, i as int);
            assert(old_existing.subrange(0, i + 1).drop_last() =~= pre);
            if contains_handle(live, c.handle) {
                kept.push(c);
            }
            i = i + 1;
        }
        assert(old_existing.subrange(0, i as int) =~= old_existing);
        proof {
            lemma_survivors_keyed(old_existing, live@);
        }
        self.existing = kept;
        let spawning = take_all(&mut self.spawning);
        let mut j: usize = 0;
        while j < spawning.len()
            invariant
                spawning@ == old_spawning,
                self.wf(),
                self.spawning@ == Seq::<Creep>::empty(),
                j <= old_spawning.len(),
                self.existing@ == offer_all(
                    survivors(old_existing, live@),
                    survivors(old_spawning.subrange(0, j as int), live@),
                ),
            decreases old_spawning.len() - j,
        {
            let c = spawning[j];
            let ghost pre = old_spawning.subrange(0, j as int);
            assert(old_spawning.subrange(0, j + 1).drop_last() =~= pre);
            let ghost next = old_spawning.subrange(0, j + 1);
            assert(next.last() == c);
            if contains_handle(live, c.handle) {
                self.offer_creep(c);
                assert(survivors(next, live@) == survivors(pre, live@).push(c));
                assert(survivors(pre, live@).push(c).drop_last() =~= survivors(pre, live@));
            } else {
                assert(survivors(next, live@) == survivors(pre, live@));
            }
            j = j + 1;
        }
        assert(old_spawning.subrange(0, j as int) =~= old_spawning);
        self.spawning.len()
    }
}

impl Default for Creeps {
    fn default() -> (r: Creeps)
        ensures
            r.wf(),
            r.existing_view() == Seq::<Creep>::empty(),
            r.spawning_view() == Seq::<Creep>::empty(),
    {
        Creeps::new()
    }
}

/// Whether `live` holds `h`.
fn contains_handle(live: &Vec<u64>, h: u64) -> (r: bool)
    ensures
        r == live@.contains(h),
{
    let mut i: usize = 0;
    while i < live.len()
        invariant
            i <= live@.len(),
            forall|j: int| 0 <= j < i ==> live@[j] != h,
        decreases live@.len() - i,
    {
        if live[i] == h {
            return true;
        }
        i = i + 1;
    }
    false
}

/// Moves the contents out of `v`, leaving it empty.
fn take_all(v: &mut Vec<Creep>) -> (r: Vec<Creep>)
    ensures
        r@ == old(v)@,
        final(v)@ == Seq::<Creep>::empty(),
{
    let mut r: Vec<Creep> = Vec::new();
    let mut i: usize = 0;
    while i < v.len()
        invariant
            i <= v@.len(),
            r@ == v@.subrange(0, i as int),
        decreases v@.len() - i,
    {
        r.push(v[i]);
        i = i + 1;
    }
    assert(r@ =~= v@);
    v.clear();
    r
}

/// Filtering a uniquely keyed sequence keeps it uniquely keyed, with entries of the original only.
proof fn lemma_survivors_keyed(s: Seq<Creep>, live: Seq<u64>)
    requires
        keyed(s),
    ensures
        keyed(survivors(s, live)),
        forall|x: int| 0 <= x < survivors(s, live).len() ==> s.contains(#[trigger] survivors(s, live)[x]),
    decreases s.len(),
{
    if s.len() > 0 {
        let t = s.drop_last();
        assert(keyed(t));
        lemma_survivors_keyed(t, live);
        let r = survivors(t, live);
        if is_alive(s.last(), live) {
            assert forall|x: int| 0 <= x < r.len() implies creep_key(#[trigger] r[x]) != creep_key(s.last()) by {
                assert(t.contains(r[x]));
                let y = choose|y: int| 0 <= y < t.len() && t[y] == r[x];
                assert(s[y] == t[y]);
                assert(s[s.len() - 1] == s.last());
            }
            let rr = r.push(s.last());
            assert forall|x: int| 0 <= x < rr.len() implies s.contains(#[trigger] rr[x]) by {
                if x < r.len() {
                    assert(t.contains(r[x]));
                    let y = choose|y: int| 0 <= y < t.len() && t[y] == r[x];
                    assert(s[y] == t[y]);
                } else {
                    assert(s[s.len() - 1] == s.last());
                }
            }
        } else {
            assert forall|x: int| 0 <= x < r.len() implies s.contains(#[trigger] r[x]) by {
                assert(t.contains(r[x]));
                let y = choose|y: int| 0 <= y < t.len() && t[y] == r[x];
                assert(s[y] == t[y]);
            }
        }
    }
}


/// Every entry of `survivors(s, live)` is an entry of `s` that exists.
proof fn lemma_survivors_alive(s: Seq<Creep>, live: Seq<u64>)
    ensures
        forall|x: int| 0 <= x < survivors(s, live).len() ==> is_alive(#[trigger] survivors(s, live)[x], live)
            && s.contains(survivors(s, live)[x]),
    decreases s.len(),
{
    if s.len() > 0 {
        let t = s.drop_last();
        lemma_survivors_alive(t, live);
        let r = survivors(t, live);
        assert forall|x: int| 0 <= x < r.len() implies s.contains(#[trigger] r[x]) by {
            assert(t.contains(r[x]));
            let y = choose|y: int| 0 <= y < t.len() && t[y] == r[x];
            assert(s[y] == t[y]);
        }
        assert(s[s.len() - 1] == s.last());
    }
}

/// An entry of `s` that exists is kept by `survivors`.
proof fn lemma_survivors_keep(s: Seq<Creep>, live: Seq<u64>, c: Creep)
    requires
        s.contains(c),
        is_alive(c, live),
    ensures
        survivors(s, live).contains(c),
    decreases s.len(),
{
    let t = s.drop_last();
    if s.last() == c {
        assert(survivors(s, live).last() == c);
    } else {
        let y = choose|y: int| 0 <= y < s.len() && s[y] == c;
        assert(y < s.len() - 1);
        assert(t[y] == c);
        lemma_survivors_keep(t, live, c);
        let r = survivors(t, live);
        if is_alive(s.last(), live) {
            let x = choose|x: int| 0 <= x < r.len() && r[x] == c;
            assert(r.push(s.last())[x] == c);
        }
    }
}

/// Where every entry of `s` exists, `survivors` keeps all of `s`.
proof fn lemma_survivors_all(s: Seq<Creep>, live: Seq<u64>)
    requires
        forall|x: int| 0 <= x < s.len() ==> is_alive(#[trigger] s[x], live),
    ensures
        survivors(s, live) == s,
    decreases s.len(),
{
    if s.len() > 0 {
        lemma_survivors_all(s.drop_last(), live);
        assert(is_alive(s[s.len() - 1], live));
        assert(s.drop_last().push(s.last()) =~= s);
    }
}

/// Each offered handle with an id ends up with its id tracked.
proof fn lemma_offer_all_covers(e: Seq<Creep>, s: Seq<Creep>, c: Creep)
    requires
        s.contains(c),
        creep_key(c) is Some,
    ensures
        tracks(offer_all(e, s), creep_key(c)->0),
    decreases s.len(),
{
    let k = creep_key(c)->0;
    let t = s.drop_last();
    let m = offer_all(e, t);
    if s.last() == c {
        if !tracks(m, k) {
            assert(offer(m, c)[m.len() as int] == c);
        }
    } else {
        let y = choose|y: int| 0 <= y < s.len() && s[y] == c;
        assert(t[y] == c);
        lemma_offer_all_covers(e, t, c);
        let i = choose|i: int| 0 <= i < m.len() && creep_key(m[i]) == Some(k);
        assert(offer(m, s.last())[i] == m[i]);
    }
}

/// Every entry after offering is an entry of `e` or one of the offered handles.
proof fn lemma_offer_all_from(e: Seq<Creep>, s: Seq<Creep>)
    ensures
        forall|x: int| 0 <= x < offer_all(e, s).len() ==> e.contains(#[trigger] offer_all(e, s)[x])
            || s.contains(offer_all(e, s)[x]),
    decreases s.len(),
{
    if s.len() > 0 {
        let t = s.drop_last();
        lemma_offer_all_from(e, t);
        let m = offer_all(e, t);
        assert forall|x: int| 0 <= x < offer(m, s.last()).len() implies e.contains(
            #[trigger] offer(m, s.last())[x],
        ) || s.contains(offer(m, s.last())[x]) by {
            if x < m.len() {
                assert(offer(m, s.last())[x] == m[x]);
                if t.contains(m[x]) {
                    let y = choose|y: int| 0 <= y < t.len() && t[y] == m[x];
                    assert(s[y] == t[y]);
                }
            } else {
                assert(s[s.len() - 1] == s.last());
            }
        }
    }
}

/// A spawning handle with a stable id that the host reports as existing is
/// tracked under that id after a reconciliation pass (which leaves nothing
/// spawning, so it is no longer there).
pub proof fn law_spawned_alive_is_tracked(
    existing: Seq<Creep>,
    spawning: Seq<Creep>,
    live: Seq<u64>,
    c: Creep,
)
    requires
        spawning.contains(c),
        is_alive(c, live),
        creep_key(c) is Some,
    ensures
        tracks(reconciled(existing, spawning, live), creep_key(c)->0),
{
    lemma_survivors_keep(spawning, live, c);
    lemma_offer_all_covers(survivors(existing, live), survivors(spawning, live), c);
}

/// A handle that the host does not report as existing is tracked nowhere
/// after a reconciliation pass.
pub proof fn law_dead_is_dropped(
    existing: Seq<Creep>,
    spawning: Seq<Creep>,
    live: Seq<u64>,
    c: Creep,
)
    requires
        !is_alive(c, live),
    ensures
        !reconciled(existing, spawning, live).contains(c),
{
    let se = survivors(existing, live);
    let ss = survivors(spawning, live);
    lemma_survivors_alive(existing, live);
    lemma_survivors_alive(spawning, live);
    lemma_offer_all_from(se, ss);
    if reconciled(existing, spawning, live).contains(c) {
        let x = choose|x: int| 0 <= x < offer_all(se, ss).len() && offer_all(se, ss)[x] == c;
        if se.contains(c) {
            let y = choose|y: int| 0 <= y < se.len() && se[y] == c;
            assert(is_alive(se[y], live));
        } else {
            assert(ss.contains(c));
            let y = choose|y: int| 0 <= y < ss.len() && ss[y] == c;
            assert(is_alive(ss[y], live));
        }
    }
}

/// A second reconciliation pass against the same host state changes
/// nothing: the first pass leaves nothing spawning and only existing entries.
pub proof fn law_reconcile_idempotent(existing: Seq<Creep>, spawning: Seq<Creep>, live: Seq<u64>)
    ensures
        reconciled(reconciled(existing, spawning, live), Seq::<Creep>::empty(), live)
            == reconciled(existing, spawning, live),
{
    let once = reconciled(existing, spawning, live);
    let se = survivors(existing, live);
    let ss = survivors(spawning, live);
    lemma_survivors_alive(existing, live);
    lemma_survivors_alive(spawning, live);
    lemma_offer_all_from(se, ss);
    assert forall|x: int| 0 <= x < once.len() implies is_alive(#[trigger] once[x], live) by {
        if se.contains(once[x]) {
            let y = choose|y: int| 0 <= y < se.len() && se[y] == once[x];
            assert(is_alive(se[y], live));
        } else {
            let y = choose|y: int| 0 <= y < ss.len() && ss[y] == once[x];
            assert(is_alive(ss[y], live));
        }
    }
    lemma_survivors_all(once, live);
    let empty = Seq::<Creep>::empty();
    assert(survivors(empty, live) == empty);
    assert(offer_all(once, empty) == once);
}

} // verus!

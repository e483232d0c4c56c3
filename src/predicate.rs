use vstd::prelude::*;

verus! {

/// A stateless boolean expression over the cached statuses of a plan's children.
pub enum Predicates {
    True,
    False,
    And(Vec<Predicates>),
    Or(Vec<Predicates>),
    Xor(Vec<Predicates>),
    Not(Box<Predicates>),
    Nand(Vec<Predicates>),
    Nor(Vec<Predicates>),
    Xnor(Vec<Predicates>),
    /// Every child status is a success.
    AllSuccess,
    /// Some child status is a success.
    AnySuccess,
    /// Every child status is a failure.
    AllFailure,
    /// Some child status is a failure.
    AnyFailure,
}

/// All of `s` hold (true of no operands).
pub open spec fn all_of(s: Seq<bool>) -> bool {
    forall|i: int| 0 <= i < s.len() ==> #[trigger] s[i]
}

/// Some of `s` holds (false of no operands).
pub open spec fn any_of(s: Seq<bool>) -> bool {
    exists|i: int| 0 <= i < s.len() && #[trigger] s[i]
}

/// `s` folded left to right by exclusive or (false of no operands).
pub open spec fn xor_fold(s: Seq<bool>) -> bool
    decreases s.len(),
{
    if s.len() == 0 {
        false
    } else if s.len() == 1 {
        s[0]
    } else {
        xor_fold(s.drop_last()) != s.last()
    }
}

/// `s` folded left to right by equivalence (true of no operands).
pub open spec fn xnor_fold(s: Seq<bool>) -> bool
    decreases s.len(),
{
    if s.len() == 0 {
        true
    } else if s.len() == 1 {
        s[0]
    } else {
        xnor_fold(s.drop_last()) == s.last()
    }
}

/// Every status is `Some(want)` (true of no statuses).
pub open spec fn all_status(st: Seq<Option<bool>>, want: bool) -> bool {
    forall|i: int| 0 <= i < st.len() ==> #[trigger] st[i] == Some(want)
}

/// Some status is `Some(want)`.
pub open spec fn any_status(st: Seq<Option<bool>>, want: bool) -> bool {
    exists|i: int| 0 <= i < st.len() && #[trigger] st[i] == Some(want)
}

/// The value of each of `ps` over the child statuses `st`.
pub open spec fn values(ps: Seq<Predicates>, st: Seq<Option<bool>>) -> Seq<bool>
    decreases ps,
{
    Seq::new(ps.len(), |i: int| if 0 <= i < ps.len() { value(ps[i], st) } else { false })
}

/// The value of `p` over the child statuses `st`.
pub open spec fn value(p: Predicates, st: Seq<Option<bool>>) -> bool
    decreases p,
{
    match p {
        Predicates::True => true,
        Predicates::False => false,
        Predicates::And(v) => all_of(values(v@, st)),
        Predicates::Or(v) => any_of(values(v@, st)),
        Predicates::Xor(v) => xor_fold(values(v@, st)),
        Predicates::Not(b) => !value(*b, st),
        Predicates::Nand(v) => !all_of(values(v@, st)),
        Predicates::Nor(v) => !any_of(values(v@, st)),
        Predicates::Xnor(v) => xnor_fold(values(v@, st)),
        Predicates::AllSuccess => all_status(st, true),
        Predicates::AnySuccess => any_status(st, true),
        Predicates::AllFailure => all_status(st, false),
        Predicates::AnyFailure => any_status(st, false),
    }
}

fn all_true(s: &Vec<bool>) -> (r: bool)
    ensures
        r == all_of(s@),
{
    let mut i: usize = 0;
    while i < s.len()
        invariant
            i <= s@.len(),
            forall|j: int| 0 <= j < i ==> s@[j],
        decreases s@.len() - i,
    {
        if !s[i] {
            return false;
        }
        i = i + 1;
    }
    true
}

fn any_true(s: &Vec<bool>) -> (r: bool)
    ensures
        r == any_of(s@),
{
    let mut i: usize = 0;
    while i < s.len()
        invariant
            i <= s@.len(),
            forall|j: int| 0 <= j < i ==> !s@[j],
        decreases s@.len() - i,
    {
        if s[i] {
            return true;
        }
        i = i + 1;
    }
    false
}

fn fold_xor(s: &Vec<bool>) -> (r: bool)
    ensures
        r == xor_fold(s@),
{
    if s.len() == 0 {
        return false;
    }
    let mut acc = s[0];
    let mut i: usize = 1;
    assert(s@.subrange(0, 1).len() == 1);
    while i < s.len()
        invariant
            1 <= i <= s@.len(),
            acc == xor_fold(s@.subrange(0, i as int)),
        decreases s@.len() - i,
    {
        assert(s@.subrange(0, i + 1).drop_last() =~= s@.subrange(0, i as int));
        acc = acc != s[i];
        i = i + 1;
    }
    assert(s@.subrange(0, i as int) =~= s@);
    acc
}

fn fold_xnor(s: &Vec<bool>) -> (r: bool)
    ensures
        r == xnor_fold(s@),
{
    if s.len() == 0 {
        return true;
    }
    let mut acc = s[0];
    let mut i: usize = 1;
    assert(s@.subrange(0, 1).len() == 1);
    while i < s.len()
        invariant
            1 <= i <= s@.len(),
            acc == xnor_fold(s@.subrange(0, i as int)),
        decreases s@.len() - i,
    {
        assert(s@.subrange(0, i + 1).drop_last() =~= s@.subrange(0, i as int));
        acc = acc == s[i];
        i = i + 1;
    }
    assert(s@.subrange(0, i as int) =~= s@);
    acc
}

pub(crate) fn all_status_is(st: &Vec<Option<bool>>, want: bool) -> (r: bool)
    ensures
        r == all_status(st@, want),
{
    let mut i: usize = 0;
    while i < st.len()
        invariant
            i <= st@.len(),
            forall|j: int| 0 <= j < i ==> st@[j] == Some(want),
        decreases st@.len() - i,
    {
        match st[i] {
            Some(b) => {
                if b != want {
                    return false;
                }
            },
            None => {
                return false;
            },
        }
        i = i + 1;
    }
    true
}

pub(crate) fn any_status_is(st: &Vec<Option<bool>>, want: bool) -> (r: bool)
    ensures
        r == any_status(st@, want),
{
    let mut i: usize = 0;
    while i < st.len()
        invariant
            i <= st@.len(),
            forall|j: int| 0 <= j < i ==> st@[j] != Some(want),
        decreases st@.len() - i,
    {
        match st[i] {
            Some(b) => {
                if b == want {
                    return true;
                }
            },
            None => {},
        }
        i = i + 1;
    }
    false
}

impl Predicates {
    /// Evaluates the predicate over the cached statuses of a plan's children;
    /// nothing is run.
    pub fn evaluate(&self, statuses: &Vec<Option<bool>>) -> (r: bool)
        ensures
            r == value(*self, statuses@),
        decreases self,
    {
        match self {
            Predicates::True => true,
            Predicates::False => false,
            Predicates::And(v) => all_true(&evaluate_each(v, statuses)),
            Predicates::Or(v) => any_true(&evaluate_each(v, statuses)),
            Predicates::Xor(v) => fold_xor(&evaluate_each(v, statuses)),
            Predicates::Not(b) => !b.evaluate(statuses),
            Predicates::Nand(v) => !all_true(&evaluate_each(v, statuses)),
            Predicates::Nor(v) => !any_true(&evaluate_each(v, statuses)),
            Predicates::Xnor(v) => fold_xnor(&evaluate_each(v, statuses)),
            Predicates::AllSuccess => all_status_is(statuses, true),
            Predicates::AnySuccess => any_status_is(statuses, true),
            Predicates::AllFailure => all_status_is(statuses, false),
            Predicates::AnyFailure => any_status_is(statuses, false),
        }
    }
}

/// The value of each operand, in order.
fn evaluate_each(ps: &Vec<Predicates>, statuses: &Vec<Option<bool>>) -> (r: Vec<bool>)
    ensures
        r@ == values(ps@, statuses@),
    decreases ps,
{
    let mut r: Vec<bool> = Vec::new();
    let mut i: usize = 0;
    while i < ps.len()
        invariant
            i <= ps@.len(),
            r@.len() == i,
            forall|j: int| 0 <= j < i ==> r@[j] == value(#[trigger] ps@[j], statuses@),
        decreases ps@.len() - i,
    {
        assert(decreases_to!(ps => ps@[i as int]));
        r.push(ps[i].evaluate(statuses));
        i = i + 1;
    }
    assert(r@ =~= values(ps@, statuses@));
    r
}

} // verus!

use vstd::prelude::*;

verus! {

/// A body part a creep can be built from.
#[derive(Clone, Copy, Debug, PartialEq, Eq, Structural)]
pub enum Part {
    Move,
    Work,
    Carry,
    Attack,
    RangedAttack,
    Tough,
    Heal,
}

/// The result code the host gives back for an action on an entity.
#[derive(Clone, Copy, Debug, PartialEq, Eq, Structural)]
pub enum ReturnCode {
    Success,
    NotOwner,
    NoPath,
    NameExists,
    Busy,
    NotFound,
    NotEnoughResources,
    InvalidTarget,
    Full,
    NotInRange,
    InvalidArgs,
    Tired,
    NoBodypart,
}

/// What the host's `id` attribute of an entity held when it was read.
#[derive(Clone, Copy, Debug, PartialEq, Eq, Structural)]
pub enum IdValue {
    /// The attribute was absent.
    Missing,
    /// The attribute was a whole, non-negative number.
    Number(u64),
    /// The attribute was present but not a usable number.
    Malformed,
}

/// A handle on a mobile unit of the host: `handle` is the host's own
/// reference to the object, opaque to this library, and `id` is what its
/// identity attribute held.
#[derive(Clone, Copy, Debug, PartialEq, Eq, Structural)]
pub struct Creep {
    pub handle: u64,
    pub id: IdValue,
}

/// The numeric stable id of a creep, where it has one.
pub open spec fn creep_key(c: Creep) -> Option<u64> {
    match c.id {
        IdValue::Number(n) => Some(n),
        _ => None,
    }
}

/// The character of a decimal digit.
pub open spec fn digit_char(d: nat) -> char {
    if d == 0 { '0' }
    else if d == 1 { '1' }
    else if d == 2 { '2' }
    else if d == 3 { '3' }
    else if d == 4 { '4' }
    else if d == 5 { '5' }
    else if d == 6 { '6' }
    else if d == 7 { '7' }
    else if d == 8 { '8' }
    else { '9' }
}

/// The decimal text of a natural number, without leading zeros.
pub open spec fn decimal(n: nat) -> Seq<char>
    decreases n,
{
    if n < 10 {
        seq![digit_char(n)]
    } else {
        decimal(n / 10).push(digit_char(n % 10))
    }
}

/// The textual stable id of a creep: the decimal text of its numeric id.
pub open spec fn creep_id_text(c: Creep) -> Option<Seq<char>> {
    match c.id {
        IdValue::Number(n) => Some(decimal(n as nat)),
        _ => None,
    }
}

fn digit_str(d: u64) -> (r: &'static str)
    requires
        d < 10,
    ensures
        r@ == seq![digit_char(d as nat)],
{
    proof {
        reveal_strlit("0");
        reveal_strlit("1");
        reveal_strlit("2");
        reveal_strlit("3");
        reveal_strlit("4");
        reveal_strlit("5");
        reveal_strlit("6");
        reveal_strlit("7");
        reveal_strlit("8");
        reveal_strlit("9");
    }
    if d == 0 { "0" }
    else if d == 1 { "1" }
    else if d == 2 { "2" }
    else if d == 3 { "3" }
    else if d == 4 { "4" }
    else if d == 5 { "5" }
    else if d == 6 { "6" }
    else if d == 7 { "7" }
    else if d == 8 { "8" }
    else { "9" }
}

fn write_decimal(n: u64, out: &mut String)
    ensures
        final(out)@ == old(out)@ + decimal(n as nat),
    decreases n,
{
    if n >= 10 {
        write_decimal(n / 10, out);
    }
    out.append(digit_str(n % 10));
    assert(decimal(n as nat) =~= if n < 10 {
        seq![digit_char(n as nat)]
    } else {
        decimal((n / 10) as nat).push(digit_char((n % 10) as nat))
    });
}

/// The stable id of a creep as text, or `None` where the host gave no usable id.
pub fn get_creep_id(creep: &Creep) -> (r: Option<String>)
    ensures
        r matches Some(s) ==> creep_id_text(*creep) == Some(s@),
        r is None <==> creep_id_text(*creep) is None,
{
    match creep.id {
        IdValue::Number(n) => {
            let mut s = String::new();
            write_decimal(n, &mut s);
            assert(s@ =~= decimal(n as nat));
            Some(s)
        },
        _ => None,
    }
}

/// What to do after the host answered an action on a target.
#[derive(Clone, Copy, Debug, PartialEq, Eq, Structural)]
pub enum Recovery {
    /// Nothing more to do this tick.
    Done,
    /// The target was out of range: move toward it.
    MoveToTarget,
    /// The action failed in another way: report the code and give up for this tick.
    Warn(ReturnCode),
}

/// The recovery owed after an action answered `err`.
pub open spec fn recovery_for(err: ReturnCode) -> Recovery {
    match err {
        ReturnCode::Success => Recovery::Done,
        ReturnCode::NotInRange => Recovery::MoveToTarget,
        _ => Recovery::Warn(err),
    }
}

/// Decides how to follow up an action: success needs nothing, "not in range"
/// is recovered by moving toward the target, any other code is a warning.
pub fn ok_or_move_to(err: ReturnCode) -> (r: Recovery)
    ensures
        r == recovery_for(err),
{
    match err {
        ReturnCode::Success => Recovery::Done,
        ReturnCode::NotInRange => Recovery::MoveToTarget,
        _ => Recovery::Warn(err),
    }
}

/// Decides how to follow up the move issued by `ok_or_move_to`: any code
/// but success is a warning, and the move is not retried.
pub fn after_move(err: ReturnCode) -> (r: Recovery)
    ensures
        err == ReturnCode::Success ==> r == Recovery::Done,
        err != ReturnCode::Success ==> r == Recovery::Warn(err),
{
    match err {
        ReturnCode::Success => Recovery::Done,
        _ => Recovery::Warn(err),
    }
}

/// The body described by a list of `(part, count)` pairs: each part repeated
/// its count of times, in list order.
pub open spec fn expand_parts(list: Seq<(Part, usize)>) -> Seq<Part>
    decreases list.len(),
{
    if list.len() == 0 {
        Seq::empty()
    } else {
        let last = list.last();
        expand_parts(list.drop_last()) + Seq::new(last.1 as nat, |i: int| last.0)
    }
}

/// Builds a body from `(part, count)` pairs.
pub fn gen_parts(parts_list: &[(Part, usize)]) -> (r: Vec<Part>)
    ensures
        r@ == expand_parts(parts_list@),
{
    let mut r: Vec<Part> = Vec::new();
    let mut i: usize = 0;
    while i < parts_list.len()
        invariant
            i <= parts_list@.len(),
            r@ == expand_parts(parts_list@.subrange(0, i as int)),
        decreases parts_list@.len() - i,
    {
        let (part, n) = parts_list[i];
        let ghost before = r@;
        let mut j: usize = 0;
        while j < n
            invariant
                j <= n,
                r@ == before + Seq::new(j as nat, |k: int| part),
            decreases n - j,
        {
            r.push(part);
            j = j + 1;
            assert(r@ =~= before + Seq::new(j as nat, |k: int| part));
        }
        assert(parts_list@.subrange(0, i + 1).drop_last() =~= parts_list@.subrange(0, i as int));
        i = i + 1;
    }
    assert(parts_list@.subrange(0, i as int) =~= parts_list@);
    r
}

} // verus!

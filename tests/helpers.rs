use swamp_plan::game_helpers::{
    after_move, gen_parts, get_creep_id, ok_or_move_to, Creep, IdValue, Part, Recovery, ReturnCode,
};

#[test]
fn gen_parts_repeats_each_part_in_order() {
    let parts = gen_parts(&[(Part::Move, 2), (Part::Attack, 3)]);
    assert_eq!(
        parts,
        vec![Part::Move, Part::Move, Part::Attack, Part::Attack, Part::Attack]
    );
}

#[test]
fn gen_parts_skips_zero_counts_and_empty_lists() {
    assert_eq!(gen_parts(&[]), Vec::<Part>::new());
    assert_eq!(gen_parts(&[(Part::Carry, 0), (Part::Heal, 1)]), vec![Part::Heal]);
}

#[test]
fn harvester_body_has_seven_parts() {
    let parts = gen_parts(&[(Part::Carry, 5), (Part::Move, 2)]);
    assert_eq!(parts.len(), 7);
    assert_eq!(parts[4], Part::Carry);
    assert_eq!(parts[5], Part::Move);
}

#[test]
fn creep_id_is_decimal_text_of_number() {
    let c = Creep { handle: 1, id: IdValue::Number(1207) };
    assert_eq!(get_creep_id(&c), Some("1207".to_string()));
    let z = Creep { handle: 2, id: IdValue::Number(0) };
    assert_eq!(get_creep_id(&z), Some("0".to_string()));
    let big = Creep { handle: 3, id: IdValue::Number(u64::MAX) };
    assert_eq!(get_creep_id(&big), Some(u64::MAX.to_string()));
}

#[test]
fn creep_without_usable_id_has_none() {
    assert_eq!(get_creep_id(&Creep { handle: 1, id: IdValue::Missing }), None);
    assert_eq!(get_creep_id(&Creep { handle: 1, id: IdValue::Malformed }), None);
}

#[test]
fn ok_or_move_to_follow_ups() {
    assert_eq!(ok_or_move_to(ReturnCode::Success), Recovery::Done);
    assert_eq!(ok_or_move_to(ReturnCode::NotInRange), Recovery::MoveToTarget);
    assert_eq!(ok_or_move_to(ReturnCode::Tired), Recovery::Warn(ReturnCode::Tired));
    assert_eq!(ok_or_move_to(ReturnCode::InvalidTarget), Recovery::Warn(ReturnCode::InvalidTarget));
}

#[test]
fn failed_move_is_a_warning_and_not_retried() {
    assert_eq!(after_move(ReturnCode::Success), Recovery::Done);
    assert_eq!(after_move(ReturnCode::NotInRange), Recovery::Warn(ReturnCode::NotInRange));
    assert_eq!(after_move(ReturnCode::NoPath), Recovery::Warn(ReturnCode::NoPath));
}

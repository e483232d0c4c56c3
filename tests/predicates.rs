use swamp_plan::predicate::Predicates;

fn t() -> Predicates {
    Predicates::True
}

fn f() -> Predicates {
    Predicates::False
}

#[test]
fn xor_folds_left_to_right() {
    let p = Predicates::Xor(vec![t(), f(), t()]);
    assert!(!p.evaluate(&vec![]));
}

#[test]
fn nand_of_two_trues_is_false() {
    assert!(!Predicates::Nand(vec![t(), t()]).evaluate(&vec![]));
    assert!(Predicates::Nand(vec![t(), f()]).evaluate(&vec![]));
}

#[test]
fn not_true_is_false() {
    assert!(!Predicates::Not(Box::new(t())).evaluate(&vec![]));
    assert!(Predicates::Not(Box::new(f())).evaluate(&vec![]));
}

#[test]
fn xnor_folds_left_to_right() {
    assert!(!Predicates::Xnor(vec![t(), f()]).evaluate(&vec![]));
    assert!(Predicates::Xnor(vec![f(), f()]).evaluate(&vec![]));
    // ((t == f) == f) is true
    assert!(Predicates::Xnor(vec![t(), f(), f()]).evaluate(&vec![]));
}

#[test]
fn and_or_nor_over_operands() {
    assert!(Predicates::And(vec![t(), t()]).evaluate(&vec![]));
    assert!(!Predicates::And(vec![t(), f()]).evaluate(&vec![]));
    assert!(Predicates::Or(vec![f(), t()]).evaluate(&vec![]));
    assert!(!Predicates::Or(vec![]).evaluate(&vec![]));
    assert!(Predicates::Nor(vec![f(), f()]).evaluate(&vec![]));
    assert!(Predicates::And(vec![]).evaluate(&vec![]));
}

#[test]
fn nested_combinators() {
    let p = Predicates::Or(vec![
        Predicates::And(vec![t(), f()]),
        Predicates::Not(Box::new(Predicates::Xor(vec![t(), t()]))),
    ]);
    assert!(p.evaluate(&vec![]));
}

#[test]
fn aggregates_over_two_successes() {
    let st = vec![Some(true), Some(true)];
    assert!(Predicates::AllSuccess.evaluate(&st));
    assert!(Predicates::AnySuccess.evaluate(&st));
    assert!(!Predicates::AllFailure.evaluate(&st));
    assert!(!Predicates::AnyFailure.evaluate(&st));
}

#[test]
fn aggregates_over_mixed_statuses() {
    let st = vec![Some(true), Some(false)];
    assert!(!Predicates::AllSuccess.evaluate(&st));
    assert!(Predicates::AnySuccess.evaluate(&st));
    assert!(!Predicates::AllFailure.evaluate(&st));
    assert!(Predicates::AnyFailure.evaluate(&st));
}

#[test]
fn aggregates_over_two_failures() {
    let st = vec![Some(false), Some(false)];
    assert!(!Predicates::AllSuccess.evaluate(&st));
    assert!(!Predicates::AnySuccess.evaluate(&st));
    assert!(Predicates::AllFailure.evaluate(&st));
    assert!(Predicates::AnyFailure.evaluate(&st));
}

#[test]
fn aggregates_treat_in_progress_as_neither() {
    let st = vec![Some(true), None];
    assert!(!Predicates::AllSuccess.evaluate(&st));
    assert!(Predicates::AnySuccess.evaluate(&st));
    assert!(!Predicates::AnyFailure.evaluate(&st));
}

use pdc_ltl::ltl::LTL;

#[test]
fn and_top_is_identity() {
    assert_eq!(LTL::Top.and(LTL::Atom(3)), LTL::Atom(3));
    assert_eq!(LTL::Atom(3).and(LTL::Top), LTL::Atom(3));
}

#[test]
fn and_bottom_absorbs() {
    assert_eq!(LTL::Bottom.and(LTL::Atom(3)), LTL::Bottom);
    assert_eq!(LTL::Atom(3).and(LTL::Bottom), LTL::Bottom);
}

#[test]
fn and_flattens_either_grouping() {
    let left = LTL::Atom(0).and(LTL::Atom(1)).and(LTL::Atom(2));
    let right = LTL::Atom(0).and(LTL::Atom(1).and(LTL::Atom(2)));
    let expected = LTL::And(vec![LTL::Atom(0), LTL::Atom(1), LTL::Atom(2)]);
    assert_eq!(left, expected);
    assert_eq!(right, expected);
}

#[test]
fn or_flattens_but_does_not_absorb() {
    let flat = LTL::Atom(0).or(LTL::Atom(1)).or(LTL::Atom(2));
    assert_eq!(flat, LTL::Or(vec![LTL::Atom(0), LTL::Atom(1), LTL::Atom(2)]));
    // No Top/Bottom shortcut on the Or side: the constants stay in place.
    assert_eq!(LTL::Top.or(LTL::Atom(1)), LTL::Or(vec![LTL::Top, LTL::Atom(1)]));
    assert_eq!(LTL::Bottom.or(LTL::Atom(1)), LTL::Or(vec![LTL::Bottom, LTL::Atom(1)]));
}

#[test]
fn not_always_wraps() {
    let double = LTL::Atom(7).not().not();
    assert_eq!(double, LTL::Not(Box::new(LTL::Not(Box::new(LTL::Atom(7))))));
}

#[test]
fn implies_desugars_to_or_not() {
    let f = LTL::Atom(0).implies(LTL::Atom(1));
    assert_eq!(f, LTL::Or(vec![LTL::Not(Box::new(LTL::Atom(0))), LTL::Atom(1)]));
}

#[test]
fn temporal_wrappers_do_not_simplify() {
    assert_eq!(LTL::Top.next(), LTL::Next(Box::new(LTL::Top)));
    assert_eq!(LTL::Bottom.eventually(), LTL::Eventually(Box::new(LTL::Bottom)));
}

#[test]
fn default_is_bottom() {
    assert_eq!(LTL::default(), LTL::Bottom);
}

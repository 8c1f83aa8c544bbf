use tuonelang::ownership::{Mode, Origin, Place};

#[test]
fn prefixes_and_overlaps() {
    let p = Place::root(7);
    let left = p.child("left");
    let left_val = left.child("val");
    let right = p.child("right");
    assert!(p.is_prefix_of(&left));
    assert!(left.is_prefix_of(&left_val));
    assert!(p.is_prefix_of(&left_val));
    assert!(!left.is_prefix_of(&p));
    assert!(p.is_prefix_of(&p));
    assert!(left.overlaps(&p));
    assert!(p.overlaps(&left));
    assert!(!left.overlaps(&right));
    assert!(!Place::root(1).overlaps(&Place::root(2)));
    assert_eq!(left_val.path, vec!["left".to_string(), "val".to_string()]);
}

#[test]
fn modes_and_origins() {
    assert_eq!(Mode::parse("in"), Some(Mode::In));
    assert_eq!(Mode::parse("mut"), Some(Mode::Mut));
    assert_eq!(Mode::parse("take"), Some(Mode::Take));
    assert_eq!(Mode::parse("own"), None);
    assert!(Mode::In.is_borrow());
    assert!(Mode::Mut.is_borrow());
    assert!(!Mode::Take.is_borrow());
    assert!(Origin::Var.is_mutable());
    assert!(!Origin::Let { deferred: true }.is_mutable());
    assert_eq!(Origin::InParam.borrow_mode(), Some("in"));
    assert_eq!(Origin::MutParam.borrow_mode(), Some("mut"));
    assert_eq!(Origin::TakeParam.borrow_mode(), None);
    assert_eq!(Origin::PatternBinding.describe(), "a pattern binding");
    assert_eq!(Origin::Let { deferred: false }.describe(), "a `let` binding");
}

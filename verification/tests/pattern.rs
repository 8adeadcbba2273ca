use easify::{compile, Role, SlotSpec, UnpackError};

fn plain(name: &str) -> SlotSpec {
    SlotSpec::new(name, false, false)
}

fn star(name: &str) -> SlotSpec {
    SlotSpec::new(name, false, true)
}

fn roles(specs: &[SlotSpec]) -> Vec<Role> {
    let pattern = compile(specs).expect("the slot list compiles");
    let mut found = Vec::new();
    for i in 0..pattern.arity() {
        found.push(pattern.slot(i).expect("a slot below the arity").role);
    }
    found
}

#[test]
fn slot_spec_new_keeps_its_arguments() {
    let spec = SlotSpec::new("tail", true, false);
    assert_eq!(spec.name, "tail");
    assert!(spec.mutable);
    assert!(!spec.is_rest);
    let spec = SlotSpec::new("xs", false, true);
    assert_eq!(spec.name, "xs");
    assert!(!spec.mutable);
    assert!(spec.is_rest);
}

#[test]
fn rest_in_the_middle_splits_heads_from_tails() {
    let specs = [plain("a"), plain("b"), star("c"), plain("d"), plain("e")];
    let pattern = compile(&specs).unwrap();
    assert_eq!(pattern.arity(), 5);
    assert_eq!(pattern.rest_index(), Some(2));
    assert_eq!(roles(&specs), vec![Role::Head, Role::Head, Role::Rest, Role::Tail, Role::Tail]);
}

#[test]
fn rest_first_leaves_only_tails() {
    let specs = [star("a"), plain("b"), plain("c")];
    assert_eq!(compile(&specs).unwrap().rest_index(), Some(0));
    assert_eq!(roles(&specs), vec![Role::Rest, Role::Tail, Role::Tail]);
}

#[test]
fn rest_last_leaves_only_heads() {
    let specs = [plain("a"), plain("b"), star("c")];
    assert_eq!(compile(&specs).unwrap().rest_index(), Some(2));
    assert_eq!(roles(&specs), vec![Role::Head, Role::Head, Role::Rest]);
}

#[test]
fn without_a_rest_marker_every_slot_is_a_head() {
    let specs = [plain("a"), plain("b"), plain("c")];
    assert_eq!(compile(&specs).unwrap().rest_index(), None);
    assert_eq!(roles(&specs), vec![Role::Head, Role::Head, Role::Head]);
}

#[test]
fn names_and_mutability_are_taken_over_in_order() {
    let specs = [
        SlotSpec::new("first", true, false),
        SlotSpec::new("middle", true, true),
        SlotSpec::new("last", false, false),
    ];
    let pattern = compile(&specs).unwrap();
    let first = pattern.slot(0).unwrap();
    assert_eq!((first.name.as_str(), first.mutable, first.role), ("first", true, Role::Head));
    let middle = pattern.slot(1).unwrap();
    assert_eq!((middle.name.as_str(), middle.mutable, middle.role), ("middle", true, Role::Rest));
    let last = pattern.slot(2).unwrap();
    assert_eq!((last.name.as_str(), last.mutable, last.role), ("last", false, Role::Tail));
}

#[test]
fn no_slot_stands_past_the_arity() {
    let pattern = compile(&[plain("a"), star("b")]).unwrap();
    assert!(pattern.slot(1).is_some());
    assert!(pattern.slot(2).is_none());
    assert!(pattern.slot(usize::MAX).is_none());
}

#[test]
fn an_empty_slot_list_compiles() {
    let pattern = compile(&[]).unwrap();
    assert_eq!(pattern.arity(), 0);
    assert_eq!(pattern.rest_index(), None);
    assert!(pattern.slot(0).is_none());
}

#[test]
fn a_single_rest_slot_compiles() {
    let pattern = compile(&[star("all")]).unwrap();
    assert_eq!(pattern.arity(), 1);
    assert_eq!(pattern.rest_index(), Some(0));
    assert_eq!(pattern.slot(0).unwrap().role, Role::Rest);
}

#[test]
fn two_rest_markers_are_malformed() {
    assert_eq!(compile(&[star("a"), star("b")]).err(), Some(UnpackError::MalformedPattern));
    assert_eq!(
        compile(&[star("a"), plain("b"), star("c")]).err(),
        Some(UnpackError::MalformedPattern)
    );
    assert_eq!(
        compile(&[plain("a"), star("b"), plain("c"), plain("d"), star("e")]).err(),
        Some(UnpackError::MalformedPattern)
    );
}

#[test]
fn three_rest_markers_are_malformed() {
    assert_eq!(
        compile(&[star("a"), star("b"), star("c")]).err(),
        Some(UnpackError::MalformedPattern)
    );
}

#[test]
fn nothing_but_a_second_rest_marker_stops_the_compiler() {
    assert!(compile(&[plain(""), plain("")]).is_ok());
    assert!(compile(&[plain("a"), plain("a"), star("a")]).is_ok());
    assert!(compile(&[SlotSpec::new("not an identifier", true, true)]).is_ok());
    let many: Vec<SlotSpec> = (0..1000).map(|i| SlotSpec::new("x", i % 2 == 0, i == 500)).collect();
    let pattern = compile(&many).unwrap();
    assert_eq!(pattern.arity(), 1000);
    assert_eq!(pattern.rest_index(), Some(500));
    assert_eq!(pattern.slot(499).unwrap().role, Role::Head);
    assert_eq!(pattern.slot(501).unwrap().role, Role::Tail);
}

#[test]
fn equal_slot_lists_compile_to_equal_patterns() {
    let specs = [plain("a"), SlotSpec::new("b", true, true), plain("c")];
    let copy = specs.clone();
    let one = compile(&specs).unwrap();
    let other = compile(&copy).unwrap();
    assert_eq!(one.arity(), other.arity());
    assert_eq!(one.rest_index(), other.rest_index());
    for i in 0..one.arity() {
        let (left, right) = (one.slot(i).unwrap(), other.slot(i).unwrap());
        assert_eq!(left.name, right.name);
        assert_eq!(left.mutable, right.mutable);
        assert_eq!(left.role, right.role);
    }
}

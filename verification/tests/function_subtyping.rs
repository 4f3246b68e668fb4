use variance::FunctionType;
use variance::SubtypeEdge;
use variance::build_relation;
use variance::contravariance;
use variance::covariance;

const UNIT: u64 = 0;
const ANIMAL: u64 = 1;
const CAT: u64 = 2;
const DOG: u64 = 3;

fn func(arg: u64, ret: u64) -> FunctionType {
    FunctionType { arg, ret }
}

#[test]
fn return_covariance_scenario() {
    let edges: Vec<SubtypeEdge> = vec![(CAT, ANIMAL)];
    let rel = build_relation(&edges).unwrap();
    assert!(rel.is_function_subtype(func(UNIT, CAT), func(UNIT, ANIMAL)));
    assert!(!rel.is_function_subtype(func(UNIT, ANIMAL), func(UNIT, CAT)));
}

#[test]
fn argument_contravariance_scenario() {
    let edges: Vec<SubtypeEdge> = vec![(CAT, ANIMAL)];
    let rel = build_relation(&edges).unwrap();
    assert!(rel.is_function_subtype(func(ANIMAL, UNIT), func(CAT, UNIT)));
    assert!(!rel.is_function_subtype(func(CAT, UNIT), func(ANIMAL, UNIT)));
}

#[test]
fn combined_non_subtype_scenario() {
    let edges: Vec<SubtypeEdge> = vec![(CAT, ANIMAL)];
    let rel = build_relation(&edges).unwrap();
    assert!(!rel.is_function_subtype(func(UNIT, DOG), func(UNIT, ANIMAL)));
}

#[test]
fn identical_function_types_are_mutual_subtypes() {
    let edges: Vec<SubtypeEdge> = vec![(CAT, ANIMAL)];
    let rel = build_relation(&edges).unwrap();
    let f = func(CAT, ANIMAL);
    assert!(rel.is_function_subtype(f, f));
    let g = func(DOG, DOG);
    assert!(rel.is_function_subtype(g, g));
}

#[test]
fn both_positions_at_once() {
    let edges: Vec<SubtypeEdge> = vec![(CAT, ANIMAL)];
    let rel = build_relation(&edges).unwrap();
    // Contravariant argument and covariant return together.
    assert!(rel.is_function_subtype(func(ANIMAL, CAT), func(CAT, ANIMAL)));
    // Each position failing alone defeats the pair.
    assert!(!rel.is_function_subtype(func(CAT, CAT), func(ANIMAL, ANIMAL)));
    assert!(!rel.is_function_subtype(func(ANIMAL, ANIMAL), func(CAT, CAT)));
}

#[test]
fn covariance_fixes_the_argument_side() {
    let edges: Vec<SubtypeEdge> = vec![(CAT, ANIMAL)];
    let rel = build_relation(&edges).unwrap();
    assert!(covariance(&rel, UNIT, CAT, ANIMAL));
    assert!(!covariance(&rel, UNIT, ANIMAL, CAT));
    assert!(covariance(&rel, UNIT, CAT, CAT));
}

#[test]
fn contravariance_fixes_the_return_side() {
    let edges: Vec<SubtypeEdge> = vec![(CAT, ANIMAL)];
    let rel = build_relation(&edges).unwrap();
    assert!(contravariance(&rel, ANIMAL, CAT, UNIT));
    assert!(!contravariance(&rel, CAT, ANIMAL, UNIT));
    assert!(contravariance(&rel, ANIMAL, ANIMAL, UNIT));
}

#[test]
fn lifetimes_as_names() {
    // An outlives declaration reads as a subtype edge with the direction
    // reversed: a longer-lived name is a subtype of a shorter-lived one.
    let long_lived: u64 = 20;
    let short_lived: u64 = 21;
    let edges: Vec<SubtypeEdge> = vec![(long_lived, short_lived)];
    let rel = build_relation(&edges).unwrap();
    assert!(rel.is_subtype(long_lived, short_lived));
    assert!(rel.is_function_subtype(
        func(UNIT, long_lived),
        func(UNIT, short_lived)
    ));
    assert!(rel.is_function_subtype(
        func(short_lived, UNIT),
        func(long_lived, UNIT)
    ));
}

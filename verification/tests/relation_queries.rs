use variance::ConstructionError;
use variance::SubtypeEdge;
use variance::build_relation;

const ANIMAL: u64 = 1;
const CAT: u64 = 2;
const DOG: u64 = 3;
const TOP: u64 = 10;
const MID: u64 = 11;
const BOT: u64 = 12;

#[test]
fn reflexivity_on_registered_names() {
    let edges: Vec<SubtypeEdge> = vec![(CAT, ANIMAL)];
    let rel = build_relation(&edges).unwrap();
    assert!(rel.is_subtype(CAT, CAT));
    assert!(rel.is_subtype(ANIMAL, ANIMAL));
}

#[test]
fn reflexivity_on_unregistered_names() {
    let edges: Vec<SubtypeEdge> = vec![(CAT, ANIMAL)];
    let rel = build_relation(&edges).unwrap();
    assert!(rel.is_subtype(DOG, DOG));
}

#[test]
fn declared_edge_respected() {
    let edges: Vec<SubtypeEdge> = vec![(CAT, ANIMAL)];
    let rel = build_relation(&edges).unwrap();
    assert!(rel.is_subtype(CAT, ANIMAL));
    assert!(!rel.is_subtype(ANIMAL, CAT));
}

#[test]
fn transitivity_through_a_chain() {
    let edges: Vec<SubtypeEdge> = vec![(BOT, MID), (MID, TOP)];
    let rel = build_relation(&edges).unwrap();
    assert!(rel.is_subtype(BOT, TOP));
    assert!(rel.is_subtype(BOT, MID));
    assert!(rel.is_subtype(MID, TOP));
    assert!(!rel.is_subtype(TOP, BOT));
    assert!(!rel.is_subtype(MID, BOT));
}

#[test]
fn two_cycle_rejected() {
    let edges: Vec<SubtypeEdge> = vec![(ANIMAL, CAT), (CAT, ANIMAL)];
    match build_relation(&edges) {
        Ok(_) => panic!("a cyclic edge set must be rejected"),
        Err(ConstructionError::CycleError { first, second }) => {
            assert_ne!(first, second);
            let names = [ANIMAL, CAT];
            assert!(names.contains(&first));
            assert!(names.contains(&second));
        },
    }
}

#[test]
fn three_cycle_rejected() {
    let edges: Vec<SubtypeEdge> = vec![(BOT, MID), (MID, TOP), (TOP, BOT)];
    assert!(matches!(
        build_relation(&edges),
        Err(ConstructionError::CycleError { .. })
    ));
}

#[test]
fn self_edge_is_no_cycle() {
    let edges: Vec<SubtypeEdge> = vec![(CAT, CAT), (CAT, ANIMAL)];
    let rel = build_relation(&edges).unwrap();
    assert!(rel.is_subtype(CAT, CAT));
    assert!(rel.is_subtype(CAT, ANIMAL));
}

#[test]
fn empty_edge_set_builds() {
    let edges: Vec<SubtypeEdge> = Vec::new();
    let rel = build_relation(&edges).unwrap();
    assert!(rel.is_subtype(CAT, CAT));
    assert!(!rel.is_subtype(CAT, ANIMAL));
}

#[test]
fn unknown_names_answer_false() {
    let edges: Vec<SubtypeEdge> = vec![(CAT, ANIMAL)];
    let rel = build_relation(&edges).unwrap();
    assert!(!rel.is_subtype(DOG, ANIMAL));
    assert!(!rel.is_subtype(CAT, DOG));
}

#[test]
fn unrelated_registered_names_answer_false() {
    let edges: Vec<SubtypeEdge> = vec![(CAT, ANIMAL), (DOG, ANIMAL)];
    let rel = build_relation(&edges).unwrap();
    assert!(!rel.is_subtype(CAT, DOG));
    assert!(!rel.is_subtype(DOG, CAT));
}

#[test]
fn duplicate_edges_build() {
    let edges: Vec<SubtypeEdge> = vec![(CAT, ANIMAL), (CAT, ANIMAL)];
    let rel = build_relation(&edges).unwrap();
    assert!(rel.is_subtype(CAT, ANIMAL));
    assert!(!rel.is_subtype(ANIMAL, CAT));
}

#[test]
fn construction_idempotent() {
    let edges: Vec<SubtypeEdge> = vec![(CAT, ANIMAL), (BOT, MID), (MID, TOP)];
    let first = build_relation(&edges).unwrap();
    let second = build_relation(&edges).unwrap();
    let names = [ANIMAL, CAT, DOG, TOP, MID, BOT];
    for &a in &names {
        for &b in &names {
            assert_eq!(first.is_subtype(a, b), second.is_subtype(a, b));
        }
    }
}

#[test]
fn diamond_of_edges() {
    let edges: Vec<SubtypeEdge> = vec![(BOT, MID), (BOT, DOG), (MID, TOP), (DOG, TOP)];
    let rel = build_relation(&edges).unwrap();
    assert!(rel.is_subtype(BOT, TOP));
    assert!(rel.is_subtype(BOT, MID));
    assert!(rel.is_subtype(BOT, DOG));
    assert!(!rel.is_subtype(MID, DOG));
    assert!(!rel.is_subtype(DOG, MID));
}

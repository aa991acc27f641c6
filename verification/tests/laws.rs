use strata::{Algebra, BothOf, ContainedIn, Containing, Extent, FollowedBy, NotContainedIn,
    NotContaining, OneOf, Position, ValidExtent};

fn ext(p: u64, q: u64) -> Extent {
    Extent(Position::Valid(p), Position::Valid(q))
}

fn v(k: u64) -> Position {
    Position::Valid(k)
}

fn is_gc_list(extents: &[ValidExtent]) -> bool {
    extents.iter().all(|e| e.0 <= e.1)
        && extents.windows(2).all(|w| w[0].0 < w[1].0 && w[0].1 < w[1].1)
}

// The four iterators over one operator: `tau` and `rho` agree, the two
// backward iterators agree, and backward is the reverse of forward.
fn check_iterator_laws<A: Algebra + Copy>(x: A) -> Vec<ValidExtent> {
    let forward = x.iter_tau().into_vec();
    assert_eq!(forward, x.iter_rho().into_vec());
    let backward = x.iter_tau_prime().into_vec();
    assert_eq!(backward, x.iter_rho_prime().into_vec());
    let mut reversed = forward.clone();
    reversed.reverse();
    assert_eq!(backward, reversed);
    assert!(is_gc_list(&forward));
    forward
}

// Each primitive answers as a search over the materialized list would.
fn check_k_independence<A: Algebra + Copy>(x: A, k: Position) {
    let full: Vec<ValidExtent> = x.iter_tau().into_vec();
    let full = &full[..];
    assert_eq!(x.tau(k), full.tau(k));
    assert_eq!(x.rho(k), full.rho(k));
    assert_eq!(x.tau_prime(k), full.tau_prime(k));
    assert_eq!(x.rho_prime(k), full.rho_prime(k));
}

fn check_all_laws<A: Algebra + Copy>(x: A) {
    let full = check_iterator_laws(x);
    let mut keys: Vec<u64> = vec![0, 1];
    for e in &full {
        for d in [e.0.saturating_sub(1), e.0, e.0 + 1, e.1, e.1 + 1] {
            keys.push(d);
        }
    }
    for k in keys {
        check_k_independence(x, v(k));
    }
    check_k_independence(x, Position::NegativeInfinity);
    check_k_independence(x, Position::PositiveInfinity);
    // sentinel short-circuit
    assert_eq!(
        x.tau(Position::PositiveInfinity),
        Extent(Position::PositiveInfinity, Position::PositiveInfinity)
    );
    assert_eq!(
        x.rho(Position::PositiveInfinity),
        Extent(Position::PositiveInfinity, Position::PositiveInfinity)
    );
    assert_eq!(
        x.tau_prime(Position::NegativeInfinity),
        Extent(Position::NegativeInfinity, Position::NegativeInfinity)
    );
    assert_eq!(
        x.rho_prime(Position::NegativeInfinity),
        Extent(Position::NegativeInfinity, Position::NegativeInfinity)
    );
}

const LEFT: &[ValidExtent] = &[(1, 4), (3, 6), (8, 8), (10, 15), (20, 21)];
const RIGHT: &[ValidExtent] = &[(2, 5), (6, 7), (9, 14), (11, 30)];

#[test]
fn laws_hold_for_leaves() {
    check_all_laws(LEFT);
    check_all_laws(RIGHT);
    let empty: &[ValidExtent] = &[];
    check_all_laws(empty);
    let singleton: &[ValidExtent] = &[(5, 9)];
    check_all_laws(singleton);
    check_all_laws(strata::Documents::new(4));
    check_all_laws(strata::Documents::new(0));
}

#[test]
fn laws_hold_for_contained_in() {
    check_all_laws(ContainedIn::new(LEFT, RIGHT));
    check_all_laws(ContainedIn::new(RIGHT, LEFT));
    check_all_laws(ContainedIn::new(LEFT, LEFT));
}

#[test]
fn laws_hold_for_containing() {
    check_all_laws(Containing::new(LEFT, RIGHT));
    check_all_laws(Containing::new(RIGHT, LEFT));
    check_all_laws(Containing::new(LEFT, LEFT));
}

#[test]
fn laws_hold_for_not_contained_in() {
    check_all_laws(NotContainedIn::new(LEFT, RIGHT));
    check_all_laws(NotContainedIn::new(RIGHT, LEFT));
    check_all_laws(NotContainedIn::new(LEFT, LEFT));
}

#[test]
fn laws_hold_for_not_containing() {
    check_all_laws(NotContaining::new(LEFT, RIGHT));
    check_all_laws(NotContaining::new(RIGHT, LEFT));
    check_all_laws(NotContaining::new(LEFT, LEFT));
}

#[test]
fn laws_hold_for_both_of() {
    check_all_laws(BothOf::new(LEFT, RIGHT));
    check_all_laws(BothOf::new(RIGHT, LEFT));
    check_all_laws(BothOf::new(LEFT, LEFT));
}

#[test]
fn laws_hold_for_one_of() {
    check_all_laws(OneOf::new(LEFT, RIGHT));
    check_all_laws(OneOf::new(RIGHT, LEFT));
    check_all_laws(OneOf::new(LEFT, LEFT));
}

#[test]
fn laws_hold_for_followed_by() {
    check_all_laws(FollowedBy::new(LEFT, RIGHT));
    check_all_laws(FollowedBy::new(RIGHT, LEFT));
    check_all_laws(FollowedBy::new(LEFT, LEFT));
}

#[test]
fn laws_hold_for_nested_trees() {
    let tree = OneOf::new(
        ContainedIn::new(LEFT, RIGHT),
        FollowedBy::new(BothOf::new(RIGHT, LEFT), NotContaining::new(LEFT, RIGHT)),
    );
    check_all_laws(tree);
    let tree = Containing::new(
        NotContainedIn::new(LEFT, RIGHT),
        BothOf::new(OneOf::new(LEFT, RIGHT), RIGHT),
    );
    check_all_laws(tree);
}

#[test]
fn laws_hold_for_touching_and_interleaved_operands() {
    let touching_a: &[ValidExtent] = &[(1, 2), (5, 6)];
    let touching_b: &[ValidExtent] = &[(2, 3), (6, 7)];
    check_all_laws(BothOf::new(touching_a, touching_b));
    check_all_laws(OneOf::new(touching_a, touching_b));
    check_all_laws(FollowedBy::new(touching_a, touching_b));
    let interleaved_a: &[ValidExtent] = &[(1, 3), (7, 9), (13, 15)];
    let interleaved_b: &[ValidExtent] = &[(4, 6), (10, 12), (16, 18)];
    check_all_laws(FollowedBy::new(interleaved_a, interleaved_b));
    check_all_laws(ContainedIn::new(interleaved_a, interleaved_b));
}

#[test]
fn boxed_operators_compose() {
    let boxed: Box<ContainedIn<&[ValidExtent], &[ValidExtent]>> =
        Box::new(ContainedIn::new(LEFT, RIGHT));
    assert_eq!((&boxed).iter_tau().into_vec(), ContainedIn::new(LEFT, RIGHT).iter_tau().into_vec());
}

#[test]
fn position_increment_and_decrement_step_by_one() {
    assert_eq!(v(3).increment(), v(4));
    assert_eq!(v(3).decrement(), v(2));
    assert_eq!(v(0).decrement(), Position::NegativeInfinity);
    assert_eq!(v(u64::MAX).increment(), Position::PositiveInfinity);
    assert_eq!(Position::NegativeInfinity.increment(), Position::NegativeInfinity);
    assert_eq!(Position::PositiveInfinity.decrement(), Position::PositiveInfinity);
    assert_eq!(Position::from(7u64), v(7));
}

#[test]
fn extent_unwrap_returns_the_finite_pair() {
    assert_eq!(ext(2, 9).unwrap(), (2, 9));
    assert!(ext(2, 9).is_valid());
    assert!(!Extent(Position::NegativeInfinity, Position::Valid(1)).is_valid());
    assert_eq!(Extent::from((4, 5)), ext(4, 5));
}

#[test]
fn tokenize_splits_text_into_alphabetic_runs() {
    let chars: Vec<char> = "ab cd!ef".chars().collect();
    assert_eq!(strata::tokenize(&chars), [(0, 2), (3, 5), (6, 8)]);
    let chars: Vec<char> = "  one two  ".chars().collect();
    assert_eq!(strata::tokenize(&chars), [(2, 5), (6, 9)]);
    let none: Vec<char> = " 123 .,".chars().collect();
    assert_eq!(strata::tokenize(&none), []);
    let all: Vec<char> = "word".chars().collect();
    assert_eq!(strata::tokenize(&all), [(0, 4)]);
    let empty: Vec<char> = Vec::new();
    assert_eq!(strata::tokenize(&empty), []);
    assert_eq!(strata::tokenize(&['x']), [(0, 1)]);
}

#[test]
fn tokenized_words_serve_as_a_leaf_extent_list() {
    let chars: Vec<char> = "cats like warm mats".chars().collect();
    let words = strata::tokenize(&chars);
    let leaf = &words[..];
    assert_eq!(leaf.tau(v(0)), ext(0, 4));
    assert_eq!((&leaf).iter_tau().into_vec(), words);
}

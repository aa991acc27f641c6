use strata::{Algebra, ContainedIn, Containing, Extent, NotContainedIn, NotContaining, Position,
    ValidExtent};

fn ext(p: u64, q: u64) -> Extent {
    Extent(Position::Valid(p), Position::Valid(q))
}

fn end_extent() -> Extent {
    Extent(Position::PositiveInfinity, Position::PositiveInfinity)
}

fn v(k: u64) -> Position {
    Position::Valid(k)
}

#[test]
fn contained_in_needle_is_fully_within_haystack() {
    let a: &[ValidExtent] = &[(2, 3)];
    let b: &[ValidExtent] = &[(1, 4)];
    let c = ContainedIn::new(a, b);
    assert_eq!(c.tau(v(1)), ext(2, 3));
}

#[test]
fn contained_in_needle_end_matches_haystack_end() {
    let a: &[ValidExtent] = &[(2, 4)];
    let b: &[ValidExtent] = &[(1, 4)];
    let c = ContainedIn::new(a, b);
    assert_eq!(c.tau(v(1)), ext(2, 4));
}

#[test]
fn contained_in_needle_start_matches_haystack_start() {
    let a: &[ValidExtent] = &[(1, 3)];
    let b: &[ValidExtent] = &[(1, 4)];
    let c = ContainedIn::new(a, b);
    assert_eq!(c.tau(v(1)), ext(1, 3));
}

#[test]
fn contained_in_needle_and_haystack_exactly_match() {
    let a: &[ValidExtent] = &[(1, 4)];
    let b: &[ValidExtent] = &[(1, 4)];
    let c = ContainedIn::new(a, b);
    assert_eq!(c.tau(v(1)), ext(1, 4));
}

#[test]
fn contained_in_needle_starts_too_early() {
    let a: &[ValidExtent] = &[(1, 3)];
    let b: &[ValidExtent] = &[(2, 4)];
    let c = ContainedIn::new(a, b);
    assert_eq!(c.tau(v(1)), end_extent());
}

#[test]
fn contained_in_needle_ends_too_late() {
    let a: &[ValidExtent] = &[(2, 5)];
    let b: &[ValidExtent] = &[(1, 4)];
    let c = ContainedIn::new(a, b);
    assert_eq!(c.tau(v(1)), end_extent());
}

#[test]
fn containing_haystack_fully_around_needle() {
    let a: &[ValidExtent] = &[(1, 4)];
    let b: &[ValidExtent] = &[(2, 3)];
    let c = Containing::new(a, b);
    assert_eq!(c.tau(v(1)), ext(1, 4));
}

#[test]
fn containing_haystack_end_matches_needle_end() {
    let a: &[ValidExtent] = &[(1, 4)];
    let b: &[ValidExtent] = &[(2, 4)];
    let c = Containing::new(a, b);
    assert_eq!(c.tau(v(1)), ext(1, 4));
}

#[test]
fn containing_haystack_start_matches_needle_start() {
    let a: &[ValidExtent] = &[(1, 4)];
    let b: &[ValidExtent] = &[(1, 3)];
    let c = Containing::new(a, b);
    assert_eq!(c.tau(v(1)), ext(1, 4));
}

#[test]
fn containing_haystack_and_needle_exactly_match() {
    let a: &[ValidExtent] = &[(1, 4)];
    let b: &[ValidExtent] = &[(1, 4)];
    let c = Containing::new(a, b);
    assert_eq!(c.tau(v(1)), ext(1, 4));
}

#[test]
fn containing_haystack_starts_too_late() {
    let a: &[ValidExtent] = &[(2, 4)];
    let b: &[ValidExtent] = &[(1, 3)];
    let c = Containing::new(a, b);
    assert_eq!(c.tau(v(1)), end_extent());
}

#[test]
fn containing_haystack_ends_too_early() {
    let a: &[ValidExtent] = &[(1, 4)];
    let b: &[ValidExtent] = &[(2, 5)];
    let c = Containing::new(a, b);
    assert_eq!(c.tau(v(1)), end_extent());
}

#[test]
fn not_contained_in_needle_is_fully_within_haystack() {
    let a: &[ValidExtent] = &[(2, 3)];
    let b: &[ValidExtent] = &[(1, 4)];
    let c = NotContainedIn::new(a, b);
    assert_eq!(c.tau(v(1)), end_extent());
}

#[test]
fn not_contained_in_needle_end_matches_haystack_end() {
    let a: &[ValidExtent] = &[(2, 4)];
    let b: &[ValidExtent] = &[(1, 4)];
    let c = NotContainedIn::new(a, b);
    assert_eq!(c.tau(v(1)), end_extent());
}

#[test]
fn not_contained_in_needle_start_matches_haystack_start() {
    let a: &[ValidExtent] = &[(1, 3)];
    let b: &[ValidExtent] = &[(1, 4)];
    let c = NotContainedIn::new(a, b);
    assert_eq!(c.tau(v(1)), end_extent());
}

#[test]
fn not_contained_in_needle_and_haystack_exactly_match() {
    let a: &[ValidExtent] = &[(1, 4)];
    let b: &[ValidExtent] = &[(1, 4)];
    let c = NotContainedIn::new(a, b);
    assert_eq!(c.tau(v(1)), end_extent());
}

#[test]
fn not_contained_in_needle_starts_too_early() {
    let a: &[ValidExtent] = &[(1, 3)];
    let b: &[ValidExtent] = &[(2, 4)];
    let c = NotContainedIn::new(a, b);
    assert_eq!(c.tau(v(1)), ext(1, 3));
}

#[test]
fn not_contained_in_needle_ends_too_late() {
    let a: &[ValidExtent] = &[(2, 5)];
    let b: &[ValidExtent] = &[(1, 4)];
    let c = NotContainedIn::new(a, b);
    assert_eq!(c.tau(v(1)), ext(2, 5));
}

#[test]
fn not_containing_haystack_fully_around_needle() {
    let a: &[ValidExtent] = &[(1, 4)];
    let b: &[ValidExtent] = &[(2, 3)];
    let c = NotContaining::new(a, b);
    assert_eq!(c.tau(v(1)), end_extent());
}

#[test]
fn not_containing_haystack_end_matches_needle_end() {
    let a: &[ValidExtent] = &[(1, 4)];
    let b: &[ValidExtent] = &[(2, 4)];
    let c = NotContaining::new(a, b);
    assert_eq!(c.tau(v(1)), end_extent());
}

#[test]
fn not_containing_haystack_start_matches_needle_start() {
    let a: &[ValidExtent] = &[(1, 4)];
    let b: &[ValidExtent] = &[(1, 3)];
    let c = NotContaining::new(a, b);
    assert_eq!(c.tau(v(1)), end_extent());
}

#[test]
fn not_containing_haystack_and_needle_exactly_match() {
    let a: &[ValidExtent] = &[(1, 4)];
    let b: &[ValidExtent] = &[(1, 4)];
    let c = NotContaining::new(a, b);
    assert_eq!(c.tau(v(1)), end_extent());
}

#[test]
fn not_containing_haystack_starts_too_late() {
    let a: &[ValidExtent] = &[(2, 4)];
    let b: &[ValidExtent] = &[(1, 3)];
    let c = NotContaining::new(a, b);
    assert_eq!(c.tau(v(1)), ext(2, 4));
}

#[test]
fn not_containing_haystack_ends_too_early() {
    let a: &[ValidExtent] = &[(1, 4)];
    let b: &[ValidExtent] = &[(2, 5)];
    let c = NotContaining::new(a, b);
    assert_eq!(c.tau(v(1)), ext(1, 4));
}

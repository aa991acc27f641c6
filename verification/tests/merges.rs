use strata::{Algebra, BothOf, Extent, FollowedBy, OneOf, Position, ValidExtent};

fn ext(p: u64, q: u64) -> Extent {
    Extent(Position::Valid(p), Position::Valid(q))
}

fn end_extent() -> Extent {
    Extent(Position::PositiveInfinity, Position::PositiveInfinity)
}

fn v(k: u64) -> Position {
    Position::Valid(k)
}

fn all_extents<A: Algebra>(a: A) -> Vec<ValidExtent> {
    a.iter_tau().into_vec()
}

#[test]
fn both_of_intersects_empty_lists() {
    let a: &[ValidExtent] = &[];
    let b: &[ValidExtent] = &[];
    let c = BothOf::new(a, b);

    assert_eq!(all_extents(c), []);
}

#[test]
fn both_of_intersects_empty_list_and_nonempty_list() {
    let a: &[ValidExtent] = &[];
    let b: &[ValidExtent] = &[(1, 2)];

    let c = BothOf::new(a, b);
    assert_eq!(all_extents(c), []);

    let c = BothOf::new(b, a);
    assert_eq!(all_extents(c), []);
}

#[test]
fn both_of_intersects_nonempty_lists() {
    let a: &[ValidExtent] = &[(1, 2)];
    let b: &[ValidExtent] = &[(3, 4)];

    let c = BothOf::new(a, b);
    assert_eq!(all_extents(c), [(1, 4)]);

    let c = BothOf::new(b, a);
    assert_eq!(all_extents(c), [(1, 4)]);
}

#[test]
fn both_of_intersects_overlapping_nonnested_lists() {
    let a: &[ValidExtent] = &[(1, 3)];
    let b: &[ValidExtent] = &[(2, 4)];

    let c = BothOf::new(a, b);
    assert_eq!(all_extents(c), [(1, 4)]);

    let c = BothOf::new(b, a);
    assert_eq!(all_extents(c), [(1, 4)]);
}

#[test]
fn both_of_merges_overlapping_nested_lists() {
    let a: &[ValidExtent] = &[(1, 4)];
    let b: &[ValidExtent] = &[(2, 3)];

    let c = BothOf::new(a, b);
    assert_eq!(all_extents(c), [(1, 4)]);

    let c = BothOf::new(b, a);
    assert_eq!(all_extents(c), [(1, 4)]);
}

#[test]
fn both_of_merges_overlapping_lists_nested_at_end() {
    let a: &[ValidExtent] = &[(1, 4)];
    let b: &[ValidExtent] = &[(2, 4)];

    let c = BothOf::new(a, b);
    assert_eq!(all_extents(c), [(1, 4)]);

    let c = BothOf::new(b, a);
    assert_eq!(all_extents(c), [(1, 4)]);
}

#[test]
fn both_of_merges_overlapping_lists_nested_at_start() {
    let a: &[ValidExtent] = &[(1, 4)];
    let b: &[ValidExtent] = &[(1, 3)];

    let c = BothOf::new(a, b);
    assert_eq!(all_extents(c), [(1, 4)]);

    let c = BothOf::new(b, a);
    assert_eq!(all_extents(c), [(1, 4)]);
}

#[test]
fn both_of_lists_have_extents_starting_after_point() {
    let a: &[ValidExtent] = &[(1, 2)];
    let b: &[ValidExtent] = &[(3, 4)];
    let c = BothOf::new(a, b);
    assert_eq!(c.tau(v(1)), ext(1, 4));
}

#[test]
fn both_of_lists_do_not_have_extents_starting_after_point() {
    let a: &[ValidExtent] = &[(1, 2)];
    let b: &[ValidExtent] = &[(3, 4)];
    let c = BothOf::new(a, b);
    assert_eq!(c.tau(v(5)), end_extent());
}

#[test]
fn one_of_merges_empty_lists() {
    let a: &[ValidExtent] = &[];
    let b: &[ValidExtent] = &[];
    let c = OneOf::new(a, b);

    assert_eq!(all_extents(c), []);
}

#[test]
fn one_of_merges_empty_list_and_nonempty_list() {
    let a: &[ValidExtent] = &[];
    let b: &[ValidExtent] = &[(1, 2)];

    let c = OneOf::new(a, b);
    assert_eq!(all_extents(c), [(1, 2)]);

    let c = OneOf::new(b, a);
    assert_eq!(all_extents(c), [(1, 2)]);
}

#[test]
fn one_of_merges_nonempty_lists() {
    let a: &[ValidExtent] = &[(1, 2)];
    let b: &[ValidExtent] = &[(3, 4)];

    let c = OneOf::new(a, b);
    assert_eq!(all_extents(c), [(1, 2), (3, 4)]);

    let c = OneOf::new(b, a);
    assert_eq!(all_extents(c), [(1, 2), (3, 4)]);
}

#[test]
fn one_of_merges_overlapping_nonnested_lists() {
    let a: &[ValidExtent] = &[(1, 3)];
    let b: &[ValidExtent] = &[(2, 4)];

    let c = OneOf::new(a, b);
    assert_eq!(all_extents(c), [(1, 3), (2, 4)]);

    let c = OneOf::new(b, a);
    assert_eq!(all_extents(c), [(1, 3), (2, 4)]);
}

#[test]
fn one_of_merges_overlapping_nested_lists() {
    let a: &[ValidExtent] = &[(1, 4)];
    let b: &[ValidExtent] = &[(2, 3)];

    let c = OneOf::new(a, b);
    assert_eq!(all_extents(c), [(2, 3)]);

    let c = OneOf::new(b, a);
    assert_eq!(all_extents(c), [(2, 3)]);
}

#[test]
fn one_of_merges_overlapping_lists_nested_at_end() {
    let a: &[ValidExtent] = &[(1, 4)];
    let b: &[ValidExtent] = &[(2, 4)];

    let c = OneOf::new(a, b);
    assert_eq!(all_extents(c), [(2, 4)]);

    let c = OneOf::new(b, a);
    assert_eq!(all_extents(c), [(2, 4)]);
}

#[test]
fn one_of_merges_overlapping_lists_nested_at_start() {
    let a: &[ValidExtent] = &[(1, 4)];
    let b: &[ValidExtent] = &[(1, 3)];

    let c = OneOf::new(a, b);
    assert_eq!(all_extents(c), [(1, 3)]);

    let c = OneOf::new(b, a);
    assert_eq!(all_extents(c), [(1, 3)]);
}

#[test]
fn one_of_rho_one_empty_list() {
    let a: &[ValidExtent] = &[];
    let b: &[ValidExtent] = &[(1, 2)];
    let c = OneOf::new(a, b);

    assert_eq!(c.rho(v(0)), ext(1, 2));
    assert_eq!(c.rho(v(1)), ext(1, 2));
    assert_eq!(c.rho(v(2)), ext(1, 2));
    assert_eq!(c.rho(v(3)), end_extent());
}

#[test]
fn one_of_rho_nested_extents() {
    let a: &[ValidExtent] = &[(2, 3)];
    let b: &[ValidExtent] = &[(1, 5)];
    let c = OneOf::new(a, b);

    assert_eq!(c.rho(v(0)), ext(2, 3));
    assert_eq!(c.rho(v(1)), ext(2, 3));
    assert_eq!(c.rho(v(2)), ext(2, 3));
    assert_eq!(c.rho(v(3)), ext(2, 3));
    assert_eq!(c.rho(v(4)), end_extent());
}

#[test]
fn one_of_rho_nested_extents_with_trailing_extent() {
    let a: &[ValidExtent] = &[(1, 5)];
    let b: &[ValidExtent] = &[(2, 3), (6, 7)];
    let c = OneOf::new(a, b);

    assert_eq!(c.rho(v(4)), ext(6, 7));
}

#[test]
fn one_of_rho_overlapping_extents() {
    let a: &[ValidExtent] = &[(1, 4), (2, 7)];
    let b: &[ValidExtent] = &[(3, 6)];
    let c = OneOf::new(a, b);

    assert_eq!(c.rho(v(4)), ext(1, 4));
}

#[test]
fn one_of_rho_overlapping_and_nested_extents() {
    let a: &[ValidExtent] = &[(11, 78)];
    let b: &[ValidExtent] = &[(9, 60), (11, 136)];
    let c = OneOf::new(a, b);

    assert_eq!(c.rho(v(12)), ext(9, 60));
}

#[test]
fn followed_by_empty_lists() {
    let a: &[ValidExtent] = &[];
    let b: &[ValidExtent] = &[];
    let c = FollowedBy::new(a, b);
    assert_eq!(all_extents(c), []);
}

#[test]
fn followed_by_one_empty_list() {
    let a: &[ValidExtent] = &[(1, 2)];
    let b: &[ValidExtent] = &[];

    let c = FollowedBy::new(a, b);
    assert_eq!(all_extents(c), []);

    let c = FollowedBy::new(b, a);
    assert_eq!(all_extents(c), []);
}

#[test]
fn followed_by_overlapping() {
    let a: &[ValidExtent] = &[(1, 2)];
    let b: &[ValidExtent] = &[(2, 3)];
    let c = FollowedBy::new(a, b);
    assert_eq!(all_extents(c), []);
}

#[test]
fn followed_by_in_ascending_order() {
    let a: &[ValidExtent] = &[(1, 2)];
    let b: &[ValidExtent] = &[(3, 4)];
    let c = FollowedBy::new(a, b);
    assert_eq!(all_extents(c), [(1, 4)]);
}

#[test]
fn followed_by_in_descending_order() {
    let a: &[ValidExtent] = &[(3, 4)];
    let b: &[ValidExtent] = &[(1, 2)];
    let c = FollowedBy::new(a, b);
    assert_eq!(all_extents(c), []);
}

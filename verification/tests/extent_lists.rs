use strata::{Algebra, Documents, Extent, Position, ValidExtent};

fn ext(p: u64, q: u64) -> Extent {
    Extent(Position::Valid(p), Position::Valid(q))
}

fn end_extent() -> Extent {
    Extent(Position::PositiveInfinity, Position::PositiveInfinity)
}

fn start_extent() -> Extent {
    Extent(Position::NegativeInfinity, Position::NegativeInfinity)
}

fn v(k: u64) -> Position {
    Position::Valid(k)
}

fn doc_k(idx: u32, offset: u32) -> Position {
    Position::Valid((idx as u64) << 32 | offset as u64)
}

fn doc_extent(idx: u32) -> Extent {
    let start = (idx as u64) << 32;
    ext(start, start + 0xFFFF_FFFF)
}

#[test]
fn extent_list_tau_finds_extents_that_start_at_same_point() {
    let a: &[ValidExtent] = &[(1, 1), (2, 2)];
    assert_eq!(a.tau(v(1)), ext(1, 1));
    assert_eq!(a.tau(v(2)), ext(2, 2));
}

#[test]
fn extent_list_tau_finds_first_extent_starting_after_point() {
    let a: &[ValidExtent] = &[(3, 4)];
    assert_eq!(a.tau(v(1)), ext(3, 4));
}

#[test]
fn extent_list_tau_returns_end_marker_if_no_match() {
    let a: &[ValidExtent] = &[(1, 3)];
    assert_eq!(a.tau(v(2)), end_extent());
}

#[test]
fn extent_list_rho_finds_extents_that_end_at_same_point() {
    let a: &[ValidExtent] = &[(1, 1), (2, 2)];
    assert_eq!(a.rho(v(1)), ext(1, 1));
    assert_eq!(a.rho(v(2)), ext(2, 2));
}

#[test]
fn extent_list_rho_finds_first_extent_ending_after_point() {
    let a: &[ValidExtent] = &[(3, 4)];
    assert_eq!(a.rho(v(1)), ext(3, 4));
}

#[test]
fn extent_list_rho_returns_end_marker_if_no_match() {
    let a: &[ValidExtent] = &[(1, 3)];
    assert_eq!(a.rho(v(4)), end_extent());
}

#[test]
fn extent_list_tau_prime_finds_last_extent_ending_before_point() {
    let a: &[ValidExtent] = &[(1, 2), (3, 4)];
    assert_eq!(a.tau_prime(v(4)), ext(3, 4));
    assert_eq!(a.tau_prime(v(3)), ext(1, 2));
    assert_eq!(a.tau_prime(v(1)), start_extent());
}

#[test]
fn extent_list_rho_prime_finds_last_extent_starting_before_point() {
    let a: &[ValidExtent] = &[(1, 2), (3, 4)];
    assert_eq!(a.rho_prime(v(4)), ext(3, 4));
    assert_eq!(a.rho_prime(v(2)), ext(1, 2));
    assert_eq!(a.rho_prime(v(0)), start_extent());
}

#[test]
fn extent_list_sentinel_queries_short_circuit() {
    let a: &[ValidExtent] = &[(1, 2), (3, 4)];
    assert_eq!(a.tau(Position::PositiveInfinity), end_extent());
    assert_eq!(a.rho(Position::PositiveInfinity), end_extent());
    assert_eq!(a.tau_prime(Position::NegativeInfinity), start_extent());
    assert_eq!(a.rho_prime(Position::NegativeInfinity), start_extent());
}

#[test]
fn empty_operator_finds_nothing() {
    let e = strata::Empty;
    assert_eq!(e.tau(v(0)), end_extent());
    assert_eq!(e.rho(v(0)), end_extent());
    assert_eq!(e.tau_prime(v(7)), start_extent());
    assert_eq!(e.rho_prime(v(7)), start_extent());
    assert_eq!((&e).iter_tau().into_vec(), []);
}

#[test]
fn document_tau_at_document_start() {
    let d = Documents::new(10);
    assert_eq!(d.tau(doc_k(1, 0)), doc_extent(1));
}

#[test]
fn document_tau_at_document_end() {
    let d = Documents::new(10);
    assert_eq!(d.tau(doc_k(1, u32::MAX)), doc_extent(2));
}

#[test]
fn document_tau_between_document_boundaries() {
    let d = Documents::new(10);
    assert_eq!(d.tau(doc_k(1, 42)), doc_extent(2));
}

#[test]
fn document_tau_at_directional_end() {
    let d = Documents::new(10);
    assert_eq!(d.tau(doc_k(10, 1)), end_extent())
}

#[test]
fn document_tau_prime_at_document_start() {
    let d = Documents::new(10);
    assert_eq!(d.tau_prime(doc_k(1, 0)), doc_extent(0));
}

#[test]
fn document_tau_prime_at_document_end() {
    let d = Documents::new(10);
    assert_eq!(d.tau_prime(doc_k(1, u32::MAX)), doc_extent(1));
}

#[test]
fn document_tau_prime_between_document_boundaries() {
    let d = Documents::new(10);
    assert_eq!(d.tau_prime(doc_k(1, 42)), doc_extent(0));
}

#[test]
fn document_tau_prime_before_directional_start() {
    let d = Documents::new(10);
    assert_eq!(d.tau_prime(doc_k(20, 0)), doc_extent(9))
}

#[test]
fn document_tau_prime_at_directional_end() {
    let d = Documents::new(10);
    assert_eq!(d.tau_prime(doc_k(0, u32::MAX - 1)), start_extent())
}

#[test]
fn document_rho_at_document_start() {
    let d = Documents::new(10);
    assert_eq!(d.rho(doc_k(1, 0)), doc_extent(1));
}

#[test]
fn document_rho_at_document_end() {
    let d = Documents::new(10);
    assert_eq!(d.rho(doc_k(1, u32::MAX)), doc_extent(1));
}

#[test]
fn document_rho_between_document_boundaries() {
    let d = Documents::new(10);
    assert_eq!(d.rho(doc_k(1, 42)), doc_extent(1));
}

#[test]
fn document_rho_at_directional_end() {
    let d = Documents::new(10);
    assert_eq!(d.rho(doc_k(11, 0)), end_extent())
}

#[test]
fn document_rho_prime_at_document_start() {
    let d = Documents::new(10);
    assert_eq!(d.rho_prime(doc_k(1, 0)), doc_extent(1));
}

#[test]
fn document_rho_prime_at_document_end() {
    let d = Documents::new(10);
    assert_eq!(d.rho_prime(doc_k(1, u32::MAX)), doc_extent(1));
}

#[test]
fn document_rho_prime_between_document_boundaries() {
    let d = Documents::new(10);
    assert_eq!(d.rho_prime(doc_k(1, 42)), doc_extent(1));
}

#[test]
fn document_rho_prime_before_directional_start() {
    let d = Documents::new(10);
    assert_eq!(d.rho_prime(doc_k(20, 0)), doc_extent(9))
}

#[test]
fn document_rho_prime_at_directional_end() {
    let d = Documents::new(10);
    assert_eq!(d.rho_prime(doc_k(0, 0)), doc_extent(0))
}

#[test]
fn document_iteration_lists_every_document() {
    let d = Documents::new(3);
    assert_eq!(
        d.iter_tau().into_vec(),
        [
            (0, 0xFFFF_FFFF),
            (1 << 32, (1 << 32) + 0xFFFF_FFFF),
            (2 << 32, (2 << 32) + 0xFFFF_FFFF),
        ]
    );
    assert_eq!(d.iter_rho().into_vec(), d.iter_tau().into_vec());
}

use morpion::hashed::{Candidates, LineSet};
use morpion::line::{Direction, Line};
use morpion::methods::{
    cmp_hpm, cmp_mnx_hpm, cmp_packed, cmp_quad_hpm, spm_intoiter, spm_intoiter_rev, store_hs,
    store_npm_s_p, store_sorted, store_v, v_eq, v_hs_eq, v_sorted_eq,
};
use morpion::point::Point;
use std::cmp::Ordering;

fn line(x: i16, y: i16, direction: Direction) -> Line {
    Line { start_x: x, start_y: y, direction }
}

#[test]
fn cmp_hpm_orders_by_the_estimate() {
    let l = line(0, 0, Direction::H);
    let p = Point::new(4, 0);
    assert_eq!(cmp_hpm(&(3, l, p), &(5, l, p)), Ordering::Less);
    assert_eq!(cmp_hpm(&(5, l, p), &(3, l, p)), Ordering::Greater);
    assert_eq!(cmp_hpm(&(4, l, p), &(4, line(9, 9, Direction::V), Point::new(-9, 0))), Ordering::Equal);
}

#[test]
fn cmp_mnx_hpm_orders_by_x_and_then_by_the_estimate() {
    let l = line(0, 0, Direction::H);
    assert_eq!(cmp_mnx_hpm(&(9, l, Point::new(-2, 0)), &(1, l, Point::new(3, 0))), Ordering::Less);
    assert_eq!(cmp_mnx_hpm(&(1, l, Point::new(3, 0)), &(9, l, Point::new(-2, 0))), Ordering::Greater);
    assert_eq!(cmp_mnx_hpm(&(1, l, Point::new(3, 7)), &(9, l, Point::new(3, -7))), Ordering::Less);
    assert_eq!(cmp_mnx_hpm(&(9, l, Point::new(3, 7)), &(1, l, Point::new(3, -7))), Ordering::Greater);
    assert_eq!(cmp_mnx_hpm(&(5, l, Point::new(3, 7)), &(5, l, Point::new(3, -7))), Ordering::Equal);
}

#[test]
fn cmp_quad_hpm_orders_by_the_quadrant_and_then_by_the_estimate() {
    let p = Point::new(0, 0);
    let q0 = line(1, 1, Direction::H);
    let q1 = line(-1, 1, Direction::H);
    let q2 = line(-1, -1, Direction::H);
    let q3 = line(1, -1, Direction::H);
    assert_eq!(cmp_quad_hpm(&(9, q0, p), &(1, q1, p)), Ordering::Less);
    assert_eq!(cmp_quad_hpm(&(9, q1, p), &(1, q2, p)), Ordering::Less);
    assert_eq!(cmp_quad_hpm(&(9, q2, p), &(1, q3, p)), Ordering::Less);
    assert_eq!(cmp_quad_hpm(&(1, q3, p), &(9, q0, p)), Ordering::Greater);
    assert_eq!(cmp_quad_hpm(&(1, q2, p), &(9, q2, p)), Ordering::Less);
    assert_eq!(cmp_quad_hpm(&(9, q2, p), &(1, q2, p)), Ordering::Greater);
    assert_eq!(cmp_quad_hpm(&(4, q2, p), &(4, line(-5, -9, Direction::V), p)), Ordering::Equal);
}

#[test]
fn v_eq_compares_entry_by_entry() {
    let a = vec![line(0, 0, Direction::H), line(1, 1, Direction::V)];
    let b = vec![line(0, 0, Direction::H), line(1, 1, Direction::V)];
    let swapped = vec![line(1, 1, Direction::V), line(0, 0, Direction::H)];
    let shorter = vec![line(0, 0, Direction::H)];
    let other = vec![line(0, 0, Direction::H), line(1, 1, Direction::SP)];
    assert!(v_eq(&a, &b));
    assert!(!v_eq(&a, &swapped));
    assert!(!v_eq(&a, &shorter));
    assert!(!v_eq(&shorter, &a));
    assert!(!v_eq(&a, &other));
    assert!(v_eq(&Vec::new(), &Vec::new()));
}

#[test]
fn v_hs_eq_compares_the_lines_in_any_order() {
    let mut hs = LineSet::new();
    hs.insert(line(0, 0, Direction::H));
    hs.insert(line(1, 1, Direction::V));
    assert!(v_hs_eq(&hs, &vec![line(0, 0, Direction::H), line(1, 1, Direction::V)]));
    assert!(v_hs_eq(&hs, &vec![line(1, 1, Direction::V), line(0, 0, Direction::H)]));
    assert!(!v_hs_eq(&hs, &vec![line(0, 0, Direction::H)]));
    assert!(!v_hs_eq(&hs, &vec![line(0, 0, Direction::H), line(1, 1, Direction::SP)]));
    assert!(!v_hs_eq(
        &hs,
        &vec![line(0, 0, Direction::H), line(1, 1, Direction::V), line(2, 2, Direction::V)]
    ));
    assert!(v_hs_eq(&LineSet::new(), &Vec::new()));
}

#[test]
fn store_hs_adds_a_set_to_the_row_of_its_length() {
    let mut table: Vec<Vec<LineSet>> = vec![Vec::new(), Vec::new(), Vec::new()];
    let config = vec![line(0, 0, Direction::H), line(1, 1, Direction::V)];
    store_hs(&mut table, &config);
    assert_eq!(table.len(), 3);
    assert_eq!(table[0].len(), 0);
    assert_eq!(table[1].len(), 1);
    assert_eq!(table[2].len(), 0);
    assert_eq!(table[1][0].len(), 2);
    assert!(table[1][0].contains(&config[0]));
    assert!(table[1][0].contains(&config[1]));
    assert!(v_hs_eq(&table[1][0], &config));
    store_hs(&mut table, &vec![line(5, 5, Direction::SN)]);
    store_hs(&mut table, &vec![line(5, 5, Direction::SN), line(6, 6, Direction::SN)]);
    assert_eq!(table[0].len(), 1);
    assert_eq!(table[1].len(), 2);
    assert!(v_hs_eq(&table[1][0], &config));
    assert!(!v_hs_eq(&table[1][1], &config));
}

#[test]
fn store_v_adds_a_copy_to_the_row_of_its_length() {
    let mut table: Vec<Vec<Vec<Line>>> = vec![Vec::new(), Vec::new(), Vec::new()];
    let config = vec![line(3, 3, Direction::V), line(0, 0, Direction::H), line(1, 1, Direction::V)];
    store_v(&mut table, &config);
    assert_eq!(table.len(), 3);
    assert_eq!(table[0].len(), 0);
    assert_eq!(table[1].len(), 0);
    assert_eq!(table[2], vec![config.clone()]);
    store_v(&mut table, &config);
    assert_eq!(table[2], vec![config.clone(), config.clone()]);
    let single = vec![line(9, 9, Direction::H)];
    store_v(&mut table, &single);
    assert_eq!(table[0], vec![single]);
}

#[test]
fn store_npm_s_p_records_the_candidate() {
    let mut moves = Candidates::new();
    let l = line(0, 0, Direction::H);
    store_npm_s_p(&mut moves, 12, l, Point::new(4, 0));
    store_npm_s_p(&mut moves, 12, l, Point::new(4, 0));
    store_npm_s_p(&mut moves, 13, l, Point::new(0, 0));
    assert_eq!(moves.len(), 2);
    let mut items = moves.into_vec();
    items.sort_by_key(|(n, _, _)| *n);
    assert_eq!(items, vec![(12, l, Point::new(4, 0)), (13, l, Point::new(0, 0))]);
}

#[test]
fn spm_intoiter_keeps_the_order_and_drops_the_estimate() {
    let a = (1, line(0, 0, Direction::H), Point::new(4, 0));
    let b = (2, line(1, 1, Direction::V), Point::new(1, 5));
    let c = (3, line(2, 2, Direction::SP), Point::new(2, 2));
    assert_eq!(spm_intoiter(vec![a, b, c]), vec![(a.1, a.2), (b.1, b.2), (c.1, c.2)]);
    assert_eq!(spm_intoiter(Vec::new()), Vec::new());
}

#[test]
fn spm_intoiter_rev_reverses_the_order_and_drops_the_estimate() {
    let a = (1, line(0, 0, Direction::H), Point::new(4, 0));
    let b = (2, line(1, 1, Direction::V), Point::new(1, 5));
    let c = (3, line(2, 2, Direction::SP), Point::new(2, 2));
    assert_eq!(spm_intoiter_rev(vec![a, b, c]), vec![(c.1, c.2), (b.1, b.2), (a.1, a.2)]);
    assert_eq!(spm_intoiter_rev(vec![a]), vec![(a.1, a.2)]);
    assert_eq!(spm_intoiter_rev(Vec::new()), Vec::new());
}

#[test]
fn v_sorted_eq_compares_a_sorted_list_with_the_lines_in_any_order() {
    let a = line(0, 0, Direction::V);
    let b = line(5, -3, Direction::V);
    let c = line(-2, 1, Direction::H);
    assert!(a.packed() < b.packed() && b.packed() < c.packed());
    let sorted = vec![a, b, c];
    assert!(v_sorted_eq(&sorted, &vec![c, a, b]));
    assert!(v_sorted_eq(&sorted, &vec![a, b, c]));
    assert!(!v_sorted_eq(&sorted, &vec![a, b]));
    assert!(!v_sorted_eq(&sorted, &vec![a, b, line(9, 9, Direction::SN)]));
    assert!(!v_sorted_eq(&vec![c, a, b], &vec![c, a, b]));
    assert!(v_sorted_eq(&Vec::new(), &Vec::new()));
}

#[test]
fn store_sorted_adds_the_sorted_lines_to_the_row_of_their_number() {
    let a = line(0, 0, Direction::V);
    let b = line(5, -3, Direction::V);
    let c = line(-2, 1, Direction::H);
    let mut table: Vec<Vec<Vec<Line>>> = vec![Vec::new(), Vec::new(), Vec::new()];
    store_sorted(&mut table, &vec![c, a, b]);
    assert_eq!(table[0].len(), 0);
    assert_eq!(table[1].len(), 0);
    assert_eq!(table[2], vec![vec![a, b, c]]);
    store_sorted(&mut table, &vec![b, a]);
    assert_eq!(table[1], vec![vec![a, b]]);
    assert_eq!(table[2], vec![vec![a, b, c]]);
    assert!(v_sorted_eq(&table[2][0], &vec![b, c, a]));
}

#[test]
fn cmp_packed_orders_by_the_axis_and_then_by_the_anchor() {
    let a = line(0, 0, Direction::V);
    let b = line(5, -3, Direction::V);
    let c = line(-2, 1, Direction::H);
    assert_eq!(cmp_packed(&a, &b), Ordering::Less);
    assert_eq!(cmp_packed(&b, &c), Ordering::Less);
    assert_eq!(cmp_packed(&c, &a), Ordering::Greater);
    assert_eq!(cmp_packed(&b, &line(5, -3, Direction::V)), Ordering::Equal);
    assert_eq!(cmp_packed(&line(0, 1, Direction::SN), &line(0, 2, Direction::SN)), Ordering::Less);
}

use vyges_fin::geometry::{Point, Rect};
use vyges_fin::outline::{outline_rects, point_in_outline, polygon_region};
use vyges_fin::region::Region;

fn of(r: &[(i32, i32, i32, i32)]) -> Region {
    let rects: Vec<Rect> = r
        .iter()
        .map(|&(a, b, c, d)| Rect::new(a, b, c, d))
        .collect();
    Region::from_rects(&rects)
}

fn points(p: &[(i32, i32)]) -> Vec<Point> {
    p.iter().map(|&(x, y)| Point { x, y }).collect()
}

/// The cells of a region within a small window.
fn cells(r: &Region) -> Vec<(i32, i32)> {
    let mut out = Vec::new();
    for x in -20..40 {
        for y in -20..40 {
            if r.contains(x, y) {
                out.push((x, y));
            }
        }
    }
    out
}

#[test]
fn set_operations_act_cell_by_cell() {
    let a = of(&[(0, 0, 10, 10), (15, 3, 20, 8)]);
    let b = of(&[(5, 5, 18, 12)]);
    let (ca, cb) = (cells(&a), cells(&b));
    let both = cells(&a.intersection(&b));
    let either = cells(&a.union(&b));
    let only = cells(&a.difference(&b));
    for x in -20..40 {
        for y in -20..40 {
            let (ina, inb) = (ca.contains(&(x, y)), cb.contains(&(x, y)));
            assert_eq!(both.contains(&(x, y)), ina && inb);
            assert_eq!(either.contains(&(x, y)), ina || inb);
            assert_eq!(only.contains(&(x, y)), ina && !inb);
        }
    }
    assert_eq!(a.area(), 125);
    assert_eq!(b.area(), 91);
    assert_eq!(a.union(&b).area(), 125 + 91 - 25 - 9);
}

#[test]
fn overlapping_rectangles_count_once() {
    assert_eq!(of(&[(0, 0, 10, 10), (5, 0, 15, 10)]).area(), 150);
    assert_eq!(of(&[(0, 0, 0, 10), (3, 3, 2, 9)]).area(), 0);
    assert!(of(&[(0, 0, 0, 10)]).is_empty());
    assert!(Region::new().is_empty());
}

#[test]
fn bloating_and_shrinking_move_every_edge() {
    let a = of(&[(0, 0, 10, 6)]);
    assert_eq!(a.bloat(2, 3).bounds(), Some(Rect::new(-2, -3, 12, 9)));
    assert_eq!(a.shrink(2, 1).bounds(), Some(Rect::new(2, 1, 8, 5)));
    assert!(a.shrink(5, 0).is_empty());
    assert!(a.shrink(0, 3).is_empty());
    assert_eq!(a.shrink(4, 2).area(), 4);
    assert_eq!(a.bloat(0, 0).area(), 60);
}

#[test]
fn opening_deletes_what_is_too_narrow() {
    // A block with a sliver on its right.
    let a = of(&[(0, 0, 10, 10), (10, 4, 20, 6)]);
    let opened = a.shrink(2, 2).bloat(2, 2);
    assert_eq!(opened.bounds(), Some(Rect::new(0, 0, 10, 10)));
    assert_eq!(opened.area(), 100);
}

#[test]
fn bloating_stops_at_the_ends_of_the_coordinates() {
    let a = of(&[(i32::MAX - 5, 0, i32::MAX, 5), (i32::MIN, 0, i32::MIN + 5, 5)]);
    let b = a.bloat(10, 0).bounds().unwrap();
    assert_eq!((b.x0, b.x1), (i32::MIN, i32::MAX));
}

#[test]
fn bounds_are_those_of_the_cells() {
    assert_eq!(Region::new().bounds(), None);
    assert_eq!(
        of(&[(3, 4, 5, 6), (-7, 9, -6, 11), (0, 0, 0, 90)]).bounds(),
        Some(Rect::new(-7, 4, 5, 11))
    );
}

#[test]
fn pieces_share_edges_and_not_corners() {
    // Two that share an edge, one that touches them at a corner only.
    let a = of(&[(10, 10, 20, 20), (0, 0, 5, 10), (5, 0, 10, 10)]);
    let pieces = a.pieces();
    assert_eq!(pieces.len(), 2);
    assert_eq!(pieces[0].bounds(), Some(Rect::new(0, 0, 10, 10)));
    assert_eq!(pieces[1].bounds(), Some(Rect::new(10, 10, 20, 20)));
    assert_eq!(Region::new().pieces().len(), 0);
}

#[test]
fn pieces_come_by_their_first_column() {
    let a = of(&[(8, 0, 9, 1), (0, 5, 1, 6), (0, 0, 1, 1), (4, 0, 5, 1)]);
    let firsts: Vec<(i32, i32)> = a
        .pieces()
        .iter()
        .map(|p| {
            let b = p.bounds().unwrap();
            (b.x0, b.y0)
        })
        .collect();
    assert_eq!(firsts, vec![(0, 0), (0, 5), (4, 0), (8, 0)]);
}

#[test]
fn a_rectangle_is_covered_by_several() {
    let a = of(&[(0, 0, 5, 10), (5, 0, 10, 10)]);
    assert!(a.covers_rect(Rect::new(2, 2, 8, 8)));
    assert!(!a.covers_rect(Rect::new(2, 2, 11, 8)));
    assert!(a.covers_rect(Rect::new(50, 50, 50, 60)));
}

#[test]
fn an_outline_becomes_the_rectangles_it_encloses() {
    // An L.
    let l = points(&[(0, 0), (10, 0), (10, 4), (4, 4), (4, 10), (0, 10)]);
    let r = Region::from_rects(&outline_rects(&l));
    assert_eq!(r.area(), 40 + 24);
    assert!(r.contains(9, 3) && r.contains(3, 9) && !r.contains(4, 4));
    assert!(point_in_outline(&l, 3, 3));
    assert!(!point_in_outline(&l, 5, 5));
}

#[test]
fn an_outline_one_wide_below_zero_is_enclosed() {
    let l = points(&[(-3, -3), (-2, -3), (-2, -2), (-3, -2)]);
    assert_eq!(outline_rects(&l), vec![Rect::new(-3, -3, -2, -2)]);
}

#[test]
fn an_outline_of_nothing_encloses_nothing() {
    assert!(outline_rects(&Vec::new()).is_empty());
    assert!(!point_in_outline(&Vec::new(), 0, 0));
}

#[test]
fn holes_are_taken_out_of_a_polygon() {
    let outer = points(&[(0, 0), (10, 0), (10, 10), (0, 10)]);
    let hole = points(&[(2, 2), (4, 2), (4, 5), (2, 5)]);
    let r = polygon_region(&outer, &vec![hole]);
    assert_eq!(r.area(), 100 - 6);
    assert!(!r.contains(3, 3) && r.contains(5, 3));
}

#[test]
fn a_rectangle_knows_its_size() {
    let r = Rect::new(-3, 2, 7, 5);
    assert_eq!((r.width(), r.height(), r.is_empty()), (10, 3, false));
    assert!(Rect::new(1, 1, 1, 5).is_empty() && Rect::new(1, 5, 2, 4).is_empty());
}

use vyges_fin::geometry::Rect;
use vyges_fin::region::Region;
use vyges_fin::{fill_area, prune, spacing, Fill, ShapeCfg};

fn set(r: &[(i32, i32, i32, i32)]) -> Region {
    Region::from_rects(
        &r.iter()
            .map(|&(a, b, c, d)| Rect::new(a, b, c, d))
            .collect::<Vec<_>>(),
    )
}

#[test]
fn line_end_spacing_applies_along_the_routing_direction_only() {
    let cfg = ShapeCfg {
        space_to_fill: 100,
        space_line_end: 400,
        ..Default::default()
    };
    assert_eq!(
        spacing(true, &cfg),
        (400, 100),
        "horizontal: the x gap grows"
    );
    assert_eq!(
        spacing(false, &cfg),
        (100, 400),
        "vertical: the y gap grows"
    );
    let plain = ShapeCfg {
        space_to_fill: 100,
        ..Default::default()
    };
    assert_eq!(spacing(true, &plain), (100, 100));
}

#[test]
fn the_long_side_of_a_shape_follows_the_routing_direction() {
    let cfg = ShapeCfg {
        shapes: vec![(100, 400)],
        space_to_fill: 0,
        ..Default::default()
    };
    let area = set(&[(0, 0, 10_000, 10_000)]);
    let horiz = fill_area(&area, true, &cfg, 1, false);
    assert!(
        horiz
            .iter()
            .all(|f| f.rect.width() == 400 && f.rect.height() == 100),
        "a horizontal layer lays the shape on its side"
    );
    let vert = fill_area(&area, false, &cfg, 1, false);
    assert!(vert
        .iter()
        .all(|f| f.rect.width() == 100 && f.rect.height() == 400));
}

#[test]
fn every_fill_is_a_whole_shape_of_a_declared_size() {
    // The property that matters most: a clipped tile is the wrong size, and a wrong-sized
    // fill is a DRC violation rather than a smaller fill.
    let cfg = ShapeCfg {
        shapes: vec![(1000, 1000), (300, 300)],
        space_to_fill: 100,
        ..Default::default()
    };
    // A deliberately awkward area: not a multiple of any shape, with a notch.
    let area = set(&[(0, 0, 4321, 2345)]).difference(&set(&[(1000, 1000, 1500, 1500)]));
    let fills = fill_area(&area, true, &cfg, 1, false);
    assert!(!fills.is_empty(), "an area this size can hold fill");
    for f in &fills {
        let (w, h) = (f.rect.width(), f.rect.height());
        assert!(
            cfg.shapes.contains(&(w, h)),
            "fill {w}x{h} is not a declared size: {:?}",
            cfg.shapes
        );
    }
}

#[test]
fn fill_never_lands_outside_the_area_it_was_given() {
    let cfg = ShapeCfg {
        shapes: vec![(500, 500)],
        space_to_fill: 100,
        ..Default::default()
    };
    let area = set(&[(0, 0, 5000, 5000)]).difference(&set(&[(2000, 2000, 3000, 3000)]));
    for f in fill_area(&area, true, &cfg, 1, false) {
        let corners = [
            (f.rect.x0, f.rect.y0),
            (f.rect.x1 - 1, f.rect.y0),
            (f.rect.x0, f.rect.y1 - 1),
            (f.rect.x1 - 1, f.rect.y1 - 1),
        ];
        for (x, y) in corners {
            assert!(
                area.contains(x, y),
                "fill {:?} reaches outside the area",
                f.rect
            );
        }
    }
}

#[test]
fn two_fills_are_never_closer_than_the_spacing() {
    let cfg = ShapeCfg {
        shapes: vec![(700, 700), (300, 300)],
        space_to_fill: 200,
        ..Default::default()
    };
    let area = set(&[(0, 0, 6000, 4000)]);
    let fills = fill_area(&area, true, &cfg, 1, false);
    assert!(fills.len() > 4, "enough fills to be worth checking");
    for (i, a) in fills.iter().enumerate() {
        for b in &fills[i + 1..] {
            // Two rectangles are far enough apart if they are separated on either axis.
            let apart_x = a.rect.x1 + 200 <= b.rect.x0 || b.rect.x1 + 200 <= a.rect.x0;
            let apart_y = a.rect.y1 + 200 <= b.rect.y0 || b.rect.y1 + 200 <= a.rect.y0;
            assert!(
                apart_x || apart_y,
                "{:?} and {:?} are too close",
                a.rect,
                b.rect
            );
        }
    }
}

#[test]
fn a_region_too_small_for_any_shape_gets_no_fill() {
    let cfg = ShapeCfg {
        shapes: vec![(1000, 1000)],
        space_to_fill: 100,
        ..Default::default()
    };
    assert!(fill_area(&set(&[(0, 0, 500, 500)]), true, &cfg, 1, false).is_empty());
    assert!(fill_area(&Region::new(), true, &cfg, 1, false).is_empty());
}

#[test]
fn masks_cycle_and_a_single_mask_layer_writes_none() {
    let cfg = ShapeCfg {
        shapes: vec![(500, 500)],
        space_to_fill: 100,
        ..Default::default()
    };
    let area = set(&[(0, 0, 5000, 2000)]);

    let single = fill_area(&area, true, &cfg, 1, false);
    assert!(
        single.iter().all(|f| f.mask == 0),
        "a single-mask layer writes no mask"
    );

    let triple = fill_area(&area, true, &cfg, 3, false);
    assert!(triple.iter().all(|f| (1..=3).contains(&f.mask)));
    assert_eq!(triple[0].mask, 1);
    assert_eq!(triple[1].mask, 2);
    assert_eq!(triple[2].mask, 3);
    assert_eq!(triple[3].mask, 1, "and it wraps");
}

#[test]
fn mask_numbering_restarts_in_every_sub_area() {
    // Two separated regions, each wide enough for exactly two fills, with three masks: each region
    // is numbered 1, 2 and mask 3 is never reached. A counter that ran across the layer would number
    // them 1, 2, 3, 1.
    let cfg = ShapeCfg {
        shapes: vec![(500, 500)],
        space_to_fill: 100,
        ..Default::default()
    };
    let area = set(&[(0, 0, 1100, 500), (5000, 0, 6100, 500)]);
    let fills = fill_area(&area, true, &cfg, 3, false);
    assert_eq!(fills.len(), 4, "two fills in each of the two regions");

    let mut left: Vec<u32> = fills.iter().filter(|f| f.rect.x0 < 2000).map(|f| f.mask).collect();
    let mut right: Vec<u32> = fills.iter().filter(|f| f.rect.x0 >= 2000).map(|f| f.mask).collect();
    left.sort_unstable();
    right.sort_unstable();
    assert_eq!(left, vec![1, 2], "the first region is numbered from 1");
    assert_eq!(right, vec![1, 2], "and so is the second -- the counter restarts");
    assert!(
        !fills.iter().any(|f| f.mask == 3),
        "mask 3 is only reached by a counter that ran across sub-areas"
    );
}

#[test]
fn masks_are_numbered_in_the_reference_rectangle_order() {
    // Which rectangle gets which mask depends on the order they are numbered in: ascending y, then
    // ascending x. One sub-area holding a 2x2 block of fills, three masks: the bottom row comes
    // first.
    let cfg = ShapeCfg {
        shapes: vec![(500, 500)],
        space_to_fill: 100,
        ..Default::default()
    };
    let fills = fill_area(&set(&[(0, 0, 1100, 1100)]), true, &cfg, 3, false);
    assert_eq!(fills.len(), 4);
    let mask_at = |x: i32, y: i32| {
        fills
            .iter()
            .find(|f| f.rect.x0 == x && f.rect.y0 == y)
            .unwrap_or_else(|| panic!("no fill at ({x}, {y})"))
            .mask
    };
    assert_eq!(mask_at(0, 0), 1);
    assert_eq!(mask_at(600, 0), 2, "the bottom ROW is numbered before the next row up");
    assert_eq!(mask_at(0, 600), 3);
    assert_eq!(mask_at(600, 600), 1, "and it wraps");
}

#[test]
fn smaller_shapes_fill_what_the_larger_ones_could_not() {
    // The point of trying sizes in order: the offcuts a big shape leaves are worth filling.
    let big_only = ShapeCfg {
        shapes: vec![(1000, 1000)],
        space_to_fill: 100,
        ..Default::default()
    };
    let both = ShapeCfg {
        shapes: vec![(1000, 1000), (300, 300)],
        space_to_fill: 100,
        ..Default::default()
    };
    // A big region plus a detached pocket only the small shape can use. (Leftovers WITHIN a
    // big region are mostly narrower than the next size down, so a single region would not
    // show the effect — the sizes are for differently-sized gaps, not for packing one gap.)
    let area = set(&[(0, 0, 3400, 3400), (4000, 0, 4500, 500)]);
    let a = fill_area(&area, true, &big_only, 1, false);
    let b = fill_area(&area, true, &both, 1, false);

    let covered = |f: &[Fill]| -> i64 {
        f.iter()
            .map(|x| x.rect.width() as i64 * x.rect.height() as i64)
            .sum()
    };
    assert!(
        covered(&b) > covered(&a),
        "the smaller shape reaches the pocket"
    );
    assert!(
        a.iter().all(|f| f.rect.x0 < 3400),
        "the big shape cannot fit the pocket"
    );
    assert!(b.iter().any(|f| f.rect.x0 >= 4000), "the small one can");
    // ...and the big shapes are still all there.
    assert_eq!(b.iter().filter(|f| f.rect.width() == 1000).count(), a.len());
}

#[test]
fn pruning_keeps_separate_regions_from_being_filled_too_close() {
    // Two regions 100 apart with a fill spacing of 300: filling both independently would put
    // two fills 100 apart, so the near edges are excluded.
    let area = set(&[(0, 0, 1000, 1000), (1100, 0, 2100, 1000)]);
    let pruned = prune(&area, 300, 300);
    assert!(pruned.area() < area.area(), "the facing edges are given up");
    assert!(
        pruned.contains(10, 500) && pruned.contains(2000, 500),
        "the far sides survive"
    );
    assert!(
        !pruned.contains(1050, 500),
        "and the gap itself is not fillable anyway"
    );
}

fn rect_list(fills: &[Fill]) -> Vec<(i32, i32, i32, i32)> {
    fills
        .iter()
        .map(|f| (f.rect.x0, f.rect.y0, f.rect.x1, f.rect.y1))
        .collect()
}

#[test]
fn the_grid_starts_at_the_corner_of_each_piece() {
    let cfg = ShapeCfg {
        shapes: vec![(30, 20)],
        space_to_fill: 5,
        space_line_end: 8,
        ..Default::default()
    };
    let area = set(&[(-7, 3, 70, 50), (500, 3, 531, 24)]);
    assert_eq!(
        rect_list(&fill_area(&area, true, &cfg, 1, false)),
        vec![
            (-7, 3, 23, 23),
            (31, 3, 61, 23),
            (-7, 28, 23, 48),
            (31, 28, 61, 48),
            (500, 3, 530, 23),
        ]
    );
    assert_eq!(
        rect_list(&fill_area(&set(&[(0, 0, 25, 70)]), false, &cfg, 1, true)),
        vec![(0, 0, 20, 30), (0, 38, 20, 68)]
    );
}

#[test]
fn shapes_of_no_size_are_passed_over() {
    let cfg = ShapeCfg {
        shapes: vec![(0, 0), (10, 0), (-5, 10), (10, 10)],
        ..Default::default()
    };
    assert_eq!(
        rect_list(&fill_area(&set(&[(0, 0, 10, 10)]), true, &cfg, 1, false)),
        vec![(0, 0, 10, 10)]
    );
    let none = ShapeCfg {
        shapes: vec![(0, 0)],
        ..Default::default()
    };
    assert!(fill_area(&set(&[(0, 0, 10, 10)]), true, &none, 1, false).is_empty());
}

#[test]
fn shapes_may_abut_where_no_spacing_is_asked_for() {
    let cfg = ShapeCfg {
        shapes: vec![(10, 10)],
        ..Default::default()
    };
    assert_eq!(
        rect_list(&fill_area(&set(&[(0, 0, 25, 12)]), true, &cfg, 1, false)),
        vec![(0, 0, 10, 10), (10, 0, 20, 10)]
    );
}

#[test]
fn a_shape_of_one_unit_stays_inside_the_area() {
    let cfg = ShapeCfg {
        shapes: vec![(1, 1)],
        space_to_fill: 1,
        ..Default::default()
    };
    // Two cells that touch at a corner: closing the corner would reach outside.
    let area = set(&[(0, 0, 1, 1), (10, 0, 13, 2)]);
    assert_eq!(
        rect_list(&fill_area(&area, true, &cfg, 1, false)),
        vec![(0, 0, 1, 1), (10, 0, 11, 1), (12, 0, 13, 1)]
    );
}

#[test]
fn only_tiles_wholly_inside_are_placed() {
    let cfg = ShapeCfg {
        shapes: vec![(10, 10)],
        space_to_fill: 2,
        ..Default::default()
    };
    // One cell is missing from the second tile of the upper row.
    let area = set(&[(0, 0, 36, 22)]).difference(&set(&[(15, 15, 16, 16)]));
    assert_eq!(
        rect_list(&fill_area(&area, true, &cfg, 1, false)),
        vec![
            (0, 0, 10, 10),
            (12, 0, 22, 10),
            (24, 0, 34, 10),
            (0, 12, 10, 22),
            (24, 12, 34, 22),
        ]
    );
}

#[test]
fn a_smaller_size_keeps_the_spacing_to_a_larger_one() {
    let cfg = ShapeCfg {
        shapes: vec![(20, 20), (4, 4)],
        space_to_fill: 3,
        ..Default::default()
    };
    let fills = fill_area(&set(&[(0, 0, 30, 20)]), true, &cfg, 1, false);
    // Past the large shape and its spacing a strip of seven columns is left.
    assert_eq!(
        rect_list(&fills),
        vec![(0, 0, 20, 20), (23, 0, 27, 4), (23, 7, 27, 11), (23, 14, 27, 18)]
    );
}

#[test]
fn more_sizes_leave_the_earlier_fills_in_place() {
    let short = ShapeCfg {
        shapes: vec![(40, 40), (15, 15)],
        space_to_fill: 3,
        ..Default::default()
    };
    let long = ShapeCfg {
        shapes: vec![(40, 40), (15, 15), (5, 5)],
        ..short.clone()
    };
    let area = set(&[(0, 0, 211, 97), (230, 4, 260, 90)]);
    let a = fill_area(&area, true, &short, 2, false);
    let b = fill_area(&area, true, &long, 2, false);
    assert!(b.len() > a.len());
    assert_eq!(&b[..a.len()], &a[..]);
}

#[test]
fn pruning_takes_exactly_the_cells_near_another_piece() {
    let area = set(&[(0, 0, 10, 10), (12, 0, 20, 10)]);
    let p = prune(&area, 4, 0);
    // Columns 8 and 9 of the left piece lie within 4 of column 12, and 12 and 13 of column 9.
    let b: Vec<_> = p.pieces().iter().map(|x| x.bounds().unwrap()).collect();
    assert_eq!(b, vec![Rect::new(0, 0, 8, 10), Rect::new(14, 0, 20, 10)]);
    assert_eq!(prune(&area, 1, 1).area(), area.area());
    let one = set(&[(0, 0, 10, 10), (5, 5, 20, 20)]);
    assert_eq!(prune(&one, 100, 100).area(), one.area());
}

#[test]
fn parts_of_a_piece_cut_in_two_by_pruning_can_come_closer() {
    // Two arms 10 apart that meet at the bottom, and a block just below them. Pruning takes the
    // bottom away, and each arm is then tiled on a grid of its own.
    let cfg = ShapeCfg {
        shapes: vec![(100, 100)],
        space_to_fill: 120,
        ..Default::default()
    };
    let area = set(&[
        (0, 0, 200, 1000),
        (210, 0, 410, 1000),
        (0, 0, 410, 100),
        (0, -110, 410, -10),
    ]);
    let fills = fill_area(&area, true, &cfg, 1, false);
    let at = |x: i32, y: i32| fills.iter().any(|f| f.rect.x0 == x && f.rect.y0 == y);
    assert!(at(0, 110) && at(210, 110));
}

#[test]
fn turned_pairs_and_pairs_of_no_area_change_no_fill() {
    let cfg = |shapes: &[(i32, i32)]| ShapeCfg {
        shapes: shapes.to_vec(),
        space_to_fill: 3,
        space_line_end: 7,
        ..Default::default()
    };
    let area = set(&[(0, 0, 130, 70), (140, 5, 200, 90)]);
    for is_horiz in [true, false] {
        let plain = fill_area(&area, is_horiz, &cfg(&[(30, 12), (9, 4)]), 3, true);
        assert!(plain.len() > 4);
        let turned = fill_area(&area, is_horiz, &cfg(&[(12, 30), (9, 4)]), 3, true);
        assert_eq!(turned, plain);
        let more = [(0, 5), (30, 12), (7, -1), (9, 4), (0, 0)];
        assert_eq!(fill_area(&area, is_horiz, &cfg(&more), 3, true), plain);
    }
}

#[test]
fn tiles_that_run_into_each_other_are_no_whole_shapes() {
    let cfg = |gap: i32, line_end: i32| ShapeCfg {
        shapes: vec![(10, 10)],
        space_to_fill: gap,
        space_line_end: line_end,
        ..Default::default()
    };
    let fills = |area: &[(i32, i32, i32, i32)], gap: i32, line_end: i32| {
        rect_list(&fill_area(&set(area), true, &cfg(gap, line_end), 1, false))
    };
    assert_eq!(fills(&[(0, 0, 10, 10)], -3, -3), vec![(0, 0, 10, 10)]);
    assert!(fills(&[(0, 0, 25, 10)], -3, -3).is_empty());
    assert!(fills(&[(0, 0, 10, 11)], -3, -3).is_empty());
    assert_eq!(
        fills(&[(0, 0, 10, 10), (11, 0, 21, 10)], -3, -3),
        vec![(0, 0, 10, 10), (11, 0, 21, 10)]
    );
    // The gap along the routing direction is a gap.
    assert_eq!(
        fills(&[(0, 0, 25, 10)], -3, 5),
        vec![(0, 0, 10, 10), (15, 0, 25, 10)]
    );
    assert!(fills(&[(0, 0, 25, 12)], -3, 5).is_empty());
    // A grid that does not advance.
    assert!(fills(&[(0, 0, 10, 10)], -10, -10).is_empty());
    assert!(fills(&[(0, 0, 10, 10)], i32::MIN, i32::MIN).is_empty());
}

#[test]
fn a_negative_gap_never_lets_fills_overlap() {
    let cfg = ShapeCfg {
        shapes: vec![(10, 10), (4, 4)],
        space_to_fill: -3,
        ..Default::default()
    };
    let area = set(&[(0, 0, 10, 10), (20, 0, 24, 4)]);
    assert_eq!(
        rect_list(&fill_area(&area, true, &cfg, 1, false)),
        vec![(0, 0, 10, 10), (20, 0, 24, 4)]
    );
    assert_eq!(prune(&area, -1, -5).area(), area.area());
    let stacked = set(&[(0, 0, 10, 10), (0, 12, 10, 22)]);
    // One row of each piece lies within 3 rows of the other.
    assert_eq!(prune(&stacked, -1, 3).area(), 180);
}

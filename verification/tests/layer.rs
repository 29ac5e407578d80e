use vyges_fin::geometry::Rect;
use vyges_fin::layer::plan_layer;
use vyges_fin::region::Region;
use vyges_fin::{Fill, LayerCfg, ShapeCfg};

#[test]
fn opc_fill_clears_the_non_opc_fill_already_placed() {
    // Without the second subtraction the two passes would overlap each other.
    let cfg = LayerCfg {
        has_opc: true,
        non_opc: ShapeCfg {
            shapes: vec![(1000, 1000)],
            space_to_fill: 100,
            space_to_non_fill: 0,
            space_line_end: 0,
        },
        opc: ShapeCfg {
            shapes: vec![(200, 200)],
            space_to_fill: 50,
            space_to_non_fill: 0,
            space_line_end: 0,
        },
        ..Default::default()
    };
    let bounds = Region::from_rects(&[Rect::new(0, 0, 6000, 6000)]);
    let fills = plan_layer(&bounds, &Region::new(), &cfg, true);

    let (opc, non_opc): (Vec<&Fill>, Vec<&Fill>) = fills.iter().partition(|f| f.needs_opc);
    assert!(
        !opc.is_empty() && !non_opc.is_empty(),
        "both passes place something"
    );
    for a in &non_opc {
        for b in &opc {
            let apart = a.rect.x1 <= b.rect.x0
                || b.rect.x1 <= a.rect.x0
                || a.rect.y1 <= b.rect.y0
                || b.rect.y1 <= a.rect.y0;
            assert!(
                apart,
                "OPC fill {:?} overlaps non-OPC fill {:?}",
                b.rect, a.rect
            );
        }
    }
}

#[test]
fn fill_keeps_clear_of_the_design_by_the_stated_spacing() {
    // The one property that makes fill safe to insert at all.
    let cfg = LayerCfg {
        non_opc: ShapeCfg {
            shapes: vec![(400, 400)],
            space_to_fill: 100,
            space_to_non_fill: 300,
            space_line_end: 0,
        },
        ..Default::default()
    };
    let bounds = Region::from_rects(&[Rect::new(0, 0, 5000, 5000)]);
    let wire = Rect::new(2000, 0, 2200, 5000);
    let fills = plan_layer(&bounds, &Region::from_rects(&[wire]), &cfg, true);

    assert!(!fills.is_empty());
    for f in &fills {
        let clear = f.rect.x1 + 300 <= wire.x0 || wire.x1 + 300 <= f.rect.x0;
        assert!(clear, "fill {:?} is within 300 of the wire", f.rect);
    }
}

#[test]
fn a_layer_without_opc_rules_has_no_opc_fill() {
    let cfg = LayerCfg {
        num_masks: 2,
        opc: ShapeCfg {
            shapes: vec![(5, 5)],
            ..Default::default()
        },
        non_opc: ShapeCfg {
            shapes: vec![(20, 20)],
            space_to_fill: 4,
            ..Default::default()
        },
        ..Default::default()
    };
    let bounds = Region::from_rects(&[Rect::new(0, 0, 44, 20)]);
    let fills = plan_layer(&bounds, &Region::new(), &cfg, true);
    let want = vec![
        Fill {
            rect: Rect::new(0, 0, 20, 20),
            mask: 1,
            needs_opc: false,
        },
        Fill {
            rect: Rect::new(24, 0, 44, 20),
            mask: 2,
            needs_opc: false,
        },
    ];
    assert_eq!(fills, want);
}

#[test]
fn each_pass_keeps_its_own_gap_to_the_design() {
    let cfg = LayerCfg {
        has_opc: true,
        non_opc: ShapeCfg {
            shapes: vec![(20, 20)],
            space_to_fill: 6,
            space_to_non_fill: 30,
            ..Default::default()
        },
        opc: ShapeCfg {
            shapes: vec![(10, 10)],
            space_to_fill: 2,
            space_to_non_fill: 3,
            ..Default::default()
        },
        ..Default::default()
    };
    let bounds = Region::from_rects(&[Rect::new(0, 0, 60, 20)]);
    let wire = Region::from_rects(&[Rect::new(55, 0, 60, 20)]);
    let fills = plan_layer(&bounds, &wire, &cfg, true);
    let got: Vec<(i32, i32, bool)> = fills
        .iter()
        .map(|f| (f.rect.x0, f.rect.y0, f.needs_opc))
        .collect();
    // The OPC pass begins 6 past the first shape and ends 3 before the wire.
    assert_eq!(got, vec![(0, 0, false), (26, 0, true), (38, 0, true)]);
}

#[test]
fn fill_never_overlaps_the_design_whatever_the_gap() {
    let mut cfg = LayerCfg {
        has_opc: true,
        ..Default::default()
    };
    cfg.non_opc.shapes = vec![(10, 10)];
    cfg.non_opc.space_to_non_fill = -4;
    cfg.opc.shapes = vec![(5, 5)];
    cfg.opc.space_to_non_fill = -4;
    cfg.non_opc.space_to_fill = -2;
    let bounds = Region::from_rects(&[Rect::new(0, 0, 35, 10)]);
    let wire = Region::from_rects(&[Rect::new(10, 0, 20, 10)]);
    let got: Vec<(i32, i32, bool)> = plan_layer(&bounds, &wire, &cfg, true)
        .iter()
        .map(|f| (f.rect.x0, f.rect.y0, f.needs_opc))
        .collect();
    // The second pass has the five columns that the first one leaves.
    assert_eq!(
        got,
        vec![(0, 0, false), (20, 0, false), (30, 0, true), (30, 5, true)]
    );
}

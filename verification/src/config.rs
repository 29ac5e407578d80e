//! The fill rules of one layer.

use vstd::prelude::*;

verus! {

/// One set of fill shapes and the spacings that govern them.
#[derive(Debug, PartialEq, Eq)]
pub struct ShapeCfg {
    /// `(width, height)` to try, in the order given: largest first by convention.
    pub shapes: Vec<(i32, i32)>,
    /// Minimum gap between two fill shapes; a negative one asks for none.
    pub space_to_fill: i32,
    /// Minimum gap between fill and anything real; a negative one asks for none.
    pub space_to_non_fill: i32,
    /// Extra gap along the routing direction only. Zero for non-OPC fill.
    pub space_line_end: i32,
}

/// What a [`ShapeCfg`] holds.
#[verifier::ext_equal]
pub struct ShapeView {
    pub shapes: Seq<(i32, i32)>,
    pub space_to_fill: i32,
    pub space_to_non_fill: i32,
    pub space_line_end: i32,
}

/// The rules for one layer.
#[derive(Debug, PartialEq, Eq)]
pub struct LayerCfg {
    /// Read from the rules file, which must state it, and applied nowhere: the fill area is not
    /// inset by it.
    pub space_to_outline: i32,
    /// Masks to cycle through; `<= 1` means the layer is single-mask and no mask is written.
    pub num_masks: u32,
    pub has_opc: bool,
    /// Read from the rules file and applied nowhere.
    pub opc_halo: i32,
    pub opc: ShapeCfg,
    pub non_opc: ShapeCfg,
}

/// What a [`LayerCfg`] holds.
#[verifier::ext_equal]
pub struct LayerView {
    pub space_to_outline: i32,
    pub num_masks: u32,
    pub has_opc: bool,
    pub opc_halo: i32,
    pub opc: ShapeView,
    pub non_opc: ShapeView,
}

impl View for ShapeCfg {
    type V = ShapeView;

    open spec fn view(&self) -> ShapeView {
        ShapeView {
            shapes: self.shapes@,
            space_to_fill: self.space_to_fill,
            space_to_non_fill: self.space_to_non_fill,
            space_line_end: self.space_line_end,
        }
    }
}

impl View for LayerCfg {
    type V = LayerView;

    open spec fn view(&self) -> LayerView {
        LayerView {
            space_to_outline: self.space_to_outline,
            num_masks: self.num_masks,
            has_opc: self.has_opc,
            opc_halo: self.opc_halo,
            opc: self.opc@,
            non_opc: self.non_opc@,
        }
    }
}

/// No shapes and no spacings.
pub open spec fn no_shapes() -> ShapeView {
    ShapeView {
        shapes: Seq::empty(),
        space_to_fill: 0,
        space_to_non_fill: 0,
        space_line_end: 0,
    }
}

impl Default for ShapeCfg {
    fn default() -> (r: ShapeCfg)
        ensures
            r@ == no_shapes(),
    {
        ShapeCfg { shapes: Vec::new(), space_to_fill: 0, space_to_non_fill: 0, space_line_end: 0 }
    }
}

impl Default for LayerCfg {
    fn default() -> (r: LayerCfg)
        ensures
            r@ == (LayerView {
                space_to_outline: 0,
                num_masks: 0,
                has_opc: false,
                opc_halo: 0,
                opc: no_shapes(),
                non_opc: no_shapes(),
            }),
    {
        LayerCfg {
            space_to_outline: 0,
            num_masks: 0,
            has_opc: false,
            opc_halo: 0,
            opc: ShapeCfg::default(),
            non_opc: ShapeCfg::default(),
        }
    }
}

impl Clone for ShapeCfg {
    fn clone(&self) -> (r: ShapeCfg)
        ensures
            r@ == self@,
    {
        let mut shapes: Vec<(i32, i32)> = Vec::new();
        let mut i: usize = 0;
        while i < self.shapes.len()
            invariant
                i <= self.shapes.len(),
                shapes@ == self.shapes@.take(i as int),
            decreases self.shapes.len() - i,
        {
            shapes.push(self.shapes[i]);
            assert(shapes@ =~= self.shapes@.take(i + 1));
            i = i + 1;
        }
        assert(shapes@ =~= self.shapes@);
        ShapeCfg {
            shapes,
            space_to_fill: self.space_to_fill,
            space_to_non_fill: self.space_to_non_fill,
            space_line_end: self.space_line_end,
        }
    }
}

impl Clone for LayerCfg {
    fn clone(&self) -> (r: LayerCfg)
        ensures
            r@ == self@,
    {
        LayerCfg {
            space_to_outline: self.space_to_outline,
            num_masks: self.num_masks,
            has_opc: self.has_opc,
            opc_halo: self.opc_halo,
            opc: self.opc.clone(),
            non_opc: self.non_opc.clone(),
        }
    }
}

} // verus!

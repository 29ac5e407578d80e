//! Rectilinear regions, kept as lists of rectangles.

use vstd::prelude::*;

use crate::cells::{
    first_cell, grown, in_world, is_first, lemma_piece_shrinks, near, no_later, piece_of, pieces,
    shrunk, Cells,
};
use crate::geometry::Rect;
use crate::rects::{
    all_nonempty, area_outside, covered, first_rect, grow_rect, lemma_covered_finite,
    lemma_covered_take, lemma_rect_finite, minus_rect, nonempty_of, overlap, push_nonempty,
    split_piece,
};

verus! {

/// Whether `b` is the smallest rectangle around the cells of `s`.
pub open spec fn is_bounds(s: Cells, b: Rect) -> bool {
    &&& forall|p: (int, int)| s.contains(p) ==> b.covers(p)
    &&& exists|p: (int, int)| s.contains(p) && p.0 == b.x0
    &&& exists|p: (int, int)| s.contains(p) && p.1 == b.y0
    &&& exists|p: (int, int)| s.contains(p) && p.0 == b.x1 - 1
    &&& exists|p: (int, int)| s.contains(p) && p.1 == b.y1 - 1
}

/// The smallest rectangle around the cells of `s`, where there is one.
pub open spec fn bounds_of(s: Cells) -> Rect {
    choose|b: Rect| is_bounds(s, b)
}

/// There is at most one smallest rectangle.
pub proof fn lemma_bounds_unique(s: Cells, a: Rect, b: Rect)
    requires
        is_bounds(s, a),
        is_bounds(s, b),
    ensures
        a == b,
{
    let (ax0, ay0) = (
        choose|p: (int, int)| s.contains(p) && p.0 == a.x0,
        choose|p: (int, int)| s.contains(p) && p.1 == a.y0,
    );
    let (ax1, ay1) = (
        choose|p: (int, int)| s.contains(p) && p.0 == a.x1 - 1,
        choose|p: (int, int)| s.contains(p) && p.1 == a.y1 - 1,
    );
    let (bx0, by0) = (
        choose|p: (int, int)| s.contains(p) && p.0 == b.x0,
        choose|p: (int, int)| s.contains(p) && p.1 == b.y0,
    );
    let (bx1, by1) = (
        choose|p: (int, int)| s.contains(p) && p.0 == b.x1 - 1,
        choose|p: (int, int)| s.contains(p) && p.1 == b.y1 - 1,
    );
    assert(a.covers(bx0) && a.covers(bx1) && a.covers(by0) && a.covers(by1));
    assert(b.covers(ax0) && b.covers(ax1) && b.covers(ay0) && b.covers(ay1));
}

/// A rectilinear region: the union of a list of rectangles.
#[derive(Debug)]
pub struct Region {
    rects: Vec<Rect>,
}

impl View for Region {
    type V = Cells;

    closed spec fn view(&self) -> Cells {
        covered(self.rects@)
    }
}

impl Clone for Region {
    fn clone(&self) -> (r: Region)
        ensures
            r@ == self@,
    {
        Region::from_rects(self.rects.as_slice())
    }
}

impl Region {
    /// The empty region.
    pub fn new() -> (r: Region)
        ensures
            r@ =~= Set::<(int, int)>::empty(),
    {
        Region { rects: Vec::new() }
    }

    /// The union of `rects`.
    pub fn from_rects(rects: &[Rect]) -> (r: Region)
        ensures
            r@ =~= covered(rects@),
    {
        Region { rects: nonempty_of(rects) }
    }

    /// The cells of one rectangle.
    pub fn from_rect(rect: Rect) -> (r: Region)
        ensures
            r@ =~= rect.cells(),
    {
        let mut out: Vec<Rect> = Vec::new();
        assert(covered(out@) =~= Set::<(int, int)>::empty());
        push_nonempty(&mut out, rect);
        Region { rects: out }
    }

    /// Whether the cell at `(x, y)` is in the region.
    pub fn contains(&self, x: i32, y: i32) -> (b: bool)
        ensures
            b == self@.contains((x as int, y as int)),
    {
        let mut i: usize = 0;
        let ghost p = (x as int, y as int);
        while i < self.rects.len()
            invariant
                i <= self.rects.len(),
                p == (x as int, y as int),
                forall|k: int| 0 <= k < i ==> !#[trigger] self.rects@[k].covers(p),
            decreases self.rects.len() - i,
        {
            let r = self.rects[i];
            if r.x0 <= x && x < r.x1 && r.y0 <= y && y < r.y1 {
                assert(self.rects@[i as int].covers(p));
                return true;
            }
            i = i + 1;
        }
        false
    }

    /// The cells of either region.
    pub fn union(&self, other: &Region) -> (r: Region)
        ensures
            r@ =~= self@.union(other@),
    {
        let mut out: Vec<Rect> = nonempty_of(self.rects.as_slice());
        let mut j: usize = 0;
        assert(covered(other.rects@.take(0)) =~= Set::<(int, int)>::empty());
        while j < other.rects.len()
            invariant
                j <= other.rects.len(),
                covered(out@) =~= self@.union(covered(other.rects@.take(j as int))),
            decreases other.rects.len() - j,
        {
            push_nonempty(&mut out, other.rects[j]);
            proof {
                lemma_covered_take(other.rects@, j as int);
            }
            j = j + 1;
        }
        assert(other.rects@.take(other.rects.len() as int) =~= other.rects@);
        Region { rects: out }
    }

    /// The cells of this region that are not in `other`.
    pub fn difference(&self, other: &Region) -> (r: Region)
        ensures
            r@ =~= self@.difference(other@),
    {
        let mut out: Vec<Rect> = Vec::new();
        let mut i: usize = 0;
        assert(covered(out@) =~= Set::<(int, int)>::empty());
        assert(covered(self.rects@.take(0)) =~= Set::<(int, int)>::empty());
        while i < self.rects.len()
            invariant
                i <= self.rects.len(),
                covered(out@) =~= covered(self.rects@.take(i as int)).difference(other@),
            decreases self.rects.len() - i,
        {
            let mut parts: Vec<Rect> = Vec::new();
            push_nonempty(&mut parts, self.rects[i]);
            let mut j: usize = 0;
            assert(covered(Seq::<Rect>::empty()) =~= Set::<(int, int)>::empty());
            assert(covered(other.rects@.take(0)) =~= Set::<(int, int)>::empty());
            while j < other.rects.len() && parts.len() > 0
                invariant
                    i < self.rects.len(),
                    j <= other.rects.len(),
                    covered(parts@) =~= self.rects@[i as int].cells().difference(
                        covered(other.rects@.take(j as int)),
                    ),
                decreases other.rects.len() - j,
            {
                if overlap(self.rects[i], other.rects[j]) {
                    parts = minus_rect(&parts, other.rects[j]);
                } else {
                    assert(self.rects@[i as int].cells().difference(
                        other.rects@[j as int].cells(),
                    ) =~= self.rects@[i as int].cells());
                }
                proof {
                    lemma_covered_take(other.rects@, j as int);
                }
                j = j + 1;
            }
            proof {
                let c = self.rects@[i as int].cells();
                assert(covered(parts@) =~= c.difference(other@)) by {
                    if j < other.rects.len() {
                        assert(covered(parts@) =~= Set::<(int, int)>::empty());
                        assert forall|p: (int, int)| c.contains(p) implies other@.contains(p) by {
                            let t = other.rects@.take(j as int);
                            assert(!covered(parts@).contains(p));
                            let k = choose|k: int| 0 <= k < t.len() && #[trigger] t[k].covers(p);
                            assert(other.rects@[k].covers(p));
                        }
                    } else {
                        assert(other.rects@.take(j as int) =~= other.rects@);
                    }
                }
            }
            let mut k: usize = 0;
            let ghost before = covered(out@);
            assert(covered(parts@.take(0)) =~= Set::<(int, int)>::empty());
            while k < parts.len()
                invariant
                    k <= parts.len(),
                    covered(out@) =~= before.union(covered(parts@.take(k as int))),
                decreases parts.len() - k,
            {
                push_nonempty(&mut out, parts[k]);
                proof {
                    lemma_covered_take(parts@, k as int);
                }
                k = k + 1;
            }
            assert(parts@.take(parts.len() as int) =~= parts@);
            proof {
                lemma_covered_take(self.rects@, i as int);
            }
            i = i + 1;
        }
        assert(self.rects@.take(self.rects.len() as int) =~= self.rects@);
        Region { rects: out }
    }

    /// The cells of both regions.
    pub fn intersection(&self, other: &Region) -> (r: Region)
        ensures
            r@ =~= self@.intersect(other@),
    {
        let mut out: Vec<Rect> = Vec::new();
        let mut i: usize = 0;
        assert(covered(out@) =~= Set::<(int, int)>::empty());
        assert(covered(self.rects@.take(0)) =~= Set::<(int, int)>::empty());
        while i < self.rects.len()
            invariant
                i <= self.rects.len(),
                covered(out@) =~= covered(self.rects@.take(i as int)).intersect(other@),
            decreases self.rects.len() - i,
        {
            let a = self.rects[i];
            let mut j: usize = 0;
            let ghost before = covered(out@);
            assert(covered(other.rects@.take(0)) =~= Set::<(int, int)>::empty());
            while j < other.rects.len()
                invariant
                    j <= other.rects.len(),
                    covered(out@) =~= before.union(
                        a.cells().intersect(covered(other.rects@.take(j as int))),
                    ),
                decreases other.rects.len() - j,
            {
                let b = other.rects[j];
                let c = Rect {
                    x0: if a.x0 > b.x0 { a.x0 } else { b.x0 },
                    y0: if a.y0 > b.y0 { a.y0 } else { b.y0 },
                    x1: if a.x1 < b.x1 { a.x1 } else { b.x1 },
                    y1: if a.y1 < b.y1 { a.y1 } else { b.y1 },
                };
                push_nonempty(&mut out, c);
                proof {
                    assert(c.cells() =~= a.cells().intersect(b.cells()));
                    lemma_covered_take(other.rects@, j as int);
                }
                j = j + 1;
            }
            assert(other.rects@.take(other.rects.len() as int) =~= other.rects@);
            proof {
                lemma_covered_take(self.rects@, i as int);
            }
            i = i + 1;
        }
        assert(self.rects@.take(self.rects.len() as int) =~= self.rects@);
        Region { rects: out }
    }

    /// Whether the region has no cell.
    pub fn is_empty(&self) -> (b: bool)
        ensures
            b == (self@ =~= Set::<(int, int)>::empty()),
    {
        let mut i: usize = 0;
        while i < self.rects.len()
            invariant
                i <= self.rects.len(),
                forall|k: int| 0 <= k < i ==> (#[trigger] self.rects@[k]).empty(),
            decreases self.rects.len() - i,
        {
            let r = self.rects[i];
            if r.x0 < r.x1 && r.y0 < r.y1 {
                proof {
                    let p = (r.x0 as int, r.y0 as int);
                    assert(self.rects@[i as int].covers(p));
                    assert(self@.contains(p));
                }
                return false;
            }
            i = i + 1;
        }
        true
    }

    /// The smallest rectangle around the region; none around the empty region.
    pub fn bounds(&self) -> (b: Option<Rect>)
        ensures
            match b {
                Some(r) => is_bounds(self@, r) && r == bounds_of(self@),
                None => self@ =~= Set::<(int, int)>::empty(),
            },
    {
        let mut best: Option<Rect> = None;
        let mut i: usize = 0;
        let ghost rs = self.rects@;
        assert(covered(rs.take(0)) =~= Set::<(int, int)>::empty());
        while i < self.rects.len()
            invariant
                i <= self.rects.len(),
                rs == self.rects@,
                match best {
                    Some(b) => is_bounds(covered(rs.take(i as int)), b),
                    None => covered(rs.take(i as int)) =~= Set::<(int, int)>::empty(),
                },
            decreases self.rects.len() - i,
        {
            let r = self.rects[i];
            let ghost before = covered(rs.take(i as int));
            let ghost after = covered(rs.take(i + 1));
            proof {
                lemma_covered_take(rs, i as int);
                if r.empty() {
                    assert(after =~= before);
                } else {
                    assert(after.contains((r.x0 as int, r.y0 as int)));
                    assert(after.contains((r.x1 - 1, r.y1 - 1)));
                }
            }
            if r.x0 < r.x1 && r.y0 < r.y1 {
                match best {
                    None => {
                        best = Some(r);
                        assert(is_bounds(after, r));
                    },
                    Some(b) => {
                        let c = Rect {
                            x0: if r.x0 < b.x0 { r.x0 } else { b.x0 },
                            y0: if r.y0 < b.y0 { r.y0 } else { b.y0 },
                            x1: if r.x1 > b.x1 { r.x1 } else { b.x1 },
                            y1: if r.y1 > b.y1 { r.y1 } else { b.y1 },
                        };
                        proof {
                            let px0 = choose|p: (int, int)| before.contains(p) && p.0 == b.x0;
                            let py0 = choose|p: (int, int)| before.contains(p) && p.1 == b.y0;
                            let px1 = choose|p: (int, int)| before.contains(p) && p.0 == b.x1 - 1;
                            let py1 = choose|p: (int, int)| before.contains(p) && p.1 == b.y1 - 1;
                            assert(after.contains(px0) && after.contains(py0));
                            assert(after.contains(px1) && after.contains(py1));
                            assert(is_bounds(after, c));
                        }
                        best = Some(c);
                    },
                }
            }
            i = i + 1;
        }
        assert(rs.take(self.rects.len() as int) =~= rs);
        proof {
            if best is Some {
                lemma_bounds_unique(self@, best->0, bounds_of(self@));
            }
        }
        best
    }

    /// Every cell within `dx` columns and `dy` rows of the region.
    pub fn bloat(&self, dx: i32, dy: i32) -> (r: Region)
        requires
            dx >= 0,
            dy >= 0,
        ensures
            r@ =~= grown(self@, dx as int, dy as int),
    {
        let mut out: Vec<Rect> = Vec::new();
        let mut i: usize = 0;
        let ghost rs = self.rects@;
        assert(covered(out@) =~= Set::<(int, int)>::empty());
        assert(covered(rs.take(0)) =~= Set::<(int, int)>::empty());
        while i < self.rects.len()
            invariant
                i <= self.rects.len(),
                rs == self.rects@,
                dx >= 0,
                dy >= 0,
                covered(out@) =~= grown(covered(rs.take(i as int)), dx as int, dy as int),
            decreases self.rects.len() - i,
        {
            let a = self.rects[i];
            if a.x0 < a.x1 && a.y0 < a.y1 {
                push_nonempty(&mut out, grow_rect(a, dx, dy));
            }
            proof {
                lemma_covered_take(rs, i as int);
                lemma_grown_union(covered(rs.take(i as int)), a.cells(), dx as int, dy as int);
                if a.empty() {
                    assert(grown(a.cells(), dx as int, dy as int) =~= Set::<(int, int)>::empty());
                }
            }
            i = i + 1;
        }
        assert(rs.take(self.rects.len() as int) =~= rs);
        Region { rects: out }
    }

    /// The cells all of whose neighbours within `dx` columns and `dy` rows are in the region.
    pub fn shrink(&self, dx: i32, dy: i32) -> (r: Region)
        requires
            dx >= 0,
            dy >= 0,
        ensures
            r@ =~= shrunk(self@, dx as int, dy as int),
    {
        match self.bounds() {
            None => {
                proof {
                    assert forall|p: (int, int)| !shrunk(self@, dx as int, dy as int).contains(p) by {
                        assert(near(p, p, dx as int, dy as int));
                        assert(!self@.contains(p));
                    }
                }
                Region::new()
            },
            Some(b) => {
                proof {
                    let q = choose|p: (int, int)| self@.contains(p) && p.0 == b.x0;
                    assert(b.covers(q));
                }
                let window = grow_rect(b, dx, dy);
                let around = Region::from_rect(window);
                let outside = around.difference(self);
                let inner = Rect {
                    x0: i32::MIN + dx,
                    y0: i32::MIN + dy,
                    x1: i32::MAX - dx,
                    y1: i32::MAX - dy,
                };
                let kept = self.difference(&outside.bloat(dx, dy));
                let r = kept.intersection(&Region::from_rect(inner));
                proof {
                    let ix = dx as int;
                    let iy = dy as int;
                    let want = shrunk(self@, ix, iy);
                    assert forall|p: (int, int)| r@.contains(p) implies want.contains(p) by {
                        assert(inner.covers(p));
                        assert forall|q: (int, int)| near(p, q, ix, iy) implies self@.contains(
                            q,
                        ) by {
                            if !self@.contains(q) {
                                assert(b.covers(p));
                                assert(near(q, p, ix, iy));
                                assert(b.cells().contains(p));
                                assert(in_world(q));
                                assert(window.cells().contains(q));
                                assert(outside@.contains(q));
                                assert(grown(outside@, ix, iy).contains(p));
                            }
                        }
                    }
                    assert forall|p: (int, int)| want.contains(p) implies r@.contains(p) by {
                        assert(near(p, p, ix, iy));
                        assert(self@.contains(p));
                        let lo = (p.0 - ix, p.1 - iy);
                        let hi = (p.0 + ix, p.1 + iy);
                        assert(near(p, lo, ix, iy) && near(p, hi, ix, iy));
                        self.lemma_in_world(lo);
                        self.lemma_in_world(hi);
                        assert(inner.covers(p));
                    }
                }
                r
            },
        }
    }

    /// Whether every cell of `r` is in the region.
    pub fn covers_rect(&self, r: Rect) -> (b: bool)
        ensures
            b == r.cells().subset_of(self@),
    {
        let rest = Region::from_rect(r).difference(self);
        let b = rest.is_empty();
        proof {
            if b {
                assert forall|p: (int, int)| r.cells().contains(p) implies self@.contains(p) by {
                    assert(!rest@.contains(p));
                }
            } else {
                assert(!(r.cells().subset_of(self@))) by {
                    if r.cells().subset_of(self@) {
                        assert(rest@ =~= Set::<(int, int)>::empty());
                    }
                }
            }
        }
        b
    }

    /// The number of cells in the region.
    pub fn area(&self) -> (n: u64)
        ensures
            n == self@.len(),
    {
        let mut n: u64 = 0;
        let mut i: usize = self.rects.len();
        let ghost rs = self.rects@;
        assert(rs.skip(rs.len() as int) =~= Seq::empty());
        assert(covered(Seq::<Rect>::empty()) =~= Set::<(int, int)>::empty());
        while i > 0
            invariant
                i <= rs.len(),
                rs == self.rects@,
                n == covered(rs.skip(i as int)).len(),
            decreases i,
        {
            i = i - 1;
            proof {
                let tail = covered(rs.skip(i + 1));
                let own = rs[i as int].cells().difference(tail);
                lemma_covered_finite(rs.skip(i + 1));
                lemma_covered_finite(rs.skip(i as int));
                lemma_rect_finite(rs[i as int]);
                assert(own.disjoint(tail));
                vstd::set_lib::lemma_set_disjoint_lens(own, tail);
                assert forall|p: (int, int)|
                    covered(rs.skip(i as int)).contains(p) <==> own.union(tail).contains(p) by {
                    let s = rs.skip(i as int);
                    let t = rs.skip(i + 1);
                    if covered(s).contains(p) {
                        let k = choose|k: int| 0 <= k < s.len() && #[trigger] s[k].covers(p);
                        if k > 0 {
                            assert(t[k - 1].covers(p));
                        }
                    }
                    if tail.contains(p) {
                        let k = choose|k: int| 0 <= k < t.len() && #[trigger] t[k].covers(p);
                        assert(s[k + 1].covers(p));
                    }
                    if own.contains(p) {
                        assert(s[0].covers(p));
                    }
                }
                assert(covered(rs.skip(i as int)) =~= own.union(tail));
            }
            n = n + area_outside(self.rects[i], &self.rects, i + 1);
        }
        assert(rs.skip(0) =~= rs);
        n
    }

    /// The connected pieces of the region, in the order of their first cells.
    pub fn pieces(&self) -> (out: Vec<Region>)
        ensures
            self@.finite(),
            out@.len() == pieces(self@).len(),
            forall|k: int| 0 <= k < out@.len() ==> (#[trigger] out@[k])@ == pieces(self@)[k],
    {
        let mut todo: Vec<Rect> = nonempty_of(self.rects.as_slice());
        let mut out: Vec<Region> = Vec::new();
        proof {
            lemma_covered_finite(self.rects@);
        }
        while todo.len() > 0
            invariant
                self@.finite(),
                all_nonempty(todo@),
                covered(todo@).finite(),
                pieces(self@).len() == out@.len() + pieces(covered(todo@)).len(),
                forall|k: int| 0 <= k < out@.len() ==> (#[trigger] out@[k])@ == pieces(self@)[k],
                forall|k: int|
                    0 <= k < pieces(covered(todo@)).len() ==> #[trigger] pieces(covered(todo@))[k]
                        == pieces(self@)[k + out@.len()],
            decreases todo@.len(),
        {
            let m = first_rect(&todo);
            let ghost s = covered(todo@);
            let ghost c = (todo@[m as int].x0 as int, todo@[m as int].y0 as int);
            let ghost p = piece_of(s, first_cell(s));
            proof {
                assert(is_first(s, c));
                assert(is_first(s, first_cell(s)));
                assert(no_later(c, first_cell(s)) && no_later(first_cell(s), c));
                assert(first_cell(s) == c);
                lemma_piece_shrinks(s);
                assert(pieces(s) =~= seq![p] + pieces(s.difference(p)));
            }
            let (piece, rest) = split_piece(todo, m);
            let ghost before = out@;
            out.push(Region { rects: piece });
            todo = rest;
            proof {
                assert(covered(todo@) == s.difference(p));
                assert(out@[before.len() as int]@ == pieces(s)[0]);
                assert(pieces(s)[0] == pieces(self@)[0 + before.len() as int]);
                assert forall|k: int| 0 <= k < out@.len() implies (#[trigger] out@[k])@ == pieces(
                    self@,
                )[k] by {
                    if k < before.len() {
                        assert(before[k]@ == pieces(self@)[k]);
                    }
                }
                assert forall|k: int| 0 <= k < pieces(covered(todo@)).len() implies #[trigger] pieces(
                    covered(todo@),
                )[k] == pieces(self@)[k + out@.len()] by {
                    assert(pieces(s)[k + 1] == pieces(s.difference(p))[k]);
                }
            }
        }
        proof {
            let e = covered(todo@);
            assert(pieces(e) =~= Seq::empty()) by {
                if exists|c: (int, int)| is_first(e, c) {
                    let c = choose|c: (int, int)| is_first(e, c);
                    assert(e.contains(c));
                }
            }
        }
        out
    }

    /// A region has finitely many cells, all within the range of coordinates.
    pub proof fn lemma_finite(&self)
        ensures
            self@.finite(),
            forall|p: (int, int)| self@.contains(p) ==> in_world(p),
    {
        lemma_covered_finite(self.rects@);
    }

    proof fn lemma_in_world(&self, p: (int, int))
        requires
            self@.contains(p),
        ensures
            in_world(p),
    {
    }
}

/// Growing a union grows each part.
pub proof fn lemma_grown_union(a: Cells, b: Cells, dx: int, dy: int)
    ensures
        grown(a.union(b), dx, dy) =~= grown(a, dx, dy).union(grown(b, dx, dy)),
{
    assert forall|p: (int, int)| grown(a.union(b), dx, dy).contains(p) <==> grown(
        a,
        dx,
        dy,
    ).union(grown(b, dx, dy)).contains(p) by {
        if grown(a, dx, dy).contains(p) {
            let q = choose|q: (int, int)| a.contains(q) && near(p, q, dx, dy);
            assert(a.union(b).contains(q));
        }
        if grown(b, dx, dy).contains(p) {
            let q = choose|q: (int, int)| b.contains(q) && near(p, q, dx, dy);
            assert(a.union(b).contains(q));
        }
    }
}

} // verus!

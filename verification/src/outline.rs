//! Rectilinear outlines, and the area they enclose.

use vstd::prelude::*;

use crate::cells::Cells;
use crate::geometry::{Point, Rect};
use crate::rects::covered;
use crate::region::Region;

verus! {

/// `n / d`, rounded toward zero.
pub open spec fn toward_zero(n: int, d: int) -> int {
    let q = (if n < 0 {
        -n
    } else {
        n
    }) / (if d < 0 {
        -d
    } else {
        d
    });
    if (n < 0) == (d < 0) {
        q
    } else {
        -q
    }
}

/// Whether the edge from `a` to `b` passes a ray that starts at `(x, y)` and goes right.
pub open spec fn crosses(a: Point, b: Point, x: int, y: int) -> bool {
    &&& (a.y > y) != (b.y > y)
    &&& a.x + toward_zero((b.x - a.x) * (y - a.y), b.y - a.y) > x
}

/// The vertex after the `i`th, around the outline.
pub open spec fn next_vertex(outline: Seq<Point>, i: int) -> Point {
    if i + 1 < outline.len() {
        outline[i + 1]
    } else {
        outline[0]
    }
}

/// Whether an odd number of the first `n` edges passes the ray from `(x, y)`.
pub open spec fn odd_crossings(outline: Seq<Point>, x: int, y: int, n: int) -> bool
    decreases n,
{
    if n <= 0 {
        false
    } else {
        odd_crossings(outline, x, y, n - 1) != crosses(
            outline[n - 1],
            next_vertex(outline, n - 1),
            x,
            y,
        )
    }
}

/// Whether `(x, y)` is inside the outline, by the even-odd rule.
pub open spec fn inside(outline: Seq<Point>, x: int, y: int) -> bool {
    odd_crossings(outline, x, y, outline.len() as int)
}

/// Whether every edge is horizontal or vertical.
pub open spec fn rectilinear(outline: Seq<Point>) -> bool {
    forall|i: int|
        0 <= i < outline.len() ==> (#[trigger] outline[i]).x == next_vertex(outline, i).x
            || outline[i].y == next_vertex(outline, i).y
}

/// The cells that the outline encloses.
pub open spec fn enclosed(outline: Seq<Point>) -> Cells {
    Set::new(|p: (int, int)| inside(outline, p.0, p.1))
}

/// Where the edge from `a` to `b` meets the height `y`.
fn edge_at(a: Point, b: Point, y: i32) -> (x: i128)
    requires
        a.y != b.y,
    ensures
        x == a.x + toward_zero((b.x - a.x) * (y - a.y), b.y - a.y),
{
    let dx = b.x as i128 - a.x as i128;
    let t = y as i128 - a.y as i128;
    let d = b.y as i128 - a.y as i128;
    assert(-0x1_0000_0000_0000_0000 <= dx * t <= 0x1_0000_0000_0000_0000) by (nonlinear_arith)
        requires
            -0x1_0000_0000 <= dx <= 0x1_0000_0000,
            -0x1_0000_0000 <= t <= 0x1_0000_0000,
    ;
    let n = dx * t;
    let an = if n < 0 { -n } else { n };
    let ad = if d < 0 { -d } else { d };
    let q = an / ad;
    assert(0 <= q <= an) by (nonlinear_arith)
        requires
            q == an / ad,
            an >= 0,
            ad >= 1,
    ;
    if (n < 0) == (d < 0) {
        a.x as i128 + q
    } else {
        a.x as i128 - q
    }
}

/// Whether `(x, y)` is inside the outline, by the even-odd rule.
pub fn point_in_outline(outline: &Vec<Point>, x: i32, y: i32) -> (r: bool)
    ensures
        r == inside(outline@, x as int, y as int),
{
    let n = outline.len();
    let mut odd = false;
    let mut i: usize = 0;
    while i < n
        invariant
            n == outline@.len(),
            i <= n,
            odd == odd_crossings(outline@, x as int, y as int, i as int),
        decreases n - i,
    {
        let a = outline[i];
        let b = if i + 1 < n { outline[i + 1] } else { outline[0] };
        if (a.y > y) != (b.y > y) {
            let at = edge_at(a, b, y);
            if at > x as i128 {
                odd = !odd;
            }
        }
        i = i + 1;
    }
    odd
}

/// Whether `v` is strictly increasing.
pub open spec fn increasing(v: Seq<i32>) -> bool {
    forall|i: int, j: int| 0 <= i < j < v.len() ==> v[i] < v[j]
}

/// Whether some vertex stands in this column.
pub open spec fn has_column(outline: Seq<Point>, x: i32) -> bool {
    exists|k: int| 0 <= k < outline.len() && (#[trigger] outline[k]).x == x
}

/// Whether some vertex stands in this row.
pub open spec fn has_row(outline: Seq<Point>, y: i32) -> bool {
    exists|k: int| 0 <= k < outline.len() && (#[trigger] outline[k]).y == y
}

/// Whether a vertex stands in each of these columns and rows.
#[verifier::opaque]
pub open spec fn from_vertices(outline: Seq<Point>, xs: Seq<i32>, ys: Seq<i32>) -> bool {
    &&& forall|c: i32| #[trigger] xs.contains(c) ==> has_column(outline, c)
    &&& forall|c: i32| #[trigger] ys.contains(c) ==> has_row(outline, c)
}

/// Whether `r` is a window of the outline: it lies between neighbouring columns and between
/// neighbouring rows of vertices.
pub open spec fn is_window(outline: Seq<Point>, r: Rect) -> bool {
    &&& !r.empty()
    &&& has_column(outline, r.x0) && has_column(outline, r.x1)
    &&& has_row(outline, r.y0) && has_row(outline, r.y1)
    &&& forall|k: int|
        0 <= k < outline.len() ==> ((#[trigger] outline[k]).x <= r.x0 || outline[k].x >= r.x1) && (
        outline[k].y <= r.y0 || outline[k].y >= r.y1)
}

/// Whether the rectangles come column by column from the left, each column from the bottom.
pub open spec fn by_columns(rects: Seq<Rect>) -> bool {
    forall|i: int, j: int|
        0 <= i < j < rects.len() ==> (#[trigger] rects[i]).x0 < (#[trigger] rects[j]).x0 || (
        rects[i].x0 == rects[j].x0 && rects[i].y0 < rects[j].y0)
}

/// Puts `c` in its place in `v`, unless it is there.
fn insert_sorted(v: &mut Vec<i32>, c: i32)
    requires
        increasing(old(v)@),
    ensures
        increasing(final(v)@),
        forall|d: i32| #[trigger] final(v)@.contains(d) <==> old(v)@.contains(d) || d == c,
{
    let ghost before = v@;
    let mut i: usize = 0;
    while i < v.len() && v[i] < c
        invariant
            v@ == before,
            i <= v@.len(),
            increasing(before),
            forall|k: int| 0 <= k < i ==> before[k] < c,
        decreases v.len() - i,
    {
        i = i + 1;
    }
    if i < v.len() && v[i] == c {
        assert(before.contains(c));
        return;
    }
    v.insert(i, c);
    proof {
        let after = v@;
        assert(after == before.insert(i as int, c));
        assert(after[i as int] == c);
        assert(after.contains(c));
        assert forall|d: i32| #[trigger] after.contains(d) <==> before.contains(d) || d == c by {
            if before.contains(d) {
                let k = choose|k: int| 0 <= k < before.len() && before[k] == d;
                if k < i {
                    assert(after[k] == d);
                } else {
                    assert(after[k + 1] == d);
                }
            }
            if after.contains(d) {
                let k = choose|k: int| 0 <= k < after.len() && after[k] == d;
                if k < i {
                    assert(before[k] == d);
                } else if k > i {
                    assert(before[k - 1] == d);
                }
            }
        }
    }
}

/// The distinct column and row coordinates of the vertices, in order.
fn coordinates(outline: &Vec<Point>) -> (r: (Vec<i32>, Vec<i32>))
    ensures
        increasing(r.0@),
        increasing(r.1@),
        outline@.len() > 0 ==> r.0@.len() > 0 && r.1@.len() > 0,
        outline@.len() == 0 ==> r.0@.len() == 0 && r.1@.len() == 0,
        forall|k: int|
            0 <= k < outline@.len() ==> r.0@.contains((#[trigger] outline@[k]).x) && r.1@.contains(
                outline@[k].y,
            ),
        from_vertices(outline@, r.0@, r.1@),
{
    let mut xs: Vec<i32> = Vec::new();
    let mut ys: Vec<i32> = Vec::new();
    let mut i: usize = 0;
    assert(from_vertices(outline@, xs@, ys@)) by {
        reveal(from_vertices);
    }
    while i < outline.len()
        invariant
            i <= outline@.len(),
            increasing(xs@),
            increasing(ys@),
            i == 0 ==> xs@.len() == 0 && ys@.len() == 0,
            forall|k: int|
                0 <= k < i ==> xs@.contains((#[trigger] outline@[k]).x) && ys@.contains(
                    outline@[k].y,
                ),
            from_vertices(outline@, xs@, ys@),
        decreases outline.len() - i,
    {
        let ghost (old_xs, old_ys) = (xs@, ys@);
        insert_sorted(&mut xs, outline[i].x);
        insert_sorted(&mut ys, outline[i].y);
        proof {
            lemma_one_more(outline@, i as int, old_xs, old_ys, xs@, ys@);
        }
        i = i + 1;
    }
    proof {
        if outline@.len() > 0 {
            assert(xs@.contains(outline@[0].x) && ys@.contains(outline@[0].y));
        }
    }
    (xs, ys)
}

/// Between neighbouring coordinates nothing changes: a cell is inside when the lower left cell of
/// its window is.
proof fn lemma_window(
    outline: Seq<Point>,
    x0: int,
    x1: int,
    y0: int,
    y1: int,
    x: int,
    y: int,
    n: int,
)
    requires
        rectilinear(outline),
        x0 <= x < x1,
        y0 <= y < y1,
        0 <= n <= outline.len(),
        forall|k: int|
            0 <= k < outline.len() ==> ((#[trigger] outline[k]).x <= x0 || outline[k].x >= x1) && (
            outline[k].y <= y0 || outline[k].y >= y1),
    ensures
        odd_crossings(outline, x, y, n) == odd_crossings(outline, x0, y0, n),
    decreases n,
{
    if n > 0 {
        lemma_window(outline, x0, x1, y0, y1, x, y, n - 1);
        let a = outline[n - 1];
        let b = next_vertex(outline, n - 1);
        assert(b == if n < outline.len() {
            outline[n]
        } else {
            outline[0]
        });
        assert(b.y <= y0 || b.y >= y1);
        if (a.y > y) != (b.y > y) {
            lemma_vertical(a, b, y);
            lemma_vertical(a, b, y0);
        }
    }
}

/// A vertical edge meets every height at its own column.
pub proof fn lemma_vertical(a: Point, b: Point, y: int)
    requires
        a.x == b.x,
        a.y != b.y,
    ensures
        toward_zero((b.x - a.x) * (y - a.y), b.y - a.y) == 0,
{
    assert((b.x - a.x) * (y - a.y) == 0) by (nonlinear_arith)
        requires
            a.x == b.x,
    ;
    let d = b.y - a.y;
    let e = if d < 0 { -d } else { d };
    assert(0int / e == 0) by (nonlinear_arith)
        requires
            e > 0,
    ;
}

/// Going round, the outline passes every height an even number of times.
proof fn lemma_left_of_all(outline: Seq<Point>, x: int, y: int, n: int)
    requires
        rectilinear(outline),
        0 < n <= outline.len(),
        forall|k: int| 0 <= k < outline.len() ==> x < (#[trigger] outline[k]).x,
    ensures
        odd_crossings(outline, x, y, n) == ((outline[0].y > y) != (next_vertex(outline, n - 1).y
            > y)),
    decreases n,
{
    let a = outline[n - 1];
    let b = next_vertex(outline, n - 1);
    if (a.y > y) != (b.y > y) {
        lemma_vertical(a, b, y);
    }
    if n > 1 {
        lemma_left_of_all(outline, x, y, n - 1);
    } else {
        assert(!odd_crossings(outline, x, y, 0));
    }
}

/// A cell to the right of every vertex, or above or below all of them, passes no edge.
proof fn lemma_no_crossing(outline: Seq<Point>, x: int, y: int, n: int)
    requires
        rectilinear(outline),
        0 <= n <= outline.len(),
        ({
            ||| forall|k: int| 0 <= k < outline.len() ==> (#[trigger] outline[k]).x <= x
            ||| forall|k: int| 0 <= k < outline.len() ==> (#[trigger] outline[k]).y <= y
            ||| forall|k: int| 0 <= k < outline.len() ==> (#[trigger] outline[k]).y > y
        }),
    ensures
        !odd_crossings(outline, x, y, n),
    decreases n,
{
    if n > 0 {
        lemma_no_crossing(outline, x, y, n - 1);
        let a = outline[n - 1];
        let b = next_vertex(outline, n - 1);
        assert(b == if n < outline.len() {
            outline[n]
        } else {
            outline[0]
        });
        if (a.y > y) != (b.y > y) {
            lemma_vertical(a, b, y);
        }
    }
}

/// Every enclosed cell lies between the outermost coordinates.
proof fn lemma_enclosed_within(outline: Seq<Point>, xs: Seq<i32>, ys: Seq<i32>, x: int, y: int)
    requires
        rectilinear(outline),
        outline.len() > 0,
        xs.len() > 0,
        ys.len() > 0,
        increasing(xs),
        increasing(ys),
        forall|k: int|
            0 <= k < outline.len() ==> xs.contains((#[trigger] outline[k]).x) && ys.contains(
                outline[k].y,
            ),
        inside(outline, x, y),
    ensures
        xs[0] <= x < xs.last(),
        ys[0] <= y < ys.last(),
{
    let n = outline.len() as int;
    lemma_range(outline, xs, ys);
    if x < xs[0] {
        assert forall|k: int| 0 <= k < outline.len() implies x < (#[trigger] outline[k]).x by {}
        lemma_left_of_all(outline, x, y, n);
    }
    if x >= xs.last() {
        assert forall|k: int| 0 <= k < outline.len() implies (#[trigger] outline[k]).x <= x by {}
        lemma_no_crossing(outline, x, y, n);
    }
    if y >= ys.last() {
        assert forall|k: int| 0 <= k < outline.len() implies (#[trigger] outline[k]).y <= y by {}
        lemma_no_crossing(outline, x, y, n);
    }
    if y < ys[0] {
        assert forall|k: int| 0 <= k < outline.len() implies (#[trigger] outline[k]).y > y by {}
        lemma_no_crossing(outline, x, y, n);
    }
}

/// Every vertex lies between the outermost coordinates.
proof fn lemma_range(outline: Seq<Point>, xs: Seq<i32>, ys: Seq<i32>)
    requires
        xs.len() > 0,
        ys.len() > 0,
        increasing(xs),
        increasing(ys),
        forall|k: int|
            0 <= k < outline.len() ==> xs.contains((#[trigger] outline[k]).x) && ys.contains(
                outline[k].y,
            ),
    ensures
        forall|k: int|
            0 <= k < outline.len() ==> xs[0] <= (#[trigger] outline[k]).x <= xs.last() && ys[0]
                <= outline[k].y <= ys.last(),
{
    assert forall|k: int| 0 <= k < outline.len() implies xs[0] <= (#[trigger] outline[k]).x
        <= xs.last() && ys[0] <= outline[k].y <= ys.last() by {
        let i = choose|i: int| 0 <= i < xs.len() && xs[i] == outline[k].x;
        let j = choose|j: int| 0 <= j < ys.len() && ys[j] == outline[k].y;
        assert(xs[i] == outline[k].x && ys[j] == outline[k].y);
        assert(i == 0 || xs[0] < xs[i]);
        assert(i == xs.len() - 1 || xs[i] < xs[xs.len() - 1]);
        assert(j == 0 || ys[0] < ys[j]);
        assert(j == ys.len() - 1 || ys[j] < ys[ys.len() - 1]);
    }
}

/// One more vertex adds its own coordinates.
proof fn lemma_one_more(
    outline: Seq<Point>,
    i: int,
    old_xs: Seq<i32>,
    old_ys: Seq<i32>,
    xs: Seq<i32>,
    ys: Seq<i32>,
)
    requires
        0 <= i < outline.len(),
        from_vertices(outline, old_xs, old_ys),
        forall|d: i32| #[trigger] xs.contains(d) <==> old_xs.contains(d) || d == outline[i].x,
        forall|d: i32| #[trigger] ys.contains(d) <==> old_ys.contains(d) || d == outline[i].y,
    ensures
        from_vertices(outline, xs, ys),
{
    reveal(from_vertices);
    assert(has_column(outline, outline[i].x) && has_row(outline, outline[i].y));
}

/// A vertex stands in each column and row.
proof fn lemma_has(outline: Seq<Point>, xs: Seq<i32>, ys: Seq<i32>, i: int, j: int)
    requires
        from_vertices(outline, xs, ys),
        0 <= i < xs.len(),
        0 <= j < ys.len(),
    ensures
        has_column(outline, xs[i]),
        has_row(outline, ys[j]),
{
    reveal(from_vertices);
    assert(xs.contains(xs[i]) && ys.contains(ys[j]));
}

/// Neighbouring coordinates bound a window.
proof fn lemma_is_window(outline: Seq<Point>, xs: Seq<i32>, ys: Seq<i32>, i: int, j: int)
    requires
        increasing(xs),
        increasing(ys),
        forall|k: int|
            0 <= k < outline.len() ==> xs.contains((#[trigger] outline[k]).x) && ys.contains(
                outline[k].y,
            ),
        from_vertices(outline, xs, ys),
        0 <= i < xs.len() - 1,
        0 <= j < ys.len() - 1,
    ensures
        is_window(outline, Rect { x0: xs[i], y0: ys[j], x1: xs[i + 1], y1: ys[j + 1] }),
{
    assert(xs[i] < xs[i + 1] && ys[j] < ys[j + 1]);
    lemma_has(outline, xs, ys, i, j);
    lemma_has(outline, xs, ys, i + 1, j + 1);
    assert forall|k: int| 0 <= k < outline.len() implies ((#[trigger] outline[k]).x <= xs[i]
        || outline[k].x >= xs[i + 1]) && (outline[k].y <= ys[j] || outline[k].y >= ys[j + 1]) by {
        let a = choose|a: int| 0 <= a < xs.len() && xs[a] == outline[k].x;
        let b = choose|b: int| 0 <= b < ys.len() && ys[b] == outline[k].y;
        assert(xs[a] == outline[k].x && ys[b] == outline[k].y);
        assert(a <= i || a >= i + 1);
        assert(b <= j || b >= j + 1);
    }
}

/// A rectangle behind all the others keeps the order.
proof fn lemma_by_columns(rects: Seq<Rect>, r: Rect)
    requires
        by_columns(rects),
        forall|k: int|
            0 <= k < rects.len() ==> (#[trigger] rects[k]).x0 < r.x0 || (rects[k].x0 == r.x0
                && rects[k].y0 < r.y0),
    ensures
        by_columns(rects.push(r)),
{
    let all = rects.push(r);
    assert forall|i: int, j: int| 0 <= i < j < all.len() implies (#[trigger] all[i]).x0 < (
    #[trigger] all[j]).x0 || (all[i].x0 == all[j].x0 && all[i].y0 < all[j].y0) by {
        assert(all[i] == rects[i]);
        if j < rects.len() {
            assert(all[j] == rects[j]);
        }
    }
}

/// The enclosed cells of the windows done: the first `i` columns of windows, and the first `j`
/// windows of the next.
spec fn enclosed_so_far(outline: Seq<Point>, xs: Seq<i32>, ys: Seq<i32>, i: int, j: int) -> Cells {
    Set::new(
        |p: (int, int)|
            inside(outline, p.0, p.1) && ({
                ||| xs[0] <= p.0 < xs[i] && ys[0] <= p.1 < ys.last()
                ||| i + 1 < xs.len() && xs[i] <= p.0 < xs[i + 1] && ys[0] <= p.1 < ys[j]
            }),
    )
}

/// A rectilinear outline as rectangles that cover what it encloses.
///
/// The bounding box is cut at every vertex coordinate, and each window is kept when it is inside.
pub fn outline_rects(outline: &Vec<Point>) -> (out: Vec<Rect>)
    requires
        rectilinear(outline@),
    ensures
        covered(out@) =~= enclosed(outline@),
        forall|k: int| 0 <= k < out@.len() ==> is_window(outline@, #[trigger] out@[k]),
        by_columns(out@),
{
    let (xs, ys) = coordinates(outline);
    let mut out: Vec<Rect> = Vec::new();
    assert(covered(out@) =~= Set::<(int, int)>::empty());
    if outline.len() == 0 {
        assert(enclosed(outline@) =~= Set::<(int, int)>::empty());
        return out;
    }
    let mut i: usize = 0;
    assert(enclosed_so_far(outline@, xs@, ys@, 0, 0) =~= Set::<(int, int)>::empty());
    while i + 1 < xs.len()
        invariant
            rectilinear(outline@),
            xs@.len() > 0,
            ys@.len() > 0,
            increasing(xs@),
            increasing(ys@),
            forall|k: int|
                0 <= k < outline@.len() ==> xs@.contains((#[trigger] outline@[k]).x)
                    && ys@.contains(outline@[k].y),
            from_vertices(outline@, xs@, ys@),
            i < xs.len(),
            covered(out@) =~= enclosed_so_far(outline@, xs@, ys@, i as int, 0),
            forall|k: int| 0 <= k < out@.len() ==> is_window(outline@, #[trigger] out@[k]),
            forall|k: int| 0 <= k < out@.len() ==> (#[trigger] out@[k]).x0 < xs@[i as int],
            by_columns(out@),
        decreases xs.len() - i,
    {
        let mut j: usize = 0;
        while j + 1 < ys.len()
            invariant
                rectilinear(outline@),
                xs@.len() > 0,
                ys@.len() > 0,
                increasing(xs@),
                increasing(ys@),
                forall|k: int|
                    0 <= k < outline@.len() ==> xs@.contains((#[trigger] outline@[k]).x)
                        && ys@.contains(outline@[k].y),
                from_vertices(outline@, xs@, ys@),
                i + 1 < xs.len(),
                j < ys.len(),
                forall|k: int| 0 <= k < out@.len() ==> is_window(outline@, #[trigger] out@[k]),
                forall|k: int|
                    0 <= k < out@.len() ==> (#[trigger] out@[k]).x0 < xs@[i as int] || (out@[k].x0
                        == xs@[i as int] && out@[k].y0 < ys@[j as int]),
                by_columns(out@),
                covered(out@) =~= enclosed_so_far(outline@, xs@, ys@, i as int, j as int),
            decreases ys.len() - j,
        {
            let r = Rect { x0: xs[i], y0: ys[j], x1: xs[i + 1], y1: ys[j + 1] };
            let keep = point_in_outline(outline, r.x0, r.y0);
            let ghost before = covered(out@);
            proof {
                lemma_is_window(outline@, xs@, ys@, i as int, j as int);
                assert forall|p: (int, int)| r.covers(p) implies inside(outline@, p.0, p.1)
                    == keep by {
                    lemma_window(
                        outline@,
                        r.x0 as int,
                        r.x1 as int,
                        r.y0 as int,
                        r.y1 as int,
                        p.0,
                        p.1,
                        outline@.len() as int,
                    );
                }
                crate::rects::lemma_covered_push(out@, r);
            }
            let ghost rects = out@;
            if keep {
                out.push(r);
            }
            proof {
                if keep {
                    lemma_by_columns(rects, r);
                }
                let next = enclosed_so_far(outline@, xs@, ys@, i as int, j + 1);
                assert(ys@[0] <= ys@[j as int]);
                assert(ys@[j as int] < ys@[j + 1]);
                assert(xs@[i as int] < xs@[i + 1]);
                let added = if keep {
                    r.cells()
                } else {
                    Set::empty()
                };
                assert forall|p: (int, int)| next.contains(p) <==> before.union(added).contains(
                    p,
                ) by {
                    if r.covers(p) {
                        assert(inside(outline@, p.0, p.1) == keep);
                    }
                }
                assert(next =~= before.union(added));
            }
            j = j + 1;
        }
        proof {
            assert(ys@[j as int] == ys@.last());
            assert(xs@[0] <= xs@[i as int]);
            assert(xs@[i as int] < xs@[i + 1]);
            assert(enclosed_so_far(outline@, xs@, ys@, i as int, j as int) =~= enclosed_so_far(
                outline@,
                xs@,
                ys@,
                i + 1,
                0,
            ));
        }
        i = i + 1;
    }
    proof {
        assert(xs@[i as int] == xs@.last());
        assert forall|p: (int, int)| enclosed(outline@).contains(p) implies enclosed_so_far(
            outline@,
            xs@,
            ys@,
            i as int,
            0,
        ).contains(p) by {
            lemma_enclosed_within(outline@, xs@, ys@, p.0, p.1);
        }
        assert(covered(out@) =~= enclosed(outline@));
    }
    out
}

/// The cells inside `outer` and inside no outline of `holes`.
pub open spec fn polygon_cells(outer: Seq<Point>, holes: Seq<Vec<Point>>) -> Cells {
    Set::new(
        |p: (int, int)|
            inside(outer, p.0, p.1) && forall|k: int|
                0 <= k < holes.len() ==> !inside((#[trigger] holes[k])@, p.0, p.1),
    )
}

/// The region of a polygon with holes.
pub fn polygon_region(outer: &Vec<Point>, holes: &Vec<Vec<Point>>) -> (r: Region)
    requires
        rectilinear(outer@),
        forall|k: int| 0 <= k < holes@.len() ==> rectilinear((#[trigger] holes@[k])@),
    ensures
        r@ == polygon_cells(outer@, holes@),
{
    let mut r = Region::from_rects(outline_rects(outer).as_slice());
    let mut k: usize = 0;
    assert(r@ =~= polygon_cells(outer@, holes@.take(0)));
    while k < holes.len()
        invariant
            k <= holes@.len(),
            forall|i: int| 0 <= i < holes@.len() ==> rectilinear((#[trigger] holes@[i])@),
            r@ =~= polygon_cells(outer@, holes@.take(k as int)),
        decreases holes.len() - k,
    {
        let hole = Region::from_rects(outline_rects(&holes[k]).as_slice());
        r = r.difference(&hole);
        proof {
            let now = holes@.take(k as int);
            let next = holes@.take(k + 1);
            assert forall|p: (int, int)| r@.contains(p) <==> polygon_cells(outer@, next).contains(
                p,
            ) by {
                if polygon_cells(outer@, next).contains(p) {
                    assert(next[k as int] == holes@[k as int]);
                    assert forall|i: int| 0 <= i < now.len() implies !inside(
                        (#[trigger] now[i])@,
                        p.0,
                        p.1,
                    ) by {
                        assert(next[i] == now[i]);
                    }
                }
                if r@.contains(p) {
                    assert forall|i: int| 0 <= i < next.len() implies !inside(
                        (#[trigger] next[i])@,
                        p.0,
                        p.1,
                    ) by {
                        if i < k {
                            assert(next[i] == now[i]);
                        }
                    }
                }
            }
        }
        k = k + 1;
    }
    assert(holes@.take(holes@.len() as int) =~= holes@);
    r
}

} // verus!

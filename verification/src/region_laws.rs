//! What holds of every region and every outline.

use vstd::prelude::*;

use crate::cells::{
    adjacent, closed_in, connected, grown, in_world, lemma_adjacent_connected,
    lemma_connected_equivalence, near, shrunk, Cells,
};
use crate::geometry::{Point, Rect};
use crate::outline::{
    crosses, enclosed, inside, lemma_vertical, next_vertex, odd_crossings, polygon_cells,
    rectilinear,
};
use crate::rects::{covered, lemma_span_len, span};

verus! {

/// Bloating a rectangle moves each of its sides out, as far as coordinates go.
pub proof fn law_bloated_rectangle(r: Rect, dx: int, dy: int)
    requires
        !r.empty(),
        dx >= 0,
        dy >= 0,
    ensures
        grown(r.cells(), dx, dy) == span(r.x0 - dx, r.y0 - dy, r.x1 + dx, r.y1 + dy).filter(
            |p: (int, int)| in_world(p),
        ),
{
    let a = grown(r.cells(), dx, dy);
    let b = span(r.x0 - dx, r.y0 - dy, r.x1 + dx, r.y1 + dy).filter(|p: (int, int)| in_world(p));
    assert forall|p: (int, int)| a.contains(p) <==> b.contains(p) by {
        if a.contains(p) {
            let q = choose|q: (int, int)| r.cells().contains(q) && near(p, q, dx, dy);
            assert(r.covers(q));
        }
        if b.contains(p) {
            let qx = if p.0 < r.x0 {
                r.x0 as int
            } else if p.0 >= r.x1 {
                r.x1 - 1
            } else {
                p.0
            };
            let qy = if p.1 < r.y0 {
                r.y0 as int
            } else if p.1 >= r.y1 {
                r.y1 - 1
            } else {
                p.1
            };
            assert(r.cells().contains((qx, qy)) && near(p, (qx, qy), dx, dy));
        }
    }
    assert(a =~= b);
}

/// Shrinking a rectangle moves each of its sides in, and leaves nothing where they meet.
pub proof fn law_shrunk_rectangle(r: Rect, dx: int, dy: int)
    requires
        dx >= 0,
        dy >= 0,
    ensures
        shrunk(r.cells(), dx, dy) == span(r.x0 + dx, r.y0 + dy, r.x1 - dx, r.y1 - dy),
{
    let a = shrunk(r.cells(), dx, dy);
    let b = span(r.x0 + dx, r.y0 + dy, r.x1 - dx, r.y1 - dy);
    assert forall|p: (int, int)| a.contains(p) <==> b.contains(p) by {
        if a.contains(p) {
            assert(near(p, (p.0 - dx, p.1 - dy), dx, dy));
            assert(near(p, (p.0 + dx, p.1 + dy), dx, dy));
            assert(r.cells().contains((p.0 - dx, p.1 - dy)));
            assert(r.cells().contains((p.0 + dx, p.1 + dy)));
        }
        if b.contains(p) {
            assert forall|q: (int, int)| near(p, q, dx, dy) implies r.cells().contains(q) by {}
        }
    }
    assert(a =~= b);
}

/// Bloating and shrinking are told by the shifted region: a cell is in the bloated region where some
/// cell within reach is in the region, and in the shrunk one where all of them are.
pub proof fn law_reach(s: Cells, p: (int, int), dx: int, dy: int)
    requires
        in_world(p),
    ensures
        grown(s, dx, dy).contains(p) <==> exists|i: int, j: int|
            -dx <= i <= dx && -dy <= j <= dy && #[trigger] s.contains((p.0 + i, p.1 + j)),
        shrunk(s, dx, dy).contains(p) <==> forall|i: int, j: int|
            -dx <= i <= dx && -dy <= j <= dy ==> #[trigger] s.contains((p.0 + i, p.1 + j)),
{
    if grown(s, dx, dy).contains(p) {
        let q = choose|q: (int, int)| s.contains(q) && near(p, q, dx, dy);
        let (i, j) = (q.0 - p.0, q.1 - p.1);
        assert((p.0 + i, p.1 + j) == q);
        assert(s.contains((p.0 + i, p.1 + j)));
    }
    if exists|i: int, j: int|
        -dx <= i <= dx && -dy <= j <= dy && #[trigger] s.contains((p.0 + i, p.1 + j)) {
        let (i, j) = choose|i: int, j: int|
            -dx <= i <= dx && -dy <= j <= dy && #[trigger] s.contains((p.0 + i, p.1 + j));
        assert(near(p, (p.0 + i, p.1 + j), dx, dy));
    }
    if shrunk(s, dx, dy).contains(p) {
        assert forall|i: int, j: int| -dx <= i <= dx && -dy <= j <= dy implies #[trigger] s.contains(
            (p.0 + i, p.1 + j),
        ) by {
            assert(near(p, (p.0 + i, p.1 + j), dx, dy));
        }
    }
    if forall|i: int, j: int|
        -dx <= i <= dx && -dy <= j <= dy ==> #[trigger] s.contains((p.0 + i, p.1 + j)) {
        assert forall|q: (int, int)| near(p, q, dx, dy) implies s.contains(q) by {
            let (i, j) = (q.0 - p.0, q.1 - p.1);
            assert((p.0 + i, p.1 + j) == q);
            assert(s.contains((p.0 + i, p.1 + j)));
        }
    }
}

/// Whether the cells lead from `p` to `q` inside `s`, each to one above, below, left or right of it.
pub open spec fn is_path(s: Cells, path: Seq<(int, int)>, p: (int, int), q: (int, int)) -> bool {
    &&& path.len() > 0
    &&& path[0] == p
    &&& path.last() == q
    &&& forall|i: int| 0 <= i < path.len() ==> s.contains(#[trigger] path[i])
    &&& forall|i: int|
        0 < i < path.len() ==> {
            let a = path[i - 1];
            let b = #[trigger] path[i];
            ||| b == (a.0 + 1, a.1)
            ||| b == (a.0 - 1, a.1)
            ||| b == (a.0, a.1 + 1)
            ||| b == (a.0, a.1 - 1)
        }
}

/// Cells are of one piece exactly where a path leads from the one to the other inside the region;
/// cells that meet only at a corner are not.
pub proof fn law_pieces_are_paths(s: Cells, p: (int, int), q: (int, int))
    ensures
        connected(s, p, q) <==> exists|path: Seq<(int, int)>| #[trigger] is_path(s, path, p, q),
{
    if connected(s, p, q) {
        let t: Cells = Set::new(
            |c: (int, int)| exists|path: Seq<(int, int)>| #[trigger] is_path(s, path, p, c),
        );
        assert(closed_in(s, t)) by {
            assert forall|a: (int, int), b: (int, int)|
                t.contains(a) && s.contains(b) && #[trigger] adjacent(a, b) implies t.contains(b) by {
                let path = choose|path: Seq<(int, int)>| #[trigger] is_path(s, path, p, a);
                let more = path.push(b);
                assert(more[path.len() - 1] == a);
                assert(is_path(s, more, p, b));
            }
        }
        let one = seq![p];
        assert(is_path(s, one, p, p));
        assert(t.contains(p));
        assert(t.contains(q));
    }
    if exists|path: Seq<(int, int)>| #[trigger] is_path(s, path, p, q) {
        let path = choose|path: Seq<(int, int)>| #[trigger] is_path(s, path, p, q);
        lemma_path_connects(s, path, p, q);
    }
}

/// A path connects its ends.
proof fn lemma_path_connects(s: Cells, path: Seq<(int, int)>, p: (int, int), q: (int, int))
    requires
        is_path(s, path, p, q),
    ensures
        connected(s, p, q),
    decreases path.len(),
{
    lemma_connected_equivalence(s);
    assert(s.contains(path[0]));
    if path.len() > 1 {
        let n = path.len() - 1;
        let less = path.drop_last();
        assert(less.last() == path[n - 1]);
        assert(is_path(s, less, p, path[n - 1])) by {
            assert forall|i: int| 0 <= i < less.len() implies s.contains(#[trigger] less[i]) by {
                assert(s.contains(path[i]));
            }
        }
        lemma_path_connects(s, less, p, path[n - 1]);
        assert(s.contains(path[n]));
        assert(adjacent(path[n - 1], path[n]));
        lemma_adjacent_connected(s, path[n - 1], path[n]);
    }
}

/// Whether the edge from `a` to `b` is a wall in column `x` beside row `y`.
pub open spec fn is_wall(a: Point, b: Point, x: int, y: int) -> bool {
    a.x == x && b.x == x && ((a.y <= y && y < b.y) || (b.y <= y && y < a.y))
}

/// Whether an odd number of the first `n` edges are walls there.
pub open spec fn odd_walls(outline: Seq<Point>, x: int, y: int, n: int) -> bool
    decreases n,
{
    if n <= 0 {
        false
    } else {
        odd_walls(outline, x, y, n - 1) != is_wall(
            outline[n - 1],
            if n < outline.len() {
                outline[n]
            } else {
                outline[0]
            },
            x,
            y,
        )
    }
}

/// Going along a row, one passes between inside and outside exactly at the walls of the outline: where
/// an odd number of its vertical edges stand between two cells. Beyond its last column, and in every
/// row above or below it, all is outside.
pub proof fn law_walls(outline: Seq<Point>, x: int, y: int)
    requires
        rectilinear(outline),
    ensures
        inside(outline, x - 1, y) != inside(outline, x, y) <==> odd_walls(
            outline,
            x,
            y,
            outline.len() as int,
        ),
        (forall|i: int| 0 <= i < outline.len() ==> (#[trigger] outline[i]).x <= x) ==> !inside(
            outline,
            x,
            y,
        ),
        (forall|i: int| 0 <= i < outline.len() ==> (#[trigger] outline[i]).y <= y) ==> !inside(
            outline,
            x,
            y,
        ),
        (forall|i: int| 0 <= i < outline.len() ==> (#[trigger] outline[i]).y > y) ==> !inside(
            outline,
            x,
            y,
        ),
{
    lemma_walls(outline, x, y, outline.len() as int);
}

/// The same of the first edges.
proof fn lemma_walls(outline: Seq<Point>, x: int, y: int, n: int)
    requires
        rectilinear(outline),
        0 <= n <= outline.len(),
    ensures
        odd_crossings(outline, x - 1, y, n) != odd_crossings(outline, x, y, n) <==> odd_walls(
            outline,
            x,
            y,
            n,
        ),
        (forall|i: int| 0 <= i < outline.len() ==> (#[trigger] outline[i]).x <= x)
            ==> !odd_crossings(outline, x, y, n),
        (forall|i: int| 0 <= i < outline.len() ==> (#[trigger] outline[i]).y <= y)
            ==> !odd_crossings(outline, x, y, n),
        (forall|i: int| 0 <= i < outline.len() ==> (#[trigger] outline[i]).y > y)
            ==> !odd_crossings(outline, x, y, n),
    decreases n,
{
    if n > 0 {
        lemma_walls(outline, x, y, n - 1);
        let a = outline[n - 1];
        let b = next_vertex(outline, n - 1);
        assert(b == if n < outline.len() {
            outline[n]
        } else {
            outline[0]
        });
        assert(a.x == b.x || a.y == b.y);
        if a.y != b.y {
            lemma_vertical(a, b, y);
        }
    }
}

/// Whether an edge is this many whole columns away from its first vertex where it passes the row.
pub open spec fn cuts(a: Point, b: Point, y: int, columns: nat) -> bool {
    let wide = if b.x < a.x {
        a.x - b.x
    } else {
        b.x - a.x
    };
    let high = if y < a.y {
        a.y - y
    } else {
        y - a.y
    };
    let all = if b.y < a.y {
        a.y - b.y
    } else {
        b.y - a.y
    };
    columns * all <= wide * high < (columns + 1) * all
}

/// An edge that passes a row to the right of a cell is passed by its ray, and one to the left is not;
/// nor is one that does not pass the row. Where a slanted edge passes the row is cut to whole columns
/// from its first vertex on.
pub proof fn law_edges_beside(a: Point, b: Point, x: int, y: int, columns: nat)
    ensures
        ({
            let passes = (a.y <= y && y < b.y) || (b.y <= y && y < a.y);
            &&& !passes ==> !crosses(a, b, x, y)
            &&& passes && a.x > x && b.x > x ==> crosses(a, b, x, y)
            &&& passes && a.x <= x && b.x <= x ==> !crosses(a, b, x, y)
            &&& passes && cuts(a, b, y, columns) ==> (crosses(a, b, x, y) <==> if a.x <= b.x {
                a.x + columns > x
            } else {
                a.x - columns > x
            })
        }),
{
    let passes = (a.y <= y && y < b.y) || (b.y <= y && y < a.y);
    if passes {
        let (n, d) = ((b.x - a.x) * (y - a.y), b.y - a.y);
        let (un, ud) = (
            if n < 0 {
                -n
            } else {
                n
            },
            if d < 0 {
                -d
            } else {
                d
            },
        );
        let q = un / ud;
        let wide = if b.x < a.x {
            a.x - b.x
        } else {
            b.x - a.x
        };
        let tall = if y < a.y {
            a.y - y
        } else {
            y - a.y
        };
        assert(un == wide * tall) by (nonlinear_arith)
            requires
                n == (b.x - a.x) * (y - a.y),
                un == if n < 0 {
                    -n
                } else {
                    n
                },
                wide == if b.x < a.x {
                    a.x - b.x
                } else {
                    b.x - a.x
                },
                tall == if y < a.y {
                    a.y - y
                } else {
                    y - a.y
                },
        ;
        assert(0 <= q <= wide) by (nonlinear_arith)
            requires
                q == un / ud,
                un == wide * tall,
                0 <= tall <= ud,
                ud > 0,
                wide >= 0,
        ;
        if cuts(a, b, y, columns) {
            assert(q == columns) by (nonlinear_arith)
                requires
                    q == un / ud,
                    ud > 0,
                    columns * ud <= un < (columns + 1) * ud,
            ;
        }
        if b.x > a.x {
            assert((n < 0) == (d < 0) || n == 0) by (nonlinear_arith)
                requires
                    n == (b.x - a.x) * (y - a.y),
                    b.x > a.x,
                    d > 0 ==> y >= a.y,
                    d < 0 ==> y <= a.y,
                    d != 0,
            ;
        } else {
            assert(n == 0 || (n < 0) != (d < 0)) by (nonlinear_arith)
                requires
                    n == (b.x - a.x) * (y - a.y),
                    b.x <= a.x,
                    d > 0 ==> y >= a.y,
                    d < 0 ==> y <= a.y,
                    d != 0,
            ;
        }
        if n == 0 {
            assert(q == 0) by (nonlinear_arith)
                requires
                    q == un / ud,
                    un == 0,
                    ud > 0,
            ;
        }
    }
}

/// A hole takes out exactly what it encloses, and a polygon without holes is what its outline
/// encloses.
pub proof fn law_holes(outer: Seq<Point>, holes: Seq<Vec<Point>>, hole: Vec<Point>)
    ensures
        polygon_cells(outer, Seq::empty()) == enclosed(outer),
        polygon_cells(outer, holes.push(hole)) == polygon_cells(outer, holes).difference(
            enclosed(hole@),
        ),
{
    assert(polygon_cells(outer, Seq::empty()) =~= enclosed(outer));
    let all = holes.push(hole);
    let a = polygon_cells(outer, all);
    let b = polygon_cells(outer, holes).difference(enclosed(hole@));
    assert forall|p: (int, int)| a.contains(p) <==> b.contains(p) by {
        if a.contains(p) {
            assert(all[holes.len() as int] == hole);
            assert forall|k: int| 0 <= k < holes.len() implies !inside(
                (#[trigger] holes[k])@,
                p.0,
                p.1,
            ) by {
                assert(all[k] == holes[k]);
            }
        }
        if b.contains(p) {
            assert forall|k: int| 0 <= k < all.len() implies !inside((#[trigger] all[k])@, p.0, p.1) by {
                if k < holes.len() {
                    assert(all[k] == holes[k]);
                }
            }
        }
    }
    assert(a =~= b);
}

/// A rectangle holds its width times its height of cells, and cut at a column it falls into two that
/// share none.
pub proof fn law_rectangle(r: Rect, x: i32)
    requires
        r.x0 <= x <= r.x1,
        r.y0 <= r.y1,
    ensures
        ({
            let left = Rect { x1: x, ..r };
            let right = Rect { x0: x, ..r };
            &&& r.cells().len() == (r.x1 - r.x0) * (r.y1 - r.y0)
            &&& left.cells().union(right.cells()) == r.cells()
            &&& left.cells().disjoint(right.cells())
        }),
{
    let left = Rect { x1: x, ..r };
    let right = Rect { x0: x, ..r };
    lemma_span_len(r.x0 as int, r.y0 as int, r.x1 as int, r.y1 as int);
    assert(r.cells() =~= span(r.x0 as int, r.y0 as int, r.x1 as int, r.y1 as int));
    assert(left.cells().union(right.cells()) =~= r.cells());
}

/// Rectangles together cover what each of them covers.
pub proof fn law_covered(a: Seq<Rect>, b: Seq<Rect>, r: Rect)
    ensures
        covered(a + b) == covered(a).union(covered(b)),
        covered(seq![r]) == r.cells(),
        covered(Seq::empty()) == Set::<(int, int)>::empty(),
{
    let all = a + b;
    assert forall|p: (int, int)| covered(all).contains(p) <==> covered(a).union(covered(b)).contains(
        p,
    ) by {
        if covered(all).contains(p) {
            let i = choose|i: int| 0 <= i < all.len() && #[trigger] all[i].covers(p);
            if i < a.len() {
                assert(a[i].covers(p));
            } else {
                assert(b[i - a.len()].covers(p));
            }
        }
        if covered(a).contains(p) {
            let i = choose|i: int| 0 <= i < a.len() && #[trigger] a[i].covers(p);
            assert(all[i].covers(p));
        }
        if covered(b).contains(p) {
            let i = choose|i: int| 0 <= i < b.len() && #[trigger] b[i].covers(p);
            assert(all[a.len() + i].covers(p));
        }
    }
    assert(covered(all) =~= covered(a).union(covered(b)));
    assert forall|p: (int, int)| covered(seq![r]).contains(p) <==> r.cells().contains(p) by {
        if r.covers(p) {
            assert(seq![r][0].covers(p));
        }
    }
    assert(covered(seq![r]) =~= r.cells());
    assert(covered(Seq::empty()) =~= Set::<(int, int)>::empty());
}

} // verus!

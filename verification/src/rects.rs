//! Lists of rectangles and the cells they cover.

use vstd::prelude::*;

use crate::cells::{
    adjacent, closed_in, connected, grown, is_first, near, no_later, piece_of, Cells,
};
use crate::geometry::Rect;

verus! {

/// The cells that some rectangle of `rs` covers.
pub open spec fn covered(rs: Seq<Rect>) -> Cells {
    Set::new(|p: (int, int)| exists|i: int| 0 <= i < rs.len() && #[trigger] rs[i].covers(p))
}

/// Whether two rectangles share a cell.
pub(crate) fn overlap(a: Rect, b: Rect) -> (r: bool)
    ensures
        r == exists|p: (int, int)| a.covers(p) && b.covers(p),
{
    let x0 = if a.x0 > b.x0 { a.x0 } else { b.x0 };
    let y0 = if a.y0 > b.y0 { a.y0 } else { b.y0 };
    let x1 = if a.x1 < b.x1 { a.x1 } else { b.x1 };
    let y1 = if a.y1 < b.y1 { a.y1 } else { b.y1 };
    let r = x0 < x1 && y0 < y1;
    proof {
        if r {
            let p = (x0 as int, y0 as int);
            assert(a.covers(p) && b.covers(p));
        }
    }
    r
}

/// Appends `r` unless it is empty.
pub(crate) fn push_nonempty(out: &mut Vec<Rect>, r: Rect)
    ensures
        covered(final(out)@) =~= covered(old(out)@).union(r.cells()),
        all_nonempty(old(out)@) ==> all_nonempty(final(out)@),
{
    let ghost before = out@;
    if r.x0 < r.x1 && r.y0 < r.y1 {
        out.push(r);
        proof {
            assert forall|p: (int, int)| covered(out@).contains(p) <==> covered(before).union(
                r.cells(),
            ).contains(p) by {
                if covered(before).contains(p) {
                    let i = choose|i: int| 0 <= i < before.len() && #[trigger] before[i].covers(p);
                    assert(out@[i].covers(p));
                }
                if r.covers(p) {
                    assert(out@[before.len() as int].covers(p));
                }
                if covered(out@).contains(p) {
                    let i = choose|i: int| 0 <= i < out@.len() && #[trigger] out@[i].covers(p);
                    if i < before.len() {
                        assert(before[i].covers(p));
                    }
                }
            }
        }
    } else {
        assert(r.cells() =~= Set::<(int, int)>::empty());
    }
}

/// Appends the parts of `a` that `b` leaves uncovered.
pub(crate) fn push_minus(out: &mut Vec<Rect>, a: Rect, b: Rect)
    ensures
        covered(final(out)@) =~= covered(old(out)@).union(a.cells().difference(b.cells())),
{
    if !overlap(a, b) {
        push_nonempty(out, a);
        assert(a.cells().difference(b.cells()) =~= a.cells());
    } else {
        let y0 = if a.y0 > b.y0 { a.y0 } else { b.y0 };
        let y1 = if a.y1 < b.y1 { a.y1 } else { b.y1 };
        let below = Rect { x0: a.x0, y0: a.y0, x1: a.x1, y1: y0 };
        let above = Rect { x0: a.x0, y0: y1, x1: a.x1, y1: a.y1 };
        let x0 = if a.x0 > b.x0 { a.x0 } else { b.x0 };
        let x1 = if a.x1 < b.x1 { a.x1 } else { b.x1 };
        let left = Rect { x0: a.x0, y0, x1: x0, y1 };
        let right = Rect { x0: x1, y0, x1: a.x1, y1 };
        push_nonempty(out, below);
        push_nonempty(out, above);
        push_nonempty(out, left);
        push_nonempty(out, right);
        proof {
            let p = choose|p: (int, int)| a.covers(p) && b.covers(p);
            assert(a.covers(p) && b.covers(p));
            assert(a.cells().difference(b.cells()) =~= below.cells().union(above.cells()).union(
                left.cells(),
            ).union(right.cells()));
        }
    }
}

/// The parts of `rs` that `b` leaves uncovered.
pub(crate) fn minus_rect(rs: &Vec<Rect>, b: Rect) -> (out: Vec<Rect>)
    ensures
        covered(out@) =~= covered(rs@).difference(b.cells()),
{
    let mut out: Vec<Rect> = Vec::new();
    let mut i: usize = 0;
    assert(covered(out@) =~= Set::<(int, int)>::empty());
    assert(covered(rs@.take(0)) =~= Set::<(int, int)>::empty());
    while i < rs.len()
        invariant
            i <= rs.len(),
            covered(out@) =~= covered(rs@.take(i as int)).difference(b.cells()),
        decreases rs.len() - i,
    {
        push_minus(&mut out, rs[i], b);
        proof {
            lemma_covered_take(rs@, i as int);
        }
        i = i + 1;
    }
    assert(rs@.take(rs.len() as int) =~= rs@);
    out
}

/// Taking one more rectangle adds its cells.
pub proof fn lemma_covered_take(rs: Seq<Rect>, i: int)
    requires
        0 <= i < rs.len(),
    ensures
        covered(rs.take(i + 1)) =~= covered(rs.take(i)).union(rs[i].cells()),
{
    let a = rs.take(i + 1);
    let b = rs.take(i);
    assert forall|p: (int, int)| covered(a).contains(p) <==> covered(b).union(
        rs[i].cells(),
    ).contains(p) by {
        if covered(a).contains(p) {
            let k = choose|k: int| 0 <= k < a.len() && #[trigger] a[k].covers(p);
            if k < i {
                assert(b[k].covers(p));
            }
        }
        if covered(b).contains(p) {
            let k = choose|k: int| 0 <= k < b.len() && #[trigger] b[k].covers(p);
            assert(a[k].covers(p));
        }
        if rs[i].covers(p) {
            assert(a[i].covers(p));
        }
    }
}

/// `a` with `dx` more columns and `dy` more rows on each side, as far as coordinates go.
pub(crate) fn grow_rect(a: Rect, dx: i32, dy: i32) -> (r: Rect)
    requires
        dx >= 0,
        dy >= 0,
        !a.empty(),
    ensures
        !r.empty(),
        r.cells() =~= grown(a.cells(), dx as int, dy as int),
{
    let x0 = a.x0 as i64 - dx as i64;
    let y0 = a.y0 as i64 - dy as i64;
    let x1 = a.x1 as i64 + dx as i64;
    let y1 = a.y1 as i64 + dy as i64;
    let r = Rect {
        x0: if x0 < i32::MIN as i64 { i32::MIN } else { x0 as i32 },
        y0: if y0 < i32::MIN as i64 { i32::MIN } else { y0 as i32 },
        x1: if x1 > i32::MAX as i64 { i32::MAX } else { x1 as i32 },
        y1: if y1 > i32::MAX as i64 { i32::MAX } else { y1 as i32 },
    };
    proof {
        assert forall|p: (int, int)| r.covers(p) implies grown(
            a.cells(),
            dx as int,
            dy as int,
        ).contains(p) by {
            let q = (
                if p.0 < a.x0 { a.x0 as int } else if p.0 >= a.x1 { a.x1 - 1 } else { p.0 },
                if p.1 < a.y0 { a.y0 as int } else if p.1 >= a.y1 { a.y1 - 1 } else { p.1 },
            );
            assert(a.cells().contains(q) && near(p, q, dx as int, dy as int));
        }
    }
    r
}

/// The rectangles of `rs` that are not empty.
pub(crate) fn nonempty_of(rs: &[Rect]) -> (out: Vec<Rect>)
    ensures
        covered(out@) =~= covered(rs@),
        all_nonempty(out@),
{
    let mut out: Vec<Rect> = Vec::new();
    let mut i: usize = 0;
    assert(covered(out@) =~= Set::<(int, int)>::empty());
    assert(covered(rs@.take(0)) =~= Set::<(int, int)>::empty());
    while i < rs.len()
        invariant
            i <= rs.len(),
            covered(out@) =~= covered(rs@.take(i as int)),
            all_nonempty(out@),
        decreases rs.len() - i,
    {
        push_nonempty(&mut out, rs[i]);
        proof {
            lemma_covered_take(rs@, i as int);
        }
        i = i + 1;
    }
    assert(rs@.take(i as int) =~= rs@);
    out
}

/// Whether two cells are the same or share an edge.
pub open spec fn meeting(p: (int, int), q: (int, int)) -> bool {
    p == q || adjacent(p, q)
}

/// Whether some cell of `a` is a cell of `b` or adjacent to one.
pub open spec fn touching(a: Rect, b: Rect) -> bool {
    exists|p: (int, int), q: (int, int)|
        a.covers(p) && b.covers(q) && #[trigger] meeting(p, q)
}

fn touches(a: Rect, b: Rect) -> (r: bool)
    requires
        !a.empty(),
        !b.empty(),
    ensures
        r == touching(a, b),
{
    let r = (a.x0 < b.x1 && b.x0 < a.x1 && a.y0 <= b.y1 && b.y0 <= a.y1) || (a.y0 < b.y1 && b.y0
        < a.y1 && a.x0 <= b.x1 && b.x0 <= a.x1);
    proof {
        if r {
            let x = if a.x0 > b.x0 { a.x0 as int } else { b.x0 as int };
            let y = if a.y0 > b.y0 { a.y0 as int } else { b.y0 as int };
            if a.x0 < b.x1 && b.x0 < a.x1 {
                if a.y0 == b.y1 {
                    assert(a.covers((x, a.y0 as int)) && b.covers((x, a.y0 - 1)));
                    assert(meeting((x, a.y0 as int), (x, a.y0 - 1)));
                } else if b.y0 == a.y1 {
                    assert(a.covers((x, b.y0 - 1)) && b.covers((x, b.y0 as int)));
                    assert(meeting((x, b.y0 - 1), (x, b.y0 as int)));
                } else {
                    lemma_shared_cell(a, b, (x, y));
                }
            } else if a.x0 == b.x1 {
                assert(a.covers((a.x0 as int, y)) && b.covers((a.x0 - 1, y)));
                assert(meeting((a.x0 as int, y), (a.x0 - 1, y)));
            } else {
                assert(a.covers((b.x0 - 1, y)) && b.covers((b.x0 as int, y)));
                assert(meeting((b.x0 - 1, y), (b.x0 as int, y)));
            }
        }
    }
    r
}

proof fn lemma_shared_cell(a: Rect, b: Rect, p: (int, int))
    requires
        a.covers(p),
        b.covers(p),
    ensures
        touching(a, b),
{
    assert(meeting(p, p));
}

/// A set closed under steps in `s` that meets a rectangle of `s` holds all of it.
proof fn lemma_walk(s: Cells, t: Cells, r: Rect, p: (int, int), q: (int, int))
    requires
        r.cells().subset_of(s),
        closed_in(s, t),
        r.covers(p),
        r.covers(q),
        t.contains(p),
    ensures
        t.contains(q),
    decreases
            (if p.0 < q.0 {
                q.0 - p.0
            } else {
                p.0 - q.0
            }) + (if p.1 < q.1 {
                q.1 - p.1
            } else {
                p.1 - q.1
            }),
{
    if p != q {
        let n = if p.0 < q.0 {
            (p.0 + 1, p.1)
        } else if p.0 > q.0 {
            (p.0 - 1, p.1)
        } else if p.1 < q.1 {
            (p.0, p.1 + 1)
        } else {
            (p.0, p.1 - 1)
        };
        assert(r.cells().contains(n));
        assert(adjacent(p, n));
        lemma_walk(s, t, r, n, q);
    }
}

/// The cells of a rectangle inside `s` are connected in `s`.
pub proof fn lemma_rect_connected(s: Cells, r: Rect, p: (int, int), q: (int, int))
    requires
        r.cells().subset_of(s),
        r.covers(p),
        r.covers(q),
    ensures
        connected(s, p, q),
{
    assert(r.cells().contains(p) && r.cells().contains(q));
    assert forall|t: Cells| #[trigger] closed_in(s, t) && t.contains(p) implies t.contains(q) by {
        lemma_walk(s, t, r, p, q);
    }
}

/// Whether no rectangle of `rs` is empty.
pub open spec fn all_nonempty(rs: Seq<Rect>) -> bool {
    forall|i: int| 0 <= i < rs.len() ==> !(#[trigger] rs[i]).empty()
}

/// Adding one rectangle adds its cells.
pub proof fn lemma_covered_push(rs: Seq<Rect>, r: Rect)
    ensures
        covered(rs.push(r)) =~= covered(rs).union(r.cells()),
{
    lemma_covered_take(rs.push(r), rs.len() as int);
    assert(rs.push(r).take(rs.len() as int) =~= rs);
    assert(rs.push(r).take((rs.len() + 1) as int) =~= rs.push(r));
}

/// Sorts `rest` by whether a rectangle touches `r`: those that do join `piece`.
fn absorb(piece: &mut Vec<Rect>, rest: Vec<Rect>, r: Rect, Ghost(s): Ghost<Cells>, Ghost(
    c,
): Ghost<(int, int)>) -> (left: Vec<Rect>)
    requires
        all_nonempty(old(piece)@),
        all_nonempty(rest@),
        !r.empty(),
        covered(old(piece)@).union(covered(rest@)) =~= s,
        covered(old(piece)@).subset_of(piece_of(s, c)),
        r.cells().subset_of(covered(old(piece)@)),
    ensures
        all_nonempty(final(piece)@),
        all_nonempty(left@),
        final(piece)@.len() + left@.len() == old(piece)@.len() + rest@.len(),
        old(piece)@ == final(piece)@.take(old(piece)@.len() as int),
        old(piece)@.len() <= final(piece)@.len(),
        covered(final(piece)@).union(covered(left@)) =~= s,
        covered(final(piece)@).subset_of(piece_of(s, c)),
        forall|i: int| 0 <= i < left@.len() ==> !touching(r, #[trigger] left@[i]),
        forall|i: int| 0 <= i < left@.len() ==> rest@.contains(#[trigger] left@[i]),
{
    let mut left: Vec<Rect> = Vec::new();
    let mut i: usize = 0;
    let ghost p0 = piece@;
    assert(rest@.take(0) =~= Seq::empty());
    assert(covered(Seq::<Rect>::empty()) =~= Set::<(int, int)>::empty());
    assert(covered(left@) =~= Set::<(int, int)>::empty());
    while i < rest.len()
        invariant
            i <= rest.len(),
            all_nonempty(piece@),
            all_nonempty(rest@),
            all_nonempty(left@),
            !r.empty(),
            r.cells().subset_of(covered(p0)),
            covered(p0).union(covered(rest@)) =~= s,
            covered(p0).subset_of(piece_of(s, c)),
            covered(piece@).subset_of(piece_of(s, c)),
            covered(piece@).union(covered(left@)) =~= covered(p0).union(
                covered(rest@.take(i as int)),
            ),
            p0.len() <= piece@.len(),
            p0 == piece@.take(p0.len() as int),
            piece@.len() + left@.len() == p0.len() + i,
            forall|k: int| 0 <= k < left@.len() ==> !touching(r, #[trigger] left@[k]),
            forall|k: int| 0 <= k < left@.len() ==> rest@.contains(#[trigger] left@[k]),
        decreases rest.len() - i,
    {
        let t = rest[i];
        proof {
            lemma_covered_take(rest@, i as int);
            assert(covered(p0).union(covered(rest@.take(i + 1))) =~= covered(p0).union(
                covered(rest@.take(i as int)),
            ).union(t.cells()));
            lemma_covered_push(piece@, t);
            lemma_covered_push(left@, t);
            assert(t.cells().subset_of(s)) by {
                assert forall|q: (int, int)| t.covers(q) implies s.contains(q) by {
                    assert(rest@[i as int].covers(q));
                    assert(covered(rest@).contains(q));
                }
            }
        }
        let joins = touches(r, t);
        if joins {
            proof {
                let (p, q) = choose|p: (int, int), q: (int, int)|
                    r.covers(p) && t.covers(q) && #[trigger] meeting(p, q);
                assert(r.cells().contains(p));
                assert(covered(p0).contains(p));
                assert(piece_of(s, c).contains(p));
                assert(t.cells().contains(q));
                crate::cells::lemma_connected_equivalence(s);
                assert(connected(s, c, q)) by {
                    if p != q {
                        crate::cells::lemma_adjacent_connected(s, p, q);
                        assert(connected(s, c, p));
                    }
                }
                assert forall|u: (int, int)| t.cells().contains(u) implies piece_of(
                    s,
                    c,
                ).contains(u) by {
                    lemma_rect_connected(s, t, q, u);
                    assert(connected(s, c, u));
                }
            }
            let ghost before = piece@;
            piece.push(t);
            assert(piece@.take(p0.len() as int) =~= before.take(p0.len() as int));
            assert(piece@ =~= before.push(t));
            assert(covered(piece@).union(covered(left@)) =~= covered(before).union(
                covered(left@),
            ).union(t.cells()));
        } else {
            let ghost before = left@;
            left.push(t);
            assert(left@ =~= before.push(t));
            assert(covered(piece@).union(covered(left@)) =~= covered(piece@).union(
                covered(before),
            ).union(t.cells()));
            assert(left@[left@.len() - 1] == rest@[i as int]);
        }
        i = i + 1;
    }
    assert(rest@.take(rest.len() as int) =~= rest@);
    left
}

/// Splits off the rectangles of the piece that holds `todo[m]`.
pub(crate) fn split_piece(todo: Vec<Rect>, m: usize) -> (r: (Vec<Rect>, Vec<Rect>))
    requires
        m < todo@.len(),
        all_nonempty(todo@),
    ensures
        ({
            let c = (todo@[m as int].x0 as int, todo@[m as int].y0 as int);
            let s = covered(todo@);
            &&& covered(r.0@) =~= piece_of(s, c)
            &&& covered(r.1@) =~= s.difference(piece_of(s, c))
            &&& all_nonempty(r.0@)
            &&& all_nonempty(r.1@)
            &&& r.1@.len() < todo@.len()
        }),
{
    let ghost s = covered(todo@);
    let n = todo.len();
    let seed = todo[m];
    let ghost c = (seed.x0 as int, seed.y0 as int);
    let mut rest = todo;
    let mut piece: Vec<Rect> = Vec::new();
    let seed = rest.swap_remove(m);
    piece.push(seed);
    proof {
        assert(seed.covers(c));
        assert forall|p: (int, int)| covered(piece@).union(covered(rest@)).contains(p) <==> s.contains(
            p,
        ) by {
            if s.contains(p) {
                let k = choose|k: int| 0 <= k < todo@.len() && #[trigger] todo@[k].covers(p);
                if k == m {
                    assert(piece@[0].covers(p));
                } else if k == todo@.len() - 1 {
                    assert(rest@[m as int].covers(p));
                } else {
                    assert(rest@[k].covers(p));
                }
            }
            if covered(rest@).contains(p) {
                let k = choose|k: int| 0 <= k < rest@.len() && #[trigger] rest@[k].covers(p);
                if k == m {
                    assert(todo@[todo@.len() - 1].covers(p));
                } else {
                    assert(todo@[k].covers(p));
                }
            }
            if covered(piece@).contains(p) {
                assert(todo@[m as int].covers(p));
            }
        }
        assert(covered(piece@).subset_of(piece_of(s, c))) by {
            assert forall|p: (int, int)| covered(piece@).contains(p) implies piece_of(s, c).contains(
                p,
            ) by {
                assert(seed.cells().subset_of(s)) by {
                    assert forall|q: (int, int)| seed.covers(q) implies s.contains(q) by {
                        assert(todo@[m as int].covers(q));
                    }
                }
                lemma_rect_connected(s, seed, c, p);
            }
        }
    }
    let mut f: usize = 0;
    while f < piece.len()
        invariant
            f <= piece@.len(),
            piece@.len() > 0,
            all_nonempty(piece@),
            all_nonempty(rest@),
            piece@.len() + rest@.len() == n,
            piece@[0] == seed,
            covered(piece@).union(covered(rest@)) =~= s,
            covered(piece@).subset_of(piece_of(s, c)),
            forall|k: int, j: int|
                0 <= k < f && 0 <= j < rest@.len() ==> !touching(
                    #[trigger] piece@[k],
                    #[trigger] rest@[j],
                ),
        decreases n - f,
    {
        let r = piece[f];
        let ghost old_piece = piece@;
        let ghost old_rest = rest@;
        proof {
            assert forall|p: (int, int)| r.covers(p) implies covered(piece@).contains(p) by {
                assert(piece@[f as int].covers(p));
            }
        }
        rest = absorb(&mut piece, rest, r, Ghost(s), Ghost(c));
        proof {
            assert forall|k: int, j: int|
                0 <= k < f + 1 && 0 <= j < rest@.len() implies !touching(
                #[trigger] piece@[k],
                #[trigger] rest@[j],
            ) by {
                assert(piece@.take(old_piece.len() as int)[k] == old_piece[k]);
                if k < f {
                    assert(old_rest.contains(rest@[j]));
                    let i = choose|i: int| 0 <= i < old_rest.len() && old_rest[i] == rest@[j];
                    assert(!touching(old_piece[k], old_rest[i]));
                }
            }
            assert(piece@[0] == old_piece[0]) by {
                assert(piece@.take(old_piece.len() as int)[0] == old_piece[0]);
            }
        }
        f = f + 1;
    }
    proof {
        let t = covered(piece@);
        assert(closed_in(s, t)) by {
            assert forall|p: (int, int), q: (int, int)|
                t.contains(p) && s.contains(q) && #[trigger] adjacent(p, q) implies t.contains(q) by {
                if covered(rest@).contains(q) {
                    let k = choose|k: int| 0 <= k < piece@.len() && #[trigger] piece@[k].covers(p);
                    let j = choose|j: int| 0 <= j < rest@.len() && #[trigger] rest@[j].covers(q);
                    assert(meeting(p, q));
                    assert(touching(piece@[k], rest@[j]));
                }
            }
        }
        assert(piece@[0].covers(c));
        assert(t.contains(c));
        assert(t =~= piece_of(s, c)) by {
            assert forall|q: (int, int)| piece_of(s, c).contains(q) implies t.contains(q) by {
                assert(connected(s, c, q));
            }
        }
        assert forall|p: (int, int)| covered(rest@).contains(p) implies !t.contains(p) by {
            if t.contains(p) {
                let k = choose|k: int| 0 <= k < piece@.len() && #[trigger] piece@[k].covers(p);
                let j = choose|j: int| 0 <= j < rest@.len() && #[trigger] rest@[j].covers(p);
                lemma_shared_cell(piece@[k], rest@[j], p);
            }
        }
    }
    (piece, rest)
}

/// The rectangle with the first lower left corner, column by column, then upwards.
pub(crate) fn first_rect(rs: &Vec<Rect>) -> (m: usize)
    requires
        rs@.len() > 0,
        all_nonempty(rs@),
    ensures
        m < rs@.len(),
        is_first(covered(rs@), (rs@[m as int].x0 as int, rs@[m as int].y0 as int)),
{
    let mut m: usize = 0;
    let mut i: usize = 1;
    while i < rs.len()
        invariant
            1 <= i <= rs@.len(),
            m < i,
            forall|k: int|
                0 <= k < i ==> no_later(
                    (rs@[m as int].x0 as int, rs@[m as int].y0 as int),
                    ((#[trigger] rs@[k]).x0 as int, rs@[k].y0 as int),
                ),
        decreases rs.len() - i,
    {
        if rs[i].x0 < rs[m].x0 || (rs[i].x0 == rs[m].x0 && rs[i].y0 < rs[m].y0) {
            m = i;
        }
        i = i + 1;
    }
    proof {
        let c = (rs@[m as int].x0 as int, rs@[m as int].y0 as int);
        assert(rs@[m as int].covers(c));
        assert forall|q: (int, int)| covered(rs@).contains(q) implies no_later(c, q) by {
            let k = choose|k: int| 0 <= k < rs@.len() && #[trigger] rs@[k].covers(q);
            assert(no_later(c, (rs@[k].x0 as int, rs@[k].y0 as int)));
        }
    }
    m
}

/// The cells with `x0 <= x < x1` and `y0 <= y < y1`.
pub open spec fn span(x0: int, y0: int, x1: int, y1: int) -> Cells {
    Set::new(|p: (int, int)| x0 <= p.0 < x1 && y0 <= p.1 < y1)
}

/// A span holds its width times its height.
pub proof fn lemma_span_len(x0: int, y0: int, x1: int, y1: int)
    requires
        x0 <= x1,
        y0 <= y1,
    ensures
        span(x0, y0, x1, y1).finite(),
        span(x0, y0, x1, y1).len() == (x1 - x0) * (y1 - y0),
    decreases x1 - x0, y1 - y0,
{
    let s = span(x0, y0, x1, y1);
    if x0 == x1 {
        assert(s =~= Set::<(int, int)>::empty());
        assert((x1 - x0) * (y1 - y0) == 0) by (nonlinear_arith)
            requires
                x0 == x1,
        ;
    } else if x1 == x0 + 1 {
        if y0 == y1 {
            assert(s =~= Set::<(int, int)>::empty());
        } else {
            lemma_span_len(x0, y0, x1, y1 - 1);
            assert(s =~= span(x0, y0, x1, y1 - 1).insert((x0, y1 - 1)));
        }
        assert((x1 - x0) * (y1 - y0) == y1 - y0) by (nonlinear_arith)
            requires
                x1 == x0 + 1,
        ;
        assert((x1 - x0) * (y1 - 1 - y0) == y1 - 1 - y0) by (nonlinear_arith)
            requires
                x1 == x0 + 1,
        ;
    } else {
        let a = span(x0, y0, x1 - 1, y1);
        let b = span(x1 - 1, y0, x1, y1);
        lemma_span_len(x0, y0, x1 - 1, y1);
        lemma_span_len(x1 - 1, y0, x1, y1);
        assert(s =~= a.union(b));
        assert(a.disjoint(b));
        vstd::set_lib::lemma_set_disjoint_lens(a, b);
        assert((x1 - x0) * (y1 - y0) == (x1 - 1 - x0) * (y1 - y0) + (x1 - (x1 - 1)) * (y1 - y0))
            by (nonlinear_arith);
    }
}

/// The cells of a rectangle are finitely many.
pub proof fn lemma_rect_finite(r: Rect)
    ensures
        r.cells().finite(),
        !r.empty() ==> r.cells().len() == (r.x1 - r.x0) * (r.y1 - r.y0),
{
    if r.empty() {
        assert(r.cells() =~= Set::<(int, int)>::empty());
    } else {
        lemma_span_len(r.x0 as int, r.y0 as int, r.x1 as int, r.y1 as int);
        assert(r.cells() =~= span(r.x0 as int, r.y0 as int, r.x1 as int, r.y1 as int));
    }
}

/// Rectangles cover finitely many cells, fewer than 64 bits count.
pub proof fn lemma_covered_finite(rs: Seq<Rect>)
    ensures
        covered(rs).finite(),
        covered(rs).len() <= u64::MAX,
{
    let lo = i32::MIN as int;
    let hi = i32::MAX as int;
    let w = span(lo, lo, hi, hi);
    lemma_span_len(lo, lo, hi, hi);
    assert((hi - lo) * (hi - lo) <= u64::MAX) by (nonlinear_arith)
        requires
            hi == 0x7fff_ffff,
            lo == -0x8000_0000,
    ;
    assert(covered(rs).subset_of(w));
    vstd::set_lib::lemma_len_subset(covered(rs), w);
}

/// The number of cells of `r` that no rectangle of `rs` from `j` on covers.
pub(crate) fn area_outside(r: Rect, rs: &Vec<Rect>, j: usize) -> (n: u64)
    requires
        j <= rs@.len(),
    ensures
        n == r.cells().difference(covered(rs@.skip(j as int))).len(),
        r.cells().difference(covered(rs@.skip(j as int))).finite(),
    decreases rs@.len() - j,
{
    let ghost left = covered(rs@.skip(j as int));
    proof {
        lemma_rect_finite(r);
        lemma_covered_finite(seq![r]);
        assert(covered(seq![r]) =~= r.cells()) by {
            assert(seq![r][0] == r);
        }
        assert(r.cells().difference(left).subset_of(r.cells()));
        vstd::set_lib::lemma_len_subset(r.cells().difference(left), r.cells());
    }
    if r.x0 >= r.x1 || r.y0 >= r.y1 {
        assert(r.cells().difference(left) =~= Set::<(int, int)>::empty());
        return 0;
    }
    if j == rs.len() {
        let w = (r.x1 as i64 - r.x0 as i64) as u64;
        let h = (r.y1 as i64 - r.y0 as i64) as u64;
        assert(rs@.skip(j as int) =~= Seq::empty());
        assert(r.cells().difference(left) =~= r.cells());
        assert(w * h == (r.x1 - r.x0) * (r.y1 - r.y0));
        return w * h;
    }
    let b = rs[j];
    let ghost tail = covered(rs@.skip(j + 1));
    proof {
        assert forall|p: (int, int)| left.contains(p) <==> b.cells().union(tail).contains(p) by {
            let s = rs@.skip(j as int);
            let t = rs@.skip(j + 1);
            if left.contains(p) {
                let k = choose|k: int| 0 <= k < s.len() && #[trigger] s[k].covers(p);
                if k > 0 {
                    assert(t[k - 1].covers(p));
                }
            }
            if tail.contains(p) {
                let k = choose|k: int| 0 <= k < t.len() && #[trigger] t[k].covers(p);
                assert(s[k + 1].covers(p));
            }
            if b.covers(p) {
                assert(s[0].covers(p));
            }
        }
    }
    if !overlap(r, b) {
        let n = area_outside(r, rs, j + 1);
        assert(r.cells().difference(left) =~= r.cells().difference(tail));
        return n;
    }
    let x0 = if r.x0 > b.x0 { r.x0 } else { b.x0 };
    let y0 = if r.y0 > b.y0 { r.y0 } else { b.y0 };
    let x1 = if r.x1 < b.x1 { r.x1 } else { b.x1 };
    let y1 = if r.y1 < b.y1 { r.y1 } else { b.y1 };
    let below = Rect { x0: r.x0, y0: r.y0, x1: r.x1, y1: y0 };
    let above = Rect { x0: r.x0, y0: y1, x1: r.x1, y1: r.y1 };
    let west = Rect { x0: r.x0, y0, x1: x0, y1 };
    let east = Rect { x0: x1, y0, x1: r.x1, y1 };
    let n1 = area_outside(below, rs, j + 1);
    let n2 = area_outside(above, rs, j + 1);
    let n3 = area_outside(west, rs, j + 1);
    let n4 = area_outside(east, rs, j + 1);
    proof {
        let c = choose|p: (int, int)| r.covers(p) && b.covers(p);
        assert(r.covers(c) && b.covers(c));
        let s1 = below.cells().difference(tail);
        let s2 = above.cells().difference(tail);
        let s3 = west.cells().difference(tail);
        let s4 = east.cells().difference(tail);
        assert(s1.disjoint(s2));
        vstd::set_lib::lemma_set_disjoint_lens(s1, s2);
        assert(s3.disjoint(s4));
        vstd::set_lib::lemma_set_disjoint_lens(s3, s4);
        assert(s1.union(s2).disjoint(s3.union(s4)));
        vstd::set_lib::lemma_set_disjoint_lens(s1.union(s2), s3.union(s4));
        assert(s1.union(s2).union(s3.union(s4)) =~= r.cells().difference(left));
    }
    n1 + n2 + n3 + n4
}

} // verus!

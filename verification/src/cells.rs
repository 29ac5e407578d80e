//! The mathematical model: finite sets of unit cells, offsetting, and connected pieces.

use vstd::prelude::*;

verus! {

/// A set of unit cells, each named by its lower left corner.
pub type Cells = Set<(int, int)>;

/// The cells that database coordinates can bound.
pub open spec fn in_world(p: (int, int)) -> bool {
    i32::MIN <= p.0 < i32::MAX && i32::MIN <= p.1 < i32::MAX
}

/// Whether two cells differ by at most `dx` columns and `dy` rows.
pub open spec fn near(p: (int, int), q: (int, int), dx: int, dy: int) -> bool {
    -dx <= p.0 - q.0 <= dx && -dy <= p.1 - q.1 <= dy
}

/// Every cell within `dx` columns and `dy` rows of a cell of `s`.
pub open spec fn grown(s: Cells, dx: int, dy: int) -> Cells {
    Set::new(|p: (int, int)| in_world(p) && exists|q: (int, int)| s.contains(q) && near(p, q, dx, dy))
}

/// The cells all of whose neighbours within `dx` columns and `dy` rows are in `s`.
pub open spec fn shrunk(s: Cells, dx: int, dy: int) -> Cells {
    Set::new(|p: (int, int)| forall|q: (int, int)| near(p, q, dx, dy) ==> s.contains(q))
}

/// Whether two cells share an edge.
pub open spec fn adjacent(p: (int, int), q: (int, int)) -> bool {
    ||| p.0 == q.0 && (p.1 - q.1 == 1 || q.1 - p.1 == 1)
    ||| p.1 == q.1 && (p.0 - q.0 == 1 || q.0 - p.0 == 1)
}

/// Whether no step from a cell of `t` to an adjacent cell of `s` leaves `t`.
pub open spec fn closed_in(s: Cells, t: Cells) -> bool {
    forall|p: (int, int), q: (int, int)|
        t.contains(p) && s.contains(q) && #[trigger] adjacent(p, q) ==> t.contains(q)
}

/// Whether steps between adjacent cells of `s` lead from `p` to `q`.
pub open spec fn connected(s: Cells, p: (int, int), q: (int, int)) -> bool {
    &&& s.contains(p)
    &&& s.contains(q)
    &&& forall|t: Cells| #[trigger] closed_in(s, t) && t.contains(p) ==> t.contains(q)
}

/// The piece of `s` that holds `c`.
pub open spec fn piece_of(s: Cells, c: (int, int)) -> Cells {
    Set::new(|q: (int, int)| connected(s, c, q))
}

/// Column by column, then upwards: whether `p` comes no later than `q`.
pub open spec fn no_later(p: (int, int), q: (int, int)) -> bool {
    p.0 < q.0 || (p.0 == q.0 && p.1 <= q.1)
}

/// Whether `c` is the first cell of `s`.
pub open spec fn is_first(s: Cells, c: (int, int)) -> bool {
    s.contains(c) && forall|q: (int, int)| s.contains(q) ==> no_later(c, q)
}

/// The first cell of `s`, where it has one.
pub open spec fn first_cell(s: Cells) -> (int, int) {
    choose|c: (int, int)| is_first(s, c)
}

/// The pieces of `s`, in the order of their first cells.
pub open spec fn pieces(s: Cells) -> Seq<Cells>
    decreases s.len(),
    when s.finite()
{
    if exists|c: (int, int)| is_first(s, c) {
        proof {
            lemma_piece_shrinks(s);
        }
        let p = piece_of(s, first_cell(s));
        seq![p] + pieces(s.difference(p))
    } else {
        Seq::empty()
    }
}

/// Taking out the piece of the first cell leaves fewer cells.
pub proof fn lemma_piece_shrinks(s: Cells)
    requires
        s.finite(),
        exists|c: (int, int)| is_first(s, c),
    ensures
        s.difference(piece_of(s, first_cell(s))).finite(),
        s.difference(piece_of(s, first_cell(s))).len() < s.len(),
{
    let c = first_cell(s);
    assert(connected(s, c, c));
    let d = s.difference(piece_of(s, c));
    assert(d.subset_of(s.remove(c)));
    vstd::set_lib::lemma_len_subset(d, s.remove(c));
}

/// `connected` is an equivalence on the cells of `s`.
pub proof fn lemma_connected_equivalence(s: Cells)
    ensures
        forall|p: (int, int)| s.contains(p) ==> #[trigger] connected(s, p, p),
        forall|p: (int, int), q: (int, int)| #[trigger] connected(s, p, q) ==> connected(s, q, p),
        forall|p: (int, int), q: (int, int), r: (int, int)|
            #[trigger] connected(s, p, q) && #[trigger] connected(s, q, r) ==> connected(s, p, r),
{
    assert forall|p: (int, int), q: (int, int)| #[trigger] connected(s, p, q) implies connected(
        s,
        q,
        p,
    ) by {
        assert forall|t: Cells| #[trigger] closed_in(s, t) && t.contains(q) implies t.contains(
            p,
        ) by {
            if !t.contains(p) {
                let rest = s.difference(t);
                assert(closed_in(s, rest)) by {
                    assert forall|a: (int, int), b: (int, int)|
                        rest.contains(a) && s.contains(b) && #[trigger] adjacent(a, b) implies rest.contains(
                        b,
                    ) by {
                        assert(adjacent(b, a));
                    }
                }
                assert(rest.contains(q));
            }
        }
    }
    assert forall|p: (int, int), q: (int, int), r: (int, int)|
        #[trigger] connected(s, p, q) && #[trigger] connected(s, q, r) implies connected(
        s,
        p,
        r,
    ) by {
        assert forall|t: Cells| #[trigger] closed_in(s, t) && t.contains(p) implies t.contains(
            r,
        ) by {
            assert(t.contains(q));
        }
    }
}

/// Adjacent cells of `s` are connected.
pub proof fn lemma_adjacent_connected(s: Cells, p: (int, int), q: (int, int))
    requires
        s.contains(p),
        s.contains(q),
        adjacent(p, q),
    ensures
        connected(s, p, q),
{
}

/// Taking a piece out of `s` changes nothing in how the rest is connected.
pub proof fn lemma_rest_connected(s: Cells, c: (int, int))
    ensures
        ({
            let rest = s.difference(piece_of(s, c));
            forall|p: (int, int), q: (int, int)|
                rest.contains(p) ==> (#[trigger] connected(rest, p, q) <==> connected(s, p, q))
        }),
{
    let piece = piece_of(s, c);
    let rest = s.difference(piece);
    lemma_connected_equivalence(s);
    assert forall|p: (int, int), q: (int, int)| rest.contains(p) implies (#[trigger] connected(
        rest,
        p,
        q,
    ) <==> connected(s, p, q)) by {
        if connected(rest, p, q) {
            assert forall|t: Cells| #[trigger] closed_in(s, t) && t.contains(p) implies t.contains(
                q,
            ) by {
                assert(closed_in(rest, t));
            }
        }
        if connected(s, p, q) {
            assert(rest.contains(q)) by {
                if piece.contains(q) {
                    assert(connected(s, c, q));
                    assert(connected(s, q, p));
                    assert(connected(s, c, p));
                }
            }
            assert forall|t: Cells| #[trigger] closed_in(rest, t) && t.contains(
                p,
            ) implies t.contains(q) by {
                let u = t.intersect(rest);
                assert(closed_in(s, u)) by {
                    assert forall|a: (int, int), b: (int, int)|
                        u.contains(a) && s.contains(b) && #[trigger] adjacent(a, b) implies u.contains(
                        b,
                    ) by {
                        if piece.contains(b) {
                            assert(connected(s, c, b));
                            assert(adjacent(b, a));
                            lemma_adjacent_connected(s, b, a);
                            assert(connected(s, c, a));
                        }
                    }
                }
                assert(u.contains(p));
            }
        }
    }
}

/// A finite set with a cell has a first cell.
pub proof fn lemma_first_exists(s: Cells)
    requires
        s.finite(),
        s.len() > 0,
    ensures
        exists|c: (int, int)| is_first(s, c),
    decreases s.len(),
{
    let a = s.choose();
    let r = s.remove(a);
    if r.len() == 0 {
        assert(is_first(s, a)) by {
            assert forall|q: (int, int)| s.contains(q) implies no_later(a, q) by {
                if q != a {
                    assert(r.contains(q));
                    assert(r.len() > 0) by {
                        vstd::set_lib::lemma_set_empty_equivalency_len(r);
                    }
                }
            }
        }
    } else {
        lemma_first_exists(r);
        let c = choose|c: (int, int)| is_first(r, c);
        if no_later(a, c) {
            assert(is_first(s, a)) by {
                assert forall|q: (int, int)| s.contains(q) implies no_later(a, q) by {
                    if q != a {
                        assert(r.contains(q));
                        assert(no_later(c, q));
                    }
                }
            }
        } else {
            assert(is_first(s, c)) by {
                assert forall|q: (int, int)| s.contains(q) implies no_later(c, q) by {
                    if q != a {
                        assert(r.contains(q));
                    }
                }
            }
        }
    }
}

/// The pieces of `s` are its connectedness classes: each cell lies in exactly one piece, and two
/// cells lie in the same piece exactly when they are connected.
pub proof fn lemma_pieces_partition(s: Cells)
    requires
        s.finite(),
    ensures
        forall|k: int, p: (int, int)|
            0 <= k < pieces(s).len() && #[trigger] pieces(s)[k].contains(p) ==> s.contains(p),
        forall|p: (int, int)|
            #[trigger] s.contains(p) ==> exists|k: int|
                0 <= k < pieces(s).len() && #[trigger] pieces(s)[k].contains(p),
        forall|j: int, k: int, p: (int, int), q: (int, int)|
            0 <= j < pieces(s).len() && 0 <= k < pieces(s).len() && #[trigger] pieces(
                s,
            )[j].contains(p) && #[trigger] pieces(s)[k].contains(q) ==> (connected(s, p, q) <==> j
                == k),
        forall|k: int|
            0 <= k < pieces(s).len() ==> #[trigger] pieces(s)[k].finite() && pieces(s)[k].len() > 0,
    decreases s.len(),
{
    if exists|c: (int, int)| is_first(s, c) {
        let c = first_cell(s);
        let p0 = piece_of(s, c);
        let rest = s.difference(p0);
        lemma_piece_shrinks(s);
        lemma_pieces_partition(rest);
        lemma_rest_connected(s, c);
        lemma_connected_equivalence(s);
        let ps = pieces(s);
        let rs = pieces(rest);
        assert(ps =~= seq![p0] + rs);
        assert(forall|k: int| 0 < k < ps.len() ==> ps[k] == rs[k - 1]);
        assert(ps[0] == p0);
        assert forall|k: int, p: (int, int)|
            0 <= k < ps.len() && #[trigger] ps[k].contains(p) implies s.contains(p) by {
            if k > 0 {
                assert(rs[k - 1].contains(p));
            }
        }
        assert forall|p: (int, int)| #[trigger] s.contains(p) implies exists|k: int|
            0 <= k < ps.len() && #[trigger] ps[k].contains(p) by {
            if p0.contains(p) {
                assert(ps[0].contains(p));
            } else {
                assert(rest.contains(p));
                let k = choose|k: int| 0 <= k < rs.len() && #[trigger] rs[k].contains(p);
                assert(ps[k + 1].contains(p));
            }
        }
        assert forall|j: int, k: int, p: (int, int), q: (int, int)|
            0 <= j < ps.len() && 0 <= k < ps.len() && #[trigger] ps[j].contains(p)
                && #[trigger] ps[k].contains(q) implies (connected(s, p, q) <==> j == k) by {
            if j == 0 && k == 0 {
                assert(connected(s, c, p) && connected(s, c, q));
                assert(connected(s, p, c));
            } else if j == 0 {
                assert(rs[k - 1].contains(q));
                assert(rest.contains(q));
                if connected(s, p, q) {
                    assert(connected(s, c, p));
                    assert(connected(s, c, q));
                }
            } else if k == 0 {
                assert(rs[j - 1].contains(p));
                assert(rest.contains(p));
                if connected(s, p, q) {
                    assert(connected(s, c, q));
                    assert(connected(s, q, p));
                    assert(connected(s, c, p));
                }
            } else {
                assert(rs[j - 1].contains(p));
                assert(rs[k - 1].contains(q));
                assert(rest.contains(p));
                assert(connected(rest, p, q) <==> connected(s, p, q));
            }
        }
        assert(p0.subset_of(s));
        vstd::set_lib::lemma_set_subset_finite(s, p0);
        assert(connected(s, c, c));
        assert(p0.contains(c));
        vstd::set_lib::lemma_set_empty_equivalency_len(p0);
        assert forall|k: int| 0 <= k < ps.len() implies #[trigger] ps[k].finite() && ps[k].len()
            > 0 by {
            if k > 0 {
                assert(rs[k - 1].finite());
            }
        }
    } else {
        if s.len() > 0 {
            lemma_first_exists(s);
        }
        vstd::set_lib::lemma_set_empty_equivalency_len(s);
        assert(pieces(s) =~= Seq::empty());
    }
}

} // verus!

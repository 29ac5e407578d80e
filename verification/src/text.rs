//! Characters, order and search in texts.

use vstd::prelude::*;

verus! {

/// Character by character, by code point: whether `a` comes before `b`.
pub open spec fn before(a: Seq<char>, b: Seq<char>) -> bool
    decreases a.len(),
{
    if b.len() == 0 {
        false
    } else if a.len() == 0 {
        true
    } else if a[0] != b[0] {
        (a[0] as int) < (b[0] as int)
    } else {
        before(a.skip(1), b.skip(1))
    }
}

/// The characters of a text.
pub(crate) fn chars_of(s: &str) -> (v: Vec<char>)
    ensures
        v@ == s@,
{
    let mut v: Vec<char> = Vec::new();
    for c in it: s.chars()
        invariant
            v@ == it.seq().take(it.index()),
            it.seq() == s@,
    {
        v.push(c);
        assert(v@ =~= it.seq().take(it.index() + 1));
    }
    assert(v@ =~= s@);
    v
}

/// The texts that strings hold.
pub open spec fn texts(v: Seq<String>) -> Seq<Seq<char>> {
    Seq::new(v.len(), |i: int| v[i]@)
}

/// Three texts in a row.
pub(crate) fn joined(a: &str, b: &str, c: &str) -> (r: String)
    ensures
        r@ == a@ + b@ + c@,
{
    let mut r: String = a.to_owned();
    r.append(b);
    r.append(c);
    r
}

/// Whether two texts are the same.
pub(crate) fn same(a: &str, b: &str) -> (r: bool)
    ensures
        r == (a@ == b@),
{
    let ca = chars_of(a);
    let cb = chars_of(b);
    if ca.len() != cb.len() {
        return false;
    }
    let mut i: usize = 0;
    while i < ca.len()
        invariant
            ca@ == a@,
            cb@ == b@,
            i <= ca@.len(),
            ca@.len() == cb@.len(),
            forall|k: int| 0 <= k < i ==> ca@[k] == cb@[k],
        decreases ca.len() - i,
    {
        if ca[i] != cb[i] {
            return false;
        }
        i = i + 1;
    }
    assert(ca@ =~= cb@);
    true
}

/// Whether a text begins with another.
pub open spec fn begins(a: Seq<char>, start: Seq<char>) -> bool {
    start.len() <= a.len() && a.take(start.len() as int) == start
}

pub(crate) fn begins_with(a: &str, start: &str) -> (r: bool)
    ensures
        r == begins(a@, start@),
{
    let ca = chars_of(a);
    let cs = chars_of(start);
    if ca.len() < cs.len() {
        return false;
    }
    let mut i: usize = 0;
    while i < cs.len()
        invariant
            ca@ == a@,
            cs@ == start@,
            i <= cs@.len() <= ca@.len(),
            forall|k: int| 0 <= k < i ==> ca@[k] == cs@[k],
        decreases cs.len() - i,
    {
        if ca[i] != cs[i] {
            assert(a@.take(start@.len() as int)[i as int] != start@[i as int]);
            return false;
        }
        i = i + 1;
    }
    assert(a@.take(start@.len() as int) =~= start@);
    true
}

/// A text with every occurrence of `token` replaced, from left to right; an empty token occurs
/// nowhere.
pub open spec fn replaced(text: Seq<char>, token: Seq<char>, with: Seq<char>) -> Seq<char>
    decreases text.len(),
{
    if token.len() == 0 || text.len() < token.len() {
        text
    } else if begins(text, token) {
        with + replaced(text.skip(token.len() as int), token, with)
    } else {
        seq![text[0]] + replaced(text.skip(1), token, with)
    }
}

/// Whether `token` stands at position `i`.
fn stands_at(text: &Vec<char>, i: usize, token: &Vec<char>) -> (r: bool)
    requires
        i <= text@.len(),
    ensures
        r == begins(text@.skip(i as int), token@),
{
    if text.len() - i < token.len() {
        return false;
    }
    let mut k: usize = 0;
    while k < token.len()
        invariant
            i + token@.len() <= text@.len(),
            text.len() == text@.len(),
            k <= token@.len(),
            forall|j: int| 0 <= j < k ==> text@[i + j] == token@[j],
        decreases token.len() - k,
    {
        if text[i + k] != token[k] {
            assert(text@.skip(i as int).take(token@.len() as int)[k as int] != token@[k as int]);
            return false;
        }
        k = k + 1;
    }
    assert(text@.skip(i as int).take(token@.len() as int) =~= token@);
    true
}

/// Replaces every occurrence of `token`.
pub(crate) fn replace_all(text: &str, token: &str, with: &str) -> (r: String)
    ensures
        r@ == replaced(text@, token@, with@),
{
    let ct = chars_of(text);
    let ck = chars_of(token);
    let n: usize = ct.len();
    let m: usize = ck.len();
    let mut out: String = String::new();
    let mut start: usize = 0;
    let mut i: usize = 0;
    assert(text@.skip(0) =~= text@);
    assert(out@ + text@.subrange(0, 0) + replaced(text@.skip(0), token@, with@) =~= replaced(
        text@,
        token@,
        with@,
    ));
    while m > 0 && i < n
        invariant
            ct@ == text@,
            ck@ == token@,
            n == text@.len(),
            m == token@.len(),
            start <= i <= n,
            replaced(text@, token@, with@) == out@ + text@.subrange(start as int, i as int)
                + replaced(text@.skip(i as int), token@, with@),
        decreases n - i,
    {
        let ghost rest = text@.skip(i as int);
        let ghost chunk = text@.subrange(start as int, i as int);
        if stands_at(&ct, i, &ck) {
            let ghost so_far = out@;
            assert(rest.skip(m as int) =~= text@.skip(i + m));
            out.append(text.substring_char(start, i));
            out.append(with);
            i = i + m;
            start = i;
            assert(out@ + text@.subrange(start as int, i as int) + replaced(
                text@.skip(i as int),
                token@,
                with@,
            ) =~= so_far + chunk + (with@ + replaced(text@.skip(i as int), token@, with@)));
        } else {
            assert(rest.skip(1) =~= text@.skip(i + 1));
            let ghost tail = replaced(text@.skip(i + 1), token@, with@);
            proof {
                if rest.len() < m {
                    assert(tail == text@.skip(i + 1));
                    assert(rest =~= seq![text@[i as int]] + text@.skip(i + 1));
                }
                assert(replaced(rest, token@, with@) == seq![text@[i as int]] + tail);
                assert(text@.subrange(start as int, i + 1) =~= chunk.push(text@[i as int]));
                assert(out@ + chunk + (seq![text@[i as int]] + tail) =~= out@ + text@.subrange(
                    start as int,
                    i + 1,
                ) + tail);
            }
            i = i + 1;
        }
    }
    let ghost so_far = out@;
    out.append(text.substring_char(start, n));
    proof {
        let rest = text@.skip(i as int);
        assert(replaced(rest, token@, with@) == rest);
        assert(out@ =~= so_far + text@.subrange(start as int, i as int) + rest);
    }
    out
}

/// Whether `a` comes before `b`.
pub(crate) fn comes_before(a: &str, b: &str) -> (r: bool)
    ensures
        r == before(a@, b@),
{
    let ca = chars_of(a);
    let cb = chars_of(b);
    let mut i: usize = 0;
    assert(a@.skip(0) =~= a@ && b@.skip(0) =~= b@);
    while i < ca.len() && i < cb.len()
        invariant
            ca@ == a@,
            cb@ == b@,
            i <= ca@.len(),
            i <= cb@.len(),
            before(a@, b@) == before(a@.skip(i as int), b@.skip(i as int)),
        decreases ca.len() - i,
    {
        let x: char = ca[i];
        let y: char = cb[i];
        if x != y {
            return x < y;
        }
        assert(a@.skip(i as int).skip(1) =~= a@.skip(i + 1));
        assert(b@.skip(i as int).skip(1) =~= b@.skip(i + 1));
        i = i + 1;
    }
    i < cb.len()
}

/// `before` is a strict order.
pub proof fn lemma_before(a: Seq<char>, b: Seq<char>, c: Seq<char>)
    ensures
        !before(a, a),
        before(a, b) && before(b, c) ==> before(a, c),
        a == b || before(a, b) || before(b, a),
    decreases a.len(),
{
    if a.len() > 0 && b.len() > 0 && c.len() > 0 {
        lemma_before(a.skip(1), b.skip(1), c.skip(1));
        if a[0] == b[0] && a.skip(1) == b.skip(1) {
            assert(a =~= seq![a[0]] + a.skip(1));
            assert(b =~= seq![b[0]] + b.skip(1));
        }
    } else if a.len() > 0 && b.len() > 0 {
        lemma_before(a.skip(1), b.skip(1), c);
        if a[0] == b[0] && a.skip(1) == b.skip(1) {
            assert(a =~= seq![a[0]] + a.skip(1));
            assert(b =~= seq![b[0]] + b.skip(1));
        }
    } else if a.len() > 0 {
        lemma_before(a.skip(1), b, c);
    } else if b.len() == 0 {
        assert(a =~= b);
    }
}

} // verus!

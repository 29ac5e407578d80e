//! Maps from names, kept in the order of the names.

use vstd::prelude::*;

use crate::text::{before, comes_before, lemma_before, same};

verus! {

/// Whether the names come in strictly increasing order, so that none occurs twice.
pub open spec fn in_name_order<T>(entries: Seq<(String, T)>) -> bool {
    forall|i: int, j: int|
        0 <= i < j < entries.len() ==> before(
            (#[trigger] entries[i]).0@,
            (#[trigger] entries[j]).0@,
        )
}

/// Whether some entry has this name.
pub open spec fn has_name<T>(entries: Seq<(String, T)>, name: Seq<char>) -> bool {
    exists|i: int| 0 <= i < entries.len() && (#[trigger] entries[i]).0@ == name
}

/// What the entry of this name holds.
pub open spec fn under_name<T>(entries: Seq<(String, T)>, name: Seq<char>) -> T {
    entries[choose|i: int| 0 <= i < entries.len() && (#[trigger] entries[i]).0@ == name].1
}

/// The map that the entries make.
pub open spec fn map_of<T>(entries: Seq<(String, T)>) -> Map<Seq<char>, T> {
    Map::new(|n: Seq<char>| has_name(entries, n), |n: Seq<char>| under_name(entries, n))
}

/// A map from names, its entries in the order of the names.
#[derive(Debug, PartialEq, Eq)]
pub struct NameMap<T> {
    entries: Vec<(String, T)>,
}

impl<T> View for NameMap<T> {
    type V = Map<Seq<char>, T>;

    closed spec fn view(&self) -> Map<Seq<char>, T> {
        map_of(self.entries@)
    }
}

/// In entries in name order, the entry of a name is the only one.
pub proof fn lemma_only<T>(entries: Seq<(String, T)>, i: int)
    requires
        in_name_order(entries),
        0 <= i < entries.len(),
    ensures
        has_name(entries, entries[i].0@),
        under_name(entries, entries[i].0@) == entries[i].1,
{
    let n = entries[i].0@;
    let k = choose|k: int| 0 <= k < entries.len() && (#[trigger] entries[k]).0@ == n;
    assert(entries[i].0@ == n);
    lemma_before(n, n, n);
    if k < i {
        assert(before(entries[k].0@, entries[i].0@));
    } else if i < k {
        assert(before(entries[i].0@, entries[k].0@));
    }
}

/// Entries in name order make a map of as many names.
proof fn lemma_size<T>(entries: Seq<(String, T)>)
    requires
        in_name_order(entries),
    ensures
        map_of(entries).dom().finite(),
        map_of(entries).dom().len() == entries.len(),
{
    let names = Seq::new(entries.len(), |i: int| entries[i].0@);
    assert forall|i: int, j: int| 0 <= i < names.len() && 0 <= j < names.len() && i != j implies names[i]
        != names[j] by {
        lemma_before(names[i], names[i], names[i]);
        if i < j {
            assert(before(entries[i].0@, entries[j].0@));
        } else {
            assert(before(entries[j].0@, entries[i].0@));
        }
    }
    assert(names.no_duplicates());
    names.unique_seq_to_set();
    assert forall|n: Seq<char>| #[trigger] names.to_set().contains(n) <==> map_of(
        entries,
    ).dom().contains(n) by {
        if has_name(entries, n) {
            let i = choose|i: int| 0 <= i < entries.len() && (#[trigger] entries[i]).0@ == n;
            assert(names[i] == n);
        }
        if names.contains(n) {
            let i = choose|i: int| 0 <= i < names.len() && names[i] == n;
            assert(entries[i].0@ == n);
        }
    }
    assert(names.to_set() =~= map_of(entries).dom());
}

impl<T> NameMap<T> {
    #[verifier::type_invariant]
    spec fn ordered(self) -> bool {
        in_name_order(self.entries@)
    }

    /// The empty map.
    pub fn new() -> (m: NameMap<T>)
        ensures
            m@ == Map::<Seq<char>, T>::empty(),
    {
        let m = NameMap { entries: Vec::new() };
        assert(m@ =~= Map::<Seq<char>, T>::empty());
        m
    }

    /// The number of names.
    pub fn len(&self) -> (n: usize)
        ensures
            n == self.list().len(),
            n == self@.dom().len(),
            self@.dom().finite(),
            in_name_order(self.list()),
            self@ == map_of(self.list()),
    {
        proof {
            use_type_invariant(self);
            lemma_size(self.entries@);
        }
        self.entries.len()
    }

    /// The entries, in the order of the names.
    pub closed spec fn list(&self) -> Seq<(String, T)> {
        self.entries@
    }

    /// The `i`th entry, in the order of the names.
    pub fn entry(&self, i: usize) -> (e: (&String, &T))
        requires
            i < self.list().len(),
        ensures
            *e.0 == self.list()[i as int].0,
            *e.1 == self.list()[i as int].1,
    {
        (&self.entries[i].0, &self.entries[i].1)
    }

    /// What stands under `name`, if anything does.
    pub fn get(&self, name: &str) -> (r: Option<&T>)
        ensures
            match r {
                Some(v) => self@.contains_key(name@) && *v == self@[name@],
                None => !self@.contains_key(name@),
            },
    {
        proof {
            use_type_invariant(self);
        }
        let mut i: usize = 0;
        while i < self.entries.len()
            invariant
                i <= self.entries@.len(),
                in_name_order(self.entries@),
                forall|k: int| 0 <= k < i ==> (#[trigger] self.entries@[k]).0@ != name@,
            decreases self.entries.len() - i,
        {
            if same(self.entries[i].0.as_str(), name) {
                proof {
                    lemma_only(self.entries@, i as int);
                }
                return Some(&self.entries[i].1);
            }
            i = i + 1;
        }
        None
    }

    /// Whether anything stands under `name`.
    pub fn contains_key(&self, name: &str) -> (b: bool)
        ensures
            b == self@.contains_key(name@),
    {
        self.get(name).is_some()
    }

    /// Puts `value` under `name`, in place of what stood there.
    pub fn insert(&mut self, name: String, value: T)
        ensures
            final(self)@ == old(self)@.insert(name@, value),
    {
        proof {
            use_type_invariant(&*self);
        }
        let mut entries: Vec<(String, T)> = Vec::new();
        std::mem::swap(&mut entries, &mut self.entries);
        let ghost all = entries@;
        let mut i: usize = 0;
        while i < entries.len() && comes_before(entries[i].0.as_str(), name.as_str())
            invariant
                entries@ == all,
                i <= all.len(),
                forall|k: int| 0 <= k < i ==> before((#[trigger] all[k]).0@, name@),
            decreases all.len() - i,
        {
            i = i + 1;
        }
        let ghost n = name@;
        if i < entries.len() && same(entries[i].0.as_str(), name.as_str()) {
            entries.set(i, (name, value));
            proof {
                lemma_replaced(all, i as int, entries@);
            }
        } else {
            entries.insert(i, (name, value));
            proof {
                lemma_added(all, i as int, entries@);
            }
        }
        self.entries = entries;
    }
}

impl<T: Clone> Clone for NameMap<T> {
    fn clone(&self) -> (r: NameMap<T>)
        ensures
            r@.dom() == self@.dom(),
            forall|name: Seq<char>| #[trigger]
                r@.contains_key(name) ==> cloned::<T>(self@[name], r@[name]),
    {
        proof {
            use_type_invariant(self);
        }
        let ghost all = self.entries@;
        let mut entries: Vec<(String, T)> = Vec::new();
        let mut i: usize = 0;
        while i < self.entries.len()
            invariant
                all == self.entries@,
                i <= all.len(),
                entries@.len() == i,
                forall|k: int|
                    0 <= k < i ==> (#[trigger] entries@[k]).0@ == all[k].0@ && cloned::<T>(
                        all[k].1,
                        entries@[k].1,
                    ),
            decreases self.entries.len() - i,
        {
            let name = self.entries[i].0.clone();
            let value = self.entries[i].1.clone();
            entries.push((name, value));
            i = i + 1;
        }
        let ghost new = entries@;
        proof {
            assert forall|a: int, b: int| 0 <= a < b < new.len() implies before(
                (#[trigger] new[a]).0@,
                (#[trigger] new[b]).0@,
            ) by {
                assert(before(all[a].0@, all[b].0@));
            }
            assert forall|n: Seq<char>| has_name(new, n) <==> has_name(all, n) by {
                if has_name(new, n) {
                    let k = choose|k: int| 0 <= k < new.len() && (#[trigger] new[k]).0@ == n;
                    assert(all[k].0@ == n);
                }
                if has_name(all, n) {
                    let k = choose|k: int| 0 <= k < all.len() && (#[trigger] all[k]).0@ == n;
                    assert(new[k].0@ == n);
                }
            }
            assert(map_of(new).dom() =~= map_of(all).dom());
            assert forall|n: Seq<char>| has_name(new, n) implies cloned::<T>(
                under_name(all, n),
                under_name(new, n),
            ) by {
                let k = choose|k: int| 0 <= k < new.len() && (#[trigger] new[k]).0@ == n;
                lemma_only(new, k);
                lemma_only(all, k);
            }
        }
        NameMap { entries }
    }
}

/// Replacing the entry of a name changes the map there only.
proof fn lemma_replaced<T>(all: Seq<(String, T)>, i: int, new: Seq<(String, T)>)
    requires
        in_name_order(all),
        0 <= i < all.len(),
        new.len() == all.len(),
        new[i].0@ == all[i].0@,
        forall|k: int| 0 <= k < all.len() && k != i ==> #[trigger] new[k] == all[k],
    ensures
        in_name_order(new),
        map_of(new) == map_of(all).insert(new[i].0@, new[i].1),
{
    assert forall|a: int, b: int| 0 <= a < b < new.len() implies before(
        (#[trigger] new[a]).0@,
        (#[trigger] new[b]).0@,
    ) by {
        assert(before(all[a].0@, all[b].0@));
    }
    let want = map_of(all).insert(new[i].0@, new[i].1);
    assert forall|n: Seq<char>| has_name(new, n) <==> want.contains_key(n) by {
        if has_name(new, n) {
            let k = choose|k: int| 0 <= k < new.len() && (#[trigger] new[k]).0@ == n;
            assert(all[k].0@ == n);
        }
        if has_name(all, n) {
            let k = choose|k: int| 0 <= k < all.len() && (#[trigger] all[k]).0@ == n;
            assert(new[k].0@ == n);
        }
    }
    assert forall|n: Seq<char>| has_name(new, n) implies under_name(new, n) == want[n] by {
        let k = choose|k: int| 0 <= k < new.len() && (#[trigger] new[k]).0@ == n;
        lemma_only(new, k);
        lemma_only(all, k);
        if k != i {
            if n == new[i].0@ {
                lemma_only(new, i);
                lemma_before(n, n, n);
                if k < i {
                    assert(before(new[k].0@, new[i].0@));
                } else {
                    assert(before(new[i].0@, new[k].0@));
                }
            }
        }
    }
    assert(map_of(new) =~= want);
}

/// Adding an entry in its place adds it to the map.
proof fn lemma_added<T>(all: Seq<(String, T)>, i: int, new: Seq<(String, T)>)
    requires
        in_name_order(all),
        0 <= i <= all.len(),
        new.len() == all.len() + 1,
        new == all.insert(i, new[i]),
        forall|k: int| 0 <= k < i ==> before((#[trigger] all[k]).0@, new[i].0@),
        i < all.len() ==> !before(all[i].0@, new[i].0@) && all[i].0@ != new[i].0@,
    ensures
        in_name_order(new),
        map_of(new) == map_of(all).insert(new[i].0@, new[i].1),
{
    let name = new[i].0@;
    assert forall|k: int| i <= k < all.len() implies before(name, (#[trigger] all[k]).0@) by {
        lemma_before(all[i].0@, name, name);
        lemma_before(name, all[i].0@, all[k].0@);
        if k > i {
            assert(before(all[i].0@, all[k].0@));
        }
    }
    assert forall|a: int, b: int| 0 <= a < b < new.len() implies before(
        (#[trigger] new[a]).0@,
        (#[trigger] new[b]).0@,
    ) by {
        if a < i && b < i {
            assert(new[a] == all[a] && new[b] == all[b]);
        } else if a < i && b == i {
            assert(new[a] == all[a]);
        } else if a < i {
            assert(new[a] == all[a] && new[b] == all[b - 1]);
            assert(before(all[a].0@, all[b - 1].0@));
        } else if a == i {
            assert(new[b] == all[b - 1]);
        } else {
            assert(new[a] == all[a - 1] && new[b] == all[b - 1]);
            assert(before(all[a - 1].0@, all[b - 1].0@));
        }
    }
    let want = map_of(all).insert(name, new[i].1);
    assert forall|n: Seq<char>| has_name(new, n) <==> want.contains_key(n) by {
        if has_name(new, n) {
            let k = choose|k: int| 0 <= k < new.len() && (#[trigger] new[k]).0@ == n;
            if k < i {
                assert(all[k].0@ == n);
            } else if k > i {
                assert(all[k - 1].0@ == n);
            }
        }
        if has_name(all, n) {
            let k = choose|k: int| 0 <= k < all.len() && (#[trigger] all[k]).0@ == n;
            if k < i {
                assert(new[k].0@ == n);
            } else {
                assert(new[k + 1].0@ == n);
            }
        }
        if n == name {
            assert(new[i].0@ == n);
        }
    }
    assert forall|n: Seq<char>| has_name(new, n) implies under_name(new, n) == want[n] by {
        let k = choose|k: int| 0 <= k < new.len() && (#[trigger] new[k]).0@ == n;
        lemma_only(new, k);
        lemma_only(new, i);
        if k < i {
            assert(new[k] == all[k]);
            lemma_only(all, k);
            lemma_before(n, n, n);
            assert(before(new[k].0@, new[i].0@));
        } else if k > i {
            assert(new[k] == all[k - 1]);
            lemma_only(all, k - 1);
            lemma_before(n, n, n);
            assert(before(new[i].0@, new[k].0@));
        }
    }
    assert(map_of(new) =~= want);
}

} // verus!

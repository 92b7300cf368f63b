//! Small helpers on vectors and maps.
use vstd::prelude::*;
use std::collections::HashMap;
use vstd::std_specs::iter::IteratorSpec;
use std::cmp::Ordering;
use crate::config::graph::Coord;

verus! {

broadcast use vstd::std_specs::hash::group_hash_axioms;

/// Removal of the first element that a predicate accepts.
pub trait RemoveElem<T>: Sized + View<V = Seq<T>> {
    fn remove_elem<F: Fn(&T) -> bool>(&mut self, predicate: F) -> (r: Option<T>)
        requires
            forall|i: int| 0 <= i < old(self)@.len() ==> predicate.requires((&old(self)@[i],)),
        ensures
            match r {
                Some(e) => exists|i: int|
                    0 <= i < old(self)@.len() && old(self)@[i] == e && predicate.ensures(
                        (&old(self)@[i],),
                        true,
                    ) && (forall|j: int|
                        0 <= j < i ==> predicate.ensures((&old(self)@[j],), false))
                        && final(self)@ == old(self)@.remove(i),
                None => (forall|j: int|
                    0 <= j < old(self)@.len() ==> predicate.ensures((&old(self)@[j],), false))
                    && final(self)@ == old(self)@,
            },
    ;
}

impl<T> RemoveElem<T> for Vec<T> {
    fn remove_elem<F: Fn(&T) -> bool>(&mut self, predicate: F) -> (r: Option<T>) {
        let mut i: usize = 0;
        while i < self.len()
            invariant
                i <= self@.len(),
                self@ == old(self)@,
                forall|k: int| 0 <= k < old(self)@.len() ==> predicate.requires((&old(self)@[k],)),
                forall|j: int| 0 <= j < i ==> predicate.ensures((&old(self)@[j],), false),
            decreases self@.len() - i,
        {
            let hit = predicate(&self[i]);
            if hit {
                let e = self.remove(i);
                return Some(e);
            }
            i = i + 1;
        }
        None
    }
}

/// `after` is `before` with `element` placed by the answers of `predicate`:
/// in place of an element it finds equal, returned as `r`; otherwise, with
/// `r` empty, after an element it finds less and before one it finds greater.
pub open spec fn inserted_sorted<T, F: Fn(&T) -> Ordering>(
    before: Seq<T>,
    after: Seq<T>,
    predicate: F,
    element: T,
    r: Option<T>,
) -> bool {
    match r {
        Some(e) => exists|i: int|
            0 <= i < before.len() && before[i] == e && predicate.ensures((&before[i],), Ordering::Equal) && after
                == before.update(i, element),
        None => exists|p: int|
            0 <= p <= before.len() && (p == 0 || predicate.ensures((&before[p - 1],), Ordering::Less)) && (p
                == before.len() || predicate.ensures((&before[p],), Ordering::Greater)) && after == before.insert(
                p,
                element,
            ),
    }
}

/// How the key `a` compares with the key `b`.
pub open spec fn key_order(a: int, b: int) -> Ordering {
    if a < b {
        Ordering::Less
    } else if a == b {
        Ordering::Equal
    } else {
        Ordering::Greater
    }
}

/// Inserting into a vector strictly sorted by `key`, with a predicate that
/// compares the key of an element with the key of the new one, keeps it
/// strictly sorted: the new element takes the place of the one with its key,
/// the length unchanged, or comes between the smaller and the greater keys,
/// one element more.
pub proof fn lemma_insert_sorted_keeps_order<T, F: Fn(&T) -> Ordering>(
    before: Seq<T>,
    after: Seq<T>,
    predicate: F,
    element: T,
    r: Option<T>,
    key: spec_fn(T) -> int,
)
    requires
        inserted_sorted(before, after, predicate, element, r),
        forall|i: int, j: int| 0 <= i < j < before.len() ==> key(before[i]) < key(before[j]),
        forall|x: T, o: Ordering| #[trigger] predicate.ensures((&x,), o) ==> o == key_order(key(x), key(element)),
    ensures
        forall|i: int, j: int| 0 <= i < j < after.len() ==> key(after[i]) < key(after[j]),
        r is Some ==> after.len() == before.len(),
        r is None ==> after.len() == before.len() + 1,
{
    match r {
        Some(e) => {
            let i = choose|i: int|
                0 <= i < before.len() && before[i] == e && predicate.ensures((&before[i],), Ordering::Equal) && after
                    == before.update(i, element);
            assert(key(before[i]) == key(element));
            assert forall|a: int, b: int| 0 <= a < b < after.len() implies key(after[a]) < key(after[b]) by {
                assert(key(after[a]) == key(before[a]));
                assert(key(after[b]) == key(before[b]));
            }
        },
        None => {
            let p = choose|p: int|
                0 <= p <= before.len() && (p == 0 || predicate.ensures((&before[p - 1],), Ordering::Less)) && (p
                    == before.len() || predicate.ensures((&before[p],), Ordering::Greater)) && after == before.insert(
                    p,
                    element,
                );
            if p > 0 {
                assert(key(before[p - 1]) < key(element));
            }
            if p < before.len() {
                assert(key(element) < key(before[p]));
            }
            assert forall|a: int, b: int| 0 <= a < b < after.len() implies key(after[a]) < key(after[b]) by {
                if b < p {
                    assert(after[a] == before[a] && after[b] == before[b]);
                } else if b == p {
                    assert(after[a] == before[a]);
                    assert(key(before[a]) <= key(before[p - 1]));
                } else if a < p {
                    assert(after[a] == before[a] && after[b] == before[b - 1]);
                } else if a == p {
                    assert(after[b] == before[b - 1]);
                    assert(key(before[p]) <= key(before[b - 1]));
                } else {
                    assert(after[a] == before[a - 1] && after[b] == before[b - 1]);
                }
            }
        },
    }
}

/// Insertion into a vector ordered by a three-way predicate, replacing an
/// element that the predicate finds equal.
pub trait InsertSorted<T>: Sized + View<V = Seq<T>> {
    fn insert_sorted<F: Fn(&T) -> Ordering>(&mut self, predicate: F, element: T) -> (r: Option<T>)
        requires
            forall|i: int| 0 <= i < old(self)@.len() ==> predicate.requires((&old(self)@[i],)),
        ensures
            inserted_sorted(old(self)@, final(self)@, predicate, element, r),
    ;
}

impl<T> InsertSorted<T> for Vec<T> {
    fn insert_sorted<F: Fn(&T) -> Ordering>(&mut self, predicate: F, element: T) -> (r: Option<T>) {
        let mut lo: usize = 0;
        let mut hi: usize = self.len();
        while lo < hi
            invariant
                0 <= lo <= hi <= self@.len(),
                self@ == old(self)@,
                forall|k: int| 0 <= k < old(self)@.len() ==> predicate.requires((&old(self)@[k],)),
                lo == 0 || predicate.ensures((&self@[lo - 1],), Ordering::Less),
                hi == self@.len() || predicate.ensures((&self@[hi + 0],), Ordering::Greater),
            decreases hi - lo,
        {
            let mid = lo + (hi - lo) / 2;
            let o = predicate(&self[mid]);
            match o {
                Ordering::Less => {
                    lo = mid + 1;
                },
                Ordering::Greater => {
                    hi = mid;
                },
                Ordering::Equal => {
                    let removed = self.remove(mid);
                    self.insert(mid, element);
                    proof {
                        assert(self@ =~= old(self)@.update(mid + 0, element));
                    }
                    return Some(removed);
                },
            }
        }
        self.insert(lo, element);
        None
    }
}

/// The keys of a map, each once, in the order in which the map yields them.
pub fn keys_of<V>(m: &HashMap<u32, V>) -> (r: Vec<u32>)
    ensures
        r@.to_set() == m@.dom(),
        r@.no_duplicates(),
        r@.len() == m@.dom().len(),
{
    let ghost s = vstd::std_specs::hash::spec_keys_iter(m).remaining();
    let mut out: Vec<u32> = Vec::new();
    for k in it: m.keys()
        invariant
            it.seq() == s,
            out@ == s.unref().take(it.index() as int),
    {
        out.push(*k);
        proof {
            assert(out@ =~= s.unref().take(it.index() + 1));
        }
    }
    proof {
        assert(out@ =~= s.unref());
        assert(out@.to_set() =~= s.unref().to_set());
    }
    out
}

/// Two points of the curve share a temperature.
pub open spec fn coords_have_duplicate(coords: Seq<Coord>) -> bool {
    exists|i: int, j: int| 0 <= i < j < coords.len() && #[trigger] coords[i].temp == #[trigger] coords[j].temp
}

/// Whether two points of the curve share a temperature (points are the
/// same point when they share the temperature).
pub fn has_duplicate(coords: &Vec<Coord>) -> (r: bool)
    ensures
        r == coords_have_duplicate(coords@),
{
    let mut j: usize = 0;
    while j < coords.len()
        invariant
            j <= coords@.len(),
            forall|a: int, b: int| 0 <= a < b < j ==> coords@[a].temp != coords@[b].temp,
        decreases coords@.len() - j,
    {
        let mut i: usize = 0;
        while i < j
            invariant
                i <= j < coords@.len(),
                forall|a: int| 0 <= a < i ==> coords@[a].temp != coords@[j as int].temp,
            decreases j - i,
        {
            if coords[i].temp == coords[j].temp {
                proof {
                    assert(coords@[i as int].temp == coords@[j as int].temp);
                }
                return true;
            }
            i = i + 1;
        }
        j = j + 1;
    }
    false
}

/// Whether the points of the curve come in temperatures that never go down.
pub fn is_sorted(coords: &Vec<Coord>) -> (r: bool)
    ensures
        r == (forall|i: int, j: int| 0 <= i < j < coords@.len() ==> coords@[i].temp <= coords@[j].temp),
{
    let mut i: usize = 1;
    while i < coords.len()
        invariant
            1 <= i,
            i <= coords@.len() || coords@.len() == 0,
            forall|a: int, b: int| 0 <= a < b < i && b < coords@.len() ==> coords@[a].temp <= coords@[b].temp,
        decreases coords@.len() - i,
    {
        if coords[i - 1].temp > coords[i].temp {
            return false;
        }
        proof {
            assert forall|a: int, b: int| 0 <= a < b < i + 1 && b < coords@.len() implies coords@[a].temp <= coords@[b].temp by {
                if b == i {
                    if a < i - 1 {
                        assert(coords@[a].temp <= coords@[i - 1].temp);
                    }
                }
            }
        }
        i = i + 1;
    }
    true
}

} // verus!

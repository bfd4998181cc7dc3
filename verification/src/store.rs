use vstd::prelude::*;

verus! {

/// An entity held by a store under an integer key.
///
/// Both stores keep their entries in strictly ascending key order, so the
/// sequence of entries is also the sequence that `all` returns.
pub trait Keyed {
    spec fn key(&self) -> i32;
}

/// The entries are in strictly ascending key order (hence keys are unique).
pub open spec fn sorted_by_key<T: Keyed>(s: Seq<T>) -> bool {
    forall|i: int, j: int| 0 <= i < j < s.len() ==> s[i].key() < s[j].key()
}

/// Some entry carries the key `k`.
pub open spec fn has_key<T: Keyed>(s: Seq<T>, k: i32) -> bool {
    exists|i: int| 0 <= i < s.len() && s[i].key() == k
}

/// The position of the entry carrying `k`; meaningful when `has_key(s, k)`
/// holds and the keys are unique.
pub open spec fn index_of_key<T: Keyed>(s: Seq<T>, k: i32) -> int {
    choose|i: int| 0 <= i < s.len() && s[i].key() == k
}

/// The entry carrying `k`; meaningful under the same conditions as
/// `index_of_key`.
pub open spec fn entry_at<T: Keyed>(s: Seq<T>, k: i32) -> T {
    s[index_of_key(s, k)]
}

/// In a sorted store the position of a key is the position of any entry
/// that carries it.
pub proof fn lemma_index_of_key<T: Keyed>(s: Seq<T>, k: i32, i: int)
    requires
        sorted_by_key(s),
        0 <= i < s.len(),
        s[i].key() == k,
    ensures
        has_key(s, k),
        index_of_key(s, k) == i,
        entry_at(s, k) == s[i],
{
    assert(has_key(s, k));
    let j = index_of_key(s, k);
    assert(0 <= j < s.len() && s[j].key() == k);
    if j < i {
        assert(s[j].key() < s[i].key());
    } else if i < j {
        assert(s[i].key() < s[j].key());
    }
}

/// The position at which an entry with key `k` belongs: the index of the
/// first entry whose key is at least `k`, or the length if every key is
/// smaller.
pub open spec fn insert_pos<T: Keyed>(s: Seq<T>, k: i32) -> int
    decreases s.len(),
{
    if s.len() == 0 {
        0
    } else if s[0].key() >= k {
        0
    } else {
        1 + insert_pos(s.drop_first(), k)
    }
}

/// `insert_pos` splits a sorted store: keys before it are smaller than `k`,
/// keys from it on are at least `k`.
pub proof fn lemma_insert_pos<T: Keyed>(s: Seq<T>, k: i32)
    requires
        sorted_by_key(s),
    ensures
        0 <= insert_pos(s, k) <= s.len(),
        forall|i: int| 0 <= i < insert_pos(s, k) ==> s[i].key() < k,
        insert_pos(s, k) < s.len() ==> s[insert_pos(s, k)].key() >= k,
    decreases s.len(),
{
    if s.len() == 0 {
    } else if s[0].key() >= k {
    } else {
        let rest = s.drop_first();
        assert(sorted_by_key(rest)) by {
            assert(forall|i: int, j: int|
                0 <= i < j < rest.len() ==> rest[i].key() == s[i + 1].key()
                    && rest[j].key() == s[j + 1].key() && s[i + 1].key() < s[j + 1].key());
        }
        lemma_insert_pos(rest, k);
        let p = insert_pos(s, k);
        assert(forall|i: int| 1 <= i < p ==> s[i].key() == rest[i - 1].key());
    }
}

/// Any position that splits a sorted store the way `insert_pos` does is
/// `insert_pos` itself.
pub proof fn lemma_insert_pos_unique<T: Keyed>(s: Seq<T>, k: i32, p: int)
    requires
        sorted_by_key(s),
        0 <= p <= s.len(),
        forall|i: int| 0 <= i < p ==> s[i].key() < k,
        p < s.len() ==> s[p].key() >= k,
    ensures
        insert_pos(s, k) == p,
{
    lemma_insert_pos(s, k);
    let q = insert_pos(s, k);
    if q < p {
        assert(s[q].key() < k);
    } else if p < q {
        assert(s[p].key() < k);
    }
}

/// The store after an entry is written: the entry replaces the one with the
/// same key, or is placed at its sorted position when the key is new.
pub open spec fn store_insert<T: Keyed>(s: Seq<T>, t: T) -> Seq<T> {
    let p = insert_pos(s, t.key());
    if p < s.len() && s[p].key() == t.key() {
        s.update(p, t)
    } else {
        s.insert(p, t)
    }
}

/// What `store_insert` does to a sorted store: the result is sorted, holds
/// `t` under its key, and agrees with the old store on every other key.
pub proof fn lemma_store_insert<T: Keyed>(s: Seq<T>, t: T)
    requires
        sorted_by_key(s),
    ensures
        sorted_by_key(store_insert(s, t)),
        has_key(store_insert(s, t), t.key()),
        entry_at(store_insert(s, t), t.key()) == t,
        forall|k: i32| k != t.key() ==> (has_key(store_insert(s, t), k) <==> has_key(s, k)),
        forall|k: i32|
            k != t.key() && has_key(s, k) ==> entry_at(store_insert(s, t), k) == entry_at(s, k),
        store_insert(s, t).len() == if has_key(s, t.key()) {
            s.len() as int
        } else {
            s.len() + 1 as int
        },
{
    let p = insert_pos(s, t.key());
    lemma_insert_pos(s, t.key());
    let r = store_insert(s, t);
    if p < s.len() && s[p].key() == t.key() {
        // replacement: indices and all other entries are untouched
        lemma_index_of_key(s, t.key(), p);
        assert(sorted_by_key(r)) by {
            assert(forall|i: int| 0 <= i < r.len() && i != p ==> r[i] == s[i]);
        }
        lemma_index_of_key(r, t.key(), p);
        assert forall|k: i32| k != t.key() && has_key(s, k) implies has_key(r, k) && entry_at(
            r,
            k,
        ) == entry_at(
            s,
            k,
        ) by {
            let i = index_of_key(s, k);
            assert(0 <= i < s.len() && s[i].key() == k);
            lemma_index_of_key(s, k, i);
            assert(i != p);
            lemma_index_of_key(r, k, i);
        }
        assert forall|k: i32| k != t.key() && has_key(r, k) implies has_key(s, k) by {
            let i = index_of_key(r, k);
            assert(0 <= i < r.len() && r[i].key() == k);
            assert(i != p);
            assert(s[i].key() == k);
        }
    } else {
        // a new key: entries from p on shift right by one
        s.insert_ensures(p, t);
        assert(r.len() == s.len() + 1);
        assert(forall|i: int| 0 <= i < p ==> r[i] == s[i]);
        assert(r[p] == t);
        assert(forall|i: int| p < i < r.len() ==> r[i] == s[i - 1]);
        assert(p < s.len() ==> s[p].key() > t.key());
        assert(sorted_by_key(r)) by {
            assert forall|i: int, j: int| 0 <= i < j < r.len() implies r[i].key() < r[j].key() by {
                if i < p && j < p {
                } else if i == p && j > p {
                    assert(r[j] == s[j - 1] && s[j - 1].key() >= s[p].key());
                } else if i < p && j == p {
                } else if i < p && j > p {
                    assert(r[j] == s[j - 1] && s[j - 1].key() >= s[p].key());
                } else if i > p && j > p {
                    assert(r[i] == s[i - 1] && r[j] == s[j - 1]);
                }
            }
        }
        lemma_index_of_key(r, t.key(), p);
        if has_key(s, t.key()) {
            let i = index_of_key(s, t.key());
            assert(0 <= i < s.len() && s[i].key() == t.key());
            assert(i >= p);
            assert(i == p ==> s[p].key() == t.key());
            assert(i > p ==> s[p].key() < s[i].key());
            assert(false);
        }
        assert forall|k: i32| k != t.key() && has_key(s, k) implies has_key(r, k) && entry_at(
            r,
            k,
        ) == entry_at(s, k) by {
            let i = index_of_key(s, k);
            lemma_index_of_key(s, k, i);
            if i < p {
                lemma_index_of_key(r, k, i);
            } else {
                assert(r[i + 1] == s[i]);
                lemma_index_of_key(r, k, i + 1);
            }
        }
        assert forall|k: i32| k != t.key() && has_key(r, k) implies has_key(s, k) by {
            let i = index_of_key(r, k);
            assert(0 <= i < r.len() && r[i].key() == k);
            assert(i != p);
            if i < p {
                assert(s[i].key() == k);
            } else {
                assert(s[i - 1].key() == k);
            }
        }
    }
}

/// The store after the entry with key `k` is removed; the store itself when
/// no entry carries `k`.
pub open spec fn store_remove<T: Keyed>(s: Seq<T>, k: i32) -> Seq<T> {
    if has_key(s, k) {
        s.remove(index_of_key(s, k))
    } else {
        s
    }
}

/// What `store_remove` does to a sorted store: the result is sorted, no
/// longer holds `k`, and agrees with the old store on every other key.
pub proof fn lemma_store_remove<T: Keyed>(s: Seq<T>, k: i32)
    requires
        sorted_by_key(s),
    ensures
        sorted_by_key(store_remove(s, k)),
        !has_key(store_remove(s, k), k),
        forall|k2: i32| k2 != k ==> (has_key(store_remove(s, k), k2) <==> has_key(s, k2)),
        forall|k2: i32|
            k2 != k && has_key(s, k2) ==> entry_at(store_remove(s, k), k2) == entry_at(s, k2),
        store_remove(s, k).len() == if has_key(s, k) {
            s.len() - 1
        } else {
            s.len() as int
        },
{
    if has_key(s, k) {
        let p = index_of_key(s, k);
        assert(0 <= p < s.len() && s[p].key() == k);
        let r = s.remove(p);
        assert(forall|i: int| 0 <= i < p ==> r[i] == s[i]);
        assert(forall|i: int| p <= i < r.len() ==> r[i] == s[i + 1]);
        assert(sorted_by_key(r));
        if has_key(r, k) {
            let i = index_of_key(r, k);
            assert(0 <= i < r.len() && r[i].key() == k);
            if i < p {
                assert(s[i].key() < s[p].key());
            } else {
                assert(s[p].key() < s[i + 1].key());
            }
            assert(false);
        }
        assert forall|k2: i32| k2 != k && has_key(s, k2) implies has_key(r, k2) && entry_at(
            r,
            k2,
        ) == entry_at(s, k2) by {
            let i = index_of_key(s, k2);
            lemma_index_of_key(s, k2, i);
            if i < p {
                lemma_index_of_key(r, k2, i);
            } else {
                assert(i > p);
                assert(r[i - 1] == s[i]);
                lemma_index_of_key(r, k2, i - 1);
            }
        }
        assert forall|k2: i32| k2 != k && has_key(r, k2) implies has_key(s, k2) by {
            let i = index_of_key(r, k2);
            assert(0 <= i < r.len() && r[i].key() == k2);
            if i < p {
                assert(s[i].key() == k2);
            } else {
                assert(s[i + 1].key() == k2);
            }
        }
    }
}

} // verus!

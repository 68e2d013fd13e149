//! The first place of a key in a list of keys.

use vstd::prelude::*;

verus! {

/// The first place of `key` among `keys`, if it is among them.
pub open spec fn first_place<K>(keys: Seq<K>, key: K) -> Option<int> {
    if exists|i: int| 0 <= i < keys.len() && keys[i] == key {
        Some(
            choose|i: int|
                0 <= i < keys.len() && keys[i] == key && forall|j: int|
                    0 <= j < i ==> keys[j] != key,
        )
    } else {
        None
    }
}

/// A place that holds the key, behind places that do not, is its first place.
pub proof fn lemma_first_place_found<K>(keys: Seq<K>, key: K, i: int)
    requires
        0 <= i < keys.len(),
        keys[i] == key,
        forall|j: int| 0 <= j < i ==> keys[j] != key,
    ensures
        first_place(keys, key) == Some(i),
{
    let c = choose|c: int|
        0 <= c < keys.len() && keys[c] == key && forall|j: int| 0 <= j < c ==> keys[j] != key;
    if c < i {
        assert(keys[c] != key);
    }
    if i < c {
        assert(keys[i] != key);
    }
}

/// The first place of a key holds the key, and no place before it does.
pub proof fn lemma_first_place<K>(keys: Seq<K>, key: K)
    ensures
        match first_place(keys, key) {
            Some(i) => 0 <= i < keys.len() && keys[i] == key && forall|j: int|
                0 <= j < i ==> keys[j] != key,
            None => forall|j: int| 0 <= j < keys.len() ==> keys[j] != key,
        },
{
    if exists|i: int| 0 <= i < keys.len() && keys[i] == key {
        let w = choose|i: int| 0 <= i < keys.len() && keys[i] == key;
        lemma_least_place(keys, key, w);
    }
}

/// Where a place holds the key, a least such place exists.
proof fn lemma_least_place<K>(keys: Seq<K>, key: K, w: int)
    requires
        0 <= w < keys.len(),
        keys[w] == key,
    ensures
        exists|i: int|
            0 <= i < keys.len() && keys[i] == key && forall|j: int| 0 <= j < i ==> keys[j] != key,
    decreases w,
{
    if forall|j: int| 0 <= j < w ==> keys[j] != key {
    } else {
        let j = choose|j: int| 0 <= j < w && keys[j] == key;
        lemma_least_place(keys, key, j);
    }
}

/// The keys after a key was looked up and, where it was not among them, put
/// behind them.
pub open spec fn with_key<K>(keys: Seq<K>, key: K) -> Seq<K> {
    if first_place(keys, key) is Some {
        keys
    } else {
        keys.push(key)
    }
}

/// The place of a key that was looked up and, where it was not there, put
/// behind the others.
pub open spec fn place_with_key<K>(keys: Seq<K>, key: K) -> int {
    match first_place(keys, key) {
        Some(i) => i,
        None => keys.len() as int,
    }
}

/// Putting a key behind keys that lack it gives that key a place and leaves
/// every other key where it was.
pub proof fn lemma_first_place_with_key<K>(keys: Seq<K>, key: K, other: K)
    ensures
        first_place(with_key(keys, key), other) == if other == key {
            Some(place_with_key(keys, key))
        } else {
            first_place(keys, other)
        },
        0 <= place_with_key(keys, key) < with_key(keys, key).len(),
        with_key(keys, key)[place_with_key(keys, key)] == key,
        first_place(keys, other) matches Some(i) ==> 0 <= i < keys.len() && keys[i] == other,
{
    lemma_first_place(keys, key);
    lemma_first_place(keys, other);
    if first_place(keys, key) is None {
        let after = keys.push(key);
        match first_place(keys, other) {
            Some(j) => {
                assert(after[j] == other);
                assert forall|m: int| 0 <= m < j implies after[m] != other by {
                    assert(after[m] == keys[m]);
                }
                lemma_first_place_found(after, other, j);
            },
            None => {
                if other == key {
                    assert forall|m: int| 0 <= m < keys.len() implies after[m] != other by {
                        assert(after[m] == keys[m]);
                    }
                    lemma_first_place_found(after, other, keys.len() as int);
                } else {
                    assert forall|m: int| 0 <= m < after.len() implies after[m] != other by {
                        if m < keys.len() {
                            assert(after[m] == keys[m]);
                        }
                    }
                }
            },
        }
    }
}

/// Keys of which none occurs twice stay so where a key is put behind them
/// that they lack.
pub proof fn lemma_with_key_no_duplicates<K>(keys: Seq<K>, key: K)
    requires
        keys.no_duplicates(),
    ensures
        with_key(keys, key).no_duplicates(),
{
    lemma_first_place(keys, key);
    if first_place(keys, key) is None {
        let after = keys.push(key);
        assert forall|i: int, j: int| 0 <= i < after.len() && 0 <= j < after.len() && i != j implies after[i]
            != after[j] by {
            if i < keys.len() {
                assert(after[i] == keys[i]);
            }
            if j < keys.len() {
                assert(after[j] == keys[j]);
            }
        }
    }
}

} // verus!

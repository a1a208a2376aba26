//! Vectors kept sorted by a string key, viewed as maps from key to element.
use vstd::prelude::*;
use crate::keys::{
    compare_keys, key_lt, lemma_key_lt_irreflexive, lemma_key_lt_transitive, KeyOrder,
};

verus! {

/// An element that carries its own key.
pub trait Keyed {
    spec fn key(&self) -> Seq<char>;

    fn key_str(&self) -> (r: &str)
        ensures
            r@ == self.key(),
    ;
}

/// Keys strictly increase along the sequence (so no key occurs twice).
pub open spec fn sorted_keys<V: Keyed>(s: Seq<V>) -> bool {
    forall|i: int, j: int| 0 <= i < j < s.len() ==> key_lt(#[trigger] s[i].key(), #[trigger] s[j].key())
}

pub open spec fn has_key<V: Keyed>(s: Seq<V>, k: Seq<char>) -> bool {
    exists|i: int| 0 <= i < s.len() && #[trigger] s[i].key() == k
}

/// An index at which key `k` stands, where it stands anywhere.
pub open spec fn key_index<V: Keyed>(s: Seq<V>, k: Seq<char>) -> int {
    choose|i: int| 0 <= i < s.len() && #[trigger] s[i].key() == k
}

/// The map from key to element that a sorted sequence stands for.
pub open spec fn keyed_map<V: Keyed>(s: Seq<V>) -> Map<Seq<char>, V> {
    Map::new(|k: Seq<char>| has_key(s, k), |k: Seq<char>| s[key_index(s, k)])
}

pub proof fn lemma_sorted_distinct<V: Keyed>(s: Seq<V>, i: int, j: int)
    requires
        sorted_keys(s),
        0 <= i < s.len(),
        0 <= j < s.len(),
        i != j,
    ensures
        s[i].key() != s[j].key(),
{
    if i < j {
        assert(key_lt(s[i].key(), s[j].key()));
        lemma_key_lt_irreflexive(s[i].key());
    } else {
        assert(key_lt(s[j].key(), s[i].key()));
        lemma_key_lt_irreflexive(s[j].key());
    }
}

/// Each element of a sorted sequence is what its key maps to.
pub proof fn lemma_keyed_map_index<V: Keyed>(s: Seq<V>, i: int)
    requires
        sorted_keys(s),
        0 <= i < s.len(),
    ensures
        keyed_map(s).contains_key(s[i].key()),
        keyed_map(s)[s[i].key()] == s[i],
{
    let k = s[i].key();
    assert(has_key(s, k));
    let j = key_index(s, k);
    if j != i {
        lemma_sorted_distinct(s, i, j);
    }
}

pub proof fn lemma_keyed_map_all<V: Keyed>(s: Seq<V>)
    requires
        sorted_keys(s),
    ensures
        forall|i: int|
            #![trigger s[i]]
            0 <= i < s.len() ==> keyed_map(s).contains_key(s[i].key()) && keyed_map(s)[s[i].key()]
                == s[i],
        forall|k: Seq<char>| #[trigger] keyed_map(s).contains_key(k) <==> has_key(s, k),
{
    assert forall|i: int|
        #![trigger s[i]]
        0 <= i < s.len() implies keyed_map(s).contains_key(s[i].key()) && keyed_map(s)[s[i].key()]
            == s[i] by {
        lemma_keyed_map_index(s, i);
    }
}

/// Where a key stands in a sorted vector: its index if present (`r.0`), else
/// the index at which it would be inserted.
pub fn find_position<V: Keyed>(s: &Vec<V>, k: &str) -> (r: (bool, usize))
    requires
        sorted_keys(s@),
    ensures
        r.1 <= s@.len(),
        r.0 ==> r.1 < s@.len() && s@[r.1 as int].key() == k@,
        r.0 <==> has_key(s@, k@),
        !r.0 ==> forall|i: int| 0 <= i < r.1 ==> key_lt(#[trigger] s@[i].key(), k@),
        !r.0 ==> forall|i: int| r.1 <= i < s@.len() ==> key_lt(k@, #[trigger] s@[i].key()),
{
    let mut i: usize = 0;
    while i < s.len()
        invariant
            sorted_keys(s@),
            i <= s@.len(),
            forall|j: int| 0 <= j < i ==> key_lt(#[trigger] s@[j].key(), k@),
        decreases s@.len() - i,
    {
        match compare_keys(s[i].key_str(), k) {
            KeyOrder::Less => {},
            KeyOrder::Equal => {
                return (true, i);
            },
            KeyOrder::Greater => {
                proof {
                    assert forall|j: int| i <= j < s@.len() implies key_lt(
                        k@,
                        #[trigger] s@[j].key(),
                    ) by {
                        if j > i {
                            lemma_key_lt_transitive(k@, s@[i as int].key(), s@[j].key());
                        }
                    }
                    assert forall|j: int| 0 <= j < s@.len() implies #[trigger] s@[j].key()
                        != k@ by {
                        lemma_key_lt_irreflexive(k@);
                    }
                }
                return (false, i);
            },
        }
        i = i + 1;
    }
    proof {
        assert forall|j: int| 0 <= j < s@.len() implies #[trigger] s@[j].key() != k@ by {
            lemma_key_lt_irreflexive(k@);
        }
    }
    (false, i)
}

/// The element under key `k`, if any.
pub fn get_keyed<'a, V: Keyed>(s: &'a Vec<V>, k: &str) -> (r: Option<&'a V>)
    requires
        sorted_keys(s@),
    ensures
        r matches Some(v) ==> keyed_map(s@).contains_key(k@) && *v == keyed_map(s@)[k@],
        r is None ==> !keyed_map(s@).contains_key(k@),
{
    proof {
        lemma_keyed_map_all(s@);
    }
    let (found, i) = find_position(s, k);
    if found {
        Some(&s[i])
    } else {
        None
    }
}

/// Puts `x` under its key, replacing the element that was there; returns that element.
pub fn upsert_keyed<V: Keyed>(s: &mut Vec<V>, x: V) -> (r: Option<V>)
    requires
        sorted_keys(old(s)@),
    ensures
        sorted_keys(final(s)@),
        keyed_map(final(s)@) == keyed_map(old(s)@).insert(x.key(), x),
        r matches Some(v) ==> keyed_map(old(s)@).contains_key(x.key()) && v == keyed_map(
            old(s)@,
        )[x.key()],
        r is None ==> !keyed_map(old(s)@).contains_key(x.key()),
{
    let ghost s0 = s@;
    let ghost k = x.key();
    proof {
        lemma_keyed_map_all(s0);
    }
    let (found, i) = find_position(s, x.key_str());
    if found {
        let ghost t = s0.update(i as int, x);
        let prev = s.remove(i);
        s.insert(i, x);
        assert(s@ =~= t);
        assert(sorted_keys(t)) by {
            assert forall|a: int, b: int| 0 <= a < b < t.len() implies key_lt(
                #[trigger] t[a].key(),
                #[trigger] t[b].key(),
            ) by {
                assert(key_lt(s0[a].key(), s0[b].key()));
            }
        }
        proof {
            lemma_keyed_map_all(t);
            assert(keyed_map(t) =~= keyed_map(s0).insert(k, x)) by {
                assert forall|kk: Seq<char>| #[trigger]
                    keyed_map(t).contains_key(kk) <==> keyed_map(s0).insert(
                        k,
                        x,
                    ).contains_key(kk) by {
                    if has_key(t, kk) {
                        let j = choose|j: int| 0 <= j < t.len() && #[trigger] t[j].key() == kk;
                        if j != i {
                            assert(s0[j].key() == kk);
                        }
                    }
                    if has_key(s0, kk) {
                        let j = choose|j: int| 0 <= j < s0.len() && #[trigger] s0[j].key() == kk;
                        assert(t[j].key() == kk);
                    }
                }
                assert forall|kk: Seq<char>| #[trigger]
                    keyed_map(t).contains_key(kk) implies keyed_map(t)[kk] == keyed_map(
                        s0,
                    ).insert(k, x)[kk] by {
                    let j = choose|j: int| 0 <= j < t.len() && #[trigger] t[j].key() == kk;
                    assert(keyed_map(t)[t[j].key()] == t[j]);
                    if j != i {
                        assert(keyed_map(s0)[s0[j].key()] == s0[j]);
                        lemma_sorted_distinct(s0, i as int, j);
                    }
                }
            }
        }
        Some(prev)
    } else {
        let ghost t = s0.insert(i as int, x);
        s.insert(i, x);
        assert(sorted_keys(t)) by {
            assert forall|a: int, b: int| 0 <= a < b < t.len() implies key_lt(
                #[trigger] t[a].key(),
                #[trigger] t[b].key(),
            ) by {
                if b < i {
                    assert(key_lt(s0[a].key(), s0[b].key()));
                } else if b == i {
                    assert(key_lt(s0[a].key(), k));
                } else if a == i {
                    assert(key_lt(k, s0[b - 1].key()));
                } else if a < i {
                    assert(key_lt(s0[a].key(), s0[b - 1].key()));
                } else {
                    assert(key_lt(s0[a - 1].key(), s0[b - 1].key()));
                }
            }
        }
        proof {
            lemma_keyed_map_all(t);
            assert(keyed_map(t) =~= keyed_map(s0).insert(k, x)) by {
                assert forall|kk: Seq<char>| #[trigger]
                    keyed_map(t).contains_key(kk) <==> keyed_map(s0).insert(
                        k,
                        x,
                    ).contains_key(kk) by {
                    if has_key(t, kk) {
                        let j = choose|j: int| 0 <= j < t.len() && #[trigger] t[j].key() == kk;
                        if j < i {
                            assert(s0[j].key() == kk);
                        } else if j > i {
                            assert(s0[j - 1].key() == kk);
                        }
                    }
                    if has_key(s0, kk) {
                        let j = choose|j: int| 0 <= j < s0.len() && #[trigger] s0[j].key() == kk;
                        if j < i {
                            assert(t[j].key() == kk);
                        } else {
                            assert(t[j + 1].key() == kk);
                        }
                    }
                    if kk == k {
                        assert(t[i as int].key() == kk);
                    }
                }
                assert forall|kk: Seq<char>| #[trigger]
                    keyed_map(t).contains_key(kk) implies keyed_map(t)[kk] == keyed_map(
                        s0,
                    ).insert(k, x)[kk] by {
                    let j = choose|j: int| 0 <= j < t.len() && #[trigger] t[j].key() == kk;
                    assert(keyed_map(t)[t[j].key()] == t[j]);
                    if j < i {
                        assert(keyed_map(s0)[s0[j].key()] == s0[j]);
                    } else if j > i {
                        assert(keyed_map(s0)[s0[j - 1].key()] == s0[j - 1]);
                    }
                }
            }
        }
        None
    }
}

/// Takes out the element under key `k`, if any.
pub fn remove_keyed<V: Keyed>(s: &mut Vec<V>, k: &str) -> (r: Option<V>)
    requires
        sorted_keys(old(s)@),
    ensures
        sorted_keys(final(s)@),
        keyed_map(final(s)@) == keyed_map(old(s)@).remove(k@),
        r matches Some(v) ==> keyed_map(old(s)@).contains_key(k@) && v == keyed_map(old(s)@)[k@],
        r is None ==> !keyed_map(old(s)@).contains_key(k@) && final(s)@ == old(s)@,
{
    let ghost s0 = s@;
    proof {
        lemma_keyed_map_all(s0);
    }
    let (found, i) = find_position(s, k);
    if !found {
        assert(keyed_map(s0) =~= keyed_map(s0).remove(k@));
        return None;
    }
    let ghost t = s0.remove(i as int);
    let prev = s.remove(i);
    assert(sorted_keys(t)) by {
        assert forall|a: int, b: int| 0 <= a < b < t.len() implies key_lt(
            #[trigger] t[a].key(),
            #[trigger] t[b].key(),
        ) by {
            if b < i {
                assert(key_lt(s0[a].key(), s0[b].key()));
            } else if a < i {
                assert(key_lt(s0[a].key(), s0[b + 1].key()));
            } else {
                assert(key_lt(s0[a + 1].key(), s0[b + 1].key()));
            }
        }
    }
    proof {
        lemma_keyed_map_all(t);
        assert(keyed_map(t) =~= keyed_map(s0).remove(k@)) by {
            assert forall|kk: Seq<char>| #[trigger]
                keyed_map(t).contains_key(kk) <==> keyed_map(s0).remove(k@).contains_key(kk) by {
                if has_key(t, kk) {
                    let j = choose|j: int| 0 <= j < t.len() && #[trigger] t[j].key() == kk;
                    if j < i {
                        assert(s0[j].key() == kk);
                        lemma_sorted_distinct(s0, j, i as int);
                    } else {
                        assert(s0[j + 1].key() == kk);
                        lemma_sorted_distinct(s0, j + 1, i as int);
                    }
                }
                if has_key(s0, kk) && kk != k@ {
                    let j = choose|j: int| 0 <= j < s0.len() && #[trigger] s0[j].key() == kk;
                    if j < i {
                        assert(t[j].key() == kk);
                    } else {
                        assert(t[j - 1].key() == kk);
                    }
                }
            }
            assert forall|kk: Seq<char>| #[trigger]
                keyed_map(t).contains_key(kk) implies keyed_map(t)[kk] == keyed_map(s0).remove(
                    k@,
                )[kk] by {
                let j = choose|j: int| 0 <= j < t.len() && #[trigger] t[j].key() == kk;
                assert(keyed_map(t)[t[j].key()] == t[j]);
                if j < i {
                    assert(keyed_map(s0)[s0[j].key()] == s0[j]);
                } else {
                    assert(keyed_map(s0)[s0[j + 1].key()] == s0[j + 1]);
                }
            }
        }
    }
    Some(prev)
}

} // verus!

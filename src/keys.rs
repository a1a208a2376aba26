//! Ordering of partition and row keys.
//!
//! Keys are compared byte by byte on their UTF-8 encoding, which is the order
//! in which `String` values sort in Rust.
use vstd::prelude::*;
use vstd::utf8::{encode_utf8, encode_utf8_decode_utf8};

verus! {

/// Lexicographic "strictly less than" on byte sequences.
pub open spec fn bytes_lt(a: Seq<u8>, b: Seq<u8>) -> bool
    decreases a.len(),
{
    if b.len() == 0 {
        false
    } else if a.len() == 0 {
        true
    } else if a[0] != b[0] {
        a[0] < b[0]
    } else {
        bytes_lt(a.drop_first(), b.drop_first())
    }
}

/// The order of keys: the order of their UTF-8 encodings.
pub open spec fn key_lt(a: Seq<char>, b: Seq<char>) -> bool {
    bytes_lt(encode_utf8(a), encode_utf8(b))
}

pub proof fn lemma_bytes_lt_irreflexive(a: Seq<u8>)
    ensures
        !bytes_lt(a, a),
    decreases a.len(),
{
    if a.len() > 0 {
        lemma_bytes_lt_irreflexive(a.drop_first());
    }
}

pub proof fn lemma_bytes_lt_asymmetric(a: Seq<u8>, b: Seq<u8>)
    requires
        bytes_lt(a, b),
    ensures
        !bytes_lt(b, a),
    decreases a.len(),
{
    if a.len() > 0 && b.len() > 0 && a[0] == b[0] {
        lemma_bytes_lt_asymmetric(a.drop_first(), b.drop_first());
    }
}

pub proof fn lemma_bytes_lt_transitive(a: Seq<u8>, b: Seq<u8>, c: Seq<u8>)
    requires
        bytes_lt(a, b),
        bytes_lt(b, c),
    ensures
        bytes_lt(a, c),
    decreases a.len(),
{
    if a.len() > 0 && a[0] == b[0] && b[0] == c[0] {
        lemma_bytes_lt_transitive(a.drop_first(), b.drop_first(), c.drop_first());
    }
}

/// The key order is irreflexive and transitive.
pub proof fn lemma_key_lt_irreflexive(a: Seq<char>)
    ensures
        !key_lt(a, a),
{
    lemma_bytes_lt_irreflexive(encode_utf8(a));
}

pub proof fn lemma_key_lt_transitive(a: Seq<char>, b: Seq<char>, c: Seq<char>)
    requires
        key_lt(a, b),
        key_lt(b, c),
    ensures
        key_lt(a, c),
{
    lemma_bytes_lt_transitive(encode_utf8(a), encode_utf8(b), encode_utf8(c));
}

/// How two keys compare.
pub enum KeyOrder {
    Less,
    Equal,
    Greater,
}

/// Compares two keys in the order in which `String` values sort.
pub fn compare_keys(a: &str, b: &str) -> (r: KeyOrder)
    ensures
        r is Less <==> key_lt(a@, b@),
        r is Equal <==> a@ == b@,
        r is Greater <==> key_lt(b@, a@),
{
    let x = a.as_bytes();
    let y = b.as_bytes();
    let ghost ea = encode_utf8(a@);
    let ghost eb = encode_utf8(b@);
    proof {
        encode_utf8_decode_utf8(a@);
        encode_utf8_decode_utf8(b@);
        assert(ea.skip(0) =~= ea);
        assert(eb.skip(0) =~= eb);
    }
    let mut i: usize = 0;
    while i < x.len() && i < y.len()
        invariant
            ea == encode_utf8(a@),
            eb == encode_utf8(b@),
            x@ == ea,
            y@ == eb,
            i <= x@.len(),
            i <= y@.len(),
            forall|j: int| 0 <= j < i ==> ea[j] == eb[j],
            bytes_lt(ea, eb) == bytes_lt(ea.skip(i as int), eb.skip(i as int)),
            bytes_lt(eb, ea) == bytes_lt(eb.skip(i as int), ea.skip(i as int)),
        decreases x@.len() - i,
    {
        if x[i] != y[i] {
            proof {
                lemma_key_lt_irreflexive(a@);
                assert(ea.skip(i as int)[0] == ea[i as int]);
                assert(eb.skip(i as int)[0] == eb[i as int]);
                if a@ == b@ {
                    assert(ea == eb);
                    assert(false);
                }
            }
            if x[i] < y[i] {
                proof {
                    lemma_bytes_lt_asymmetric(ea, eb);
                }
                return KeyOrder::Less;
            } else {
                proof {
                    lemma_bytes_lt_asymmetric(eb, ea);
                }
                return KeyOrder::Greater;
            }
        }
        assert(ea.skip(i as int).drop_first() =~= ea.skip(i as int + 1));
        assert(eb.skip(i as int).drop_first() =~= eb.skip(i as int + 1));
        i = i + 1;
    }
    if x.len() == y.len() {
        assert(ea =~= eb);
        proof {
            lemma_key_lt_irreflexive(a@);
        }
        KeyOrder::Equal
    } else if i == x.len() {
        proof {
            lemma_bytes_lt_asymmetric(ea, eb);
            if a@ == b@ {
                assert(ea.len() == eb.len());
            }
        }
        KeyOrder::Less
    } else {
        proof {
            lemma_bytes_lt_asymmetric(eb, ea);
            if a@ == b@ {
                assert(ea.len() == eb.len());
            }
        }
        KeyOrder::Greater
    }
}

} // verus!

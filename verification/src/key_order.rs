//! Byte-wise lexicographic order on string keys, the order in which the
//! standard library compares `str` values.
use vstd::prelude::*;
use vstd::string::StringSliceAdditionalSpecFns;

verus! {

/// `a` sorts strictly before `b` when, at the first position where they
/// differ, `a` holds the smaller byte, or when `a` is a proper prefix of `b`.
pub open spec fn bytes_lt(a: Seq<u8>, b: Seq<u8>) -> bool {
    exists|i: int| #[trigger] diverge_at(a, b, i)
}

/// `i` is the length of the common prefix of `a` and `b`, and the byte of
/// `a` there (or the end of `a`) comes before the byte of `b` there.
pub open spec fn diverge_at(a: Seq<u8>, b: Seq<u8>, i: int) -> bool {
    &&& 0 <= i <= a.len()
    &&& i <= b.len()
    &&& a.take(i) == b.take(i)
    &&& if i == a.len() {
        i < b.len()
    } else {
        i < b.len() && a[i] < b[i]
    }
}

/// The order on string keys: that of their UTF-8 encodings.
pub open spec fn key_lt(a: &str, b: &str) -> bool {
    bytes_lt(a.spec_bytes(), b.spec_bytes())
}

/// The outcome of comparing two keys.
#[derive(Debug, Clone, Copy, PartialEq, Eq, Structural)]
pub enum KeyOrder {
    Less,
    Equal,
    Greater,
}

pub proof fn lemma_bytes_lt_irreflexive(a: Seq<u8>)
    ensures
        !bytes_lt(a, a),
{
    assert forall|i: int| !diverge_at(a, a, i) by {}
}

pub proof fn lemma_bytes_lt_transitive(a: Seq<u8>, b: Seq<u8>, c: Seq<u8>)
    requires
        bytes_lt(a, b),
        bytes_lt(b, c),
    ensures
        bytes_lt(a, c),
{
    let i = choose|i: int| diverge_at(a, b, i);
    let j = choose|j: int| diverge_at(b, c, j);
    if i < j {
        assert(b.take(j).take(i) == b.take(i));
        assert(c.take(j).take(i) == c.take(i));
        if i < b.len() {
            assert(b[i] == b.take(j)[i]);
            assert(c[i] == c.take(j)[i]);
        }
        assert(diverge_at(a, c, i));
    } else if j < i {
        assert(a.take(i).take(j) == a.take(j));
        assert(b.take(i).take(j) == b.take(j));
        assert(a[j] == a.take(i)[j]);
        assert(b[j] == b.take(i)[j]);
        assert(diverge_at(a, c, j));
    } else {
        assert(diverge_at(a, c, i));
    }
}

pub proof fn lemma_bytes_lt_asymmetric(a: Seq<u8>, b: Seq<u8>)
    requires
        bytes_lt(a, b),
    ensures
        !bytes_lt(b, a),
        a != b,
{
    if bytes_lt(b, a) {
        lemma_bytes_lt_transitive(a, b, a);
        lemma_bytes_lt_irreflexive(a);
    }
    if a == b {
        lemma_bytes_lt_irreflexive(a);
    }
}

/// Two keys with the same encoding are the same sequence of characters.
pub proof fn lemma_same_bytes_same_chars(a: &str, b: &str)
    requires
        a.spec_bytes() == b.spec_bytes(),
    ensures
        a@ == b@,
{
    vstd::utf8::encode_utf8_decode_utf8(a@);
    vstd::utf8::encode_utf8_decode_utf8(b@);
}

/// Compares two byte strings lexicographically.
pub fn compare_bytes(a: &[u8], b: &[u8]) -> (r: KeyOrder)
    ensures
        r == KeyOrder::Less <==> bytes_lt(a@, b@),
        r == KeyOrder::Equal <==> a@ == b@,
        r == KeyOrder::Greater <==> bytes_lt(b@, a@),
{
    let mut i: usize = 0;
    while i < a.len() && i < b.len() && a[i] == b[i]
        invariant
            i <= a.len(),
            i <= b.len(),
            a@.take(i as int) == b@.take(i as int),
        decreases a.len() - i,
    {
        assert(a@.take(i + 1) == a@.take(i as int).push(a@[i as int]));
        assert(b@.take(i + 1) == b@.take(i as int).push(b@[i as int]));
        i = i + 1;
    }
    if i == a.len() && i == b.len() {
        assert(a@ == a@.take(i as int));
        assert(b@ == b@.take(i as int));
        proof { lemma_bytes_lt_irreflexive(a@); }
        KeyOrder::Equal
    } else if i == a.len() || (i < b.len() && a[i] < b[i]) {
        assert(diverge_at(a@, b@, i as int));
        proof { lemma_bytes_lt_asymmetric(a@, b@); }
        KeyOrder::Less
    } else {
        assert(diverge_at(b@, a@, i as int));
        proof { lemma_bytes_lt_asymmetric(b@, a@); }
        KeyOrder::Greater
    }
}

/// Compares two string keys by their UTF-8 encodings, as `str` is ordered.
pub fn compare_keys(a: &str, b: &str) -> (r: KeyOrder)
    ensures
        r == KeyOrder::Less <==> key_lt(a, b),
        r == KeyOrder::Equal <==> a.spec_bytes() == b.spec_bytes(),
        r == KeyOrder::Greater <==> key_lt(b, a),
        r == KeyOrder::Equal ==> a@ == b@,
{
    let r = compare_bytes(a.as_bytes(), b.as_bytes());
    if r == KeyOrder::Equal {
        proof { lemma_same_bytes_same_chars(a, b); }
    }
    r
}

} // verus!

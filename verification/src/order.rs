//! The byte-wise lexicographic order on names.

use vstd::prelude::*;
use vstd::utf8::*;

verus! {

/// The outcome of comparing two names.
#[derive(Clone, Copy, Debug, PartialEq, Eq, Structural)]
pub enum Order {
    Less,
    Equal,
    Greater,
}

/// `a` and `b` hold the same bytes at every position below `k`.
pub open spec fn agree(a: Seq<u8>, b: Seq<u8>, k: int) -> bool {
    &&& 0 <= k <= a.len()
    &&& k <= b.len()
    &&& forall|i: int| 0 <= i < k ==> a[i] == b[i]
}

/// At position `k`, `a` ends while `b` goes on, or `a` holds the smaller byte.
pub open spec fn below_at(a: Seq<u8>, b: Seq<u8>, k: int) -> bool {
    ||| k == a.len() && k < b.len()
    ||| 0 <= k < a.len() && k < b.len() && a[k] < b[k]
}

/// `a` comes strictly before `b` in lexicographic byte order.
pub open spec fn bytes_lt(a: Seq<u8>, b: Seq<u8>) -> bool {
    exists|k: int| agree(a, b, k) && #[trigger] below_at(a, b, k)
}

/// The order on names: that of their UTF-8 encodings.
pub open spec fn name_lt(a: Seq<char>, b: Seq<char>) -> bool {
    bytes_lt(encode_utf8(a), encode_utf8(b))
}

/// No sequence comes before itself, and no two come before each other.
pub proof fn lemma_bytes_lt_asymmetric(a: Seq<u8>, b: Seq<u8>)
    requires
        bytes_lt(a, b),
    ensures
        !bytes_lt(b, a),
        a != b,
{
    let k1 = choose|k: int| agree(a, b, k) && #[trigger] below_at(a, b, k);
    if bytes_lt(b, a) {
        let k2 = choose|k: int| agree(b, a, k) && #[trigger] below_at(b, a, k);
        if k1 < k2 {
            assert(b[k1] == a[k1]);
        } else if k2 < k1 {
            assert(a[k2] == b[k2]);
        }
    }
}

/// The order is transitive.
pub proof fn lemma_bytes_lt_transitive(a: Seq<u8>, b: Seq<u8>, c: Seq<u8>)
    requires
        bytes_lt(a, b),
        bytes_lt(b, c),
    ensures
        bytes_lt(a, c),
{
    let k1 = choose|k: int| agree(a, b, k) && #[trigger] below_at(a, b, k);
    let k2 = choose|k: int| agree(b, c, k) && #[trigger] below_at(b, c, k);
    let k = if k1 <= k2 { k1 } else { k2 };
    assert(agree(a, c, k)) by {
        assert forall|i: int| 0 <= i < k implies a[i] == c[i] by {
            assert(a[i] == b[i]);
            assert(b[i] == c[i]);
        }
    }
    if k1 < k2 {
        assert(b[k1] == c[k1]);
    } else if k2 < k1 {
        assert(a[k2] == b[k2]);
    }
    assert(below_at(a, c, k));
}

/// Two sequences that agree below `k` are equal, or one comes before the other.
pub proof fn lemma_bytes_lt_total_from(a: Seq<u8>, b: Seq<u8>, k: int)
    requires
        agree(a, b, k),
    ensures
        bytes_lt(a, b) || bytes_lt(b, a) || a == b,
    decreases a.len() - k,
{
    if k == a.len() {
        if k == b.len() {
            assert(a =~= b);
        } else {
            assert(below_at(a, b, k));
        }
    } else if k == b.len() {
        assert(agree(b, a, k));
        assert(below_at(b, a, k));
    } else if a[k] < b[k] {
        assert(below_at(a, b, k));
    } else if b[k] < a[k] {
        assert(agree(b, a, k));
        assert(below_at(b, a, k));
    } else {
        lemma_bytes_lt_total_from(a, b, k + 1);
    }
}

/// Any two names are equal, or one comes before the other, and never both.
pub proof fn lemma_name_lt_trichotomy(a: Seq<char>, b: Seq<char>)
    ensures
        name_lt(a, b) || name_lt(b, a) || a == b,
        name_lt(a, b) ==> !name_lt(b, a) && a != b,
        name_lt(b, a) ==> a != b,
{
    let ea = encode_utf8(a);
    let eb = encode_utf8(b);
    lemma_bytes_lt_total_from(ea, eb, 0);
    if ea == eb {
        encode_utf8_decode_utf8(a);
        encode_utf8_decode_utf8(b);
    }
    if name_lt(a, b) {
        lemma_bytes_lt_asymmetric(ea, eb);
    }
    if name_lt(b, a) {
        lemma_bytes_lt_asymmetric(eb, ea);
    }
}

/// The order on names is transitive.
pub proof fn lemma_name_lt_transitive(a: Seq<char>, b: Seq<char>, c: Seq<char>)
    requires
        name_lt(a, b),
        name_lt(b, c),
    ensures
        name_lt(a, c),
{
    lemma_bytes_lt_transitive(encode_utf8(a), encode_utf8(b), encode_utf8(c));
}

/// On names of ASCII characters the order is that of the characters: a name
/// comes before another if, after a common beginning of `k` characters, it
/// ends while the other goes on, or holds the smaller character.
pub proof fn lemma_ascii_names_order_by_chars(a: Seq<char>, b: Seq<char>, k: int)
    requires
        is_ascii_chars(a),
        is_ascii_chars(b),
        0 <= k <= a.len(),
        k <= b.len(),
        forall|i: int| 0 <= i < k ==> a[i] == b[i],
        (k == a.len() && k < b.len()) || (k < a.len() && k < b.len() && a[k] < b[k]),
    ensures
        name_lt(a, b),
{
    is_ascii_chars_encode_utf8(a);
    is_ascii_chars_encode_utf8(b);
    let ea = encode_utf8(a);
    let eb = encode_utf8(b);
    assert(agree(ea, eb, k)) by {
        assert forall|i: int| 0 <= i < k implies ea[i] == eb[i] by {
            assert(a[i] as u8 == ea[i]);
            assert(b[i] as u8 == eb[i]);
        }
    }
    if k < a.len() {
        assert(a[k] as u8 == ea[k]);
        assert(b[k] as u8 == eb[k]);
    }
    assert(below_at(ea, eb, k));
}

/// Compares two byte strings lexicographically.
pub fn compare_bytes(a: &[u8], b: &[u8]) -> (r: Order)
    ensures
        r == Order::Less <==> bytes_lt(a@, b@),
        r == Order::Equal <==> a@ == b@,
        r == Order::Greater <==> bytes_lt(b@, a@),
{
    let mut i: usize = 0;
    while i < a.len() && i < b.len()
        invariant
            agree(a@, b@, i as int),
        decreases a.len() - i,
    {
        if a[i] < b[i] {
            proof {
                assert(below_at(a@, b@, i as int));
                lemma_bytes_lt_asymmetric(a@, b@);
            }
            return Order::Less;
        }
        if a[i] > b[i] {
            proof {
                assert(agree(b@, a@, i as int));
                assert(below_at(b@, a@, i as int));
                lemma_bytes_lt_asymmetric(b@, a@);
            }
            return Order::Greater;
        }
        i += 1;
    }
    if i == a.len() && i == b.len() {
        proof {
            assert(a@ =~= b@);
            if bytes_lt(a@, b@) {
                lemma_bytes_lt_asymmetric(a@, b@);
            }
        }
        Order::Equal
    } else if i == a.len() {
        proof {
            assert(below_at(a@, b@, i as int));
            lemma_bytes_lt_asymmetric(a@, b@);
        }
        Order::Less
    } else {
        proof {
            assert(agree(b@, a@, i as int));
            assert(below_at(b@, a@, i as int));
            lemma_bytes_lt_asymmetric(b@, a@);
        }
        Order::Greater
    }
}

/// Compares two names by their bytes, as the standard order on strings does.
pub fn compare_names(a: &str, b: &str) -> (r: Order)
    ensures
        r == Order::Less <==> name_lt(a@, b@),
        r == Order::Equal <==> a@ == b@,
        r == Order::Greater <==> name_lt(b@, a@),
{
    let r = compare_bytes(a.as_bytes(), b.as_bytes());
    proof {
        lemma_name_lt_trichotomy(a@, b@);
    }
    r
}

} // verus!

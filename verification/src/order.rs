//! Lexicographic order on sequences, and the order of file names and paths
//! that is built from it.

use vstd::prelude::*;
use vstd::string::*;
use vstd::utf8::{decode_utf8, encode_utf8, encode_utf8_decode_utf8};

verus! {

/// `less` is a strict total order: nothing is below itself, the relation is
/// transitive, and of two different values one is below the other.
pub open spec fn strict_total<T>(less: spec_fn(T, T) -> bool) -> bool {
    &&& forall|x: T| !#[trigger] less(x, x)
    &&& forall|x: T, y: T, z: T| #[trigger] less(x, y) && #[trigger] less(y, z) ==> less(x, z)
    &&& forall|x: T, y: T| x == y || #[trigger] less(x, y) || less(y, x)
}

/// `a` and `b` agree on their first `k` items.
pub open spec fn agree_up_to<T>(a: Seq<T>, b: Seq<T>, k: int) -> bool {
    &&& 0 <= k <= a.len()
    &&& k <= b.len()
    &&& forall|j: int| 0 <= j < k ==> a[j] == b[j]
}

/// `a` comes before `b`, and position `k` shows it: up to there they agree,
/// and there `a` ends while `b` goes on, or `a` has the lesser item.
pub open spec fn before_at<T>(a: Seq<T>, b: Seq<T>, less: spec_fn(T, T) -> bool, k: int) -> bool {
    &&& agree_up_to(a, b, k)
    &&& k < b.len()
    &&& k == a.len() || less(a[k], b[k])
}

/// `a` comes before `b` in the lexicographic order that `less` gives.
pub open spec fn lex_before<T>(a: Seq<T>, b: Seq<T>, less: spec_fn(T, T) -> bool) -> bool {
    exists|k: int| before_at(a, b, less, k)
}

/// No sequence comes before itself.
pub proof fn lemma_lex_irreflexive<T>(a: Seq<T>, less: spec_fn(T, T) -> bool)
    requires
        strict_total(less),
    ensures
        !lex_before(a, a, less),
{
    assert forall|k: int| !before_at(a, a, less, k) by {
        if 0 <= k < a.len() {
            assert(!less(a[k], a[k]));
        }
    }
}

/// The lexicographic order is transitive.
pub proof fn lemma_lex_transitive<T>(a: Seq<T>, b: Seq<T>, c: Seq<T>, less: spec_fn(T, T) -> bool)
    requires
        strict_total(less),
        lex_before(a, b, less),
        lex_before(b, c, less),
    ensures
        lex_before(a, c, less),
{
    let k1 = choose|k: int| before_at(a, b, less, k);
    let k2 = choose|k: int| before_at(b, c, less, k);
    let k = if k1 <= k2 {
        k1
    } else {
        k2
    };
    assert(agree_up_to(a, c, k)) by {
        assert forall|j: int| 0 <= j < k implies a[j] == c[j] by {
            assert(a[j] == b[j]);
            assert(b[j] == c[j]);
        }
    }
    if k1 < k2 {
        assert(b[k1] == c[k1]);
    } else if k1 == k2 {
        if k1 < a.len() {
            assert(less(a[k1], b[k1]) && less(b[k1], c[k1]));
        }
    } else {
        assert(a[k2] == b[k2]);
    }
    assert(before_at(a, c, less, k));
}

/// Of two sequences, at most one comes before the other.
pub proof fn lemma_lex_asymmetric<T>(a: Seq<T>, b: Seq<T>, less: spec_fn(T, T) -> bool)
    requires
        strict_total(less),
        lex_before(a, b, less),
    ensures
        !lex_before(b, a, less),
        a != b,
{
    lemma_lex_irreflexive(a, less);
    if lex_before(b, a, less) {
        lemma_lex_transitive(a, b, a, less);
    }
}

proof fn lemma_lex_total_from<T>(a: Seq<T>, b: Seq<T>, less: spec_fn(T, T) -> bool, k: int)
    requires
        strict_total(less),
        agree_up_to(a, b, k),
    ensures
        a == b || lex_before(a, b, less) || lex_before(b, a, less),
    decreases a.len() - k,
{
    if k == a.len() {
        if k == b.len() {
            assert(a =~= b);
        } else {
            assert(before_at(a, b, less, k));
        }
    } else if k == b.len() {
        assert(agree_up_to(b, a, k));
        assert(before_at(b, a, less, k));
    } else if a[k] == b[k] {
        lemma_lex_total_from(a, b, less, k + 1);
    } else if less(a[k], b[k]) {
        assert(before_at(a, b, less, k));
    } else {
        assert(less(b[k], a[k]));
        assert(agree_up_to(b, a, k));
        assert(before_at(b, a, less, k));
    }
}

/// Of two different sequences, one comes before the other.
pub proof fn lemma_lex_total<T>(a: Seq<T>, b: Seq<T>, less: spec_fn(T, T) -> bool)
    requires
        strict_total(less),
    ensures
        a == b || lex_before(a, b, less) || lex_before(b, a, less),
{
    lemma_lex_total_from(a, b, less, 0);
}

/// The order of bytes by their value.
pub open spec fn byte_less() -> spec_fn(u8, u8) -> bool {
    |x: u8, y: u8| x < y
}

/// `a` comes before `b`, byte by byte.
pub open spec fn bytes_before(a: Seq<u8>, b: Seq<u8>) -> bool {
    lex_before(a, b, byte_less())
}

/// The name `a` comes before the name `b`: the bytes of its UTF-8 encoding
/// come before those of `b`.
pub open spec fn name_before(a: Seq<char>, b: Seq<char>) -> bool {
    bytes_before(encode_utf8(a), encode_utf8(b))
}

/// The order of names, as a relation.
pub open spec fn name_less() -> spec_fn(Seq<char>, Seq<char>) -> bool {
    |a: Seq<char>, b: Seq<char>| name_before(a, b)
}

/// The path `p` comes before the path `q`: at the first component in which
/// they differ `p` has the lesser name, or `p` ends there and `q` goes on.
pub open spec fn path_before(p: Seq<Seq<char>>, q: Seq<Seq<char>>) -> bool {
    lex_before(p, q, name_less())
}

/// Bytes are strictly and totally ordered.
pub proof fn lemma_byte_order()
    ensures
        strict_total(byte_less()),
{
}

/// Two names with the same encoding are the same name.
pub proof fn lemma_encoding_tells_names_apart(a: Seq<char>, b: Seq<char>)
    requires
        encode_utf8(a) == encode_utf8(b),
    ensures
        a == b,
{
    encode_utf8_decode_utf8(a);
    encode_utf8_decode_utf8(b);
    assert(decode_utf8(encode_utf8(a)) == a);
    assert(decode_utf8(encode_utf8(b)) == b);
}

/// Names are strictly and totally ordered.
pub proof fn lemma_name_order()
    ensures
        strict_total(name_less()),
{
    let less = name_less();
    lemma_byte_order();
    assert forall|x: Seq<char>| !#[trigger] less(x, x) by {
        lemma_lex_irreflexive(encode_utf8(x), byte_less());
    }
    assert forall|x: Seq<char>, y: Seq<char>, z: Seq<char>| #[trigger]
        less(x, y) && #[trigger] less(y, z) implies less(x, z) by {
        lemma_lex_transitive(encode_utf8(x), encode_utf8(y), encode_utf8(z), byte_less());
    }
    assert forall|x: Seq<char>, y: Seq<char>| x == y || #[trigger] less(x, y) || less(y, x) by {
        lemma_lex_total(encode_utf8(x), encode_utf8(y), byte_less());
        if encode_utf8(x) == encode_utf8(y) {
            lemma_encoding_tells_names_apart(x, y);
        }
    }
}

/// No path comes before itself, and of two paths at most one comes before
/// the other.
pub proof fn lemma_path_order_is_strict(p: Seq<Seq<char>>, q: Seq<Seq<char>>)
    ensures
        !path_before(p, p),
        path_before(p, q) ==> !path_before(q, p) && p != q,
{
    lemma_name_order();
    lemma_lex_irreflexive(p, name_less());
    if path_before(p, q) {
        lemma_lex_asymmetric(p, q, name_less());
    }
}

/// The order of paths is transitive.
pub proof fn lemma_path_order_is_transitive(p: Seq<Seq<char>>, q: Seq<Seq<char>>, r: Seq<Seq<char>>)
    requires
        path_before(p, q),
        path_before(q, r),
    ensures
        path_before(p, r),
{
    lemma_name_order();
    lemma_lex_transitive(p, q, r, name_less());
}

/// Of two different paths, one comes before the other.
pub proof fn lemma_path_order_is_total(p: Seq<Seq<char>>, q: Seq<Seq<char>>)
    ensures
        p == q || path_before(p, q) || path_before(q, p),
{
    lemma_name_order();
    lemma_lex_total(p, q, name_less());
}

/// How one value stands to another in an order.
#[derive(Clone, Copy, Debug, PartialEq, Eq, Structural)]
pub enum Rank {
    /// It comes before the other.
    Before,
    /// The two are the same.
    Same,
    /// It comes after the other.
    After,
}

/// Says how `a` stands to `b` in the order of byte strings.
pub fn rank_bytes(a: &[u8], b: &[u8]) -> (rank: Rank)
    ensures
        rank == Rank::Before <==> bytes_before(a@, b@),
        rank == Rank::Same <==> a@ == b@,
        rank == Rank::After <==> bytes_before(b@, a@),
{
    proof {
        lemma_byte_order();
        lemma_lex_irreflexive(a@, byte_less());
        if bytes_before(a@, b@) {
            lemma_lex_asymmetric(a@, b@, byte_less());
        }
        if bytes_before(b@, a@) {
            lemma_lex_asymmetric(b@, a@, byte_less());
        }
    }
    let mut i: usize = 0;
    while i < a.len() && i < b.len()
        invariant
            agree_up_to(a@, b@, i as int),
        decreases a@.len() - i,
    {
        if a[i] < b[i] {
            assert(before_at(a@, b@, byte_less(), i as int));
            return Rank::Before;
        }
        if b[i] < a[i] {
            assert(agree_up_to(b@, a@, i as int));
            assert(before_at(b@, a@, byte_less(), i as int));
            return Rank::After;
        }
        i = i + 1;
    }
    if i < b.len() {
        assert(before_at(a@, b@, byte_less(), i as int));
        Rank::Before
    } else if i < a.len() {
        assert(agree_up_to(b@, a@, i as int));
        assert(before_at(b@, a@, byte_less(), i as int));
        Rank::After
    } else {
        assert(a@ =~= b@);
        Rank::Same
    }
}

/// Says how the name `a` stands to the name `b`.
pub fn rank_names(a: &str, b: &str) -> (rank: Rank)
    ensures
        rank == Rank::Before <==> name_before(a@, b@),
        rank == Rank::Same <==> a@ == b@,
        rank == Rank::After <==> name_before(b@, a@),
{
    proof {
        if encode_utf8(a@) == encode_utf8(b@) {
            lemma_encoding_tells_names_apart(a@, b@);
        }
    }
    rank_bytes(a.as_bytes(), b.as_bytes())
}

/// Whether two names are the same.
pub fn same_name(a: &str, b: &str) -> (same: bool)
    ensures
        same == (a@ == b@),
{
    rank_names(a, b) == Rank::Same
}

} // verus!

//! The order of keys: that of their UTF-8 bytes, compared position by position.
//!
//! Tables keep their keys in this order and listings come out in it.

use vstd::prelude::*;
use vstd::utf8::{encode_utf8, encode_utf8_decode_utf8};

verus! {

/// The bytes by which a key is ordered: its UTF-8 encoding.
pub open spec fn key_bytes(key: Seq<char>) -> Seq<u8> {
    encode_utf8(key)
}

/// The first `k` bytes of `a` and of `b` are the same.
pub open spec fn agree_upto(a: Seq<u8>, b: Seq<u8>, k: int) -> bool {
    &&& 0 <= k <= a.len()
    &&& k <= b.len()
    &&& forall|i: int| 0 <= i < k ==> a[i] == b[i]
}

/// `a` comes before `b`: after a common prefix of `k` bytes either `a` ends and
/// `b` goes on, or `a` holds the smaller byte.
pub open spec fn parts_at(a: Seq<u8>, b: Seq<u8>, k: int) -> bool {
    &&& agree_upto(a, b, k)
    &&& k < b.len()
    &&& k < a.len() ==> a[k] < b[k]
}

/// Lexicographic order on byte strings, strict.
pub open spec fn bytes_before(a: Seq<u8>, b: Seq<u8>) -> bool {
    exists|k: int| parts_at(a, b, k)
}

/// Strict order on keys.
pub open spec fn key_before(a: Seq<char>, b: Seq<char>) -> bool {
    bytes_before(key_bytes(a), key_bytes(b))
}

/// The keys that a vector of strings stands for.
pub open spec fn key_views(keys: Seq<String>) -> Seq<Seq<char>> {
    keys.map_values(|key: String| key@)
}

/// No key comes before an earlier one; equal keys may repeat.
pub open spec fn ascending(keys: Seq<Seq<char>>) -> bool {
    forall|i: int, j: int| 0 <= i < j < keys.len() ==> !key_before(keys[j], keys[i])
}

/// Each key comes before every later one, so no key occurs twice.
pub open spec fn strictly_ascending(keys: Seq<Seq<char>>) -> bool {
    forall|i: int, j: int| 0 <= i < j < keys.len() ==> key_before(keys[i], keys[j])
}

/// No byte string comes before itself.
pub proof fn lemma_bytes_before_irreflexive(a: Seq<u8>)
    ensures
        !bytes_before(a, a),
{
}

/// The order on byte strings is transitive.
pub proof fn lemma_bytes_before_transitive(a: Seq<u8>, b: Seq<u8>, c: Seq<u8>)
    requires
        bytes_before(a, b),
        bytes_before(b, c),
    ensures
        bytes_before(a, c),
{
    let k1 = choose|k: int| parts_at(a, b, k);
    let k2 = choose|k: int| parts_at(b, c, k);
    let k = if k1 <= k2 { k1 } else { k2 };
    assert(parts_at(a, c, k));
}

/// Two byte strings that agree on `k` bytes are equal, or one comes before the
/// other.
proof fn lemma_bytes_comparable_from(a: Seq<u8>, b: Seq<u8>, k: int)
    requires
        agree_upto(a, b, k),
    ensures
        bytes_before(a, b) || a == b || bytes_before(b, a),
    decreases a.len() - k,
{
    if k == a.len() {
        if k == b.len() {
            assert(a =~= b);
        } else {
            assert(parts_at(a, b, k));
        }
    } else if k == b.len() {
        assert(agree_upto(b, a, k));
        assert(parts_at(b, a, k));
    } else if a[k] < b[k] {
        assert(parts_at(a, b, k));
    } else if b[k] < a[k] {
        assert(agree_upto(b, a, k));
    } else {
        lemma_bytes_comparable_from(a, b, k + 1);
    }
}

/// Keys with the same bytes are the same key.
pub proof fn lemma_key_bytes_injective(a: Seq<char>, b: Seq<char>)
    requires
        key_bytes(a) == key_bytes(b),
    ensures
        a == b,
{
    encode_utf8_decode_utf8(a);
    encode_utf8_decode_utf8(b);
}

/// No key comes before itself.
pub proof fn lemma_key_before_irreflexive(a: Seq<char>)
    ensures
        !key_before(a, a),
{
    lemma_bytes_before_irreflexive(key_bytes(a));
}

/// The order on keys is transitive.
pub proof fn lemma_key_before_transitive(a: Seq<char>, b: Seq<char>, c: Seq<char>)
    requires
        key_before(a, b),
        key_before(b, c),
    ensures
        key_before(a, c),
{
    lemma_bytes_before_transitive(key_bytes(a), key_bytes(b), key_bytes(c));
}

/// Of two keys, at most one comes before the other.
pub proof fn lemma_key_before_asymmetric(a: Seq<char>, b: Seq<char>)
    requires
        key_before(a, b),
    ensures
        !key_before(b, a),
        a != b,
{
    if key_before(b, a) {
        lemma_key_before_transitive(a, b, a);
    }
    lemma_key_before_irreflexive(a);
}

/// The order on keys is total: of two different keys one comes before the other.
pub proof fn lemma_key_before_total(a: Seq<char>, b: Seq<char>)
    ensures
        key_before(a, b) || a == b || key_before(b, a),
{
    lemma_bytes_comparable_from(key_bytes(a), key_bytes(b), 0);
    if key_bytes(a) == key_bytes(b) {
        lemma_key_bytes_injective(a, b);
    }
}

/// A strictly ascending list is ascending.
pub proof fn lemma_strictly_ascending_is_ascending(keys: Seq<Seq<char>>)
    requires
        strictly_ascending(keys),
    ensures
        ascending(keys),
{
    assert forall|i: int, j: int| 0 <= i < j < keys.len() implies !key_before(
        keys[j],
        keys[i],
    ) by {
        lemma_key_before_asymmetric(keys[i], keys[j]);
    }
}

/// A set of keys has one strictly ascending list only.
pub proof fn lemma_strictly_ascending_unique(a: Seq<Seq<char>>, b: Seq<Seq<char>>)
    requires
        strictly_ascending(a),
        strictly_ascending(b),
        a.to_set() == b.to_set(),
    ensures
        a == b,
    decreases a.len(),
{
    assert forall|i: int, j: int| 0 <= i < j < a.len() implies a[i] != a[j] by {
        lemma_key_before_asymmetric(a[i], a[j]);
    }
    assert forall|i: int, j: int| 0 <= i < j < b.len() implies b[i] != b[j] by {
        lemma_key_before_asymmetric(b[i], b[j]);
    }
    a.unique_seq_to_set();
    b.unique_seq_to_set();
    if a.len() > 0 {
        let n = a.len() - 1;
        assert(a.to_set().contains(a[n]));
        let j = b.index_of(a[n]);
        assert(b.to_set().contains(b[n]));
        let i = a.index_of(b[n]);
        if j < n {
            lemma_key_before_asymmetric(b[j], b[n]);
            if i < n {
                assert(key_before(a[i], a[n]));
            }
        }
        assert(a[n] == b[n]);
        let front_a = a.drop_last();
        let front_b = b.drop_last();
        assert forall|k: Seq<char>| front_a.to_set().contains(k) <==> front_b.to_set().contains(
            k,
        ) by {
            if front_a.contains(k) {
                assert(a[front_a.index_of(k)] == k);
                assert(a.to_set().contains(k));
                let y = b.index_of(k);
                assert(front_b[y] == k);
            }
            if front_b.contains(k) {
                assert(b[front_b.index_of(k)] == k);
                assert(b.to_set().contains(k));
                let x = a.index_of(k);
                assert(front_a[x] == k);
            }
        }
        assert(front_a.to_set() =~= front_b.to_set());
        lemma_strictly_ascending_unique(front_a, front_b);
        assert(a =~= front_a.push(a[n]));
    } else {
        assert(a =~= b);
    }
}

/// Keys given with their numbers have one ascending list only.
pub proof fn lemma_ascending_unique(a: Seq<Seq<char>>, b: Seq<Seq<char>>)
    requires
        ascending(a),
        ascending(b),
        a.to_multiset() == b.to_multiset(),
    ensures
        a == b,
    decreases a.len(),
{
    a.to_multiset_ensures();
    b.to_multiset_ensures();
    if a.len() > 0 {
        let n = a.len() - 1;
        assert(a.to_multiset().count(a[n]) > 0);
        assert(b.to_multiset().count(b[n]) > 0);
        lemma_key_before_total(a[n], b[n]);
        let front_a = a.drop_last();
        let front_b = b.drop_last();
        vstd::seq_lib::to_multiset_remove(a, n);
        vstd::seq_lib::to_multiset_remove(b, n);
        lemma_ascending_unique(front_a, front_b);
        assert(a =~= front_a.push(a[n]));
    } else {
        assert(a =~= b);
    }
}

/// How one key stands to another in the order of keys.
#[derive(Clone, Copy, Debug, PartialEq, Eq, Structural)]
pub enum KeyRank {
    /// It comes before the other.
    Before,
    /// The two are the same key.
    Same,
    /// It comes after the other.
    After,
}

/// Places `a` relative to `b` in the order of keys.
pub fn rank_keys(a: &str, b: &str) -> (rank: KeyRank)
    ensures
        (rank == KeyRank::Before) == key_before(a@, b@),
        (rank == KeyRank::Same) == (a@ == b@),
        (rank == KeyRank::After) == key_before(b@, a@),
{
    let x = a.as_bytes();
    let y = b.as_bytes();
    let n = x.len();
    let m = y.len();
    let mut i: usize = 0;
    while i < n && i < m && x[i] == y[i]
        invariant
            n == x@.len(),
            m == y@.len(),
            agree_upto(x@, y@, i as int),
        decreases n - i,
    {
        i += 1;
    }
    proof {
        if key_before(a@, b@) {
            lemma_key_before_asymmetric(a@, b@);
        }
        if key_before(b@, a@) {
            lemma_key_before_asymmetric(b@, a@);
        }
    }
    if i == n {
        if i == m {
            proof {
                assert(x@ =~= y@);
                lemma_key_bytes_injective(a@, b@);
            }
            KeyRank::Same
        } else {
            assert(parts_at(x@, y@, i as int));
            KeyRank::Before
        }
    } else if i == m {
        assert(parts_at(y@, x@, i as int));
        KeyRank::After
    } else if x[i] < y[i] {
        assert(parts_at(x@, y@, i as int));
        KeyRank::Before
    } else {
        assert(parts_at(y@, x@, i as int));
        KeyRank::After
    }
}

/// The first place in an ascending list at which `key` can stand without an
/// earlier key after it: every key to the left comes before `key`, none from
/// there on does.
pub(crate) fn lower_bound(keys: &Vec<String>, key: &str) -> (pos: usize)
    requires
        ascending(key_views(keys@)),
    ensures
        pos <= keys.len(),
        forall|i: int| 0 <= i < pos ==> key_before(#[trigger] keys[i]@, key@),
        forall|i: int| pos <= i < keys.len() ==> !key_before(#[trigger] keys[i]@, key@),
{
    let mut low: usize = 0;
    let mut high: usize = keys.len();
    while low < high
        invariant
            low <= high <= keys.len(),
            ascending(key_views(keys@)),
            forall|i: int| 0 <= i < low ==> key_before(#[trigger] keys[i]@, key@),
            forall|i: int| high <= i < keys.len() ==> !key_before(#[trigger] keys[i]@, key@),
        decreases high - low,
    {
        let mid = low + (high - low) / 2;
        let rank = rank_keys(keys[mid].as_str(), key);
        if rank == KeyRank::Before {
            proof {
                assert forall|i: int| 0 <= i < mid + 1 implies key_before(
                    #[trigger] keys[i]@,
                    key@,
                ) by {
                    if i < mid {
                        assert(key_views(keys@)[i] == keys[i]@);
                        assert(key_views(keys@)[mid as int] == keys[mid as int]@);
                        lemma_key_before_total(keys[i]@, key@);
                        if key_before(key@, keys[i]@) {
                            lemma_key_before_transitive(keys[mid as int]@, key@, keys[i]@);
                        }
                    }
                }
            }
            low = mid + 1;
        } else {
            proof {
                assert forall|i: int| mid <= i < keys.len() implies !key_before(
                    #[trigger] keys[i]@,
                    key@,
                ) by {
                    if mid < i && key_before(keys[i]@, key@) {
                        assert(key_views(keys@)[i] == keys[i]@);
                        assert(key_views(keys@)[mid as int] == keys[mid as int]@);
                        lemma_key_before_total(keys[mid as int]@, key@);
                        lemma_key_before_total(keys[mid as int]@, keys[i]@);
                        if key_before(keys[mid as int]@, keys[i]@) {
                            lemma_key_before_transitive(keys[mid as int]@, keys[i]@, key@);
                        }
                    }
                }
            }
            high = mid;
        }
    }
    low
}

/// A key put between the keys before it and the keys not before it, where it
/// is not there yet, keeps a strictly ascending list strictly ascending.
pub proof fn lemma_insert_keeps_strict(keys: Seq<Seq<char>>, pos: int, key: Seq<char>)
    requires
        strictly_ascending(keys),
        0 <= pos <= keys.len(),
        forall|i: int| 0 <= i < pos ==> key_before(#[trigger] keys[i], key),
        forall|i: int| pos <= i < keys.len() ==> !key_before(#[trigger] keys[i], key),
        pos < keys.len() ==> keys[pos] != key,
    ensures
        strictly_ascending(keys.insert(pos, key)),
        forall|i: int| pos <= i < keys.len() ==> key_before(key, #[trigger] keys[i]),
        !keys.contains(key),
{
    let grown = keys.insert(pos, key);
    assert forall|i: int| pos <= i < keys.len() implies key_before(key, #[trigger] keys[i]) by {
        lemma_key_before_total(key, keys[i]);
        if keys[i] == key {
            assert(key_before(keys[pos], keys[i]));
        }
    }
    assert forall|i: int, j: int| 0 <= i < j < grown.len() implies key_before(
        grown[i],
        grown[j],
    ) by {
        if i < pos && pos < j {
            lemma_key_before_transitive(keys[i], key, keys[j - 1]);
        }
    }
    if keys.contains(key) {
        lemma_key_before_irreflexive(key);
    }
}

/// Puts `key` into an ascending list at its place, behind the keys that come
/// before it; a key that is there already is there once more afterwards.
pub(crate) fn insert_sorted(keys: &mut Vec<String>, key: String)
    requires
        ascending(key_views(old(keys)@)),
    ensures
        ascending(key_views(final(keys)@)),
        key_views(final(keys)@).to_multiset() == key_views(old(keys)@).to_multiset().insert(key@),
{
    let pos = lower_bound(keys, key.as_str());
    let ghost before = key_views(keys@);
    let ghost added = key@;
    keys.insert(pos, key);
    proof {
        let after = key_views(keys@);
        assert(after =~= before.insert(pos as int, added));
        assert forall|i: int, j: int| 0 <= i < j < after.len() implies !key_before(
            after[j],
            after[i],
        ) by {
            if j == pos {
                lemma_key_before_asymmetric(before[i], added);
            } else if i == pos {
                assert(before[j - 1] == old(keys)[j - 1]@);
            }
        }
        assert(after.remove(pos as int) =~= before);
        vstd::seq_lib::to_multiset_remove(after, pos as int);
        after.to_multiset_ensures();
        assert(after.contains(added)) by {
            assert(after[pos as int] == added);
        }
    }
}

/// Puts `key` into a strictly ascending list at its place, unless it is there.
pub(crate) fn insert_unique(keys: &mut Vec<String>, key: String)
    requires
        strictly_ascending(key_views(old(keys)@)),
    ensures
        strictly_ascending(key_views(final(keys)@)),
        key_views(final(keys)@).to_set() == key_views(old(keys)@).to_set().insert(key@),
{
    let ghost before = key_views(keys@);
    let ghost added = key@;
    proof {
        lemma_strictly_ascending_is_ascending(before);
    }
    let pos = lower_bound(keys, key.as_str());
    if pos < keys.len() && rank_keys(keys[pos].as_str(), key.as_str()) == KeyRank::Same {
        proof {
            assert(before[pos as int] == added);
        }
    } else {
        proof {
            assert forall|i: int| 0 <= i < pos implies key_before(#[trigger] before[i], added) by {
                assert(before[i] == keys[i]@);
            }
            assert forall|i: int| pos <= i < before.len() implies !key_before(
                #[trigger] before[i],
                added,
            ) by {
                assert(before[i] == keys[i]@);
            }
            if pos < keys.len() {
                assert(before[pos as int] == keys[pos as int]@);
            }
            lemma_insert_keeps_strict(before, pos as int, added);
        }
        keys.insert(pos, key);
        proof {
            let after = key_views(keys@);
            assert(after =~= before.insert(pos as int, added));
            assert forall|k: Seq<char>| after.to_set().contains(k) <==> before.to_set().insert(
                added,
            ).contains(k) by {
                if after.contains(k) {
                    let i = after.index_of(k);
                    if i < pos {
                        assert(before[i] == k);
                    } else if i > pos {
                        assert(before[i - 1] == k);
                    }
                }
                if before.contains(k) {
                    let i = before.index_of(k);
                    if i < pos {
                        assert(after[i] == k);
                    } else {
                        assert(after[i + 1] == k);
                    }
                }
                if k == added {
                    assert(after[pos as int] == k);
                }
            }
        }
    }
}

} // verus!

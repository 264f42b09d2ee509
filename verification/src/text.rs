//! The order of strings: that of their UTF-8 bytes, read from the front.

use vstd::prelude::*;
use vstd::utf8::encode_utf8;

verus! {

/// Whether `a` and `b` agree below position `k`, and `b` goes on there
/// with a byte that `a` lacks or has smaller.
pub open spec fn parts_at(a: Seq<u8>, b: Seq<u8>, k: int) -> bool {
    &&& 0 <= k <= a.len()
    &&& k < b.len()
    &&& forall|j: int| 0 <= j < k ==> a[j] == b[j]
    &&& k < a.len() ==> a[k] < b[k]
}

/// The lexicographic order of byte strings: `a` comes before `b` when, at
/// the first position where they differ, `a` has ended or holds the
/// smaller byte.
pub open spec fn precedes(a: Seq<u8>, b: Seq<u8>) -> bool {
    exists|k: int| parts_at(a, b, k)
}

/// The order of texts, which is that of their UTF-8 encodings, and so
/// also that of their code points.
pub open spec fn text_precedes(a: Seq<char>, b: Seq<char>) -> bool {
    precedes(encode_utf8(a), encode_utf8(b))
}

/// No byte string comes before itself.
pub proof fn lemma_precedes_irreflexive(a: Seq<u8>)
    ensures
        !precedes(a, a),
{
    assert forall|k: int| !parts_at(a, a, k) by {}
}

/// Decides [`precedes`].
pub fn bytes_precede(a: &[u8], b: &[u8]) -> (r: bool)
    ensures
        r == precedes(a@, b@),
{
    let mut i: usize = 0;
    while i < a.len() && i < b.len()
        invariant
            i <= a.len(),
            i <= b.len(),
            forall|j: int| 0 <= j < i ==> a@[j] == b@[j],
        decreases a.len() - i,
    {
        if a[i] != b[i] {
            proof {
                if a@[i as int] < b@[i as int] {
                    assert(parts_at(a@, b@, i as int));
                } else {
                    assert forall|k: int| !parts_at(a@, b@, k) by {
                        if parts_at(a@, b@, k) && k > i {
                            assert(a@[i as int] == b@[i as int]);
                        }
                    }
                }
            }
            return a[i] < b[i];
        }
        i = i + 1;
    }
    proof {
        if a.len() < b.len() {
            assert(parts_at(a@, b@, i as int));
        } else {
            assert forall|k: int| !parts_at(a@, b@, k) by {}
        }
    }
    a.len() < b.len()
}

/// Decides [`text_precedes`], as `<` on strings does.
pub fn string_precedes(a: &String, b: &String) -> (r: bool)
    ensures
        r == text_precedes(a@, b@),
{
    bytes_precede(a.as_str().as_bytes(), b.as_str().as_bytes())
}

} // verus!

//! What holds of the pairwise rule and of the reduction built on it.

use crate::greatest::{fold_max, pick_max};
use crate::scalar::{Kind, Scalar};
use crate::text::lemma_precedes_irreflexive;
use vstd::prelude::*;
use vstd::utf8::encode_utf8;

verus! {

/// Whether every one of `values` holds a number of the kind `kind`.
pub open spec fn of_kind(values: Seq<Scalar>, kind: Kind) -> bool {
    forall|i: int| 0 <= i < values.len() ==> (#[trigger] values[i]).kind() == Some(kind)
}

/// Whether no two of `values` are confused with each other.
pub open spec fn unconfused(values: Seq<Scalar>) -> bool {
    forall|i: int, j: int|
        0 <= i < values.len() && 0 <= j < values.len() ==> !(#[trigger] values[i]).confused_with(
            #[trigger] values[j],
        )
}

/// Where there is no order between two values, the first is kept as it
/// is: where the variants differ, unless both hold numbers, and where a
/// payload is missing.
pub proof fn lemma_pick_max_keeps_first(current: Scalar, candidate: Scalar)
    requires
        !current.comparable_with(candidate),
    ensures
        pick_max(current, candidate) == current,
{
}

/// Two numbers give a number of the kind that joins theirs: of the wider
/// kind of the two, and of `Float64` for `Int64` with `Float32`.
pub proof fn lemma_pick_max_kind(current: Scalar, candidate: Scalar)
    requires
        current.kind() is Some,
        candidate.kind() is Some,
    ensures
        pick_max(current, candidate).kind() == Some(
            current.kind()->0.join(candidate.kind()->0),
        ),
{
}

/// A value compared with itself is kept as it is, whatever it holds.
pub proof fn lemma_pick_max_idempotent(x: Scalar)
    ensures
        pick_max(x, x) == x,
{
    match x {
        Scalar::Utf8(Some(a)) => {
            lemma_precedes_irreflexive(encode_utf8(a));
        },
        Scalar::Float32(Some(a)) => {
            a.lemma_greater_selects(a);
        },
        Scalar::Float64(Some(a)) => {
            a.lemma_greater_selects(a);
        },
        _ => {},
    }
}

/// Of two numbers of one kind, one is kept as it is.
pub proof fn lemma_pick_max_selects(a: Scalar, b: Scalar)
    requires
        a.kind() is Some,
        a.kind() == b.kind(),
    ensures
        pick_max(a, b) == a || pick_max(a, b) == b,
{
    match (a, b) {
        (Scalar::Float32(Some(x)), Scalar::Float32(Some(y))) => {
            x.lemma_greater_selects(y);
        },
        (Scalar::Float64(Some(x)), Scalar::Float64(Some(y))) => {
            x.lemma_greater_selects(y);
        },
        _ => {},
    }
}

/// Two numbers of one kind may change places, unless they are confused
/// with each other; then each order keeps another one of them.
pub proof fn lemma_pick_max_commutes(a: Scalar, b: Scalar)
    requires
        a.kind() is Some,
        a.kind() == b.kind(),
    ensures
        a.confused_with(b) <==> pick_max(a, b) != pick_max(b, a),
{
    match (a, b) {
        (Scalar::Float32(Some(x)), Scalar::Float32(Some(y))) => {
            x.lemma_greater_commutes(y);
        },
        (Scalar::Float64(Some(x)), Scalar::Float64(Some(y))) => {
            x.lemma_greater_commutes(y);
        },
        _ => {},
    }
}

/// Three numbers of one kind may be compared in either grouping.
pub proof fn lemma_pick_max_associates(a: Scalar, b: Scalar, c: Scalar)
    requires
        a.kind() is Some,
        a.kind() == b.kind(),
        b.kind() == c.kind(),
    ensures
        pick_max(pick_max(a, b), c) == pick_max(a, pick_max(b, c)),
{
    match (a, b, c) {
        (Scalar::Float32(Some(x)), Scalar::Float32(Some(y)), Scalar::Float32(Some(z))) => {
            x.lemma_greater_associates(y, z);
        },
        (Scalar::Float64(Some(x)), Scalar::Float64(Some(y)), Scalar::Float64(Some(z))) => {
            x.lemma_greater_associates(y, z);
        },
        _ => {},
    }
}

/// The greatest of numbers of one kind, none confused with another, is
/// one of them, and compared with any of them it is kept.
pub proof fn lemma_fold_max_absorbs(values: Seq<Scalar>, kind: Kind)
    requires
        values.len() > 0,
        of_kind(values, kind),
        unconfused(values),
    ensures
        values.contains(fold_max(values)),
        forall|i: int|
            0 <= i < values.len() ==> pick_max(fold_max(values), #[trigger] values[i]) == fold_max(
                values,
            ),
    decreases values.len(),
{
    let r = fold_max(values);
    if values.len() == 1 {
        lemma_pick_max_idempotent(values[0]);
        assert(values[0] == r);
    } else {
        let front = values.drop_last();
        let v = values.last();
        let r0 = fold_max(front);
        assert forall|i: int| 0 <= i < front.len() implies (#[trigger] front[i]).kind() == Some(
            kind,
        ) by {
            assert(front[i] == values[i]);
        }
        assert forall|i: int, j: int| 0 <= i < front.len() && 0 <= j < front.len() implies !(
        #[trigger] front[i]).confused_with(#[trigger] front[j]) by {
            assert(front[i] == values[i] && front[j] == values[j]);
        }
        lemma_fold_max_absorbs(front, kind);
        let k = choose|k: int| 0 <= k < front.len() && front[k] == r0;
        assert(values[k] == r0);
        lemma_pick_max_selects(r0, v);
        lemma_pick_max_idempotent(v);
        if r == r0 {
            assert forall|i: int| 0 <= i < values.len() implies pick_max(r, #[trigger] values[i])
                == r by {
                if i < front.len() {
                    assert(front[i] == values[i]);
                }
            }
        } else {
            assert(r == v);
            assert(values[values.len() - 1] == r);
            lemma_pick_max_commutes(r0, v);
            assert(!values[k].confused_with(values[values.len() - 1]));
            assert forall|i: int| 0 <= i < values.len() implies pick_max(r, #[trigger] values[i])
                == r by {
                if i < front.len() {
                    let y = values[i];
                    assert(front[i] == y);
                    lemma_pick_max_associates(v, r0, y);
                }
            }
        }
    }
}

/// The greatest of numbers of one kind does not depend on their order,
/// nor on how often each occurs, as long as none is confused with
/// another. Integers never are.
pub proof fn lemma_fold_max_order_free(first: Seq<Scalar>, second: Seq<Scalar>, kind: Kind)
    requires
        of_kind(first, kind),
        of_kind(second, kind),
        unconfused(first),
        forall|x: Scalar| first.contains(x) <==> second.contains(x),
    ensures
        fold_max(first) == fold_max(second),
{
    if first.len() == 0 {
        if second.len() > 0 {
            assert(second.contains(second[0]));
        }
    } else {
        assert(first.contains(first[0]));
        assert forall|i: int, j: int| 0 <= i < second.len() && 0 <= j < second.len() implies !(
        #[trigger] second[i]).confused_with(#[trigger] second[j]) by {
            assert(second.contains(second[i]) && second.contains(second[j]));
            let a = choose|a: int| 0 <= a < first.len() && first[a] == second[i];
            let b = choose|b: int| 0 <= b < first.len() && first[b] == second[j];
            assert(!first[a].confused_with(first[b]));
        }
        lemma_fold_max_absorbs(first, kind);
        lemma_fold_max_absorbs(second, kind);
        let r = fold_max(first);
        let s = fold_max(second);
        let i = choose|i: int| 0 <= i < first.len() && first[i] == r;
        assert(second.contains(r));
        let j = choose|j: int| 0 <= j < second.len() && second[j] == r;
        assert(pick_max(s, second[j]) == s);
        assert(first.contains(s));
        let k = choose|k: int| 0 <= k < first.len() && first[k] == s;
        assert(pick_max(r, first[k]) == r);
        assert(!first[i].confused_with(first[k]));
        lemma_pick_max_commutes(r, s);
    }
}

} // verus!

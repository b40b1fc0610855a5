//! What is asked of, and known about, functions that callers hand in.

use vstd::prelude::*;

verus! {

/// `f` takes every argument.
pub open spec fn total1<A, R, F: Fn(A) -> R>(f: F) -> bool {
    forall|a: A| #[trigger] call_requires(f, (a,))
}

/// `f` gives what `g` says.
pub open spec fn computes1<A, R, F: Fn(A) -> R>(f: F, g: spec_fn(A) -> R) -> bool {
    forall|a: A, r: R| #[trigger] call_ensures(f, (a,), r) ==> r == g(a)
}

/// `f` takes every argument.
pub open spec fn total2<A, B, R, F: Fn(A, B) -> R>(f: F) -> bool {
    forall|a: A, b: B| #[trigger] call_requires(f, (a, b))
}

/// `f` gives what `g` says.
pub open spec fn computes2<A, B, R, F: Fn(A, B) -> R>(f: F, g: spec_fn(A, B) -> R) -> bool {
    forall|a: A, b: B, r: R| #[trigger] call_ensures(f, (a, b), r) ==> r == g(a, b)
}

/// `f` takes every argument.
pub open spec fn total3<A, B, C, R, F: Fn(A, B, C) -> R>(f: F) -> bool {
    forall|a: A, b: B, c: C| #[trigger] call_requires(f, (a, b, c))
}

/// `f` gives what `g` says.
pub open spec fn computes3<A, B, C, R, F: Fn(A, B, C) -> R>(f: F, g: spec_fn(A, B, C) -> R) -> bool {
    forall|a: A, b: B, c: C, r: R| #[trigger] call_ensures(f, (a, b, c), r) ==> r == g(a, b, c)
}

/// `f` takes every argument.
pub open spec fn total4<A, B, C, D, R, F: Fn(A, B, C, D) -> R>(f: F) -> bool {
    forall|a: A, b: B, c: C, d: D| #[trigger] call_requires(f, (a, b, c, d))
}

/// `f` gives what `g` says.
pub open spec fn computes4<A, B, C, D, R, F: Fn(A, B, C, D) -> R>(f: F, g: spec_fn(A, B, C, D) -> R) -> bool {
    forall|a: A, b: B, c: C, d: D, r: R| #[trigger] call_ensures(f, (a, b, c, d), r) ==> r == g(a, b, c, d)
}

/// The first refusal in a list, if there is one.
pub open spec fn first_refusal<A, E>(
    list: Seq<A>,
    refusal: spec_fn(A) -> Option<E>,
) -> Option<E>
    decreases list.len(),
{
    if list.len() == 0 {
        None
    } else {
        match refusal(list[0]) {
            Some(e) => Some(e),
            None => first_refusal(list.drop_first(), refusal),
        }
    }
}

/// The first refusal is that of the first refused item.
pub proof fn lemma_first_refusal<A, E>(
    list: Seq<A>,
    refusal: spec_fn(A) -> Option<E>,
    i: int,
)
    requires
        0 <= i <= list.len(),
        forall|j: int| 0 <= j < i ==> refusal(#[trigger] list[j]) is None,
        i < list.len() ==> refusal(list[i]) is Some,
    ensures
        first_refusal(list, refusal) == if i < list.len() {
            refusal(list[i])
        } else {
            None
        },
    decreases i,
{
    if i > 0 {
        let rest = list.drop_first();
        assert forall|j: int| 0 <= j < i - 1 implies refusal(#[trigger] rest[j]) is None by {
            assert(rest[j] == list[j + 1]);
        }
        assert(refusal(list[0]) is None);
        if i < list.len() {
            assert(rest[i - 1] == list[i]);
        }
        lemma_first_refusal(rest, refusal, i - 1);
    }
}

} // verus!

//! Measurements that the host answers: each is a function of its argument.

use vstd::prelude::*;

verus! {

/// `f` answers every question.
pub open spec fn is_total<A, B, F: Fn(A) -> B>(f: F) -> bool {
    forall|a: A| #[trigger] f.requires((a,))
}

/// `f` answers every question, and the same question always the same way.
pub open spec fn is_steady<A, B, F: Fn(A) -> B>(f: F) -> bool {
    &&& is_total(f)
    &&& forall|a: A, b: B, c: B| #[trigger]
        f.ensures((a,), b) && #[trigger] f.ensures((a,), c) ==> b == c
}

/// What a steady `f` answers to `a`.
pub open spec fn answer<A, B, F: Fn(A) -> B>(f: F, a: A) -> B {
    choose|b: B| f.ensures((a,), b)
}

/// The answers of a steady `f`, as a function.
pub open spec fn answering<A, B, F: Fn(A) -> B>(f: F) -> spec_fn(A) -> B {
    |a: A| answer(f, a)
}

} // verus!

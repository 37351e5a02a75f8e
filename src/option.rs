use vstd::prelude::*;

verus! {

/// What a nested option collapses to: absent when either layer is absent.
pub open spec fn flat<T>(o: Option<Option<T>>) -> Option<T> {
    match o {
        Some(inner) => inner,
        None => None,
    }
}

/// Collapses an optional-of-optional value into a single optional.
pub fn flatten<T>(origin: Option<Option<T>>) -> (r: Option<T>)
    ensures
        r == flat(origin),
        r is Some <==> (origin is Some && origin->0 is Some),
{
    match origin {
        Some(v) => v,
        None => None,
    }
}

} // verus!

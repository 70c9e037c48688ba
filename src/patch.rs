//! Partial updates of configuration: a patch holds, per field, either a new
//! value or nothing.
use vstd::prelude::*;

verus! {

/// Takes the patch's value for a field when it has one, else keeps the field.
pub fn overlay<T>(field: &mut T, patch: Option<T>)
    ensures
        match patch {
            Some(v) => *final(field) == v,
            None => *final(field) == *old(field),
        },
{
    if let Some(v) = patch {
        *field = v;
    }
}

} // verus!

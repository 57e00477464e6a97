//! Mapping the payload of an `Option` or `Result` into another type.

use vstd::prelude::*;

verus! {

/// Converts the carried value of a container with `From`, keeping the
/// container's shape.
pub trait MapInto<U> {
    type Target;

    fn map_into(self) -> Self::Target;
}

impl<T, U: From<T>> MapInto<U> for Option<T> {
    type Target = Option<U>;

    fn map_into(self) -> Option<U> {
        match self {
            Some(x) => Some(U::from(x)),
            None => None,
        }
    }
}

impl<T, E, U: From<T>> MapInto<U> for Result<T, E> {
    type Target = Result<U, E>;

    fn map_into(self) -> Result<U, E> {
        match self {
            Ok(x) => Ok(U::from(x)),
            Err(e) => Err(e),
        }
    }
}

} // verus!

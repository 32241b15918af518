//! Taking the value out of a result that is known to hold one.
use vstd::prelude::*;

verus! {

pub trait UnwrapPrint<T>: Sized {
    /// Whether there is a value to take.
    spec fn holds_value(&self) -> bool;

    /// Whether `value` is the value held.
    spec fn holds(&self, value: T) -> bool;

    fn unwrap_print(self) -> (r: T)
        requires
            self.holds_value(),
        ensures
            self.holds(r),
    ;
}

impl<T, E> UnwrapPrint<T> for Result<T, E> {
    open spec fn holds_value(&self) -> bool {
        self is Ok
    }

    open spec fn holds(&self, value: T) -> bool {
        *self == Ok::<T, E>(value)
    }

    fn unwrap_print(self) -> (r: T) {
        match self {
            Ok(value) => value,
            Err(_) => {
                proof {
                    assert(false);
                }
                unreached()
            },
        }
    }
}

} // verus!

//! A chainable validator for the primitive integers: bound and equality
//! checks, failing with the first violated rule.

use vstd::prelude::*;

verus! {

/// An integer type the validator can compare, with its mathematical
/// value and comparisons that follow it.
pub trait Num: Sized + Copy {
    spec fn as_int(&self) -> int;

    fn num_gt(self, other: Self) -> (r: bool)
        ensures
            r == (self.as_int() > other.as_int()),
    ;

    fn num_lt(self, other: Self) -> (r: bool)
        ensures
            r == (self.as_int() < other.as_int()),
    ;

    fn num_ne(self, other: Self) -> (r: bool)
        ensures
            r == (self.as_int() != other.as_int()),
    ;
}

/// Why a number was rejected; each variant carries the offending value
/// and the bound it was held against.
#[derive(Debug)]
pub enum Error<T: Num> {
    MoreThan(T, T),
    LessThan(T, T),
    NotEqual(T, T),
}

/// A number with the validation verdict so far: the value while every
/// rule held, or the first failure.
pub struct NumberValidator<T: Num>(Result<T, Error<T>>);

impl<T: Num> NumberValidator<T> {
    /// The verdict carried so far.
    pub closed spec fn inner(&self) -> Result<T, Error<T>> {
        self.0
    }

    pub fn new(x: T) -> (r: Self)
        ensures
            r.inner() == Result::<T, Error<T>>::Ok(x),
    {
        NumberValidator(Ok(x))
    }

    pub fn take(self) -> (r: Result<T, Error<T>>)
        ensures
            r == self.inner(),
    {
        self.0
    }

    /// Rejects a value above `n`.
    pub fn max(self, n: T) -> (r: Self)
        ensures
            r.inner() == match self.inner() {
                Result::<T, Error<T>>::Ok(x) => if x.as_int() > n.as_int() {
                    Result::<T, Error<T>>::Err(Error::MoreThan(x, n))
                } else {
                    self.inner()
                },
                Result::<T, Error<T>>::Err(_) => self.inner(),
            },
    {
        match self.0 {
            Ok(x) => {
                if x.num_gt(n) {
                    NumberValidator(Err(Error::MoreThan(x, n)))
                } else {
                    NumberValidator(Ok(x))
                }
            },
            Err(e) => NumberValidator(Err(e)),
        }
    }

    /// Rejects a value below `n`.
    pub fn min(self, n: T) -> (r: Self)
        ensures
            r.inner() == match self.inner() {
                Result::<T, Error<T>>::Ok(x) => if x.as_int() < n.as_int() {
                    Result::<T, Error<T>>::Err(Error::LessThan(x, n))
                } else {
                    self.inner()
                },
                Result::<T, Error<T>>::Err(_) => self.inner(),
            },
    {
        match self.0 {
            Ok(x) => {
                if x.num_lt(n) {
                    NumberValidator(Err(Error::LessThan(x, n)))
                } else {
                    NumberValidator(Ok(x))
                }
            },
            Err(e) => NumberValidator(Err(e)),
        }
    }

    /// Rejects a value different from `n`.
    pub fn eq(self, n: T) -> (r: Self)
        ensures
            r.inner() == match self.inner() {
                Result::<T, Error<T>>::Ok(x) => if x.as_int() != n.as_int() {
                    Result::<T, Error<T>>::Err(Error::NotEqual(x, n))
                } else {
                    self.inner()
                },
                Result::<T, Error<T>>::Err(_) => self.inner(),
            },
    {
        match self.0 {
            Ok(x) => {
                if x.num_ne(n) {
                    NumberValidator(Err(Error::NotEqual(x, n)))
                } else {
                    NumberValidator(Ok(x))
                }
            },
            Err(e) => NumberValidator(Err(e)),
        }
    }
}

/// Starts validation of a number.
pub trait ValidatorNumberExt: Num {
    fn validate(self) -> NumberValidator<Self>;
}

impl Num for u8 {
    open spec fn as_int(&self) -> int {
        *self as int
    }

    fn num_gt(self, other: Self) -> bool {
        self > other
    }

    fn num_lt(self, other: Self) -> bool {
        self < other
    }

    fn num_ne(self, other: Self) -> bool {
        self != other
    }
}

impl Num for u16 {
    open spec fn as_int(&self) -> int {
        *self as int
    }

    fn num_gt(self, other: Self) -> bool {
        self > other
    }

    fn num_lt(self, other: Self) -> bool {
        self < other
    }

    fn num_ne(self, other: Self) -> bool {
        self != other
    }
}

impl Num for u32 {
    open spec fn as_int(&self) -> int {
        *self as int
    }

    fn num_gt(self, other: Self) -> bool {
        self > other
    }

    fn num_lt(self, other: Self) -> bool {
        self < other
    }

    fn num_ne(self, other: Self) -> bool {
        self != other
    }
}

impl Num for u64 {
    open spec fn as_int(&self) -> int {
        *self as int
    }

    fn num_gt(self, other: Self) -> bool {
        self > other
    }

    fn num_lt(self, other: Self) -> bool {
        self < other
    }

    fn num_ne(self, other: Self) -> bool {
        self != other
    }
}

impl Num for u128 {
    open spec fn as_int(&self) -> int {
        *self as int
    }

    fn num_gt(self, other: Self) -> bool {
        self > other
    }

    fn num_lt(self, other: Self) -> bool {
        self < other
    }

    fn num_ne(self, other: Self) -> bool {
        self != other
    }
}

impl Num for usize {
    open spec fn as_int(&self) -> int {
        *self as int
    }

    fn num_gt(self, other: Self) -> bool {
        self > other
    }

    fn num_lt(self, other: Self) -> bool {
        self < other
    }

    fn num_ne(self, other: Self) -> bool {
        self != other
    }
}

impl Num for i8 {
    open spec fn as_int(&self) -> int {
        *self as int
    }

    fn num_gt(self, other: Self) -> bool {
        self > other
    }

    fn num_lt(self, other: Self) -> bool {
        self < other
    }

    fn num_ne(self, other: Self) -> bool {
        self != other
    }
}

impl Num for i16 {
    open spec fn as_int(&self) -> int {
        *self as int
    }

    fn num_gt(self, other: Self) -> bool {
        self > other
    }

    fn num_lt(self, other: Self) -> bool {
        self < other
    }

    fn num_ne(self, other: Self) -> bool {
        self != other
    }
}

impl Num for i32 {
    open spec fn as_int(&self) -> int {
        *self as int
    }

    fn num_gt(self, other: Self) -> bool {
        self > other
    }

    fn num_lt(self, other: Self) -> bool {
        self < other
    }

    fn num_ne(self, other: Self) -> bool {
        self != other
    }
}

impl Num for i64 {
    open spec fn as_int(&self) -> int {
        *self as int
    }

    fn num_gt(self, other: Self) -> bool {
        self > other
    }

    fn num_lt(self, other: Self) -> bool {
        self < other
    }

    fn num_ne(self, other: Self) -> bool {
        self != other
    }
}

impl Num for i128 {
    open spec fn as_int(&self) -> int {
        *self as int
    }

    fn num_gt(self, other: Self) -> bool {
        self > other
    }

    fn num_lt(self, other: Self) -> bool {
        self < other
    }

    fn num_ne(self, other: Self) -> bool {
        self != other
    }
}

impl Num for isize {
    open spec fn as_int(&self) -> int {
        *self as int
    }

    fn num_gt(self, other: Self) -> bool {
        self > other
    }

    fn num_lt(self, other: Self) -> bool {
        self < other
    }

    fn num_ne(self, other: Self) -> bool {
        self != other
    }
}

impl ValidatorNumberExt for u8 {
    fn validate(self) -> NumberValidator<Self> {
        NumberValidator::new(self)
    }
}

impl ValidatorNumberExt for u16 {
    fn validate(self) -> NumberValidator<Self> {
        NumberValidator::new(self)
    }
}

impl ValidatorNumberExt for u32 {
    fn validate(self) -> NumberValidator<Self> {
        NumberValidator::new(self)
    }
}

impl ValidatorNumberExt for u64 {
    fn validate(self) -> NumberValidator<Self> {
        NumberValidator::new(self)
    }
}

impl ValidatorNumberExt for u128 {
    fn validate(self) -> NumberValidator<Self> {
        NumberValidator::new(self)
    }
}

impl ValidatorNumberExt for usize {
    fn validate(self) -> NumberValidator<Self> {
        NumberValidator::new(self)
    }
}

impl ValidatorNumberExt for i8 {
    fn validate(self) -> NumberValidator<Self> {
        NumberValidator::new(self)
    }
}

impl ValidatorNumberExt for i16 {
    fn validate(self) -> NumberValidator<Self> {
        NumberValidator::new(self)
    }
}

impl ValidatorNumberExt for i32 {
    fn validate(self) -> NumberValidator<Self> {
        NumberValidator::new(self)
    }
}

impl ValidatorNumberExt for i64 {
    fn validate(self) -> NumberValidator<Self> {
        NumberValidator::new(self)
    }
}

impl ValidatorNumberExt for i128 {
    fn validate(self) -> NumberValidator<Self> {
        NumberValidator::new(self)
    }
}

impl ValidatorNumberExt for isize {
    fn validate(self) -> NumberValidator<Self> {
        NumberValidator::new(self)
    }
}

} // verus!

//! A chainable validator for strings: length bounds and an email shape
//! check, failing with the first violated rule.

use vstd::prelude::*;

use crate::text::find_char_from;

verus! {

/// Why a string was rejected; each variant carries the offending string
/// and, for the bounds, the violated limit.
#[derive(Debug)]
pub enum Error {
    MoreThan(String, usize),
    LessThan(String, usize),
    NotEmail(String),
}

/// Whether `s` has the accepted email shape: a first `@` with at least
/// one character before it and a nonempty fragment after it.
pub open spec fn is_email(s: Seq<char>) -> bool {
    exists|i: int|
        {
            &&& 0 < i < s.len()
            &&& #[trigger] s[i] == '@'
            &&& forall|j: int| 0 <= j < i ==> s[j] != '@'
            &&& i + 1 < s.len()
            &&& s[i + 1] != '@'
        }
}

/// A string with the validation verdict so far: the string while every
/// rule held, or the first failure.
pub struct StringValidator(Result<String, Error>);

impl StringValidator {
    /// The verdict carried so far.
    pub closed spec fn inner(&self) -> Result<String, Error> {
        self.0
    }

    pub fn new(x: String) -> (r: Self)
        ensures
            r.inner() == Result::<String, Error>::Ok(x),
    {
        StringValidator(Ok(x))
    }

    pub fn take(self) -> (r: Result<String, Error>)
        ensures
            r == self.inner(),
    {
        self.0
    }

    /// Rejects a string of more than `n` characters.
    pub fn max(self, n: usize) -> (r: Self)
        ensures
            r.inner() == match self.inner() {
                Result::<String, Error>::Ok(x) => if x@.len() > n {
                    Result::<String, Error>::Err(Error::MoreThan(x, n))
                } else {
                    self.inner()
                },
                Result::<String, Error>::Err(_) => self.inner(),
            },
    {
        match self.0 {
            Ok(x) => {
                if x.as_str().unicode_len() > n {
                    StringValidator(Err(Error::MoreThan(x, n)))
                } else {
                    StringValidator(Ok(x))
                }
            },
            Err(e) => StringValidator(Err(e)),
        }
    }

    /// Rejects a string of fewer than `n` characters.
    pub fn min(self, n: usize) -> (r: Self)
        ensures
            r.inner() == match self.inner() {
                Result::<String, Error>::Ok(x) => if x@.len() < n {
                    Result::<String, Error>::Err(Error::LessThan(x, n))
                } else {
                    self.inner()
                },
                Result::<String, Error>::Err(_) => self.inner(),
            },
    {
        match self.0 {
            Ok(x) => {
                if x.as_str().unicode_len() < n {
                    StringValidator(Err(Error::LessThan(x, n)))
                } else {
                    StringValidator(Ok(x))
                }
            },
            Err(e) => StringValidator(Err(e)),
        }
    }

    /// Rejects a string without the accepted email shape.
    pub fn email(self) -> (r: Self)
        ensures
            r.inner() == match self.inner() {
                Result::<String, Error>::Ok(x) => if !is_email(x@) {
                    Result::<String, Error>::Err(Error::NotEmail(x))
                } else {
                    self.inner()
                },
                Result::<String, Error>::Err(_) => self.inner(),
            },
    {
        match self.0 {
            Ok(x) => {
                let ok = {
                    let n = x.as_str().unicode_len();
                    let found = find_char_from(x.as_str(), 0, '@');
                    match found {
                        Some(i) => {
                            if i > 0 && i + 1 < n {
                                let next = x.as_str().get_char(i + 1);
                                next != '@'
                            } else {
                                false
                            }
                        },
                        None => false,
                    }
                };
                proof {
                    if ok {
                        assert(is_email(x@));
                    } else {
                        if is_email(x@) {
                            let i = choose|i: int|
                                {
                                    &&& 0 < i < x@.len()
                                    &&& #[trigger] x@[i] == '@'
                                    &&& forall|j: int| 0 <= j < i ==> x@[j] != '@'
                                    &&& i + 1 < x@.len()
                                    &&& x@[i + 1] != '@'
                                };
                            assert(false);
                        }
                    }
                }
                if ok {
                    StringValidator(Ok(x))
                } else {
                    StringValidator(Err(Error::NotEmail(x)))
                }
            },
            Err(e) => StringValidator(Err(e)),
        }
    }
}

/// Starts validation of an owned or borrowed string.
pub trait ValidatorStringExt {
    fn validate(self) -> StringValidator;
}

impl ValidatorStringExt for String {
    fn validate(self) -> StringValidator {
        StringValidator::new(self)
    }
}

impl ValidatorStringExt for &str {
    fn validate(self) -> StringValidator {
        StringValidator::new(String::from_str(self))
    }
}

} // verus!

//! Chainable validators for strings and numbers.

pub mod number;
pub mod string;

pub use number::Num;
pub use number::NumberValidator;
pub use number::ValidatorNumberExt;
pub use string::StringValidator;
pub use string::ValidatorStringExt;

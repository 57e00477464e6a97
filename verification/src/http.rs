//! HTTP header utilities: cookie parsing and the Set-Cookie store.

pub mod cookie;
pub mod headers;
pub mod kv;
pub mod multipart;
pub mod set_cookie;

pub use cookie::Cookie;
pub use multipart::Multipart;
pub use set_cookie::SetCookie;
pub use set_cookie::SetCookieOptions;

//! OAuth 1.0a request signing: percent-encoding, the signature base string,
//! the HMAC-SHA1 signature and the `Authorization` header value.

pub mod auth;
pub mod base;
pub mod order;
pub mod percent;
pub mod sign;

pub use auth::{auth_header, auth_params, authorize, authorize_at, try_authorize, Token};
pub use base::signature_base;
pub use percent::{encode, encode_to};
pub use sign::{sign, signature_value, try_sign};

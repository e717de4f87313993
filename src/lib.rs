//! Owned, byte-exact access to the environment list of a PAM session.
//!
//! The native side hands out a null-terminated array of `NAME=VALUE`
//! strings. The caller reads the entries out of native memory, this library
//! turns them into an ordered list of name/value pairs and says in which
//! order the native memory is to be released.

pub mod env;
pub mod release;

//! The settings shared by the grabber and the servers.
use crate::encryption::encrypts;
use vstd::prelude::*;
use vstd::utf8::encode_utf8;

verus! {

/// The shared secret of the grabber and the servers.
pub struct SecurityConfig {
    /// Encrypts the traffic when not empty; the empty password sends it as
    /// it is.
    pub password: String,
}

impl SecurityConfig {
    /// Whether traffic is encrypted.
    pub fn should_be_encrypted(&self) -> (b: bool)
        ensures
            b == encrypts(self.password@),
    {
        !self.password.as_str().is_empty()
    }

    /// Whether a server runs with this password: either none, which turns
    /// encryption off, or one of at least 12 bytes.
    pub fn is_acceptable_for_server(&self) -> (b: bool)
        ensures
            b == (self.password@.len() == 0 || encode_utf8(self.password@).len() >= 12),
    {
        let p = self.password.as_str();
        p.is_empty() || p.as_bytes().len() >= 12
    }
}

} // verus!

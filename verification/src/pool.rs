//! Trusted boundary to the object pools of the `lifeguard` crate and to
//! std's UTF-8 validation.
//!
//! Pooling is a pure performance device here: a string acquired from a pool
//! is indistinguishable from a fresh one, and releasing a string only hands
//! its storage back. The contracts below say exactly that much.
use vstd::prelude::*;
use vstd::string::StringSliceAdditionalSpecFns;
use vstd::utf8::*;

verus! {

/// A bounded reservoir of reusable string storage, backed by
/// `lifeguard::Pool`. Nothing about its contents is observable through this
/// library's behaviour, so the whole struct is kept opaque.
#[verifier::external_body]
pub struct StringPool {
    pool: lifeguard::Pool<String>,
}

impl StringPool {
    /// Relies on lifeguard's `Pool::with_size_and_max`: builds a pool that
    /// keeps `starting_size` entries warm and retains at most `max_size`
    /// released ones.
    #[verifier::external_body]
    pub fn with_size_and_max(starting_size: usize, max_size: usize) -> StringPool {
        StringPool { pool: lifeguard::Pool::with_size_and_max(starting_size, max_size) }
    }

    /// Relies on lifeguard's `Pool::new_from` and `Recycled::detach`: the
    /// string handed out is a pooled (or fresh) buffer holding exactly the
    /// source text, since pooled strings are cleared by `String::reset`
    /// before reuse.
    #[verifier::external_body]
    pub fn string_from(&self, source: &str) -> (r: String)
        ensures
            r@ == source@,
    {
        self.pool.new_from(source).detach()
    }

    /// Relies on lifeguard's `Pool::attach`: the string's storage returns to
    /// the pool (or is dropped when the pool is full). Nothing observable
    /// follows.
    #[verifier::external_body]
    pub fn attach(&self, value: String) {
        self.pool.attach(value);
    }
}

/// Relies on std's `str::from_utf8`: it returns `Ok` exactly on valid UTF-8
/// input, and the returned slice views the same bytes. vstd models the same
/// correspondence for `str::from_utf8_unchecked`.
#[verifier::external_body]
pub(crate) fn utf8_from(v: &Vec<u8>) -> (r: Option<&str>)
    ensures
        r is Some <==> valid_utf8(v@),
        r matches Some(s) ==> s.spec_bytes() == v@,
{
    core::str::from_utf8(v.as_slice()).ok()
}

} // verus!

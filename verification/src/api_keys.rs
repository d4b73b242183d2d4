//! The keys that clients authenticate with.

use vstd::prelude::*;
use vstd::string::StringExecFns;
use sha2::Digest;

verus! {

/// The SHA-256 digest of the UTF-8 bytes of `text`, written as 64 lower-case
/// hexadecimal digits.
pub uninterp spec fn sha256_hex(text: Seq<char>) -> Seq<char>;

/// `sha2::Sha256::digest` is the SHA-256 digest of the bytes it is given; the
/// digest's `LowerHex` writes each byte as two lower-case hexadecimal digits.
/// The text that results depends on `text` alone.
#[verifier::external_body]
fn sha256_hex_digest(text: &str) -> (digest: String)
    ensures
        digest@ == sha256_hex(text@),
{
    format!("{:x}", sha2::Sha256::digest(text.as_bytes()))
}

/// The keys of a server: the master key, if one was set, and the two keys
/// that clients are given.
#[derive(Clone, Debug, PartialEq, Eq)]
pub struct ApiKeys {
    pub public: Option<String>,
    pub private: Option<String>,
    pub master: Option<String>,
}

/// The characters of a key, if there is one.
pub open spec fn key_view(key: Option<String>) -> Option<Seq<char>> {
    match key {
        Some(k) => Some(k@),
        None => None,
    }
}

/// `key` if there is one, else `derived`.
pub open spec fn or_derived(key: Option<String>, derived: Seq<char>) -> Option<Seq<char>> {
    match key {
        Some(k) => Some(k@),
        None => Some(derived),
    }
}

/// The text that the private key is the digest of.
pub open spec fn private_seed(master: Seq<char>) -> Seq<char> {
    master + "-private"@
}

/// The text that the public key is the digest of.
pub open spec fn public_seed(master: Seq<char>) -> Seq<char> {
    master + "-public"@
}

impl ApiKeys {
    /// Sets each missing client key to the key derived for it, where a master
    /// key was set. Keys that are set stay; without a master key nothing
    /// changes.
    pub fn fill_missing_keys(&mut self, private: String, public: String)
        ensures
            key_view(final(self).master) == key_view(old(self).master),
            old(self).master is Some ==> key_view(final(self).private) == or_derived(
                old(self).private,
                private@,
            ) && key_view(final(self).public) == or_derived(old(self).public, public@),
            old(self).master is None ==> key_view(final(self).private) == key_view(
                old(self).private,
            ) && key_view(final(self).public) == key_view(old(self).public),
    {
        if self.master.is_some() {
            if self.private.is_none() {
                self.private = Some(private);
            }
            if self.public.is_none() {
                self.public = Some(public);
            }
        }
    }

    /// Derives the client keys that are missing from the master key: the
    /// private key is the SHA-256 digest of the master key followed by
    /// `-private`, the public key that of the master key followed by `-public`,
    /// each in hexadecimal. Keys that are set stay; without a master key nothing
    /// changes.
    pub fn generate_missing_api_keys(&mut self)
        ensures
            key_view(final(self).master) == key_view(old(self).master),
            old(self).master matches Some(master) ==> key_view(final(self).private) == or_derived(
                old(self).private,
                sha256_hex(private_seed(master@)),
            ) && key_view(final(self).public) == or_derived(
                old(self).public,
                sha256_hex(public_seed(master@)),
            ),
            old(self).master is None ==> key_view(final(self).private) == key_view(
                old(self).private,
            ) && key_view(final(self).public) == key_view(old(self).public),
    {
        let derived = match &self.master {
            Some(master) => {
                let mut private_seed = master.clone();
                private_seed.append("-private");
                let mut public_seed = master.clone();
                public_seed.append("-public");
                Some(
                    (
                        sha256_hex_digest(private_seed.as_str()),
                        sha256_hex_digest(public_seed.as_str()),
                    ),
                )
            },
            None => None,
        };
        if let Some((private, public)) = derived {
            self.fill_missing_keys(private, public);
        }
    }
}

} // verus!

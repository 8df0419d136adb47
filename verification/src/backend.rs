//! Decisions of the external-storage backend configuration.
//!
//! The storage client itself (HTTP, signing, transfer) lives outside
//! the core; what is decided here is which connection plan a
//! configuration yields — or why it is rejected — and how object keys
//! are namespaced under the configured prefix.

use vstd::prelude::*;

verus! {

/// The settings of an S3-style storage backend, as plain values.
pub struct StorageConfig {
    pub region: Vec<u8>,
    pub endpoint: Vec<u8>,
    pub bucket: Vec<u8>,
    pub prefix: Vec<u8>,
    pub access_key: Vec<u8>,
    pub secret_access_key: Vec<u8>,
}

/// Why a storage configuration is rejected.
#[derive(Clone, Copy, PartialEq, Eq, Structural, Debug)]
pub enum StorageConfigError {
    /// No bucket name was given.
    MissingBucket,
    /// No custom endpoint is set and the region name is not one the
    /// boundary's region resolver knows (an empty name never is), so
    /// no server can be addressed.
    UnknownRegion,
}

/// How the backend client is to be built from an accepted
/// configuration.
#[derive(Clone, Copy, PartialEq, Eq, Structural, Debug)]
pub struct StoragePlan {
    /// A custom endpoint overrides region-based addressing.
    pub custom_endpoint: bool,
    /// Credentials were given inline; otherwise the provider chain of
    /// the environment decides.
    pub static_credentials: bool,
}

impl StorageConfig {
    /// The configuration names no bucket.
    pub open spec fn spec_missing_bucket(self) -> bool {
        self.bucket@.len() == 0
    }

    /// The configuration can address no server: no custom endpoint,
    /// and the region name — by the resolver's verdict — is unusable.
    pub open spec fn spec_unknown_region(self, region_known: bool) -> bool {
        self.endpoint@.len() == 0 && (!region_known || self.region@.len() == 0)
    }

    /// Decides how a backend client is built from this configuration.
    ///
    /// Whether a non-empty region name denotes a real region is the
    /// business of the S3 client's region list at the boundary;
    /// `region_known` is that resolver's verdict for `self.region`
    /// (an empty name is rejected regardless of the verdict).  A
    /// configuration without a bucket is rejected first; one with
    /// neither a custom endpoint nor a usable region is rejected;
    /// otherwise a custom endpoint takes precedence over region-based
    /// addressing, and inline credentials take precedence over the
    /// environment's provider chain exactly when both keys are
    /// present.
    pub fn plan(&self, region_known: bool) -> (r: Result<StoragePlan, StorageConfigError>)
        ensures
            match r {
                Ok(p) => {
                    &&& !self.spec_missing_bucket()
                    &&& !self.spec_unknown_region(region_known)
                    &&& p.custom_endpoint == (self.endpoint@.len() > 0)
                    &&& p.static_credentials == (self.access_key@.len() > 0
                        && self.secret_access_key@.len() > 0)
                },
                Err(e) => {
                    &&& (self.spec_missing_bucket() || self.spec_unknown_region(region_known))
                    &&& e == (if self.spec_missing_bucket() {
                        StorageConfigError::MissingBucket
                    } else {
                        StorageConfigError::UnknownRegion
                    })
                },
            },
    {
        if self.bucket.len() == 0 {
            return Err(StorageConfigError::MissingBucket);
        }
        if self.endpoint.len() == 0 && (!region_known || self.region.len() == 0) {
            return Err(StorageConfigError::UnknownRegion);
        }
        Ok(
            StoragePlan {
                custom_endpoint: self.endpoint.len() > 0,
                static_credentials: self.access_key.len() > 0
                    && self.secret_access_key.len() > 0,
            },
        )
    }

    /// The object key under this configuration's prefix: unchanged
    /// when no prefix is set, else `prefix`, a slash (byte 47), and
    /// the key.
    pub fn maybe_prefix_key(&self, key: &Vec<u8>) -> (r: Vec<u8>)
        ensures
            self.prefix@.len() == 0 ==> r@ == key@,
            self.prefix@.len() > 0 ==> r@ == self.prefix@ + seq![47u8] + key@,
    {
        if self.prefix.len() == 0 {
            return key.clone();
        }
        let mut r = self.prefix.clone();
        r.push(47u8);
        let n = key.len();
        let mut i: usize = 0;
        proof {
            assert(r@ =~= self.prefix@ + seq![47u8] + key@.take(0));
        }
        while i < n
            invariant
                n == key@.len(),
                i <= n,
                r@ == self.prefix@ + seq![47u8] + key@.take(i as int),
            decreases n - i,
        {
            r.push(key[i]);
            proof {
                assert(r@ =~= self.prefix@ + seq![47u8] + key@.take(i as int + 1));
            }
            i = i + 1;
        }
        proof {
            assert(key@.take(n as int) =~= key@);
        }
        r
    }
}

} // verus!

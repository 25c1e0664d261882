//! Service receipts and their verification.
//!
//! A receipt is a bilateral, signed attestation of storage service.  Its
//! hash is the BLAKE3 digest of a canonical byte string over its content
//! fields, so any party can recompute and check it off-line.

use vstd::prelude::*;
use vstd::string::StrSliceExecFns;
use vstd::utf8::encode_utf8;
use crate::codec::{enc_u64, write_u64};
use crate::crypto::{blake3_digest, blake3_of};
use crate::errors::EngineError;
use crate::metrics::StorageMetrics;

verus! {

/// A cryptographically checkable receipt for storage services rendered by a
/// node to a client over a service period.
#[derive(Debug)]
pub struct StorageReceipt {
    /// Storage node that provided the service.
    pub node_id: String,
    /// Client that received the service.
    pub client_id: String,
    /// Service period as (start, end) timestamps, seconds since the epoch.
    pub service_period: (u64, u64),
    /// Metrics of the service rendered.
    pub storage_metrics: StorageMetrics,
    /// Deterministic content hash over the fields above.
    pub receipt_hash: [u8; 32],
    /// The client's signature attesting to the service.
    pub client_signature: Vec<u8>,
    /// The node's signature affirming delivery.
    pub node_signature: Vec<u8>,
}

impl StorageReceipt {
    /// A receipt is well formed when its period does not run backwards and
    /// its metrics are canonical.
    pub open spec fn wf(&self) -> bool {
        &&& self.service_period.0 <= self.service_period.1
        &&& self.storage_metrics.wf()
    }

    /// The canonical byte string the receipt hash is computed over: both
    /// identities as raw UTF-8, the period bounds little endian, then the
    /// canonical metrics encoding.
    pub open spec fn hash_preimage(&self) -> Seq<u8> {
        encode_utf8(self.node_id@) + encode_utf8(self.client_id@)
            + enc_u64(self.service_period.0) + enc_u64(self.service_period.1)
            + self.storage_metrics.canonical_enc()
    }

    /// The hash field carries the BLAKE3 digest of the canonical encoding.
    pub open spec fn hash_ok(&self) -> bool {
        self.receipt_hash@ == blake3_of(self.hash_preimage())
    }

    /// A receipt is accepted when both signatures are present, it is well
    /// formed, and its hash checks out.
    pub open spec fn acceptable(&self) -> bool {
        &&& self.client_signature@.len() > 0
        &&& self.node_signature@.len() > 0
        &&& self.wf()
        &&& self.hash_ok()
    }

    /// Recompute the receipt hash from the content fields.
    pub fn compute_hash(&self) -> (r: [u8; 32])
        ensures
            r@ == blake3_of(self.hash_preimage()),
    {
        let mut out: Vec<u8> = Vec::new();
        let mut node_bytes = self.node_id.as_str().as_bytes_vec();
        out.append(&mut node_bytes);
        let mut client_bytes = self.client_id.as_str().as_bytes_vec();
        out.append(&mut client_bytes);
        write_u64(&mut out, self.service_period.0);
        write_u64(&mut out, self.service_period.1);
        let mut metrics_bytes = self.storage_metrics.encode();
        out.append(&mut metrics_bytes);
        assert(out@ =~= self.hash_preimage());
        blake3_digest(out.as_slice())
    }
}

/// Compare two digests byte for byte.
fn digest_eq(a: &[u8; 32], b: &[u8; 32]) -> (r: bool)
    ensures
        r == (a@ == b@),
{
    let mut i: usize = 0;
    while i < 32
        invariant
            i <= 32,
            forall|j: int| 0 <= j < i ==> a@[j] == b@[j],
        decreases 32 - i,
    {
        if a[i] != b[i] {
            return false;
        }
        i = i + 1;
    }
    proof {
        assert(a@ =~= b@);
    }
    true
}

/// Check a receipt: both signatures must be present, the receipt must be
/// well formed, and the recomputed hash must equal the stored one.  A
/// receipt whose regions are not in canonical order cannot carry a canonical
/// hash and is rejected.
pub fn verify_receipt(receipt: &StorageReceipt) -> (r: Result<bool, EngineError>)
    ensures
        r is Ok <==> receipt.acceptable(),
        r matches Ok(accepted) ==> accepted == true,
        r matches Err(e) ==> e is InvalidArgument,
{
    if receipt.client_signature.len() == 0 || receipt.node_signature.len() == 0 {
        return Err(EngineError::InvalidArgument("receipt is missing a signature".to_owned()));
    }
    if receipt.service_period.0 > receipt.service_period.1 {
        return Err(EngineError::InvalidArgument("receipt period runs backwards".to_owned()));
    }
    if !receipt.storage_metrics.check_canonical() {
        return Err(EngineError::InvalidArgument("receipt metrics are not canonical".to_owned()));
    }
    let computed = receipt.compute_hash();
    if digest_eq(&computed, &receipt.receipt_hash) {
        Ok(true)
    } else {
        Err(EngineError::InvalidArgument("receipt hash does not match its content".to_owned()))
    }
}

} // verus!

//! Distribution requests, results, and the bounded result channel.

use vstd::prelude::*;
use vstd::slice::slice_to_vec;

verus! {

/// The spec-level image of a distribution request.
pub ghost struct DistributionRequestView {
    pub vault_id: Seq<char>,
    pub reference_state_hash: Seq<u8>,
    pub timestamp: u64,
}

/// A queued request to distribute one vault.
#[derive(Debug)]
pub struct DistributionRequest {
    /// The vault to distribute.
    pub vault_id: String,
    /// Hash of the reference state the vault was sealed against.
    pub reference_state_hash: Vec<u8>,
    /// When the vault becomes due, seconds since the epoch.
    pub timestamp: u64,
}

impl View for DistributionRequest {
    type V = DistributionRequestView;

    open spec fn view(&self) -> DistributionRequestView {
        DistributionRequestView {
            vault_id: self.vault_id@,
            reference_state_hash: self.reference_state_hash@,
            timestamp: self.timestamp,
        }
    }
}

impl DeepView for DistributionRequest {
    type V = DistributionRequestView;

    open spec fn deep_view(&self) -> DistributionRequestView {
        self.view()
    }
}

impl Clone for DistributionRequest {
    /// A copy carries the same abstract value.
    fn clone(&self) -> (r: Self)
        ensures
            r@ == self@,
    {
        DistributionRequest {
            vault_id: self.vault_id.clone(),
            reference_state_hash: slice_to_vec(self.reference_state_hash.as_slice()),
            timestamp: self.timestamp,
        }
    }
}

/// The spec-level image of a distribution result.
pub ghost struct DistributionResultView {
    pub vault_id: Seq<char>,
    pub success: bool,
    pub timestamp: u64,
    pub error: Option<Seq<char>>,
    pub distribution_details: Option<Seq<(Seq<char>, u64)>>,
}

/// The outcome of one distribution attempt, published on the result channel.
#[derive(Debug)]
pub struct DistributionResult {
    /// The vault the attempt was for.
    pub vault_id: String,
    /// Whether the vault was unlocked, claimed and distributed.
    pub success: bool,
    /// When the attempt was made, seconds since the epoch.
    pub timestamp: u64,
    /// What went wrong, when it did.
    pub error: Option<String>,
    /// How many tokens each node receives, on success.
    pub distribution_details: Option<Vec<(String, u64)>>,
}

impl View for DistributionResult {
    type V = DistributionResultView;

    open spec fn view(&self) -> DistributionResultView {
        DistributionResultView {
            vault_id: self.vault_id@,
            success: self.success,
            timestamp: self.timestamp,
            error: self.error.deep_view(),
            distribution_details: self.distribution_details.deep_view(),
        }
    }
}

impl DeepView for DistributionResult {
    type V = DistributionResultView;

    open spec fn deep_view(&self) -> DistributionResultView {
        self.view()
    }
}

/// A bounded first-in-first-out channel of distribution results.
#[derive(Debug)]
pub struct ResultChannel {
    buffer: Vec<DistributionResult>,
    capacity: usize,
}

impl ResultChannel {
    /// The results queued, oldest first.
    pub closed spec fn queued(&self) -> Seq<DistributionResultView> {
        self.buffer.deep_view()
    }

    /// How many results the channel can hold.
    pub closed spec fn cap(&self) -> usize {
        self.capacity
    }

    /// A channel never holds more than its capacity.
    pub open spec fn wf(&self) -> bool {
        self.queued().len() <= self.cap()
    }

    /// An empty channel with the given capacity.
    pub fn new(capacity: usize) -> (r: Self)
        ensures
            r.queued() == Seq::<DistributionResultView>::empty(),
            r.cap() == capacity,
            r.wf(),
    {
        let r = ResultChannel { buffer: Vec::new(), capacity };
        proof {
            assert(r.queued() =~= Seq::<DistributionResultView>::empty());
        }
        r
    }

    /// Publish a result if there is room; a full channel refuses it.
    pub fn try_publish(&mut self, result: DistributionResult) -> (ok: bool)
        requires
            old(self).wf(),
        ensures
            final(self).wf(),
            final(self).cap() == old(self).cap(),
            ok <==> old(self).queued().len() < old(self).cap(),
            ok ==> final(self).queued() == old(self).queued().push(result@),
            !ok ==> *final(self) == *old(self),
    {
        if self.buffer.len() < self.capacity {
            let ghost prev = self.buffer.deep_view();
            let ghost rv = result@;
            self.buffer.push(result);
            proof {
                assert(self.buffer.deep_view() =~= prev.push(rv));
            }
            true
        } else {
            false
        }
    }

    /// Take the oldest queued result, if any.
    pub fn next_result(&mut self) -> (r: Option<DistributionResult>)
        requires
            old(self).wf(),
        ensures
            final(self).wf(),
            final(self).cap() == old(self).cap(),
            old(self).queued().len() == 0 ==> r is None && *final(self) == *old(self),
            old(self).queued().len() > 0 ==> (r matches Some(res) && res@ == old(self).queued()[0]
                && final(self).queued() == old(self).queued().drop_first()),
    {
        if self.buffer.len() > 0 {
            let ghost prev = self.buffer.deep_view();
            let res = self.buffer.remove(0);
            proof {
                assert(self.buffer.deep_view() =~= prev.drop_first());
            }
            Some(res)
        } else {
            None
        }
    }

    /// How many results are queued.
    pub fn len(&self) -> (n: usize)
        ensures
            n == self.queued().len(),
    {
        self.buffer.len()
    }
}

} // verus!

//! Vault lifecycle: status, metadata, recipients.

use vstd::prelude::*;
use crate::ratio::Ratio;

verus! {

/// Lower bound the recipient ratios may sum to, in raw units: one percent
/// below one, to tolerate fixed-point rounding.
pub const RATIO_SUM_MIN: u64 = 990_000;

/// Upper bound the recipient ratios may sum to, in raw units.
pub const RATIO_SUM_MAX: u64 = 1_010_000;

/// The status of a vault.  A vault starts pending and can only progress to
/// one terminal status; there are no back-transitions.
#[derive(Debug, Clone, Copy, PartialEq, Eq, Structural)]
pub enum VaultStatus {
    /// Created, not yet distributed.
    Pending,
    /// Unlocked, claimed and distributed.
    Claimed,
    /// Revoked by an administrative path.
    Revoked,
    /// Expired without distribution.
    Expired,
}

impl VaultStatus {
    /// A short label naming the status.
    pub fn label(&self) -> (r: &'static str)
        ensures
            r@ == self.label_spec(),
    {
        match self {
            VaultStatus::Pending => "pending",
            VaultStatus::Claimed => "claimed",
            VaultStatus::Revoked => "revoked",
            VaultStatus::Expired => "expired",
        }
    }

    pub open spec fn label_spec(&self) -> Seq<char> {
        match self {
            VaultStatus::Pending => "pending"@,
            VaultStatus::Claimed => "claimed"@,
            VaultStatus::Revoked => "revoked"@,
            VaultStatus::Expired => "expired"@,
        }
    }
}

/// A status may stay as it is, and a pending status may progress to any
/// other; a terminal status never changes.
pub open spec fn status_can_step(from: VaultStatus, to: VaultStatus) -> bool {
    from == to || from is Pending
}

/// The recipient ratios, summed in raw units.
pub open spec fn ratio_sum(rs: Seq<(Seq<char>, Ratio)>) -> int
    decreases rs.len(),
{
    if rs.len() == 0 {
        0
    } else {
        ratio_sum(rs.drop_last()) + rs.last().1.raw_spec()
    }
}

/// A prefix never sums to more than the whole list.
pub proof fn lemma_ratio_sum_prefix(rs: Seq<(Seq<char>, Ratio)>, i: int)
    requires
        0 <= i <= rs.len(),
    ensures
        ratio_sum(rs.take(i)) <= ratio_sum(rs),
        ratio_sum(rs.take(i)) >= 0,
    decreases rs.len(),
{
    if i == rs.len() {
        assert(rs.take(i) =~= rs);
        lemma_ratio_sum_nonneg(rs);
    } else {
        assert(rs.drop_last().take(i) =~= rs.take(i));
        lemma_ratio_sum_prefix(rs.drop_last(), i);
    }
}

/// Ratio sums are never negative.
pub proof fn lemma_ratio_sum_nonneg(rs: Seq<(Seq<char>, Ratio)>)
    ensures
        ratio_sum(rs) >= 0,
    decreases rs.len(),
{
    if rs.len() > 0 {
        lemma_ratio_sum_nonneg(rs.drop_last());
    }
}

/// Recipient keys name each node once.
pub open spec fn recipients_unique(rs: Seq<(Seq<char>, Ratio)>) -> bool {
    forall|i: int, j: int| 0 <= i < j < rs.len() ==> rs[i].0 != rs[j].0
}

/// A valid recipient set: non-empty, every node named once, every ratio at
/// most one, and the sum within the tolerance around one.
pub open spec fn recipients_valid(rs: Seq<(Seq<char>, Ratio)>) -> bool {
    &&& rs.len() > 0
    &&& recipients_unique(rs)
    &&& (forall|i: int| 0 <= i < rs.len() ==> (#[trigger] rs[i]).1.wf())
    &&& RATIO_SUM_MIN <= ratio_sum(rs) <= RATIO_SUM_MAX
}

/// The spec-level image of a vault's metadata.
pub ghost struct VaultMetadataView {
    pub vault_id: Seq<char>,
    pub purpose: Seq<char>,
    pub creator_id: Seq<char>,
    pub token_amount: u64,
    pub token_id: Seq<char>,
    pub created_at: u64,
    pub distribution_time: u64,
    pub recipients: Seq<(Seq<char>, Ratio)>,
    pub status: VaultStatus,
}

/// Metadata the registry tracks for one vault.
#[derive(Debug)]
pub struct VaultMetadata {
    /// Vault id assigned by the custody adapter; unique per vault.
    pub vault_id: String,
    /// What the vault is for.
    pub purpose: String,
    /// Creator of the vault: the hex spelling of its public key.
    pub creator_id: String,
    /// Total token amount sealed in the vault.
    pub token_amount: u64,
    /// Token (currency) the amount is denominated in.
    pub token_id: String,
    /// Creation timestamp, seconds since the epoch.
    pub created_at: u64,
    /// When the vault is due for distribution, seconds since the epoch.
    pub distribution_time: u64,
    /// Who receives which share, by node id.
    pub recipients: Vec<(String, Ratio)>,
    /// Where the vault stands in its lifecycle.
    pub status: VaultStatus,
}

impl View for VaultMetadata {
    type V = VaultMetadataView;

    open spec fn view(&self) -> VaultMetadataView {
        VaultMetadataView {
            vault_id: self.vault_id@,
            purpose: self.purpose@,
            creator_id: self.creator_id@,
            token_amount: self.token_amount,
            token_id: self.token_id@,
            created_at: self.created_at,
            distribution_time: self.distribution_time,
            recipients: self.recipients.deep_view(),
            status: self.status,
        }
    }
}

impl VaultMetadata {
    /// Metadata is well formed when its recipient set is valid.
    pub open spec fn wf(&self) -> bool {
        recipients_valid(self.recipients.deep_view())
    }
}

/// Copy a recipient list entry by entry.
pub fn clone_recipients(rs: &Vec<(String, Ratio)>) -> (out: Vec<(String, Ratio)>)
    ensures
        out.deep_view() == rs.deep_view(),
{
    let mut out: Vec<(String, Ratio)> = Vec::new();
    let mut i: usize = 0;
    while i < rs.len()
        invariant
            i <= rs@.len(),
            out.deep_view() =~= rs.deep_view().take(i as int),
        decreases rs@.len() - i,
    {
        let ghost prev = out.deep_view();
        let entry = (rs[i].0.clone(), rs[i].1);
        let ghost entry_view = entry.deep_view();
        out.push(entry);
        proof {
            assert(entry_view == rs.deep_view()[i as int]);
            assert(out.deep_view() =~= prev.push(entry_view));
            assert(rs.deep_view().take(i + 1) =~= rs.deep_view().take(i as int).push(
                rs.deep_view()[i as int],
            ));
        }
        i = i + 1;
    }
    proof {
        assert(rs.deep_view().take(rs@.len() as int) =~= rs.deep_view());
    }
    out
}

impl Clone for VaultMetadata {
    /// A copy carries the same abstract value.
    fn clone(&self) -> (r: Self)
        ensures
            r@ == self@,
    {
        VaultMetadata {
            vault_id: self.vault_id.clone(),
            purpose: self.purpose.clone(),
            creator_id: self.creator_id.clone(),
            token_amount: self.token_amount,
            token_id: self.token_id.clone(),
            created_at: self.created_at,
            distribution_time: self.distribution_time,
            recipients: clone_recipients(&self.recipients),
            status: self.status,
        }
    }
}

} // verus!

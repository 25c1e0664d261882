//! The reward vault manager: the facade over registries, schedule, queue
//! and the distribution decision logic.
//!
//! The manager holds pure state.  Everything that needs the outside world —
//! the custody adapter, the clock, the interval timer — is handed in as
//! plain values: the clock as a `now` argument, the adapter's answers as
//! arguments of the functions that act on them.

use vstd::prelude::*;
use vstd::string::StringExecFns;
use vstd::slice::slice_to_vec;
use crate::content::{dec_content, decode_vault_content, enc_content, encode_vault_content, lemma_dec_content_ratios_wf, VaultContent, VaultContentView};
use crate::crypto::{hex_encode, hex_of};
use crate::schedule::clamp_u64;
use crate::errors::EngineError;
use crate::queue::{
    DistributionRequest, DistributionRequestView, DistributionResult, DistributionResultView,
    ResultChannel,
};
use crate::ratio::Ratio;
use crate::receipt::{verify_receipt, StorageReceipt};
use crate::rewards::{rewards_for_receipts, rewards_total};
use crate::schedule::RateSchedule;
use crate::vault::{
    clone_recipients, ratio_sum, recipients_valid, status_can_step,
    VaultMetadata, VaultStatus, RATIO_SUM_MAX, RATIO_SUM_MIN,
};

verus! {

/// How many distribution results the channel holds before refusing more.
pub const RESULT_CHANNEL_CAPACITY: usize = 100;

/// The first vault with the given id, if any.
pub open spec fn find_vault(vs: Seq<VaultMetadata>, id: Seq<char>) -> Option<VaultMetadata>
    decreases vs.len(),
{
    if vs.len() == 0 {
        None
    } else if vs[0].vault_id@ == id {
        Some(vs[0])
    } else {
        find_vault(vs.drop_first(), id)
    }
}

/// Every vault id names at most one vault.
pub open spec fn vault_ids_unique(vs: Seq<VaultMetadata>) -> bool {
    forall|i: int, j: int| 0 <= i < j < vs.len() ==> (#[trigger] vs[i]).vault_id@ != (
    #[trigger] vs[j]).vault_id@
}

/// The registry only ever progresses: no vault disappears, ids keep their
/// place, and a status only moves along the allowed transitions.
pub open spec fn statuses_progress(pre: Seq<VaultMetadata>, post: Seq<VaultMetadata>) -> bool {
    &&& post.len() >= pre.len()
    &&& forall|i: int|
        0 <= i < pre.len() ==> (#[trigger] post[i]).vault_id@ == pre[i].vault_id@
            && status_can_step(pre[i].status, post[i].status)
}

/// At the first index holding the id, the lookup returns that vault.
proof fn lemma_find_vault_at(vs: Seq<VaultMetadata>, id: Seq<char>, idx: int)
    requires
        0 <= idx < vs.len(),
        vs[idx].vault_id@ == id,
        forall|j: int| 0 <= j < idx ==> (#[trigger] vs[j]).vault_id@ != id,
    ensures
        find_vault(vs, id) == Some(vs[idx]),
    decreases idx,
{
    if idx > 0 {
        assert forall|j: int|
            0 <= j < idx - 1 implies (#[trigger] vs.drop_first()[j]).vault_id@ != id by {
            assert(vs.drop_first()[j] == vs[j + 1]);
        }
        assert(vs.drop_first()[idx - 1] == vs[idx]);
        lemma_find_vault_at(vs.drop_first(), id, idx - 1);
    }
}

/// An id held by no vault finds nothing.
proof fn lemma_find_vault_missing(vs: Seq<VaultMetadata>, id: Seq<char>)
    requires
        forall|j: int| 0 <= j < vs.len() ==> (#[trigger] vs[j]).vault_id@ != id,
    ensures
        find_vault(vs, id) is None,
    decreases vs.len(),
{
    if vs.len() > 0 {
        assert forall|j: int|
            0 <= j < vs.drop_first().len() implies (#[trigger] vs.drop_first()[j]).vault_id@
                != id by {
            assert(vs.drop_first()[j] == vs[j + 1]);
        }
        lemma_find_vault_missing(vs.drop_first(), id);
    }
}

/// Replacing the vault at one index only changes the lookup for its id.
proof fn lemma_find_vault_update(
    vs: Seq<VaultMetadata>,
    idx: int,
    md: VaultMetadata,
    id: Seq<char>,
)
    requires
        0 <= idx < vs.len(),
        md.vault_id@ == vs[idx].vault_id@,
        forall|j: int| 0 <= j < idx ==> (#[trigger] vs[j]).vault_id@ != vs[idx].vault_id@,
    ensures
        id == vs[idx].vault_id@ ==> find_vault(vs.update(idx, md), id) == Some(md),
        id != vs[idx].vault_id@ ==> find_vault(vs.update(idx, md), id) == find_vault(vs, id),
    decreases idx,
{
    let updated = vs.update(idx, md);
    if idx == 0 {
        assert(updated[0] == md);
        assert(updated.drop_first() =~= vs.drop_first());
    } else {
        assert(updated[0] == vs[0]);
        assert(updated.drop_first() =~= vs.drop_first().update(idx - 1, md));
        assert forall|j: int|
            0 <= j < idx - 1 implies (#[trigger] vs.drop_first()[j]).vault_id@
                != vs.drop_first()[idx - 1].vault_id@ by {
            assert(vs.drop_first()[j] == vs[j + 1]);
            assert(vs.drop_first()[idx - 1] == vs[idx]);
        }
        assert(vs.drop_first()[idx - 1] == vs[idx]);
        lemma_find_vault_update(vs.drop_first(), idx - 1, md, id);
    }
}

/// The receipts recorded for a node, oldest first.
pub open spec fn find_receipts(
    entries: Seq<(String, Vec<StorageReceipt>)>,
    node: Seq<char>,
) -> Seq<StorageReceipt>
    decreases entries.len(),
{
    if entries.len() == 0 {
        Seq::<StorageReceipt>::empty()
    } else if entries[0].0@ == node {
        entries[0].1@
    } else {
        find_receipts(entries.drop_first(), node)
    }
}

/// Whether the registry has an entry for this node.
pub open spec fn has_node(entries: Seq<(String, Vec<StorageReceipt>)>, node: Seq<char>) -> bool
    decreases entries.len(),
{
    if entries.len() == 0 {
        false
    } else if entries[0].0@ == node {
        true
    } else {
        has_node(entries.drop_first(), node)
    }
}

/// A node has an entry exactly when some index holds its key.
proof fn lemma_has_node_exists(entries: Seq<(String, Vec<StorageReceipt>)>, node: Seq<char>)
    ensures
        has_node(entries, node) <==> exists|j: int|
            0 <= j < entries.len() && (#[trigger] entries[j]).0@ == node,
    decreases entries.len(),
{
    if entries.len() > 0 {
        lemma_has_node_exists(entries.drop_first(), node);
        if entries[0].0@ == node {
        } else {
            assert forall|j: int|
                0 <= j < entries.len() && (#[trigger] entries[j]).0@
                    == node implies has_node(entries, node) by {
                assert(entries.drop_first()[j - 1] == entries[j]);
            }
            if has_node(entries, node) {
                let j = choose|j: int|
                    0 <= j < entries.drop_first().len() && (#[trigger] entries.drop_first()[j]).0@
                        == node;
                assert(entries[j + 1] == entries.drop_first()[j]);
            }
        }
    }
}

/// At the first index holding the key, the lookup returns that entry's list.
proof fn lemma_find_receipts_at(
    entries: Seq<(String, Vec<StorageReceipt>)>,
    node: Seq<char>,
    idx: int,
)
    requires
        0 <= idx < entries.len(),
        entries[idx].0@ == node,
        forall|j: int| 0 <= j < idx ==> (#[trigger] entries[j]).0@ != node,
    ensures
        find_receipts(entries, node) == entries[idx].1@,
        has_node(entries, node),
    decreases idx,
{
    if idx > 0 {
        assert forall|j: int|
            0 <= j < idx - 1 implies (#[trigger] entries.drop_first()[j]).0@ != node by {
            assert(entries.drop_first()[j] == entries[j + 1]);
        }
        assert(entries.drop_first()[idx - 1] == entries[idx]);
        lemma_find_receipts_at(entries.drop_first(), node, idx - 1);
    }
}

/// Replacing the entry at one index only changes the lookup for its key.
proof fn lemma_find_receipts_update(
    entries: Seq<(String, Vec<StorageReceipt>)>,
    idx: int,
    entry: (String, Vec<StorageReceipt>),
    node: Seq<char>,
)
    requires
        0 <= idx < entries.len(),
        entry.0@ == entries[idx].0@,
        forall|j: int| 0 <= j < idx ==> (#[trigger] entries[j]).0@ != entries[idx].0@,
    ensures
        node == entries[idx].0@ ==> find_receipts(entries.update(idx, entry), node) == entry.1@,
        node != entries[idx].0@ ==> find_receipts(entries.update(idx, entry), node)
            == find_receipts(entries, node),
    decreases idx,
{
    let updated = entries.update(idx, entry);
    if idx == 0 {
        assert(updated[0] == entry);
        assert(updated.drop_first() =~= entries.drop_first());
    } else {
        assert(updated[0] == entries[0]);
        assert(updated.drop_first() =~= entries.drop_first().update(idx - 1, entry));
        assert forall|j: int|
            0 <= j < idx - 1 implies (#[trigger] entries.drop_first()[j]).0@
                != entries.drop_first()[idx - 1].0@ by {
            assert(entries.drop_first()[j] == entries[j + 1]);
            assert(entries.drop_first()[idx - 1] == entries[idx]);
        }
        assert(entries.drop_first()[idx - 1] == entries[idx]);
        lemma_find_receipts_update(entries.drop_first(), idx - 1, entry, node);
    }
}

/// Appending a fresh entry only changes the lookup for its key.
proof fn lemma_find_receipts_push(
    entries: Seq<(String, Vec<StorageReceipt>)>,
    entry: (String, Vec<StorageReceipt>),
    node: Seq<char>,
)
    ensures
        has_node(entries, node) ==> find_receipts(entries.push(entry), node) == find_receipts(
            entries,
            node,
        ),
        !has_node(entries, node) && node == entry.0@ ==> find_receipts(entries.push(entry), node)
            == entry.1@,
        !has_node(entries, node) && node != entry.0@ ==> find_receipts(entries.push(entry), node)
            == find_receipts(entries, node),
    decreases entries.len(),
{
    if entries.len() == 0 {
        assert(entries.push(entry)[0] == entry);
        assert(entries.push(entry).drop_first() =~= entries);
    } else {
        assert(entries.push(entry)[0] == entries[0]);
        assert(entries.push(entry).drop_first() =~= entries.drop_first().push(entry));
        lemma_find_receipts_push(entries.drop_first(), entry, node);
    }
}

/// A node without an entry has no receipts.
proof fn lemma_find_receipts_missing(entries: Seq<(String, Vec<StorageReceipt>)>, node: Seq<char>)
    requires
        !has_node(entries, node),
    ensures
        find_receipts(entries, node) == Seq::<StorageReceipt>::empty(),
    decreases entries.len(),
{
    if entries.len() > 0 {
        lemma_find_receipts_missing(entries.drop_first(), node);
    }
}

/// Every node id keys at most one receipt list.
pub open spec fn receipt_keys_unique(entries: Seq<(String, Vec<StorageReceipt>)>) -> bool {
    forall|i: int, j: int| 0 <= i < j < entries.len() ==> (#[trigger] entries[i]).0@ != (
    #[trigger] entries[j]).0@
}

/// Every stored receipt was accepted and sits under its own node id.
pub open spec fn receipts_entries_wf(entries: Seq<(String, Vec<StorageReceipt>)>) -> bool {
    forall|i: int, j: int|
        0 <= i < entries.len() && 0 <= j < (#[trigger] entries[i]).1@.len() ==> (
        #[trigger] entries[i].1@[j]).acceptable() && entries[i].1@[j].node_id@ == entries[i].0@
}

/// Storage node reward vault manager.
///
/// Tracks vault metadata, verified receipts, the rate schedule, the pending
/// distribution queue and the result channel.
#[derive(Debug)]
pub struct RewardVaultManager {
    vault_registry: Vec<VaultMetadata>,
    receipt_registry: Vec<(String, Vec<StorageReceipt>)>,
    rate_schedule: RateSchedule,
    distribution_queue: Vec<DistributionRequest>,
    results: ResultChannel,
}

impl RewardVaultManager {
    /// The registered vaults, in creation order.
    pub closed spec fn vaults(&self) -> Seq<VaultMetadata> {
        self.vault_registry@
    }

    /// The receipt registry, one entry per node.
    pub closed spec fn receipt_entries(&self) -> Seq<(String, Vec<StorageReceipt>)> {
        self.receipt_registry@
    }

    /// The receipts recorded for one node.
    pub open spec fn node_receipts(&self, node: Seq<char>) -> Seq<StorageReceipt> {
        find_receipts(self.receipt_entries(), node)
    }

    /// The rate schedule in force.
    pub closed spec fn schedule(&self) -> RateSchedule {
        self.rate_schedule
    }

    /// The pending distribution queue, in insertion order.
    pub closed spec fn queue(&self) -> Seq<DistributionRequestView> {
        self.distribution_queue.deep_view()
    }

    /// The result channel.
    pub closed spec fn channel(&self) -> ResultChannel {
        self.results
    }

    /// The manager's invariant: unique vault ids, well-formed vaults (their
    /// recipient ratios sum within tolerance), unique receipt keys, only
    /// accepted receipts under their own node, and a bounded channel.
    pub open spec fn wf(&self) -> bool {
        &&& vault_ids_unique(self.vaults())
        &&& (forall|i: int| 0 <= i < self.vaults().len() ==> (#[trigger] self.vaults()[i]).wf())
        &&& receipt_keys_unique(self.receipt_entries())
        &&& receipts_entries_wf(self.receipt_entries())
        &&& self.channel().wf()
    }

    /// The default rate schedule: 100 tokens per byte-day, 10 per retrieval,
    /// 5 per operation, an uptime multiplier of one, no region multipliers.
    pub fn default_rate_schedule() -> (r: RateSchedule)
        ensures
            r.base_rate_per_byte_day == 100,
            r.retrieval_rate == 10,
            r.operation_rate == 5,
            r.uptime_multiplier_micros == 1_000_000,
            r.region_multipliers.deep_view() == Seq::<(Seq<char>, u64)>::empty(),
    {
        let r = RateSchedule {
            base_rate_per_byte_day: 100,
            retrieval_rate: 10,
            operation_rate: 5,
            uptime_multiplier_micros: 1_000_000,
            region_multipliers: Vec::new(),
        };
        proof {
            assert(r.region_multipliers.deep_view() =~= Seq::<(Seq<char>, u64)>::empty());
        }
        r
    }

    /// A fresh manager: empty registries, empty queue, the default rate
    /// schedule, and an empty result channel of the configured capacity.
    pub fn new() -> (m: Self)
        ensures
            m.wf(),
            m.vaults() == Seq::<VaultMetadata>::empty(),
            m.receipt_entries() == Seq::<(String, Vec<StorageReceipt>)>::empty(),
            m.queue() == Seq::<DistributionRequestView>::empty(),
            m.channel().queued() == Seq::<DistributionResultView>::empty(),
            m.channel().cap() == RESULT_CHANNEL_CAPACITY,
            m.schedule().base_rate_per_byte_day == 100,
            m.schedule().retrieval_rate == 10,
            m.schedule().operation_rate == 5,
            m.schedule().uptime_multiplier_micros == 1_000_000,
            m.schedule().region_multipliers.deep_view() == Seq::<(Seq<char>, u64)>::empty(),
    {
        let schedule = Self::default_rate_schedule();
        let m = RewardVaultManager {
            vault_registry: Vec::new(),
            receipt_registry: Vec::new(),
            rate_schedule: schedule,
            distribution_queue: Vec::new(),
            results: ResultChannel::new(RESULT_CHANNEL_CAPACITY),
        };
        proof {
            assert(m.queue() =~= Seq::<DistributionRequestView>::empty());
        }
        m
    }

    /// Replace the rate schedule atomically.
    pub fn update_rate_schedule(&mut self, new_schedule: RateSchedule) -> (r: Result<
        (),
        EngineError,
    >)
        requires
            old(self).wf(),
        ensures
            final(self).wf(),
            r is Ok,
            final(self).schedule() == new_schedule,
            final(self).vaults() == old(self).vaults(),
            final(self).receipt_entries() == old(self).receipt_entries(),
            final(self).queue() == old(self).queue(),
            final(self).channel() == old(self).channel(),
            statuses_progress(old(self).vaults(), final(self).vaults()),
    {
        self.rate_schedule = new_schedule;
        Ok(())
    }

    /// All registered vaults, copied out in registration order.
    pub fn get_vaults(&self) -> (r: Result<Vec<VaultMetadata>, EngineError>)
        ensures
            r matches Ok(list) && list@.len() == self.vaults().len(),
            r matches Ok(list) ==> forall|i: int|
                0 <= i < list@.len() ==> (#[trigger] list@[i])@ == self.vaults()[i]@,
    {
        let mut out: Vec<VaultMetadata> = Vec::new();
        let mut i: usize = 0;
        while i < self.vault_registry.len()
            invariant
                i <= self.vaults().len(),
                self.vault_registry@ == self.vaults(),
                out@.len() == i,
                forall|j: int| 0 <= j < i ==> (#[trigger] out@[j])@ == self.vaults()[j]@,
            decreases self.vault_registry.len() - i,
        {
            out.push(self.vault_registry[i].clone());
            i = i + 1;
        }
        Ok(out)
    }

    /// The vault with the given id, or `not-found`.
    pub fn get_vault(&self, vault_id: &String) -> (r: Result<VaultMetadata, EngineError>)
        ensures
            r is Ok <==> find_vault(self.vaults(), vault_id@) is Some,
            r matches Ok(md) ==> md@ == find_vault(self.vaults(), vault_id@)->Some_0@,
            r matches Err(e) ==> e is NotFound,
    {
        let ghost vs = self.vaults();
        proof {
            assert(vs.skip(0) =~= vs);
        }
        let mut i: usize = 0;
        while i < self.vault_registry.len()
            invariant
                i <= vs.len(),
                self.vault_registry@ == vs,
                find_vault(vs, vault_id@) == find_vault(vs.skip(i as int), vault_id@),
            decreases self.vault_registry.len() - i,
        {
            proof {
                assert(vs.skip(i as int).drop_first() =~= vs.skip(i + 1));
                assert(vs.skip(i as int)[0] == vs[i as int]);
            }
            if self.vault_registry[i].vault_id == *vault_id {
                return Ok(self.vault_registry[i].clone());
            }
            i = i + 1;
        }
        proof {
            assert(vs.skip(vs.len() as int).len() == 0);
        }
        Err(EngineError::NotFound("no vault with this id".to_owned()))
    }

    /// The first index holding this node's receipt entry, if any.
    fn find_node_index(&self, node_id: &String) -> (r: Option<usize>)
        ensures
            match r {
                Option::Some(i) => i < self.receipt_entries().len()
                    && self.receipt_entries()[i as int].0@ == node_id@
                    && forall|j: int|
                        0 <= j < i ==> (#[trigger] self.receipt_entries()[j]).0@ != node_id@,
                Option::None => !has_node(self.receipt_entries(), node_id@),
            },
    {
        let ghost entries = self.receipt_entries();
        let mut i: usize = 0;
        while i < self.receipt_registry.len()
            invariant
                i <= entries.len(),
                self.receipt_registry@ == entries,
                forall|j: int| 0 <= j < i ==> (#[trigger] entries[j]).0@ != node_id@,
            decreases self.receipt_registry.len() - i,
        {
            if self.receipt_registry[i].0 == *node_id {
                return Some(i);
            }
            i = i + 1;
        }
        proof {
            lemma_has_node_exists(entries, node_id@);
        }
        None
    }

    /// Verify a receipt and append it under its node.  Receipts are
    /// append-only; a duplicate is appended again and appears twice.
    pub fn process_receipt(&mut self, receipt: StorageReceipt) -> (r: Result<(), EngineError>)
        requires
            old(self).wf(),
        ensures
            final(self).wf(),
            r is Ok <==> receipt.acceptable(),
            r matches Err(e) ==> e is InvalidArgument && *final(self) == *old(self),
            r is Ok ==> final(self).node_receipts(receipt.node_id@) == old(self).node_receipts(
                receipt.node_id@,
            ).push(receipt),
            r is Ok ==> forall|n: Seq<char>|
                n != receipt.node_id@ ==> final(self).node_receipts(n) == old(self).node_receipts(
                    n,
                ),
            final(self).vaults() == old(self).vaults(),
            final(self).schedule() == old(self).schedule(),
            final(self).queue() == old(self).queue(),
            final(self).channel() == old(self).channel(),
            statuses_progress(old(self).vaults(), final(self).vaults()),
    {
        match verify_receipt(&receipt) {
            Ok(_) => {},
            Err(e) => {
                return Err(e);
            },
        }
        let ghost entries = self.receipt_entries();
        let ghost node = receipt.node_id@;
        match self.find_node_index(&receipt.node_id) {
            Some(i) => {
                self.receipt_registry[i].1.push(receipt);
                proof {
                    let now_entries = self.receipt_entries();
                    assert(now_entries =~= entries.update(i as int, now_entries[i as int]));
                    lemma_find_receipts_at(entries, node, i as int);
                    lemma_find_receipts_update(entries, i as int, now_entries[i as int], node);
                    lemma_find_receipts_at(now_entries, node, i as int);
                    assert forall|n: Seq<char>| n != node implies find_receipts(now_entries, n)
                        == find_receipts(entries, n) by {
                        lemma_find_receipts_update(entries, i as int, now_entries[i as int], n);
                    }
                }
            },
            None => {
                proof {
                    lemma_has_node_exists(entries, node);
                }
                let key = receipt.node_id.clone();
                let mut list: Vec<StorageReceipt> = Vec::new();
                list.push(receipt);
                self.receipt_registry.push((key, list));
                proof {
                    let now_entries = self.receipt_entries();
                    let entry = now_entries[now_entries.len() - 1];
                    assert(now_entries =~= entries.push(entry));
                    lemma_find_receipts_push(entries, entry, node);
                    lemma_find_receipts_missing(entries, node);
                    assert(entry.1@ =~= find_receipts(entries, node).push(receipt));
                    assert forall|n: Seq<char>| n != node implies find_receipts(now_entries, n)
                        == find_receipts(entries, n) by {
                        lemma_find_receipts_push(entries, entry, n);
                    }
                }
            },
        }
        Ok(())
    }

    /// Total reward owed to a node for the query window, from its recorded
    /// receipts under the schedule in force.
    pub fn calculate_node_rewards(
        &self,
        node_id: &String,
        period_start: u64,
        period_end: u64,
    ) -> (r: Result<u64, EngineError>)
        ensures
            r matches Ok(total) && total == rewards_total(
                self.schedule(),
                self.node_receipts(node_id@),
                period_start,
                period_end,
            ),
    {
        match self.find_node_index(node_id) {
            Some(i) => {
                proof {
                    lemma_find_receipts_at(self.receipt_entries(), node_id@, i as int);
                }
                let total = rewards_for_receipts(
                    &self.rate_schedule,
                    &self.receipt_registry[i].1,
                    period_start,
                    period_end,
                );
                Ok(total)
            },
            None => {
                proof {
                    lemma_find_receipts_missing(self.receipt_entries(), node_id@);
                }
                Ok(0)
            },
        }
    }
}

/// Grace period past the distribution time before a vault post expires:
/// thirty days of seconds.
pub const POST_EXPIRY_GRACE: u64 = 30 * 86_400;

/// Everything the custody adapter needs to create one reward vault.
#[derive(Debug)]
pub struct VaultCreationPlan {
    /// The sealed content, canonically encoded.
    pub content_bytes: Vec<u8>,
    /// When the time release opens, seconds since the epoch.
    pub unlock_time: u64,
    /// Hash of the reference state the release is anchored to.
    pub reference_state_hash: Vec<u8>,
    /// When the vault post expires: the distribution time plus the grace
    /// period, saturating.
    pub post_expiry: u64,
    /// Human-readable purpose for the vault post.
    pub purpose: String,
}

/// Check a recipient set: it must be non-empty, name each node once, hold
/// only ratios of at most one, and sum to one within the tolerance.
pub fn validate_recipients(recipients: &Vec<(String, Ratio)>) -> (r: Result<(), EngineError>)
    ensures
        r is Ok <==> recipients_valid(recipients.deep_view()),
        r matches Err(e) ==> e is InvalidArgument,
{
    let ghost rs = recipients.deep_view();
    proof {
        assert(rs.len() == recipients@.len());
    }
    if recipients.len() == 0 {
        return Err(EngineError::InvalidArgument("recipient set is empty".to_owned()));
    }
    let mut i: usize = 0;
    while i < recipients.len()
        invariant
            rs == recipients.deep_view(),
            rs.len() == recipients@.len(),
            i <= rs.len(),
            forall|j: int| 0 <= j < i ==> (#[trigger] rs[j]).1.wf(),
        decreases recipients@.len() - i,
    {
        if recipients[i].1.raw_value() > crate::ratio::RATIO_SCALE {
            proof {
                assert(rs[i as int].1 == recipients@[i as int].1);
            }
            return Err(EngineError::InvalidArgument("a recipient ratio exceeds one".to_owned()));
        }
        proof {
            assert(rs[i as int].1 == recipients@[i as int].1);
        }
        i = i + 1;
    }
    let mut a: usize = 0;
    while a < recipients.len()
        invariant
            rs == recipients.deep_view(),
            rs.len() == recipients@.len(),
            a <= rs.len(),
            forall|x: int, y: int|
                0 <= x < y < rs.len() && x < a ==> (#[trigger] rs[x]).0 != (#[trigger] rs[y]).0,
        decreases recipients@.len() - a,
    {
        let mut b: usize = a + 1;
        while b < recipients.len()
            invariant
                rs == recipients.deep_view(),
                rs.len() == recipients@.len(),
                a < rs.len(),
                a + 1 <= b <= rs.len(),
                forall|y: int| a < y < b ==> rs[a as int].0 != (#[trigger] rs[y]).0,
            decreases recipients@.len() - b,
        {
            if recipients[a].0 == recipients[b].0 {
                proof {
                    assert(rs[a as int].0 == recipients@[a as int].0@);
                    assert(rs[b as int].0 == recipients@[b as int].0@);
                }
                return Err(
                    EngineError::InvalidArgument("a recipient node is named twice".to_owned()),
                );
            }
            proof {
                assert(rs[a as int].0 == recipients@[a as int].0@);
                assert(rs[b as int].0 == recipients@[b as int].0@);
            }
            b = b + 1;
        }
        a = a + 1;
    }
    let mut sum: u64 = 0;
    let mut k: usize = 0;
    proof {
        assert(rs.take(0) =~= Seq::<(Seq<char>, Ratio)>::empty());
    }
    while k < recipients.len()
        invariant
            rs == recipients.deep_view(),
            rs.len() == recipients@.len(),
            k <= rs.len(),
            sum == ratio_sum(rs.take(k as int)),
        decreases recipients@.len() - k,
    {
        let raw = recipients[k].1.raw_value();
        proof {
            assert(rs.take(k + 1).drop_last() =~= rs.take(k as int));
            assert(rs.take(k + 1).last() == rs[k as int]);
            assert(rs[k as int].1 == recipients@[k as int].1);
        }
        sum = match sum.checked_add(raw) {
            Some(s) => s,
            None => {
                proof {
                    crate::vault::lemma_ratio_sum_prefix(rs, k + 1);
                }
                return Err(
                    EngineError::InvalidArgument(
                        "recipient ratios sum far beyond one".to_owned(),
                    ),
                );
            },
        };
        k = k + 1;
    }
    proof {
        assert(rs.take(rs.len() as int) =~= rs);
    }
    if sum < RATIO_SUM_MIN || sum > RATIO_SUM_MAX {
        return Err(
            EngineError::InvalidArgument("recipient ratios do not sum to one".to_owned()),
        );
    }
    Ok(())
}

impl RewardVaultManager {
    /// The first index holding this vault id, if any.
    fn find_vault_index(&self, vault_id: &String) -> (r: Option<usize>)
        ensures
            match r {
                Option::Some(i) => i < self.vaults().len()
                    && self.vaults()[i as int].vault_id@ == vault_id@
                    && forall|j: int|
                        0 <= j < i ==> (#[trigger] self.vaults()[j]).vault_id@ != vault_id@,
                Option::None => forall|j: int|
                    0 <= j < self.vaults().len() ==> (#[trigger] self.vaults()[j]).vault_id@
                        != vault_id@,
            },
    {
        let ghost vs = self.vaults();
        let mut i: usize = 0;
        while i < self.vault_registry.len()
            invariant
                i <= vs.len(),
                self.vault_registry@ == vs,
                forall|j: int| 0 <= j < i ==> (#[trigger] vs[j]).vault_id@ != vault_id@,
            decreases self.vault_registry.len() - i,
        {
            if self.vault_registry[i].vault_id == *vault_id {
                return Some(i);
            }
            i = i + 1;
        }
        None
    }

    /// Lay out everything the custody adapter needs to create a reward
    /// vault: validate the recipients, seal the content, and fix the time
    /// release and post parameters.  Nothing is registered yet; a failed
    /// plan leaves no trace.
    pub fn plan_reward_vault(
        &self,
        token_amount: u64,
        token_id: &String,
        distribution_time: u64,
        recipients: &Vec<(String, Ratio)>,
        reference_state_hash: &Vec<u8>,
    ) -> (r: Result<VaultCreationPlan, EngineError>)
        ensures
            r is Ok <==> recipients_valid(recipients.deep_view()),
            r matches Err(e) ==> e is InvalidArgument,
            r matches Ok(plan) ==> {
                &&& plan.content_bytes@ == enc_content(
                    VaultContentView {
                        token_amount,
                        token_id: token_id@,
                        recipients: recipients.deep_view(),
                        metadata: Seq::<(Seq<char>, Seq<char>)>::empty(),
                    },
                )
                &&& plan.unlock_time == distribution_time
                &&& plan.reference_state_hash@ == reference_state_hash@
                &&& plan.post_expiry == clamp_u64(distribution_time + POST_EXPIRY_GRACE)
                &&& plan.purpose@ == "Reward distribution for "@ + token_id@
            },
    {
        match validate_recipients(recipients) {
            Ok(_) => {},
            Err(e) => {
                return Err(e);
            },
        }
        let content = VaultContent {
            token_amount,
            token_id: token_id.clone(),
            recipients: clone_recipients(recipients),
            metadata: Vec::new(),
        };
        proof {
            assert(content.metadata.deep_view() =~= Seq::<(Seq<char>, Seq<char>)>::empty());
        }
        let content_bytes = encode_vault_content(&content);
        let post_expiry = match distribution_time.checked_add(POST_EXPIRY_GRACE) {
            Some(t) => t,
            None => u64::MAX,
        };
        let purpose = String::from_str("Reward distribution for ").concat(token_id.as_str());
        Ok(
            VaultCreationPlan {
                content_bytes,
                unlock_time: distribution_time,
                reference_state_hash: slice_to_vec(reference_state_hash.as_slice()),
                post_expiry,
                purpose,
            },
        )
    }

    /// Register a vault the custody adapter has created: record its
    /// metadata and queue its distribution request.  The recipient set is
    /// validated again, and a vault id already registered is refused, so
    /// the registry invariant is kept.
    pub fn create_reward_vault(
        &mut self,
        creator_public_key: &Vec<u8>,
        token_amount: u64,
        token_id: &String,
        distribution_time: u64,
        recipients: Vec<(String, Ratio)>,
        reference_state_hash: Vec<u8>,
        vault_id: String,
        post_status: VaultStatus,
        now: u64,
    ) -> (r: Result<(), EngineError>)
        requires
            old(self).wf(),
        ensures
            final(self).wf(),
            r is Ok <==> recipients_valid(recipients.deep_view()) && find_vault(
                old(self).vaults(),
                vault_id@,
            ) is None,
            r matches Err(e) ==> *final(self) == *old(self) && (e is InvalidArgument
                || e is Internal),
            !recipients_valid(recipients.deep_view()) ==> (r matches Err(e) && e
                is InvalidArgument),
            r is Ok ==> {
                &&& final(self).vaults().len() == old(self).vaults().len() + 1
                &&& final(self).vaults().drop_last() == old(self).vaults()
                &&& final(self).vaults().last().vault_id@ == vault_id@
                &&& final(self).vaults().last().purpose@ == "Reward distribution for "@
                    + token_id@
                &&& final(self).vaults().last().creator_id@ == hex_of(creator_public_key@)
                &&& final(self).vaults().last().token_amount == token_amount
                &&& final(self).vaults().last().token_id@ == token_id@
                &&& final(self).vaults().last().created_at == now
                &&& final(self).vaults().last().distribution_time == distribution_time
                &&& final(self).vaults().last().recipients.deep_view()
                    == recipients.deep_view()
                &&& final(self).vaults().last().status == post_status
                &&& final(self).queue() == old(self).queue().push(
                    DistributionRequestView {
                        vault_id: vault_id@,
                        reference_state_hash: reference_state_hash@,
                        timestamp: distribution_time,
                    },
                )
            },
            final(self).receipt_entries() == old(self).receipt_entries(),
            final(self).schedule() == old(self).schedule(),
            final(self).channel() == old(self).channel(),
            r is Err ==> final(self).queue() == old(self).queue(),
            statuses_progress(old(self).vaults(), final(self).vaults()),
    {
        match validate_recipients(&recipients) {
            Ok(_) => {},
            Err(e) => {
                return Err(e);
            },
        }
        let ghost vs = self.vaults();
        match self.find_vault_index(&vault_id) {
            Some(i) => {
                proof {
                    lemma_find_vault_at(vs, vault_id@, i as int);
                }
                return Err(EngineError::Internal);
            },
            None => {
                proof {
                    lemma_find_vault_missing(vs, vault_id@);
                }
            },
        }
        let ghost rsh = reference_state_hash@;
        let creator_id = hex_encode(creator_public_key.as_slice());
        let purpose = String::from_str("Reward distribution for ").concat(token_id.as_str());
        let request = DistributionRequest {
            vault_id: vault_id.clone(),
            reference_state_hash,
            timestamp: distribution_time,
        };
        let metadata = VaultMetadata {
            vault_id,
            purpose,
            creator_id,
            token_amount,
            token_id: token_id.clone(),
            created_at: now,
            distribution_time,
            recipients,
            status: post_status,
        };
        let ghost q = self.queue();
        self.vault_registry.push(metadata);
        self.distribution_queue.push(request);
        proof {
            assert(self.vaults().drop_last() =~= vs);
            assert(self.queue() =~= q.push(
                DistributionRequestView {
                    vault_id: self.vaults().last().vault_id@,
                    reference_state_hash: rsh,
                    timestamp: distribution_time,
                },
            ));
        }
        Ok(())
    }
}

/// The metadata with its status replaced and every other field kept.
pub open spec fn with_status(md: VaultMetadata, status: VaultStatus) -> VaultMetadata {
    VaultMetadata { status, ..md }
}

/// The queue entries due by `now`, in queue order.
pub open spec fn ready_part(q: Seq<DistributionRequestView>, now: u64) -> Seq<
    DistributionRequestView,
>
    decreases q.len(),
{
    if q.len() == 0 {
        Seq::<DistributionRequestView>::empty()
    } else if q.last().timestamp <= now {
        ready_part(q.drop_last(), now).push(q.last())
    } else {
        ready_part(q.drop_last(), now)
    }
}

/// The queue entries not yet due by `now`, in queue order.
pub open spec fn pending_part(q: Seq<DistributionRequestView>, now: u64) -> Seq<
    DistributionRequestView,
>
    decreases q.len(),
{
    if q.len() == 0 {
        Seq::<DistributionRequestView>::empty()
    } else if q.last().timestamp > now {
        pending_part(q.drop_last(), now).push(q.last())
    } else {
        pending_part(q.drop_last(), now)
    }
}

impl RewardVaultManager {
    /// Move a vault to a new status.  Statuses only progress: a terminal
    /// status never changes, so a transition away from one is refused and
    /// the registry is left as it was.
    pub fn update_vault_status(&mut self, vault_id: &String, status: VaultStatus) -> (r: Result<
        (),
        EngineError,
    >)
        requires
            old(self).wf(),
        ensures
            final(self).wf(),
            r is Ok <==> (find_vault(old(self).vaults(), vault_id@) matches Some(md)
                && status_can_step(md.status, status)),
            find_vault(old(self).vaults(), vault_id@) is None ==> (r matches Err(e) && e
                is NotFound),
            r is Err ==> *final(self) == *old(self),
            r matches Err(e) ==> e is NotFound || e is InvalidArgument,
            r is Ok ==> find_vault(final(self).vaults(), vault_id@) == Some(
                with_status(find_vault(old(self).vaults(), vault_id@)->Some_0, status),
            ),
            r is Ok ==> forall|id: Seq<char>|
                id != vault_id@ ==> find_vault(final(self).vaults(), id) == find_vault(
                    old(self).vaults(),
                    id,
                ),
            final(self).vaults().len() == old(self).vaults().len(),
            final(self).receipt_entries() == old(self).receipt_entries(),
            final(self).schedule() == old(self).schedule(),
            final(self).queue() == old(self).queue(),
            final(self).channel() == old(self).channel(),
            statuses_progress(old(self).vaults(), final(self).vaults()),
    {
        let ghost vs = self.vaults();
        match self.find_vault_index(vault_id) {
            None => {
                proof {
                    lemma_find_vault_missing(vs, vault_id@);
                }
                Err(EngineError::NotFound("no vault with this id".to_owned()))
            },
            Some(i) => {
                proof {
                    lemma_find_vault_at(vs, vault_id@, i as int);
                }
                let current = self.vault_registry[i].status;
                if current == status || current == VaultStatus::Pending {
                    self.vault_registry[i].status = status;
                    proof {
                        let md = with_status(vs[i as int], status);
                        assert(self.vaults() =~= vs.update(i as int, md));
                        lemma_find_vault_update(vs, i as int, md, vault_id@);
                        assert forall|id: Seq<char>| id != vault_id@ implies find_vault(
                            self.vaults(),
                            id,
                        ) == find_vault(vs, id) by {
                            lemma_find_vault_update(vs, i as int, md, id);
                        }
                    }
                    Ok(())
                } else {
                    Err(
                        EngineError::InvalidArgument(
                            "a terminal vault status cannot change".to_owned(),
                        ),
                    )
                }
            },
        }
    }

    /// Split the queue by `now`: entries due by then come out in insertion
    /// order, the rest stay queued.  An entry whose time equals `now` is
    /// ready.
    pub fn take_ready(&mut self, now: u64) -> (ready: Vec<DistributionRequest>)
        requires
            old(self).wf(),
        ensures
            final(self).wf(),
            ready.deep_view() == ready_part(old(self).queue(), now),
            final(self).queue() == pending_part(old(self).queue(), now),
            final(self).vaults() == old(self).vaults(),
            final(self).receipt_entries() == old(self).receipt_entries(),
            final(self).schedule() == old(self).schedule(),
            final(self).channel() == old(self).channel(),
            statuses_progress(old(self).vaults(), final(self).vaults()),
    {
        let ghost q = self.queue();
        let mut ready: Vec<DistributionRequest> = Vec::new();
        let mut pending: Vec<DistributionRequest> = Vec::new();
        proof {
            assert(q.take(0) =~= Seq::<DistributionRequestView>::empty());
            assert(ready.deep_view() =~= Seq::<DistributionRequestView>::empty());
            assert(pending.deep_view() =~= Seq::<DistributionRequestView>::empty());
        }
        let mut i: usize = 0;
        while i < self.distribution_queue.len()
            invariant
                q == self.distribution_queue.deep_view(),
                q.len() == self.distribution_queue.len(),
                i <= q.len(),
                ready.deep_view() == ready_part(q.take(i as int), now),
                pending.deep_view() == pending_part(q.take(i as int), now),
            decreases self.distribution_queue.len() - i,
        {
            let entry = self.distribution_queue[i].clone();
            let ghost ev = entry@;
            proof {
                assert(ev == q[i as int]);
                assert(q.take(i + 1).drop_last() =~= q.take(i as int));
                assert(q.take(i + 1).last() == q[i as int]);
            }
            if entry.timestamp <= now {
                let ghost prev = ready.deep_view();
                ready.push(entry);
                proof {
                    assert(ready.deep_view() =~= prev.push(ev));
                }
            } else {
                let ghost prev = pending.deep_view();
                pending.push(entry);
                proof {
                    assert(pending.deep_view() =~= prev.push(ev));
                }
            }
            i = i + 1;
        }
        proof {
            assert(q.take(q.len() as int) =~= q);
        }
        self.distribution_queue = pending;
        ready
    }

    /// Publish a distribution result on the bounded channel; a full channel
    /// refuses it.
    pub fn publish_result(&mut self, result: DistributionResult) -> (ok: bool)
        requires
            old(self).wf(),
        ensures
            final(self).wf(),
            ok <==> old(self).channel().queued().len() < old(self).channel().cap(),
            ok ==> final(self).channel().queued() == old(self).channel().queued().push(result@),
            !ok ==> final(self).channel() == old(self).channel(),
            final(self).channel().cap() == old(self).channel().cap(),
            final(self).vaults() == old(self).vaults(),
            final(self).receipt_entries() == old(self).receipt_entries(),
            final(self).schedule() == old(self).schedule(),
            final(self).queue() == old(self).queue(),
            statuses_progress(old(self).vaults(), final(self).vaults()),
    {
        self.results.try_publish(result)
    }

    /// Take the oldest published result, if any.
    pub fn next_result(&mut self) -> (r: Option<DistributionResult>)
        requires
            old(self).wf(),
        ensures
            final(self).wf(),
            old(self).channel().queued().len() == 0 ==> r is None && *final(self) == *old(self),
            old(self).channel().queued().len() > 0 ==> (r matches Some(res) && res@ == old(
                self,
            ).channel().queued()[0] && final(self).channel().queued() == old(
                self,
            ).channel().queued().drop_first()),
            final(self).channel().cap() == old(self).channel().cap(),
            final(self).vaults() == old(self).vaults(),
            final(self).receipt_entries() == old(self).receipt_entries(),
            final(self).schedule() == old(self).schedule(),
            final(self).queue() == old(self).queue(),
            statuses_progress(old(self).vaults(), final(self).vaults()),
    {
        self.results.next_result()
    }
}

/// What a tick must do next for one request.
#[derive(Debug)]
pub enum DistributionStep {
    /// No custody call is to be made; publish this result as it stands.
    Finished(DistributionResult),
    /// Ask the custody adapter to unlock the vault with these parameters,
    /// then report the outcome to `finish_distribution`.
    AttemptUnlock(UnlockAttempt),
}

/// Parameters of an unlock attempt against the custody adapter.
#[derive(Debug)]
pub struct UnlockAttempt {
    /// The vault to unlock.
    pub vault_id: String,
    /// Hash of the reference state the time proof speaks about.
    pub reference_state_hash: Vec<u8>,
}

/// How an unlock-and-claim attempt against the custody adapter ended.
#[derive(Debug)]
pub enum DistributionOutcome {
    /// The adapter declined the unlock: the release condition is not met.
    UnlockDeclined,
    /// The adapter failed while unlocking.
    UnlockFailed(String),
    /// The unlock went through, but claiming the content failed.
    ClaimFailed(String),
    /// The unlock and the claim went through, yielding the sealed bytes.
    Claimed(Vec<u8>),
}

impl RewardVaultManager {
    /// Decide what to do for one due request: a vault that is missing, no
    /// longer pending, or not yet due gets a final non-success result and
    /// the custody adapter is not invoked; otherwise the vault is to be
    /// unlocked.
    pub fn begin_distribution(&self, request: &DistributionRequest, now: u64) -> (r:
        DistributionStep)
        ensures
            r is AttemptUnlock <==> (find_vault(self.vaults(), request.vault_id@) matches Some(md)
                && md.status is Pending && now >= md.distribution_time),
            r matches DistributionStep::AttemptUnlock(a) ==> a.vault_id@ == request.vault_id@
                && a.reference_state_hash@ == request.reference_state_hash@,
            r matches DistributionStep::Finished(res) ==> !res.success && res.vault_id@
                == request.vault_id@ && res.timestamp == now && res.error is Some
                && res.distribution_details is None,
    {
        let ghost vs = self.vaults();
        match self.find_vault_index(&request.vault_id) {
            None => {
                proof {
                    lemma_find_vault_missing(vs, request.vault_id@);
                }
                DistributionStep::Finished(
                    DistributionResult {
                        vault_id: request.vault_id.clone(),
                        success: false,
                        timestamp: now,
                        error: Some("vault not found".to_owned()),
                        distribution_details: None,
                    },
                )
            },
            Some(i) => {
                proof {
                    lemma_find_vault_at(vs, request.vault_id@, i as int);
                }
                let status = self.vault_registry[i].status;
                if !(status == VaultStatus::Pending) {
                    DistributionStep::Finished(
                        DistributionResult {
                            vault_id: request.vault_id.clone(),
                            success: false,
                            timestamp: now,
                            error: Some("vault is no longer pending".to_owned()),
                            distribution_details: None,
                        },
                    )
                } else if now < self.vault_registry[i].distribution_time {
                    DistributionStep::Finished(
                        DistributionResult {
                            vault_id: request.vault_id.clone(),
                            success: false,
                            timestamp: now,
                            error: Some("not yet time to distribute".to_owned()),
                            distribution_details: None,
                        },
                    )
                } else {
                    DistributionStep::AttemptUnlock(
                        UnlockAttempt {
                            vault_id: request.vault_id.clone(),
                            reference_state_hash: slice_to_vec(
                                request.reference_state_hash.as_slice(),
                            ),
                        },
                    )
                }
            },
        }
    }

    /// Record the outcome the custody adapter reported for one vault.  Only
    /// a successful claim with well-formed content moves the vault to
    /// `Claimed` and carries distribution amounts: each recipient gets its
    /// ratio applied to the sealed token amount.  Every other outcome
    /// leaves the registry untouched and reports a non-success.
    pub fn finish_distribution(
        &mut self,
        vault_id: &String,
        now: u64,
        outcome: DistributionOutcome,
    ) -> (res: DistributionResult)
        requires
            old(self).wf(),
        ensures
            final(self).wf(),
            res.vault_id@ == vault_id@,
            res.timestamp == now,
            res.success <==> (outcome matches DistributionOutcome::Claimed(bytes) && dec_content(
                bytes@,
            ) is Some && (find_vault(old(self).vaults(), vault_id@) matches Some(md) && md.status
                is Pending)),
            !res.success ==> *final(self) == *old(self) && res.distribution_details is None
                && res.error is Some,
            res.success ==> find_vault(final(self).vaults(), vault_id@) == Some(
                with_status(find_vault(old(self).vaults(), vault_id@)->Some_0, VaultStatus::Claimed),
            ),
            res.success ==> forall|id: Seq<char>|
                id != vault_id@ ==> find_vault(final(self).vaults(), id) == find_vault(
                    old(self).vaults(),
                    id,
                ),
            res.success ==> (outcome matches DistributionOutcome::Claimed(bytes)
                && res.distribution_details matches Some(details) && {
                let content = dec_content(bytes@)->Some_0;
                &&& details.deep_view().len() == content.recipients.len()
                &&& forall|j: int|
                    0 <= j < content.recipients.len() ==> (#[trigger] details.deep_view()[j]).0
                        == content.recipients[j].0 && details.deep_view()[j].1
                        == content.recipients[j].1.apply_to_spec(content.token_amount)
            }),
            final(self).vaults().len() == old(self).vaults().len(),
            final(self).receipt_entries() == old(self).receipt_entries(),
            final(self).schedule() == old(self).schedule(),
            final(self).queue() == old(self).queue(),
            final(self).channel() == old(self).channel(),
            statuses_progress(old(self).vaults(), final(self).vaults()),
    {
        let failure_message: String = match &outcome {
            DistributionOutcome::UnlockDeclined => {
                "failed to unlock vault: conditions not met".to_owned()
            },
            DistributionOutcome::UnlockFailed(e) => e.clone(),
            DistributionOutcome::ClaimFailed(e) => e.clone(),
            DistributionOutcome::Claimed(_) => String::new(),
        };
        let bytes = match outcome {
            DistributionOutcome::Claimed(bytes) => bytes,
            _ => {
                return DistributionResult {
                    vault_id: vault_id.clone(),
                    success: false,
                    timestamp: now,
                    error: Some(failure_message),
                    distribution_details: None,
                };
            },
        };
        let content = match decode_vault_content(bytes.as_slice()) {
            Ok(content) => content,
            Err(_) => {
                return DistributionResult {
                    vault_id: vault_id.clone(),
                    success: false,
                    timestamp: now,
                    error: Some("vault content bytes are malformed".to_owned()),
                    distribution_details: None,
                };
            },
        };
        proof {
            lemma_dec_content_ratios_wf(bytes@);
        }
        let ghost vs = self.vaults();
        let pending_here = match self.find_vault_index(vault_id) {
            None => {
                proof {
                    lemma_find_vault_missing(vs, vault_id@);
                }
                false
            },
            Some(i) => {
                proof {
                    lemma_find_vault_at(vs, vault_id@, i as int);
                }
                self.vault_registry[i].status == VaultStatus::Pending
            },
        };
        if !pending_here {
            return DistributionResult {
                vault_id: vault_id.clone(),
                success: false,
                timestamp: now,
                error: Some("vault is missing or no longer pending".to_owned()),
                distribution_details: None,
            };
        }
        let mut details: Vec<(String, u64)> = Vec::new();
        let ghost crs = content.recipients.deep_view();
        proof {
            assert(details.deep_view() =~= Seq::<(Seq<char>, u64)>::empty());
        }
        let mut j: usize = 0;
        while j < content.recipients.len()
            invariant
                crs == content.recipients.deep_view(),
                crs.len() == content.recipients.len(),
                j <= crs.len(),
                forall|t: int| 0 <= t < crs.len() ==> (#[trigger] crs[t]).1.wf(),
                details.deep_view().len() == j,
                content.token_amount == content@.token_amount,
                forall|t: int|
                    0 <= t < j ==> (#[trigger] details.deep_view()[t]).0 == crs[t].0
                        && details.deep_view()[t].1 == crs[t].1.apply_to_spec(
                        content@.token_amount,
                    ),
            decreases content.recipients.len() - j,
        {
            proof {
                assert(crs[j as int].1 == content.recipients@[j as int].1);
                assert(crs[j as int].0 == content.recipients@[j as int].0@);
            }
            let amount = content.recipients[j].1.apply_to(content.token_amount);
            let ghost prev = details.deep_view();
            let entry = (content.recipients[j].0.clone(), amount);
            let ghost ev = entry.deep_view();
            details.push(entry);
            proof {
                assert(details.deep_view() =~= prev.push(ev));
            }
            j = j + 1;
        }
        match self.update_vault_status(vault_id, VaultStatus::Claimed) {
            Ok(_) => {},
            Err(_) => {
                return DistributionResult {
                    vault_id: vault_id.clone(),
                    success: false,
                    timestamp: now,
                    error: Some("vault is missing or no longer pending".to_owned()),
                    distribution_details: None,
                };
            },
        }
        DistributionResult {
            vault_id: vault_id.clone(),
            success: true,
            timestamp: now,
            error: None,
            distribution_details: Some(details),
        }
    }
}

/// A distribution can still succeed for this vault: it is registered and
/// pending.
pub open spec fn success_possible(vs: Seq<VaultMetadata>, id: Seq<char>) -> bool {
    find_vault(vs, id) matches Some(md) && md.status is Pending
}

/// A found vault sits at a first index holding its id.
proof fn lemma_find_vault_index_of(vs: Seq<VaultMetadata>, id: Seq<char>)
    ensures
        find_vault(vs, id) matches Some(md) ==> exists|idx: int|
            0 <= idx < vs.len() && #[trigger] vs[idx] == md && vs[idx].vault_id@ == id && forall|
                j: int,
            | 0 <= j < idx ==> (#[trigger] vs[j]).vault_id@ != id,
    decreases vs.len(),
{
    if vs.len() > 0 && find_vault(vs, id) is Some {
        if vs[0].vault_id@ == id {
            assert(vs[0] == find_vault(vs, id)->Some_0);
        } else {
            lemma_find_vault_index_of(vs.drop_first(), id);
            let md = find_vault(vs, id)->Some_0;
            let idx = choose|idx: int|
                0 <= idx < vs.drop_first().len() && #[trigger] vs.drop_first()[idx] == md
                    && vs.drop_first()[idx].vault_id@ == id && forall|j: int|
                    0 <= j < idx ==> (#[trigger] vs.drop_first()[j]).vault_id@ != id;
            assert(vs[idx + 1] == vs.drop_first()[idx]);
            assert forall|j: int| 0 <= j < idx + 1 implies (#[trigger] vs[j]).vault_id@ != id by {
                if j > 0 {
                    assert(vs.drop_first()[j - 1] == vs[j]);
                }
            }
        }
    }
}

/// Exactly-once distribution: a successful distribution demands a pending
/// vault and leaves it claimed, and once a vault has left `Pending`, no
/// progression of the registry — under any sequence of engine operations —
/// makes another success possible for its id.
pub proof fn lemma_success_at_most_once(
    pre: Seq<VaultMetadata>,
    post: Seq<VaultMetadata>,
    id: Seq<char>,
)
    requires
        statuses_progress(pre, post),
        find_vault(pre, id) is Some,
        !success_possible(pre, id),
    ensures
        !success_possible(post, id),
{
    lemma_find_vault_index_of(pre, id);
    let idx = choose|idx: int|
        0 <= idx < pre.len() && #[trigger] pre[idx] == find_vault(pre, id)->Some_0
            && pre[idx].vault_id@ == id && forall|j: int|
            0 <= j < idx ==> (#[trigger] pre[j]).vault_id@ != id;
    assert forall|j: int| 0 <= j < idx implies (#[trigger] post[j]).vault_id@ != id by {
        assert(post[j].vault_id@ == pre[j].vault_id@);
    }
    lemma_find_vault_at(post, id, idx);
}

/// The engine permits duplicate receipts: processing the same receipt
/// twice appends two equal entries, and a caller that deduplicates by
/// receipt hash simply skips the second call.
pub proof fn lemma_duplicate_receipts_append(base: Seq<StorageReceipt>, r: StorageReceipt)
    ensures
        base.push(r).push(r) == base + seq![r, r],
        base.push(r).push(r)[base.len() as int] == r,
        base.push(r).push(r)[base.len() as int + 1] == r,
{
    assert(base.push(r).push(r) =~= base + seq![r, r]);
}

/// Every registered vault's recipient ratios sum within the tolerance
/// around one: creation refuses anything else, and nothing later touches
/// a vault's recipients.
pub proof fn lemma_registered_vaults_ratio_sum(m: RewardVaultManager)
    requires
        m.wf(),
    ensures
        forall|i: int|
            0 <= i < m.vaults().len() ==> RATIO_SUM_MIN <= ratio_sum(
                (#[trigger] m.vaults()[i]).recipients.deep_view(),
            ) <= RATIO_SUM_MAX,
{
}

/// Every recorded receipt was accepted, so its hash field carries the
/// BLAKE3 digest of its canonical encoding and both signatures are
/// present.
pub proof fn lemma_recorded_receipts_hash_ok(m: RewardVaultManager, node: Seq<char>)
    requires
        m.wf(),
    ensures
        forall|j: int|
            0 <= j < m.node_receipts(node).len() ==> (#[trigger] m.node_receipts(node)[j]).hash_ok()
                && m.node_receipts(node)[j].acceptable(),
{
    lemma_find_receipts_is_stored(m.receipt_entries(), node);
}

/// Whatever the lookup returns is one of the stored entry lists.
proof fn lemma_find_receipts_is_stored(
    entries: Seq<(String, Vec<StorageReceipt>)>,
    node: Seq<char>,
)
    requires
        receipts_entries_wf(entries),
    ensures
        forall|j: int|
            0 <= j < find_receipts(entries, node).len() ==> (#[trigger] find_receipts(
                entries,
                node,
            )[j]).acceptable(),
    decreases entries.len(),
{
    if entries.len() > 0 {
        if entries[0].0@ == node {
            assert(find_receipts(entries, node) == entries[0].1@);
            assert forall|j: int|
                0 <= j < find_receipts(entries, node).len() implies (#[trigger] find_receipts(
                entries,
                node,
            )[j]).acceptable() by {
                assert(0 < entries.len() && 0 <= j < entries[0].1@.len());
                assert(entries[0].1@[j].acceptable());
            }
        } else {
            assert forall|i: int, j: int|
                0 <= i < entries.drop_first().len() && 0 <= j
                    < (#[trigger] entries.drop_first()[i]).1@.len() implies (
                #[trigger] entries.drop_first()[i].1@[j]).acceptable()
                && entries.drop_first()[i].1@[j].node_id@ == entries.drop_first()[i].0@ by {
                assert(entries.drop_first()[i] == entries[i + 1]);
            }
            lemma_find_receipts_is_stored(entries.drop_first(), node);
            assert(find_receipts(entries, node) == find_receipts(entries.drop_first(), node));
        }
    }
}

/// Progression composes: across any sequence of engine operations, each of
/// which only lets statuses progress, statuses still only progress — there
/// is no path back from a terminal status.
pub proof fn lemma_statuses_progress_trans(
    pre: Seq<VaultMetadata>,
    mid: Seq<VaultMetadata>,
    post: Seq<VaultMetadata>,
)
    requires
        statuses_progress(pre, mid),
        statuses_progress(mid, post),
    ensures
        statuses_progress(pre, post),
{
    assert forall|i: int|
        0 <= i < pre.len() implies (#[trigger] post[i]).vault_id@ == pre[i].vault_id@
        && status_can_step(pre[i].status, post[i].status) by {
        assert(mid[i].vault_id@ == pre[i].vault_id@);
        assert(status_can_step(pre[i].status, mid[i].status));
        assert(status_can_step(mid[i].status, post[i].status));
    }
}

} // verus!

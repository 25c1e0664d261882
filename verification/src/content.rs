//! Sealed vault content and its deterministic encoding.
//!
//! The content handed to the custody adapter is encoded field by field with
//! length prefixes, so the same content always yields byte-identical output,
//! and decoding an encoding yields the content back.

use vstd::prelude::*;
use vstd::utf8::encode_utf8;
use crate::codec::{
    enc_str, enc_u64, lemma_parse_str_at, lemma_parse_u64_at, parse_str, parse_u64, read_str,
    read_u64, write_str, write_u64,
};
use crate::errors::EngineError;
use crate::ratio::{Ratio, RATIO_SCALE};

verus! {

broadcast use crate::codec::lemma_enc_u64_len;

/// The spec-level image of a vault's sealed content.
pub ghost struct VaultContentView {
    pub token_amount: u64,
    pub token_id: Seq<char>,
    pub recipients: Seq<(Seq<char>, Ratio)>,
    pub metadata: Seq<(Seq<char>, Seq<char>)>,
}

/// Content sealed into a vault at creation and recovered at claim time.
#[derive(Debug)]
pub struct VaultContent {
    /// Total token amount in the vault.
    pub token_amount: u64,
    /// Token (currency) the amount is denominated in.
    pub token_id: String,
    /// Recipient shares by node id.
    pub recipients: Vec<(String, Ratio)>,
    /// Additional free-form metadata.
    pub metadata: Vec<(String, String)>,
}

impl View for VaultContent {
    type V = VaultContentView;

    open spec fn view(&self) -> VaultContentView {
        VaultContentView {
            token_amount: self.token_amount,
            token_id: self.token_id@,
            recipients: self.recipients.deep_view(),
            metadata: self.metadata.deep_view(),
        }
    }
}

/// The recipient list, each entry a string and a raw ratio value.
pub open spec fn enc_rec_pairs(rs: Seq<(Seq<char>, Ratio)>) -> Seq<u8>
    decreases rs.len(),
{
    if rs.len() == 0 {
        Seq::<u8>::empty()
    } else {
        enc_str(rs[0].0) + enc_u64(rs[0].1.raw_spec()) + enc_rec_pairs(rs.drop_first())
    }
}

/// The metadata list, each entry two strings.
pub open spec fn enc_meta_pairs(ms: Seq<(Seq<char>, Seq<char>)>) -> Seq<u8>
    decreases ms.len(),
{
    if ms.len() == 0 {
        Seq::<u8>::empty()
    } else {
        enc_str(ms[0].0) + enc_str(ms[0].1) + enc_meta_pairs(ms.drop_first())
    }
}

/// The encoding of a whole content value: amount, token id, then both lists,
/// each with its length in front.
pub open spec fn enc_content(v: VaultContentView) -> Seq<u8> {
    enc_u64(v.token_amount) + enc_str(v.token_id) + enc_u64(v.recipients.len() as u64)
        + enc_rec_pairs(v.recipients) + enc_u64(v.metadata.len() as u64)
        + enc_meta_pairs(v.metadata)
}

/// Every string and list in the view is small enough for its length prefix.
pub open spec fn content_lens_bounded(v: VaultContentView) -> bool {
    &&& encode_utf8(v.token_id).len() <= u64::MAX
    &&& v.recipients.len() <= u64::MAX
    &&& v.metadata.len() <= u64::MAX
    &&& (forall|i: int|
        0 <= i < v.recipients.len() ==> encode_utf8((#[trigger] v.recipients[i]).0).len()
            <= u64::MAX)
    &&& (forall|i: int|
        0 <= i < v.metadata.len() ==> encode_utf8((#[trigger] v.metadata[i]).0).len() <= u64::MAX
            && encode_utf8(v.metadata[i].1).len() <= u64::MAX)
}

/// A view fit for encoding: bounded lengths and every ratio at most one.
pub open spec fn content_view_wf(v: VaultContentView) -> bool {
    &&& content_lens_bounded(v)
    &&& (forall|i: int| 0 <= i < v.recipients.len() ==> (#[trigger] v.recipients[i]).1.wf())
}

/// Parse `n` recipient entries starting at `i`.
pub open spec fn parse_rec_pairs(bytes: Seq<u8>, i: int, n: u64) -> Option<
    (Seq<(Seq<char>, Ratio)>, int),
>
    decreases n,
{
    if n == 0 {
        Some((Seq::<(Seq<char>, Ratio)>::empty(), i))
    } else {
        match parse_str(bytes, i) {
            Option::None => Option::None,
            Option::Some((s, j)) => match parse_u64(bytes, j) {
                Option::None => Option::None,
                Option::Some((raw, k)) => {
                    if raw <= RATIO_SCALE {
                        match parse_rec_pairs(bytes, k, (n - 1) as u64) {
                            Option::None => Option::None,
                            Option::Some((rest, end)) => Some(
                                (seq![(s, Ratio::spec_from_raw(raw))] + rest, end),
                            ),
                        }
                    } else {
                        None
                    }
                },
            },
        }
    }
}

/// Parse `n` metadata entries starting at `i`.
pub open spec fn parse_meta_pairs(bytes: Seq<u8>, i: int, n: u64) -> Option<
    (Seq<(Seq<char>, Seq<char>)>, int),
>
    decreases n,
{
    if n == 0 {
        Some((Seq::<(Seq<char>, Seq<char>)>::empty(), i))
    } else {
        match parse_str(bytes, i) {
            Option::None => Option::None,
            Option::Some((s, j)) => match parse_str(bytes, j) {
                Option::None => Option::None,
                Option::Some((t, k)) => match parse_meta_pairs(bytes, k, (n - 1) as u64) {
                    Option::None => Option::None,
                    Option::Some((rest, end)) => Some((seq![(s, t)] + rest, end)),
                },
            },
        }
    }
}

/// Decode a whole content value; trailing bytes are refused.
pub open spec fn dec_content(bytes: Seq<u8>) -> Option<VaultContentView> {
    match parse_u64(bytes, 0) {
        Option::None => Option::None,
        Option::Some((amount, p1)) => match parse_str(bytes, p1) {
            Option::None => Option::None,
            Option::Some((tid, p2)) => match parse_u64(bytes, p2) {
                Option::None => Option::None,
                Option::Some((n, p3)) => match parse_rec_pairs(bytes, p3, n) {
                    Option::None => Option::None,
                    Option::Some((rs, p4)) => match parse_u64(bytes, p4) {
                        Option::None => Option::None,
                        Option::Some((m, p5)) => match parse_meta_pairs(bytes, p5, m) {
                            Option::None => Option::None,
                            Option::Some((ms, p6)) => {
                                if p6 == bytes.len() {
                                    Some(
                                        VaultContentView {
                                            token_amount: amount,
                                            token_id: tid,
                                            recipients: rs,
                                            metadata: ms,
                                        },
                                    )
                                } else {
                                    None
                                }
                            },
                        },
                    },
                },
            },
        },
    }
}

/// Appending one recipient entry appends its encoding.
proof fn lemma_enc_rec_pairs_push(rs: Seq<(Seq<char>, Ratio)>, p: (Seq<char>, Ratio))
    ensures
        enc_rec_pairs(rs.push(p)) == enc_rec_pairs(rs) + enc_str(p.0) + enc_u64(p.1.raw_spec()),
    decreases rs.len(),
{
    if rs.len() == 0 {
        assert(rs.push(p)[0] == p);
        assert(rs.push(p).drop_first() =~= rs);
        assert(enc_rec_pairs(rs.push(p)) =~= enc_rec_pairs(rs) + enc_str(p.0) + enc_u64(
            p.1.raw_spec(),
        ));
    } else {
        assert(rs.push(p).drop_first() =~= rs.drop_first().push(p));
        lemma_enc_rec_pairs_push(rs.drop_first(), p);
        assert(enc_rec_pairs(rs.push(p)) =~= enc_rec_pairs(rs) + enc_str(p.0) + enc_u64(
            p.1.raw_spec(),
        ));
    }
}

/// Appending one metadata entry appends its encoding.
proof fn lemma_enc_meta_pairs_push(ms: Seq<(Seq<char>, Seq<char>)>, p: (Seq<char>, Seq<char>))
    ensures
        enc_meta_pairs(ms.push(p)) == enc_meta_pairs(ms) + enc_str(p.0) + enc_str(p.1),
    decreases ms.len(),
{
    if ms.len() == 0 {
        assert(ms.push(p)[0] == p);
        assert(ms.push(p).drop_first() =~= ms);
        assert(enc_meta_pairs(ms.push(p)) =~= enc_meta_pairs(ms) + enc_str(p.0) + enc_str(p.1));
    } else {
        assert(ms.push(p).drop_first() =~= ms.drop_first().push(p));
        lemma_enc_meta_pairs_push(ms.drop_first(), p);
        assert(enc_meta_pairs(ms.push(p)) =~= enc_meta_pairs(ms) + enc_str(p.0) + enc_str(p.1));
    }
}

/// Parsing an encoded recipient list back yields the list.
proof fn lemma_parse_rec_pairs_at(bytes: Seq<u8>, i: int, rs: Seq<(Seq<char>, Ratio)>)
    requires
        0 <= i,
        rs.len() <= u64::MAX,
        i + enc_rec_pairs(rs).len() <= bytes.len(),
        bytes.subrange(i, i + enc_rec_pairs(rs).len()) == enc_rec_pairs(rs),
        forall|j: int|
            0 <= j < rs.len() ==> encode_utf8((#[trigger] rs[j]).0).len() <= u64::MAX
                && rs[j].1.wf(),
    ensures
        parse_rec_pairs(bytes, i, rs.len() as u64) == Some(
            (rs, i + enc_rec_pairs(rs).len()),
        ),
    decreases rs.len(),
{
    if rs.len() == 0 {
        assert(rs =~= Seq::<(Seq<char>, Ratio)>::empty());
    } else {
        let s0 = rs[0].0;
        let r0 = rs[0].1;
        let tail = rs.drop_first();
        let whole = enc_rec_pairs(rs);
        let l0 = enc_str(s0).len() as int;
        let lrest = enc_rec_pairs(tail).len() as int;
        let total = whole.len() as int;
        assert(total == l0 + 8 + lrest);
        assert(bytes.subrange(i, i + l0) =~= whole.subrange(0, l0));
        assert(whole.subrange(0, l0) =~= enc_str(s0));
        lemma_parse_str_at(bytes, i, s0);
        let j = i + l0;
        assert(bytes.subrange(j, j + 8) =~= whole.subrange(l0, l0 + 8));
        assert(whole.subrange(l0, l0 + 8) =~= enc_u64(r0.raw_spec()));
        lemma_parse_u64_at(bytes, j, r0.raw_spec());
        let k = j + 8;
        assert(bytes.subrange(k, k + lrest) =~= whole.subrange(l0 + 8, total));
        assert(whole.subrange(l0 + 8, total) =~= enc_rec_pairs(tail));
        assert forall|t: int| 0 <= t < tail.len() implies encode_utf8(
            (#[trigger] tail[t]).0,
        ).len() <= u64::MAX && tail[t].1.wf() by {
            assert(tail[t] == rs[t + 1]);
        }
        lemma_parse_rec_pairs_at(bytes, k, tail);
        crate::ratio::lemma_spec_from_raw(r0.raw_spec());
        crate::ratio::lemma_ratio_eq(Ratio::spec_from_raw(r0.raw_spec()), r0);
        assert(seq![(s0, r0)] + tail =~= rs);
        assert((rs.len() as u64 - 1) as u64 == tail.len() as u64);
    }
}

/// Parsing an encoded metadata list back yields the list.
proof fn lemma_parse_meta_pairs_at(bytes: Seq<u8>, i: int, ms: Seq<(Seq<char>, Seq<char>)>)
    requires
        0 <= i,
        ms.len() <= u64::MAX,
        i + enc_meta_pairs(ms).len() <= bytes.len(),
        bytes.subrange(i, i + enc_meta_pairs(ms).len()) == enc_meta_pairs(ms),
        forall|j: int|
            0 <= j < ms.len() ==> encode_utf8((#[trigger] ms[j]).0).len() <= u64::MAX
                && encode_utf8(ms[j].1).len() <= u64::MAX,
    ensures
        parse_meta_pairs(bytes, i, ms.len() as u64) == Some(
            (ms, i + enc_meta_pairs(ms).len()),
        ),
    decreases ms.len(),
{
    if ms.len() == 0 {
        assert(ms =~= Seq::<(Seq<char>, Seq<char>)>::empty());
    } else {
        let s0 = ms[0].0;
        let t0 = ms[0].1;
        let tail = ms.drop_first();
        let whole = enc_meta_pairs(ms);
        let l0 = enc_str(s0).len() as int;
        let l1 = enc_str(t0).len() as int;
        let lrest = enc_meta_pairs(tail).len() as int;
        let total = whole.len() as int;
        assert(total == l0 + l1 + lrest);
        assert(bytes.subrange(i, i + l0) =~= whole.subrange(0, l0));
        assert(whole.subrange(0, l0) =~= enc_str(s0));
        lemma_parse_str_at(bytes, i, s0);
        let j = i + l0;
        assert(bytes.subrange(j, j + l1) =~= whole.subrange(l0, l0 + l1));
        assert(whole.subrange(l0, l0 + l1) =~= enc_str(t0));
        lemma_parse_str_at(bytes, j, t0);
        let k = j + l1;
        assert(bytes.subrange(k, k + lrest) =~= whole.subrange(l0 + l1, total));
        assert(whole.subrange(l0 + l1, total) =~= enc_meta_pairs(tail));
        assert forall|t: int| 0 <= t < tail.len() implies encode_utf8(
            (#[trigger] tail[t]).0,
        ).len() <= u64::MAX && encode_utf8(tail[t].1).len() <= u64::MAX by {
            assert(tail[t] == ms[t + 1]);
        }
        lemma_parse_meta_pairs_at(bytes, k, tail);
        assert(seq![(s0, t0)] + tail =~= ms);
        assert((ms.len() as u64 - 1) as u64 == tail.len() as u64);
    }
}

/// Decoding an encoding yields the original content: the round trip over the
/// deterministic content format is the identity on well-formed views.
pub proof fn lemma_content_round_trip(v: VaultContentView)
    requires
        content_view_wf(v),
    ensures
        dec_content(enc_content(v)) == Some(v),
{
    let bytes = enc_content(v);
    let l1 = enc_str(v.token_id).len() as int;
    let l3 = enc_rec_pairs(v.recipients).len() as int;
    let l5 = enc_meta_pairs(v.metadata).len() as int;
    let total = bytes.len() as int;
    assert(total == 8 + l1 + 8 + l3 + 8 + l5);
    assert(bytes.subrange(0, 8) =~= enc_u64(v.token_amount));
    lemma_parse_u64_at(bytes, 0, v.token_amount);
    let p1 = 8;
    assert(bytes.subrange(p1, p1 + l1) =~= enc_str(v.token_id));
    lemma_parse_str_at(bytes, p1, v.token_id);
    let p2 = p1 + l1;
    assert(bytes.subrange(p2, p2 + 8) =~= enc_u64(v.recipients.len() as u64));
    lemma_parse_u64_at(bytes, p2, v.recipients.len() as u64);
    let p3 = p2 + 8;
    assert(bytes.subrange(p3, p3 + l3) =~= enc_rec_pairs(v.recipients));
    lemma_parse_rec_pairs_at(bytes, p3, v.recipients);
    let p4 = p3 + l3;
    assert(bytes.subrange(p4, p4 + 8) =~= enc_u64(v.metadata.len() as u64));
    lemma_parse_u64_at(bytes, p4, v.metadata.len() as u64);
    let p5 = p4 + 8;
    assert(bytes.subrange(p5, p5 + l5) =~= enc_meta_pairs(v.metadata));
    lemma_parse_meta_pairs_at(bytes, p5, v.metadata);
}

/// Encode a content value deterministically.
pub fn encode_vault_content(c: &VaultContent) -> (out: Vec<u8>)
    ensures
        out@ == enc_content(c@),
        content_lens_bounded(c@),
{
    let ghost rs = c.recipients.deep_view();
    let ghost ms = c.metadata.deep_view();
    let mut out: Vec<u8> = Vec::new();
    write_u64(&mut out, c.token_amount);
    write_str(&mut out, c.token_id.as_str());
    write_u64(&mut out, c.recipients.len() as u64);
    let ghost head = out@;
    proof {
        assert(head + enc_rec_pairs(rs.take(0)) =~= head);
    }
    let mut i: usize = 0;
    while i < c.recipients.len()
        invariant
            rs == c.recipients.deep_view(),
            rs.len() == c.recipients.len(),
            i <= rs.len(),
            out@ == head + enc_rec_pairs(rs.take(i as int)),
            forall|j: int|
                0 <= j < i ==> encode_utf8((#[trigger] rs[j]).0).len() <= u64::MAX,
        decreases c.recipients.len() - i,
    {
        write_str(&mut out, c.recipients[i].0.as_str());
        write_u64(&mut out, c.recipients[i].1.raw_value());
        proof {
            assert(c.recipients[i as int].0@ == rs[i as int].0);
            assert(c.recipients[i as int].1 == rs[i as int].1);
            assert(rs.take(i + 1) =~= rs.take(i as int).push(rs[i as int]));
            lemma_enc_rec_pairs_push(rs.take(i as int), rs[i as int]);
            assert(out@ =~= head + enc_rec_pairs(rs.take(i + 1)));
            assert(encode_utf8(rs[i as int].0).len() <= u64::MAX);
        }
        i = i + 1;
    }
    proof {
        assert(rs.take(rs.len() as int) =~= rs);
    }
    let ghost mid = out@;
    write_u64(&mut out, c.metadata.len() as u64);
    let ghost head2 = out@;
    proof {
        assert(head2 + enc_meta_pairs(ms.take(0)) =~= head2);
    }
    let mut k: usize = 0;
    while k < c.metadata.len()
        invariant
            ms == c.metadata.deep_view(),
            ms.len() == c.metadata.len(),
            k <= ms.len(),
            out@ == head2 + enc_meta_pairs(ms.take(k as int)),
            forall|j: int|
                0 <= j < k ==> encode_utf8((#[trigger] ms[j]).0).len() <= u64::MAX && encode_utf8(
                    ms[j].1,
                ).len() <= u64::MAX,
        decreases c.metadata.len() - k,
    {
        write_str(&mut out, c.metadata[k].0.as_str());
        write_str(&mut out, c.metadata[k].1.as_str());
        proof {
            assert(c.metadata[k as int].0@ == ms[k as int].0);
            assert(c.metadata[k as int].1@ == ms[k as int].1);
            assert(ms.take(k + 1) =~= ms.take(k as int).push(ms[k as int]));
            lemma_enc_meta_pairs_push(ms.take(k as int), ms[k as int]);
            assert(out@ =~= head2 + enc_meta_pairs(ms.take(k + 1)));
            assert(encode_utf8(ms[k as int].0).len() <= u64::MAX);
            assert(encode_utf8(ms[k as int].1).len() <= u64::MAX);
        }
        k = k + 1;
    }
    proof {
        assert(ms.take(ms.len() as int) =~= ms);
        assert(out@ =~= enc_content(c@));
    }
    out
}

/// A serialization failure.
fn serialization_error() -> (r: EngineError)
    ensures
        r is Serialization,
{
    EngineError::Serialization("vault content bytes are malformed".to_owned())
}

/// Read `n` recipient entries.
fn read_rec_pairs(bytes: &[u8], pos: usize, n: u64) -> (r: Option<(Vec<(String, Ratio)>, usize)>)
    ensures
        match parse_rec_pairs(bytes@, pos as int, n) {
            Option::Some((s, j)) => r matches Some(p) && p.0.deep_view() == s && p.1 == j,
            Option::None => r is None,
        },
{
    let mut out: Vec<(String, Ratio)> = Vec::new();
    let mut cur: usize = pos;
    let mut k: u64 = 0;
    proof {
        assert(out.deep_view() =~= Seq::<(Seq<char>, Ratio)>::empty());
    }
    while k < n
        invariant
            k <= n,
            match parse_rec_pairs(bytes@, cur as int, (n - k) as u64) {
                Option::Some((rest, end)) => parse_rec_pairs(bytes@, pos as int, n)
                    == Some::<(Seq<(Seq<char>, Ratio)>, int)>((out.deep_view() + rest, end)),
                Option::None => parse_rec_pairs(bytes@, pos as int, n) is None,
            },
        decreases n - k,
    {
        let (s, j) = match read_str(bytes, cur) {
            Some(p) => p,
            None => {
                return None;
            },
        };
        let (raw, next) = match read_u64(bytes, j) {
            Some(p) => p,
            None => {
                return None;
            },
        };
        let ratio = match Ratio::from_raw(raw) {
            Ok(ratio) => ratio,
            Err(_) => {
                return None;
            },
        };
        let ghost prev = out.deep_view();
        let entry = (s, ratio);
        let ghost entry_view = entry.deep_view();
        out.push(entry);
        proof {
            assert(out.deep_view() =~= prev.push(entry_view));
            assert(prev + (seq![entry_view] + parse_rec_pairs(
                bytes@,
                next as int,
                (n - k - 1) as u64,
            )->Some_0.0) =~= out.deep_view() + parse_rec_pairs(
                bytes@,
                next as int,
                (n - k - 1) as u64,
            )->Some_0.0);
        }
        cur = next;
        k = k + 1;
    }
    proof {
        assert(out.deep_view() + Seq::<(Seq<char>, Ratio)>::empty() =~= out.deep_view());
    }
    Some((out, cur))
}

/// Read `n` metadata entries.
fn read_meta_pairs(bytes: &[u8], pos: usize, n: u64) -> (r: Option<(Vec<(String, String)>, usize)>)
    ensures
        match parse_meta_pairs(bytes@, pos as int, n) {
            Option::Some((s, j)) => r matches Some(p) && p.0.deep_view() == s && p.1 == j,
            Option::None => r is None,
        },
{
    let mut out: Vec<(String, String)> = Vec::new();
    let mut cur: usize = pos;
    let mut k: u64 = 0;
    proof {
        assert(out.deep_view() =~= Seq::<(Seq<char>, Seq<char>)>::empty());
    }
    while k < n
        invariant
            k <= n,
            match parse_meta_pairs(bytes@, cur as int, (n - k) as u64) {
                Option::Some((rest, end)) => parse_meta_pairs(bytes@, pos as int, n)
                    == Some::<(Seq<(Seq<char>, Seq<char>)>, int)>((out.deep_view() + rest, end)),
                Option::None => parse_meta_pairs(bytes@, pos as int, n) is None,
            },
        decreases n - k,
    {
        let (s, j) = match read_str(bytes, cur) {
            Some(p) => p,
            None => {
                return None;
            },
        };
        let (t, next) = match read_str(bytes, j) {
            Some(p) => p,
            None => {
                return None;
            },
        };
        let ghost prev = out.deep_view();
        let entry = (s, t);
        let ghost entry_view = entry.deep_view();
        out.push(entry);
        proof {
            assert(out.deep_view() =~= prev.push(entry_view));
            assert(prev + (seq![entry_view] + parse_meta_pairs(
                bytes@,
                next as int,
                (n - k - 1) as u64,
            )->Some_0.0) =~= out.deep_view() + parse_meta_pairs(
                bytes@,
                next as int,
                (n - k - 1) as u64,
            )->Some_0.0);
        }
        cur = next;
        k = k + 1;
    }
    proof {
        assert(out.deep_view() + Seq::<(Seq<char>, Seq<char>)>::empty() =~= out.deep_view());
    }
    Some((out, cur))
}

/// Decode a content value; any malformation is a serialization error.
pub fn decode_vault_content(bytes: &[u8]) -> (r: Result<VaultContent, EngineError>)
    ensures
        match dec_content(bytes@) {
            Option::Some(v) => r matches Ok(c) && c@ == v,
            Option::None => r matches Err(e) && e is Serialization,
        },
{
    let (token_amount, p1) = match read_u64(bytes, 0) {
        Some(p) => p,
        None => {
            return Err(serialization_error());
        },
    };
    let (token_id, p2) = match read_str(bytes, p1) {
        Some(p) => p,
        None => {
            return Err(serialization_error());
        },
    };
    let (n, p3) = match read_u64(bytes, p2) {
        Some(p) => p,
        None => {
            return Err(serialization_error());
        },
    };
    let (recipients, p4) = match read_rec_pairs(bytes, p3, n) {
        Some(p) => p,
        None => {
            return Err(serialization_error());
        },
    };
    let (m, p5) = match read_u64(bytes, p4) {
        Some(p) => p,
        None => {
            return Err(serialization_error());
        },
    };
    let (metadata, p6) = match read_meta_pairs(bytes, p5, m) {
        Some(p) => p,
        None => {
            return Err(serialization_error());
        },
    };
    if p6 != bytes.len() {
        return Err(serialization_error());
    }
    Ok(VaultContent { token_amount, token_id, recipients, metadata })
}

/// Every ratio a parse yields is well formed: the parser refuses raw values
/// above the scale.
pub proof fn lemma_parse_rec_pairs_wf(bytes: Seq<u8>, i: int, n: u64)
    ensures
        parse_rec_pairs(bytes, i, n) matches Some(p) ==> forall|j: int|
            0 <= j < p.0.len() ==> (#[trigger] p.0[j]).1.wf(),
    decreases n,
{
    if n > 0 {
        if parse_rec_pairs(bytes, i, n) is Some {
            let (s, j0) = parse_str(bytes, i)->Some_0;
            let (raw, k) = parse_u64(bytes, j0)->Some_0;
            crate::ratio::lemma_spec_from_raw(raw);
            lemma_parse_rec_pairs_wf(bytes, k, (n - 1) as u64);
            let whole = parse_rec_pairs(bytes, i, n)->Some_0.0;
            let rest = parse_rec_pairs(bytes, k, (n - 1) as u64)->Some_0.0;
            assert forall|j: int| 0 <= j < whole.len() implies (#[trigger] whole[j]).1.wf() by {
                if j > 0 {
                    assert(whole[j] == rest[j - 1]);
                }
            }
        }
    }
}

/// Every ratio in a decoded content value is well formed.
pub proof fn lemma_dec_content_ratios_wf(bytes: Seq<u8>)
    ensures
        dec_content(bytes) matches Some(v) ==> forall|j: int|
            0 <= j < v.recipients.len() ==> (#[trigger] v.recipients[j]).1.wf(),
{
    if dec_content(bytes) is Some {
        let (amount, p1) = parse_u64(bytes, 0)->Some_0;
        let (tid, p2) = parse_str(bytes, p1)->Some_0;
        let (n, p3) = parse_u64(bytes, p2)->Some_0;
        lemma_parse_rec_pairs_wf(bytes, p3, n);
    }
}

} // verus!

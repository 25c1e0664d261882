//! Storage service metrics and their canonical encoding.

use vstd::prelude::*;
use vstd::utf8::encode_utf8;
use crate::codec::{enc_str, enc_u64, write_str, write_u64};
use crate::order::{bytes_lt, lemma_bytes_lt_connex, lemma_bytes_lt_trans, lemma_encode_utf8_injective, str_bytes_lt};

verus! {

/// Metrics of rendered storage service, as attested by a receipt.
#[derive(Debug, Clone)]
pub struct StorageMetrics {
    /// Number of bytes stored.
    pub bytes_stored: u64,
    /// Number of retrievals performed.
    pub retrievals: u64,
    /// Number of operations processed.
    pub operations_count: u64,
    /// Uptime percentage, 0 to 100.
    pub uptime_percentage: u8,
    /// Geographic regions served, in canonical (sorted, duplicate-free)
    /// order, so that the encoding below is deterministic.
    pub regions: Vec<String>,
}

/// Regions are canonical when they strictly increase in the byte-wise
/// lexicographic order of their UTF-8 encodings: sorted and duplicate-free.
pub open spec fn regions_sorted(rs: Seq<Seq<char>>) -> bool {
    forall|i: int, j: int|
        0 <= i < j < rs.len() ==> bytes_lt(encode_utf8(rs[i]), encode_utf8(rs[j]))
}

/// The region list, encoded one string after another.
pub open spec fn enc_str_seq(rs: Seq<Seq<char>>) -> Seq<u8>
    decreases rs.len(),
{
    if rs.len() == 0 {
        Seq::<u8>::empty()
    } else {
        enc_str(rs[0]) + enc_str_seq(rs.drop_first())
    }
}

/// Appending one string to the list appends its encoding.
pub proof fn lemma_enc_str_seq_push(rs: Seq<Seq<char>>, s: Seq<char>)
    ensures
        enc_str_seq(rs.push(s)) == enc_str_seq(rs) + enc_str(s),
    decreases rs.len(),
{
    if rs.len() == 0 {
        assert(rs.push(s)[0] == s);
        assert(rs.push(s).drop_first() =~= rs);
        assert(enc_str_seq(rs.push(s)) =~= enc_str_seq(rs) + enc_str(s));
    } else {
        assert(rs.push(s).drop_first() =~= rs.drop_first().push(s));
        lemma_enc_str_seq_push(rs.drop_first(), s);
        assert(enc_str_seq(rs.push(s)) =~= enc_str_seq(rs) + enc_str(s));
    }
}

impl StorageMetrics {
    /// Metrics are well formed when the uptime is a percentage and the
    /// regions are in canonical order.
    pub open spec fn wf(&self) -> bool {
        &&& self.uptime_percentage <= 100
        &&& regions_sorted(self.regions.deep_view())
    }

    /// The canonical encoding: every field in order, integers little endian,
    /// the regions as a length-prefixed sequence of strings.
    pub open spec fn canonical_enc(&self) -> Seq<u8> {
        enc_u64(self.bytes_stored) + enc_u64(self.retrievals) + enc_u64(self.operations_count)
            + seq![self.uptime_percentage] + enc_u64(self.regions.deep_view().len() as u64)
            + enc_str_seq(self.regions.deep_view())
    }

    /// Encode the metrics canonically.
    pub fn encode(&self) -> (r: Vec<u8>)
        ensures
            r@ == self.canonical_enc(),
    {
        let ghost rs = self.regions.deep_view();
        let mut out: Vec<u8> = Vec::new();
        write_u64(&mut out, self.bytes_stored);
        write_u64(&mut out, self.retrievals);
        write_u64(&mut out, self.operations_count);
        out.push(self.uptime_percentage);
        write_u64(&mut out, self.regions.len() as u64);
        let ghost head = out@;
        assert(head + enc_str_seq(rs.take(0)) =~= head);
        let mut i: usize = 0;
        while i < self.regions.len()
            invariant
                i <= self.regions.len(),
                rs == self.regions.deep_view(),
                rs.len() == self.regions.len(),
                out@ == head + enc_str_seq(rs.take(i as int)),
            decreases self.regions.len() - i,
        {
            write_str(&mut out, self.regions[i].as_str());
            proof {
                assert(rs.take(i + 1) =~= rs.take(i as int).push(rs[i as int]));
                lemma_enc_str_seq_push(rs.take(i as int), rs[i as int]);
                assert(self.regions[i as int]@ == rs[i as int]);
            }
            i = i + 1;
        }
        proof {
            assert(rs.take(rs.len() as int) =~= rs);
            assert(out@ =~= self.canonical_enc());
        }
        out
    }

    /// Build metrics with the regions brought into canonical order.  An
    /// uptime above one hundred percent is clamped to one hundred.
    pub fn new(
        bytes_stored: u64,
        retrievals: u64,
        operations_count: u64,
        uptime_percentage: u8,
        regions: Vec<String>,
    ) -> (r: StorageMetrics)
        ensures
            r.wf(),
            r.bytes_stored == bytes_stored,
            r.retrievals == retrievals,
            r.operations_count == operations_count,
            r.uptime_percentage == if uptime_percentage <= 100 {
                uptime_percentage as int
            } else {
                100int
            },
            forall|x: Seq<char>|
                #[trigger] r.regions.deep_view().contains(x) <==> regions.deep_view().contains(x),
    {
        StorageMetrics {
            bytes_stored,
            retrievals,
            operations_count,
            uptime_percentage: if uptime_percentage <= 100 {
                uptime_percentage
            } else {
                100
            },
            regions: normalize_regions(regions),
        }
    }

    /// Check that the metrics are well formed: uptime a percentage, regions
    /// strictly sorted in the canonical order.
    pub fn check_canonical(&self) -> (r: bool)
        ensures
            r == self.wf(),
    {
        if self.uptime_percentage > 100 {
            return false;
        }
        let ghost rs = self.regions.deep_view();
        if self.regions.len() == 0 {
            return true;
        }
        let mut i: usize = 0;
        while i < self.regions.len() - 1
            invariant
                rs == self.regions.deep_view(),
                rs.len() == self.regions.len(),
                rs.len() >= 1,
                i <= rs.len(),
                forall|k: int|
                    0 <= k < i ==> bytes_lt(encode_utf8(#[trigger] rs[k]), encode_utf8(rs[k + 1])),
            decreases self.regions.len() - i,
        {
            if !str_bytes_lt(self.regions[i].as_str(), self.regions[i + 1].as_str()) {
                proof {
                    assert(!bytes_lt(encode_utf8(rs[i as int]), encode_utf8(rs[i + 1])));
                }
                return false;
            }
            i = i + 1;
        }
        proof {
            lemma_sorted_from_adjacent(rs);
        }
        true
    }
}

/// A list whose every adjacent pair is ordered is sorted throughout.
proof fn lemma_sorted_from_adjacent(rs: Seq<Seq<char>>)
    requires
        forall|k: int| 0 <= k < rs.len() - 1 ==> bytes_lt(encode_utf8(#[trigger] rs[k]), encode_utf8(rs[k + 1])),
    ensures
        regions_sorted(rs),
{
    assert forall|i: int, j: int|
        0 <= i < j < rs.len() implies bytes_lt(encode_utf8(rs[i]), encode_utf8(rs[j])) by {
        lemma_lt_span(rs, i, j);
    }
}

/// Chain the adjacent comparisons from `i` up to `j`.
proof fn lemma_lt_span(rs: Seq<Seq<char>>, i: int, j: int)
    requires
        forall|k: int| 0 <= k < rs.len() - 1 ==> bytes_lt(encode_utf8(#[trigger] rs[k]), encode_utf8(rs[k + 1])),
        0 <= i < j < rs.len(),
    ensures
        bytes_lt(encode_utf8(rs[i]), encode_utf8(rs[j])),
    decreases j - i,
{
    if j == i + 1 {
    } else {
        lemma_lt_span(rs, i, j - 1);
        lemma_bytes_lt_trans(encode_utf8(rs[i]), encode_utf8(rs[j - 1]), encode_utf8(rs[j]));
    }
}

/// Insert a region into a canonical list, keeping it sorted and
/// duplicate-free.
fn insert_region(out: &mut Vec<String>, s: String)
    requires
        regions_sorted(old(out).deep_view()),
    ensures
        regions_sorted(final(out).deep_view()),
        forall|x: Seq<char>|
            #[trigger] final(out).deep_view().contains(x) <==> (old(out).deep_view().contains(x)
                || x == s@),
{
    let ghost dv = out.deep_view();
    let ghost sv = s@;
    let mut k: usize = 0;
    while k < out.len() && str_bytes_lt(out[k].as_str(), s.as_str())
        invariant
            dv == out.deep_view(),
            dv.len() == out.len(),
            k <= dv.len(),
            forall|j: int|
                0 <= j < k ==> bytes_lt(encode_utf8(#[trigger] dv[j]), encode_utf8(sv)),
            sv == s@,
        decreases out.len() - k,
    {
        k = k + 1;
    }
    if k < out.len() && !str_bytes_lt(s.as_str(), out[k].as_str()) {
        // neither order holds, so the encodings are equal and the region
        // is already present
        proof {
            lemma_bytes_lt_connex(encode_utf8(dv[k as int]), encode_utf8(sv));
            lemma_encode_utf8_injective(dv[k as int], sv);
            assert(dv.contains(sv)) by {
                assert(dv[k as int] == sv);
            }
        }
        return;
    }
    let ghost kk = k as int;
    out.insert(k, s);
    proof {
        assert(out.deep_view() =~= dv.insert(kk, sv)) by {
            assert(out@ == old(out)@.insert(kk, s));
        }
        let new_dv = dv.insert(kk, sv);
        assert(new_dv =~= dv.take(kk) + seq![sv] + dv.skip(kk));
        assert forall|i: int, j: int|
            0 <= i < j < new_dv.len() implies bytes_lt(
            encode_utf8(#[trigger] new_dv[i]),
            encode_utf8(#[trigger] new_dv[j]),
        ) by {
            if i < kk && j == kk {
                assert(new_dv[i] == dv[i] && new_dv[j] == sv);
            } else if i < kk && j > kk {
                assert(new_dv[i] == dv[i] && new_dv[j] == dv[j - 1]);
            } else if i == kk && j > kk {
                assert(new_dv[i] == sv && new_dv[j] == dv[j - 1]);
                if j - 1 > kk {
                    lemma_bytes_lt_trans(
                        encode_utf8(sv),
                        encode_utf8(dv[kk]),
                        encode_utf8(dv[j - 1]),
                    );
                }
            } else if i > kk {
                assert(new_dv[i] == dv[i - 1] && new_dv[j] == dv[j - 1]);
            } else {
                assert(new_dv[i] == dv[i] && new_dv[j] == dv[j]);
            }
        }
        assert forall|x: Seq<char>|
            #[trigger] new_dv.contains(x) <==> (dv.contains(x) || x == sv) by {
            if new_dv.contains(x) {
                let t = choose|t: int| 0 <= t < new_dv.len() && #[trigger] new_dv[t] == x;
                if t < kk {
                    assert(dv[t] == x);
                } else if t == kk {
                } else {
                    assert(dv[t - 1] == x);
                }
            }
            if dv.contains(x) {
                let t = choose|t: int| 0 <= t < dv.len() && #[trigger] dv[t] == x;
                if t < kk {
                    assert(new_dv[t] == x);
                } else {
                    assert(new_dv[t + 1] == x);
                }
            }
            if x == sv {
                assert(new_dv[kk] == x);
            }
        }
    }
}

/// Bring a region list into canonical form: sorted byte-wise over the
/// UTF-8 encodings, duplicates removed.  The result names exactly the
/// regions of the input.
pub fn normalize_regions(regions: Vec<String>) -> (r: Vec<String>)
    ensures
        regions_sorted(r.deep_view()),
        forall|x: Seq<char>|
            #[trigger] r.deep_view().contains(x) <==> regions.deep_view().contains(x),
{
    let ghost rv = regions.deep_view();
    let mut out: Vec<String> = Vec::new();
    proof {
        assert(out.deep_view() =~= Seq::<Seq<char>>::empty());
        assert(forall|x: Seq<char>| !rv.take(0).contains(x));
    }
    let mut i: usize = 0;
    while i < regions.len()
        invariant
            rv == regions.deep_view(),
            rv.len() == regions.len(),
            i <= rv.len(),
            regions_sorted(out.deep_view()),
            forall|x: Seq<char>|
                #[trigger] out.deep_view().contains(x) <==> rv.take(i as int).contains(x),
        decreases regions.len() - i,
    {
        let ghost before = out.deep_view();
        insert_region(&mut out, regions[i].clone());
        proof {
            assert(regions@[i as int]@ == rv[i as int]);
            assert forall|x: Seq<char>|
                #[trigger] out.deep_view().contains(x) <==> rv.take(i + 1).contains(x) by {
                assert(rv.take(i + 1).drop_last() =~= rv.take(i as int));
                if rv.take(i + 1).contains(x) {
                    let t = choose|t: int| 0 <= t < rv.take(i + 1).len() && #[trigger] rv.take(i + 1)[t] == x;
                    if t < i {
                        assert(rv.take(i as int)[t] == x);
                    } else {
                        assert(x == rv[i as int]);
                    }
                }
                if rv.take(i as int).contains(x) {
                    let t = choose|t: int|
                        0 <= t < rv.take(i as int).len() && #[trigger] rv.take(i as int)[t] == x;
                    assert(rv.take(i + 1)[t] == x);
                }
                if x == rv[i as int] {
                    assert(rv.take(i + 1)[i as int] == x);
                }
            }
        }
        i = i + 1;
    }
    proof {
        assert(rv.take(rv.len() as int) =~= rv);
    }
    out
}

} // verus!

//! The exploration session: the composition root.
//!
//! A session retains every raw sample ever generated (the source of truth
//! needed to rebuild the digest when its bin limit changes), owns one digest
//! and one pseudo-random generator, and exposes the public operations:
//! sampling, reconfiguration, summary statistics, and the two histogram
//! computations that a renderer turns into charts.

use vstd::prelude::*;
use vstd::string::StringExecFns;
use crate::digest::{
    Digest, DigestView, digest_wf, digest_empty, digest_insert_all, quantile_spec,
    lemma_quantile_monotone,
    lemma_insert_all_shape, lemma_insert_all_concat, DEFAULT_BIN_LIMIT, MAX_KEY, bin_lower_of,
};
use crate::gen::{rng_from_entropy, rng_from_seed, generate, MIN_LATENCY_MICROS, MAX_LATENCY_MICROS};
use crate::histogram::{
    InputHistogram, OutputHistogram, bin_samples, output_histogram_from_bins, bucket_pairs,
    count_in_bucket, sum_counts, has_bucket, effective_width, headroom, min_bucket_key,
    max_bucket_key, max_bucket_count, key_mass, sum_bins, has_bin, out_pairs, sat_upper_of,
    min_bin_key, max_bin_key, max_bin_count, max_sample, min_sample,
};
use crate::SAMPLE_BYTES;

verus! {

/// Nominal in-memory size of one digest bin, in bytes.
pub const BIN_BYTES: usize = 16;

/// Nominal fixed in-memory overhead of a digest, in bytes.
pub const DIGEST_OVERHEAD_BYTES: usize = 56;

/// Summary of the raw-sample store.
pub struct InputStats {
    pub value_count: usize,
    pub in_memory_size: usize,
}

/// Summary of the digest: bin count, nominal memory, and the 50th, 90th and
/// 99th percentile latencies in whole microseconds.
pub struct OutputStats {
    pub bin_count: usize,
    pub in_memory_size: usize,
    pub p50: u64,
    pub p90: u64,
    pub p99: u64,
}

/// Nominal memory accounting of the raw-sample store: eight bytes per
/// retained sample, saturating.
pub open spec fn input_memory_of(n: nat) -> nat {
    if n * SAMPLE_BYTES <= usize::MAX {
        (n * SAMPLE_BYTES) as nat
    } else {
        usize::MAX as nat
    }
}

/// Nominal memory accounting of the digest: bytes per bin plus a fixed
/// overhead, saturating.
pub open spec fn output_memory_of(bins: nat) -> nat {
    if bins * BIN_BYTES + DIGEST_OVERHEAD_BYTES <= usize::MAX {
        (bins * BIN_BYTES + DIGEST_OVERHEAD_BYTES) as nat
    } else {
        usize::MAX as nat
    }
}

/// The session state.
pub struct SketchView {
    input_canvas_id: String,
    output_canvas_id: String,
    digest: Digest,
    rng: rand_xorshift::XorShiftRng,
    samples: Vec<u64>,
}

impl SketchView {
    /// The session invariant: the digest is well formed and its state equals
    /// the ideal digest of the whole retained sample history under the
    /// current bin limit.
    pub closed spec fn inv(self) -> bool {
        &&& digest_wf(self.digest@)
        &&& self.digest@ == digest_insert_all(
            digest_empty(self.digest@.limit as u16),
            self.samples@,
        )
    }

    /// The retained raw samples.
    pub closed spec fn samples_view(self) -> Seq<u64> {
        self.samples@
    }

    /// The digest state.
    pub closed spec fn digest_view(self) -> DigestView {
        self.digest@
    }

    /// A fresh session drawing from the operating system's entropy: no
    /// samples, a digest with the default bin limit, and the two drawing
    /// surface names it will render to.
    pub fn new(input_canvas_id: &str, output_canvas_id: &str) -> (s: SketchView)
        ensures
            s.inv(),
            s.samples_view() == Seq::<u64>::empty(),
            s.digest_view() == digest_empty(DEFAULT_BIN_LIMIT),
            s.input_id_view() == input_canvas_id@,
            s.output_id_view() == output_canvas_id@,
    {
        let s = SketchView {
            input_canvas_id: String::from_str(input_canvas_id),
            output_canvas_id: String::from_str(output_canvas_id),
            digest: Digest::new(),
            rng: rng_from_entropy(),
            samples: Vec::new(),
        };
        proof {
            assert(s.samples@ =~= Seq::<u64>::empty());
        }
        s
    }

    /// A fresh session whose generator starts from the given seed, so that
    /// repeated runs draw the same samples.
    pub fn new_seeded(input_canvas_id: &str, output_canvas_id: &str, seed: u64) -> (s: SketchView)
        ensures
            s.inv(),
            s.samples_view() == Seq::<u64>::empty(),
            s.digest_view() == digest_empty(DEFAULT_BIN_LIMIT),
            s.input_id_view() == input_canvas_id@,
            s.output_id_view() == output_canvas_id@,
    {
        let s = SketchView {
            input_canvas_id: String::from_str(input_canvas_id),
            output_canvas_id: String::from_str(output_canvas_id),
            digest: Digest::new(),
            rng: rng_from_seed(seed),
            samples: Vec::new(),
        };
        proof {
            assert(s.samples@ =~= Seq::<u64>::empty());
        }
        s
    }

    pub closed spec fn input_id_view(self) -> Seq<char> {
        self.input_canvas_id@
    }

    pub closed spec fn output_id_view(self) -> Seq<char> {
        self.output_canvas_id@
    }

    /// The name of the drawing surface for the raw-sample chart.
    pub fn input_canvas_id(&self) -> (r: &String)
        ensures
            r@ == self.input_id_view(),
    {
        &self.input_canvas_id
    }

    /// The name of the drawing surface for the digest-bin chart.
    pub fn output_canvas_id(&self) -> (r: &String)
        ensures
            r@ == self.output_id_view(),
    {
        &self.output_canvas_id
    }

    /// Reconfigures the digest's bin limit: the old digest is discarded and
    /// a fresh one is rebuilt by replaying the entire retained sample
    /// history, so the result is the ideal digest of the full history under
    /// the new limit, no matter how many reconfigurations came before.
    pub fn set_bin_limit(&mut self, bin_limit: u16)
        requires
            old(self).inv(),
        ensures
            final(self).inv(),
            final(self).samples_view() == old(self).samples_view(),
            final(self).digest_view() == digest_insert_all(
                digest_empty(bin_limit),
                old(self).samples_view(),
            ),
            final(self).input_id_view() == old(self).input_id_view(),
            final(self).output_id_view() == old(self).output_id_view(),
    {
        let n = self.samples.len();
        self.digest = Digest::with_bin_limit(bin_limit);
        proof {
            assert(n == self.samples@.len());
            assert(usize::MAX <= u64::MAX);
        }
        self.digest.insert_many(&self.samples);
        proof {
            lemma_insert_all_shape(digest_empty(bin_limit), self.samples@);
        }
    }

    /// How many samples are retained, and the nominal memory they occupy.
    pub fn get_input_stats(&self) -> (r: InputStats)
        ensures
            r.value_count == self.samples_view().len(),
            r.in_memory_size as nat == input_memory_of(self.samples_view().len()),
    {
        let n = self.samples.len();
        let size = if n <= usize::MAX / SAMPLE_BYTES {
            n * SAMPLE_BYTES
        } else {
            usize::MAX
        };
        proof {
            if n <= usize::MAX / SAMPLE_BYTES {
                vstd::arithmetic::div_mod::lemma_fundamental_div_mod(
                    usize::MAX as int,
                    SAMPLE_BYTES as int,
                );
                vstd::arithmetic::mul::lemma_mul_inequality(
                    n as int,
                    usize::MAX as int / SAMPLE_BYTES as int,
                    SAMPLE_BYTES as int,
                );
            } else if n as int * SAMPLE_BYTES <= usize::MAX {
                vstd::arithmetic::div_mod::lemma_div_is_ordered(
                    n as int * SAMPLE_BYTES,
                    usize::MAX as int,
                    SAMPLE_BYTES as int,
                );
                vstd::arithmetic::div_mod::lemma_div_multiples_vanish(n as int, SAMPLE_BYTES as int);
            }
        }
        InputStats { value_count: n, in_memory_size: size }
    }

    /// The digest's bin count, nominal memory, and the 50th, 90th and 99th
    /// percentile latencies in whole microseconds. With no samples, every
    /// field is zero except the fixed memory overhead.
    pub fn get_output_stats(&self) -> (r: OutputStats)
        requires
            self.inv(),
        ensures
            r.bin_count == self.digest_view().bins.len(),
            r.in_memory_size as nat == output_memory_of(self.digest_view().bins.len()),
            self.samples_view().len() == 0 ==> r.bin_count == 0 && r.p50 == 0 && r.p90 == 0
                && r.p99 == 0,
            self.samples_view().len() > 0 ==> r.p50 as nat == quantile_spec(
                self.digest_view(),
                500,
            ) && r.p90 as nat == quantile_spec(self.digest_view(), 900) && r.p99 as nat
                == quantile_spec(self.digest_view(), 990),
            r.p50 <= r.p90 <= r.p99,
    {
        proof {
            lemma_insert_all_shape(
                digest_empty(self.digest@.limit as u16),
                self.samples@,
            );
            if self.samples@.len() > 0 {
                lemma_quantile_monotone(self.digest@, 500, 900);
                lemma_quantile_monotone(self.digest@, 900, 990);
            }
        }
        let bc = self.digest.bin_count();
        let size = if bc <= (usize::MAX - DIGEST_OVERHEAD_BYTES) / BIN_BYTES {
            bc * BIN_BYTES + DIGEST_OVERHEAD_BYTES
        } else {
            usize::MAX
        };
        proof {
            let cap = (usize::MAX - DIGEST_OVERHEAD_BYTES) as int;
            if bc as int <= cap / BIN_BYTES as int {
                vstd::arithmetic::div_mod::lemma_fundamental_div_mod(cap, BIN_BYTES as int);
                vstd::arithmetic::mul::lemma_mul_inequality(
                    bc as int,
                    cap / BIN_BYTES as int,
                    BIN_BYTES as int,
                );
            } else if bc as int * BIN_BYTES <= cap {
                vstd::arithmetic::div_mod::lemma_div_is_ordered(
                    bc as int * BIN_BYTES,
                    cap,
                    BIN_BYTES as int,
                );
                vstd::arithmetic::div_mod::lemma_div_multiples_vanish(bc as int, BIN_BYTES as int);
            }
        }
        let p50 = match self.digest.quantile(500) {
            Some(v) => v,
            None => 0,
        };
        let p90 = match self.digest.quantile(900) {
            Some(v) => v,
            None => 0,
        };
        let p99 = match self.digest.quantile(990) {
            Some(v) => v,
            None => 0,
        };
        OutputStats { bin_count: bc, in_memory_size: size, p50, p90, p99 }
    }

    /// Generates up to `count` latency samples, appends the accepted ones to
    /// the retained history, and feeds them to the digest. The history only
    /// ever grows, by exactly the number of accepted samples, each inside
    /// the accepted latency range.
    pub fn sample(&mut self, count: usize)
        requires
            old(self).inv(),
            old(self).samples_view().len() + count <= usize::MAX,
        ensures
            final(self).inv(),
            old(self).samples_view().is_prefix_of(final(self).samples_view()),
            final(self).samples_view().len() <= old(self).samples_view().len() + count,
            forall|i: int|
                old(self).samples_view().len() <= i < final(self).samples_view().len()
                    ==> MIN_LATENCY_MICROS < (#[trigger] final(self).samples_view()[i])
                    < MAX_LATENCY_MICROS,
            final(self).digest_view().limit == old(self).digest_view().limit,
            final(self).input_id_view() == old(self).input_id_view(),
            final(self).output_id_view() == old(self).output_id_view(),
    {
        let ghost pre = self.samples@;
        let ghost limit = self.digest@.limit;
        let ghost dv0 = self.digest@;
        let mut pts = generate(&mut self.rng, count);
        let ghost added = pts@;
        proof {
            lemma_insert_all_shape(digest_empty(limit as u16), pre);
            assert(usize::MAX <= u64::MAX);
        }
        self.digest.insert_many(&pts);
        self.samples.append(&mut pts);
        proof {
            assert(self.samples@ == pre + added);
            lemma_insert_all_concat(digest_empty(limit as u16), pre, added);
            lemma_insert_all_shape(dv0, added);
            assert((pre + added).take(pre.len() as int) =~= pre);
            assert forall|i: int|
                pre.len() <= i < self.samples@.len() implies MIN_LATENCY_MICROS < (
            #[trigger] self.samples@[i]) < MAX_LATENCY_MICROS by {
                assert(self.samples@[i] == added[i - pre.len()]);
            }
        }
    }

    /// Bins the retained raw samples into `bucket_count` fixed-width buckets
    /// and derives the chart axis bounds from the occupied buckets. The sum
    /// of all bucket counts equals the retained sample count: every sample
    /// is counted exactly once.
    pub fn input_histogram(&self, bucket_count: u32) -> (h: InputHistogram)
        ensures
            h.bin_width as nat == effective_width(self.samples_view(), bucket_count),
            h.bin_width >= 1,
            forall|i: int, j: int|
                0 <= i < j < h.buckets@.len() ==> (#[trigger] bucket_pairs(h.buckets@)[i]).0 != (
                #[trigger] bucket_pairs(h.buckets@)[j]).0,
            forall|j: int|
                0 <= j < h.buckets@.len() ==> (#[trigger] bucket_pairs(h.buckets@)[j]).1
                    == count_in_bucket(
                    self.samples_view(),
                    h.bin_width,
                    bucket_pairs(h.buckets@)[j].0,
                ) && bucket_pairs(h.buckets@)[j].1 >= 1,
            forall|k: u64|
                #[trigger] count_in_bucket(self.samples_view(), h.bin_width, k) > 0 ==> has_bucket(
                    bucket_pairs(h.buckets@),
                    k,
                ),
            sum_counts(bucket_pairs(h.buckets@)) == self.samples_view().len(),
            self.samples_view().len() == 0 ==> h.buckets@.len() == 0,
            self.samples_view().len() > 0 ==> h.buckets@.len() >= 1,
            h.buckets@.len() == 0 ==> h.axis_min == 0 && h.axis_max == 0 && h.axis_max_count as nat
                == headroom(1),
            h.buckets@.len() > 0 ==> h.axis_min as nat == min_bucket_key(bucket_pairs(h.buckets@))
                * h.bin_width && h.axis_max as nat == max_bucket_key(bucket_pairs(h.buckets@))
                * h.bin_width && h.axis_max_count as nat == headroom(
                max_bucket_count(bucket_pairs(h.buckets@)) as nat,
            ),
            bucket_count == 0 && self.samples_view().len() > 0 && max_sample(self.samples_view())
                < u64::MAX ==> h.buckets@.len() == 1 && bucket_pairs(h.buckets@)[0] == (
                0u64,
                self.samples_view().len() as u64,
            ),
            max_sample(self.samples_view()) == min_sample(self.samples_view())
                && self.samples_view().len() > 0 ==> h.buckets@.len() == 1 && bucket_pairs(
                h.buckets@,
            )[0].1 == self.samples_view().len(),
    {
        bin_samples(&self.samples, bucket_count)
    }

    /// Aggregates the digest's bins, merging any that collide on the same
    /// key, attaches each bin's value range, and derives the chart axis
    /// bounds from the lowest and highest occupied key. The sum of the
    /// merged counts equals the sum of the digest's native bin counts.
    pub fn output_histogram(&self) -> (h: OutputHistogram)
        requires
            self.inv(),
        ensures
            forall|a: int, b: int|
                0 <= a < b < h.buckets@.len() ==> (#[trigger] out_pairs(h.buckets@)[a]).0 != (
                #[trigger] out_pairs(h.buckets@)[b]).0,
            forall|j: int|
                0 <= j < h.buckets@.len() ==> (#[trigger] out_pairs(h.buckets@)[j]).1 == key_mass(
                    self.digest_view().bins,
                    out_pairs(h.buckets@)[j].0,
                ) && has_bin(self.digest_view().bins, out_pairs(h.buckets@)[j].0),
            forall|k: u32| #[trigger] has_bin(self.digest_view().bins, k) ==> has_bin(
                out_pairs(h.buckets@),
                k,
            ),
            sum_bins(out_pairs(h.buckets@)) == sum_bins(self.digest_view().bins),
            forall|j: int|
                0 <= j < h.buckets@.len() ==> (#[trigger] h.buckets@[j]).lower as nat
                    == bin_lower_of(h.buckets@[j].key as nat) && h.buckets@[j].upper as nat
                    == sat_upper_of(h.buckets@[j].key as nat),
            h.buckets@.len() == 0 <==> self.digest_view().bins.len() == 0,
            h.buckets@.len() == 0 ==> h.axis_min == 0 && h.axis_max == 0 && h.axis_max_count == 0,
            h.buckets@.len() > 0 ==> h.axis_min as nat == bin_lower_of(
                min_bin_key(out_pairs(h.buckets@)) as nat,
            ) && h.axis_max as nat == sat_upper_of(max_bin_key(out_pairs(h.buckets@)) as nat)
                && h.axis_max_count == max_bin_count(out_pairs(h.buckets@)),
    {
        let bins = self.digest.bins();
        proof {
            crate::histogram::lemma_sum_bins_eq_mass(self.digest@.bins);
            lemma_insert_all_shape(digest_empty(self.digest@.limit as u16), self.samples@);
            assert(usize::MAX <= u64::MAX);
            assert forall|i: int| 0 <= i < bins@.len() implies (#[trigger] bins@[i].k)
                <= MAX_KEY by {
                assert(crate::digest::bin_pairs(bins@)[i] == (bins@[i].k, bins@[i].n));
                assert(self.digest@.bins[i].0 <= MAX_KEY);
            }
        }
        output_histogram_from_bins(bins)
    }
}


/// Idempotence of the input stats: the report is a function of the session
/// state alone, so any two reports taken without an intervening mutation
/// are identical.
pub proof fn lemma_input_stats_idempotent(s: SketchView, a: InputStats, b: InputStats)
    requires
        a.value_count == s.samples_view().len(),
        a.in_memory_size as nat == input_memory_of(s.samples_view().len()),
        b.value_count == s.samples_view().len(),
        b.in_memory_size as nat == input_memory_of(s.samples_view().len()),
    ensures
        a == b,
{
}

/// Idempotence of the output stats: the report is a function of the session
/// state alone, so any two reports taken without an intervening mutation
/// are identical.
pub proof fn lemma_output_stats_idempotent(s: SketchView, a: OutputStats, b: OutputStats)
    requires
        a.bin_count == s.digest_view().bins.len(),
        a.in_memory_size as nat == output_memory_of(s.digest_view().bins.len()),
        s.samples_view().len() == 0 ==> a.bin_count == 0 && a.p50 == 0 && a.p90 == 0 && a.p99
            == 0,
        s.samples_view().len() > 0 ==> a.p50 as nat == quantile_spec(s.digest_view(), 500)
            && a.p90 as nat == quantile_spec(s.digest_view(), 900) && a.p99 as nat
            == quantile_spec(s.digest_view(), 990),
        b.bin_count == s.digest_view().bins.len(),
        b.in_memory_size as nat == output_memory_of(s.digest_view().bins.len()),
        s.samples_view().len() == 0 ==> b.bin_count == 0 && b.p50 == 0 && b.p90 == 0 && b.p99
            == 0,
        s.samples_view().len() > 0 ==> b.p50 as nat == quantile_spec(s.digest_view(), 500)
            && b.p90 as nat == quantile_spec(s.digest_view(), 900) && b.p99 as nat
            == quantile_spec(s.digest_view(), 990),
    ensures
        a == b,
{
}

/// Monotonic growth: every operation either keeps the retained history or
/// appends to it, so the reported value count never decreases across any
/// sequence of operations.
pub proof fn lemma_value_count_monotonic(before: Seq<u64>, after: Seq<u64>)
    requires
        before.is_prefix_of(after),
    ensures
        before.len() <= after.len(),
{
}

} // verus!

//! The two histogram binners.
//!
//! Raw-sample binning groups retained samples into fixed-width buckets keyed
//! by `value / width`. Digest-bin binning aggregates a digest's native bins,
//! merging bins that collide on the same key by summing their counts. Both
//! report the axis bounds a chart of the result needs, and both tolerate
//! empty input by reporting an empty bucket set with degenerate bounds.

use vstd::prelude::*;
use crate::digest::{Bin, MAX_KEY, bin_lower, bin_upper, bin_lower_of, bin_upper_of, bin_pairs, bins_mass};

verus! {

/// One fixed-width bucket of raw samples: `key` is `value / width`.
#[derive(Clone, Copy)]
pub struct Bucket {
    pub key: u64,
    pub count: u64,
}

/// The raw-sample histogram: buckets in first-occupied order plus the axis
/// bounds derived from the occupied buckets.
pub struct InputHistogram {
    pub bin_width: u64,
    pub buckets: Vec<Bucket>,
    pub axis_min: u64,
    pub axis_max: u64,
    pub axis_max_count: u64,
}

/// One aggregated digest bin with its value range.
#[derive(Clone, Copy)]
pub struct OutBucket {
    pub key: u32,
    pub count: u64,
    pub lower: u64,
    pub upper: u64,
}

/// The digest-bin histogram: merged bins plus axis bounds taken from the
/// lowest and highest occupied key.
pub struct OutputHistogram {
    pub buckets: Vec<OutBucket>,
    pub axis_min: u64,
    pub axis_max: u64,
    pub axis_max_count: u64,
}

/// How many samples fall in the bucket of key `k` under width `w`.
pub open spec fn count_in_bucket(s: Seq<u64>, w: u64, k: u64) -> nat
    decreases s.len(),
{
    if s.len() == 0 {
        0
    } else {
        (count_in_bucket(s.drop_last(), w, k) + if s.last() / w == k {
            1nat
        } else {
            0nat
        }) as nat
    }
}

/// Sum of all bucket counts.
pub open spec fn sum_counts(bs: Seq<(u64, u64)>) -> nat
    decreases bs.len(),
{
    if bs.len() == 0 {
        0
    } else {
        (sum_counts(bs.drop_last()) + bs.last().1) as nat
    }
}

pub open spec fn has_bucket(bs: Seq<(u64, u64)>, k: u64) -> bool {
    exists|i: int| 0 <= i < bs.len() && (#[trigger] bs[i].0) == k
}

/// Smallest sample of a non-empty sequence.
pub open spec fn min_sample(s: Seq<u64>) -> u64
    decreases s.len(),
{
    if s.len() <= 1 {
        s[0]
    } else if s.last() < min_sample(s.drop_last()) {
        s.last()
    } else {
        min_sample(s.drop_last())
    }
}

/// Largest sample of a non-empty sequence.
pub open spec fn max_sample(s: Seq<u64>) -> u64
    decreases s.len(),
{
    if s.len() <= 1 {
        s[0]
    } else if s.last() > max_sample(s.drop_last()) {
        s.last()
    } else {
        max_sample(s.drop_last())
    }
}

/// The bucket width used for raw-sample binning: the sample span divided by
/// the requested bucket count, never less than one so the bucket key is
/// always defined. A zero bucket count falls back to a single bucket holding
/// every sample, by choosing a width just above the largest sample (the one
/// unreachable corner: a width cannot exceed the largest representable
/// value, so a sample at that value keeps a bucket of its own).
pub open spec fn effective_width(s: Seq<u64>, bucket_count: u32) -> nat {
    if s.len() == 0 {
        1
    } else {
        let span = (max_sample(s) - min_sample(s)) as nat;
        if bucket_count == 0 {
            if max_sample(s) < u64::MAX {
                max_sample(s) as nat + 1
            } else {
                u64::MAX as nat
            }
        } else {
            if span / (bucket_count as nat) == 0 {
                1
            } else {
                span / (bucket_count as nat)
            }
        }
    }
}

/// The display ceiling for bucket counts: the largest count plus ten percent
/// headroom (one is used when there are no buckets), saturating.
pub open spec fn headroom(m: nat) -> nat {
    if m + m / 10 <= u64::MAX {
        (m + m / 10) as nat
    } else {
        u64::MAX as nat
    }
}

pub open spec fn min_bucket_key(bs: Seq<(u64, u64)>) -> u64
    decreases bs.len(),
{
    if bs.len() <= 1 {
        bs[0].0
    } else if bs.last().0 < min_bucket_key(bs.drop_last()) {
        bs.last().0
    } else {
        min_bucket_key(bs.drop_last())
    }
}

pub open spec fn max_bucket_key(bs: Seq<(u64, u64)>) -> u64
    decreases bs.len(),
{
    if bs.len() <= 1 {
        bs[0].0
    } else if bs.last().0 > max_bucket_key(bs.drop_last()) {
        bs.last().0
    } else {
        max_bucket_key(bs.drop_last())
    }
}

pub open spec fn max_bucket_count(bs: Seq<(u64, u64)>) -> u64
    decreases bs.len(),
{
    if bs.len() <= 1 {
        bs[0].1
    } else if bs.last().1 > max_bucket_count(bs.drop_last()) {
        bs.last().1
    } else {
        max_bucket_count(bs.drop_last())
    }
}

pub open spec fn bucket_pairs(bs: Seq<Bucket>) -> Seq<(u64, u64)> {
    bs.map_values(|b: Bucket| (b.key, b.count))
}

proof fn lemma_sum_counts_update(bs: Seq<(u64, u64)>, j: int, m: (u64, u64))
    requires
        0 <= j < bs.len(),
    ensures
        sum_counts(bs.update(j, m)) == sum_counts(bs) - bs[j].1 + m.1,
    decreases bs.len(),
{
    if j == bs.len() - 1 {
        assert(bs.update(j, m).drop_last() =~= bs.drop_last());
        assert(bs.update(j, m).last() == m);
    } else {
        assert(bs.update(j, m).drop_last() =~= bs.drop_last().update(j, m));
        assert(bs.update(j, m).last() == bs.last());
        lemma_sum_counts_update(bs.drop_last(), j, m);
    }
}

proof fn lemma_bucket_le_sum(bs: Seq<(u64, u64)>, i: int)
    requires
        0 <= i < bs.len(),
    ensures
        bs[i].1 <= sum_counts(bs),
    decreases bs.len(),
{
    if i < bs.len() - 1 {
        lemma_bucket_le_sum(bs.drop_last(), i);
    }
}

/// Finds the bucket holding the given key, if one exists.
fn find_bucket(buckets: &Vec<Bucket>, key: u64) -> (o: Option<usize>)
    ensures
        match o {
            Some(j) => 0 <= j < buckets@.len() && buckets@[j as int].key == key,
            None => forall|i: int|
                0 <= i < buckets@.len() ==> (#[trigger] buckets@[i].key) != key,
        },
{
    let mut j: usize = 0;
    while j < buckets.len()
        invariant
            0 <= j <= buckets@.len(),
            forall|i: int| 0 <= i < j ==> (#[trigger] buckets@[i].key) != key,
        decreases buckets@.len() - j,
    {
        if buckets[j].key == key {
            return Some(j);
        }
        j = j + 1;
    }
    None
}

/// Bins raw samples into fixed-width buckets and derives the chart's axis
/// bounds from the occupied buckets. The sum of all bucket counts equals the
/// number of samples: no sample is lost or counted twice.
pub fn bin_samples(samples: &Vec<u64>, bucket_count: u32) -> (h: InputHistogram)
    ensures
        h.bin_width as nat == effective_width(samples@, bucket_count),
        h.bin_width >= 1,
        forall|i: int, j: int|
            0 <= i < j < h.buckets@.len() ==> (#[trigger] bucket_pairs(h.buckets@)[i]).0 != (
            #[trigger] bucket_pairs(h.buckets@)[j]).0,
        forall|j: int|
            0 <= j < h.buckets@.len() ==> (#[trigger] bucket_pairs(h.buckets@)[j]).1
                == count_in_bucket(samples@, h.bin_width, bucket_pairs(h.buckets@)[j].0)
                && bucket_pairs(h.buckets@)[j].1 >= 1,
        forall|k: u64|
            #[trigger] count_in_bucket(samples@, h.bin_width, k) > 0 ==> has_bucket(
                bucket_pairs(h.buckets@),
                k,
            ),
        sum_counts(bucket_pairs(h.buckets@)) == samples@.len(),
        samples@.len() == 0 ==> h.buckets@.len() == 0,
        samples@.len() > 0 ==> h.buckets@.len() >= 1,
        h.buckets@.len() == 0 ==> h.axis_min == 0 && h.axis_max == 0 && h.axis_max_count as nat
            == headroom(1),
        h.buckets@.len() > 0 ==> h.axis_min as nat == min_bucket_key(bucket_pairs(h.buckets@))
            * h.bin_width && h.axis_max as nat == max_bucket_key(bucket_pairs(h.buckets@))
            * h.bin_width && h.axis_max_count as nat == headroom(
            max_bucket_count(bucket_pairs(h.buckets@)) as nat,
        ),
        bucket_count == 0 && samples@.len() > 0 && max_sample(samples@) < u64::MAX
            ==> h.buckets@.len() == 1 && bucket_pairs(h.buckets@)[0] == (
            0u64,
            samples@.len() as u64,
        ),
        max_sample(samples@) == min_sample(samples@) && samples@.len() > 0 ==> h.buckets@.len()
            == 1 && bucket_pairs(h.buckets@)[0].1 == samples@.len(),
{
    let width = compute_width(samples, bucket_count);
    let mut buckets: Vec<Bucket> = Vec::new();
    let ghost s = samples@;
    let mut i: usize = 0;
    proof {
        assert(bucket_pairs(buckets@) =~= Seq::<(u64, u64)>::empty());
        assert(s.take(0) =~= Seq::<u64>::empty());
    }
    while i < samples.len()
        invariant
            0 <= i <= s.len(),
            s == samples@,
            width as nat == effective_width(s, bucket_count),
            width >= 1,
            forall|a: int, b: int|
                0 <= a < b < buckets@.len() ==> (#[trigger] bucket_pairs(buckets@)[a]).0 != (
                #[trigger] bucket_pairs(buckets@)[b]).0,
            forall|j: int|
                0 <= j < buckets@.len() ==> (#[trigger] bucket_pairs(buckets@)[j]).1
                    == count_in_bucket(s.take(i as int), width, bucket_pairs(buckets@)[j].0)
                    && bucket_pairs(buckets@)[j].1 >= 1,
            forall|k: u64|
                #[trigger] count_in_bucket(s.take(i as int), width, k) > 0 ==> has_bucket(
                    bucket_pairs(buckets@),
                    k,
                ),
            sum_counts(bucket_pairs(buckets@)) == i,
            i > 0 ==> buckets@.len() >= 1,
            forall|j: int|
                0 <= j < buckets@.len() ==> (#[trigger] bucket_pairs(buckets@)[j]).0 <= u64::MAX
                    as nat / width as nat,
        decreases s.len() - i,
    {
        let v = samples[i];
        let key = v / width;
        proof {
            vstd::arithmetic::div_mod::lemma_div_is_ordered(v as int, u64::MAX as int, width as int);
            assert(s.take(i as int + 1).drop_last() =~= s.take(i as int));
            assert(s.take(i as int + 1).last() == s[i as int]);
        }
        let ghost bs0 = bucket_pairs(buckets@);
        assert forall|k: u64|
            count_in_bucket(s.take(i as int + 1), width, k) == count_in_bucket(
                s.take(i as int),
                width,
                k,
            ) + if s[i as int] / width == k {
                1nat
            } else {
                0nat
            } by {
            assert(s.take(i as int + 1).drop_last() =~= s.take(i as int));
        }
        match find_bucket(&buckets, key) {
            Some(j) => {
                let c = buckets[j].count;
                proof {
                    lemma_bucket_le_sum(bs0, j as int);
                    lemma_sum_counts_update(bs0, j as int, (key, (c + 1) as u64));
                }
                buckets.set(j, Bucket { key, count: c + 1 });
                proof {
                    let bs1 = bucket_pairs(buckets@);
                    assert(bs1 =~= bs0.update(j as int, (key, (c + 1) as u64)));
                    assert forall|jj: int| 0 <= jj < bs1.len() implies (#[trigger] bs1[jj]).1
                        == count_in_bucket(s.take(i as int + 1), width, bs1[jj].0) && bs1[jj].1
                        >= 1 by {
                        if jj == j {
                            assert(bs1[jj].0 == key && bs1[jj].1 == c + 1);
                        } else {
                            assert(bs0[jj].0 != bs0[j as int].0);
                            assert(bs1[jj] == bs0[jj]);
                        }
                    }
                    assert forall|k: u64|
                        count_in_bucket(s.take(i as int + 1), width, k) > 0 implies has_bucket(
                        bs1,
                        k,
                    ) by {
                        if k == key {
                            assert(bs1[j as int].0 == k);
                        } else {
                            assert(count_in_bucket(s.take(i as int), width, k) > 0);
                            assert(has_bucket(bs0, k));
                            let w0 = choose|w0: int| 0 <= w0 < bs0.len() && (#[trigger] bs0[w0].0)
                                == k;
                            assert(bs1[w0].0 == k);
                        }
                    }
                }
            },
            None => {
                proof {
                    assert(count_in_bucket(s.take(i as int), width, key) == 0) by {
                        if count_in_bucket(s.take(i as int), width, key) > 0 {
                            assert(has_bucket(bs0, key));
                            let w0 = choose|w0: int| 0 <= w0 < bs0.len() && (#[trigger] bs0[w0].0)
                                == key;
                            assert(bs0[w0].0 == buckets@[w0].key);
                            assert(false);
                        }
                    }
                }
                buckets.push(Bucket { key, count: 1 });
                proof {
                    let bs1 = bucket_pairs(buckets@);
                    assert(bs1 =~= bs0.push((key, 1u64)));
                    assert(bs1.drop_last() =~= bs0);
                    assert forall|jj: int| 0 <= jj < bs1.len() implies (#[trigger] bs1[jj]).1
                        == count_in_bucket(s.take(i as int + 1), width, bs1[jj].0) && bs1[jj].1
                        >= 1 by {
                        if jj == bs1.len() - 1 {
                            assert(bs1[jj] == (key, 1u64));
                        } else {
                            assert(bs1[jj] == bs0[jj]);
                            assert(bs0[jj].0 != key);
                        }
                    }
                    assert forall|k: u64|
                        count_in_bucket(s.take(i as int + 1), width, k) > 0 implies has_bucket(
                        bs1,
                        k,
                    ) by {
                        if k == key {
                            assert(bs1[bs1.len() - 1].0 == k);
                        } else {
                            assert(count_in_bucket(s.take(i as int), width, k) > 0);
                            assert(has_bucket(bs0, k));
                            let w0 = choose|w0: int| 0 <= w0 < bs0.len() && (#[trigger] bs0[w0].0)
                                == k;
                            assert(bs1[w0].0 == k);
                        }
                    }
                }
            },
        }
        i = i + 1;
    }
    proof {
        assert(s.take(s.len() as int) =~= s);
        let bs = bucket_pairs(buckets@);
        if s.len() > 0 && ((bucket_count == 0 && max_sample(s) < u64::MAX) || max_sample(s)
            == min_sample(s)) {
            let k0 = s[0] / width;
            assert forall|i: int| 0 <= i < s.len() implies #[trigger] s[i] / width == k0 by {
                lemma_max_sample_is_ub(s, i);
                lemma_min_sample_is_lb(s, i);
                lemma_max_sample_is_ub(s, 0);
                lemma_min_sample_is_lb(s, 0);
                if bucket_count == 0 && max_sample(s) < u64::MAX {
                    vstd::arithmetic::div_mod::lemma_basic_div(s[i] as int, width as int);
                    vstd::arithmetic::div_mod::lemma_basic_div(s[0] as int, width as int);
                } else {
                    assert(s[i] == s[0]);
                }
            }
            assert forall|j: int| 0 <= j < bs.len() implies (#[trigger] bs[j]).0 == k0 by {
                assert(bs[j].1 == count_in_bucket(s, width, bs[j].0));
                lemma_count_pos_has_sample(s, width, bs[j].0);
                let i = choose|i: int| 0 <= i < s.len() && (#[trigger] s[i]) / width == bs[j].0;
                assert(s[i] / width == k0);
            }
            assert(bs.len() >= 1);
            if bs.len() >= 2 {
                assert(bs[0].0 != bs[1].0);
                assert(false);
            }
            lemma_count_all_same(s, width, k0);
            assert(bs[0].1 == count_in_bucket(s, width, bs[0].0));
            if bucket_count == 0 && max_sample(s) < u64::MAX {
                lemma_max_sample_is_ub(s, 0);
                vstd::arithmetic::div_mod::lemma_basic_div(s[0] as int, width as int);
                assert(k0 == 0);
            }
        }
    }
    let (axis_min, axis_max, axis_max_count) = input_axis(&buckets, width);
    InputHistogram { bin_width: width, buckets, axis_min, axis_max, axis_max_count }
}

/// Every element of a non-empty sequence is at most its largest element.
proof fn lemma_max_sample_is_ub(s: Seq<u64>, i: int)
    requires
        0 <= i < s.len(),
    ensures
        s[i] <= max_sample(s),
    decreases s.len(),
{
    if s.len() > 1 && i < s.len() - 1 {
        lemma_max_sample_is_ub(s.drop_last(), i);
    }
}

/// Every element of a non-empty sequence is at least its smallest element.
proof fn lemma_min_sample_is_lb(s: Seq<u64>, i: int)
    requires
        0 <= i < s.len(),
    ensures
        s[i] >= min_sample(s),
    decreases s.len(),
{
    if s.len() > 1 && i < s.len() - 1 {
        lemma_min_sample_is_lb(s.drop_last(), i);
    }
}

/// A bucket with a positive count holds at least one sample.
proof fn lemma_count_pos_has_sample(s: Seq<u64>, w: u64, k: u64)
    requires
        count_in_bucket(s, w, k) > 0,
    ensures
        exists|i: int| 0 <= i < s.len() && (#[trigger] s[i]) / w == k,
    decreases s.len(),
{
    if s.last() / w == k {
        assert(s[s.len() - 1] / w == k);
    } else {
        lemma_count_pos_has_sample(s.drop_last(), w, k);
        let i = choose|i: int|
            0 <= i < s.drop_last().len() && (#[trigger] s.drop_last()[i]) / w == k;
        assert(s[i] / w == k);
    }
}

/// When every sample keys to the same bucket, that bucket holds them all.
proof fn lemma_count_all_same(s: Seq<u64>, w: u64, k: u64)
    requires
        forall|i: int| 0 <= i < s.len() ==> #[trigger] s[i] / w == k,
    ensures
        count_in_bucket(s, w, k) == s.len(),
    decreases s.len(),
{
    if s.len() > 0 {
        assert(forall|i: int|
            0 <= i < s.drop_last().len() ==> #[trigger] s.drop_last()[i] / w == s[i] / w);
        lemma_count_all_same(s.drop_last(), w, k);
        assert(s.last() / w == k);
    }
}

/// Computes `effective_width` for a sample sequence.
fn compute_width(samples: &Vec<u64>, bucket_count: u32) -> (w: u64)
    ensures
        w as nat == effective_width(samples@, bucket_count),
        w >= 1,
{
    if samples.len() == 0 {
        return 1;
    }
    let mut mn = samples[0];
    let mut mx = samples[0];
    let mut i: usize = 1;
    while i < samples.len()
        invariant
            1 <= i <= samples@.len(),
            mn == min_sample(samples@.take(i as int)),
            mx == max_sample(samples@.take(i as int)),
        decreases samples@.len() - i,
    {
        proof {
            assert(samples@.take(i as int + 1).drop_last() =~= samples@.take(i as int));
            assert(samples@.take(i as int + 1).last() == samples@[i as int]);
        }
        let v = samples[i];
        if v < mn {
            mn = v;
        }
        if v > mx {
            mx = v;
        }
        i = i + 1;
    }
    proof {
        assert(samples@.take(samples@.len() as int) =~= samples@);
    }
    let span = mx - mn;
    if bucket_count == 0 {
        if mx < u64::MAX {
            mx + 1
        } else {
            u64::MAX
        }
    } else {
        let w = span / (bucket_count as u64);
        if w == 0 {
            1
        } else {
            w
        }
    }
}

/// Scans the occupied buckets for the axis bounds of the raw-sample chart.
fn input_axis(buckets: &Vec<Bucket>, width: u64) -> (r: (u64, u64, u64))
    requires
        width >= 1,
        forall|j: int|
            0 <= j < buckets@.len() ==> (#[trigger] bucket_pairs(buckets@)[j]).0 <= u64::MAX as nat
                / width as nat,
    ensures
        buckets@.len() == 0 ==> r.0 == 0 && r.1 == 0 && r.2 as nat == headroom(1),
        buckets@.len() > 0 ==> r.0 as nat == min_bucket_key(bucket_pairs(buckets@)) * width && r.1
            as nat == max_bucket_key(bucket_pairs(buckets@)) * width && r.2 as nat == headroom(
            max_bucket_count(bucket_pairs(buckets@)) as nat,
        ),
{
    let ghost bs = bucket_pairs(buckets@);
    if buckets.len() == 0 {
        let m: u64 = 1;
        return (0, 0, m + m / 10);
    }
    let mut mn = buckets[0].key;
    let mut mx = buckets[0].key;
    let mut mc = buckets[0].count;
    let mut j: usize = 1;
    while j < buckets.len()
        invariant
            1 <= j <= bs.len(),
            bs == bucket_pairs(buckets@),
            mn == min_bucket_key(bs.take(j as int)),
            mx == max_bucket_key(bs.take(j as int)),
            mc == max_bucket_count(bs.take(j as int)),
        decreases bs.len() - j,
    {
        proof {
            assert(bs.take(j as int + 1).drop_last() =~= bs.take(j as int));
            assert(bs.take(j as int + 1).last() == bs[j as int]);
        }
        let b = buckets[j];
        if b.key < mn {
            mn = b.key;
        }
        if b.key > mx {
            mx = b.key;
        }
        if b.count > mc {
            mc = b.count;
        }
        j = j + 1;
    }
    proof {
        assert(bs.take(bs.len() as int) =~= bs);
        lemma_min_key_in(bs);
        lemma_max_key_in(bs);
        vstd::arithmetic::div_mod::lemma_fundamental_div_mod(u64::MAX as int, width as int);
        vstd::arithmetic::mul::lemma_mul_inequality(
            mn as int,
            u64::MAX as int / width as int,
            width as int,
        );
        vstd::arithmetic::mul::lemma_mul_inequality(
            mx as int,
            u64::MAX as int / width as int,
            width as int,
        );
    }
    let lo = mn * width;
    let hi = mx * width;
    let hc = if mc <= u64::MAX - mc / 10 {
        mc + mc / 10
    } else {
        u64::MAX
    };
    (lo, hi, hc)
}

proof fn lemma_min_key_in(bs: Seq<(u64, u64)>)
    requires
        bs.len() > 0,
    ensures
        exists|i: int| 0 <= i < bs.len() && (#[trigger] bs[i].0) == min_bucket_key(bs),
    decreases bs.len(),
{
    if bs.len() == 1 {
        assert(bs[0].0 == min_bucket_key(bs));
    } else if bs.last().0 < min_bucket_key(bs.drop_last()) {
        assert(bs[bs.len() - 1].0 == min_bucket_key(bs));
    } else {
        lemma_min_key_in(bs.drop_last());
        let i = choose|i: int|
            0 <= i < bs.drop_last().len() && (#[trigger] bs.drop_last()[i].0) == min_bucket_key(
                bs.drop_last(),
            );
        assert(bs[i] == bs.drop_last()[i]);
        assert(bs[i].0 == min_bucket_key(bs));
    }
}

proof fn lemma_max_key_in(bs: Seq<(u64, u64)>)
    requires
        bs.len() > 0,
    ensures
        exists|i: int| 0 <= i < bs.len() && (#[trigger] bs[i].0) == max_bucket_key(bs),
    decreases bs.len(),
{
    if bs.len() == 1 {
        assert(bs[0].0 == max_bucket_key(bs));
    } else if bs.last().0 > max_bucket_key(bs.drop_last()) {
        assert(bs[bs.len() - 1].0 == max_bucket_key(bs));
    } else {
        lemma_max_key_in(bs.drop_last());
        let i = choose|i: int|
            0 <= i < bs.drop_last().len() && (#[trigger] bs.drop_last()[i].0) == max_bucket_key(
                bs.drop_last(),
            );
        assert(bs[i] == bs.drop_last()[i]);
        assert(bs[i].0 == max_bucket_key(bs));
    }
}


/// How much mass a bin sequence carries under one key.
pub open spec fn key_mass(bs: Seq<(u32, u64)>, k: u32) -> nat
    decreases bs.len(),
{
    if bs.len() == 0 {
        0
    } else {
        (key_mass(bs.drop_last(), k) + if bs.last().0 == k {
            bs.last().1
        } else {
            0
        }) as nat
    }
}

/// Sum of all bin counts.
pub open spec fn sum_bins(bs: Seq<(u32, u64)>) -> nat
    decreases bs.len(),
{
    if bs.len() == 0 {
        0
    } else {
        (sum_bins(bs.drop_last()) + bs.last().1) as nat
    }
}

pub open spec fn has_bin(bs: Seq<(u32, u64)>, k: u32) -> bool {
    exists|i: int| 0 <= i < bs.len() && (#[trigger] bs[i].0) == k
}

pub open spec fn out_pairs(bs: Seq<OutBucket>) -> Seq<(u32, u64)> {
    bs.map_values(|b: OutBucket| (b.key, b.count))
}

/// The upper bound of a key's bin, saturated to a 64-bit value.
pub open spec fn sat_upper_of(k: nat) -> nat {
    if bin_upper_of(k) <= u64::MAX {
        bin_upper_of(k)
    } else {
        u64::MAX as nat
    }
}

pub open spec fn min_bin_key(bs: Seq<(u32, u64)>) -> u32
    decreases bs.len(),
{
    if bs.len() <= 1 {
        bs[0].0
    } else if bs.last().0 < min_bin_key(bs.drop_last()) {
        bs.last().0
    } else {
        min_bin_key(bs.drop_last())
    }
}

pub open spec fn max_bin_key(bs: Seq<(u32, u64)>) -> u32
    decreases bs.len(),
{
    if bs.len() <= 1 {
        bs[0].0
    } else if bs.last().0 > max_bin_key(bs.drop_last()) {
        bs.last().0
    } else {
        max_bin_key(bs.drop_last())
    }
}

pub open spec fn max_bin_count(bs: Seq<(u32, u64)>) -> u64
    decreases bs.len(),
{
    if bs.len() <= 1 {
        bs[0].1
    } else if bs.last().1 > max_bin_count(bs.drop_last()) {
        bs.last().1
    } else {
        max_bin_count(bs.drop_last())
    }
}

proof fn lemma_sum_bins_update(bs: Seq<(u32, u64)>, j: int, m: (u32, u64))
    requires
        0 <= j < bs.len(),
    ensures
        sum_bins(bs.update(j, m)) == sum_bins(bs) - bs[j].1 + m.1,
    decreases bs.len(),
{
    if j == bs.len() - 1 {
        assert(bs.update(j, m).drop_last() =~= bs.drop_last());
        assert(bs.update(j, m).last() == m);
    } else {
        assert(bs.update(j, m).drop_last() =~= bs.drop_last().update(j, m));
        assert(bs.update(j, m).last() == bs.last());
        lemma_sum_bins_update(bs.drop_last(), j, m);
    }
}

proof fn lemma_key_mass_update(bs: Seq<(u32, u64)>, j: int, m: (u32, u64), k: u32)
    requires
        0 <= j < bs.len(),
    ensures
        key_mass(bs.update(j, m), k) == key_mass(bs, k) - (if bs[j].0 == k {
            bs[j].1
        } else {
            0
        }) + (if m.0 == k {
            m.1
        } else {
            0
        }),
    decreases bs.len(),
{
    if j == bs.len() - 1 {
        assert(bs.update(j, m).drop_last() =~= bs.drop_last());
        assert(bs.update(j, m).last() == m);
    } else {
        assert(bs.update(j, m).drop_last() =~= bs.drop_last().update(j, m));
        assert(bs.update(j, m).last() == bs.last());
        lemma_key_mass_update(bs.drop_last(), j, m, k);
    }
}

proof fn lemma_key_mass_le_sum(bs: Seq<(u32, u64)>, k: u32)
    ensures
        key_mass(bs, k) <= sum_bins(bs),
    decreases bs.len(),
{
    if bs.len() > 0 {
        lemma_key_mass_le_sum(bs.drop_last(), k);
    }
}

proof fn lemma_sum_bins_take_le(bs: Seq<(u32, u64)>, a: int)
    requires
        0 <= a <= bs.len(),
    ensures
        sum_bins(bs.take(a)) <= sum_bins(bs),
    decreases bs.len(),
{
    if a == bs.len() {
        assert(bs.take(a) =~= bs);
    } else {
        assert(bs.drop_last().take(a) =~= bs.take(a));
        lemma_sum_bins_take_le(bs.drop_last(), a);
    }
}

/// Finds the merged bin holding the given key, if one exists.
fn find_bin(bins: &Vec<Bin>, key: u32) -> (o: Option<usize>)
    ensures
        match o {
            Some(j) => 0 <= j < bins@.len() && bins@[j as int].k == key,
            None => forall|i: int| 0 <= i < bins@.len() ==> (#[trigger] bins@[i].k) != key,
        },
{
    let mut j: usize = 0;
    while j < bins.len()
        invariant
            0 <= j <= bins@.len(),
            forall|i: int| 0 <= i < j ==> (#[trigger] bins@[i].k) != key,
        decreases bins@.len() - j,
    {
        if bins[j].k == key {
            return Some(j);
        }
        j = j + 1;
    }
    None
}

/// Merges bins that collide on the same key by summing their counts. The sum
/// of all merged counts equals the sum of all native counts: no mass is lost
/// or duplicated.
pub fn merge_bins(bins: &Vec<Bin>) -> (r: Vec<Bin>)
    requires
        sum_bins(bin_pairs(bins@)) <= u64::MAX,
    ensures
        forall|a: int, b: int|
            0 <= a < b < r@.len() ==> (#[trigger] bin_pairs(r@)[a]).0 != (#[trigger] bin_pairs(
                r@,
            )[b]).0,
        forall|j: int|
            0 <= j < r@.len() ==> (#[trigger] bin_pairs(r@)[j]).1 == key_mass(
                bin_pairs(bins@),
                bin_pairs(r@)[j].0,
            ) && has_bin(bin_pairs(bins@), bin_pairs(r@)[j].0),
        forall|k: u32| #[trigger] has_bin(bin_pairs(bins@), k) ==> has_bin(bin_pairs(r@), k),
        sum_bins(bin_pairs(r@)) == sum_bins(bin_pairs(bins@)),
        r@.len() == 0 <==> bins@.len() == 0,
{
    let ghost bp = bin_pairs(bins@);
    let mut out: Vec<Bin> = Vec::new();
    let mut i: usize = 0;
    proof {
        assert(bin_pairs(out@) =~= Seq::<(u32, u64)>::empty());
        assert(bp.take(0) =~= Seq::<(u32, u64)>::empty());
    }
    while i < bins.len()
        invariant
            0 <= i <= bp.len(),
            bp == bin_pairs(bins@),
            sum_bins(bp) <= u64::MAX,
            forall|a: int, b: int|
                0 <= a < b < out@.len() ==> (#[trigger] bin_pairs(out@)[a]).0 != (
                #[trigger] bin_pairs(out@)[b]).0,
            forall|j: int|
                0 <= j < out@.len() ==> (#[trigger] bin_pairs(out@)[j]).1 == key_mass(
                    bp.take(i as int),
                    bin_pairs(out@)[j].0,
                ) && has_bin(bp.take(i as int), bin_pairs(out@)[j].0),
            forall|k: u32| #[trigger] has_bin(bp.take(i as int), k) ==> has_bin(
                bin_pairs(out@),
                k,
            ),
            sum_bins(bin_pairs(out@)) == sum_bins(bp.take(i as int)),
            out@.len() == 0 ==> i == 0,
        decreases bp.len() - i,
    {
        let key = bins[i].k;
        let n = bins[i].n;
        let ghost os0 = bin_pairs(out@);
        proof {
            assert(bp.take(i as int + 1).drop_last() =~= bp.take(i as int));
            assert(bp.take(i as int + 1).last() == bp[i as int]);
            lemma_sum_bins_take_le(bp, i as int + 1);
        }
        assert forall|k: u32|
            key_mass(bp.take(i as int + 1), k) == key_mass(bp.take(i as int), k) + if bp[i
                as int].0 == k {
                bp[i as int].1 as nat
            } else {
                0nat
            } by {
            assert(bp.take(i as int + 1).drop_last() =~= bp.take(i as int));
        }
        assert forall|k: u32| has_bin(bp.take(i as int + 1), k) <==> (has_bin(
            bp.take(i as int),
            k,
        ) || k == key) by {
            if has_bin(bp.take(i as int + 1), k) {
                let w = choose|w: int|
                    0 <= w < bp.take(i as int + 1).len() && (#[trigger] bp.take(
                        i as int + 1,
                    )[w].0) == k;
                if w < i as int {
                    assert(bp.take(i as int)[w].0 == k);
                }
            }
            if has_bin(bp.take(i as int), k) {
                let w = choose|w: int|
                    0 <= w < bp.take(i as int).len() && (#[trigger] bp.take(i as int)[w].0) == k;
                assert(bp.take(i as int + 1)[w].0 == k);
            }
            if k == key {
                assert(bp.take(i as int + 1)[i as int].0 == k);
            }
        }
        match find_bin(&out, key) {
            Some(j) => {
                let c = out[j].n;
                proof {
                    lemma_key_mass_le_sum(bp.take(i as int), key);
                    lemma_sum_bins_update(os0, j as int, (key, (c + n) as u64));
                    lemma_key_mass_update(os0, j as int, (key, (c + n) as u64), key);
                }
                out.set(j, Bin { k: key, n: c + n });
                proof {
                    let os1 = bin_pairs(out@);
                    assert(os1 =~= os0.update(j as int, (key, (c + n) as u64)));
                    assert forall|jj: int| 0 <= jj < os1.len() implies (#[trigger] os1[jj]).1
                        == key_mass(bp.take(i as int + 1), os1[jj].0) && has_bin(
                        bp.take(i as int + 1),
                        os1[jj].0,
                    ) by {
                        if jj == j {
                        } else {
                            assert(os0[jj].0 != os0[j as int].0);
                            assert(os1[jj] == os0[jj]);
                        }
                    }
                    assert forall|k: u32| #[trigger] has_bin(bp.take(i as int + 1), k) implies
                        has_bin(os1, k) by {
                        if k == key {
                            assert(os1[j as int].0 == k);
                        } else {
                            assert(has_bin(bp.take(i as int), k));
                            let w0 = choose|w0: int| 0 <= w0 < os0.len() && (#[trigger] os0[w0].0)
                                == k;
                            assert(os1[w0].0 == k);
                        }
                    }
                }
            },
            None => {
                proof {
                    assert(key_mass(bp.take(i as int), key) == 0) by {
                        if has_bin(bp.take(i as int), key) {
                            assert(has_bin(os0, key));
                            let w0 = choose|w0: int| 0 <= w0 < os0.len() && (#[trigger] os0[w0].0)
                                == key;
                            assert(os0[w0].0 == out@[w0].k);
                            assert(false);
                        }
                        lemma_key_mass_no_bin(bp.take(i as int), key);
                    }
                    lemma_key_mass_le_sum(bp.take(i as int + 1), key);
                }
                out.push(Bin { k: key, n });
                proof {
                    let os1 = bin_pairs(out@);
                    assert(os1 =~= os0.push((key, n)));
                    assert(os1.drop_last() =~= os0);
                    assert forall|jj: int| 0 <= jj < os1.len() implies (#[trigger] os1[jj]).1
                        == key_mass(bp.take(i as int + 1), os1[jj].0) && has_bin(
                        bp.take(i as int + 1),
                        os1[jj].0,
                    ) by {
                        if jj == os1.len() - 1 {
                            assert(os1[jj] == (key, n));
                        } else {
                            assert(os1[jj] == os0[jj]);
                            assert(os0[jj].0 != key);
                        }
                    }
                    assert forall|k: u32| #[trigger] has_bin(bp.take(i as int + 1), k) implies
                        has_bin(os1, k) by {
                        if k == key {
                            assert(os1[os1.len() - 1].0 == k);
                        } else {
                            assert(has_bin(bp.take(i as int), k));
                            let w0 = choose|w0: int| 0 <= w0 < os0.len() && (#[trigger] os0[w0].0)
                                == k;
                            assert(os1[w0].0 == k);
                        }
                    }
                }
            },
        }
        i = i + 1;
    }
    proof {
        assert(bp.take(bp.len() as int) =~= bp);
    }
    out
}

proof fn lemma_key_mass_no_bin(bs: Seq<(u32, u64)>, k: u32)
    requires
        !has_bin(bs, k),
    ensures
        key_mass(bs, k) == 0,
    decreases bs.len(),
{
    if bs.len() > 0 {
        assert(bs[bs.len() - 1].0 != k);
        assert(forall|i: int| 0 <= i < bs.drop_last().len() ==> bs.drop_last()[i] == bs[i]);
        lemma_key_mass_no_bin(bs.drop_last(), k);
    }
}


proof fn lemma_min_bin_key_in(bs: Seq<(u32, u64)>)
    requires
        bs.len() > 0,
    ensures
        exists|i: int| 0 <= i < bs.len() && (#[trigger] bs[i].0) == min_bin_key(bs),
    decreases bs.len(),
{
    if bs.len() == 1 {
        assert(bs[0].0 == min_bin_key(bs));
    } else if bs.last().0 < min_bin_key(bs.drop_last()) {
        assert(bs[bs.len() - 1].0 == min_bin_key(bs));
    } else {
        lemma_min_bin_key_in(bs.drop_last());
        let i = choose|i: int|
            0 <= i < bs.drop_last().len() && (#[trigger] bs.drop_last()[i].0) == min_bin_key(
                bs.drop_last(),
            );
        assert(bs[i] == bs.drop_last()[i]);
        assert(bs[i].0 == min_bin_key(bs));
    }
}

proof fn lemma_max_bin_key_in(bs: Seq<(u32, u64)>)
    requires
        bs.len() > 0,
    ensures
        exists|i: int| 0 <= i < bs.len() && (#[trigger] bs[i].0) == max_bin_key(bs),
    decreases bs.len(),
{
    if bs.len() == 1 {
        assert(bs[0].0 == max_bin_key(bs));
    } else if bs.last().0 > max_bin_key(bs.drop_last()) {
        assert(bs[bs.len() - 1].0 == max_bin_key(bs));
    } else {
        lemma_max_bin_key_in(bs.drop_last());
        let i = choose|i: int|
            0 <= i < bs.drop_last().len() && (#[trigger] bs.drop_last()[i].0) == max_bin_key(
                bs.drop_last(),
            );
        assert(bs[i] == bs.drop_last()[i]);
        assert(bs[i].0 == max_bin_key(bs));
    }
}

/// Builds the digest-bin histogram: merges key collisions, attaches each
/// merged bin's value range, and derives the axis bounds from the lowest and
/// highest occupied key. Empty input yields an empty bucket set with
/// degenerate bounds.
pub fn output_histogram_from_bins(bins: &Vec<Bin>) -> (h: OutputHistogram)
    requires
        sum_bins(bin_pairs(bins@)) <= u64::MAX,
        forall|i: int| 0 <= i < bins@.len() ==> (#[trigger] bins@[i].k) <= MAX_KEY,
    ensures
        forall|a: int, b: int|
            0 <= a < b < h.buckets@.len() ==> (#[trigger] out_pairs(h.buckets@)[a]).0 != (
            #[trigger] out_pairs(h.buckets@)[b]).0,
        forall|j: int|
            0 <= j < h.buckets@.len() ==> (#[trigger] out_pairs(h.buckets@)[j]).1 == key_mass(
                bin_pairs(bins@),
                out_pairs(h.buckets@)[j].0,
            ) && has_bin(bin_pairs(bins@), out_pairs(h.buckets@)[j].0),
        forall|k: u32| #[trigger] has_bin(bin_pairs(bins@), k) ==> has_bin(
            out_pairs(h.buckets@),
            k,
        ),
        sum_bins(out_pairs(h.buckets@)) == sum_bins(bin_pairs(bins@)),
        forall|j: int|
            0 <= j < h.buckets@.len() ==> (#[trigger] h.buckets@[j]).lower as nat == bin_lower_of(
                h.buckets@[j].key as nat,
            ) && h.buckets@[j].upper as nat == sat_upper_of(h.buckets@[j].key as nat),
        h.buckets@.len() == 0 <==> bins@.len() == 0,
        h.buckets@.len() == 0 ==> h.axis_min == 0 && h.axis_max == 0 && h.axis_max_count == 0,
        h.buckets@.len() > 0 ==> h.axis_min as nat == bin_lower_of(
            min_bin_key(out_pairs(h.buckets@)) as nat,
        ) && h.axis_max as nat == sat_upper_of(max_bin_key(out_pairs(h.buckets@)) as nat)
            && h.axis_max_count == max_bin_count(out_pairs(h.buckets@)),
{
    let merged = merge_bins(bins);
    let ghost mp = bin_pairs(merged@);
    let mut buckets: Vec<OutBucket> = Vec::new();
    let mut j: usize = 0;
    proof {
        assert(out_pairs(buckets@) =~= mp.take(0));
        assert forall|i: int| 0 <= i < mp.len() implies (#[trigger] mp[i].0) <= MAX_KEY by {
            assert(has_bin(bin_pairs(bins@), mp[i].0));
            let w = choose|w: int|
                0 <= w < bin_pairs(bins@).len() && (#[trigger] bin_pairs(bins@)[w].0) == mp[i].0;
            assert(bins@[w].k == mp[i].0);
        }
    }
    while j < merged.len()
        invariant
            0 <= j <= mp.len(),
            mp == bin_pairs(merged@),
            forall|i: int| 0 <= i < mp.len() ==> (#[trigger] mp[i].0) <= MAX_KEY,
            buckets@.len() == j,
            out_pairs(buckets@) == mp.take(j as int),
            forall|jj: int|
                0 <= jj < j ==> (#[trigger] buckets@[jj]).lower as nat == bin_lower_of(
                    buckets@[jj].key as nat,
                ) && buckets@[jj].upper as nat == sat_upper_of(buckets@[jj].key as nat),
        decreases mp.len() - j,
    {
        let b = merged[j];
        proof {
            assert(mp[j as int].0 == b.k);
        }
        let l = bin_lower(b.k);
        let u = bin_upper(b.k);
        buckets.push(OutBucket { key: b.k, count: b.n, lower: l, upper: u });
        proof {
            assert(out_pairs(buckets@) =~= mp.take(j as int + 1));
        }
        j = j + 1;
    }
    proof {
        assert(mp.take(mp.len() as int) =~= mp);
        assert(out_pairs(buckets@) == mp);
    }
    if buckets.len() == 0 {
        return OutputHistogram { buckets, axis_min: 0, axis_max: 0, axis_max_count: 0 };
    }
    let ghost os = out_pairs(buckets@);
    let mut mn = buckets[0].key;
    let mut mx = buckets[0].key;
    let mut mc = buckets[0].count;
    let mut t: usize = 1;
    while t < buckets.len()
        invariant
            1 <= t <= os.len(),
            os == out_pairs(buckets@),
            mn == min_bin_key(os.take(t as int)),
            mx == max_bin_key(os.take(t as int)),
            mc == max_bin_count(os.take(t as int)),
        decreases os.len() - t,
    {
        proof {
            assert(os.take(t as int + 1).drop_last() =~= os.take(t as int));
            assert(os.take(t as int + 1).last() == os[t as int]);
        }
        let b = buckets[t];
        if b.key < mn {
            mn = b.key;
        }
        if b.key > mx {
            mx = b.key;
        }
        if b.count > mc {
            mc = b.count;
        }
        t = t + 1;
    }
    proof {
        assert(os.take(os.len() as int) =~= os);
        lemma_min_bin_key_in(os);
        lemma_max_bin_key_in(os);
    }
    let axis_min = bin_lower(mn);
    let axis_max = bin_upper(mx);
    OutputHistogram { buckets, axis_min, axis_max, axis_max_count: mc }
}


proof fn lemma_bins_mass_push(bs: Seq<(u32, u64)>, x: (u32, u64))
    ensures
        bins_mass(bs.push(x)) == bins_mass(bs) + x.1,
    decreases bs.len(),
{
    if bs.len() == 0 {
        assert(bs.push(x)[0] == x);
        assert(bs.push(x).drop_first() =~= Seq::<(u32, u64)>::empty());
        assert(bins_mass(bs.push(x)) == x.1 + bins_mass(bs.push(x).drop_first()));
    } else {
        assert(bs.push(x)[0] == bs[0]);
        assert(bs.push(x).drop_first() =~= bs.drop_first().push(x));
        lemma_bins_mass_push(bs.drop_first(), x);
        assert(bins_mass(bs.push(x)) == bs[0].1 + bins_mass(bs.drop_first().push(x)));
    }
}

/// The two ways of summing bin counts agree.
pub proof fn lemma_sum_bins_eq_mass(bs: Seq<(u32, u64)>)
    ensures
        sum_bins(bs) == bins_mass(bs),
    decreases bs.len(),
{
    if bs.len() > 0 {
        lemma_sum_bins_eq_mass(bs.drop_last());
        lemma_bins_mass_push(bs.drop_last(), bs.last());
        assert(bs.drop_last().push(bs.last()) =~= bs);
    }
}

} // verus!

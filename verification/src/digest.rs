//! A compact, mergeable summary of a value distribution over log-scaled bins.
//!
//! Values are whole microseconds. Each value is mapped to an integer key that
//! encodes a value range; ranges double every 32 keys, so the width of a bin
//! is proportional to the values it covers (bounded relative error). The
//! digest keeps one count per key, collapses its lowest bins when a
//! configured bin limit is exceeded, and answers rank-based quantile queries
//! from the bins together with the exact minimum and maximum seen.

use vstd::prelude::*;
use vstd::arithmetic::power2::{pow2, lemma_pow2_strictly_increases, lemma_pow2_unfold, lemma2_to64, lemma2_to64_rest};
use vstd::arithmetic::mul::lemma_mul_inequality;
use vstd::arithmetic::div_mod::{lemma_div_is_ordered, lemma_div_multiples_vanish};

verus! {

/// Largest key that any 64-bit value can map to under `key_of`.
pub const MAX_KEY: u32 = 1919;

/// The key a value is summarized under: values below 32 are their own key;
/// above that, halving a value lowers its key by 32. Keys thus grow by 32
/// per doubling of the value (32 log-scaled sub-bins per octave).
pub open spec fn key_of(v: nat) -> nat
    decreases v,
{
    if v < 32 {
        v
    } else {
        (32 + key_of(v / 2)) as nat
    }
}

/// Smallest value that maps into the bin of the given key.
pub open spec fn bin_lower_of(k: nat) -> nat
    decreases k,
{
    if k < 32 {
        k
    } else {
        2 * bin_lower_of((k - 32) as nat)
    }
}

/// Smallest value above every value that maps into the bin of the given key.
pub open spec fn bin_upper_of(k: nat) -> nat
    decreases k,
{
    if k < 32 {
        k + 1
    } else {
        2 * bin_upper_of((k - 32) as nat)
    }
}

/// Any value below 2^n (n at least 5) maps to a key of at most 32*(n-5)+31.
proof fn lemma_key_of_below_pow2(v: nat, n: nat)
    requires
        5 <= n,
        v < pow2(n),
    ensures
        key_of(v) <= 32 * (n - 5) + 31,
    decreases n,
{
    if v < 32 {
    } else {
        lemma2_to64();
        assert(n != 5);
        lemma_pow2_unfold(n);
        assert(v / 2 < pow2((n - 1) as nat));
        lemma_key_of_below_pow2(v / 2, (n - 1) as nat);
    }
}

/// Every 64-bit value maps to a key of at most `MAX_KEY`.
pub proof fn lemma_key_of_max(v: nat)
    requires
        v <= u64::MAX,
    ensures
        key_of(v) <= MAX_KEY,
{
    lemma2_to64();
    lemma_key_of_below_pow2(v, 64);
}

/// The lower bound of a key stays under a power of two that grows with the key.
proof fn lemma_bin_lower_below(k: nat)
    ensures
        bin_lower_of(k) < pow2((k / 32 + 5) as nat),
    decreases k,
{
    if k < 32 {
        lemma2_to64();
    } else {
        lemma_bin_lower_below((k - 32) as nat);
        assert((k - 32) / 32 + 5 == k / 32 + 4);
        lemma_pow2_unfold((k / 32 + 5) as nat);
    }
}

proof fn lemma_bin_upper_below(k: nat)
    ensures
        bin_upper_of(k) <= pow2((k / 32 + 5) as nat),
    decreases k,
{
    if k < 32 {
        lemma2_to64();
    } else {
        lemma_bin_upper_below((k - 32) as nat);
        assert((k - 32) / 32 + 5 == k / 32 + 4);
        lemma_pow2_unfold((k / 32 + 5) as nat);
    }
}

/// A bin's range is never empty.
pub proof fn lemma_bin_lower_below_upper(k: nat)
    ensures
        bin_lower_of(k) < bin_upper_of(k),
    decreases k,
{
    if k >= 32 {
        lemma_bin_lower_below_upper((k - 32) as nat);
    }
}

/// The bin of a value's key really contains the value.
pub proof fn lemma_key_bounds(v: nat)
    ensures
        bin_lower_of(key_of(v)) <= v < bin_upper_of(key_of(v)),
    decreases v,
{
    if v < 32 {
    } else {
        lemma_key_bounds(v / 2);
    }
}

/// The keys that `key_of` can produce: below 32, or 48 and above with the
/// same shape one octave down. Keys from 32 to 47 are never produced.
pub open spec fn valid_key(k: nat) -> bool
    decreases k,
{
    if k < 32 {
        true
    } else {
        k >= 48 && valid_key((k - 32) as nat)
    }
}

proof fn lemma_key_of_ge_16(v: nat)
    requires
        v >= 16,
    ensures
        key_of(v) >= 16,
    decreases v,
{
}

/// Every produced key is a valid key.
pub proof fn lemma_valid_key_of(v: nat)
    ensures
        valid_key(key_of(v)),
    decreases v,
{
    if v >= 32 {
        lemma_key_of_ge_16(v / 2);
        lemma_valid_key_of(v / 2);
    }
}

proof fn lemma_lower_ge_16(k: nat)
    requires
        valid_key(k),
        k >= 16,
    ensures
        bin_lower_of(k) >= 16,
    decreases k,
{
    if k >= 32 {
        lemma_lower_ge_16((k - 32) as nat);
    }
}

/// Bins of distinct valid keys cover disjoint value ranges, in key order.
pub proof fn lemma_bins_disjoint(k1: nat, k2: nat)
    requires
        valid_key(k1),
        valid_key(k2),
        k1 < k2,
    ensures
        bin_upper_of(k1) <= bin_lower_of(k2),
    decreases k2,
{
    if k2 < 32 {
    } else if k1 < 32 {
        lemma_lower_ge_16((k2 - 32) as nat);
    } else {
        lemma_bins_disjoint((k1 - 32) as nat, (k2 - 32) as nat);
    }
}

/// Computes `key_of` for a value.
pub fn key_for(v: u64) -> (k: u32)
    ensures
        k as nat == key_of(v as nat),
        k <= MAX_KEY,
{
    proof {
        lemma_key_of_max(v as nat);
    }
    let mut x: u64 = v;
    let mut acc: u32 = 0;
    while x >= 32
        invariant
            acc as nat + key_of(x as nat) == key_of(v as nat),
            key_of(v as nat) <= MAX_KEY,
        decreases x,
    {
        assert(key_of(x as nat) == 32 + key_of(x as nat / 2));
        x = x / 2;
        acc = acc + 32;
    }
    acc + (x as u32)
}

/// Computes `bin_lower_of` for a key.
pub fn bin_lower(k: u32) -> (r: u64)
    requires
        k <= MAX_KEY,
    ensures
        r as nat == bin_lower_of(k as nat),
    decreases k,
{
    if k < 32 {
        k as u64
    } else {
        let s = bin_lower(k - 32);
        proof {
            lemma_bin_lower_below((k - 32) as nat);
            assert((k - 32) as nat / 32 + 5 <= 63);
            if (k - 32) as nat / 32 + 5 < 63 {
                lemma_pow2_strictly_increases(((k - 32) as nat / 32 + 5) as nat, 63);
            }
            lemma2_to64_rest();
        }
        2 * s
    }
}

/// Computes `bin_upper_of` for a key, saturating at the largest 64-bit value.
pub fn bin_upper(k: u32) -> (r: u64)
    requires
        k <= MAX_KEY,
    ensures
        r as nat == if bin_upper_of(k as nat) <= u64::MAX { bin_upper_of(k as nat) } else {
            u64::MAX as nat
        },
    decreases k,
{
    if k < 32 {
        (k + 1) as u64
    } else {
        let s = bin_upper(k - 32);
        if s > u64::MAX / 2 {
            u64::MAX
        } else {
            2 * s
        }
    }
}


/// Default bin limit a digest is created with.
pub const DEFAULT_BIN_LIMIT: u16 = 4096;

/// One bin of the digest: a key and the count of values summarized under it.
#[derive(Clone, Copy)]
pub struct Bin {
    pub k: u32,
    pub n: u64,
}

/// The digest itself: sorted bins, total count, exact extremes, bin limit.
pub struct Digest {
    bins: Vec<Bin>,
    cnt: u64,
    lo: u64,
    hi: u64,
    bin_limit: u16,
}

/// The digest's mathematical state.
#[verifier::ext_equal]
pub ghost struct DigestView {
    pub bins: Seq<(u32, u64)>,
    pub cnt: nat,
    pub lo: nat,
    pub hi: nat,
    pub limit: nat,
}

impl View for Digest {
    type V = DigestView;

    closed spec fn view(&self) -> DigestView {
        DigestView {
            bins: self.bins@.map_values(|b: Bin| (b.k, b.n)),
            cnt: self.cnt as nat,
            lo: self.lo as nat,
            hi: self.hi as nat,
            limit: self.bin_limit as nat,
        }
    }
}

/// The bins of a bin vector as plain pairs.
pub open spec fn bin_pairs(bs: Seq<Bin>) -> Seq<(u32, u64)> {
    bs.map_values(|b: Bin| (b.k, b.n))
}

/// Sum of the counts of a bin sequence.
pub open spec fn bins_mass(bs: Seq<(u32, u64)>) -> nat
    decreases bs.len(),
{
    if bs.len() == 0 {
        0
    } else {
        (bs[0].1 + bins_mass(bs.drop_first())) as nat
    }
}

/// Bins are strictly sorted by key, keys are in range, counts are positive.
pub open spec fn bins_wf(bs: Seq<(u32, u64)>) -> bool {
    &&& forall|i: int, j: int| 0 <= i < j < bs.len() ==> #[trigger] bs[i].0 < #[trigger] bs[j].0
    &&& forall|i: int|
        0 <= i < bs.len() ==> (#[trigger] bs[i].0) <= MAX_KEY && bs[i].1 >= 1 && valid_key(
            bs[i].0 as nat,
        )
}

/// Everything a digest guarantees about its own state.
pub open spec fn digest_wf(dv: DigestView) -> bool {
    &&& bins_wf(dv.bins)
    &&& bins_mass(dv.bins) == dv.cnt
    &&& dv.cnt <= u64::MAX
    &&& dv.lo <= u64::MAX && dv.hi <= u64::MAX && dv.limit <= u16::MAX
    &&& (dv.cnt == 0 ==> dv.bins.len() == 0 && dv.lo == 0 && dv.hi == 0)
    &&& (dv.cnt > 0 ==> dv.lo <= dv.hi && dv.bins.len() >= 1)
    &&& (dv.limit > 0 ==> dv.bins.len() <= dv.limit)
}

/// Index of the first bin whose key is at least `k`.
pub open spec fn first_geq(bs: Seq<(u32, u64)>, k: u32) -> int
    decreases bs.len(),
{
    if bs.len() == 0 {
        0
    } else if bs[0].0 >= k {
        0
    } else {
        1 + first_geq(bs.drop_first(), k)
    }
}

/// One more value with key `k`: bump the matching bin or start a new one.
pub open spec fn bump_bins(bs: Seq<(u32, u64)>, k: u32) -> Seq<(u32, u64)> {
    let j = first_geq(bs, k);
    if j < bs.len() && bs[j].0 == k {
        bs.update(j, (k, (bs[j].1 + 1) as u64))
    } else {
        bs.insert(j, (k, 1u64))
    }
}

/// Collapse the two lowest bins into the higher one's key until the limit
/// holds; a limit of zero means unlimited.
pub open spec fn collapse_bins(bs: Seq<(u32, u64)>, limit: nat) -> Seq<(u32, u64)>
    decreases bs.len(),
{
    if limit == 0 || bs.len() <= limit {
        bs
    } else {
        collapse_bins(seq![(bs[1].0, (bs[0].1 + bs[1].1) as u64)] + bs.skip(2), limit)
    }
}

/// The key a 64-bit value is summarized under.
pub open spec fn key_of_u(v: u64) -> u32 {
    key_of(v as nat) as u32
}

/// The digest state after inserting one value.
pub open spec fn digest_insert(dv: DigestView, v: u64) -> DigestView {
    DigestView {
        bins: collapse_bins(bump_bins(dv.bins, key_of_u(v)), dv.limit),
        cnt: dv.cnt + 1,
        lo: if dv.cnt == 0 || (v as nat) < dv.lo { v as nat } else { dv.lo },
        hi: if dv.cnt == 0 || (v as nat) > dv.hi { v as nat } else { dv.hi },
        limit: dv.limit,
    }
}

/// The digest state after inserting a sequence of values in order.
pub open spec fn digest_insert_all(dv: DigestView, vals: Seq<u64>) -> DigestView
    decreases vals.len(),
{
    if vals.len() == 0 {
        dv
    } else {
        digest_insert_all(digest_insert(dv, vals[0]), vals.drop_first())
    }
}

/// A fresh digest with the given bin limit.
pub open spec fn digest_empty(limit: u16) -> DigestView {
    DigestView { bins: Seq::empty(), cnt: 0, lo: 0, hi: 0, limit: limit as nat }
}

proof fn lemma_mass_update(bs: Seq<(u32, u64)>, j: int, m: (u32, u64))
    requires
        0 <= j < bs.len(),
    ensures
        bins_mass(bs.update(j, m)) == bins_mass(bs) - bs[j].1 + m.1,
    decreases bs.len(),
{
    if j == 0 {
        assert(bs.update(0, m).drop_first() =~= bs.drop_first());
    } else {
        assert(bs.update(j, m).drop_first() =~= bs.drop_first().update(j - 1, m));
        lemma_mass_update(bs.drop_first(), j - 1, m);
    }
}

proof fn lemma_mass_insert(bs: Seq<(u32, u64)>, j: int, m: (u32, u64))
    requires
        0 <= j <= bs.len(),
    ensures
        bins_mass(bs.insert(j, m)) == bins_mass(bs) + m.1,
    decreases bs.len(),
{
    if j == 0 {
        assert(bs.insert(0, m).drop_first() =~= bs);
    } else {
        assert(bs.insert(j, m).drop_first() =~= bs.drop_first().insert(j - 1, m));
        lemma_mass_insert(bs.drop_first(), j - 1, m);
    }
}

proof fn lemma_bin_le_mass(bs: Seq<(u32, u64)>, i: int)
    requires
        0 <= i < bs.len(),
    ensures
        bs[i].1 <= bins_mass(bs),
    decreases bs.len(),
{
    if i > 0 {
        lemma_bin_le_mass(bs.drop_first(), i - 1);
    }
}

proof fn lemma_first_geq_scan(bs: Seq<(u32, u64)>, k: u32, j: int)
    requires
        0 <= j <= bs.len(),
        forall|i: int| 0 <= i < j ==> (#[trigger] bs[i].0) < k,
        j == bs.len() || bs[j].0 >= k,
    ensures
        first_geq(bs, k) == j,
    decreases bs.len(),
{
    if bs.len() == 0 {
    } else if bs[0].0 >= k {
        assert(j == 0);
    } else {
        assert(forall|i: int|
            0 <= i < j - 1 ==> (#[trigger] bs.drop_first()[i]).0 == bs[i + 1].0);
        lemma_first_geq_scan(bs.drop_first(), k, j - 1);
    }
}

impl Digest {
    /// A fresh digest with the default bin limit.
    pub fn new() -> (d: Digest)
        ensures
            d@ == digest_empty(DEFAULT_BIN_LIMIT),
            digest_wf(d@),
    {
        Digest::with_bin_limit(DEFAULT_BIN_LIMIT)
    }

    /// A fresh digest with the given bin limit (zero means unlimited).
    pub fn with_bin_limit(limit: u16) -> (d: Digest)
        ensures
            d@ == digest_empty(limit),
            digest_wf(d@),
    {
        let d = Digest { bins: Vec::new(), cnt: 0, lo: 0, hi: 0, bin_limit: limit };
        proof {
            assert(d@.bins =~= Seq::<(u32, u64)>::empty());
            assert(d@ =~= digest_empty(limit));
        }
        d
    }

    /// The configured bin limit.
    pub fn bin_limit(&self) -> (r: u16)
        ensures
            r as nat == self@.limit,
    {
        self.bin_limit
    }

    /// How many values the digest has summarized.
    pub fn count(&self) -> (r: u64)
        ensures
            r as nat == self@.cnt,
    {
        self.cnt
    }

    /// How many bins the digest currently holds.
    pub fn bin_count(&self) -> (r: usize)
        ensures
            r as nat == self@.bins.len(),
    {
        self.bins.len()
    }

    /// The exact smallest value seen, if any.
    pub fn min(&self) -> (r: Option<u64>)
        ensures
            r.is_some() <==> self@.cnt > 0,
            r.is_some() ==> r.unwrap() as nat == self@.lo,
    {
        if self.cnt == 0 {
            None
        } else {
            Some(self.lo)
        }
    }

    /// The exact largest value seen, if any.
    pub fn max(&self) -> (r: Option<u64>)
        ensures
            r.is_some() <==> self@.cnt > 0,
            r.is_some() ==> r.unwrap() as nat == self@.hi,
    {
        if self.cnt == 0 {
            None
        } else {
            Some(self.hi)
        }
    }

    /// A read-only snapshot of the bins, lowest key first.
    pub fn bins(&self) -> (r: &Vec<Bin>)
        ensures
            bin_pairs(r@) == self@.bins,
    {
        &self.bins
    }

    /// Insert one value.
    pub fn insert(&mut self, v: u64)
        requires
            digest_wf(old(self)@),
            old(self)@.cnt < u64::MAX,
        ensures
            final(self)@ == digest_insert(old(self)@, v),
            digest_wf(final(self)@),
    {
        let ghost dv0 = self@;
        proof {
            lemma_valid_key_of(v as nat);
        }
        let k = key_for(v);
        let mut j: usize = 0;
        while j < self.bins.len() && self.bins[j].k < k
            invariant
                0 <= j <= self.bins.len(),
                forall|i: int| 0 <= i < j ==> (#[trigger] self@.bins[i].0) < k,
                self == old(self),
            decreases self.bins.len() - j,
        {
            j = j + 1;
        }
        proof {
            lemma_first_geq_scan(dv0.bins, k, j as int);
        }
        let ghost bumped = bump_bins(dv0.bins, k);
        if j < self.bins.len() && self.bins[j].k == k {
            let n = self.bins[j].n;
            proof {
                lemma_bin_le_mass(dv0.bins, j as int);
                lemma_mass_update(dv0.bins, j as int, (k, (n + 1) as u64));
            }
            self.bins.set(j, Bin { k, n: n + 1 });
            proof {
                assert(self@.bins =~= dv0.bins.update(j as int, (k, (n + 1) as u64)));
            }
        } else {
            proof {
                lemma_mass_insert(dv0.bins, j as int, (k, 1u64));
            }
            self.bins.insert(j, Bin { k, n: 1 });
            proof {
                assert(self@.bins =~= dv0.bins.insert(j as int, (k, 1u64)));
            }
        }
        proof {
            assert(self@.bins =~= bumped);
            assert(bins_mass(bumped) == dv0.cnt + 1);
            assert(bins_wf(bumped)) by {
                if j < dv0.bins.len() && dv0.bins[j as int].0 == k {
                } else {
                    assert(forall|a: int, b: int|
                        0 <= a < b < bumped.len() ==> #[trigger] bumped[a].0 < #[trigger] bumped[b].0) by {
                        assert(forall|a: int| 0 <= a < j ==> #[trigger] bumped[a].0 == dv0.bins[a].0);
                        assert(bumped[j as int].0 == k);
                        assert(forall|a: int|
                            j < a < bumped.len() ==> #[trigger] bumped[a].0 == dv0.bins[a - 1].0);
                    }
                }
            }
        }
        if self.cnt == 0 {
            self.lo = v;
            self.hi = v;
        } else {
            if v < self.lo {
                self.lo = v;
            }
            if v > self.hi {
                self.hi = v;
            }
        }
        self.cnt = self.cnt + 1;
        if self.bin_limit > 0 {
            while self.bins.len() > self.bin_limit as usize
                invariant
                    self.bin_limit > 0,
                    self.bins.len() >= 1,
                    bins_wf(self@.bins),
                    bins_mass(self@.bins) == bins_mass(bumped),
                    bins_mass(self@.bins) <= u64::MAX,
                    collapse_bins(self@.bins, dv0.limit) == collapse_bins(bumped, dv0.limit),
                    self.bin_limit == old(self).bin_limit,
                    self.cnt == old(self)@.cnt + 1,
                    self.lo == if dv0.cnt == 0 || (v as nat) < dv0.lo { v as nat } else { dv0.lo },
                    self.hi == if dv0.cnt == 0 || (v as nat) > dv0.hi { v as nat } else { dv0.hi },
                    dv0.limit == self.bin_limit as nat,
                decreases self.bins.len(),
            {
                let ghost cur = self@.bins;
                let n0 = self.bins[0].n;
                proof {
                    lemma_bin_le_mass(cur, 0);
                    lemma_bin_le_mass(cur.drop_first(), 0);
                    assert(cur.drop_first()[0] == cur[1]);
                    assert(bins_mass(cur) == cur[0].1 + bins_mass(cur.drop_first()));
                    assert(bins_mass(cur.drop_first()) == cur[1].1 + bins_mass(cur.drop_first().drop_first()));
                }
                self.bins.remove(0);
                let b1 = self.bins[0];
                self.bins.set(0, Bin { k: b1.k, n: b1.n + n0 });
                proof {
                    let stepped = seq![(cur[1].0, (cur[0].1 + cur[1].1) as u64)] + cur.skip(2);
                    assert(self@.bins =~= stepped);
                    assert(stepped.drop_first() =~= cur.skip(2));
                    assert(cur.drop_first().drop_first() =~= cur.skip(2));
                    assert(bins_mass(stepped) == bins_mass(cur));
                    assert(collapse_bins(cur, dv0.limit) == collapse_bins(stepped, dv0.limit));
                    assert(bins_wf(stepped)) by {
                        assert(forall|a: int|
                            1 <= a < stepped.len() ==> #[trigger] stepped[a].0 == cur[a + 1].0);
                    }
                }
            }
        }
        proof {
            assert(collapse_bins(self@.bins, dv0.limit) == self@.bins);
            assert(self@ =~= digest_insert(dv0, v));
            assert(digest_wf(self@));
        }
    }

    /// Insert every value of a sequence, in order.
    pub fn insert_many(&mut self, vals: &Vec<u64>)
        requires
            digest_wf(old(self)@),
            old(self)@.cnt + vals@.len() <= u64::MAX,
        ensures
            final(self)@ == digest_insert_all(old(self)@, vals@),
            digest_wf(final(self)@),
    {
        let ghost dv0 = self@;
        let mut i: usize = 0;
        while i < vals.len()
            invariant
                0 <= i <= vals.len(),
                self@ == digest_insert_all(dv0, vals@.take(i as int)),
                digest_wf(self@),
                dv0.cnt + vals@.len() <= u64::MAX,
                self@.cnt == dv0.cnt + i,
            decreases vals.len() - i,
        {
            proof {
                lemma_insert_all_push(dv0, vals@.take(i as int), vals@[i as int]);
                assert(vals@.take(i as int).push(vals@[i as int]) =~= vals@.take(i as int + 1));
            }
            self.insert(vals[i]);
            i = i + 1;
        }
        proof {
            assert(vals@.take(vals@.len() as int) =~= vals@);
        }
    }
}

proof fn lemma_insert_all_push(dv: DigestView, s: Seq<u64>, x: u64)
    ensures
        digest_insert_all(dv, s.push(x)) == digest_insert(digest_insert_all(dv, s), x),
    decreases s.len(),
{
    if s.len() == 0 {
        assert(s.push(x)[0] == x);
        assert(s.push(x).drop_first() =~= Seq::<u64>::empty());
        assert(digest_insert_all(dv, s.push(x)) == digest_insert_all(
            digest_insert(dv, x),
            s.push(x).drop_first(),
        ));
        assert(digest_insert_all(digest_insert(dv, x), Seq::<u64>::empty()) == digest_insert(
            dv,
            x,
        ));
        assert(digest_insert_all(dv, s) == dv);
    } else {
        assert(s.push(x)[0] == s[0]);
        assert(s.push(x).drop_first() =~= s.drop_first().push(x));
        assert(digest_insert_all(dv, s.push(x)) == digest_insert_all(
            digest_insert(dv, s[0]),
            s.drop_first().push(x),
        ));
        assert(digest_insert_all(dv, s) == digest_insert_all(
            digest_insert(dv, s[0]),
            s.drop_first(),
        ));
        lemma_insert_all_push(digest_insert(dv, s[0]), s.drop_first(), x);
    }
}


/// The key of the bin that holds the value of the given zero-based rank,
/// walking bins from the lowest key.
pub open spec fn walk_key(bs: Seq<(u32, u64)>, rank: nat) -> u32
    decreases bs.len(),
{
    if bs.len() == 0 {
        0
    } else if rank < bs[0].1 {
        bs[0].0
    } else {
        walk_key(bs.drop_first(), (rank - bs[0].1) as nat)
    }
}

pub open spec fn clamp_nat(x: nat, lo: nat, hi: nat) -> nat {
    if x < lo {
        lo
    } else if x > hi {
        hi
    } else {
        x
    }
}

/// Zero-based rank a per-mille quantile asks for among `cnt` values.
pub open spec fn quantile_rank(cnt: nat, q_milli: nat) -> nat {
    (q_milli * (cnt - 1)) as nat / 1000
}

/// The value a quantile query reports: the midpoint of the bin holding the
/// requested rank, clamped to the exact extremes seen.
pub open spec fn quantile_spec(dv: DigestView, q_milli: nat) -> nat {
    let k = walk_key(dv.bins, quantile_rank(dv.cnt, q_milli)) as nat;
    let l = bin_lower_of(k);
    let u = if bin_upper_of(k) <= u64::MAX {
        bin_upper_of(k)
    } else {
        u64::MAX as nat
    };
    clamp_nat((l + ((u - l) as nat / 2)) as nat, dv.lo, dv.hi)
}

impl Digest {
    /// The value at the given per-mille quantile, or nothing when the digest
    /// has seen no values.
    pub fn quantile(&self, q_milli: u16) -> (r: Option<u64>)
        requires
            digest_wf(self@),
            q_milli <= 1000,
        ensures
            r.is_some() <==> self@.cnt > 0,
            r.is_some() ==> r.unwrap() as nat == quantile_spec(self@, q_milli as nat),
            r.is_some() ==> self@.lo <= r.unwrap() as nat <= self@.hi,
    {
        if self.cnt == 0 {
            return None;
        }
        let cm1 = self.cnt - 1;
        proof {
            lemma_mul_inequality(q_milli as int, 1000, cm1 as int);
            lemma_div_is_ordered((q_milli as int) * (cm1 as int), 1000 * (cm1 as int), 1000);
            lemma_div_multiples_vanish(cm1 as int, 1000);
        }
        let rank128: u128 = (q_milli as u128) * (cm1 as u128) / 1000;
        let rank: u64 = rank128 as u64;
        let ghost target = quantile_rank(self@.cnt, q_milli as nat);
        proof {
            assert(rank as nat == target);
            assert(self@.bins.skip(0) =~= self@.bins);
        }
        let mut i: usize = 0;
        let mut rem: u64 = rank;
        while i < self.bins.len() && rem >= self.bins[i].n
            invariant
                digest_wf(self@),
                self@.cnt > 0,
                0 <= i <= self@.bins.len(),
                (rem as nat) < bins_mass(self@.bins.skip(i as int)),
                walk_key(self@.bins, target) == walk_key(self@.bins.skip(i as int), rem as nat),
            decreases self@.bins.len() - i,
        {
            proof {
                assert(self@.bins.skip(i as int).drop_first() =~= self@.bins.skip(i as int + 1));
                assert(self@.bins.skip(i as int)[0] == self@.bins[i as int]);
            }
            rem = rem - self.bins[i].n;
            i = i + 1;
        }
        proof {
            if i == self.bins.len() {
                assert(self@.bins.skip(i as int) =~= Seq::<(u32, u64)>::empty());
                assert(false);
            }
            assert(self@.bins.skip(i as int)[0] == self@.bins[i as int]);
        }
        let k = self.bins[i].k;
        proof {
            assert(walk_key(self@.bins.skip(i as int), rem as nat) == k);
            lemma_bin_lower_below_upper(k as nat);
            lemma_bin_lower_below(k as nat);
            if (k as nat) / 32 + 5 < 64 {
                lemma_pow2_strictly_increases((k as nat / 32 + 5) as nat, 64);
            }
            lemma2_to64();
        }
        let l = bin_lower(k);
        let u = bin_upper(k);
        let mid = l + (u - l) / 2;
        let res = if mid < self.lo {
            self.lo
        } else if mid > self.hi {
            self.hi
        } else {
            mid
        };
        Some(res)
    }
}


/// Inserting values never changes the bin limit, and raises the count by
/// exactly the number of values inserted.
pub proof fn lemma_insert_all_shape(dv: DigestView, s: Seq<u64>)
    ensures
        digest_insert_all(dv, s).limit == dv.limit,
        digest_insert_all(dv, s).cnt == dv.cnt + s.len(),
    decreases s.len(),
{
    if s.len() > 0 {
        lemma_insert_all_shape(digest_insert(dv, s[0]), s.drop_first());
    }
}

/// Inserting two batches one after the other is inserting their
/// concatenation.
pub proof fn lemma_insert_all_concat(dv: DigestView, a: Seq<u64>, b: Seq<u64>)
    ensures
        digest_insert_all(dv, a + b) == digest_insert_all(digest_insert_all(dv, a), b),
    decreases a.len(),
{
    if a.len() == 0 {
        assert(a + b =~= b);
        assert(digest_insert_all(dv, a) == dv);
    } else {
        assert((a + b)[0] == a[0]);
        assert((a + b).drop_first() =~= a.drop_first() + b);
        assert(digest_insert_all(dv, a + b) == digest_insert_all(
            digest_insert(dv, a[0]),
            a.drop_first() + b,
        ));
        lemma_insert_all_concat(digest_insert(dv, a[0]), a.drop_first(), b);
    }
}


proof fn lemma_walk_key_is_bin(bs: Seq<(u32, u64)>, rank: nat)
    requires
        rank < bins_mass(bs),
    ensures
        exists|i: int| 0 <= i < bs.len() && (#[trigger] bs[i].0) == walk_key(bs, rank),
    decreases bs.len(),
{
    if rank < bs[0].1 {
        assert(bs[0].0 == walk_key(bs, rank));
    } else {
        lemma_walk_key_is_bin(bs.drop_first(), (rank - bs[0].1) as nat);
        let i = choose|i: int|
            0 <= i < bs.drop_first().len() && (#[trigger] bs.drop_first()[i].0) == walk_key(
                bs.drop_first(),
                (rank - bs[0].1) as nat,
            );
        assert(bs[i + 1].0 == walk_key(bs, rank));
    }
}

proof fn lemma_walk_key_monotone(bs: Seq<(u32, u64)>, r1: nat, r2: nat)
    requires
        bins_wf(bs),
        r1 <= r2 < bins_mass(bs),
    ensures
        walk_key(bs, r1) <= walk_key(bs, r2),
    decreases bs.len(),
{
    if r1 < bs[0].1 {
        if r2 >= bs[0].1 {
            lemma_walk_key_is_bin(bs.drop_first(), (r2 - bs[0].1) as nat);
            let i = choose|i: int|
                0 <= i < bs.drop_first().len() && (#[trigger] bs.drop_first()[i].0) == walk_key(
                    bs.drop_first(),
                    (r2 - bs[0].1) as nat,
                );
            assert(bs.drop_first()[i] == bs[i + 1]);
            assert(bs[0].0 < bs[i + 1].0);
        }
    } else {
        assert(bins_wf(bs.drop_first())) by {
            assert(forall|i: int|
                0 <= i < bs.drop_first().len() ==> (#[trigger] bs.drop_first()[i]) == bs[i + 1]);
        }
        lemma_walk_key_monotone(bs.drop_first(), (r1 - bs[0].1) as nat, (r2 - bs[0].1) as nat);
    }
}

/// The reported quantile value never decreases as the requested quantile
/// grows: a higher rank lands in a bin of the same or a higher key, and the
/// bins of higher keys cover strictly higher value ranges.
pub proof fn lemma_quantile_monotone(dv: DigestView, q1: nat, q2: nat)
    requires
        digest_wf(dv),
        dv.cnt > 0,
        q1 <= q2 <= 1000,
    ensures
        quantile_spec(dv, q1) <= quantile_spec(dv, q2),
{
    let c = dv.cnt;
    let r1 = quantile_rank(c, q1);
    let r2 = quantile_rank(c, q2);
    lemma_mul_inequality(q1 as int, q2 as int, (c - 1) as int);
    lemma_div_is_ordered((q1 * (c - 1)) as int, (q2 * (c - 1)) as int, 1000);
    lemma_mul_inequality(q2 as int, 1000, (c - 1) as int);
    lemma_div_is_ordered((q2 * (c - 1)) as int, 1000 * ((c - 1) as int), 1000);
    lemma_div_multiples_vanish((c - 1) as int, 1000);
    assert(r1 <= r2 <= c - 1);
    lemma_walk_key_monotone(dv.bins, r1, r2);
    let k1 = walk_key(dv.bins, r1);
    let k2 = walk_key(dv.bins, r2);
    lemma_walk_key_is_bin(dv.bins, r1);
    lemma_walk_key_is_bin(dv.bins, r2);
    let i1 = choose|i: int| 0 <= i < dv.bins.len() && (#[trigger] dv.bins[i].0) == k1;
    let i2 = choose|i: int| 0 <= i < dv.bins.len() && (#[trigger] dv.bins[i].0) == k2;
    assert(valid_key(k1 as nat) && valid_key(k2 as nat));
    if k1 < k2 {
        lemma_bins_disjoint(k1 as nat, k2 as nat);
        lemma_bin_lower_below_upper(k1 as nat);
    }
}

} // verus!

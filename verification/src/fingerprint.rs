//! Fingerprints: hashes of pairs of nearby peaks.
//!
//! A peak is a pair `(time, frequency)`: a time in whole seconds and the index
//! of a frequency bin. Each peak, as an anchor, is paired with the peaks that
//! follow it inside its target zone. A pair is packed into a 32-bit address
//! (both frequencies and the time between the peaks, in milliseconds), and the
//! address together with the anchor's time, in milliseconds, into 64 bits.

use vstd::prelude::*;

verus! {

/// How many of the peaks that follow an anchor it is paired with, at most.
pub const TARGET_ZONE_SIZE: usize = 3;

/// A frequency bin index takes 9 bits of an address: it must be below this.
pub const FREQUENCY_LIMIT: usize = 512;

/// The time between anchor and target takes 14 bits of an address: in
/// milliseconds it must be below this.
pub const DELTA_LIMIT: usize = 16384;

/// Milliseconds in a second: the factor between a peak's time and the times
/// held in a fingerprint.
pub const MILLIS: usize = 1000;

/// The largest time of an anchor, in seconds: in milliseconds it still fits
/// into 32 bits.
pub const ANCHOR_TIME_MAX: usize = 4_294_967;

/// Why a pair of peaks has no fingerprint.
#[derive(Debug, Clone, Copy, PartialEq, Eq, Structural)]
pub enum FingerprintError {
    /// The target lies before the anchor in time.
    TimeOrder,
    /// A frequency bin index does not fit into its 9 bits.
    FrequencyRange,
    /// The time between anchor and target does not fit into its 14 bits.
    DeltaRange,
    /// The anchor's time in milliseconds does not fit into 32 bits.
    AnchorTimeRange,
}

/// The address made of two frequencies and a time difference:
/// `(anchor_freq << 23) | (target_freq << 14) | delta_ms`.
pub open spec fn pack_address(anchor_freq: u32, target_freq: u32, delta_ms: u32) -> u32 {
    anchor_freq << 23 | target_freq << 14 | delta_ms
}

/// The fingerprint made of an address and the anchor's time:
/// `(address << 32) | anchor_time_ms`.
pub open spec fn pack_fingerprint(address: u32, anchor_time_ms: u32) -> u64 {
    (address as u64) << 32 | (anchor_time_ms as u64)
}

/// The reason, if there is one, why `anchor` and `target` have no address.
/// The checks are made in this order: time order, frequencies, time difference.
pub open spec fn address_error(anchor: (usize, usize), target: (usize, usize)) -> Option<
    FingerprintError,
> {
    if target.0 < anchor.0 {
        Some(FingerprintError::TimeOrder)
    } else if anchor.1 >= FREQUENCY_LIMIT || target.1 >= FREQUENCY_LIMIT {
        Some(FingerprintError::FrequencyRange)
    } else if (target.0 - anchor.0) * MILLIS >= DELTA_LIMIT {
        Some(FingerprintError::DeltaRange)
    } else {
        None
    }
}

/// The address of a pair that `address_error` accepts.
pub open spec fn address_of(anchor: (usize, usize), target: (usize, usize)) -> u32 {
    pack_address(anchor.1 as u32, target.1 as u32, ((target.0 - anchor.0) * MILLIS) as u32)
}

/// The reason, if there is one, why `anchor` and `target` have no fingerprint:
/// that of `address_error`, or else an anchor time that is too large.
pub open spec fn pair_error(anchor: (usize, usize), target: (usize, usize)) -> Option<
    FingerprintError,
> {
    if address_error(anchor, target) is Some {
        address_error(anchor, target)
    } else if anchor.0 * MILLIS > u32::MAX {
        Some(FingerprintError::AnchorTimeRange)
    } else {
        None
    }
}

/// The fingerprint of a pair that `pair_error` accepts.
pub open spec fn fingerprint_of(anchor: (usize, usize), target: (usize, usize)) -> u64 {
    pack_fingerprint(address_of(anchor, target), (anchor.0 * MILLIS) as u32)
}

/// The number of targets of the anchor at position `i` among `n` peaks.
pub open spec fn zone_len(n: nat, i: nat) -> nat {
    if i + 1 >= n {
        0
    } else if n - 1 - i < TARGET_ZONE_SIZE {
        (n - 1 - i) as nat
    } else {
        TARGET_ZONE_SIZE as nat
    }
}

/// The pairs `(i, j)` of positions whose anchor `i` is below `bound`, among `n`
/// peaks: by anchor, and for one anchor by target.
pub open spec fn pairs_before(n: nat, bound: nat) -> Seq<(int, int)>
    decreases bound,
{
    if bound == 0 {
        Seq::empty()
    } else {
        let i = (bound - 1) as nat;
        pairs_before(n, i) + Seq::new(zone_len(n, i), |k: int| (i as int, i + 1 + k))
    }
}

/// All pairs `(i, j)` of positions among `n` peaks with `0 < j - i <= 3`, in
/// the order in which their fingerprints are generated.
pub open spec fn zone_pairs(n: nat) -> Seq<(int, int)> {
    pairs_before(n, n)
}

/// The number of pairs among `n` peaks.
pub open spec fn pair_count(n: nat) -> nat {
    if n <= 1 {
        0
    } else if n == 2 {
        1
    } else {
        (3 * n - 6) as nat
    }
}

/// The reason, if there is one, why the pair at position `k` of
/// `zone_pairs` has no fingerprint.
pub open spec fn pair_error_at(peaks: Seq<(usize, usize)>, k: int) -> Option<FingerprintError> {
    let p = zone_pairs(peaks.len())[k];
    pair_error(peaks[p.0], peaks[p.1])
}

/// The fingerprints of all pairs of `peaks`, in the order of `zone_pairs`.
pub open spec fn fingerprints_of(peaks: Seq<(usize, usize)>) -> Seq<u64> {
    Seq::new(
        zone_pairs(peaks.len()).len(),
        |k: int|
            {
                let p = zone_pairs(peaks.len())[k];
                fingerprint_of(peaks[p.0], peaks[p.1])
            },
    )
}

/// Whether `out` holds the fingerprints of the first pairs of `peaks`, all of
/// which have one.
spec fn generated(peaks: Seq<(usize, usize)>, out: Seq<u64>) -> bool {
    &&& out.len() <= zone_pairs(peaks.len()).len()
    &&& forall|k: int| 0 <= k < out.len() ==> (#[trigger] pair_error_at(peaks, k)) is None
    &&& forall|k: int| 0 <= k < out.len() ==> #[trigger] out[k] == fingerprints_of(peaks)[k]
}

/// The pairs whose anchor is below `i` open the list of those whose anchor is
/// below `m`, for `i <= m`.
pub proof fn lemma_pairs_prefix(n: nat, i: nat, m: nat)
    requires
        i <= m,
    ensures
        pairs_before(n, i).len() <= pairs_before(n, m).len(),
        forall|k: int|
            0 <= k < pairs_before(n, i).len() ==> pairs_before(n, m)[k] == pairs_before(n, i)[k],
    decreases m,
{
    if i < m {
        lemma_pairs_prefix(n, i, (m - 1) as nat);
    }
}

/// How many pairs have an anchor below `i`.
pub proof fn lemma_pairs_before_len(n: nat, i: nat)
    requires
        i <= n,
    ensures
        pairs_before(n, i).len() == if i + 3 <= n {
            3 * i as int
        } else if n - i == 2 {
            pair_count(n) - 1
        } else {
            pair_count(n) as int
        },
    decreases i,
{
    if i > 0 {
        lemma_pairs_before_len(n, (i - 1) as nat);
    }
}

/// What the pairs with an anchor below `bound` are: each has its anchor below
/// `bound` and its target at most three positions behind the anchor, each
/// such pair is among them, and none occurs twice.
pub proof fn lemma_pairs_before_members(n: nat, bound: nat)
    requires
        bound <= n,
    ensures
        forall|k: int|
            0 <= k < pairs_before(n, bound).len() ==> {
                let p = #[trigger] pairs_before(n, bound)[k];
                0 <= p.0 < bound && p.0 < p.1 < n && p.1 - p.0 <= TARGET_ZONE_SIZE
            },
        forall|i: int, j: int|
            0 <= i < bound && i < j < n && j - i <= TARGET_ZONE_SIZE ==> pairs_before(
                n,
                bound,
            ).contains((i, j)),
        pairs_before(n, bound).no_duplicates(),
    decreases bound,
{
    if bound > 0 {
        let a = (bound - 1) as nat;
        let head = pairs_before(n, a);
        let tail = Seq::new(zone_len(n, a), |k: int| (a as int, a + 1 + k));
        let all = pairs_before(n, bound);
        lemma_pairs_before_members(n, a);
        assert(all == head + tail);
        assert forall|i: int, j: int|
            0 <= i < bound && i < j < n && j - i <= TARGET_ZONE_SIZE implies all.contains(
            (i, j),
        ) by {
            if i < a {
                assert(head.contains((i, j)));
                let k = choose|k: int| 0 <= k < head.len() && head[k] == (i, j);
                assert(all[k] == (i, j));
            } else {
                let k = j - a - 1;
                assert(tail[k] == (i, j));
                assert(all[head.len() + k] == (i, j));
            }
        }
        assert forall|x: int, y: int| 0 <= x < all.len() && 0 <= y < all.len() && x != y implies all[x]
            != all[y] by {
            if x < head.len() && y < head.len() {
                assert(all[x] == head[x] && all[y] == head[y]);
            } else if x >= head.len() && y >= head.len() {
                assert(all[x] == tail[x - head.len()] && all[y] == tail[y - head.len()]);
            } else if x < head.len() {
                assert(all[x] == head[x] && all[y] == tail[y - head.len()]);
            } else {
                assert(all[y] == head[y] && all[x] == tail[x - head.len()]);
            }
        }
    }
}

/// The fingerprints of `n` peaks are as many as there are pairs `(i, j)` of
/// positions with `0 < j - i <= 3`: `zone_pairs` lists exactly these pairs,
/// each once, and they are `pair_count(n)`.
pub proof fn lemma_zone_pairs(n: nat)
    ensures
        zone_pairs(n).len() == pair_count(n),
        zone_pairs(n).no_duplicates(),
        zone_pairs(n).to_set() == Set::new(
            |p: (int, int)| 0 <= p.0 < p.1 < n && p.1 - p.0 <= TARGET_ZONE_SIZE,
        ),
        Set::new(|p: (int, int)| 0 <= p.0 < p.1 < n && p.1 - p.0 <= TARGET_ZONE_SIZE).finite(),
        Set::new(|p: (int, int)| 0 <= p.0 < p.1 < n && p.1 - p.0 <= TARGET_ZONE_SIZE).len()
            == pair_count(n),
{
    let pairs = zone_pairs(n);
    let wanted = Set::new(|p: (int, int)| 0 <= p.0 < p.1 < n && p.1 - p.0 <= TARGET_ZONE_SIZE);
    lemma_pairs_before_len(n, n);
    lemma_pairs_before_members(n, n);
    assert forall|p: (int, int)| pairs.to_set().contains(p) <==> wanted.contains(p) by {
        if pairs.to_set().contains(p) {
            let k = choose|k: int| 0 <= k < pairs.len() && pairs[k] == p;
            assert(pairs[k] == p);
        }
        if wanted.contains(p) {
            assert(pairs.contains((p.0, p.1)));
        }
    }
    assert(pairs.to_set() =~= wanted);
    pairs.unique_seq_to_set();
}

/// Packs the address of a pair of peaks.
///
/// Fails on a pair that is out of time order or has a field that does not fit
/// its bits; otherwise the three fields can be read back from the address.
pub fn create_address(anchor: (usize, usize), target: (usize, usize)) -> (r: Result<
    u32,
    FingerprintError,
>)
    ensures
        match address_error(anchor, target) {
            Some(e) => r == Err::<u32, FingerprintError>(e),
            None => r == Ok::<u32, FingerprintError>(address_of(anchor, target)),
        },
        r matches Ok(a) ==> {
            &&& a >> 23 == anchor.1
            &&& (a >> 14) & 0x1ff == target.1
            &&& a & 0x3fff == (target.0 - anchor.0) * MILLIS
        },
{
    if target.0 < anchor.0 {
        return Err(FingerprintError::TimeOrder);
    }
    if anchor.1 >= FREQUENCY_LIMIT || target.1 >= FREQUENCY_LIMIT {
        return Err(FingerprintError::FrequencyRange);
    }
    let delta: usize = target.0 - anchor.0;
    if delta > (DELTA_LIMIT - 1) / MILLIS {
        return Err(FingerprintError::DeltaRange);
    }
    let anchor_freq: u32 = anchor.1 as u32;
    let target_freq: u32 = target.1 as u32;
    let delta_ms: u32 = (delta * MILLIS) as u32;
    let address: u32 = anchor_freq << 23 | target_freq << 14 | delta_ms;
    proof {
        assert(anchor_freq < 512 && target_freq < 512 && delta_ms < 16384 ==> {
            &&& (anchor_freq << 23 | target_freq << 14 | delta_ms) >> 23 == anchor_freq
            &&& ((anchor_freq << 23 | target_freq << 14 | delta_ms) >> 14) & 0x1ff == target_freq
            &&& (anchor_freq << 23 | target_freq << 14 | delta_ms) & 0x3fff == delta_ms
        }) by (bit_vector);
    }
    Ok(address)
}

/// Packs the fingerprint of a pair of peaks: its address in the upper 32 bits
/// and the anchor's time, in milliseconds, in the lower 32.
///
/// Fails where `create_address` fails, and on an anchor whose time in
/// milliseconds does not fit into 32 bits.
pub fn create_fingerprint(anchor: (usize, usize), target: (usize, usize)) -> (r: Result<
    u64,
    FingerprintError,
>)
    ensures
        match pair_error(anchor, target) {
            Some(e) => r == Err::<u64, FingerprintError>(e),
            None => r == Ok::<u64, FingerprintError>(fingerprint_of(anchor, target)),
        },
        r matches Ok(f) ==> {
            &&& f >> 32 == address_of(anchor, target)
            &&& f & 0xffff_ffff == anchor.0 * MILLIS
        },
{
    let address: u32 = match create_address(anchor, target) {
        Ok(address) => address,
        Err(e) => {
            return Err(e);
        },
    };
    if anchor.0 > ANCHOR_TIME_MAX {
        return Err(FingerprintError::AnchorTimeRange);
    }
    let anchor_time_ms: u32 = (anchor.0 * MILLIS) as u32;
    proof {
        assert(((address as u64) << 32 | (anchor_time_ms as u64)) >> 32 == address
            && ((address as u64) << 32 | (anchor_time_ms as u64)) & 0xffff_ffff == anchor_time_ms)
            by (bit_vector);
    }
    Ok((address as u64) << 32 | (anchor_time_ms as u64))
}

/// The fingerprints of a sequence of peaks: one for each pair of an anchor
/// and one of the up to three peaks that follow it, by anchor and then by
/// target. Equal fingerprints are kept.
///
/// Fails if a pair has no fingerprint, with the reason of the first such pair.
pub fn create_fingerprints(peaks: Vec<(usize, usize)>) -> (r: Result<Vec<u64>, FingerprintError>)
    ensures
        match r {
            Ok(v) => {
                &&& forall|k: int|
                    0 <= k < zone_pairs(peaks@.len()).len() ==> pair_error_at(peaks@, k) is None
                &&& v@ == fingerprints_of(peaks@)
                &&& v@.len() == pair_count(peaks@.len())
            },
            Err(e) => exists|k: int|
                {
                    &&& 0 <= k < zone_pairs(peaks@.len()).len()
                    &&& pair_error_at(peaks@, k) == Some(e)
                    &&& forall|h: int| 0 <= h < k ==> pair_error_at(peaks@, h) is None
                },
        },
{
    let n: usize = peaks.len();
    let ghost all = zone_pairs(n as nat);
    let mut fingerprints: Vec<u64> = Vec::new();
    let mut i: usize = 0;
    proof {
        lemma_pairs_before_len(n as nat, n as nat);
    }
    while i < n
        invariant
            n == peaks@.len(),
            all == zone_pairs(n as nat),
            i <= n,
            fingerprints@.len() == pairs_before(n as nat, i as nat).len(),
            generated(peaks@, fingerprints@),
        decreases n - i,
    {
        let anchor = peaks[i];
        let ghost base = pairs_before(n as nat, i as nat).len();
        let mut j: usize = i + 1;
        proof {
            lemma_pairs_prefix(n as nat, (i + 1) as nat, n as nat);
            assert(pairs_before(n as nat, (i + 1) as nat).len() == base + zone_len(
                n as nat,
                i as nat,
            ));
        }
        while j < n && j - i <= TARGET_ZONE_SIZE
            invariant
                n == peaks@.len(),
                all == zone_pairs(n as nat),
                i < n,
                i < j <= n,
                j - i <= TARGET_ZONE_SIZE + 1,
                anchor == peaks@[i as int],
                base == pairs_before(n as nat, i as nat).len(),
                pairs_before(n as nat, (i + 1) as nat).len() == base + zone_len(
                    n as nat,
                    i as nat,
                ),
                j - i - 1 <= zone_len(n as nat, i as nat),
                pairs_before(n as nat, (i + 1) as nat).len() <= all.len(),
                forall|k: int|
                    0 <= k < pairs_before(n as nat, (i + 1) as nat).len() ==> all[k]
                        == pairs_before(n as nat, (i + 1) as nat)[k],
                fingerprints@.len() == base + (j - i - 1),
                generated(peaks@, fingerprints@),
            decreases n - j,
        {
            let ghost k = fingerprints@.len() as int;
            proof {
                assert(j - i - 1 < zone_len(n as nat, i as nat));
                assert(pairs_before(n as nat, (i + 1) as nat)[k] == (i as int, j as int));
                assert(all[k] == (i as int, j as int));
            }
            match create_fingerprint(anchor, peaks[j]) {
                Ok(f) => {
                    let ghost before = fingerprints@;
                    fingerprints.push(f);
                    proof {
                        assert(fingerprints_of(peaks@)[k] == f);
                        assert forall|h: int| 0 <= h < fingerprints@.len() implies (
                        #[trigger] pair_error_at(peaks@, h)) is None by {
                            if h < k {
                                assert(before[h] == fingerprints@[h]);
                            }
                        }
                        assert forall|h: int| 0 <= h < fingerprints@.len() implies (
                        #[trigger] fingerprints@[h]) == fingerprints_of(peaks@)[h] by {
                            if h < k {
                                assert(before[h] == fingerprints@[h]);
                            }
                        }
                    }
                },
                Err(e) => {
                    proof {
                        assert(pair_error_at(peaks@, k) == Some(e));
                    }
                    return Err(e);
                },
            }
            j = j + 1;
        }
        proof {
            assert(j - i - 1 == zone_len(n as nat, i as nat));
        }
        i = i + 1;
    }
    proof {
        assert(fingerprints@ =~= fingerprints_of(peaks@));
    }
    Ok(fingerprints)
}

} // verus!

//! Counting how often each intensity occurs in each channel of a buffer of
//! interleaved R, G, B bytes.

use vstd::prelude::*;

verus! {

/// The number of intensities a channel can take.
pub const BUCKETS: usize = 256;

/// How many bytes of `data` stand at a position of channel `channel`
/// (position modulo 3) and hold `value`.
pub open spec fn occurrences(data: Seq<u8>, channel: int, value: int) -> nat
    decreases data.len(),
{
    if data.len() == 0 {
        0
    } else {
        let last = data.len() - 1;
        occurrences(data.drop_last(), channel, value) + if last % 3 == channel && data[last]
            == value {
            1nat
        } else {
            0nat
        }
    }
}

/// `buckets` is the histogram of channel `channel` of `data`.
pub open spec fn counts_channel(buckets: Seq<u64>, data: Seq<u8>, channel: int) -> bool {
    &&& buckets.len() == BUCKETS
    &&& forall|v: int| 0 <= v < BUCKETS ==> #[trigger] buckets[v] == occurrences(data, channel, v)
}

/// The histogram of channel `channel` of `data`: one count per intensity.
pub open spec fn histogram_of(data: Seq<u8>, channel: int) -> Seq<u64> {
    Seq::new(BUCKETS as nat, |v: int| occurrences(data, channel, v) as u64)
}

/// The larger of two counts.
pub open spec fn larger(a: u64, b: u64) -> u64 {
    if a >= b {
        a
    } else {
        b
    }
}

/// The largest count among the first `upto` buckets of three histograms; zero
/// where there is none.
pub open spec fn largest_upto(reds: Seq<u64>, greens: Seq<u64>, blues: Seq<u64>, upto: nat) -> u64
    decreases upto,
{
    if upto == 0 {
        0
    } else {
        larger(
            larger(
                larger(largest_upto(reds, greens, blues, (upto - 1) as nat), reds[upto - 1]),
                greens[upto - 1],
            ),
            blues[upto - 1],
        )
    }
}

/// The largest count that any bucket of three histograms holds.
pub open spec fn largest(reds: Seq<u64>, greens: Seq<u64>, blues: Seq<u64>) -> u64 {
    largest_upto(reds, greens, blues, BUCKETS as nat)
}

/// Bucket `v` of one of the three histograms holds exactly `max`.
pub open spec fn holds_at(
    max: u64,
    reds: Seq<u64>,
    greens: Seq<u64>,
    blues: Seq<u64>,
    v: int,
) -> bool {
    ||| 0 <= v < reds.len() && reds[v] == max
    ||| 0 <= v < greens.len() && greens[v] == max
    ||| 0 <= v < blues.len() && blues[v] == max
}

/// `max` is the largest count that any bucket of the three histograms holds.
pub open spec fn is_peak(max: u64, reds: Seq<u64>, greens: Seq<u64>, blues: Seq<u64>) -> bool {
    &&& forall|v: int| 0 <= v < reds.len() ==> #[trigger] reds[v] <= max
    &&& forall|v: int| 0 <= v < greens.len() ==> #[trigger] greens[v] <= max
    &&& forall|v: int| 0 <= v < blues.len() ==> #[trigger] blues[v] <= max
    &&& exists|v: int| holds_at(max, reds, greens, blues, v)
}

/// The sum of all counts of a histogram.
pub open spec fn total(buckets: Seq<u64>) -> nat
    decreases buckets.len(),
{
    if buckets.len() == 0 {
        0
    } else {
        total(buckets.drop_last()) + buckets.last() as nat
    }
}

/// The sum of the occurrences of all values below `upto` in one channel.
pub open spec fn tally(data: Seq<u8>, channel: int, upto: nat) -> nat
    decreases upto,
{
    if upto == 0 {
        0
    } else {
        tally(data, channel, (upto - 1) as nat) + occurrences(data, channel, upto - 1)
    }
}

/// How many of the positions `0 .. len` belong to channel `channel`.
pub open spec fn positions(len: nat, channel: int) -> int {
    (len + 2 - channel) / 3
}

/// No value occurs more often than there are bytes.
pub proof fn lemma_occurrences_bounded(data: Seq<u8>, channel: int, value: int)
    ensures
        occurrences(data, channel, value) <= data.len(),
    decreases data.len(),
{
    if data.len() > 0 {
        lemma_occurrences_bounded(data.drop_last(), channel, value);
    }
}

/// One more byte raises the tally of its channel by one where its value is
/// among those summed, and changes nothing else.
proof fn lemma_tally_step(data: Seq<u8>, channel: int, upto: nat)
    requires
        data.len() > 0,
    ensures
        tally(data, channel, upto) == tally(data.drop_last(), channel, upto) + if (data.len() - 1)
            % 3 == channel && data.last() < upto {
            1nat
        } else {
            0nat
        },
    decreases upto,
{
    if upto > 0 {
        lemma_tally_step(data, channel, (upto - 1) as nat);
    }
}

/// All values of a channel together occur once per position of the channel.
pub proof fn lemma_tally_is_positions(data: Seq<u8>, channel: int)
    requires
        0 <= channel < 3,
    ensures
        tally(data, channel, BUCKETS as nat) == positions(data.len(), channel),
    decreases data.len(),
{
    if data.len() == 0 {
        assert(data =~= Seq::<u8>::empty());
        lemma_tally_of_nothing(channel, BUCKETS as nat);
    } else {
        lemma_tally_is_positions(data.drop_last(), channel);
        lemma_tally_step(data, channel, BUCKETS as nat);
    }
}

proof fn lemma_tally_of_nothing(channel: int, upto: nat)
    ensures
        tally(Seq::<u8>::empty(), channel, upto) == 0,
    decreases upto,
{
    if upto > 0 {
        lemma_tally_of_nothing(channel, (upto - 1) as nat);
    }
}

proof fn lemma_total_is_tally(buckets: Seq<u64>, data: Seq<u8>, channel: int, upto: nat)
    requires
        counts_channel(buckets, data, channel),
        upto <= BUCKETS,
    ensures
        total(buckets.take(upto as int)) == tally(data, channel, upto),
    decreases upto,
{
    if upto > 0 {
        lemma_total_is_tally(buckets, data, channel, (upto - 1) as nat);
        assert(buckets.take(upto as int).drop_last() =~= buckets.take(upto - 1));
    }
}

/// Every byte is counted exactly once, in exactly one channel: the counts of
/// the three histograms add up to the length of the buffer, and those of one
/// channel to the number of positions of that channel, which is the number of
/// pixels where the buffer holds whole pixels only.
pub proof fn lemma_every_byte_counted_once(
    data: Seq<u8>,
    reds: Seq<u64>,
    greens: Seq<u64>,
    blues: Seq<u64>,
)
    requires
        counts_channel(reds, data, 0),
        counts_channel(greens, data, 1),
        counts_channel(blues, data, 2),
    ensures
        total(reds) + total(greens) + total(blues) == data.len(),
        total(reds) == positions(data.len(), 0),
        total(greens) == positions(data.len(), 1),
        total(blues) == positions(data.len(), 2),
        data.len() % 3 == 0 ==> total(reds) == data.len() / 3 && total(greens) == data.len() / 3
            && total(blues) == data.len() / 3,
{
    lemma_total_is_tally(reds, data, 0, BUCKETS as nat);
    lemma_total_is_tally(greens, data, 1, BUCKETS as nat);
    lemma_total_is_tally(blues, data, 2, BUCKETS as nat);
    assert(reds.take(BUCKETS as int) =~= reds);
    assert(greens.take(BUCKETS as int) =~= greens);
    assert(blues.take(BUCKETS as int) =~= blues);
    lemma_tally_is_positions(data, 0);
    lemma_tally_is_positions(data, 1);
    lemma_tally_is_positions(data, 2);
}

/// The largest count of a prefix of three histograms bounds every count of
/// the prefix, and some bucket holds it.
proof fn lemma_largest_upto(reds: Seq<u64>, greens: Seq<u64>, blues: Seq<u64>, upto: nat)
    requires
        reds.len() == BUCKETS,
        greens.len() == BUCKETS,
        blues.len() == BUCKETS,
        1 <= upto <= BUCKETS,
    ensures
        is_peak(
            largest_upto(reds, greens, blues, upto),
            reds.take(upto as int),
            greens.take(upto as int),
            blues.take(upto as int),
        ),
    decreases upto,
{
    let max = largest_upto(reds, greens, blues, upto);
    let r = reds.take(upto as int);
    let g = greens.take(upto as int);
    let b = blues.take(upto as int);
    let last = upto - 1;
    if upto == 1 {
        assert(largest_upto(reds, greens, blues, 0) == 0);
        assert(holds_at(max, r, g, b, 0));
    } else {
        let before = largest_upto(reds, greens, blues, (upto - 1) as nat);
        lemma_largest_upto(reds, greens, blues, (upto - 1) as nat);
        let pr = reds.take(upto - 1);
        let pg = greens.take(upto - 1);
        let pb = blues.take(upto - 1);
        assert forall|v: int| 0 <= v < r.len() implies #[trigger] r[v] <= max by {
            if v < last {
                assert(pr[v] == r[v]);
            }
        }
        assert forall|v: int| 0 <= v < g.len() implies #[trigger] g[v] <= max by {
            if v < last {
                assert(pg[v] == g[v]);
            }
        }
        assert forall|v: int| 0 <= v < b.len() implies #[trigger] b[v] <= max by {
            if v < last {
                assert(pb[v] == b[v]);
            }
        }
        if max == before {
            let v = choose|v: int| holds_at(before, pr, pg, pb, v);
            assert(holds_at(max, r, g, b, v));
        } else {
            assert(holds_at(max, r, g, b, last));
        }
    }
}

/// What `largest` names is the true maximum over all buckets: no bucket holds
/// more, and one holds exactly that much. With all buckets empty it is zero.
pub proof fn lemma_largest_is_peak(reds: Seq<u64>, greens: Seq<u64>, blues: Seq<u64>)
    requires
        reds.len() == BUCKETS,
        greens.len() == BUCKETS,
        blues.len() == BUCKETS,
    ensures
        is_peak(largest(reds, greens, blues), reds, greens, blues),
{
    lemma_largest_upto(reds, greens, blues, BUCKETS as nat);
    assert(reds.take(BUCKETS as int) =~= reds);
    assert(greens.take(BUCKETS as int) =~= greens);
    assert(blues.take(BUCKETS as int) =~= blues);
}

/// The largest of the counts of three histograms; zero where all are zero.
pub fn peak(reds: &[u64; 256], greens: &[u64; 256], blues: &[u64; 256]) -> (max: u64)
    ensures
        max == largest(reds@, greens@, blues@),
        is_peak(max, reds@, greens@, blues@),
{
    let mut max: u64 = 0;
    let mut v: usize = 0;
    while v < BUCKETS
        invariant
            v <= BUCKETS,
            max == largest_upto(reds@, greens@, blues@, v as nat),
        decreases BUCKETS - v,
    {
        if reds[v] > max {
            max = reds[v];
        }
        if greens[v] > max {
            max = greens[v];
        }
        if blues[v] > max {
            max = blues[v];
        }
        v += 1;
    }
    proof {
        lemma_largest_is_peak(reds@, greens@, blues@);
    }
    max
}

/// Tallies the bytes of `data`, taken as interleaved R, G, B samples: byte `i`
/// counts for red where `i % 3 == 0`, for green where `i % 3 == 1`, for blue
/// otherwise. Returns the largest count and the histograms of red, green and
/// blue.
pub fn count_whole_image(data: &[u8]) -> (out: (u64, [u64; 256], [u64; 256], [u64; 256]))
    ensures
        out.1@ == histogram_of(data@, 0),
        out.2@ == histogram_of(data@, 1),
        out.3@ == histogram_of(data@, 2),
        out.0 == largest(out.1@, out.2@, out.3@),
        counts_channel(out.1@, data@, 0),
        counts_channel(out.2@, data@, 1),
        counts_channel(out.3@, data@, 2),
        is_peak(out.0, out.1@, out.2@, out.3@),
        total(out.1@) + total(out.2@) + total(out.3@) == data@.len(),
        data@.len() % 3 == 0 ==> total(out.1@) == data@.len() / 3 && total(out.2@) == data@.len()
            / 3 && total(out.3@) == data@.len() / 3,
        data@.len() == 0 ==> out.0 == 0,
{
    let mut reds = [0u64;256];
    let mut greens = [0u64;256];
    let mut blues = [0u64;256];
    let n = data.len();
    let mut index: usize = 0;
    while index < n
        invariant
            index <= n,
            n == data@.len(),
            counts_channel(reds@, data@.take(index as int), 0),
            counts_channel(greens@, data@.take(index as int), 1),
            counts_channel(blues@, data@.take(index as int), 2),
        decreases n - index,
    {
        let value = data[index] as usize;
        let ghost seen = data@.take(index as int);
        let ghost next = data@.take(index + 1);
        proof {
            assert(next.drop_last() =~= seen);
            lemma_occurrences_bounded(seen, 0, value as int);
            lemma_occurrences_bounded(seen, 1, value as int);
            lemma_occurrences_bounded(seen, 2, value as int);
        }
        if index % 3 == 0 {
            reds[value] = reds[value] + 1;
        } else if index % 3 == 1 {
            greens[value] = greens[value] + 1;
        } else {
            blues[value] = blues[value] + 1;
        }
        index += 1;
    }
    assert(data@.take(n as int) =~= data@);
    let max = peak(&reds, &greens, &blues);
    proof {
        lemma_every_byte_counted_once(data@, reds@, greens@, blues@);
        assert(reds@ =~= histogram_of(data@, 0));
        assert(greens@ =~= histogram_of(data@, 1));
        assert(blues@ =~= histogram_of(data@, 2));
        if n == 0 {
            let v = choose|v: int| holds_at(max, reds@, greens@, blues@, v);
            assert(holds_at(max, reds@, greens@, blues@, v));
        }
    }
    (max, reds, greens, blues)
}

} // verus!

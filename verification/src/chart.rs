//! The distribution of durations over power-of-two buckets, and its chart.

use vstd::prelude::*;
use vstd::arithmetic::power2::pow2;
use vstd::arithmetic::power2::lemma2_to64;
use vstd::arithmetic::power2::lemma_pow2_unfold;
use vstd::arithmetic::power2::lemma_pow2_strictly_increases;
use vstd::string::StringExecFns;
use crate::text::decimal;
use crate::text::decimal_string;
use crate::text::pad_left;
use crate::text::pad_right;
use crate::text::append_padded_left;
use crate::text::append_padded_right;

verus! {

/// Number of buckets: one for zero, and one for each number of binary digits
/// that a `u64` duration less one can have.
pub const BUCKETS: usize = 66;

/// Width of the bar of the fullest bucket.
pub const MAX_STARS: usize = 32;

/// Number of binary digits of `x`; 0 for 0.
pub open spec fn bit_length(x: nat) -> nat
    decreases x,
{
    if x == 0 {
        0
    } else {
        1 + bit_length(x / 2)
    }
}

/// The bucket of a duration: 0 for 0, else one more than the number of
/// binary digits of `d - 1`, which is one more than the base-2 logarithm of
/// `d` rounded up.
pub open spec fn bucket_index(d: nat) -> nat {
    if d == 0 {
        0
    } else {
        bit_length((d - 1) as nat) + 1
    }
}

/// The label of a bucket: the largest duration that it holds.
pub open spec fn bucket_label(k: nat) -> nat {
    if k == 0 {
        0
    } else {
        pow2((k - 1) as nat)
    }
}

proof fn lemma_bit_length_monotone(x: nat, y: nat)
    requires
        x <= y,
    ensures
        bit_length(x) <= bit_length(y),
    decreases y,
{
    if x > 0 {
        lemma_bit_length_monotone(x / 2, y / 2);
    }
}

proof fn lemma_bit_length_bounds(x: nat)
    requires
        x > 0,
    ensures
        bit_length(x) > 0,
        pow2((bit_length(x) - 1) as nat) <= x < pow2(bit_length(x)),
    decreases x,
{
    lemma2_to64();
    if x / 2 == 0 {
        assert(x == 1);
        assert(bit_length(x / 2) == 0);
    } else {
        lemma_bit_length_bounds(x / 2);
        let m = bit_length(x / 2);
        lemma_pow2_unfold(m);
        lemma_pow2_unfold(m + 1);
    }
}

proof fn lemma_bit_length_fits(x: nat, k: nat)
    requires
        x < pow2(k),
    ensures
        bit_length(x) <= k,
{
    if x > 0 {
        lemma_bit_length_bounds(x);
        let n = bit_length(x);
        if n > k {
            if n - 1 > k {
                lemma_pow2_strictly_increases(k, (n - 1) as nat);
            }
        }
    }
}

/// The bucket index does not decrease as the duration grows.
pub proof fn lemma_bucket_monotone(d1: nat, d2: nat)
    requires
        d1 <= d2,
    ensures
        bucket_index(d1) <= bucket_index(d2),
{
    if d1 > 0 {
        lemma_bit_length_monotone((d1 - 1) as nat, (d2 - 1) as nat);
    }
}

/// Bucket 0 holds the zero durations and no others.
pub proof fn lemma_bucket_zero(d: nat)
    ensures
        bucket_index(d) == 0 <==> d == 0,
{
}

/// Bucket 1 holds the duration 1, and each later bucket `k` the durations
/// above `2^(k-2)` up to `2^(k-1)`, its label.
pub proof fn lemma_bucket_range(d: nat)
    requires
        d > 0,
    ensures
        bucket_index(d) >= 1,
        d <= bucket_label(bucket_index(d)),
        d == 1 <==> bucket_index(d) == 1,
        d >= 2 ==> pow2((bucket_index(d) - 2) as nat) < d,
{
    lemma2_to64();
    if d >= 2 {
        lemma_bit_length_bounds((d - 1) as nat);
    } else {
        assert(bit_length(0) == 0);
    }
}

fn bits_of(x: u64) -> (n: usize)
    ensures
        n == bit_length(x as nat),
        n <= 64,
{
    proof {
        lemma2_to64();
        lemma_bit_length_fits(x as nat, 64);
    }
    let mut y: u64 = x;
    let mut n: usize = 0;
    while y > 0
        invariant
            bit_length(x as nat) == n + bit_length(y as nat),
            bit_length(x as nat) <= 64,
        decreases y,
    {
        y = y / 2;
        n += 1;
    }
    n
}

/// The bucket of a duration.
pub fn bucket_of(d: u64) -> (k: usize)
    ensures
        k == bucket_index(d as nat),
        k < BUCKETS,
{
    if d == 0 {
        0
    } else {
        bits_of(d - 1) + 1
    }
}

/// The label of bucket `k`.
pub fn label_of(k: usize) -> (l: u128)
    requires
        k < BUCKETS,
    ensures
        l == bucket_label(k as nat),
{
    if k == 0 {
        return 0;
    }
    let mut l: u128 = 1;
    let mut j: usize = 0;
    proof {
        lemma2_to64();
    }
    while j < k - 1
        invariant
            k < BUCKETS,
            j <= k - 1,
            l == pow2(j as nat),
            pow2(64) == 0x10000000000000000,
        decreases k - 1 - j,
    {
        proof {
            lemma_pow2_unfold((j + 1) as nat);
            lemma_pow2_strictly_increases(j as nat, 64);
        }
        l = l * 2;
        j += 1;
    }
    l
}

/// Number of the durations that fall into bucket `k`.
pub open spec fn count_in(values: Seq<u64>, k: nat) -> nat
    decreases values.len(),
{
    if values.len() == 0 {
        0
    } else {
        count_in(values.drop_last(), k) + if bucket_index(values.last() as nat) == k {
            1nat
        } else {
            0nat
        }
    }
}

/// The number of durations in each bucket.
pub open spec fn bucket_counts(values: Seq<u64>) -> Seq<nat> {
    Seq::new(BUCKETS as nat, |k: int| count_in(values, k as nat))
}

proof fn lemma_count_in_bounded(values: Seq<u64>, k: nat)
    ensures
        count_in(values, k) <= values.len(),
    decreases values.len(),
{
    if values.len() > 0 {
        lemma_count_in_bounded(values.drop_last(), k);
    }
}

/// The counts as numbers without bound.
pub open spec fn counts_view(counts: Seq<usize>) -> Seq<nat> {
    counts.map_values(|c: usize| c as nat)
}

/// Counts the durations in each bucket.
pub fn count_buckets(values: &Vec<u64>) -> (counts: Vec<usize>)
    ensures
        counts.len() == BUCKETS,
        counts_view(counts@) == bucket_counts(values@),
{
    let mut counts: Vec<usize> = Vec::new();
    while counts.len() < BUCKETS
        invariant
            counts.len() <= BUCKETS,
            forall|k: int| 0 <= k < counts.len() ==> counts[k] == 0,
        decreases BUCKETS - counts.len(),
    {
        counts.push(0);
    }
    let mut i: usize = 0;
    while i < values.len()
        invariant
            i <= values.len(),
            counts.len() == BUCKETS,
            forall|k: int|
                0 <= k < BUCKETS ==> #[trigger] counts[k] == count_in(
                    values@.take(i as int),
                    k as nat,
                ),
        decreases values.len() - i,
    {
        let b = bucket_of(values[i]);
        proof {
            assert(values@.take(i + 1).drop_last() =~= values@.take(i as int));
            assert(values@.take(i + 1).last() == values@[i as int]);
            lemma_count_in_bounded(values@.take(i as int), b as nat);
        }
        let c: usize = counts[b];
        counts.set(b, c + 1);
        i += 1;
    }
    proof {
        assert(values@.take(i as int) =~= values@);
        assert(counts_view(counts@) =~= bucket_counts(values@));
    }
    counts
}

/// `n` asterisks.
pub open spec fn stars(n: nat) -> Seq<char> {
    Seq::new(n, |i: int| '*')
}

/// One line of the chart: the bucket's label, its count, and a bar whose
/// length is to `MAX_STARS` as the count is to the largest count.
pub open spec fn bar_line(k: nat, count: nat, largest: nat) -> Seq<char> {
    pad_left(decimal(bucket_label(k)), 6) + seq![' ', ':', ' '] + pad_right(decimal(count), 6)
        + seq![' '] + stars(count * MAX_STARS as nat / largest) + seq!['\n']
}

/// The lines of the chart for the buckets from `from` up to, not including,
/// `to`.
pub open spec fn bar_lines(counts: Seq<nat>, from: int, to: int, largest: nat) -> Seq<char>
    decreases to - from,
{
    if to <= from {
        Seq::empty()
    } else {
        bar_lines(counts, from, to - 1, largest) + bar_line(
            (to - 1) as nat,
            counts[to - 1],
            largest,
        )
    }
}

/// The first bucket at or after `k` that is not empty; the number of buckets
/// where there is none.
pub open spec fn first_filled(counts: Seq<nat>, k: int) -> int
    decreases counts.len() - k,
{
    if k >= counts.len() || (k >= 0 && counts[k] > 0) {
        k
    } else {
        first_filled(counts, k + 1)
    }
}

/// The last bucket before `n` that is not empty; -1 where there is none.
pub open spec fn last_filled(counts: Seq<nat>, n: int) -> int
    decreases n,
{
    if n <= 0 {
        -1
    } else if counts[n - 1] > 0 {
        n - 1
    } else {
        last_filled(counts, n - 1)
    }
}

/// The largest count among the first `n` buckets.
pub open spec fn largest_count(counts: Seq<nat>, n: int) -> nat
    decreases n,
{
    if n <= 0 {
        0
    } else if counts[n - 1] > largest_count(counts, n - 1) {
        counts[n - 1]
    } else {
        largest_count(counts, n - 1)
    }
}

/// The chart of a distribution: one line for each bucket from the first to
/// the last that is not empty, empty buckets between them included.
pub open spec fn chart_of_counts(counts: Seq<nat>) -> Seq<char> {
    let last = last_filled(counts, counts.len() as int);
    if last < 0 {
        Seq::empty()
    } else {
        bar_lines(
            counts,
            first_filled(counts, 0),
            last + 1,
            largest_count(counts, counts.len() as int),
        )
    }
}

/// The chart of the distribution of some durations.
pub open spec fn chart(values: Seq<u64>) -> Seq<char> {
    chart_of_counts(bucket_counts(values))
}

fn append_stars(out: &mut String, n: u128)
    ensures
        final(out)@ == old(out)@ + stars(n as nat),
{
    let mut i: u128 = 0;
    proof {
        reveal_strlit("*");
        assert("*"@ =~= seq!['*']);
        assert(out@ + stars(0) =~= out@);
    }
    while i < n
        invariant
            i <= n,
            "*"@ == seq!['*'],
            out@ == old(out)@ + stars(i as nat),
        decreases n - i,
    {
        out.append("*");
        proof {
            assert(old(out)@ + stars(i as nat) + seq!['*'] =~= old(out)@ + stars((i + 1) as nat));
        }
        i += 1;
    }
}

/// Prints the chart of the distribution of `values`.
pub fn render_chart(values: &Vec<u64>) -> (out: String)
    ensures
        out@ == chart(values@),
{
    let counts = count_buckets(values);
    let ghost cv = counts_view(counts@);
    let mut out = String::new();
    let mut last: usize = 0;
    let mut any = false;
    let mut largest: usize = 0;
    let mut k: usize = 0;
    while k < BUCKETS
        invariant
            k <= BUCKETS,
            counts.len() == BUCKETS,
            cv == counts_view(counts@),
            largest == largest_count(cv, k as int),
            any <==> last_filled(cv, k as int) >= 0,
            any ==> last == last_filled(cv, k as int),
            any ==> last < k && counts[last as int] > 0,
        decreases BUCKETS - k,
    {
        let c: usize = counts[k];
        if c > 0 {
            last = k;
            any = true;
        }
        if c > largest {
            largest = c;
        }
        k += 1;
    }
    if !any {
        return out;
    }
    let mut first: usize = 0;
    while first < BUCKETS && counts[first] == 0
        invariant
            first <= BUCKETS,
            counts.len() == BUCKETS,
            cv == counts_view(counts@),
            first_filled(cv, 0) == first_filled(cv, first as int),
            last < BUCKETS,
            counts[last as int] > 0,
            first <= last,
        decreases BUCKETS - first,
    {
        first += 1;
    }
    proof {
        assert(first_filled(cv, first as int) == first);
        lemma_largest_positive(cv, BUCKETS as int, last as int);
        reveal_strlit(" : ");
        reveal_strlit(" ");
        reveal_strlit("\n");
        assert(" : "@ =~= seq![' ', ':', ' ']);
        assert(" "@ =~= seq![' ']);
        assert("\n"@ =~= seq!['\n']);
    }
    let mut k: usize = first;
    while k <= last
        invariant
            first <= k <= last + 1,
            last < BUCKETS,
            counts.len() == BUCKETS,
            cv == counts_view(counts@),
            largest > 0,
            " : "@ == seq![' ', ':', ' '],
            " "@ == seq![' '],
            "\n"@ == seq!['\n'],
            out@ == bar_lines(cv, first as int, k as int, largest as nat),
        decreases last + 1 - k,
    {
        let c: usize = counts[k];
        let ghost before = out@;
        let label = decimal_string(label_of(k));
        append_padded_left(&mut out, label.as_str(), 6);
        out.append(" : ");
        let count = decimal_string(c as u128);
        append_padded_right(&mut out, count.as_str(), 6);
        out.append(" ");
        append_stars(&mut out, c as u128 * MAX_STARS as u128 / largest as u128);
        out.append("\n");
        proof {
            assert(cv[k as int] == c);
            assert(out@ =~= before + bar_line(k as nat, c as nat, largest as nat));
        }
        k += 1;
    }
    out
}

proof fn lemma_largest_positive(counts: Seq<nat>, n: int, k: int)
    requires
        0 <= k < n <= counts.len(),
        counts[k] > 0,
    ensures
        largest_count(counts, n) > 0,
    decreases n,
{
    if k < n - 1 {
        lemma_largest_positive(counts, n - 1, k);
    }
}

} // verus!

//! The ordering index: a sequence put into strictly ascending canonical order,
//! with values that compare equal collapsed to one.

use vstd::prelude::*;
use crate::text::Rank;

verus! {

/// A value with a canonical total order on its view.
pub trait Keyed: View + Copy {
    /// Three-way comparison of two views under the canonical order.
    spec fn key_rank(a: Self::V, b: Self::V) -> Rank;

    /// Compares two values under the canonical order.
    fn rank(&self, other: &Self) -> (r: Rank)
        ensures
            r == Self::key_rank(self@, other@),
    ;

    /// The canonical order is total and strict: only identical views compare
    /// `Equal`, exchanging the operands flips the outcome, and `Less` is
    /// transitive.
    proof fn lemma_key_order(a: Self::V, b: Self::V, c: Self::V)
        ensures
            Self::key_rank(a, b) == Rank::Equal <==> a == b,
            Self::key_rank(b, a) == Self::key_rank(a, b).flip(),
            Self::key_rank(a, b) == Rank::Less && Self::key_rank(b, c) == Rank::Less
                ==> Self::key_rank(a, c) == Rank::Less,
    ;
}

/// The views of the values of `s`, in order.
pub open spec fn views<T: View>(s: Seq<T>) -> Seq<T::V> {
    s.map_values(|x: T| x@)
}

/// Every value precedes all later ones.
pub open spec fn strictly_ascending<T: Keyed>(s: Seq<T::V>) -> bool {
    forall|i: int, j: int| 0 <= i < j < s.len() ==> T::key_rank(s[i], s[j]) == Rank::Less
}

/// The two sequences hold the same values, whatever their order and multiplicity.
pub open spec fn same_members<V>(a: Seq<V>, b: Seq<V>) -> bool {
    forall|x: V| a.contains(x) <==> b.contains(x)
}

/// `out` holds exactly the values of `a` and of `b`.
pub open spec fn members_of_both<V>(out: Seq<V>, a: Seq<V>, b: Seq<V>) -> bool {
    forall|x: V| out.contains(x) <==> (a.contains(x) || b.contains(x))
}

/// `out` is the ordering index of `input`: its values in strictly ascending
/// order, each exactly once.
pub open spec fn is_index_of<T: Keyed>(out: Seq<T::V>, input: Seq<T::V>) -> bool {
    &&& strictly_ascending::<T>(out)
    &&& same_members(out, input)
}

proof fn lemma_contains_take_grow<V>(s: Seq<V>, n: int)
    requires
        0 <= n < s.len(),
    ensures
        s.take(n + 1).contains(s[n]),
        forall|x: V| s.take(n).contains(x) ==> s.take(n + 1).contains(x),
        forall|x: V| s.take(n + 1).contains(x) ==> s.take(n).contains(x) || x == s[n],
{
    let short = s.take(n);
    let long = s.take(n + 1);
    assert(long[n] == s[n]);
    assert forall|x: V| short.contains(x) implies long.contains(x) by {
        let k = choose|k: int| 0 <= k < short.len() && short[k] == x;
        assert(long[k] == x);
    }
    assert forall|x: V| long.contains(x) implies short.contains(x) || x == s[n] by {
        let k = choose|k: int| 0 <= k < long.len() && long[k] == x;
        if k < n {
            assert(short[k] == x);
        }
    }
}

proof fn lemma_contains_push<V>(s: Seq<V>, y: V)
    ensures
        s.push(y).contains(y),
        forall|x: V| s.contains(x) ==> s.push(y).contains(x),
        forall|x: V| s.push(y).contains(x) ==> s.contains(x) || x == y,
{
    assert(s.push(y)[s.len() as int] == y);
    assert forall|x: V| s.contains(x) implies s.push(y).contains(x) by {
        let k = choose|k: int| 0 <= k < s.len() && s[k] == x;
        assert(s.push(y)[k] == x);
    }
    assert forall|x: V| s.push(y).contains(x) implies s.contains(x) || x == y by {
        let k = choose|k: int| 0 <= k < s.push(y).len() && s.push(y)[k] == x;
        if k < s.len() {
            assert(s[k] == x);
        }
    }
}

proof fn lemma_contains_concat<V>(a: Seq<V>, b: Seq<V>)
    ensures
        members_of_both(a + b, a, b),
{
    assert forall|x: V| (a + b).contains(x) implies a.contains(x) || b.contains(x) by {
        let k = choose|k: int| 0 <= k < (a + b).len() && (a + b)[k] == x;
        if k < a.len() {
            assert(a[k] == x);
        } else {
            assert(b[k - a.len()] == x);
        }
    }
    assert forall|x: V| a.contains(x) || b.contains(x) implies (a + b).contains(x) by {
        if a.contains(x) {
            let k = choose|k: int| 0 <= k < a.len() && a[k] == x;
            assert((a + b)[k] == x);
        } else {
            let k = choose|k: int| 0 <= k < b.len() && b[k] == x;
            assert((a + b)[a.len() + k] == x);
        }
    }
}

/// Merges two ascending sequences into one, keeping one value of each pair
/// that compares equal.
fn merge<T: Keyed>(a: &Vec<T>, b: &Vec<T>) -> (out: Vec<T>)
    requires
        strictly_ascending::<T>(views(a@)),
        strictly_ascending::<T>(views(b@)),
    ensures
        strictly_ascending::<T>(views(out@)),
        members_of_both(views(out@), views(a@), views(b@)),
{
    let ghost av = views(a@);
    let ghost bv = views(b@);
    let mut out: Vec<T> = Vec::new();
    let mut i: usize = 0;
    let mut j: usize = 0;
    while i < a.len() || j < b.len()
        invariant
            av == views(a@),
            bv == views(b@),
            i <= a.len(),
            j <= b.len(),
            strictly_ascending::<T>(av),
            strictly_ascending::<T>(bv),
            strictly_ascending::<T>(views(out@)),
            forall|k: int, m: int|
                0 <= k < out.len() && i <= m < av.len() ==> T::key_rank(
                    #[trigger] views(out@)[k],
                    #[trigger] av[m],
                ) == Rank::Less,
            forall|k: int, m: int|
                0 <= k < out.len() && j <= m < bv.len() ==> T::key_rank(
                    #[trigger] views(out@)[k],
                    #[trigger] bv[m],
                ) == Rank::Less,
            members_of_both(views(out@), av.take(i as int), bv.take(j as int)),
        decreases (a.len() - i) + (b.len() - j),
    {
        let ghost before = views(out@);
        let take_a: bool;
        let take_b: bool;
        if j >= b.len() {
            take_a = true;
            take_b = false;
        } else if i >= a.len() {
            take_a = false;
            take_b = true;
        } else {
            match a[i].rank(&b[j]) {
                Rank::Less => {
                    take_a = true;
                    take_b = false;
                },
                Rank::Greater => {
                    take_a = false;
                    take_b = true;
                },
                Rank::Equal => {
                    take_a = true;
                    take_b = true;
                },
            }
        }
        let x: T = if take_a {
            a[i]
        } else {
            b[j]
        };
        proof {
            let xv = x@;
            // The value taken precedes whatever stays behind in either input.
            assert forall|m: int| i + (if take_a { 1int } else { 0 }) <= m < av.len()
                implies T::key_rank(xv, #[trigger] av[m]) == Rank::Less by {
                if take_a {
                    assert(xv == av[i as int]);
                    if take_b {
                    }
                } else {
                    T::lemma_key_order(bv[j as int], av[i as int], av[m]);
                    T::lemma_key_order(av[i as int], bv[j as int], av[m]);
                    if m > i {
                        assert(T::key_rank(av[i as int], av[m]) == Rank::Less);
                    }
                }
            }
            assert forall|m: int| j + (if take_b { 1int } else { 0 }) <= m < bv.len()
                implies T::key_rank(xv, #[trigger] bv[m]) == Rank::Less by {
                if take_b {
                    if take_a {
                        T::lemma_key_order(av[i as int], bv[j as int], bv[m]);
                    }
                    assert(xv == bv[j as int]);
                } else {
                    T::lemma_key_order(av[i as int], bv[j as int], bv[m]);
                    if m > j {
                        assert(T::key_rank(bv[j as int], bv[m]) == Rank::Less);
                    }
                }
            }
            lemma_contains_push(before, xv);
            if take_a {
                lemma_contains_take_grow(av, i as int);
            }
            if take_b {
                lemma_contains_take_grow(bv, j as int);
                if take_a {
                    T::lemma_key_order(av[i as int], bv[j as int], bv[j as int]);
                }
            }
            assert(views(out@.push(x)) =~= before.push(xv));
            let ni = i + (if take_a { 1int } else { 0 });
            let nj = j + (if take_b { 1int } else { 0 });
            assert(av.take(ni) == if take_a { av.take(i + 1) } else { av.take(i as int) });
            assert(bv.take(nj) == if take_b { bv.take(j + 1) } else { bv.take(j as int) });
            assert forall|y: T::V| before.push(xv).contains(y) <==> (av.take(ni).contains(y)
                || bv.take(nj).contains(y)) by {
                if before.push(xv).contains(y) {
                    if y != xv {
                        assert(before.contains(y));
                        assert(av.take(i as int).contains(y) || bv.take(j as int).contains(y));
                    }
                }
                if av.take(ni).contains(y) || bv.take(nj).contains(y) {
                    if y != xv {
                        assert(av.take(i as int).contains(y) || bv.take(j as int).contains(y));
                        assert(before.contains(y));
                    }
                }
            }
        }
        out.push(x);
        if take_a {
            i += 1;
        }
        if take_b {
            j += 1;
        }
    }
    proof {
        assert(av.take(i as int) =~= av);
        assert(bv.take(j as int) =~= bv);
    }
    out
}

/// The ordering index of `items[lo..hi]`.
fn index_range<T: Keyed>(items: &Vec<T>, lo: usize, hi: usize) -> (out: Vec<T>)
    requires
        lo <= hi <= items.len(),
    ensures
        is_index_of::<T>(views(out@), views(items@.subrange(lo as int, hi as int))),
    decreases hi - lo,
{
    let ghost whole = views(items@.subrange(lo as int, hi as int));
    if hi - lo == 0 {
        let out: Vec<T> = Vec::new();
        assert(views(out@) =~= whole);
        out
    } else if hi - lo == 1 {
        let mut out: Vec<T> = Vec::new();
        out.push(items[lo]);
        assert(views(out@) =~= whole);
        out
    } else {
        let mid: usize = lo + (hi - lo) / 2;
        let left = index_range(items, lo, mid);
        let right = index_range(items, mid, hi);
        let out = merge(&left, &right);
        proof {
            let lv = views(items@.subrange(lo as int, mid as int));
            let rv = views(items@.subrange(mid as int, hi as int));
            assert(whole =~= lv + rv);
            lemma_contains_concat(lv, rv);
        }
        out
    }
}

/// The ordering index of `input`.
pub open spec fn index_of<T: Keyed>(input: Seq<T::V>) -> Seq<T::V> {
    choose|out: Seq<T::V>| is_index_of::<T>(out, input)
}

/// Puts `items` into strictly ascending canonical order and collapses values
/// that compare equal to a single one.  An empty input gives an empty index.
pub fn ordered_index<T: Keyed>(items: &Vec<T>) -> (out: Vec<T>)
    ensures
        is_index_of::<T>(views(out@), views(items@)),
        views(out@) == index_of::<T>(views(items@)),
{
    proof {
        assert(items@.subrange(0, items@.len() as int) =~= items@);
    }
    let out = index_range(items, 0, items.len());
    proof {
        lemma_index_unique::<T>(views(out@), index_of::<T>(views(items@)));
    }
    out
}

/// A sequence has at most one ordering index.
pub proof fn lemma_index_unique<T: Keyed>(a: Seq<T::V>, b: Seq<T::V>)
    requires
        strictly_ascending::<T>(a),
        strictly_ascending::<T>(b),
        same_members(a, b),
    ensures
        a == b,
    decreases a.len(),
{
    if a.len() == 0 {
        if b.len() > 0 {
            assert(b.contains(b[0]));
        }
        assert(a =~= b);
    } else if b.len() == 0 {
        assert(a.contains(a[0]));
    } else {
        assert(a.contains(a[0]));
        assert(b.contains(b[0]));
        let k = choose|k: int| 0 <= k < b.len() && b[k] == a[0];
        let m = choose|m: int| 0 <= m < a.len() && a[m] == b[0];
        T::lemma_key_order(a[0], b[0], a[0]);
        T::lemma_key_order(a[0], a[0], a[0]);
        assert(a[0] == b[0]);
        let at = a.drop_first();
        let bt = b.drop_first();
        assert forall|x: T::V| at.contains(x) <==> bt.contains(x) by {
            T::lemma_key_order(a[0], x, x);
            if at.contains(x) {
                let p = choose|p: int| 0 <= p < at.len() && at[p] == x;
                assert(a[p + 1] == x);
                assert(a.contains(x));
                let q = choose|q: int| 0 <= q < b.len() && b[q] == x;
                assert(bt[q - 1] == x);
            }
            if bt.contains(x) {
                let p = choose|p: int| 0 <= p < bt.len() && bt[p] == x;
                assert(b[p + 1] == x);
                assert(b.contains(x));
                let q = choose|q: int| 0 <= q < a.len() && a[q] == x;
                assert(at[q - 1] == x);
            }
        }
        assert forall|i: int, j: int| 0 <= i < j < at.len() implies T::key_rank(at[i], at[j])
            == Rank::Less by {
            assert(at[i] == a[i + 1] && at[j] == a[j + 1]);
        }
        assert forall|i: int, j: int| 0 <= i < j < bt.len() implies T::key_rank(bt[i], bt[j])
            == Rank::Less by {
            assert(bt[i] == b[i + 1] && bt[j] == b[j + 1]);
        }
        lemma_index_unique::<T>(at, bt);
        assert(a =~= seq![a[0]] + at);
        assert(b =~= seq![b[0]] + bt);
    }
}

/// Indexing is idempotent: the index of an index is that index itself.
pub proof fn lemma_index_idempotent<T: Keyed>(input: Seq<T::V>, once: Seq<T::V>, twice: Seq<T::V>)
    requires
        is_index_of::<T>(once, input),
        is_index_of::<T>(twice, once),
    ensures
        twice == once,
{
    lemma_index_unique::<T>(twice, once);
}

/// An index is non-decreasing: no value is preceded by a later one.
pub proof fn lemma_index_non_decreasing<T: Keyed>(input: Seq<T::V>, out: Seq<T::V>)
    requires
        is_index_of::<T>(out, input),
    ensures
        forall|i: int, j: int|
            0 <= i <= j < out.len() ==> T::key_rank(out[i], out[j]) != Rank::Greater,
{
    assert forall|i: int, j: int| 0 <= i <= j < out.len() implies T::key_rank(out[i], out[j])
        != Rank::Greater by {
        T::lemma_key_order(out[i], out[j], out[j]);
    }
}

/// Leaving values out of an ascending sequence leaves it ascending.
pub proof fn lemma_filter_ascending<T: Keyed>(s: Seq<T::V>, pred: spec_fn(T::V) -> bool)
    requires
        strictly_ascending::<T>(s),
    ensures
        strictly_ascending::<T>(s.filter(pred)),
        forall|x: T::V| s.filter(pred).contains(x) ==> s.contains(x),
    decreases s.len(),
{
    if s.len() == 0 {
        reveal(Seq::filter);
        assert(s.filter(pred) =~= s);
    } else {
        let init = s.drop_last();
        let x = s.last();
        assert(s =~= init.push(x));
        assert forall|i: int, j: int| 0 <= i < j < init.len() implies T::key_rank(init[i], init[j])
            == Rank::Less by {
            assert(init[i] == s[i] && init[j] == s[j]);
        }
        lemma_filter_ascending::<T>(init, pred);
        init.lemma_filter_push(x, pred);
        let k = init.filter(pred);
        assert forall|y: T::V| k.contains(y) implies s.contains(y) && T::key_rank(y, x)
            == Rank::Less by {
            assert(init.contains(y));
            let m = choose|m: int| 0 <= m < init.len() && init[m] == y;
            assert(s[m] == y);
            assert(s[s.len() - 1] == x);
        }
        if pred(x) {
            let now = k.push(x);
            assert forall|i: int, j: int| 0 <= i < j < now.len() implies T::key_rank(now[i], now[j])
                == Rank::Less by {
                if j == k.len() {
                    assert(k.contains(k[i]));
                } else {
                    assert(now[i] == k[i] && now[j] == k[j]);
                }
            }
            assert forall|y: T::V| now.contains(y) implies s.contains(y) by {
                let m = choose|m: int| 0 <= m < now.len() && now[m] == y;
                if m < k.len() {
                    assert(k[m] == y);
                    assert(k.contains(y));
                } else {
                    assert(s[s.len() - 1] == y);
                }
            }
        }
    }
}

} // verus!

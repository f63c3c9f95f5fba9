//! The grouping engine: the noise filter, the prefix similarity of two
//! messages, and the partition of records into groups.

use vstd::prelude::*;
use crate::log_line::LogLine;
use crate::log_line::LineView;
use crate::ordered::views;
use crate::ordered::strictly_ascending;
use crate::ordered::lemma_filter_ascending;
use crate::text::char_is_alphabetic;
use crate::text::char_is_numeric;
use crate::text::char_is_whitespace;
use crate::text::chars_of;
use crate::text::str_eq;

verus! {

/// Punctuation that the noise filter passes over.
pub open spec fn is_passed_over(c: char) -> bool {
    c == ':' || c == '[' || c == ']' || c == '<' || c == '>'
}

/// Whether the noise filter counts `c` as a digit: it is numeric, and neither
/// alphabetic nor passed over.
pub open spec fn counts_as_digit(c: char) -> bool {
    !char_is_alphabetic(c) && !is_passed_over(c) && char_is_numeric(c)
}

/// Length of the leading token of `msg`: the characters before its first
/// white space.
pub open spec fn leading_token_len(msg: Seq<char>) -> nat
    decreases msg.len(),
{
    if msg.len() == 0 || char_is_whitespace(msg[0]) {
        0
    } else {
        1 + leading_token_len(msg.drop_first())
    }
}

/// The leading token of `msg`.
pub open spec fn leading_token(msg: Seq<char>) -> Seq<char> {
    msg.take(leading_token_len(msg) as int)
}

/// Whether some character of `token` is alphabetic.
pub open spec fn has_alpha(token: Seq<char>) -> bool {
    exists|i: int| 0 <= i < token.len() && char_is_alphabetic(#[trigger] token[i])
}

/// Whether some character of `token` counts as a digit.
pub open spec fn has_digit(token: Seq<char>) -> bool {
    exists|i: int| 0 <= i < token.len() && counts_as_digit(#[trigger] token[i])
}

/// A message is noise when its leading token holds both letters and digits,
/// or neither.
pub open spec fn is_noise(msg: Seq<char>) -> bool {
    has_alpha(leading_token(msg)) == has_digit(leading_token(msg))
}

proof fn lemma_leading_token_len(msg: Seq<char>, n: int)
    requires
        0 <= n <= msg.len(),
        forall|i: int| 0 <= i < n ==> !char_is_whitespace(#[trigger] msg[i]),
        n == msg.len() || char_is_whitespace(msg[n]),
    ensures
        leading_token_len(msg) == n,
    decreases n,
{
    if n > 0 {
        let rest = msg.drop_first();
        assert forall|i: int| 0 <= i < n - 1 implies !char_is_whitespace(#[trigger] rest[i]) by {
            assert(rest[i] == msg[i + 1]);
        }
        lemma_leading_token_len(rest, n - 1);
    }
}

/// The noise filter: whether a message's leading token is uninformative.
pub fn ignore(msg: &str) -> (r: bool)
    ensures
        r == is_noise(msg@),
{
    let mut seen_alpha = false;
    let mut seen_digit = false;
    for c in it: msg.chars()
        invariant
            it.seq() == msg@,
            forall|i: int| 0 <= i < it.index() ==> !char_is_whitespace(#[trigger] msg@[i]),
            seen_alpha == has_alpha(msg@.take(it.index())),
            seen_digit == has_digit(msg@.take(it.index())),
    {
        let ghost n = it.index();
        let ghost before = msg@.take(n);
        let ghost after = msg@.take(n + 1);
        if c.is_whitespace() {
            proof {
                lemma_leading_token_len(msg@, n);
            }
            return seen_alpha == seen_digit;
        }
        proof {
            assert(after[n] == c);
            assert forall|i: int| 0 <= i < before.len() implies before[i] == after[i] by {}
            if has_alpha(before) {
                let i = choose|i: int| 0 <= i < before.len() && char_is_alphabetic(before[i]);
                assert(char_is_alphabetic(after[i]));
            }
            if has_digit(before) {
                let i = choose|i: int| 0 <= i < before.len() && counts_as_digit(before[i]);
                assert(counts_as_digit(after[i]));
            }
            if has_alpha(after) && !char_is_alphabetic(c) {
                let i = choose|i: int| 0 <= i < after.len() && char_is_alphabetic(after[i]);
                assert(char_is_alphabetic(before[i]));
            }
            if has_digit(after) && !counts_as_digit(c) {
                let i = choose|i: int| 0 <= i < after.len() && counts_as_digit(after[i]);
                assert(counts_as_digit(before[i]));
            }
        }
        if c.is_alphabetic() {
            seen_alpha = true;
        } else if !(c == ':' || c == '[' || c == ']' || c == '<' || c == '>') && c.is_numeric() {
            seen_digit = true;
        }
    }
    proof {
        lemma_leading_token_len(msg@, msg@.len() as int);
        assert(msg@.take(msg@.len() as int) =~= msg@);
    }
    seen_alpha == seen_digit
}

/// Length of the first word of `s`: the characters before its first space.
pub open spec fn first_word_len(s: Seq<char>) -> nat
    decreases s.len(),
{
    if s.len() == 0 || s[0] == ' ' {
        0
    } else {
        1 + first_word_len(s.drop_first())
    }
}

/// `s` split at every single space: one word more than there are spaces.
pub open spec fn split_words(s: Seq<char>) -> Seq<Seq<char>>
    decreases s.len(),
{
    let n = first_word_len(s) as int;
    if n >= s.len() {
        seq![s]
    } else {
        seq![s.take(n)] + split_words(s.skip(n + 1))
    }
}

/// The words of a message.  An empty message has no words.
pub open spec fn words(msg: Seq<char>) -> Seq<Seq<char>> {
    if msg.len() == 0 {
        Seq::empty()
    } else {
        split_words(msg)
    }
}

/// Whether some character of `word` is numeric.
pub open spec fn has_numeric(word: Seq<char>) -> bool {
    exists|i: int| 0 <= i < word.len() && char_is_numeric(#[trigger] word[i])
}

/// Two aligned words agree when they are the same word, or when both hold a
/// numeric character.
pub open spec fn words_agree(x: Seq<char>, y: Seq<char>) -> bool {
    x == y || (has_numeric(x) && has_numeric(y))
}

/// Number of leading positions at which the two word sequences agree.
pub open spec fn common_prefix(a: Seq<Seq<char>>, b: Seq<Seq<char>>) -> nat
    decreases a.len(),
{
    if a.len() == 0 || b.len() == 0 || !words_agree(a[0], b[0]) {
        0
    } else {
        1 + common_prefix(a.drop_first(), b.drop_first())
    }
}

/// Number of leading words that two messages have in common.
pub open spec fn n_prefix_spec(a: Seq<char>, b: Seq<char>) -> nat {
    common_prefix(words(a), words(b))
}

/// `n`, or the largest `u32` where `n` exceeds it.
pub open spec fn saturate_u32(n: nat) -> u32 {
    if n > u32::MAX {
        u32::MAX
    } else {
        n as u32
    }
}

proof fn lemma_first_word_len(s: Seq<char>, n: int)
    requires
        0 <= n <= s.len(),
        forall|i: int| 0 <= i < n ==> #[trigger] s[i] != ' ',
        n == s.len() || s[n] == ' ',
    ensures
        first_word_len(s) == n,
    decreases n,
{
    if n > 0 {
        let rest = s.drop_first();
        assert forall|i: int| 0 <= i < n - 1 implies #[trigger] rest[i] != ' ' by {
            assert(rest[i] == s[i + 1]);
        }
        lemma_first_word_len(rest, n - 1);
    }
}

/// End of the word of `v` that starts at `from`: the index of the next space,
/// or the length of `v`.
fn word_end(v: &Vec<char>, from: usize) -> (e: usize)
    requires
        from <= v.len(),
    ensures
        from <= e <= v.len(),
        e - from == first_word_len(v@.skip(from as int)),
{
    let mut e: usize = from;
    while e < v.len() && v[e] != ' '
        invariant
            from <= e <= v.len(),
            forall|i: int| from <= i < e ==> #[trigger] v@[i] != ' ',
        decreases v.len() - e,
    {
        e += 1;
    }
    proof {
        let s = v@.skip(from as int);
        assert forall|i: int| 0 <= i < e - from implies #[trigger] s[i] != ' ' by {
            assert(s[i] == v@[from + i]);
        }
        lemma_first_word_len(s, e - from);
    }
    e
}

/// Whether `v[from..to]` holds a numeric character.
fn range_has_numeric(v: &Vec<char>, from: usize, to: usize) -> (r: bool)
    requires
        from <= to <= v.len(),
    ensures
        r == has_numeric(v@.subrange(from as int, to as int)),
{
    let ghost word = v@.subrange(from as int, to as int);
    let mut i: usize = from;
    while i < to
        invariant
            from <= i <= to <= v.len(),
            word == v@.subrange(from as int, to as int),
            forall|k: int| 0 <= k < i - from ==> !char_is_numeric(#[trigger] word[k]),
        decreases to - i,
    {
        if v[i].is_numeric() {
            assert(char_is_numeric(word[i - from]));
            return true;
        }
        i += 1;
    }
    false
}

/// Whether `a[i..ea]` and `b[j..eb]` are the same word.
fn ranges_equal(a: &Vec<char>, i: usize, ea: usize, b: &Vec<char>, j: usize, eb: usize) -> (r:
    bool)
    requires
        i <= ea <= a.len(),
        j <= eb <= b.len(),
    ensures
        r == (a@.subrange(i as int, ea as int) == b@.subrange(j as int, eb as int)),
{
    let ghost x = a@.subrange(i as int, ea as int);
    let ghost y = b@.subrange(j as int, eb as int);
    if ea - i != eb - j {
        assert(x.len() != y.len());
        return false;
    }
    let mut k: usize = 0;
    while k < ea - i
        invariant
            i <= ea <= a.len(),
            j <= eb <= b.len(),
            ea - i == eb - j,
            k <= ea - i,
            x == a@.subrange(i as int, ea as int),
            y == b@.subrange(j as int, eb as int),
            forall|m: int| 0 <= m < k ==> x[m] == y[m],
        decreases ea - i - k,
    {
        if a[i + k] != b[j + k] {
            assert(x[k as int] != y[k as int]);
            return false;
        }
        k += 1;
    }
    assert(x =~= y);
    true
}

/// The number of leading words that `a` and `b` have in common, where two
/// words that both hold a numeric character count as the same word.  The
/// count stops at the first pair of words that differ, or where the shorter
/// message ends; it is capped at the largest `u32`.
pub fn n_prefix(a: &str, b: &str) -> (r: u32)
    ensures
        r == saturate_u32(n_prefix_spec(a@, b@)),
{
    let av = chars_of(a);
    let bv = chars_of(b);
    if av.len() == 0 || bv.len() == 0 {
        return 0;
    }
    let mut result: u32 = 0;
    let ghost mut count: nat = 0;
    let mut i: usize = 0;
    let mut j: usize = 0;
    proof {
        assert(av@.skip(0) =~= av@);
        assert(bv@.skip(0) =~= bv@);
    }
    loop
        invariant
            av@ == a@,
            bv@ == b@,
            i <= av.len(),
            j <= bv.len(),
            result == saturate_u32(count),
            n_prefix_spec(a@, b@) == count + common_prefix(
                split_words(av@.skip(i as int)),
                split_words(bv@.skip(j as int)),
            ),
        decreases av.len() - i,
    {
        let ea = word_end(&av, i);
        let eb = word_end(&bv, j);
        let ghost ra = av@.skip(i as int);
        let ghost rb = bv@.skip(j as int);
        let ghost wa = split_words(ra);
        let ghost wb = split_words(rb);
        proof {
            assert(ra.take(ea - i) =~= av@.subrange(i as int, ea as int));
            assert(rb.take(eb - j) =~= bv@.subrange(j as int, eb as int));
            if ea == av.len() {
                assert(ra =~= av@.subrange(i as int, ea as int));
            } else {
                assert(ra.skip(ea - i + 1) =~= av@.skip(ea + 1));
                assert(wa.drop_first() =~= split_words(av@.skip(ea + 1)));
            }
            if eb == bv.len() {
                assert(rb =~= bv@.subrange(j as int, eb as int));
            } else {
                assert(rb.skip(eb - j + 1) =~= bv@.skip(eb + 1));
                assert(wb.drop_first() =~= split_words(bv@.skip(eb + 1)));
            }
            assert(wa[0] == av@.subrange(i as int, ea as int));
            assert(wb[0] == bv@.subrange(j as int, eb as int));
        }
        let both_numeric = range_has_numeric(&av, i, ea) && range_has_numeric(&bv, j, eb);
        if !both_numeric && !ranges_equal(&av, i, ea, &bv, j, eb) {
            return result;
        }
        if result < u32::MAX {
            result += 1;
        }
        proof {
            count = count + 1;
        }
        if ea == av.len() || eb == bv.len() {
            proof {
                assert(wa.drop_first().len() == 0 || wb.drop_first().len() == 0);
                assert(common_prefix(wa.drop_first(), wb.drop_first()) == 0);
            }
            return result;
        }
        i = ea + 1;
        j = eb + 1;
    }
}

proof fn lemma_common_prefix_symmetric(a: Seq<Seq<char>>, b: Seq<Seq<char>>)
    ensures
        common_prefix(a, b) == common_prefix(b, a),
        common_prefix(a, b) <= a.len(),
        common_prefix(a, b) <= b.len(),
    decreases a.len(),
{
    if a.len() > 0 && b.len() > 0 && words_agree(a[0], b[0]) {
        lemma_common_prefix_symmetric(a.drop_first(), b.drop_first());
    }
}

/// The similarity of two messages does not depend on their order.
pub proof fn lemma_n_prefix_symmetric(a: Seq<char>, b: Seq<char>)
    ensures
        n_prefix_spec(a, b) == n_prefix_spec(b, a),
{
    lemma_common_prefix_symmetric(words(a), words(b));
}

/// Two messages have no more leading words in common than the shorter of
/// them has words.
pub proof fn lemma_n_prefix_bounded(a: Seq<char>, b: Seq<char>)
    ensures
        n_prefix_spec(a, b) <= words(a).len(),
        n_prefix_spec(a, b) <= words(b).len(),
{
    lemma_common_prefix_symmetric(words(a), words(b));
}

/// Whether `cur` opens a new group after `prev`, where `n` is the similarity
/// of the two messages and `prev_n` that of the pair before.
///
/// A structured and an unstructured record never share a group.  Two
/// structured records share one exactly when their messages are the same.
/// Two unstructured records are split when the similarity drops, when it is
/// zero twice in a row, or when severity or module differ.
pub open spec fn new_group_spec(n: int, prev_n: int, prev: LineView, cur: LineView) -> bool {
    if prev.is_structured() != cur.is_structured() {
        true
    } else if prev.is_structured() {
        prev.msg != cur.msg
    } else {
        ||| n < prev_n
        ||| (prev_n == 0 && n == 0)
        ||| prev.level != cur.level
        ||| prev.module != cur.module
    }
}

/// Decides whether `cur` opens a new group after `prev`.
pub fn is_new_group(n: u32, prev_n_prefix: u32, prev: &LogLine, cur: &LogLine) -> (r: bool)
    ensures
        r == new_group_spec(n as int, prev_n_prefix as int, prev@, cur@),
{
    let prev_structured = !prev.json_data.is_empty();
    let cur_structured = !cur.json_data.is_empty();
    if prev_structured != cur_structured {
        return true;
    }
    if prev_structured {
        return !str_eq(prev.msg, cur.msg);
    }
    n < prev_n_prefix || (prev_n_prefix == 0 && n == 0) || prev.level != cur.level || !str_eq(
        prev.module,
        cur.module,
    )
}

/// Whether the noise filter removes a record: it is unstructured and its
/// message is noise.
pub open spec fn is_ignored(l: LineView) -> bool {
    !l.is_structured() && is_noise(l.msg)
}

/// The records that the noise filter removes, in their order.
pub open spec fn ignored(lines: Seq<LineView>) -> Seq<LineView> {
    lines.filter(|l: LineView| is_ignored(l))
}

/// The records that pass the noise filter, in their order.
pub open spec fn kept(lines: Seq<LineView>) -> Seq<LineView> {
    lines.filter(|l: LineView| !is_ignored(l))
}

/// Similarity of the record at `i` of `k` with the one before it; 0 for the
/// first record.
pub open spec fn overlap(k: Seq<LineView>, i: int) -> u32 {
    if 0 < i < k.len() {
        saturate_u32(n_prefix_spec(k[i - 1].msg, k[i].msg))
    } else {
        0
    }
}

/// Whether the record at `i` of `k` opens a group.
pub open spec fn starts_group(k: Seq<LineView>, i: int) -> bool {
    i == 0 || new_group_spec(overlap(k, i) as int, overlap(k, i - 1) as int, k[i - 1], k[i])
}

/// The groups that the first `n` records of `k` fall into: each record either
/// opens a group or joins the one before it.
pub open spec fn groups_of(k: Seq<LineView>, n: int) -> Seq<Seq<LineView>>
    decreases n,
{
    if n <= 0 {
        Seq::empty()
    } else {
        let before = groups_of(k, n - 1);
        if starts_group(k, n - 1) {
            before.push(seq![k[n - 1]])
        } else {
            before.update(before.len() - 1, before.last().push(k[n - 1]))
        }
    }
}

/// The groups of a sequence of records: those of the records that pass the
/// noise filter.
pub open spec fn groups(lines: Seq<LineView>) -> Seq<Seq<LineView>> {
    groups_of(kept(lines), kept(lines).len() as int)
}

/// The content of each of a sequence of groups.
pub open spec fn group_views<'a>(gs: Seq<Vec<LogLine<'a>>>) -> Seq<Seq<LineView>> {
    gs.map_values(|g: Vec<LogLine<'a>>| views(g@))
}

proof fn lemma_groups_of_prefix(k1: Seq<LineView>, k2: Seq<LineView>, n: int)
    requires
        n <= k1.len(),
        n <= k2.len(),
        forall|i: int| 0 <= i < n ==> k1[i] == k2[i],
    ensures
        groups_of(k1, n) == groups_of(k2, n),
    decreases n,
{
    if n > 0 {
        lemma_groups_of_prefix(k1, k2, n - 1);
    }
}

proof fn lemma_groups_flatten(k: Seq<LineView>, n: int)
    requires
        0 <= n <= k.len(),
    ensures
        groups_of(k, n).flatten() == k.take(n),
        n > 0 ==> groups_of(k, n).len() > 0,
        forall|g: int| 0 <= g < groups_of(k, n).len() ==> (#[trigger] groups_of(k, n)[g]).len() > 0,
    decreases n,
{
    if n > 0 {
        lemma_groups_flatten(k, n - 1);
        let before = groups_of(k, n - 1);
        let x = k[n - 1];
        assert(k.take(n) =~= k.take(n - 1).push(x));
        if starts_group(k, n - 1) {
            before.lemma_flatten_push(seq![x]);
            assert(before.flatten() + seq![x] =~= before.flatten().push(x));
        } else {
            let init = before.drop_last();
            let last = before.last();
            assert(before =~= init.push(last));
            assert(groups_of(k, n) =~= init.push(last.push(x)));
            init.lemma_flatten_push(last);
            init.lemma_flatten_push(last.push(x));
            assert(init.flatten() + last.push(x) =~= (init.flatten() + last).push(x));
        }
    } else {
        assert(k.take(0) =~= Seq::<LineView>::empty());
    }
}

proof fn lemma_kept_push(s: Seq<LineView>, x: LineView)
    ensures
        kept(s.push(x)) == if is_ignored(x) {
            kept(s)
        } else {
            kept(s).push(x)
        },
        ignored(s.push(x)) == if is_ignored(x) {
            ignored(s).push(x)
        } else {
            ignored(s)
        },
{
    s.lemma_filter_push(x, |l: LineView| is_ignored(l));
    s.lemma_filter_push(x, |l: LineView| !is_ignored(l));
}

proof fn lemma_kept_ignored_partition(lines: Seq<LineView>)
    ensures
        kept(lines).to_multiset().add(ignored(lines).to_multiset()) == lines.to_multiset(),
    decreases lines.len(),
{
    broadcast use vstd::seq_lib::to_multiset_build;
    broadcast use vstd::multiset::group_multiset_axioms;

    if lines.len() == 0 {
        reveal(Seq::filter);
        assert(kept(lines) =~= lines);
        assert(ignored(lines) =~= lines);
        lines.to_multiset_ensures();
        assert(lines.to_multiset().add(lines.to_multiset()) =~= lines.to_multiset());
    } else {
        let init = lines.drop_last();
        let x = lines.last();
        assert(lines =~= init.push(x));
        lemma_kept_push(init, x);
        lemma_kept_ignored_partition(init);
        if is_ignored(x) {
            assert(kept(init).to_multiset().add(ignored(init).to_multiset().insert(x))
                =~= kept(init).to_multiset().add(ignored(init).to_multiset()).insert(x));
        } else {
            assert(kept(init).to_multiset().insert(x).add(ignored(init).to_multiset())
                =~= kept(init).to_multiset().add(ignored(init).to_multiset()).insert(x));
        }
    }
}

/// Every record is placed exactly once: the groups, laid end to end, are the
/// records that pass the noise filter, in their order; together with the
/// ignored records they make up the input; and no group is empty.
pub proof fn lemma_every_record_placed(lines: Seq<LineView>)
    ensures
        groups(lines).flatten() == kept(lines),
        groups(lines).flatten().to_multiset().add(ignored(lines).to_multiset())
            == lines.to_multiset(),
        forall|g: int| 0 <= g < groups(lines).len() ==> (#[trigger] groups(lines)[g]).len() > 0,
{
    let k = kept(lines);
    lemma_groups_flatten(k, k.len() as int);
    assert(k.take(k.len() as int) =~= k);
    lemma_kept_ignored_partition(lines);
}

/// The groups of an ordering index follow one another in canonical order:
/// laid end to end they are strictly ascending.
pub proof fn lemma_groups_keep_order(lines: Seq<LineView>)
    requires
        strictly_ascending::<LogLine>(lines),
    ensures
        strictly_ascending::<LogLine>(groups(lines).flatten()),
{
    lemma_every_record_placed(lines);
    lemma_filter_ascending::<LogLine>(lines, |l: LineView| !is_ignored(l));
}

/// The outcome of grouping: the groups in the order in which they closed, and
/// the records that the noise filter removed.
pub struct Grouping<'a> {
    pub groups: Vec<Vec<LogLine<'a>>>,
    pub ignored: Vec<LogLine<'a>>,
}

/// Partitions records into groups of similar consecutive records.
///
/// Unstructured records whose message is noise are set aside.  Each other
/// record is compared with the one kept before it, and either joins its group
/// or opens a new one.  No records give no groups.
pub fn group_lines<'a>(lines: &Vec<LogLine<'a>>) -> (out: Grouping<'a>)
    ensures
        group_views(out.groups@) == groups(views(lines@)),
        views(out.ignored@) == ignored(views(lines@)),
{
    let mut sealed: Vec<Vec<LogLine<'a>>> = Vec::new();
    let mut open_group: Vec<LogLine<'a>> = Vec::new();
    let mut set_aside: Vec<LogLine<'a>> = Vec::new();
    let mut prev_n: u32 = 0;
    let mut idx: usize = 0;
    let ghost mut k: Seq<LineView> = Seq::empty();
    proof {
        reveal(Seq::filter);
        assert(views(lines@.take(0)) =~= Seq::<LineView>::empty());
        assert(kept(views(lines@.take(0))) =~= Seq::<LineView>::empty());
        assert(ignored(views(lines@.take(0))) =~= Seq::<LineView>::empty());
        assert(views(set_aside@) =~= Seq::<LineView>::empty());
    }
    while idx < lines.len()
        invariant
            idx <= lines.len(),
            k == kept(views(lines@.take(idx as int))),
            views(set_aside@) == ignored(views(lines@.take(idx as int))),
            k.len() == 0 ==> sealed.len() == 0 && open_group.len() == 0 && prev_n == 0,
            k.len() > 0 ==> {
                &&& open_group.len() > 0
                &&& groups_of(k, k.len() as int) == group_views(sealed@).push(views(open_group@))
                &&& open_group@.last()@ == k.last()
                &&& prev_n == overlap(k, k.len() - 1)
            },
        decreases lines.len() - idx,
    {
        let cur = lines[idx];
        let ghost seen = views(lines@.take(idx as int));
        proof {
            assert(views(lines@.take(idx + 1)) =~= seen.push(cur@));
            lemma_kept_push(seen, cur@);
        }
        if cur.json_data.is_empty() && ignore(cur.msg) {
            proof {
                assert(views(set_aside@.push(cur)) =~= views(set_aside@).push(cur@));
            }
            set_aside.push(cur);
        } else {
            let ghost k2 = k.push(cur@);
            proof {
                lemma_groups_of_prefix(k2, k, k.len() as int);
            }
            if open_group.len() == 0 {
                proof {
                    assert(views(open_group@.push(cur)) =~= seq![cur@]);
                    assert(group_views(sealed@) =~= Seq::<Seq<LineView>>::empty());
                    assert(groups_of(k2, 0) =~= Seq::<Seq<LineView>>::empty());
                }
                open_group.push(cur);
            } else {
                let prev = open_group[open_group.len() - 1];
                let n = n_prefix(prev.msg, cur.msg);
                let ghost before = group_views(sealed@);
                let ghost open_view = views(open_group@);
                proof {
                    assert(k2[k.len() - 1] == prev@);
                    assert(overlap(k2, k.len() as int) == n);
                    assert(overlap(k2, k.len() - 1) == prev_n);
                }
                if is_new_group(n, prev_n, &prev, &cur) {
                    proof {
                        assert(group_views(sealed@.push(open_group)) =~= before.push(open_view));
                    }
                    sealed.push(open_group);
                    open_group = Vec::new();
                    open_group.push(cur);
                    proof {
                        assert(views(open_group@) =~= seq![cur@]);
                    }
                } else {
                    open_group.push(cur);
                    proof {
                        assert(views(open_group@) =~= open_view.push(cur@));
                        assert(groups_of(k2, k2.len() as int) =~= before.push(
                            open_view.push(cur@),
                        ));
                    }
                }
                prev_n = n;
            }
            proof {
                k = k2;
            }
        }
        idx += 1;
    }
    proof {
        assert(lines@.take(idx as int) =~= lines@);
    }
    if open_group.len() > 0 {
        proof {
            assert(group_views(sealed@.push(open_group)) =~= group_views(sealed@).push(
                views(open_group@),
            ));
        }
        sealed.push(open_group);
    } else {
        proof {
            assert(group_views(sealed@) =~= Seq::<Seq<LineView>>::empty());
        }
    }
    Grouping { groups: sealed, ignored: set_aside }
}

} // verus!

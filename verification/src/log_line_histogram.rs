//! The histogram of groups: each group reduced to its first record and its
//! size, ranked by severity and frequency, and the reports printed from it.

use vstd::prelude::*;
use vstd::string::StringExecFns;
use crate::grouping::group_lines;
use crate::grouping::group_views;
use crate::grouping::groups;
use crate::grouping::ignored;
use crate::grouping::lemma_every_record_placed;
use crate::log_line::LogLevel;
use crate::log_line::LogLine;
use crate::log_line::LineView;
use crate::log_line::line_rank;
use crate::log_line::line_blocks;
use crate::log_line::unprintable;
use crate::log_line::write_lines;
use crate::ordered::Keyed;
use crate::ordered::views;
use crate::ordered::is_index_of;
use crate::ordered::index_of;
use crate::ordered::ordered_index;
use crate::text::Rank;
use crate::text::int_rank;
use crate::text::decimal;
use crate::text::append_decimal;

verus! {

/// A group reduced to its first record and its size.
#[derive(Clone, Copy, Debug, PartialEq, Eq)]
pub struct HistogramElement<'a> {
    pub line: LogLine<'a>,
    pub count: usize,
}

/// The content of a histogram element.
pub struct HistogramEntry {
    pub line: LineView,
    pub count: nat,
}

impl<'a> View for HistogramElement<'a> {
    type V = HistogramEntry;

    open spec fn view(&self) -> HistogramEntry {
        HistogramEntry { line: self.line@, count: self.count as nat }
    }
}

/// The order of a histogram: the more severe first, then the more frequent,
/// then by the canonical order of the first records.
pub open spec fn entry_rank(a: HistogramEntry, b: HistogramEntry) -> Rank {
    int_rank(b.line.level.severity(), a.line.level.severity()).or(
        int_rank(b.count as int, a.count as int),
    ).or(line_rank(a.line, b.line))
}

impl<'a> Keyed for HistogramElement<'a> {
    open spec fn key_rank(a: HistogramEntry, b: HistogramEntry) -> Rank {
        entry_rank(a, b)
    }

    fn rank(&self, other: &Self) -> (r: Rank) {
        let r = other.line.level.rank(&self.line.level);
        if r != Rank::Equal {
            return r;
        }
        if other.count < self.count {
            return Rank::Less;
        }
        if other.count > self.count {
            return Rank::Greater;
        }
        self.line.rank(&other.line)
    }

    proof fn lemma_key_order(a: HistogramEntry, b: HistogramEntry, c: HistogramEntry) {
        LogLine::lemma_key_order(a.line, b.line, c.line);
    }
}

/// A more severe entry comes before a less severe one whatever their counts,
/// and of two entries of one severity the more frequent comes first.
pub proof fn lemma_severity_then_count(a: HistogramEntry, b: HistogramEntry)
    ensures
        a.line.level.severity() > b.line.level.severity() ==> entry_rank(a, b) == Rank::Less,
        a.line.level == b.line.level && a.count > b.count ==> entry_rank(a, b) == Rank::Less,
{
}

/// What a group contributes to the histogram.
pub open spec fn entry_of(group: Seq<LineView>) -> HistogramEntry {
    HistogramEntry { line: group[0], count: group.len() }
}

/// What each of a sequence of groups contributes to the histogram.
pub open spec fn entries_of(gs: Seq<Seq<LineView>>) -> Seq<HistogramEntry> {
    gs.map_values(|g: Seq<LineView>| entry_of(g))
}

/// The histogram of a sequence of groups: one element for each, in the order
/// of the histogram.
pub open spec fn histogram_of(gs: Seq<Seq<LineView>>) -> Seq<HistogramEntry> {
    index_of::<HistogramElement>(entries_of(gs))
}

/// Reduces each group to its first record and its size, and ranks the
/// elements: the most severe and most frequent groups come first.
pub fn build_histogram<'a>(groups: &Vec<Vec<LogLine<'a>>>) -> (h: Vec<HistogramElement<'a>>)
    requires
        forall|g: int| 0 <= g < groups.len() ==> (#[trigger] groups[g]).len() > 0,
    ensures
        is_index_of::<HistogramElement>(views(h@), entries_of(group_views(groups@))),
        views(h@) == histogram_of(group_views(groups@)),
{
    let mut elements: Vec<HistogramElement<'a>> = Vec::new();
    let mut g: usize = 0;
    while g < groups.len()
        invariant
            g <= groups.len(),
            forall|k: int| 0 <= k < groups.len() ==> (#[trigger] groups[k]).len() > 0,
            elements.len() == g,
            forall|k: int|
                0 <= k < g ==> (#[trigger] elements[k])@ == entry_of(group_views(groups@)[k]),
        decreases groups.len() - g,
    {
        let group = &groups[g];
        elements.push(HistogramElement { line: group[0], count: group.len() });
        g += 1;
    }
    proof {
        assert(views(elements@) =~= entries_of(group_views(groups@)));
    }
    ordered_index(&elements)
}

/// The level under whose header the histogram stands before its entry at `i`.
pub open spec fn level_before(h: Seq<HistogramEntry>, i: int) -> LogLevel {
    if i <= 0 {
        LogLevel::Trace
    } else {
        h[i - 1].line.level
    }
}

/// One entry of the histogram report: a header naming the severity where it
/// changes, then the count, the first record, and an empty line.
pub open spec fn entry_text(before: LogLevel, e: HistogramEntry) -> Seq<char> {
    let header = if e.line.level != before {
        seq!['\n'] + e.line.level.name_spec() + seq!['\n']
    } else {
        Seq::empty()
    };
    header + decimal(e.count) + seq![' ', ':', ' '] + e.line.mixed_text() + seq!['\n', '\n']
}

/// The histogram report for the first `n` entries of `h`.
pub open spec fn histogram_text(h: Seq<HistogramEntry>, n: int) -> Seq<char>
    decreases n,
{
    if n <= 0 {
        Seq::empty()
    } else {
        histogram_text(h, n - 1) + entry_text(level_before(h, n - 1), h[n - 1])
    }
}

/// Prints a histogram: its entries in order, each section of one severity
/// under a header.
pub fn render_histogram<'a>(h: &Vec<HistogramElement<'a>>) -> (out: String)
    ensures
        out@ == histogram_text(views(h@), h.len() as int),
{
    let ghost hv = views(h@);
    let mut out = String::new();
    let mut prev_level = LogLevel::Trace;
    let mut i: usize = 0;
    proof {
        reveal_strlit("\n");
        reveal_strlit(" : ");
        reveal_strlit("\n\n");
        assert("\n"@ =~= seq!['\n']);
        assert(" : "@ =~= seq![' ', ':', ' ']);
        assert("\n\n"@ =~= seq!['\n', '\n']);
    }
    while i < h.len()
        invariant
            i <= h.len(),
            hv == views(h@),
            "\n"@ == seq!['\n'],
            " : "@ == seq![' ', ':', ' '],
            "\n\n"@ == seq!['\n', '\n'],
            prev_level == level_before(hv, i as int),
            out@ == histogram_text(hv, i as int),
        decreases h.len() - i,
    {
        let e = h[i];
        let ghost before = out@;
        if e.line.level != prev_level {
            out.append("\n");
            out.append(e.line.level.name());
            out.append("\n");
            prev_level = e.line.level;
        }
        append_decimal(&mut out, e.count as u128);
        out.append(" : ");
        let _ = e.line.write_mixed_json(&mut out);
        out.append("\n\n");
        proof {
            assert(hv[i as int] == e@);
            assert(out@ =~= before + entry_text(level_before(hv, i as int), e@));
        }
        i += 1;
    }
    out
}

/// One group of the grouped-lines report: a header with its size, its
/// records, and a footer.
pub open spec fn group_text(group: Seq<LineView>) -> Seq<char> {
    ">>>> Group Size: "@ + decimal(group.len()) + seq!['\n'] + line_blocks(
        group,
        group.len() as int,
    ) + "<<<<\n"@
}

/// The grouped-lines report for the first `n` groups of `gs`.
pub open spec fn groups_text(gs: Seq<Seq<LineView>>, n: int) -> Seq<char>
    decreases n,
{
    if n <= 0 {
        Seq::empty()
    } else {
        groups_text(gs, n - 1) + group_text(gs[n - 1])
    }
}

/// The records of the first `n` groups of `gs` that do not print whole.
pub open spec fn groups_unprintable(gs: Seq<Seq<LineView>>, n: int) -> Seq<LineView>
    decreases n,
{
    if n <= 0 {
        Seq::empty()
    } else {
        groups_unprintable(gs, n - 1) + unprintable(gs[n - 1], gs[n - 1].len() as int)
    }
}

/// The grouped-lines report, and the records that did not print whole.
pub struct GroupedReport<'a> {
    pub text: String,
    pub unprintable: Vec<LogLine<'a>>,
}

/// Prints each group between a header with its size and a footer.
pub fn render_groups<'a>(groups: &Vec<Vec<LogLine<'a>>>) -> (r: GroupedReport<'a>)
    ensures
        r.text@ == groups_text(group_views(groups@), groups.len() as int),
        views(r.unprintable@) == groups_unprintable(group_views(groups@), groups.len() as int),
{
    let ghost gv = group_views(groups@);
    let mut out = String::new();
    let mut failed: Vec<LogLine<'a>> = Vec::new();
    let mut g: usize = 0;
    proof {
        reveal_strlit("\n");
        assert("\n"@ =~= seq!['\n']);
        assert(views(failed@) =~= Seq::<LineView>::empty());
    }
    while g < groups.len()
        invariant
            g <= groups.len(),
            gv == group_views(groups@),
            "\n"@ == seq!['\n'],
            out@ == groups_text(gv, g as int),
            views(failed@) == groups_unprintable(gv, g as int),
        decreases groups.len() - g,
    {
        let group = &groups[g];
        let ghost before = out@;
        out.append(">>>> Group Size: ");
        append_decimal(&mut out, group.len() as u128);
        out.append("\n");
        write_lines(group, &mut out, &mut failed);
        out.append("<<<<\n");
        proof {
            assert(gv[g as int] == views(group@));
            assert(out@ =~= before + group_text(gv[g as int]));
        }
        g += 1;
    }
    GroupedReport { text: out, unprintable: failed }
}

/// What the histogram stage hands back: the reports that were asked for, the
/// records that a report could not print whole, and the records that the
/// noise filter removed.
pub struct HistogramReport<'a> {
    pub histogram_text: Option<String>,
    pub grouped_text: Option<String>,
    pub unprintable: Vec<LogLine<'a>>,
    pub ignored: Vec<LogLine<'a>>,
}

/// Groups the records of an ordering index and prints the reports asked for:
/// the ranked histogram of the groups, and the groups line by line.
///
/// With neither report asked for nothing is computed.
pub fn to_histogram<'a>(log_lines: &Vec<LogLine<'a>>, histogram: bool, grouped: bool) -> (r:
    HistogramReport<'a>)
    ensures
        match r.histogram_text {
            Some(t) => histogram && t@ == histogram_text(
                histogram_of(groups(views(log_lines@))),
                histogram_of(groups(views(log_lines@))).len() as int,
            ),
            None => !histogram,
        },
        match r.grouped_text {
            Some(t) => grouped && t@ == groups_text(
                groups(views(log_lines@)),
                groups(views(log_lines@)).len() as int,
            ),
            None => !grouped,
        },
        views(r.unprintable@) == if grouped {
            groups_unprintable(groups(views(log_lines@)), groups(views(log_lines@)).len() as int)
        } else {
            Seq::empty()
        },
        views(r.ignored@) == if histogram || grouped {
            ignored(views(log_lines@))
        } else {
            Seq::empty()
        },
{
    if !histogram && !grouped {
        let r = HistogramReport {
            histogram_text: None,
            grouped_text: None,
            unprintable: Vec::new(),
            ignored: Vec::new(),
        };
        proof {
            assert(views(r.unprintable@) =~= Seq::<LineView>::empty());
            assert(views(r.ignored@) =~= Seq::<LineView>::empty());
        }
        return r;
    }
    let grouping = group_lines(log_lines);
    proof {
        lemma_every_record_placed(views(log_lines@));
        assert forall|g: int| 0 <= g < grouping.groups.len() implies (
        #[trigger] grouping.groups[g]).len() > 0 by {
            assert(group_views(grouping.groups@)[g].len() == grouping.groups[g].len());
        }
    }
    let histogram_text = if histogram {
        let h = build_histogram(&grouping.groups);
        Some(render_histogram(&h))
    } else {
        None
    };
    let mut unprintable: Vec<LogLine<'a>> = Vec::new();
    let grouped_text = if grouped {
        let report = render_groups(&grouping.groups);
        unprintable = report.unprintable;
        Some(report.text)
    } else {
        proof {
            assert(views(unprintable@) =~= Seq::<LineView>::empty());
        }
        None
    };
    HistogramReport { histogram_text, grouped_text, unprintable, ignored: grouping.ignored }
}

} // verus!

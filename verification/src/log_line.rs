//! Log records: severity levels, the record itself and its canonical order.

use vstd::prelude::*;
use crate::ordered::Keyed;
use crate::ordered::views;
use crate::text::Rank;
use crate::text::int_rank;
use crate::text::str_rank;
use crate::text::rank_str;
use crate::text::str_eq;
use crate::text::lemma_str_rank_equal;
use crate::text::lemma_str_rank_flip;
use crate::text::lemma_str_rank_trans;
use crate::json::json_parse;
use crate::json::json_pretty;
use crate::json::json_string;
use crate::json::json_object;
use crate::json::field_views;
use crate::json::parse;
use crate::json::pretty;
use crate::json::string_value;
use crate::json::object_value;
use vstd::string::StringExecFns;

verus! {

/// Severity of a record, from the least to the most severe.
#[derive(Clone, Copy, Debug, PartialEq, Eq, PartialOrd, Ord, Structural)]
pub enum LogLevel {
    Trace,
    Debug,
    Info,
    Warning,
    Error,
    Fatal,
}

impl LogLevel {
    /// Position in the order of increasing severity, `Trace` being 0.
    pub open spec fn severity(self) -> int {
        match self {
            LogLevel::Trace => 0,
            LogLevel::Debug => 1,
            LogLevel::Info => 2,
            LogLevel::Warning => 3,
            LogLevel::Error => 4,
            LogLevel::Fatal => 5,
        }
    }

    /// The level that a three-letter code stands for, if any.
    pub open spec fn from_code(code: Seq<char>) -> Option<LogLevel> {
        if code == seq!['T', 'R', 'C'] {
            Some(LogLevel::Trace)
        } else if code == seq!['D', 'B', 'G'] {
            Some(LogLevel::Debug)
        } else if code == seq!['N', 'F', 'O'] {
            Some(LogLevel::Info)
        } else if code == seq!['W', 'R', 'N'] {
            Some(LogLevel::Warning)
        } else if code == seq!['E', 'R', 'R'] {
            Some(LogLevel::Error)
        } else if code == seq!['F', 'T', 'L'] {
            Some(LogLevel::Fatal)
        } else {
            None
        }
    }

    /// The level's name as reports print it.
    pub open spec fn name_spec(self) -> Seq<char> {
        match self {
            LogLevel::Trace => seq!['T', 'r', 'a', 'c', 'e'],
            LogLevel::Debug => seq!['D', 'e', 'b', 'u', 'g'],
            LogLevel::Info => seq!['I', 'n', 'f', 'o'],
            LogLevel::Warning => seq!['W', 'a', 'r', 'n', 'i', 'n', 'g'],
            LogLevel::Error => seq!['E', 'r', 'r', 'o', 'r'],
            LogLevel::Fatal => seq!['F', 'a', 't', 'a', 'l'],
        }
    }

    /// Reads a three-letter severity code.  An unknown code gives `None`.
    pub fn new(field: &str) -> (r: Option<LogLevel>)
        ensures
            r == LogLevel::from_code(field@),
    {
        proof {
            reveal_strlit("TRC");
            reveal_strlit("DBG");
            reveal_strlit("NFO");
            reveal_strlit("WRN");
            reveal_strlit("ERR");
            reveal_strlit("FTL");
            assert("TRC"@ =~= seq!['T', 'R', 'C']);
            assert("DBG"@ =~= seq!['D', 'B', 'G']);
            assert("NFO"@ =~= seq!['N', 'F', 'O']);
            assert("WRN"@ =~= seq!['W', 'R', 'N']);
            assert("ERR"@ =~= seq!['E', 'R', 'R']);
            assert("FTL"@ =~= seq!['F', 'T', 'L']);
        }
        if str_eq(field, "TRC") {
            Some(LogLevel::Trace)
        } else if str_eq(field, "DBG") {
            Some(LogLevel::Debug)
        } else if str_eq(field, "NFO") {
            Some(LogLevel::Info)
        } else if str_eq(field, "WRN") {
            Some(LogLevel::Warning)
        } else if str_eq(field, "ERR") {
            Some(LogLevel::Error)
        } else if str_eq(field, "FTL") {
            Some(LogLevel::Fatal)
        } else {
            None
        }
    }

    /// The level's name as reports print it.
    pub fn name(&self) -> (r: &'static str)
        ensures
            r@ == self.name_spec(),
    {
        proof {
            reveal_strlit("Trace");
            reveal_strlit("Debug");
            reveal_strlit("Info");
            reveal_strlit("Warning");
            reveal_strlit("Error");
            reveal_strlit("Fatal");
            assert("Trace"@ =~= seq!['T', 'r', 'a', 'c', 'e']);
            assert("Debug"@ =~= seq!['D', 'e', 'b', 'u', 'g']);
            assert("Info"@ =~= seq!['I', 'n', 'f', 'o']);
            assert("Warning"@ =~= seq!['W', 'a', 'r', 'n', 'i', 'n', 'g']);
            assert("Error"@ =~= seq!['E', 'r', 'r', 'o', 'r']);
            assert("Fatal"@ =~= seq!['F', 'a', 't', 'a', 'l']);
        }
        match self {
            LogLevel::Trace => "Trace",
            LogLevel::Debug => "Debug",
            LogLevel::Info => "Info",
            LogLevel::Warning => "Warning",
            LogLevel::Error => "Error",
            LogLevel::Fatal => "Fatal",
        }
    }

    /// Position in the order of increasing severity, `Trace` being 0.
    pub fn ordinal(&self) -> (n: u8)
        ensures
            n == self.severity(),
    {
        match self {
            LogLevel::Trace => 0,
            LogLevel::Debug => 1,
            LogLevel::Info => 2,
            LogLevel::Warning => 3,
            LogLevel::Error => 4,
            LogLevel::Fatal => 5,
        }
    }

    /// Compares two levels by severity.
    pub fn rank(&self, other: &LogLevel) -> (r: Rank)
        ensures
            r == int_rank(self.severity(), other.severity()),
    {
        let a: u8 = self.ordinal();
        let b: u8 = other.ordinal();
        if a < b {
            Rank::Less
        } else if a == b {
            Rank::Equal
        } else {
            Rank::Greater
        }
    }
}

/// One parsed log record.  The text fields borrow from the log's buffer.
///
/// The fields stand in the order of the canonical key.
#[derive(Clone, Copy, Debug, PartialEq, Eq, PartialOrd, Ord)]
pub struct LogLine<'a> {
    pub level: LogLevel,
    pub module: &'a str,
    pub msg: &'a str,
    /// The structured payload's text; empty when the record carries none.
    pub json_data: &'a str,
    pub timestamp: &'a str,
    /// The raw line.
    pub line: &'a str,
}

/// The content of a record.
pub struct LineView {
    pub level: LogLevel,
    pub module: Seq<char>,
    pub msg: Seq<char>,
    pub json_data: Seq<char>,
    pub timestamp: Seq<char>,
    pub line: Seq<char>,
}

impl<'a> View for LogLine<'a> {
    type V = LineView;

    open spec fn view(&self) -> LineView {
        LineView {
            level: self.level,
            module: self.module@,
            msg: self.msg@,
            json_data: self.json_data@,
            timestamp: self.timestamp@,
            line: self.line@,
        }
    }
}

impl LineView {
    /// Whether the record carries a structured payload.
    pub open spec fn is_structured(self) -> bool {
        self.json_data.len() > 0
    }

    /// The payload as a JSON value: `None` where the record carries none, or
    /// where its text is not valid JSON.
    pub open spec fn payload(self) -> Option<serde_json::Value> {
        if self.is_structured() {
            json_parse(self.json_data)
        } else {
            None
        }
    }

    /// The payload printed over several lines, where it can be.
    pub open spec fn payload_text(self) -> Option<Seq<char>> {
        match self.payload() {
            Some(v) => json_pretty(v),
            None => None,
        }
    }

    /// The record without its payload, as reports print it: timestamp, a
    /// space, module, a colon, the level's name, a space, the message.
    pub open spec fn head_text(self) -> Seq<char> {
        self.timestamp + seq![' '] + self.module + seq![':'] + self.level.name_spec() + seq![' ']
            + self.msg
    }

    /// The record printed with a given payload text: the head, followed by a
    /// line break and the payload where there is one.
    pub open spec fn printed(self, payload: Option<Seq<char>>) -> Seq<char> {
        match payload {
            Some(p) => self.head_text() + seq!['\n'] + p,
            None => self.head_text(),
        }
    }

    /// The record as reports print it: the head, followed by a line break and
    /// the printed payload where there is one.
    pub open spec fn mixed_text(self) -> Seq<char> {
        self.printed(self.payload_text())
    }

    /// Whether the record prints whole: it carries no payload, or one that
    /// can be printed.
    pub open spec fn prints_whole(self) -> bool {
        !self.is_structured() || self.payload_text() is Some
    }

    /// The record as a line of a report: printed whole and closed by a line
    /// break, or else its head alone, left open.
    pub open spec fn line_block(self) -> Seq<char> {
        if self.prints_whole() {
            self.mixed_text() + seq!['\n']
        } else {
            self.mixed_text()
        }
    }

    /// The members of the record's JSON form other than its payload.
    pub open spec fn record_fields(self) -> Seq<(Seq<char>, serde_json::Value)> {
        seq![
            ("timestamp"@, json_string(self.timestamp)),
            ("module"@, json_string(self.module)),
            ("level"@, json_string(self.level.name_spec())),
            ("message"@, json_string(self.msg)),
        ]
    }

    /// The record as a JSON object: its text fields, and its payload under
    /// `data` where it carries one.  `None` where the payload is not valid
    /// JSON.
    pub open spec fn json_record(self) -> Option<serde_json::Value> {
        if self.is_structured() {
            match json_parse(self.json_data) {
                Some(d) => Some(json_object(self.record_fields().push(("data"@, d)))),
                None => None,
            }
        } else {
            Some(json_object(self.record_fields()))
        }
    }
}

impl<'a> LogLine<'a> {
    /// The payload as a JSON value: `None` where the record carries none, or
    /// where its text is not valid JSON.
    pub fn data_to_json_value(&self) -> (r: Option<serde_json::Value>)
        ensures
            r == self@.payload(),
    {
        if !self.json_data.is_empty() {
            match parse(self.json_data) {
                Ok(v) => {
                    return Some(v);
                },
                Err(_) => {},
            }
        }
        None
    }

    /// The record as a JSON object, or `None` where its payload is not valid
    /// JSON.
    pub fn to_json_value(&self) -> (r: Option<serde_json::Value>)
        ensures
            r == self@.json_record(),
    {
        let mut fields: Vec<(String, serde_json::Value)> = Vec::new();
        fields.push(("timestamp".to_owned(), string_value(self.timestamp)));
        fields.push(("module".to_owned(), string_value(self.module)));
        fields.push(("level".to_owned(), string_value(self.level.name())));
        fields.push(("message".to_owned(), string_value(self.msg)));
        proof {
            assert(field_views(fields@) =~= self@.record_fields());
        }
        if !self.json_data.is_empty() {
            match self.data_to_json_value() {
                Some(d) => {
                    fields.push(("data".to_owned(), d));
                    proof {
                        assert(field_views(fields@) =~= self@.record_fields().push(("data"@, d)));
                    }
                },
                None => {
                    return None;
                },
            }
        }
        Some(object_value(fields))
    }

    /// Appends the record to `out` with the payload text given: the head,
    /// then a line break and the payload where there is one.  Returns whether
    /// the record is printed whole, which a record that carries a payload is
    /// only with a payload text.
    pub fn write_with_payload(&self, payload: Option<&str>, out: &mut String) -> (whole: bool)
        ensures
            final(out)@ == old(out)@ + self@.printed(payload_view(payload)),
            whole == (payload is Some || !self@.is_structured()),
    {
        proof {
            reveal_strlit(" ");
            reveal_strlit(":");
            reveal_strlit("\n");
            assert(" "@ =~= seq![' ']);
            assert(":"@ =~= seq![':']);
            assert("\n"@ =~= seq!['\n']);
        }
        out.append(self.timestamp);
        out.append(" ");
        out.append(self.module);
        out.append(":");
        out.append(self.level.name());
        out.append(" ");
        out.append(self.msg);
        assert(out@ =~= old(out)@ + self@.head_text());
        match payload {
            Some(p) => {
                out.append("\n");
                out.append(p);
                assert(out@ =~= old(out)@ + self@.printed(payload_view(payload)));
                true
            },
            None => self.json_data.is_empty(),
        }
    }

    /// Appends the record to `out` as reports print it.  Returns whether it
    /// was printed whole: a payload that cannot be printed is left out, and
    /// the head stands alone.
    pub fn write_mixed_json(&self, out: &mut String) -> (whole: bool)
        ensures
            final(out)@ == old(out)@ + self@.mixed_text(),
            whole == self@.prints_whole(),
    {
        let printed: Option<String> = match self.data_to_json_value() {
            Some(v) => match pretty(&v) {
                Ok(p) => Some(p),
                Err(_) => None,
            },
            None => None,
        };
        match printed {
            Some(p) => self.write_with_payload(Some(p.as_str()), out),
            None => self.write_with_payload(None, out),
        }
    }
}

/// The text of a payload handed over for printing.
pub open spec fn payload_view(payload: Option<&str>) -> Option<Seq<char>> {
    match payload {
        Some(p) => Some(p@),
        None => None,
    }
}

/// The canonical order of records: by severity, then module, message, payload
/// (an absent payload first), timestamp and raw line, each text compared
/// lexicographically.
pub open spec fn line_rank(a: LineView, b: LineView) -> Rank {
    int_rank(a.level.severity(), b.level.severity()).or(str_rank(a.module, b.module)).or(
        str_rank(a.msg, b.msg),
    ).or(str_rank(a.json_data, b.json_data)).or(str_rank(a.timestamp, b.timestamp)).or(
        str_rank(a.line, b.line),
    )
}

proof fn lemma_field_order(a: Seq<char>, b: Seq<char>, c: Seq<char>)
    ensures
        str_rank(a, b) == Rank::Equal <==> a == b,
        str_rank(b, c) == Rank::Equal <==> b == c,
        str_rank(a, c) == Rank::Equal <==> a == c,
        str_rank(b, a) == str_rank(a, b).flip(),
        str_rank(a, b) == Rank::Less && str_rank(b, c) == Rank::Less ==> str_rank(a, c)
            == Rank::Less,
{
    lemma_str_rank_equal(a, b);
    lemma_str_rank_equal(b, c);
    lemma_str_rank_equal(a, c);
    lemma_str_rank_flip(a, b);
    if str_rank(a, b) == Rank::Less && str_rank(b, c) == Rank::Less {
        lemma_str_rank_trans(a, b, c);
    }
}

/// The first `n` records of `lines` as lines of a report, one after another.
pub open spec fn line_blocks(lines: Seq<LineView>, n: int) -> Seq<char>
    decreases n,
{
    if n <= 0 {
        Seq::empty()
    } else {
        line_blocks(lines, n - 1) + lines[n - 1].line_block()
    }
}

/// Those of the first `n` records of `lines` that do not print whole.
pub open spec fn unprintable(lines: Seq<LineView>, n: int) -> Seq<LineView>
    decreases n,
{
    if n <= 0 {
        Seq::empty()
    } else if lines[n - 1].prints_whole() {
        unprintable(lines, n - 1)
    } else {
        unprintable(lines, n - 1).push(lines[n - 1])
    }
}

/// Appends `lines` to `out` as lines of a report, and to `failed` those that
/// do not print whole.
pub fn write_lines<'a>(lines: &Vec<LogLine<'a>>, out: &mut String, failed: &mut Vec<LogLine<'a>>)
    ensures
        final(out)@ == old(out)@ + line_blocks(views(lines@), lines.len() as int),
        views(final(failed)@) == views(old(failed)@) + unprintable(
            views(lines@),
            lines.len() as int,
        ),
{
    let ghost lv = views(lines@);
    let mut i: usize = 0;
    proof {
        reveal_strlit("\n");
        assert("\n"@ =~= seq!['\n']);
        assert(out@ + line_blocks(lv, 0) =~= out@);
        assert(views(failed@) + unprintable(lv, 0) =~= views(failed@));
    }
    while i < lines.len()
        invariant
            i <= lines.len(),
            lv == views(lines@),
            "\n"@ == seq!['\n'],
            out@ == old(out)@ + line_blocks(lv, i as int),
            views(failed@) == views(old(failed)@) + unprintable(lv, i as int),
        decreases lines.len() - i,
    {
        let l = lines[i];
        let ghost out_before = out@;
        let ghost failed_before = views(failed@);
        if l.write_mixed_json(out) {
            out.append("\n");
        } else {
            failed.push(l);
            proof {
                assert(views(failed@) =~= failed_before.push(l@));
            }
        }
        proof {
            assert(lv[i as int] == l@);
            assert(out@ =~= out_before + l@.line_block());
            assert(out@ =~= old(out)@ + line_blocks(lv, i + 1));
            assert(views(failed@) =~= views(old(failed)@) + unprintable(lv, i + 1));
        }
        i += 1;
    }
}

impl<'a> Keyed for LogLine<'a> {
    open spec fn key_rank(a: LineView, b: LineView) -> Rank {
        line_rank(a, b)
    }

    fn rank(&self, other: &Self) -> (r: Rank) {
        let r = self.level.rank(&other.level);
        if r != Rank::Equal {
            return r;
        }
        let r = rank_str(self.module, other.module);
        if r != Rank::Equal {
            return r;
        }
        let r = rank_str(self.msg, other.msg);
        if r != Rank::Equal {
            return r;
        }
        let r = rank_str(self.json_data, other.json_data);
        if r != Rank::Equal {
            return r;
        }
        let r = rank_str(self.timestamp, other.timestamp);
        if r != Rank::Equal {
            return r;
        }
        rank_str(self.line, other.line)
    }

    proof fn lemma_key_order(a: LineView, b: LineView, c: LineView) {
        lemma_field_order(a.module, b.module, c.module);
        lemma_field_order(a.msg, b.msg, c.msg);
        lemma_field_order(a.json_data, b.json_data, c.json_data);
        lemma_field_order(a.timestamp, b.timestamp, c.timestamp);
        lemma_field_order(a.line, b.line, c.line);
    }
}

} // verus!

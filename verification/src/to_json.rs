//! The JSON report: every record as a JSON object, or as reports print it
//! with only its payload as JSON.

use vstd::prelude::*;
use vstd::string::StringExecFns;
use crate::json::json_pretty;
use crate::json::pretty;
use crate::log_line::LogLine;
use crate::log_line::LineView;
use crate::log_line::line_blocks;
use crate::log_line::unprintable;
use crate::log_line::write_lines;
use crate::ordered::views;

verus! {

/// The record as a JSON object printed over several lines, where its payload
/// is valid and the object can be printed.
pub open spec fn record_text(l: LineView) -> Option<Seq<char>> {
    match l.json_record() {
        Some(v) => json_pretty(v),
        None => None,
    }
}

/// The first `n` records as printed JSON objects, each closed by a line
/// break; a record that has no such form is passed over.
pub open spec fn record_blocks(lines: Seq<LineView>, n: int) -> Seq<char>
    decreases n,
{
    if n <= 0 {
        Seq::empty()
    } else {
        match record_text(lines[n - 1]) {
            Some(p) => record_blocks(lines, n - 1) + p + seq!['\n'],
            None => record_blocks(lines, n - 1),
        }
    }
}

/// Those of the first `n` records that have no form as a printed JSON object.
pub open spec fn record_failures(lines: Seq<LineView>, n: int) -> Seq<LineView>
    decreases n,
{
    if n <= 0 {
        Seq::empty()
    } else if record_text(lines[n - 1]) is None {
        record_failures(lines, n - 1).push(lines[n - 1])
    } else {
        record_failures(lines, n - 1)
    }
}

/// The JSON report, and the records that it could not hold whole.
pub struct JsonReport<'a> {
    pub text: String,
    pub errors: Vec<LogLine<'a>>,
}

/// Prints the records as JSON.
///
/// With `only_data_as_json` each record is printed as the other reports
/// print it, only its payload being JSON; without it each record becomes a
/// JSON object of its own.  Records whose payload is not valid JSON are
/// collected as errors.
pub fn to_json<'a>(log_lines: &Vec<LogLine<'a>>, only_data_as_json: bool) -> (r: JsonReport<'a>)
    ensures
        r.text@ == if only_data_as_json {
            line_blocks(views(log_lines@), log_lines.len() as int)
        } else {
            record_blocks(views(log_lines@), log_lines.len() as int)
        },
        views(r.errors@) == if only_data_as_json {
            unprintable(views(log_lines@), log_lines.len() as int)
        } else {
            record_failures(views(log_lines@), log_lines.len() as int)
        },
{
    let ghost lv = views(log_lines@);
    let mut out = String::new();
    let mut errors: Vec<LogLine<'a>> = Vec::new();
    proof {
        assert(views(errors@) =~= Seq::<LineView>::empty());
    }
    if only_data_as_json {
        write_lines(log_lines, &mut out, &mut errors);
        proof {
            assert(out@ =~= line_blocks(lv, log_lines.len() as int));
            assert(views(errors@) =~= unprintable(lv, log_lines.len() as int));
        }
    } else {
        let mut i: usize = 0;
        proof {
            reveal_strlit("\n");
            assert("\n"@ =~= seq!['\n']);
        }
        while i < log_lines.len()
            invariant
                i <= log_lines.len(),
                lv == views(log_lines@),
                "\n"@ == seq!['\n'],
                out@ == record_blocks(lv, i as int),
                views(errors@) == record_failures(lv, i as int),
            decreases log_lines.len() - i,
        {
            let l = log_lines[i];
            let ghost failed = views(errors@);
            proof {
                assert(lv[i as int] == l@);
            }
            let printed: Option<String> = match l.to_json_value() {
                Some(v) => match pretty(&v) {
                    Ok(p) => Some(p),
                    Err(_) => None,
                },
                None => None,
            };
            match printed {
                Some(p) => {
                    out.append(p.as_str());
                    out.append("\n");
                },
                None => {
                    errors.push(l);
                    proof {
                        assert(views(errors@) =~= failed.push(l@));
                    }
                },
            }
            i += 1;
        }
    }
    JsonReport { text: out, errors }
}

} // verus!

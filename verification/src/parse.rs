//! The grammar of a log line: a timestamp that ends in `UTC`, a space, the
//! module and the severity code around a colon, a space, the message, and,
//! where the line ends in `}`, a space and a JSON payload.

use vstd::prelude::*;
use vstd::string::StrSliceExecFns;
use crate::log_line::LogLevel;
use crate::log_line::LogLine;
use crate::log_line::LineView;
use crate::text::chars_of;

verus! {

/// Why a line gives no record.
#[derive(Clone, Copy, Debug, PartialEq, Eq, Structural)]
pub enum ParseError {
    /// The line does not follow the grammar.
    NoMatch,
    /// The line follows the grammar, but its severity code is not known.
    UnknownLevel,
}

/// Where the parts of a line meet.
pub struct Split {
    /// End of the timestamp; a space follows.
    pub stamp_end: int,
    /// The colon between module and severity code.
    pub colon: int,
    /// End of the severity code; a space follows.
    pub level_end: int,
    /// End of the message: the space before the payload, or the line's end.
    pub msg_end: int,
}

/// Whether a line carries a payload: its last character is `}`.
pub open spec fn ends_in_brace(line: Seq<char>) -> bool {
    line.len() > 0 && line.last() == '}'
}

/// No character of `line` from `from` up to, not including, `to` is `c`.
pub open spec fn free_of(line: Seq<char>, c: char, from: int, to: int) -> bool {
    forall|i: int| from <= i < to ==> #[trigger] line[i] != c
}

/// Whether `s` splits `line` by the grammar.
///
/// The timestamp ends in `UTC` and holds no line break.  The module holds no
/// colon and the severity code no space.  A line without payload has the
/// rest as its message, free of line breaks.  In a line with payload the
/// message holds no `{` and the payload no line break.
pub open spec fn is_split(line: Seq<char>, s: Split) -> bool {
    &&& 3 <= s.stamp_end < s.colon < s.level_end < line.len()
    &&& line[s.stamp_end - 3] == 'U'
    &&& line[s.stamp_end - 2] == 'T'
    &&& line[s.stamp_end - 1] == 'C'
    &&& free_of(line, '\n', 0, s.stamp_end)
    &&& line[s.stamp_end] == ' '
    &&& line[s.colon] == ':'
    &&& free_of(line, ':', s.stamp_end + 1, s.colon)
    &&& line[s.level_end] == ' '
    &&& free_of(line, ' ', s.colon + 1, s.level_end)
    &&& if ends_in_brace(line) {
        &&& s.level_end < s.msg_end < line.len()
        &&& line[s.msg_end] == ' '
        &&& free_of(line, '{', s.level_end + 1, s.msg_end)
        &&& free_of(line, '\n', s.msg_end + 1, line.len() as int)
    } else {
        &&& s.msg_end == line.len()
        &&& free_of(line, '\n', s.level_end + 1, line.len() as int)
    }
}

/// Whether `s` is the split that the grammar prefers: of all splits the one
/// with the longest timestamp and, for that timestamp, the longest message.
pub open spec fn is_best_split(line: Seq<char>, s: Split) -> bool {
    &&& is_split(line, s)
    &&& forall|t: Split| #[trigger]
        is_split(line, t) ==> t.stamp_end < s.stamp_end || (t.stamp_end == s.stamp_end
            && t.msg_end <= s.msg_end)
}

/// The severity code that a split marks.
pub open spec fn level_code(line: Seq<char>, s: Split) -> Seq<char> {
    line.subrange(s.colon + 1, s.level_end)
}

/// The record that a split of a line gives, its level apart.
pub open spec fn record_at(line: Seq<char>, s: Split, level: LogLevel) -> LineView {
    LineView {
        level,
        module: line.subrange(s.stamp_end + 1, s.colon),
        msg: line.subrange(s.level_end + 1, s.msg_end),
        json_data: if ends_in_brace(line) {
            line.subrange(s.msg_end + 1, line.len() as int)
        } else {
            Seq::empty()
        },
        timestamp: line.subrange(0, s.stamp_end),
        line,
    }
}

/// A line has at most one preferred split.
pub proof fn lemma_best_split_unique(line: Seq<char>, s: Split, t: Split)
    requires
        is_best_split(line, s),
        is_best_split(line, t),
    ensures
        s == t,
{
    assert(is_split(line, s));
    assert(is_split(line, t));
    assert(s.stamp_end == t.stamp_end);
    assert(s.msg_end == t.msg_end);
    if s.colon < t.colon {
        assert(line[s.colon] == ':');
    }
    if t.colon < s.colon {
        assert(line[t.colon] == ':');
    }
    if s.level_end < t.level_end {
        assert(line[s.level_end] == ' ');
    }
    if t.level_end < s.level_end {
        assert(line[t.level_end] == ' ');
    }
}

/// The first index at or after `from` that holds `c`, or the length.
fn find_first(v: &Vec<char>, from: usize, c: char) -> (i: usize)
    requires
        from <= v.len(),
    ensures
        from <= i <= v.len(),
        free_of(v@, c, from as int, i as int),
        i < v.len() ==> v@[i as int] == c,
{
    let mut i: usize = from;
    while i < v.len() && v[i] != c
        invariant
            from <= i <= v.len(),
            free_of(v@, c, from as int, i as int),
        decreases v.len() - i,
    {
        i += 1;
    }
    i
}

/// The least index from which on `v` holds no line break.
fn last_break_end(v: &Vec<char>) -> (m: usize)
    ensures
        m <= v.len(),
        free_of(v@, '\n', m as int, v.len() as int),
        m > 0 ==> v@[m - 1] == '\n',
{
    let mut m: usize = v.len();
    while m > 0 && v[m - 1] != '\n'
        invariant
            m <= v.len(),
            free_of(v@, '\n', m as int, v.len() as int),
        decreases m,
    {
        m -= 1;
    }
    m
}

/// The preferred split of `v` among those whose timestamp ends at `p`.
#[verifier::loop_isolation(false)]
fn split_at(v: &Vec<char>, p: usize, first_break: usize, break_end: usize) -> (r: Option<
    (usize, usize, usize),
>)
    requires
        3 <= p <= v.len(),
        first_break <= v.len(),
        free_of(v@, '\n', 0, first_break as int),
        first_break < v.len() ==> v@[first_break as int] == '\n',
        break_end <= v.len(),
        free_of(v@, '\n', break_end as int, v.len() as int),
        break_end > 0 ==> v@[break_end - 1] == '\n',
    ensures
        match r {
            Some((q, e, k)) => {
                let s = Split {
                    stamp_end: p as int,
                    colon: q as int,
                    level_end: e as int,
                    msg_end: k as int,
                };
                &&& is_split(v@, s)
                &&& forall|t: Split| #[trigger]
                    is_split(v@, t) && t.stamp_end == p ==> t.msg_end <= k
            },
            None => forall|t: Split| #[trigger] is_split(v@, t) ==> t.stamp_end != p,
        },
{
    let n = v.len();
    if !(p <= first_break && p < n && v[p - 3] == 'U' && v[p - 2] == 'T' && v[p - 1] == 'C' && v[p]
        == ' ') {
        proof {
            assert forall|t: Split| #[trigger] is_split(v@, t) implies t.stamp_end != p by {
                if t.stamp_end == p && p > first_break {
                    assert(v@[first_break as int] == '\n');
                }
            }
        }
        return None;
    }
    let q = find_first(v, p + 1, ':');
    if q >= n {
        proof {
            assert forall|t: Split| #[trigger] is_split(v@, t) implies t.stamp_end != p by {
                if t.stamp_end == p {
                    assert(v@[t.colon] == ':');
                }
            }
        }
        return None;
    }
    let e = find_first(v, q + 1, ' ');
    proof {
        assert forall|t: Split| #[trigger] is_split(v@, t) && t.stamp_end == p implies t.colon == q
            && t.level_end >= e by {
            if t.colon < q {
                assert(v@[t.colon] == ':');
            }
            if t.colon > q {
                assert(v@[q as int] == ':');
            }
            if t.level_end < e {
                assert(v@[t.level_end] == ' ');
            }
        }
    }
    if e >= n {
        return None;
    }
    proof {
        assert forall|t: Split| #[trigger] is_split(v@, t) && t.stamp_end == p implies t.level_end
            == e by {
            if t.level_end > e {
                assert(v@[e as int] == ' ');
            }
        }
    }
    if v[n - 1] != '}' {
        if break_end <= e + 1 {
            return Some((q, e, n));
        }
        proof {
            assert forall|t: Split| #[trigger] is_split(v@, t) implies t.stamp_end != p by {
                if t.stamp_end == p {
                    assert(v@[break_end - 1] == '\n');
                }
            }
        }
        return None;
    }
    let b = find_first(v, e + 1, '{');
    let mut k: usize = if b < n {
        b
    } else {
        n - 1
    };
    proof {
        assert forall|t: Split| #[trigger] is_split(v@, t) && t.stamp_end == p implies t.msg_end
            <= k by {
            if t.msg_end > b {
                assert(v@[b as int] == '{');
            }
        }
    }
    while k > e
        invariant
            e <= k < n,
            k <= b,
            forall|t: Split| #[trigger]
                is_split(v@, t) && t.stamp_end == p ==> t.colon == q && t.level_end == e
                    && t.msg_end <= k,
        decreases k,
    {
        if v[k] == ' ' && break_end <= k + 1 {
            return Some((q, e, k));
        }
        proof {
            assert forall|t: Split| #[trigger] is_split(v@, t) && t.stamp_end == p implies t.msg_end
                <= k - 1 by {
                if t.msg_end == k {
                    if v@[k as int] == ' ' {
                        assert(v@[break_end - 1] == '\n');
                    }
                }
            }
        }
        k -= 1;
    }
    None
}

impl<'a> LogLine<'a> {
    /// Reads one line of the log.
    ///
    /// A line that follows the grammar gives the record of its preferred
    /// split.  One that does not follow it gives `NoMatch`, and one whose
    /// severity code is not known gives `UnknownLevel`.
    pub fn new(line: &'a str) -> (r: Result<LogLine<'a>, ParseError>)
        ensures
            match r {
                Ok(l) => exists|s: Split| #[trigger]
                    is_best_split(line@, s) && LogLevel::from_code(level_code(line@, s)) == Some(
                        l.level,
                    ) && l@ == record_at(line@, s, l.level),
                Err(ParseError::NoMatch) => forall|s: Split| !#[trigger] is_split(line@, s),
                Err(ParseError::UnknownLevel) => exists|s: Split| #[trigger]
                    is_best_split(line@, s) && LogLevel::from_code(level_code(line@, s)) is None,
            },
    {
        let v = chars_of(line);
        let n = v.len();
        let first_break = find_first(&v, 0, '\n');
        let break_end = last_break_end(&v);
        let mut p: usize = n;
        while p >= 3
            invariant
                v@ == line@,
                n == v.len(),
                p <= n,
                first_break <= v.len(),
                free_of(v@, '\n', 0, first_break as int),
                first_break < v.len() ==> v@[first_break as int] == '\n',
                break_end <= v.len(),
                free_of(v@, '\n', break_end as int, v.len() as int),
                break_end > 0 ==> v@[break_end - 1] == '\n',
                forall|t: Split| #[trigger] is_split(v@, t) ==> t.stamp_end <= p,
            decreases p,
        {
            match split_at(&v, p, first_break, break_end) {
                Some((q, e, k)) => {
                    let ghost s = Split {
                        stamp_end: p as int,
                        colon: q as int,
                        level_end: e as int,
                        msg_end: k as int,
                    };
                    proof {
                        assert(is_best_split(line@, s));
                    }
                    let level = match LogLevel::new(line.substring_char(q + 1, e)) {
                        Some(level) => level,
                        None => {
                            return Err(ParseError::UnknownLevel);
                        },
                    };
                    let json_data: &'a str = if v[n - 1] == '}' {
                        line.substring_char(k + 1, n)
                    } else {
                        ""
                    };
                    let l = LogLine {
                        level,
                        module: line.substring_char(p + 1, q),
                        msg: line.substring_char(e + 1, k),
                        json_data,
                        timestamp: line.substring_char(0, p),
                        line,
                    };
                    proof {
                        reveal_strlit("");
                        assert(""@ =~= Seq::<char>::empty());
                        assert(l@ == record_at(line@, s, level));
                    }
                    return Ok(l);
                },
                None => {},
            }
            p -= 1;
        }
        Err(ParseError::NoMatch)
    }
}

} // verus!

//! Parsing the external morphological analyzer's output.
//!
//! The analyzer hands back one line per token: the surface form, a tab, then
//! a comma-separated feature list whose seventh field is the word root. A
//! line holding exactly the end marker stops the parse; lines at or after it
//! are not read. A line without a tab, or with too few feature fields, is a
//! fatal irregularity, as is output that yields no token at all.

use crate::text::find_char;
use crate::text::find_from;
use crate::text::lemma_find_from_bounds;
use crate::text::str_eq;
use vstd::prelude::*;
use vstd::string::StrSliceExecFns;
use vstd::string::StringExecFns;

verus! {

/// The end marker line of the analyzer's output.
pub open spec fn end_marker() -> Seq<char> {
    seq!['E', 'O', 'S']
}

/// Field number `k` of the comma-separated list that starts at `pos`.
pub open spec fn nth_field_from(l: Seq<char>, pos: int, k: int) -> Option<Seq<char>>
    decreases k,
{
    if pos < 0 || pos > l.len() || k < 0 {
        None
    } else {
        match find_from(l, pos, ',') {
            None => if k == 0 {
                Some(l.subrange(pos, l.len() as int))
            } else {
                None
            },
            Some(i) => if k == 0 {
                Some(l.subrange(pos, i))
            } else {
                nth_field_from(l, i + 1, k - 1)
            },
        }
    }
}

/// The word root of one analyzer line: the seventh comma-separated field
/// after the first tab, or nothing when the line is malformed.
pub open spec fn line_root(l: Seq<char>) -> Option<Seq<char>> {
    match find_from(l, 0, '\t') {
        None => None,
        Some(t) => nth_field_from(l, t + 1, 6),
    }
}

/// The roots of the analyzer output from position `pos` on, line by line up
/// to the end marker or the end of the text; `None` on the first malformed
/// line.
pub open spec fn roots_from(a: Seq<char>, pos: int) -> Option<Seq<Seq<char>>>
    decreases a.len() - pos,
    via roots_from_decreases
{
    if pos < 0 || pos >= a.len() {
        Some(Seq::empty())
    } else {
        let nl = find_from(a, pos, '\n');
        let end = if nl is Some {
            nl->Some_0
        } else {
            a.len() as int
        };
        let next = if nl is Some {
            nl->Some_0 + 1
        } else {
            a.len() as int
        };
        let line = a.subrange(pos, end);
        if line == end_marker() {
            Some(Seq::empty())
        } else {
            match line_root(line) {
                None => None,
                Some(r) => match roots_from(a, next) {
                    None => None,
                    Some(rs) => Some(seq![r] + rs),
                },
            }
        }
    }
}

#[via_fn]
proof fn roots_from_decreases(a: Seq<char>, pos: int) {
    lemma_find_from_bounds(a, pos, '\n');
}

/// The roots of a whole analyzer output.
pub open spec fn roots_spec(a: Seq<char>) -> Option<Seq<Seq<char>>> {
    roots_from(a, 0)
}

/// A failure to read the analyzer's output.
#[derive(Debug, Clone, Copy, PartialEq, Eq, Structural)]
pub enum ExtractError {
    /// A line before the end marker had no tab, or too few feature fields.
    MalformedLine,
    /// The output held no token line before the end marker.
    NoTokens,
}

/// Whether the line is exactly the end marker.
fn is_end_marker(line: &str) -> (r: bool)
    ensures
        r == (line@ == end_marker()),
{
    proof {
        reveal_strlit("EOS");
        assert("EOS"@ =~= end_marker());
    }
    str_eq(line, "EOS")
}

/// The word root of one analyzer line, if the line is well formed.
fn line_root_exec(line: &str) -> (r: Option<String>)
    ensures
        match line_root(line@) {
            None => r is None,
            Some(root) => r matches Some(s) && s@ == root,
        },
{
    let n = line.unicode_len();
    let tab = match find_char(line, 0, '\t') {
        None => {
            return None;
        },
        Some(t) => t,
    };
    let mut pos = tab + 1;
    let mut k: usize = 6;
    while k > 0
        invariant
            pos <= n,
            n == line@.len(),
            find_from(line@, 0, '\t') == Some(tab as int),
            nth_field_from(line@, tab + 1, 6) == nth_field_from(line@, pos as int, k as int),
        decreases k,
    {
        match find_char(line, pos, ',') {
            None => {
                proof {
                    assert(nth_field_from(line@, pos as int, k as int) is None);
                    assert(line_root(line@) is None);
                }
                return None;
            },
            Some(i) => {
                pos = i + 1;
                k = k - 1;
            },
        }
    }
    let end = match find_char(line, pos, ',') {
        None => n,
        Some(i) => i,
    };
    let field = line.substring_char(pos, end);
    Some(String::from_str(field))
}

/// Parse a whole analyzer output into the sequence of word roots it names
/// before its end marker. A malformed line, or output with no token at all,
/// is refused. A root that occurs twice is kept twice, in order: the store
/// de-duplicates memberships, not the extractor.
pub fn extract_roots(analysis: &str) -> (r: Result<Vec<String>, ExtractError>)
    ensures
        match roots_spec(analysis@) {
            None => r == Result::<Vec<String>, ExtractError>::Err(ExtractError::MalformedLine),
            Some(roots) => if roots.len() == 0 {
                r == Result::<Vec<String>, ExtractError>::Err(ExtractError::NoTokens)
            } else {
                r matches Ok(v) && v@.map_values(|t: String| t@) == roots
            },
        },
{
    let n = analysis.unicode_len();
    let mut acc: Vec<String> = Vec::new();
    let mut pos: usize = 0;
    while pos < n
        invariant
            pos <= n,
            n == analysis@.len(),
            match roots_from(analysis@, pos as int) {
                None => roots_spec(analysis@) is None,
                Some(rest) => roots_spec(analysis@) matches Some(all) && all == acc@.map_values(
                    |t: String| t@,
                ) + rest,
            },
        decreases n - pos,
    {
        let ghost before = acc@.map_values(|t: String| t@);
        let nl = find_char(analysis, pos, '\n');
        let end = match nl {
            Some(i) => i,
            None => n,
        };
        let next = match nl {
            Some(i) => i + 1,
            None => n,
        };
        let line = analysis.substring_char(pos, end);
        if is_end_marker(line) {
            if acc.len() == 0 {
                return Err(ExtractError::NoTokens);
            }
            proof {
                assert(acc@.map_values(|t: String| t@) + Seq::<Seq<char>>::empty() =~= acc@
                    .map_values(|t: String| t@));
            }
            return Ok(acc);
        }
        match line_root_exec(line) {
            None => {
                return Err(ExtractError::MalformedLine);
            },
            Some(root) => {
                let ghost rootv = root@;
                acc.push(root);
                proof {
                    assert(acc@.map_values(|t: String| t@) =~= before.push(rootv));
                    match roots_from(analysis@, next as int) {
                        None => {},
                        Some(rest) => {
                            assert(before + (seq![rootv] + rest) =~= before.push(rootv) + rest);
                        },
                    }
                }
                pos = next;
            },
        }
    }
    if acc.len() == 0 {
        return Err(ExtractError::NoTokens);
    }
    proof {
        assert(acc@.map_values(|t: String| t@) + Seq::<Seq<char>>::empty() =~= acc@.map_values(
            |t: String| t@,
        ));
    }
    Ok(acc)
}

} // verus!

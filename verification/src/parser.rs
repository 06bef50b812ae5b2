//! The executable parser: field extraction and the per-line loop.

use crate::digits::dec_digits;
use crate::digits::render_usize;
use crate::scan::FieldScan;
use crate::scan::LineScan;
use crate::scan::extract_spec;
use crate::scan::lemma_scan_field_used;
use crate::scan::parse_from;
use crate::scan::parse_spec;
use crate::scan::scan_field;
use crate::scan::scan_quoted;
use vstd::prelude::*;

verus! {

/// Malformed quoting inside one field.  `offset` is the absolute character
/// position within the line, one past the last character examined; read as a
/// 1-based column it names the offending character.
#[derive(Clone, Copy, Debug, PartialEq, Eq, Structural)]
pub struct ParseError {
    pub offset: usize,
}

/// A parse failure located in the input: the 1-based line number and the
/// 1-based column of the offending character.
#[derive(Clone, Copy, Debug, PartialEq, Eq, Structural)]
pub struct LineError {
    pub line: usize,
    pub column: usize,
}

/// Relies on String::push: appends the given character to the end of the
/// string.
#[verifier::external_body]
fn push_char(s: &mut String, c: char)
    ensures
        final(s)@ == old(s)@.push(c),
{
    s.push(c);
}

/// Extracts the field that starts at character position `offset` of `s`.
///
/// Returns the decoded field text together with the count of characters
/// consumed, delimiters included; the count is 0 exactly when `offset` is the
/// end of the line.  On malformed quoting returns the absolute position one
/// past the last character examined.
pub fn extract_field(s: &str, offset: usize) -> (r: Result<(String, usize), ParseError>)
    requires
        offset <= s@.len(),
    ensures
        match extract_spec(s@, offset as int) {
            FieldScan::Done { text, used } => {
                &&& r matches Ok(f)
                &&& f.0@ == text
                &&& f.1 == used
            },
            FieldScan::Fail { used } => {
                &&& r matches Err(e)
                &&& e.offset == offset + used
            },
        },
{
    let len = s.unicode_len();
    let mut v = String::new();
    let mut quoted = false;
    let mut i = offset;
    while i < len
        invariant
            offset <= i <= len,
            len == s@.len(),
            !quoted ==> extract_spec(s@, offset as int) == scan_field(
                s@.skip(i as int),
                v@,
                (i - offset) as nat,
            ),
            quoted ==> extract_spec(s@, offset as int) == scan_quoted(
                s@.skip(i as int),
                v@,
                (i - offset) as nat,
            ),
        decreases len - i,
    {
        let c = s.get_char(i);
        proof {
            assert(s@.skip(i as int)[0] == s@[i as int]);
            assert(s@.skip(i as int).skip(1) =~= s@.skip(i as int + 1));
        }
        if !quoted {
            if c == '"' {
                quoted = true;
                i = i + 1;
            } else if c == ',' {
                return Ok((v, i + 1 - offset));
            } else {
                push_char(&mut v, c);
                i = i + 1;
            }
        } else {
            if c != '"' {
                push_char(&mut v, c);
                i = i + 1;
            } else if i + 1 == len {
                return Ok((v, i + 1 - offset));
            } else {
                let c2 = s.get_char(i + 1);
                proof {
                    assert(s@.skip(i as int)[1] == s@[i as int + 1]);
                    assert(s@.skip(i as int).skip(2) =~= s@.skip(i as int + 2));
                }
                if c2 == '"' {
                    push_char(&mut v, '"');
                    i = i + 2;
                } else if c2 == ',' {
                    return Ok((v, i + 2 - offset));
                } else {
                    return Err(ParseError { offset: i + 1 });
                }
            }
        }
    }
    if quoted {
        Err(ParseError { offset: len })
    } else {
        Ok((v, len - offset))
    }
}

/// What `parse_line` promises of its result: on a line the automaton
/// accepts, the fields in order; on a line it rejects, the line number given
/// by the caller and the column the automaton reports.
pub open spec fn parse_result_matches(
    r: Result<Vec<String>, LineError>,
    n: nat,
    line: Seq<char>,
) -> bool {
    match parse_spec(line) {
        LineScan::Fields { fields } => r matches Ok(vs) && vs.deep_view() == fields,
        LineScan::Fail { at } => r matches Err(e) && e.line == n && e.column == at,
    }
}

/// Parses one line, numbered `n` for diagnostics, into its ordered fields.
///
/// Fields are extracted from position 0 on, each extraction advancing by the
/// count of characters it consumed, until one consumes nothing; an empty
/// line therefore yields no fields at all, while a comma right before the
/// end of the line is consumed by the field before it.
pub fn parse_line(n: usize, line: &str) -> (r: Result<Vec<String>, LineError>)
    ensures
        parse_result_matches(r, n as nat, line@),
{
    let len = line.unicode_len();
    let mut start: usize = 0;
    let mut vs: Vec<String> = Vec::new();
    proof {
        assert(vs.deep_view() =~= Seq::<Seq<char>>::empty());
        let pf = parse_from(line@, 0);
        if pf is Fields {
            assert(vs.deep_view() + pf->Fields_fields =~= pf->Fields_fields);
        }
    }
    loop
        invariant
            start <= len,
            len == line@.len(),
            match parse_from(line@, start as int) {
                LineScan::Fields { fields } => parse_spec(line@) == (LineScan::Fields {
                    fields: vs.deep_view() + fields,
                }),
                LineScan::Fail { at } => parse_spec(line@) == (LineScan::Fail { at }),
            },
        decreases len - start,
    {
        proof {
            lemma_scan_field_used(line@.skip(start as int), Seq::empty(), 0);
        }
        match extract_field(line, start) {
            Err(e) => {
                return Err(LineError { line: n, column: e.offset });
            },
            Ok((v, used)) => {
                if used == 0 {
                    proof {
                        let pf = parse_from(line@, start as int);
                        if pf is Fields {
                            assert(vs.deep_view() + pf->Fields_fields =~= vs.deep_view());
                        }
                    }
                    return Ok(vs);
                }
                let ghost old_vs = vs.deep_view();
                let ghost text = v@;
                vs.push(v);
                start = start + used;
                proof {
                    assert(vs.deep_view() =~= old_vs.push(text));
                    let pf = parse_from(line@, start as int);
                    if pf is Fields {
                        assert(old_vs + (Seq::empty().push(text) + pf->Fields_fields)
                            =~= vs.deep_view() + pf->Fields_fields);
                    }
                }
            },
        }
    }
}

/// The display form of a parse failure:
/// `invalid character at line {line} column {column}`.
pub open spec fn error_message(line: nat, column: nat) -> Seq<char> {
    "invalid character at line "@ + dec_digits(line) + " column "@ + dec_digits(column)
}

impl LineError {
    /// Renders the error for display.
    pub fn message(&self) -> (r: String)
        ensures
            r@ == error_message(self.line as nat, self.column as nat),
    {
        let mut r = String::from_str("invalid character at line ");
        let d_line = render_usize(self.line);
        r.append(d_line.as_str());
        r.append(" column ");
        let d_col = render_usize(self.column);
        r.append(d_col.as_str());
        proof {
            assert(r@ =~= error_message(self.line as nat, self.column as nat));
        }
        r
    }
}

} // verus!

//! The mathematical model of the parser: a character-level automaton that
//! extracts one field from a suffix of the line, and its iteration over the
//! whole line.

use vstd::prelude::*;

verus! {

/// Outcome of scanning one field from the front of a character sequence:
/// either the decoded field text together with the count of characters
/// consumed, or a failure whose count points one past the last character
/// examined.
pub enum FieldScan {
    Done { text: Seq<char>, used: nat },
    Fail { used: nat },
}

/// Outcome of parsing a whole line: the ordered field texts, or a failure
/// carrying the absolute position one past the last character examined
/// (read as a 1-based column, that position names the offending character).
pub enum LineScan {
    Fields { fields: Seq<Seq<char>> },
    Fail { at: nat },
}

/// Scanning inside a quoted region.  `acc` is the text decoded so far and
/// `used` the count of characters consumed so far.
///
/// A character other than `"` is taken literally.  A `"` is disambiguated by
/// one character of lookahead: a following `"` is an escaped quote, a
/// following comma closes the field (both characters are consumed), the end
/// of the line closes the field, and anything else is malformed.  A line that
/// runs out while still quoted is malformed as well.
pub open spec fn scan_quoted(s: Seq<char>, acc: Seq<char>, used: nat) -> FieldScan
    decreases s.len(),
{
    if s.len() == 0 {
        FieldScan::Fail { used }
    } else if s[0] != '"' {
        scan_quoted(s.skip(1), acc.push(s[0]), used + 1)
    } else if s.len() == 1 {
        FieldScan::Done { text: acc, used: used + 1 }
    } else if s[1] == '"' {
        scan_quoted(s.skip(2), acc.push('"'), used + 2)
    } else if s[1] == ',' {
        FieldScan::Done { text: acc, used: used + 2 }
    } else {
        FieldScan::Fail { used: used + 1 }
    }
}

/// Scanning outside a quoted region.  A comma ends the field (the comma is
/// consumed but not part of the text), a `"` opens a quoted region, the end
/// of the line ends the field, and any other character is taken literally.
pub open spec fn scan_field(s: Seq<char>, acc: Seq<char>, used: nat) -> FieldScan
    decreases s.len(),
{
    if s.len() == 0 {
        FieldScan::Done { text: acc, used }
    } else if s[0] == '"' {
        scan_quoted(s.skip(1), acc, used + 1)
    } else if s[0] == ',' {
        FieldScan::Done { text: acc, used: used + 1 }
    } else {
        scan_field(s.skip(1), acc.push(s[0]), used + 1)
    }
}

/// What extracting one field at `offset` returns: the scan of the suffix
/// that starts there, with `used` counted relative to `offset`.
pub open spec fn extract_spec(line: Seq<char>, offset: int) -> FieldScan
    recommends
        0 <= offset <= line.len(),
{
    scan_field(line.skip(offset), Seq::empty(), 0)
}

/// Bounds of a quoted scan: the final count never falls below the initial
/// one, grows by at most the suffix length, and a successful scan consumes
/// at least one character.
pub proof fn lemma_scan_quoted_used(s: Seq<char>, acc: Seq<char>, used: nat)
    ensures
        match scan_quoted(s, acc, used) {
            FieldScan::Done { text, used: u } => used < u <= used + s.len(),
            FieldScan::Fail { used: u } => used <= u <= used + s.len(),
        },
    decreases s.len(),
{
    if s.len() == 0 {
    } else if s[0] != '"' {
        lemma_scan_quoted_used(s.skip(1), acc.push(s[0]), used + 1);
    } else if s.len() == 1 {
    } else if s[1] == '"' {
        lemma_scan_quoted_used(s.skip(2), acc.push('"'), used + 2);
    }
}

/// Bounds of a field scan: the count grows by at most the suffix length, a
/// nonempty suffix always consumes at least one character, and an empty
/// suffix yields the accumulator unchanged with nothing consumed.
pub proof fn lemma_scan_field_used(s: Seq<char>, acc: Seq<char>, used: nat)
    ensures
        match scan_field(s, acc, used) {
            FieldScan::Done { text, used: u } => {
                &&& used <= u <= used + s.len()
                &&& s.len() > 0 ==> u > used
                &&& s.len() == 0 ==> u == used && text == acc
            },
            FieldScan::Fail { used: u } => used < u <= used + s.len(),
        },
    decreases s.len(),
{
    if s.len() == 0 {
    } else if s[0] == '"' {
        lemma_scan_quoted_used(s.skip(1), acc, used + 1);
    } else if s[0] == ',' {
    } else {
        lemma_scan_field_used(s.skip(1), acc.push(s[0]), used + 1);
    }
}

/// Parsing a line from position `start` on: extract fields one after the
/// other, each time advancing by the count of characters consumed, until an
/// extraction consumes nothing (the end of the line); a failed extraction
/// fails the line at the absolute position it reports.
pub open spec fn parse_from(line: Seq<char>, start: int) -> LineScan
    decreases line.len() - start,
        when 0 <= start <= line.len()
        via parse_from_dec
{
    match extract_spec(line, start) {
        FieldScan::Fail { used } => LineScan::Fail { at: (start + used) as nat },
        FieldScan::Done { text, used } => {
            if used == 0 {
                LineScan::Fields { fields: Seq::empty() }
            } else {
                match parse_from(line, start + used) {
                    LineScan::Fields { fields } => LineScan::Fields {
                        fields: Seq::empty().push(text) + fields,
                    },
                    LineScan::Fail { at } => LineScan::Fail { at },
                }
            }
        },
    }
}

#[via_fn]
proof fn parse_from_dec(line: Seq<char>, start: int) {
    lemma_scan_field_used(line.skip(start), Seq::empty(), 0);
}

/// What parsing a whole line returns.
pub open spec fn parse_spec(line: Seq<char>) -> LineScan {
    parse_from(line, 0)
}

} // verus!

//! Laws relating the parser to an independent description: splitting the
//! line at top-level commas and decoding each raw segment on its own, and
//! determinism of the whole parse.

use crate::parser::LineError;
use crate::parser::parse_result_matches;
use crate::scan::FieldScan;
use crate::scan::LineScan;
use crate::scan::lemma_scan_field_used;
use crate::scan::parse_from;
use crate::scan::parse_spec;
use crate::scan::scan_field;
use crate::scan::scan_quoted;
use vstd::prelude::*;

verus! {

/// Splits at the commas that lie outside quotes, where a `"` character
/// toggles the quote state; every other character, quotes included, is kept
/// in the current raw segment.
pub open spec fn split_rec(
    s: Seq<char>,
    quoted: bool,
    cur: Seq<char>,
    done: Seq<Seq<char>>,
) -> Seq<Seq<char>>
    decreases s.len(),
{
    if s.len() == 0 {
        done.push(cur)
    } else if s[0] == '"' {
        split_rec(s.skip(1), !quoted, cur.push('"'), done)
    } else if s[0] == ',' && !quoted {
        split_rec(s.skip(1), false, Seq::empty(), done.push(cur))
    } else {
        split_rec(s.skip(1), quoted, cur.push(s[0]), done)
    }
}

/// The raw segments of a line between its top-level commas; an empty line
/// has no segments.
pub open spec fn top_split(s: Seq<char>) -> Seq<Seq<char>> {
    if s.len() == 0 {
        Seq::empty()
    } else {
        split_rec(s, false, Seq::empty(), Seq::empty())
    }
}

/// Decodes the part of a raw segment that lies inside quotes: a doubled
/// quote yields one literal quote, a single quote closes the region, and
/// every other character is taken literally.
pub open spec fn quoted_decode(s: Seq<char>) -> Seq<char>
    decreases s.len(),
{
    if s.len() == 0 {
        Seq::empty()
    } else if s[0] == '"' {
        if s.len() >= 2 && s[1] == '"' {
            Seq::empty().push('"') + quoted_decode(s.skip(2))
        } else {
            Seq::empty()
        }
    } else {
        Seq::empty().push(s[0]) + quoted_decode(s.skip(1))
    }
}

/// Decodes one raw segment: characters are taken literally until a `"`
/// opens a quoted region, whose content is decoded by `quoted_decode`.
pub open spec fn seg_decode(s: Seq<char>) -> Seq<char>
    decreases s.len(),
{
    if s.len() == 0 {
        Seq::empty()
    } else if s[0] == '"' {
        quoted_decode(s.skip(1))
    } else {
        Seq::empty().push(s[0]) + seg_decode(s.skip(1))
    }
}

/// Decodes every raw segment of a split.
pub open spec fn decode_all(segs: Seq<Seq<char>>) -> Seq<Seq<char>> {
    segs.map_values(|seg: Seq<char>| seg_decode(seg))
}

/// One quoted scan step agrees with the toggle split and the segment decode:
/// a successful quoted scan of `s` (entered with text `acc` and count `u`)
/// consumes a prefix of `s` that ends the raw segment, either at a top-level
/// comma or at the end of the line.
proof fn lemma_scan_quoted_split(
    s: Seq<char>,
    acc: Seq<char>,
    u: nat,
    cur: Seq<char>,
    done: Seq<Seq<char>>,
)
    requires
        scan_quoted(s, acc, u) is Done,
    ensures
        ({
            let text = scan_quoted(s, acc, u)->Done_text;
            let c = scan_quoted(s, acc, u)->Done_used - u;
            &&& 1 <= c <= s.len()
            &&& s[c - 1] == ',' ==> {
                &&& c >= 2
                &&& text == acc + quoted_decode(s.take(c - 1))
                &&& split_rec(s, true, cur, done) == split_rec(
                    s.skip(c),
                    false,
                    Seq::empty(),
                    done.push(cur + s.take(c - 1)),
                )
            }
            &&& s[c - 1] != ',' ==> {
                &&& c == s.len()
                &&& text == acc + quoted_decode(s.take(c))
                &&& split_rec(s, true, cur, done) == done.push(cur + s.take(c))
            }
        }),
    decreases s.len(),
{
    let text = scan_quoted(s, acc, u)->Done_text;
    let c = scan_quoted(s, acc, u)->Done_used - u;
    if s[0] != '"' {
        lemma_scan_quoted_split(s.skip(1), acc.push(s[0]), u + 1, cur.push(s[0]), done);
        let c1 = scan_quoted(s.skip(1), acc.push(s[0]), u + 1)->Done_used - (u + 1);
        assert(c == c1 + 1);
        assert(s.skip(1)[c1 - 1] == s[c - 1]);
        if s[c - 1] == ',' {
            assert(s.take(c - 1) =~= Seq::empty().push(s[0]) + s.skip(1).take(c1 - 1));
            assert(s.take(c - 1).skip(1) =~= s.skip(1).take(c1 - 1));
            assert(quoted_decode(s.take(c - 1)) == Seq::empty().push(s[0]) + quoted_decode(
                s.skip(1).take(c1 - 1),
            ));
            assert(acc + quoted_decode(s.take(c - 1)) =~= acc.push(s[0]) + quoted_decode(
                s.skip(1).take(c1 - 1),
            ));
            assert(cur + s.take(c - 1) =~= cur.push(s[0]) + s.skip(1).take(c1 - 1));
            assert(s.skip(c) =~= s.skip(1).skip(c1));
        } else {
            assert(s.take(c) =~= Seq::empty().push(s[0]) + s.skip(1).take(c1));
            assert(s.take(c).skip(1) =~= s.skip(1).take(c1));
            assert(quoted_decode(s.take(c)) == Seq::empty().push(s[0]) + quoted_decode(
                s.skip(1).take(c1),
            ));
            assert(acc + quoted_decode(s.take(c)) =~= acc.push(s[0]) + quoted_decode(
                s.skip(1).take(c1),
            ));
            assert(cur + s.take(c) =~= cur.push(s[0]) + s.skip(1).take(c1));
        }
    } else if s.len() == 1 {
        assert(c == 1);
        assert(s.take(1) =~= s);
        assert(quoted_decode(s) == Seq::<char>::empty());
        assert(text =~= acc + quoted_decode(s.take(1)));
        assert(split_rec(s, true, cur, done) == split_rec(s.skip(1), false, cur.push('"'), done));
        assert(s.skip(1).len() == 0);
        assert(split_rec(s.skip(1), false, cur.push('"'), done) == done.push(cur.push('"')));
        assert(cur + s.take(1) =~= cur.push('"'));
    } else if s[1] == '"' {
        lemma_scan_quoted_split(
            s.skip(2),
            acc.push('"'),
            u + 2,
            cur.push('"').push('"'),
            done,
        );
        let c2 = scan_quoted(s.skip(2), acc.push('"'), u + 2)->Done_used - (u + 2);
        assert(c == c2 + 2);
        assert(s.skip(2)[c2 - 1] == s[c - 1]);
        assert(s.skip(1)[0] == s[1]);
        assert(s.skip(1).skip(1) =~= s.skip(2));
        assert(split_rec(s, true, cur, done) == split_rec(s.skip(1), false, cur.push('"'), done));
        assert(split_rec(s.skip(1), false, cur.push('"'), done) == split_rec(
            s.skip(2),
            true,
            cur.push('"').push('"'),
            done,
        ));
        if s[c - 1] == ',' {
            assert(s.take(c - 1) =~= Seq::empty().push('"').push('"') + s.skip(2).take(c2 - 1));
            assert(s.take(c - 1).skip(2) =~= s.skip(2).take(c2 - 1));
            assert(quoted_decode(s.take(c - 1)) == Seq::empty().push('"') + quoted_decode(
                s.skip(2).take(c2 - 1),
            ));
            assert(acc + quoted_decode(s.take(c - 1)) =~= acc.push('"') + quoted_decode(
                s.skip(2).take(c2 - 1),
            ));
            assert(cur + s.take(c - 1) =~= cur.push('"').push('"') + s.skip(2).take(c2 - 1));
            assert(s.skip(c) =~= s.skip(2).skip(c2));
        } else {
            assert(s.take(c) =~= Seq::empty().push('"').push('"') + s.skip(2).take(c2));
            assert(s.take(c).skip(2) =~= s.skip(2).take(c2));
            assert(quoted_decode(s.take(c)) == Seq::empty().push('"') + quoted_decode(
                s.skip(2).take(c2),
            ));
            assert(acc + quoted_decode(s.take(c)) =~= acc.push('"') + quoted_decode(
                s.skip(2).take(c2),
            ));
            assert(cur + s.take(c) =~= cur.push('"').push('"') + s.skip(2).take(c2));
        }
    } else if s[1] == ',' {
        assert(c == 2);
        assert(s[c - 1] == ',');
        assert(s.take(1) =~= seq!['"']);
        assert(quoted_decode(s.take(1)) == Seq::<char>::empty());
        assert(text =~= acc + quoted_decode(s.take(1)));
        assert(s.skip(1)[0] == s[1]);
        assert(s.skip(1).skip(1) =~= s.skip(2));
        assert(split_rec(s, true, cur, done) == split_rec(s.skip(1), false, cur.push('"'), done));
        assert(split_rec(s.skip(1), false, cur.push('"'), done) == split_rec(
            s.skip(2),
            false,
            Seq::empty(),
            done.push(cur.push('"')),
        ));
        assert(cur + s.take(1) =~= cur.push('"'));
    }
}

/// One whole field scan agrees with the toggle split and the segment decode:
/// a successful scan of a field at the front of the nonempty suffix `s`
/// consumes exactly one raw segment, terminated either by a top-level comma
/// or by the end of the line, and its text is the decode of that segment.
proof fn lemma_scan_field_split(
    s: Seq<char>,
    acc: Seq<char>,
    u: nat,
    cur: Seq<char>,
    done: Seq<Seq<char>>,
)
    requires
        s.len() > 0,
        scan_field(s, acc, u) is Done,
    ensures
        ({
            let text = scan_field(s, acc, u)->Done_text;
            let c = scan_field(s, acc, u)->Done_used - u;
            &&& 1 <= c <= s.len()
            &&& s[c - 1] == ',' ==> {
                &&& text == acc + seg_decode(s.take(c - 1))
                &&& split_rec(s, false, cur, done) == split_rec(
                    s.skip(c),
                    false,
                    Seq::empty(),
                    done.push(cur + s.take(c - 1)),
                )
            }
            &&& s[c - 1] != ',' ==> {
                &&& c == s.len()
                &&& text == acc + seg_decode(s.take(c))
                &&& split_rec(s, false, cur, done) == done.push(cur + s.take(c))
            }
        }),
    decreases s.len(),
{
    let text = scan_field(s, acc, u)->Done_text;
    let c = scan_field(s, acc, u)->Done_used - u;
    if s[0] == '"' {
        lemma_scan_quoted_split(s.skip(1), acc, u + 1, cur.push('"'), done);
        let c1 = scan_quoted(s.skip(1), acc, u + 1)->Done_used - (u + 1);
        assert(c == c1 + 1);
        assert(s.skip(1)[c1 - 1] == s[c - 1]);
        assert(split_rec(s, false, cur, done) == split_rec(s.skip(1), true, cur.push('"'), done));
        if s[c - 1] == ',' {
            assert(s.take(c - 1)[0] == '"');
            assert(s.take(c - 1).skip(1) =~= s.skip(1).take(c1 - 1));
            assert(seg_decode(s.take(c - 1)) == quoted_decode(s.skip(1).take(c1 - 1)));
            assert(cur + s.take(c - 1) =~= cur.push('"') + s.skip(1).take(c1 - 1));
            assert(s.skip(c) =~= s.skip(1).skip(c1));
        } else {
            assert(s.take(c)[0] == '"');
            assert(s.take(c).skip(1) =~= s.skip(1).take(c1));
            assert(seg_decode(s.take(c)) == quoted_decode(s.skip(1).take(c1)));
            assert(cur + s.take(c) =~= cur.push('"') + s.skip(1).take(c1));
        }
    } else if s[0] == ',' {
        assert(c == 1);
        assert(s.take(0) =~= Seq::<char>::empty());
        assert(text =~= acc + seg_decode(s.take(0)));
        assert(cur + s.take(0) =~= cur);
        assert(split_rec(s, false, cur, done) == split_rec(
            s.skip(1),
            false,
            Seq::empty(),
            done.push(cur),
        ));
    } else if s.len() == 1 {
        assert(c == 1);
        assert(s.skip(1).len() == 0);
        assert(scan_field(s.skip(1), acc.push(s[0]), u + 1) == (FieldScan::Done {
            text: acc.push(s[0]),
            used: (u + 1) as nat,
        }));
        assert(s.take(1) =~= s);
        assert(seg_decode(s) == Seq::empty().push(s[0]) + seg_decode(s.skip(1)));
        assert(text =~= acc + seg_decode(s.take(1)));
        assert(split_rec(s, false, cur, done) == split_rec(s.skip(1), false, cur.push(s[0]), done));
        assert(split_rec(s.skip(1), false, cur.push(s[0]), done) == done.push(cur.push(s[0])));
        assert(cur + s.take(1) =~= cur.push(s[0]));
    } else {
        lemma_scan_field_split(s.skip(1), acc.push(s[0]), u + 1, cur.push(s[0]), done);
        let c1 = scan_field(s.skip(1), acc.push(s[0]), u + 1)->Done_used - (u + 1);
        assert(c == c1 + 1);
        assert(s.skip(1)[c1 - 1] == s[c - 1]);
        assert(split_rec(s, false, cur, done) == split_rec(s.skip(1), false, cur.push(s[0]), done));
        if s[c - 1] == ',' {
            assert(s.take(c - 1) =~= Seq::empty().push(s[0]) + s.skip(1).take(c1 - 1));
            assert(s.take(c - 1).skip(1) =~= s.skip(1).take(c1 - 1));
            if c1 >= 2 {
                assert(s.take(c - 1)[0] == s[0]);
                assert(seg_decode(s.take(c - 1)) == Seq::empty().push(s[0]) + seg_decode(
                    s.skip(1).take(c1 - 1),
                ));
            } else {
                assert(s.take(c - 1) =~= seq![s[0]]);
                assert(seg_decode(s.take(c - 1)) == Seq::empty().push(s[0]) + seg_decode(
                    s.skip(1).take(c1 - 1),
                ));
            }
            assert(acc + seg_decode(s.take(c - 1)) =~= acc.push(s[0]) + seg_decode(
                s.skip(1).take(c1 - 1),
            ));
            assert(cur + s.take(c - 1) =~= cur.push(s[0]) + s.skip(1).take(c1 - 1));
            assert(s.skip(c) =~= s.skip(1).skip(c1));
        } else {
            assert(s.take(c) =~= Seq::empty().push(s[0]) + s.skip(1).take(c1));
            assert(s.take(c).skip(1) =~= s.skip(1).take(c1));
            assert(s.take(c)[0] == s[0]);
            assert(seg_decode(s.take(c)) == Seq::empty().push(s[0]) + seg_decode(
                s.skip(1).take(c1),
            ));
            assert(acc + seg_decode(s.take(c)) =~= acc.push(s[0]) + seg_decode(s.skip(1).take(c1)));
            assert(cur + s.take(c) =~= cur.push(s[0]) + s.skip(1).take(c1));
        }
    }
}

/// The parse loop from `start` on agrees with the toggle split of the rest
/// of the line, segment by segment, on every accepted line whose last
/// character is not a comma.
proof fn lemma_parse_split(line: Seq<char>, start: int, done: Seq<Seq<char>>)
    requires
        0 <= start < line.len(),
        parse_from(line, start) is Fields,
        line[line.len() - 1] != ',',
    ensures
        decode_all(split_rec(line.skip(start), false, Seq::empty(), done)) == decode_all(done)
            + parse_from(line, start)->Fields_fields,
    decreases line.len() - start,
{
    let s = line.skip(start);
    let scan = scan_field(s, Seq::empty(), 0);
    lemma_scan_field_used(s, Seq::empty(), 0);
    let text = scan->Done_text;
    let c = scan->Done_used as int;
    lemma_scan_field_split(s, Seq::empty(), 0, Seq::empty(), done);
    assert(s[c - 1] == line[start + c - 1]);
    if s[c - 1] == ',' {
        let raw = s.take(c - 1);
        assert(start + c < line.len()) by {
            if start + c == line.len() {
                assert(line[line.len() - 1] == ',');
            }
        }
        assert(Seq::empty() + raw =~= raw);
        assert(s.skip(c) =~= line.skip(start + c));
        lemma_parse_split(line, start + c, done.push(raw));
        let tail = parse_from(line, start + c)->Fields_fields;
        assert(decode_all(done.push(raw)) =~= decode_all(done).push(seg_decode(raw)));
        assert(text =~= Seq::empty() + seg_decode(raw));
        assert(parse_from(line, start)->Fields_fields == Seq::empty().push(text) + tail);
        assert(decode_all(done).push(seg_decode(raw)) + tail =~= decode_all(done) + (
        Seq::empty().push(text) + tail));
    } else {
        assert(start + c == line.len());
        assert(line.skip(line.len() as int).len() == 0);
        assert(parse_from(line, start + c) == (LineScan::Fields { fields: Seq::empty() }));
        assert(parse_from(line, start)->Fields_fields =~= Seq::empty().push(text));
        let raw = s.take(c);
        assert(Seq::empty() + raw =~= raw);
        assert(text =~= Seq::empty() + seg_decode(raw));
        assert(decode_all(done.push(raw)) =~= decode_all(done).push(seg_decode(raw)));
        assert(decode_all(done).push(text) =~= decode_all(done) + Seq::empty().push(text));
    }
}

/// Splitting at top-level commas agrees with the parser: on every line the
/// parser accepts whose last character is not an unquoted comma, decoding
/// the raw segments between the commas that lie outside quotes yields
/// exactly the parser's field sequence.
///
/// A line that ends in an unquoted comma is the one shape this does not
/// cover: the split yields a final empty segment there, while the parse
/// loop stops as soon as an extraction consumes nothing.
pub proof fn lemma_top_split_agrees(line: Seq<char>)
    requires
        parse_spec(line) is Fields,
        line.len() > 0 ==> line[line.len() - 1] != ',',
    ensures
        decode_all(top_split(line)) == parse_spec(line)->Fields_fields,
{
    if line.len() == 0 {
        assert(line.skip(0).len() == 0);
        assert(parse_spec(line) == (LineScan::Fields { fields: Seq::empty() }));
        assert(decode_all(top_split(line)) =~= Seq::<Seq<char>>::empty());
    } else {
        lemma_parse_split(line, 0, Seq::empty());
        assert(line.skip(0) =~= line);
        assert(decode_all(Seq::empty()) =~= Seq::<Seq<char>>::empty());
        assert(decode_all(Seq::empty()) + parse_from(line, 0)->Fields_fields =~= parse_from(
            line,
            0,
        )->Fields_fields);
    }
}

/// Re-parsing the same line yields the same result: any two results that
/// `parse_line` may return for one line agree, field for field, or report
/// the same error.
pub proof fn lemma_reparse_deterministic(
    n: nat,
    line: Seq<char>,
    r1: Result<Vec<String>, LineError>,
    r2: Result<Vec<String>, LineError>,
)
    requires
        parse_result_matches(r1, n, line),
        parse_result_matches(r2, n, line),
    ensures
        r1 is Ok <==> r2 is Ok,
        r1 is Ok ==> r1->Ok_0.deep_view() == r2->Ok_0.deep_view(),
        r1 is Err ==> r1->Err_0 == r2->Err_0,
{
}

} // verus!

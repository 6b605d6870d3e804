//! The record normalizer: turns the raw ranking text into one comma-delimited
//! document. The first input line becomes the header row (whitespace-split,
//! no repair); every further line is tokenized, its name repaired, and the
//! fields joined with commas; rows are joined by the two-character line
//! terminator.

use crate::repair::repair_chars;
use crate::repair::repair_str;
use crate::rows::join_crlf;
use crate::rows::join_crlf_vec;
use crate::rows::join_vec;
use crate::rows::join_with;
use crate::rows::lines_of;
use crate::rows::lines_vec;
use crate::rows::split_ws;
use crate::rows::split_ws_vec;
use crate::rows::views_of;
use crate::text::chars_string;
use crate::text::str_chars;
use crate::tokenize::line_ok;
use crate::tokenize::name_of_line;
use crate::tokenize::tokenize_line;
use crate::tokenize::tokens_of_line;
use vstd::prelude::*;

verus! {

/// Why a conversion of raw ranking text was rejected.
#[derive(Clone, Copy, Debug, PartialEq, Eq, Structural)]
pub enum ParseError {
    /// The input held no lines at all, so no header could be taken.
    MissingHeader,
    /// A data line held no separator run of the required width.
    MalformedLine,
}

/// The header row: the first line's whitespace tokens joined with commas.
pub open spec fn header_row(line: Seq<char>) -> Seq<char> {
    join_with(split_ws(line), ',')
}

/// The data row of one well-formed line: the repaired name and the trailing
/// tokens, joined with commas.
pub open spec fn row_of_line(line: Seq<char>, w: nat) -> Seq<char>
    recommends
        line_ok(line, w),
{
    join_with(seq![repair_str(name_of_line(line, w))] + tokens_of_line(line, w), ',')
}

/// All rows of the document: the header row, then one row per data line.
pub open spec fn normalize_rows(ls: Seq<Seq<char>>, w: nat) -> Seq<Seq<char>>
    recommends
        ls.len() >= 1,
{
    seq![header_row(ls[0])] + Seq::new((ls.len() - 1) as nat, |i: int| row_of_line(ls[i + 1], w))
}

/// The normalized document of a raw ranking text, or the reason it was
/// rejected: no line at all, or some data line without a separator run.
pub open spec fn normalize_spec(text: Seq<char>, w: nat) -> Result<Seq<char>, ParseError> {
    let ls = lines_of(text);
    if ls.len() == 0 {
        Err(ParseError::MissingHeader)
    } else if !(forall|i: int| 1 <= i < ls.len() ==> line_ok(#[trigger] ls[i], w)) {
        Err(ParseError::MalformedLine)
    } else {
        Ok(join_crlf(normalize_rows(ls, w)))
    }
}

/// Normalizes raw ranking text into the delimited document, splitting each
/// data line at the first run of `w` spaces.
pub fn normalize(text: &str, w: usize) -> (r: Result<String, ParseError>)
    ensures
        match r {
            Ok(s) => normalize_spec(text@, w as nat) == Ok::<Seq<char>, ParseError>(s@),
            Err(e) => normalize_spec(text@, w as nat) == Err::<Seq<char>, ParseError>(e),
        },
{
    let chars = str_chars(text);
    let ls = lines_vec(&chars);
    if ls.len() == 0 {
        return Err(ParseError::MissingHeader);
    }
    let ghost lsv = lines_of(text@);
    proof {
        assert(lsv == views_of(ls@));
        assert(lsv[0] == ls@[0]@);
    }
    let header_fields = split_ws_vec(&ls[0]);
    let header = join_vec(&header_fields, ',');
    proof {
        assert(header@ == header_row(lsv[0]));
    }
    let mut rows: Vec<Vec<char>> = Vec::new();
    rows.push(header);
    let mut i: usize = 1;
    proof {
        assert(views_of(rows@) =~~= seq![header_row(lsv[0])]);
    }
    while i < ls.len()
        invariant
            1 <= i <= ls.len(),
            lsv == lines_of(text@),
            lsv.len() >= 1,
            lsv == views_of(ls@),
            lsv.len() == ls@.len(),
            forall|t: int| 1 <= t < i ==> line_ok(#[trigger] lsv[t], w as nat),
            views_of(rows@) == seq![header_row(lsv[0])] + Seq::new(
                (i - 1) as nat,
                |t: int| row_of_line(lsv[t + 1], w as nat),
            ),
        decreases ls.len() - i,
    {
        let ghost rows_prev = rows@;
        match tokenize_line(&ls[i], w) {
            None => {
                proof {
                    assert(!line_ok(lsv[i as int], w as nat));
                }
                return Err(ParseError::MalformedLine);
            },
            Some((name, toks)) => {
                let repaired = repair_chars(&name);
                let mut fields: Vec<Vec<char>> = Vec::new();
                fields.push(repaired);
                let mut t: usize = 0;
                proof {
                    assert(views_of(fields@) =~~= seq![
                        repair_str(name_of_line(lsv[i as int], w as nat)),
                    ]);
                }
                while t < toks.len()
                    invariant
                        t <= toks.len(),
                        views_of(toks@) == tokens_of_line(lsv[i as int], w as nat),
                        views_of(fields@) == seq![
                            repair_str(name_of_line(lsv[i as int], w as nat)),
                        ] + views_of(toks@).take(t as int),
                    decreases toks.len() - t,
                {
                    let ghost fields_prev = fields@;
                    let piece = crate::rows::copy_range(&toks[t], 0, toks[t].len());
                    proof {
                        assert(piece@ =~= toks@[t as int]@);
                    }
                    fields.push(piece);
                    t += 1;
                    proof {
                        assert(views_of(fields@) =~~= views_of(fields_prev).push(
                            toks@[t - 1]@,
                        ));
                        assert(views_of(fields@) =~~= seq![
                            repair_str(name_of_line(lsv[i as int], w as nat)),
                        ] + views_of(toks@).take(t as int));
                    }
                }
                proof {
                    assert(views_of(toks@).take(toks@.len() as int) =~~= views_of(toks@));
                }
                let row = join_vec(&fields, ',');
                proof {
                    assert(row@ == row_of_line(lsv[i as int], w as nat));
                }
                rows.push(row);
                i += 1;
                proof {
                    assert(views_of(rows@) =~~= views_of(rows_prev).push(row@));
                    assert(views_of(rows@) =~~= seq![header_row(lsv[0])] + Seq::new(
                        (i - 1) as nat,
                        |t: int| row_of_line(lsv[t + 1], w as nat),
                    ));
                }
            },
        }
    }
    let doc = join_crlf_vec(&rows);
    proof {
        assert(normalize_rows(lsv, w as nat) =~~= views_of(rows@));
    }
    Ok(chars_string(&doc))
}

} // verus!

//! The tabular store: loads the comma-delimited document back into typed
//! players, mapping columns by header name, and proves the round trip from
//! raw text through normalization and loading.

use crate::normalize::header_row;
use crate::normalize::normalize_rows;
use crate::normalize::normalize_spec;
use crate::normalize::row_of_line;
use crate::numbers::all_digits;
use crate::numbers::is_digit;
use crate::numbers::parse_i16;
use crate::numbers::parse_i16_spec;
use crate::records::Player;
use crate::repair::repair_str;
use crate::rows::join_crlf;
use crate::rows::join_with;
use crate::rows::lines_of;
use crate::rows::lines_vec;
use crate::rows::split_at;
use crate::rows::split_vec;
use crate::rows::views_of;
use crate::rows::lemma_split_join;
use crate::rows::lemma_lines_join_crlf;
use crate::text::chars_eq_str;
use crate::text::chars_string;
use crate::text::str_chars;
use crate::tokenize::line_ok;
use crate::tokenize::name_of_line;
use crate::tokenize::tokens_of_line;
use vstd::prelude::*;

verus! {

/// Why a load of the delimited table was rejected; any of these aborts the
/// whole load with no partial result.
#[derive(Clone, Copy, Debug, PartialEq, Eq, Structural)]
pub enum LoadError {
    /// A required column name is absent from the header row.
    MissingColumn,
    /// A data row's field count differs from the header's.
    RowWidth,
    /// A points or position field is not a signed 16-bit numeral.
    BadNumber,
}

/// The first header field equal to `a` or to `b`, or a negative value.
pub open spec fn find_col(hs: Seq<Seq<char>>, a: Seq<char>, b: Seq<char>) -> int
    decreases hs.len(),
{
    if hs.len() == 0 {
        -1
    } else if hs[0] == a || hs[0] == b {
        0
    } else {
        let r = find_col(hs.drop_first(), a, b);
        if r < 0 {
            -1
        } else {
            r + 1
        }
    }
}

/// A matching field at `k`, with none earlier, is what `find_col` finds.
pub proof fn lemma_find_col_found(hs: Seq<Seq<char>>, a: Seq<char>, b: Seq<char>, k: int)
    requires
        0 <= k < hs.len(),
        hs[k] == a || hs[k] == b,
        forall|p: int| 0 <= p < k ==> hs[p] != a && hs[p] != b,
    ensures
        find_col(hs, a, b) == k,
    decreases k,
{
    if k > 0 {
        let d = hs.drop_first();
        assert(d[k - 1] == hs[k]);
        assert(forall|p: int| 0 <= p < k - 1 ==> d[p] == hs[p + 1] && hs[p + 1] != a && hs[p + 1]
            != b);
        lemma_find_col_found(d, a, b, k - 1);
    }
}

/// With no matching field anywhere, `find_col` reports none.
pub proof fn lemma_find_col_none(hs: Seq<Seq<char>>, a: Seq<char>, b: Seq<char>)
    requires
        forall|p: int| 0 <= p < hs.len() ==> hs[p] != a && hs[p] != b,
    ensures
        find_col(hs, a, b) < 0,
    decreases hs.len(),
{
    if hs.len() > 0 {
        let d = hs.drop_first();
        assert(forall|p: int| 0 <= p < d.len() ==> d[p] == hs[p + 1] && hs[p + 1] != a && hs[p
            + 1] != b);
        lemma_find_col_none(d, a, b);
    }
}

/// Finds the first header field equal to `a` or to `b`.
pub fn find_col_vec(hs: &Vec<Vec<char>>, a: &str, b: &str) -> (r: Option<usize>)
    ensures
        match r {
            Some(k) => find_col(views_of(hs@), a@, b@) == k && k < hs@.len(),
            None => find_col(views_of(hs@), a@, b@) < 0,
        },
{
    let mut i: usize = 0;
    while i < hs.len()
        invariant
            i <= hs.len(),
            forall|p: int|
                0 <= p < i ==> views_of(hs@)[p] != a@ && (#[trigger] views_of(hs@)[p]) != b@,
        decreases hs.len() - i,
    {
        if chars_eq_str(&hs[i], a) || chars_eq_str(&hs[i], b) {
            proof {
                lemma_find_col_found(views_of(hs@), a@, b@, i as int);
            }
            return Some(i);
        }
        i += 1;
    }
    proof {
        lemma_find_col_none(views_of(hs@), a@, b@);
    }
    None
}

/// The typed fields of the data rows, scanned top to bottom; the first bad
/// row decides the error.
pub open spec fn parse_rows(
    rows: Seq<Seq<char>>,
    width: int,
    nc: int,
    cc: int,
    pc: int,
    qc: int,
) -> Result<Seq<(Seq<char>, Seq<char>, i16, i16)>, LoadError>
    decreases rows.len(),
{
    if rows.len() == 0 {
        Ok(Seq::<(Seq<char>, Seq<char>, i16, i16)>::empty())
    } else {
        match parse_rows(rows.drop_last(), width, nc, cc, pc, qc) {
            Err(e) => Err(e),
            Ok(ps) => {
                let fs = split_at(rows.last(), ',');
                if fs.len() != width {
                    Err(LoadError::RowWidth)
                } else if parse_i16_spec(fs[pc]) is None || parse_i16_spec(fs[qc]) is None {
                    Err(LoadError::BadNumber)
                } else {
                    Ok(
                        ps.push(
                            (
                                fs[nc],
                                fs[cc],
                                parse_i16_spec(fs[pc]).unwrap(),
                                parse_i16_spec(fs[qc]).unwrap(),
                            ),
                        ),
                    )
                }
            },
        }
    }
}

/// The typed fields of the whole document: column indices resolved by header
/// name (`Name` or its alias `Title`, `Countries`, `Points`, `Position`),
/// then every data row parsed; a document without data rows loads as empty.
pub open spec fn table_tuples(text: Seq<char>) -> Result<
    Seq<(Seq<char>, Seq<char>, i16, i16)>,
    LoadError,
> {
    let ls = lines_of(text);
    if ls.len() <= 1 {
        Ok(Seq::<(Seq<char>, Seq<char>, i16, i16)>::empty())
    } else {
        let hs = split_at(ls[0], ',');
        let nc = find_col(hs, "Name"@, "Title"@);
        let cc = find_col(hs, "Countries"@, "Countries"@);
        let pc = find_col(hs, "Points"@, "Points"@);
        let qc = find_col(hs, "Position"@, "Position"@);
        if nc < 0 || cc < 0 || pc < 0 || qc < 0 {
            Err(LoadError::MissingColumn)
        } else {
            parse_rows(ls.drop_first(), hs.len() as int, nc, cc, pc, qc)
        }
    }
}

/// The plain fields of a sequence of players.
pub open spec fn player_tuples(ps: Seq<Player>) -> Seq<(Seq<char>, Seq<char>, i16, i16)> {
    ps.map_values(|p: Player| (p.name@, p.country@, p.points, p.position))
}

/// A prefix of good rows followed by a bad row decides the whole parse.
proof fn lemma_parse_rows_err(
    rows: Seq<Seq<char>>,
    width: int,
    nc: int,
    cc: int,
    pc: int,
    qc: int,
    k: int,
    e: LoadError,
)
    requires
        0 <= k < rows.len(),
        parse_rows(rows.take(k), width, nc, cc, pc, qc) is Ok,
        ({
            let fs = split_at(rows[k], ',');
            if fs.len() != width {
                e == LoadError::RowWidth
            } else {
                (parse_i16_spec(fs[pc]) is None || parse_i16_spec(fs[qc]) is None) && e
                    == LoadError::BadNumber
            }
        }),
    ensures
        parse_rows(rows, width, nc, cc, pc, qc) == Err::<
            Seq<(Seq<char>, Seq<char>, i16, i16)>,
            LoadError,
        >(e),
    decreases rows.len(),
{
    if k == rows.len() - 1 {
        assert(rows.drop_last() =~~= rows.take(k));
        assert(rows.last() == rows[k]);
    } else {
        let d = rows.drop_last();
        assert(d.take(k) =~~= rows.take(k));
        assert(d[k] == rows[k]);
        lemma_parse_rows_err(d, width, nc, cc, pc, qc, k, e);
    }
}

/// Parses the delimited document into typed players: header columns resolved
/// by name, every row converted, the whole load aborted by the first bad row.
pub fn parse_table(text: &str) -> (r: Result<Vec<Player>, LoadError>)
    ensures
        match r {
            Ok(ps) => {
                &&& table_tuples(text@) == Ok::<Seq<(Seq<char>, Seq<char>, i16, i16)>, LoadError>(
                    player_tuples(ps@),
                )
                &&& forall|i: int|
                    0 <= i < ps@.len() ==> (#[trigger] ps@[i]).rank_history.0@.len() == 0
                        && ps@[i].points_change.0 is None && ps@[i].position_change.0 is None
            },
            Err(e) => table_tuples(text@) == Err::<Seq<(Seq<char>, Seq<char>, i16, i16)>, LoadError>(
                e,
            ),
        },
{
    let chars = str_chars(text);
    let ls = lines_vec(&chars);
    let ghost lsv = lines_of(text@);
    proof {
        assert(lsv == views_of(ls@));
    }
    if ls.len() <= 1 {
        let ps: Vec<Player> = Vec::new();
        proof {
            assert(player_tuples(ps@) =~~= Seq::<(Seq<char>, Seq<char>, i16, i16)>::empty());
        }
        return Ok(ps);
    }
    let hs = split_vec(&ls[0], ',');
    let ghost hsv = split_at(lsv[0], ',');
    proof {
        assert(hsv == views_of(hs@));
    }
    let nc = match find_col_vec(&hs, "Name", "Title") {
        Some(k) => k,
        None => {
            return Err(LoadError::MissingColumn);
        },
    };
    let cc = match find_col_vec(&hs, "Countries", "Countries") {
        Some(k) => k,
        None => {
            return Err(LoadError::MissingColumn);
        },
    };
    let pc = match find_col_vec(&hs, "Points", "Points") {
        Some(k) => k,
        None => {
            return Err(LoadError::MissingColumn);
        },
    };
    let qc = match find_col_vec(&hs, "Position", "Position") {
        Some(k) => k,
        None => {
            return Err(LoadError::MissingColumn);
        },
    };
    let width = hs.len();
    let ghost dls = lsv.drop_first();
    let mut ps: Vec<Player> = Vec::new();
    let mut i: usize = 1;
    proof {
        assert(dls.take(0) =~~= Seq::<Seq<char>>::empty());
        assert(player_tuples(ps@) =~~= Seq::<(Seq<char>, Seq<char>, i16, i16)>::empty());
    }
    while i < ls.len()
        invariant
            1 <= i <= ls.len(),
            lsv == lines_of(text@),
            lsv == views_of(ls@),
            lsv.len() == ls@.len(),
            lsv.len() > 1,
            dls == lsv.drop_first(),
            hsv == split_at(lsv[0], ','),
            width == hsv.len(),
            nc == find_col(hsv, "Name"@, "Title"@),
            cc == find_col(hsv, "Countries"@, "Countries"@),
            pc == find_col(hsv, "Points"@, "Points"@),
            qc == find_col(hsv, "Position"@, "Position"@),
            nc < width && cc < width && pc < width && qc < width,
            parse_rows(dls.take(i - 1), width as int, nc as int, cc as int, pc as int, qc as int)
                == Ok::<Seq<(Seq<char>, Seq<char>, i16, i16)>, LoadError>(player_tuples(ps@)),
            forall|t: int|
                0 <= t < ps@.len() ==> (#[trigger] ps@[t]).rank_history.0@.len() == 0
                    && ps@[t].points_change.0 is None && ps@[t].position_change.0 is None,
        decreases ls.len() - i,
    {
        let fs = split_vec(&ls[i], ',');
        let ghost fsv = split_at(dls[i - 1], ',');
        proof {
            assert(dls[i - 1] == lsv[i as int]);
            assert(fsv == views_of(fs@));
        }
        if fs.len() != width {
            proof {
                lemma_parse_rows_err(
                    dls,
                    width as int,
                    nc as int,
                    cc as int,
                    pc as int,
                    qc as int,
                    i - 1,
                    LoadError::RowWidth,
                );
            }
            return Err(LoadError::RowWidth);
        }
        let points = match parse_i16(&fs[pc]) {
            Some(p) => p,
            None => {
                proof {
                    lemma_parse_rows_err(
                        dls,
                        width as int,
                        nc as int,
                        cc as int,
                        pc as int,
                        qc as int,
                        i - 1,
                        LoadError::BadNumber,
                    );
                }
                return Err(LoadError::BadNumber);
            },
        };
        let position = match parse_i16(&fs[qc]) {
            Some(p) => p,
            None => {
                proof {
                    lemma_parse_rows_err(
                        dls,
                        width as int,
                        nc as int,
                        cc as int,
                        pc as int,
                        qc as int,
                        i - 1,
                        LoadError::BadNumber,
                    );
                }
                return Err(LoadError::BadNumber);
            },
        };
        let name = chars_string(&fs[nc]);
        let country = chars_string(&fs[cc]);
        let player = Player::new(name, country, points, position);
        let ghost ps_prev = ps@;
        ps.push(player);
        i += 1;
        proof {
            assert(dls.take(i - 1) =~~= dls.take(i - 2).push(dls[i - 2]));
            assert(dls.take(i - 1).drop_last() =~~= dls.take(i - 2));
            assert(dls.take(i - 1).last() == dls[i - 2]);
            assert(player_tuples(ps@) =~~= player_tuples(ps_prev).push(
                (fsv[nc as int], fsv[cc as int], points, position),
            ));
        }
    }
    proof {
        assert(dls.take(lsv.len() - 1) =~~= dls);
    }
    Ok(ps)
}

/// Fields that survive the comma/line discipline of the store: no comma and
/// no line-terminator character.
pub open spec fn csv_clean(s: Seq<char>) -> bool {
    forall|j: int|
        0 <= j < s.len() ==> (#[trigger] s[j]) != ',' && s[j] != '\r' && s[j] != '\n'
}

/// A signed 16-bit numeral holds only signs and digits, so it is clean.
pub proof fn lemma_numeral_clean(s: Seq<char>)
    requires
        parse_i16_spec(s) is Some,
    ensures
        csv_clean(s),
{
    let signed = s.len() > 0 && (s[0] == '-' || s[0] == '+');
    let body = if signed {
        s.drop_first()
    } else {
        s
    };
    assert(all_digits(body));
    assert forall|j: int| 0 <= j < s.len() implies (#[trigger] s[j]) != ',' && s[j] != '\r'
        && s[j] != '\n' by {
        if signed && j == 0 {
        } else {
            if signed {
                assert(s[j] == body[j - 1]);
                assert(is_digit(body[j - 1]));
            } else {
                assert(is_digit(body[j]));
            }
        }
    }
}

/// Characters or separators of a comma join: every character of the join is
/// a comma or comes from one of the fields.
pub proof fn lemma_join_with_chars(parts: Seq<Seq<char>>, c: char, x: char)
    requires
        forall|i: int, j: int|
            0 <= i < parts.len() && 0 <= j < parts[i].len() ==> (#[trigger] parts[i][j]) != x,
        c != x,
    ensures
        forall|j: int| 0 <= j < join_with(parts, c).len() ==> (#[trigger] join_with(parts, c)[j])
            != x,
    decreases parts.len(),
{
    if parts.len() <= 1 {
    } else {
        assert(forall|i: int, j: int|
            0 <= i < parts.drop_first().len() && 0 <= j < parts.drop_first()[i].len()
                ==> (#[trigger] parts.drop_first()[i][j]) != x);
        lemma_join_with_chars(parts.drop_first(), c, x);
        let s = join_with(parts, c);
        let p0 = parts[0];
        let rest = join_with(parts.drop_first(), c);
        assert forall|j: int| 0 <= j < s.len() implies (#[trigger] s[j]) != x by {
            if j < p0.len() {
                assert(s[j] == p0[j]);
            } else if j == p0.len() {
                assert(s[j] == c);
            } else {
                assert(s[j] == rest[j - p0.len() - 1]);
            }
        }
    }
}

/// A comma join of `n` fields has at least `n - 1` characters.
pub proof fn lemma_join_with_len(parts: Seq<Seq<char>>, c: char)
    ensures
        join_with(parts, c).len() >= parts.len() - 1,
    decreases parts.len(),
{
    if parts.len() > 1 {
        lemma_join_with_len(parts.drop_first(), c);
    }
}

/// A data line fit for the round trip: well formed, exactly three trailing
/// tokens, a repaired name and country free of commas and line terminators,
/// and numeric points and position fields.
pub open spec fn line_round_trippable(line: Seq<char>, w: nat) -> bool {
    &&& line_ok(line, w)
    &&& tokens_of_line(line, w).len() == 3
    &&& csv_clean(repair_str(name_of_line(line, w)))
    &&& csv_clean(tokens_of_line(line, w)[0])
    &&& parse_i16_spec(tokens_of_line(line, w)[1]) is Some
    &&& parse_i16_spec(tokens_of_line(line, w)[2]) is Some
}

/// The tuple a round-trippable line contributes to the loaded table.
pub open spec fn tuple_of_line(line: Seq<char>, w: nat) -> (Seq<char>, Seq<char>, i16, i16) {
    (
        repair_str(name_of_line(line, w)),
        tokens_of_line(line, w)[0],
        parse_i16_spec(tokens_of_line(line, w)[1]).unwrap(),
        parse_i16_spec(tokens_of_line(line, w)[2]).unwrap(),
    )
}

/// Round trip: for raw text whose header is exactly the canonical four
/// column names and whose every data line is fit for the round trip, loading
/// the normalized document yields exactly each line's repaired name,
/// country, points and position. Persisting the document writes it verbatim,
/// so the load sees the same text the normalizer produced.
pub proof fn lemma_round_trip(text: Seq<char>, w: nat)
    requires
        lines_of(text).len() >= 1,
        split_ws_header(lines_of(text)[0]),
        forall|i: int|
            1 <= i < lines_of(text).len() ==> line_round_trippable(
                #[trigger] lines_of(text)[i],
                w,
            ),
    ensures
        normalize_spec(text, w) is Ok,
        table_tuples(normalize_spec(text, w).unwrap()) == Ok::<
            Seq<(Seq<char>, Seq<char>, i16, i16)>,
            LoadError,
        >(
            Seq::new(
                (lines_of(text).len() - 1) as nat,
                |i: int| tuple_of_line(lines_of(text)[i + 1], w),
            ),
        ),
{
    let ls = lines_of(text);
    let n = ls.len();
    reveal_strlit("Name");
    reveal_strlit("Title");
    reveal_strlit("Countries");
    reveal_strlit("Points");
    reveal_strlit("Position");
    assert(normalize_spec(text, w) is Ok);
    let rows = normalize_rows(ls, w);
    let doc = join_crlf(rows);
    assert(normalize_spec(text, w).unwrap() == doc);
    let hparts = seq!["Name"@, "Countries"@, "Points"@, "Position"@];
    assert(rows[0] == header_row(ls[0]));
    assert(header_row(ls[0]) == join_with(hparts, ','));

    // every row is nonempty and free of line terminators
    assert forall|i: int| 0 <= i < rows.len() implies (#[trigger] rows[i]).len() > 0 && forall|
        j: int,
    |
        0 <= j < rows[i].len() ==> rows[i][j] != '\n' && rows[i][j] != '\r' by {
        let parts = if i == 0 {
            hparts
        } else {
            seq![repair_str(name_of_line(ls[i], w))] + tokens_of_line(ls[i], w)
        };
        assert(rows[i] == join_with(parts, ','));
        assert(parts.len() == 4);
        if i > 0 {
            lemma_numeral_clean(tokens_of_line(ls[i], w)[1]);
            lemma_numeral_clean(tokens_of_line(ls[i], w)[2]);
        }
        assert forall|a: int, b: int|
            0 <= a < parts.len() && 0 <= b < parts[a].len() implies (#[trigger] parts[a][b])
            != '\n' by {}
        assert forall|a: int, b: int|
            0 <= a < parts.len() && 0 <= b < parts[a].len() implies (#[trigger] parts[a][b])
            != '\r' by {}
        lemma_join_with_chars(parts, ',', '\n');
        lemma_join_with_chars(parts, ',', '\r');
        lemma_join_with_len(parts, ',');
    }
    lemma_lines_join_crlf(rows);
    assert(lines_of(doc) == rows);
    assert(rows.len() == n);

    if n == 1 {
        assert(lines_of(doc).len() <= 1);
        assert(Seq::new((n - 1) as nat, |i: int| tuple_of_line(ls[i + 1], w)) =~= Seq::<
            (Seq<char>, Seq<char>, i16, i16),
        >::empty());
    } else {
        // header columns resolve to positions 0..3
        assert forall|a: int, b: int|
            0 <= a < hparts.len() && 0 <= b < hparts[a].len() implies (#[trigger] hparts[a][b])
            != ',' by {}
        lemma_split_join(hparts, ',');
        let hs = split_at(rows[0], ',');
        assert(hs == hparts);
        assert(hs[0] == "Name"@);
        assert("Name"@.len() == 4 && "Title"@.len() == 5 && "Countries"@.len() == 9 && "Points"@
            .len() == 6 && "Position"@.len() == 8);
        lemma_find_col_found(hs, "Name"@, "Title"@, 0);
        lemma_find_col_found(hs, "Countries"@, "Countries"@, 1);
        lemma_find_col_found(hs, "Points"@, "Points"@, 2);
        lemma_find_col_found(hs, "Position"@, "Position"@, 3);
        let drows = rows.drop_first();
        assert forall|i: int| 0 <= i < drows.len() implies #[trigger] split_at(drows[i], ',')
            == seq![repair_str(name_of_line(ls[i + 1], w))] + tokens_of_line(ls[i + 1], w) by {
            let parts = seq![repair_str(name_of_line(ls[i + 1], w))] + tokens_of_line(
                ls[i + 1],
                w,
            );
            lemma_numeral_clean(tokens_of_line(ls[i + 1], w)[1]);
            lemma_numeral_clean(tokens_of_line(ls[i + 1], w)[2]);
            assert forall|a: int, b: int|
                0 <= a < parts.len() && 0 <= b < parts[a].len() implies (#[trigger] parts[a][b])
                != ',' by {}
            assert(drows[i] == rows[i + 1]);
            assert(rows[i + 1] == row_of_line(ls[i + 1], w));
            lemma_split_join(parts, ',');
        }
        lemma_parse_rows_all_ok(drows, ls, w, drows.len() as int);
        assert(drows.take(drows.len() as int) =~~= drows);
        assert(table_tuples(doc) == parse_rows(drows, 4, 0, 1, 2, 3));
        assert(Seq::new((n - 1) as nat, |i: int| tuple_of_line(ls[i + 1], w)) =~= Seq::new(
            drows.len(),
            |i: int| tuple_of_line(ls[i + 1], w),
        ));
    }
}

/// The header is exactly the four canonical column names, in order.
pub open spec fn split_ws_header(line: Seq<char>) -> bool {
    crate::rows::split_ws(line) == seq!["Name"@, "Countries"@, "Points"@, "Position"@]
}

/// Rows that each split into a name and three good tokens parse, prefix by
/// prefix, to their tuples.
proof fn lemma_parse_rows_all_ok(drows: Seq<Seq<char>>, ls: Seq<Seq<char>>, w: nat, m: int)
    requires
        0 <= m <= drows.len(),
        drows.len() == ls.len() - 1,
        forall|i: int| 1 <= i < ls.len() ==> line_round_trippable(#[trigger] ls[i], w),
        forall|i: int|
            0 <= i < drows.len() ==> #[trigger] split_at(drows[i], ',') == seq![
                repair_str(name_of_line(ls[i + 1], w)),
            ] + tokens_of_line(ls[i + 1], w),
    ensures
        parse_rows(drows.take(m), 4, 0, 1, 2, 3) == Ok::<
            Seq<(Seq<char>, Seq<char>, i16, i16)>,
            LoadError,
        >(Seq::new(m as nat, |i: int| tuple_of_line(ls[i + 1], w))),
    decreases m,
{
    if m == 0 {
        assert(drows.take(0) =~~= Seq::<Seq<char>>::empty());
        assert(Seq::new(0, |i: int| tuple_of_line(ls[i + 1], w)) =~= Seq::<
            (Seq<char>, Seq<char>, i16, i16),
        >::empty());
    } else {
        lemma_parse_rows_all_ok(drows, ls, w, m - 1);
        assert(drows.take(m).drop_last() =~~= drows.take(m - 1));
        assert(drows.take(m).last() == drows[m - 1]);
        let fs = split_at(drows[m - 1], ',');
        assert(fs == seq![repair_str(name_of_line(ls[m], w))] + tokens_of_line(ls[m], w));
        assert(line_round_trippable(ls[m as int], w));
        assert(fs.len() == 4);
        assert(fs[0] == repair_str(name_of_line(ls[m], w)));
        assert(fs[1] == tokens_of_line(ls[m], w)[0]);
        assert(fs[2] == tokens_of_line(ls[m], w)[1]);
        assert(fs[3] == tokens_of_line(ls[m], w)[2]);
        assert(Seq::new(m as nat, |i: int| tuple_of_line(ls[i + 1], w)) =~= Seq::new(
            (m - 1) as nat,
            |i: int| tuple_of_line(ls[i + 1], w),
        ).push(tuple_of_line(ls[m as int], w)));
    }
}

} // verus!

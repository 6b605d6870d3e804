//! Splitting and joining of character sequences: separator-delimited fields,
//! whitespace tokenization, and the line discipline of the delimited table
//! (rows joined by a carriage-return/line-feed pair).

use vstd::prelude::*;

verus! {

/// The views of a sequence of character vectors.
pub open spec fn views_of(vs: Seq<Vec<char>>) -> Seq<Seq<char>> {
    vs.map_values(|v: Vec<char>| v@)
}

/// Appends every character of `piece` to `out`.
pub fn push_all(out: &mut Vec<char>, piece: &Vec<char>)
    ensures
        final(out)@ == old(out)@ + piece@,
{
    let mut j: usize = 0;
    while j < piece.len()
        invariant
            j <= piece.len(),
            out@ == old(out)@ + piece@.take(j as int),
        decreases piece.len() - j,
    {
        out.push(piece[j]);
        j += 1;
        proof {
            assert(piece@.take(j as int) =~= piece@.take(j - 1).push(piece@[j - 1]));
            assert(old(out)@ + piece@.take(j - 1).push(piece@[j - 1]) =~= (old(out)@
                + piece@.take(j - 1)).push(piece@[j - 1]));
        }
    }
    proof {
        assert(piece@.take(piece.len() as int) =~= piece@);
    }
}

/// Copies the characters of `v` in positions `from..to` into a new vector.
pub fn copy_range(v: &Vec<char>, from: usize, to: usize) -> (r: Vec<char>)
    requires
        from <= to <= v.len(),
    ensures
        r@ == v@.subrange(from as int, to as int),
{
    let mut r: Vec<char> = Vec::new();
    let mut j: usize = from;
    while j < to
        invariant
            from <= j <= to <= v.len(),
            r@ == v@.subrange(from as int, j as int),
        decreases to - j,
    {
        r.push(v[j]);
        j += 1;
        proof {
            assert(v@.subrange(from as int, j as int) =~= v@.subrange(from as int, j - 1).push(
                v@[j - 1]));
        }
    }
    r
}

/// Splits a character sequence at every occurrence of `c`; there is always at
/// least one resulting field, and the separator is not part of any field.
pub open spec fn split_at(s: Seq<char>, c: char) -> Seq<Seq<char>>
    decreases s.len(),
{
    if s.len() == 0 {
        seq![Seq::<char>::empty()]
    } else if s[0] == c {
        seq![Seq::<char>::empty()] + split_at(s.drop_first(), c)
    } else {
        let rest = split_at(s.drop_first(), c);
        seq![seq![s[0]] + rest[0]] + rest.drop_first()
    }
}

/// A split always yields at least one field.
pub proof fn lemma_split_at_len(s: Seq<char>, c: char)
    ensures
        split_at(s, c).len() >= 1,
    decreases s.len(),
{
    if s.len() > 0 {
        lemma_split_at_len(s.drop_first(), c);
    }
}

/// When the first `k` characters are clean and position `k` holds the
/// separator, the split starts with exactly those `k` characters.
pub proof fn lemma_split_at_head(s: Seq<char>, c: char, k: int)
    requires
        0 <= k < s.len(),
        s[k] == c,
        forall|i: int| 0 <= i < k ==> s[i] != c,
    ensures
        split_at(s, c) == seq![s.take(k)] + split_at(s.skip(k + 1), c),
    decreases k,
{
    if k == 0 {
        assert(s.take(0) =~= Seq::<char>::empty());
        assert(s.skip(1) =~= s.drop_first());
        assert(split_at(s, c) =~~= seq![s.take(0)] + split_at(s.skip(1), c));
    } else {
        let d = s.drop_first();
        assert(d[k - 1] == c);
        assert(forall|i: int| 0 <= i < k - 1 ==> d[i] == s[i + 1] && s[i + 1] != c);
        lemma_split_at_head(d, c, k - 1);
        lemma_split_at_len(d.skip(k), c);
        let rest = split_at(d, c);
        assert(rest[0] == d.take(k - 1));
        assert(seq![s[0]] + d.take(k - 1) =~= s.take(k));
        assert(d.skip(k) =~= s.skip(k + 1));
        assert(rest.drop_first() =~~= split_at(s.skip(k + 1), c));
        assert(split_at(s, c) =~~= seq![s.take(k)] + split_at(s.skip(k + 1), c));
    }
}

/// A sequence free of the separator splits into a single field: itself.
pub proof fn lemma_split_at_clean(s: Seq<char>, c: char)
    requires
        forall|i: int| 0 <= i < s.len() ==> s[i] != c,
    ensures
        split_at(s, c) == seq![s],
    decreases s.len(),
{
    if s.len() == 0 {
        assert(split_at(s, c) =~~= seq![s]);
    } else {
        lemma_split_at_clean(s.drop_first(), c);
        assert(seq![s[0]] + s.drop_first() =~= s);
        assert(split_at(s, c) =~~= seq![s]);
    }
}

/// Joins fields with a single-character separator between them.
pub open spec fn join_with(parts: Seq<Seq<char>>, c: char) -> Seq<char>
    decreases parts.len(),
{
    if parts.len() == 0 {
        Seq::<char>::empty()
    } else if parts.len() == 1 {
        parts[0]
    } else {
        parts[0] + seq![c] + join_with(parts.drop_first(), c)
    }
}

/// Appending one more field extends the join by a separator and the field.
pub proof fn lemma_join_with_push(parts: Seq<Seq<char>>, p: Seq<char>, c: char)
    ensures
        parts.len() == 0 ==> join_with(parts.push(p), c) == p,
        parts.len() > 0 ==> join_with(parts.push(p), c) == join_with(parts, c) + seq![c] + p,
    decreases parts.len(),
{
    if parts.len() == 0 {
        assert(parts.push(p)[0] == p);
    } else if parts.len() == 1 {
        assert(parts.push(p).drop_first() =~~= seq![p]);
        assert(join_with(seq![p], c) == p);
        assert(join_with(parts.push(p), c) =~= parts[0] + seq![c] + p);
    } else {
        lemma_join_with_push(parts.drop_first(), p, c);
        assert(parts.push(p).drop_first() =~~= parts.drop_first().push(p));
        assert(join_with(parts, c) + seq![c] + p =~= parts[0] + seq![c] + (join_with(
            parts.drop_first(),
            c,
        ) + seq![c] + p));
    }
}

/// Splitting a join recovers the fields, provided no field holds the separator.
pub proof fn lemma_split_join(parts: Seq<Seq<char>>, c: char)
    requires
        parts.len() >= 1,
        forall|i: int, j: int|
            0 <= i < parts.len() && 0 <= j < parts[i].len() ==> #[trigger] parts[i][j] != c,
    ensures
        split_at(join_with(parts, c), c) == parts,
    decreases parts.len(),
{
    let s = join_with(parts, c);
    if parts.len() == 1 {
        assert(forall|j: int| 0 <= j < s.len() ==> s[j] == parts[0][j] && s[j] != c);
        lemma_split_at_clean(s, c);
        assert(seq![s] =~~= parts);
    } else {
        let p0 = parts[0];
        let rest = join_with(parts.drop_first(), c);
        assert(s == p0 + seq![c] + rest);
        assert(s[p0.len() as int] == c);
        assert(forall|i: int| 0 <= i < p0.len() ==> s[i] == p0[i] && s[i] != c);
        lemma_split_at_head(s, c, p0.len() as int);
        assert(s.take(p0.len() as int) =~= p0);
        assert(s.skip(p0.len() as int + 1) =~= rest);
        assert(forall|i: int, j: int|
            0 <= i < parts.drop_first().len() && 0 <= j < parts.drop_first()[i].len()
                ==> #[trigger] parts.drop_first()[i][j] != c);
        lemma_split_join(parts.drop_first(), c);
        assert(split_at(s, c) =~~= seq![p0] + parts.drop_first());
        assert(seq![p0] + parts.drop_first() =~~= parts);
    }
}

/// Splits a character vector at every occurrence of `c`.
pub fn split_vec(v: &Vec<char>, c: char) -> (r: Vec<Vec<char>>)
    ensures
        views_of(r@) == split_at(v@, c),
{
    let mut r: Vec<Vec<char>> = Vec::new();
    let mut start: usize = 0;
    let mut i: usize = 0;
    proof {
        assert(v@.skip(0) =~= v@);
        assert(views_of(r@) + split_at(v@, c) =~~= split_at(v@, c));
    }
    while i < v.len()
        invariant
            start <= i <= v.len(),
            split_at(v@, c) == views_of(r@) + split_at(v@.skip(start as int), c),
            forall|j: int| start <= j < i ==> v@[j] != c,
        decreases v.len() - i,
    {
        if v[i] == c {
            let piece = copy_range(v, start, i);
            proof {
                let tail = v@.skip(start as int);
                assert(tail[i - start] == c);
                assert(forall|j: int| 0 <= j < i - start ==> tail[j] == v@[start + j]);
                lemma_split_at_head(tail, c, i - start);
                assert(tail.take(i - start) =~= v@.subrange(start as int, i as int));
                assert(tail.skip(i - start + 1) =~= v@.skip(i + 1));
                assert(views_of(r@.push(piece)) =~~= views_of(r@).push(piece@));
                assert(views_of(r@) + (seq![piece@] + split_at(v@.skip(i + 1), c)) =~~= views_of(
                    r@.push(piece),
                ) + split_at(v@.skip(i + 1), c));
            }
            r.push(piece);
            start = i + 1;
        }
        i += 1;
    }
    let piece = copy_range(v, start, v.len());
    proof {
        let tail = v@.skip(start as int);
        assert(forall|j: int| 0 <= j < tail.len() ==> tail[j] == v@[start + j]);
        lemma_split_at_clean(tail, c);
        assert(tail =~= v@.subrange(start as int, v@.len() as int));
        assert(views_of(r@.push(piece)) =~~= views_of(r@).push(piece@));
        assert(views_of(r@) + seq![piece@] =~~= views_of(r@.push(piece)));
    }
    r.push(piece);
    r
}

/// Joins character vectors with a single-character separator.
pub fn join_vec(parts: &Vec<Vec<char>>, c: char) -> (r: Vec<char>)
    ensures
        r@ == join_with(views_of(parts@), c),
{
    let mut r: Vec<char> = Vec::new();
    let mut i: usize = 0;
    while i < parts.len()
        invariant
            i <= parts.len(),
            r@ == join_with(views_of(parts@).take(i as int), c),
        decreases parts.len() - i,
    {
        if i > 0 {
            r.push(c);
        }
        push_all(&mut r, &parts[i]);
        proof {
            let vs = views_of(parts@);
            lemma_join_with_push(vs.take(i as int), vs[i as int], c);
            assert(vs.take(i + 1) =~= vs.take(i as int).push(vs[i as int]));
        }
        i += 1;
    }
    proof {
        assert(views_of(parts@).take(parts@.len() as int) =~= views_of(parts@));
    }
    r
}

/// Whitespace characters recognized by the tokenizer.
pub open spec fn is_ws(c: char) -> bool {
    c == ' ' || c == '\t' || c == '\n' || c == '\r' || c == '\u{b}' || c == '\u{c}'
}

/// Decides whether a character is whitespace.
pub fn is_ws_char(c: char) -> (r: bool)
    ensures
        r == is_ws(c),
{
    c == ' ' || c == '\t' || c == '\n' || c == '\r' || c == '\u{b}' || c == '\u{c}'
}

/// Splits a character sequence into its maximal whitespace-free runs,
/// discarding all whitespace.
pub open spec fn split_ws(s: Seq<char>) -> Seq<Seq<char>>
    decreases s.len(),
{
    if s.len() == 0 {
        Seq::<Seq<char>>::empty()
    } else if is_ws(s[0]) {
        split_ws(s.drop_first())
    } else {
        let rest = split_ws(s.drop_first());
        if s.len() >= 2 && !is_ws(s[1]) {
            seq![seq![s[0]] + rest[0]] + rest.drop_first()
        } else {
            seq![seq![s[0]]] + rest
        }
    }
}

/// When the first `k` characters are not whitespace and the sequence either
/// ends or has whitespace at position `k`, the first token is exactly those
/// `k` characters.
pub proof fn lemma_split_ws_head(s: Seq<char>, k: int)
    requires
        0 < k <= s.len(),
        forall|i: int| 0 <= i < k ==> !is_ws(s[i]),
        k < s.len() ==> is_ws(s[k]),
    ensures
        split_ws(s) == seq![s.take(k)] + split_ws(s.skip(k)),
    decreases k,
{
    let d = s.drop_first();
    if k == 1 {
        if s.len() == 1 {
            assert(s.take(1) =~= s);
            assert(s.skip(1) =~= Seq::<char>::empty());
            assert(split_ws(s) =~~= seq![s.take(1)] + split_ws(s.skip(1)));
        } else {
            assert(is_ws(s[1]));
            assert(seq![s[0]] =~= s.take(1));
            assert(d =~= s.skip(1));
            assert(split_ws(s) =~~= seq![s.take(1)] + split_ws(s.skip(1)));
        }
    } else {
        assert(forall|i: int| 0 <= i < k - 1 ==> d[i] == s[i + 1] && !is_ws(s[i + 1]));
        assert(k - 1 < d.len() ==> d[k - 1] == s[k as int] && is_ws(s[k as int]));
        lemma_split_ws_head(d, k - 1);
        let rest = split_ws(d);
        assert(rest[0] == d.take(k - 1));
        assert(seq![s[0]] + d.take(k - 1) =~= s.take(k));
        assert(d.skip(k - 1) =~= s.skip(k));
        assert(rest.drop_first() =~~= split_ws(s.skip(k)));
        assert(!is_ws(s[1]));
        assert(split_ws(s) =~~= seq![s.take(k)] + split_ws(s.skip(k)));
    }
}

/// Splits a character vector into its whitespace-delimited tokens.
pub fn split_ws_vec(v: &Vec<char>) -> (r: Vec<Vec<char>>)
    ensures
        views_of(r@) == split_ws(v@),
{
    let mut r: Vec<Vec<char>> = Vec::new();
    let mut pos: usize = 0;
    proof {
        assert(v@.skip(0) =~= v@);
        assert(views_of(r@) + split_ws(v@) =~~= split_ws(v@));
    }
    while pos < v.len()
        invariant
            pos <= v.len(),
            split_ws(v@) == views_of(r@) + split_ws(v@.skip(pos as int)),
        decreases v.len() - pos,
    {
        if is_ws_char(v[pos]) {
            proof {
                let tail = v@.skip(pos as int);
                assert(tail[0] == v@[pos as int]);
                assert(tail.drop_first() =~= v@.skip(pos + 1));
            }
            pos += 1;
        } else {
            let mut j: usize = pos + 1;
            while j < v.len() && !is_ws_char(v[j])
                invariant
                    pos < j <= v.len(),
                    forall|t: int| pos <= t < j ==> !is_ws(v@[t]),
                decreases v.len() - j,
            {
                j += 1;
            }
            let piece = copy_range(v, pos, j);
            proof {
                let tail = v@.skip(pos as int);
                assert(forall|t: int| 0 <= t < j - pos ==> tail[t] == v@[pos + t]);
                assert(j < v@.len() ==> tail[j - pos] == v@[j as int] && is_ws(v@[j as int]));
                lemma_split_ws_head(tail, j - pos);
                assert(tail.take(j - pos) =~= v@.subrange(pos as int, j as int));
                assert(tail.skip(j - pos) =~= v@.skip(j as int));
                assert(views_of(r@.push(piece)) =~~= views_of(r@).push(piece@));
                assert(views_of(r@) + (seq![piece@] + split_ws(v@.skip(j as int))) =~~= views_of(
                    r@.push(piece),
                ) + split_ws(v@.skip(j as int)));
            }
            r.push(piece);
            pos = j;
        }
    }
    proof {
        assert(v@.skip(v@.len() as int) =~= Seq::<char>::empty());
        assert(views_of(r@) + split_ws(Seq::<char>::empty()) =~~= views_of(r@));
    }
    r
}

/// Removes one trailing carriage return, if present.
pub open spec fn strip_cr(s: Seq<char>) -> Seq<char> {
    if s.len() > 0 && s.last() == '\r' {
        s.drop_last()
    } else {
        s
    }
}

/// Removes one trailing carriage return from every element.
pub open spec fn strip_all(ps: Seq<Seq<char>>) -> Seq<Seq<char>> {
    ps.map_values(|p: Seq<char>| strip_cr(p))
}

/// Stripping distributes over appending an element.
pub proof fn lemma_strip_all_push(ps: Seq<Seq<char>>, p: Seq<char>)
    ensures
        strip_all(ps.push(p)) == strip_all(ps).push(strip_cr(p)),
{
    assert(strip_all(ps.push(p)) =~~= strip_all(ps).push(strip_cr(p)));
}

/// The lines of a text: split at line feeds, with one optional final line
/// feed producing no extra line, and one trailing carriage return removed
/// from each line.
pub open spec fn lines_of(s: Seq<char>) -> Seq<Seq<char>> {
    if s.len() == 0 {
        Seq::<Seq<char>>::empty()
    } else {
        let ps = if s.last() == '\n' {
            split_at(s, '\n').drop_last()
        } else {
            split_at(s, '\n')
        };
        strip_all(ps)
    }
}

/// Splits a text into its lines.
pub fn lines_vec(v: &Vec<char>) -> (r: Vec<Vec<char>>)
    ensures
        views_of(r@) == lines_of(v@),
{
    if v.len() == 0 {
        let r: Vec<Vec<char>> = Vec::new();
        proof {
            assert(views_of(r@) =~~= lines_of(v@));
        }
        return r;
    }
    let mut ps = split_vec(v, '\n');
    proof {
        lemma_split_at_len(v@, '\n');
    }
    if v[v.len() - 1] == '\n' {
        proof {
            assert(v@.last() == '\n');
        }
        ps.pop();
        proof {
            assert(views_of(ps@) =~~= split_at(v@, '\n').drop_last());
        }
    }
    let ghost kept = views_of(ps@);
    let mut r: Vec<Vec<char>> = Vec::new();
    let mut i: usize = 0;
    proof {
        assert(views_of(r@) =~~= strip_all(kept.take(0)));
    }
    while i < ps.len()
        invariant
            i <= ps.len(),
            views_of(ps@) == kept,
            views_of(r@) == strip_all(kept.take(i as int)),
        decreases ps.len() - i,
    {
        let ghost r_prev = r@;
        let mut piece = ps[i].clone();
        proof {
            vstd::std_specs::vec::vec_clone_deep_view_proof::<char, std::alloc::Global>(
                ps@[i as int],
                piece,
            );
            assert(piece.deep_view() =~= piece@);
            assert(ps@[i as int].deep_view() =~= ps@[i as int]@);
            assert(piece@ == ps@[i as int]@);
        }
        if piece.len() > 0 && piece[piece.len() - 1] == '\r' {
            piece.pop();
        }
        proof {
            assert(piece@ =~= strip_cr(kept[i as int]));
        }
        r.push(piece);
        i += 1;
        proof {
            assert(views_of(r@) =~~= views_of(r_prev).push(piece@));
            assert(kept.take(i as int) =~~= kept.take(i - 1).push(kept[i - 1]));
            lemma_strip_all_push(kept.take(i - 1), kept[i - 1]);
        }
    }
    proof {
        assert(kept.take(ps@.len() as int) =~~= kept);
        assert(views_of(r@) =~~= lines_of(v@));
    }
    r
}

/// Joins rows with a carriage-return/line-feed pair between them.
pub open spec fn join_crlf(rows: Seq<Seq<char>>) -> Seq<char>
    decreases rows.len(),
{
    if rows.len() == 0 {
        Seq::<char>::empty()
    } else if rows.len() == 1 {
        rows[0]
    } else {
        rows[0] + seq!['\r', '\n'] + join_crlf(rows.drop_first())
    }
}

/// Appending one more row extends the join by the two-character terminator
/// and the row.
pub proof fn lemma_join_crlf_push(rows: Seq<Seq<char>>, p: Seq<char>)
    ensures
        rows.len() == 0 ==> join_crlf(rows.push(p)) == p,
        rows.len() > 0 ==> join_crlf(rows.push(p)) == join_crlf(rows) + seq!['\r', '\n'] + p,
    decreases rows.len(),
{
    if rows.len() == 0 {
        assert(rows.push(p)[0] == p);
    } else if rows.len() == 1 {
        assert(rows.push(p).drop_first() =~~= seq![p]);
        assert(join_crlf(seq![p]) == p);
        assert(join_crlf(rows.push(p)) =~= rows[0] + seq!['\r', '\n'] + p);
    } else {
        lemma_join_crlf_push(rows.drop_first(), p);
        assert(rows.push(p).drop_first() =~~= rows.drop_first().push(p));
        assert(join_crlf(rows) + seq!['\r', '\n'] + p =~= rows[0] + seq!['\r', '\n'] + (join_crlf(
            rows.drop_first(),
        ) + seq!['\r', '\n'] + p));
    }
}

/// A join of nonempty rows is nonempty and ends with the last row's last
/// character.
pub proof fn lemma_join_crlf_last(rows: Seq<Seq<char>>)
    requires
        rows.len() >= 1,
        rows.last().len() > 0,
    ensures
        join_crlf(rows).len() > 0,
        join_crlf(rows).last() == rows.last().last(),
    decreases rows.len(),
{
    if rows.len() > 1 {
        lemma_join_crlf_last(rows.drop_first());
    }
}

/// Taking the lines of a carriage-return/line-feed join recovers the rows,
/// provided every row is nonempty and free of both terminator characters.
pub proof fn lemma_lines_join_crlf(rows: Seq<Seq<char>>)
    requires
        rows.len() >= 1,
        forall|i: int| 0 <= i < rows.len() ==> #[trigger] rows[i].len() > 0,
        forall|i: int, j: int|
            0 <= i < rows.len() && 0 <= j < rows[i].len() ==> #[trigger] rows[i][j] != '\n'
                && rows[i][j] != '\r',
    ensures
        lines_of(join_crlf(rows)) == rows,
    decreases rows.len(),
{
    let s = join_crlf(rows);
    lemma_join_crlf_last(rows);
    assert(s.last() != '\n');
    if rows.len() == 1 {
        assert(forall|j: int| 0 <= j < s.len() ==> s[j] == rows[0][j] && s[j] != '\n');
        lemma_split_at_clean(s, '\n');
        assert(strip_cr(s) == s);
        assert(strip_all(seq![s]) =~~= rows);
    } else {
        let r0 = rows[0];
        let rest = join_crlf(rows.drop_first());
        assert(s == r0 + seq!['\r', '\n'] + rest);
        let k = r0.len() as int;
        assert(s[k + 1] == '\n');
        assert(forall|i: int| 0 <= i < k ==> s[i] == r0[i] && s[i] != '\n');
        assert(s[k] == '\r');
        lemma_split_at_head(s, '\n', k + 1);
        assert(s.take(k + 1) =~= r0.push('\r'));
        assert(s.skip(k + 2) =~= rest);
        lemma_lines_join_crlf(rows.drop_first());
        lemma_join_crlf_last(rows.drop_first());
        assert(rest.last() != '\n');
        assert(rest.len() > 0);
        let tail_split = split_at(rest, '\n');
        assert(split_at(s, '\n') =~~= seq![r0.push('\r')] + tail_split);
        assert(strip_cr(r0.push('\r')) =~= r0);
        assert(lines_of(rest) == strip_all(tail_split));
        assert(lines_of(s) =~~= seq![r0] + lines_of(rest));
        assert(seq![r0] + rows.drop_first() =~~= rows);
    }
}

/// Joins rows of characters with the two-character line terminator.
pub fn join_crlf_vec(rows: &Vec<Vec<char>>) -> (r: Vec<char>)
    ensures
        r@ == join_crlf(views_of(rows@)),
{
    let mut r: Vec<char> = Vec::new();
    let mut i: usize = 0;
    while i < rows.len()
        invariant
            i <= rows.len(),
            r@ == join_crlf(views_of(rows@).take(i as int)),
        decreases rows.len() - i,
    {
        if i > 0 {
            r.push('\r');
            r.push('\n');
        }
        push_all(&mut r, &rows[i]);
        proof {
            let vs = views_of(rows@);
            lemma_join_crlf_push(vs.take(i as int), vs[i as int]);
            assert(vs.take(i + 1) =~= vs.take(i as int).push(vs[i as int]));
            if i > 0 {
                assert(join_crlf(vs.take(i as int)).push('\r').push('\n') + rows@[i as int]@
                    =~= join_crlf(vs.take(i as int)) + seq!['\r', '\n'] + vs[i as int]);
            }
        }
        i += 1;
    }
    proof {
        assert(views_of(rows@).take(rows@.len() as int) =~= views_of(rows@));
    }
    r
}

} // verus!

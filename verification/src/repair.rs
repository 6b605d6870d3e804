//! Glyph repair: reverses a known double-encoding corruption of names by a
//! fixed, ordered table of literal substring rewrites, each applied globally
//! (left to right, non-overlapping) before the next. Names that are already
//! pure ASCII are left untouched.

use crate::rows::push_all;
use crate::rows::copy_range;
use crate::text::is_ascii_seq;
use crate::text::chars_are_ascii;
use vstd::prelude::*;

verus! {

/// `sub` occurs as a contiguous substring of `s`.
pub open spec fn contains_sub(s: Seq<char>, sub: Seq<char>) -> bool {
    exists|i: int|
        0 <= i <= s.len() - sub.len() && #[trigger] s.subrange(i, i + sub.len() as int) == sub
}

/// Replaces every non-overlapping occurrence of `pat` in `s` by `rep`,
/// scanning left to right; an empty pattern rewrites nothing.
pub open spec fn replace_all(s: Seq<char>, pat: Seq<char>, rep: Seq<char>) -> Seq<char>
    decreases s.len(),
{
    if pat.len() == 0 {
        s
    } else if s.len() < pat.len() {
        s
    } else if s.take(pat.len() as int) == pat {
        rep + replace_all(s.skip(pat.len() as int), pat, rep)
    } else {
        seq![s[0]] + replace_all(s.drop_first(), pat, rep)
    }
}

/// A rewrite with no occurrence of its pattern (or an empty pattern) leaves
/// the text unchanged.
pub proof fn lemma_replace_all_identity(s: Seq<char>, pat: Seq<char>, rep: Seq<char>)
    requires
        pat.len() == 0 || !contains_sub(s, pat),
    ensures
        replace_all(s, pat, rep) == s,
    decreases s.len(),
{
    if pat.len() == 0 || s.len() < pat.len() {
    } else if s.take(pat.len() as int) == pat {
        assert(s.subrange(0, 0 + pat.len() as int) =~= s.take(pat.len() as int));
        assert(contains_sub(s, pat));
    } else {
        if contains_sub(s.drop_first(), pat) {
            let i = choose|i: int|
                0 <= i <= s.drop_first().len() - pat.len() && #[trigger] s.drop_first().subrange(
                    i,
                    i + pat.len() as int,
                ) == pat;
            assert(s.subrange(i + 1, i + 1 + pat.len() as int) =~= s.drop_first().subrange(
                i,
                i + pat.len() as int,
            ));
            assert(contains_sub(s, pat));
        }
        lemma_replace_all_identity(s.drop_first(), pat, rep);
        assert(seq![s[0]] + s.drop_first() =~= s);
    }
}

/// After a rewrite whose pattern did occur, the replacement occurs in the
/// result (for a nonempty replacement).
pub proof fn lemma_replace_all_introduces(s: Seq<char>, pat: Seq<char>, rep: Seq<char>)
    requires
        pat.len() > 0,
        rep.len() > 0,
        contains_sub(s, pat),
    ensures
        contains_sub(replace_all(s, pat, rep), rep),
    decreases s.len(),
{
    let out = replace_all(s, pat, rep);
    if s.len() < pat.len() {
        assert(false);
    } else if s.take(pat.len() as int) == pat {
        assert(out.subrange(0, 0 + rep.len() as int) =~= rep);
        assert(contains_sub(out, rep));
    } else {
        let i = choose|i: int|
            0 <= i <= s.len() - pat.len() && #[trigger] s.subrange(i, i + pat.len() as int)
                == pat;
        assert(i != 0);
        assert(s.drop_first().subrange(i - 1, i - 1 + pat.len() as int) =~= s.subrange(
            i,
            i + pat.len() as int,
        ));
        assert(contains_sub(s.drop_first(), pat));
        lemma_replace_all_introduces(s.drop_first(), pat, rep);
        let inner = replace_all(s.drop_first(), pat, rep);
        let j = choose|j: int|
            0 <= j <= inner.len() - rep.len() && #[trigger] inner.subrange(j, j + rep.len() as int)
                == rep;
        assert(out.subrange(j + 1, j + 1 + rep.len() as int) =~= inner.subrange(
            j,
            j + rep.len() as int,
        ));
        assert(contains_sub(out, rep));
    }
}

/// A rewrite never removes a character that its pattern does not mention.
pub proof fn lemma_replace_all_preserves_char(
    s: Seq<char>,
    pat: Seq<char>,
    rep: Seq<char>,
    c: char,
)
    requires
        s.contains(c),
        !pat.contains(c),
    ensures
        replace_all(s, pat, rep).contains(c),
    decreases s.len(),
{
    let out = replace_all(s, pat, rep);
    if pat.len() == 0 || s.len() < pat.len() {
    } else if s.take(pat.len() as int) == pat {
        let k = choose|k: int| 0 <= k < s.len() && s[k] == c;
        if k < pat.len() {
            assert(pat[k] == s[k]);
            assert(false);
        }
        assert(s.skip(pat.len() as int)[k - pat.len()] == c);
        assert(s.skip(pat.len() as int).contains(c));
        lemma_replace_all_preserves_char(s.skip(pat.len() as int), pat, rep, c);
        let inner = replace_all(s.skip(pat.len() as int), pat, rep);
        let j = choose|j: int| 0 <= j < inner.len() && inner[j] == c;
        assert(out[rep.len() + j] == c);
        assert(out.contains(c));
    } else {
        let k = choose|k: int| 0 <= k < s.len() && s[k] == c;
        if k == 0 {
            assert(out[0] == c);
            assert(out.contains(c));
        } else {
            assert(s.drop_first()[k - 1] == c);
            assert(s.drop_first().contains(c));
            lemma_replace_all_preserves_char(s.drop_first(), pat, rep, c);
            let inner = replace_all(s.drop_first(), pat, rep);
            let j = choose|j: int| 0 <= j < inner.len() && inner[j] == c;
            assert(out[1 + j] == c);
            assert(out.contains(c));
        }
    }
}

/// Whether `pat` occurs in `v` starting at position `i`.
pub fn matches_at(v: &Vec<char>, pat: &Vec<char>, i: usize) -> (r: bool)
    requires
        i <= v.len(),
    ensures
        r == (i + pat@.len() <= v@.len() && v@.subrange(i as int, i + pat@.len()) == pat@),
{
    if v.len() - i < pat.len() {
        return false;
    }
    let mut j: usize = 0;
    let n = v.len();
    while j < pat.len()
        invariant
            j <= pat.len(),
            n == v@.len(),
            i + pat@.len() <= n,
            forall|t: int| 0 <= t < j ==> v@[i + t] == pat@[t],
        decreases pat.len() - j,
    {
        if v[i + j] != pat[j] {
            proof {
                assert(v@.subrange(i as int, i + pat@.len())[j as int] != pat@[j as int]);
            }
            return false;
        }
        j += 1;
    }
    proof {
        assert(v@.subrange(i as int, i + pat@.len()) =~= pat@);
    }
    true
}

/// Replaces every non-overlapping occurrence of `pat` in `v` by `rep`.
pub fn replace_all_vec(v: &Vec<char>, pat: &Vec<char>, rep: &Vec<char>) -> (r: Vec<char>)
    requires
        pat@.len() > 0,
    ensures
        r@ == replace_all(v@, pat@, rep@),
{
    let mut out: Vec<char> = Vec::new();
    let mut i: usize = 0;
    proof {
        assert(v@.skip(0) =~= v@);
        assert(out@ + replace_all(v@, pat@, rep@) =~= replace_all(v@, pat@, rep@));
    }
    while i < v.len()
        invariant
            i <= v.len(),
            pat@.len() > 0,
            replace_all(v@, pat@, rep@) == out@ + replace_all(v@.skip(i as int), pat@, rep@),
        decreases v.len() - i,
    {
        let ghost tail = v@.skip(i as int);
        if matches_at(v, pat, i) {
            push_all(&mut out, rep);
            proof {
                assert(tail.take(pat@.len() as int) =~= v@.subrange(i as int, i + pat@.len()));
                assert(tail.skip(pat@.len() as int) =~= v@.skip(i + pat@.len()));
                assert((out@ + replace_all(v@.skip(i + pat@.len()), pat@, rep@)) =~= (out@
                    .subrange(0, out@.len() - rep@.len()) + (rep@ + replace_all(
                    v@.skip(i + pat@.len()),
                    pat@,
                    rep@,
                ))));
            }
            i += pat.len();
        } else {
            out.push(v[i]);
            proof {
                if tail.len() >= pat@.len() {
                    assert(tail.take(pat@.len() as int) =~= v@.subrange(
                        i as int,
                        i + pat@.len(),
                    ));
                    assert(tail.take(pat@.len() as int) != pat@);
                    assert(tail[0] == v@[i as int]);
                    assert(tail.drop_first() =~= v@.skip(i + 1));
                    assert(out@ + replace_all(v@.skip(i + 1), pat@, rep@) =~= out@.drop_last()
                        + (seq![tail[0]] + replace_all(tail.drop_first(), pat@, rep@)));
                } else {
                    assert(replace_all(tail, pat@, rep@) == tail);
                    assert(v@.skip(i + 1).len() < pat@.len());
                    assert(replace_all(v@.skip(i + 1), pat@, rep@) == v@.skip(i + 1));
                    assert(tail[0] == v@[i as int]);
                    assert(out@ + v@.skip(i + 1) =~= out@.drop_last() + tail);
                }
            }
            i += 1;
        }
    }
    proof {
        assert(v@.skip(v@.len() as int) =~= Seq::<char>::empty());
        assert(out@ + Seq::<char>::empty() =~= out@);
    }
    out
}

/// The repair table: ordered pairs of corrupted substring and correction,
/// applied top to bottom.
pub open spec fn repair_table() -> Seq<(Seq<char>, Seq<char>)> {
    seq![
        (seq!['\u{c3}', '\u{b1}'], seq!['\u{f1}']),
        (seq!['\u{c3}', '\u{a4}'], seq!['\u{e4}']),
        (seq!['\u{c3}', '\u{b2}'], seq!['\u{f2}']),
        (seq!['\u{c3}', '\u{a7}'], seq!['\u{e7}']),
        (seq!['\u{c3}', '\u{a3}'], seq!['\u{e3}']),
        (seq!['\u{c3}', '\u{b6}'], seq!['\u{f6}']),
        (seq!['\u{c3}', '\u{a9}'], seq!['\u{e9}']),
        (seq!['\u{c3}', '\u{a1}'], seq!['\u{e1}']),
        (seq!['\u{c3}', '\u{b3}'], seq!['\u{f3}']),
        (seq!['\u{c5}', '\u{201e}'], seq!['\u{144}']),
        (seq!['\u{c3}', '\u{a5}'], seq!['\u{e5}']),
        (seq!['\u{c3}', '\u{af}'], seq!['\u{ef}']),
        (seq!['\u{c5}', ' '], seq!['\u{160}']),
        (seq!['\u{c5}', '\u{ab}'], seq!['\u{16b}']),
        (seq!['\u{c5}', '\u{be}'], seq!['\u{17e}']),
        (seq!['\u{c3}', '\u{ac}'], seq!['\u{ec}']),
        (seq!['\u{c5}', '\u{bd}'], seq!['\u{17d}']),
        (seq!['\u{c3}'], seq!['\u{c1}']),
        (seq!['\u{c2}'], Seq::<char>::empty()),
        (seq!['\u{c5}', '\u{2020}'], seq!['\u{146}']),
        (seq!['\u{c5}', '\u{a1}'], seq!['\u{161}']),
        (seq!['\u{c4}', '\u{b1}'], seq!['\u{131}']),
    ]
}

/// The text after the first `k` rewrites of the table have been applied.
pub open spec fn apply_upto(s: Seq<char>, k: int) -> Seq<char>
    decreases k,
{
    if k <= 0 {
        s
    } else {
        replace_all(apply_upto(s, k - 1), repair_table()[k - 1].0, repair_table()[k - 1].1)
    }
}

/// The repaired form of a name: ASCII text is returned unchanged, anything
/// else goes through the whole table in order.
pub open spec fn repair_str(s: Seq<char>) -> Seq<char> {
    if is_ascii_seq(s) {
        s
    } else {
        apply_upto(s, repair_table().len() as int)
    }
}

/// One table entry, as character vectors.
fn table_entry(k: usize) -> (e: (Vec<char>, Vec<char>))
    requires
        k < 22,
    ensures
        e.0@ == repair_table()[k as int].0,
        e.1@ == repair_table()[k as int].1,
        e.0@.len() > 0,
{
    let pair: (Vec<char>, Vec<char>) = match k {
        0 => (vec!['\u{c3}', '\u{b1}'], vec!['\u{f1}']),
        1 => (vec!['\u{c3}', '\u{a4}'], vec!['\u{e4}']),
        2 => (vec!['\u{c3}', '\u{b2}'], vec!['\u{f2}']),
        3 => (vec!['\u{c3}', '\u{a7}'], vec!['\u{e7}']),
        4 => (vec!['\u{c3}', '\u{a3}'], vec!['\u{e3}']),
        5 => (vec!['\u{c3}', '\u{b6}'], vec!['\u{f6}']),
        6 => (vec!['\u{c3}', '\u{a9}'], vec!['\u{e9}']),
        7 => (vec!['\u{c3}', '\u{a1}'], vec!['\u{e1}']),
        8 => (vec!['\u{c3}', '\u{b3}'], vec!['\u{f3}']),
        9 => (vec!['\u{c5}', '\u{201e}'], vec!['\u{144}']),
        10 => (vec!['\u{c3}', '\u{a5}'], vec!['\u{e5}']),
        11 => (vec!['\u{c3}', '\u{af}'], vec!['\u{ef}']),
        12 => (vec!['\u{c5}', ' '], vec!['\u{160}']),
        13 => (vec!['\u{c5}', '\u{ab}'], vec!['\u{16b}']),
        14 => (vec!['\u{c5}', '\u{be}'], vec!['\u{17e}']),
        15 => (vec!['\u{c3}', '\u{ac}'], vec!['\u{ec}']),
        16 => (vec!['\u{c5}', '\u{bd}'], vec!['\u{17d}']),
        17 => (vec!['\u{c3}'], vec!['\u{c1}']),
        18 => (vec!['\u{c2}'], Vec::new()),
        19 => (vec!['\u{c5}', '\u{2020}'], vec!['\u{146}']),
        20 => (vec!['\u{c5}', '\u{a1}'], vec!['\u{161}']),
        _ => (vec!['\u{c4}', '\u{b1}'], vec!['\u{131}']),
    };
    proof {
        assert(pair.0@ =~= repair_table()[k as int].0);
        assert(pair.1@ =~= repair_table()[k as int].1);
    }
    pair
}

/// Repairs one name: applies every rewrite of the table in order, unless the
/// name is pure ASCII, which is returned unchanged.
pub fn repair_chars(v: &Vec<char>) -> (r: Vec<char>)
    ensures
        r@ == repair_str(v@),
{
    if chars_are_ascii(v) {
        let r = copy_range(v, 0, v.len());
        proof {
            assert(v@.subrange(0, v@.len() as int) =~= v@);
        }
        return r;
    }
    let mut cur = copy_range(v, 0, v.len());
    proof {
        assert(v@.subrange(0, v@.len() as int) =~= v@);
    }
    let mut k: usize = 0;
    while k < 22
        invariant
            k <= 22,
            !is_ascii_seq(v@),
            cur@ == apply_upto(v@, k as int),
        decreases 22 - k,
    {
        let entry = table_entry(k);
        cur = replace_all_vec(&cur, &entry.0, &entry.1);
        k += 1;
    }
    proof {
        assert(repair_table().len() == 22);
    }
    cur
}

/// No corrupted substring of the table occurs in `s`.
pub open spec fn contains_no_pattern(s: Seq<char>) -> bool {
    forall|k: int|
        0 <= k < repair_table().len() ==> !contains_sub(s, #[trigger] repair_table()[k].0)
}

/// Text free of every corrupted substring passes through the table unchanged.
pub proof fn lemma_apply_upto_identity(s: Seq<char>, k: int)
    requires
        contains_no_pattern(s),
        0 <= k <= repair_table().len(),
    ensures
        apply_upto(s, k) == s,
    decreases k,
{
    if k > 0 {
        lemma_apply_upto_identity(s, k - 1);
        lemma_replace_all_identity(s, repair_table()[k - 1].0, repair_table()[k - 1].1);
    }
}

/// Repair is the identity on clean ASCII names.
pub proof fn lemma_repair_ascii_identity(s: Seq<char>)
    requires
        is_ascii_seq(s),
    ensures
        repair_str(s) == s,
{
}

/// Conditional idempotence: when the repaired text contains none of the
/// table's corrupted substrings, repairing again changes nothing.
pub proof fn lemma_repair_conditional_idempotent(s: Seq<char>)
    requires
        contains_no_pattern(repair_str(s)),
    ensures
        repair_str(repair_str(s)) == repair_str(s),
{
    let x = repair_str(s);
    if !is_ascii_seq(x) {
        lemma_apply_upto_identity(x, repair_table().len() as int);
    }
}


/// Every pattern of the table is nonempty.
pub proof fn lemma_table_patterns_nonempty()
    ensures
        forall|k: int| 0 <= k < repair_table().len() ==> (#[trigger] repair_table()[k]).0.len()
            > 0,
{
}

/// When a corrupted substring still occurs at its own stage, that stage's
/// rewrite makes the correction appear (for the rewrites that insert one).
pub proof fn lemma_repair_stage_introduces(s: Seq<char>, k: int)
    requires
        0 <= k < repair_table().len(),
        repair_table()[k].1.len() > 0,
        contains_sub(apply_upto(s, k), repair_table()[k].0),
    ensures
        contains_sub(apply_upto(s, k + 1), repair_table()[k].1),
{
    lemma_table_patterns_nonempty();
    lemma_replace_all_introduces(apply_upto(s, k), repair_table()[k].0, repair_table()[k].1);
}

/// The glyphs that the table can write into a repaired name, together with
/// the characters whose presence marks a name as already repaired.
pub open spec fn replaced_glyphs() -> Seq<char> {
    seq![
        '\u{f1}',
        '\u{e4}',
        '\u{f2}',
        '\u{e7}',
        '\u{e3}',
        '\u{f6}',
        '\u{e9}',
        '\u{e1}',
        '\u{f3}',
        '\u{144}',
        '\u{e5}',
        '\u{ef}',
        '\u{160}',
        '\u{16b}',
        '\u{c1}',
        '\u{10d}',
        '\u{17e}',
        '\u{ec}',
        '\u{c2}',
        '\u{17d}',
        '\u{146}',
        '\u{161}',
        '\u{131}',
    ]
}

/// A name the repair table did not reach: not ASCII, yet free of every glyph
/// the table writes or recognizes.
pub open spec fn is_error_name(s: Seq<char>) -> bool {
    !is_ascii_seq(s) && forall|k: int|
        0 <= k < replaced_glyphs().len() ==> !s.contains(#[trigger] replaced_glyphs()[k])
}

/// The names of the unreached records, in document order.
pub open spec fn error_names_spec(ps: Seq<crate::records::Player>) -> Seq<Seq<char>>
    decreases ps.len(),
{
    if ps.len() == 0 {
        Seq::<Seq<char>>::empty()
    } else {
        error_names_spec(ps.drop_last()) + if is_error_name(ps.last().name@) {
            seq![ps.last().name@]
        } else {
            Seq::<Seq<char>>::empty()
        }
    }
}

/// The views of a sequence of strings.
pub open spec fn string_views(ss: Seq<String>) -> Seq<Seq<char>> {
    ss.map_values(|s: String| s@)
}

/// Whether `v` holds the character `c`.
fn contains_char(v: &Vec<char>, c: char) -> (r: bool)
    ensures
        r == v@.contains(c),
{
    let mut i: usize = 0;
    while i < v.len()
        invariant
            i <= v.len(),
            forall|j: int| 0 <= j < i ==> v@[j] != c,
        decreases v.len() - i,
    {
        if v[i] == c {
            return true;
        }
        i += 1;
    }
    false
}

/// The names the repair table did not reach: non-ASCII names free of every
/// glyph the table writes or recognizes.
pub fn error_names(players: &Vec<crate::records::Player>) -> (r: Vec<String>)
    ensures
        string_views(r@) == error_names_spec(players@),
{
    let glyphs: Vec<char> = vec![
        '\u{f1}',
        '\u{e4}',
        '\u{f2}',
        '\u{e7}',
        '\u{e3}',
        '\u{f6}',
        '\u{e9}',
        '\u{e1}',
        '\u{f3}',
        '\u{144}',
        '\u{e5}',
        '\u{ef}',
        '\u{160}',
        '\u{16b}',
        '\u{c1}',
        '\u{10d}',
        '\u{17e}',
        '\u{ec}',
        '\u{c2}',
        '\u{17d}',
        '\u{146}',
        '\u{161}',
        '\u{131}',
    ];
    proof {
        assert(glyphs@ =~= replaced_glyphs());
    }
    let mut r: Vec<String> = Vec::new();
    let mut i: usize = 0;
    proof {
        assert(string_views(r@) =~~= error_names_spec(players@.take(0)));
    }
    while i < players.len()
        invariant
            i <= players@.len(),
            glyphs@ == replaced_glyphs(),
            string_views(r@) == error_names_spec(players@.take(i as int)),
        decreases players@.len() - i,
    {
        let ghost r_prev = r@;
        let name_chars = crate::text::str_chars(players[i].name.as_str());
        let mut keep = !chars_are_ascii(&name_chars);
        if keep {
            let mut k: usize = 0;
            while k < glyphs.len()
                invariant
                    k <= glyphs@.len(),
                    glyphs@ == replaced_glyphs(),
                    name_chars@ == players@[i as int].name@,
                    i < players@.len(),
                    keep <==> forall|t: int|
                        0 <= t < k ==> !name_chars@.contains(#[trigger] glyphs@[t]),
                decreases glyphs@.len() - k,
            {
                if contains_char(&name_chars, glyphs[k]) {
                    keep = false;
                    k = glyphs.len();
                } else {
                    k += 1;
                }
            }
        }
        if keep {
            let nm = players[i].name.clone();
            r.push(nm);
        }
        i += 1;
        proof {
            assert(players@.take(i as int).drop_last() =~= players@.take(i - 1));
            assert(players@.take(i as int).last() == players@[i - 1]);
            if keep {
                assert(is_error_name(players@[i - 1].name@));
                assert(string_views(r@) =~~= string_views(r_prev).push(
                    players@[i - 1].name@,
                ));
                assert(string_views(r@) =~~= error_names_spec(players@.take(i as int)));
            } else {
                assert(!is_error_name(players@[i - 1].name@));
                assert(string_views(r@) =~~= error_names_spec(players@.take(i as int)));
            }
        }
    }
    proof {
        assert(players@.take(players@.len() as int) =~= players@);
    }
    r
}


/// A rewrite that does not lengthen its replacement never lengthens the text.
pub proof fn lemma_replace_all_len_nonincreasing(s: Seq<char>, pat: Seq<char>, rep: Seq<char>)
    requires
        rep.len() <= pat.len(),
    ensures
        replace_all(s, pat, rep).len() <= s.len(),
    decreases s.len(),
{
    if pat.len() == 0 || s.len() < pat.len() {
    } else if s.take(pat.len() as int) == pat {
        lemma_replace_all_len_nonincreasing(s.skip(pat.len() as int), pat, rep);
    } else {
        lemma_replace_all_len_nonincreasing(s.drop_first(), pat, rep);
    }
}

/// A rewrite with a strictly shorter replacement strictly shortens any text
/// in which its pattern occurs.
pub proof fn lemma_replace_all_shrinks(s: Seq<char>, pat: Seq<char>, rep: Seq<char>)
    requires
        rep.len() < pat.len(),
        contains_sub(s, pat),
    ensures
        replace_all(s, pat, rep).len() < s.len(),
    decreases s.len(),
{
    if s.len() < pat.len() {
        assert(false);
    } else if s.take(pat.len() as int) == pat {
        lemma_replace_all_len_nonincreasing(s.skip(pat.len() as int), pat, rep);
    } else {
        let i = choose|i: int|
            0 <= i <= s.len() - pat.len() && #[trigger] s.subrange(i, i + pat.len() as int)
                == pat;
        assert(i != 0);
        assert(s.drop_first().subrange(i - 1, i - 1 + pat.len() as int) =~= s.subrange(
            i,
            i + pat.len() as int,
        ));
        assert(contains_sub(s.drop_first(), pat));
        lemma_replace_all_shrinks(s.drop_first(), pat, rep);
    }
}

/// Rewriting away a single character leaves none of it behind, when the
/// replacement does not mention it.
pub proof fn lemma_replace_all_removes_char(s: Seq<char>, c: char, rep: Seq<char>)
    requires
        !rep.contains(c),
    ensures
        !replace_all(s, seq![c], rep).contains(c),
    decreases s.len(),
{
    let pat = seq![c];
    let out = replace_all(s, pat, rep);
    if s.len() < 1 {
    } else if s.take(1) == pat {
        lemma_replace_all_removes_char(s.skip(1), c, rep);
        let inner = replace_all(s.skip(1), pat, rep);
        assert forall|j: int| 0 <= j < out.len() implies out[j] != c by {
            if j < rep.len() {
                assert(out[j] == rep[j]);
            } else {
                assert(out[j] == inner[j - rep.len()]);
            }
        }
    } else {
        if s[0] == c {
            assert(s.take(1) =~= seq![c]);
        }
        assert(s[0] != c);
        lemma_replace_all_removes_char(s.drop_first(), c, rep);
        let inner = replace_all(s.drop_first(), pat, rep);
        assert forall|j: int| 0 <= j < out.len() implies out[j] != c by {
            if j == 0 {
                assert(out[0] == s[0]);
            } else {
                assert(out[j] == inner[j - 1]);
            }
        }
    }
}

/// Every character of a rewrite's output comes from the input or from the
/// replacement.
pub proof fn lemma_replace_all_chars_from(s: Seq<char>, pat: Seq<char>, rep: Seq<char>, c: char)
    requires
        replace_all(s, pat, rep).contains(c),
    ensures
        s.contains(c) || rep.contains(c),
    decreases s.len(),
{
    let out = replace_all(s, pat, rep);
    let j = choose|j: int| 0 <= j < out.len() && out[j] == c;
    if pat.len() == 0 || s.len() < pat.len() {
    } else if s.take(pat.len() as int) == pat {
        if j < rep.len() {
            assert(rep[j] == c);
        } else {
            let inner = replace_all(s.skip(pat.len() as int), pat, rep);
            assert(inner[j - rep.len()] == c);
            assert(inner.contains(c));
            lemma_replace_all_chars_from(s.skip(pat.len() as int), pat, rep, c);
            if s.skip(pat.len() as int).contains(c) {
                let t = choose|t: int|
                    0 <= t < s.skip(pat.len() as int).len() && s.skip(pat.len() as int)[t] == c;
                assert(s[pat.len() + t] == c);
            }
        }
    } else {
        if j == 0 {
            assert(s[0] == c);
        } else {
            let inner = replace_all(s.drop_first(), pat, rep);
            assert(inner[j - 1] == c);
            assert(inner.contains(c));
            lemma_replace_all_chars_from(s.drop_first(), pat, rep, c);
            if s.drop_first().contains(c) {
                let t = choose|t: int| 0 <= t < s.drop_first().len() && s.drop_first()[t] == c;
                assert(s[1 + t] == c);
            }
        }
    }
}

/// A single-character pattern occurs exactly when the character does.
pub proof fn lemma_contains_sub_single(s: Seq<char>, c: char)
    ensures
        contains_sub(s, seq![c]) <==> s.contains(c),
{
    if contains_sub(s, seq![c]) {
        let i = choose|i: int|
            0 <= i <= s.len() - 1 && #[trigger] s.subrange(i, i + 1) == seq![c];
        assert(s.subrange(i, i + 1)[0] == s[i]);
    }
    if s.contains(c) {
        let i = choose|i: int| 0 <= i < s.len() && s[i] == c;
        assert(s.subrange(i, i + 1) =~= seq![c]);
    }
}

/// Later table stages never lengthen the text.
pub proof fn lemma_apply_upto_len(s: Seq<char>, j: int, k: int)
    requires
        0 <= j <= k <= repair_table().len(),
    ensures
        apply_upto(s, k).len() <= apply_upto(s, j).len(),
    decreases k - j,
{
    if j < k {
        lemma_apply_upto_len(s, j, k - 1);
        assert(repair_table()[k - 1].1.len() <= repair_table()[k - 1].0.len());
        lemma_replace_all_len_nonincreasing(
            apply_upto(s, k - 1),
            repair_table()[k - 1].0,
            repair_table()[k - 1].1,
        );
    }
}

/// When a full pass over the table returns the text unchanged, no corrupted
/// substring occurred in it at all.
proof fn lemma_unchanged_pass_is_clean(x: Seq<char>, k: int)
    requires
        0 <= k <= repair_table().len(),
        apply_upto(x, repair_table().len() as int) == x,
    ensures
        apply_upto(x, k) == x,
        forall|j: int| 0 <= j < k ==> !contains_sub(x, #[trigger] repair_table()[j].0),
    decreases k,
{
    let nn = repair_table().len() as int;
    if k > 0 {
        lemma_unchanged_pass_is_clean(x, k - 1);
        let pat = repair_table()[k - 1].0;
        let rep = repair_table()[k - 1].1;
        let out = replace_all(x, pat, rep);
        assert(apply_upto(x, k) == out);
        lemma_apply_upto_len(x, k, nn);
        lemma_apply_upto_len(x, 0, k);
        assert(out.len() == x.len());
        if k - 1 == 17 {
            // the one length-preserving rewrite: it eliminates its own
            // pattern character, and no later stage can reintroduce it
            if x.contains('\u{c3}') {
                assert(pat =~= seq!['\u{c3}']);
                lemma_replace_all_removes_char(x, '\u{c3}', rep);
                assert(!apply_upto(x, 18).contains('\u{c3}'));
                assert forall|m: int| 18 <= m <= nn implies !apply_upto(
                    x,
                    m,
                ).contains('\u{c3}') by {
                    lemma_later_stages_keep_removed(x, m);
                }
                assert(!apply_upto(x, nn).contains('\u{c3}'));
                assert(false);
            }
            lemma_contains_sub_single(x, '\u{c3}');
            assert(pat =~= seq!['\u{c3}']);
            lemma_replace_all_identity(x, pat, rep);
        } else {
            if contains_sub(x, pat) {
                assert(rep.len() < pat.len());
                lemma_replace_all_shrinks(x, pat, rep);
                assert(false);
            }
            lemma_replace_all_identity(x, pat, rep);
        }
    }
}

/// Once the corrupted lead character is gone after its own stage, the later
/// stages never write it back.
proof fn lemma_later_stages_keep_removed(x: Seq<char>, m: int)
    requires
        18 <= m <= repair_table().len(),
        !apply_upto(x, 18).contains('\u{c3}'),
    ensures
        !apply_upto(x, m).contains('\u{c3}'),
    decreases m,
{
    if m > 18 {
        lemma_later_stages_keep_removed(x, m - 1);
        assert(!repair_table()[m - 1].1.contains('\u{c3}'));
        if apply_upto(x, m).contains('\u{c3}') {
            lemma_replace_all_chars_from(
                apply_upto(x, m - 1),
                repair_table()[m - 1].0,
                repair_table()[m - 1].1,
                '\u{c3}',
            );
        }
    }
}

/// Idempotence is conditional, both ways: repairing a second time changes
/// nothing exactly when the repaired text holds none of the table's
/// corrupted substrings.
pub proof fn lemma_repair_idempotent_iff(s: Seq<char>)
    ensures
        repair_str(repair_str(s)) == repair_str(s) <==> contains_no_pattern(repair_str(s)),
{
    let x = repair_str(s);
    if contains_no_pattern(x) {
        lemma_repair_conditional_idempotent(s);
    }
    if repair_str(x) == x {
        if is_ascii_seq(x) {
            assert forall|k: int|
                0 <= k < repair_table().len() implies !contains_sub(
                x,
                #[trigger] repair_table()[k].0,
            ) by {
                if contains_sub(x, repair_table()[k].0) {
                    let pat = repair_table()[k].0;
                    let i = choose|i: int|
                        0 <= i <= x.len() - pat.len() && #[trigger] x.subrange(
                            i,
                            i + pat.len() as int,
                        ) == pat;
                    assert(x.subrange(i, i + pat.len() as int)[0] == x[i]);
                    assert((pat[0] as u32) >= 128);
                }
            }
        } else {
            lemma_unchanged_pass_is_clean(x, repair_table().len() as int);
        }
    }
}


/// A character already present keeps appearing through later stages whose
/// patterns do not mention it.
proof fn lemma_char_survives_stages(s: Seq<char>, c: char, j: int, m: int)
    requires
        0 <= j <= m <= repair_table().len(),
        apply_upto(s, j).contains(c),
        forall|t: int| j <= t < m ==> !(#[trigger] repair_table()[t].0).contains(c),
    ensures
        apply_upto(s, m).contains(c),
    decreases m - j,
{
    if m > j {
        lemma_char_survives_stages(s, c, j, m - 1);
        lemma_replace_all_preserves_char(
            apply_upto(s, m - 1),
            repair_table()[m - 1].0,
            repair_table()[m - 1].1,
            c,
        );
    }
}

/// When a corrupted substring still occurs at its own stage — for the first
/// table entry that simply means the name holds it — its correction appears
/// in the fully repaired name: no pattern mentions a corrected glyph, so no
/// later rewrite can take it away. The one deletion entry inserts nothing
/// and is excluded.
pub proof fn lemma_repair_replacement_appears(s: Seq<char>, k: int)
    requires
        0 <= k < repair_table().len(),
        k != 18,
        !is_ascii_seq(s),
        contains_sub(apply_upto(s, k), repair_table()[k].0),
    ensures
        repair_str(s).contains(repair_table()[k].1[0]),
{
    let c = repair_table()[k].1[0];
    assert(repair_table()[k].1.len() == 1);
    lemma_repair_stage_introduces(s, k);
    assert(repair_table()[k].1 =~= seq![c]);
    lemma_contains_sub_single(apply_upto(s, k + 1), c);
    assert(forall|t: int|
        k + 1 <= t < repair_table().len() ==> !(#[trigger] repair_table()[t].0).contains(c));
    lemma_char_survives_stages(s, c, k + 1, repair_table().len() as int);
}

} // verus!

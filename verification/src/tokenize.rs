//! The line tokenizer: splits a ranking line at the first run of a fixed
//! number of spaces into a name field and a trailing data field, splits the
//! trailing field into whitespace-delimited tokens, and inserts an empty
//! country token when the source omitted the country code.

use crate::rows::split_ws;
use crate::rows::split_ws_vec;
use crate::rows::views_of;
use vstd::prelude::*;

verus! {

/// A run of `w` spaces begins at position `p`.
pub open spec fn space_run_at(s: Seq<char>, w: nat, p: int) -> bool {
    0 <= p && p + w <= s.len() && forall|j: int| 0 <= j < w ==> (#[trigger] s[p + j]) == ' '
}

/// The first position where a run of `w` spaces begins, or a negative value
/// when no such run exists.
pub open spec fn find_sep(s: Seq<char>, w: nat) -> int
    decreases s.len(),
{
    if s.len() < w {
        -1
    } else if space_run_at(s, w, 0) {
        0
    } else if s.len() == w {
        -1
    } else {
        let r = find_sep(s.drop_first(), w);
        if r < 0 {
            -1
        } else {
            r + 1
        }
    }
}

/// A separator run found at `k`, with none earlier, is what `find_sep` finds.
pub proof fn lemma_find_sep_found(s: Seq<char>, w: nat, k: int)
    requires
        space_run_at(s, w, k),
        forall|p: int| 0 <= p < k ==> !space_run_at(s, w, p),
    ensures
        find_sep(s, w) == k,
    decreases k,
{
    if k == 0 {
    } else {
        let d = s.drop_first();
        assert forall|j: int| 0 <= j < w implies (#[trigger] d[k - 1 + j]) == ' ' by {
            assert(d[k - 1 + j] == s[k + j]);
            assert((#[trigger] s[k + j]) == ' ');
        }
        assert(space_run_at(d, w, k - 1));
        assert forall|p: int| 0 <= p < k - 1 implies !space_run_at(d, w, p) by {
            if space_run_at(d, w, p) {
                assert forall|j: int| 0 <= j < w implies (#[trigger] s[p + 1 + j]) == ' ' by {
                    assert(s[p + 1 + j] == d[p + j]);
                    assert((#[trigger] d[p + j]) == ' ');
                }
                assert(space_run_at(s, w, p + 1));
            }
        }
        lemma_find_sep_found(d, w, k - 1);
        assert(!space_run_at(s, w, 0));
    }
}

/// When no separator run exists anywhere, `find_sep` reports none.
pub proof fn lemma_find_sep_none(s: Seq<char>, w: nat)
    requires
        forall|p: int| 0 <= p <= s.len() - w ==> !space_run_at(s, w, p),
    ensures
        find_sep(s, w) < 0,
    decreases s.len(),
{
    if s.len() < w {
    } else if s.len() == w {
    } else {
        let d = s.drop_first();
        assert forall|p: int| 0 <= p <= d.len() - w implies !space_run_at(d, w, p) by {
            if space_run_at(d, w, p) {
                assert forall|j: int| 0 <= j < w implies (#[trigger] s[p + 1 + j]) == ' ' by {
                    assert(s[p + 1 + j] == d[p + j]);
                    assert((#[trigger] d[p + j]) == ' ');
                }
                assert(space_run_at(s, w, p + 1));
            }
        }
        lemma_find_sep_none(d, w);
    }
}

/// A line is well formed for width `w` when it holds a separator run.
pub open spec fn line_ok(line: Seq<char>, w: nat) -> bool {
    find_sep(line, w) >= 0
}

/// The name field of a well-formed line: everything before the separator.
pub open spec fn name_of_line(line: Seq<char>, w: nat) -> Seq<char> {
    line.take(find_sep(line, w))
}

/// The trailing tokens of a well-formed line, with an empty country token
/// inserted in front when exactly two tokens were present.
pub open spec fn tokens_of_line(line: Seq<char>, w: nat) -> Seq<Seq<char>> {
    let toks = split_ws(line.skip(find_sep(line, w) + w));
    if toks.len() == 2 {
        seq![Seq::<char>::empty()] + toks
    } else {
        toks
    }
}

/// Splits one line at the first run of `w` spaces into its name field and
/// trailing tokens; reports failure when no such run exists.
pub fn tokenize_line(line: &Vec<char>, w: usize) -> (r: Option<(Vec<char>, Vec<Vec<char>>)>)
    ensures
        r is Some <==> line_ok(line@, w as nat),
        r is Some ==> {
            let (name, toks) = r->0;
            &&& name@ == name_of_line(line@, w as nat)
            &&& views_of(toks@) == tokens_of_line(line@, w as nat)
        },
{
    let n = line.len();
    if w > n {
        proof {
            lemma_find_sep_none(line@, w as nat);
        }
        return None;
    }
    let mut p: usize = 0;
    let mut found: bool = false;
    while !found && p <= n - w
        invariant
            w <= n,
            n == line@.len(),
            p <= n - w + 1,
            !found ==> forall|q: int| 0 <= q < p ==> !space_run_at(line@, w as nat, q),
            found ==> p <= n - w && space_run_at(line@, w as nat, p as int) && forall|q: int|
                0 <= q < p ==> !space_run_at(line@, w as nat, q),
        decreases n - p + (if found {
            0int
        } else {
            1int
        }),
    {
        let mut j: usize = 0;
        let mut all_spaces = true;
        while j < w
            invariant
                j <= w,
                p + w <= n,
                n == line@.len(),
                all_spaces ==> forall|t: int| 0 <= t < j ==> (#[trigger] line@[p + t]) == ' ',
                !all_spaces ==> exists|t: int|
                    0 <= t < w && (#[trigger] line@[p + t]) != ' ',
            decreases w - j,
    {
            if line[p + j] != ' ' {
                proof {
                    assert(0 <= j < w && (line@[p + j as int]) != ' ');
                }
                all_spaces = false;
                j = w;
            } else {
                j += 1;
            }
        }
        if all_spaces {
            found = true;
            proof {
                assert(space_run_at(line@, w as nat, p as int));
            }
        } else {
            proof {
                let t = choose|t: int| 0 <= t < w && (#[trigger] line@[p + t]) != ' ';
                assert(!space_run_at(line@, w as nat, p as int));
            }
            p += 1;
        }
    }
    if !found {
        proof {
            assert(forall|q: int|
                0 <= q <= line@.len() - w ==> !space_run_at(line@, w as nat, q));
            lemma_find_sep_none(line@, w as nat);
        }
        return None;
    }
    proof {
        lemma_find_sep_found(line@, w as nat, p as int);
    }
    let name = crate::rows::copy_range(line, 0, p);
    let rest = crate::rows::copy_range(line, p + w, n);
    let mut toks = split_ws_vec(&rest);
    proof {
        assert(name@ =~= name_of_line(line@, w as nat));
        assert(rest@ =~= line@.skip(find_sep(line@, w as nat) + w as nat));
    }
    if toks.len() == 2 {
        let empty: Vec<char> = Vec::new();
        toks.insert(0, empty);
        proof {
            assert(views_of(toks@) =~~= seq![Seq::<char>::empty()] + split_ws(
                line@.skip(find_sep(line@, w as nat) + w as nat),
            ));
        }
    }
    Some((name, toks))
}

/// Trailing-token discipline: three tokens pass through unchanged, two gain
/// an empty country token in front, any other count passes through unchanged
/// (to fail later at numeric conversion).
pub proof fn lemma_token_counts(line: Seq<char>, w: nat)
    requires
        line_ok(line, w),
    ensures
        split_ws(line.skip(find_sep(line, w) + w)).len() == 2 ==> tokens_of_line(line, w)
            == seq![Seq::<char>::empty()] + split_ws(line.skip(find_sep(line, w) + w)),
        split_ws(line.skip(find_sep(line, w) + w)).len() != 2 ==> tokens_of_line(line, w)
            == split_ws(line.skip(find_sep(line, w) + w)),
{
}

} // verus!

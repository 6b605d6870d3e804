//! The country aggregator: the distinct countries of a snapshot in strictly
//! increasing alphabetical order, and the top countries by record count with
//! a deliberate, deterministic tie-break (alphabetical among equal counts).

use crate::records::Player;
use crate::text::lemma_seq_lt_irrefl;
use crate::text::lemma_seq_lt_trans;
use crate::text::lemma_seq_lt_trichotomy;
use crate::text::seq_lt;
use crate::text::str_lt;
use vstd::prelude::*;
use vstd::string::*;

verus! {

/// Some record of the snapshot has this country.
pub open spec fn has_country(ps: Seq<Player>, c: Seq<char>) -> bool {
    exists|i: int| 0 <= i < ps.len() && (#[trigger] ps[i]).country@ == c
}

/// The number of records from a country.
pub open spec fn count_country(ps: Seq<Player>, c: Seq<char>) -> int
    decreases ps.len(),
{
    if ps.len() == 0 {
        0
    } else {
        count_country(ps.drop_last(), c) + if ps.last().country@ == c {
            1int
        } else {
            0int
        }
    }
}

/// The country appears among the listed names.
pub open spec fn in_list(cs: Seq<String>, c: Seq<char>) -> bool {
    exists|i: int| 0 <= i < cs.len() && (#[trigger] cs[i])@ == c
}

/// Counts the records with exactly this country.
pub fn count_country_vec(players: &Vec<Player>, c: &String) -> (r: usize)
    ensures
        r as int == count_country(players@, c@),
        r <= players@.len(),
{
    let mut r: usize = 0;
    let mut i: usize = 0;
    while i < players.len()
        invariant
            i <= players@.len(),
            r as int == count_country(players@.take(i as int), c@),
            r <= i,
        decreases players@.len() - i,
    {
        proof {
            assert(players@.take(i + 1).drop_last() =~= players@.take(i as int));
            assert(players@.take(i + 1).last() == players@[i as int]);
        }
        if players[i].country == *c {
            r = r + 1;
        }
        i += 1;
    }
    proof {
        assert(players@.take(players@.len() as int) =~= players@);
    }
    r
}

/// The distinct countries of the snapshot, as a strictly increasing
/// alphabetical list: every listed country occurs in the snapshot, and every
/// country of the snapshot is listed.
pub fn get_all_countries(players: &Vec<Player>) -> (r: Vec<String>)
    ensures
        forall|i: int, j: int| 0 <= i < j < r@.len() ==> seq_lt(#[trigger] r@[i]@, #[trigger] r@[j]@),
        forall|i: int, j: int| 0 <= i < j < r@.len() ==> (#[trigger] r@[i])@ != (#[trigger] r@[j])@,
        forall|i: int| 0 <= i < r@.len() ==> has_country(players@, (#[trigger] r@[i])@),
        forall|c: Seq<char>| #[trigger] has_country(players@, c) ==> in_list(r@, c),
{
    let mut r: Vec<String> = Vec::new();
    let mut k: usize = 0;
    while k < players.len()
        invariant
            k <= players@.len(),
            forall|i: int, j: int|
                0 <= i < j < r@.len() ==> seq_lt(#[trigger] r@[i]@, #[trigger] r@[j]@),
            forall|i: int| 0 <= i < r@.len() ==> has_country(players@, (#[trigger] r@[i])@),
            forall|t: int| 0 <= t < k ==> in_list(r@, (#[trigger] players@[t]).country@),
        decreases players@.len() - k,
    {
        let c = &players[k].country;
        let mut t: usize = 0;
        while t < r.len() && str_lt(r[t].as_str(), c.as_str())
            invariant
                t <= r@.len(),
                forall|u: int| 0 <= u < t ==> seq_lt((#[trigger] r@[u])@, c@),
            decreases r@.len() - t,
        {
            t += 1;
        }
        if t < r.len() && r[t] == *c {
            proof {
                assert(in_list(r@, players@[k as int].country@));
            }
        } else {
            let ghost r_prev = r@;
            proof {
                if t < r_prev.len() {
                    lemma_seq_lt_trichotomy(c@, r_prev[t as int]@);
                    assert(seq_lt(c@, r_prev[t as int]@));
                }
            }
            let cc = c.clone();
            r.insert(t, cc);
            proof {
                assert(r@[t as int]@ == players@[k as int].country@);
                assert(in_list(r@, players@[k as int].country@));
                assert forall|i: int, j: int| 0 <= i < j < r@.len() implies seq_lt(
                    (#[trigger] r@[i])@,
                    (#[trigger] r@[j])@,
                ) by {
                    if j < t {
                        assert(r@[i] == r_prev[i] && r@[j] == r_prev[j]);
                    } else if i < t && j == t {
                        assert(r@[i] == r_prev[i]);
                    } else if i < t && j > t {
                        assert(r@[i] == r_prev[i] && r@[j] == r_prev[j - 1]);
                    } else if i == t && j > t {
                        assert(r@[j] == r_prev[j - 1]);
                        if t < r_prev.len() {
                            if t < j - 1 {
                                lemma_seq_lt_trans(c@, r_prev[t as int]@, r_prev[j - 1]@);
                            }
                        }
                    } else {
                        assert(r@[i] == r_prev[i - 1] && r@[j] == r_prev[j - 1]);
                    }
                }
                assert forall|t2: int| 0 <= t2 < k + 1 implies in_list(
                    r@,
                    (#[trigger] players@[t2]).country@,
                ) by {
                    if t2 < k {
                        let w = choose|w: int|
                            0 <= w < r_prev.len() && (#[trigger] r_prev[w])@ == players@[
                                t2].country@;
                        if w < t {
                            assert(r@[w]@ == players@[t2].country@);
                        } else {
                            assert(r@[w + 1]@ == players@[t2].country@);
                        }
                    }
                }
            }
        }
        k += 1;
    }
    proof {
        assert forall|c: Seq<char>| #[trigger] has_country(players@, c) implies in_list(r@, c) by {
            let w = choose|w: int| 0 <= w < players@.len() && (#[trigger] players@[w]).country@ == c;
            assert(in_list(r@, players@[w].country@));
        }
        assert forall|i: int, j: int| 0 <= i < j < r@.len() implies (#[trigger] r@[i])@
            != (#[trigger] r@[j])@ by {
            lemma_seq_lt_irrefl(r@[i]@);
        }
    }
    r
}

/// One country outranks another: strictly more records, or equally many and
/// alphabetically earlier (the deterministic tie-break).
pub open spec fn top_order(ps: Seq<Player>, a: Seq<char>, b: Seq<char>) -> bool {
    count_country(ps, a) > count_country(ps, b) || (count_country(ps, a) == count_country(ps, b)
        && seq_lt(a, b))
}

/// The top `n` countries by record count, ties broken alphabetically: never
/// more than `n`, never a country absent from the snapshot, listed in
/// strictly decreasing rank; when fewer than `n` are returned every country
/// is listed, and every unlisted country is outranked by every listed one.
pub fn get_top_countries(players: &Vec<Player>, n: usize) -> (r: Vec<String>)
    ensures
        r@.len() <= n,
        forall|i: int| 0 <= i < r@.len() ==> has_country(players@, (#[trigger] r@[i])@),
        forall|i: int, j: int|
            0 <= i < j < r@.len() ==> top_order(players@, (#[trigger] r@[i])@, (#[trigger] r@[j])@),
        forall|i: int, j: int| 0 <= i < j < r@.len() ==> (#[trigger] r@[i])@ != (#[trigger] r@[j])@,
        r@.len() < n ==> forall|c: Seq<char>| #[trigger] has_country(players@, c) ==> in_list(
            r@,
            c,
        ),
        forall|c: Seq<char>, i: int|
            #[trigger] has_country(players@, c) && !in_list(r@, c) && 0 <= i < r@.len()
                ==> top_order(players@, (#[trigger] r@[i])@, c),
{
    let mut cands = get_all_countries(players);
    let mut cnts: Vec<usize> = Vec::new();
    let mut t: usize = 0;
    while t < cands.len()
        invariant
            t <= cands@.len(),
            cnts@.len() == t,
            forall|u: int|
                0 <= u < t ==> (#[trigger] cnts@[u]) as int == count_country(
                    players@,
                    cands@[u]@,
                ),
        decreases cands@.len() - t,
    {
        let c = count_country_vec(players, &cands[t]);
        cnts.push(c);
        t += 1;
    }
    let mut out: Vec<String> = Vec::new();
    while out.len() < n && cands.len() > 0
        invariant
            out@.len() <= n,
            cnts@.len() == cands@.len(),
            forall|u: int|
                0 <= u < cands@.len() ==> (#[trigger] cnts@[u]) as int == count_country(
                    players@,
                    cands@[u]@,
                ),
            forall|u: int, v: int|
                0 <= u < v < cands@.len() ==> seq_lt(
                    (#[trigger] cands@[u])@,
                    (#[trigger] cands@[v])@,
                ),
            forall|u: int| 0 <= u < cands@.len() ==> has_country(players@, (#[trigger] cands@[u])@),
            forall|i: int| 0 <= i < out@.len() ==> has_country(players@, (#[trigger] out@[i])@),
            forall|i: int, j: int|
                0 <= i < j < out@.len() ==> top_order(
                    players@,
                    (#[trigger] out@[i])@,
                    (#[trigger] out@[j])@,
                ),
            forall|i: int, u: int|
                0 <= i < out@.len() && 0 <= u < cands@.len() ==> top_order(
                    players@,
                    (#[trigger] out@[i])@,
                    (#[trigger] cands@[u])@,
                ),
            forall|c: Seq<char>|
                #[trigger] has_country(players@, c) ==> in_list(out@, c) || in_list(cands@, c),
        decreases n - out@.len(),
    {
        let mut best: usize = 0;
        let mut u: usize = 1;
        while u < cands.len()
            invariant
                best < u <= cands@.len(),
                cnts@.len() == cands@.len(),
                forall|v: int|
                    0 <= v < u ==> (#[trigger] cnts@[v]) <= cnts@[best as int] && (cnts@[v]
                        == cnts@[best as int] ==> best <= v),
            decreases cands@.len() - u,
        {
            if cnts[u] > cnts[best] {
                best = u;
            }
            u += 1;
        }
        let ghost cands_prev = cands@;
        let ghost cnts_prev = cnts@;
        let chosen = cands.remove(best);
        let _ = cnts.remove(best);
        proof {
            assert(chosen == cands_prev[best as int]);
            assert forall|v: int|
                0 <= v < cands@.len() implies top_order(
                    players@,
                    chosen@,
                    (#[trigger] cands@[v])@,
                ) by {
                let w: int = if v < best {
                    v
                } else {
                    v + 1
                };
                assert(cands@[v] == cands_prev[w]);
                assert(cnts@[v] == cnts_prev[w]);
                if cnts_prev[w] == cnts_prev[best as int] {
                    if w < best {
                        assert(false);
                    } else {
                        assert(seq_lt(cands_prev[best as int]@, cands_prev[w]@));
                    }
                }
            }
            assert forall|c: Seq<char>|
                #[trigger] has_country(players@, c) implies in_list(out@.push(chosen), c)
                || in_list(cands@, c) by {
                if in_list(out@, c) {
                    let w = choose|w: int| 0 <= w < out@.len() && (#[trigger] out@[w])@ == c;
                    assert(out@.push(chosen)[w]@ == c);
                } else if in_list(cands_prev, c) {
                    let w = choose|w: int|
                        0 <= w < cands_prev.len() && (#[trigger] cands_prev[w])@ == c;
                    if w == best {
                        assert(out@.push(chosen)[out@.len() as int]@ == c);
                    } else if w < best {
                        assert(cands@[w]@ == c);
                    } else {
                        assert(cands@[w - 1]@ == c);
                    }
                }
            }
        }
        out.push(chosen);
    }
    proof {
        assert forall|c: Seq<char>, i: int|
            #[trigger] has_country(players@, c) && !in_list(out@, c) && 0 <= i < out@.len()
                implies top_order(players@, (#[trigger] out@[i])@, c) by {
            let w = choose|w: int| 0 <= w < cands@.len() && (#[trigger] cands@[w])@ == c;
        }
        if out@.len() < n {
            assert(cands@.len() == 0);
        }
        assert forall|i: int, j: int| 0 <= i < j < out@.len() implies (#[trigger] out@[i])@
            != (#[trigger] out@[j])@ by {
            lemma_seq_lt_irrefl(out@[i]@);
        }
    }
    out
}

} // verus!

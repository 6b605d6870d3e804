//! The history merge engine: matches every current record against a prior
//! snapshot by name (first match in document order), appends the prior
//! values to the record's history under a caller-supplied label, and
//! recomputes both signed deltas from the just-appended entry. Records
//! without a match are left completely unmodified.

use crate::records::Player;
use crate::records::RankHistory;
use vstd::prelude::*;
use vstd::string::*;

verus! {

/// The first index in `history` whose record's name reads the same as
/// `name`, or a negative value when no record matches.
pub open spec fn find_match(history: Seq<Player>, name: Seq<char>) -> int
    decreases history.len(),
{
    if history.len() == 0 {
        -1
    } else if history[0].name@ == name {
        0
    } else {
        let r = find_match(history.drop_first(), name);
        if r < 0 {
            -1
        } else {
            r + 1
        }
    }
}

/// A matching record at `k`, with none earlier, is what `find_match` finds.
pub proof fn lemma_find_match_found(history: Seq<Player>, name: Seq<char>, k: int)
    requires
        0 <= k < history.len(),
        history[k].name@ == name,
        forall|p: int| 0 <= p < k ==> (#[trigger] history[p]).name@ != name,
    ensures
        find_match(history, name) == k,
    decreases k,
{
    if k > 0 {
        let d = history.drop_first();
        assert(d[k - 1] == history[k]);
        assert(forall|p: int|
            0 <= p < k - 1 ==> (#[trigger] d[p]) == history[p + 1] && history[p + 1].name@
                != name);
        lemma_find_match_found(d, name, k - 1);
    }
}

/// With no matching record anywhere, `find_match` reports none.
pub proof fn lemma_find_match_none(history: Seq<Player>, name: Seq<char>)
    requires
        forall|p: int| 0 <= p < history.len() ==> (#[trigger] history[p]).name@ != name,
    ensures
        find_match(history, name) < 0,
    decreases history.len(),
{
    if history.len() > 0 {
        let d = history.drop_first();
        assert(forall|p: int|
            0 <= p < d.len() ==> (#[trigger] d[p]) == history[p + 1] && history[p + 1].name@
                != name);
        lemma_find_match_none(d, name);
    }
}

/// Finds the first prior record with the given name.
fn find_match_vec(history: &Vec<Player>, name: &String) -> (r: Option<usize>)
    ensures
        match r {
            Some(j) => find_match(history@, name@) == j && j < history@.len(),
            None => find_match(history@, name@) < 0,
        },
{
    let mut t: usize = 0;
    while t < history.len()
        invariant
            t <= history.len(),
            forall|p: int| 0 <= p < t ==> (#[trigger] history@[p]).name@ != name@,
        decreases history.len() - t,
    {
        if history[t].name == *name {
            proof {
                lemma_find_match_found(history@, name@, t as int);
            }
            return Some(t);
        }
        t += 1;
    }
    proof {
        lemma_find_match_none(history@, name@);
    }
    None
}

/// The current record at `i`, merged against `history` under `date`: either
/// untouched (no match) or enriched with one more history entry and fresh
/// deltas computed from the first matching prior record.
pub open spec fn merged_at(
    cur: Seq<Player>,
    history: Seq<Player>,
    date: Seq<char>,
    i: int,
    p: Player,
) -> bool {
    let j = find_match(history, cur[i].name@);
    if j < 0 {
        p == cur[i]
    } else {
        &&& p.name == cur[i].name
        &&& p.country == cur[i].country
        &&& p.points == cur[i].points
        &&& p.position == cur[i].position
        &&& p.rank_history.0@.len() == cur[i].rank_history.0@.len() + 1
        &&& p.rank_history.0@.take(cur[i].rank_history.0@.len() as int)
            == cur[i].rank_history.0@
        &&& p.rank_history.0@.last().date@ == date
        &&& p.rank_history.0@.last().points == history[j].points
        &&& p.rank_history.0@.last().position == history[j].position
        &&& p.points_change.0 == Some((cur[i].points - history[j].points) as i32)
        &&& p.position_change.0 == Some((history[j].position - cur[i].position) as i32)
    }
}

/// Merges a prior snapshot into the current records, in place: every current
/// record with a matching prior record (first match by document order) gains
/// one history entry labeled `date` and recomputed deltas; all others are
/// untouched.
pub fn add_rank_history(players: &mut Vec<Player>, history: &Vec<Player>, date: &str)
    ensures
        final(players)@.len() == old(players)@.len(),
        forall|i: int|
            0 <= i < old(players)@.len() ==> merged_at(
                old(players)@,
                history@,
                date@,
                i,
                #[trigger] final(players)@[i],
            ),
{
    let n = players.len();
    let mut i: usize = 0;
    while i < n
        invariant
            i <= n,
            n == players@.len(),
            players@.len() == old(players)@.len(),
            forall|t: int|
                0 <= t < i ==> merged_at(
                    old(players)@,
                    history@,
                    date@,
                    t,
                    #[trigger] players@[t],
                ),
            forall|t: int| i <= t < n ==> (#[trigger] players@[t]) == old(players)@[t],
        decreases n - i,
    {
        let found = find_match_vec(history, &players[i].name);
        if let Some(j) = found {
            let entry = RankHistory {
                date: String::from_str(date),
                points: history[j].points,
                position: history[j].position,
            };
            let ghost before = players@;
            let elem = &mut players[i];
            elem.add_rank_history_data(entry);
            proof {
                assert(players@ =~= before.update(i as int, players@[i as int]));
                assert(players@[i as int].rank_history.0@.take(
                    old(players)@[i as int].rank_history.0@.len() as int,
                ) =~= old(players)@[i as int].rank_history.0@);
            }
        }
        i += 1;
    }
}

} // verus!

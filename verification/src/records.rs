//! The record types of a snapshot: a ranked player, one prior observation,
//! the accumulated history, and the optional signed deltas with their
//! explicit-sign display rule.

use crate::numbers::dec_digits;
use crate::numbers::int_chars;
use crate::numbers::int_str;
use crate::rows::push_all;
use crate::text::chars_string;
use vstd::prelude::*;
use vstd::string::*;

verus! {

/// An optional value: absent until the first history merge.
#[derive(Clone, Debug, Default)]
pub struct DisplayOption<T>(pub Option<T>);

/// One prior snapshot's observation of a player: an opaque label and the
/// points and position recorded then.
#[derive(Clone, Debug)]
pub struct RankHistory {
    pub date: String,
    pub points: i16,
    pub position: i16,
}

/// The ordered history of prior observations, oldest first.
#[derive(Clone, Debug, Default)]
pub struct RankHistoryDisplay(pub Vec<RankHistory>);

/// One ranked entity of a snapshot.
#[derive(Clone, Debug)]
pub struct Player {
    pub name: String,
    pub country: String,
    pub points: i16,
    pub position: i16,
    pub rank_history: RankHistoryDisplay,
    pub points_change: DisplayOption<i32>,
    pub position_change: DisplayOption<i32>,
}

/// Marker for the player table as a whole.
pub struct PlayerData {}

/// The display rule for an optional delta: a leading plus for positive
/// values, the plain number otherwise, a dash when absent.
pub open spec fn display_option_str(o: Option<i32>) -> Seq<char> {
    match o {
        Option::None => seq!['-'],
        Option::Some(v) => if v > 0 {
            seq!['+'] + dec_digits(v as int)
        } else {
            int_str(v as int)
        },
    }
}

impl DisplayOption<i32> {
    /// Renders the delta under the explicit-sign display rule.
    pub fn render(&self) -> (s: String)
        ensures
            s@ == display_option_str(self.0),
    {
        match self.0 {
            Option::None => {
                let s = String::from_str("-");
                proof {
                    reveal_strlit("-");
                    assert(s@ =~= seq!['-']);
                }
                s
            },
            Option::Some(v) => {
                let mut out: Vec<char> = Vec::new();
                if v > 0 {
                    out.push('+');
                }
                let digits = int_chars(v);
                push_all(&mut out, &digits);
                proof {
                    if v > 0 {
                        assert(out@ =~= seq!['+'] + dec_digits(v as int));
                    } else {
                        assert(out@ =~= int_str(v as int));
                    }
                }
                chars_string(&out)
            },
        }
    }
}

/// The rendered form of one history entry.
pub open spec fn rank_history_entry_str(h: RankHistory) -> Seq<char> {
    "Previous: "@ + h.date@ + ", Points: "@ + int_str(h.points as int) + ", Position: "@ + int_str(
        h.position as int,
    )
}

/// The rendered form of the first `n` history entries, concatenated.
pub open spec fn rank_history_str(hs: Seq<RankHistory>, n: int) -> Seq<char>
    decreases n,
{
    if n <= 0 {
        Seq::<char>::empty()
    } else {
        rank_history_str(hs, n - 1) + rank_history_entry_str(hs[n - 1])
    }
}

impl RankHistoryDisplay {
    /// Renders every history entry in order.
    pub fn render(&self) -> (s: String)
        ensures
            s@ == rank_history_str(self.0@, self.0@.len() as int),
    {
        let mut out = String::new();
        let mut i: usize = 0;
        while i < self.0.len()
            invariant
                i <= self.0.len(),
                out@ == rank_history_str(self.0@, i as int),
            decreases self.0.len() - i,
        {
            out.append("Previous: ");
            out.append(self.0[i].date.as_str());
            out.append(", Points: ");
            let p = int_chars(self.0[i].points as i32);
            let ps = chars_string(&p);
            out.append(ps.as_str());
            out.append(", Position: ");
            let q = int_chars(self.0[i].position as i32);
            let qs = chars_string(&q);
            out.append(qs.as_str());
            i += 1;
            proof {
                assert(out@ =~= rank_history_str(self.0@, i - 1) + rank_history_entry_str(
                    self.0@[i - 1],
                ));
            }
        }
        out
    }
}

impl Player {
    /// A freshly loaded player: no history, no deltas.
    pub fn new(name: String, country: String, points: i16, position: i16) -> (p: Player)
        ensures
            p.name == name,
            p.country == country,
            p.points == points,
            p.position == position,
            p.rank_history.0@ == Seq::<RankHistory>::empty(),
            p.points_change.0 is None,
            p.position_change.0 is None,
    {
        let p = Player {
            name,
            country,
            points,
            position,
            rank_history: RankHistoryDisplay(Vec::new()),
            points_change: DisplayOption(None),
            position_change: DisplayOption(None),
        };
        proof {
            assert(p.rank_history.0@ =~= Seq::<RankHistory>::empty());
        }
        p
    }

    /// Recomputes both deltas from the most recent history entry; a player
    /// with no history is left unchanged.
    pub fn calculate_rank_change(&mut self)
        ensures
            final(self).name == old(self).name,
            final(self).country == old(self).country,
            final(self).points == old(self).points,
            final(self).position == old(self).position,
            final(self).rank_history.0@ == old(self).rank_history.0@,
            old(self).rank_history.0@.len() == 0 ==> *final(self) == *old(self),
            old(self).rank_history.0@.len() > 0 ==> {
                let last = old(self).rank_history.0@.last();
                &&& final(self).points_change.0 == Some(
                    (old(self).points - last.points) as i32,
                )
                &&& final(self).position_change.0 == Some(
                    (last.position - old(self).position) as i32,
                )
            },
    {
        let n = self.rank_history.0.len();
        if n > 0 {
            let hp = self.rank_history.0[n - 1].points;
            let hq = self.rank_history.0[n - 1].position;
            self.points_change = DisplayOption(Some((self.points as i32) - (hp as i32)));
            self.position_change = DisplayOption(Some((hq as i32) - (self.position as i32)));
        }
    }

    /// Appends one prior observation to the history and recomputes both
    /// deltas from it.
    pub fn add_rank_history_data(&mut self, rank_history_data: RankHistory)
        ensures
            final(self).name == old(self).name,
            final(self).country == old(self).country,
            final(self).points == old(self).points,
            final(self).position == old(self).position,
            final(self).rank_history.0@ == old(self).rank_history.0@.push(rank_history_data),
            final(self).points_change.0 == Some(
                (old(self).points - rank_history_data.points) as i32,
            ),
            final(self).position_change.0 == Some(
                (rank_history_data.position - old(self).position) as i32,
            ),
    {
        self.rank_history.0.push(rank_history_data);
        self.calculate_rank_change();
    }
}

} // verus!

//! The team ledger: one team's name and, per round, its lineup and its
//! points, with score and lineup bookkeeping and the leaderboard orderings.

use core::cmp::Ordering;
use vstd::prelude::*;

use crate::draft::Drafter;
use crate::error::{DraftError, ScoreError};
use crate::lookup::{find_index, insert_row, lemma_find_remove_other, lemma_find_remove_same,
    lemma_find_update_other, lemma_find_update_same, lemma_sorted_len_bound, spec_find,
    strictly_sorted};
use crate::race_results::DriverResult;
use crate::score::{spec_driver_score, ScoreChoice, Scorer};
use crate::utils::copy_drivers;

verus! {

/// What one team fields and earns in one round: the lineup, and the points
/// once the round is scored.
#[derive(Debug)]
pub struct TeamRound {
    pub lineup: Vec<u8>,
    pub points: Option<i64>,
}

impl TeamRound {
    /// A round record with a lineup and no points yet.
    pub fn new(lineup: Vec<u8>) -> (r: TeamRound)
        ensures
            r.lineup == lineup,
            r.points is None,
    {
        TeamRound { lineup, points: None }
    }
}

/// The points a round record contributes to sums: its points, or 0 while
/// unscored.
pub open spec fn spec_round_value(tr: TeamRound) -> int {
    match tr.points {
        Some(p) => p as int,
        None => 0,
    }
}

/// Round points never leave this bound: a lineup holds at most 255 drivers
/// and one driver's score at most 512 points.
pub open spec fn spec_points_bounded(points: Option<i64>) -> bool {
    match points {
        Some(p) => -130560 <= p <= 130560,
        None => true,
    }
}

/// The result record of `driver`: the first entry for that driver, if any.
pub open spec fn spec_result_for(results: Seq<DriverResult>, driver: u8) -> Option<DriverResult>
    decreases results.len(),
{
    if results.len() == 0 {
        None
    } else if results[0].driver == driver {
        Some(results[0])
    } else {
        spec_result_for(results.drop_first(), driver)
    }
}

pub proof fn lemma_result_for_at(results: Seq<DriverResult>, driver: u8, i: int)
    requires
        0 <= i < results.len(),
        results[i].driver == driver,
        forall|j: int| 0 <= j < i ==> results[j].driver != driver,
    ensures
        spec_result_for(results, driver) == Some(results[i]),
    decreases i,
{
    if i > 0 {
        lemma_result_for_at(results.drop_first(), driver, i - 1);
    }
}

pub proof fn lemma_result_for_none(results: Seq<DriverResult>, driver: u8)
    requires
        forall|j: int| 0 <= j < results.len() ==> results[j].driver != driver,
    ensures
        spec_result_for(results, driver) is None,
    decreases results.len(),
{
    if results.len() > 0 {
        lemma_result_for_none(results.drop_first(), driver);
    }
}

/// The result record of `driver`, found by scanning the round's results.
fn find_result(results: &Vec<DriverResult>, driver: u8) -> (r: Option<DriverResult>)
    ensures
        r == spec_result_for(results@, driver),
{
    let n = results.len();
    let mut i: usize = 0;
    while i < n
        invariant
            i <= n,
            n == results@.len(),
            forall|j: int| 0 <= j < i ==> results@[j].driver != driver,
        decreases n - i,
    {
        if results[i].driver == driver {
            proof {
                lemma_result_for_at(results@, driver, i as int);
            }
            return Some(results[i]);
        }
        i += 1;
    }
    proof {
        lemma_result_for_none(results@, driver);
    }
    None
}

/// A lineup's round score under `choice`: the sum of every lineup driver's
/// score, in lineup order; the first driver with no result record fails the
/// whole sum.
pub open spec fn spec_lineup_score(
    choice: ScoreChoice,
    grid_size: int,
    lineup: Seq<u8>,
    results: Seq<DriverResult>,
) -> Result<int, u8>
    decreases lineup.len(),
{
    if lineup.len() == 0 {
        Ok(0)
    } else {
        match spec_result_for(results, lineup[0]) {
            None => Err(lineup[0]),
            Some(dr) => match spec_lineup_score(choice, grid_size, lineup.drop_first(), results) {
                Err(d) => Err(d),
                Ok(rest) => Ok(spec_driver_score(choice, grid_size, dr) + rest),
            },
        }
    }
}

/// One team: its display name and its per-round records, keyed by round
/// number in increasing order.
#[derive(Debug)]
pub struct Team {
    name: String,
    rounds: Vec<(u8, TeamRound)>,
}

impl Team {
    pub closed spec fn spec_name(self) -> Seq<char> {
        self.name@
    }

    pub closed spec fn spec_rounds(self) -> Seq<(u8, TeamRound)> {
        self.rounds@
    }

    /// Whether the team has a record (hence a lineup) for `round`.
    pub open spec fn spec_has_round(self, round: u8) -> bool {
        spec_find(self.spec_rounds(), round) is Some
    }

    /// The team's lineup for `round`, if it has one.
    pub open spec fn spec_lineup_at(self, round: u8) -> Option<Seq<u8>> {
        match spec_find(self.spec_rounds(), round) {
            Some(tr) => Some(tr.lineup@),
            None => None,
        }
    }

    /// The team's points for `round`: `None` when the round has no record
    /// or is not scored.
    pub open spec fn spec_points_at(self, round: u8) -> Option<i64> {
        match spec_find(self.spec_rounds(), round) {
            Some(tr) => tr.points,
            None => None,
        }
    }

    /// Round records are keyed by strictly increasing round numbers, every
    /// lineup fits a byte-sized grid, and recorded points respect the
    /// per-round bound.
    pub closed spec fn wf(self) -> bool {
        &&& strictly_sorted(self.rounds@)
        &&& forall|j: int|
            0 <= j < self.rounds@.len() ==> (#[trigger] self.rounds@[j]).1.lineup@.len() <= 255
                && spec_points_bounded(self.rounds@[j].1.points)
    }

    /// A team seeded with its name and its first-round lineup.
    pub fn new(name: String, r1_lineup: Vec<u8>) -> (r: Team)
        requires
            r1_lineup@.len() <= 255,
        ensures
            r.wf(),
            r.spec_name() == name@,
            r.spec_has_round(1),
            forall|r2: u8| r2 != 1 ==> !r.spec_has_round(r2),
            r.spec_lineup_at(1) == Some(r1_lineup@),
            r.spec_points_at(1) is None,
    {
        let mut rounds: Vec<(u8, TeamRound)> = Vec::new();
        rounds.push((1, TeamRound::new(r1_lineup)));
        let t = Team { name, rounds };
        proof {
            assert forall|r2: u8| r2 != 1 implies !t.spec_has_round(r2) by {
                crate::lookup::lemma_find_none(t.rounds@.drop_first(), r2);
            }
        }
        t
    }

    /// The team's display name.
    pub fn name(&self) -> (r: String)
        ensures
            r@ == self.spec_name(),
    {
        self.name.clone()
    }

    /// The round score of this team's lineup for `round`, computed with
    /// `scorer` against the round's driver results; fails, naming the
    /// driver, when a lineup driver has no result record.
    pub fn calculate_score(
        &self,
        round: u8,
        grid_size: u8,
        scorer: &ScoreChoice,
        driver_results: &Vec<DriverResult>,
    ) -> (r: Result<i64, ScoreError>)
        requires
            self.wf(),
            self.spec_has_round(round),
        ensures
            match r {
                Ok(p) => spec_lineup_score(
                    *scorer,
                    grid_size as int,
                    self.spec_lineup_at(round)->0,
                    driver_results@,
                ) == Ok::<int, u8>(p as int) && spec_points_bounded(Some(p)),
                Err(e) => match spec_lineup_score(
                    *scorer,
                    grid_size as int,
                    self.spec_lineup_at(round)->0,
                    driver_results@,
                ) {
                    Err(d) => e == ScoreError::DriverDidNotRace(d),
                    Ok(_) => false,
                },
            },
    {
        let i = match find_index(&self.rounds, round) {
            Some(i) => i,
            None => {
                return Err(ScoreError::DriverDidNotRace(0));
            },
        };
        let lineup = &self.rounds[i].1.lineup;
        let ghost lv = lineup@;
        let n = lineup.len();
        let mut points: i64 = 0;
        let mut k: usize = 0;
        proof {
            assert(lv.subrange(0, n as int) =~= lv);
        }
        while k < n
            invariant
                k <= n,
                n == lv.len() <= 255,
                lineup@ == lv,
                self.spec_lineup_at(round) == Some(lv),
                -512 * k <= points <= 512 * k,
                spec_lineup_score(*scorer, grid_size as int, lv, driver_results@) == match
                    spec_lineup_score(
                    *scorer,
                    grid_size as int,
                    lv.subrange(k as int, n as int),
                    driver_results@,
                ) {
                    Ok(rest) => Ok::<int, u8>(points + rest),
                    Err(d) => Err::<int, u8>(d),
                },
            decreases n - k,
        {
            let ghost suffix = lv.subrange(k as int, n as int);
            let ghost suffix1 = lv.subrange(k as int + 1, n as int);
            proof {
                assert(suffix[0] == lv[k as int]);
                assert(suffix.drop_first() =~= suffix1);
            }
            let driver = lineup[k];
            match find_result(driver_results, driver) {
                None => {
                    proof {
                        assert(spec_lineup_score(*scorer, grid_size as int, suffix, driver_results@)
                            == Err::<int, u8>(driver));
                    }
                    return Err(ScoreError::DriverDidNotRace(driver));
                },
                Some(dr) => {
                    proof {
                        crate::score::lemma_driver_score_bound(*scorer, grid_size as int, dr);
                        if spec_lineup_score(*scorer, grid_size as int, suffix1, driver_results@)
                            is Ok {
                            assert(spec_lineup_score(
                                *scorer,
                                grid_size as int,
                                suffix,
                                driver_results@,
                            ) == Ok::<int, u8>(
                                spec_driver_score(*scorer, grid_size as int, dr)
                                    + spec_lineup_score(
                                    *scorer,
                                    grid_size as int,
                                    suffix1,
                                    driver_results@,
                                )->Ok_0,
                            ));
                        }
                    }
                    let ds = scorer.score(grid_size, &dr);
                    points = points + ds as i64;
                },
            }
            k += 1;
        }
        proof {
            assert(lv.subrange(n as int, n as int) =~= Seq::<u8>::empty());
        }
        Ok(points)
    }

    /// Records `score` as the round's points.
    pub fn store_score(&mut self, round: u8, score: i64)
        requires
            old(self).wf(),
            old(self).spec_has_round(round),
            spec_points_bounded(Some(score)),
        ensures
            final(self).wf(),
            final(self).spec_name() == old(self).spec_name(),
            final(self).spec_points_at(round) == Some(score),
            final(self).spec_lineup_at(round) == old(self).spec_lineup_at(round),
            forall|r2: u8|
                r2 != round ==> final(self).spec_points_at(r2) == old(self).spec_points_at(r2)
                    && final(self).spec_lineup_at(r2) == old(self).spec_lineup_at(r2),
            forall|r2: u8| final(self).spec_has_round(r2) == old(self).spec_has_round(r2),
    {
        self.set_points(round, Some(score));
    }

    /// Clears the round's points.
    pub fn delete_score(&mut self, round: u8)
        requires
            old(self).wf(),
            old(self).spec_has_round(round),
        ensures
            final(self).wf(),
            final(self).spec_name() == old(self).spec_name(),
            final(self).spec_points_at(round) is None,
            final(self).spec_lineup_at(round) == old(self).spec_lineup_at(round),
            forall|r2: u8|
                r2 != round ==> final(self).spec_points_at(r2) == old(self).spec_points_at(r2)
                    && final(self).spec_lineup_at(r2) == old(self).spec_lineup_at(r2),
            forall|r2: u8| final(self).spec_has_round(r2) == old(self).spec_has_round(r2),
    {
        self.set_points(round, None);
    }

    /// Overwrites the round's points cell.
    fn set_points(&mut self, round: u8, points: Option<i64>)
        requires
            old(self).wf(),
            old(self).spec_has_round(round),
            spec_points_bounded(points),
        ensures
            final(self).wf(),
            final(self).spec_name() == old(self).spec_name(),
            final(self).spec_points_at(round) == points,
            final(self).spec_lineup_at(round) == old(self).spec_lineup_at(round),
            forall|r2: u8|
                r2 != round ==> final(self).spec_points_at(r2) == old(self).spec_points_at(r2)
                    && final(self).spec_lineup_at(r2) == old(self).spec_lineup_at(r2),
            forall|r2: u8| final(self).spec_has_round(r2) == old(self).spec_has_round(r2),
    {
        let ghost s0 = self.rounds@;
        match find_index(&self.rounds, round) {
            Some(i) => {
                let row = self.rounds.remove(i);
                let new_tr = TeamRound { lineup: row.1.lineup, points };
                self.rounds.insert(i, (round, new_tr));
                proof {
                    assert(self.rounds@ =~= s0.update(i as int, (s0[i as int].0, new_tr)));
                    lemma_find_update_same(s0, i as int, new_tr);
                    assert forall|r2: u8| r2 != round implies spec_find(self.rounds@, r2)
                        == spec_find(s0, r2) by {
                        lemma_find_update_other(s0, i as int, new_tr, r2);
                    }
                    assert forall|a: int, b: int|
                        0 <= a < b < self.rounds@.len() implies self.rounds@[a].0
                        < self.rounds@[b].0 by {
                        assert(s0[a].0 < s0[b].0);
                    }
                }
            },
            None => {},
        }
    }

    /// Drops the round's record entirely (lineup and points), if present.
    pub fn delete_round(&mut self, round: u8)
        requires
            old(self).wf(),
        ensures
            final(self).wf(),
            final(self).spec_name() == old(self).spec_name(),
            !final(self).spec_has_round(round),
            forall|r2: u8|
                r2 != round ==> final(self).spec_points_at(r2) == old(self).spec_points_at(r2)
                    && final(self).spec_lineup_at(r2) == old(self).spec_lineup_at(r2)
                    && final(self).spec_has_round(r2) == old(self).spec_has_round(r2),
    {
        let ghost s0 = self.rounds@;
        match find_index(&self.rounds, round) {
            Some(i) => {
                let _ = self.rounds.remove(i);
                proof {
                    assert forall|j: int|
                        0 <= j < s0.len() && j != i implies s0[j].0 != s0[i as int].0 by {
                        if j < i {
                            assert(s0[j].0 < s0[i as int].0);
                        } else {
                            assert(s0[i as int].0 < s0[j].0);
                        }
                    }
                    lemma_find_remove_same(s0, i as int);
                    assert forall|r2: u8| r2 != round implies spec_find(self.rounds@, r2)
                        == spec_find(s0, r2) by {
                        lemma_find_remove_other(s0, i as int, r2);
                    }
                    assert forall|a: int, b: int|
                        0 <= a < b < self.rounds@.len() implies self.rounds@[a].0
                        < self.rounds@[b].0 by {
                        let a0: int = if a < i {
                            a
                        } else {
                            a + 1
                        };
                        let b0: int = if b < i {
                            b
                        } else {
                            b + 1
                        };
                        assert(self.rounds@[a] == s0[a0] && self.rounds@[b] == s0[b0]);
                    }
                }
            },
            None => {},
        }
    }

    /// The team's next-round lineup, drafted from its previous-round lineup
    /// by `drafter`.
    pub fn calculate_lineup(&self, round: u8, drafter: &mut Drafter) -> (r: Result<
        Vec<u8>,
        DraftError,
    >)
        requires
            self.wf(),
            round >= 1,
            self.spec_has_round((round - 1) as u8),
        ensures
            final(drafter)@ == old(drafter)@.spec_after(
                self.spec_name(),
                self.spec_lineup_at((round - 1) as u8)->0,
            ),
            match r {
                Ok(l) => old(drafter)@.spec_draft_result(
                    self.spec_name(),
                    self.spec_lineup_at((round - 1) as u8)->0,
                ) == Ok::<Seq<u8>, DraftError>(l@),
                Err(e) => old(drafter)@.spec_draft_result(
                    self.spec_name(),
                    self.spec_lineup_at((round - 1) as u8)->0,
                ) == Err::<Seq<u8>, DraftError>(e),
            },
    {
        match find_index(&self.rounds, round - 1) {
            Some(i) => drafter.draft(self.name.as_str(), &self.rounds[i].1.lineup),
            None => Err(DraftError::PreviousRoundLineupDoesNotExist),
        }
    }

    /// Records the round's lineup; the round must not have one yet.
    pub fn store_lineup(&mut self, round: u8, lineup: Vec<u8>)
        requires
            old(self).wf(),
            !old(self).spec_has_round(round),
            lineup@.len() <= 255,
        ensures
            final(self).wf(),
            final(self).spec_name() == old(self).spec_name(),
            final(self).spec_lineup_at(round) == Some(lineup@),
            final(self).spec_points_at(round) is None,
            forall|r2: u8|
                r2 != round ==> final(self).spec_points_at(r2) == old(self).spec_points_at(r2)
                    && final(self).spec_lineup_at(r2) == old(self).spec_lineup_at(r2)
                    && final(self).spec_has_round(r2) == old(self).spec_has_round(r2),
    {
        let ghost s0 = self.rounds@;
        let tr = TeamRound::new(lineup);
        let ghost trg = tr;
        insert_row(&mut self.rounds, round, tr);
        proof {
            let pos = choose|pos: int|
                0 <= pos <= s0.len() && self.rounds@ == s0.insert(pos, (round, trg));
            assert forall|j: int|
                0 <= j < self.rounds@.len() implies (#[trigger] self.rounds@[j]).1.lineup@.len()
                <= 255 && spec_points_bounded(self.rounds@[j].1.points) by {
                if j < pos {
                    assert(self.rounds@[j] == s0[j]);
                } else if j > pos {
                    assert(self.rounds@[j] == s0[j - 1]);
                } else {
                    assert(self.rounds@[j] == (round, trg));
                }
            }
        }
    }

    /// The team's cumulative points through `round`: the sum of the points
    /// of every recorded round at or before it, unscored rounds counting 0.
    pub open spec fn spec_cum_points(self, round: u8) -> int {
        spec_cum_rec(self.spec_rounds(), round)
    }

    /// The team's best single-round value through `round` (0 when no round
    /// at or before it is recorded; unscored rounds count 0).
    pub open spec fn spec_max_points(self, round: u8) -> int {
        match spec_max_rec(self.spec_rounds(), round) {
            Some(m) => m,
            None => 0,
        }
    }

    /// The team's worst single-round value through `round` (0 when no round
    /// at or before it is recorded; unscored rounds count 0).
    pub open spec fn spec_min_points(self, round: u8) -> int {
        match spec_min_rec(self.spec_rounds(), round) {
            Some(m) => m,
            None => 0,
        }
    }

    /// Cumulative points through `round`.
    pub fn get_points_by(&self, round: u8) -> (r: i64)
        requires
            self.wf(),
        ensures
            r == self.spec_cum_points(round),
    {
        proof {
            lemma_sorted_len_bound(self.rounds@);
        }
        let ghost s = self.rounds@;
        let n = self.rounds.len();
        let mut acc: i64 = 0;
        let mut i: usize = 0;
        proof {
            assert(s.subrange(0, 0) =~= Seq::<(u8, TeamRound)>::empty());
        }
        while i < n
            invariant
                i <= n,
                n == s.len() <= 256,
                self.rounds@ == s,
                self.wf(),
                -130560 * i <= acc <= 130560 * i,
                acc == spec_cum_rec(s.subrange(0, i as int), round),
            decreases n - i,
        {
            proof {
                assert(s.subrange(0, i as int + 1).drop_last() =~= s.subrange(0, i as int));
                assert(s.subrange(0, i as int + 1).last() == s[i as int]);
            }
            let row = &self.rounds[i];
            if row.0 <= round {
                match row.1.points {
                    Some(p) => {
                        acc = acc + p;
                    },
                    None => {},
                }
            }
            i += 1;
        }
        proof {
            assert(s.subrange(0, n as int) =~= s);
        }
        acc
    }

    /// The round's points, when the round is recorded and scored.
    pub fn get_points_at(&self, round: u8) -> (r: Option<i64>)
        ensures
            r == self.spec_points_at(round),
    {
        match find_index(&self.rounds, round) {
            Some(i) => self.rounds[i].1.points,
            None => None,
        }
    }

    /// A copy of the round's lineup, when the round is recorded.
    pub fn get_lineup_at(&self, round: u8) -> (r: Option<Vec<u8>>)
        ensures
            match r {
                Some(l) => self.spec_lineup_at(round) == Some(l@),
                None => self.spec_lineup_at(round) is None,
            },
    {
        match find_index(&self.rounds, round) {
            Some(i) => Some(copy_drivers(&self.rounds[i].1.lineup)),
            None => None,
        }
    }

    /// Best single-round value through `round`.
    fn max_points_by(&self, round: u8) -> (r: i64)
        requires
            self.wf(),
        ensures
            r == self.spec_max_points(round),
    {
        let ghost s = self.rounds@;
        let n = self.rounds.len();
        let mut acc: Option<i64> = None;
        let mut i: usize = 0;
        proof {
            assert(s.subrange(0, 0) =~= Seq::<(u8, TeamRound)>::empty());
        }
        while i < n
            invariant
                i <= n,
                n == s.len(),
                self.rounds@ == s,
                match acc {
                    Some(m) => spec_max_rec(s.subrange(0, i as int), round) == Some(m as int),
                    None => spec_max_rec(s.subrange(0, i as int), round) is None,
                },
            decreases n - i,
        {
            proof {
                assert(s.subrange(0, i as int + 1).drop_last() =~= s.subrange(0, i as int));
                assert(s.subrange(0, i as int + 1).last() == s[i as int]);
            }
            let row = &self.rounds[i];
            if row.0 <= round {
                let v: i64 = match row.1.points {
                    Some(p) => p,
                    None => 0,
                };
                acc = match acc {
                    None => Some(v),
                    Some(m) => if v >= m {
                        Some(v)
                    } else {
                        Some(m)
                    },
                };
            }
            i += 1;
        }
        proof {
            assert(s.subrange(0, n as int) =~= s);
        }
        match acc {
            Some(m) => m,
            None => 0,
        }
    }

    /// Worst single-round value through `round`.
    fn min_points_by(&self, round: u8) -> (r: i64)
        requires
            self.wf(),
        ensures
            r == self.spec_min_points(round),
    {
        let ghost s = self.rounds@;
        let n = self.rounds.len();
        let mut acc: Option<i64> = None;
        let mut i: usize = 0;
        proof {
            assert(s.subrange(0, 0) =~= Seq::<(u8, TeamRound)>::empty());
        }
        while i < n
            invariant
                i <= n,
                n == s.len(),
                self.rounds@ == s,
                match acc {
                    Some(m) => spec_min_rec(s.subrange(0, i as int), round) == Some(m as int),
                    None => spec_min_rec(s.subrange(0, i as int), round) is None,
                },
            decreases n - i,
        {
            proof {
                assert(s.subrange(0, i as int + 1).drop_last() =~= s.subrange(0, i as int));
                assert(s.subrange(0, i as int + 1).last() == s[i as int]);
            }
            let row = &self.rounds[i];
            if row.0 <= round {
                let v: i64 = match row.1.points {
                    Some(p) => p,
                    None => 0,
                };
                acc = match acc {
                    None => Some(v),
                    Some(m) => if v <= m {
                        Some(v)
                    } else {
                        Some(m)
                    },
                };
            }
            i += 1;
        }
        proof {
            assert(s.subrange(0, n as int) =~= s);
        }
        match acc {
            Some(m) => m,
            None => 0,
        }
    }

    /// The leaderboard order through `round`: most cumulative points first;
    /// ties by best single round, then by worst single round, then equal
    /// (callers keep insertion order).
    pub open spec fn spec_team_cmp(a: Team, b: Team, round: u8) -> Ordering {
        if a.spec_cum_points(round) > b.spec_cum_points(round) {
            Ordering::Less
        } else if a.spec_cum_points(round) < b.spec_cum_points(round) {
            Ordering::Greater
        } else if a.spec_max_points(round) > b.spec_max_points(round) {
            Ordering::Less
        } else if a.spec_max_points(round) < b.spec_max_points(round) {
            Ordering::Greater
        } else if a.spec_min_points(round) < b.spec_min_points(round) {
            Ordering::Less
        } else if a.spec_min_points(round) > b.spec_min_points(round) {
            Ordering::Greater
        } else {
            Ordering::Equal
        }
    }

    /// The leaderboard tie-break law: two teams with equal cumulative
    /// points through `round` are ordered by their best single-round value,
    /// a remaining tie by their worst single-round value, and they compare
    /// equal — leaving the season's insertion order to decide — only when
    /// all three agree.
    pub proof fn lemma_leaderboard_tiebreak(a: Team, b: Team, round: u8)
        requires
            a.spec_cum_points(round) == b.spec_cum_points(round),
        ensures
            a.spec_max_points(round) > b.spec_max_points(round) ==> Team::spec_team_cmp(
                a,
                b,
                round,
            ) == Ordering::Less,
            a.spec_max_points(round) < b.spec_max_points(round) ==> Team::spec_team_cmp(
                a,
                b,
                round,
            ) == Ordering::Greater,
            a.spec_max_points(round) == b.spec_max_points(round) && a.spec_min_points(round)
                < b.spec_min_points(round) ==> Team::spec_team_cmp(a, b, round) == Ordering::Less,
            a.spec_max_points(round) == b.spec_max_points(round) && a.spec_min_points(round)
                > b.spec_min_points(round) ==> Team::spec_team_cmp(a, b, round)
                == Ordering::Greater,
            a.spec_max_points(round) == b.spec_max_points(round) && a.spec_min_points(round)
                == b.spec_min_points(round) ==> Team::spec_team_cmp(a, b, round)
                == Ordering::Equal,
    {
    }

    /// Compares two teams for the running leaderboard through `round`.
    pub fn sort_by(a: &Team, b: &Team, round: u8) -> (r: Ordering)
        requires
            a.wf(),
            b.wf(),
        ensures
            r == Team::spec_team_cmp(*a, *b, round),
    {
        let a_points = a.get_points_by(round);
        let b_points = b.get_points_by(round);
        if a_points > b_points {
            Ordering::Less
        } else if a_points < b_points {
            Ordering::Greater
        } else {
            let a_max = a.max_points_by(round);
            let b_max = b.max_points_by(round);
            if a_max > b_max {
                Ordering::Less
            } else if a_max < b_max {
                Ordering::Greater
            } else {
                let a_min = a.min_points_by(round);
                let b_min = b.min_points_by(round);
                if a_min < b_min {
                    Ordering::Less
                } else if a_min > b_min {
                    Ordering::Greater
                } else {
                    Ordering::Equal
                }
            }
        }
    }

    /// The single-round order at `round`: higher points first.
    pub open spec fn spec_team_cmp_at(a: Team, b: Team, round: u8) -> Ordering {
        if a.spec_points_at(round)->0 > b.spec_points_at(round)->0 {
            Ordering::Less
        } else if a.spec_points_at(round)->0 < b.spec_points_at(round)->0 {
            Ordering::Greater
        } else {
            Ordering::Equal
        }
    }

    /// Compares two teams by one scored round's points alone.
    pub fn sort_at(a: &Team, b: &Team, round: u8) -> (r: Ordering)
        requires
            a.spec_points_at(round) is Some,
            b.spec_points_at(round) is Some,
        ensures
            r == Team::spec_team_cmp_at(*a, *b, round),
    {
        match (a.get_points_at(round), b.get_points_at(round)) {
            (Some(ap), Some(bp)) => {
                if ap > bp {
                    Ordering::Less
                } else if ap < bp {
                    Ordering::Greater
                } else {
                    Ordering::Equal
                }
            },
            _ => Ordering::Equal,
        }
    }
}

/// Cumulative points of the recorded rounds at or before `round`.
pub open spec fn spec_cum_rec(s: Seq<(u8, TeamRound)>, round: u8) -> int
    decreases s.len(),
{
    if s.len() == 0 {
        0
    } else {
        spec_cum_rec(s.drop_last(), round) + if s.last().0 <= round {
            spec_round_value(s.last().1)
        } else {
            0
        }
    }
}

/// Greatest per-round value among the recorded rounds at or before `round`.
pub open spec fn spec_max_rec(s: Seq<(u8, TeamRound)>, round: u8) -> Option<int>
    decreases s.len(),
{
    if s.len() == 0 {
        None
    } else {
        let rest = spec_max_rec(s.drop_last(), round);
        if s.last().0 <= round {
            let v = spec_round_value(s.last().1);
            match rest {
                None => Some(v),
                Some(m) => Some(
                    if v >= m {
                        v
                    } else {
                        m
                    },
                ),
            }
        } else {
            rest
        }
    }
}

/// Least per-round value among the recorded rounds at or before `round`.
pub open spec fn spec_min_rec(s: Seq<(u8, TeamRound)>, round: u8) -> Option<int>
    decreases s.len(),
{
    if s.len() == 0 {
        None
    } else {
        let rest = spec_min_rec(s.drop_last(), round);
        if s.last().0 <= round {
            let v = spec_round_value(s.last().1);
            match rest {
                None => Some(v),
                Some(m) => Some(
                    if v <= m {
                        v
                    } else {
                        m
                    },
                ),
            }
        } else {
            rest
        }
    }
}

} // verus!

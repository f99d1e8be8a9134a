//! The season state machine: per-round lifecycle flags (results ingested,
//! drafted, scored), the ordering rules between the five commands, and the
//! delegation to the scoring and drafting engines and the team ledger.

use core::cmp::Ordering;
use vstd::prelude::*;

use crate::draft::{DraftChoice, Drafter, DrafterModel};
use crate::error::{DeleteError, DownloadError, DraftError, ScoreError};
use crate::lookup::{find_index, insert_row, lemma_find_remove_other, lemma_find_remove_same,
    spec_find, strictly_sorted};
use crate::race_results::{DriverResult, RaceResults};
use crate::score::ScoreChoice;
use crate::sorting::{lemma_insert_le_exact, sort_le, sorted_by, total_preorder};
use crate::status::TeamStatus;
use crate::team::{spec_lineup_score, Team, TeamRound};

verus! {

/// The leaderboard order on team indices through `round`: by the running
/// tie-break chain, indices staying put on full ties.
pub open spec fn spec_leq_by(teams: Seq<Team>, round: u8) -> spec_fn(usize, usize) -> bool {
    |a: usize, b: usize|
        Team::spec_team_cmp(teams[a as int], teams[b as int], round) != Ordering::Greater
}

/// The single-round order on team indices at `round`: by that round's
/// points, descending, indices staying put on ties.
pub open spec fn spec_leq_at(teams: Seq<Team>, round: u8) -> spec_fn(usize, usize) -> bool {
    |a: usize, b: usize|
        Team::spec_team_cmp_at(teams[a as int], teams[b as int], round) != Ordering::Greater
}

/// Team indices in leaderboard order through `round`: a stable sort of
/// `0..teams.len()` by the tie-break chain.
pub open spec fn spec_standings_order(teams: Seq<Team>, round: u8) -> Seq<usize> {
    sort_le(spec_leq_by(teams, round), Seq::new(teams.len(), |i: int| i as usize))
}

/// Team indices in single-round order at `round`: a stable sort of
/// `0..teams.len()` by that round's points, descending.
pub open spec fn spec_round_order(teams: Seq<Team>, round: u8) -> Seq<usize> {
    sort_le(spec_leq_at(teams, round), Seq::new(teams.len(), |i: int| i as usize))
}

/// The standings law: the standings list one index per team, all in range,
/// ordered by the tie-break chain, and two teams tied on the whole chain
/// keep their season (insertion) order.
pub proof fn lemma_standings_order_props(teams: Seq<Team>, round: u8)
    requires
        teams.len() <= usize::MAX,
    ensures
        ({
            let ord = spec_standings_order(teams, round);
            let leq = spec_leq_by(teams, round);
            &&& ord.len() == teams.len()
            &&& sorted_by(leq, ord)
            &&& forall|m: int| 0 <= m < ord.len() ==> (#[trigger] ord[m]) < teams.len()
            &&& forall|p: int, q: int|
                0 <= p < q < ord.len() && #[trigger] leq(ord[p], ord[q]) && #[trigger] leq(
                    ord[q],
                    ord[p],
                ) ==> ord[p] < ord[q]
        }),
{
    lemma_leq_by_total(teams, round);
    crate::sorting::lemma_sort_ids_props(spec_leq_by(teams, round), teams.len() as int);
}

/// Ingesting a round's results and then deleting that round restores, for
/// every round, the lifecycle flags and the stored results that held before
/// the ingestion. The two middle states are constrained exactly as
/// `update_results` and `delete_round` promise on success.
pub proof fn lemma_ingest_delete_round_trip(
    s0: FantasySeason,
    s1: FantasySeason,
    s2: FantasySeason,
    round: u8,
    drivers: Seq<DriverResult>,
)
    requires
        s0.wf(),
        !s0.spec_ingested(round),
        s1.spec_results_at(round) == Some(drivers),
        forall|r2: u8| r2 != round ==> s1.spec_results_at(r2) == s0.spec_results_at(r2),
        forall|r2: u8|
            #[trigger] s1.spec_drafted(r2) == s0.spec_drafted(r2) && s1.spec_scored(r2)
                == s0.spec_scored(r2),
        !s2.spec_ingested(round),
        !s2.spec_scored(round),
        forall|r2: u8| r2 != round ==> s2.spec_results_at(r2) == s1.spec_results_at(r2),
        forall|r2: u8| r2 != round ==> #[trigger] s2.spec_scored(r2) == s1.spec_scored(r2),
        forall|r2: u8| #[trigger] s2.spec_drafted(r2) == s1.spec_drafted(r2),
    ensures
        forall|r2: u8| #[trigger] s2.spec_results_at(r2) == s0.spec_results_at(r2),
        forall|r2: u8| #[trigger] s2.spec_drafted(r2) == s0.spec_drafted(r2),
        forall|r2: u8| #[trigger] s2.spec_scored(r2) == s0.spec_scored(r2),
{
    assert(!s0.spec_scored(round)) by {
        assert(s0.spec_scored(round) ==> s0.spec_ingested(round));
        assert(s1.spec_drafted(round) == s0.spec_drafted(round));
    }
    assert forall|r2: u8| #[trigger] s2.spec_results_at(r2) == s0.spec_results_at(r2) by {
        if r2 == round {
            assert(s2.spec_results_at(round) is None && s0.spec_results_at(round) is None);
        }
    }
    assert forall|r2: u8| #[trigger] s2.spec_scored(r2) == s0.spec_scored(r2) by {
        assert(s1.spec_drafted(r2) == s0.spec_drafted(r2));
    }
    assert forall|r2: u8| #[trigger] s2.spec_drafted(r2) == s0.spec_drafted(r2) by {
        assert(s1.spec_drafted(r2) == s0.spec_drafted(r2));
    }
}

/// The leaderboard order compares any two teams and chains.
pub proof fn lemma_leq_by_total(teams: Seq<Team>, round: u8)
    ensures
        total_preorder(spec_leq_by(teams, round)),
{
    let leq = spec_leq_by(teams, round);
    assert forall|a: usize, b: usize| #[trigger] leq(a, b) || #[trigger] leq(b, a) by {}
    assert forall|a: usize, b: usize, c: usize|
        #[trigger] leq(a, b) && #[trigger] leq(b, c) implies leq(a, c) by {}
}

/// The single-round order compares any two teams and chains.
pub proof fn lemma_leq_at_total(teams: Seq<Team>, round: u8)
    ensures
        total_preorder(spec_leq_at(teams, round)),
{
    let leq = spec_leq_at(teams, round);
    assert forall|a: usize, b: usize| #[trigger] leq(a, b) || #[trigger] leq(b, a) by {}
    assert forall|a: usize, b: usize, c: usize|
        #[trigger] leq(a, b) && #[trigger] leq(b, c) implies leq(a, c) by {}
}

/// A whole season: its teams, its per-round results and lifecycle flags,
/// and its fixed configuration.
#[derive(Debug)]
pub struct FantasySeason {
    name: String,
    teams: Vec<Team>,
    results: Vec<(u8, Vec<DriverResult>)>,
    team_status: TeamStatus,
    score_choice: ScoreChoice,
    draft_choice: DraftChoice,
    lineup_size: u8,
    season: u16,
    grid_size: u8,
    enforce_uniqueness: bool,
}

impl FantasySeason {
    pub closed spec fn spec_name(self) -> Seq<char> {
        self.name@
    }

    pub closed spec fn spec_teams(self) -> Seq<Team> {
        self.teams@
    }

    pub open spec fn spec_team_count(self) -> nat {
        self.spec_teams().len()
    }

    /// Whether every team has a lineup for `round`.
    pub closed spec fn spec_drafted(self, round: u8) -> bool {
        self.team_status.spec_drafted(round)
    }

    /// Whether the round has been scored.
    pub closed spec fn spec_scored(self, round: u8) -> bool {
        self.team_status.spec_scored(round)
    }

    /// Whether the round's race results have been ingested.
    pub open spec fn spec_ingested(self, round: u8) -> bool {
        self.spec_results_at(round) is Some
    }

    /// The round's ingested driver results, if any.
    pub closed spec fn spec_results_at(self, round: u8) -> Option<Seq<DriverResult>> {
        match spec_find(self.results@, round) {
            Some(drs) => Some(drs@),
            None => None,
        }
    }

    pub closed spec fn spec_score_choice(self) -> ScoreChoice {
        self.score_choice
    }

    pub closed spec fn spec_draft_choice(self) -> DraftChoice {
        self.draft_choice
    }

    pub closed spec fn spec_lineup_size(self) -> u8 {
        self.lineup_size
    }

    pub closed spec fn spec_season(self) -> u16 {
        self.season
    }

    pub closed spec fn spec_grid_size(self) -> u8 {
        self.grid_size
    }

    pub closed spec fn spec_enforce_uniqueness(self) -> bool {
        self.enforce_uniqueness
    }

    /// The season's invariant. The lifecycle flags and the team records move
    /// in lockstep: a round is drafted exactly when every team holds a
    /// lineup for it (always of the configured size), and scored exactly
    /// when every team holds points for it; a scored round is drafted and
    /// has results; rosters hold at least one driver.
    pub closed spec fn wf(self) -> bool {
        &&& self.team_status.wf()
        &&& strictly_sorted(self.results@)
        &&& self.lineup_size >= 1
        &&& forall|i: int| 0 <= i < self.teams@.len() ==> (#[trigger] self.teams@[i]).wf()
        &&& forall|i: int, r: u8|
            0 <= i < self.teams@.len() ==> ((#[trigger] self.teams@[i].spec_has_round(r))
                <==> self.spec_drafted(r))
        &&& forall|i: int, r: u8|
            0 <= i < self.teams@.len() && self.spec_drafted(r) ==> ((#[trigger] self.teams@[i]
                .spec_points_at(r)) is Some <==> self.spec_scored(r))
        &&& forall|i: int, r: u8|
            0 <= i < self.teams@.len() && self.spec_drafted(r)
                ==> (#[trigger] self.teams@[i].spec_lineup_at(r))->0.len()
                == self.lineup_size as nat
        &&& forall|r: u8| #[trigger] self.spec_scored(r) ==> self.spec_drafted(r)
        &&& forall|r: u8| #[trigger] self.spec_scored(r) ==> self.spec_ingested(r)
    }

    /// A fresh season: each starting team is seeded with its first-round
    /// lineup, so round 1 begins drafted; nothing is ingested or scored.
    pub fn new(
        name: String,
        score_choice: ScoreChoice,
        draft_choice: DraftChoice,
        starting_teams: Vec<(String, Vec<u8>)>,
        lineup_size: u8,
        season: u16,
        grid_size: u8,
        enforce_uniqueness: bool,
    ) -> (r: FantasySeason)
        requires
            lineup_size >= 1,
            forall|i: int|
                0 <= i < starting_teams@.len() ==> (#[trigger] starting_teams@[i]).1@.len()
                    == lineup_size as nat,
        ensures
            r.wf(),
            r.spec_name() == name@,
            r.spec_team_count() == starting_teams@.len(),
            forall|i: int|
                0 <= i < starting_teams@.len() ==> (#[trigger] r.spec_teams()[i]).spec_name()
                    == starting_teams@[i].0@ && r.spec_teams()[i].spec_lineup_at(1) == Some(
                    starting_teams@[i].1@,
                ),
            forall|round: u8| #[trigger] r.spec_drafted(round) <==> round == 1,
            forall|round: u8| !(#[trigger] r.spec_scored(round)),
            forall|round: u8| !(#[trigger] r.spec_ingested(round)),
            r.spec_score_choice() == score_choice,
            r.spec_draft_choice() == draft_choice,
            r.spec_lineup_size() == lineup_size,
            r.spec_season() == season,
            r.spec_grid_size() == grid_size,
            r.spec_enforce_uniqueness() == enforce_uniqueness,
    {
        let ghost s0 = starting_teams@;
        let mut rest = starting_teams;
        let mut teams: Vec<Team> = Vec::new();
        while rest.len() > 0
            invariant
                teams@.len() + rest@.len() == s0.len(),
                rest@ == s0.skip(teams@.len() as int),
                forall|i: int| 0 <= i < s0.len() ==> (#[trigger] s0[i]).1@.len() <= 255,
                forall|i: int|
                    0 <= i < teams@.len() ==> (#[trigger] teams@[i]).wf() && teams@[i].spec_name()
                        == s0[i].0@ && teams@[i].spec_lineup_at(1) == Some(s0[i].1@)
                        && teams@[i].spec_has_round(1) && teams@[i].spec_points_at(1) is None
                        && (forall|r2: u8| r2 != 1 ==> !(#[trigger] teams@[i].spec_has_round(r2))),
            decreases rest@.len(),
        {
            proof {
                assert(rest@[0] == s0[teams@.len() as int]);
                assert(rest@.remove(0) =~= s0.skip(teams@.len() as int + 1));
            }
            let pair = rest.remove(0);
            teams.push(Team::new(pair.0, pair.1));
        }
        let mut status = TeamStatus::new();
        let ghost status0 = status;
        status.toggle_drafted(1);
        proof {
            assert forall|round: u8| #[trigger] status.spec_drafted(round) <==> round == 1 by {
                if round != 1 {
                    assert(!status0.spec_drafted(round));
                }
            }
            assert forall|round: u8| !(#[trigger] status.spec_scored(round)) by {
                assert(!status0.spec_scored(round));
            }
        }
        let r = FantasySeason {
            name,
            teams,
            results: Vec::new(),
            team_status: status,
            score_choice,
            draft_choice,
            lineup_size,
            season,
            grid_size,
            enforce_uniqueness,
        };
        proof {
            assert forall|round: u8| #[trigger] r.spec_drafted(round) <==> round == 1 by {}
            assert forall|i: int, rr: u8|
                0 <= i < r.teams@.len() implies ((#[trigger] r.teams@[i].spec_has_round(rr))
                <==> r.spec_drafted(rr)) by {
                if rr != 1 {
                    assert(!r.teams@[i].spec_has_round(rr));
                }
            }
            assert forall|i: int, rr: u8|
                0 <= i < r.teams@.len() && r.spec_drafted(rr) implies ((#[trigger] r.teams@[i]
                .spec_points_at(rr)) is Some <==> r.spec_scored(rr)) by {
                assert(rr == 1);
            }
            assert forall|i: int, rr: u8|
                0 <= i < r.teams@.len() && r.spec_drafted(rr) implies (#[trigger] r.teams@[i]
                .spec_lineup_at(rr))->0.len() == r.lineup_size as nat by {
                assert(rr == 1);
                assert(s0[i].1@.len() == lineup_size as nat);
            }
        }
        r
    }

    /// The season's display name.
    pub fn get_name(&self) -> (r: &str)
        ensures
            r@ == self.spec_name(),
    {
        self.name.as_str()
    }

    /// Ingests one round's race results. Fails, changing nothing, when the
    /// round already has results.
    pub fn update_results(&mut self, round: u8, race_results: RaceResults) -> (r: Result<
        (),
        DownloadError,
    >)
        requires
            old(self).wf(),
        ensures
            final(self).wf(),
            r is Err <==> old(self).spec_ingested(round),
            match r {
                Err(e) => e == DownloadError::RaceResultsAlreadyDownloaded(round) && *final(self)
                    == *old(self),
                Ok(_) => {
                    &&& final(self).spec_results_at(round) == Some(race_results.drivers@)
                    &&& forall|r2: u8|
                        r2 != round ==> final(self).spec_results_at(r2)
                            == old(self).spec_results_at(r2)
                    &&& final(self).spec_teams() == old(self).spec_teams()
                    &&& forall|r2: u8|
                        final(self).spec_drafted(r2) == old(self).spec_drafted(r2)
                            && final(self).spec_scored(r2) == old(self).spec_scored(r2)
                    &&& final(self).spec_name() == old(self).spec_name()
                    &&& final(self).spec_config_unchanged(*old(self))
                },
            },
    {
        let ghost pre = *self;
        match find_index(&self.results, round) {
            Some(_) => Err(DownloadError::RaceResultsAlreadyDownloaded(round)),
            None => {
                insert_row(&mut self.results, round, race_results.drivers);
                proof {
                    assert(self.teams == pre.teams);
                    assert(self.team_status == pre.team_status);
                    assert forall|r2: u8| #[trigger] self.spec_scored(r2) implies self
                        .spec_ingested(r2) by {
                        assert(self.spec_scored(r2) == pre.spec_scored(r2));
                        if r2 != round {
                            assert(spec_find(self.results@, r2) == spec_find(pre.results@, r2));
                        }
                    }
                    assert forall|r: u8| #[trigger] self.spec_scored(r) implies self.spec_drafted(
                        r,
                    ) by {
                        assert(pre.spec_scored(r) ==> pre.spec_drafted(r));
                        assert(self.spec_scored(r) == pre.spec_scored(r));
                        assert(self.spec_drafted(r) == pre.spec_drafted(r));
                    }
                }
                Ok(())
            },
        }
    }

    /// Team `i`'s round score for `round`: its lineup summed under the
    /// season's formula against the round's ingested results, or the first
    /// lineup driver that did not race.
    pub open spec fn spec_team_round_score(self, i: int, round: u8) -> Result<int, u8> {
        spec_lineup_score(
            self.spec_score_choice(),
            self.spec_grid_size() as int,
            self.spec_teams()[i].spec_lineup_at(round)->0,
            self.spec_results_at(round)->0,
        )
    }

    /// The first scoring failure among teams `i..`, in team order: the
    /// driver named by the first team whose round score does not exist.
    pub open spec fn spec_first_unscoreable(self, round: u8, i: int) -> Option<u8>
        decreases self.spec_teams().len() - i,
    {
        if i < 0 || i >= self.spec_teams().len() {
            None
        } else {
            match self.spec_team_round_score(i, round) {
                Err(d) => Some(d),
                Ok(_) => self.spec_first_unscoreable(round, i + 1),
            }
        }
    }

    /// Scores `round`: computes every team's round score, records them all,
    /// and marks the round scored. Fails, changing nothing, unless the round
    /// is drafted, not yet scored, and has ingested results, and every
    /// lineup driver raced.
    pub fn score(&mut self, round: u8) -> (r: Result<(), ScoreError>)
        requires
            old(self).wf(),
        ensures
            final(self).wf(),
            r is Err <==> (!old(self).spec_drafted(round) || old(self).spec_scored(round) || !old(
                self,
            ).spec_ingested(round) || old(self).spec_first_unscoreable(round, 0) is Some),
            match r {
                Err(e) => *final(self) == *old(self) && match e {
                    ScoreError::RoundLineupDoesNotExist(rr) => rr == round && !old(
                        self,
                    ).spec_drafted(round),
                    ScoreError::RoundResultsAlreadyExist(rr) => rr == round && old(
                        self,
                    ).spec_drafted(round) && old(self).spec_scored(round),
                    ScoreError::RoundResultsDoNotExist(rr) => rr == round && old(
                        self,
                    ).spec_drafted(round) && !old(self).spec_scored(round) && !old(
                        self,
                    ).spec_ingested(round),
                    ScoreError::DriverDidNotRace(d) => old(self).spec_drafted(round) && !old(
                        self,
                    ).spec_scored(round) && old(self).spec_ingested(round) && old(
                        self,
                    ).spec_first_unscoreable(round, 0) == Some(d),
                },
                Ok(_) => {
                    &&& !old(self).spec_scored(round)
                    &&& final(self).spec_scored(round)
                    &&& forall|r2: u8|
                        r2 != round ==> final(self).spec_scored(r2) == old(self).spec_scored(r2)
                    &&& forall|r2: u8|
                        final(self).spec_drafted(r2) == old(self).spec_drafted(r2)
                    &&& forall|r2: u8|
                        final(self).spec_results_at(r2) == old(self).spec_results_at(r2)
                    &&& final(self).spec_team_count() == old(self).spec_team_count()
                    &&& forall|i: int|
                        0 <= i < old(self).spec_team_count()
                            ==> (#[trigger] final(self).spec_teams()[i]).spec_points_at(round)
                            is Some && final(self).spec_teams()[i].spec_points_at(round)->0 as int
                            == old(self).spec_team_round_score(i, round)->Ok_0
                    &&& forall|i: int, r2: u8|
                        0 <= i < old(self).spec_team_count() && r2 != round
                            ==> (#[trigger] final(self).spec_teams()[i].spec_points_at(r2))
                            == old(self).spec_teams()[i].spec_points_at(r2)
                    &&& forall|i: int, r2: u8|
                        0 <= i < old(self).spec_team_count()
                            ==> (#[trigger] final(self).spec_teams()[i].spec_lineup_at(r2))
                            == old(self).spec_teams()[i].spec_lineup_at(r2)
                    &&& forall|i: int|
                        0 <= i < old(self).spec_team_count()
                            ==> (#[trigger] final(self).spec_teams()[i]).spec_name()
                            == old(self).spec_teams()[i].spec_name()
                    &&& final(self).spec_name() == old(self).spec_name()
                    &&& final(self).spec_config_unchanged(*old(self))
                },
            },
    {
        let ghost pre = *self;
        if !self.team_status.has_drafted(round) {
            return Err(ScoreError::RoundLineupDoesNotExist(round));
        }
        if self.team_status.has_scored(round) {
            return Err(ScoreError::RoundResultsAlreadyExist(round));
        }
        let ridx = match find_index(&self.results, round) {
            Some(i) => i,
            None => {
                return Err(ScoreError::RoundResultsDoNotExist(round));
            },
        };
        let n = self.teams.len();
        let mut points: Vec<i64> = Vec::new();
        let mut i: usize = 0;
        while i < n
            invariant
                i <= n,
                n == self.teams@.len(),
                *self == pre,
                pre.wf(),
                pre.spec_drafted(round),
                !pre.spec_scored(round),
                ridx < self.results@.len(),
                pre.spec_results_at(round) == Some(self.results@[ridx as int].1@),
                points@.len() == i,
                forall|j: int|
                    0 <= j < i ==> pre.spec_team_round_score(j, round) == Ok::<int, u8>(
                        (#[trigger] points@[j]) as int,
                    ) && crate::team::spec_points_bounded(Some(points@[j])),
                pre.spec_first_unscoreable(round, 0) == pre.spec_first_unscoreable(round, i as int),
            decreases n - i,
        {
            proof {
                assert(pre.teams@[i as int].spec_has_round(round) <==> pre.spec_drafted(round));
                assert(pre.teams@[i as int].wf());
            }
            let outcome = self.teams[i].calculate_score(
                round,
                self.grid_size,
                &self.score_choice,
                &self.results[ridx].1,
            );
            match outcome {
                Ok(p) => {
                    points.push(p);
                    proof {
                        assert(pre.spec_team_round_score(i as int, round) == Ok::<int, u8>(
                            p as int,
                        ));
                        assert(pre.spec_first_unscoreable(round, i as int)
                            == pre.spec_first_unscoreable(round, i as int + 1));
                    }
                },
                Err(e) => {
                    proof {
                        let d = pre.spec_team_round_score(i as int, round)->Err_0;
                        assert(pre.spec_first_unscoreable(round, i as int) == Some(d));
                    }
                    return Err(e);
                },
            }
            i += 1;
        }
        proof {
            assert(pre.spec_first_unscoreable(round, n as int) is None);
        }
        let mut k: usize = 0;
        while k < n
            invariant
                k <= n,
                n == self.teams@.len(),
                n == pre.teams@.len(),
                points@.len() == n,
                pre.wf(),
                pre.spec_drafted(round),
                !pre.spec_scored(round),
                self.results@ == pre.results@,
                self.team_status == pre.team_status,
                self.name == pre.name,
                self.score_choice == pre.score_choice,
                self.draft_choice == pre.draft_choice,
                self.lineup_size == pre.lineup_size,
                self.season == pre.season,
                self.grid_size == pre.grid_size,
                self.enforce_uniqueness == pre.enforce_uniqueness,
                forall|j: int|
                    0 <= j < n ==> pre.spec_team_round_score(j, round) == Ok::<int, u8>(
                        (#[trigger] points@[j]) as int,
                    ) && crate::team::spec_points_bounded(Some(points@[j])),
                forall|j: int| k <= j < n ==> self.teams@[j] == pre.teams@[j],
                forall|j: int| 0 <= j < n ==> (#[trigger] self.teams@[j]).wf(),
                forall|j: int|
                    0 <= j < k ==> (#[trigger] self.teams@[j]).spec_points_at(round) == Some(
                        points@[j],
                    ),
                forall|j: int, r2: u8|
                    0 <= j < k && r2 != round ==> (#[trigger] self.teams@[j].spec_points_at(r2))
                        == pre.teams@[j].spec_points_at(r2),
                forall|j: int, r2: u8|
                    0 <= j < k ==> (#[trigger] self.teams@[j].spec_lineup_at(r2)) == pre.teams@[j]
                        .spec_lineup_at(r2),
                forall|j: int, r2: u8|
                    0 <= j < k ==> (#[trigger] self.teams@[j].spec_has_round(r2)) == pre.teams@[j]
                        .spec_has_round(r2),
                forall|j: int|
                    0 <= j < k ==> (#[trigger] self.teams@[j]).spec_name() == pre.teams@[j]
                        .spec_name(),
            decreases n - k,
        {
            proof {
                assert(pre.teams@[k as int].spec_has_round(round) <==> pre.spec_drafted(round));
            }
            let p = points[k];
            let t = &mut self.teams[k];
            t.store_score(round, p);
            k += 1;
        }
        self.team_status.toggle_scored(round);
        proof {
            assert forall|idx: int, r2: u8|
                0 <= idx < self.teams@.len() implies ((#[trigger] self.teams@[idx].spec_has_round(
                r2,
            )) <==> self.spec_drafted(r2)) by {
                assert(pre.teams@[idx].spec_has_round(r2) <==> pre.spec_drafted(r2));
            }
            assert forall|idx: int, r2: u8|
                0 <= idx < self.teams@.len() && self.spec_drafted(r2) implies ((
            #[trigger] self.teams@[idx].spec_points_at(r2)) is Some <==> self.spec_scored(r2)) by {
                if r2 != round {
                    assert(pre.teams@[idx].spec_points_at(r2) is Some <==> pre.spec_scored(r2));
                }
            }
            assert forall|idx: int, r2: u8|
                0 <= idx < self.teams@.len() && self.spec_drafted(r2) implies (
            #[trigger] self.teams@[idx].spec_lineup_at(r2))->0.len() == self.lineup_size as nat by {
                assert(pre.teams@[idx].spec_lineup_at(r2)->0.len() == pre.lineup_size as nat);
            }
            assert forall|r2: u8| #[trigger] self.spec_scored(r2) implies self.spec_drafted(r2)
                && self.spec_ingested(r2) by {
                if r2 != round {
                    assert(pre.spec_scored(r2) ==> pre.spec_drafted(r2) && pre.spec_ingested(r2));
                }
                assert(self.spec_ingested(r2) == pre.spec_ingested(r2));
            }
        }
        Ok(())
    }

    /// What the drafter returns for teams `i..` in team order, each team
    /// drafting from its lineup of round `prev`: the new lineups, or the
    /// first failure.
    pub open spec fn spec_run_draft(self, d: DrafterModel, prev: u8, i: int) -> Result<
        Seq<Seq<u8>>,
        DraftError,
    >
        decreases self.spec_teams().len() - i,
    {
        if i < 0 || i >= self.spec_teams().len() {
            Ok(Seq::empty())
        } else {
            let t = self.spec_teams()[i];
            match d.spec_draft_result(t.spec_name(), t.spec_lineup_at(prev)->0) {
                Err(e) => Err(e),
                Ok(l) => match self.spec_run_draft(
                    d.spec_after(t.spec_name(), t.spec_lineup_at(prev)->0),
                    prev,
                    i + 1,
                ) {
                    Err(e) => Err(e),
                    Ok(rest) => Ok(seq![l] + rest),
                },
            }
        }
    }

    /// The drafter's state after teams `i..` have drafted in team order,
    /// stopping at the first failure.
    pub open spec fn spec_run_after(self, d: DrafterModel, prev: u8, i: int) -> DrafterModel
        decreases self.spec_teams().len() - i,
    {
        if i < 0 || i >= self.spec_teams().len() {
            d
        } else {
            let t = self.spec_teams()[i];
            let d1 = d.spec_after(t.spec_name(), t.spec_lineup_at(prev)->0);
            match d.spec_draft_result(t.spec_name(), t.spec_lineup_at(prev)->0) {
                Err(_) => d1,
                Ok(_) => self.spec_run_after(d1, prev, i + 1),
            }
        }
    }

    /// Every run failure is the drafter's own: a missing entry.
    proof fn lemma_run_draft_err(self, d: DrafterModel, prev: u8, i: int)
        requires
            self.spec_run_draft(d, prev, i) is Err,
        ensures
            self.spec_run_draft(d, prev, i)->Err_0 == DraftError::IncompleteDrafter,
        decreases self.spec_teams().len() - i,
    {
        if 0 <= i < self.spec_teams().len() {
            let t = self.spec_teams()[i];
            match d.spec_draft_result(t.spec_name(), t.spec_lineup_at(prev)->0) {
                Err(_) => {
                    crate::draft::lemma_draft_result_err(
                        d,
                        t.spec_name(),
                        t.spec_lineup_at(prev)->0,
                    );
                },
                Ok(_) => {
                    self.lemma_run_draft_err(
                        d.spec_after(t.spec_name(), t.spec_lineup_at(prev)->0),
                        prev,
                        i + 1,
                    );
                },
            }
        }
    }

    /// Drafts `round`: every team's drafter call must succeed, and, with
    /// uniqueness enforced, no driver may appear in two of the produced
    /// lineups; only then are all lineups committed and the round marked
    /// drafted. Fails, changing nothing, when the round is already drafted
    /// or the round before it is not.
    pub fn draft(&mut self, round: u8, df: &mut Drafter) -> (r: Result<(), DraftError>)
        requires
            old(self).wf(),
        ensures
            final(self).wf(),
            r is Err <==> (old(self).spec_drafted(round) || round == 0 || !old(self).spec_drafted(
                (round - 1) as u8,
            ) || old(self).spec_run_draft(old(df)@, (round - 1) as u8, 0) is Err || (old(
                self,
            ).spec_enforce_uniqueness() && crate::utils::spec_first_dup(
                old(self).spec_run_draft(old(df)@, (round - 1) as u8, 0)->Ok_0,
                Seq::<u8>::empty(),
            ) is Some)),
            match r {
                Err(e) => *final(self) == *old(self) && match e {
                    DraftError::RoundLineupAlreadyExists(rr) => rr == round && old(
                        self,
                    ).spec_drafted(round) && *final(df) == *old(df),
                    DraftError::PreviousRoundLineupDoesNotExist => !old(self).spec_drafted(round)
                        && (round == 0 || !old(self).spec_drafted((round - 1) as u8)) && *final(df)
                        == *old(df),
                    DraftError::IncompleteDrafter => !old(self).spec_drafted(round) && round >= 1
                        && old(self).spec_drafted((round - 1) as u8) && old(self).spec_run_draft(
                        old(df)@,
                        (round - 1) as u8,
                        0,
                    ) == Err::<Seq<Seq<u8>>, DraftError>(DraftError::IncompleteDrafter)
                        && final(df)@ == old(self).spec_run_after(old(df)@, (round - 1) as u8, 0),
                    DraftError::RoundDraftNonUnique(rr, dup) => rr == round && !old(
                        self,
                    ).spec_drafted(round) && round >= 1 && old(self).spec_drafted(
                        (round - 1) as u8,
                    ) && old(self).spec_enforce_uniqueness() && old(self).spec_run_draft(
                        old(df)@,
                        (round - 1) as u8,
                        0,
                    ) is Ok && crate::utils::spec_first_dup(
                        old(self).spec_run_draft(old(df)@, (round - 1) as u8, 0)->Ok_0,
                        Seq::<u8>::empty(),
                    ) == Some(dup) && final(df)@ == old(self).spec_run_after(
                        old(df)@,
                        (round - 1) as u8,
                        0,
                    ),
                },
                Ok(_) => {
                    &&& !old(self).spec_drafted(round)
                    &&& round >= 1
                    &&& old(self).spec_drafted((round - 1) as u8)
                    &&& old(self).spec_run_draft(old(df)@, (round - 1) as u8, 0) is Ok
                    &&& (old(self).spec_enforce_uniqueness() ==> crate::utils::spec_first_dup(
                        old(self).spec_run_draft(old(df)@, (round - 1) as u8, 0)->Ok_0,
                        Seq::<u8>::empty(),
                    ) is None)
                    &&& final(df)@ == old(self).spec_run_after(old(df)@, (round - 1) as u8, 0)
                    &&& final(self).spec_drafted(round)
                    &&& forall|r2: u8|
                        r2 != round ==> final(self).spec_drafted(r2) == old(self).spec_drafted(r2)
                    &&& forall|r2: u8|
                        final(self).spec_scored(r2) == old(self).spec_scored(r2)
                    &&& forall|r2: u8|
                        final(self).spec_results_at(r2) == old(self).spec_results_at(r2)
                    &&& final(self).spec_team_count() == old(self).spec_team_count()
                    &&& forall|i: int|
                        0 <= i < old(self).spec_team_count()
                            ==> (#[trigger] final(self).spec_teams()[i].spec_lineup_at(round))
                            == Some(
                            old(self).spec_run_draft(old(df)@, (round - 1) as u8, 0)->Ok_0[i],
                        ) && final(self).spec_teams()[i].spec_points_at(round) is None
                    &&& forall|i: int, r2: u8|
                        0 <= i < old(self).spec_team_count() && r2 != round
                            ==> (#[trigger] final(self).spec_teams()[i].spec_lineup_at(r2))
                            == old(self).spec_teams()[i].spec_lineup_at(r2)
                            && final(self).spec_teams()[i].spec_points_at(r2)
                            == old(self).spec_teams()[i].spec_points_at(r2)
                    &&& forall|i: int|
                        0 <= i < old(self).spec_team_count()
                            ==> (#[trigger] final(self).spec_teams()[i]).spec_name()
                            == old(self).spec_teams()[i].spec_name()
                    &&& final(self).spec_name() == old(self).spec_name()
                    &&& final(self).spec_config_unchanged(*old(self))
                },
            },
    {
        let ghost pre = *self;
        let ghost d0 = df@;
        if self.team_status.has_drafted(round) {
            return Err(DraftError::RoundLineupAlreadyExists(round));
        }
        if round == 0 || !self.team_status.has_drafted(round - 1) {
            return Err(DraftError::PreviousRoundLineupDoesNotExist);
        }
        let prev = round - 1;
        let n = self.teams.len();
        let mut lineups: Vec<Vec<u8>> = Vec::new();
        let mut i: usize = 0;
        while i < n
            invariant
                i <= n,
                n == self.teams@.len(),
                *self == pre,
                pre == *old(self),
                d0 == old(df)@,
                pre.wf(),
                round >= 1,
                prev == round - 1,
                pre.spec_drafted(prev),
                !pre.spec_drafted(round),
                lineups@.len() == i,
                forall|j: int|
                    0 <= j < i ==> (#[trigger] lineups@[j])@.len() == pre.spec_lineup_size() as nat,
                pre.spec_run_draft(d0, prev, 0) == match pre.spec_run_draft(df@, prev, i as int) {
                    Ok(rest) => Ok::<Seq<Seq<u8>>, DraftError>(
                        lineups@.map_values(|v: Vec<u8>| v@) + rest,
                    ),
                    Err(e) => Err::<Seq<Seq<u8>>, DraftError>(e),
                },
                pre.spec_run_after(d0, prev, 0) == pre.spec_run_after(df@, prev, i as int),
            decreases n - i,
        {
            let ghost dcur = df@;
            let ghost t = pre.teams@[i as int];
            proof {
                assert(t.spec_has_round(prev) <==> pre.spec_drafted(prev));
                assert(t.wf());
                assert(t.spec_lineup_at(prev)->0.len() == pre.lineup_size as nat);
            }
            let outcome = self.teams[i].calculate_lineup(round, df);
            match outcome {
                Ok(l) => {
                    proof {
                        crate::draft::lemma_draft_result_len(
                            dcur,
                            t.spec_name(),
                            t.spec_lineup_at(prev)->0,
                        );
                        if pre.spec_run_draft(df@, prev, i as int + 1) is Ok {
                            let rest = pre.spec_run_draft(df@, prev, i as int + 1)->Ok_0;
                            let lv = lineups@.map_values(|v: Vec<u8>| v@);
                            let lv2 = lineups@.push(l).map_values(|v: Vec<u8>| v@);
                            assert(lv2 =~= lv.push(l@));
                            assert(lv.push(l@) + rest =~= lv + (seq![l@] + rest));
                        } else {
                            assert(lineups@.push(l).map_values(|v: Vec<u8>| v@) =~= lineups@
                                .map_values(|v: Vec<u8>| v@).push(l@));
                        }
                    }
                    lineups.push(l);
                },
                Err(e) => {
                    proof {
                        assert(pre.spec_run_draft(dcur, prev, i as int) == Err::<
                            Seq<Seq<u8>>,
                            DraftError,
                        >(e));
                        assert(pre.spec_run_draft(d0, prev, 0) == Err::<Seq<Seq<u8>>, DraftError>(
                            e,
                        ));
                        pre.lemma_run_draft_err(d0, prev, 0);
                        assert(pre.spec_run_after(dcur, prev, i as int) == df@);
                        assert(e == DraftError::IncompleteDrafter);
                        assert(prev == (round - 1) as u8);
                        assert(pre.spec_run_draft(d0, (round - 1) as u8, 0) == Err::<
                            Seq<Seq<u8>>,
                            DraftError,
                        >(DraftError::IncompleteDrafter));
                        assert(df@ == pre.spec_run_after(d0, (round - 1) as u8, 0));
                    }
                    return Err(e);
                },
            }
            i += 1;
        }
        let ghost lviews = lineups@.map_values(|v: Vec<u8>| v@);
        proof {
            assert(pre.spec_run_draft(df@, prev, n as int) == Ok::<Seq<Seq<u8>>, DraftError>(
                Seq::empty(),
            ));
            assert(lviews + Seq::<Seq<u8>>::empty() =~= lviews);
            assert(pre.spec_run_draft(d0, prev, 0) == Ok::<Seq<Seq<u8>>, DraftError>(lviews));
        }
        if self.enforce_uniqueness {
            match crate::utils::scan_first_dup(&lineups) {
                Some(dup) => {
                    return Err(DraftError::RoundDraftNonUnique(round, dup));
                },
                None => {},
            }
        }
        let mut rest_lineups = lineups;
        let mut k: usize = 0;
        while k < n
            invariant
                k <= n,
                n == self.teams@.len(),
                n == pre.teams@.len(),
                pre.wf(),
                round >= 1,
                prev == round - 1,
                pre.spec_drafted(prev),
                !pre.spec_drafted(round),
                lviews.len() == n,
                rest_lineups@.len() + k == n,
                forall|j: int|
                    0 <= j < rest_lineups@.len() ==> (#[trigger] rest_lineups@[j])@ == lviews[k
                        + j],
                forall|j: int| 0 <= j < n ==> (#[trigger] lviews[j]).len() <= 255,
                forall|j: int|
                    0 <= j < n ==> (#[trigger] lviews[j]).len() == pre.spec_lineup_size() as nat,
                self.results@ == pre.results@,
                self.team_status == pre.team_status,
                self.name == pre.name,
                self.score_choice == pre.score_choice,
                self.draft_choice == pre.draft_choice,
                self.lineup_size == pre.lineup_size,
                self.season == pre.season,
                self.grid_size == pre.grid_size,
                self.enforce_uniqueness == pre.enforce_uniqueness,
                forall|j: int| k <= j < n ==> self.teams@[j] == pre.teams@[j],
                forall|j: int| 0 <= j < n ==> (#[trigger] self.teams@[j]).wf(),
                forall|j: int|
                    0 <= j < k ==> (#[trigger] self.teams@[j]).spec_lineup_at(round) == Some(
                        lviews[j],
                    ) && self.teams@[j].spec_points_at(round) is None && self.teams@[j]
                        .spec_has_round(round),
                forall|j: int, r2: u8|
                    0 <= j < k && r2 != round ==> (#[trigger] self.teams@[j].spec_lineup_at(r2))
                        == pre.teams@[j].spec_lineup_at(r2) && self.teams@[j].spec_points_at(r2)
                        == pre.teams@[j].spec_points_at(r2) && self.teams@[j].spec_has_round(r2)
                        == pre.teams@[j].spec_has_round(r2),
                forall|j: int|
                    0 <= j < k ==> (#[trigger] self.teams@[j]).spec_name() == pre.teams@[j]
                        .spec_name(),
            decreases n - k,
        {
            proof {
                assert(pre.teams@[k as int].spec_has_round(round) <==> pre.spec_drafted(round));
                assert(rest_lineups@[0]@ == lviews[k as int]);
            }
            let l = rest_lineups.remove(0);
            let t = &mut self.teams[k];
            t.store_lineup(round, l);
            k += 1;
        }
        self.team_status.toggle_drafted(round);
        proof {
            assert forall|idx: int, r2: u8|
                0 <= idx < self.teams@.len() implies ((#[trigger] self.teams@[idx].spec_has_round(
                r2,
            )) <==> self.spec_drafted(r2)) by {
                if r2 != round {
                    assert(self.teams@[idx].spec_lineup_at(r2) == pre.teams@[idx].spec_lineup_at(
                        r2,
                    ));
                    assert(pre.teams@[idx].spec_has_round(r2) <==> pre.spec_drafted(r2));
                } else {
                    assert(self.teams@[idx].spec_lineup_at(round) == Some(lviews[idx]));
                }
            }
            assert forall|idx: int, r2: u8|
                0 <= idx < self.teams@.len() && self.spec_drafted(r2) implies ((
            #[trigger] self.teams@[idx].spec_points_at(r2)) is Some <==> self.spec_scored(r2)) by {
                if r2 != round {
                    assert(self.teams@[idx].spec_lineup_at(r2) == pre.teams@[idx].spec_lineup_at(
                        r2,
                    ));
                    assert(pre.teams@[idx].spec_points_at(r2) is Some <==> pre.spec_scored(r2));
                } else {
                    assert(self.teams@[idx].spec_lineup_at(round) == Some(lviews[idx]));
                    assert(!pre.spec_scored(round)) by {
                        assert(pre.spec_scored(round) ==> pre.spec_drafted(round));
                    }
                }
            }
            assert forall|idx: int, r2: u8|
                0 <= idx < self.teams@.len() && self.spec_drafted(r2) implies (
            #[trigger] self.teams@[idx].spec_lineup_at(r2))->0.len() == self.lineup_size as nat by {
                if r2 != round {
                    assert(self.teams@[idx].spec_lineup_at(r2) == pre.teams@[idx].spec_lineup_at(
                        r2,
                    ));
                    assert(pre.teams@[idx].spec_lineup_at(r2)->0.len() == pre.lineup_size as nat);
                } else {
                    assert(self.teams@[idx].spec_lineup_at(round) == Some(lviews[idx]));
                }
            }
            assert forall|r2: u8| #[trigger] self.spec_scored(r2) implies self.spec_drafted(r2)
                && self.spec_ingested(r2) by {
                assert(pre.spec_scored(r2) ==> pre.spec_drafted(r2) && pre.spec_ingested(r2));
                assert(self.spec_ingested(r2) == pre.spec_ingested(r2));
            }
        }
        Ok(())
    }

    /// Deletes the round's ingested results; if the round was scored, its
    /// scores are cleared first. Fails, changing nothing, when no results
    /// exist for the round.
    pub fn delete_round(&mut self, round: u8) -> (r: Result<(), DeleteError>)
        requires
            old(self).wf(),
        ensures
            final(self).wf(),
            r is Err <==> !old(self).spec_ingested(round),
            match r {
                Err(e) => e == DeleteError::ResultsDeleteWhenResultsDontExist(round)
                    && *final(self) == *old(self),
                Ok(_) => {
                    &&& !final(self).spec_ingested(round)
                    &&& !final(self).spec_scored(round)
                    &&& forall|r2: u8|
                        r2 != round ==> final(self).spec_results_at(r2)
                            == old(self).spec_results_at(r2)
                    &&& forall|r2: u8|
                        r2 != round ==> final(self).spec_scored(r2) == old(self).spec_scored(r2)
                    &&& forall|r2: u8|
                        final(self).spec_drafted(r2) == old(self).spec_drafted(r2)
                    &&& final(self).spec_team_count() == old(self).spec_team_count()
                    &&& forall|i: int|
                        0 <= i < old(self).spec_team_count()
                            ==> (#[trigger] final(self).spec_teams()[i].spec_points_at(round))
                            is None
                    &&& forall|i: int, r2: u8|
                        0 <= i < old(self).spec_team_count() && r2 != round
                            ==> (#[trigger] final(self).spec_teams()[i].spec_points_at(r2))
                            == old(self).spec_teams()[i].spec_points_at(r2)
                    &&& forall|i: int, r2: u8|
                        0 <= i < old(self).spec_team_count()
                            ==> (#[trigger] final(self).spec_teams()[i].spec_lineup_at(r2))
                            == old(self).spec_teams()[i].spec_lineup_at(r2)
                    &&& forall|i: int|
                        0 <= i < old(self).spec_team_count()
                            ==> (#[trigger] final(self).spec_teams()[i]).spec_name()
                            == old(self).spec_teams()[i].spec_name()
                    &&& final(self).spec_name() == old(self).spec_name()
                    &&& final(self).spec_config_unchanged(*old(self))
                },
            },
    {
        let ghost pre = *self;
        let ridx = match find_index(&self.results, round) {
            Some(i) => i,
            None => {
                return Err(DeleteError::ResultsDeleteWhenResultsDontExist(round));
            },
        };
        if self.team_status.has_scored(round) {
            let n = self.teams.len();
            let mut k: usize = 0;
            while k < n
                invariant
                    k <= n,
                    n == self.teams@.len(),
                    n == pre.teams@.len(),
                    pre.wf(),
                    pre.spec_scored(round),
                    self.results@ == pre.results@,
                    self.team_status == pre.team_status,
                    self.name == pre.name,
                    self.score_choice == pre.score_choice,
                    self.draft_choice == pre.draft_choice,
                    self.lineup_size == pre.lineup_size,
                    self.season == pre.season,
                    self.grid_size == pre.grid_size,
                    self.enforce_uniqueness == pre.enforce_uniqueness,
                    forall|j: int| k <= j < n ==> self.teams@[j] == pre.teams@[j],
                    forall|j: int| 0 <= j < n ==> (#[trigger] self.teams@[j]).wf(),
                    forall|j: int|
                        0 <= j < k ==> (#[trigger] self.teams@[j]).spec_points_at(round) is None
                            && self.teams@[j].spec_lineup_at(round) == pre.teams@[j]
                            .spec_lineup_at(round),
                    forall|j: int, r2: u8|
                        0 <= j < k && r2 != round ==> (#[trigger] self.teams@[j].spec_points_at(
                            r2,
                        )) == pre.teams@[j].spec_points_at(r2),
                    forall|j: int, r2: u8|
                        0 <= j < k ==> (#[trigger] self.teams@[j].spec_lineup_at(r2))
                            == pre.teams@[j].spec_lineup_at(r2) && self.teams@[j].spec_has_round(
                            r2,
                        ) == pre.teams@[j].spec_has_round(r2),
                    forall|j: int|
                        0 <= j < k ==> (#[trigger] self.teams@[j]).spec_name() == pre.teams@[j]
                            .spec_name(),
                decreases n - k,
            {
                proof {
                    assert(pre.teams@[k as int].spec_has_round(round) <==> pre.spec_drafted(
                        round,
                    ));
                    assert(pre.spec_scored(round) ==> pre.spec_drafted(round));
                }
                let t = &mut self.teams[k];
                t.delete_score(round);
                k += 1;
            }
            self.team_status.toggle_scored(round);
        }
        let ghost s0 = self.results@;
        let _ = self.results.remove(ridx);
        proof {
            assert forall|j: int| 0 <= j < s0.len() && j != ridx implies s0[j].0 != s0[
                ridx as int
            ].0 by {
                if j < ridx {
                    assert(s0[j].0 < s0[ridx as int].0);
                } else {
                    assert(s0[ridx as int].0 < s0[j].0);
                }
            }
            lemma_find_remove_same(s0, ridx as int);
            assert forall|r2: u8| r2 != round implies spec_find(self.results@, r2) == spec_find(
                s0,
                r2,
            ) by {
                lemma_find_remove_other(s0, ridx as int, r2);
            }
            assert forall|a: int, b: int|
                0 <= a < b < self.results@.len() implies self.results@[a].0
                < self.results@[b].0 by {
                let a0: int = if a < ridx {
                    a
                } else {
                    a + 1
                };
                let b0: int = if b < ridx {
                    b
                } else {
                    b + 1
                };
                assert(self.results@[a] == s0[a0] && self.results@[b] == s0[b0]);
            }
            assert forall|idx: int, r2: u8|
                0 <= idx < self.teams@.len() implies ((#[trigger] self.teams@[idx].spec_has_round(
                r2,
            )) <==> self.spec_drafted(r2)) by {
                assert(self.teams@[idx].spec_lineup_at(r2) == pre.teams@[idx].spec_lineup_at(r2));
                assert(pre.teams@[idx].spec_has_round(r2) <==> pre.spec_drafted(r2));
            }
            assert forall|idx: int, r2: u8|
                0 <= idx < self.teams@.len() && self.spec_drafted(r2) implies ((
            #[trigger] self.teams@[idx].spec_points_at(r2)) is Some <==> self.spec_scored(r2)) by {
                assert(self.teams@[idx].spec_lineup_at(r2) == pre.teams@[idx].spec_lineup_at(r2));
                if r2 != round {
                    assert(self.teams@[idx].spec_points_at(r2) == pre.teams@[idx].spec_points_at(
                        r2,
                    ));
                    assert(pre.teams@[idx].spec_points_at(r2) is Some <==> pre.spec_scored(r2));
                }
            }
            assert forall|idx: int, r2: u8|
                0 <= idx < self.teams@.len() && self.spec_drafted(r2) implies (
            #[trigger] self.teams@[idx].spec_lineup_at(r2))->0.len() == self.lineup_size as nat by {
                assert(self.teams@[idx].spec_lineup_at(r2) == pre.teams@[idx].spec_lineup_at(r2));
                assert(pre.teams@[idx].spec_lineup_at(r2)->0.len() == pre.lineup_size as nat);
            }
            assert forall|r2: u8| #[trigger] self.spec_scored(r2) implies self.spec_drafted(r2)
                && self.spec_ingested(r2) by {
                assert(r2 != round);
                assert(pre.spec_scored(r2) ==> pre.spec_drafted(r2) && pre.spec_ingested(r2));
            }
            assert forall|i: int|
                0 <= i < pre.teams@.len() implies (#[trigger] self.teams@[i].spec_points_at(
                round,
            )) is None by {
                if pre.spec_scored(round) {
                    assert(self.teams@[i].spec_points_at(round) is None);
                } else {
                    assert(self.teams@[i] == pre.teams@[i]);
                    if pre.spec_drafted(round) {
                        assert(pre.teams@[i].spec_points_at(round) is Some <==> pre.spec_scored(
                            round,
                        ));
                    } else {
                        assert(pre.teams@[i].spec_has_round(round) <==> pre.spec_drafted(round));
                    }
                }
            }
            assert forall|i: int, r2: u8|
                0 <= i < pre.teams@.len() implies (#[trigger] self.teams@[i].spec_lineup_at(r2))
                == pre.teams@[i].spec_lineup_at(r2) by {
                if pre.spec_scored(round) {
                    if r2 != round {
                        assert(self.teams@[i].spec_points_at(r2) == pre.teams@[i].spec_points_at(
                            r2,
                        ));
                    } else {
                        assert(self.teams@[i].spec_points_at(round) is None);
                    }
                } else {
                    assert(self.teams@[i] == pre.teams@[i]);
                }
            }
        }
        Ok(())
    }

    /// Deletes the round's lineups and clears its drafted flag. Fails,
    /// changing nothing, when the round is scored or the following round is
    /// already drafted.
    pub fn delete_lineup(&mut self, round: u8) -> (r: Result<(), DeleteError>)
        requires
            old(self).wf(),
        ensures
            final(self).wf(),
            r is Err <==> (old(self).spec_scored(round) || (round < 255 && old(self).spec_drafted(
                (round + 1) as u8,
            ))),
            match r {
                Err(e) => *final(self) == *old(self) && match e {
                    DeleteError::LineupDeleteWhileScoresExist(rr) => rr == round && old(
                        self,
                    ).spec_scored(round),
                    DeleteError::LineupDeleteWhenNextRoundDrafted(rr) => rr == round && !old(
                        self,
                    ).spec_scored(round) && round < 255 && old(self).spec_drafted(
                        (round + 1) as u8,
                    ),
                    _ => false,
                },
                Ok(_) => {
                    &&& !final(self).spec_drafted(round)
                    &&& forall|r2: u8|
                        r2 != round ==> final(self).spec_drafted(r2) == old(self).spec_drafted(r2)
                    &&& forall|r2: u8|
                        final(self).spec_scored(r2) == old(self).spec_scored(r2)
                    &&& forall|r2: u8|
                        final(self).spec_results_at(r2) == old(self).spec_results_at(r2)
                    &&& final(self).spec_team_count() == old(self).spec_team_count()
                    &&& forall|i: int|
                        0 <= i < old(self).spec_team_count()
                            ==> (#[trigger] final(self).spec_teams()[i].spec_lineup_at(round))
                            is None
                    &&& forall|i: int, r2: u8|
                        0 <= i < old(self).spec_team_count() && r2 != round
                            ==> (#[trigger] final(self).spec_teams()[i].spec_lineup_at(r2))
                            == old(self).spec_teams()[i].spec_lineup_at(r2)
                            && final(self).spec_teams()[i].spec_points_at(r2)
                            == old(self).spec_teams()[i].spec_points_at(r2)
                    &&& forall|i: int|
                        0 <= i < old(self).spec_team_count()
                            ==> (#[trigger] final(self).spec_teams()[i]).spec_name()
                            == old(self).spec_teams()[i].spec_name()
                    &&& final(self).spec_name() == old(self).spec_name()
                    &&& final(self).spec_config_unchanged(*old(self))
                },
            },
    {
        let ghost pre = *self;
        if self.team_status.has_scored(round) {
            return Err(DeleteError::LineupDeleteWhileScoresExist(round));
        }
        if round < 255 && self.team_status.has_drafted(round + 1) {
            return Err(DeleteError::LineupDeleteWhenNextRoundDrafted(round));
        }
        let n = self.teams.len();
        let mut k: usize = 0;
        while k < n
            invariant
                k <= n,
                n == self.teams@.len(),
                n == pre.teams@.len(),
                pre.wf(),
                self.results@ == pre.results@,
                self.team_status == pre.team_status,
                self.name == pre.name,
                self.score_choice == pre.score_choice,
                self.draft_choice == pre.draft_choice,
                self.lineup_size == pre.lineup_size,
                self.season == pre.season,
                self.grid_size == pre.grid_size,
                self.enforce_uniqueness == pre.enforce_uniqueness,
                forall|j: int| k <= j < n ==> self.teams@[j] == pre.teams@[j],
                forall|j: int| 0 <= j < n ==> (#[trigger] self.teams@[j]).wf(),
                forall|j: int|
                    0 <= j < k ==> !(#[trigger] self.teams@[j]).spec_has_round(round),
                forall|j: int, r2: u8|
                    0 <= j < k && r2 != round ==> (#[trigger] self.teams@[j].spec_lineup_at(r2))
                        == pre.teams@[j].spec_lineup_at(r2) && self.teams@[j].spec_points_at(r2)
                        == pre.teams@[j].spec_points_at(r2) && self.teams@[j].spec_has_round(r2)
                        == pre.teams@[j].spec_has_round(r2),
                forall|j: int|
                    0 <= j < k ==> (#[trigger] self.teams@[j]).spec_name() == pre.teams@[j]
                        .spec_name(),
            decreases n - k,
        {
            let t = &mut self.teams[k];
            t.delete_round(round);
            k += 1;
        }
        if self.team_status.has_drafted(round) {
            self.team_status.toggle_drafted(round);
        }
        proof {
            assert forall|idx: int, r2: u8|
                0 <= idx < self.teams@.len() implies ((#[trigger] self.teams@[idx].spec_has_round(
                r2,
            )) <==> self.spec_drafted(r2)) by {
                if r2 != round {
                    assert(self.teams@[idx].spec_lineup_at(r2) == pre.teams@[idx].spec_lineup_at(
                        r2,
                    ));
                    assert(pre.teams@[idx].spec_has_round(r2) <==> pre.spec_drafted(r2));
                } else {
                    assert(!self.teams@[idx].spec_has_round(round));
                }
            }
            assert forall|idx: int, r2: u8|
                0 <= idx < self.teams@.len() && self.spec_drafted(r2) implies ((
            #[trigger] self.teams@[idx].spec_points_at(r2)) is Some <==> self.spec_scored(r2)) by {
                assert(r2 != round);
                assert(self.teams@[idx].spec_lineup_at(r2) == pre.teams@[idx].spec_lineup_at(r2));
                assert(pre.teams@[idx].spec_points_at(r2) is Some <==> pre.spec_scored(r2));
            }
            assert forall|idx: int, r2: u8|
                0 <= idx < self.teams@.len() && self.spec_drafted(r2) implies (
            #[trigger] self.teams@[idx].spec_lineup_at(r2))->0.len() == self.lineup_size as nat by {
                assert(r2 != round);
                assert(self.teams@[idx].spec_lineup_at(r2) == pre.teams@[idx].spec_lineup_at(r2));
                assert(pre.teams@[idx].spec_lineup_at(r2)->0.len() == pre.lineup_size as nat);
            }
            assert forall|r2: u8| #[trigger] self.spec_scored(r2) implies self.spec_drafted(r2)
                && self.spec_ingested(r2) by {
                assert(pre.spec_scored(r2) ==> pre.spec_drafted(r2) && pre.spec_ingested(r2));
                assert(r2 != round);
            }
        }
        Ok(())
    }

    /// The fixed configuration is the same in both states.
    pub open spec fn spec_config_unchanged(self, other: FantasySeason) -> bool {
        &&& self.spec_score_choice() == other.spec_score_choice()
        &&& self.spec_draft_choice() == other.spec_draft_choice()
        &&& self.spec_lineup_size() == other.spec_lineup_size()
        &&& self.spec_season() == other.spec_season()
        &&& self.spec_grid_size() == other.spec_grid_size()
        &&& self.spec_enforce_uniqueness() == other.spec_enforce_uniqueness()
    }

    /// The configured scoring formula.
    pub fn get_score_choice(&self) -> (r: ScoreChoice)
        ensures
            r == self.spec_score_choice(),
    {
        self.score_choice
    }

    /// The configured drafting strategy.
    pub fn get_draft_choice(&self) -> (r: DraftChoice)
        ensures
            r == self.spec_draft_choice(),
    {
        self.draft_choice
    }

    /// The configured drivers-per-team count.
    pub fn get_lineup_size(&self) -> (r: u8)
        ensures
            r == self.spec_lineup_size(),
    {
        self.lineup_size
    }

    /// The season year.
    pub fn get_season(&self) -> (r: u16)
        ensures
            r == self.spec_season(),
    {
        self.season
    }

    /// The configured grid size.
    pub fn get_grid_size(&self) -> (r: u8)
        ensures
            r == self.spec_grid_size(),
    {
        self.grid_size
    }

    /// Whether cross-team driver uniqueness is enforced at drafting.
    pub fn enforces_unique(&self) -> (r: bool)
        ensures
            r == self.spec_enforce_uniqueness(),
    {
        self.enforce_uniqueness
    }

    /// Whether the chosen order puts team `a` strictly after team `b`.
    fn team_gt(&self, a: usize, b: usize, round: u8, at_round: bool) -> (r: bool)
        requires
            self.wf(),
            a < self.spec_team_count(),
            b < self.spec_team_count(),
            at_round ==> self.spec_scored(round),
        ensures
            r == if at_round {
                !spec_leq_at(self.spec_teams(), round)(a, b)
            } else {
                !spec_leq_by(self.spec_teams(), round)(a, b)
            },
    {
        proof {
            assert((#[trigger] self.teams@[a as int]).wf());
            assert(self.teams@[b as int].wf());
            if at_round {
                assert(self.teams@[a as int].spec_has_round(round) <==> self.spec_drafted(round));
                assert(self.teams@[b as int].spec_has_round(round) <==> self.spec_drafted(round));
                assert(self.teams@[a as int].spec_points_at(round) is Some <==> self.spec_scored(
                    round,
                ));
                assert(self.teams@[b as int].spec_points_at(round) is Some <==> self.spec_scored(
                    round,
                ));
                assert(self.spec_scored(round) ==> self.spec_drafted(round));
            }
        }
        let o = if at_round {
            Team::sort_at(&self.teams[a], &self.teams[b], round)
        } else {
            Team::sort_by(&self.teams[a], &self.teams[b], round)
        };
        match o {
            Ordering::Greater => true,
            _ => false,
        }
    }

    /// Team indices in the chosen order: a stable insertion sort of the
    /// indices `0..n` by the leaderboard chain or by one round's points.
    fn order_teams(&self, round: u8, at_round: bool) -> (r: Vec<usize>)
        requires
            self.wf(),
            at_round ==> self.spec_scored(round),
        ensures
            r@ == if at_round {
                spec_round_order(self.spec_teams(), round)
            } else {
                spec_standings_order(self.spec_teams(), round)
            },
            r@.len() == self.spec_team_count(),
            at_round ==> sorted_by(spec_leq_at(self.spec_teams(), round), r@),
            !at_round ==> sorted_by(spec_leq_by(self.spec_teams(), round), r@),
            forall|j: int| 0 <= j < r@.len() ==> (#[trigger] r@[j]) < self.spec_team_count(),
    {
        let ghost leq = if at_round {
            spec_leq_at(self.teams@, round)
        } else {
            spec_leq_by(self.teams@, round)
        };
        let ghost ids = Seq::new(self.teams@.len(), |i: int| i as usize);
        proof {
            if at_round {
                lemma_leq_at_total(self.teams@, round);
            } else {
                lemma_leq_by_total(self.teams@, round);
            }
            assert(ids.subrange(0, 0) =~= Seq::<usize>::empty());
        }
        let n = self.teams.len();
        let mut order: Vec<usize> = Vec::new();
        let mut t: usize = 0;
        while t < n
            invariant
                t <= n,
                n == self.teams@.len(),
                self.wf(),
                at_round ==> self.spec_scored(round),
                total_preorder(leq),
                leq == if at_round {
                    spec_leq_at(self.teams@, round)
                } else {
                    spec_leq_by(self.teams@, round)
                },
                ids.len() == n,
                forall|j: int| 0 <= j < n ==> ids[j] == j as usize,
                order@ == sort_le(leq, ids.subrange(0, t as int)),
                order@.len() == t,
                sorted_by(leq, order@),
                forall|j: int| 0 <= j < order@.len() ==> (#[trigger] order@[j]) < n,
            decreases n - t,
        {
            let mut j: usize = 0;
            while j < order.len() && !self.team_gt(order[j], t, round, at_round)
                invariant
                    j <= order@.len(),
                    n == self.teams@.len(),
                    t < n,
                    self.wf(),
                    at_round ==> self.spec_scored(round),
                    leq == if at_round {
                        spec_leq_at(self.teams@, round)
                    } else {
                        spec_leq_by(self.teams@, round)
                    },
                    forall|m: int| 0 <= m < order@.len() ==> (#[trigger] order@[m]) < n,
                    forall|m: int| 0 <= m < j ==> leq(#[trigger] order@[m], t as usize),
                decreases order@.len() - j,
            {
                j += 1;
            }
            proof {
                assert forall|m: int| j <= m < order@.len() implies !leq(
                    #[trigger] order@[m],
                    t as usize,
                ) by {
                    if m > j {
                        assert(leq(order@[j as int], order@[m]));
                    }
                }
                lemma_insert_le_exact(leq, order@, t as usize, j as int);
                assert(ids.subrange(0, t as int + 1).drop_last() =~= ids.subrange(0, t as int));
                assert(ids.subrange(0, t as int + 1).last() == t as usize);
            }
            let ghost order0 = order@;
            order.insert(j, t);
            proof {
                assert forall|m: int| 0 <= m < order@.len() implies (#[trigger] order@[m]) < n by {
                    if m < j {
                        assert(order@[m] == order0[m]);
                    } else if m > j {
                        assert(order@[m] == order0[m - 1]);
                    }
                }
            }
            t += 1;
        }
        proof {
            assert(ids.subrange(0, n as int) =~= ids);
            assert(ids =~= Seq::new(self.teams@.len(), |i: int| i as usize));
        }
        order
    }

    /// The running leaderboard through `round`: every team's name and
    /// cumulative points, ordered by most points, ties by best single
    /// round, then by worst single round, then by season insertion order.
    pub fn get_points_by(&self, round: u8) -> (r: Vec<(String, i64)>)
        requires
            self.wf(),
        ensures
            r@.len() == self.spec_team_count(),
            sorted_by(
                spec_leq_by(self.spec_teams(), round),
                spec_standings_order(self.spec_teams(), round),
            ),
            forall|k: int|
                0 <= k < r@.len() ==> {
                    let idx = spec_standings_order(self.spec_teams(), round)[k] as int;
                    (#[trigger] r@[k]).0@ == self.spec_teams()[idx].spec_name() && r@[k].1 as int
                        == self.spec_teams()[idx].spec_cum_points(round)
                },
    {
        let order = self.order_teams(round, false);
        let n = order.len();
        let mut r: Vec<(String, i64)> = Vec::new();
        let mut k: usize = 0;
        while k < n
            invariant
                k <= n,
                n == order@.len(),
                self.wf(),
                order@ == spec_standings_order(self.spec_teams(), round),
                order@.len() == self.teams@.len(),
                forall|j: int| 0 <= j < order@.len() ==> (#[trigger] order@[j]) < self.teams@.len(),
                r@.len() == k,
                forall|m: int|
                    0 <= m < k ==> {
                        let idx = order@[m] as int;
                        (#[trigger] r@[m]).0@ == self.teams@[idx].spec_name() && r@[m].1 as int
                            == self.teams@[idx].spec_cum_points(round)
                    },
            decreases n - k,
        {
            let idx = order[k];
            proof {
                assert((#[trigger] self.teams@[idx as int]).wf());
            }
            let team = &self.teams[idx];
            r.push((team.name(), team.get_points_by(round)));
            k += 1;
        }
        r
    }

    /// One scored round's table: every team's name and that round's points,
    /// ordered by points descending, ties by season insertion order; `None`
    /// while the round is unscored.
    pub fn get_points_at(&self, round: u8) -> (r: Option<Vec<(String, i64)>>)
        requires
            self.wf(),
        ensures
            r is Some <==> self.spec_scored(round),
            match r {
                Some(v) => v@.len() == self.spec_team_count() && sorted_by(
                    spec_leq_at(self.spec_teams(), round),
                    spec_round_order(self.spec_teams(), round),
                ) && forall|k: int|
                    0 <= k < v@.len() ==> {
                        let idx = spec_round_order(self.spec_teams(), round)[k] as int;
                        (#[trigger] v@[k]).0@ == self.spec_teams()[idx].spec_name() && Some(
                            v@[k].1,
                        ) == self.spec_teams()[idx].spec_points_at(round)
                    },
                None => true,
            },
    {
        if !self.team_status.has_scored(round) {
            return None;
        }
        let order = self.order_teams(round, true);
        let n = order.len();
        let mut v: Vec<(String, i64)> = Vec::new();
        let mut k: usize = 0;
        while k < n
            invariant
                k <= n,
                n == order@.len(),
                self.wf(),
                self.spec_scored(round),
                order@ == spec_round_order(self.spec_teams(), round),
                order@.len() == self.teams@.len(),
                forall|j: int| 0 <= j < order@.len() ==> (#[trigger] order@[j]) < self.teams@.len(),
                v@.len() == k,
                forall|m: int|
                    0 <= m < k ==> {
                        let idx = order@[m] as int;
                        (#[trigger] v@[m]).0@ == self.teams@[idx].spec_name() && Some(v@[m].1)
                            == self.teams@[idx].spec_points_at(round)
                    },
            decreases n - k,
        {
            let idx = order[k];
            proof {
                assert((#[trigger] self.teams@[idx as int]).spec_points_at(round) is Some
                    <==> self.spec_scored(round));
            }
            let team = &self.teams[idx];
            let p = match team.get_points_at(round) {
                Some(p) => p,
                None => 0,
            };
            v.push((team.name(), p));
            k += 1;
        }
        Some(v)
    }

    /// Every team's name and lineup for `round`, in season order; empty
    /// while the round is not drafted.
    pub fn get_lineup_at(&self, round: u8) -> (r: Vec<(String, Vec<u8>)>)
        requires
            self.wf(),
        ensures
            self.spec_drafted(round) ==> r@.len() == self.spec_team_count() && forall|i: int|
                0 <= i < r@.len() ==> (#[trigger] r@[i]).0@ == self.spec_teams()[i].spec_name()
                    && Some(r@[i].1@) == self.spec_teams()[i].spec_lineup_at(round),
            !self.spec_drafted(round) ==> r@.len() == 0,
    {
        let n = self.teams.len();
        let mut r: Vec<(String, Vec<u8>)> = Vec::new();
        let mut i: usize = 0;
        while i < n
            invariant
                i <= n,
                n == self.teams@.len(),
                self.wf(),
                self.spec_drafted(round) ==> r@.len() == i && forall|m: int|
                    0 <= m < i ==> (#[trigger] r@[m]).0@ == self.teams@[m].spec_name() && Some(
                        r@[m].1@,
                    ) == self.teams@[m].spec_lineup_at(round),
                !self.spec_drafted(round) ==> r@.len() == 0,
            decreases n - i,
        {
            proof {
                assert((#[trigger] self.teams@[i as int]).spec_has_round(round)
                    <==> self.spec_drafted(round));
            }
            let team = &self.teams[i];
            match team.get_lineup_at(round) {
                Some(lineup) => {
                    r.push((team.name(), lineup));
                },
                None => {},
            }
            i += 1;
        }
        r
    }

    /// A copy of the round's ingested driver results, if any.
    pub fn get_results_at(&self, round: u8) -> (r: Option<Vec<DriverResult>>)
        ensures
            match r {
                Some(v) => self.spec_results_at(round) == Some(v@),
                None => self.spec_results_at(round) is None,
            },
    {
        match find_index(&self.results, round) {
            Some(i) => {
                let stored = &self.results[i].1;
                let n = stored.len();
                let mut v: Vec<DriverResult> = Vec::new();
                let mut k: usize = 0;
                while k < n
                    invariant
                        k <= n,
                        n == stored@.len(),
                        v@ == stored@.subrange(0, k as int),
                    decreases n - k,
                {
                    v.push(stored[k]);
                    proof {
                        assert(stored@.subrange(0, k + 1) =~= stored@.subrange(0, k as int).push(
                            stored@[k as int],
                        ));
                    }
                    k += 1;
                }
                proof {
                    assert(stored@.subrange(0, n as int) =~= stored@);
                }
                Some(v)
            },
            None => None,
        }
    }

    /// The round's lifecycle flags: drafted, results ingested, scored.
    pub fn get_status_at(&self, round: u8) -> (r: (bool, bool, bool))
        ensures
            r.0 == self.spec_drafted(round),
            r.1 == self.spec_ingested(round),
            r.2 == self.spec_scored(round),
    {
        let ingested = match find_index(&self.results, round) {
            Some(_) => true,
            None => false,
        };
        (self.team_status.has_drafted(round), ingested, self.team_status.has_scored(round))
    }

    /// Every team's name, in season (insertion) order.
    pub fn get_team_names(&self) -> (r: Vec<String>)
        ensures
            r@.len() == self.spec_team_count(),
            forall|i: int|
                0 <= i < r@.len() ==> (#[trigger] r@[i])@ == self.spec_teams()[i].spec_name(),
    {
        let n = self.teams.len();
        let mut names: Vec<String> = Vec::new();
        let mut i: usize = 0;
        while i < n
            invariant
                i <= n,
                n == self.teams@.len(),
                names@.len() == i,
                forall|j: int|
                    0 <= j < i ==> (#[trigger] names@[j])@ == self.teams@[j].spec_name(),
            decreases n - i,
        {
            names.push(self.teams[i].name());
            i += 1;
        }
        names
    }
}

} // verus!

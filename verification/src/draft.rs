//! The drafting-strategy engine: each strategy turns a team's previous
//! lineup into its lineup for the next round.

use vstd::prelude::*;

use crate::error::DraftError;
use crate::utils::copy_drivers;

verus! {

/// The closed set of drafting strategies a season can be configured with.
#[derive(Copy, Clone, Default, Debug, PartialEq, Eq, Structural)]
pub enum DraftChoice {
    /// Every team keeps its previous lineup.
    #[default]
    Skip,
    /// Every team drops its lowest-priority driver and prepends one new one.
    RollOn,
    /// Every team replaces its whole lineup.
    ReplaceAll,
}

/// The strategy that returns the previous lineup unchanged.
#[derive(Default, Debug)]
pub struct Skip {}

impl Skip {
    pub fn new() -> (r: Skip) {
        Skip {}
    }
}

/// The strategy that, per team, drops the last previous driver and prepends
/// one caller-supplied new driver.
#[derive(Default, Debug)]
pub struct RollOn {
    drafted_drivers: Vec<(String, u8)>,
}

/// The caller-supplied pick rows as plain values.
pub open spec fn picks_view(rows: Seq<(String, u8)>) -> Seq<(Seq<char>, u8)> {
    rows.map_values(|p: (String, u8)| (p.0@, p.1))
}

/// The caller-supplied replacement rows as plain values.
pub open spec fn entries_view(rows: Seq<(String, Vec<u8>)>) -> Seq<(Seq<char>, Seq<u8>)> {
    rows.map_values(|p: (String, Vec<u8>)| (p.0@, p.1@))
}

impl View for RollOn {
    type V = Seq<(Seq<char>, u8)>;

    closed spec fn view(&self) -> Seq<(Seq<char>, u8)> {
        picks_view(self.drafted_drivers@)
    }
}

impl RollOn {
    pub fn new(drafted_drivers: Vec<(String, u8)>) -> (r: RollOn)
        ensures
            r@ == picks_view(drafted_drivers@),
    {
        RollOn { drafted_drivers }
    }
}

/// The strategy that, per team, returns one caller-supplied complete lineup,
/// consuming it so it cannot serve another team.
#[derive(Default, Debug)]
pub struct ReplaceAll {
    team_lineups: Vec<(String, Vec<u8>)>,
}

impl View for ReplaceAll {
    type V = Seq<(Seq<char>, Seq<u8>)>;

    closed spec fn view(&self) -> Seq<(Seq<char>, Seq<u8>)> {
        entries_view(self.team_lineups@)
    }
}

impl ReplaceAll {
    pub fn new(team_lineups: Vec<(String, Vec<u8>)>) -> (r: ReplaceAll)
        ensures
            r@ == entries_view(team_lineups@),
    {
        ReplaceAll { team_lineups }
    }
}

/// A drafting strategy together with its caller-supplied input.
#[derive(Debug)]
pub enum Drafter {
    Skip(Skip),
    RollOn(RollOn),
    ReplaceAll(ReplaceAll),
}

/// A drafter's state as plain values: the strategy and what input it still
/// holds.
pub enum DrafterModel {
    Skip,
    RollOn(Seq<(Seq<char>, u8)>),
    ReplaceAll(Seq<(Seq<char>, Seq<u8>)>),
}

impl View for Drafter {
    type V = DrafterModel;

    closed spec fn view(&self) -> DrafterModel {
        match self {
            Drafter::Skip(_) => DrafterModel::Skip,
            Drafter::RollOn(ro) => DrafterModel::RollOn(ro@),
            Drafter::ReplaceAll(ra) => DrafterModel::ReplaceAll(ra@),
        }
    }
}

/// The index of the first pick row for `team`, if any.
pub open spec fn pick_idx(picks: Seq<(Seq<char>, u8)>, team: Seq<char>) -> Option<int>
    decreases picks.len(),
{
    if picks.len() == 0 {
        None
    } else if picks[0].0 == team {
        Some(0int)
    } else {
        match pick_idx(picks.drop_first(), team) {
            None => None,
            Some(i) => Some(i + 1),
        }
    }
}

/// The index of the first replacement row for `team`, if any.
pub open spec fn entry_idx(entries: Seq<(Seq<char>, Seq<u8>)>, team: Seq<char>) -> Option<int>
    decreases entries.len(),
{
    if entries.len() == 0 {
        None
    } else if entries[0].0 == team {
        Some(0int)
    } else {
        match entry_idx(entries.drop_first(), team) {
            None => None,
            Some(i) => Some(i + 1),
        }
    }
}

pub proof fn lemma_pick_idx_props(picks: Seq<(Seq<char>, u8)>, team: Seq<char>)
    requires
        pick_idx(picks, team) is Some,
    ensures
        0 <= pick_idx(picks, team)->0 < picks.len(),
        picks[pick_idx(picks, team)->0].0 == team,
    decreases picks.len(),
{
    if picks.len() > 0 && picks[0].0 != team {
        lemma_pick_idx_props(picks.drop_first(), team);
    }
}

pub proof fn lemma_pick_idx_at(picks: Seq<(Seq<char>, u8)>, team: Seq<char>, i: int)
    requires
        0 <= i < picks.len(),
        picks[i].0 == team,
        forall|j: int| 0 <= j < i ==> picks[j].0 != team,
    ensures
        pick_idx(picks, team) == Some(i),
    decreases i,
{
    if i > 0 {
        lemma_pick_idx_at(picks.drop_first(), team, i - 1);
    }
}

pub proof fn lemma_pick_idx_none(picks: Seq<(Seq<char>, u8)>, team: Seq<char>)
    requires
        forall|j: int| 0 <= j < picks.len() ==> picks[j].0 != team,
    ensures
        pick_idx(picks, team) is None,
    decreases picks.len(),
{
    if picks.len() > 0 {
        lemma_pick_idx_none(picks.drop_first(), team);
    }
}

pub proof fn lemma_entry_idx_props(entries: Seq<(Seq<char>, Seq<u8>)>, team: Seq<char>)
    requires
        entry_idx(entries, team) is Some,
    ensures
        0 <= entry_idx(entries, team)->0 < entries.len(),
        entries[entry_idx(entries, team)->0].0 == team,
    decreases entries.len(),
{
    if entries.len() > 0 && entries[0].0 != team {
        lemma_entry_idx_props(entries.drop_first(), team);
    }
}

pub proof fn lemma_entry_idx_at(entries: Seq<(Seq<char>, Seq<u8>)>, team: Seq<char>, i: int)
    requires
        0 <= i < entries.len(),
        entries[i].0 == team,
        forall|j: int| 0 <= j < i ==> entries[j].0 != team,
    ensures
        entry_idx(entries, team) == Some(i),
    decreases i,
{
    if i > 0 {
        lemma_entry_idx_at(entries.drop_first(), team, i - 1);
    }
}

pub proof fn lemma_entry_idx_none(entries: Seq<(Seq<char>, Seq<u8>)>, team: Seq<char>)
    requires
        forall|j: int| 0 <= j < entries.len() ==> entries[j].0 != team,
    ensures
        entry_idx(entries, team) is None,
    decreases entries.len(),
{
    if entries.len() > 0 {
        lemma_entry_idx_none(entries.drop_first(), team);
    }
}

impl DrafterModel {
    /// What one draft call returns for `team` with previous lineup `prev`:
    /// `Skip` repeats `prev`; `RollOn` prepends the team's supplied driver
    /// to `prev` without its last entry, and fails when no driver was
    /// supplied; `ReplaceAll` returns the team's supplied lineup, and fails
    /// when none was supplied or when it is not of the previous lineup's
    /// size.
    pub open spec fn spec_draft_result(self, team: Seq<char>, prev: Seq<u8>) -> Result<
        Seq<u8>,
        DraftError,
    > {
        match self {
            DrafterModel::Skip => Ok(prev),
            DrafterModel::RollOn(picks) => match pick_idx(picks, team) {
                None => Err(DraftError::IncompleteDrafter),
                Some(i) => if prev.len() == 0 {
                    Ok(seq![picks[i].1])
                } else {
                    Ok(seq![picks[i].1] + prev.drop_last())
                },
            },
            DrafterModel::ReplaceAll(entries) => match entry_idx(entries, team) {
                None => Err(DraftError::IncompleteDrafter),
                Some(i) => if entries[i].1.len() == prev.len() {
                    Ok(entries[i].1)
                } else {
                    Err(DraftError::IncompleteDrafter)
                },
            },
        }
    }

    /// The drafter's state after one draft call: `ReplaceAll` consumes the
    /// entry it handed out; the other strategies, and every failing call,
    /// leave the drafter as it was.
    pub open spec fn spec_after(self, team: Seq<char>, prev: Seq<u8>) -> DrafterModel {
        match self {
            DrafterModel::ReplaceAll(entries) => match entry_idx(entries, team) {
                Some(i) => if entries[i].1.len() == prev.len() {
                    DrafterModel::ReplaceAll(entries.remove(i))
                } else {
                    self
                },
                None => self,
            },
            _ => self,
        }
    }
}

/// A successful draft for a non-empty previous lineup returns a lineup of
/// the previous lineup's size.
pub proof fn lemma_draft_result_len(d: DrafterModel, team: Seq<char>, prev: Seq<u8>)
    requires
        d.spec_draft_result(team, prev) is Ok,
        prev.len() >= 1,
    ensures
        d.spec_draft_result(team, prev)->Ok_0.len() == prev.len(),
{
}

/// The only failure a draft call itself reports is a missing entry.
pub proof fn lemma_draft_result_err(d: DrafterModel, team: Seq<char>, prev: Seq<u8>)
    requires
        d.spec_draft_result(team, prev) is Err,
    ensures
        d.spec_draft_result(team, prev)->Err_0 == DraftError::IncompleteDrafter,
{
}

/// The index of the first pick row named `name`, or `None` with the
/// guarantee that no row has it.
fn find_pick(picks: &Vec<(String, u8)>, name: &str) -> (r: Option<usize>)
    ensures
        match r {
            Some(i) => pick_idx(picks_view(picks@), name@) == Some(i as int),
            None => pick_idx(picks_view(picks@), name@) is None,
        },
{
    let owned: String = name.to_owned();
    let n = picks.len();
    let mut i: usize = 0;
    while i < n
        invariant
            i <= n,
            n == picks@.len(),
            owned@ == name@,
            forall|j: int| 0 <= j < i ==> picks_view(picks@)[j].0 != name@,
        decreases n - i,
    {
        if picks[i].0 == owned {
            proof {
                lemma_pick_idx_at(picks_view(picks@), name@, i as int);
            }
            return Some(i);
        }
        i += 1;
    }
    proof {
        lemma_pick_idx_none(picks_view(picks@), name@);
    }
    None
}

/// The index of the first replacement row named `name`, or `None` with the
/// guarantee that no row has it.
fn find_entry(entries: &Vec<(String, Vec<u8>)>, name: &str) -> (r: Option<usize>)
    ensures
        match r {
            Some(i) => entry_idx(entries_view(entries@), name@) == Some(i as int),
            None => entry_idx(entries_view(entries@), name@) is None,
        },
{
    let owned: String = name.to_owned();
    let n = entries.len();
    let mut i: usize = 0;
    while i < n
        invariant
            i <= n,
            n == entries@.len(),
            owned@ == name@,
            forall|j: int| 0 <= j < i ==> entries_view(entries@)[j].0 != name@,
        decreases n - i,
    {
        if entries[i].0 == owned {
            proof {
                lemma_entry_idx_at(entries_view(entries@), name@, i as int);
            }
            return Some(i);
        }
        i += 1;
    }
    proof {
        lemma_entry_idx_none(entries_view(entries@), name@);
    }
    None
}

impl Drafter {
    /// One team's draft: computes the team's next lineup from its previous
    /// one and the strategy's caller-supplied input.
    pub fn draft(&mut self, team_name: &str, previous_drivers: &Vec<u8>) -> (r: Result<
        Vec<u8>,
        DraftError,
    >)
        ensures
            final(self)@ == old(self)@.spec_after(team_name@, previous_drivers@),
            match r {
                Ok(l) => old(self)@.spec_draft_result(team_name@, previous_drivers@) == Ok::<
                    Seq<u8>,
                    DraftError,
                >(l@),
                Err(e) => old(self)@.spec_draft_result(team_name@, previous_drivers@) == Err::<
                    Seq<u8>,
                    DraftError,
                >(e),
            },
    {
        match self {
            Drafter::Skip(_) => Ok(copy_drivers(previous_drivers)),
            Drafter::RollOn(ro) => {
                match find_pick(&ro.drafted_drivers, team_name) {
                    None => Err(DraftError::IncompleteDrafter),
                    Some(i) => {
                        proof {
                            lemma_pick_idx_props(picks_view(ro.drafted_drivers@), team_name@);
                        }
                        let new_driver = ro.drafted_drivers[i].1;
                        let mut lineup = copy_drivers(previous_drivers);
                        lineup.pop();
                        lineup.insert(0, new_driver);
                        proof {
                            if previous_drivers@.len() == 0 {
                                assert(lineup@ =~= seq![new_driver]);
                            } else {
                                assert(lineup@ =~= seq![new_driver]
                                    + previous_drivers@.drop_last());
                            }
                        }
                        Ok(lineup)
                    },
                }
            },
            Drafter::ReplaceAll(ra) => {
                match find_entry(&ra.team_lineups, team_name) {
                    None => Err(DraftError::IncompleteDrafter),
                    Some(i) => {
                        proof {
                            lemma_entry_idx_props(entries_view(ra.team_lineups@), team_name@);
                        }
                        if ra.team_lineups[i].1.len() != previous_drivers.len() {
                            Err(DraftError::IncompleteDrafter)
                        } else {
                            let entry = ra.team_lineups.remove(i);
                            proof {
                                assert(entries_view(ra.team_lineups@) =~= entries_view(
                                    old(self)->ReplaceAll_0.team_lineups@,
                                ).remove(i as int));
                            }
                            Ok(entry.1)
                        }
                    },
                }
            },
        }
    }
}

} // verus!

//! Per-round lifecycle flags: whether a round's teams have drafted and
//! whether they have been scored. A round with no row is a round with both
//! flags false, so skipped rounds take no space.

use vstd::prelude::*;

use crate::lookup::{find_index, insert_row, spec_find, strictly_sorted};

verus! {

/// The two team-side flags of one round.
#[derive(Debug, Copy, Clone, PartialEq, Eq, Structural)]
pub struct RoundStatus {
    pub drafted: bool,
    pub scored: bool,
}

impl RoundStatus {
    pub fn new(drafted: bool, scored: bool) -> (r: RoundStatus)
        ensures
            r == (RoundStatus { drafted, scored }),
    {
        RoundStatus { drafted, scored }
    }
}

/// The drafted/scored flags of every round, stored sparsely by round number.
#[derive(Debug)]
pub struct TeamStatus {
    rows: Vec<(u8, RoundStatus)>,
}

impl TeamStatus {
    /// The flags of `round`; a missing row means both flags are false.
    pub closed spec fn spec_status(self, round: u8) -> RoundStatus {
        match spec_find(self.rows@, round) {
            Some(rs) => rs,
            None => RoundStatus { drafted: false, scored: false },
        }
    }

    /// Whether every team has a lineup for `round`.
    pub open spec fn spec_drafted(self, round: u8) -> bool {
        self.spec_status(round).drafted
    }

    /// Whether every team has points recorded for `round`.
    pub open spec fn spec_scored(self, round: u8) -> bool {
        self.spec_status(round).scored
    }

    pub closed spec fn wf(self) -> bool {
        strictly_sorted(self.rows@)
    }

    /// A fresh status: no round drafted, none scored.
    pub fn new() -> (r: TeamStatus)
        ensures
            r.wf(),
            forall|round: u8| !r.spec_drafted(round) && !r.spec_scored(round),
    {
        TeamStatus { rows: Vec::new() }
    }

    pub fn has_drafted(&self, round: u8) -> (r: bool)
        ensures
            r == self.spec_drafted(round),
    {
        match find_index(&self.rows, round) {
            Some(i) => self.rows[i].1.drafted,
            None => false,
        }
    }

    pub fn has_scored(&self, round: u8) -> (r: bool)
        ensures
            r == self.spec_scored(round),
    {
        match find_index(&self.rows, round) {
            Some(i) => self.rows[i].1.scored,
            None => false,
        }
    }

    /// Flips the drafted flag of `round`; the scored flag keeps its value.
    pub fn toggle_drafted(&mut self, round: u8)
        requires
            old(self).wf(),
        ensures
            final(self).wf(),
            final(self).spec_drafted(round) == !old(self).spec_drafted(round),
            final(self).spec_scored(round) == old(self).spec_scored(round),
            forall|r2: u8| r2 != round ==> final(self).spec_status(r2) == old(self).spec_status(r2),
    {
        match find_index(&self.rows, round) {
            Some(i) => {
                let ghost s0 = self.rows@;
                let old_rs = self.rows[i].1;
                let new_rs = RoundStatus { drafted: !old_rs.drafted, scored: old_rs.scored };
                self.rows[i] = (round, new_rs);
                proof {
                    assert(self.rows@ == s0.update(i as int, (s0[i as int].0, new_rs)));
                    crate::lookup::lemma_find_update_same(s0, i as int, new_rs);
                    assert forall|r2: u8| r2 != round implies spec_find(self.rows@, r2)
                        == spec_find(s0, r2) by {
                        crate::lookup::lemma_find_update_other(s0, i as int, new_rs, r2);
                    }
                    assert forall|a: int, b: int|
                        0 <= a < b < self.rows@.len() implies self.rows@[a].0 < self.rows@[b].0 by {
                        assert(s0[a].0 < s0[b].0);
                    }
                }
            },
            None => {
                insert_row(&mut self.rows, round, RoundStatus { drafted: true, scored: false });
            },
        }
    }

    /// Flips the scored flag of `round`; the drafted flag keeps its value.
    pub fn toggle_scored(&mut self, round: u8)
        requires
            old(self).wf(),
        ensures
            final(self).wf(),
            final(self).spec_scored(round) == !old(self).spec_scored(round),
            final(self).spec_drafted(round) == old(self).spec_drafted(round),
            forall|r2: u8| r2 != round ==> final(self).spec_status(r2) == old(self).spec_status(r2),
    {
        match find_index(&self.rows, round) {
            Some(i) => {
                let ghost s0 = self.rows@;
                let old_rs = self.rows[i].1;
                let new_rs = RoundStatus { drafted: old_rs.drafted, scored: !old_rs.scored };
                self.rows[i] = (round, new_rs);
                proof {
                    assert(self.rows@ == s0.update(i as int, (s0[i as int].0, new_rs)));
                    crate::lookup::lemma_find_update_same(s0, i as int, new_rs);
                    assert forall|r2: u8| r2 != round implies spec_find(self.rows@, r2)
                        == spec_find(s0, r2) by {
                        crate::lookup::lemma_find_update_other(s0, i as int, new_rs, r2);
                    }
                    assert forall|a: int, b: int|
                        0 <= a < b < self.rows@.len() implies self.rows@[a].0 < self.rows@[b].0 by {
                        assert(s0[a].0 < s0[b].0);
                    }
                }
            },
            None => {
                insert_row(&mut self.rows, round, RoundStatus { drafted: false, scored: true });
            },
        }
    }
}

} // verus!

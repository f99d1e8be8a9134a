//! Race-result records and the result normalizer.
//!
//! The normalizer merges raw race placements with qualifying placements and
//! rewrites the grid-position field into a dense `1..=n` ranking: drivers are
//! ordered by raw grid position ascending, with the sentinel `0` ("did not
//! start from the grid") after every real grid slot, ties broken by
//! qualifying position ascending, and equal keys kept in input order.

use vstd::prelude::*;

use crate::error::DownloadError;
use crate::sorting::{lemma_insert_le_exact, sort_le, sorted_by, total_preorder};

verus! {

/// A raw race placement for one driver, as the result source reports it.
/// `grid` is `0` when the driver did not start from a normal grid slot.
#[derive(Debug, Copy, Clone, PartialEq, Eq, Structural)]
pub struct RaceEntry {
    pub driver: u8,
    pub position: u8,
    pub grid: u8,
}

/// A raw qualifying placement for one driver.
#[derive(Debug, Copy, Clone, PartialEq, Eq, Structural)]
pub struct QualifyingEntry {
    pub driver: u8,
    pub position: u8,
}

/// A merged record whose grid position is still the raw, gappy value.
#[derive(Debug, Copy, Clone, PartialEq, Eq, Structural)]
pub struct BrokenDriverResult {
    pub driver: u8,
    pub final_position: u8,
    pub grid_position: u8,
    pub qualifying_position: u8,
}

/// The normalized results for one driver in a round: final position and
/// qualifying position as reported, grid position rewritten to a dense rank.
#[derive(Debug, Copy, Clone, PartialEq, Eq, Structural)]
pub struct DriverResult {
    pub driver: u8,
    pub final_position: u8,
    pub grid_position: u8,
    pub qualifying_position: u8,
}

impl DriverResult {
    /// A normalized record: the raw record with its grid position replaced
    /// by the rank `pos`.
    pub fn new(broken: &BrokenDriverResult, pos: u8) -> (r: DriverResult)
        ensures
            r == (DriverResult {
                driver: broken.driver,
                final_position: broken.final_position,
                grid_position: pos,
                qualifying_position: broken.qualifying_position,
            }),
    {
        DriverResult {
            driver: broken.driver,
            final_position: broken.final_position,
            grid_position: pos,
            qualifying_position: broken.qualifying_position,
        }
    }
}

/// The normalized results of one round's race for all drivers.
#[derive(Debug)]
pub struct RaceResults {
    pub round: u8,
    pub drivers: Vec<DriverResult>,
}

/// The qualifying position of `driver`: the position of the first
/// qualifying entry for that driver, if there is one.
pub open spec fn spec_quali_lookup(q: Seq<QualifyingEntry>, driver: u8) -> Option<u8>
    decreases q.len(),
{
    if q.len() == 0 {
        None
    } else if q[0].driver == driver {
        Some(q[0].position)
    } else {
        spec_quali_lookup(q.drop_first(), driver)
    }
}

/// Each race entry merged with its driver's qualifying position, in race
/// order; the first driver with no qualifying entry fails the merge.
pub open spec fn spec_join(race: Seq<RaceEntry>, q: Seq<QualifyingEntry>) -> Result<
    Seq<BrokenDriverResult>,
    u8,
>
    decreases race.len(),
{
    if race.len() == 0 {
        Ok(Seq::empty())
    } else {
        match spec_quali_lookup(q, race[0].driver) {
            None => Err(race[0].driver),
            Some(qp) => match spec_join(race.drop_first(), q) {
                Err(d) => Err(d),
                Ok(rest) => Ok(
                    seq![
                        BrokenDriverResult {
                            driver: race[0].driver,
                            final_position: race[0].position,
                            grid_position: race[0].grid,
                            qualifying_position: qp,
                        }
                    ] + rest,
                ),
            },
        }
    }
}

/// The sort key of a raw grid position: the sentinel `0` orders after every
/// real grid slot.
pub open spec fn spec_grid_key(d: BrokenDriverResult) -> int {
    if d.grid_position == 0 {
        256
    } else {
        d.grid_position as int
    }
}

/// The normalizer's order: grid key ascending, ties by qualifying position
/// ascending.
pub open spec fn spec_broken_le(a: BrokenDriverResult, b: BrokenDriverResult) -> bool {
    spec_grid_key(a) < spec_grid_key(b) || (spec_grid_key(a) == spec_grid_key(b)
        && a.qualifying_position <= b.qualifying_position)
}

/// The comparison function as a value, for the sorting specification.
pub open spec fn broken_leq() -> spec_fn(BrokenDriverResult, BrokenDriverResult) -> bool {
    |a: BrokenDriverResult, b: BrokenDriverResult| spec_broken_le(a, b)
}

/// Grid positions rewritten to the dense ranking `1..=n`.
pub open spec fn spec_renumber(s: Seq<BrokenDriverResult>) -> Seq<DriverResult> {
    Seq::new(
        s.len(),
        |i: int|
            DriverResult {
                driver: s[i].driver,
                final_position: s[i].final_position,
                grid_position: (i + 1) as u8,
                qualifying_position: s[i].qualifying_position,
            },
    )
}

/// What normalization yields: the merged records, stably sorted by the
/// normalizer's order, with grid positions rewritten to ranks; or the first
/// driver that raced without qualifying data.
pub open spec fn spec_normalize(race: Seq<RaceEntry>, q: Seq<QualifyingEntry>) -> Result<
    Seq<DriverResult>,
    u8,
> {
    match spec_join(race, q) {
        Err(d) => Err(d),
        Ok(b) => Ok(spec_renumber(sort_le(broken_leq(), b))),
    }
}

pub proof fn lemma_quali_lookup_at(q: Seq<QualifyingEntry>, driver: u8, i: int)
    requires
        0 <= i < q.len(),
        q[i].driver == driver,
        forall|j: int| 0 <= j < i ==> q[j].driver != driver,
    ensures
        spec_quali_lookup(q, driver) == Some(q[i].position),
    decreases i,
{
    if i > 0 {
        lemma_quali_lookup_at(q.drop_first(), driver, i - 1);
    }
}

pub proof fn lemma_quali_lookup_none(q: Seq<QualifyingEntry>, driver: u8)
    requires
        forall|j: int| 0 <= j < q.len() ==> q[j].driver != driver,
    ensures
        spec_quali_lookup(q, driver) is None,
    decreases q.len(),
{
    if q.len() > 0 {
        lemma_quali_lookup_none(q.drop_first(), driver);
    }
}

/// The qualifying position of `driver`, found by scanning the entries.
fn quali_lookup(q: &Vec<QualifyingEntry>, driver: u8) -> (r: Option<u8>)
    ensures
        r == spec_quali_lookup(q@, driver),
{
    let n = q.len();
    let mut i: usize = 0;
    while i < n
        invariant
            i <= n,
            n == q@.len(),
            forall|j: int| 0 <= j < i ==> q@[j].driver != driver,
        decreases n - i,
    {
        if q[i].driver == driver {
            proof {
                lemma_quali_lookup_at(q@, driver, i as int);
            }
            return Some(q[i].position);
        }
        i += 1;
    }
    proof {
        lemma_quali_lookup_none(q@, driver);
    }
    None
}

/// Whether `a` orders at or before `b` under the normalizer's order.
fn broken_le(a: &BrokenDriverResult, b: &BrokenDriverResult) -> (r: bool)
    ensures
        r == spec_broken_le(*a, *b),
{
    let ka: u16 = if a.grid_position == 0 {
        256
    } else {
        a.grid_position as u16
    };
    let kb: u16 = if b.grid_position == 0 {
        256
    } else {
        b.grid_position as u16
    };
    ka < kb || (ka == kb && a.qualifying_position <= b.qualifying_position)
}

impl RaceResults {
    /// Normalizes one round's raw race and qualifying placements: merges
    /// each race entry with its driver's qualifying position, orders the
    /// merged records by grid key then qualifying position (stably), and
    /// rewrites grid positions to the dense ranking `1..=n`. Fails, touching
    /// nothing, when a driver raced but never qualified.
    pub fn build(round: u8, race: Vec<RaceEntry>, qualifying: Vec<QualifyingEntry>) -> (r: Result<
        RaceResults,
        DownloadError,
    >)
        requires
            race@.len() <= 255,
        ensures
            match r {
                Ok(rr) => rr.round == round && spec_normalize(race@, qualifying@)
                    == Ok::<Seq<DriverResult>, u8>(rr.drivers@),
                Err(e) => match spec_normalize(race@, qualifying@) {
                    Err(d) => e == DownloadError::MissingQualifyingData(d),
                    Ok(_) => false,
                },
            },
    {
        let n = race.len();
        let mut joined: Vec<BrokenDriverResult> = Vec::new();
        let mut i: usize = 0;
        proof {
            assert(race@.subrange(0, n as int) =~= race@);
            if spec_join(race@, qualifying@) is Ok {
                assert(joined@ + spec_join(race@, qualifying@)->Ok_0 =~= spec_join(
                    race@,
                    qualifying@,
                )->Ok_0);
            }
        }
        while i < n
            invariant
                i <= n,
                n == race@.len(),
                joined@.len() == i,
                spec_join(race@, qualifying@) == match spec_join(
                    race@.subrange(i as int, n as int),
                    qualifying@,
                ) {
                    Ok(rest) => Ok::<Seq<BrokenDriverResult>, u8>(joined@ + rest),
                    Err(d) => Err::<Seq<BrokenDriverResult>, u8>(d),
                },
            decreases n - i,
        {
            let ghost suffix = race@.subrange(i as int, n as int);
            let ghost suffix1 = race@.subrange(i as int + 1, n as int);
            proof {
                assert(suffix[0] == race@[i as int]);
                assert(suffix.drop_first() =~= suffix1);
            }
            let entry = race[i];
            match quali_lookup(&qualifying, entry.driver) {
                None => {
                    proof {
                        assert(spec_join(suffix, qualifying@) == Err::<
                            Seq<BrokenDriverResult>,
                            u8,
                        >(entry.driver));
                    }
                    return Err(DownloadError::MissingQualifyingData(entry.driver));
                },
                Some(qp) => {
                    let bd = BrokenDriverResult {
                        driver: entry.driver,
                        final_position: entry.position,
                        grid_position: entry.grid,
                        qualifying_position: qp,
                    };
                    proof {
                        assert(spec_join(suffix, qualifying@) == match spec_join(
                            suffix1,
                            qualifying@,
                        ) {
                            Err(d) => Err::<Seq<BrokenDriverResult>, u8>(d),
                            Ok(rest1) => Ok::<Seq<BrokenDriverResult>, u8>(seq![bd] + rest1),
                        });
                    }
                    let ghost jold = joined@;
                    joined.push(bd);
                    proof {
                        if spec_join(suffix1, qualifying@) is Ok {
                            let rest1 = spec_join(suffix1, qualifying@)->Ok_0;
                            assert(jold.push(bd) + rest1 =~= jold + (seq![bd] + rest1));
                        }
                    }
                },
            }
            i += 1;
        }
        proof {
            assert(race@.subrange(n as int, n as int) =~= Seq::<RaceEntry>::empty());
            assert(spec_join(race@, qualifying@) == Ok::<Seq<BrokenDriverResult>, u8>(joined@))
                by {
                assert(joined@ + Seq::<BrokenDriverResult>::empty() =~= joined@);
            }
        }
        let ghost merged = joined@;
        let mut ordered: Vec<BrokenDriverResult> = Vec::new();
        let mut k: usize = 0;
        while k < n
            invariant
                k <= n,
                n == joined@.len(),
                joined@ == merged,
                total_preorder(broken_leq()),
                ordered@ == sort_le(broken_leq(), merged.subrange(0, k as int)),
                ordered@.len() == k,
                sorted_by(broken_leq(), ordered@),
            decreases n - k,
        {
            let x = joined[k];
            let mut j: usize = 0;
            while j < ordered.len() && broken_le(&ordered[j], &x)
                invariant
                    j <= ordered@.len(),
                    forall|m: int| 0 <= m < j ==> broken_leq()(ordered@[m], x),
                decreases ordered@.len() - j,
            {
                j += 1;
            }
            proof {
                assert forall|m: int| j <= m < ordered@.len() implies !broken_leq()(
                    ordered@[m],
                    x,
                ) by {
                    if m > j {
                        assert(broken_leq()(ordered@[j as int], ordered@[m]));
                    }
                }
                lemma_insert_le_exact(broken_leq(), ordered@, x, j as int);
                assert(merged.subrange(0, k + 1).drop_last() =~= merged.subrange(0, k as int));
                assert(merged.subrange(0, k + 1).last() == merged[k as int]);
            }
            ordered.insert(j, x);
            k += 1;
        }
        proof {
            assert(merged.subrange(0, n as int) =~= merged);
        }
        let mut drivers: Vec<DriverResult> = Vec::new();
        let mut m: usize = 0;
        while m < n
            invariant
                m <= n,
                n == ordered@.len() <= 255,
                drivers@.len() == m,
                forall|t: int| 0 <= t < m ==> drivers@[t] == spec_renumber(ordered@)[t],
            decreases n - m,
        {
            let rank = (m + 1) as u8;
            drivers.push(DriverResult::new(&ordered[m], rank));
            m += 1;
        }
        proof {
            assert(drivers@ =~= spec_renumber(ordered@));
        }
        Ok(RaceResults { round, drivers })
    }
}

} // verus!

//! One export out of the reports of all shards.
//!
//! A border aircraft is known to two shards; the one that heard it last
//! speaks for it.

use vstd::prelude::*;
use crate::state::report::AircraftReport;
use crate::table::Table;

verus! {

/// A report as a table value.
pub struct Told {
    pub report: AircraftReport,
}

impl View for Told {
    type V = AircraftReport;

    open spec fn view(&self) -> AircraftReport {
        self.report
    }
}

/// `all` with what one more report tells.
pub open spec fn with_report(
    all: Map<u32, AircraftReport>,
    r: AircraftReport,
) -> Map<u32, AircraftReport> {
    if !all.contains_key(r.icao) || r.elapsed_tenths < all[r.icao].elapsed_tenths {
        all.insert(r.icao, r)
    } else {
        all
    }
}

/// `all` with what the reports of one more shard tell.
pub open spec fn with_reports(
    all: Map<u32, AircraftReport>,
    more: Seq<AircraftReport>,
) -> Map<u32, AircraftReport>
    decreases more.len(),
{
    if more.len() == 0 {
        all
    } else {
        with_reports(with_report(all, more.last()), more.drop_last())
    }
}

/// Adds the reports of one more shard.
pub fn merge(all: &mut Table<u32, Told>, more: Vec<AircraftReport>)
    ensures
        final(all)@ == with_reports(old(all)@, more@),
{
    let ghost want = with_reports(all@, more@);
    let mut more = more;
    while more.len() > 0
        invariant
            with_reports(all@, more@) == want,
        decreases more@.len(),
    {
        let ghost before = more@;
        let r = more.pop().unwrap();
        assert(more@ =~= before.drop_last());
        let newer: bool = match all.get(&r.icao) {
            Some(t) => r.elapsed_tenths < t.report.elapsed_tenths,
            None => true,
        };
        if newer {
            let icao: u32 = r.icao;
            all.insert(icao, Told { report: r });
        }
    }
}

/// Whoever heard an aircraft last speaks for it: after a merge, nobody who
/// told of it heard it later than the report that stands.
pub proof fn law_last_hearer_speaks(all: Map<u32, AircraftReport>, more: Seq<AircraftReport>)
    ensures
        forall|c: u32| #[trigger]
            all.contains_key(c) ==> with_reports(all, more).contains_key(c) && with_reports(
                all,
                more,
            )[c].elapsed_tenths <= all[c].elapsed_tenths,
        forall|i: int|
            0 <= i < more.len() ==> with_reports(all, more).contains_key((#[trigger] more[i]).icao)
                && with_reports(all, more)[more[i].icao].elapsed_tenths <= more[i].elapsed_tenths,
    decreases more.len(),
{
    if more.len() > 0 {
        let next = with_report(all, more.last());
        let rest = more.drop_last();
        law_last_hearer_speaks(next, rest);
        assert(next.contains_key(more.last().icao));
        assert forall|c: u32| #[trigger] all.contains_key(c) implies with_reports(
            all,
            more,
        ).contains_key(c) && with_reports(all, more)[c].elapsed_tenths <= all[c].elapsed_tenths by {
            assert(next.contains_key(c));
        }
        assert forall|i: int| 0 <= i < more.len() implies with_reports(all, more).contains_key(
            (#[trigger] more[i]).icao,
        ) && with_reports(all, more)[more[i].icao].elapsed_tenths <= more[i].elapsed_tenths by {
            if i < rest.len() {
                assert(rest[i] == more[i]);
            }
        }
    }
}


/// The report that stands for an aircraft is one that was told of it: the one
/// before, or one of those that came.
pub proof fn law_no_report_is_made_up(
    all: Map<u32, AircraftReport>,
    more: Seq<AircraftReport>,
    icao: u32,
)
    requires
        with_reports(all, more).contains_key(icao),
    ensures
        ({
            let r = with_reports(all, more)[icao];
            ||| all.contains_key(icao) && r == all[icao]
            ||| exists|i: int| 0 <= i < more.len() && #[trigger] more[i] == r && r.icao == icao
        }),
    decreases more.len(),
{
    if more.len() > 0 {
        let next = with_report(all, more.last());
        let rest = more.drop_last();
        law_no_report_is_made_up(next, rest, icao);
        let r = with_reports(all, more)[icao];
        if next.contains_key(icao) && r == next[icao] {
            assert(more[more.len() - 1] == more.last());
        } else {
            let i = choose|i: int| 0 <= i < rest.len() && #[trigger] rest[i] == r && r.icao == icao;
            assert(more[i] == r);
        }
    }
}

/// A report that heard its aircraft no later than the one that stands does not
/// take its place.
pub proof fn law_ties_leave_the_first(all: Map<u32, AircraftReport>, r: AircraftReport)
    requires
        all.contains_key(r.icao),
    ensures
        r.elapsed_tenths >= all[r.icao].elapsed_tenths ==> with_reports(all, seq![r]) == all,
        r.elapsed_tenths < all[r.icao].elapsed_tenths ==> with_reports(all, seq![r])[r.icao] == r,
{
    assert(seq![r].drop_last() =~= Seq::<AircraftReport>::empty());
    assert(seq![r].last() == r);
    let next = with_report(all, r);
    assert(with_reports(next, Seq::<AircraftReport>::empty()) == next);
}

} // verus!

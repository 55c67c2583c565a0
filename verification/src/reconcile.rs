use vstd::prelude::*;
use crate::ip::{IpAddress, Ipv4Address, Ipv6Address};
use crate::records::{RecordKind, kind_for};
use crate::text::views_of;

verus! {

/// TTL written on managed records, in seconds.
pub const RECORD_TTL_SECONDS: u32 = 600;

/// Base poll interval between cycles, in seconds, chosen near the record
/// TTL so a cache expiry window and a re-check interval stay aligned.
pub const BASE_INTERVAL_SECONDS: u64 = 600;

/// How many back-to-back resolution attempts the retry wrapper makes.
pub const RESOLVER_RETRIES: usize = 5;

/// Consecutive failed cycles tolerated before the extended backoff.
pub const MAX_CONSECUTIVE_FAILURES: u64 = 5;

/// The agreement floor: a resolution needs strictly more than this many
/// concurring responses.
pub const MIN_AGREEMENT: usize = 2;

/// The loop's mutable state: the last accepted address per family —
/// starting unknown, which is distinct from "address absent" — and the
/// count of consecutive failed cycles.
pub struct ReconcilerState {
    pub last_v4: Option<Ipv4Address>,
    pub last_v6: Option<Ipv6Address>,
    pub failures: u64,
}

impl ReconcilerState {
    /// The state before the first cycle.
    pub fn new() -> (s: ReconcilerState)
        ensures
            s.last_v4 is None,
            s.last_v6 is None,
            s.failures == 0,
    {
        ReconcilerState { last_v4: None, last_v6: None, failures: 0 }
    }
}

/// The value a family writes this cycle: the fresh value exactly when it
/// is present and differs from the last known one. A vanished address is
/// never propagated as a delete, and an unchanged one is not rewritten.
pub open spec fn dirty_value<T>(last: Option<T>, new: Option<T>) -> Option<T> {
    if new != last && new is Some {
        new
    } else {
        None
    }
}

/// One planned write: point `name`'s record of the address's kind at it.
pub struct PlannedWrite {
    pub name: String,
    pub ip: IpAddress,
}

/// The writes one managed name needs: its IPv4 record, then its IPv6
/// record, each only when that family is dirty.
pub open spec fn writes_for_name(
    name: Seq<char>,
    w4: Option<Ipv4Address>,
    w6: Option<Ipv6Address>,
) -> Seq<(Seq<char>, IpAddress)> {
    (match w4 {
        Some(a) => seq![(name, IpAddress::V4(a))],
        None => Seq::<(Seq<char>, IpAddress)>::empty(),
    }) + (match w6 {
        Some(a) => seq![(name, IpAddress::V6(a))],
        None => Seq::<(Seq<char>, IpAddress)>::empty(),
    })
}

/// The writes of one cycle: for each managed name in order, that name's
/// writes.
pub open spec fn planned_writes(
    names: Seq<Seq<char>>,
    w4: Option<Ipv4Address>,
    w6: Option<Ipv6Address>,
) -> Seq<(Seq<char>, IpAddress)>
    decreases names.len(),
{
    if names.len() == 0 {
        Seq::empty()
    } else {
        planned_writes(names.drop_last(), w4, w6) + writes_for_name(names.last(), w4, w6)
    }
}

pub open spec fn write_views(ws: Seq<PlannedWrite>) -> Seq<(Seq<char>, IpAddress)> {
    ws.map_values(|w: PlannedWrite| (w.name@, w.ip))
}

/// What one cycle's Deciding phase concluded.
pub struct CyclePlan {
    pub writes: Vec<PlannedWrite>,
    /// Set when both families came back absent: the cycle has already
    /// failed, and no write is attempted.
    pub no_address: bool,
}

fn opt_v4_eq(a: &Option<Ipv4Address>, b: &Option<Ipv4Address>) -> (r: bool)
    ensures
        r == (a == b),
{
    match (a, b) {
        (None, None) => true,
        (Some(x), Some(y)) => *x == *y,
        _ => false,
    }
}

fn opt_v6_eq(a: &Option<Ipv6Address>, b: &Option<Ipv6Address>) -> (r: bool)
    ensures
        r == (a == b),
{
    match (a, b) {
        (None, None) => true,
        (Some(x), Some(y)) => *x == *y,
        _ => false,
    }
}

/// The Deciding phase of one cycle: marks each family dirty when its fresh
/// value is present and differs from the last known one, unconditionally
/// replaces the last known values — even with "absent", so a flapping
/// provider does not keep re-reporting the same change — and plans one
/// write per managed name and dirty family. When both families are absent
/// the cycle has already failed and nothing is planned.
pub fn plan_cycle(
    state: &mut ReconcilerState,
    new_v4: Option<Ipv4Address>,
    new_v6: Option<Ipv6Address>,
    names: &Vec<String>,
) -> (plan: CyclePlan)
    ensures
        final(state).last_v4 == new_v4,
        final(state).last_v6 == new_v6,
        final(state).failures == old(state).failures,
        plan.no_address == (new_v4 is None && new_v6 is None),
        write_views(plan.writes@) == planned_writes(
            views_of(names@),
            dirty_value(old(state).last_v4, new_v4),
            dirty_value(old(state).last_v6, new_v6),
        ),
{
    let w4: Option<Ipv4Address> = if !opt_v4_eq(&state.last_v4, &new_v4) && new_v4.is_some() {
        new_v4
    } else {
        None
    };
    let w6: Option<Ipv6Address> = if !opt_v6_eq(&state.last_v6, &new_v6) && new_v6.is_some() {
        new_v6
    } else {
        None
    };
    proof {
        assert(w4 == dirty_value(old(state).last_v4, new_v4));
        assert(w6 == dirty_value(old(state).last_v6, new_v6));
    }
    state.last_v4 = new_v4;
    state.last_v6 = new_v6;
    let no_address = new_v4.is_none() && new_v6.is_none();
    let mut writes: Vec<PlannedWrite> = Vec::new();
    let mut i: usize = 0;
    proof {
        assert(views_of(names@).take(0) =~= Seq::<Seq<char>>::empty());
        assert(write_views(writes@) =~= planned_writes(views_of(names@).take(0), w4, w6));
    }
    while i < names.len()
        invariant
            i <= names@.len(),
            write_views(writes@) == planned_writes(views_of(names@).take(i as int), w4, w6),
        decreases names@.len() - i,
    {
        let ghost nv = views_of(names@);
        proof {
            assert(nv.take(i as int + 1).drop_last() =~= nv.take(i as int));
            assert(nv.take(i as int + 1).last() == nv[i as int]);
            assert(nv[i as int] == names@[i as int]@);
        }
        let ghost before = writes@;
        if let Some(a) = w4 {
            writes.push(PlannedWrite { name: names[i].clone(), ip: IpAddress::V4(a) });
            proof {
                assert(write_views(writes@) =~= write_views(before).push(
                    (names@[i as int]@, IpAddress::V4(a)),
                ));
            }
        }
        let ghost mid = writes@;
        if let Some(a) = w6 {
            writes.push(PlannedWrite { name: names[i].clone(), ip: IpAddress::V6(a) });
            proof {
                assert(write_views(writes@) =~= write_views(mid).push(
                    (names@[i as int]@, IpAddress::V6(a)),
                ));
            }
        }
        proof {
            assert(write_views(writes@) =~= planned_writes(nv.take(i as int), w4, w6)
                + writes_for_name(nv[i as int], w4, w6));
        }
        i = i + 1;
    }
    proof {
        assert(views_of(names@).take(names@.len() as int) =~= views_of(names@));
    }
    CyclePlan { writes, no_address }
}

/// Law: when only IPv6 is dirty, every planned write is an AAAA write —
/// A records are untouched — and symmetrically when only IPv4 is dirty.
pub proof fn lemma_only_dirty_family_written(
    names: Seq<Seq<char>>,
    w4: Option<Ipv4Address>,
    w6: Option<Ipv6Address>,
)
    ensures
        w4 is None ==> forall|k: int|
            0 <= k < planned_writes(names, w4, w6).len() ==> kind_for(
                #[trigger] planned_writes(names, w4, w6)[k].1,
            ) == RecordKind::Aaaa,
        w6 is None ==> forall|k: int|
            0 <= k < planned_writes(names, w4, w6).len() ==> kind_for(
                #[trigger] planned_writes(names, w4, w6)[k].1,
            ) == RecordKind::A,
    decreases names.len(),
{
    if names.len() > 0 {
        lemma_only_dirty_family_written(names.drop_last(), w4, w6);
    }
}

/// Law: each managed name gets exactly one write per dirty family.
pub proof fn lemma_writes_per_name(
    names: Seq<Seq<char>>,
    w4: Option<Ipv4Address>,
    w6: Option<Ipv6Address>,
)
    ensures
        planned_writes(names, w4, w6).len() == names.len() * ((if w4 is Some {
            1int
        } else {
            0int
        }) + (if w6 is Some {
            1int
        } else {
            0int
        })),
    decreases names.len(),
{
    let c = (if w4 is Some {
        1int
    } else {
        0int
    }) + (if w6 is Some {
        1int
    } else {
        0int
    });
    if names.len() == 0 {
    } else {
        lemma_writes_per_name(names.drop_last(), w4, w6);
        assert(planned_writes(names, w4, w6).len() == (names.len() - 1) * c + c);
        assert((names.len() - 1) * c + c == names.len() * c) by (nonlinear_arith);
    }
}

/// How long the loop sleeps after a cycle.
#[derive(Clone, Copy, PartialEq, Eq, Structural, Debug)]
pub enum SleepKind {
    Base,
    Extended,
}

/// The failure counter after a cycle: a failed cycle increments it
/// (saturating at the machine limit), a clean cycle resets it to zero.
pub open spec fn next_failures(f: u64, cycle_failed: bool) -> u64 {
    if cycle_failed {
        if f < u64::MAX {
            (f + 1) as u64
        } else {
            f
        }
    } else {
        0
    }
}

/// The sleep chosen after a cycle: extended backoff once the counter
/// exceeds `max_failures`, the base interval otherwise.
pub open spec fn sleep_after(f: u64, max_failures: u64) -> SleepKind {
    if f > max_failures {
        SleepKind::Extended
    } else {
        SleepKind::Base
    }
}

/// The Sleeping phase bookkeeping: folds the cycle's outcome into the
/// failure counter and says how long to sleep before the next cycle.
pub fn finish_cycle(state: &mut ReconcilerState, cycle_failed: bool, max_failures: u64) -> (s:
    SleepKind)
    ensures
        final(state).failures == next_failures(old(state).failures, cycle_failed),
        final(state).last_v4 == old(state).last_v4,
        final(state).last_v6 == old(state).last_v6,
        s == sleep_after(next_failures(old(state).failures, cycle_failed), max_failures),
{
    if cycle_failed {
        if state.failures < u64::MAX {
            state.failures = state.failures + 1;
        }
    } else {
        state.failures = 0;
    }
    if state.failures > max_failures {
        SleepKind::Extended
    } else {
        SleepKind::Base
    }
}

/// The sleep in seconds: five base intervals under extended backoff.
pub fn sleep_seconds(kind: SleepKind, base_interval: u64) -> (t: u64)
    requires
        base_interval <= u64::MAX / 5,
    ensures
        kind == SleepKind::Base ==> t == base_interval,
        kind == SleepKind::Extended ==> t == 5 * base_interval,
{
    match kind {
        SleepKind::Base => base_interval,
        SleepKind::Extended => 5 * base_interval,
    }
}

/// The failure counter after a run of cycle outcomes, oldest first; `true`
/// marks a failed cycle.
pub open spec fn failures_after(f0: u64, cycles: Seq<bool>) -> u64
    decreases cycles.len(),
{
    if cycles.len() == 0 {
        f0
    } else {
        next_failures(failures_after(f0, cycles.drop_last()), cycles.last())
    }
}

/// Law: any run of failed cycles — five consecutive ones in particular —
/// followed by one clean cycle resets the counter to zero, and the sleep
/// chosen after that clean cycle is the base interval again.
pub proof fn lemma_failure_counter_reset(f0: u64, cycles: Seq<bool>, max_failures: u64)
    requires
        cycles.len() > 0,
        cycles.last() == false,
    ensures
        failures_after(f0, cycles) == 0,
        sleep_after(failures_after(f0, cycles), max_failures) == SleepKind::Base,
{
}

} // verus!

//! The racing core: the per-racer measurement window, the winner
//! verdict, and the health reconciliation applied to all participants,
//! plus the sequential dispatcher's reliability-ordered choice.

use vstd::prelude::*;
use crate::health::{Health, FailureRecord, spec_more_healthy, spec_less_healthy};
use crate::registry::{
    Registry, RegistryEntry, ServerState, mark_server_more_healthy, mark_server_less_healthy,
};

verus! {

/// Runtime options for one upstream request: connect timeout, per-read
/// idle timeout, and the measurement window, all in seconds.
#[derive(Clone, Copy, Debug, PartialEq, Eq, Structural)]
pub struct ReqOpt {
    pub timeout: u32,
    pub timeout_ft: u32,
    pub time_measure: u32,
}

/// What one racer measured: when the first chunk arrived (a millisecond
/// reading of the caller's monotonic clock) and how many bytes landed
/// within the measurement window.
#[derive(Clone, Copy, Debug, PartialEq, Eq, Structural)]
pub struct PerformanceInfo {
    pub first_token_time: u64,
    pub duration_tokens: usize,
}

/// The measurement in progress: nothing yet, or counting since the first
/// chunk.
#[derive(Clone, Copy, Debug, PartialEq, Eq, Structural)]
pub struct MonitorState {
    pub first_token_time: Option<u64>,
    pub bytes_received: usize,
}

/// One observation on the upstream stream.
#[derive(Clone, Copy, Debug, PartialEq, Eq, Structural)]
pub enum StreamEvent {
    /// A chunk of this many bytes arrived.
    Chunk(usize),
    /// A read failed.
    ReadError,
    /// The upstream ended.
    EndOfStream,
}

/// Whether to keep reading into the measurement buffer.
#[derive(Clone, Copy, Debug, PartialEq, Eq, Structural)]
pub enum MonitorVerdict {
    KeepReading,
    StopMeasuring,
}

pub fn monitor_init() -> (st: MonitorState)
    ensures
        st.first_token_time is None,
        st.bytes_received == 0,
{
    MonitorState { first_token_time: None, bytes_received: 0 }
}

/// Advances the measurement by one observation taken at `now_ms`.
/// A chunk accumulates its bytes (saturating at the machine limit) and
/// starts the clock if it is the first; measuring stops when the window
/// of `time_measure` seconds since the first chunk has passed strictly,
/// when a read fails, or when the upstream ends.
pub fn monitor_step(
    st: &mut MonitorState,
    event: StreamEvent,
    now_ms: u64,
    time_measure: u32,
) -> (v: MonitorVerdict)
    requires
        old(st).first_token_time matches Some(f) ==> f <= now_ms,
    ensures
        match event {
            StreamEvent::Chunk(len) => {
                &&& final(st).bytes_received == (if old(st).bytes_received + len <= usize::MAX {
                    old(st).bytes_received + len
                } else {
                    usize::MAX as int
                })
                &&& match old(st).first_token_time {
                    None => final(st).first_token_time == Some(now_ms) && v
                        == MonitorVerdict::KeepReading,
                    Some(f) => final(st).first_token_time == Some(f) && v == (if now_ms - f
                        > time_measure * 1000 {
                        MonitorVerdict::StopMeasuring
                    } else {
                        MonitorVerdict::KeepReading
                    }),
                }
            },
            _ => *final(st) == *old(st) && v == MonitorVerdict::StopMeasuring,
        },
{
    match event {
        StreamEvent::Chunk(len) => {
            st.bytes_received = if st.bytes_received <= usize::MAX - len {
                st.bytes_received + len
            } else {
                usize::MAX
            };
            match st.first_token_time {
                None => {
                    st.first_token_time = Some(now_ms);
                    MonitorVerdict::KeepReading
                },
                Some(f) => {
                    if now_ms - f > (time_measure as u64) * 1000 {
                        MonitorVerdict::StopMeasuring
                    } else {
                        MonitorVerdict::KeepReading
                    }
                },
            }
        },
        _ => MonitorVerdict::StopMeasuring,
    }
}

/// Closes the measurement: a racer that never received a chunk has no
/// performance and fails with "no data"; otherwise the first-chunk time
/// and the byte count form its performance record.
pub fn monitor_finish(st: &MonitorState) -> (r: Option<PerformanceInfo>)
    ensures
        match st.first_token_time {
            None => r is None,
            Some(f) => r == Some(
                PerformanceInfo { first_token_time: f, duration_tokens: st.bytes_received },
            ),
        },
{
    match st.first_token_time {
        None => None,
        Some(f) => Some(PerformanceInfo { first_token_time: f, duration_tokens: st.bytes_received }),
    }
}

/// The outcome of one racer: the backend it raced, whether its task
/// succeeded (sync passed, the request was sent and data arrived), the
/// upstream status, and the bytes received within the window.
#[derive(Debug, Clone)]
pub struct RacerOutcome {
    pub address: String,
    pub ok: bool,
    pub status: u16,
    pub bytes_received: usize,
}

/// A racer counts as successful when its task succeeded and the upstream
/// status was in the 2xx range.
pub open spec fn racer_success(o: RacerOutcome) -> bool {
    o.ok && 200 <= o.status < 300
}

/// The winner: the last successful racer with the largest byte count, or
/// `-1` when every racer failed.
pub open spec fn spec_winner(outs: Seq<RacerOutcome>) -> int
    decreases outs.len(),
{
    if outs.len() == 0 {
        -1
    } else {
        let w = spec_winner(outs.drop_last());
        if racer_success(outs.last()) && (w == -1 || outs.last().bytes_received
            >= outs[w].bytes_received) {
            outs.len() - 1
        } else {
            w
        }
    }
}

/// Law: the winner is a successful racer whose byte count is the maximum
/// over all successful racers; later ties lose only to still-later ones.
pub proof fn lemma_winner_props(outs: Seq<RacerOutcome>)
    ensures
        spec_winner(outs) == -1 <==> (forall|i: int|
            0 <= i < outs.len() ==> !racer_success(#[trigger] outs[i])),
        spec_winner(outs) != -1 ==> {
            let w = spec_winner(outs);
            &&& 0 <= w < outs.len()
            &&& racer_success(outs[w])
            &&& forall|i: int|
                0 <= i < outs.len() && racer_success(#[trigger] outs[i])
                    ==> outs[i].bytes_received <= outs[w].bytes_received
            &&& forall|i: int|
                w < i < outs.len() && racer_success(#[trigger] outs[i])
                    ==> outs[i].bytes_received < outs[w].bytes_received
        },
    decreases outs.len(),
{
    if outs.len() > 0 {
        lemma_winner_props(outs.drop_last());
        assert forall|i: int| 0 <= i < outs.len() - 1 implies outs.drop_last()[i] == outs[i] by {}
        let w = spec_winner(outs);
        if w != -1 {
            assert forall|i: int|
                0 <= i < outs.len() && racer_success(#[trigger] outs[i]) implies
                outs[i].bytes_received <= outs[w].bytes_received by {
                if i < outs.len() - 1 {
                    assert(racer_success(outs.drop_last()[i]));
                }
            }
            assert forall|i: int|
                w < i < outs.len() && racer_success(#[trigger] outs[i]) implies
                outs[i].bytes_received < outs[w].bytes_received by {
                if i < outs.len() - 1 {
                    assert(racer_success(outs.drop_last()[i]));
                }
            }
        }
    }
}

/// Picks the race winner: among successful racers, the largest byte count
/// wins, with ties broken towards the later racer. `None` when every
/// racer failed.
pub fn pick_winner(outcomes: &Vec<RacerOutcome>) -> (r: Option<usize>)
    ensures
        r is None <==> spec_winner(outcomes@) == -1,
        r matches Some(w) ==> w as int == spec_winner(outcomes@),
        r is None <==> (forall|i: int|
            0 <= i < outcomes@.len() ==> !racer_success(#[trigger] outcomes@[i])),
        r matches Some(w) ==> {
            &&& w < outcomes@.len()
            &&& racer_success(outcomes@[w as int])
            &&& forall|i: int|
                0 <= i < outcomes@.len() && racer_success(#[trigger] outcomes@[i])
                    ==> outcomes@[i].bytes_received <= outcomes@[w as int].bytes_received
            &&& forall|i: int|
                w < i < outcomes@.len() && racer_success(#[trigger] outcomes@[i])
                    ==> outcomes@[i].bytes_received < outcomes@[w as int].bytes_received
        },
{
    proof {
        lemma_winner_props(outcomes@);
    }
    let mut best: Option<usize> = None;
    let mut i: usize = 0;
    while i < outcomes.len()
        invariant
            0 <= i <= outcomes@.len(),
            match best {
                None => spec_winner(outcomes@.subrange(0, i as int)) == -1,
                Some(b) => b < i && b as int == spec_winner(outcomes@.subrange(0, i as int)),
            },
        decreases outcomes@.len() - i,
    {
        let ghost pre = outcomes@.subrange(0, i as int);
        let o = &outcomes[i];
        let success: bool = o.ok && o.status >= 200 && o.status < 300;
        if success {
            let take: bool = match best {
                None => true,
                Some(b) => outcomes[b].bytes_received <= o.bytes_received,
            };
            if take {
                best = Some(i);
            }
        }
        i = i + 1;
        proof {
            assert(outcomes@.subrange(0, i as int).drop_last() =~= pre);
            assert(outcomes@.subrange(0, i as int).last() == outcomes@[i - 1]);
        }
    }
    proof {
        assert(outcomes@.subrange(0, i as int) =~= outcomes@);
    }
    best
}

/// Index of the first outcome for `addr`, or `-1`.
pub open spec fn find_outcome(outs: Seq<RacerOutcome>, addr: Seq<char>) -> int
    decreases outs.len(),
{
    if outs.len() == 0 {
        -1
    } else if outs[0].address@ == addr {
        0
    } else {
        let r = find_outcome(outs.drop_first(), addr);
        if r == -1 {
            -1
        } else {
            1 + r
        }
    }
}

pub proof fn lemma_find_outcome_found(outs: Seq<RacerOutcome>, addr: Seq<char>, k: int)
    requires
        0 <= k < outs.len(),
        outs[k].address@ == addr,
        forall|j: int| 0 <= j < k ==> outs[j].address@ != addr,
    ensures
        find_outcome(outs, addr) == k,
    decreases k,
{
    if k > 0 {
        lemma_find_outcome_found(outs.drop_first(), addr, k - 1);
    }
}

/// The health a backend ends with after the race, given its racer's
/// outcome: failures halve, the winner gains four, other successes two.
pub open spec fn spec_outcome_health(h: Health, o: RacerOutcome, is_winner: bool) -> Health {
    if !racer_success(o) {
        spec_less_healthy(h)
    } else {
        spec_more_healthy(h, is_winner)
    }
}

/// Applies the race's health reconciliation to every participant: each
/// failed racer's backend is halved towards death, the winner's gains
/// four, every other successful racer's gains two. Backends that did not
/// race are untouched.
pub fn apply_race_results(servers: &mut Registry, outcomes: &Vec<RacerOutcome>)
    requires
        old(servers).wf(),
        forall|a: int, b: int|
            0 <= a < b < outcomes@.len() ==> outcomes@[a].address@ != outcomes@[b].address@,
    ensures
        final(servers).wf(),
        final(servers)@.len() == old(servers)@.len(),
        forall|i: int|
            #![trigger old(servers)@[i]]
            0 <= i < old(servers)@.len() ==> {
            let e0 = old(servers)@[i];
            let t = find_outcome(outcomes@, e0.address@);
            if t == -1 {
                final(servers)@[i] == e0
            } else {
                &&& final(servers)@[i].address@ == e0.address@
                &&& final(servers)@[i].server.name@ == e0.server.name@
                &&& final(servers)@[i].server.models@ == e0.server.models@
                &&& final(servers)@[i].server.actives@ == e0.server.actives@
                &&& final(servers)@[i].server.state == (ServerState {
                    health: spec_outcome_health(
                        e0.server.state.health,
                        outcomes@[t],
                        t == spec_winner(outcomes@),
                    ),
                    busy: e0.server.state.busy,
                    failure_record: e0.server.state.failure_record,
                })
            }
        },
{
    let winner = pick_winner(outcomes);
    let mut k: usize = 0;
    while k < outcomes.len()
        invariant
            0 <= k <= outcomes@.len(),
            servers@.len() == old(servers)@.len(),
            servers.wf(),
            forall|a: int, b: int|
                0 <= a < b < outcomes@.len() ==> outcomes@[a].address@ != outcomes@[b].address@,
            winner is None <==> spec_winner(outcomes@) == -1,
            winner matches Some(w) ==> w as int == spec_winner(outcomes@),
            winner matches Some(w) ==> w < outcomes@.len() && racer_success(
                outcomes@[w as int],
            ),
            forall|i: int|
                #![trigger old(servers)@[i]]
                0 <= i < old(servers)@.len() ==> {
                let e0 = old(servers)@[i];
                let t = find_outcome(outcomes@, e0.address@);
                if t < 0 || t >= k {
                    servers@[i] == e0
                } else {
                    &&& servers@[i].address@ == e0.address@
                    &&& servers@[i].server.name@ == e0.server.name@
                    &&& servers@[i].server.models@ == e0.server.models@
                    &&& servers@[i].server.actives@ == e0.server.actives@
                    &&& servers@[i].server.state == (ServerState {
                        health: spec_outcome_health(
                            e0.server.state.health,
                            outcomes@[t],
                            t == spec_winner(outcomes@),
                        ),
                        busy: e0.server.state.busy,
                        failure_record: e0.server.state.failure_record,
                    })
                }
            },
        decreases outcomes@.len() - k,
    {
        let ghost mid = servers@;
        let o = &outcomes[k];
        let success: bool = o.ok && o.status >= 200 && o.status < 300;
        if !success {
            mark_server_less_healthy(servers, o.address.as_str());
        } else {
            let is_best: bool = match winner {
                None => false,
                Some(w) => w == k,
            };
            mark_server_more_healthy(servers, o.address.as_str(), is_best);
        }
        k = k + 1;
        proof {
            assert forall|i: int|
                #![trigger old(servers)@[i]]
                0 <= i < old(servers)@.len() implies {
                let e0 = old(servers)@[i];
                let t = find_outcome(outcomes@, e0.address@);
                if t < 0 || t >= k {
                    servers@[i] == e0
                } else {
                    &&& servers@[i].address@ == e0.address@
                    &&& servers@[i].server.name@ == e0.server.name@
                    &&& servers@[i].server.models@ == e0.server.models@
                    &&& servers@[i].server.actives@ == e0.server.actives@
                    &&& servers@[i].server.state == (ServerState {
                        health: spec_outcome_health(
                            e0.server.state.health,
                            outcomes@[t],
                            t == spec_winner(outcomes@),
                        ),
                        busy: e0.server.state.busy,
                        failure_record: e0.server.state.failure_record,
                    })
                }
            } by {
                let e0 = old(servers)@[i];
                let t = find_outcome(outcomes@, e0.address@);
                lemma_find_outcome_props(outcomes@, e0.address@);
                if t == (k - 1) as int {
                    // This step updated exactly this backend.
                    assert(mid[i] == e0);
                    assert(outcomes@[k - 1].address@ == e0.address@);
                } else {
                    // This step touched a different address.
                    assert(outcomes@[k - 1].address@ != e0.address@) by {
                        if outcomes@[k - 1].address@ == e0.address@ {
                            lemma_find_outcome_found_unique(outcomes@, e0.address@, (k - 1) as int);
                        }
                    }
                    assert(servers@[i] == mid[i]);
                }
            }
        }
    }
    proof {
        assert forall|i: int|
            #![trigger old(servers)@[i]]
            0 <= i < old(servers)@.len() implies {
            let e0 = old(servers)@[i];
            let t = find_outcome(outcomes@, e0.address@);
            if t == -1 {
                servers@[i] == e0
            } else {
                &&& servers@[i].address@ == e0.address@
                &&& servers@[i].server.name@ == e0.server.name@
                &&& servers@[i].server.models@ == e0.server.models@
                &&& servers@[i].server.actives@ == e0.server.actives@
                &&& servers@[i].server.state == (ServerState {
                    health: spec_outcome_health(
                        e0.server.state.health,
                        outcomes@[t],
                        t == spec_winner(outcomes@),
                    ),
                    busy: e0.server.state.busy,
                    failure_record: e0.server.state.failure_record,
                })
            }
        } by {
            lemma_find_outcome_props(outcomes@, old(servers)@[i].address@);
        }
    }
}

/// `find_outcome` returns a valid matching index or `-1`.
pub proof fn lemma_find_outcome_props(outs: Seq<RacerOutcome>, addr: Seq<char>)
    ensures
        find_outcome(outs, addr) == -1 ==> forall|j: int|
            0 <= j < outs.len() ==> outs[j].address@ != addr,
        find_outcome(outs, addr) != -1 ==> 0 <= find_outcome(outs, addr) < outs.len() && outs[
            find_outcome(outs, addr)].address@ == addr,
    decreases outs.len(),
{
    if outs.len() > 0 {
        lemma_find_outcome_props(outs.drop_first(), addr);
        if find_outcome(outs, addr) == -1 {
            assert forall|j: int| 0 <= j < outs.len() implies outs[j].address@ != addr by {
                if j > 0 {
                    assert(outs.drop_first()[j - 1].address@ != addr);
                }
            }
        }
    }
}

/// With pairwise-distinct addresses, the matching index is unique, so the
/// first match is the match.
pub proof fn lemma_find_outcome_found_unique(outs: Seq<RacerOutcome>, addr: Seq<char>, k: int)
    requires
        0 <= k < outs.len(),
        outs[k].address@ == addr,
        forall|a: int, b: int| 0 <= a < b < outs.len() ==> outs[a].address@ != outs[b].address@,
    ensures
        find_outcome(outs, addr) == k,
{
    assert forall|j: int| 0 <= j < k implies outs[j].address@ != addr by {
        assert(outs[j].address@ != outs[k].address@);
    }
    lemma_find_outcome_found(outs, addr, k);
}

/// Index of the first idle (not busy) backend in the given ledger state,
/// or `-1` when there is none.
pub open spec fn first_idle_with(s: Seq<RegistryEntry>, rec: FailureRecord) -> int
    decreases s.len(),
{
    if s.len() == 0 {
        -1
    } else if !s[0].server.state.busy && s[0].server.state.failure_record == rec {
        0
    } else {
        let r = first_idle_with(s.drop_first(), rec);
        if r == -1 {
            -1
        } else {
            1 + r
        }
    }
}

pub proof fn lemma_first_idle_found(s: Seq<RegistryEntry>, rec: FailureRecord, k: int)
    requires
        0 <= k < s.len(),
        !s[k].server.state.busy && s[k].server.state.failure_record == rec,
        forall|j: int|
            0 <= j < k ==> s[j].server.state.busy || s[j].server.state.failure_record != rec,
    ensures
        first_idle_with(s, rec) == k,
    decreases k,
{
    if k > 0 {
        lemma_first_idle_found(s.drop_first(), rec, k - 1);
    }
}

pub proof fn lemma_first_idle_none(s: Seq<RegistryEntry>, rec: FailureRecord)
    requires
        forall|j: int|
            0 <= j < s.len() ==> s[j].server.state.busy || s[j].server.state.failure_record != rec,
    ensures
        first_idle_with(s, rec) == -1,
    decreases s.len(),
{
    if s.len() > 0 {
        lemma_first_idle_none(s.drop_first(), rec);
    }
}

/// The entry with only its busy flag raised.
pub open spec fn entry_busy_set(e0: RegistryEntry, e1: RegistryEntry) -> bool {
    &&& e1.address@ == e0.address@
    &&& e1.server.name@ == e0.server.name@
    &&& e1.server.models@ == e0.server.models@
    &&& e1.server.actives@ == e0.server.actives@
    &&& e1.server.state == (ServerState {
        busy: true,
        health: e0.server.state.health,
        failure_record: e0.server.state.failure_record,
    })
}

/// The entry with its ledger flipped back to unreliable.
pub open spec fn entry_flipped(e0: RegistryEntry, e1: RegistryEntry) -> bool {
    &&& e1.address@ == e0.address@
    &&& e1.server.name@ == e0.server.name@
    &&& e1.server.models@ == e0.server.models@
    &&& e1.server.actives@ == e0.server.actives@
    &&& e1.server.state == (ServerState {
        busy: e0.server.state.busy,
        health: e0.server.state.health,
        failure_record: FailureRecord::Unreliable,
    })
}

/// The entry reserved and flipped: busy, ledger back to unreliable.
pub open spec fn entry_busy_flipped(e0: RegistryEntry, e1: RegistryEntry) -> bool {
    &&& e1.address@ == e0.address@
    &&& e1.server.name@ == e0.server.name@
    &&& e1.server.models@ == e0.server.models@
    &&& e1.server.actives@ == e0.server.actives@
    &&& e1.server.state == (ServerState {
        busy: true,
        health: e0.server.state.health,
        failure_record: FailureRecord::Unreliable,
    })
}

/// Whether the entry is idle and holds a spent second chance.
pub open spec fn idle_second_chance(e: RegistryEntry) -> bool {
    !e.server.state.busy && e.server.state.failure_record == FailureRecord::SecondChanceGiven
}

/// The sequential dispatcher's choice: the first idle reliable backend;
/// failing that, the first idle unreliable one; failing that, every idle
/// backend whose second chance was spent is flipped back to unreliable
/// and the first of them is taken. The chosen backend is reserved (its
/// busy flag raised); with nothing idle the registry is untouched.
pub fn choose_sequential_server(servers: &mut Registry) -> (r: Option<String>)
    requires
        old(servers).wf(),
    ensures
        final(servers).wf(),
        final(servers)@.len() == old(servers)@.len(),
        ({
            let s = old(servers)@;
            let ka = first_idle_with(s, FailureRecord::Reliable);
            let kb = first_idle_with(s, FailureRecord::Unreliable);
            let kc = first_idle_with(s, FailureRecord::SecondChanceGiven);
            if ka != -1 {
                &&& (r matches Some(a) && a@ == s[ka].address@)
                &&& forall|i: int|
                    #![trigger s[i]]
                    0 <= i < s.len() ==> if i == ka {
                        entry_busy_set(s[i], final(servers)@[i])
                    } else {
                        final(servers)@[i] == s[i]
                    }
            } else if kb != -1 {
                &&& (r matches Some(a) && a@ == s[kb].address@)
                &&& forall|i: int|
                    #![trigger s[i]]
                    0 <= i < s.len() ==> if i == kb {
                        entry_busy_set(s[i], final(servers)@[i])
                    } else {
                        final(servers)@[i] == s[i]
                    }
            } else if kc != -1 {
                &&& (r matches Some(a) && a@ == s[kc].address@)
                &&& forall|i: int|
                    #![trigger s[i]]
                    0 <= i < s.len() ==> if i == kc {
                        entry_busy_flipped(s[i], final(servers)@[i])
                    } else if idle_second_chance(s[i]) {
                        entry_flipped(s[i], final(servers)@[i])
                    } else {
                        final(servers)@[i] == s[i]
                    }
            } else {
                &&& r is None
                &&& final(servers)@ == s
            }
        }),
{
    let n: usize = servers.entries.len();
    // First pass: an idle reliable backend.
    let mut i: usize = 0;
    while i < n
        invariant
            0 <= i <= n,
            n == servers@.len(),
            servers.wf(),
            servers@ == old(servers)@,
            forall|j: int|
                0 <= j < i ==> (#[trigger] old(servers)@[j]).server.state.busy || old(
                    servers,
                )@[j].server.state.failure_record != FailureRecord::Reliable,
        decreases n - i,
    {
        let st = servers.entries[i].server.state;
        if !st.busy && matches!(st.failure_record, FailureRecord::Reliable) {
            proof {
                lemma_first_idle_found(old(servers)@, FailureRecord::Reliable, i as int);
            }
            let mut e = servers.entries.remove(i);
            let addr = e.address.clone();
            e.server.state.busy = true;
            servers.entries.insert(i, e);
            proof {
                assert(servers@ =~= old(servers)@.update(i as int, servers@[i as int]));
            }
            return Some(addr);
        }
        i = i + 1;
    }
    proof {
        lemma_first_idle_none(old(servers)@, FailureRecord::Reliable);
    }
    // Second pass: an idle unreliable backend.
    let mut i2: usize = 0;
    while i2 < n
        invariant
            0 <= i2 <= n,
            n == servers@.len(),
            servers.wf(),
            servers@ == old(servers)@,
            first_idle_with(old(servers)@, FailureRecord::Reliable) == -1,
            forall|j: int|
                0 <= j < i2 ==> (#[trigger] old(servers)@[j]).server.state.busy || old(
                    servers,
                )@[j].server.state.failure_record != FailureRecord::Unreliable,
        decreases n - i2,
    {
        let st = servers.entries[i2].server.state;
        if !st.busy && matches!(st.failure_record, FailureRecord::Unreliable) {
            proof {
                lemma_first_idle_found(old(servers)@, FailureRecord::Unreliable, i2 as int);
            }
            let mut e = servers.entries.remove(i2);
            let addr = e.address.clone();
            e.server.state.busy = true;
            servers.entries.insert(i2, e);
            proof {
                assert(servers@ =~= old(servers)@.update(i2 as int, servers@[i2 as int]));
            }
            return Some(addr);
        }
        i2 = i2 + 1;
    }
    proof {
        lemma_first_idle_none(old(servers)@, FailureRecord::Unreliable);
    }
    // Third pass: flip every idle spent second chance back to unreliable
    // and take the first.
    let mut first: Option<usize> = None;
    let mut i3: usize = 0;
    while i3 < n
        invariant
            0 <= i3 <= n,
            n == servers@.len(),
            n == old(servers)@.len(),
            servers.wf(),
            first_idle_with(old(servers)@, FailureRecord::Reliable) == -1,
            first_idle_with(old(servers)@, FailureRecord::Unreliable) == -1,
            forall|j: int|
                #![trigger old(servers)@[j]]
                0 <= j < n ==> if j < i3 && idle_second_chance(old(servers)@[j]) {
                    entry_flipped(old(servers)@[j], servers@[j])
                } else {
                    servers@[j] == old(servers)@[j]
                },
            match first {
                None => forall|j: int| 0 <= j < i3 ==> !idle_second_chance(
                    #[trigger] old(servers)@[j],
                ),
                Some(f) => f < i3 && idle_second_chance(old(servers)@[f as int]) && forall|j: int|
                    0 <= j < f ==> !idle_second_chance(#[trigger] old(servers)@[j]),
            },
        decreases n - i3,
    {
        let ghost mid = servers@;
        let st = servers.entries[i3].server.state;
        if !st.busy && matches!(st.failure_record, FailureRecord::SecondChanceGiven) {
            let mut e = servers.entries.remove(i3);
            e.server.state.failure_record = FailureRecord::Unreliable;
            servers.entries.insert(i3, e);
            proof {
                assert(servers@ =~= mid.update(i3 as int, servers@[i3 as int]));
            }
            if matches!(first, None) {
                first = Some(i3);
            }
        }
        i3 = i3 + 1;
    }
    match first {
        None => {
            proof {
                lemma_first_idle_none(old(servers)@, FailureRecord::SecondChanceGiven);
                assert(servers@ =~= old(servers)@);
            }
            None
        },
        Some(f) => {
            proof {
                lemma_first_idle_found(old(servers)@, FailureRecord::SecondChanceGiven, f as int);
            }
            let ghost mid = servers@;
            let mut e = servers.entries.remove(f);
            let addr = e.address.clone();
            e.server.state.busy = true;
            servers.entries.insert(f, e);
            proof {
                assert(servers@ =~= mid.update(f as int, servers@[f as int]));
            }
            Some(addr)
        },
    }
}

} // verus!

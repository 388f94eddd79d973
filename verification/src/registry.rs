//! The registry: an insertion-ordered collection of backends keyed by
//! address, the single point of mutation for health, reliability and
//! inventory state.
//!
//! Ordering matters: display and deterministic sequential fallback walk
//! the backends in insertion order, so the registry keeps its entries in
//! a vector whose addresses are pairwise distinct.

use vstd::prelude::*;
use crate::config::ServerConfig;
use crate::health::{
    Health, Score, FailureRecord, spec_more_healthy, spec_less_healthy, spec_record_failure,
    more_healthy, less_healthy, record_stream_error, record_stream_success,
};
use crate::strutil::str_eq;
use vstd::arithmetic::power2::lemma2_to64;

verus! {

/// One model as a backend reports it: its name and the raw JSON text of
/// its descriptor.
#[derive(Debug, Clone)]
pub struct ModelConfig {
    pub name: String,
    pub detail: String,
}

/// The mutable per-backend state.
#[derive(Debug, Clone, Copy, PartialEq, Eq, Structural)]
pub struct ServerState {
    pub busy: bool,
    pub health: Health,
    pub failure_record: FailureRecord,
}

/// One backend: its state, display name, model catalogue and active set.
#[derive(Debug, Clone)]
pub struct OllamaServer {
    pub state: ServerState,
    pub name: String,
    pub models: Vec<ModelConfig>,
    pub actives: Vec<ModelConfig>,
}

/// A backend together with the address it is keyed by.
#[derive(Debug, Clone)]
pub struct RegistryEntry {
    pub address: String,
    pub server: OllamaServer,
}

/// The ordered backend registry.
#[derive(Debug)]
pub struct Registry {
    pub entries: Vec<RegistryEntry>,
}

impl View for Registry {
    type V = Seq<RegistryEntry>;

    open spec fn view(&self) -> Seq<RegistryEntry> {
        self.entries@
    }
}

/// The names of a model list, in order.
pub open spec fn model_names(s: Seq<ModelConfig>) -> Seq<Seq<char>> {
    s.map_values(|m: ModelConfig| m.name@)
}

/// No two models in the list share a name.
pub open spec fn distinct_names(s: Seq<ModelConfig>) -> bool {
    forall|i: int, j: int| 0 <= i < j < s.len() ==> s[i].name@ != s[j].name@
}

/// Whether some model in the list carries the given name.
pub open spec fn seq_has_name(s: Seq<ModelConfig>, name: Seq<char>) -> bool {
    exists|i: int| 0 <= i < s.len() && s[i].name@ == name
}

impl OllamaServer {
    pub open spec fn wf(self) -> bool {
        &&& self.state.health.wf()
        &&& distinct_names(self.models@)
        &&& distinct_names(self.actives@)
    }

    pub open spec fn has_model(self, name: Seq<char>) -> bool {
        seq_has_name(self.models@, name)
    }

    pub open spec fn has_active(self, name: Seq<char>) -> bool {
        seq_has_name(self.actives@, name)
    }
}

/// The registry's addresses, in iteration order.
pub open spec fn addresses(s: Seq<RegistryEntry>) -> Seq<Seq<char>> {
    s.map_values(|e: RegistryEntry| e.address@)
}

impl Registry {
    /// Addresses pairwise distinct; every backend well-formed.
    pub open spec fn wf(self) -> bool {
        &&& forall|i: int, j: int| 0 <= i < j < self@.len() ==> self@[i].address@
            != self@[j].address@
        &&& forall|i: int| 0 <= i < self@.len() ==> self@[i].server.wf()
    }

    pub open spec fn has_addr(self, a: Seq<char>) -> bool {
        exists|i: int| 0 <= i < self@.len() && self@[i].address@ == a
    }

    pub fn new() -> (r: Registry)
        ensures
            r@.len() == 0,
            r.wf(),
    {
        Registry { entries: Vec::new() }
    }

    pub fn len(&self) -> (n: usize)
        ensures
            n == self@.len(),
    {
        self.entries.len()
    }
}

/// Index of the entry keyed by `target`, if present.
fn find_index(servers: &Registry, target: &str) -> (r: Option<usize>)
    ensures
        match r {
            Some(i) => {
                &&& 0 <= i < servers@.len()
                &&& servers@[i as int].address@ == target@
                &&& forall|j: int| 0 <= j < i ==> servers@[j].address@ != target@
            },
            None => !servers.has_addr(target@),
        },
{
    let mut i: usize = 0;
    while i < servers.entries.len()
        invariant
            0 <= i <= servers@.len(),
            forall|j: int| 0 <= j < i ==> servers@[j].address@ != target@,
        decreases servers@.len() - i,
    {
        if str_eq(servers.entries[i].address.as_str(), target) {
            return Some(i);
        }
        i = i + 1;
    }
    None
}

/// What adding an address does to the address order: an update in place
/// keeps the order, a fresh address goes to the end.
pub open spec fn spec_add_addresses(base: Seq<Seq<char>>, a: Seq<char>) -> Seq<Seq<char>> {
    if base.contains(a) {
        base
    } else {
        base.push(a)
    }
}

/// Insert-or-rename: a new address is appended with a fresh dead backend;
/// an existing address only has its display name replaced.
pub fn add_server(servers: &mut Registry, server: &ServerConfig)
    requires
        old(servers).wf(),
    ensures
        final(servers).wf(),
        addresses(final(servers)@) == spec_add_addresses(
            addresses(old(servers)@),
            server.address@,
        ),
        old(servers).has_addr(server.address@) ==> {
            &&& final(servers)@.len() == old(servers)@.len()
            &&& forall|i: int| 0 <= i < old(servers)@.len() ==> {
                if old(servers)@[i].address@ == server.address@ {
                    &&& final(servers)@[i].address@ == old(servers)@[i].address@
                    &&& final(servers)@[i].server.name@ == server.name@
                    &&& final(servers)@[i].server.state == old(servers)@[i].server.state
                    &&& final(servers)@[i].server.models@ == old(servers)@[i].server.models@
                    &&& final(servers)@[i].server.actives@ == old(servers)@[i].server.actives@
                } else {
                    final(servers)@[i] == old(servers)@[i]
                }
            }
        },
        !old(servers).has_addr(server.address@) ==> {
            &&& final(servers)@.len() == old(servers)@.len() + 1
            &&& final(servers)@.subrange(0, old(servers)@.len() as int) == old(servers)@
            &&& final(servers)@.last().address@ == server.address@
            &&& final(servers)@.last().server.name@ == server.name@
            &&& final(servers)@.last().server.state == (ServerState {
                busy: false,
                health: Health::Dead,
                failure_record: FailureRecord::Reliable,
            })
            &&& final(servers)@.last().server.models@.len() == 0
            &&& final(servers)@.last().server.actives@.len() == 0
        },
{
    match find_index(servers, server.address.as_str()) {
        Some(i) => {
            let mut e = servers.entries.remove(i);
            e.server.name = server.name.clone();
            servers.entries.insert(i, e);
            proof {
                assert(servers@ =~= old(servers)@.update(
                    i as int,
                    RegistryEntry {
                        address: old(servers)@[i as int].address,
                        server: OllamaServer {
                            name: server.name,
                            ..old(servers)@[i as int].server
                        },
                    },
                ));
                assert(addresses(servers@) =~= addresses(old(servers)@));
                assert(addresses(old(servers)@)[i as int] == server.address@);
                assert(addresses(old(servers)@).contains(server.address@));
            }
        },
        None => {
            servers.entries.push(
                RegistryEntry {
                    address: server.address.clone(),
                    server: OllamaServer {
                        state: ServerState {
                            busy: false,
                            health: Health::Dead,
                            failure_record: FailureRecord::Reliable,
                        },
                        name: server.name.clone(),
                        models: Vec::new(),
                        actives: Vec::new(),
                    },
                },
            );
            proof {
                assert(final(servers)@.subrange(0, old(servers)@.len() as int) =~= old(
                    servers,
                )@);
                assert forall|k: int|
                    0 <= k < addresses(old(servers)@).len() implies addresses(old(servers)@)[k]
                    != server.address@ by {
                    assert(old(servers)@[k].address@ != server.address@);
                }
                assert(!addresses(old(servers)@).contains(server.address@));
                assert(addresses(servers@) =~= addresses(old(servers)@).push(server.address@));
            }
        },
    }
}

/// Folding `spec_add_addresses` over a list of addresses.
pub open spec fn add_all_addresses(base: Seq<Seq<char>>, cfgs: Seq<Seq<char>>) -> Seq<Seq<char>>
    decreases cfgs.len(),
{
    if cfgs.len() == 0 {
        base
    } else {
        add_all_addresses(spec_add_addresses(base, cfgs[0]), cfgs.drop_first())
    }
}

/// Law: adding N pairwise-distinct, fresh addresses grows the registry by
/// exactly N entries, and the iteration order is the insertion order.
pub proof fn lemma_add_all_distinct(base: Seq<Seq<char>>, cfgs: Seq<Seq<char>>)
    requires
        forall|i: int, j: int| 0 <= i < j < cfgs.len() ==> cfgs[i] != cfgs[j],
        forall|i: int| 0 <= i < cfgs.len() ==> !base.contains(cfgs[i]),
    ensures
        add_all_addresses(base, cfgs) == base + cfgs,
    decreases cfgs.len(),
{
    if cfgs.len() == 0 {
        assert(add_all_addresses(base, cfgs) =~= base + cfgs);
    } else {
        let base2 = base.push(cfgs[0]);
        let rest = cfgs.drop_first();
        assert(!base.contains(cfgs[0]));
        assert(spec_add_addresses(base, cfgs[0]) == base2);
        assert forall|i: int| 0 <= i < rest.len() implies !base2.contains(rest[i]) by {
            assert(rest[i] == cfgs[i + 1]);
            if base2.contains(rest[i]) {
                let w = choose|w: int| 0 <= w < base2.len() && base2[w] == rest[i];
                if w < base.len() {
                    assert(base[w] == rest[i]);
                    assert(base.contains(cfgs[i + 1]));
                } else {
                    assert(base2[w] == cfgs[0]);
                }
            }
        }
        lemma_add_all_distinct(base2, rest);
        assert(add_all_addresses(base, cfgs) == base2 + rest);
        assert(base2 + rest =~= base + cfgs);
    }
}

/// Sets the health of the backend keyed by `target`; anything else is
/// untouched, and an unknown address is a no-op.
pub fn mark_server(servers: &mut Registry, target: &str, health: Health)
    requires
        old(servers).wf(),
        health.wf(),
    ensures
        final(servers).wf(),
        final(servers)@.len() == old(servers)@.len(),
        forall|i: int| 0 <= i < old(servers)@.len() ==> {
            if old(servers)@[i].address@ == target@ {
                &&& final(servers)@[i].address@ == old(servers)@[i].address@
                &&& final(servers)@[i].server.name@ == old(servers)@[i].server.name@
                &&& final(servers)@[i].server.models@ == old(servers)@[i].server.models@
                &&& final(servers)@[i].server.actives@ == old(servers)@[i].server.actives@
                &&& final(servers)@[i].server.state == (ServerState {
                    health: health,
                    busy: old(servers)@[i].server.state.busy,
                    failure_record: old(servers)@[i].server.state.failure_record,
                })
            } else {
                final(servers)@[i] == old(servers)@[i]
            }
        },
{
    match find_index(servers, target) {
        Some(i) => {
            let mut e = servers.entries.remove(i);
            e.server.state.health = health;
            servers.entries.insert(i, e);
            proof {
                assert(servers@ =~= old(servers)@.update(i as int, servers@[i as int]));
            }
        },
        None => {},
    }
}

/// Marks the backend dead.
pub fn mark_server_dead(servers: &mut Registry, target: &str)
    requires
        old(servers).wf(),
    ensures
        final(servers).wf(),
        final(servers)@.len() == old(servers)@.len(),
        forall|i: int| 0 <= i < old(servers)@.len() ==> {
            if old(servers)@[i].address@ == target@ {
                &&& final(servers)@[i].address@ == old(servers)@[i].address@
                &&& final(servers)@[i].server.name@ == old(servers)@[i].server.name@
                &&& final(servers)@[i].server.models@ == old(servers)@[i].server.models@
                &&& final(servers)@[i].server.actives@ == old(servers)@[i].server.actives@
                &&& final(servers)@[i].server.state == (ServerState {
                    health: Health::Dead,
                    busy: old(servers)@[i].server.state.busy,
                    failure_record: old(servers)@[i].server.state.failure_record,
                })
            } else {
                final(servers)@[i] == old(servers)@[i]
            }
        },
{
    mark_server(servers, target, Health::Dead)
}

/// Marks the backend alive with the given score.
pub fn mark_server_healthy(servers: &mut Registry, target: &str, score: Score)
    requires
        old(servers).wf(),
        score.wf(),
    ensures
        final(servers).wf(),
        final(servers)@.len() == old(servers)@.len(),
        forall|i: int| 0 <= i < old(servers)@.len() ==> {
            if old(servers)@[i].address@ == target@ {
                &&& final(servers)@[i].address@ == old(servers)@[i].address@
                &&& final(servers)@[i].server.name@ == old(servers)@[i].server.name@
                &&& final(servers)@[i].server.models@ == old(servers)@[i].server.models@
                &&& final(servers)@[i].server.actives@ == old(servers)@[i].server.actives@
                &&& final(servers)@[i].server.state == (ServerState {
                    health: Health::Healthy(score),
                    busy: old(servers)@[i].server.state.busy,
                    failure_record: old(servers)@[i].server.state.failure_record,
                })
            } else {
                final(servers)@[i] == old(servers)@[i]
            }
        },
{
    mark_server(servers, target, Health::Healthy(score))
}

/// Applies the race reward to the backend keyed by `target`: `+4` for the
/// best racer, `+2` otherwise, resurrection at score one when dead.
pub fn mark_server_more_healthy(servers: &mut Registry, target: &str, is_best: bool)
    requires
        old(servers).wf(),
    ensures
        final(servers).wf(),
        final(servers)@.len() == old(servers)@.len(),
        forall|i: int| 0 <= i < old(servers)@.len() ==> {
            if old(servers)@[i].address@ == target@ {
                &&& final(servers)@[i].address@ == old(servers)@[i].address@
                &&& final(servers)@[i].server.name@ == old(servers)@[i].server.name@
                &&& final(servers)@[i].server.models@ == old(servers)@[i].server.models@
                &&& final(servers)@[i].server.actives@ == old(servers)@[i].server.actives@
                &&& final(servers)@[i].server.state == (ServerState {
                    health: spec_more_healthy(old(servers)@[i].server.state.health, is_best),
                    busy: old(servers)@[i].server.state.busy,
                    failure_record: old(servers)@[i].server.state.failure_record,
                })
            } else {
                final(servers)@[i] == old(servers)@[i]
            }
        },
{
    match find_index(servers, target) {
        Some(i) => {
            let mut e = servers.entries.remove(i);
            e.server.state.health = more_healthy(e.server.state.health, is_best);
            servers.entries.insert(i, e);
            proof {
                assert(servers@ =~= old(servers)@.update(i as int, servers@[i as int]));
            }
        },
        None => {},
    }
}

/// Applies the race penalty to the backend keyed by `target`: the score
/// is halved, and a score dropping below one kills the backend.
pub fn mark_server_less_healthy(servers: &mut Registry, target: &str)
    requires
        old(servers).wf(),
    ensures
        final(servers).wf(),
        final(servers)@.len() == old(servers)@.len(),
        forall|i: int| 0 <= i < old(servers)@.len() ==> {
            if old(servers)@[i].address@ == target@ {
                &&& final(servers)@[i].address@ == old(servers)@[i].address@
                &&& final(servers)@[i].server.name@ == old(servers)@[i].server.name@
                &&& final(servers)@[i].server.models@ == old(servers)@[i].server.models@
                &&& final(servers)@[i].server.actives@ == old(servers)@[i].server.actives@
                &&& final(servers)@[i].server.state == (ServerState {
                    health: spec_less_healthy(old(servers)@[i].server.state.health),
                    busy: old(servers)@[i].server.state.busy,
                    failure_record: old(servers)@[i].server.state.failure_record,
                })
            } else {
                final(servers)@[i] == old(servers)@[i]
            }
        },
{
    match find_index(servers, target) {
        Some(i) => {
            let mut e = servers.entries.remove(i);
            e.server.state.health = less_healthy(e.server.state.health);
            servers.entries.insert(i, e);
            proof {
                assert(servers@ =~= old(servers)@.update(i as int, servers@[i as int]));
            }
        },
        None => {},
    }
}

/// Sets or clears the busy flag of the backend keyed by `target`.
pub fn set_server_busy(servers: &mut Registry, target: &str, busy: bool)
    requires
        old(servers).wf(),
    ensures
        final(servers).wf(),
        final(servers)@.len() == old(servers)@.len(),
        forall|i: int| 0 <= i < old(servers)@.len() ==> {
            if old(servers)@[i].address@ == target@ {
                &&& final(servers)@[i].address@ == old(servers)@[i].address@
                &&& final(servers)@[i].server.name@ == old(servers)@[i].server.name@
                &&& final(servers)@[i].server.models@ == old(servers)@[i].server.models@
                &&& final(servers)@[i].server.actives@ == old(servers)@[i].server.actives@
                &&& final(servers)@[i].server.state == (ServerState {
                    health: old(servers)@[i].server.state.health,
                    busy: busy,
                    failure_record: old(servers)@[i].server.state.failure_record,
                })
            } else {
                final(servers)@[i] == old(servers)@[i]
            }
        },
{
    match find_index(servers, target) {
        Some(i) => {
            let mut e = servers.entries.remove(i);
            e.server.state.busy = busy;
            servers.entries.insert(i, e);
            proof {
                assert(servers@ =~= old(servers)@.update(i as int, servers@[i as int]));
            }
        },
        None => {},
    }
}

/// Records a mid-stream or send failure in the reliability ledger of the
/// backend keyed by `target`.
pub fn record_server_failure(servers: &mut Registry, target: &str)
    requires
        old(servers).wf(),
    ensures
        final(servers).wf(),
        final(servers)@.len() == old(servers)@.len(),
        forall|i: int| 0 <= i < old(servers)@.len() ==> {
            if old(servers)@[i].address@ == target@ {
                &&& final(servers)@[i].address@ == old(servers)@[i].address@
                &&& final(servers)@[i].server.name@ == old(servers)@[i].server.name@
                &&& final(servers)@[i].server.models@ == old(servers)@[i].server.models@
                &&& final(servers)@[i].server.actives@ == old(servers)@[i].server.actives@
                &&& final(servers)@[i].server.state == (ServerState {
                    health: old(servers)@[i].server.state.health,
                    busy: old(servers)@[i].server.state.busy,
                    failure_record: spec_record_failure(
                        old(servers)@[i].server.state.failure_record,
                    ),
                })
            } else {
                final(servers)@[i] == old(servers)@[i]
            }
        },
{
    match find_index(servers, target) {
        Some(i) => {
            let mut e = servers.entries.remove(i);
            e.server.state.failure_record = record_stream_error(e.server.state.failure_record);
            servers.entries.insert(i, e);
            proof {
                assert(servers@ =~= old(servers)@.update(i as int, servers@[i as int]));
            }
        },
        None => {},
    }
}

/// Records a cleanly completed stream: the ledger returns to reliable.
pub fn record_server_success(servers: &mut Registry, target: &str)
    requires
        old(servers).wf(),
    ensures
        final(servers).wf(),
        final(servers)@.len() == old(servers)@.len(),
        forall|i: int| 0 <= i < old(servers)@.len() ==> {
            if old(servers)@[i].address@ == target@ {
                &&& final(servers)@[i].address@ == old(servers)@[i].address@
                &&& final(servers)@[i].server.name@ == old(servers)@[i].server.name@
                &&& final(servers)@[i].server.models@ == old(servers)@[i].server.models@
                &&& final(servers)@[i].server.actives@ == old(servers)@[i].server.actives@
                &&& final(servers)@[i].server.state == (ServerState {
                    health: old(servers)@[i].server.state.health,
                    busy: old(servers)@[i].server.state.busy,
                    failure_record: FailureRecord::Reliable,
                })
            } else {
                final(servers)@[i] == old(servers)@[i]
            }
        },
{
    match find_index(servers, target) {
        Some(i) => {
            let mut e = servers.entries.remove(i);
            e.server.state.failure_record = record_stream_success(e.server.state.failure_record);
            servers.entries.insert(i, e);
            proof {
                assert(servers@ =~= old(servers)@.update(i as int, servers@[i as int]));
            }
        },
        None => {},
    }
}

/// Index of the first model named `name`, or `-1` if there is none.
pub open spec fn find_name(s: Seq<ModelConfig>, name: Seq<char>) -> int
    decreases s.len(),
{
    if s.len() == 0 {
        -1
    } else if s[0].name@ == name {
        0
    } else {
        let r = find_name(s.drop_first(), name);
        if r == -1 {
            -1
        } else {
            1 + r
        }
    }
}

pub proof fn lemma_find_name_found(s: Seq<ModelConfig>, name: Seq<char>, k: int)
    requires
        0 <= k < s.len(),
        s[k].name@ == name,
        forall|j: int| 0 <= j < k ==> s[j].name@ != name,
    ensures
        find_name(s, name) == k,
    decreases k,
{
    if k > 0 {
        lemma_find_name_found(s.drop_first(), name, k - 1);
    }
}

pub proof fn lemma_find_name_none(s: Seq<ModelConfig>, name: Seq<char>)
    requires
        forall|j: int| 0 <= j < s.len() ==> s[j].name@ != name,
    ensures
        find_name(s, name) == -1,
    decreases s.len(),
{
    if s.len() > 0 {
        lemma_find_name_none(s.drop_first(), name);
    }
}

pub proof fn lemma_find_name_valid(s: Seq<ModelConfig>, name: Seq<char>)
    ensures
        find_name(s, name) == -1 <==> !seq_has_name(s, name),
        find_name(s, name) != -1 ==> 0 <= find_name(s, name) < s.len() && s[find_name(
            s,
            name,
        )].name@ == name,
    decreases s.len(),
{
    if s.len() > 0 {
        lemma_find_name_valid(s.drop_first(), name);
        if s[0].name@ != name {
            if !seq_has_name(s.drop_first(), name) && seq_has_name(s, name) {
                let w = choose|i: int| 0 <= i < s.len() && s[i].name@ == name;
                assert(s.drop_first()[w - 1].name@ == name);
            }
        }
    }
}

/// Inserting one fetched model into a deduplicated list: a repeated name
/// replaces the earlier descriptor in place, a new name is appended.
pub open spec fn spec_upsert(acc: Seq<ModelConfig>, m: ModelConfig) -> Seq<ModelConfig> {
    let k = find_name(acc, m.name@);
    if k == -1 {
        acc.push(m)
    } else {
        acc.update(k, m)
    }
}

/// The deduplicated model list: one entry per distinct name, in order of
/// first occurrence, each carrying the descriptor seen last.
pub open spec fn spec_dedup(s: Seq<ModelConfig>) -> Seq<ModelConfig>
    decreases s.len(),
{
    if s.len() == 0 {
        Seq::empty()
    } else {
        spec_upsert(spec_dedup(s.drop_last()), s.last())
    }
}

/// Law: deduplication leaves exactly the distinct names — no two entries
/// share a name, and a name occurs in the result iff it occurred in the
/// input. The result's length is therefore the number of distinct names.
pub proof fn lemma_dedup_names(s: Seq<ModelConfig>)
    ensures
        distinct_names(spec_dedup(s)),
        forall|name: Seq<char>| seq_has_name(spec_dedup(s), name) <==> seq_has_name(s, name),
    decreases s.len(),
{
    if s.len() > 0 {
        lemma_dedup_names(s.drop_last());
        let acc = spec_dedup(s.drop_last());
        let m = s.last();
        lemma_find_name_valid(acc, m.name@);
        let k = find_name(acc, m.name@);
        let d = spec_dedup(s);
        if k == -1 {
            assert(d == acc.push(m));
            assert(!seq_has_name(acc, m.name@));
            assert forall|a: int, b: int| 0 <= a < b < d.len() implies d[a].name@ != d[b].name@ by {
                if b == acc.len() {
                    assert(d[a] == acc[a]);
                    assert(d[b] == m);
                    if acc[a].name@ == m.name@ {
                        assert(seq_has_name(acc, m.name@));
                    }
                } else {
                    assert(d[a] == acc[a]);
                    assert(d[b] == acc[b]);
                }
            }
        } else {
            assert(d == acc.update(k, m));
            assert(acc[k].name@ == m.name@);
            assert forall|a: int, b: int| 0 <= a < b < d.len() implies d[a].name@ != d[b].name@ by {
                assert(d[a].name@ == acc[a].name@);
                assert(d[b].name@ == acc[b].name@);
            }
        }
        assert forall|name: Seq<char>| seq_has_name(d, name) implies seq_has_name(s, name) by {
            let w = choose|i: int| 0 <= i < d.len() && d[i].name@ == name;
            if k != -1 || w < acc.len() {
                if k != -1 && w == k {
                    assert(d[w] == m);
                    assert(s[s.len() - 1].name@ == name);
                } else {
                    assert(d[w] == acc[w]);
                    assert(seq_has_name(acc, name));
                    assert(seq_has_name(s.drop_last(), name));
                    let v = choose|i: int|
                        0 <= i < s.drop_last().len() && s.drop_last()[i].name@ == name;
                    assert(s[v].name@ == name);
                }
            } else {
                assert(d[w] == m);
                assert(s[s.len() - 1].name@ == name);
            }
        }
        assert forall|name: Seq<char>| seq_has_name(s, name) implies seq_has_name(d, name) by {
            let w = choose|i: int| 0 <= i < s.len() && s[i].name@ == name;
            if w < s.len() - 1 {
                assert(s.drop_last()[w].name@ == name);
                assert(seq_has_name(s.drop_last(), name));
                assert(seq_has_name(acc, name));
                let v = choose|i: int| 0 <= i < acc.len() && acc[i].name@ == name;
                if k == -1 {
                    assert(d[v].name@ == name);
                } else if v == k {
                    assert(d[k as int].name@ == m.name@ && m.name@ == acc[k].name@);
                } else {
                    assert(d[v].name@ == name);
                }
            } else {
                assert(s[w] == m);
                if k == -1 {
                    assert(d[acc.len() as int] == m);
                } else {
                    assert(d[k as int] == m);
                }
            }
        }
    }
}

/// Every deduplicated entry is one of the input entries.
pub proof fn lemma_dedup_provenance(s: Seq<ModelConfig>)
    ensures
        forall|t: int|
            0 <= t < spec_dedup(s).len() ==> exists|k: int|
                0 <= k < s.len() && #[trigger] spec_dedup(s)[t] == s[k],
    decreases s.len(),
{
    if s.len() > 0 {
        lemma_dedup_provenance(s.drop_last());
        let acc = spec_dedup(s.drop_last());
        let m = s.last();
        lemma_find_name_valid(acc, m.name@);
        let k = find_name(acc, m.name@);
        let d = spec_dedup(s);
        assert(d == spec_upsert(acc, m));
        assert forall|t: int| 0 <= t < d.len() implies exists|w: int|
            0 <= w < s.len() && #[trigger] d[t] == s[w] by {
            if (k != -1 && t == k) || (k == -1 && t == acc.len()) {
                assert(d[t] == s[s.len() - 1]);
            } else {
                assert(d[t] == acc[t]);
                let w = choose|w: int| 0 <= w < s.len() - 1 && acc[t] == s.drop_last()[w];
                assert(d[t] == s[w]);
            }
        }
    }
}

/// Deduplicates a fetched model list by name: order of first occurrence,
/// last descriptor wins.
pub fn dedup_models(src: Vec<ModelConfig>) -> (r: Vec<ModelConfig>)
    ensures
        r@ == spec_dedup(src@),
        distinct_names(r@),
{
    proof {
        lemma_dedup_names(src@);
    }
    let ghost orig: Seq<ModelConfig> = src@;
    let orig_len: usize = src.len();
    let mut src = src;
    let mut acc: Vec<ModelConfig> = Vec::new();
    let mut i: usize = 0;
    while src.len() > 0
        invariant
            orig.len() == orig_len,
            i + src@.len() == orig.len(),
            src@ == orig.subrange(i as int, orig.len() as int),
            acc@ == spec_dedup(orig.subrange(0, i as int)),
        decreases src@.len(),
    {
        let ghost prefix = orig.subrange(0, i as int);
        let m = src.remove(0);
        assert(m == orig[i as int]);
        let ghost mname = m.name@;
        let mut k: usize = 0;
        let mut found: bool = false;
        while k < acc.len() && !found
            invariant
                mname == m.name@,
                0 <= k <= acc@.len(),
                found ==> k < acc@.len() && acc@[k as int].name@ == mname,
                forall|j: int| 0 <= j < k ==> acc@[j].name@ != mname,
            decreases acc@.len() - k + (if found { 0int } else { 1int }),
        {
            if str_eq(acc[k].name.as_str(), m.name.as_str()) {
                found = true;
            } else {
                k = k + 1;
            }
        }
        if found {
            proof {
                lemma_find_name_found(acc@, mname, k as int);
            }
            acc.remove(k);
            acc.insert(k, m);
            proof {
                assert(acc@ =~= spec_dedup(prefix).update(k as int, orig[i as int]));
            }
        } else {
            proof {
                lemma_find_name_none(acc@, mname);
            }
            acc.push(m);
        }
        i = i + 1;
        proof {
            assert(orig.subrange(0, i as int).drop_last() =~= prefix);
            assert(orig.subrange(0, i as int).last() == orig[i - 1]);
            assert(src@ =~= orig.subrange(i as int, orig.len() as int));
        }
    }
    proof {
        assert(orig.subrange(0, i as int) =~= orig);
    }
    acc
}

/// The post-fetch half of the inventory sync. A failed fetch (`None`)
/// marks the backend dead and leaves its model maps untouched; a
/// successful fetch replaces the catalogue and active set with the
/// deduplicated lists and restores health to a score of one.
pub fn sync_server(
    servers: &mut Registry,
    target: &str,
    fetched: Option<(Vec<ModelConfig>, Vec<ModelConfig>)>,
) -> (r: Health)
    requires
        old(servers).wf(),
    ensures
        final(servers).wf(),
        final(servers)@.len() == old(servers)@.len(),
        fetched is None ==> r == Health::Dead,
        fetched is None ==> forall|i: int| 0 <= i < old(servers)@.len() ==> {
            if old(servers)@[i].address@ == target@ {
                &&& final(servers)@[i].address@ == old(servers)@[i].address@
                &&& final(servers)@[i].server.name@ == old(servers)@[i].server.name@
                &&& final(servers)@[i].server.models@ == old(servers)@[i].server.models@
                &&& final(servers)@[i].server.actives@ == old(servers)@[i].server.actives@
                &&& final(servers)@[i].server.state == (ServerState {
                    health: Health::Dead,
                    busy: old(servers)@[i].server.state.busy,
                    failure_record: old(servers)@[i].server.state.failure_record,
                })
            } else {
                final(servers)@[i] == old(servers)@[i]
            }
        },
        fetched matches Some(f) ==> {
            if old(servers).has_addr(target@) {
                &&& r == Health::Healthy(Score { num: 1u64, shift: 0u64 })
                &&& forall|i: int| 0 <= i < old(servers)@.len() ==> {
                    if old(servers)@[i].address@ == target@ {
                        &&& final(servers)@[i].address@ == old(servers)@[i].address@
                        &&& final(servers)@[i].server.name@ == old(servers)@[i].server.name@
                        &&& final(servers)@[i].server.models@ == spec_dedup(f.0@)
                        &&& final(servers)@[i].server.actives@ == spec_dedup(f.1@)
                        &&& final(servers)@[i].server.state == (ServerState {
                            health: Health::Healthy(Score { num: 1u64, shift: 0u64 }),
                            busy: old(servers)@[i].server.state.busy,
                            failure_record: old(servers)@[i].server.state.failure_record,
                        })
                    } else {
                        final(servers)@[i] == old(servers)@[i]
                    }
                }
            } else {
                &&& r == Health::Dead
                &&& final(servers)@ == old(servers)@
            }
        },
{
    match fetched {
        None => {
            mark_server_dead(servers, target);
            Health::Dead
        },
        Some((ms, acts)) => {
            match find_index(servers, target) {
                Some(i) => {
                    let mut e = servers.entries.remove(i);
                    e.server.models = dedup_models(ms);
                    e.server.actives = dedup_models(acts);
                    proof {
                        lemma2_to64();
                    }
                    e.server.state.health = Health::Healthy(Score { num: 1, shift: 0 });
                    servers.entries.insert(i, e);
                    proof {
                        assert(servers@ =~= old(servers)@.update(i as int, servers@[i as int]));
                    }
                    Health::Healthy(Score { num: 1, shift: 0 })
                },
                None => Health::Dead,
            }
        },
    }
}

/// One model in a snapshot: the name, and the descriptor only when the
/// snapshot was taken with details.
#[derive(Debug, Clone)]
pub struct SnapModel {
    pub name: String,
    pub detail: Option<String>,
}

/// A read-only copy of one backend, taken in registry order.
#[derive(Debug, Clone)]
pub struct ServerSnapshot {
    pub address: String,
    pub state: ServerState,
    pub name: String,
    pub models: Vec<SnapModel>,
    pub actives: Vec<SnapModel>,
}

/// Whether some snapshot model carries the given name.
pub open spec fn snap_has_name(s: Seq<SnapModel>, name: Seq<char>) -> bool {
    exists|i: int| 0 <= i < s.len() && s[i].name@ == name
}

/// The snapshot model list mirrors the source list, with descriptors kept
/// or dropped as requested.
pub open spec fn snap_matches_models(
    snap: Seq<SnapModel>,
    src: Seq<ModelConfig>,
    need_detail: bool,
) -> bool {
    &&& snap.len() == src.len()
    &&& forall|j: int| 0 <= j < src.len() ==> {
        &&& snap[j].name@ == src[j].name@
        &&& if need_detail {
            snap[j].detail matches Some(d) && d@ == src[j].detail@
        } else {
            snap[j].detail is None
        }
    }
}

fn snap_models(src: &Vec<ModelConfig>, need_detail: bool) -> (r: Vec<SnapModel>)
    ensures
        snap_matches_models(r@, src@, need_detail),
{
    let mut r: Vec<SnapModel> = Vec::new();
    let mut j: usize = 0;
    while j < src.len()
        invariant
            0 <= j <= src@.len(),
            r@.len() == j,
            forall|t: int| 0 <= t < j ==> {
                &&& r@[t].name@ == src@[t].name@
                &&& if need_detail {
                    r@[t].detail matches Some(d) && d@ == src@[t].detail@
                } else {
                    r@[t].detail is None
                }
            },
        decreases src@.len() - j,
    {
        let detail: Option<String> = if need_detail {
            Some(src[j].detail.clone())
        } else {
            None
        };
        r.push(SnapModel { name: src[j].name.clone(), detail });
        j = j + 1;
    }
    r
}

/// An O(N) copy of the registry for lock-free readers, in registry order.
/// Without `need_detail` the descriptor payloads are dropped, which keeps
/// snapshots cheap for selection.
pub fn snapshot_servers(servers: &Registry, need_detail: bool) -> (r: Vec<ServerSnapshot>)
    ensures
        r@.len() == servers@.len(),
        forall|i: int| 0 <= i < servers@.len() ==> {
            &&& r@[i].address@ == servers@[i].address@
            &&& r@[i].name@ == servers@[i].server.name@
            &&& r@[i].state == servers@[i].server.state
            &&& snap_matches_models(r@[i].models@, servers@[i].server.models@, need_detail)
            &&& snap_matches_models(r@[i].actives@, servers@[i].server.actives@, need_detail)
        },
{
    let mut r: Vec<ServerSnapshot> = Vec::new();
    let mut i: usize = 0;
    while i < servers.entries.len()
        invariant
            0 <= i <= servers@.len(),
            r@.len() == i,
            forall|t: int| 0 <= t < i ==> {
                &&& r@[t].address@ == servers@[t].address@
                &&& r@[t].name@ == servers@[t].server.name@
                &&& r@[t].state == servers@[t].server.state
                &&& snap_matches_models(r@[t].models@, servers@[t].server.models@, need_detail)
                &&& snap_matches_models(r@[t].actives@, servers@[t].server.actives@, need_detail)
            },
        decreases servers@.len() - i,
    {
        let e = &servers.entries[i];
        r.push(
            ServerSnapshot {
                address: e.address.clone(),
                state: e.server.state,
                name: e.server.name.clone(),
                models: snap_models(&e.server.models, need_detail),
                actives: snap_models(&e.server.actives, need_detail),
            },
        );
        i = i + 1;
    }
    r
}

/// Whether the snapshot lists a model with the given name.
pub fn snapshot_has_name(models: &Vec<SnapModel>, name: &str) -> (r: bool)
    ensures
        r == snap_has_name(models@, name@),
{
    let mut j: usize = 0;
    while j < models.len()
        invariant
            0 <= j <= models@.len(),
            forall|t: int| 0 <= t < j ==> models@[t].name@ != name@,
        decreases models@.len() - j,
    {
        if str_eq(models[j].name.as_str(), name) {
            return true;
        }
        j = j + 1;
    }
    false
}

} // verus!

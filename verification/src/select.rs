//! The three-tier selector: given a model name, build an ordered
//! shortlist of backend addresses from a registry snapshot.
//!
//! Tier order: backends with the model active, then (only to reach the
//! floor) backends that merely carry the model, then (when resurrection
//! fires or the floor is still unmet) dead backends. Backends that are
//! alive but do not carry the requested model are never selected.

use vstd::prelude::*;
use vstd::arithmetic::power2::pow2;
use crate::health::Health;
use crate::registry::{
    Registry, RegistryEntry, ServerSnapshot, SnapModel, ModelConfig, snap_has_name, seq_has_name,
    snap_matches_models, snapshot_servers, snapshot_has_name,
};
use crate::sample::{Weight, efraimidis_spirakis_sample, is_es_selection, in_result, lemma_es_selection_distinct};

verus! {

/// Selector options: the floor and cap of the shortlist, and how many
/// slots a resurrection draw reserves for dead backends. Whether the
/// draw fired is handed in by the caller, who samples it with its
/// configured probability.
#[derive(Debug, Clone, Copy)]
pub struct SelOpt {
    pub count: (usize, usize),
    pub resurrect_n: usize,
}

impl Default for SelOpt {
    fn default() -> (r: SelOpt)
        ensures
            r.count.0 == 0usize && r.count.1 == 0usize && r.resurrect_n == 0usize,
    {
        SelOpt { count: (0, 0), resurrect_n: 0 }
    }
}

/// The selection tiers.
#[derive(Debug, Clone, Copy, PartialEq, Eq, Structural)]
pub enum Tier {
    Active,
    Inactive,
    Resurrect,
}

/// Tier membership of one snapshot entry.
pub open spec fn is_snap_cand(snap: ServerSnapshot, model: Seq<char>, tier: Tier) -> bool {
    match tier {
        Tier::Active => !(snap.state.health is Dead) && snap_has_name(snap.models@, model)
            && snap_has_name(snap.actives@, model),
        Tier::Inactive => !(snap.state.health is Dead) && snap_has_name(snap.models@, model)
            && !snap_has_name(snap.actives@, model),
        Tier::Resurrect => snap.state.health is Dead,
    }
}

/// Tier membership of one registry entry.
pub open spec fn is_server_cand(e: RegistryEntry, model: Seq<char>, tier: Tier) -> bool {
    match tier {
        Tier::Active => !(e.server.state.health is Dead) && e.server.has_model(model)
            && e.server.has_active(model),
        Tier::Inactive => !(e.server.state.health is Dead) && e.server.has_model(model)
            && !e.server.has_active(model),
        Tier::Resurrect => e.server.state.health is Dead,
    }
}

/// How many registry entries fall in the tier.
pub open spec fn count_server_cand(s: Seq<RegistryEntry>, model: Seq<char>, tier: Tier) -> int
    decreases s.len(),
{
    if s.len() == 0 {
        0
    } else {
        count_server_cand(s.drop_last(), model, tier) + if is_server_cand(
            s.last(),
            model,
            tier,
        ) {
            1int
        } else {
            0int
        }
    }
}

/// How many snapshot entries fall in the tier.
pub open spec fn count_snap_cand(s: Seq<ServerSnapshot>, model: Seq<char>, tier: Tier) -> int
    decreases s.len(),
{
    if s.len() == 0 {
        0
    } else {
        count_snap_cand(s.drop_last(), model, tier) + if is_snap_cand(s.last(), model, tier) {
            1int
        } else {
            0int
        }
    }
}

/// A snapshot taken without details still decides tier membership exactly
/// as the registry does.
proof fn lemma_snap_names_match(snap: Seq<SnapModel>, src: Seq<ModelConfig>, need_detail: bool)
    requires
        snap_matches_models(snap, src, need_detail),
    ensures
        forall|name: Seq<char>| snap_has_name(snap, name) <==> seq_has_name(src, name),
{
    assert forall|name: Seq<char>| snap_has_name(snap, name) <==> seq_has_name(src, name) by {
        if snap_has_name(snap, name) {
            let w = choose|i: int| 0 <= i < snap.len() && snap[i].name@ == name;
            assert(src[w].name@ == name);
        }
        if seq_has_name(src, name) {
            let w = choose|i: int| 0 <= i < src.len() && src[i].name@ == name;
            assert(snap[w].name@ == name);
        }
    }
}

proof fn lemma_count_cand_eq(
    snaps: Seq<ServerSnapshot>,
    entries: Seq<RegistryEntry>,
    model: Seq<char>,
    tier: Tier,
)
    requires
        snaps.len() == entries.len(),
        forall|i: int|
            0 <= i < snaps.len() ==> (is_snap_cand(#[trigger] snaps[i], model, tier)
                <==> is_server_cand(entries[i], model, tier)),
    ensures
        count_snap_cand(snaps, model, tier) == count_server_cand(entries, model, tier),
    decreases snaps.len(),
{
    if snaps.len() > 0 {
        assert forall|i: int| 0 <= i < snaps.len() - 1 implies (is_snap_cand(
            #[trigger] snaps.drop_last()[i],
            model,
            tier,
        ) <==> is_server_cand(entries.drop_last()[i], model, tier)) by {
            assert(snaps.drop_last()[i] == snaps[i]);
            assert(entries.drop_last()[i] == entries[i]);
        }
        lemma_count_cand_eq(snaps.drop_last(), entries.drop_last(), model, tier);
    }
}

/// A tier never holds more entries than the snapshot.
proof fn lemma_count_cand_le(s: Seq<ServerSnapshot>, model: Seq<char>, tier: Tier)
    ensures
        0 <= count_snap_cand(s, model, tier) <= s.len(),
    decreases s.len(),
{
    if s.len() > 0 {
        lemma_count_cand_le(s.drop_last(), model, tier);
    }
}

/// The indices of the snapshot entries in the tier, ascending.
fn collect_tier(snaps: &Vec<ServerSnapshot>, model: &str, tier: Tier) -> (r: Vec<usize>)
    ensures
        r@.len() == count_snap_cand(snaps@, model@, tier),
        r@.len() <= snaps@.len(),
        forall|t: int| 0 <= t < r@.len() ==> #[trigger] r@[t] < snaps@.len(),
        forall|t: int|
            0 <= t < r@.len() ==> is_snap_cand(snaps@[#[trigger] r@[t] as int], model@, tier),
        forall|a: int, b: int| 0 <= a < b < r@.len() ==> r@[a] < r@[b],
        forall|i: int|
            0 <= i < snaps@.len() && is_snap_cand(#[trigger] snaps@[i], model@, tier)
                ==> in_result(r@, i),
{
    let mut r: Vec<usize> = Vec::new();
    let mut i: usize = 0;
    while i < snaps.len()
        invariant
            0 <= i <= snaps@.len(),
            r@.len() == count_snap_cand(snaps@.subrange(0, i as int), model@, tier),
            forall|t: int| 0 <= t < r@.len() ==> #[trigger] r@[t] < i,
            forall|t: int|
                0 <= t < r@.len() ==> is_snap_cand(snaps@[#[trigger] r@[t] as int], model@, tier),
            forall|a: int, b: int| 0 <= a < b < r@.len() ==> r@[a] < r@[b],
            forall|j: int|
                0 <= j < i && is_snap_cand(#[trigger] snaps@[j], model@, tier) ==> in_result(
                    r@,
                    j,
                ),
        decreases snaps@.len() - i,
    {
        let ghost r0 = r@;
        let snap = &snaps[i];
        let cand: bool = match tier {
            Tier::Active => !matches!(snap.state.health, Health::Dead) && snapshot_has_name(
                &snap.models,
                model,
            ) && snapshot_has_name(&snap.actives, model),
            Tier::Inactive => !matches!(snap.state.health, Health::Dead) && snapshot_has_name(
                &snap.models,
                model,
            ) && !snapshot_has_name(&snap.actives, model),
            Tier::Resurrect => matches!(snap.state.health, Health::Dead),
        };
        if cand {
            r.push(i);
        }
        i = i + 1;
        proof {
            assert(snaps@.subrange(0, i as int).drop_last() =~= snaps@.subrange(0, i - 1));
            assert(snaps@.subrange(0, i as int).last() == snaps@[i - 1]);
            if cand {
                assert(r@ == r0.push((i - 1) as usize));
                assert(in_result(r@, i - 1)) by {
                    assert(r@[r0.len() as int] as int == i - 1);
                }
                assert forall|j: int|
                    0 <= j < i && is_snap_cand(#[trigger] snaps@[j], model@, tier) implies
                    in_result(r@, j) by {
                    if j < i - 1 {
                        let a = choose|a: int| 0 <= a < r0.len() && r0[a] as int == j;
                        assert(r@[a] as int == j);
                    }
                }
            } else {
                assert forall|j: int|
                    0 <= j < i && is_snap_cand(#[trigger] snaps@[j], model@, tier) implies
                    in_result(r@, j) by {
                    assert(j != i - 1);
                }
            }
        }
    }
    proof {
        assert(snaps@.subrange(0, i as int) =~= snaps@);
        lemma_count_cand_le(snaps@, model@, tier);
    }
    r
}

/// The sampling weight of a backend: its health score, or one tenth for a
/// dead backend (a dead weight the caller substitutes, since a weight must
/// be positive).
pub open spec fn spec_weight_of(h: Health) -> Weight {
    match h {
        Health::Healthy(s) => Weight { num: s.num, den: pow2(s.shift as nat) as u64 },
        Health::Dead => Weight { num: 1u64, den: 10u64 },
    }
}

pub proof fn lemma_weight_wf(h: Health)
    requires
        h.wf(),
    ensures
        spec_weight_of(h).wf(),
{
    match h {
        Health::Healthy(s) => {
            crate::health::lemma_wf_shift_bound(s);
            vstd::arithmetic::power2::lemma_pow2_pos(s.shift as nat);
            vstd::arithmetic::power2::lemma2_to64();
            vstd::arithmetic::power2::lemma_pow2_adds(32, 32);
            assert(pow2(s.shift as nat) <= s.num);
        },
        Health::Dead => {},
    }
}

/// The executable weight; exactly `spec_weight_of`.
pub fn weight_of_health(h: Health) -> (w: Weight)
    requires
        h.wf(),
    ensures
        w == spec_weight_of(h),
        w.wf(),
{
    proof {
        lemma_weight_wf(h);
    }
    match h {
        Health::Healthy(s) => {
            proof {
                crate::health::lemma_wf_shift_bound(s);
                vstd::bits::lemma_u64_shl_is_mul(1u64, s.shift);
            }
            let den: u64 = 1u64 << s.shift;
            Weight { num: s.num, den }
        },
        Health::Dead => Weight { num: 1, den: 10 },
    }
}

/// The weights of the source entries, in source order.
pub open spec fn source_weights(snaps: Seq<ServerSnapshot>, source: Seq<usize>) -> Seq<Weight> {
    Seq::new(source.len(), |i: int| spec_weight_of(snaps[source[i] as int].state.health))
}

/// Samples `count` of the `source` entries (indices into `snaps`) by
/// health weight: the Efraimidis–Spirakis draw over the supplied
/// exponential variates. Returns positions into `source`, ascending by
/// sampling key.
pub fn sample_by_health(
    snaps: &Vec<ServerSnapshot>,
    source: &Vec<usize>,
    count: usize,
    draws: &Vec<u64>,
) -> (r: Vec<usize>)
    requires
        forall|i: int| 0 <= i < source@.len() ==> #[trigger] source@[i] < snaps@.len(),
        forall|i: int| 0 <= i < snaps@.len() ==> (#[trigger] snaps@[i]).state.health.wf(),
        draws@.len() >= source@.len(),
    ensures
        is_es_selection(
            draws@.subrange(0, source@.len() as int),
            source_weights(snaps@, source@),
            count as int,
            r@,
        ),
{
    let n: usize = source.len();
    let mut ws: Vec<Weight> = Vec::new();
    let mut dr: Vec<u64> = Vec::new();
    let mut i: usize = 0;
    while i < n
        invariant
            0 <= i <= n,
            n == source@.len(),
            draws@.len() >= n,
            forall|t: int| 0 <= t < source@.len() ==> #[trigger] source@[t] < snaps@.len(),
            forall|t: int| 0 <= t < snaps@.len() ==> (#[trigger] snaps@[t]).state.health.wf(),
            ws@.len() == i,
            dr@.len() == i,
            forall|t: int| 0 <= t < i ==> #[trigger] ws@[t] == source_weights(snaps@, source@)[t],
            forall|t: int| 0 <= t < i ==> #[trigger] dr@[t] == draws@[t],
            forall|t: int| 0 <= t < i ==> (#[trigger] ws@[t]).wf(),
        decreases n - i,
    {
        let s: usize = source[i];
        ws.push(weight_of_health(snaps[s].state.health));
        dr.push(draws[i]);
        i = i + 1;
    }
    let r = efraimidis_spirakis_sample(&ws, count, &dr);
    proof {
        assert(ws@ =~= source_weights(snaps@, source@));
        assert(dr@ =~= draws@.subrange(0, source@.len() as int));
    }
    r
}

/// A contiguous copy of `draws[start .. start + len]`.
fn vec_segment(draws: &Vec<u64>, start: usize, len: usize) -> (r: Vec<u64>)
    requires
        start + len <= draws@.len(),
    ensures
        r@ == draws@.subrange(start as int, start + len),
{
    let dl: usize = draws.len();
    let mut r: Vec<u64> = Vec::new();
    let mut i: usize = 0;
    while i < len
        invariant
            0 <= i <= len,
            start + len <= draws@.len(),
            draws@.len() == dl,
            r@.len() == i,
            forall|t: int| 0 <= t < i ==> #[trigger] r@[t] == draws@[start + t],
        decreases len - i,
    {
        r.push(draws[start + i]);
        i = i + 1;
    }
    proof {
        assert(r@ =~= draws@.subrange(start as int, start + len));
    }
    r
}

/// Takes the whole source when it fits within `count` (in source order),
/// otherwise samples `count` of it by health weight (in key order).
/// Returns indices into `snaps`.
fn pick_from(
    snaps: &Vec<ServerSnapshot>,
    source: &Vec<usize>,
    count: usize,
    draws: &Vec<u64>,
) -> (r: Vec<usize>)
    requires
        forall|i: int| 0 <= i < source@.len() ==> #[trigger] source@[i] < snaps@.len(),
        forall|i: int| 0 <= i < snaps@.len() ==> (#[trigger] snaps@[i]).state.health.wf(),
        forall|a: int, b: int| 0 <= a < b < source@.len() ==> source@[a] != source@[b],
        draws@.len() >= source@.len(),
    ensures
        r@.len() == (if count <= source@.len() {
            count as int
        } else {
            source@.len() as int
        }),
        forall|t: int| 0 <= t < r@.len() ==> in_result(source@, #[trigger] r@[t] as int),
        forall|a: int, b: int| 0 <= a < b < r@.len() ==> r@[a] != r@[b],
        source@.len() <= count ==> r@ == source@,
{
    if source.len() <= count {
        let mut r: Vec<usize> = Vec::new();
        let mut t: usize = 0;
        while t < source.len()
            invariant
                0 <= t <= source@.len(),
                r@.len() == t,
                forall|u: int| 0 <= u < t ==> #[trigger] r@[u] == source@[u],
            decreases source@.len() - t,
        {
            r.push(source[t]);
            t = t + 1;
        }
        proof {
            assert(r@ =~= source@);
            assert forall|u: int| 0 <= u < r@.len() implies in_result(
                source@,
                #[trigger] r@[u] as int,
            ) by {
                assert(source@[u] as int == r@[u] as int);
            }
        }
        r
    } else {
        let pos = sample_by_health(snaps, source, count, draws);
        proof {
            lemma_es_selection_distinct(
                draws@.subrange(0, source@.len() as int),
                source_weights(snaps@, source@),
                count as int,
                pos@,
            );
        }
        let mut r: Vec<usize> = Vec::new();
        let mut t: usize = 0;
        while t < pos.len()
            invariant
                0 <= t <= pos@.len(),
                forall|u: int| 0 <= u < pos@.len() ==> #[trigger] pos@[u] < source@.len(),
                forall|a: int, b: int| 0 <= a < b < pos@.len() ==> pos@[a] != pos@[b],
                forall|a: int, b: int| 0 <= a < b < source@.len() ==> source@[a] != source@[b],
                r@.len() == t,
                forall|u: int| 0 <= u < t ==> #[trigger] r@[u] == source@[pos@[u] as int],
            decreases pos@.len() - t,
        {
            r.push(source[pos[t]]);
            t = t + 1;
        }
        proof {
            assert forall|u: int| 0 <= u < r@.len() implies in_result(
                source@,
                #[trigger] r@[u] as int,
            ) by {
                assert(source@[pos@[u] as int] as int == r@[u] as int);
            }
            assert forall|a: int, b: int| 0 <= a < b < r@.len() implies r@[a] != r@[b] by {
                let pa = pos@[a] as int;
                let pb = pos@[b] as int;
                assert(pa != pb);
                if pa < pb {
                    assert(source@[pa] != source@[pb]);
                } else {
                    assert(source@[pb] != source@[pa]);
                }
            }
        }
        r
    }
}

/// Whether `a` is the address of a backend that is dead or carries the
/// model.
pub open spec fn covered_addr(servers: Seq<RegistryEntry>, model: Seq<char>, a: Seq<char>) -> bool {
    exists|i: int|
        0 <= i < servers.len() && (#[trigger] servers[i]).address@ == a && (
        servers[i].server.state.health is Dead || servers[i].server.has_model(model))
}

/// Whether `a` is the address of some registry backend.
pub open spec fn addr_in_registry(servers: Seq<RegistryEntry>, a: Seq<char>) -> bool {
    exists|i: int| 0 <= i < servers.len() && (#[trigger] servers[i]).address@ == a
}

/// Every selected address belongs to a registry backend that is either
/// dead (the resurrection tier) or alive and carrying the model.
pub open spec fn selection_covered(
    servers: Seq<RegistryEntry>,
    model: Seq<char>,
    r: Seq<String>,
) -> bool {
    forall|t: int| 0 <= t < r.len() ==> covered_addr(servers, model, (#[trigger] r[t])@)
}

/// Every selected address is the address of some registry backend.
pub open spec fn addresses_from(servers: Seq<RegistryEntry>, r: Seq<String>) -> bool {
    forall|t: int| 0 <= t < r.len() ==> addr_in_registry(servers, (#[trigger] r[t])@)
}

/// A covered selection in particular draws its addresses from the
/// registry.
pub proof fn lemma_covered_addresses(
    servers: Seq<RegistryEntry>,
    model: Seq<char>,
    r: Seq<String>,
)
    requires
        selection_covered(servers, model, r),
    ensures
        addresses_from(servers, r),
{
    assert forall|t: int| 0 <= t < r.len() implies addr_in_registry(
        servers,
        (#[trigger] r[t])@,
    ) by {
        assert(covered_addr(servers, model, (r[t])@));
        let i = choose|i: int|
            0 <= i < servers.len() && (#[trigger] servers[i]).address@ == (r[t])@ && (
            servers[i].server.state.health is Dead || servers[i].server.has_model(model));
        assert(0 <= i < servers.len() && servers[i].address@ == (r[t])@);
    }
}

/// How many active-tier backends are taken: all of them, capped at
/// `maxp`.
pub open spec fn spec_tier_a_len(na: int, maxp: int) -> int {
    if na <= maxp {
        na
    } else {
        maxp
    }
}

/// How many inactive-tier backends top the shortlist up: only while the
/// active picks fall short of the floor `minp`.
pub open spec fn spec_tier_b_len(na: int, nb: int, minp: int, maxp: int) -> int {
    let asel = spec_tier_a_len(na, maxp);
    if asel < minp {
        if nb <= minp - asel {
            nb
        } else {
            minp - asel
        }
    } else {
        0int
    }
}

/// How many dead backends the resurrection budget draws in.
pub open spec fn spec_tier_c_len(na: int, nb: int, nd: int, minp: int, maxp: int, rn: int) -> int {
    let ab = spec_tier_a_len(na, maxp) + spec_tier_b_len(na, nb, minp, maxp);
    let budget = rn + (if ab < minp {
        minp - ab
    } else {
        0int
    });
    if budget > 0 {
        if nd <= budget {
            nd
        } else {
            budget
        }
    } else {
        0int
    }
}

/// The exact size of the shortlist, given the tier sizes `na`, `nb`, `nd`
/// and the effective floor `minp`, cap `maxp` and reserved resurrection
/// slots `rn`.
pub open spec fn spec_selected_len(
    na: int,
    nb: int,
    nd: int,
    minp: int,
    maxp: int,
    rn: int,
) -> int {
    spec_tier_a_len(na, maxp) + spec_tier_b_len(na, nb, minp, maxp) + spec_tier_c_len(
        na,
        nb,
        nd,
        minp,
        maxp,
        rn,
    )
}

/// Whether `a` is the address of a backend in the given tier.
pub open spec fn tier_addr(
    servers: Seq<RegistryEntry>,
    model: Seq<char>,
    tier: Tier,
    a: Seq<char>,
) -> bool {
    exists|i: int|
        0 <= i < servers.len() && (#[trigger] servers[i]).address@ == a && is_server_cand(
            servers[i],
            model,
            tier,
        )
}

/// Builds the shortlist of backend addresses for `model`.
///
/// `resurrect_roll` is the caller's Bernoulli draw (true with the
/// configured resurrection probability); when it fires, `resurrect_n`
/// slots are reserved for dead backends. `draws` supplies one
/// unit-exponential fixed-point variate per backend and tier (three
/// segments of the registry's size, in tier order).
///
/// The contract pins the shortlist's exact size; that its addresses are
/// pairwise distinct; that every selected backend is either dead (the
/// resurrection tier) or alive and carrying the model; and that whenever
/// the active tier fits under the cap, every active backend is included.
#[verifier::rlimit(100)]
pub fn select_servers(
    servers: &Registry,
    model: &str,
    opts: &SelOpt,
    resurrect_roll: bool,
    draws: &Vec<u64>,
) -> (r: Vec<String>)
    requires
        servers.wf(),
        opts.resurrect_n <= opts.count.0 <= opts.count.1,
        draws@.len() >= 3 * servers@.len(),
    ensures
        ({
            let rn = if resurrect_roll {
                opts.resurrect_n as int
            } else {
                0int
            };
            let na = count_server_cand(servers@, model@, Tier::Active);
            let nb = count_server_cand(servers@, model@, Tier::Inactive);
            let nd = count_server_cand(servers@, model@, Tier::Resurrect);
            r@.len() == spec_selected_len(
                na,
                nb,
                nd,
                opts.count.0 - rn,
                opts.count.1 - rn,
                rn,
            )
        }),
        r@.len() <= opts.count.1,
        forall|t1: int, t2: int|
            0 <= t1 < t2 < r@.len() ==> (#[trigger] r@[t1])@ != (#[trigger] r@[t2])@,
        selection_covered(servers@, model@, r@),
        ({
            let rn = if resurrect_roll {
                opts.resurrect_n as int
            } else {
                0int
            };
            let na = count_server_cand(servers@, model@, Tier::Active);
            na <= opts.count.1 - rn ==> forall|i: int|
                0 <= i < servers@.len() && is_server_cand(
                    #[trigger] servers@[i],
                    model@,
                    Tier::Active,
                ) ==> exists|t: int| 0 <= t < r@.len() && (r@[t])@ == servers@[i].address@
        }),
        ({
            // Tier order: the shortlist is the active picks, then the
            // inactive top-up, then the resurrection picks.
            let rn = if resurrect_roll {
                opts.resurrect_n as int
            } else {
                0int
            };
            let na = count_server_cand(servers@, model@, Tier::Active);
            let nb = count_server_cand(servers@, model@, Tier::Inactive);
            let asel = spec_tier_a_len(na, opts.count.1 - rn);
            let bsel = spec_tier_b_len(na, nb, opts.count.0 - rn, opts.count.1 - rn);
            forall|t: int|
                0 <= t < r@.len() ==> tier_addr(
                    servers@,
                    model@,
                    if t < asel {
                        Tier::Active
                    } else if t < asel + bsel {
                        Tier::Inactive
                    } else {
                        Tier::Resurrect
                    },
                    (#[trigger] r@[t])@,
                )
        }),
{
    let rn: usize = if resurrect_roll {
        opts.resurrect_n
    } else {
        0
    };
    let min_sel: usize = opts.count.0 - rn;
    let max_sel: usize = opts.count.1 - rn;
    let snaps = snapshot_servers(servers, false);
    let n: usize = snaps.len();
    let dl: usize = draws.len();
    proof {
        assert(n + n + n <= dl);
    }

    proof {
        assert forall|i: int| 0 <= i < snaps@.len() implies {
            &&& (is_snap_cand(#[trigger] snaps@[i], model@, Tier::Active) <==> is_server_cand(
                servers@[i],
                model@,
                Tier::Active,
            ))
            &&& (is_snap_cand(snaps@[i], model@, Tier::Inactive) <==> is_server_cand(
                servers@[i],
                model@,
                Tier::Inactive,
            ))
            &&& (is_snap_cand(snaps@[i], model@, Tier::Resurrect) <==> is_server_cand(
                servers@[i],
                model@,
                Tier::Resurrect,
            ))
            &&& snaps@[i].state.health.wf()
        } by {
            lemma_snap_names_match(snaps@[i].models@, servers@[i].server.models@, false);
            lemma_snap_names_match(snaps@[i].actives@, servers@[i].server.actives@, false);
            assert(servers@[i].server.wf());
        }
        lemma_count_cand_eq(snaps@, servers@, model@, Tier::Active);
        lemma_count_cand_eq(snaps@, servers@, model@, Tier::Inactive);
        lemma_count_cand_eq(snaps@, servers@, model@, Tier::Resurrect);
    }

    let ghost na = count_server_cand(servers@, model@, Tier::Active);
    let ghost nb = count_server_cand(servers@, model@, Tier::Inactive);
    let ghost nd = count_server_cand(servers@, model@, Tier::Resurrect);

    // Tier A: backends with the model active.
    let seg_a = vec_segment(draws, 0, n);
    let actives = collect_tier(&snaps, model, Tier::Active);
    let sel_a = pick_from(&snaps, &actives, max_sel, &seg_a);
    let num_a: usize = sel_a.len();
    proof {
        assert forall|u: int| 0 <= u < sel_a@.len() implies #[trigger] sel_a@[u] < snaps@.len()
            && is_snap_cand(snaps@[sel_a@[u] as int], model@, Tier::Active) by {
            assert(in_result(actives@, sel_a@[u] as int));
            let s = choose|s: int|
                0 <= s < actives@.len() && actives@[s] as int == sel_a@[u] as int;
            assert(is_snap_cand(snaps@[actives@[s] as int], model@, Tier::Active));
        }
    }

    // Tier B: alive backends that carry the model but have it inactive,
    // only to reach the floor.
    let mut sel_b: Vec<usize> = Vec::new();
    if num_a < min_sel {
        let inactives = collect_tier(&snaps, model, Tier::Inactive);
        let seg_b = vec_segment(draws, n, n);
        sel_b = pick_from(&snaps, &inactives, min_sel - num_a, &seg_b);
        proof {
            assert forall|u: int| 0 <= u < sel_b@.len() implies #[trigger] sel_b@[u]
                < snaps@.len() && is_snap_cand(snaps@[sel_b@[u] as int], model@, Tier::Inactive) by {
                assert(in_result(inactives@, sel_b@[u] as int));
                let s = choose|s: int|
                    0 <= s < inactives@.len() && inactives@[s] as int == sel_b@[u] as int;
                assert(is_snap_cand(snaps@[inactives@[s] as int], model@, Tier::Inactive));
            }
            assert(sel_b@.len() == (if nb <= min_sel - num_a {
                nb
            } else {
                min_sel - num_a
            }));
        }
    }
    proof {
        assert forall|u: int| 0 <= u < sel_b@.len() implies #[trigger] sel_b@[u] < snaps@.len()
            && is_snap_cand(snaps@[sel_b@[u] as int], model@, Tier::Inactive) by {}
        assert(sel_b@.len() == (if num_a < min_sel {
            if nb <= min_sel - num_a {
                nb
            } else {
                min_sel - num_a as int
            }
        } else {
            0int
        }));
    }
    let num_ab: usize = num_a + sel_b.len();

    // Tier C: dead backends, when resurrection fired or the floor is
    // still unmet.
    let mut budget: usize = rn;
    if num_ab < min_sel {
        budget = rn + (min_sel - num_ab);
    }
    let mut sel_c: Vec<usize> = Vec::new();
    if budget > 0 {
        let deads = collect_tier(&snaps, model, Tier::Resurrect);
        let seg_c = vec_segment(draws, n + n, n);
        let pos = sample_by_health(&snaps, &deads, budget, &seg_c);
        proof {
            lemma_es_selection_distinct(
                seg_c@.subrange(0, deads@.len() as int),
                source_weights(snaps@, deads@),
                budget as int,
                pos@,
            );
        }
        let mut t: usize = 0;
        while t < pos.len()
            invariant
                0 <= t <= pos@.len(),
                forall|u: int| 0 <= u < pos@.len() ==> #[trigger] pos@[u] < deads@.len(),
                forall|a: int, b: int| 0 <= a < b < pos@.len() ==> pos@[a] != pos@[b],
                forall|a: int, b: int| 0 <= a < b < deads@.len() ==> deads@[a] != deads@[b],
                forall|u: int| 0 <= u < deads@.len() ==> #[trigger] deads@[u] < snaps@.len(),
                forall|u: int|
                    0 <= u < deads@.len() ==> is_snap_cand(
                        snaps@[#[trigger] deads@[u] as int],
                        model@,
                        Tier::Resurrect,
                    ),
                sel_c@.len() == t,
                forall|u: int| 0 <= u < t ==> #[trigger] sel_c@[u] == deads@[pos@[u] as int],
            decreases pos@.len() - t,
        {
            sel_c.push(deads[pos[t]]);
            t = t + 1;
        }
        proof {
            assert forall|a: int, b: int| 0 <= a < b < sel_c@.len() implies sel_c@[a]
                != sel_c@[b] by {
                let pa = pos@[a] as int;
                let pb = pos@[b] as int;
                assert(pa != pb);
                if pa < pb {
                    assert(deads@[pa] != deads@[pb]);
                } else {
                    assert(deads@[pb] != deads@[pa]);
                }
            }
            assert(sel_c@.len() == (if nd <= budget as int {
                nd
            } else {
                budget as int
            }));
            assert forall|u: int| 0 <= u < sel_c@.len() implies #[trigger] sel_c@[u]
                < snaps@.len() && is_snap_cand(snaps@[sel_c@[u] as int], model@, Tier::Resurrect) by {
                assert(sel_c@[u] == deads@[pos@[u] as int]);
            }
        }
    }
    proof {
        assert forall|u: int| 0 <= u < sel_c@.len() implies #[trigger] sel_c@[u] < snaps@.len()
            && is_snap_cand(snaps@[sel_c@[u] as int], model@, Tier::Resurrect) by {}
        assert(sel_c@.len() == (if budget > 0 {
            if nd <= budget as int {
                nd
            } else {
                budget as int
            }
        } else {
            0int
        }));
    }

    let ghost la = sel_a@.len() as int;
    let ghost lb = sel_b@.len() as int;
    let ghost lc = sel_c@.len() as int;

    // Flatten the tiers into addresses, preserving tier order.
    let mut out: Vec<String> = Vec::new();
    let mut t: usize = 0;
    while t < sel_a.len()
        invariant
            0 <= t <= sel_a@.len(),
            forall|u: int| 0 <= u < sel_a@.len() ==> #[trigger] sel_a@[u] < snaps@.len(),
            out@.len() == t,
            forall|u: int|
                0 <= u < t ==> (#[trigger] out@[u])@ == snaps@[sel_a@[u] as int].address@,
        decreases sel_a@.len() - t,
    {
        out.push(snaps[sel_a[t]].address.clone());
        t = t + 1;
    }
    let mut t2: usize = 0;
    while t2 < sel_b.len()
        invariant
            0 <= t2 <= sel_b@.len(),
            forall|u: int| 0 <= u < sel_a@.len() ==> #[trigger] sel_a@[u] < snaps@.len(),
            forall|u: int| 0 <= u < sel_b@.len() ==> #[trigger] sel_b@[u] < snaps@.len(),
            out@.len() == sel_a@.len() + t2,
            forall|u: int|
                0 <= u < sel_a@.len() ==> (#[trigger] out@[u])@ == snaps@[sel_a@[u] as int].address@,
            forall|u: int|
                0 <= u < t2 ==> (#[trigger] out@[sel_a@.len() + u])@ == snaps@[sel_b@[u] as int].address@,
        decreases sel_b@.len() - t2,
    {
        out.push(snaps[sel_b[t2]].address.clone());
        t2 = t2 + 1;
    }
    let mut t3: usize = 0;
    while t3 < sel_c.len()
        invariant
            0 <= t3 <= sel_c@.len(),
            forall|u: int| 0 <= u < sel_a@.len() ==> #[trigger] sel_a@[u] < snaps@.len(),
            forall|u: int| 0 <= u < sel_b@.len() ==> #[trigger] sel_b@[u] < snaps@.len(),
            forall|u: int| 0 <= u < sel_c@.len() ==> #[trigger] sel_c@[u] < snaps@.len(),
            out@.len() == sel_a@.len() + sel_b@.len() + t3,
            forall|u: int|
                0 <= u < sel_a@.len() ==> (#[trigger] out@[u])@ == snaps@[sel_a@[u] as int].address@,
            forall|u: int|
                0 <= u < sel_b@.len() ==> (#[trigger] out@[sel_a@.len() + u])@
                    == snaps@[sel_b@[u] as int].address@,
            forall|u: int|
                0 <= u < t3 ==> (#[trigger] out@[sel_a@.len() + sel_b@.len() + u])@
                    == snaps@[sel_c@[u] as int].address@,
        decreases sel_c@.len() - t3,
    {
        out.push(snaps[sel_c[t3]].address.clone());
        t3 = t3 + 1;
    }

    proof {
        let lo = out@.len() as int;
        assert(lo == la + lb + lc);
        // Which snapshot index stands at each output position.
        let idx_at = |u: int|
            if u < la {
                sel_a@[u] as int
            } else if u < la + lb {
                sel_b@[u - la] as int
            } else {
                sel_c@[u - la - lb] as int
            };
        assert forall|u: int| 0 <= u < lo implies {
            &&& 0 <= idx_at(u) < snaps@.len()
            &&& (out@[u])@ == snaps@[idx_at(u)].address@
            &&& is_snap_cand(
                snaps@[idx_at(u)],
                model@,
                if u < la {
                    Tier::Active
                } else if u < la + lb {
                    Tier::Inactive
                } else {
                    Tier::Resurrect
                },
            )
        } by {
            if u < la {
            } else if u < la + lb {
                assert(out@[u] == out@[sel_a@.len() + (u - la)]);
            } else {
                assert(out@[u] == out@[sel_a@.len() + sel_b@.len() + (u - la - lb)]);
            }
        }
        // No two positions share a snapshot index: same tier gives the
        // tier's own distinctness, different tiers exclude each other.
        assert forall|u1: int, u2: int| 0 <= u1 < u2 < lo implies #[trigger] idx_at(u1)
            != #[trigger] idx_at(u2) by {
            let i1 = idx_at(u1);
            let i2 = idx_at(u2);
            if u1 < la && u2 < la {
                assert(sel_a@[u1] != sel_a@[u2]);
            } else if la <= u1 < la + lb && la <= u2 < la + lb {
                assert(sel_b@[u1 - la] != sel_b@[u2 - la]);
            } else if la + lb <= u1 && la + lb <= u2 {
                assert(sel_c@[u1 - la - lb] != sel_c@[u2 - la - lb]);
            } else if i1 == i2 {
                // Two different tiers would have to agree on one backend.
                assert(false);
            }
        }
        // Distinct indices carry distinct addresses.
        assert forall|u1: int, u2: int| 0 <= u1 < u2 < lo implies (#[trigger] out@[u1])@ != (
        #[trigger] out@[u2])@ by {
            let i1 = idx_at(u1);
            let i2 = idx_at(u2);
            assert(i1 != i2);
            if i1 < i2 {
                assert(servers@[i1].address@ != servers@[i2].address@);
            } else {
                assert(servers@[i2].address@ != servers@[i1].address@);
            }
        }
        // Every selected backend is dead (resurrection tier) or alive and
        // carrying the model.
        assert forall|t: int| 0 <= t < lo implies covered_addr(
            servers@,
            model@,
            (#[trigger] out@[t])@,
        ) by {
            let i = idx_at(t);
            assert(servers@[i].address@ == (out@[t])@);
            assert(servers@[i].server.state.health is Dead || servers@[i].server.has_model(
                model@,
            ));
        }
        assert(selection_covered(servers@, model@, out@));
        // The exact size.
        let rn_g = if resurrect_roll {
            opts.resurrect_n as int
        } else {
            0int
        };
        assert(lo == spec_selected_len(
            na,
            nb,
            nd,
            opts.count.0 - rn_g,
            opts.count.1 - rn_g,
            rn_g,
        ));
        assert(lo <= opts.count.1);
        // Tier order: each position's backend belongs to its segment's
        // tier.
        assert(la == spec_tier_a_len(na, opts.count.1 - rn_g));
        assert(lb == spec_tier_b_len(na, nb, opts.count.0 - rn_g, opts.count.1 - rn_g));
        assert forall|t: int| 0 <= t < lo implies tier_addr(
            servers@,
            model@,
            if t < la {
                Tier::Active
            } else if t < la + lb {
                Tier::Inactive
            } else {
                Tier::Resurrect
            },
            (#[trigger] out@[t])@,
        ) by {
            let i = idx_at(t);
            assert(servers@[i].address@ == (out@[t])@);
        }
        // When the active tier fits under the cap, all of it is taken.
        if na <= opts.count.1 - rn_g {
            assert(actives@.len() == na);
            assert(sel_a@ == actives@);
            assert forall|i: int|
                0 <= i < servers@.len() && is_server_cand(
                    #[trigger] servers@[i],
                    model@,
                    Tier::Active,
                ) implies exists|t: int|
                0 <= t < out@.len() && (out@[t])@ == servers@[i].address@ by {
                assert(is_snap_cand(snaps@[i], model@, Tier::Active));
                assert(in_result(actives@, i));
                let s = choose|s: int| 0 <= s < actives@.len() && actives@[s] as int == i;
                assert((out@[s])@ == snaps@[sel_a@[s] as int].address@);
                assert(sel_a@[s] as int == i);
                assert((out@[s])@ == servers@[i].address@);
            }
        }
    }
    out
}

} // verus!


use ollama_balancer::config::ServerConfig;
use ollama_balancer::health::{Health, Score};
use ollama_balancer::registry::{add_server, mark_server_healthy, sync_server, ModelConfig, Registry};
use ollama_balancer::sample::{efraimidis_spirakis_sample, Weight};
use ollama_balancer::select::{sample_by_health, select_servers, SelOpt};
use ollama_balancer::registry::snapshot_servers;

fn model(name: &str) -> ModelConfig {
    ModelConfig { name: name.to_string(), detail: "{}".to_string() }
}

fn add(reg: &mut Registry, addr: &str, name: &str) {
    add_server(reg, &ServerConfig { address: addr.to_string(), name: name.to_string() });
}

fn opts() -> SelOpt {
    SelOpt { count: (3, 6), resurrect_n: 1 }
}

fn tape(n: usize) -> Vec<u64> {
    // Distinct, increasing pseudo-draws: enough for three tiers.
    (0..3 * n as u64).map(|i| 1000 + 37 * i).collect()
}

#[test]
fn efraimidis_spirakis_sample_takes_smallest_keys_in_order() {
    // Equal weights: keys equal the draws, so selection follows the draws.
    let ws = vec![Weight { num: 1, den: 1 }; 4];
    let draws = vec![40, 10, 30, 20];
    assert_eq!(efraimidis_spirakis_sample(&ws, 2, &draws), vec![1, 3]);
    assert_eq!(efraimidis_spirakis_sample(&ws, 10, &draws), vec![1, 3, 2, 0]);
    assert_eq!(efraimidis_spirakis_sample(&ws, 0, &draws), Vec::<usize>::new());
}

#[test]
fn efraimidis_spirakis_sample_divides_by_weight() {
    // Key = draw * den / num: a heavier weight shrinks the key.
    let ws = vec![Weight { num: 10, den: 1 }, Weight { num: 1, den: 1 }];
    let draws = vec![50, 20];
    // Keys: 5 and 20, so the heavy first entry wins despite the larger draw.
    assert_eq!(efraimidis_spirakis_sample(&ws, 1, &draws), vec![0]);
}

#[test]
fn efraimidis_spirakis_sample_breaks_key_ties_by_index() {
    let ws = vec![Weight { num: 1, den: 1 }; 3];
    let draws = vec![7, 7, 7];
    assert_eq!(efraimidis_spirakis_sample(&ws, 2, &draws), vec![0, 1]);
}

#[test]
fn sample_by_health_uses_the_dead_weight_for_dead_backends() {
    let mut reg = Registry::new();
    add(&mut reg, "http://a", "A");
    add(&mut reg, "http://b", "B");
    mark_server_healthy(&mut reg, "http://b", Score::from_whole(1));
    let snaps = snapshot_servers(&reg, false);
    // Keys: dead a gets draw*10, healthy b gets draw*1.
    let picked = sample_by_health(&snaps, &vec![0, 1], 1, &vec![5, 40]);
    assert_eq!(picked, vec![1]);
}

#[test]
fn selector_only_offers_backends_carrying_the_model() {
    // A carries m1, B carries m2: asking for m2 returns only B.
    let mut reg = Registry::new();
    add(&mut reg, "http://a", "A");
    add(&mut reg, "http://b", "B");
    sync_server(&mut reg, "http://a", Some((vec![model("m1")], vec![model("m1")])));
    sync_server(&mut reg, "http://b", Some((vec![model("m2")], vec![model("m2")])));
    let out = select_servers(&reg, "m2", &opts(), false, &tape(2));
    assert_eq!(out, vec!["http://b".to_string()]);
}

#[test]
fn selector_tops_up_with_inactive_backends() {
    // All three carry m1 but none has it active: the floor of three pulls
    // them all in, in snapshot order.
    let mut reg = Registry::new();
    for (a, n) in [("http://a", "A"), ("http://b", "B"), ("http://c", "C")] {
        add(&mut reg, a, n);
        sync_server(&mut reg, a, Some((vec![model("m1")], vec![])));
    }
    let out = select_servers(&reg, "m1", &opts(), false, &tape(3));
    assert_eq!(
        out,
        vec!["http://a".to_string(), "http://b".to_string(), "http://c".to_string()]
    );
}

#[test]
fn selector_never_exceeds_the_cap() {
    let mut reg = Registry::new();
    for i in 0..10 {
        let addr = format!("http://s{}:11434", i);
        add(&mut reg, &addr, "S");
        sync_server(&mut reg, &addr, Some((vec![model("m1")], vec![model("m1")])));
    }
    let out = select_servers(&reg, "m1", &opts(), false, &tape(10));
    assert_eq!(out.len(), 6);
    let out = select_servers(&reg, "m1", &opts(), true, &tape(10));
    assert!(out.len() <= 6);
}

#[test]
fn selector_output_has_no_duplicates() {
    let mut reg = Registry::new();
    for (a, n) in [("http://a", "A"), ("http://b", "B"), ("http://c", "C")] {
        add(&mut reg, a, n);
        sync_server(&mut reg, a, Some((vec![model("m1")], vec![model("m1")])));
    }
    let out = select_servers(&reg, "m1", &opts(), true, &tape(3));
    for i in 0..out.len() {
        for j in i + 1..out.len() {
            assert_ne!(out[i], out[j]);
        }
    }
}

#[test]
fn resurrection_draw_reaches_dead_backends() {
    // Every backend dead and the resurrection draw fired: the floor pulls
    // dead backends in so one of them can be probed back to life.
    let mut reg = Registry::new();
    for (a, n) in [("http://a", "A"), ("http://b", "B"), ("http://c", "C")] {
        add(&mut reg, a, n);
    }
    let out = select_servers(&reg, "m1", &opts(), true, &tape(3));
    assert!(!out.is_empty());
    for addr in &out {
        assert!(["http://a", "http://b", "http://c"].contains(&addr.as_str()));
    }
    // Without the draw, the floor alone still resurrects.
    let out = select_servers(&reg, "m1", &opts(), false, &tape(3));
    assert!(!out.is_empty());
}

#[test]
fn selector_with_nothing_returns_empty() {
    let reg = Registry::new();
    let out = select_servers(&reg, "m1", &opts(), true, &tape(0));
    assert!(out.is_empty());
    // One alive backend without the model is never selected.
    let mut reg = Registry::new();
    add(&mut reg, "http://a", "A");
    sync_server(&mut reg, "http://a", Some((vec![model("other")], vec![])));
    let out = select_servers(&reg, "m1", &opts(), false, &tape(1));
    assert!(out.is_empty());
    assert_eq!(
        reg.entries[0].server.state.health,
        Health::Healthy(Score { num: 1, shift: 0 })
    );
}

#[test]
fn shortlist_orders_active_then_inactive_then_resurrect() {
    // One backend with m1 active, one carrying it inactive, one dead:
    // the floor of three pulls all in, in tier order.
    let mut reg = Registry::new();
    add(&mut reg, "http://active", "A");
    add(&mut reg, "http://inactive", "B");
    add(&mut reg, "http://dead", "C");
    sync_server(&mut reg, "http://active", Some((vec![model("m1")], vec![model("m1")])));
    sync_server(&mut reg, "http://inactive", Some((vec![model("m1")], vec![])));
    let out = select_servers(&reg, "m1", &opts(), false, &tape(3));
    assert_eq!(
        out,
        vec![
            "http://active".to_string(),
            "http://inactive".to_string(),
            "http://dead".to_string()
        ]
    );
}

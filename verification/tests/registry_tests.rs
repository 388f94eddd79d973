use ollama_balancer::config::{validate_servers, ConfigError, ServerConfig};
use ollama_balancer::health::{Health, Score};
use ollama_balancer::registry::{
    add_server, mark_server_dead, mark_server_healthy, mark_server_less_healthy,
    mark_server_more_healthy, snapshot_servers, sync_server, ModelConfig, Registry,
};

fn cfg(address: &str, name: &str) -> ServerConfig {
    ServerConfig { address: address.to_string(), name: name.to_string() }
}

fn model(name: &str, detail: &str) -> ModelConfig {
    ModelConfig { name: name.to_string(), detail: detail.to_string() }
}

#[test]
fn add_distinct_keeps_insertion_order() {
    // Adding N distinct configs gives size N in insertion order.
    let mut reg = Registry::new();
    add_server(&mut reg, &cfg("http://a:11434", "A"));
    add_server(&mut reg, &cfg("http://b:11434", "B"));
    add_server(&mut reg, &cfg("http://c:11434", "C"));
    assert_eq!(reg.len(), 3);
    assert_eq!(reg.entries[0].address, "http://a:11434");
    assert_eq!(reg.entries[1].address, "http://b:11434");
    assert_eq!(reg.entries[2].address, "http://c:11434");
    // A fresh backend starts dead, idle and reliable, with empty maps.
    assert_eq!(reg.entries[0].server.state.health, Health::Dead);
    assert!(!reg.entries[0].server.state.busy);
    assert!(reg.entries[0].server.models.is_empty());
}

#[test]
fn duplicate_add_updates_name_in_place() {
    let mut reg = Registry::new();
    add_server(&mut reg, &cfg("http://a:11434", "A"));
    add_server(&mut reg, &cfg("http://b:11434", "B"));
    add_server(&mut reg, &cfg("http://a:11434", "Anew"));
    assert_eq!(reg.len(), 2);
    assert_eq!(reg.entries[0].address, "http://a:11434");
    assert_eq!(reg.entries[0].server.name, "Anew");
    assert_eq!(reg.entries[1].server.name, "B");
}

#[test]
fn marking_changes_only_the_target() {
    let mut reg = Registry::new();
    add_server(&mut reg, &cfg("http://a:11434", "A"));
    add_server(&mut reg, &cfg("http://b:11434", "B"));
    mark_server_healthy(&mut reg, "http://a:11434", Score::from_whole(1));
    assert_eq!(reg.entries[0].server.state.health, Health::Healthy(Score { num: 1, shift: 0 }));
    assert_eq!(reg.entries[1].server.state.health, Health::Dead);
    mark_server_more_healthy(&mut reg, "http://a:11434", true);
    assert_eq!(reg.entries[0].server.state.health, Health::Healthy(Score { num: 5, shift: 0 }));
    mark_server_less_healthy(&mut reg, "http://a:11434");
    assert_eq!(reg.entries[0].server.state.health, Health::Healthy(Score { num: 5, shift: 1 }));
    mark_server_dead(&mut reg, "http://a:11434");
    assert_eq!(reg.entries[0].server.state.health, Health::Dead);
    // An unknown address is a no-op.
    mark_server_more_healthy(&mut reg, "http://zzz:1", true);
    assert_eq!(reg.len(), 2);
}

#[test]
fn sync_success_sets_health_one_and_dedups_models() {
    let mut reg = Registry::new();
    add_server(&mut reg, &cfg("http://a:11434", "A"));
    let models = vec![
        model("m1", "{\"name\":\"m1\",\"v\":1}"),
        model("m2", "{\"name\":\"m2\"}"),
        model("m1", "{\"name\":\"m1\",\"v\":2}"),
    ];
    let actives = vec![model("m1", "{\"name\":\"m1\"}")];
    let h = sync_server(&mut reg, "http://a:11434", Some((models, actives)));
    assert_eq!(h, Health::Healthy(Score { num: 1, shift: 0 }));
    let srv = &reg.entries[0].server;
    assert_eq!(srv.state.health, Health::Healthy(Score { num: 1, shift: 0 }));
    // Two distinct tag names, the later descriptor winning in place.
    assert_eq!(srv.models.len(), 2);
    assert_eq!(srv.models[0].name, "m1");
    assert_eq!(srv.models[0].detail, "{\"name\":\"m1\",\"v\":2}");
    assert_eq!(srv.models[1].name, "m2");
    assert_eq!(srv.actives.len(), 1);
}

#[test]
fn sync_failure_marks_dead_and_keeps_maps() {
    let mut reg = Registry::new();
    add_server(&mut reg, &cfg("http://a:11434", "A"));
    let h = sync_server(
        &mut reg,
        "http://a:11434",
        Some((vec![model("m1", "{}")], vec![])),
    );
    assert_eq!(h, Health::Healthy(Score { num: 1, shift: 0 }));
    let h = sync_server(&mut reg, "http://a:11434", None);
    assert_eq!(h, Health::Dead);
    let srv = &reg.entries[0].server;
    assert_eq!(srv.state.health, Health::Dead);
    // The model maps stay as the last successful sync left them.
    assert_eq!(srv.models.len(), 1);
    assert_eq!(srv.models[0].name, "m1");
}

#[test]
fn snapshot_mirrors_registry_in_order() {
    let mut reg = Registry::new();
    add_server(&mut reg, &cfg("http://a:11434", "A"));
    add_server(&mut reg, &cfg("http://b:11434", "B"));
    sync_server(
        &mut reg,
        "http://a:11434",
        Some((vec![model("m1", "{\"name\":\"m1\"}")], vec![])),
    );
    let cheap = snapshot_servers(&reg, false);
    assert_eq!(cheap.len(), 2);
    assert_eq!(cheap[0].address, "http://a:11434");
    assert_eq!(cheap[0].name, "A");
    assert_eq!(cheap[0].models.len(), 1);
    assert_eq!(cheap[0].models[0].name, "m1");
    assert!(cheap[0].models[0].detail.is_none());
    let detailed = snapshot_servers(&reg, true);
    assert_eq!(
        detailed[0].models[0].detail.as_deref(),
        Some("{\"name\":\"m1\"}")
    );
}

#[test]
fn config_parse_splits_on_first_equals_and_trims() {
    let c: ServerConfig = ServerConfig::parse(" 127.0.0.1:11433 = Local=Ollama ").unwrap();
    assert_eq!(c.address, "127.0.0.1:11433");
    assert_eq!(c.name, "Local=Ollama");
    let e = ServerConfig::parse("no separator here").unwrap_err();
    assert_eq!(e, "Invalid server format. Use ip:port=Name");
}

#[test]
fn validate_servers_rejects_empty_and_duplicates() {
    assert_eq!(validate_servers(&vec![]), Err(ConfigError::NoServers));
    let ok = vec![cfg("a", "A"), cfg("b", "B")];
    assert_eq!(validate_servers(&ok), Ok(()));
    let dup = vec![cfg("a", "A"), cfg("a", "B")];
    assert_eq!(validate_servers(&dup), Err(ConfigError::DuplicateAddress));
}

use ollama_balancer::config::ServerConfig;
use ollama_balancer::health::{FailureRecord, Health, Score};
use ollama_balancer::race::{
    apply_race_results, choose_sequential_server, monitor_finish, monitor_init, monitor_step,
    pick_winner, MonitorVerdict, PerformanceInfo, RacerOutcome, ReqOpt, StreamEvent,
};
use ollama_balancer::registry::{add_server, sync_server, ModelConfig, Registry};

fn outcome(address: &str, ok: bool, status: u16, bytes: usize) -> RacerOutcome {
    RacerOutcome { address: address.to_string(), ok, status, bytes_received: bytes }
}

#[test]
fn monitor_counts_bytes_within_the_window() {
    let opts = ReqOpt { timeout: 1, timeout_ft: 10, time_measure: 2 };
    let mut st = monitor_init();
    // First chunk at 1000 ms starts the clock.
    let v = monitor_step(&mut st, StreamEvent::Chunk(100), 1000, opts.time_measure);
    assert_eq!(v, MonitorVerdict::KeepReading);
    // A chunk still inside the 2 s window keeps reading.
    let v = monitor_step(&mut st, StreamEvent::Chunk(50), 2500, opts.time_measure);
    assert_eq!(v, MonitorVerdict::KeepReading);
    // Strictly past the window, measuring stops; the bytes were kept.
    let v = monitor_step(&mut st, StreamEvent::Chunk(50), 3001, opts.time_measure);
    assert_eq!(v, MonitorVerdict::StopMeasuring);
    let perf = monitor_finish(&st).unwrap();
    assert_eq!(perf, PerformanceInfo { first_token_time: 1000, duration_tokens: 200 });
}

#[test]
fn monitor_without_data_has_no_performance() {
    let mut st = monitor_init();
    let v = monitor_step(&mut st, StreamEvent::EndOfStream, 500, 2);
    assert_eq!(v, MonitorVerdict::StopMeasuring);
    assert!(monitor_finish(&st).is_none());
}

#[test]
fn monitor_stops_on_read_error() {
    let mut st = monitor_init();
    monitor_step(&mut st, StreamEvent::Chunk(10), 100, 2);
    let v = monitor_step(&mut st, StreamEvent::ReadError, 200, 2);
    assert_eq!(v, MonitorVerdict::StopMeasuring);
    let perf = monitor_finish(&st).unwrap();
    assert_eq!(perf.duration_tokens, 10);
}

#[test]
fn winner_is_max_bytes_among_ok() {
    // Three racers with 50, 500, 150 bytes: the middle one wins.
    let outs = vec![
        outcome("a", true, 200, 50),
        outcome("b", true, 200, 500),
        outcome("c", true, 200, 150),
    ];
    assert_eq!(pick_winner(&outs), Some(1));
}

#[test]
fn winner_ignores_failures_and_non_2xx() {
    let outs = vec![
        outcome("a", true, 200, 50),
        outcome("b", true, 500, 9999),
        outcome("c", false, 200, 9999),
    ];
    assert_eq!(pick_winner(&outs), Some(0));
    let all_bad = vec![outcome("a", false, 200, 1), outcome("b", true, 404, 1)];
    assert_eq!(pick_winner(&all_bad), None);
}

#[test]
fn winner_ties_break_to_the_later_racer() {
    let outs = vec![outcome("a", true, 200, 7), outcome("b", true, 200, 7)];
    assert_eq!(pick_winner(&outs), Some(1));
}

fn racing_registry() -> Registry {
    let mut reg = Registry::new();
    for (addr, name) in [("http://a", "A"), ("http://b", "B"), ("http://c", "C")] {
        add_server(&mut reg, &ServerConfig { address: addr.to_string(), name: name.to_string() });
        sync_server(
            &mut reg,
            addr,
            Some((
                vec![ModelConfig { name: "m1".to_string(), detail: "{}".to_string() }],
                vec![],
            )),
        );
    }
    reg
}

#[test]
fn race_rewards_winner_most_and_halves_failures() {
    // Bytes 50/500/150: B wins (+4), A and C get +2.
    let mut reg = racing_registry();
    let outs = vec![
        outcome("http://a", true, 200, 50),
        outcome("http://b", true, 200, 500),
        outcome("http://c", true, 200, 150),
    ];
    apply_race_results(&mut reg, &outs);
    assert_eq!(reg.entries[0].server.state.health, Health::Healthy(Score { num: 3, shift: 0 }));
    assert_eq!(reg.entries[1].server.state.health, Health::Healthy(Score { num: 5, shift: 0 }));
    assert_eq!(reg.entries[2].server.state.health, Health::Healthy(Score { num: 3, shift: 0 }));
}

#[test]
fn race_failure_kills_a_score_of_one() {
    // A fails to connect: its score of one halves below one, so it dies.
    let mut reg = racing_registry();
    let outs = vec![
        outcome("http://a", false, 0, 0),
        outcome("http://b", true, 200, 500),
        outcome("http://c", true, 200, 150),
    ];
    apply_race_results(&mut reg, &outs);
    assert_eq!(reg.entries[0].server.state.health, Health::Dead);
    assert_eq!(reg.entries[1].server.state.health, Health::Healthy(Score { num: 5, shift: 0 }));
    assert_eq!(reg.entries[2].server.state.health, Health::Healthy(Score { num: 3, shift: 0 }));
}

#[test]
fn single_racer_win_reaches_score_five() {
    // One reliable backend serving 200 bytes: best reward on a fresh score.
    let mut reg = Registry::new();
    add_server(
        &mut reg,
        &ServerConfig { address: "1.2.3.4:11434".to_string(), name: "A".to_string() },
    );
    sync_server(
        &mut reg,
        "1.2.3.4:11434",
        Some((
            vec![ModelConfig { name: "m1".to_string(), detail: "{}".to_string() }],
            vec![],
        )),
    );
    let outs = vec![outcome("1.2.3.4:11434", true, 200, 200)];
    assert_eq!(pick_winner(&outs), Some(0));
    apply_race_results(&mut reg, &outs);
    assert_eq!(reg.entries[0].server.state.health, Health::Healthy(Score { num: 5, shift: 0 }));
}

#[test]
fn sequential_choice_prefers_reliable_then_unreliable() {
    let mut reg = Registry::new();
    for (addr, name) in [("http://a", "A"), ("http://b", "B")] {
        add_server(&mut reg, &ServerConfig { address: addr.to_string(), name: name.to_string() });
    }
    reg.entries[0].server.state.failure_record = FailureRecord::Unreliable;
    // B is reliable, so it is taken first despite coming second.
    let chosen = choose_sequential_server(&mut reg).unwrap();
    assert_eq!(chosen, "http://b");
    assert!(reg.entries[1].server.state.busy);
    // With B busy, the idle unreliable A is next.
    let chosen = choose_sequential_server(&mut reg).unwrap();
    assert_eq!(chosen, "http://a");
}

#[test]
fn sequential_choice_flips_spent_second_chances() {
    let mut reg = Registry::new();
    for (addr, name) in [("http://a", "A"), ("http://b", "B")] {
        add_server(&mut reg, &ServerConfig { address: addr.to_string(), name: name.to_string() });
    }
    reg.entries[0].server.state.failure_record = FailureRecord::SecondChanceGiven;
    reg.entries[1].server.state.failure_record = FailureRecord::SecondChanceGiven;
    let chosen = choose_sequential_server(&mut reg).unwrap();
    assert_eq!(chosen, "http://a");
    // Every idle spent second chance was flipped back to unreliable.
    assert_eq!(reg.entries[0].server.state.failure_record, FailureRecord::Unreliable);
    assert_eq!(reg.entries[1].server.state.failure_record, FailureRecord::Unreliable);
    assert!(reg.entries[0].server.state.busy);
    assert!(!reg.entries[1].server.state.busy);
}

#[test]
fn sequential_choice_skips_busy_backends() {
    let mut reg = Registry::new();
    add_server(
        &mut reg,
        &ServerConfig { address: "http://a".to_string(), name: "A".to_string() },
    );
    reg.entries[0].server.state.busy = true;
    assert!(choose_sequential_server(&mut reg).is_none());
}

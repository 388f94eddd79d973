use ollama_balancer::health::{
    less_healthy, more_healthy, record_stream_error, record_stream_success, FailureRecord, Health,
    Score,
};

#[test]
fn resurrection_starts_at_one() {
    let h = more_healthy(Health::Dead, true);
    assert_eq!(h, Health::Healthy(Score { num: 1, shift: 0 }));
    let h = more_healthy(Health::Dead, false);
    assert_eq!(h, Health::Healthy(Score { num: 1, shift: 0 }));
}

#[test]
fn best_reward_adds_four() {
    let h = more_healthy(Health::Healthy(Score::from_whole(1)), true);
    assert_eq!(h, Health::Healthy(Score { num: 5, shift: 0 }));
}

#[test]
fn linear_growth_of_non_best_rewards() {
    // After K non-best rewards from a score of one the score is 1 + 2K.
    let mut h = Health::Healthy(Score::from_whole(1));
    for k in 1..=10u64 {
        h = more_healthy(h, false);
        assert_eq!(h, Health::Healthy(Score { num: 1 + 2 * k, shift: 0 }));
    }
}

#[test]
fn score_one_dies_in_one_penalty() {
    let h = less_healthy(Health::Healthy(Score::from_whole(1)));
    assert_eq!(h, Health::Dead);
}

#[test]
fn score_five_dies_in_exactly_three_penalties() {
    // floor(log2(5)) + 1 = 3 penalties: 5 -> 2.5 -> 1.25 -> dead.
    let mut h = Health::Healthy(Score::from_whole(5));
    h = less_healthy(h);
    assert_eq!(h, Health::Healthy(Score { num: 5, shift: 1 }));
    h = less_healthy(h);
    assert_eq!(h, Health::Healthy(Score { num: 5, shift: 2 }));
    h = less_healthy(h);
    assert_eq!(h, Health::Dead);
}

#[test]
fn score_eight_dies_in_exactly_four_penalties() {
    let mut h = Health::Healthy(Score::from_whole(8));
    for _ in 0..3 {
        h = less_healthy(h);
        assert!(matches!(h, Health::Healthy(_)));
    }
    h = less_healthy(h);
    assert_eq!(h, Health::Dead);
}

#[test]
fn dead_stays_dead_under_penalty() {
    assert_eq!(less_healthy(Health::Dead), Health::Dead);
}

#[test]
fn ledger_demotion_and_restore() {
    assert_eq!(record_stream_error(FailureRecord::Reliable), FailureRecord::Unreliable);
    assert_eq!(
        record_stream_error(FailureRecord::Unreliable),
        FailureRecord::SecondChanceGiven
    );
    assert_eq!(
        record_stream_error(FailureRecord::SecondChanceGiven),
        FailureRecord::SecondChanceGiven
    );
    assert_eq!(
        record_stream_success(FailureRecord::SecondChanceGiven),
        FailureRecord::Reliable
    );
    assert_eq!(record_stream_success(FailureRecord::Reliable), FailureRecord::Reliable);
}

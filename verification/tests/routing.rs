use codex_companion_relay::policy::{
    apply_group_policy, apply_group_policy_with_roll, weighted_candidate_index, Candidate,
    GroupPolicy, HealthFailureKind, PolicyRoll, RoundRobin,
};
use codex_companion_relay::routing::{
    failback_note, nearest_higher_priority_provider, prioritize_session_affinity,
    request_attempt_route_reason, specific_higher_priority_provider, FailbackClaim, RouteQuery,
};
use codex_companion_relay::state::{ProviderLoad, SessionAffinity};
use rand::rngs::StdRng;
use rand::seq::SliceRandom;
use rand::SeedableRng;
use std::collections::BTreeSet;

fn provider(id: &str) -> Candidate {
    Candidate {
        id: id.to_string(),
        weight: None,
        inflight: 0,
        last_checked: None,
        auth_failed: false,
        cooling_down: false,
        model_cooling_down: false,
        last_failure: None,
    }
}

fn providers() -> Vec<Candidate> {
    vec![provider("a"), provider("b"), provider("c")]
}

fn ids(candidates: &[Candidate]) -> Vec<&str> {
    candidates
        .iter()
        .map(|candidate| candidate.id.as_str())
        .collect()
}

fn query(policy: GroupPolicy) -> RouteQuery {
    RouteQuery {
        policy,
        fallback_enabled: true,
        provider_order: vec!["a".to_string(), "b".to_string(), "c".to_string()],
        failback_target: None,
        explicit_provider: None,
        affinity_provider: None,
        claim: None,
        retry_budget: 0,
    }
}

fn route(query: &RouteQuery, selected: Vec<Candidate>) -> Vec<String> {
    query
        .route(&mut RoundRobin::new(), selected)
        .candidates
        .into_iter()
        .map(|candidate| candidate.id)
        .collect()
}

#[test]
fn round_robin_rotates_the_first_candidate_between_requests() {
    let mut state = RoundRobin::new();
    let first = apply_group_policy(&mut state, GroupPolicy::RoundRobin, providers());
    let second = apply_group_policy(&mut state, GroupPolicy::RoundRobin, providers());
    let third = apply_group_policy(&mut state, GroupPolicy::RoundRobin, providers());

    assert_eq!(ids(&first), vec!["a", "b", "c"]);
    assert_eq!(ids(&second), vec!["b", "c", "a"]);
    assert_eq!(ids(&third), vec!["c", "a", "b"]);
}

#[test]
fn random_policy_is_repeatable_with_a_seed_and_preserves_candidates() {
    let shuffled = |seed: u64| {
        let mut places = vec![0, 1, 2];
        places.shuffle(&mut StdRng::seed_from_u64(seed));
        let roll = PolicyRoll { weight: 0, places };
        apply_group_policy_with_roll(
            &mut RoundRobin::new(),
            GroupPolicy::Random,
            providers(),
            &roll,
        )
    };
    let original = providers();
    let first = shuffled(42);
    let second = shuffled(42);

    assert_eq!(ids(&first), ids(&second));
    assert_ne!(ids(&first), ids(&original));
    assert_eq!(
        ids(&first).into_iter().collect::<BTreeSet<_>>(),
        ids(&original).into_iter().collect::<BTreeSet<_>>()
    );
}

#[test]
fn weighted_policy_maps_each_roll_to_the_expected_provider() {
    let mut candidates = providers();
    candidates[0].weight = Some(1);
    candidates[1].weight = Some(3);
    candidates[2].weight = Some(2);

    assert_eq!(weighted_candidate_index(&candidates, 0), 0);
    assert_eq!(weighted_candidate_index(&candidates, 1), 1);
    assert_eq!(weighted_candidate_index(&candidates, 3), 1);
    assert_eq!(weighted_candidate_index(&candidates, 4), 2);
    assert_eq!(weighted_candidate_index(&candidates, 5), 2);
}

#[test]
fn least_loaded_orders_idle_providers_first() {
    let mut load = ProviderLoad::new();
    load.begin_provider_request("a");
    load.begin_provider_request("a");
    load.begin_provider_request("b");
    let mut candidates = providers();
    for candidate in &mut candidates {
        candidate.inflight = load.provider_inflight_count(&candidate.id);
    }

    let ordered = apply_group_policy(&mut RoundRobin::new(), GroupPolicy::LeastLoaded, candidates);

    assert_eq!(ids(&ordered), vec!["c", "b", "a"]);
}

#[test]
fn a_request_that_ends_is_no_longer_counted() {
    let mut load = ProviderLoad::new();
    load.begin_provider_request("a");
    load.begin_provider_request("a");
    load.end_provider_request("a");
    load.end_provider_request("b");
    assert_eq!(load.provider_inflight_count("a"), 1);
    load.end_provider_request("a");
    assert_eq!(load.provider_inflight_count("a"), 0);
    assert_eq!(load.provider_inflight_count("b"), 0);
}

#[test]
fn chance_keeps_every_candidate() {
    for policy in [GroupPolicy::Random, GroupPolicy::Weighted] {
        for _ in 0..20 {
            let ordered = apply_group_policy(&mut RoundRobin::new(), policy, providers());
            let mut sorted = ids(&ordered);
            sorted.sort();
            assert_eq!(sorted, vec!["a", "b", "c"]);
        }
    }
}

#[test]
fn a_random_order_is_not_always_the_same() {
    let mut orders = BTreeSet::new();
    for _ in 0..200 {
        let ordered = apply_group_policy(&mut RoundRobin::new(), GroupPolicy::Random, providers());
        orders.insert(ids(&ordered).concat());
    }
    assert!(orders.len() > 1);
    let mut firsts = BTreeSet::new();
    for _ in 0..200 {
        let ordered =
            apply_group_policy(&mut RoundRobin::new(), GroupPolicy::Weighted, providers());
        firsts.insert(ordered[0].id.clone());
    }
    assert!(firsts.len() > 1);
}

#[test]
fn refused_credentials_are_never_used() {
    let mut only = vec![provider("a")];
    only[0].auth_failed = true;
    assert!(route(&query(GroupPolicy::PriorityFallback), only).is_empty());
}

#[test]
fn a_single_provider_ignores_its_own_cooldown() {
    let mut only = vec![provider("a")];
    only[0].cooling_down = true;
    assert_eq!(route(&query(GroupPolicy::PriorityFallback), only), vec!["a"]);
}

#[test]
fn cooling_providers_are_tried_last() {
    let mut selected = providers();
    selected[0].cooling_down = true;
    selected[0].last_failure = Some(HealthFailureKind::RateLimited);
    selected[0].inflight = 1;
    selected[1].model_cooling_down = true;
    selected[1].last_checked = Some(5);
    assert_eq!(
        route(&query(GroupPolicy::PriorityFallback), selected),
        vec!["c", "b", "a"]
    );
    let mut selected = providers();
    selected[0].cooling_down = true;
    selected[0].last_failure = Some(HealthFailureKind::QuotaExhausted);
    assert_eq!(
        route(&query(GroupPolicy::PriorityFallback), selected),
        vec!["b", "c"]
    );
}

#[test]
fn the_retry_budget_keeps_the_session_provider() {
    let mut query = query(GroupPolicy::PriorityFallback);
    query.retry_budget = 1;
    query.affinity_provider = Some("c".to_string());
    assert_eq!(route(&query, providers()), vec!["c", "a"]);
    query.fallback_enabled = false;
    assert_eq!(route(&query, providers()), vec!["c"]);
}

#[test]
fn a_claim_tries_a_provider_of_higher_rank_first() {
    let mut query = query(GroupPolicy::PriorityFallback);
    query.affinity_provider = Some("c".to_string());
    query.claim = Some(FailbackClaim {
        manual: false,
        automatic: true,
    });
    assert!(query.may_claim_failback());
    assert_eq!(route(&query, providers()), vec!["b", "c", "a"]);
    query.claim = Some(FailbackClaim {
        manual: true,
        automatic: false,
    });
    query.failback_target = Some("a".to_string());
    let mut selected = providers();
    selected[0].cooling_down = true;
    assert_eq!(route(&query, selected), vec!["a", "c", "b"]);
    assert_eq!(failback_note(&query, "a"), "会话手动向上探测 Provider a");
    assert_eq!(failback_note(&query, "b"), "会话自动向上探测 Provider b");
    query.explicit_provider = Some("b".to_string());
    assert!(!query.may_claim_failback());
    assert_eq!(route(&query, providers()), vec!["b", "a", "c"]);
}

#[test]
fn higher_ranks_are_found_by_the_order_of_the_group() {
    let query = query(GroupPolicy::PriorityFallback);
    let selected = providers();
    assert_eq!(
        nearest_higher_priority_provider(&query, &selected, "c").as_deref(),
        Some("b")
    );
    assert_eq!(nearest_higher_priority_provider(&query, &selected, "a"), None);
    assert_eq!(
        specific_higher_priority_provider(&query, &selected, "c", "a").as_deref(),
        Some("a")
    );
    assert_eq!(
        specific_higher_priority_provider(&query, &selected, "a", "c"),
        None
    );
    assert_eq!(
        ids(&prioritize_session_affinity(providers(), "c", Some("b"))),
        vec!["b", "c", "a"]
    );
}

#[test]
fn attempts_have_a_reason() {
    let reason = |index: usize, explicit, affinity, probe, manual| {
        request_attempt_route_reason(index, "a", explicit, affinity, probe, manual)
    };
    assert_eq!(reason(1, Some("a"), None, None, false), "fallback");
    assert_eq!(reason(0, None, None, Some("a"), true), "manual_failback");
    assert_eq!(reason(0, None, None, Some("a"), false), "automatic_failback");
    assert_eq!(reason(0, Some("a"), Some("a"), None, false), "session_preference");
    assert_eq!(reason(0, None, Some("a"), None, false), "affinity");
    assert_eq!(reason(0, None, Some("b"), None, false), "policy");
}

const SECOND: u128 = 1_000_000_000;

#[test]
fn a_bound_session_is_found_until_it_expires() {
    let mut affinity = SessionAffinity::new();
    affinity.bind_provider("s", "a", 100, 0);
    assert_eq!(
        affinity.preferred_provider("s", 100, 100 * SECOND).as_deref(),
        Some("a")
    );
    assert_eq!(affinity.preferred_provider("t", 100, 100 * SECOND), None);
    affinity.bind_provider("s", "b", 100, 150 * SECOND);
    assert_eq!(
        affinity.preferred_provider("s", 100, 150 * SECOND).as_deref(),
        Some("b")
    );
    assert_eq!(
        affinity.preferred_provider("s", 100, 250 * SECOND + 1),
        None
    );
}

#[test]
fn a_session_lives_at_least_a_minute() {
    let mut affinity = SessionAffinity::new();
    affinity.bind_provider("s", "a", 1, 0);
    assert!(affinity.preferred_provider("s", 1, 60 * SECOND).is_some());
    assert!(affinity.preferred_provider("s", 1, 120 * SECOND + 1).is_none());
}

#[test]
fn the_oldest_session_makes_room() {
    let mut affinity = SessionAffinity::new();
    for index in 0..4097u128 {
        affinity.bind_provider(&format!("s{index}"), "a", 86_400, index);
    }
    assert!(affinity.preferred_provider("s0", 86_400, 5000).is_none());
    assert!(affinity.preferred_provider("s1", 86_400, 5000).is_some());
    assert!(affinity.preferred_provider("s4096", 86_400, 5000).is_some());
}

#[test]
fn a_route_follows_the_roll() {
    let weighted = query(GroupPolicy::Weighted);
    let mut selected = providers();
    selected[1].weight = Some(3);
    let route = weighted.route_with_roll(&mut RoundRobin::new(), selected, 1, vec![0, 1, 2]);
    assert_eq!(ids(&route.candidates), vec!["b", "c", "a"]);
    let random = query(GroupPolicy::Random);
    let route = random.route_with_roll(&mut RoundRobin::new(), providers(), 0, vec![2, 0, 1]);
    assert_eq!(ids(&route.candidates), vec!["c", "a", "b"]);
    assert_eq!(route.probe, None);
}

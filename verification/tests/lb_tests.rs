use quark::config::{Locations, TargetParams};
use quark::headers::ConfigHeaders;
use quark::load_balancing::LoadBalancerConfig;

fn mock_location(weights: Option<Vec<u32>>) -> Locations {
    Locations {
        id: 0,
        params: TargetParams {
            location: vec!["a".to_string(), "b".to_string(), "c".to_string()],
            headers: ConfigHeaders { request: None, response: None },
        },
        algo: Some("round_robin".to_string()),
        weights,
    }
}

fn mock_load_balancer(weights: Option<Vec<u32>>, count: u8) -> Vec<String> {
    let location = mock_location(weights);
    let mut lb = LoadBalancerConfig::new(vec![&location]);
    (0..count)
        .map(|_| {
            lb.balance(
                &location.id,
                &location.params.location,
                &location.algo,
                "1.1.1.1",
            )
        })
        .collect()
}

#[test]
fn test_round_robin() {
    let lb = mock_load_balancer(None, 4);
    assert_eq!(lb, vec!["a", "b", "c", "a"]);
}

#[test]
fn test_weighted_round_robin() {
    let lb = mock_load_balancer(Some(vec![4, 2, 1]), 8);
    assert_eq!(lb, vec!["a", "a", "a", "a", "b", "b", "c", "a"]);
}

#[test]
fn round_robin_fairness_over_seven_calls() {
    // seven calls over three backends: each picked twice or three times
    let picks = mock_load_balancer(None, 7);
    for name in ["a", "b", "c"] {
        let count = picks.iter().filter(|p| p.as_str() == name).count();
        assert!(count == 2 || count == 3);
    }
}

#[test]
fn ip_hash_is_deterministic() {
    let location = Locations {
        id: 7,
        params: TargetParams {
            location: vec!["a".to_string(), "b".to_string(), "c".to_string()],
            headers: ConfigHeaders { request: None, response: None },
        },
        algo: Some("ip_hash".to_string()),
        weights: None,
    };
    let mut lb = LoadBalancerConfig::new(vec![&location]);
    let first = lb.balance(&7, &location.params.location, &location.algo, "203.0.113.9");
    let second = lb.balance(&7, &location.params.location, &location.algo, "203.0.113.9");
    assert_eq!(first, second);
}

#[test]
fn single_backend_short_circuits() {
    let location = Locations {
        id: 1,
        params: TargetParams {
            location: vec!["only".to_string()],
            headers: ConfigHeaders { request: None, response: None },
        },
        algo: Some("round_robin".to_string()),
        weights: None,
    };
    let mut lb = LoadBalancerConfig::new(vec![&location]);
    assert_eq!(
        lb.balance(&1, &location.params.location, &location.algo, "1.2.3.4"),
        "only"
    );
}

#[test]
fn unknown_algo_takes_first() {
    let location = mock_location(None);
    let mut lb = LoadBalancerConfig::new(vec![&location]);
    let algo = Some("fancy".to_string());
    assert_eq!(lb.balance(&0, &location.params.location, &algo, "1.2.3.4"), "a");
}

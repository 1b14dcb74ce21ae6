use flash_arb::endpoint::{EndpointHealth, RpcManager, MAX_REQUESTS_PER_WINDOW};
use flash_arb::error::ArbError;

fn manager_of(urls: &[&str], now: u64) -> RpcManager {
    RpcManager {
        endpoints: urls.iter().map(|u| EndpointHealth::new_at(u.to_string(), now)).collect(),
        current_index: 0,
    }
}

#[test]
fn test_rpc_manager() {
    let manager = RpcManager::new(vec!["test-key-1".to_string(), "test-key-2".to_string()]);
    assert_eq!(manager.endpoints.len(), 4);
}

#[test]
fn new_manager_starts_healthy_and_empty() {
    let manager = RpcManager::new(vec!["k".to_string()]);
    assert_eq!(manager.current_index, 0);
    let start = manager.endpoints[0].last_reset;
    for e in &manager.endpoints {
        assert!(e.is_healthy);
        assert_eq!((e.request_count, e.consecutive_failures, e.last_reset), (0, 0, start));
    }
}

#[test]
fn test_throttling() {
    let mut health = EndpointHealth::new("test".to_string());
    for _ in 0..MAX_REQUESTS_PER_WINDOW {
        health.record_request();
    }
    assert!(health.should_throttle());
}

#[test]
fn manager_urls_keys_then_fallbacks() {
    let manager = RpcManager::new_at(vec!["k1".to_string(), "k2".to_string()], 7);
    let status = manager.health_status();
    let urls: Vec<&str> = status.iter().map(|s| s.0.as_str()).collect();
    assert_eq!(
        urls,
        vec![
            "https://mainnet.helius-rpc.com/?api-key=k1",
            "https://mainnet.helius-rpc.com/?api-key=k2",
            "https://api.devnet.solana.com",
            "https://api.testnet.solana.com",
        ]
    );
    assert!(status.iter().all(|s| s.1 && s.2 == 0));
    assert!(manager.endpoints.iter().all(|e| e.last_reset == 7));
}

#[test]
fn round_robin_visits_each_in_order_then_wraps() {
    let mut m = manager_of(&["a", "b", "c"], 0);
    let picked: Vec<String> = (0..4).map(|_| m.select_at(10).unwrap().url).collect();
    assert_eq!(picked, vec!["a", "b", "c", "a"]);
    assert_eq!(m.current_index, 1);
    assert_eq!(m.endpoints[0].request_count, 2);
    assert_eq!(m.endpoints[1].request_count, 1);
}

#[test]
fn selection_skips_unhealthy_endpoint() {
    let mut m = manager_of(&["a", "b", "c"], 0);
    for _ in 0..5 {
        m.record_failure("b");
    }
    let picked: Vec<String> = (0..3).map(|_| m.select_at(10).unwrap().url).collect();
    assert_eq!(picked, vec!["a", "c", "a"]);
}

#[test]
fn single_endpoint_throttles_after_cap() {
    let mut m = manager_of(&["only"], 1000);
    for _ in 0..50 {
        assert_eq!(m.select_at(1500).unwrap().url, "only");
    }
    assert_eq!(m.select_at(1500).unwrap_err(), ArbError::NoEndpointAvailable);
    assert_eq!(m.select_at(2000).unwrap_err(), ArbError::NoEndpointAvailable);
    assert_eq!(m.endpoints[0].request_count, 50);
    // the window has run out: a new one opens
    assert_eq!(m.select_at(2001).unwrap().url, "only");
    assert_eq!(m.endpoints[0].request_count, 1);
    assert_eq!(m.endpoints[0].last_reset, 2001);
}

#[test]
fn throttled_endpoint_stays_healthy() {
    let mut m = manager_of(&["a", "b"], 0);
    m.endpoints[0].request_count = 50;
    assert_eq!(m.select_at(100).unwrap().url, "b");
    assert!(m.endpoints[0].is_healthy);
    assert_eq!(m.select_at(100).unwrap().url, "b");
}

#[test]
fn all_unavailable_leaves_cursor() {
    let mut m = manager_of(&["a", "b"], 0);
    m.current_index = 1;
    for _ in 0..5 {
        m.record_failure("a");
        m.record_failure("b");
    }
    assert_eq!(m.select_at(0).unwrap_err(), ArbError::NoEndpointAvailable);
    assert_eq!(m.current_index, 1);
}

#[test]
fn five_failures_then_success() {
    let mut h = EndpointHealth::new_at("x".to_string(), 0);
    for i in 1..5u32 {
        h.record_failure();
        assert_eq!(h.consecutive_failures, i);
        assert!(h.is_healthy);
    }
    h.record_failure();
    assert!(!h.is_healthy);
    assert_eq!(h.consecutive_failures, 5);
    h.record_success();
    assert!(h.is_healthy);
    assert_eq!(h.consecutive_failures, 0);
}

#[test]
fn manager_health_by_url() {
    let mut m = manager_of(&["a", "b"], 0);
    for _ in 0..5 {
        m.record_failure("b");
    }
    m.record_failure("unknown");
    m.record_success("unknown");
    let status = m.health_status();
    assert!(status[0].1);
    assert!(!status[1].1);
    assert_eq!(m.endpoints[0].consecutive_failures, 0);
    m.record_success("b");
    assert!(m.endpoints[1].is_healthy);
    assert_eq!(m.endpoints[1].consecutive_failures, 0);
}

#[test]
fn window_reset_on_request() {
    let mut h = EndpointHealth::new_at("x".to_string(), 100);
    h.record_request_at(600);
    h.record_request_at(1100);
    assert_eq!(h.request_count, 2);
    assert!(!h.should_throttle_at(1100));
    h.request_count = 50;
    assert!(h.should_throttle_at(1100));
    assert!(!h.should_throttle_at(1101));
    h.record_request_at(1101);
    assert_eq!(h.request_count, 1);
    assert_eq!(h.last_reset, 1101);
}

#[test]
fn live_clock_selection() {
    let mut m = RpcManager::new(vec!["k".to_string()]);
    let handle = m.get_client().unwrap();
    assert_eq!(handle.url, "https://mainnet.helius-rpc.com/?api-key=k");
    assert_eq!(m.endpoints[0].request_count, 1);
    assert!(m.endpoints[0].last_reset > 0);
}

use river_gateway::redis::{counter_key, lock_key, namespaced_key, RedisConfig};

#[test]
fn client_test_config_default() {
    let config = RedisConfig::default();
    assert_eq!(config.url, "redis://127.0.0.1:6379");
    assert_eq!(config.agent_name, "default");
}

#[test]
fn keys_are_namespaced_by_agent_and_domain() {
    assert_eq!(namespaced_key("iris", "working", "plan"), "river:iris:working:plan");
    assert_eq!(lock_key("iris", "deploy"), "river:iris:coord:lock:deploy");
    assert_eq!(counter_key("iris", "turns"), "river:iris:coord:counter:turns");
    assert_ne!(namespaced_key("a", "cache", "k"), namespaced_key("ab", "cache", "k"));
}

use crs_core::rtk::{NullRtkClient, RtkRewrite, RtkVerifyResult};

#[test]
fn null_client_returns_defaults_for_rewrite_port() {
    let c = NullRtkClient;
    assert!(c.rewrite("x").is_none());
    assert!(c.probe("x").is_none());
    assert!(!c.check("x"));
    assert!(c.list_proxies().is_empty());
    assert!(!c.flush());
    let v = RtkVerifyResult::default();
    assert!(!v.hook_installed);
}

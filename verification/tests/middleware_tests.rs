use quark::middleware::ServerService;

#[test]
fn activity_clock() {
    let mut svc = ServerService::new();
    assert_eq!(svc.seconds_since_last_activity(0), 0);
    svc.update_activity(100);
    assert_eq!(svc.seconds_since_last_activity(160), 60);
    svc.update_activity(200);
    assert_eq!(svc.seconds_since_last_activity(200), 0);
}

use next_emit::hmr::{hmr_keep_sampling, is_slow_update, HmrSession, HMR_SAMPLE_LIMIT};
use next_emit::route::{plan_route, AppPageRoute, BuildDriver, DriverAction, Endpoint, Route};

fn ep(id: u64) -> Endpoint {
    Endpoint { id }
}

#[test]
fn page_writes_html_endpoint_only() {
    let plan = plan_route(&Route::Page { html_endpoint: ep(1), data_endpoint: ep(2) });
    assert_eq!(plan.endpoints, vec![ep(1)]);
    assert!(!plan.conflict);
}

#[test]
fn single_endpoint_routes() {
    assert_eq!(plan_route(&Route::PageApi { endpoint: ep(3) }).endpoints, vec![ep(3)]);
    let r = Route::AppRoute { original_name: "/api/x".to_string(), endpoint: ep(4) };
    assert_eq!(plan_route(&r).endpoints, vec![ep(4)]);
}

#[test]
fn app_page_writes_one_endpoint_per_page() {
    let pages = vec![
        AppPageRoute { original_name: "/a".to_string(), html_endpoint: ep(5) },
        AppPageRoute { original_name: "/b".to_string(), html_endpoint: ep(6) },
    ];
    let plan = plan_route(&Route::AppPage(pages));
    assert_eq!(plan.endpoints, vec![ep(5), ep(6)]);
    assert!(!plan.conflict);
}

#[test]
fn conflict_writes_nothing_and_warns() {
    let plan = plan_route(&Route::Conflict);
    assert!(plan.endpoints.is_empty());
    assert!(plan.conflict);
}

#[test]
fn driver_runs_routes_in_order_with_gc_after_each() {
    let plans = vec![
        plan_route(&Route::Page { html_endpoint: ep(1), data_endpoint: ep(2) }),
        plan_route(&Route::Conflict),
    ];
    let mut d = BuildDriver::new(plans);
    assert_eq!(d.next_action(), DriverAction::Write(ep(1)));
    d.on_done(false);
    assert_eq!(d.next_action(), DriverAction::CollectGarbage);
    d.on_done(true);
    assert_eq!(d.next_action(), DriverAction::CollectGarbage);
    d.on_done(false);
    assert_eq!(d.next_action(), DriverAction::WarnConflict(1));
    d.on_done(false);
    assert_eq!(d.next_action(), DriverAction::CollectGarbage);
    d.on_done(false);
    assert_eq!(d.next_action(), DriverAction::Finish);
    d.on_done(false);
    assert_eq!(d.next_action(), DriverAction::Finish);
}

#[test]
fn empty_route_set_finishes_at_once() {
    let d = BuildDriver::new(vec![]);
    assert_eq!(d.next_action(), DriverAction::Finish);
}

#[test]
fn version_state_starts_at_zero_and_is_reused() {
    let mut s = HmrSession::new(9);
    assert_eq!(s.session(), 9);
    let id = b"app/page".to_vec();
    assert_eq!(s.version_state(&id), 0);
    assert_eq!(s.record_update(&id), 1);
    assert_eq!(s.version_state(&id), 1);
    assert_eq!(s.record_update(&id), 2);
    let other = b"pages/index".to_vec();
    assert_eq!(s.record_update(&other), 1);
    assert_eq!(s.version_state(&id), 2);
}

#[test]
fn sampling_stops_after_limit() {
    assert!(hmr_keep_sampling(0));
    assert!(hmr_keep_sampling(HMR_SAMPLE_LIMIT));
    assert!(!hmr_keep_sampling(HMR_SAMPLE_LIMIT + 1));
}

#[test]
fn slow_updates_exceed_ten_ms() {
    assert!(!is_slow_update(10));
    assert!(is_slow_update(11));
}

#[test]
fn driver_writes_each_app_page_once() {
    let pages = vec![
        AppPageRoute { original_name: "/a".to_string(), html_endpoint: ep(5) },
        AppPageRoute { original_name: "/b".to_string(), html_endpoint: ep(6) },
    ];
    let mut d = BuildDriver::new(vec![plan_route(&Route::AppPage(pages))]);
    assert_eq!(d.current_route(), 0);
    assert_eq!(d.next_action(), DriverAction::Write(ep(5)));
    d.on_done(false);
    assert_eq!(d.next_action(), DriverAction::Write(ep(6)));
    d.on_done(false);
    assert_eq!(d.next_action(), DriverAction::CollectGarbage);
    d.on_done(false);
    assert_eq!(d.current_route(), 1);
    assert_eq!(d.next_action(), DriverAction::Finish);
}

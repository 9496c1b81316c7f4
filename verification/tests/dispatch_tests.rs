use webpool::dispatch::route;
use webpool::dispatch::Dispatcher;
use webpool::dispatch::Route;
use webpool::http::HTTPUri;

#[test]
fn routes_known_and_unknown_uris() {
    assert_eq!(route(&HTTPUri::new("/")), Route::Hello);
    assert_eq!(route(&HTTPUri::new("/wait")), Route::Wait);
    assert_eq!(route(&HTTPUri::new("/missing")), Route::NotFound);
    assert_eq!(route(&HTTPUri::new("")), Route::NotFound);
}

#[test]
fn blocks_only_while_idle() {
    let mut d: Dispatcher<&'static str> = Dispatcher::new(2);
    assert!(d.wants_blocking_accept());
    let (_, w) = d.on_new_connection("alpha");
    assert!(!d.wants_blocking_accept());
    d.on_result(w);
    assert!(d.wants_blocking_accept());
}

#[test]
fn every_result_finds_its_connection() {
    let mut d: Dispatcher<String> = Dispatcher::new(2);
    let (id1, w1) = d.on_new_connection("alpha".to_string());
    let (id2, w2) = d.on_new_connection("beta".to_string());
    assert_eq!(id1, 1);
    assert_eq!(id2, 2);
    // Two fresh workers: least-loaded assignment spreads the two jobs.
    assert_ne!(w1, w2);
    assert_eq!(d.active_count(), 2);
    let (rid2, conn2) = d.on_result(w2);
    assert_eq!(rid2, id2);
    assert_eq!(conn2, "beta");
    let (rid1, conn1) = d.on_result(w1);
    assert_eq!(rid1, id1);
    assert_eq!(conn1, "alpha");
    assert_eq!(d.active_count(), 0);
    assert_eq!(d.last_issued(), 2);
}

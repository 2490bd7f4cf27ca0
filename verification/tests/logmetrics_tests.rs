use logmetrics::config::Config;
use logmetrics::extract::extract_event;
use logmetrics::reconcile::{image_base_exec, poll_delay_secs, ContainerInfo, WatcherSet};
use logmetrics::store::{sweeper_step, MetricStore, SweeperEvent};
use logmetrics::watcher::{handle_line, step, WatcherAction, WatcherEvent, WatcherState};

fn container(id: &str, names: &[&str], image: &str) -> ContainerInfo {
    ContainerInfo {
        id: id.to_string(),
        names: names.iter().map(|n| n.to_string()).collect(),
        image: image.to_string(),
    }
}

#[test]
fn config_default_values() {
    let c = Config::default();
    assert_eq!(c.docker_images, vec!["atdr.meo.ws/archiveteam/urls-grab".to_string()]);
    assert_eq!(c.docker_socket, "/var/run/docker.sock");
    assert_eq!(c.listen_address, "0.0.0.0:8000");
    assert!(c.validate().is_ok());
}

#[test]
fn config_validate_rejects_empty_images() {
    let c = Config {
        docker_images: vec![],
        docker_socket: "/var/run/docker.sock".to_string(),
        listen_address: "0.0.0.0:8000".to_string(),
    };
    assert_eq!(c.validate(), Err("docker_images can't be empty".to_string()));
}

#[test]
fn config_validate_rejects_empty_socket() {
    let c = Config {
        docker_images: vec!["foo".to_string()],
        docker_socket: String::new(),
        listen_address: "0.0.0.0:8000".to_string(),
    };
    assert_eq!(c.validate(), Err("docker_socket can't be empty".to_string()));
}

#[test]
fn extract_basic_https_line() {
    let ev = extract_event(b"200=200 https://example.com/path").expect("should match");
    assert_eq!(ev.domain, "example.com");
    assert_eq!(ev.status, 200);
}

#[test]
fn extract_http_line_with_prefix_noise() {
    let ev = extract_event(b"some log 17=404 http://foo.bar/x/y").expect("should match");
    assert_eq!(ev.domain, "foo.bar");
    assert_eq!(ev.status, 404);
}

#[test]
fn extract_takes_leftmost_match() {
    let ev = extract_event(b"1=2 http://a/ 3=4 http://b/").expect("should match");
    assert_eq!(ev.domain, "a");
    assert_eq!(ev.status, 2);
}

#[test]
fn extract_leading_zeros_parse() {
    let ev = extract_event(b"9=007 https://z/").expect("should match");
    assert_eq!(ev.status, 7);
}

#[test]
fn extract_rejects_oversized_status() {
    assert!(extract_event(b"1=99999 http://x/").is_none());
    // boundary: largest status that still fits
    let ev = extract_event(b"1=65535 http://x/").expect("should match");
    assert_eq!(ev.status, 65535);
    assert!(extract_event(b"1=65536 http://x/").is_none());
}

#[test]
fn extract_requires_full_shape() {
    assert!(extract_event(b"").is_none());
    assert!(extract_event(b"plain log line").is_none());
    assert!(extract_event(b"=200 https://example.com/").is_none()); // no digits before `=`
    assert!(extract_event(b"1= https://example.com/").is_none()); // no status digits
    assert!(extract_event(b"1=2 ftp://example.com/").is_none()); // wrong scheme
    assert!(extract_event(b"1=2 https://example.com").is_none()); // no closing slash
    assert!(extract_event(b"1=2 https:///path").is_none()); // empty domain
    assert!(extract_event(b"1=2https://example.com/").is_none()); // missing space
}

#[test]
fn extract_drops_non_utf8_domain() {
    let mut line = b"1=200 http://".to_vec();
    line.push(0xff);
    line.extend_from_slice(b"/");
    assert!(extract_event(&line).is_none());
}

#[test]
fn store_counts_records_per_key() {
    let mut store = MetricStore::new();
    store.record("example.com".to_string(), 200, 1);
    store.record("example.com".to_string(), 200, 2);
    store.record("example.com".to_string(), 404, 3);
    store.record("other.org".to_string(), 200, 4);
    let snap = store.snapshot();
    assert_eq!(snap.len(), 3);
    let count_of = |domain: &str, status: u16| {
        snap.iter()
            .find(|r| r.domain == domain && r.status == status)
            .map(|r| r.count)
    };
    assert_eq!(count_of("example.com", 200), Some(2));
    assert_eq!(count_of("example.com", 404), Some(1));
    assert_eq!(count_of("other.org", 200), Some(1));
}

#[test]
fn store_snapshot_is_idempotent() {
    let mut store = MetricStore::new();
    store.record("a.example".to_string(), 200, 10);
    store.record("b.example".to_string(), 500, 11);
    let s1 = store.snapshot();
    let s2 = store.snapshot();
    assert_eq!(s1, s2);
}

#[test]
fn store_sweep_evicts_stale_keys_only() {
    let mut store = MetricStore::new();
    store.record("old.example".to_string(), 200, 0);
    store.record("new.example".to_string(), 200, 50);
    // at t=65 with a 60s TTL, the key last seen at 0 is stale (65 - 0 > 60),
    // the key last seen at 50 is not (65 - 50 <= 60)
    store.sweep(65, 60);
    let snap = store.snapshot();
    assert_eq!(snap.len(), 1);
    assert_eq!(snap[0].domain, "new.example");
}

#[test]
fn store_sweep_keeps_exact_ttl_boundary() {
    let mut store = MetricStore::new();
    store.record("edge.example".to_string(), 200, 5);
    // eviction requires age strictly greater than the TTL
    store.sweep(65, 60);
    assert_eq!(store.snapshot().len(), 1);
    store.sweep(66, 60);
    assert_eq!(store.snapshot().len(), 0);
}

#[test]
fn store_record_after_eviction_restarts_at_one() {
    let mut store = MetricStore::new();
    store.record("example.com".to_string(), 200, 0);
    store.record("example.com".to_string(), 200, 1);
    store.sweep(100, 60);
    assert!(store.snapshot().is_empty());
    store.record("example.com".to_string(), 200, 101);
    let snap = store.snapshot();
    assert_eq!(snap.len(), 1);
    assert_eq!(snap[0].count, 1);
}

#[test]
fn image_base_strips_tag() {
    assert_eq!(image_base_exec("foo:latest"), "foo");
    assert_eq!(image_base_exec("foo"), "foo");
    assert_eq!(image_base_exec("reg.example:5000/foo:1.2"), "reg.example:5000/foo");
    assert_eq!(image_base_exec(""), "");
}

#[test]
fn image_base_keeps_registry_port() {
    // a colon followed by a `/` marks a port, not a tag
    assert_eq!(image_base_exec("a:b/c"), "a:b/c");
    assert_eq!(image_base_exec("reg.example:5000/foo"), "reg.example:5000/foo");
}

#[test]
fn reconciler_matches_image_with_registry_port() {
    let mut set = WatcherSet::new();
    let images = vec!["a:b/c".to_string()];
    let containers = vec![container("c7", &[], "a:b/c")];
    let plan = set.apply_poll(&containers, &images);
    assert_eq!(plan.started.len(), 1);
    assert!(set.contains(&"c7".to_string()));
}

#[test]
fn poll_delay_shortens_after_failure() {
    assert_eq!(poll_delay_secs(true), 60);
    assert_eq!(poll_delay_secs(false), 10);
}

#[test]
fn reconciler_starts_watcher_for_matching_container() {
    let mut set = WatcherSet::new();
    let images = vec!["foo".to_string()];
    let containers = vec![container("c1", &[], "foo:latest")];
    let plan = set.apply_poll(&containers, &images);
    assert_eq!(plan.started.len(), 1);
    assert_eq!(plan.started[0].id, "c1");
    // no name reported: the identity is the display name
    assert_eq!(plan.started[0].name, "c1");
    assert!(plan.stopped.is_empty());
    assert_eq!(set.len(), 1);
    assert!(set.contains(&"c1".to_string()));
}

#[test]
fn reconciler_uses_first_name_when_reported() {
    let mut set = WatcherSet::new();
    let images = vec!["foo".to_string()];
    let containers = vec![container("c9", &["/grabber", "/alias"], "foo")];
    let plan = set.apply_poll(&containers, &images);
    assert_eq!(plan.started.len(), 1);
    assert_eq!(plan.started[0].name, "/grabber");
}

#[test]
fn reconciler_ignores_non_matching_images() {
    let mut set = WatcherSet::new();
    let images = vec!["foo".to_string()];
    let containers = vec![container("c2", &[], "bar:latest")];
    let plan = set.apply_poll(&containers, &images);
    assert!(plan.started.is_empty());
    assert!(plan.stopped.is_empty());
    assert_eq!(set.len(), 0);
}

#[test]
fn reconciler_is_stable_across_repeated_polls() {
    let mut set = WatcherSet::new();
    let images = vec!["foo".to_string()];
    let containers = vec![container("c1", &[], "foo:latest")];
    let p1 = set.apply_poll(&containers, &images);
    assert_eq!(p1.started.len(), 1);
    let p2 = set.apply_poll(&containers, &images);
    assert!(p2.started.is_empty());
    assert!(p2.stopped.is_empty());
    assert_eq!(set.len(), 1);
}

#[test]
fn reconciler_never_duplicates_a_container_id() {
    let mut set = WatcherSet::new();
    let images = vec!["foo".to_string()];
    let containers = vec![
        container("c1", &["/a"], "foo:latest"),
        container("c1", &["/b"], "foo:1.0"),
    ];
    set.apply_poll(&containers, &images);
    assert_eq!(set.len(), 1);
}

#[test]
fn reconciler_stops_watcher_when_container_disappears() {
    let mut set = WatcherSet::new();
    let images = vec!["foo".to_string()];
    let containers = vec![container("c1", &[], "foo:latest")];
    set.apply_poll(&containers, &images);
    let plan = set.apply_poll(&Vec::new(), &images);
    assert!(plan.started.is_empty());
    assert_eq!(plan.stopped.len(), 1);
    assert_eq!(plan.stopped[0].id, "c1");
    assert_eq!(set.len(), 0);
    assert!(!set.contains(&"c1".to_string()));
}

#[test]
fn reconciler_drain_stops_everything() {
    let mut set = WatcherSet::new();
    let images = vec!["foo".to_string(), "bar".to_string()];
    let containers = vec![container("c1", &[], "foo"), container("c2", &[], "bar")];
    set.apply_poll(&containers, &images);
    let stopped = set.drain();
    assert_eq!(stopped.len(), 2);
    assert_eq!(set.len(), 0);
}

#[test]
fn watcher_cancellation_is_terminal_from_every_state() {
    for s in [WatcherState::Streaming, WatcherState::Backoff, WatcherState::Stopped] {
        let (next, action) = step(s, WatcherEvent::Cancelled);
        assert_eq!(next, WatcherState::Stopped);
        assert_eq!(action, WatcherAction::Exit);
    }
}

#[test]
fn watcher_retries_failed_stream_after_backoff() {
    let (s1, a1) = step(WatcherState::Streaming, WatcherEvent::StreamEnded);
    assert_eq!(s1, WatcherState::Backoff);
    assert_eq!(a1, WatcherAction::Sleep(1));
    let (s2, a2) = step(s1, WatcherEvent::BackoffElapsed);
    assert_eq!(s2, WatcherState::Streaming);
    assert_eq!(a2, WatcherAction::OpenStream);
}

#[test]
fn watcher_stopped_state_never_resumes() {
    for e in [WatcherEvent::StreamEnded, WatcherEvent::BackoffElapsed] {
        let (next, action) = step(WatcherState::Stopped, e);
        assert_eq!(next, WatcherState::Stopped);
        assert_eq!(action, WatcherAction::Exit);
    }
}

#[test]
fn end_to_end_line_to_snapshot() {
    // one matching container discovered, one log line, one metric
    let mut set = WatcherSet::new();
    let images = vec!["foo".to_string()];
    let containers = vec![container("c1", &[], "foo:latest")];
    let plan = set.apply_poll(&containers, &images);
    assert_eq!(plan.started.len(), 1);

    let mut store = MetricStore::new();
    let recorded = handle_line(&mut store, b"200=200 https://example.com/path", 0);
    assert!(recorded);
    let snap = store.snapshot();
    assert_eq!(snap.len(), 1);
    assert_eq!(snap[0].domain, "example.com");
    assert_eq!(snap[0].status, 200);
    assert_eq!(snap[0].count, 1);

    // a line without an event leaves the store untouched
    assert!(!handle_line(&mut store, b"irrelevant noise", 1));
    assert_eq!(store.snapshot(), snap);

    // 65 seconds later with a 60s TTL the key is gone
    let mut store2 = store;
    store2.sweep(65, 60);
    assert!(store2.snapshot().is_empty());
}

#[test]
fn poll_step_failure_leaves_set_untouched() {
    let mut set = WatcherSet::new();
    let images = vec!["foo".to_string()];
    let containers = vec![container("c1", &[], "foo:latest")];
    let (_, delay) = set.poll_step(&Some(containers), &images);
    assert_eq!(delay, 60);
    assert_eq!(set.len(), 1);
    // three consecutive failed polls: the set never changes, the delay
    // stays shortened
    for _ in 0..3 {
        let (plan, delay) = set.poll_step(&None, &images);
        assert!(plan.started.is_empty());
        assert!(plan.stopped.is_empty());
        assert_eq!(delay, 10);
        assert_eq!(set.len(), 1);
        assert!(set.contains(&"c1".to_string()));
    }
    let (plan, delay) = set.poll_step(&Some(Vec::new()), &images);
    assert_eq!(delay, 60);
    assert_eq!(plan.stopped.len(), 1);
    assert_eq!(set.len(), 0);
}

#[test]
fn sweeper_tick_evicts_and_goes_on() {
    let mut store = MetricStore::new();
    store.record("a.example".to_string(), 200, 0);
    let go_on = sweeper_step(&mut store, SweeperEvent::Tick, 61);
    assert!(go_on);
    assert!(store.snapshot().is_empty());
}

#[test]
fn sweeper_cancel_stops_without_sweeping() {
    let mut store = MetricStore::new();
    store.record("a.example".to_string(), 200, 0);
    let go_on = sweeper_step(&mut store, SweeperEvent::Cancelled, 1000);
    assert!(!go_on);
    assert_eq!(store.snapshot().len(), 1);
}

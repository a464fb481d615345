use ferrium::metrics::{metrics_response, new, render_values, MetricValues, MetricsInner};

#[test]
fn render_includes_all_series() {
    let m = new();
    MetricsInner::incr(&m.sets_total);
    MetricsInner::set_i64(&m.is_leader, 1);
    let text = m.render();
    assert!(text.contains("ferrium_sets_total 1"));
    assert!(text.contains("ferrium_is_leader 1"));
    assert!(text.contains("ferrium_gets_total 0"));
}

#[test]
fn render_values_writes_the_exposition_format() {
    let v = MetricValues {
        gets_total: 3,
        sets_total: 2,
        dels_total: 1,
        not_leader_total: 0,
        elections_won_total: 7,
        current_term: 12,
        is_leader: -1,
        commit_index: 40,
        log_len: 41,
    };
    let expected = "# TYPE ferrium_gets_total counter\nferrium_gets_total 3\n\
# TYPE ferrium_sets_total counter\nferrium_sets_total 2\n\
# TYPE ferrium_dels_total counter\nferrium_dels_total 1\n\
# TYPE ferrium_not_leader_total counter\nferrium_not_leader_total 0\n\
# TYPE ferrium_elections_won_total counter\nferrium_elections_won_total 7\n\
# TYPE ferrium_current_term gauge\nferrium_current_term 12\n\
# TYPE ferrium_is_leader gauge\nferrium_is_leader -1\n\
# TYPE ferrium_commit_index gauge\nferrium_commit_index 40\n\
# TYPE ferrium_log_entries gauge\nferrium_log_entries 41\n";
    assert_eq!(render_values(&v), expected);
}

#[test]
fn unsigned_gauges_show_as_signed_samples() {
    let v = MetricValues {
        gets_total: u64::MAX,
        sets_total: 0,
        dels_total: 0,
        not_leader_total: 0,
        elections_won_total: 0,
        current_term: u64::MAX,
        is_leader: 0,
        commit_index: 0,
        log_len: 0,
    };
    let text = render_values(&v);
    assert!(text.contains("ferrium_gets_total 18446744073709551615\n"));
    assert!(text.contains("ferrium_current_term -1\n"));
}

#[test]
fn counters_and_gauges_reach_the_text() {
    let m = new();
    MetricsInner::incr(&m.gets_total);
    MetricsInner::incr(&m.gets_total);
    MetricsInner::set_u64(&m.commit_index, 9);
    let v = m.values();
    assert_eq!(v.gets_total, 2);
    assert_eq!(v.commit_index, 9);
    assert_eq!(m.render(), render_values(&v));
}

#[test]
fn metrics_response_frames_the_body() {
    assert_eq!(
        metrics_response("a 1\n"),
        "HTTP/1.1 200 OK\r\nContent-Type: text/plain; version=0.0.4\r\nContent-Length: 4\r\nConnection: close\r\n\r\na 1\n"
    );
    // The length counts bytes, not characters.
    assert!(metrics_response("é").contains("Content-Length: 2\r\n"));
}

//! Metrics: values, families and the text that they are shown in.
use tilefeed::metrics::{
    bind_addr, escape_help, escape_label, fast_buckets, result_label, slow_buckets, Counter, Family,
    Gauge, GaugeGuard, Histogram, Metrics, CONTENT_TYPE,
};

fn format_float(value: f64) -> String {
    if value == value.trunc() && value.abs() < 1e15 {
        format!("{:.1}", value)
    } else {
        format!("{}", value)
    }
}

/// Record a value: the slot of the first bound that it does not exceed.
fn observe(h: &mut Histogram, value: f64) {
    let slot = h
        .bounds
        .iter()
        .position(|bound| value <= bound.parse::<f64>().unwrap())
        .unwrap_or(h.bounds.len());
    let sum = format_float(h.sum.parse::<f64>().unwrap() + value);
    h.observe(slot, sum);
}

#[test]
fn test_gauge_guard_restores_value() {
    let mut g = Gauge::default();
    {
        let guard = GaugeGuard::new(&mut g);
        assert_eq!(g.get(), 1);
        guard.release(&mut g);
    }
    assert_eq!(g.get(), 0);
}

#[test]
fn test_histogram_counts_and_sum() {
    let mut h = Histogram::new(fast_buckets());
    observe(&mut h, 0.002);
    observe(&mut h, 0.2);
    observe(&mut h, 100.0); // above every bound, so it lands in the +Inf slot

    assert_eq!(h.count(), 3);
    assert!((h.sum.parse::<f64>().unwrap() - 100.202).abs() < 1e-9);

    // Each observation lands in exactly one slot; cumulative counts are
    // summed at render time rather than stored.
    assert_eq!(h.counts[1], 1); // 0.002 -> le=0.005
    assert_eq!(h.counts[6], 1); // 0.2   -> le=0.25
    assert_eq!(h.counts[fast_buckets().len()], 1); // 100.0 -> +Inf
}

#[test]
fn test_histogram_observe_touches_one_slot() {
    let mut h = Histogram::new(fast_buckets());
    observe(&mut h, 0.002);
    let touched = h.counts.iter().filter(|c| **c > 0).count();
    assert_eq!(touched, 1);
}

#[test]
fn test_registry_render_includes_build_info_and_uptime() {
    let out = Metrics::started("0.8.0").render("12.0");
    assert!(out.contains("tilefeed_build_info{version=\"0.8.0\"} 1\n"));
    assert!(out.contains("# TYPE tilefeed_uptime_seconds gauge"));
    assert!(out.contains("tilefeed_uptime_seconds 12.0\n"));
    assert!(out.contains("tilefeed_sse_clients 0\n"));
}

#[test]
fn test_record_startup_exports_mode() {
    let mut m = Metrics::started("0.8.0");
    m.record_startup("serve", false);
    let out = m.render("0.1");
    assert!(out.contains("tilefeed_startup_info{command=\"serve\",generated=\"false\"} 1"));
}

#[test]
fn test_counter_add_and_inc() {
    let mut c = Counter::default();
    assert_eq!(c.get(), 0);
    c.inc();
    c.add(41);
    assert_eq!(c.get(), 42);
}

#[test]
fn test_gauge_up_and_down() {
    let mut g = Gauge::default();
    g.inc();
    g.inc();
    g.dec();
    assert_eq!(g.get(), 1);
    g.set(10);
    assert_eq!(g.get(), 10);
}

#[test]
fn test_bind_addr_brackets_ipv6() {
    assert_eq!(bind_addr("127.0.0.1", 3000), "127.0.0.1:3000");
    assert_eq!(bind_addr("0.0.0.0", 9090), "0.0.0.0:9090");
    assert_eq!(bind_addr("::1", 9090), "[::1]:9090");
    assert_eq!(bind_addr("::", 9090), "[::]:9090");
    // Already bracketed hosts are left alone
    assert_eq!(bind_addr("[::1]", 9090), "[::1]:9090");
}

#[test]
fn test_known_series_are_registered_at_zero() {
    // A counter that first appears at 1 gives rate() nothing to compare
    // against, so the alerts documented for rare failures would stay silent.
    let mut m = Metrics::new();
    m.register_known_series();
    let out = m.render("1.5");

    assert!(out.contains("tilefeed_listener_reconnects_total 0"));
    assert!(out.contains("tilefeed_webhook_failures_total 0"));
    assert!(out.contains("tilefeed_webhook_retries_total 0"));
    assert!(out.contains("tilefeed_notifications_total{result=\"unknown_layer\"} 0"));
    assert!(out.contains("tilefeed_webhook_requests_total{result=\"transport_error\"} 0"));
}

#[test]
fn test_histogram_render_is_cumulative() {
    let mut family = Family::new("test_hist", "Test histogram.", &["source"], Histogram::new(fast_buckets()));
    observe(family.with(&["parks"]), 0.002);
    observe(family.with(&["parks"]), 2.0);

    let mut out = String::new();
    family.encode(&mut out);

    assert!(out.contains("# TYPE test_hist histogram"));
    assert!(out.contains("test_hist_bucket{source=\"parks\",le=\"0.005\"} 1"));
    assert!(out.contains("test_hist_bucket{source=\"parks\",le=\"2.5\"} 2"));
    assert!(out.contains("test_hist_bucket{source=\"parks\",le=\"+Inf\"} 2"));
    assert!(out.contains("test_hist_count{source=\"parks\"} 2"));
    assert!(out.contains("test_hist_sum{source=\"parks\"} 2.002"));
}

#[test]
fn test_family_reuses_child_per_label_set() {
    let mut family = Family::new("test_total", "Test counter.", &["source"], Counter::default());
    family.with(&["a"]).inc();
    family.with(&["a"]).inc();
    family.with(&["b"]).inc();

    assert_eq!(family.with(&["a"]).get(), 2);
    assert_eq!(family.with(&["b"]).get(), 1);
}

#[test]
fn test_counter_family_render_sorted() {
    let mut family = Family::new(
        "test_total",
        "Test counter.",
        &["source", "result"],
        Counter::default(),
    );
    family.with(&["zebra", "hit"]).inc();
    family.with(&["alpha", "hit"]).add(3);

    let mut out = String::new();
    family.encode(&mut out);

    let alpha = out.find("source=\"alpha\"").unwrap();
    let zebra = out.find("source=\"zebra\"").unwrap();
    assert!(alpha < zebra, "label sets should render sorted");
    assert!(out.contains("test_total{source=\"alpha\",result=\"hit\"} 3"));
    assert!(out.contains("# HELP test_total Test counter."));
}

#[test]
fn test_empty_family_renders_nothing() {
    let family = Family::new("test_total", "Test counter.", &["source"], Counter::default());
    let mut out = String::new();
    family.encode(&mut out);
    assert!(out.is_empty());
}

#[test]
fn test_unlabeled_family_has_no_label_block() {
    let mut family = Family::new("test_total", "Test counter.", &[], Counter::default());
    family.get().inc();

    let mut out = String::new();
    family.encode(&mut out);
    assert!(out.contains("test_total 1"));
    assert!(!out.contains('{'));
}

#[test]
fn test_label_values_are_escaped() {
    let mut family = Family::new("test_total", "Test counter.", &["source"], Counter::default());
    family.with(&["we\"ird\\path"]).inc();

    let mut out = String::new();
    family.encode(&mut out);
    assert!(out.contains("source=\"we\\\"ird\\\\path\""));
}

#[test]
fn test_result_label() {
    let ok: Result<(), anyhow::Error> = Ok(());
    let err: Result<(), anyhow::Error> = Err(anyhow::Error::msg("boom"));
    assert_eq!(result_label(&ok), "success");
    assert_eq!(result_label(&err), "failure");
}

#[test]
fn test_render_has_no_duplicate_help_lines() {
    let mut m = Metrics::new();
    m.tile_requests.with(&["parks", "hit"]).inc();
    m.tile_requests.with(&["parks", "empty"]).inc();

    let out = m.render("1.5");
    let help_lines = out
        .lines()
        .filter(|l| l.starts_with("# HELP tilefeed_tile_requests_total"))
        .count();
    assert_eq!(help_lines, 1);
}

#[test]
fn counters_start_over_behind_the_largest_number() {
    let mut c = Counter { value: u64::MAX };
    c.add(3);
    assert_eq!(c.get(), 2);
    let mut g = Gauge { value: i64::MAX };
    g.inc();
    assert_eq!(g.get(), i64::MIN);
    g.dec();
    assert_eq!(g.get(), i64::MAX);
}

#[test]
fn gauges_show_their_sign() {
    let mut family = Family::new("g", "Help \\ with\nlines \"quoted\".", &["a", "b"], Gauge::default());
    family.with(&["x", "2"]).set(-5);
    family.with(&["x", "10"]).set(i64::MIN);
    let mut out = String::from("before\n");
    family.encode(&mut out);
    assert_eq!(
        out,
        "before\n# HELP g Help \\\\ with\\nlines \"quoted\".\n# TYPE g gauge\n\
         g{a=\"x\",b=\"10\"} -9223372036854775808\ng{a=\"x\",b=\"2\"} -5\n"
    );
}

#[test]
fn histograms_never_show_more_than_their_total() {
    let mut family = Family::new("h", "H.", &[], Histogram::new(vec!["1.0".to_string(), "2.0".to_string()]));
    let h = family.get();
    h.counts = vec![3, 4, 5];
    h.count = 6;
    let mut out = String::new();
    family.encode(&mut out);
    assert_eq!(
        out,
        "# HELP h H.\n# TYPE h histogram\nh_bucket{le=\"1.0\"} 3\nh_bucket{le=\"2.0\"} 6\n\
         h_bucket{le=\"+Inf\"} 6\nh_sum 0.0\nh_count 6\n"
    );
}

#[test]
fn escapes() {
    assert_eq!(escape_label("a\\b\"c\nd"), "a\\\\b\\\"c\\nd");
    assert_eq!(escape_help("a\\b\"c\nd"), "a\\\\b\"c\\nd");
    assert_eq!(CONTENT_TYPE, "text/plain; version=0.0.4; charset=utf-8");
    assert_eq!(slow_buckets().last().unwrap(), "600.0");
}

fn unescape(text: &str) -> String {
    let (mut out, mut chars) = (String::new(), text.chars());
    while let Some(c) = chars.next() {
        out.push(match c {
            '\\' => match chars.next() {
                Some('n') => '\n',
                Some(other) => other,
                None => '\\',
            },
            c => c,
        });
    }
    out
}

#[test]
fn escapes_can_be_undone() {
    for text in ["", "plain", "a\\n", "a\n", "\\\\\"\n\"", "\\"] {
        assert_eq!(unescape(&escape_label(text)), text);
        assert_eq!(unescape(&escape_help(text)), text);
    }
}

#[test]
fn histogram_slots_add_up_to_the_count() {
    let mut h = Histogram::new(fast_buckets());
    for value in [0.002, 0.2, 0.2, 7.0, 100.0] {
        observe(&mut h, value);
        assert_eq!(h.counts.iter().sum::<u64>(), h.count());
    }
    assert_eq!(h.count(), 5);
}

#[test]
fn a_label_set_is_kept_once() {
    let mut family = Family::new("f", "F.", &["a", "b"], Counter::default());
    for labels in [["x", "y"], ["y", "x"], ["x", "y"], ["x", ""]] {
        family.with(&labels).inc();
    }
    let mut out = String::new();
    family.encode(&mut out);
    assert_eq!(
        out,
        "# HELP f F.\n# TYPE f counter\nf{a=\"x\",b=\"\"} 1\nf{a=\"x\",b=\"y\"} 2\n\
         f{a=\"y\",b=\"x\"} 1\n"
    );
}

#[test]
fn recording_keeps_the_registry_in_order() {
    let mut m = Metrics::started("1");
    observe(m.update_duration.with(&["parks"]), 0.2);
    m.tile_requests.with(&["parks", "hit"]).inc();
    let out = m.render("1.0");
    assert!(out.contains("tilefeed_update_duration_seconds_count{source=\"parks\"} 1\n"));
    assert!(out.contains("tilefeed_tile_requests_total{source=\"parks\",result=\"hit\"} 1\n"));
}

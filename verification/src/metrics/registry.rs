//! Every metric of the pipeline.
use crate::metrics::exposition::slice_texts;
use crate::metrics::family::{
    counter_text, gauge_text, histogram_text, histograms_wf, place_of_labels, Family, Labels,
};
use crate::metrics::value::{
    fast_bounds, fast_buckets, slow_bounds, slow_buckets, Counter, Gauge, Histogram,
};
use crate::text::{has_part, lemma_beginning, texts};
use vstd::prelude::*;

verus! {

/// A family as it is declared: its name, its help text and its labels, and no
/// label sets yet.
pub open spec fn declared<M>(
    f: Family<M>,
    name: Seq<char>,
    help: Seq<char>,
    labels: Seq<Seq<char>>,
) -> bool {
    &&& f.wf()
    &&& f.spec_name() == name
    &&& f.spec_help() == help
    &&& f.spec_label_names() == labels
    &&& f.keys() == Seq::<Labels>::empty()
    &&& f.spec_children() == Seq::<M>::empty()
}

/// A declared histogram family with its bucket bounds.
pub open spec fn declared_histogram(
    f: Family<Histogram>,
    name: Seq<char>,
    help: Seq<char>,
    labels: Seq<Seq<char>>,
    bounds: Seq<Seq<char>>,
) -> bool {
    &&& declared(f, name, help, labels)
    &&& f.spec_template().wf()
    &&& texts(f.spec_template().bounds@) == bounds
}

/// Every metric of the pipeline.
#[derive(Debug)]
pub struct Metrics {
    // --- Process ---
    /// Always 1; carries the version as a label for dashboards to join on.
    pub build_info: Family<Gauge>,
    /// Always 1; carries the command and whether it generates as labels.
    pub startup_info: Family<Gauge>,
    // --- Tile serving ---
    /// `result` is one of: hit, empty, not_modified, source_not_found, error.
    pub tile_requests: Family<Counter>,
    pub tile_bytes: Family<Counter>,
    pub tile_read_duration: Family<Histogram>,
    /// `result` is one of: ok, source_not_found.
    pub tilejson_requests: Family<Counter>,
    pub sse_clients: Family<Gauge>,
    pub sse_connections: Family<Counter>,
    pub mbtiles_tiles: Family<Gauge>,
    // --- Full generation ---
    /// `result` is `success` or `failure`.
    pub generate_total: Family<Counter>,
    pub generate_duration: Family<Histogram>,
    // --- Incremental updates ---
    /// `result` is one of: routed, unknown_layer, invalid_payload.
    pub notifications: Family<Counter>,
    pub update_batches: Family<Counter>,
    pub tiles_written: Family<Counter>,
    pub tiles_deleted: Family<Counter>,
    pub tile_encode_errors: Family<Counter>,
    pub update_errors: Family<Counter>,
    pub update_duration: Family<Histogram>,
    pub listener_reconnects: Family<Counter>,
    // --- Webhooks ---
    /// `result` is one of: success, http_error, transport_error.
    pub webhook_requests: Family<Counter>,
    pub webhook_retries: Family<Counter>,
    pub webhook_failures: Family<Counter>,
    pub webhook_duration: Family<Histogram>,
    // --- Publishing ---
    /// `result` is `success` or `failure`.
    pub publish_total: Family<Counter>,
    pub publish_duration: Family<Histogram>,
}

impl Metrics {
    /// All families are well formed, and each has its labels. Recording keeps this.
    pub open spec fn wf(&self) -> bool {
        &&& self.build_info.wf()
        &&& self.build_info.spec_label_names().len() == 1
        &&& self.startup_info.wf()
        &&& self.startup_info.spec_label_names().len() == 2
        &&& self.tile_requests.wf()
        &&& self.tile_requests.spec_label_names().len() == 2
        &&& self.tile_bytes.wf()
        &&& self.tile_bytes.spec_label_names().len() == 1
        &&& self.tile_read_duration.wf()
        &&& self.tile_read_duration.spec_label_names().len() == 1
        &&& histograms_wf(self.tile_read_duration)
        &&& self.tile_read_duration.spec_template().wf()
        &&& self.tilejson_requests.wf()
        &&& self.tilejson_requests.spec_label_names().len() == 2
        &&& self.sse_clients.wf()
        &&& self.sse_clients.spec_label_names().len() == 0
        &&& self.sse_connections.wf()
        &&& self.sse_connections.spec_label_names().len() == 0
        &&& self.mbtiles_tiles.wf()
        &&& self.mbtiles_tiles.spec_label_names().len() == 1
        &&& self.generate_total.wf()
        &&& self.generate_total.spec_label_names().len() == 2
        &&& self.generate_duration.wf()
        &&& self.generate_duration.spec_label_names().len() == 1
        &&& histograms_wf(self.generate_duration)
        &&& self.generate_duration.spec_template().wf()
        &&& self.notifications.wf()
        &&& self.notifications.spec_label_names().len() == 1
        &&& self.update_batches.wf()
        &&& self.update_batches.spec_label_names().len() == 1
        &&& self.tiles_written.wf()
        &&& self.tiles_written.spec_label_names().len() == 1
        &&& self.tiles_deleted.wf()
        &&& self.tiles_deleted.spec_label_names().len() == 1
        &&& self.tile_encode_errors.wf()
        &&& self.tile_encode_errors.spec_label_names().len() == 1
        &&& self.update_errors.wf()
        &&& self.update_errors.spec_label_names().len() == 1
        &&& self.update_duration.wf()
        &&& self.update_duration.spec_label_names().len() == 1
        &&& histograms_wf(self.update_duration)
        &&& self.update_duration.spec_template().wf()
        &&& self.listener_reconnects.wf()
        &&& self.listener_reconnects.spec_label_names().len() == 0
        &&& self.webhook_requests.wf()
        &&& self.webhook_requests.spec_label_names().len() == 1
        &&& self.webhook_retries.wf()
        &&& self.webhook_retries.spec_label_names().len() == 0
        &&& self.webhook_failures.wf()
        &&& self.webhook_failures.spec_label_names().len() == 0
        &&& self.webhook_duration.wf()
        &&& self.webhook_duration.spec_label_names().len() == 0
        &&& histograms_wf(self.webhook_duration)
        &&& self.webhook_duration.spec_template().wf()
        &&& self.publish_total.wf()
        &&& self.publish_total.spec_label_names().len() == 2
        &&& self.publish_duration.wf()
        &&& self.publish_duration.spec_label_names().len() == 1
        &&& histograms_wf(self.publish_duration)
        &&& self.publish_duration.spec_template().wf()
    }

    /// All families as they are declared, none of them with a label set.
    pub open spec fn all_declared(&self) -> bool {
        &&& declared(
            self.build_info,
            "tilefeed_build_info"@,
            "Build information; always 1, the version is carried as a label."@,
            seq!["version"@],
        )
        &&& declared(
            self.startup_info,
            "tilefeed_startup_info"@,
            "How the process was started; always 1, the command and whether it generates are labels."@,
            seq!["command"@, "generated"@],
        )
        &&& declared(
            self.tile_requests,
            "tilefeed_tile_requests_total"@,
            "Tile requests served, by source and result."@,
            seq!["source"@, "result"@],
        )
        &&& declared(
            self.tile_bytes,
            "tilefeed_tile_bytes_total"@,
            "Total bytes of tile data served, by source."@,
            seq!["source"@],
        )
        &&& declared_histogram(
            self.tile_read_duration,
            "tilefeed_tile_read_duration_seconds"@,
            "Time spent reading a tile out of MBTiles, by source."@,
            seq!["source"@],
            fast_bounds(),
        )
        &&& declared(
            self.tilejson_requests,
            "tilefeed_tilejson_requests_total"@,
            "TileJSON requests served, by source and result."@,
            seq!["source"@, "result"@],
        )
        &&& declared(
            self.sse_clients,
            "tilefeed_sse_clients"@,
            "SSE clients currently connected to /events."@,
            Seq::empty(),
        )
        &&& declared(
            self.sse_connections,
            "tilefeed_sse_connections_total"@,
            "SSE connections opened since start."@,
            Seq::empty(),
        )
        &&& declared(
            self.mbtiles_tiles,
            "tilefeed_mbtiles_tiles"@,
            "Tiles in the MBTiles file when it was opened, by source."@,
            seq!["source"@],
        )
        &&& declared(
            self.generate_total,
            "tilefeed_generate_total"@,
            "Full tile generation runs, by source and result."@,
            seq!["source"@, "result"@],
        )
        &&& declared_histogram(
            self.generate_duration,
            "tilefeed_generate_duration_seconds"@,
            "Duration of full tile generation, by source."@,
            seq!["source"@],
            slow_bounds(),
        )
        &&& declared(
            self.notifications,
            "tilefeed_notifications_total"@,
            "LISTEN/NOTIFY payloads received, by routing result."@,
            seq!["result"@],
        )
        &&& declared(
            self.update_batches,
            "tilefeed_update_batches_total"@,
            "Debounced update batches applied, by source."@,
            seq!["source"@],
        )
        &&& declared(
            self.tiles_written,
            "tilefeed_tiles_written_total"@,
            "Tiles written into MBTiles by incremental updates, by source."@,
            seq!["source"@],
        )
        &&& declared(
            self.tiles_deleted,
            "tilefeed_tiles_deleted_total"@,
            "Tiles deleted from MBTiles by incremental updates (emptied tiles), by source."@,
            seq!["source"@],
        )
        &&& declared(
            self.tile_encode_errors,
            "tilefeed_tile_encode_errors_total"@,
            "Tiles that failed to regenerate during an incremental update, by source."@,
            seq!["source"@],
        )
        &&& declared(
            self.update_errors,
            "tilefeed_update_errors_total"@,
            "Incremental update batches that failed, by source."@,
            seq!["source"@],
        )
        &&& declared_histogram(
            self.update_duration,
            "tilefeed_update_duration_seconds"@,
            "Duration of an incremental update batch, by source."@,
            seq!["source"@],
            slow_bounds(),
        )
        &&& declared(
            self.listener_reconnects,
            "tilefeed_listener_reconnects_total"@,
            "PostgreSQL LISTEN/NOTIFY reconnection attempts."@,
            Seq::empty(),
        )
        &&& declared(
            self.webhook_requests,
            "tilefeed_webhook_requests_total"@,
            "Webhook HTTP attempts, by result."@,
            seq!["result"@],
        )
        &&& declared(
            self.webhook_retries,
            "tilefeed_webhook_retries_total"@,
            "Webhook delivery retries."@,
            Seq::empty(),
        )
        &&& declared(
            self.webhook_failures,
            "tilefeed_webhook_failures_total"@,
            "Webhook deliveries abandoned after exhausting retries."@,
            Seq::empty(),
        )
        &&& declared_histogram(
            self.webhook_duration,
            "tilefeed_webhook_duration_seconds"@,
            "Duration of a single webhook HTTP attempt."@,
            Seq::empty(),
            fast_bounds(),
        )
        &&& declared(
            self.publish_total,
            "tilefeed_publish_total"@,
            "MBTiles artifact publishes, by backend and result."@,
            seq!["backend"@, "result"@],
        )
        &&& declared_histogram(
            self.publish_duration,
            "tilefeed_publish_duration_seconds"@,
            "Duration of an MBTiles artifact publish, by backend."@,
            seq!["backend"@],
            slow_bounds(),
        )
    }

    /// All families, none of them with a label set.
    pub fn new() -> (m: Metrics)
        ensures
            m.wf(),
            m.all_declared(),
    {
        let m = Metrics {
            build_info: gauges(
                "tilefeed_build_info",
                "Build information; always 1, the version is carried as a label.",
                &["version"],
            ),
            startup_info: gauges(
                "tilefeed_startup_info",
                "How the process was started; always 1, the command and whether it generates are labels.",
                &["command", "generated"],
            ),
            tile_requests: counters(
                "tilefeed_tile_requests_total",
                "Tile requests served, by source and result.",
                &["source", "result"],
            ),
            tile_bytes: counters(
                "tilefeed_tile_bytes_total",
                "Total bytes of tile data served, by source.",
                &["source"],
            ),
            tile_read_duration: histograms(
                "tilefeed_tile_read_duration_seconds",
                "Time spent reading a tile out of MBTiles, by source.",
                &["source"],
                fast_buckets(),
            ),
            tilejson_requests: counters(
                "tilefeed_tilejson_requests_total",
                "TileJSON requests served, by source and result.",
                &["source", "result"],
            ),
            sse_clients: gauges(
                "tilefeed_sse_clients",
                "SSE clients currently connected to /events.",
                &[],
            ),
            sse_connections: counters(
                "tilefeed_sse_connections_total",
                "SSE connections opened since start.",
                &[],
            ),
            mbtiles_tiles: gauges(
                "tilefeed_mbtiles_tiles",
                "Tiles in the MBTiles file when it was opened, by source.",
                &["source"],
            ),
            generate_total: counters(
                "tilefeed_generate_total",
                "Full tile generation runs, by source and result.",
                &["source", "result"],
            ),
            generate_duration: histograms(
                "tilefeed_generate_duration_seconds",
                "Duration of full tile generation, by source.",
                &["source"],
                slow_buckets(),
            ),
            notifications: counters(
                "tilefeed_notifications_total",
                "LISTEN/NOTIFY payloads received, by routing result.",
                &["result"],
            ),
            update_batches: counters(
                "tilefeed_update_batches_total",
                "Debounced update batches applied, by source.",
                &["source"],
            ),
            tiles_written: counters(
                "tilefeed_tiles_written_total",
                "Tiles written into MBTiles by incremental updates, by source.",
                &["source"],
            ),
            tiles_deleted: counters(
                "tilefeed_tiles_deleted_total",
                "Tiles deleted from MBTiles by incremental updates (emptied tiles), by source.",
                &["source"],
            ),
            tile_encode_errors: counters(
                "tilefeed_tile_encode_errors_total",
                "Tiles that failed to regenerate during an incremental update, by source.",
                &["source"],
            ),
            update_errors: counters(
                "tilefeed_update_errors_total",
                "Incremental update batches that failed, by source.",
                &["source"],
            ),
            update_duration: histograms(
                "tilefeed_update_duration_seconds",
                "Duration of an incremental update batch, by source.",
                &["source"],
                slow_buckets(),
            ),
            listener_reconnects: counters(
                "tilefeed_listener_reconnects_total",
                "PostgreSQL LISTEN/NOTIFY reconnection attempts.",
                &[],
            ),
            webhook_requests: counters(
                "tilefeed_webhook_requests_total",
                "Webhook HTTP attempts, by result.",
                &["result"],
            ),
            webhook_retries: counters(
                "tilefeed_webhook_retries_total",
                "Webhook delivery retries.",
                &[],
            ),
            webhook_failures: counters(
                "tilefeed_webhook_failures_total",
                "Webhook deliveries abandoned after exhausting retries.",
                &[],
            ),
            webhook_duration: histograms(
                "tilefeed_webhook_duration_seconds",
                "Duration of a single webhook HTTP attempt.",
                &[],
                fast_buckets(),
            ),
            publish_total: counters(
                "tilefeed_publish_total",
                "MBTiles artifact publishes, by backend and result.",
                &["backend", "result"],
            ),
            publish_duration: histograms(
                "tilefeed_publish_duration_seconds",
                "Duration of an MBTiles artifact publish, by backend.",
                &["backend"],
                slow_buckets(),
            ),
        };
        proof {
            assert(m.build_info.spec_label_names() =~= seq!["version"@]);
            assert(m.startup_info.spec_label_names() =~= seq!["command"@, "generated"@]);
            assert(m.tile_requests.spec_label_names() =~= seq!["source"@, "result"@]);
            assert(m.tile_bytes.spec_label_names() =~= seq!["source"@]);
            assert(m.tile_read_duration.spec_label_names() =~= seq!["source"@]);
            assert(m.tilejson_requests.spec_label_names() =~= seq!["source"@, "result"@]);
            assert(m.sse_clients.spec_label_names() =~= Seq::<Seq<char>>::empty());
            assert(m.sse_connections.spec_label_names() =~= Seq::<Seq<char>>::empty());
            assert(m.mbtiles_tiles.spec_label_names() =~= seq!["source"@]);
            assert(m.generate_total.spec_label_names() =~= seq!["source"@, "result"@]);
            assert(m.generate_duration.spec_label_names() =~= seq!["source"@]);
            assert(m.notifications.spec_label_names() =~= seq!["result"@]);
            assert(m.update_batches.spec_label_names() =~= seq!["source"@]);
            assert(m.tiles_written.spec_label_names() =~= seq!["source"@]);
            assert(m.tiles_deleted.spec_label_names() =~= seq!["source"@]);
            assert(m.tile_encode_errors.spec_label_names() =~= seq!["source"@]);
            assert(m.update_errors.spec_label_names() =~= seq!["source"@]);
            assert(m.update_duration.spec_label_names() =~= seq!["source"@]);
            assert(m.listener_reconnects.spec_label_names() =~= Seq::<Seq<char>>::empty());
            assert(m.webhook_requests.spec_label_names() =~= seq!["result"@]);
            assert(m.webhook_retries.spec_label_names() =~= Seq::<Seq<char>>::empty());
            assert(m.webhook_failures.spec_label_names() =~= Seq::<Seq<char>>::empty());
            assert(m.webhook_duration.spec_label_names() =~= Seq::<Seq<char>>::empty());
            assert(m.publish_total.spec_label_names() =~= seq!["backend"@, "result"@]);
            assert(m.publish_duration.spec_label_names() =~= seq!["backend"@]);
        }
        m
    }

    /// Make the series whose label sets are known up front, so that they read 0
    /// instead of being absent. A counter that first appears at 1 gives a rate
    /// nothing to compare against, and an alert on a rare failure would stay
    /// silent on its first occurrence.
    pub fn register_known_series(&mut self)
        requires
            old(self).wf(),
        ensures
            final(self).wf(),
            known_series(*old(self), *final(self)),
    {
        let none: [&str; 0] = [];
        assert(slice_texts(none@) =~= Seq::<Seq<char>>::empty());
        set_gauge(&mut self.sse_clients, none.as_slice(), 0);
        touch(&mut self.sse_connections, none.as_slice());
        touch(&mut self.listener_reconnects, none.as_slice());
        touch(&mut self.webhook_retries, none.as_slice());
        touch(&mut self.webhook_failures, none.as_slice());
        touch_one(&mut self.notifications, "routed");
        touch_one(&mut self.notifications, "unknown_layer");
        touch_one(&mut self.notifications, "invalid_payload");
        touch_one(&mut self.webhook_requests, "success");
        touch_one(&mut self.webhook_requests, "http_error");
        touch_one(&mut self.webhook_requests, "transport_error");
    }

    /// Record how the process was started.
    pub fn record_startup(&mut self, command: &str, generated: bool)
        requires
            old(self).wf(),
        ensures
            final(self).wf(),
            same_declaration(old(self).startup_info, final(self).startup_info),
            same_but_info(*old(self), *final(self)),
            final(self).build_info == old(self).build_info,
            series(final(self).startup_info) == with_gauge(
                series(old(self).startup_info),
                seq![
                    command@,
                    if generated {
                        "true"@
                    } else {
                        "false"@
                    },
                ],
                1,
            ),
    {
        let word: &str = if generated { "true" } else { "false" };
        let labels: [&str; 2] = [command, word];
        assert(slice_texts(labels@) =~= seq![command@, word@]);
        set_gauge(&mut self.startup_info, labels.as_slice(), 1);
    }

    /// The metrics of a process that has just started: its version, and the
    /// known series at zero.
    pub fn started(version: &str) -> (m: Metrics)
        ensures
            m.wf(),
            exists|fresh: Metrics, versioned: Metrics|
                fresh.all_declared() && #[trigger] states_version(fresh, versioned, version@)
                    && #[trigger] known_series(versioned, m),
    {
        let mut m: Metrics = Metrics::new();
        let ghost fresh = m;
        let labels: [&str; 1] = [version];
        assert(slice_texts(labels@) =~= seq![version@]);
        set_gauge(&mut m.build_info, labels.as_slice(), 1);
        let ghost versioned = m;
        assert(states_version(fresh, versioned, version@));
        m.register_known_series();
        assert(known_series(versioned, m));
        m
    }

    /// What all metrics show, given the text of the uptime in seconds.
    pub open spec fn shown(&self, uptime: Seq<char>) -> Seq<char> {
        gauge_text(self.build_info)
            + "# HELP tilefeed_uptime_seconds Seconds since the process started.\n"@
            + "# TYPE tilefeed_uptime_seconds gauge\n"@ + "tilefeed_uptime_seconds "@ + uptime + "\n"@
            + gauge_text(self.startup_info)
            + counter_text(self.tile_requests)
            + counter_text(self.tile_bytes)
            + histogram_text(self.tile_read_duration)
            + counter_text(self.tilejson_requests)
            + gauge_text(self.sse_clients)
            + counter_text(self.sse_connections)
            + gauge_text(self.mbtiles_tiles)
            + counter_text(self.generate_total)
            + histogram_text(self.generate_duration)
            + counter_text(self.notifications)
            + counter_text(self.update_batches)
            + counter_text(self.tiles_written)
            + counter_text(self.tiles_deleted)
            + counter_text(self.tile_encode_errors)
            + counter_text(self.update_errors)
            + histogram_text(self.update_duration)
            + counter_text(self.listener_reconnects)
            + counter_text(self.webhook_requests)
            + counter_text(self.webhook_retries)
            + counter_text(self.webhook_failures)
            + histogram_text(self.webhook_duration)
            + counter_text(self.publish_total)
            + histogram_text(self.publish_duration)
    }

    /// Render every metric in the text exposition format.
    pub fn render(&self, uptime: &str) -> (out: String)
        requires
            self.wf(),
        ensures
            out@ == self.shown(uptime@),
    {
        let mut out: String = String::new();
        self.build_info.encode(&mut out);
        assert(out@ =~= gauge_text(self.build_info));
        out.append("# HELP tilefeed_uptime_seconds Seconds since the process started.\n");
        out.append("# TYPE tilefeed_uptime_seconds gauge\n");
        out.append("tilefeed_uptime_seconds ");
        out.append(uptime);
        out.append("\n");
        self.startup_info.encode(&mut out);
        self.tile_requests.encode(&mut out);
        self.tile_bytes.encode(&mut out);
        self.tile_read_duration.encode(&mut out);
        self.tilejson_requests.encode(&mut out);
        self.sse_clients.encode(&mut out);
        self.sse_connections.encode(&mut out);
        self.mbtiles_tiles.encode(&mut out);
        self.generate_total.encode(&mut out);
        self.generate_duration.encode(&mut out);
        self.notifications.encode(&mut out);
        self.update_batches.encode(&mut out);
        self.tiles_written.encode(&mut out);
        self.tiles_deleted.encode(&mut out);
        self.tile_encode_errors.encode(&mut out);
        self.update_errors.encode(&mut out);
        self.update_duration.encode(&mut out);
        self.listener_reconnects.encode(&mut out);
        self.webhook_requests.encode(&mut out);
        self.webhook_retries.encode(&mut out);
        self.webhook_failures.encode(&mut out);
        self.webhook_duration.encode(&mut out);
        self.publish_total.encode(&mut out);
        self.publish_duration.encode(&mut out);
        out
    }
}

fn counters(
    name: &'static str,
    help: &'static str,
    labels: &'static [&'static str],
) -> (f: Family<Counter>)
    ensures
        declared(f, name@, help@, slice_texts(labels@)),
{
    Family::new(name, help, labels, Counter::default())
}

fn gauges(
    name: &'static str,
    help: &'static str,
    labels: &'static [&'static str],
) -> (f: Family<Gauge>)
    ensures
        declared(f, name@, help@, slice_texts(labels@)),
{
    Family::new(name, help, labels, Gauge::default())
}

fn histograms(
    name: &'static str,
    help: &'static str,
    labels: &'static [&'static str],
    bounds: Vec<String>,
) -> (f: Family<Histogram>)
    requires
        bounds@.len() == 11,
    ensures
        declared_histogram(f, name@, help@, slice_texts(labels@), texts(bounds@)),
{
    Family::new(name, help, labels, Histogram::new(bounds))
}

/// The label sets of a family and their metrics.
pub open spec fn series<M>(f: Family<M>) -> (Seq<Labels>, Seq<M>) {
    (f.keys(), f.spec_children())
}

/// A counter's series with one that reads zero unless it is there already.
pub open spec fn with_counter(s: (Seq<Labels>, Seq<Counter>), labels: Labels) -> (
    Seq<Labels>,
    Seq<Counter>,
) {
    if place_of_labels(s.0, labels) is Some {
        s
    } else {
        (s.0.push(labels), s.1.push(Counter { value: 0 }))
    }
}

/// A gauge's series with one set to a value.
pub open spec fn with_gauge(s: (Seq<Labels>, Seq<Gauge>), labels: Labels, value: i64) -> (
    Seq<Labels>,
    Seq<Gauge>,
) {
    match place_of_labels(s.0, labels) {
        Some(i) => (s.0, s.1.update(i as int, Gauge { value })),
        None => (s.0.push(labels), s.1.push(Gauge { value })),
    }
}

/// Two families differ in their series alone.
pub open spec fn same_declaration<M>(a: Family<M>, b: Family<M>) -> bool {
    &&& a.spec_name() == b.spec_name()
    &&& a.spec_help() == b.spec_help()
    &&& a.spec_label_names() == b.spec_label_names()
}

/// Two registries differ in what they say of the build and the start alone.
pub open spec fn same_but_info(a: Metrics, b: Metrics) -> bool {
    b == (Metrics { build_info: b.build_info, startup_info: b.startup_info, ..a })
}

/// The build information carries a version, and nothing else has changed.
pub open spec fn states_version(before: Metrics, after: Metrics, version: Seq<char>) -> bool {
    &&& same_declaration(before.build_info, after.build_info)
    &&& series(after.build_info) == with_gauge(series(before.build_info), seq![version], 1)
    &&& same_but_info(before, after)
    &&& after.startup_info == before.startup_info
}

/// The series known up front are there, and nothing else has changed.
pub open spec fn known_series(before: Metrics, after: Metrics) -> bool {
    &&& same_declaration(before.sse_clients, after.sse_clients)
    &&& same_declaration(before.sse_connections, after.sse_connections)
    &&& same_declaration(before.listener_reconnects, after.listener_reconnects)
    &&& same_declaration(before.webhook_retries, after.webhook_retries)
    &&& same_declaration(before.webhook_failures, after.webhook_failures)
    &&& same_declaration(before.notifications, after.notifications)
    &&& same_declaration(before.webhook_requests, after.webhook_requests)
    &&& series(after.sse_clients) == with_gauge(series(before.sse_clients), Seq::empty(), 0)
    &&& series(after.sse_connections) == with_counter(series(before.sse_connections), Seq::empty())
    &&& series(after.listener_reconnects) == with_counter(
        series(before.listener_reconnects),
        Seq::empty(),
    )
    &&& series(after.webhook_retries) == with_counter(series(before.webhook_retries), Seq::empty())
    &&& series(after.webhook_failures) == with_counter(
        series(before.webhook_failures),
        Seq::empty(),
    )
    &&& series(after.notifications) == with_counter(
        with_counter(
            with_counter(series(before.notifications), seq!["routed"@]),
            seq!["unknown_layer"@],
        ),
        seq!["invalid_payload"@],
    )
    &&& series(after.webhook_requests) == with_counter(
        with_counter(
            with_counter(series(before.webhook_requests), seq!["success"@]),
            seq!["http_error"@],
        ),
        seq!["transport_error"@],
    )
    &&& after.build_info == before.build_info
    &&& after.startup_info == before.startup_info
    &&& after.tile_requests == before.tile_requests
    &&& after.tile_bytes == before.tile_bytes
    &&& after.tile_read_duration == before.tile_read_duration
    &&& after.tilejson_requests == before.tilejson_requests
    &&& after.mbtiles_tiles == before.mbtiles_tiles
    &&& after.generate_total == before.generate_total
    &&& after.generate_duration == before.generate_duration
    &&& after.update_batches == before.update_batches
    &&& after.tiles_written == before.tiles_written
    &&& after.tiles_deleted == before.tiles_deleted
    &&& after.tile_encode_errors == before.tile_encode_errors
    &&& after.update_errors == before.update_errors
    &&& after.update_duration == before.update_duration
    &&& after.webhook_duration == before.webhook_duration
    &&& after.publish_total == before.publish_total
    &&& after.publish_duration == before.publish_duration
}

fn touch(f: &mut Family<Counter>, labels: &[&str])
    requires
        old(f).wf(),
        labels@.len() == old(f).spec_label_names().len(),
    ensures
        final(f).wf(),
        final(f).spec_name() == old(f).spec_name(),
        final(f).spec_help() == old(f).spec_help(),
        final(f).spec_label_names() == old(f).spec_label_names(),
        series(*final(f)) == with_counter(series(*old(f)), slice_texts(labels@)),
{
    let ghost before = series(*f);
    f.with(labels).add(0);
    proof {
        let place = place_of_labels(before.0, slice_texts(labels@));
        if place is Some {
            assert(f.spec_children() =~= before.1);
        }
    }
}

fn touch_one(f: &mut Family<Counter>, label: &str)
    requires
        old(f).wf(),
        old(f).spec_label_names().len() == 1,
    ensures
        final(f).wf(),
        final(f).spec_name() == old(f).spec_name(),
        final(f).spec_help() == old(f).spec_help(),
        final(f).spec_label_names() == old(f).spec_label_names(),
        series(*final(f)) == with_counter(series(*old(f)), seq![label@]),
{
    let labels: [&str; 1] = [label];
    assert(slice_texts(labels@) =~= seq![label@]);
    touch(f, labels.as_slice());
}

fn set_gauge(f: &mut Family<Gauge>, labels: &[&str], value: i64)
    requires
        old(f).wf(),
        labels@.len() == old(f).spec_label_names().len(),
    ensures
        final(f).wf(),
        final(f).spec_name() == old(f).spec_name(),
        final(f).spec_help() == old(f).spec_help(),
        final(f).spec_label_names() == old(f).spec_label_names(),
        series(*final(f)) == with_gauge(series(*old(f)), slice_texts(labels@), value),
{
    f.with(labels).set(value);
}

/// A series that has been made is there: it reads zero the first time, and what
/// it counted otherwise.
pub proof fn lemma_made_series_is_there(s: (Seq<Labels>, Seq<Counter>), labels: Labels)
    requires
        s.0.len() == s.1.len(),
    ensures
        ({
            let after = with_counter(s, labels);
            let place = place_of_labels(after.0, labels);
            &&& place is Some
            &&& place->0 < after.1.len()
            &&& place_of_labels(s.0, labels) is None ==> after.1[place->0 as int].value == 0
            &&& place_of_labels(s.0, labels) is Some ==> after.1[place->0 as int]
                == s.1[place->0 as int]
        }),
{
    lemma_place_bound(s.0, labels);
    assert(s.0.push(labels).last() == labels);
}

proof fn lemma_place_bound(keys: Seq<Labels>, labels: Labels)
    ensures
        place_of_labels(keys, labels) is Some ==> place_of_labels(keys, labels)->0 < keys.len(),
    decreases keys.len(),
{
    if keys.len() > 0 {
        lemma_place_bound(keys.drop_last(), labels);
    }
}

impl Metrics {
    /// Every family is shown, and the uptime, and nothing else.
    pub proof fn lemma_everything_is_shown(&self, uptime: Seq<char>)
        ensures
            has_part(self.shown(uptime), gauge_text(self.build_info)),
            has_part(self.shown(uptime), gauge_text(self.startup_info)),
            has_part(self.shown(uptime), counter_text(self.tile_requests)),
            has_part(self.shown(uptime), counter_text(self.tile_bytes)),
            has_part(self.shown(uptime), histogram_text(self.tile_read_duration)),
            has_part(self.shown(uptime), counter_text(self.tilejson_requests)),
            has_part(self.shown(uptime), gauge_text(self.sse_clients)),
            has_part(self.shown(uptime), counter_text(self.sse_connections)),
            has_part(self.shown(uptime), gauge_text(self.mbtiles_tiles)),
            has_part(self.shown(uptime), counter_text(self.generate_total)),
            has_part(self.shown(uptime), histogram_text(self.generate_duration)),
            has_part(self.shown(uptime), counter_text(self.notifications)),
            has_part(self.shown(uptime), counter_text(self.update_batches)),
            has_part(self.shown(uptime), counter_text(self.tiles_written)),
            has_part(self.shown(uptime), counter_text(self.tiles_deleted)),
            has_part(self.shown(uptime), counter_text(self.tile_encode_errors)),
            has_part(self.shown(uptime), counter_text(self.update_errors)),
            has_part(self.shown(uptime), histogram_text(self.update_duration)),
            has_part(self.shown(uptime), counter_text(self.listener_reconnects)),
            has_part(self.shown(uptime), counter_text(self.webhook_requests)),
            has_part(self.shown(uptime), counter_text(self.webhook_retries)),
            has_part(self.shown(uptime), counter_text(self.webhook_failures)),
            has_part(self.shown(uptime), histogram_text(self.webhook_duration)),
            has_part(self.shown(uptime), counter_text(self.publish_total)),
            has_part(self.shown(uptime), histogram_text(self.publish_duration)),
            has_part(self.shown(uptime), uptime),
            self.shown(uptime).len() == gauge_text(self.build_info).len()
                + "# HELP tilefeed_uptime_seconds Seconds since the process started.\n"@.len()
                + "# TYPE tilefeed_uptime_seconds gauge\n"@.len()
                + "tilefeed_uptime_seconds "@.len()
                + uptime.len()
                + "\n"@.len()
                + gauge_text(self.startup_info).len()
                + counter_text(self.tile_requests).len()
                + counter_text(self.tile_bytes).len()
                + histogram_text(self.tile_read_duration).len()
                + counter_text(self.tilejson_requests).len()
                + gauge_text(self.sse_clients).len()
                + counter_text(self.sse_connections).len()
                + gauge_text(self.mbtiles_tiles).len()
                + counter_text(self.generate_total).len()
                + histogram_text(self.generate_duration).len()
                + counter_text(self.notifications).len()
                + counter_text(self.update_batches).len()
                + counter_text(self.tiles_written).len()
                + counter_text(self.tiles_deleted).len()
                + counter_text(self.tile_encode_errors).len()
                + counter_text(self.update_errors).len()
                + histogram_text(self.update_duration).len()
                + counter_text(self.listener_reconnects).len()
                + counter_text(self.webhook_requests).len()
                + counter_text(self.webhook_retries).len()
                + counter_text(self.webhook_failures).len()
                + histogram_text(self.webhook_duration).len()
                + counter_text(self.publish_total).len()
                + histogram_text(self.publish_duration).len(),
    {
        let shown = self.shown(uptime);
        let t0 = Seq::<char>::empty() + gauge_text(self.build_info);
        let t1 = t0 + "# HELP tilefeed_uptime_seconds Seconds since the process started.\n"@;
        let t2 = t1 + "# TYPE tilefeed_uptime_seconds gauge\n"@;
        let t3 = t2 + "tilefeed_uptime_seconds "@;
        let t4 = t3 + uptime;
        let t5 = t4 + "\n"@;
        let t6 = t5 + gauge_text(self.startup_info);
        let t7 = t6 + counter_text(self.tile_requests);
        let t8 = t7 + counter_text(self.tile_bytes);
        let t9 = t8 + histogram_text(self.tile_read_duration);
        let t10 = t9 + counter_text(self.tilejson_requests);
        let t11 = t10 + gauge_text(self.sse_clients);
        let t12 = t11 + counter_text(self.sse_connections);
        let t13 = t12 + gauge_text(self.mbtiles_tiles);
        let t14 = t13 + counter_text(self.generate_total);
        let t15 = t14 + histogram_text(self.generate_duration);
        let t16 = t15 + counter_text(self.notifications);
        let t17 = t16 + counter_text(self.update_batches);
        let t18 = t17 + counter_text(self.tiles_written);
        let t19 = t18 + counter_text(self.tiles_deleted);
        let t20 = t19 + counter_text(self.tile_encode_errors);
        let t21 = t20 + counter_text(self.update_errors);
        let t22 = t21 + histogram_text(self.update_duration);
        let t23 = t22 + counter_text(self.listener_reconnects);
        let t24 = t23 + counter_text(self.webhook_requests);
        let t25 = t24 + counter_text(self.webhook_retries);
        let t26 = t25 + counter_text(self.webhook_failures);
        let t27 = t26 + histogram_text(self.webhook_duration);
        let t28 = t27 + counter_text(self.publish_total);
        let t29 = t28 + histogram_text(self.publish_duration);
        assert(t0 =~= gauge_text(self.build_info));
        assert(t29 == shown);
        assert(shown =~= shown.subrange(0, shown.len() as int));
        lemma_beginning(t28, histogram_text(self.publish_duration), shown);
        lemma_beginning(t27, counter_text(self.publish_total), shown);
        lemma_beginning(t26, histogram_text(self.webhook_duration), shown);
        lemma_beginning(t25, counter_text(self.webhook_failures), shown);
        lemma_beginning(t24, counter_text(self.webhook_retries), shown);
        lemma_beginning(t23, counter_text(self.webhook_requests), shown);
        lemma_beginning(t22, counter_text(self.listener_reconnects), shown);
        lemma_beginning(t21, histogram_text(self.update_duration), shown);
        lemma_beginning(t20, counter_text(self.update_errors), shown);
        lemma_beginning(t19, counter_text(self.tile_encode_errors), shown);
        lemma_beginning(t18, counter_text(self.tiles_deleted), shown);
        lemma_beginning(t17, counter_text(self.tiles_written), shown);
        lemma_beginning(t16, counter_text(self.update_batches), shown);
        lemma_beginning(t15, counter_text(self.notifications), shown);
        lemma_beginning(t14, histogram_text(self.generate_duration), shown);
        lemma_beginning(t13, counter_text(self.generate_total), shown);
        lemma_beginning(t12, gauge_text(self.mbtiles_tiles), shown);
        lemma_beginning(t11, counter_text(self.sse_connections), shown);
        lemma_beginning(t10, gauge_text(self.sse_clients), shown);
        lemma_beginning(t9, counter_text(self.tilejson_requests), shown);
        lemma_beginning(t8, histogram_text(self.tile_read_duration), shown);
        lemma_beginning(t7, counter_text(self.tile_bytes), shown);
        lemma_beginning(t6, counter_text(self.tile_requests), shown);
        lemma_beginning(t5, gauge_text(self.startup_info), shown);
        lemma_beginning(t4, "\n"@, shown);
        lemma_beginning(t3, uptime, shown);
        lemma_beginning(t2, "tilefeed_uptime_seconds "@, shown);
        lemma_beginning(t1, "# TYPE tilefeed_uptime_seconds gauge\n"@, shown);
        lemma_beginning(t0, "# HELP tilefeed_uptime_seconds Seconds since the process started.\n"@, shown);
        lemma_beginning(Seq::<char>::empty(), gauge_text(self.build_info), shown);
    }
}

/// Making a series keeps all others as they were, and adds one only where it was not
/// there.
pub proof fn lemma_making_a_series_keeps_the_others(s: (Seq<Labels>, Seq<Counter>), labels: Labels)
    ensures
        with_counter(s, labels).0.contains(labels),
        s.0.is_prefix_of(with_counter(s, labels).0),
        s.1.is_prefix_of(with_counter(s, labels).1),
        s.0.contains(labels) ==> with_counter(s, labels) == s,
        !s.0.contains(labels) ==> with_counter(s, labels).0.len() == s.0.len() + 1 && with_counter(
            s,
            labels,
        ).1 == s.1.push(Counter { value: 0 }),
{
    let after = with_counter(s, labels);
    lemma_place_is_found(s.0, labels);
    assert(s.0 =~= after.0.subrange(0, s.0.len() as int));
    assert(s.1 =~= after.1.subrange(0, s.1.len() as int));
    if place_of_labels(s.0, labels) is None {
        assert(after.0[s.0.len() as int] == labels);
    }
}

/// Setting a series gives it the value and keeps all others as they were.
pub proof fn lemma_setting_a_series_keeps_the_others(
    s: (Seq<Labels>, Seq<Gauge>),
    labels: Labels,
    value: i64,
    i: int,
)
    requires
        s.0.len() == s.1.len(),
        s.0.no_duplicates(),
        0 <= i < with_gauge(s, labels, value).0.len(),
    ensures
        with_gauge(s, labels, value).0.contains(labels),
        s.0.is_prefix_of(with_gauge(s, labels, value).0),
        with_gauge(s, labels, value).0.len() == s.0.len() + if s.0.contains(labels) {
            0nat
        } else {
            1
        },
        with_gauge(s, labels, value).1[i].value == if with_gauge(s, labels, value).0[i] == labels {
            value
        } else {
            s.1[i].value
        },
{
    let after = with_gauge(s, labels, value);
    lemma_place_is_found(s.0, labels);
    assert(s.0 =~= after.0.subrange(0, s.0.len() as int));
    match place_of_labels(s.0, labels) {
        Some(k) => {
            assert(after.0[k as int] == labels);
        },
        None => {
            assert(after.0[s.0.len() as int] == labels);
            if i < s.0.len() {
                assert(s.0.contains(s.0[i]));
            }
        },
    }
}

proof fn lemma_place_is_found(keys: Seq<Labels>, labels: Labels)
    ensures
        match place_of_labels(keys, labels) {
            Some(i) => i < keys.len() && keys[i as int] == labels && keys.contains(labels),
            None => !keys.contains(labels),
        },
    decreases keys.len(),
{
    if keys.len() > 0 {
        let front = keys.drop_last();
        lemma_place_is_found(front, labels);
        if keys.contains(labels) {
            let k = choose|k: int| 0 <= k < keys.len() && keys[k] == labels;
            if k < front.len() {
                assert(front[k] == labels);
            }
        }
        match place_of_labels(keys, labels) {
            Some(i) => {
                assert(keys[i as int] == labels);
            },
            None => {},
        }
    }
}

/// From the start there is a series for every outcome of a notification and of a
/// webhook request, and for each count without labels. So a rate can be taken of it
/// before the first event.
pub proof fn lemma_outcomes_are_known_up_front(before: Metrics, after: Metrics)
    requires
        known_series(before, after),
    ensures
        after.notifications.keys().contains(seq!["routed"@]),
        after.notifications.keys().contains(seq!["unknown_layer"@]),
        after.notifications.keys().contains(seq!["invalid_payload"@]),
        after.webhook_requests.keys().contains(seq!["success"@]),
        after.webhook_requests.keys().contains(seq!["http_error"@]),
        after.webhook_requests.keys().contains(seq!["transport_error"@]),
        after.sse_connections.keys().contains(Seq::<Seq<char>>::empty()),
        after.listener_reconnects.keys().contains(Seq::<Seq<char>>::empty()),
        after.webhook_retries.keys().contains(Seq::<Seq<char>>::empty()),
        after.webhook_failures.keys().contains(Seq::<Seq<char>>::empty()),
        series(before.sse_clients) == (Seq::<Labels>::empty(), Seq::<Gauge>::empty())
            ==> after.sse_clients.keys() == seq![
            Seq::<Seq<char>>::empty(),
        ] && after.sse_clients.spec_children() == seq![Gauge { value: 0 }],
{
    lemma_three_are_made(
        series(before.notifications),
        seq!["routed"@],
        seq!["unknown_layer"@],
        seq!["invalid_payload"@],
    );
    lemma_three_are_made(
        series(before.webhook_requests),
        seq!["success"@],
        seq!["http_error"@],
        seq!["transport_error"@],
    );
    lemma_making_a_series_keeps_the_others(series(before.sse_connections), Seq::empty());
    lemma_making_a_series_keeps_the_others(series(before.listener_reconnects), Seq::empty());
    lemma_making_a_series_keeps_the_others(series(before.webhook_retries), Seq::empty());
    lemma_making_a_series_keeps_the_others(series(before.webhook_failures), Seq::empty());
    if series(before.sse_clients) == (Seq::<Labels>::empty(), Seq::<Gauge>::empty()) {
        lemma_place_is_found(before.sse_clients.keys(), Seq::empty());
        assert(after.sse_clients.keys() =~= seq![Seq::<Seq<char>>::empty()]);
        assert(after.sse_clients.spec_children() =~= seq![Gauge { value: 0 }]);
    }
}

proof fn lemma_three_are_made(s: (Seq<Labels>, Seq<Counter>), a: Labels, b: Labels, c: Labels)
    ensures
        with_counter(with_counter(with_counter(s, a), b), c).0.contains(a),
        with_counter(with_counter(with_counter(s, a), b), c).0.contains(b),
        with_counter(with_counter(with_counter(s, a), b), c).0.contains(c),
{
    let one = with_counter(s, a);
    let two = with_counter(one, b);
    let three = with_counter(two, c);
    lemma_making_a_series_keeps_the_others(s, a);
    lemma_making_a_series_keeps_the_others(one, b);
    lemma_making_a_series_keeps_the_others(two, c);
    let i = choose|i: int| 0 <= i < one.0.len() && one.0[i] == a;
    assert(one.0 =~= two.0.subrange(0, one.0.len() as int));
    assert(two.0 =~= three.0.subrange(0, two.0.len() as int));
    assert(two.0[i] == a && three.0[i] == a);
    let j = choose|j: int| 0 <= j < two.0.len() && two.0[j] == b;
    assert(three.0[j] == b);
}

} // verus!

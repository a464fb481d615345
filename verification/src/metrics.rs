//! Prometheus metrics.
//!
//! A minimal, dependency-free registry: a handful of named atomic counters and
//! gauges rendered in the Prometheus text exposition format. It's intentionally
//! tiny — ferrium exposes a fixed, known set of series rather than a general
//! metrics library.
//!
//! The atomics are shared between tasks, so what a read finds depends on the
//! other tasks; the text is proved against the values that were read.

use std::sync::atomic::{AtomicI64, AtomicU64, Ordering};
use std::sync::Arc;

use vstd::prelude::*;

use crate::decimal::{append_decimal, append_signed_decimal, decimal, signed_decimal};
use crate::text::ascii_chars;

verus! {

/// Shared handle to the process-wide metrics.
pub type Metrics = Arc<MetricsInner>;

/// The metric series ferrium exports.
pub struct MetricsInner {
    /// Total client commands processed, by kind.
    pub gets_total: AtomicU64,
    pub sets_total: AtomicU64,
    pub dels_total: AtomicU64,
    /// Client requests rejected because this node isn't the leader.
    pub not_leader_total: AtomicU64,
    /// Raft leader elections this node has won.
    pub elections_won_total: AtomicU64,
    /// Current Raft term.
    pub current_term: AtomicU64,
    /// 1 if this node currently believes it is the leader, else 0.
    pub is_leader: AtomicI64,
    /// Highest committed log index.
    pub commit_index: AtomicU64,
    /// Number of entries currently in the in-memory log.
    pub log_len: AtomicU64,
}

/// The values of every series, as read at one moment.
#[derive(Debug, Clone, Copy, PartialEq, Eq)]
pub struct MetricValues {
    pub gets_total: u64,
    pub sets_total: u64,
    pub dels_total: u64,
    pub not_leader_total: u64,
    pub elections_won_total: u64,
    pub current_term: u64,
    pub is_leader: i64,
    pub commit_index: u64,
    pub log_len: u64,
}

/// Create a new, zeroed metrics handle.
pub fn new() -> Metrics {
    Arc::new(
        MetricsInner {
            gets_total: AtomicU64::new(0),
            sets_total: AtomicU64::new(0),
            dels_total: AtomicU64::new(0),
            not_leader_total: AtomicU64::new(0),
            elections_won_total: AtomicU64::new(0),
            current_term: AtomicU64::new(0),
            is_leader: AtomicI64::new(0),
            commit_index: AtomicU64::new(0),
            log_len: AtomicU64::new(0),
        },
    )
}

/// One series in the exposition format: its `# TYPE` line, then its sample.
pub open spec fn series(name: Seq<char>, kind: Seq<char>, value: Seq<char>) -> Seq<char> {
    "# TYPE "@ + name + " "@ + kind + "\n"@ + name + " "@ + value + "\n"@
}

/// A counter series.
pub open spec fn counter(name: Seq<char>, value: u64) -> Seq<char> {
    series(name, "counter"@, ascii_chars(decimal(value as nat)))
}

/// A gauge series.
pub open spec fn gauge(name: Seq<char>, value: i64) -> Seq<char> {
    series(name, "gauge"@, ascii_chars(signed_decimal(value as int)))
}

/// The exposition text: the five counters, then the four gauges. Unsigned
/// gauges are shown as `i64`, as the exposition's integer samples are signed.
pub open spec fn metrics_text(v: MetricValues) -> Seq<char> {
    counter("ferrium_gets_total"@, v.gets_total) + counter("ferrium_sets_total"@, v.sets_total) + counter(
        "ferrium_dels_total"@,
        v.dels_total,
    ) + counter("ferrium_not_leader_total"@, v.not_leader_total) + counter(
        "ferrium_elections_won_total"@,
        v.elections_won_total,
    ) + gauge("ferrium_current_term"@, v.current_term as i64) + gauge("ferrium_is_leader"@, v.is_leader)
        + gauge("ferrium_commit_index"@, v.commit_index as i64) + gauge(
        "ferrium_log_entries"@,
        v.log_len as i64,
    )
}

/// Append one counter series.
fn push_counter(out: &mut String, name: &str, value: u64)
    ensures
        final(out)@ == old(out)@ + counter(name@, value),
{
    out.append("# TYPE ");
    out.append(name);
    out.append(" counter\n");
    out.append(name);
    out.append(" ");
    append_decimal(out, value);
    out.append("\n");
    proof {
        assert(" counter\n"@ =~= " "@ + "counter"@ + "\n"@) by {
            reveal_strlit(" counter\n");
            reveal_strlit(" ");
            reveal_strlit("counter");
            reveal_strlit("\n");
        }
    }
    assert(out@ =~= old(out)@ + counter(name@, value));
}

/// Append one gauge series.
fn push_gauge(out: &mut String, name: &str, value: i64)
    ensures
        final(out)@ == old(out)@ + gauge(name@, value),
{
    out.append("# TYPE ");
    out.append(name);
    out.append(" gauge\n");
    out.append(name);
    out.append(" ");
    append_signed_decimal(out, value);
    out.append("\n");
    proof {
        assert(" gauge\n"@ =~= " "@ + "gauge"@ + "\n"@) by {
            reveal_strlit(" gauge\n");
            reveal_strlit(" ");
            reveal_strlit("gauge");
            reveal_strlit("\n");
        }
    }
    assert(out@ =~= old(out)@ + gauge(name@, value));
}

/// An unsigned gauge as the signed sample the text shows.
fn signed_sample(value: u64) -> (res: i64)
    ensures
        res == value as i64,
{
    value as i64
}

/// Render the given values in Prometheus text exposition format.
pub fn render_values(v: &MetricValues) -> (res: String)
    ensures
        res@ == metrics_text(*v),
{
    let mut out = String::new();
    push_counter(&mut out, "ferrium_gets_total", v.gets_total);
    push_counter(&mut out, "ferrium_sets_total", v.sets_total);
    push_counter(&mut out, "ferrium_dels_total", v.dels_total);
    push_counter(&mut out, "ferrium_not_leader_total", v.not_leader_total);
    push_counter(&mut out, "ferrium_elections_won_total", v.elections_won_total);
    push_gauge(&mut out, "ferrium_current_term", signed_sample(v.current_term));
    push_gauge(&mut out, "ferrium_is_leader", v.is_leader);
    push_gauge(&mut out, "ferrium_commit_index", signed_sample(v.commit_index));
    push_gauge(&mut out, "ferrium_log_entries", signed_sample(v.log_len));
    assert(out@ =~= metrics_text(*v));
    out
}

impl MetricsInner {
    /// Add one to a counter (wrapping, as atomic addition does).
    pub fn incr(counter: &AtomicU64) {
        counter.fetch_add(1, Ordering::Relaxed);
    }

    /// Set an unsigned gauge.
    pub fn set_u64(gauge: &AtomicU64, value: u64) {
        gauge.store(value, Ordering::Relaxed);
    }

    /// Set a signed gauge.
    pub fn set_i64(gauge: &AtomicI64, value: i64) {
        gauge.store(value, Ordering::Relaxed);
    }

    /// Read every series once.
    pub fn values(&self) -> MetricValues {
        MetricValues {
            gets_total: self.gets_total.load(Ordering::Relaxed),
            sets_total: self.sets_total.load(Ordering::Relaxed),
            dels_total: self.dels_total.load(Ordering::Relaxed),
            not_leader_total: self.not_leader_total.load(Ordering::Relaxed),
            elections_won_total: self.elections_won_total.load(Ordering::Relaxed),
            current_term: self.current_term.load(Ordering::Relaxed),
            is_leader: self.is_leader.load(Ordering::Relaxed),
            commit_index: self.commit_index.load(Ordering::Relaxed),
            log_len: self.log_len.load(Ordering::Relaxed),
        }
    }

    /// Render all series in Prometheus text exposition format.
    pub fn render(&self) -> (res: String)
        ensures
            exists|v: MetricValues| res@ == metrics_text(v),
    {
        let v = self.values();
        render_values(&v)
    }
}

/// The head of the HTTP response that carries `n` bytes of metrics text.
pub open spec fn http_head(n: nat) -> Seq<char> {
    "HTTP/1.1 200 OK\r\nContent-Type: text/plain; version=0.0.4\r\nContent-Length: "@ + ascii_chars(decimal(n))
        + "\r\nConnection: close\r\n\r\n"@
}

/// The HTTP response serving the metrics text `body`: a `200 OK` of plain
/// text whose length is the body's byte count, closing the connection.
pub fn metrics_response(body: &str) -> (res: String)
    ensures
        res@ == http_head(body.len() as nat) + body@,
{
    let mut out = String::from_str("HTTP/1.1 200 OK\r\nContent-Type: text/plain; version=0.0.4\r\nContent-Length: ");
    append_decimal(&mut out, body.len() as u64);
    out.append("\r\nConnection: close\r\n\r\n");
    out.append(body);
    out
}

/// `text` shows `value` as the sample of the series `name`, on a line of
/// its own.
pub open spec fn shows_sample(text: Seq<char>, name: Seq<char>, value: Seq<char>) -> bool {
    exists|p: Seq<char>, q: Seq<char>| text == p + name + " "@ + value + "\n"@ + q
}

/// A series shows its own sample.
proof fn lemma_series_shows(name: Seq<char>, kind: Seq<char>, value: Seq<char>)
    ensures
        shows_sample(series(name, kind, value), name, value),
{
    let p = "# TYPE "@ + name + " "@ + kind + "\n"@;
    assert(series(name, kind, value) =~= p + name + " "@ + value + "\n"@ + Seq::<char>::empty());
}

/// What a text shows, it shows with more text after it.
proof fn lemma_shows_before(x: Seq<char>, y: Seq<char>, name: Seq<char>, value: Seq<char>)
    requires
        shows_sample(x, name, value),
    ensures
        shows_sample(x + y, name, value),
{
    let (p, q) = choose|p: Seq<char>, q: Seq<char>| x == p + name + " "@ + value + "\n"@ + q;
    assert(x + y =~= p + name + " "@ + value + "\n"@ + (q + y));
}

/// What a text shows, it shows with more text before it.
proof fn lemma_shows_after(x: Seq<char>, y: Seq<char>, name: Seq<char>, value: Seq<char>)
    requires
        shows_sample(y, name, value),
    ensures
        shows_sample(x + y, name, value),
{
    let (p, q) = choose|p: Seq<char>, q: Seq<char>| y == p + name + " "@ + value + "\n"@ + q;
    assert(x + y =~= (x + p) + name + " "@ + value + "\n"@ + q);
}

/// The exposition text labels every value with its own series: each series
/// shows the value of its namesake field, `ferrium_log_entries` showing the
/// log length and the unsigned gauges shown as `i64`.
pub proof fn lemma_metrics_text_labels(v: MetricValues)
    ensures
        shows_sample(metrics_text(v), "ferrium_gets_total"@, ascii_chars(decimal(v.gets_total as nat))),
        shows_sample(metrics_text(v), "ferrium_sets_total"@, ascii_chars(decimal(v.sets_total as nat))),
        shows_sample(metrics_text(v), "ferrium_dels_total"@, ascii_chars(decimal(v.dels_total as nat))),
        shows_sample(metrics_text(v), "ferrium_not_leader_total"@, ascii_chars(decimal(v.not_leader_total as nat))),
        shows_sample(metrics_text(v), "ferrium_elections_won_total"@, ascii_chars(decimal(v.elections_won_total as nat))),
        shows_sample(metrics_text(v), "ferrium_current_term"@, ascii_chars(signed_decimal((v.current_term as i64) as int))),
        shows_sample(metrics_text(v), "ferrium_is_leader"@, ascii_chars(signed_decimal(v.is_leader as int))),
        shows_sample(metrics_text(v), "ferrium_commit_index"@, ascii_chars(signed_decimal((v.commit_index as i64) as int))),
        shows_sample(metrics_text(v), "ferrium_log_entries"@, ascii_chars(signed_decimal((v.log_len as i64) as int))),
{
    let t = seq![
        series("ferrium_gets_total"@, "counter"@, ascii_chars(decimal(v.gets_total as nat))),
        series("ferrium_sets_total"@, "counter"@, ascii_chars(decimal(v.sets_total as nat))),
        series("ferrium_dels_total"@, "counter"@, ascii_chars(decimal(v.dels_total as nat))),
        series("ferrium_not_leader_total"@, "counter"@, ascii_chars(decimal(v.not_leader_total as nat))),
        series("ferrium_elections_won_total"@, "counter"@, ascii_chars(decimal(v.elections_won_total as nat))),
        series("ferrium_current_term"@, "gauge"@, ascii_chars(signed_decimal((v.current_term as i64) as int))),
        series("ferrium_is_leader"@, "gauge"@, ascii_chars(signed_decimal(v.is_leader as int))),
        series("ferrium_commit_index"@, "gauge"@, ascii_chars(signed_decimal((v.commit_index as i64) as int))),
        series("ferrium_log_entries"@, "gauge"@, ascii_chars(signed_decimal((v.log_len as i64) as int))),
    ];
    let p1 = t[0] + t[1];
    let p2 = p1 + t[2];
    let p3 = p2 + t[3];
    let p4 = p3 + t[4];
    let p5 = p4 + t[5];
    let p6 = p5 + t[6];
    let p7 = p6 + t[7];
    let p8 = p7 + t[8];
    assert(metrics_text(v) == p8);
    assert(shows_sample(p8, "ferrium_gets_total"@, ascii_chars(decimal(v.gets_total as nat)))) by {
        lemma_series_shows("ferrium_gets_total"@, "counter"@, ascii_chars(decimal(v.gets_total as nat)));
        assert(shows_sample(t[0], "ferrium_gets_total"@, ascii_chars(decimal(v.gets_total as nat))));
        lemma_shows_before(t[0], t[1], "ferrium_gets_total"@, ascii_chars(decimal(v.gets_total as nat)));
        lemma_shows_before(p1, t[2], "ferrium_gets_total"@, ascii_chars(decimal(v.gets_total as nat)));
        lemma_shows_before(p2, t[3], "ferrium_gets_total"@, ascii_chars(decimal(v.gets_total as nat)));
        lemma_shows_before(p3, t[4], "ferrium_gets_total"@, ascii_chars(decimal(v.gets_total as nat)));
        lemma_shows_before(p4, t[5], "ferrium_gets_total"@, ascii_chars(decimal(v.gets_total as nat)));
        lemma_shows_before(p5, t[6], "ferrium_gets_total"@, ascii_chars(decimal(v.gets_total as nat)));
        lemma_shows_before(p6, t[7], "ferrium_gets_total"@, ascii_chars(decimal(v.gets_total as nat)));
        lemma_shows_before(p7, t[8], "ferrium_gets_total"@, ascii_chars(decimal(v.gets_total as nat)));
    }
    assert(shows_sample(p8, "ferrium_sets_total"@, ascii_chars(decimal(v.sets_total as nat)))) by {
        lemma_series_shows("ferrium_sets_total"@, "counter"@, ascii_chars(decimal(v.sets_total as nat)));
        assert(shows_sample(t[1], "ferrium_sets_total"@, ascii_chars(decimal(v.sets_total as nat))));
        lemma_shows_after(t[0], t[1], "ferrium_sets_total"@, ascii_chars(decimal(v.sets_total as nat)));
        lemma_shows_before(p1, t[2], "ferrium_sets_total"@, ascii_chars(decimal(v.sets_total as nat)));
        lemma_shows_before(p2, t[3], "ferrium_sets_total"@, ascii_chars(decimal(v.sets_total as nat)));
        lemma_shows_before(p3, t[4], "ferrium_sets_total"@, ascii_chars(decimal(v.sets_total as nat)));
        lemma_shows_before(p4, t[5], "ferrium_sets_total"@, ascii_chars(decimal(v.sets_total as nat)));
        lemma_shows_before(p5, t[6], "ferrium_sets_total"@, ascii_chars(decimal(v.sets_total as nat)));
        lemma_shows_before(p6, t[7], "ferrium_sets_total"@, ascii_chars(decimal(v.sets_total as nat)));
        lemma_shows_before(p7, t[8], "ferrium_sets_total"@, ascii_chars(decimal(v.sets_total as nat)));
    }
    assert(shows_sample(p8, "ferrium_dels_total"@, ascii_chars(decimal(v.dels_total as nat)))) by {
        lemma_series_shows("ferrium_dels_total"@, "counter"@, ascii_chars(decimal(v.dels_total as nat)));
        assert(shows_sample(t[2], "ferrium_dels_total"@, ascii_chars(decimal(v.dels_total as nat))));
        lemma_shows_after(p1, t[2], "ferrium_dels_total"@, ascii_chars(decimal(v.dels_total as nat)));
        lemma_shows_before(p2, t[3], "ferrium_dels_total"@, ascii_chars(decimal(v.dels_total as nat)));
        lemma_shows_before(p3, t[4], "ferrium_dels_total"@, ascii_chars(decimal(v.dels_total as nat)));
        lemma_shows_before(p4, t[5], "ferrium_dels_total"@, ascii_chars(decimal(v.dels_total as nat)));
        lemma_shows_before(p5, t[6], "ferrium_dels_total"@, ascii_chars(decimal(v.dels_total as nat)));
        lemma_shows_before(p6, t[7], "ferrium_dels_total"@, ascii_chars(decimal(v.dels_total as nat)));
        lemma_shows_before(p7, t[8], "ferrium_dels_total"@, ascii_chars(decimal(v.dels_total as nat)));
    }
    assert(shows_sample(p8, "ferrium_not_leader_total"@, ascii_chars(decimal(v.not_leader_total as nat)))) by {
        lemma_series_shows("ferrium_not_leader_total"@, "counter"@, ascii_chars(decimal(v.not_leader_total as nat)));
        assert(shows_sample(t[3], "ferrium_not_leader_total"@, ascii_chars(decimal(v.not_leader_total as nat))));
        lemma_shows_after(p2, t[3], "ferrium_not_leader_total"@, ascii_chars(decimal(v.not_leader_total as nat)));
        lemma_shows_before(p3, t[4], "ferrium_not_leader_total"@, ascii_chars(decimal(v.not_leader_total as nat)));
        lemma_shows_before(p4, t[5], "ferrium_not_leader_total"@, ascii_chars(decimal(v.not_leader_total as nat)));
        lemma_shows_before(p5, t[6], "ferrium_not_leader_total"@, ascii_chars(decimal(v.not_leader_total as nat)));
        lemma_shows_before(p6, t[7], "ferrium_not_leader_total"@, ascii_chars(decimal(v.not_leader_total as nat)));
        lemma_shows_before(p7, t[8], "ferrium_not_leader_total"@, ascii_chars(decimal(v.not_leader_total as nat)));
    }
    assert(shows_sample(p8, "ferrium_elections_won_total"@, ascii_chars(decimal(v.elections_won_total as nat)))) by {
        lemma_series_shows("ferrium_elections_won_total"@, "counter"@, ascii_chars(decimal(v.elections_won_total as nat)));
        assert(shows_sample(t[4], "ferrium_elections_won_total"@, ascii_chars(decimal(v.elections_won_total as nat))));
        lemma_shows_after(p3, t[4], "ferrium_elections_won_total"@, ascii_chars(decimal(v.elections_won_total as nat)));
        lemma_shows_before(p4, t[5], "ferrium_elections_won_total"@, ascii_chars(decimal(v.elections_won_total as nat)));
        lemma_shows_before(p5, t[6], "ferrium_elections_won_total"@, ascii_chars(decimal(v.elections_won_total as nat)));
        lemma_shows_before(p6, t[7], "ferrium_elections_won_total"@, ascii_chars(decimal(v.elections_won_total as nat)));
        lemma_shows_before(p7, t[8], "ferrium_elections_won_total"@, ascii_chars(decimal(v.elections_won_total as nat)));
    }
    assert(shows_sample(p8, "ferrium_current_term"@, ascii_chars(signed_decimal((v.current_term as i64) as int)))) by {
        lemma_series_shows("ferrium_current_term"@, "gauge"@, ascii_chars(signed_decimal((v.current_term as i64) as int)));
        assert(shows_sample(t[5], "ferrium_current_term"@, ascii_chars(signed_decimal((v.current_term as i64) as int))));
        lemma_shows_after(p4, t[5], "ferrium_current_term"@, ascii_chars(signed_decimal((v.current_term as i64) as int)));
        lemma_shows_before(p5, t[6], "ferrium_current_term"@, ascii_chars(signed_decimal((v.current_term as i64) as int)));
        lemma_shows_before(p6, t[7], "ferrium_current_term"@, ascii_chars(signed_decimal((v.current_term as i64) as int)));
        lemma_shows_before(p7, t[8], "ferrium_current_term"@, ascii_chars(signed_decimal((v.current_term as i64) as int)));
    }
    assert(shows_sample(p8, "ferrium_is_leader"@, ascii_chars(signed_decimal(v.is_leader as int)))) by {
        lemma_series_shows("ferrium_is_leader"@, "gauge"@, ascii_chars(signed_decimal(v.is_leader as int)));
        assert(shows_sample(t[6], "ferrium_is_leader"@, ascii_chars(signed_decimal(v.is_leader as int))));
        lemma_shows_after(p5, t[6], "ferrium_is_leader"@, ascii_chars(signed_decimal(v.is_leader as int)));
        lemma_shows_before(p6, t[7], "ferrium_is_leader"@, ascii_chars(signed_decimal(v.is_leader as int)));
        lemma_shows_before(p7, t[8], "ferrium_is_leader"@, ascii_chars(signed_decimal(v.is_leader as int)));
    }
    assert(shows_sample(p8, "ferrium_commit_index"@, ascii_chars(signed_decimal((v.commit_index as i64) as int)))) by {
        lemma_series_shows("ferrium_commit_index"@, "gauge"@, ascii_chars(signed_decimal((v.commit_index as i64) as int)));
        assert(shows_sample(t[7], "ferrium_commit_index"@, ascii_chars(signed_decimal((v.commit_index as i64) as int))));
        lemma_shows_after(p6, t[7], "ferrium_commit_index"@, ascii_chars(signed_decimal((v.commit_index as i64) as int)));
        lemma_shows_before(p7, t[8], "ferrium_commit_index"@, ascii_chars(signed_decimal((v.commit_index as i64) as int)));
    }
    assert(shows_sample(p8, "ferrium_log_entries"@, ascii_chars(signed_decimal((v.log_len as i64) as int)))) by {
        lemma_series_shows("ferrium_log_entries"@, "gauge"@, ascii_chars(signed_decimal((v.log_len as i64) as int)));
        assert(shows_sample(t[8], "ferrium_log_entries"@, ascii_chars(signed_decimal((v.log_len as i64) as int))));
        lemma_shows_after(p7, t[8], "ferrium_log_entries"@, ascii_chars(signed_decimal((v.log_len as i64) as int)));
    }
}

} // verus!

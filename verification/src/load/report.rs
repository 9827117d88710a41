//! The report of a benchmark, for people.
//!
//! Values are handed in as text; the labels and their order are decided here.

use crate::client::cli::{left, spaces};
use crate::text::chars_of;
use vstd::prelude::*;

verus! {

/// How wide the column of labels is.
pub const WIDTH: usize = 48;

/// A line of the report.
pub open spec fn line_text(label: Seq<char>, value: Seq<char>) -> Seq<char> {
    left(label, WIDTH as int) + " "@ + value
}

pub fn line(label: &str, value: &str) -> (r: String)
    ensures
        r@ == line_text(label@, value@),
{
    let mut out = String::from_str(label);
    let mut n: usize = chars_of(label).len();
    let ghost len = label@.len();
    assert(out@ =~= label@ + spaces(n - len));
    while n < WIDTH
        invariant
            len == label@.len(),
            len <= n,
            n <= WIDTH || n == len,
            out@ == label@ + spaces(n - len),
        decreases WIDTH - n,
    {
        out.push(' ');
        n += 1;
        assert(out@ =~= label@ + spaces(n - len));
    }
    assert(spaces(n - len) =~= spaces(WIDTH - len));
    out.append(" ");
    out.append(value);
    out
}

/// The rows of an epoch, each with the key that its value is filed under.
pub open spec fn epoch_labels() -> Seq<(Seq<char>, Seq<char>)> {
    seq![
        ("held connections (final Ping checked)"@, "held_connections"@),
        ("held sockets including HTTP SSE"@, "held_transport_sockets_including_sse"@),
        ("establishment seconds"@, "establishment_seconds"@),
        ("RSS warm fixed baseline (bytes)"@, "server_rss_warm_baseline_bytes"@),
        ("RSS with call sockets, before load (bytes)"@, "server_rss_connections_only_bytes"@),
        (
            "RSS incremental per call socket (estimate)"@,
            "server_rss_incremental_per_call_socket_estimate_bytes"@,
        ),
        ("fd baseline after warmup"@, "fd_quiescent_baseline"@),
        ("fd after connection/subscription churn"@, "fd_quiescent_after_churn"@),
    ]
}

pub fn epoch_rows() -> (r: Vec<(&'static str, &'static str)>)
    ensures
        are_rows(r@, epoch_labels()),
{
    let mut rows: Vec<(&'static str, &'static str)> = Vec::new();
    rows.push(("held connections (final Ping checked)", "held_connections"));
    rows.push(("held sockets including HTTP SSE", "held_transport_sockets_including_sse"));
    rows.push(("establishment seconds", "establishment_seconds"));
    rows.push(("RSS warm fixed baseline (bytes)", "server_rss_warm_baseline_bytes"));
    rows.push(
        ("RSS with call sockets, before load (bytes)", "server_rss_connections_only_bytes"),
    );
    rows.push(
        (
            "RSS incremental per call socket (estimate)",
            "server_rss_incremental_per_call_socket_estimate_bytes",
        ),
    );
    rows.push(("fd baseline after warmup", "fd_quiescent_baseline"));
    rows.push(("fd after connection/subscription churn", "fd_quiescent_after_churn"));
    rows
}

/// The rows of a measurement.
pub open spec fn measured_labels() -> Seq<(Seq<char>, Seq<char>)> {
    seq![
        ("appends/sec including drain"@, "appends_per_sec"@),
        ("appends/sec inside scheduling window"@, "window_appends_per_sec"@),
        ("subscriber records/sec including drain"@, "subscriber_records_per_sec"@),
        ("wire bytes/sec (tx + rx)"@, "bytes_per_sec"@),
        ("RSS sampled load peak, total bytes"@, "server_rss_peak_bytes"@),
        ("elapsed seconds including drain"@, "elapsed_seconds_including_drain"@),
    ]
}

pub fn measured_rows() -> (r: Vec<(&'static str, &'static str)>)
    ensures
        are_rows(r@, measured_labels()),
{
    let mut rows: Vec<(&'static str, &'static str)> = Vec::new();
    rows.push(("appends/sec including drain", "appends_per_sec"));
    rows.push(("appends/sec inside scheduling window", "window_appends_per_sec"));
    rows.push(("subscriber records/sec including drain", "subscriber_records_per_sec"));
    rows.push(("wire bytes/sec (tx + rx)", "bytes_per_sec"));
    rows.push(("RSS sampled load peak, total bytes", "server_rss_peak_bytes"));
    rows.push(("elapsed seconds including drain", "elapsed_seconds_including_drain"));
    rows
}

/// The latencies of a measurement.
pub open spec fn latency_labels() -> Seq<(Seq<char>, Seq<char>)> {
    seq![
        ("append latency us"@, "append_latency"@),
        ("publish-to-subscriber latency us"@, "publish_to_subscriber_latency"@),
    ]
}

pub fn latency_rows() -> (r: Vec<(&'static str, &'static str)>)
    ensures
        are_rows(r@, latency_labels()),
{
    let mut rows: Vec<(&'static str, &'static str)> = Vec::new();
    rows.push(("append latency us", "append_latency"));
    rows.push(("publish-to-subscriber latency us", "publish_to_subscriber_latency"));
    rows
}

pub open spec fn are_rows(
    rows: Seq<(&'static str, &'static str)>,
    labels: Seq<(Seq<char>, Seq<char>)>,
) -> bool {
    rows.len() == labels.len() && forall|i: int|
        0 <= i < labels.len() ==> ((#[trigger] rows[i]).0@, rows[i].1@) == labels[i]
}

/// Half, all but a hundredth and all but a thousandth of a latency.
pub struct Quantiles {
    pub p50: String,
    pub p99: String,
    pub p999: String,
}

impl Quantiles {
    pub open spec fn text(self) -> Seq<char> {
        "p50="@ + self.p50@ + " p99="@ + self.p99@ + " p999="@ + self.p999@
    }

    fn write(&self) -> (r: String)
        ensures
            r@ == self.text(),
    {
        let mut out = String::from_str("p50=");
        out.append(self.p50.as_str());
        out.append(" p99=");
        out.append(self.p99.as_str());
        out.append(" p999=");
        out.append(self.p999.as_str());
        out
    }
}

/// The values of an epoch, in the order of its rows.
pub struct EpochValues {
    pub epoch: String,
    pub rows: Vec<String>,
    pub measured: Vec<String>,
    pub latencies: Vec<Quantiles>,
}

impl EpochValues {
    /// There is a value for every row.
    pub open spec fn wf(self) -> bool {
        &&& self.rows@.len() == epoch_labels().len()
        &&& self.measured@.len() == measured_labels().len()
        &&& self.latencies@.len() == latency_labels().len()
    }

    pub open spec fn lines(self) -> Seq<Seq<char>> {
        seq![line_text("epoch"@, self.epoch@)] + rows_text(epoch_labels(), texts(self.rows@))
            + rows_text(measured_labels(), texts(self.measured@)) + rows_text(
            latency_labels(),
            Seq::new(self.latencies@.len(), |i: int| self.latencies@[i].text()),
        )
    }
}

pub open spec fn texts(lines: Seq<String>) -> Seq<Seq<char>> {
    Seq::new(lines.len(), |i: int| lines[i]@)
}

pub open spec fn rows_text(
    labels: Seq<(Seq<char>, Seq<char>)>,
    values: Seq<Seq<char>>,
) -> Seq<Seq<char>> {
    Seq::new(labels.len(), |i: int| line_text(labels[i].0, values[i]))
}

pub open spec fn epochs_text(epochs: Seq<EpochValues>) -> Seq<Seq<char>>
    decreases epochs.len(),
{
    if epochs.len() == 0 {
        Seq::empty()
    } else {
        epochs_text(epochs.drop_last()) + epochs.last().lines()
    }
}

pub open spec fn report_text(
    status: Seq<char>,
    accepts: Seq<char>,
    cold: Seq<char>,
    epochs: Seq<EpochValues>,
) -> Seq<Seq<char>> {
    seq![
        line_text("metric"@, "value"@),
        line_text("status"@, status),
        line_text("short-lived accepts/sec (Hello completed)"@, accepts),
        line_text("server RSS cold fixed baseline (bytes)"@, cold),
    ] + epochs_text(epochs) + seq![
        line_text("credit isolation and exact-delivery assertions"@, "passed"@),
    ]
}

fn push_line(out: &mut Vec<String>, label: &str, value: &str)
    ensures
        texts(final(out)@) == texts(old(out)@).push(line_text(label@, value@)),
{
    let ghost before = out@;
    out.push(line(label, value));
    assert(texts(out@) =~= texts(before).push(line_text(label@, value@)));
}

fn push_rows(
    out: &mut Vec<String>,
    rows: &Vec<(&'static str, &'static str)>,
    values: &Vec<String>,
    Ghost(labels): Ghost<Seq<(Seq<char>, Seq<char>)>>,
)
    requires
        are_rows(rows@, labels),
        values@.len() == labels.len(),
    ensures
        texts(final(out)@) == texts(old(out)@) + rows_text(labels, texts(values@)),
{
    let ghost before = texts(out@);
    let ghost all = rows_text(labels, texts(values@));
    let mut i: usize = 0;
    assert(texts(out@) =~= before + all.take(0));
    while i < rows.len()
        invariant
            i <= rows@.len(),
            are_rows(rows@, labels),
            values@.len() == labels.len(),
            all == rows_text(labels, texts(values@)),
            texts(out@) == before + all.take(i as int),
        decreases rows@.len() - i,
    {
        push_line(out, rows[i].0, values[i].as_str());
        i += 1;
        assert(before + all.take(i as int) =~= (before + all.take(i - 1)).push(all[i - 1]));
    }
    assert(all.take(i as int) =~= all);
}

fn push_epoch(out: &mut Vec<String>, epoch: &EpochValues)
    requires
        epoch.wf(),
    ensures
        texts(final(out)@) == texts(old(out)@) + epoch.lines(),
{
    let ghost before = texts(out@);
    push_line(out, "epoch", epoch.epoch.as_str());
    push_rows(out, &epoch_rows(), &epoch.rows, Ghost(epoch_labels()));
    push_rows(out, &measured_rows(), &epoch.measured, Ghost(measured_labels()));
    let mut latencies: Vec<String> = Vec::new();
    let mut i: usize = 0;
    while i < epoch.latencies.len()
        invariant
            i <= epoch.latencies@.len(),
            latencies@.len() == i,
            forall|j: int|
                0 <= j < i ==> (#[trigger] latencies@[j])@ == epoch.latencies@[j].text(),
        decreases epoch.latencies@.len() - i,
    {
        latencies.push(epoch.latencies[i].write());
        i += 1;
    }
    push_rows(out, &latency_rows(), &latencies, Ghost(latency_labels()));
    assert(texts(latencies@) =~= Seq::new(
        epoch.latencies@.len(),
        |i: int| epoch.latencies@[i].text(),
    ));
    assert(texts(out@) =~= before + epoch.lines());
}

/// The report of a benchmark that passed, line by line.
pub fn report(
    status: &str,
    accepts: &str,
    cold: &str,
    epochs: &Vec<EpochValues>,
) -> (r: Vec<String>)
    requires
        forall|i: int| 0 <= i < epochs@.len() ==> (#[trigger] epochs@[i]).wf(),
    ensures
        texts(r@) == report_text(status@, accepts@, cold@, epochs@),
{
    let mut out: Vec<String> = Vec::new();
    push_line(&mut out, "metric", "value");
    push_line(&mut out, "status", status);
    push_line(&mut out, "short-lived accepts/sec (Hello completed)", accepts);
    push_line(&mut out, "server RSS cold fixed baseline (bytes)", cold);
    let ghost head = texts(out@);
    let mut i: usize = 0;
    assert(epochs@.take(0) =~= Seq::empty());
    assert(head =~= head + epochs_text(epochs@.take(0)));
    while i < epochs.len()
        invariant
            i <= epochs@.len(),
            forall|i: int| 0 <= i < epochs@.len() ==> (#[trigger] epochs@[i]).wf(),
            texts(out@) == head + epochs_text(epochs@.take(i as int)),
        decreases epochs@.len() - i,
    {
        push_epoch(&mut out, &epochs[i]);
        assert(epochs@.take(i + 1).drop_last() =~= epochs@.take(i as int));
        i += 1;
        assert(texts(out@) =~= head + epochs_text(epochs@.take(i as int)));
    }
    assert(epochs@.take(i as int) =~= epochs@);
    push_line(&mut out, "credit isolation and exact-delivery assertions", "passed");
    assert(texts(out@) =~= report_text(status@, accepts@, cold@, epochs@));
    out
}

pub open spec fn smoke_text(
    acknowledged: Seq<char>,
    delivered: Seq<char>,
    p50: Seq<char>,
    p99: Seq<char>,
) -> Seq<Seq<char>> {
    seq![
        "PASS smoke: one log, one appender, one subscriber"@,
        acknowledged + " appends acknowledged, "@ + delivered
            + " exact subscriber deliveries"@,
        "Credit isolation and durable SIGKILL/restart replay passed"@,
        "Append latency: p50="@ + p50 + " us, p99="@ + p99 + " us"@,
    ]
}

/// The report of a smoke test that passed, line by line.
pub fn smoke_report(acknowledged: &str, delivered: &str, p50: &str, p99: &str) -> (r: Vec<String>)
    ensures
        texts(r@) == smoke_text(acknowledged@, delivered@, p50@, p99@),
{
    let mut out: Vec<String> = Vec::new();
    out.push(String::from_str("PASS smoke: one log, one appender, one subscriber"));
    let mut counts = String::from_str(acknowledged);
    counts.append(" appends acknowledged, ");
    counts.append(delivered);
    counts.append(" exact subscriber deliveries");
    out.push(counts);
    out.push(String::from_str("Credit isolation and durable SIGKILL/restart replay passed"));
    let mut latency = String::from_str("Append latency: p50=");
    latency.append(p50);
    latency.append(" us, p99=");
    latency.append(p99);
    latency.append(" us");
    out.push(latency);
    assert(texts(out@) =~= smoke_text(acknowledged@, delivered@, p50@, p99@));
    out
}

/// A report says first whether the run went well and how it began, then what each
/// epoch came to, one after another, and last that everything was held to account;
/// the epochs of two runs are reported as those of one are.
pub proof fn reports_go_from_epoch_to_epoch(
    status: Seq<char>,
    accepts: Seq<char>,
    cold: Seq<char>,
    first: Seq<EpochValues>,
    second: Seq<EpochValues>,
)
    ensures
        epochs_text(first + second) == epochs_text(first) + epochs_text(second),
        first.len() == 1 ==> epochs_text(first) == first[0].lines(),
        report_text(status, accepts, cold, first).len() == epochs_text(first).len() + 5,
        report_text(status, accepts, cold, first)[1] == line_text("status"@, status),
        report_text(status, accepts, cold, first).subrange(4, 4 + epochs_text(first).len() as int)
            == epochs_text(first),
    decreases second.len(),
{
    let all = first + second;
    if first.len() == 1 {
        reveal_with_fuel(epochs_text, 2);
        assert(first.drop_last() =~= Seq::empty());
        assert(first.last() == first[0]);
        assert(Seq::<Seq<char>>::empty() + first[0].lines() =~= first[0].lines());
    }
    assert(report_text(status, accepts, cold, first).subrange(
        4,
        4 + epochs_text(first).len() as int,
    ) =~= epochs_text(first));
    if second.len() == 0 {
        assert(all =~= first);
        assert(epochs_text(first) + epochs_text(second) =~= epochs_text(first));
    } else {
        assert(all.drop_last() =~= first + second.drop_last());
        assert(all.last() == second.last());
        reports_go_from_epoch_to_epoch(status, accepts, cold, first, second.drop_last());
        assert(epochs_text(first) + epochs_text(second.drop_last()) + second.last().lines()
            =~= epochs_text(first) + epochs_text(second));
    }
}

} // verus!

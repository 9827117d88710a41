//! The schedule of a run, and what is measured against it.

use super::config::{scheduled, Config};
use super::error::{error, join, Error};
use crate::json::{lemma_object, Json, JsonView, Number, NumberView};
use crate::text::{decimal, decimal_text};
use hdrhistogram::Histogram;
use vstd::multiset::Multiset;
use vstd::prelude::*;

verus! {

/// When append `sequence` is due, in nanoseconds after the start.
pub open spec fn due(sequence: u64, rate: u64) -> int {
    sequence * 1_000_000_000 / (rate as int)
}

/// When append number `sequence` of `rate` a second is due, in nanoseconds
/// after the start. Beyond 64 bits of nanoseconds only the low ones are kept.
pub fn offset(sequence: u64, rate: u64) -> (r: u64)
    requires
        rate > 0,
    ensures
        r == due(sequence, rate) as u64,
{
    (sequence as u128 * 1_000_000_000 / rate as u128) as u64
}

/// The schedule is absolute: `k` times `rate` appends take exactly `k`
/// seconds, however long the run.
pub proof fn schedule_has_no_cumulative_roundoff(k: u64, rate: u64)
    requires
        rate > 0,
        k * rate <= u64::MAX,
    ensures
        due((k * rate) as u64, rate) == k * 1_000_000_000,
{
    assert((k * rate) * 1_000_000_000 == (k * 1_000_000_000) * rate) by (nonlinear_arith);
    vstd::arithmetic::div_mod::lemma_div_multiples_vanish(k * 1_000_000_000, rate as int);
    vstd::arithmetic::mul::lemma_mul_is_commutative(k * 1_000_000_000, rate as int);
}

/// A later append is never due earlier.
pub proof fn schedule_is_in_order(a: u64, b: u64, rate: u64)
    requires
        rate > 0,
        a <= b,
    ensures
        due(a, rate) <= due(b, rate),
{
    vstd::arithmetic::div_mod::lemma_div_is_ordered(
        a * 1_000_000_000,
        b * 1_000_000_000,
        rate as int,
    );
}

/// Every scheduled append is due within the window, and the first one that is
/// not scheduled would come after it.
pub proof fn schedule_fills_the_window(cfg: Config, sequence: u64)
    requires
        cfg.rate > 0,
    ensures
        sequence < scheduled(cfg) ==> due(sequence, cfg.rate) < cfg.duration,
        sequence > scheduled(cfg) ==> due(sequence, cfg.rate) >= cfg.duration,
{
    let rate = cfg.rate as int;
    let total = cfg.duration * cfg.rate;
    let n = total / 1_000_000_000;
    let s = sequence * 1_000_000_000;
    assert(total >= 0) by (nonlinear_arith)
        requires
            total == cfg.duration * cfg.rate,
    ;
    vstd::arithmetic::div_mod::lemma_fundamental_div_mod(s, rate);
    let q = s / rate;
    if sequence < n {
        assert(s < total);
        assert(q < cfg.duration) by (nonlinear_arith)
            requires
                s == rate * q + s % rate,
                s % rate >= 0,
                s < cfg.duration * rate,
                rate > 0,
        ;
    }
    if sequence > n {
        assert(s >= total);
        assert(q >= cfg.duration) by (nonlinear_arith)
            requires
                s == rate * q + s % rate,
                s % rate < rate,
                s >= cfg.duration * rate,
                rate > 0,
        ;
    }
}

/// An `hdrhistogram::Histogram` of microseconds.
#[verifier::external_body]
pub struct Samples {
    pub inner: Histogram<u64>,
}

/// The values recorded, each as the lowest value that the histogram does not
/// tell apart from it.
pub uninterp spec fn recorded(samples: Samples) -> Multiset<u64>;

/// The lowest value that a histogram of three significant digits does not
/// tell apart from `value`: its eleven leading binary digits, and zeros.
pub open spec fn bucket(value: u64) -> u64
    decreases value,
{
    if value < 2048 {
        value
    } else {
        (2 * bucket(value / 2)) as u64
    }
}

/// How many values are not told apart from `value`.
spec fn breadth(value: u64) -> nat
    decreases value,
{
    if value < 2048 {
        1
    } else {
        2 * breadth(value / 2)
    }
}

proof fn lemma_breadth(value: u64)
    ensures
        bucket(value) <= value < bucket(value) + breadth(value),
        value >= 1024 ==> 1024 * breadth(value) <= value,
    decreases value,
{
    if value >= 2048 {
        lemma_breadth(value / 2);
    }
}

/// A sample is kept to three significant digits: what is kept of it falls
/// short by less than a thousandth, and what is small is kept as it is.
pub proof fn samples_keep_three_digits(value: u64)
    ensures
        bucket(value) <= value,
        value > 0 ==> 1000 * (value - bucket(value)) < value,
        value < 2048 ==> bucket(value) == value,
{
    lemma_breadth(value);
}

impl Samples {
    /// `Histogram::new(3)`: an empty histogram of three significant digits
    /// that grows as it must. Up to five digits are never refused.
    #[verifier::external_body]
    fn new() -> (r: Option<Samples>)
        ensures
            r is Some,
            recorded(r->0) == Multiset::<u64>::empty(),
    {
        Histogram::new(3).ok().map(|inner| Samples { inner })
    }

    /// `Histogram::record`: one more sample, in the bin that starts at the
    /// sample's eleven leading binary digits. A histogram that grows refuses
    /// none whose bins can be counted, and up to half of `i64::MAX` they can.
    /// Counts stop at `u64::MAX`, beyond which nothing is said.
    #[verifier::external_body]
    fn record(&mut self, value: u64) -> (r: bool)
        requires
            value <= 0x3fff_ffff_ffff_ffff,
        ensures
            r,
            recorded(*old(self)).len() < u64::MAX ==> recorded(*final(self)) == recorded(
                *old(self),
            ).insert(bucket(value)),
    {
        self.inner.record(value).is_ok()
    }

    /// `Histogram::len`: how many samples there are, up to `u64::MAX`.
    #[verifier::external_body]
    fn len(&self) -> (r: u64)
        ensures
            recorded(*self).len() < u64::MAX ==> r == recorded(*self).len(),
    {
        self.inner.len()
    }
}

/// Microseconds, rounded up, and never none.
pub open spec fn micros(nanos: int) -> int {
    if nanos <= 0 {
        1
    } else {
        (nanos + 999) / 1000
    }
}

/// How long things took, from when they were meant to start.
pub struct Latency(Samples);

impl Latency {
    /// What has been recorded, to the resolution kept.
    pub closed spec fn recorded(&self) -> Multiset<u64> {
        recorded(self.0)
    }

    /// Empty.
    pub fn new() -> (r: Result<Self, Error>)
        ensures
            r is Ok,
            r->Ok_0.recorded() == Multiset::<u64>::empty(),
    {
        match Samples::new() {
            Some(samples) => Ok(Latency(samples)),
            None => Err(error(String::from_str("latency histogram cannot be created"))),
        }
    }

    /// Record the time from `intended` to `observed`, both in nanoseconds
    /// from the same start.
    pub fn record(&mut self, intended: u64, observed: u64) -> (r: Result<(), Error>)
        ensures
            r is Ok <==> intended <= observed,
            r is Err ==> r->Err_0.message@ == "observation precedes intended send time"@
                && final(self).recorded() == old(self).recorded(),
            r is Ok && old(self).recorded().len() < u64::MAX ==> final(self).recorded() == old(
                self,
            ).recorded().insert(bucket(micros(observed - intended) as u64)),
    {
        if observed < intended {
            return Err(error(String::from_str("observation precedes intended send time")));
        }
        let nanos: u64 = observed - intended;
        let whole: u64 = nanos / 1000;
        let up: u64 = if nanos % 1000 == 0 { whole } else { whole + 1 };
        let value: u64 = if up == 0 { 1 } else { up };
        assert(value == micros(nanos as int));
        if self.0.record(value) {
            Ok(())
        } else {
            Err(error(String::from_str("latency histogram cannot grow")))
        }
    }

    pub fn count(&self) -> (r: u64)
        ensures
            self.recorded().len() < u64::MAX ==> r == self.recorded().len(),
    {
        self.0.len()
    }

    /// What to report, given the quantiles of what was recorded. Without a
    /// sample there is no latency to tell, which is not a latency of zero.
    pub fn json(&self, p50: u64, p99: u64, p999: u64) -> (r: Json)
        ensures
            self.recorded().len() < u64::MAX ==> r@ == latency_json(
                self.recorded().len(),
                p50,
                p99,
                p999,
            ),
    {
        let count = self.count();
        let mut fields: Vec<(String, Json)> = Vec::new();
        fields.push((String::from_str("count"), Json::Number(Number::Unsigned(count))));
        fields.push((String::from_str("p50_us"), quantile(count, p50)));
        fields.push((String::from_str("p99_us"), quantile(count, p99)));
        fields.push((String::from_str("p999_us"), quantile(count, p999)));
        let json = Json::Object(fields);
        proof {
            lemma_object(json);
            assert(json@->Object_0 =~= latency_json(count as nat, p50, p99, p999)->Object_0);
        }
        json
    }

    /// The samples themselves, for whoever reports on them.
    pub fn samples(&self) -> (r: &Samples)
        ensures
            recorded(*r) == self.recorded(),
    {
        &self.0
    }
}

pub open spec fn quantile_json(count: nat, value: u64) -> JsonView {
    if count == 0 {
        JsonView::Null
    } else {
        JsonView::Number(NumberView::Unsigned(value))
    }
}

/// So many samples, and their quantiles if there are any.
pub open spec fn latency_json(count: nat, p50: u64, p99: u64, p999: u64) -> JsonView {
    JsonView::Object(
        seq![
            ("count"@, JsonView::Number(NumberView::Unsigned(count as u64))),
            ("p50_us"@, quantile_json(count, p50)),
            ("p99_us"@, quantile_json(count, p99)),
            ("p999_us"@, quantile_json(count, p999)),
        ],
    )
}

fn quantile(count: u64, value: u64) -> (r: Json)
    ensures
        r@ == quantile_json(count as nat, value),
{
    if count == 0 {
        Json::Null
    } else {
        Json::Number(Number::Unsigned(value))
    }
}

/// What a run counted.
pub struct Tally {
    /// The latencies recorded, in microseconds and to the resolution kept.
    pub append: Multiset<u64>,
    pub delivery: Multiset<u64>,
    pub scheduled: u64,
    pub acknowledged: u64,
    pub delivered: u64,
    pub in_window_acks: u64,
    pub in_window_deliveries: u64,
    /// In nanoseconds.
    pub elapsed: u64,
    pub tx_bytes: u64,
    pub rx_bytes: u64,
    pub rss_peak: u64,
}

impl Tally {
    /// Before anything.
    pub open spec fn blank() -> Tally {
        Tally {
            append: Multiset::empty(),
            delivery: Multiset::empty(),
            scheduled: 0,
            acknowledged: 0,
            delivered: 0,
            in_window_acks: 0,
            in_window_deliveries: 0,
            elapsed: 0,
            tx_bytes: 0,
            rx_bytes: 0,
            rss_peak: 0,
        }
    }
}

/// What a run counts.
pub struct Metrics {
    pub append: Latency,
    pub delivery: Latency,
    pub scheduled: u64,
    pub acknowledged: u64,
    pub delivered: u64,
    pub in_window_acks: u64,
    pub in_window_deliveries: u64,
    /// In nanoseconds.
    pub elapsed: u64,
    pub tx_bytes: u64,
    pub rx_bytes: u64,
    pub rss_peak: u64,
}

impl Metrics {
    pub open spec fn view(&self) -> Tally {
        Tally {
            append: self.append.recorded(),
            delivery: self.delivery.recorded(),
            scheduled: self.scheduled,
            acknowledged: self.acknowledged,
            delivered: self.delivered,
            in_window_acks: self.in_window_acks,
            in_window_deliveries: self.in_window_deliveries,
            elapsed: self.elapsed,
            tx_bytes: self.tx_bytes,
            rx_bytes: self.rx_bytes,
            rss_peak: self.rss_peak,
        }
    }

    /// Nothing counted yet.
    pub fn new() -> (r: Result<Self, Error>)
        ensures
            r is Ok,
            r->Ok_0@ == Tally::blank(),
    {
        let append = match Latency::new() {
            Ok(append) => append,
            Err(e) => return Err(e),
        };
        let delivery = match Latency::new() {
            Ok(delivery) => delivery,
            Err(e) => return Err(e),
        };
        Ok(
            Metrics {
                append,
                delivery,
                scheduled: 0,
                acknowledged: 0,
                delivered: 0,
                in_window_acks: 0,
                in_window_deliveries: 0,
                elapsed: 0,
                tx_bytes: 0,
                rx_bytes: 0,
                rss_peak: 0,
            },
        )
    }
}

/// Quiescent descriptors are held against the same baseline every time.
pub fn check_fd_growth(baseline: usize, after: usize, slack: usize) -> (r: Result<(), Error>)
    ensures
        r is Ok <==> after <= baseline + slack || baseline + slack > usize::MAX,
        r is Err ==> r->Err_0.message@
            == "FD LEAK: quiescent server fds grew from "@ + decimal(baseline as nat) + " to "@
            + decimal(after as nat) + ", allowed slack "@ + decimal(slack as nat),
{
    if after > baseline.saturating_add(slack) {
        let mut message = join(
            "FD LEAK: quiescent server fds grew from ",
            decimal_text(baseline as u64).as_str(),
            " to ",
        );
        message.append(decimal_text(after as u64).as_str());
        message.append(", allowed slack ");
        message.append(decimal_text(slack as u64).as_str());
        return Err(error(message));
    }
    Ok(())
}

/// Microseconds are rounded up, and never none: what took `n` nanoseconds took no
/// more than that many microseconds, and more than one fewer.
pub proof fn microseconds_round_up(nanos: int)
    requires
        nanos >= 0,
    ensures
        micros(nanos) >= 1,
        nanos <= 1000 * micros(nanos),
        nanos > 0 ==> 1000 * (micros(nanos) - 1) < nanos,
        nanos == 0 ==> micros(nanos) == 1,
{
}

/// An append is due exactly when its share of the rate has passed: the schedule
/// is behind the even one by less than a nanosecond.
pub proof fn appends_are_due_on_time(sequence: u64, rate: u64)
    requires
        rate > 0,
    ensures
        due(sequence, rate) * rate <= sequence * 1_000_000_000,
        sequence * 1_000_000_000 < (due(sequence, rate) + 1) * rate,
{
    let (s, d) = (sequence * 1_000_000_000, rate as int);
    vstd::arithmetic::div_mod::lemma_fundamental_div_mod(s, d);
    let q = s / d;
    assert(q * d <= s < (q + 1) * d) by (nonlinear_arith)
        requires
            s == d * q + s % d,
            0 <= s % d < d,
    ;
}

/// What is said of latencies is how many were sampled and, where any were, their
/// quantiles; where none were there are no quantiles to say.
pub proof fn quantiles_need_samples(count: u64, p50: u64, p99: u64, p999: u64)
    ensures
        latency_json(count as nat, p50, p99, p999) is Object,
        ({
            let fields = latency_json(count as nat, p50, p99, p999)->Object_0;
            &&& fields.len() == 4
            &&& fields[0] == ("count"@, JsonView::Number(NumberView::Unsigned(count)))
            &&& fields[1].0 == "p50_us"@ && fields[2].0 == "p99_us"@ && fields[3].0 == "p999_us"@
            &&& count == 0 ==> fields[1].1 is Null && fields[2].1 is Null && fields[3].1 is Null
            &&& count > 0 ==> fields[1].1 == JsonView::Number(NumberView::Unsigned(p50))
                && fields[2].1 == JsonView::Number(NumberView::Unsigned(p99)) && fields[3].1
                == JsonView::Number(NumberView::Unsigned(p999))
        }),
{
}

} // verus!

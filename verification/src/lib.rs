//! A client that sends application metrics to a statsd server, with
//! statistical sub-sampling to bound the overhead at high call volumes.
//!
//! An outlet holds a key prefix and a sampling rate. Each metric is first
//! put to the sampler; only an accepted one is rendered and handed to the
//! outlet's sender, as one payload. What an outlet has handed over is kept
//! as a ghost history, so that the contracts can say which payloads a call
//! dispatches.
use vstd::prelude::*;

pub mod channel;
mod clock;
pub mod pcg32;
pub mod rate;
pub mod wire;

use crate::clock::precise_time_ns;
use crate::pcg32::{random, Pcg32};
use crate::rate::parse;
pub use crate::rate::{to_int_rate, RateError, FULL_SAMPLING_RATE};
use crate::wire::render;
pub use crate::wire::{MetricKind, MAX_UDP_PAYLOAD};
use vstd::string::StringExecFns;

verus! {

/// Where an outlet hands its payloads. Sending is fire and forget: it does
/// not block and reports no failure.
pub trait SendStats: Sized {
    /// Takes one payload for sending.
    fn send_stats(&self, str: String);
}

/// A point in time from which elapsed time can be determined.
pub struct StartTime(u64);

/// The whole milliseconds from `start_ns` to `now_ns`, both in nanoseconds
/// of one clock; none where the clock has not moved forward.
pub open spec fn elapsed_millis(start_ns: u64, now_ns: u64) -> u64 {
    if now_ns >= start_ns {
        ((now_ns - start_ns) / 1_000_000) as u64
    } else {
        0
    }
}

impl StartTime {
    /// The clock reading that this point in time was taken at.
    pub closed spec fn nanos(&self) -> u64 {
        self.0
    }

    /// The point in time at which the clock read `nanos`.
    pub fn from_nanos(nanos: u64) -> (start_time: StartTime)
        ensures
            start_time.nanos() == nanos,
    {
        StartTime(nanos)
    }

    /// The number of milliseconds elapsed between this StartTime and the
    /// moment at which the clock reads `now_ns`.
    pub fn elapsed_ms_at(self, now_ns: u64) -> (elapsed: u64)
        ensures
            elapsed == elapsed_millis(self.nanos(), now_ns),
    {
        if now_ns >= self.0 {
            (now_ns - self.0) / 1_000_000
        } else {
            0
        }
    }

    /// The number of milliseconds elapsed between now and this StartTime.
    pub fn elapsed_ms(self) -> (elapsed: u64)
        ensures
            exists|now_ns: u64| elapsed == elapsed_millis(self.nanos(), now_ns),
    {
        let now_ns = precise_time_ns();
        self.elapsed_ms_at(now_ns)
    }
}

/// Whether a generator in `state` accepts the next sample at the threshold
/// `int_rate`: the value it draws must be greater.
pub open spec fn accepts(state: u64, int_rate: u32) -> bool {
    pcg32::output(state) > int_rate
}

/// Draws from `generator` and says whether the sample is to be taken.
pub fn accept_sample(generator: &mut Pcg32, int_rate: u32) -> (accepted: bool)
    ensures
        accepted == accepts(old(generator).state(), int_rate),
        final(generator).state() == pcg32::advance(old(generator).state()),
{
    random(generator) > int_rate
}

/// A client to send application metrics to a statsd server.
/// Multiple instances may be required if different sampling rates or
/// prefixes are required within the same application.
pub struct StatsdOutlet<S: SendStats> {
    sender: S,
    prefix: String,
    int_rate: u32,
    gauge_suffix: String,
    count_suffix: String,
    time_suffix: String,
    rate_suffix: Ghost<Seq<char>>,
    dispatched: Ghost<Seq<Seq<char>>>,
}

impl<S: SendStats> StatsdOutlet<S> {
    /// The three suffixes are the unit tags followed by one rate annotation.
    #[verifier::type_invariant]
    spec fn suffixes_rendered(&self) -> bool {
        &&& self.count_suffix@ == wire::unit_tag(MetricKind::Count) + self.rate_suffix@
        &&& self.gauge_suffix@ == wire::unit_tag(MetricKind::Gauge) + self.rate_suffix@
        &&& self.time_suffix@ == wire::unit_tag(MetricKind::Time) + self.rate_suffix@
    }

    /// The sender that the payloads are handed to.
    pub closed spec fn sender_value(&self) -> S {
        self.sender
    }

    /// What is put before every key.
    pub closed spec fn prefix_text(&self) -> Seq<char> {
        self.prefix@
    }

    /// The threshold that a drawn value must exceed for a metric to be sent.
    pub closed spec fn threshold(&self) -> u32 {
        self.int_rate
    }

    /// The rate annotation that follows the unit tag; empty at the full rate.
    pub closed spec fn rate_suffix(&self) -> Seq<char> {
        self.rate_suffix@
    }

    /// The payloads that this outlet has handed to its sender, oldest first.
    pub closed spec fn dispatched(&self) -> Seq<Seq<char>> {
        self.dispatched@
    }

    /// The payload of a metric of this outlet.
    pub open spec fn payload(&self, kind: MetricKind, key: Seq<char>, value: u64) -> Seq<char> {
        wire::payload_text(
            self.prefix_text(),
            key,
            value as nat,
            wire::unit_tag(kind) + self.rate_suffix(),
        )
    }

    /// What has been dispatched once a metric was offered while the
    /// generator was in `state`: one payload more if the sampler accepted,
    /// nothing more if it did not.
    pub open spec fn offered(
        &self,
        state: u64,
        kind: MetricKind,
        key: Seq<char>,
        value: u64,
    ) -> Seq<Seq<char>> {
        if accepts(state, self.threshold()) {
            self.dispatched().push(self.payload(kind, key, value))
        } else {
            self.dispatched()
        }
    }

    /// Sender, prefix, rate and annotation are those of `before`: an
    /// outlet's settings are fixed at construction.
    pub open spec fn settings_of(&self, before: &Self) -> bool {
        &&& self.sender_value() == before.sender_value()
        &&& self.prefix_text() == before.prefix_text()
        &&& self.threshold() == before.threshold()
        &&& self.rate_suffix() == before.rate_suffix()
    }

    /// Create a new outlet that hands its payloads to `sender`.
    /// Sent metric keys will be prepended with `prefix_str`.
    /// Subsampling is performed according to `rate`, a decimal numeral where
    /// - `1` is full sampling and
    /// - `0` means _no_ samples will be taken.
    /// A rate that is no numeral from 0 to 1 is refused.
    pub fn outlet(
        sender: S,
        prefix_str: &str,
        rate: &str,
    ) -> (outlet: Result<StatsdOutlet<S>, RateError>)
        ensures
            match outlet {
                Ok(outlet) => {
                    &&& rate::well_formed(rate@)
                    &&& rate::in_range(rate@)
                    &&& outlet.sender_value() == sender
                    &&& outlet.prefix_text() == prefix_str@
                    &&& outlet.threshold() == rate::int_rate_of(rate@)
                    &&& outlet.rate_suffix() == rate::rate_suffix(rate@)
                    &&& outlet.dispatched() == Seq::<Seq<char>>::empty()
                },
                Err(RateError::Malformed) => !rate::well_formed(rate@),
                Err(RateError::OutOfRange) => rate::well_formed(rate@) && !rate::in_range(rate@),
            },
    {
        let parsed = match parse(rate) {
            Ok(parsed) => parsed,
            Err(error) => {
                return Err(error);
            },
        };
        let mut rate_suffix = String::new();
        if !parsed.full {
            rate_suffix.append("|@");
            rate_suffix.append(rate);
        }
        proof {
            reveal_strlit("|@");
            reveal_strlit("|ms");
            reveal_strlit("|g");
            reveal_strlit("|c");
            assert("|@"@ =~= seq!['|', '@']);
            assert("|ms"@ =~= seq!['|', 'm', 's']);
            assert("|g"@ =~= seq!['|', 'g']);
            assert("|c"@ =~= seq!['|', 'c']);
            assert(rate_suffix@ =~= rate::rate_suffix(rate@));
        }
        Ok(
            StatsdOutlet {
                sender,
                prefix: String::from_str(prefix_str),
                int_rate: parsed.int_rate,
                time_suffix: String::from_str("|ms").concat(rate_suffix.as_str()),
                gauge_suffix: String::from_str("|g").concat(rate_suffix.as_str()),
                count_suffix: String::from_str("|c").concat(rate_suffix.as_str()),
                rate_suffix: Ghost(rate_suffix@),
                dispatched: Ghost(Seq::empty()),
            },
        )
    }

    /// The sender that this outlet hands its payloads to.
    pub fn sender(&self) -> (sender: &S)
        ensures
            *sender == self.sender_value(),
    {
        &self.sender
    }

    /// Report to statsd a count of items.
    pub fn count(&mut self, generator: &mut Pcg32, key: &str, value: u64)
        ensures
            final(generator).state() == pcg32::advance(old(generator).state()),
            final(self).settings_of(old(self)),
            final(self).dispatched() == old(self).offered(
                old(generator).state(),
                MetricKind::Count,
                key@,
                value,
            ),
    {
        if accept_sample(generator, self.int_rate) {
            self.send(MetricKind::Count, key, value)
        }
    }

    /// Report to statsd a non-cumulative (instant) count of items.
    pub fn gauge(&mut self, generator: &mut Pcg32, key: &str, value: u64)
        ensures
            final(generator).state() == pcg32::advance(old(generator).state()),
            final(self).settings_of(old(self)),
            final(self).dispatched() == old(self).offered(
                old(generator).state(),
                MetricKind::Gauge,
                key@,
                value,
            ),
    {
        if accept_sample(generator, self.int_rate) {
            self.send(MetricKind::Gauge, key, value)
        }
    }

    /// Report to statsd a time interval of items.
    pub fn time_interval_ms(&mut self, generator: &mut Pcg32, key: &str, interval_ms: u64)
        ensures
            final(generator).state() == pcg32::advance(old(generator).state()),
            final(self).settings_of(old(self)),
            final(self).dispatched() == old(self).offered(
                old(generator).state(),
                MetricKind::Time,
                key@,
                interval_ms,
            ),
    {
        if accept_sample(generator, self.int_rate) {
            self.send_time_ms(key, interval_ms);
        }
    }

    /// Query current time to use eventually with `stop_time()`.
    pub fn start_time(&self) -> StartTime {
        StartTime(precise_time_ns())
    }

    /// An efficient timer that skips querying for stop time if sample will
    /// not be collected.
    /// Caveat: random sampling overhead of a few ns will be included in any
    /// reported time interval.
    pub fn stop_time(&mut self, generator: &mut Pcg32, key: &str, start_time: StartTime)
        ensures
            final(generator).state() == pcg32::advance(old(generator).state()),
            final(self).settings_of(old(self)),
            exists|now_ns: u64|
                final(self).dispatched() == old(self).offered(
                    old(generator).state(),
                    MetricKind::Time,
                    key@,
                    elapsed_millis(start_time.nanos(), now_ns),
                ),
    {
        if accept_sample(generator, self.int_rate) {
            let ghost start_ns = start_time.nanos();
            let elapsed = start_time.elapsed_ms();
            self.send_time_ms(key, elapsed);
            proof {
                let now_ns = choose|now_ns: u64| elapsed == elapsed_millis(start_ns, now_ns);
                assert(self.dispatched() == old(self).offered(
                    old(generator).state(),
                    MetricKind::Time,
                    key@,
                    elapsed_millis(start_ns, now_ns),
                ));
            }
        } else {
            assert(self.dispatched() == old(self).offered(
                old(generator).state(),
                MetricKind::Time,
                key@,
                elapsed_millis(start_time.nanos(), 0),
            ));
        }
    }

    /// Wraps a computation with a start / stop timer. Elapsed time is
    /// offered to the sampler after the computation has been performed, and
    /// the result of the computation is handed back as it is.
    pub fn time<R, F: FnOnce() -> R>(
        &mut self,
        generator: &mut Pcg32,
        key: &str,
        body: F,
    ) -> (result: R)
        requires
            body.requires(()),
        ensures
            body.ensures((), result),
            final(generator).state() == pcg32::advance(old(generator).state()),
            final(self).settings_of(old(self)),
            exists|elapsed_ms: u64|
                final(self).dispatched() == old(self).offered(
                    old(generator).state(),
                    MetricKind::Time,
                    key@,
                    elapsed_ms,
                ),
    {
        let start_time = self.start_time();
        let result = body();
        self.stop_time(generator, key, start_time);
        result
    }

    /// Hands a time interval to the sender, without sampling.
    pub fn send_time_ms(&mut self, key: &str, interval_ms: u64)
        ensures
            final(self).settings_of(old(self)),
            final(self).dispatched() == old(self).dispatched().push(
                old(self).payload(MetricKind::Time, key@, interval_ms),
            ),
    {
        self.send(MetricKind::Time, key, interval_ms)
    }

    /// Concatenate the parts of a metric into a single buffer and hand it
    /// to the sender, without sampling.
    ///
    /// The payload is handed over whole, whatever its length. To travel as
    /// one packet it must not be longer than `MAX_UDP_PAYLOAD` bytes:
    /// keeping prefix and key short enough for that is up to the caller.
    pub fn send(&mut self, kind: MetricKind, key: &str, value: u64)
        ensures
            final(self).settings_of(old(self)),
            final(self).dispatched() == old(self).dispatched().push(
                old(self).payload(kind, key@, value),
            ),
    {
        proof {
            use_type_invariant(&*self);
        }
        let suffix = match kind {
            MetricKind::Count => self.count_suffix.as_str(),
            MetricKind::Gauge => self.gauge_suffix.as_str(),
            MetricKind::Time => self.time_suffix.as_str(),
        };
        let payload = render(self.prefix.as_str(), key, value, suffix);
        self.dispatched = Ghost(self.dispatched@.push(payload@));
        self.sender.send_stats(payload)
    }
}

/// At the full rate every metric is dispatched as exactly one payload,
/// without a rate annotation, whenever the generator draws anything but
/// zero.
pub proof fn lemma_full_rate_dispatches_once<S: SendStats>(
    outlet: StatsdOutlet<S>,
    rate: Seq<char>,
    state: u64,
    kind: MetricKind,
    key: Seq<char>,
    value: u64,
)
    requires
        rate::in_range(rate),
        rate::is_full(rate),
        outlet.threshold() == rate::int_rate_of(rate),
        outlet.rate_suffix() == rate::rate_suffix(rate),
        pcg32::output(state) != 0,
    ensures
        outlet.offered(state, kind, key, value) == outlet.dispatched().push(
            outlet.prefix_text() + key + seq![':'] + wire::decimal_text(value as nat)
                + wire::unit_tag(kind),
        ),
{
    rate::lemma_int_rate_endpoints(rate);
    assert(wire::unit_tag(kind) + outlet.rate_suffix() =~= wire::unit_tag(kind));
}

/// Below the full rate every payload ends with `|@` and the rate as it was
/// given, so that the server can correct for the sampling.
pub proof fn lemma_sampled_payload_names_rate<S: SendStats>(
    outlet: StatsdOutlet<S>,
    rate: Seq<char>,
    kind: MetricKind,
    key: Seq<char>,
    value: u64,
)
    requires
        rate::in_range(rate),
        !rate::is_full(rate),
        outlet.rate_suffix() == rate::rate_suffix(rate),
    ensures
        outlet.payload(kind, key, value) == outlet.prefix_text() + key + seq![':']
            + wire::decimal_text(value as nat) + wire::unit_tag(kind) + seq!['|', '@'] + rate,
{
    let head = outlet.prefix_text() + key + seq![':'] + wire::decimal_text(value as nat);
    assert(head + (wire::unit_tag(kind) + (seq!['|', '@'] + rate)) =~= head + wire::unit_tag(kind)
        + seq!['|', '@'] + rate);
}

/// At rate zero nothing is ever dispatched, whatever the generator draws.
pub proof fn lemma_zero_rate_dispatches_nothing<S: SendStats>(
    outlet: StatsdOutlet<S>,
    rate: Seq<char>,
    state: u64,
    kind: MetricKind,
    key: Seq<char>,
    value: u64,
)
    requires
        rate::in_range(rate),
        rate::numerator(rate) == 0,
        outlet.threshold() == rate::int_rate_of(rate),
    ensures
        outlet.offered(state, kind, key, value) == outlet.dispatched(),
{
    rate::lemma_int_rate_endpoints(rate);
}

} // verus!

//! The ledger that a load run is held against: what was issued, in which
//! order every subscriber saw it, and what was acknowledged.

use super::error::{error, Error};
use crate::json::{Json, JsonView};
use crate::proto::show::{commas, version_texts, version_words};
use crate::proto::{Durability, Record};
use crate::text::{
    char_of_digit, chars_of, decimal, decimal_text, digit_char, digit_value, is_numeral,
    numeral_value, parse_unsigned, slice, unsigned, unsigned_body,
};
use std::collections::{BTreeMap, HashMap};
use vstd::prelude::*;

verus! {

// ---------------------------------------------------------------------
// Payloads.

/// `n` in `width` hexadecimal digits.
pub open spec fn hex_digits(n: nat, width: nat) -> Seq<char>
    decreases width,
{
    if width == 0 {
        Seq::empty()
    } else {
        hex_digits(n / 16, (width - 1) as nat).push(digit_char(n % 16))
    }
}

/// The payload of append `sequence`: its number in sixteen hexadecimal
/// digits, then `x` up to `size` characters.
pub open spec fn payload(sequence: u64, size: nat) -> Seq<char> {
    hex_digits(sequence as nat, 16) + Seq::new((size - 16) as nat, |i: int| 'x')
}

pub open spec fn sixteens(width: nat) -> nat
    decreases width,
{
    if width == 0 {
        1
    } else {
        16 * sixteens((width - 1) as nat)
    }
}

proof fn lemma_hex_digits(n: nat, width: nat)
    requires
        n < sixteens(width),
    ensures
        hex_digits(n, width).len() == width,
        forall|i: int|
            0 <= i < width ==> digit_value(#[trigger] hex_digits(n, width)[i]) < 16
                && hex_digits(n, width)[i] <= '\x7f' && hex_digits(n, width)[i] != '+',
        numeral_value(hex_digits(n, width), 16) == n,
    decreases width,
{
    if width > 0 {
        lemma_hex_digits(n / 16, (width - 1) as nat);
        let rest = hex_digits(n / 16, (width - 1) as nat);
        assert(hex_digits(n, width).drop_last() =~= rest);
        assert(hex_digits(n, width).last() == digit_char(n % 16));
        assert forall|i: int| 0 <= i < width implies digit_value(
            #[trigger] hex_digits(n, width)[i],
        ) < 16 && hex_digits(n, width)[i] <= '\x7f' && hex_digits(n, width)[i] != '+' by {
            if i < width - 1 {
                assert(hex_digits(n, width)[i] == rest[i]);
            }
        }
    }
}

fn hex_text(n: u64, width: u64) -> (r: String)
    ensures
        r@ == hex_digits(n as nat, width as nat),
    decreases width,
{
    if width == 0 {
        let r = String::new();
        assert(r@ =~= hex_digits(n as nat, 0));
        r
    } else {
        let mut r = hex_text(n / 16, width - 1);
        r.push(char_of_digit(n % 16));
        r
    }
}

pub fn patch(sequence: u64, size: usize) -> (r: Json)
    requires
        size >= 16,
    ensures
        r@ == JsonView::Text(payload(sequence, size as nat)),
{
    let mut text = hex_text(sequence, 16);
    let ghost head = text@;
    let mut i: usize = 16;
    while i < size
        invariant
            16 <= i <= size,
            text@ == head + Seq::new((i - 16) as nat, |j: int| 'x'),
        decreases size - i,
    {
        text.push('x');
        i += 1;
        assert(text@ =~= head + Seq::new((i - 16) as nat, |j: int| 'x'));
    }
    Json::Text(text)
}

/// What can be read out of a payload.
pub enum Reading {
    /// Not what was sent.
    Changed,
    /// Sixteen characters that are no number.
    NoNumber,
    Sequence(u64),
}

pub open spec fn reading(text: Seq<char>, size: nat) -> Reading {
    if text.len() != size || exists|i: int|
        0 <= i < text.len() && (#[trigger] text[i] > '\x7f' || (i >= 16 && text[i] != 'x')) {
        Reading::Changed
    } else {
        match unsigned(text.take(16), 16) {
            Some(n) => Reading::Sequence(n as u64),
            None => Reading::NoNumber,
        }
    }
}

/// A payload says which append it belongs to.
pub proof fn payloads_read_back(sequence: u64, size: nat)
    requires
        size >= 16,
    ensures
        payload(sequence, size).len() == size,
        reading(payload(sequence, size), size) == Reading::Sequence(sequence),
{
    assert(sequence < sixteens(16)) by {
        reveal_with_fuel(sixteens, 17);
    }
    lemma_hex_digits(sequence as nat, 16);
    let text = payload(sequence, size);
    let head = hex_digits(sequence as nat, 16);
    assert(text.take(16) =~= head);
    assert(unsigned_body(head) == head);
    assert forall|i: int| 0 <= i < text.len() implies !(#[trigger] text[i] > '\x7f' || (i >= 16
        && text[i] != 'x')) by {
        if i < 16 {
            assert(text[i] == head[i]);
        }
    }
}

/// Sixteen hexadecimal digits never exceed 64 bits.
proof fn lemma_numeral_bounded(s: Seq<char>)
    requires
        forall|i: int| 0 <= i < s.len() ==> digit_value(#[trigger] s[i]) < 16,
    ensures
        numeral_value(s, 16) < sixteens(s.len()),
    decreases s.len(),
{
    if s.len() > 0 {
        lemma_numeral_bounded(s.drop_last());
    }
}

proof fn lemma_sixteens_grow(a: nat, b: nat)
    requires
        a <= b,
    ensures
        sixteens(a) <= sixteens(b),
    decreases b - a,
{
    if a < b {
        lemma_sixteens_grow(a, (b - 1) as nat);
    }
}

fn read_payload(text: &str, size: usize) -> (r: Result<Option<u64>, ()>)
    requires
        size >= 16,
    ensures
        match reading(text@, size as nat) {
            Reading::Changed => r is Err,
            Reading::NoNumber => r == Ok::<Option<u64>, ()>(None),
            Reading::Sequence(n) => r == Ok::<Option<u64>, ()>(Some(n)),
        },
{
    let chars = chars_of(text);
    if chars.len() != size {
        return Err(());
    }
    let mut i: usize = 0;
    while i < chars.len()
        invariant
            i <= chars.len(),
            chars@ == text@,
            chars.len() == size,
            forall|j: int|
                0 <= j < i ==> !(#[trigger] text@[j] > '\x7f' || (j >= 16 && text@[j] != 'x')),
        decreases chars.len() - i,
    {
        let c = chars[i];
        if c > '\x7f' || (i >= 16 && c != 'x') {
            assert(text@[i as int] == c);
            return Err(());
        }
        i += 1;
    }
    let head = slice(chars.as_slice(), 0, 16);
    assert(head@ =~= text@.take(16));
    proof {
        let body = unsigned_body(head@);
        if is_numeral(body, 16) {
            lemma_numeral_bounded(body);
            lemma_sixteens_grow(body.len(), 16);
            assert(sixteens(16) == 0x1_0000_0000_0000_0000) by {
                reveal_with_fuel(sixteens, 17);
            }
        }
    }
    Ok(parse_unsigned(head.as_str(), 16, u64::MAX))
}

// ---------------------------------------------------------------------
// The books.

/// One append: where it went, when it was due, and what came of it.
#[derive(Clone, Copy, Debug)]
pub struct Issued {
    pub log: usize,
    /// In nanoseconds from the start of the run.
    pub intended: u64,
    pub ack: Option<u64>,
    pub observed: Option<u64>,
}

/// One subscription: the version it must see next, and how much it may see.
#[derive(Clone, Copy, Debug)]
pub struct Stream {
    pub log: usize,
    pub next: u64,
    pub credit: u64,
}

/// What the server did wrong, or the harness.
#[derive(Clone, Debug, PartialEq, Eq)]
pub enum Violation {
    DuplicateStream { id: u64 },
    CreditUnknown { id: u64 },
    RecordsUnknown { id: u64 },
    VersionZero { log: usize },
    OrderMismatch { log: usize, version: u64, before: u64, sequence: u64 },
    Unissued { log: usize, version: u64, sequence: u64 },
    WrongLog { sequence: u64, owner: usize, log: usize },
    DuplicateAppend { sequence: u64, before: u64, version: u64 },
    NotOneVersion { sequence: u64, versions: Vec<u64> },
    AckUnissued { sequence: u64 },
    DuplicateAck { sequence: u64 },
    NotSynced { sequence: u64, synced: u64, version: u64 },
    NonContiguous { id: u64, expected: u64, version: u64 },
    NoCredit { id: u64, version: u64 },
    /// There is no version after this one for the stream to go on with.
    LastVersion { id: u64 },
    NotText { log: usize, version: u64 },
    PayloadChanged { log: usize, version: u64 },
    NoSequence { log: usize, version: u64 },
    AckLoss { issued: usize, acknowledged: usize },
    SubscriberLoss { id: u64, observed: u64, end: u64 },
    NotFromOne { log: usize },
}

/// The state of a ledger.
pub struct Books {
    pub issued: Seq<Issued>,
    /// For each log, which append each version was seen to carry.
    pub order: Seq<Map<u64, u64>>,
    pub streams: Map<u64, Stream>,
    pub patch_size: nat,
    pub durability: Durability,
    pub acked: nat,
}

pub open spec fn count_acked(issued: Seq<Issued>) -> nat
    decreases issued.len(),
{
    if issued.len() == 0 {
        0
    } else {
        count_acked(issued.drop_last()) + if issued.last().ack is Some {
            1nat
        } else {
            0
        }
    }
}

/// `v` is the highest version in `m`, or 0 where there is none.
pub open spec fn is_last(m: Map<u64, u64>, v: u64) -> bool {
    if m.dom().len() == 0 {
        v == 0
    } else {
        m.contains_key(v) && forall|k: u64| #[trigger] m.contains_key(k) ==> k <= v
    }
}

pub open spec fn last(m: Map<u64, u64>) -> u64 {
    choose|v: u64| is_last(m, v)
}

proof fn lemma_last(m: Map<u64, u64>, v: u64)
    requires
        is_last(m, v),
    ensures
        last(m) == v,
{
    let w = last(m);
    assert(is_last(m, w));
    if m.dom().len() > 0 {
        assert(m.contains_key(w) && m.contains_key(v));
    }
}

impl Books {
    /// What holds of every ledger, whatever the server did.
    pub open spec fn wf(self) -> bool {
        &&& self.patch_size >= 16
        &&& self.acked == count_acked(self.issued)
        &&& forall|i: int|
            0 <= i < self.issued.len() ==> (#[trigger] self.issued[i]).log < self.order.len()
        &&& forall|id: u64| #[trigger]
            self.streams.contains_key(id) ==> self.streams[id].log < self.order.len()
                && self.streams[id].next >= 1
        &&& forall|i: int| 0 <= i < self.order.len() ==> (#[trigger] self.order[i]).dom().finite()
    }

    /// What holds as long as nothing was found wrong: versions and appends
    /// name each other, and what was acknowledged is what was seen.
    pub open spec fn consistent(self) -> bool {
        &&& forall|log: int, v: u64|
            #![trigger self.order[log].contains_key(v)]
            0 <= log < self.order.len() && self.order[log].contains_key(v) ==> {
                let s = self.order[log][v];
                v >= 1 && s < self.issued.len() && self.issued[s as int].log == log
                    && self.issued[s as int].observed == Some(v)
            }
        &&& forall|s: int|
            #![trigger self.issued[s]]
            0 <= s < self.issued.len() && self.issued[s].observed is Some ==> {
                let v = self.issued[s].observed->0;
                self.order[self.issued[s].log as int].contains_key(v)
                    && self.order[self.issued[s].log as int][v] == s
            }
        &&& forall|s: int|
            #![trigger self.issued[s]]
            0 <= s < self.issued.len() && self.issued[s].ack is Some ==> self.issued[s].observed
                == self.issued[s].ack
    }

    pub open spec fn with_order(self, log: int, version: u64, sequence: u64) -> Books {
        Books {
            order: self.order.update(log, self.order[log].insert(version, sequence)),
            ..self
        }
    }

    /// Version `version` of `log` carries append `sequence`.
    pub open spec fn bind(self, log: int, version: u64, sequence: u64) -> (
        Books,
        Option<Violation>,
    ) {
        let bound = self.with_order(log, version, sequence);
        if version == 0 {
            (self, Some(Violation::VersionZero { log: log as usize }))
        } else if self.order[log].contains_key(version) && self.order[log][version] != sequence {
            (
                bound,
                Some(
                    Violation::OrderMismatch {
                        log: log as usize,
                        version,
                        before: self.order[log][version],
                        sequence,
                    },
                ),
            )
        } else if sequence >= self.issued.len() {
            (bound, Some(Violation::Unissued { log: log as usize, version, sequence }))
        } else {
            let entry = self.issued[sequence as int];
            if entry.log != log {
                (
                    bound,
                    Some(Violation::WrongLog { sequence, owner: entry.log, log: log as usize }),
                )
            } else if entry.observed is Some && entry.observed->0 != version {
                (
                    bound,
                    Some(
                        Violation::DuplicateAppend {
                            sequence,
                            before: entry.observed->0,
                            version,
                        },
                    ),
                )
            } else {
                (
                    Books {
                        issued: self.issued.update(
                            sequence as int,
                            Issued { observed: Some(version), ..entry },
                        ),
                        ..bound
                    },
                    None,
                )
            }
        }
    }

    /// One more append goes to `log`, which is due at `intended`.
    pub open spec fn issuing(self, log: usize, intended: u64) -> Books {
        Books {
            issued: self.issued.push(Issued { log, intended, ack: None, observed: None }),
            ..self
        }
    }

    /// Stream `id` opens on `log`, to see what comes after `from`.
    pub open spec fn subscribing(self, id: u64, log: usize, from: u64, credit: u32) -> Books {
        Books {
            streams: self.streams.insert(
                id,
                Stream { log, next: (from + 1) as u64, credit: credit as u64 },
            ),
            ..self
        }
    }

    /// Stream `id` may see so many more records.
    pub open spec fn granting(self, id: u64, credit: u32) -> Books {
        Books {
            streams: self.streams.insert(
                id,
                Stream {
                    credit: (self.streams[id].credit + credit) as u64,
                    ..self.streams[id]
                },
            ),
            ..self
        }
    }

    /// There are no streams any more.
    pub open spec fn forgetting(self) -> Books {
        Books { streams: Map::empty(), ..self }
    }

    /// Append `sequence` was acknowledged at `version`.
    pub open spec fn acknowledge(self, sequence: u64, version: u64, synced: u64) -> (
        Books,
        Result<u64, Violation>,
    ) {
        if sequence >= self.issued.len() {
            (self, Err(Violation::AckUnissued { sequence }))
        } else if self.issued[sequence as int].ack is Some {
            (self, Err(Violation::DuplicateAck { sequence }))
        } else if self.durability == Durability::Durable && synced < version {
            (self, Err(Violation::NotSynced { sequence, synced, version }))
        } else {
            let (bound, fault) = self.bind(
                self.issued[sequence as int].log as int,
                version,
                sequence,
            );
            match fault {
                Some(e) => (bound, Err(e)),
                None => {
                    let entry = bound.issued[sequence as int];
                    (
                        Books {
                            issued: bound.issued.update(
                                sequence as int,
                                Issued { ack: Some(version), ..entry },
                            ),
                            acked: bound.acked + 1,
                            ..bound
                        },
                        Ok(entry.intended),
                    )
                },
            }
        }
    }

    /// One record arrived on stream `id`.
    pub open spec fn record(self, id: u64, version: u64, patch: JsonView) -> (
        Books,
        Result<u64, Violation>,
    ) {
        if !self.streams.contains_key(id) {
            (self, Err(Violation::RecordsUnknown { id }))
        } else {
            let stream = self.streams[id];
            let log = stream.log;
            if version != stream.next {
                (self, Err(Violation::NonContiguous { id, expected: stream.next, version }))
            } else if stream.credit == 0 {
                (self, Err(Violation::NoCredit { id, version }))
            } else if version == u64::MAX {
                (self, Err(Violation::LastVersion { id }))
            } else {
                let moved = Books {
                    streams: self.streams.insert(
                        id,
                        Stream {
                            log,
                            next: (stream.next + 1) as u64,
                            credit: (stream.credit - 1) as u64,
                        },
                    ),
                    ..self
                };
                match patch {
                    JsonView::Text(text) => match reading(text, self.patch_size) {
                        Reading::Changed => (
                            moved,
                            Err(Violation::PayloadChanged { log, version }),
                        ),
                        Reading::NoNumber => (moved, Err(Violation::NoSequence { log, version })),
                        Reading::Sequence(sequence) => {
                            let (bound, fault) = moved.bind(log as int, version, sequence);
                            match fault {
                                Some(e) => (bound, Err(e)),
                                None => (bound, Ok(bound.issued[sequence as int].intended)),
                            }
                        },
                    },
                    _ => (moved, Err(Violation::NotText { log, version })),
                }
            }
        }
    }

    /// Records arrived on stream `id`, in this order; the first fault ends it.
    pub open spec fn deliver(self, id: u64, records: Seq<Record>) -> (
        Books,
        Result<Seq<u64>, Violation>,
    )
        decreases records.len(),
    {
        if records.len() == 0 {
            (self, Ok(Seq::empty()))
        } else {
            let (before, seen) = self.deliver(id, records.drop_last());
            match seen {
                Err(e) => (before, Err(e)),
                Ok(times) => {
                    let (after, one) = before.record(
                        id,
                        records.last().version,
                        records.last().patch@,
                    );
                    match one {
                        Err(e) => (after, Err(e)),
                        Ok(time) => (after, Ok(times.push(time))),
                    }
                },
            }
        }
    }

    /// Stream `id` has seen its log to the end.
    pub open spec fn caught_up(self, id: u64) -> bool {
        self.streams[id].next - 1 == last(self.order[self.streams[id].log as int])
    }

    pub open spec fn all_caught_up(self) -> bool {
        forall|id: u64| #[trigger] self.streams.contains_key(id) ==> self.caught_up(id)
    }

    /// The versions of a log run from one without a hole, by their number.
    pub open spec fn from_one(self, log: int) -> bool {
        last(self.order[log]) == self.order[log].dom().len()
    }

    pub open spec fn finished(self) -> bool {
        &&& self.acked == self.issued.len()
        &&& self.all_caught_up()
        &&& forall|log: int| 0 <= log < self.order.len() ==> #[trigger] self.from_one(log)
    }
}

/// What holding a finished run to account comes to. Lost acknowledgements are
/// found before a stream that is behind, and that before a log with a hole in
/// it, of which the first is told.
pub open spec fn verdict(b: Books, r: Result<(), Violation>) -> bool {
    &&& r is Ok <==> b.finished()
    &&& b.acked != b.issued.len() ==> r == Err::<(), Violation>(
        Violation::AckLoss {
            issued: b.issued.len() as usize,
            acknowledged: b.acked as usize,
        },
    )
    &&& b.acked == b.issued.len() && !b.all_caught_up() ==> exists|id: u64|
        b.streams.contains_key(id) && !b.caught_up(id) && r == Err::<(), Violation>(
            Violation::SubscriberLoss {
                id,
                observed: (b.streams[id].next - 1) as u64,
                end: last(b.order[b.streams[id].log as int]),
            },
        )
    &&& b.acked == b.issued.len() && b.all_caught_up() && r is Err ==> exists|log: int|
        0 <= log < b.order.len() && !b.from_one(log) && (forall|l: int|
            0 <= l < log ==> b.from_one(l)) && r == Err::<(), Violation>(
            Violation::NotFromOne { log: log as usize },
        )
}

/// `BTreeMap::last_key_value`: the highest key, if there is one.
#[verifier::external_body]
fn last_key(m: &BTreeMap<u64, u64>) -> (r: Option<u64>)
    ensures
        match r {
            None => m@.dom().len() == 0,
            Some(k) => m@.dom().len() > 0 && m@.contains_key(k) && forall|j: u64| #[trigger]
                m@.contains_key(j) ==> j <= k,
        },
{
    m.last_key_value().map(|(k, _)| *k)
}

fn last_of(m: &BTreeMap<u64, u64>) -> (r: u64)
    ensures
        is_last(m@, r),
        r == last(m@),
{
    let r = match last_key(m) {
        Some(k) => k,
        None => 0,
    };
    proof {
        lemma_last(m@, r);
    }
    r
}

pub struct Ledger {
    issued: Vec<Issued>,
    canonical: Vec<BTreeMap<u64, u64>>,
    streams: HashMap<u64, Stream>,
    patch_size: usize,
    durability: Durability,
    ack_count: usize,
}

proof fn lemma_count_update(issued: Seq<Issued>, i: int, entry: Issued)
    requires
        0 <= i < issued.len(),
    ensures
        count_acked(issued.update(i, entry)) == count_acked(issued) - (if issued[i].ack is Some {
            1int
        } else {
            0
        }) + (if entry.ack is Some {
            1int
        } else {
            0
        }),
    decreases issued.len(),
{
    let after = issued.update(i, entry);
    if i == issued.len() - 1 {
        assert(after.drop_last() =~= issued.drop_last());
    } else {
        assert(after.drop_last() =~= issued.drop_last().update(i, entry));
        lemma_count_update(issued.drop_last(), i, entry);
    }
}

proof fn lemma_count_bounded(issued: Seq<Issued>)
    ensures
        count_acked(issued) <= issued.len(),
    decreases issued.len(),
{
    if issued.len() > 0 {
        lemma_count_bounded(issued.drop_last());
    }
}

proof fn lemma_count_missing(issued: Seq<Issued>, i: int)
    requires
        0 <= i < issued.len(),
        issued[i].ack is None,
    ensures
        count_acked(issued) < issued.len(),
    decreases issued.len(),
{
    lemma_count_bounded(issued.drop_last());
    if i < issued.len() - 1 {
        lemma_count_missing(issued.drop_last(), i);
    }
}

proof fn lemma_bind_wf(b: Books, log: int, version: u64, sequence: u64)
    requires
        b.wf(),
        0 <= log < b.order.len(),
    ensures
        b.bind(log, version, sequence).0.wf(),
        b.bind(log, version, sequence).0.acked == b.acked,
        b.bind(log, version, sequence).0.streams == b.streams,
        b.bind(log, version, sequence).0.issued.len() == b.issued.len(),
        b.bind(log, version, sequence).0.order.len() == b.order.len(),
        b.bind(log, version, sequence).0.patch_size == b.patch_size,
        b.bind(log, version, sequence).1 is None ==> sequence < b.issued.len(),
        forall|i: int|
            0 <= i < b.issued.len() ==> (#[trigger] b.bind(
                log,
                version,
                sequence,
            ).0.issued[i]).ack == b.issued[i].ack,
{
    if sequence < b.issued.len() {
        lemma_count_update(
            b.issued,
            sequence as int,
            Issued { observed: Some(version), ..b.issued[sequence as int] },
        );
    }
}

/// A binding that is found to be in order keeps versions and appends naming
/// each other.
proof fn lemma_bind_consistent(b: Books, log: int, version: u64, sequence: u64)
    requires
        b.wf(),
        b.consistent(),
        0 <= log < b.order.len(),
        b.bind(log, version, sequence).1 is None,
    ensures
        b.bind(log, version, sequence).0.consistent(),
{
    let c = b.bind(log, version, sequence).0;
    let entry = b.issued[sequence as int];
    assert forall|l: int, v: u64|
        #![trigger c.order[l].contains_key(v)]
        0 <= l < c.order.len() && c.order[l].contains_key(v) implies {
        let s = c.order[l][v];
        v >= 1 && s < c.issued.len() && c.issued[s as int].log == l && c.issued[s as int].observed
            == Some(v)
    } by {
        if l == log && v == version {
            assert(c.order[l][v] == sequence);
        } else {
            assert(b.order[l].contains_key(v));
            assert(c.order[l][v] == b.order[l][v]);
            let s = b.order[l][v];
            if s == sequence {
                // The append was seen at v, so it can only be bound to v again.
                assert(entry.observed == Some(v));
                assert(entry.log == l);
            }
        }
    }
    assert forall|s: int|
        #![trigger c.issued[s]]
        0 <= s < c.issued.len() && c.issued[s].observed is Some implies {
        let v = c.issued[s].observed->0;
        c.order[c.issued[s].log as int].contains_key(v) && c.order[c.issued[s].log as int][v] == s
    } by {
        if s != sequence {
            assert(c.issued[s] == b.issued[s]);
            let v = b.issued[s].observed->0;
            let l = b.issued[s].log as int;
            assert(b.order[l].contains_key(v) && b.order[l][v] == s);
        }
    }
    assert forall|s: int|
        #![trigger c.issued[s]]
        0 <= s < c.issued.len() && c.issued[s].ack is Some implies c.issued[s].observed
        == c.issued[s].ack by {
        if s != sequence {
            assert(c.issued[s] == b.issued[s]);
        } else {
            assert(entry.ack is Some ==> entry.observed == entry.ack);
        }
    }
}

impl Ledger {
    pub closed spec fn view(&self) -> Books {
        Books {
            issued: self.issued@,
            order: Seq::new(self.canonical@.len(), |i: int| self.canonical@[i]@),
            streams: self.streams@,
            patch_size: self.patch_size as nat,
            durability: self.durability,
            acked: self.ack_count as nat,
        }
    }

    pub fn new(logs: usize, patch_size: usize, durability: Durability) -> (r: Self)
        requires
            patch_size >= 16,
        ensures
            r@ == (Books {
                issued: Seq::empty(),
                order: Seq::new(logs as nat, |i: int| Map::<u64, u64>::empty()),
                streams: Map::empty(),
                patch_size: patch_size as nat,
                durability,
                acked: 0,
            }),
            r@.wf(),
            r@.consistent(),
    {
        let mut canonical: Vec<BTreeMap<u64, u64>> = Vec::new();
        while canonical.len() < logs
            invariant
                canonical.len() <= logs,
                forall|i: int|
                    0 <= i < canonical.len() ==> (#[trigger] canonical@[i])@ == Map::<
                        u64,
                        u64,
                    >::empty(),
            decreases logs - canonical.len(),
        {
            canonical.push(BTreeMap::new());
        }
        let r = Ledger {
            issued: Vec::new(),
            canonical,
            streams: HashMap::new(),
            patch_size,
            durability,
            ack_count: 0,
        };
        assert(r@.order =~= Seq::new(logs as nat, |i: int| Map::<u64, u64>::empty()));
        assert(r@.issued =~= Seq::empty());
        r
    }

    /// The number of the next append, which is due at `intended`.
    pub fn issue(&mut self, log: usize, intended: u64) -> (r: u64)
        requires
            old(self)@.wf(),
            log < old(self)@.order.len(),
        ensures
            r == old(self)@.issued.len(),
            final(self)@ == old(self)@.issuing(log, intended),
            final(self)@.wf(),
            old(self)@.consistent() ==> final(self)@.consistent(),
    {
        let ghost before = self@;
        let sequence = self.issued.len() as u64;
        self.issued.push(Issued { log, intended, ack: None, observed: None });
        proof {
            assert(self@.order =~= before.order);
            assert(self@.issued.drop_last() =~= before.issued);
            if before.consistent() {
                assert forall|s: int|
                    #![trigger self@.issued[s]]
                    0 <= s < self@.issued.len() && self@.issued[s].observed is Some implies {
                    let v = self@.issued[s].observed->0;
                    self@.order[self@.issued[s].log as int].contains_key(v)
                        && self@.order[self@.issued[s].log as int][v] == s
                } by {
                    assert(self@.issued[s] == before.issued[s]);
                }
            }
        }
        sequence
    }

    pub fn subscribe(&mut self, id: u64, log: usize, from: u64, credit: u32) -> (r: Result<
        (),
        Violation,
    >)
        requires
            old(self)@.wf(),
            log < old(self)@.order.len(),
            from < u64::MAX,
        ensures
            final(self)@ == old(self)@.subscribing(id, log, from, credit),
            final(self)@.wf(),
            old(self)@.consistent() ==> final(self)@.consistent(),
            r == if old(self)@.streams.contains_key(id) {
                Err::<(), Violation>(Violation::DuplicateStream { id })
            } else {
                Ok::<(), Violation>(())
            },
    {
        let ghost before = self@;
        let replaced = self.streams.insert(
            id,
            Stream { log, next: from + 1, credit: credit as u64 },
        );
        assert(self@.order =~= before.order);
        if replaced.is_some() {
            return Err(Violation::DuplicateStream { id });
        }
        Ok(())
    }

    pub fn grant(&mut self, id: u64, credit: u32) -> (r: Result<(), Violation>)
        requires
            old(self)@.wf(),
            old(self)@.streams.contains_key(id) ==> old(self)@.streams[id].credit + credit
                <= u64::MAX,
        ensures
            final(self)@.wf(),
            old(self)@.consistent() ==> final(self)@.consistent(),
            !old(self)@.streams.contains_key(id) ==> r == Err::<(), Violation>(
                Violation::CreditUnknown { id },
            ) && final(self)@ == old(self)@,
            old(self)@.streams.contains_key(id) ==> r is Ok && final(self)@ == old(
                self,
            )@.granting(id, credit),
    {
        let ghost before = self@;
        let stream = match self.streams.get(&id) {
            Some(stream) => *stream,
            None => return Err(Violation::CreditUnknown { id }),
        };
        self.streams.insert(
            id,
            Stream { log: stream.log, next: stream.next, credit: stream.credit + credit as u64 },
        );
        assert(self@.order =~= before.order);
        Ok(())
    }

    fn bind(&mut self, log: usize, version: u64, sequence: u64) -> (r: Result<(), Violation>)
        requires
            old(self)@.wf(),
            log < old(self)@.order.len(),
        ensures
            final(self)@ == old(self)@.bind(log as int, version, sequence).0,
            match r {
                Ok(()) => old(self)@.bind(log as int, version, sequence).1 is None,
                Err(e) => old(self)@.bind(log as int, version, sequence).1 == Some(e),
            },
            final(self)@.wf(),
    {
        let ghost before = self@;
        proof {
            lemma_bind_wf(before, log as int, version, sequence);
        }
        if version == 0 {
            return Err(Violation::VersionZero { log });
        }
        let replaced = self.canonical[log].insert(version, sequence);
        assert(self@.order =~= before.with_order(log as int, version, sequence).order);
        match replaced {
            Some(old_sequence) => {
                if old_sequence != sequence {
                    return Err(
                        Violation::OrderMismatch { log, version, before: old_sequence, sequence },
                    );
                }
            },
            None => {},
        }
        if sequence >= self.issued.len() as u64 {
            return Err(Violation::Unissued { log, version, sequence });
        }
        let mut entry = self.issued[sequence as usize];
        if entry.log != log {
            return Err(Violation::WrongLog { sequence, owner: entry.log, log });
        }
        match entry.observed {
            Some(seen) => {
                if seen != version {
                    return Err(Violation::DuplicateAppend { sequence, before: seen, version });
                }
            },
            None => {},
        }
        entry.observed = Some(version);
        self.issued[sequence as usize] = entry;
        assert(self@.order =~= before.with_order(log as int, version, sequence).order);
        Ok(())
    }
}

impl Ledger {
    /// An acknowledgement of append `sequence` arrived.
    pub fn ack(&mut self, sequence: u64, versions: &[u64], synced: u64) -> (r: Result<
        u64,
        Violation,
    >)
        requires
            old(self)@.wf(),
        ensures
            final(self)@.wf(),
            versions@.len() != 1 ==> final(self)@ == old(self)@ && r is Err
                && r->Err_0 is NotOneVersion && r->Err_0->NotOneVersion_sequence == sequence
                && r->Err_0->NotOneVersion_versions@ == versions@,
            versions@.len() == 1 ==> (final(self)@, r) == old(self)@.acknowledge(
                sequence,
                versions@[0],
                synced,
            ),
            old(self)@.consistent() && r is Ok ==> final(self)@.consistent(),
    {
        let ghost before = self@;
        if versions.len() != 1 {
            let versions = vstd::slice::slice_to_vec(versions);
            return Err(Violation::NotOneVersion { sequence, versions });
        }
        let version = versions[0];
        if sequence >= self.issued.len() as u64 {
            return Err(Violation::AckUnissued { sequence });
        }
        let entry = self.issued[sequence as usize];
        if entry.ack.is_some() {
            return Err(Violation::DuplicateAck { sequence });
        }
        if self.durability == Durability::Durable && synced < version {
            return Err(Violation::NotSynced { sequence, synced, version });
        }
        assert(before.issued[sequence as int] == entry);
        proof {
            lemma_bind_wf(before, entry.log as int, version, sequence);
        }
        match self.bind(entry.log, version, sequence) {
            Ok(()) => {},
            Err(e) => return Err(e),
        }
        let ghost bound = self@;
        let mut entry = self.issued[sequence as usize];
        entry.ack = Some(version);
        proof {
            assert(bound.issued[sequence as int].ack is None);
            lemma_count_missing(bound.issued, sequence as int);
            lemma_count_update(bound.issued, sequence as int, entry);
        }
        self.issued[sequence as usize] = entry;
        self.ack_count = self.ack_count + 1;
        proof {
            assert(self@.order =~= bound.order);
            if before.consistent() {
                lemma_bind_consistent(before, entry.log as int, version, sequence);
                let c = self@;
                assert forall|l: int, v: u64|
                    #![trigger c.order[l].contains_key(v)]
                    0 <= l < c.order.len() && c.order[l].contains_key(v) implies {
                    let s = c.order[l][v];
                    v >= 1 && s < c.issued.len() && c.issued[s as int].log == l
                        && c.issued[s as int].observed == Some(v)
                } by {
                    assert(bound.order[l].contains_key(v));
                }
                assert forall|s: int|
                    #![trigger c.issued[s]]
                    0 <= s < c.issued.len() && c.issued[s].observed is Some implies {
                    let v = c.issued[s].observed->0;
                    c.order[c.issued[s].log as int].contains_key(v)
                        && c.order[c.issued[s].log as int][v] == s
                } by {
                    assert(bound.issued[s].observed == c.issued[s].observed);
                }
                assert forall|s: int|
                    #![trigger c.issued[s]]
                    0 <= s < c.issued.len() && c.issued[s].ack is Some implies c.issued[s].observed
                    == c.issued[s].ack by {
                    assert(bound.issued[s].observed == c.issued[s].observed);
                }
            }
        }
        Ok(entry.intended)
    }

    /// Records arrived on stream `id`: when each was due, or the first thing
    /// that is wrong.
    pub fn records(&mut self, id: u64, records: &[Record]) -> (r: Result<Vec<u64>, Violation>)
        requires
            old(self)@.wf(),
        ensures
            final(self)@.wf(),
            final(self)@ == old(self)@.deliver(id, records@).0,
            match r {
                Ok(times) => old(self)@.deliver(id, records@).1 == Ok::<Seq<u64>, Violation>(
                    times@,
                ),
                Err(e) => old(self)@.deliver(id, records@).1 == Err::<Seq<u64>, Violation>(e),
            },
            old(self)@.consistent() && r is Ok ==> final(self)@.consistent(),
    {
        let mut times: Vec<u64> = Vec::new();
        let mut i: usize = 0;
        assert(records@.take(0) =~= Seq::empty());
        let ghost start = self@;
        while i < records.len()
            invariant
                i <= records.len(),
                self@.wf(),
                self@ == start.deliver(id, records@.take(i as int)).0,
                start.deliver(id, records@.take(i as int)).1 == Ok::<Seq<u64>, Violation>(times@),
                start.consistent() ==> self@.consistent(),
                start == old(self)@,
            decreases records.len() - i,
        {
            let record = &records[i];
            proof {
                assert(records@.take(i + 1).drop_last() =~= records@.take(i as int));
                lemma_fault_ends_it(start, id, records@, i + 1);
            }
            match self.record(id, record) {
                Ok(time) => times.push(time),
                Err(e) => return Err(e),
            }
            i += 1;
        }
        assert(records@.take(i as int) =~= records@);
        Ok(times)
    }

    fn record(&mut self, id: u64, record: &Record) -> (r: Result<u64, Violation>)
        requires
            old(self)@.wf(),
        ensures
            final(self)@.wf(),
            (final(self)@, r) == old(self)@.record(id, record.version, record.patch@),
            old(self)@.consistent() && r is Ok ==> final(self)@.consistent(),
    {
        let ghost before = self@;
        let mut stream = match self.streams.get(&id) {
            Some(stream) => *stream,
            None => return Err(Violation::RecordsUnknown { id }),
        };
        let version = record.version;
        if version != stream.next {
            return Err(Violation::NonContiguous { id, expected: stream.next, version });
        }
        if stream.credit == 0 {
            return Err(Violation::NoCredit { id, version });
        }
        if version == u64::MAX {
            return Err(Violation::LastVersion { id });
        }
        let log = stream.log;
        stream.credit = stream.credit - 1;
        stream.next = stream.next + 1;
        self.streams.insert(id, stream);
        assert(self@.order =~= before.order);
        let ghost moved = self@;
        proof {
            assert(moved == Books { streams: before.streams.insert(id, stream), ..before });
            assert(moved.wf());
        }
        let text = match &record.patch {
            Json::Text(text) => text,
            _ => return Err(Violation::NotText { log, version }),
        };
        assert(record.patch@ == JsonView::Text(text@));
        let sequence = match read_payload(text.as_str(), self.patch_size) {
            Err(()) => return Err(Violation::PayloadChanged { log, version }),
            Ok(None) => return Err(Violation::NoSequence { log, version }),
            Ok(Some(sequence)) => sequence,
        };
        proof {
            lemma_bind_wf(moved, log as int, version, sequence);
            if moved.consistent() && moved.bind(log as int, version, sequence).1 is None {
                lemma_bind_consistent(moved, log as int, version, sequence);
            }
        }
        let fault = self.bind(log, version, sequence);
        let ghost (after, found) = moved.bind(log as int, version, sequence);
        assert(self@ == after);
        match fault {
            Ok(()) => {
                assert(sequence < self.issued.len());
                let intended = self.issued[sequence as usize].intended;
                Ok(intended)
            },
            Err(e) => Err(e),
        }
    }
}

/// What a shorter delivery finds wrong, a longer one does too.
proof fn lemma_fault_ends_it(b: Books, id: u64, records: Seq<Record>, n: int)
    requires
        0 <= n <= records.len(),
    ensures
        b.deliver(id, records.take(n)).1 is Err ==> b.deliver(id, records) == b.deliver(
            id,
            records.take(n),
        ),
    decreases records.len() - n,
{
    if n < records.len() {
        lemma_fault_ends_it(b, id, records, n + 1);
        assert(records.take(n + 1).drop_last() =~= records.take(n));
    } else {
        assert(records.take(n) =~= records);
    }
}

impl Ledger {
    /// A stream that has not seen its log to the end, if there is one.
    fn behind(&self) -> (r: Option<(u64, u64, u64)>)
        requires
            self@.wf(),
        ensures
            match r {
                None => self@.all_caught_up(),
                Some((id, observed, end)) => self@.streams.contains_key(id) && !self@.caught_up(id)
                    && observed == self@.streams[id].next - 1 && end == last(
                    self@.order[self@.streams[id].log as int],
                ),
            },
    {
        for entry in it: self.streams.iter()
            invariant
                self@.wf(),
                it.seq() == vstd::std_specs::iter::IteratorSpec::remaining(
                    &vstd::std_specs::hash::spec_hash_map_iter(&self.streams),
                ),
                forall|j: int|
                    #![trigger it.seq()[j]]
                    0 <= j < it.index() ==> self@.caught_up(*it.seq()[j].0),
        {
            let (id, stream) = entry;
            assert(self.streams@.contains_key(*id) && self.streams@[*id] == *stream);
            assert(self@.streams.contains_key(*id));
            let end = last_of(&self.canonical[stream.log]);
            assert(self@.order[stream.log as int] == self.canonical@[stream.log as int]@);
            if stream.next - 1 != end {
                return Some((*id, stream.next - 1, end));
            }
        }
        assert forall|id: u64| #[trigger] self@.streams.contains_key(id) implies self@.caught_up(
            id,
        ) by {
            let seq = vstd::std_specs::iter::IteratorSpec::remaining(
                &vstd::std_specs::hash::spec_hash_map_iter(&self.streams),
            );
            assert(seq.contains((&id, &self.streams@[id])));
        }
        None
    }

    /// Whether there is a stream `id`.
    pub fn follows(&self, id: u64) -> (r: bool)
        ensures
            r == self@.streams.contains_key(id),
    {
        self.streams.contains_key(&id)
    }

    /// Whether every append is acknowledged and every stream has seen its log
    /// to the end.
    pub fn complete(&self) -> (r: bool)
        requires
            self@.wf(),
        ensures
            r == (self@.acked == self@.issued.len() && self@.all_caught_up()),
    {
        if self.ack_count != self.issued.len() {
            return false;
        }
        self.behind().is_none()
    }

    /// Hold the finished run to account.
    pub fn finish(&self) -> (r: Result<(), Violation>)
        requires
            self@.wf(),
        ensures
            verdict(self@, r),
    {
        if self.ack_count != self.issued.len() {
            return Err(
                Violation::AckLoss { issued: self.issued.len(), acknowledged: self.ack_count },
            );
        }
        match self.behind() {
            Some((id, observed, end)) => {
                assert(self@.streams.contains_key(id));
                return Err(Violation::SubscriberLoss { id, observed, end });
            },
            None => {},
        }
        let mut log: usize = 0;
        while log < self.canonical.len()
            invariant
                log <= self.canonical.len(),
                self@.wf(),
                self@.acked == self@.issued.len(),
                self@.all_caught_up(),
                forall|l: int| 0 <= l < log ==> #[trigger] self@.from_one(l),
            decreases self.canonical.len() - log,
        {
            let versions = &self.canonical[log];
            assert(self@.order[log as int] == self.canonical@[log as int]@);
            if last_of(versions) != versions.len() as u64 {
                assert(!self@.from_one(log as int));
                return Err(Violation::NotFromOne { log });
            }
            log += 1;
        }
        Ok(())
    }

    /// Forget the streams, so that a replay can be checked against what is
    /// known of the order.
    pub fn replay(&mut self)
        requires
            old(self)@.wf(),
        ensures
            final(self)@ == old(self)@.forgetting(),
            final(self)@.wf(),
            old(self)@.consistent() ==> final(self)@.consistent(),
    {
        let ghost before = self@;
        self.streams.clear();
        assert(self@.order =~= before.order);
    }
}

// ---------------------------------------------------------------------
// What a finished run has shown.

proof fn lemma_no_holes(versions: Set<u64>, n: u64)
    requires
        versions.finite(),
        versions.len() == n,
        forall|v: u64| #[trigger] versions.contains(v) ==> 1 <= v <= n,
    ensures
        forall|v: u64| 1 <= v <= n ==> #[trigger] versions.contains(v),
{
    let f = |v: u64| v as int;
    let image = versions.map(f);
    let range = vstd::set_lib::set_int_range(1, n + 1);
    assert(vstd::relations::injective_on(f, versions));
    vstd::set_lib::lemma_map_size(versions, image, f);
    vstd::set_lib::lemma_int_range(1, n + 1);
    assert(image.subset_of(range));
    vstd::set_lib::lemma_subset_equality(image, range);
    assert forall|v: u64| 1 <= v <= n implies #[trigger] versions.contains(v) by {
        assert(range.contains(v as int));
        let w = choose|w: u64| versions.contains(w) && f(w) == v as int;
        assert(w == v);
    }
}

proof fn lemma_last_exists(m: Map<u64, u64>)
    requires
        m.dom().finite(),
    ensures
        is_last(m, last(m)),
    decreases m.dom().len(),
{
    if m.dom().len() == 0 {
        assert(is_last(m, 0));
    } else {
        let k = m.dom().choose();
        let rest = m.remove(k);
        assert(rest.dom() =~= m.dom().remove(k));
        lemma_last_exists(rest);
        let v = last(rest);
        if rest.dom().len() == 0 {
            assert forall|j: u64| #[trigger] m.contains_key(j) implies j <= k by {
                if j != k {
                    assert(rest.dom().contains(j));
                    assert(rest.dom() =~= Set::empty());
                }
            }
            assert(is_last(m, k));
        } else {
            let top = if v < k {
                k
            } else {
                v
            };
            assert(rest.contains_key(v));
            assert forall|j: u64| #[trigger] m.contains_key(j) implies j <= top by {
                if j != k {
                    assert(rest.contains_key(j));
                }
            }
            assert(is_last(m, top));
        }
    }
}

/// A run that finishes with nothing found wrong accounts for everything: the
/// versions of each log run from one without a hole, each carries one append
/// issued to that log, every append is carried by exactly one version, at
/// which it was acknowledged, and every stream has been through them all.
pub proof fn finished_runs_account_for_everything(b: Books)
    requires
        b.wf(),
        b.consistent(),
        b.finished(),
    ensures
        forall|log: int, v: u64|
            #![trigger b.order[log].contains_key(v)]
            0 <= log < b.order.len() ==> (b.order[log].contains_key(v) <==> 1 <= v <= last(
                b.order[log],
            )),
        forall|log: int, v: u64|
            #![trigger b.order[log][v]]
            0 <= log < b.order.len() && 1 <= v <= last(b.order[log]) ==> b.order[log][v]
                < b.issued.len() && b.issued[b.order[log][v] as int].log == log,
        forall|s: int|
            #![trigger b.issued[s]]
            0 <= s < b.issued.len() ==> b.issued[s].ack is Some && {
                let log = b.issued[s].log as int;
                let v = b.issued[s].ack->0;
                &&& 1 <= v <= last(b.order[log])
                &&& b.order[log][v] == s
                &&& forall|w: u64|
                    #![trigger b.order[log].contains_key(w)]
                    b.order[log].contains_key(w) && b.order[log][w] == s ==> w == v
            },
        forall|id: u64| #[trigger]
            b.streams.contains_key(id) ==> b.streams[id].next == last(
                b.order[b.streams[id].log as int],
            ) + 1,
{
    assert forall|log: int, v: u64|
        #![trigger b.order[log].contains_key(v)]
        0 <= log < b.order.len() implies (b.order[log].contains_key(v) <==> 1 <= v <= last(
        b.order[log],
    )) by {
        let m = b.order[log];
        lemma_last_exists(m);
        assert(b.from_one(log));
        assert forall|w: u64| #[trigger] m.dom().contains(w) implies 1 <= w <= last(m) by {
            assert(m.contains_key(w));
            assert(b.order[log].contains_key(w));
        }
        lemma_no_holes(m.dom(), last(m));
        assert(m.contains_key(v) == m.dom().contains(v));
    }
    assert forall|log: int, v: u64|
        #![trigger b.order[log][v]]
        0 <= log < b.order.len() && 1 <= v <= last(b.order[log]) implies b.order[log][v]
        < b.issued.len() && b.issued[b.order[log][v] as int].log == log by {
        assert(b.order[log].contains_key(v));
    }
    assert forall|s: int|
        #![trigger b.issued[s]]
        0 <= s < b.issued.len() implies b.issued[s].ack is Some && {
        let log = b.issued[s].log as int;
        let v = b.issued[s].ack->0;
        &&& 1 <= v <= last(b.order[log])
        &&& b.order[log][v] == s
        &&& forall|w: u64|
            #![trigger b.order[log].contains_key(w)]
            b.order[log].contains_key(w) && b.order[log][w] == s ==> w == v
    } by {
        if b.issued[s].ack is None {
            lemma_count_missing(b.issued, s);
        }
        let log = b.issued[s].log as int;
        let v = b.issued[s].ack->0;
        assert(b.issued[s].observed == Some(v));
        assert(b.order[log].contains_key(v));
    }
    assert forall|id: u64| #[trigger] b.streams.contains_key(id) implies b.streams[id].next == last(
        b.order[b.streams[id].log as int],
    ) + 1 by {
        assert(b.caught_up(id));
    }
}

/// No stream is ever pushed more than it was granted: each record that is
/// accepted uses up one unit of its stream's credit, and none is accepted
/// without.
pub proof fn credit_is_never_overrun(b: Books, id: u64, records: Seq<Record>)
    requires
        b.wf(),
        b.deliver(id, records).1 is Ok,
        records.len() > 0,
    ensures
        b.streams.contains_key(id),
        b.deliver(id, records).0.streams.contains_key(id),
        b.deliver(id, records).0.streams[id].credit == b.streams[id].credit - records.len(),
        b.deliver(id, records).0.streams[id].next == b.streams[id].next + records.len(),
    decreases records.len(),
{
    let before = b.deliver(id, records.drop_last()).0;
    let last = records.last();
    assert(records[records.len() - 1] == last);
    if records.len() > 1 {
        credit_is_never_overrun(b, id, records.drop_last());
    }
    assert(before.record(id, last.version, last.patch@).1 is Ok);
}

// ---------------------------------------------------------------------
// Violations in words.

impl Violation {
    pub open spec fn text(self) -> Seq<char> {
        match self {
            Violation::DuplicateStream { id } => "duplicate harness stream id "@
                + decimal(id as nat),
            Violation::CreditUnknown { id } => "credit for unknown stream "@ + decimal(id as nat),
            Violation::RecordsUnknown { id } => "records on unknown stream "@ + decimal(id as nat),
            Violation::VersionZero { log } => "log "@ + decimal(log as nat)
                + ": observed version zero"@,
            Violation::OrderMismatch { log, version, before, sequence } => "ORDER MISMATCH: log "@
                + decimal(log as nat) + " version "@ + decimal(version as nat) + ": payload "@
                + decimal(before as nat) + " vs "@ + decimal(sequence as nat),
            Violation::Unissued { log, version, sequence } => "log "@ + decimal(log as nat)
                + " version "@ + decimal(version as nat) + ": unissued payload "@
                + decimal(sequence as nat),
            Violation::WrongLog { sequence, owner, log } => "payload "@ + decimal(sequence as nat)
                + " belongs to log "@ + decimal(owner as nat) + ", received on log "@
                + decimal(log as nat),
            Violation::DuplicateAppend { sequence, before, version } => "DUPLICATE APPEND: payload "@
                + decimal(sequence as nat) + " mapped to versions "@ + decimal(before as nat)
                + " and "@ + decimal(version as nat),
            Violation::NotOneVersion { sequence, versions } => "append "@
                + decimal(sequence as nat) + ": one Noop patch must mint one version, got ["@
                + commas(version_texts(versions@)) + "]"@,
            Violation::AckUnissued { sequence } => "ack of unissued append "@
                + decimal(sequence as nat),
            Violation::DuplicateAck { sequence } => "DUPLICATE ACK: append "@
                + decimal(sequence as nat),
            Violation::NotSynced { sequence, synced, version } => "durable append "@
                + decimal(sequence as nat) + ": synced "@ + decimal(synced as nat)
                + " below acknowledged version "@ + decimal(version as nat),
            Violation::NonContiguous { id, expected, version } => "NONCONTIGUOUS STREAM "@
                + decimal(id as nat) + ": expected version "@ + decimal(expected as nat)
                + ", got "@ + decimal(version as nat) + " (gap, duplicate or reorder)"@,
            Violation::NoCredit { id, version } => "CREDIT VIOLATION: stream "@
                + decimal(id as nat) + " pushed version "@ + decimal(version as nat)
                + " without credit"@,
            Violation::LastVersion { id } => "stream "@ + decimal(id as nat)
                + " was sent the last version there is"@,
            Violation::NotText { log, version } => "log "@ + decimal(log as nat) + " version "@
                + decimal(version as nat) + ": payload is not a string"@,
            Violation::PayloadChanged { log, version } => "log "@ + decimal(log as nat)
                + " version "@ + decimal(version as nat) + ": payload bytes changed"@,
            Violation::NoSequence { log, version } => "log "@ + decimal(log as nat) + " version "@
                + decimal(version as nat) + ": invalid payload sequence"@,
            Violation::AckLoss { issued, acknowledged } => "ACK LOSS: issued "@
                + decimal(issued as nat) + ", acknowledged "@ + decimal(acknowledged as nat),
            Violation::SubscriberLoss { id, observed, end } => "SUBSCRIBER LOSS: stream "@
                + decimal(id as nat) + " observed "@ + decimal(observed as nat)
                + ", acknowledged through "@ + decimal(end as nat),
            Violation::NotFromOne { log } => "log "@ + decimal(log as nat)
                + ": acknowledged versions are not contiguous from 1"@,
        }
    }

    pub fn message(&self) -> (r: String)
        ensures
            r@ == self.text(),
    {
        match self {
            Violation::DuplicateStream { id } => {
                let mut m = String::from_str("duplicate harness stream id ");
                m.append(decimal_text(*id as u64).as_str());
                m
            },
            Violation::CreditUnknown { id } => {
                let mut m = String::from_str("credit for unknown stream ");
                m.append(decimal_text(*id as u64).as_str());
                m
            },
            Violation::RecordsUnknown { id } => {
                let mut m = String::from_str("records on unknown stream ");
                m.append(decimal_text(*id as u64).as_str());
                m
            },
            Violation::VersionZero { log } => {
                let mut m = String::from_str("log ");
                m.append(decimal_text(*log as u64).as_str());
                m.append(": observed version zero");
                m
            },
            Violation::OrderMismatch { log, version, before, sequence } => {
                let mut m = String::from_str("ORDER MISMATCH: log ");
                m.append(decimal_text(*log as u64).as_str());
                m.append(" version ");
                m.append(decimal_text(*version as u64).as_str());
                m.append(": payload ");
                m.append(decimal_text(*before as u64).as_str());
                m.append(" vs ");
                m.append(decimal_text(*sequence as u64).as_str());
                m
            },
            Violation::Unissued { log, version, sequence } => {
                let mut m = String::from_str("log ");
                m.append(decimal_text(*log as u64).as_str());
                m.append(" version ");
                m.append(decimal_text(*version as u64).as_str());
                m.append(": unissued payload ");
                m.append(decimal_text(*sequence as u64).as_str());
                m
            },
            Violation::WrongLog { sequence, owner, log } => {
                let mut m = String::from_str("payload ");
                m.append(decimal_text(*sequence as u64).as_str());
                m.append(" belongs to log ");
                m.append(decimal_text(*owner as u64).as_str());
                m.append(", received on log ");
                m.append(decimal_text(*log as u64).as_str());
                m
            },
            Violation::DuplicateAppend { sequence, before, version } => {
                let mut m = String::from_str("DUPLICATE APPEND: payload ");
                m.append(decimal_text(*sequence as u64).as_str());
                m.append(" mapped to versions ");
                m.append(decimal_text(*before as u64).as_str());
                m.append(" and ");
                m.append(decimal_text(*version as u64).as_str());
                m
            },
            Violation::NotOneVersion { sequence, versions } => {
                let mut m = String::from_str("append ");
                m.append(decimal_text(*sequence as u64).as_str());
                m.append(": one Noop patch must mint one version, got [");
                m.append(version_words(versions).as_str());
                m.append("]");
                m
            },
            Violation::AckUnissued { sequence } => {
                let mut m = String::from_str("ack of unissued append ");
                m.append(decimal_text(*sequence as u64).as_str());
                m
            },
            Violation::DuplicateAck { sequence } => {
                let mut m = String::from_str("DUPLICATE ACK: append ");
                m.append(decimal_text(*sequence as u64).as_str());
                m
            },
            Violation::NotSynced { sequence, synced, version } => {
                let mut m = String::from_str("durable append ");
                m.append(decimal_text(*sequence as u64).as_str());
                m.append(": synced ");
                m.append(decimal_text(*synced as u64).as_str());
                m.append(" below acknowledged version ");
                m.append(decimal_text(*version as u64).as_str());
                m
            },
            Violation::NonContiguous { id, expected, version } => {
                let mut m = String::from_str("NONCONTIGUOUS STREAM ");
                m.append(decimal_text(*id as u64).as_str());
                m.append(": expected version ");
                m.append(decimal_text(*expected as u64).as_str());
                m.append(", got ");
                m.append(decimal_text(*version as u64).as_str());
                m.append(" (gap, duplicate or reorder)");
                m
            },
            Violation::NoCredit { id, version } => {
                let mut m = String::from_str("CREDIT VIOLATION: stream ");
                m.append(decimal_text(*id as u64).as_str());
                m.append(" pushed version ");
                m.append(decimal_text(*version as u64).as_str());
                m.append(" without credit");
                m
            },
            Violation::LastVersion { id } => {
                let mut m = String::from_str("stream ");
                m.append(decimal_text(*id as u64).as_str());
                m.append(" was sent the last version there is");
                m
            },
            Violation::NotText { log, version } => {
                let mut m = String::from_str("log ");
                m.append(decimal_text(*log as u64).as_str());
                m.append(" version ");
                m.append(decimal_text(*version as u64).as_str());
                m.append(": payload is not a string");
                m
            },
            Violation::PayloadChanged { log, version } => {
                let mut m = String::from_str("log ");
                m.append(decimal_text(*log as u64).as_str());
                m.append(" version ");
                m.append(decimal_text(*version as u64).as_str());
                m.append(": payload bytes changed");
                m
            },
            Violation::NoSequence { log, version } => {
                let mut m = String::from_str("log ");
                m.append(decimal_text(*log as u64).as_str());
                m.append(" version ");
                m.append(decimal_text(*version as u64).as_str());
                m.append(": invalid payload sequence");
                m
            },
            Violation::AckLoss { issued, acknowledged } => {
                let mut m = String::from_str("ACK LOSS: issued ");
                m.append(decimal_text(*issued as u64).as_str());
                m.append(", acknowledged ");
                m.append(decimal_text(*acknowledged as u64).as_str());
                m
            },
            Violation::SubscriberLoss { id, observed, end } => {
                let mut m = String::from_str("SUBSCRIBER LOSS: stream ");
                m.append(decimal_text(*id as u64).as_str());
                m.append(" observed ");
                m.append(decimal_text(*observed as u64).as_str());
                m.append(", acknowledged through ");
                m.append(decimal_text(*end as u64).as_str());
                m
            },
            Violation::NotFromOne { log } => {
                let mut m = String::from_str("log ");
                m.append(decimal_text(*log as u64).as_str());
                m.append(": acknowledged versions are not contiguous from 1");
                m
            },
        }
    }
}

/// A violation ends the run.
pub fn violation(v: Violation) -> (r: Error)
    ensures
        r.message@ == v.text(),
{
    error(v.message())
}

// ---------------------------------------------------------------------
// What a ledger is held to.

/// Version `version` of `log` can carry append `sequence`: it is no other's, and
/// the append was issued to that log and seen at no other version.
pub open spec fn can_carry(b: Books, log: int, version: u64, sequence: u64) -> bool {
    &&& version >= 1
    &&& b.order[log].contains_key(version) ==> b.order[log][version] == sequence
    &&& sequence < b.issued.len()
    &&& b.issued[sequence as int].log == log
    &&& b.issued[sequence as int].observed is Some ==> b.issued[sequence as int].observed->0
        == version
}

/// Apart from what version `version` of `log` carries, and when append `sequence`
/// was seen and acknowledged, the books are the same.
pub open spec fn same_but_for(
    b: Books,
    after: Books,
    log: int,
    version: u64,
    sequence: u64,
) -> bool {
    &&& after.issued.len() == b.issued.len()
    &&& forall|s: int|
        0 <= s < b.issued.len() && s != sequence ==> #[trigger] after.issued[s] == b.issued[s]
    &&& after.issued[sequence as int].log == b.issued[sequence as int].log
    &&& after.issued[sequence as int].intended == b.issued[sequence as int].intended
    &&& after.order.len() == b.order.len()
    &&& forall|l: int|
        0 <= l < b.order.len() && l != log ==> #[trigger] after.order[l] == b.order[l]
    &&& forall|v: u64|
        v != version ==> (#[trigger] after.order[log].contains_key(v)
            <==> b.order[log].contains_key(v)) && after.order[log][v] == b.order[log][v]
    &&& after.patch_size == b.patch_size
    &&& after.durability == b.durability
}

/// An acknowledgement is accepted exactly for an append that was issued and not
/// acknowledged before, at a version of its log that can carry it, and which is
/// synced where appends are to be durable. Then the append stands as acknowledged
/// and seen at that version and the version as carrying it, one more is
/// acknowledged, and nothing else changes; the result is when the append was due.
pub proof fn acknowledgements_are_held_to_account(
    b: Books,
    sequence: u64,
    version: u64,
    synced: u64,
)
    requires
        b.wf(),
    ensures
        ({
            let (after, r) = b.acknowledge(sequence, version, synced);
            let entry = b.issued[sequence as int];
            let log = entry.log as int;
            &&& r is Ok <==> sequence < b.issued.len() && entry.ack is None && (b.durability
                == Durability::Durable ==> version <= synced) && can_carry(
                b,
                log,
                version,
                sequence,
            )
            &&& r matches Ok(due) ==> {
                &&& due == entry.intended
                &&& after.issued[sequence as int].ack == Some(version)
                &&& after.issued[sequence as int].observed == Some(version)
                &&& after.order[log].contains_key(version) && after.order[log][version] == sequence
                &&& same_but_for(b, after, log, version, sequence)
                &&& after.streams == b.streams
                &&& after.acked == b.acked + 1
            }
            &&& sequence >= b.issued.len() ==> r == Err::<u64, Violation>(
                Violation::AckUnissued { sequence },
            ) && after == b
            &&& sequence < b.issued.len() && entry.ack is Some ==> r == Err::<u64, Violation>(
                Violation::DuplicateAck { sequence },
            ) && after == b
            &&& sequence < b.issued.len() && entry.ack is None && b.durability
                == Durability::Durable && synced < version ==> r == Err::<u64, Violation>(
                Violation::NotSynced { sequence, synced, version },
            ) && after == b
        }),
{
}

/// A record is accepted exactly on a stream that is open and has credit left,
/// where it is the next version of the log, and carries an append that this
/// version can carry, as it was sent. Then the stream has moved on by one version
/// and has one unit of credit less, the version stands as carrying that append,
/// and nothing else changes; the result is when the append was due.
pub proof fn records_are_held_to_account(b: Books, id: u64, version: u64, patch: JsonView)
    requires
        b.wf(),
    ensures
        ({
            let (after, r) = b.record(id, version, patch);
            let stream = b.streams[id];
            let log = stream.log as int;
            &&& r is Ok <==> b.streams.contains_key(id) && version == stream.next && stream.credit
                > 0 && version < u64::MAX && patch is Text && reading(
                patch->Text_0,
                b.patch_size,
            ) is Sequence && can_carry(
                b,
                log,
                version,
                reading(patch->Text_0, b.patch_size)->Sequence_0,
            )
            &&& r matches Ok(due) ==> {
                let sequence = reading(patch->Text_0, b.patch_size)->Sequence_0;
                &&& due == b.issued[sequence as int].intended
                &&& after.issued[sequence as int].observed == Some(version)
                &&& after.issued[sequence as int].ack == b.issued[sequence as int].ack
                &&& after.order[log].contains_key(version) && after.order[log][version] == sequence
                &&& same_but_for(b, after, log, version, sequence)
                &&& after.acked == b.acked
                &&& after.streams[id].log == stream.log
                &&& after.streams[id].next == stream.next + 1
                &&& after.streams[id].credit == stream.credit - 1
                &&& forall|other: u64|
                    other != id ==> (#[trigger] after.streams.contains_key(other)
                        <==> b.streams.contains_key(other)) && after.streams[other]
                        == b.streams[other]
            }
            &&& !b.streams.contains_key(id) ==> r == Err::<u64, Violation>(
                Violation::RecordsUnknown { id },
            ) && after == b
            &&& b.streams.contains_key(id) && version != stream.next ==> r == Err::<u64, Violation>(
                Violation::NonContiguous { id, expected: stream.next, version },
            ) && after == b
            &&& b.streams.contains_key(id) && version == stream.next && stream.credit == 0 ==> r
                == Err::<u64, Violation>(Violation::NoCredit { id, version }) && after == b
        }),
{
}

/// A payload is read only where it is what was sent: of the right size, and
/// nothing but `x` after its number. What was sent is read as the append that it
/// was sent for, so what two appends send is never the same.
pub proof fn payloads_are_read_only_as_sent(
    text: Seq<char>,
    size: nat,
    sequence: u64,
    other: u64,
)
    requires
        size >= 16,
    ensures
        !(reading(text, size) is Changed) ==> text.len() == size && forall|i: int|
            16 <= i < size ==> #[trigger] text[i] == 'x',
        reading(payload(sequence, size), size) == Reading::Sequence(sequence),
        payload(sequence, size) == payload(other, size) ==> sequence == other,
        payload(sequence, size).len() == size,
        forall|i: int| 16 <= i < size ==> #[trigger] payload(sequence, size)[i] == 'x',
{
    payloads_read_back(sequence, size);
    payloads_read_back(other, size);
    assert(sequence < sixteens(16)) by {
        reveal_with_fuel(sixteens, 17);
    }
    lemma_hex_digits(sequence as nat, 16);
}

/// Records are taken one after another: two batches on a stream come to the same
/// as one of both, and a batch of one to what that record comes to. What is wrong
/// with the first batch is what is wrong with both.
pub proof fn deliveries_add_up(b: Books, id: u64, first: Seq<Record>, second: Seq<Record>)
    ensures
        b.deliver(id, Seq::empty()) == (b, Ok::<Seq<u64>, Violation>(Seq::empty())),
        first.len() == 1 ==> b.deliver(id, first).0 == b.record(
            id,
            first[0].version,
            first[0].patch@,
        ).0 && (b.deliver(id, first).1 is Ok <==> b.record(
            id,
            first[0].version,
            first[0].patch@,
        ).1 is Ok),
        b.deliver(id, first).1 is Err ==> b.deliver(id, first + second) == b.deliver(id, first),
        b.deliver(id, first).1 is Ok ==> b.deliver(id, first + second).0 == b.deliver(
            id,
            first,
        ).0.deliver(id, second).0,
        b.deliver(id, first).1 is Ok && b.deliver(id, first).0.deliver(id, second).1 is Ok
            ==> b.deliver(id, first + second).1 == Ok::<Seq<u64>, Violation>(
            b.deliver(id, first).1->Ok_0 + b.deliver(id, first).0.deliver(id, second).1->Ok_0,
        ),
        b.deliver(id, first).1 is Ok && b.deliver(id, first).0.deliver(id, second).1 is Err
            ==> b.deliver(id, first + second).1 == b.deliver(id, first).0.deliver(id, second).1,
    decreases second.len(),
{
    if first.len() == 1 {
        reveal_with_fuel(Books::deliver, 2);
        assert(first.drop_last() =~= Seq::empty());
        assert(first.last() == first[0]);
    }
    let all = first + second;
    if second.len() == 0 {
        assert(all =~= first);
        if b.deliver(id, first).1 is Ok {
            let times = b.deliver(id, first).1->Ok_0;
            assert(times + Seq::empty() =~= times);
        }
    } else {
        let less = second.drop_last();
        deliveries_add_up(b, id, first, less);
        assert(all.drop_last() =~= first + less);
        assert(all.last() == second.last());
        if b.deliver(id, first).1 is Ok && b.deliver(id, first).0.deliver(id, second).1 is Ok {
            let times = b.deliver(id, first).1->Ok_0;
            let more = b.deliver(id, first).0.deliver(id, less).1->Ok_0;
            let time = b.deliver(id, first).0.deliver(id, second).1->Ok_0.last();
            assert((times + more).push(time) =~= times + more.push(time));
        }
    }
}

/// What the harness itself enters stands as entered: an append as issued and
/// neither acknowledged nor seen; a stream as about to see the version after the
/// one it starts from, with its credit; a grant as so much more credit for that
/// stream. A replay forgets the streams, and nothing of what was seen.
pub proof fn entries_stand_as_entered(
    b: Books,
    log: usize,
    intended: u64,
    id: u64,
    from: u64,
    credit: u32,
    other: u64,
)
    requires
        from < u64::MAX,
        b.streams.contains_key(id) ==> b.streams[id].credit + credit <= u64::MAX,
        other != id,
    ensures
        ({
            let after = b.issuing(log, intended);
            &&& after.issued.len() == b.issued.len() + 1
            &&& after.issued.last().log == log && after.issued.last().intended == intended
            &&& after.issued.last().ack is None && after.issued.last().observed is None
            &&& forall|s: int| 0 <= s < b.issued.len() ==> #[trigger] after.issued[s] == b.issued[s]
            &&& after.order == b.order && after.streams == b.streams && after.acked == b.acked
        }),
        ({
            let after = b.subscribing(id, log, from, credit);
            &&& after.streams.contains_key(id)
            &&& after.streams[id].log == log && after.streams[id].next == from + 1
                && after.streams[id].credit == credit
            &&& after.streams.contains_key(other) <==> b.streams.contains_key(other)
            &&& after.streams[other] == b.streams[other]
            &&& after.order == b.order && after.issued == b.issued && after.acked == b.acked
        }),
        b.streams.contains_key(id) ==> {
            let after = b.granting(id, credit);
            &&& after.streams[id].credit == b.streams[id].credit + credit
            &&& after.streams[id].next == b.streams[id].next && after.streams[id].log
                == b.streams[id].log
            &&& after.streams.contains_key(other) <==> b.streams.contains_key(other)
            &&& after.streams[other] == b.streams[other]
            &&& after.order == b.order && after.issued == b.issued && after.acked == b.acked
        },
        ({
            let after = b.forgetting();
            &&& !after.streams.contains_key(id)
            &&& after.order == b.order && after.issued == b.issued && after.acked == b.acked
        }),
{
}

/// A stream is caught up where it has seen every version that anyone saw of its
/// log, the last of them too.
pub proof fn caught_up_streams_saw_everything(b: Books, id: u64, version: u64)
    requires
        b.wf(),
        b.streams.contains_key(id),
    ensures
        b.caught_up(id) && b.order[b.streams[id].log as int].contains_key(version) ==> version
            < b.streams[id].next,
        b.caught_up(id) && b.streams[id].next > 1
            ==> b.order[b.streams[id].log as int].contains_key((b.streams[id].next - 1) as u64),
        !b.caught_up(id) && b.streams[id].next == 1
            ==> b.order[b.streams[id].log as int].dom().len() > 0,
        (b.order[b.streams[id].log as int].contains_key((b.streams[id].next - 1) as u64) && forall|
            v: u64,
        | #[trigger]
            b.order[b.streams[id].log as int].contains_key(v) ==> v < b.streams[id].next)
            ==> b.caught_up(id),
{
    let m = b.order[b.streams[id].log as int];
    lemma_last_exists(m);
    if m.contains_key(version) {
        assert(m.dom().contains(version));
        assert(m.dom().len() > 0) by {
            if m.dom().len() == 0 {
                assert(m.dom() =~= Set::empty());
            }
        }
    }
    let before = (b.streams[id].next - 1) as u64;
    if m.contains_key(before) && forall|v: u64| #[trigger] m.contains_key(v) ==> v
        < b.streams[id].next {
        assert(m.dom().contains(before));
        assert(m.dom().len() > 0) by {
            if m.dom().len() == 0 {
                assert(m.dom() =~= Set::empty());
            }
        }
        lemma_last(m, before);
    }
}

/// A run passes exactly where every append was acknowledged, every stream saw its
/// log to the end, and no log has a hole in it; otherwise the verdict names
/// something that is missing.
pub proof fn verdicts_name_what_is_missing(b: Books, r: Result<(), Violation>)
    requires
        b.wf(),
        b.issued.len() <= usize::MAX,
        b.order.len() <= usize::MAX,
        verdict(b, r),
    ensures
        r is Ok <==> b.finished(),
        r is Ok ==> forall|s: int| 0 <= s < b.issued.len() ==> (#[trigger] b.issued[s]).ack is Some,
        r matches Err(Violation::AckLoss { issued, acknowledged }) ==> acknowledged < issued
            && issued == b.issued.len() && acknowledged == b.acked && exists|s: int|
            0 <= s < b.issued.len() && (#[trigger] b.issued[s]).ack is None,
        r matches Err(Violation::SubscriberLoss { id, observed, end }) ==> b.streams.contains_key(
            id,
        ) && observed == b.streams[id].next - 1 && observed != end,
        r is Err ==> r->Err_0 is AckLoss || r->Err_0 is SubscriberLoss || r->Err_0 is NotFromOne,
{
    lemma_count_bounded(b.issued);
    if b.acked == b.issued.len() {
        assert forall|s: int| 0 <= s < b.issued.len() implies (#[trigger] b.issued[s]).ack
            is Some by {
            if b.issued[s].ack is None {
                lemma_count_missing(b.issued, s);
            }
        }
    } else {
        lemma_some_unacked(b.issued);
    }
}

proof fn lemma_some_unacked(issued: Seq<Issued>)
    ensures
        count_acked(issued) < issued.len() ==> exists|s: int|
            0 <= s < issued.len() && (#[trigger] issued[s]).ack is None,
    decreases issued.len(),
{
    if issued.len() > 0 {
        let less = issued.drop_last();
        lemma_some_unacked(less);
        if count_acked(issued) < issued.len() {
            if issued.last().ack is None {
                assert(issued[issued.len() - 1].ack is None);
            } else {
                let s = choose|s: int| 0 <= s < less.len() && (#[trigger] less[s]).ack is None;
                assert(issued[s] == less[s]);
            }
        }
    }
}

} // verus!

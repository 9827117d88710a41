//! The server under load: its settings, and what is read off its process.

use super::error::{error, join, pair, Error};
use crate::client::error::{span, span_text};
use crate::text::{
    char_of_digit, decimal, decimal_text, digit_char, number_in, read_unsigned,
};
use crate::words::{after, before, starts_with, strip_prefix, text_after, text_before, word};
use vstd::prelude::*;

verus! {

/// How many files may be open.
#[derive(Clone, Copy, Debug, PartialEq, Eq, Structural)]
pub struct Limits {
    pub before: u64,
    pub soft: u64,
    pub hard: u64,
}

impl Limits {
    pub fn message(&self) -> (r: String)
        ensures
            r@ == "RLIMIT_NOFILE soft "@ + decimal(self.before as nat) + " -> "@ + decimal(
                self.soft as nat,
            ) + ", hard "@ + decimal(self.hard as nat) + " (child inherits it)"@,
    {
        let mut out = String::from_str("RLIMIT_NOFILE soft ");
        out.append(decimal_text(self.before).as_str());
        out.append(" -> ");
        out.append(decimal_text(self.soft).as_str());
        out.append(", hard ");
        out.append(decimal_text(self.hard).as_str());
        out.append(" (child inherits it)");
        out
    }
}

// ---------------------------------------------------------------------
// Settings.

/// A `toml::map::Map`, the table that settings are written from. Here it holds
/// text and integers.
#[verifier::external_body]
pub struct Table {
    inner: toml::map::Map<String, toml::Value>,
}

pub enum Setting {
    Text(Seq<char>),
    Integer(i64),
}

pub open spec fn no_settings() -> Map<Seq<char>, Setting> {
    Map::empty()
}

/// What a table holds.
pub uninterp spec fn entries(table: Table) -> Map<Seq<char>, Setting>;

/// The TOML document of a table, or why it cannot be written.
pub uninterp spec fn rendered(settings: Map<Seq<char>, Setting>) -> Result<Seq<char>, Seq<char>>;

impl Table {
    /// `toml::map::Map::new`: an empty table.
    #[verifier::external_body]
    fn new() -> (r: Table)
        ensures
            entries(r) == no_settings(),
    {
        Table { inner: toml::map::Map::new() }
    }

    /// `toml::map::Map::insert` of a text, in place of whatever had that key.
    #[verifier::external_body]
    fn put_text(&mut self, key: &str, value: &str)
        ensures
            entries(*final(self)) == entries(*old(self)).insert(key@, Setting::Text(value@)),
    {
        self.inner.insert(key.to_owned(), toml::Value::String(value.to_owned()));
    }

    /// `toml::map::Map::insert` of an integer, in place of whatever had that
    /// key.
    #[verifier::external_body]
    fn put_integer(&mut self, key: &str, value: i64)
        ensures
            entries(*final(self)) == entries(*old(self)).insert(key@, Setting::Integer(value)),
    {
        self.inner.insert(key.to_owned(), toml::Value::Integer(value));
    }

    /// `toml::to_string`: the document, which is up to what the table holds,
    /// in the order of its keys, or the message of the error.
    #[verifier::external_body]
    fn render(&self) -> (r: Result<String, String>)
        ensures
            match r {
                Ok(text) => rendered(entries(*self)) == Ok::<Seq<char>, Seq<char>>(text@),
                Err(why) => rendered(entries(*self)) == Err::<Seq<char>, Seq<char>>(why@),
            },
    {
        toml::to_string(&self.inner).map_err(|e| e.to_string())
    }
}

/// The settings of a server that keeps its data in `data` and its socket in
/// `run`. Where it also listens on HTTP, the address and the file with the
/// bearer token are given.
pub open spec fn settings_of(
    data: Seq<char>,
    run: Seq<char>,
    http: Option<(Seq<char>, Seq<char>)>,
) -> Map<Seq<char>, Setting> {
    let plain = no_settings().insert("data"@, Setting::Text(data)).insert(
        "run"@,
        Setting::Text(run),
    ).insert("socket"@, Setting::Text("lug.sock"@)).insert(
        "ring"@,
        Setting::Integer(4096),
    ).insert("checkpoint_every"@, Setting::Integer(i64::MAX));
    match http {
        Some((address, token)) => plain.insert("http"@, Setting::Text(address)).insert(
            "token"@,
            Setting::Text(token),
        ),
        None => plain,
    }
}

/// The settings file. Replays need records retained rather than replaced by a
/// checkpoint, so there is none.
pub fn settings(data: &str, run: &str, http: Option<(&str, &str)>) -> (r: Result<String, Error>)
    ensures
        ({
            let document = rendered(
                settings_of(
                    data@,
                    run@,
                    match http {
                        Some((address, token)) => Some((address@, token@)),
                        None => None,
                    },
                ),
            );
            match r {
                Ok(text) => document == Ok::<Seq<char>, Seq<char>>(text@),
                Err(e) => document == Err::<Seq<char>, Seq<char>>(e.message@),
            }
        }),
{
    let mut map = Table::new();
    map.put_text("data", data);
    map.put_text("run", run);
    map.put_text("socket", "lug.sock");
    map.put_integer("ring", 4096);
    map.put_integer("checkpoint_every", i64::MAX);
    match http {
        Some((address, token)) => {
            map.put_text("http", address);
            map.put_text("token", token);
        },
        None => {},
    }
    match map.render() {
        Ok(text) => Ok(text),
        Err(why) => Err(error(why)),
    }
}

/// Two hexadecimal digits for every byte.
pub open spec fn hex(bytes: Seq<u8>) -> Seq<char> {
    Seq::new(
        2 * bytes.len(),
        |i: int|
            if i % 2 == 0 {
                digit_char((bytes[i / 2] / 16) as nat)
            } else {
                digit_char((bytes[i / 2] % 16) as nat)
            },
    )
}

pub fn hex_text(bytes: &[u8]) -> (r: String)
    ensures
        r@ == hex(bytes@),
{
    let mut out = String::new();
    let mut i: usize = 0;
    while i < bytes.len()
        invariant
            i <= bytes@.len(),
            out@ == hex(bytes@).take(2 * i),
        decreases bytes@.len() - i,
    {
        out.push(char_of_digit(bytes[i] as u64 / 16));
        out.push(char_of_digit(bytes[i] as u64 % 16));
        i += 1;
        assert(out@ =~= hex(bytes@).take(2 * i));
    }
    assert(hex(bytes@).take(2 * i) =~= hex(bytes@));
    out
}

/// The name of the directory that a run of process `pid` keeps everything in,
/// with bytes that no other run has.
pub fn directory_name(pid: u32, nonce: &[u8]) -> (r: String)
    ensures
        r@ == "lug-load-"@ + decimal(pid as nat) + "-"@ + hex(nonce@),
{
    let mut out = String::from_str("lug-load-");
    out.append(decimal_text(pid as u64).as_str());
    out.append("-");
    out.append(hex_text(nonce).as_str());
    out
}

// ---------------------------------------------------------------------
// Starting and stopping.

pub open spec fn is_ready(
    exited: Option<&str>,
    socket: bool,
    http: Option<bool>,
    r: Result<bool, Error>,
) -> bool {
    match exited {
        Some(status) => r is Err && r->Err_0.message@ == "server exited during startup with "@
            + status@,
        None => r == Ok::<bool, Error>(socket && http != Some(false)),
    }
}

/// Whether a server that was just started can be used: it runs, its socket
/// answers, and so does its HTTP listener where it has one.
pub fn ready(exited: Option<&str>, socket: bool, http: Option<bool>) -> (r: Result<bool, Error>)
    ensures
        is_ready(exited, socket, http, r),
{
    match exited {
        Some(status) => Err(error(pair("server exited during startup with ", status))),
        None => Ok(
            socket && match http {
                Some(up) => up,
                None => true,
            },
        ),
    }
}

/// It took too long, in nanoseconds.
pub fn not_ready(socket: &str, timeout: u64) -> (r: Error)
    ensures
        r.message@ == "server socket "@ + socket@ + " did not become ready within "@ + span(
            timeout,
        ),
{
    let mut message = join("server socket ", socket, " did not become ready within ");
    message.append(span_text(timeout).as_str());
    error(message)
}

/// The signal that cannot be caught.
pub const SIGKILL: i32 = 9;

pub open spec fn was_killed(
    signal: Option<i32>,
    status: Seq<char>,
    r: Result<(), Error>,
) -> bool {
    &&& signal == Some(SIGKILL) ==> r is Ok
    &&& signal != Some(SIGKILL) ==> r is Err && r->Err_0.message@ == "crash expected SIGKILL, got "@
        + status
}

/// Whether a server that was killed died of it.
pub fn killed(signal: Option<i32>, status: &str) -> (r: Result<(), Error>)
    ensures
        was_killed(signal, status@, r),
{
    match signal {
        Some(n) => {
            if n == SIGKILL {
                return Ok(());
            }
        },
        None => {},
    }
    Err(error(pair("crash expected SIGKILL, got ", status)))
}

// ---------------------------------------------------------------------
// Memory and descriptors.

/// What follows `prefix` on the first line that begins with it.
pub open spec fn entry(text: Seq<char>, prefix: Seq<char>) -> Option<Seq<char>>
    decreases text.len(),
{
    if starts_with(before(text, '\n'), prefix) {
        Some(before(text, '\n').skip(prefix.len() as int))
    } else {
        match after(text, '\n') {
            Some(rest) => if rest.len() < text.len() {
                entry(rest, prefix)
            } else {
                None
            },
            None => None,
        }
    }
}

fn find_entry(text: &str, prefix: &str) -> (r: Option<String>)
    ensures
        match r {
            Some(value) => entry(text@, prefix@) == Some(value@),
            None => entry(text@, prefix@) is None,
        },
{
    let mut rest = text.to_owned();
    loop
        invariant
            entry(text@, prefix@) == entry(rest@, prefix@),
        decreases rest@.len(),
    {
        match strip_prefix(text_before(rest.as_str(), '\n').as_str(), prefix) {
            Some(value) => return Some(value),
            None => {},
        }
        proof {
            crate::words::lemma_first(rest@, '\n');
        }
        match text_after(rest.as_str(), '\n') {
            Some(next) => {
                rest = next;
            },
            None => return None,
        }
    }
}

pub open spec fn is_resident(pid: u32, status: Seq<char>, r: Result<u64, Error>) -> bool {
    let said = match entry(status, "VmRSS:"@) {
        Some(value) => word(value, 0),
        None => None,
    };
    match said {
        None => r is Err && r->Err_0.message@ == "/proc/"@ + decimal(pid as nat)
            + "/status omitted VmRSS"@,
        Some(number) => match number_in(number, 10, u64::MAX as nat) {
            Ok(kib) => if kib * 1024 <= u64::MAX {
                r == Ok::<u64, Error>((kib * 1024) as u64)
            } else {
                r is Err && r->Err_0.message@ == "VmRSS is out of range"@
            },
            Err(why) => r is Err && r->Err_0.message@ == why,
        },
    }
}

/// The resident memory of process `pid` in bytes, off its status file, which
/// gives it in units of 1024.
pub fn rss(pid: u32, status: &str) -> (r: Result<u64, Error>)
    ensures
        is_resident(pid, status@, r),
{
    let said = match find_entry(status, "VmRSS:") {
        Some(value) => crate::words::first_word(value.as_str()),
        None => None,
    };
    match said {
        None => Err(
            error(join("/proc/", decimal_text(pid as u64).as_str(), "/status omitted VmRSS")),
        ),
        Some(number) => match read_unsigned(number.as_str(), 10, u64::MAX) {
            Ok(kib) => match kib.checked_mul(1024) {
                Some(bytes) => Ok(bytes),
                None => Err(error(String::from_str("VmRSS is out of range"))),
            },
            Err(why) => Err(error(why)),
        },
    }
}

/// How long the count of open descriptors has stood still.
#[derive(Clone, Copy, Debug, PartialEq, Eq, Structural)]
pub struct Quiescence {
    pub previous: Option<usize>,
    /// How many times in a row a count was the same as the one before it.
    pub same: u32,
}

/// So many repetitions are taken for rest.
pub const STEADY: u32 = 4;

impl Quiescence {
    pub fn new() -> (r: Self)
        ensures
            r == Quiescence::initial(),
    {
        Quiescence { previous: None, same: 0 }
    }

    pub open spec fn initial() -> Quiescence {
        Quiescence { previous: None, same: 0 }
    }

    pub open spec fn seeing(self, count: usize) -> Quiescence {
        Quiescence {
            previous: Some(count),
            same: if self.previous != Some(count) {
                0
            } else if self.same < STEADY {
                (self.same + 1) as u32
            } else {
                self.same
            },
        }
    }

    /// One more count. Says whether the server has come to rest.
    pub fn sample(&mut self, count: usize) -> (r: bool)
        ensures
            *final(self) == old(self).seeing(count),
            r == (final(self).same >= STEADY),
    {
        let again = match self.previous {
            Some(before) => before == count,
            None => false,
        };
        if !again {
            self.same = 0;
        } else if self.same < STEADY {
            self.same = self.same + 1;
        }
        self.previous = Some(count);
        self.same >= STEADY
    }
}

pub open spec fn after_counts(counts: Seq<usize>) -> Quiescence
    decreases counts.len(),
{
    if counts.len() == 0 {
        Quiescence::initial()
    } else {
        after_counts(counts.drop_last()).seeing(counts.last())
    }
}

/// Rest is found exactly where the last five counts are the same.
pub proof fn rest_is_five_equal_counts(counts: Seq<usize>)
    ensures
        after_counts(counts).same >= STEADY <==> counts.len() >= 5 && forall|i: int|
            counts.len() - 5 <= i < counts.len() ==> #[trigger] counts[i] == counts.last(),
{
    lemma_repeats(counts, 4);
}

/// The counter says how far back the last count goes, as far as it counts.
proof fn lemma_repeats(counts: Seq<usize>, n: nat)
    requires
        n <= STEADY,
    ensures
        counts.len() > 0 ==> after_counts(counts).previous == Some(counts.last()),
        counts.len() == 0 ==> after_counts(counts).previous is None,
        after_counts(counts).same <= STEADY,
        after_counts(counts).same >= n && counts.len() > 0 <==> counts.len() > n && forall|i: int|
            counts.len() - n - 1 <= i < counts.len() ==> #[trigger] counts[i] == counts.last(),
    decreases counts.len(),
{
    if counts.len() > 0 {
        let less = counts.drop_last();
        lemma_repeats(less, n);
        if n > 0 {
            lemma_repeats(less, (n - 1) as nat);
            if after_counts(counts).same >= n {
                assert(less.last() == counts.last());
                assert forall|i: int| counts.len() - n - 1 <= i < counts.len() implies
                    #[trigger] counts[i] == counts.last() by {
                    if i < less.len() {
                        assert(counts[i] == less[i]);
                    }
                }
            }
            if counts.len() > n && (forall|i: int|
                counts.len() - n - 1 <= i < counts.len() ==> #[trigger] counts[i]
                    == counts.last()) {
                assert(counts[less.len() - 1] == less.last());
                assert forall|i: int| less.len() - (n - 1) - 1 <= i < less.len() implies
                    #[trigger] less[i] == less.last() by {
                    assert(less[i] == counts[i]);
                }
            }
        }
    }
}

/// It never came to rest.
pub fn restless(pid: u32) -> (r: Error)
    ensures
        r.message@ == "server "@ + decimal(pid as nat) + " fds never quiesced"@,
{
    error(join("server ", decimal_text(pid as u64).as_str(), " fds never quiesced"))
}

// ---------------------------------------------------------------------
// What a server is told, and what is read off it.

/// A server is told where its data and its socket are and to keep every record;
/// it listens on HTTP only where it is given an address, and then has a token.
pub proof fn settings_say_where_things_are(
    data: Seq<char>,
    run: Seq<char>,
    http: Option<(Seq<char>, Seq<char>)>,
)
    ensures
        ({
            let settings = settings_of(data, run, http);
            &&& settings.contains_key("data"@) && settings["data"@] == Setting::Text(data)
            &&& settings.contains_key("run"@) && settings["run"@] == Setting::Text(run)
            &&& settings.contains_key("socket"@) && settings["socket"@] == Setting::Text(
                "lug.sock"@,
            )
            &&& settings.contains_key("ring"@) && settings["ring"@] == Setting::Integer(4096)
            &&& settings.contains_key("checkpoint_every"@) && settings["checkpoint_every"@]
                == Setting::Integer(i64::MAX)
            &&& settings.contains_key("http"@) <==> http is Some
            &&& settings.contains_key("token"@) <==> http is Some
            &&& http is Some ==> settings["http"@] == Setting::Text((http->0).0)
                && settings["token"@] == Setting::Text((http->0).1)
        }),
{
    reveal_strlit("data");
    reveal_strlit("run");
    reveal_strlit("socket");
    reveal_strlit("ring");
    reveal_strlit("checkpoint_every");
    reveal_strlit("http");
    reveal_strlit("token");
    assert("data"@.len() == 4 && "run"@.len() == 3 && "socket"@.len() == 6 && "ring"@.len() == 4);
    assert("checkpoint_every"@.len() == 16 && "http"@.len() == 4 && "token"@.len() == 5);
    assert("data"@[0] == 'd' && "ring"@[0] == 'r' && "http"@[0] == 'h');
}

/// Every byte is written as two hexadecimal digits that say it, in order.
pub proof fn bytes_are_written_as_two_digits(bytes: Seq<u8>, i: int)
    requires
        0 <= i < bytes.len(),
    ensures
        hex(bytes).len() == 2 * bytes.len(),
        crate::text::digit_value(hex(bytes)[2 * i]) * 16 + crate::text::digit_value(
            hex(bytes)[2 * i + 1],
        ) == bytes[i],
{
    let b = bytes[i];
    assert(hex(bytes)[2 * i] == digit_char((b / 16) as nat));
    assert(hex(bytes)[2 * i + 1] == digit_char((b % 16) as nat));
}

/// A server that exited is no good; one that runs is ready once its socket answers
/// and, where it is to listen on HTTP, that does too.
pub proof fn servers_are_ready_when_they_answer(
    exited: Option<&str>,
    socket: bool,
    http: Option<bool>,
    r: Result<bool, Error>,
)
    requires
        is_ready(exited, socket, http, r),
    ensures
        r is Err <==> exited is Some,
        exited is None && http is None ==> r->Ok_0 == socket,
        exited is None && http is Some ==> r->Ok_0 == (socket && http->0),
{
}

/// A server was killed exactly where it died of signal 9.
pub proof fn only_kills_count(signal: Option<i32>, status: Seq<char>, r: Result<(), Error>)
    requires
        was_killed(signal, status, r),
    ensures
        r is Ok <==> signal is Some && signal->0 == 9,
{
}

/// An entry is looked for line by line: a line that begins with its name has it,
/// and any other line is passed over.
pub proof fn entries_are_found_line_by_line(line: Seq<char>, rest: Seq<char>, prefix: Seq<char>)
    requires
        !line.contains('\n'),
    ensures
        starts_with(line, prefix) ==> entry(line.push('\n') + rest, prefix) == Some(
            line.skip(prefix.len() as int),
        ) && entry(line, prefix) == Some(line.skip(prefix.len() as int)),
        !starts_with(line, prefix) ==> entry(line.push('\n') + rest, prefix) == entry(rest, prefix)
            && entry(line, prefix) is None,
{
    crate::words::text_is_parted_at_the_first(line, '\n', rest);
}

/// Memory is read in bytes off the entry that gives it in units of 1024, whatever
/// white space stands round the number.
pub proof fn memory_is_read_in_bytes(
    pid: u32,
    gap: Seq<char>,
    kib: nat,
    unit: Seq<char>,
    rest: Seq<char>,
    r: Result<u64, Error>,
)
    requires
        forall|i: int| 0 <= i < gap.len() ==> crate::words::whitespace(#[trigger] gap[i]),
        !gap.contains('\n'),
        unit.len() > 0 && unit[0] == ' ' && !unit.contains('\n'),
        kib * 1024 <= u64::MAX,
        is_resident(pid, ("VmRSS:"@ + (gap + (decimal(kib) + unit))).push('\n') + rest, r),
    ensures
        r == Ok::<u64, Error>((kib * 1024) as u64),
{
    let name = "VmRSS:"@;
    let value = gap + (decimal(kib) + unit);
    let line = name + value;
    crate::text::lemma_numeral(kib, 10);
    crate::text::numerals_read_back(kib, 10);
    let digits = decimal(kib);
    assert forall|i: int| 0 <= i < digits.len() implies #[trigger] digits[i] != '\n'
        && !crate::words::whitespace(digits[i]) by {
        assert(crate::text::digit_value(digits[i]) < 10);
    }
    assert(!line.contains('\n')) by {
        reveal_strlit("VmRSS:");
        if line.contains('\n') {
            let i = choose|i: int| 0 <= i < line.len() && line[i] == '\n';
            if i >= name.len() + gap.len() + digits.len() {
                assert(unit.contains(unit[i - name.len() - gap.len() - digits.len()]));
            } else if i >= name.len() + gap.len() {
                assert(digits[i - name.len() - gap.len()] != '\n');
            } else if i >= name.len() {
                assert(gap.contains(gap[i - name.len()]));
            }
        }
    }
    assert(line.take(name.len() as int) =~= name);
    assert(line.skip(name.len() as int) =~= value);
    entries_are_found_line_by_line(line, rest, name);
    crate::words::lemma_trim_start(gap, digits + unit);
    crate::words::lemma_span(digits, unit);
    assert((digits + unit).take(digits.len() as int) =~= digits);
    assert(digits.len() > 0);
    assert((digits + unit)[0] == digits[0]);
    assert(word(value, 0) == Some(digits));
}

} // verus!

//! What the command line tool says and decides.
//!
//! Built to live in a pipe: data goes to one stream and diagnostics to
//! another, a table is for a person, and colour only when one is watching.

use super::error::Error;
use super::hub::Ack;
use super::sub::Event;
use super::transport::Transport;
use super::view::{self, snapshot_from};
use crate::cavlc::format::snapshot_of;
use crate::cavlc::value::to_json_view;
use crate::json::Json;
use crate::proto::{LogInfo, Version};
use crate::text::{chars_of, decimal, decimal_text, same};
use crate::words::{trim, trimmed};
use vstd::prelude::*;

verus! {

/// The nanoseconds in a second.
pub const SECOND: u64 = 1_000_000_000;

/// When to use colour.
#[derive(Clone, Copy, Debug, PartialEq, Eq, Structural)]
pub enum Color {
    Auto,
    Always,
    Never,
}

pub open spec fn painted(when: Color, terminal: bool, no_color: bool, term: Option<&str>) -> bool {
    match when {
        Color::Always => true,
        Color::Never => false,
        Color::Auto => terminal && !no_color && match term {
            Some(name) => name@ != "dumb"@,
            None => true,
        },
    }
}

/// Whether to use colour. `terminal` says whether a person is watching,
/// `no_color` whether the environment forbids it, and `term` is the kind of
/// terminal, if it is known.
pub fn paint(when: Color, terminal: bool, no_color: bool, term: Option<&str>) -> (r: bool)
    ensures
        r == painted(when, terminal, no_color, term),
{
    match when {
        Color::Always => true,
        Color::Never => false,
        Color::Auto => terminal && !no_color && match term {
            Some(name) => !same(name, "dumb"),
            None => true,
        },
    }
}

/// Where to connect: to the HTTP origin if there is one, else to the socket.
/// `token` is the content of the token file, if one was given.
pub fn transport(http: Option<&str>, token: Option<&str>, socket: &str) -> (r: Transport)
    ensures
        match http {
            Some(base) => r is Http && r->base@ == base@ && r->token@ == match token {
                Some(text) => trim(text@),
                None => Seq::empty(),
            },
            None => r is Unix && r->Unix_0@ == socket@,
        },
{
    match http {
        Some(base) => {
            let token = match token {
                Some(text) => trimmed(text),
                None => String::new(),
            };
            Transport::http(String::from_str(base), token)
        },
        None => Transport::unix(String::from_str(socket)),
    }
}

pub open spec fn span_of(seconds: u64) -> int {
    if seconds < 1 {
        SECOND as int
    } else if seconds * SECOND > u64::MAX {
        u64::MAX as int
    } else {
        seconds * SECOND
    }
}

/// The deadline of a call, in nanoseconds, for a number of seconds asked for:
/// one second at least, and as long as can be counted at most.
pub fn deadline(seconds: u64) -> (r: u64)
    ensures
        r == span_of(seconds),
{
    let seconds = if seconds < 1 {
        1
    } else {
        seconds
    };
    match seconds.checked_mul(SECOND) {
        Some(nanos) => nanos,
        None => u64::MAX,
    }
}

pub open spec fn connect_text(e: Error, at: Seq<char>) -> Seq<char> {
    if e is Connect {
        "no daemon at "@ + at + ": "@ + e.text()
            + "\n      is lug-server running? try --socket <path> or --http <url>"@
    } else {
        e.text()
    }
}

/// What to say when connecting to `at` failed.
pub fn connect_failure(e: &Error, at: &str) -> (r: String)
    ensures
        r@ == connect_text(*e, at@),
{
    match e {
        Error::Connect { .. } => {
            let mut out = String::from_str("no daemon at ");
            out.append(at);
            out.append(": ");
            out.append(e.message().as_str());
            out.append("\n      is lug-server running? try --socket <path> or --http <url>");
            out
        },
        _ => e.message(),
    }
}

/// What to say when a verb failed.
pub fn failure(what: &str, e: &Error) -> (r: String)
    ensures
        r@ == what@ + " failed: "@ + e.text(),
{
    let mut out = String::from_str(what);
    out.append(" failed: ");
    out.append(e.message().as_str());
    out
}

/// How to print.
#[derive(Clone, Copy, Debug, PartialEq, Eq, Structural)]
pub struct Output {
    pub json: bool,
    pub color: bool,
}

impl Output {
    pub fn bold(&self, text: &str) -> (r: String)
        ensures
            r@ == if self.color {
                "\x1b[1m"@ + text@ + "\x1b[0m"@
            } else {
                text@
            },
    {
        if self.color {
            let mut out = String::from_str("\x1b[1m");
            out.append(text);
            out.append("\x1b[0m");
            out
        } else {
            String::from_str(text)
        }
    }

    /// Pretty for a person, compact for a pipe.
    pub fn pretty(&self) -> (r: bool)
        ensures
            r == (self.color && !self.json),
    {
        self.color && !self.json
    }
}

pub open spec fn spaces(n: int) -> Seq<char> {
    Seq::new(
        if n > 0 {
            n as nat
        } else {
            0
        },
        |i: int| ' ',
    )
}

/// `s` at the left of a column that is `width` characters wide.
pub open spec fn left(s: Seq<char>, width: int) -> Seq<char> {
    s + spaces(width - s.len())
}

/// `s` at the right of a column that is `width` characters wide.
pub open spec fn right(s: Seq<char>, width: int) -> Seq<char> {
    spaces(width - s.len()) + s
}

fn pad(out: &mut String, len: usize, width: usize)
    ensures
        final(out)@ == old(out)@ + spaces(width - len),
{
    let ghost before = out@;
    let mut n: usize = len;
    assert(before =~= before + spaces(0));
    while n < width
        invariant
            len <= n,
            n <= width || n == len,
            out@ == before + spaces(n - len),
        decreases width - n,
    {
        out.push(' ');
        n += 1;
        assert(out@ =~= before + spaces(n - len));
    }
    assert(spaces(n - len) =~= spaces(width - len));
}

fn push_left(out: &mut String, s: &str, width: usize)
    ensures
        final(out)@ == old(out)@ + left(s@, width as int),
{
    let ghost before = out@;
    let len = chars_of(s).len();
    out.append(s);
    pad(out, len, width);
    assert(out@ =~= before + left(s@, width as int));
}

fn push_right(out: &mut String, s: &str, width: usize)
    ensures
        final(out)@ == old(out)@ + right(s@, width as int),
{
    let ghost before = out@;
    let len = chars_of(s).len();
    pad(out, len, width);
    out.append(s);
    assert(out@ =~= before + right(s@, width as int));
}

/// A line of the table of logs.
pub open spec fn row(
    name: Seq<char>,
    reducible: Seq<char>,
    version: Seq<char>,
    oldest: Seq<char>,
    subscribers: Seq<char>,
    width: int,
) -> Seq<char> {
    left(name, width) + "  "@ + right(reducible, 9) + "  "@ + right(version, 7) + "  "@ + right(
        oldest,
        6,
    ) + "  "@ + right(subscribers, 4)
}

fn write_row(
    name: &str,
    reducible: &str,
    version: &str,
    oldest: &str,
    subscribers: &str,
    width: usize,
) -> (r: String)
    ensures
        r@ == row(name@, reducible@, version@, oldest@, subscribers@, width as int),
{
    let mut out = String::new();
    push_left(&mut out, name, width);
    out.append("  ");
    push_right(&mut out, reducible, 9);
    out.append("  ");
    push_right(&mut out, version, 7);
    out.append("  ");
    push_right(&mut out, oldest, 6);
    out.append("  ");
    push_right(&mut out, subscribers, 4);
    assert(out@ =~= row(name@, reducible@, version@, oldest@, subscribers@, width as int));
    out
}

/// The width of the column of names: that of the longest in bytes, or of its
/// title.
pub open spec fn name_width(logs: Seq<LogInfo>) -> int
    decreases logs.len(),
{
    if logs.len() == 0 {
        4
    } else {
        let before = name_width(logs.drop_last());
        let last = vstd::utf8::encode_utf8(logs.last().name@).len();
        if last > before {
            last as int
        } else {
            before
        }
    }
}

pub open spec fn flag(b: bool) -> Seq<char> {
    if b {
        "true"@
    } else {
        "false"@
    }
}

pub open spec fn log_row(log: LogInfo, width: int) -> Seq<char> {
    row(
        log.name@,
        flag(log.reducible),
        decimal(log.version as nat),
        decimal(log.oldest as nat),
        decimal(log.subscribers as nat),
        width,
    )
}

/// The table of logs, line by line; the title is the first.
pub open spec fn is_table(lines: Seq<String>, logs: Seq<LogInfo>) -> bool {
    if logs.len() == 0 {
        lines.len() == 1 && lines[0]@ == "no logs"@
    } else {
        &&& lines.len() == logs.len() + 1
        &&& lines[0]@ == row(
            "NAME"@,
            "REDUCIBLE"@,
            "VERSION"@,
            "OLDEST"@,
            "SUBS"@,
            name_width(logs),
        )
        &&& forall|i: int|
            0 <= i < logs.len() ==> (#[trigger] lines[i + 1])@ == log_row(
                logs[i],
                name_width(logs),
            )
    }
}

pub fn table(logs: &Vec<LogInfo>) -> (r: Vec<String>)
    ensures
        is_table(r@, logs@),
{
    let mut lines: Vec<String> = Vec::new();
    if logs.len() == 0 {
        lines.push(String::from_str("no logs"));
        return lines;
    }
    let mut width: usize = 4;
    let mut i: usize = 0;
    assert(logs@.take(0) =~= Seq::empty());
    while i < logs.len()
        invariant
            i <= logs@.len(),
            width == name_width(logs@.take(i as int)),
        decreases logs@.len() - i,
    {
        assert(logs@.take(i + 1).drop_last() =~= logs@.take(i as int));
        let len = logs[i].name.as_str().as_bytes().len();
        if len > width {
            width = len;
        }
        i += 1;
    }
    assert(logs@.take(i as int) =~= logs@);
    lines.push(write_row("NAME", "REDUCIBLE", "VERSION", "OLDEST", "SUBS", width));
    let mut j: usize = 0;
    while j < logs.len()
        invariant
            j <= logs@.len(),
            lines@.len() == j + 1,
            width == name_width(logs@),
            lines@[0]@ == row("NAME"@, "REDUCIBLE"@, "VERSION"@, "OLDEST"@, "SUBS"@, width as int),
            forall|i: int|
                0 <= i < j ==> (#[trigger] lines@[i + 1])@ == log_row(logs@[i], width as int),
        decreases logs@.len() - j,
    {
        let log = &logs[j];
        lines.push(
            write_row(
                log.name.as_str(),
                if log.reducible {
                    "true"
                } else {
                    "false"
                },
                decimal_text(log.version).as_str(),
                decimal_text(log.oldest).as_str(),
                decimal_text(log.subscribers as u64).as_str(),
                width,
            ),
        );
        j += 1;
    }
    lines
}

/// What to say of a log that was created.
pub fn created(info: &LogInfo) -> (r: String)
    ensures
        r@ == "created "@ + info.name@ + " ("@ + (if info.reducible {
            "reducible"@
        } else {
            "plain"@
        }) + ", version "@ + decimal(info.version as nat) + ")"@,
{
    let mut out = String::from_str("created ");
    out.append(info.name.as_str());
    out.append(" (");
    out.append(
        if info.reducible {
            "reducible"
        } else {
            "plain"
        },
    );
    out.append(", version ");
    out.append(decimal_text(info.version).as_str());
    out.append(")");
    out
}

/// Whether a line of input holds anything.
pub fn blank(line: &str) -> (r: bool)
    ensures
        r == (trim(line@).len() == 0),
{
    chars_of(trimmed(line).as_str()).len() == 0
}

/// What to say of a line of input that is not JSON. `n` counts from 0.
pub fn bad_line(n: usize, why: &str) -> (r: String)
    requires
        n < usize::MAX,
    ensures
        r@ == "line "@ + decimal((n + 1) as nat) + ": not valid JSON: "@ + why@,
{
    let mut out = String::from_str("line ");
    out.append(decimal_text((n + 1) as u64).as_str());
    out.append(": not valid JSON: ");
    out.append(why);
    out
}

pub open spec fn appended_text(count: nat, ack: Ack) -> Seq<char> {
    if ack.versions@.len() == 0 {
        "appended "@ + decimal(count) + ", nothing changed"@
    } else {
        "appended "@ + decimal(count) + " patch"@ + (if count == 1 {
            ""@
        } else {
            "es"@
        }) + " through version "@ + decimal(ack.versions@.last() as nat)
    }
}

/// What to say of `count` patches that were acknowledged.
pub fn appended(count: usize, ack: &Ack) -> (r: String)
    ensures
        r@ == appended_text(count as nat, *ack),
{
    let mut out = String::from_str("appended ");
    out.append(decimal_text(count as u64).as_str());
    if ack.versions.len() == 0 {
        out.append(", nothing changed");
        return out;
    }
    out.append(" patch");
    out.append(
        if count == 1 {
            ""
        } else {
            "es"
        },
    );
    out.append(" through version ");
    out.append(decimal_text(ack.versions[ack.versions.len() - 1]).as_str());
    out
}

/// What to print of a view: the root where it is one, else what arrived.
pub fn body(view: &view::View) -> (r: Json)
    ensures
        r@ == match snapshot_of(view.version, view.value@) {
            Some(snapshot) => to_json_view(snapshot.root),
            None => view.value@,
        },
{
    match snapshot_from(view.version, &view.value) {
        Ok(snapshot) => snapshot.root().to_json(),
        Err(_) => view.value.copy(),
    }
}

// ---------------------------------------------------------------------
// Tails.

/// Where a tail that does not follow ends.
#[derive(Debug, PartialEq, Eq)]
pub enum Finish {
    /// There is nothing above the cursor.
    Now,
    /// With everything up to this version.
    At(Version),
}

pub open spec fn listed(logs: Seq<LogInfo>, name: Seq<char>) -> Option<LogInfo>
    decreases logs.len(),
{
    if logs.len() == 0 {
        None
    } else if logs[0].name@ == name {
        Some(logs[0])
    } else {
        listed(logs.drop_first(), name)
    }
}

pub open spec fn finishes(
    logs: Seq<LogInfo>,
    log: Seq<char>,
    from: Version,
    r: Result<Finish, String>,
) -> bool {
    match listed(logs, log) {
        Some(info) => r == Ok::<Finish, String>(
            if info.version <= from {
                Finish::Now
            } else {
                Finish::At(info.version)
            },
        ),
        None => r is Err && r->Err_0@ == "no log named "@ + log,
    }
}

/// The finish line of a tail of `log` from the cursor `from`, which is the
/// log's current version.
pub fn finish(logs: &Vec<LogInfo>, log: &str, from: Version) -> (r: Result<Finish, String>)
    ensures
        finishes(logs@, log@, from, r),
{
    let mut i: usize = 0;
    assert(logs@.skip(0) =~= logs@);
    while i < logs.len()
        invariant
            i <= logs@.len(),
            listed(logs@, log@) == listed(logs@.skip(i as int), log@),
        decreases logs@.len() - i,
    {
        assert(logs@.skip(i as int)[0] == logs@[i as int]);
        if same(logs[i].name.as_str(), log) {
            let version = logs[i].version;
            return Ok(
                if version <= from {
                    Finish::Now
                } else {
                    Finish::At(version)
                },
            );
        }
        assert(logs@.skip(i as int).drop_first() =~= logs@.skip(i + 1));
        i += 1;
    }
    let mut message = String::from_str("no log named ");
    message.append(log);
    Err(message)
}

/// The version that an event takes a tail to.
pub open spec fn reaches(event: Event) -> Version {
    match event {
        Event::Record(record) => record.version,
        Event::Gap { to, .. } => to,
    }
}

pub open spec fn is_done(target: Option<Version>, event: Event) -> bool {
    target matches Some(version) && reaches(event) >= version
}

/// Whether a tail is done after an event.
pub fn done(target: Option<Version>, event: &Event) -> (r: bool)
    ensures
        r == is_done(target, *event),
{
    match target {
        None => false,
        Some(version) => match event {
            Event::Record(record) => record.version >= version,
            Event::Gap { to, .. } => *to >= version,
        },
    }
}

/// What to say of a gap: what is missing, rather than letting the versions
/// jump silently.
pub fn gap_notice(from: Version, to: Version) -> (r: String)
    ensures
        r@ == "gap, versions "@ + decimal(from as nat) + ".."@ + decimal(to as nat)
            + " were reclaimed by the server"@,
{
    let mut out = String::from_str("gap, versions ");
    out.append(decimal_text(from).as_str());
    out.append("..");
    out.append(decimal_text(to).as_str());
    out.append(" were reclaimed by the server");
    out
}

/// Asking for colour gets it and asking for none gets none, whoever is watching.
/// Left alone, colour is for a person at a terminal that can show it, and never
/// where the environment forbids it.
pub proof fn colour_is_for_people(
    choice: Color,
    terminal: bool,
    no_color: bool,
    term: Option<&str>,
)
    ensures
        choice == Color::Always ==> painted(choice, terminal, no_color, term),
        choice == Color::Never ==> !painted(choice, terminal, no_color, term),
        choice == Color::Auto && painted(choice, terminal, no_color, term) ==> terminal && !no_color
            && (term is Some ==> term->0@ != "dumb"@),
        choice == Color::Auto && terminal && !no_color && term is None ==> painted(
            choice,
            terminal,
            no_color,
            term,
        ),
        choice == Color::Auto && terminal && !no_color && term is Some && term->0@ != "dumb"@
            ==> painted(choice, terminal, no_color, term),
{
}

/// A deadline is the span asked for, in nanoseconds, but never less than a second
/// nor more than can be counted.
pub proof fn deadlines_are_bounded(seconds: u64)
    ensures
        1_000_000_000 <= span_of(seconds) <= u64::MAX,
        1 <= seconds <= 1_000_000_000 ==> span_of(seconds) == seconds * 1_000_000_000,
        seconds > 0 && seconds * 1_000_000_000 > u64::MAX ==> span_of(seconds) == u64::MAX,
{
}

/// The column of names is as wide as the widest of them and its title need.
pub proof fn the_column_fits_every_name(logs: Seq<LogInfo>)
    ensures
        name_width(logs) >= "NAME"@.len(),
        forall|i: int|
            0 <= i < logs.len() ==> name_width(logs) >= vstd::utf8::encode_utf8(
                (#[trigger] logs[i]).name@,
            ).len(),
        name_width(logs) == "NAME"@.len() || exists|i: int|
            0 <= i < logs.len() && name_width(logs) == vstd::utf8::encode_utf8(
                (#[trigger] logs[i]).name@,
            ).len(),
    decreases logs.len(),
{
    reveal_strlit("NAME");
    if logs.len() > 0 {
        let less = logs.drop_last();
        the_column_fits_every_name(less);
        assert forall|i: int| 0 <= i < logs.len() implies name_width(logs)
            >= vstd::utf8::encode_utf8((#[trigger] logs[i]).name@).len() by {
            if i < less.len() {
                assert(less[i] == logs[i]);
            }
        }
        if name_width(logs) != 4 {
            if name_width(logs) == name_width(less) {
                let i = choose|i: int|
                    0 <= i < less.len() && name_width(less) == vstd::utf8::encode_utf8(
                        (#[trigger] less[i]).name@,
                    ).len();
                assert(logs[i] == less[i]);
            } else {
                assert(logs[logs.len() - 1] == logs.last());
            }
        }
    }
}

/// A cell fills its column, at one side of it, and is never cut short.
pub proof fn cells_fill_their_columns(s: Seq<char>, width: int)
    ensures
        s.len() <= width ==> left(s, width).len() == width && right(s, width).len() == width,
        s.len() > width ==> left(s, width) == s && right(s, width) == s,
        left(s, width).take(s.len() as int) == s,
        right(s, width).skip(right(s, width).len() - s.len()) == s,
        forall|i: int| s.len() <= i < left(s, width).len() ==> #[trigger] left(s, width)[i] == ' ',
        forall|i: int|
            0 <= i < right(s, width).len() - s.len() ==> #[trigger] right(s, width)[i] == ' ',
{
    assert(left(s, width).take(s.len() as int) =~= s);
    assert(right(s, width).skip(right(s, width).len() - s.len()) =~= s);
    if s.len() > width {
        assert(left(s, width) =~= s);
        assert(right(s, width) =~= s);
    }
}

proof fn lemma_listed(logs: Seq<LogInfo>, name: Seq<char>)
    ensures
        listed(logs, name) is None <==> forall|i: int|
            0 <= i < logs.len() ==> (#[trigger] logs[i]).name@ != name,
        listed(logs, name) is Some ==> logs.contains(listed(logs, name)->0) && listed(
            logs,
            name,
        )->0.name@ == name,
    decreases logs.len(),
{
    if logs.len() > 0 && logs[0].name@ != name {
        let rest = logs.drop_first();
        lemma_listed(rest, name);
        if listed(rest, name) is Some {
            let i = choose|i: int| 0 <= i < rest.len() && rest[i] == listed(rest, name)->0;
            assert(logs[i + 1] == rest[i]);
            assert(rest[i].name@ == name);
        } else {
            assert forall|i: int| 0 <= i < logs.len() implies (#[trigger] logs[i]).name@
                != name by {
                if i > 0 {
                    assert(rest[i - 1] == logs[i]);
                }
            }
        }
    }
}

/// A tail that does not follow ends at the version that its log is listed with,
/// and at once where the cursor has that already. A log that is not listed is an
/// error.
pub proof fn tails_end_at_the_listed_version(
    logs: Seq<LogInfo>,
    log: Seq<char>,
    from: Version,
    r: Result<Finish, String>,
)
    requires
        finishes(logs, log, from, r),
    ensures
        r is Err <==> forall|i: int| 0 <= i < logs.len() ==> (#[trigger] logs[i]).name@ != log,
        r is Ok && r->Ok_0 is At ==> r->Ok_0->At_0 > from && exists|i: int|
            0 <= i < logs.len() && (#[trigger] logs[i]).name@ == log && logs[i].version
                == r->Ok_0->At_0,
        r is Ok && r->Ok_0 is Now ==> exists|i: int|
            0 <= i < logs.len() && (#[trigger] logs[i]).name@ == log && logs[i].version <= from,
{
    lemma_listed(logs, log);
}

/// A tail is done once a record or a gap took it to its target or past it, and
/// one that follows never is.
pub proof fn tails_are_done_at_their_target(target: Version, event: Event)
    ensures
        !is_done(None, event),
        event is Record ==> (is_done(Some(target), event) <==> event->Record_0.version >= target),
        event is Gap ==> (is_done(Some(target), event) <==> event->to >= target),
{
}

/// Appends that changed something are told with the last version they minted, one
/// patch as one and others as many; appends that minted none are told to have
/// changed nothing.
pub proof fn appends_are_told_with_their_last_version(count: nat, ack: Ack)
    ensures
        ack.versions@.len() == 0 ==> appended_text(count, ack) == "appended "@ + decimal(count)
            + ", nothing changed"@,
        ack.versions@.len() > 0 && count == 1 ==> appended_text(count, ack) == "appended "@
            + decimal(1) + " patch through version "@ + decimal(ack.versions@.last() as nat),
        ack.versions@.len() > 0 && count != 1 ==> appended_text(count, ack) == "appended "@
            + decimal(count) + " patches through version "@ + decimal(
            ack.versions@.last() as nat,
        ),
{
    reveal_strlit(" patch");
    reveal_strlit("");
    reveal_strlit("es");
    reveal_strlit(" through version ");
    reveal_strlit(" patch through version ");
    reveal_strlit(" patches through version ");
    assert(" patch"@ + ""@ + " through version "@ =~= " patch through version "@);
    assert(" patch"@ + "es"@ + " through version "@ =~= " patches through version "@);
    if ack.versions@.len() > 0 {
        let end = decimal(ack.versions@.last() as nat);
        let tail = if count == 1 {
            ""@
        } else {
            "es"@
        };
        assert(appended_text(count, ack) =~= "appended "@ + decimal(count) + (" patch"@ + tail
            + " through version "@) + end);
    }
}

/// Every log has its line in the table, in order below the titles, with its name at
/// the left and its numbers at the right of their columns.
pub proof fn every_log_has_its_line(lines: Seq<String>, logs: Seq<LogInfo>, i: int)
    requires
        is_table(lines, logs),
        0 <= i < logs.len(),
    ensures
        lines.len() == logs.len() + 1,
        lines[i + 1]@ == left(logs[i].name@, name_width(logs)) + "  "@ + right(
            if logs[i].reducible {
                "true"@
            } else {
                "false"@
            },
            9,
        ) + "  "@ + right(decimal(logs[i].version as nat), 7) + "  "@ + right(
            decimal(logs[i].oldest as nat),
            6,
        ) + "  "@ + right(decimal(logs[i].subscribers as nat), 4),
{
}

/// A daemon that cannot be reached is told with where it was looked for and what to
/// try; other failures are told as they are.
pub proof fn missing_daemons_are_told_with_a_hint(e: Error, at: Seq<char>)
    ensures
        e is Connect ==> connect_text(e, at) == "no daemon at "@ + at + ": "@ + e.text()
            + "\n      is lug-server running? try --socket <path> or --http <url>"@,
        !(e is Connect) ==> connect_text(e, at) == e.text(),
{
}

} // verus!

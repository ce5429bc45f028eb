//! From raw log lines to regrouped events: tokenising, keying by event id,
//! and building the structured `Log` of a complete event.

use vstd::prelude::*;
use crate::text::{
    tokens_of, views, decimal, split_whitespace, same_text, u128_to_decimal, is_white_space,
    signed_decimal, law_i32_decimal_roundtrip, parse_i32_spec, parse_i32, substring,
    lemma_decimal_digits,
};
use crate::groups::{
    EventGroups, GroupRecord, inserted, distinct_ids, lookup, lines_of, law_insert_accumulates,
    law_insert_appends, position_of, lemma_position_unique,
};
use crate::server::{stamped, law_stamped_tokens};
use crate::outside::{regex_compiles, regex_group_one, regex_is_valid, regex_first_group, random_u128};
use crate::types::{Log, LogRecord, ServiceLogType, ServiceContent};
use crate::auditd::{AUDITD, auditd_event, build_event};

verus! {

/// Token positions in a stamped log line `ip unix_time <pri>Mon DD hh:mm:ss host service ...`.
pub const IP: usize = 0;
pub const TIMESTAMP: usize = 1;
pub const HOSTNAME: usize = 5;
pub const SERVICE: usize = 6;

/// The event id of an auditd line: the serial number in `msg=audit(time:serial)`.
pub const EVENT_ID_PATTERN: &'static str = r#"msg=audit\([0-9]*.[0-9]*:([0-9]*)\)"#;

/// Whether a line's service token is auditd's.
pub open spec fn is_auditd_line(t: Seq<Seq<char>>) -> bool {
    t[SERVICE as int] == AUDITD@
}

/// Whether a line can be keyed: it has a service token, and an auditd line
/// carries an event id.
pub open spec fn parse_accepts(log: Seq<char>) -> bool {
    let t = tokens_of(log);
    &&& t.len() > SERVICE
    &&& is_auditd_line(t) ==> regex_compiles(EVENT_ID_PATTERN@) && regex_group_one(
        EVENT_ID_PATTERN@,
        log,
    ) is Some
}

/// The id under which a line is gathered: the event id of an auditd line,
/// otherwise the decimal form of the random number drawn for the line.
pub open spec fn line_key(log: Seq<char>, random: u128) -> Seq<char> {
    if is_auditd_line(tokens_of(log)) {
        regex_group_one(EVENT_ID_PATTERN@, log)->0
    } else {
        decimal(random as nat)
    }
}

/// The groups after the line `log` arrived at `now`.
pub open spec fn parsed(g: Seq<GroupRecord>, log: Seq<char>, now: u64, random: u128) -> Seq<GroupRecord> {
    inserted(g, line_key(log, random), tokens_of(log), now)
}

/// The views of optional gathered lines.
pub open spec fn gathered_view(r: Option<Vec<String>>) -> Option<Seq<Seq<char>>> {
    match r {
        Some(lines) => Some(views(lines@)),
        None => None,
    }
}

/// Inserts `tokens` under `id` and returns all the lines gathered under `id`.
fn insert_and_collect(groups: &mut EventGroups, id: &str, tokens: Vec<String>, now: u64) -> (r: Vec<String>)
    requires
        old(groups).wf(),
    ensures
        final(groups).wf(),
        final(groups)@ == inserted(old(groups)@, id@, views(tokens@), now),
        views(r@) == lines_of(final(groups)@, id@),
{
    let ghost before = groups@;
    groups.insert(id, tokens, now);
    proof {
        law_insert_appends(before, id@, views(tokens@), now);
    }
    match groups.get(id) {
        Some((lines, _)) => lines,
        None => Vec::new(),
    }
}

/// Gathers the tokens of `log` under the line's key; returns the lines now
/// gathered under that key, or `None` for a refused line.
fn gather(log: &str, tokens: Vec<String>, groups: &mut EventGroups, now: u64, random: u128) -> (r: Option<Vec<String>>)
    requires
        old(groups).wf(),
        views(tokens@) == tokens_of(log@),
    ensures
        final(groups).wf(),
        r is Some == parse_accepts(log@),
        r is Some ==> final(groups)@ == parsed(old(groups)@, log@, now, random)
            && gathered_view(r) == Some(lines_of(final(groups)@, line_key(log@, random))),
        r is None ==> final(groups)@ == old(groups)@,
{
    if tokens.len() <= SERVICE {
        return None;
    }
    proof {
        assert(views(tokens@)[SERVICE as int] == tokens@[SERVICE as int]@);
    }
    if same_text(tokens[SERVICE].as_str(), AUDITD) {
        if !regex_is_valid(EVENT_ID_PATTERN) {
            return None;
        }
        match regex_first_group(EVENT_ID_PATTERN, log) {
            Some(id) => Some(insert_and_collect(groups, id.as_str(), tokens, now)),
            None => None,
        }
    } else {
        let id = u128_to_decimal(random);
        Some(insert_and_collect(groups, id.as_str(), tokens, now))
    }
}

/// Tokenises `log` and gathers its tokens under the line's key, using `random`
/// as the key's number if the line is not auditd's. Returns the lines now
/// gathered under that key; a refused line gives `None` and leaves `groups`
/// unchanged.
pub fn parse_with_id(log: &str, groups: &mut EventGroups, now: u64, random: u128) -> (r: Option<Vec<String>>)
    requires
        old(groups).wf(),
    ensures
        final(groups).wf(),
        r is Some == parse_accepts(log@),
        r is Some ==> final(groups)@ == parsed(old(groups)@, log@, now, random)
            && gathered_view(r) == Some(lines_of(final(groups)@, line_key(log@, random))),
        r is None ==> final(groups)@ == old(groups)@,
{
    let tokens = split_whitespace(log);
    gather(log, tokens, groups, now, random)
}

/// Tokenises `log` and gathers its tokens under the line's key: its event id
/// for an auditd line, a fresh random number for any other line. Returns all
/// the lines gathered under that key, this one last.
pub fn parse(log: &str, groups: &mut EventGroups, now: u64) -> (r: Vec<String>)
    requires
        old(groups).wf(),
        parse_accepts(log@),
    ensures
        final(groups).wf(),
        exists|random: u128|
            final(groups)@ == parsed(old(groups)@, log@, now, random) && views(r@) == lines_of(
                final(groups)@,
                line_key(log@, random),
            ),
{
    let tokens = split_whitespace(log);
    let auditd_line = tokens.len() > SERVICE && same_text(tokens[SERVICE].as_str(), AUDITD);
    let random = if auditd_line {
        0
    } else {
        random_u128()
    };
    match gather(log, tokens, groups, now, random) {
        Some(lines) => lines,
        None => Vec::new(),
    }
}

/// Decides `parse_accepts`.
pub fn parse_check(log: &str) -> (r: bool)
    ensures
        r == parse_accepts(log@),
{
    let tokens = split_whitespace(log);
    if tokens.len() <= SERVICE {
        return false;
    }
    proof {
        assert(views(tokens@)[SERVICE as int] == tokens@[SERVICE as int]@);
    }
    if same_text(tokens[SERVICE].as_str(), AUDITD) {
        regex_is_valid(EVENT_ID_PATTERN) && regex_first_group(EVENT_ID_PATTERN, log).is_some()
    } else {
        true
    }
}

/// `parse` on the lines that it accepts; any other line is refused (`None`)
/// and leaves `groups` unchanged.
pub fn try_parse(log: &str, groups: &mut EventGroups, now: u64) -> (r: Option<Vec<String>>)
    requires
        old(groups).wf(),
    ensures
        final(groups).wf(),
        r is Some == parse_accepts(log@),
        r is Some ==> exists|random: u128|
            final(groups)@ == parsed(old(groups)@, log@, now, random) && gathered_view(r) == Some(
                lines_of(final(groups)@, line_key(log@, random)),
            ),
        r is None ==> final(groups)@ == old(groups)@,
{
    if parse_check(log) {
        Some(parse(log, groups, now))
    } else {
        None
    }
}


/// The record of a complete event from its tokens: who sent it (token 0),
/// when (token 1, a decimal `i32`), which host (token 5) and service
/// (token 6), and its content. `None` for a malformed event (too few tokens,
/// a timestamp that is no `i32`, a malformed auditd event).
pub open spec fn organized(t: Seq<Seq<char>>) -> Option<LogRecord> {
    if t.len() <= SERVICE {
        None
    } else {
        match parse_i32_spec(t[TIMESTAMP as int]) {
            Some(ts) => {
                let record = |content: ServiceContent|
                    LogRecord {
                        ip: t[IP as int],
                        timestamp: ts,
                        hostname: t[HOSTNAME as int],
                        service: t[SERVICE as int],
                        content: content,
                    };
                if is_auditd_line(t) {
                    match auditd_event(t) {
                        Some(Some(e)) => Some(record(ServiceContent::Auditd(e))),
                        Some(None) => Some(record(ServiceContent::NotSupported)),
                        None => None,
                    }
                } else {
                    Some(record(ServiceContent::NotSupported))
                }
            },
            None => None,
        }
    }
}

/// The model of an optional log.
pub open spec fn log_view(o: Option<Log>) -> Option<LogRecord> {
    match o {
        Some(l) => Some(l@),
        None => None,
    }
}

fn copy_string(s: &String) -> (r: String)
    ensures
        r@ == s@,
{
    substring(s.as_str(), 0, s.as_str().unicode_len())
}

fn build_log(lines: &Vec<String>) -> (r: Option<Log>)
    ensures
        log_view(r) == organized(views(lines@)),
{
    let ghost t = views(lines@);
    if lines.len() <= SERVICE {
        return None;
    }
    proof {
        assert(t[TIMESTAMP as int] == lines@[TIMESTAMP as int]@);
        assert(t[SERVICE as int] == lines@[SERVICE as int]@);
        assert(t[IP as int] == lines@[IP as int]@);
        assert(t[HOSTNAME as int] == lines@[HOSTNAME as int]@);
    }
    let timestamp = match parse_i32(lines[TIMESTAMP].as_str()) {
        Some(v) => v,
        None => return None,
    };
    let content = if same_text(lines[SERVICE].as_str(), AUDITD) {
        match build_event(lines) {
            Some(Some(event)) => ServiceLogType::Auditd(event),
            Some(None) => ServiceLogType::NotSupported(()),
            None => return None,
        }
    } else {
        ServiceLogType::NotSupported(())
    };
    let r = Log {
        ip: copy_string(&lines[IP]),
        timestamp,
        hostname: copy_string(&lines[HOSTNAME]),
        service: copy_string(&lines[SERVICE]),
        content,
    };
    Some(r)
}

/// The structured log of a complete event, from the tokens of its lines.
pub fn organize(lines: &Vec<String>) -> (r: Log)
    requires
        organized(views(lines@)) is Some,
    ensures
        r@ == organized(views(lines@))->0,
{
    build_log(lines).unwrap()
}

/// `organize` on the events it accepts; `None` for the others.
pub fn try_organize(lines: &Vec<String>) -> (r: Option<Log>)
    ensures
        log_view(r) == organized(views(lines@)),
{
    if build_log(lines).is_some() {
        Some(organize(lines))
    } else {
        None
    }
}


/// The lines of one auditd event are gathered together, in the order they
/// arrived: after two lines with the same event id, that event holds the
/// tokens of the first line, then those of the second.
pub proof fn law_same_event_gathered(
    g: Seq<GroupRecord>,
    first: Seq<char>,
    t1: u64,
    second: Seq<char>,
    t2: u64,
    r1: u128,
    r2: u128,
)
    requires
        distinct_ids(g),
        parse_accepts(first),
        parse_accepts(second),
        is_auditd_line(tokens_of(first)),
        is_auditd_line(tokens_of(second)),
        regex_group_one(EVENT_ID_PATTERN@, first) == regex_group_one(EVENT_ID_PATTERN@, second),
    ensures
        lookup(parsed(parsed(g, first, t1, r1), second, t2, r2), line_key(first, r1)) == Some(
            (lines_of(g, line_key(first, r1)) + tokens_of(first) + tokens_of(second), t2),
        ),
{
    law_insert_accumulates(g, line_key(first, r1), tokens_of(first), t1, tokens_of(second), t2);
}

/// Two lines under the same key end in one group holding both, in order; two
/// lines under different keys end in two groups, one each. Starting from an
/// empty buffer, that makes one group or two.
pub proof fn law_two_lines_keyed(
    g: Seq<GroupRecord>,
    first: Seq<char>,
    t1: u64,
    second: Seq<char>,
    t2: u64,
    r1: u128,
    r2: u128,
)
    requires
        distinct_ids(g),
    ensures
        ({
            let k1 = line_key(first, r1);
            let k2 = line_key(second, r2);
            let after = parsed(parsed(g, first, t1, r1), second, t2, r2);
            &&& k1 == k2 ==> lookup(after, k1) == Some((lines_of(g, k1) + tokens_of(first) + tokens_of(second), t2))
            &&& k1 != k2 ==> lookup(after, k1) == Some((lines_of(g, k1) + tokens_of(first), t1))
                && lookup(after, k2) == Some((lines_of(g, k2) + tokens_of(second), t2))
            &&& g.len() == 0 ==> after.len() == if k1 == k2 { 1int } else { 2int }
        }),
{
    let k1 = line_key(first, r1);
    let k2 = line_key(second, r2);
    let mid = parsed(g, first, t1, r1);
    law_insert_appends(g, k1, tokens_of(first), t1);
    law_insert_appends(mid, k2, tokens_of(second), t2);
    if g.len() == 0 {
        assert(position_of(g, k1) is None);
        assert(mid.len() == 1);
        assert(mid[0].id == k1);
        if k1 == k2 {
            lemma_position_unique(mid, k1, 0);
        } else {
            assert(position_of(mid, k2) is None);
        }
    }
}

/// An auditd line is gathered under its whole event id (group 1 of
/// `EVENT_ID_PATTERN`): that event gets the line's tokens after its earlier
/// ones, and every other event is left as it was.
pub proof fn law_auditd_line_keyed_by_event_id(
    g: Seq<GroupRecord>,
    log: Seq<char>,
    now: u64,
    random: u128,
    id: Seq<char>,
)
    requires
        distinct_ids(g),
        parse_accepts(log),
        is_auditd_line(tokens_of(log)),
        regex_group_one(EVENT_ID_PATTERN@, log) == Some(id),
    ensures
        lookup(parsed(g, log, now, random), id) == Some((lines_of(g, id) + tokens_of(log), now)),
        forall|other: Seq<char>| other != id ==> lookup(parsed(g, log, now, random), other) == lookup(g, other),
{
    law_insert_appends(g, id, tokens_of(log), now);
}

/// Two auditd lines with different event ids are never gathered together:
/// each event id holds its own line.
pub proof fn law_distinct_event_ids_kept_apart(
    g: Seq<GroupRecord>,
    first: Seq<char>,
    t1: u64,
    second: Seq<char>,
    t2: u64,
    r1: u128,
    r2: u128,
    a: Seq<char>,
    b: Seq<char>,
)
    requires
        distinct_ids(g),
        parse_accepts(first),
        parse_accepts(second),
        is_auditd_line(tokens_of(first)),
        is_auditd_line(tokens_of(second)),
        regex_group_one(EVENT_ID_PATTERN@, first) == Some(a),
        regex_group_one(EVENT_ID_PATTERN@, second) == Some(b),
        a != b,
    ensures
        lookup(parsed(parsed(g, first, t1, r1), second, t2, r2), a) == Some((lines_of(g, a) + tokens_of(first), t1)),
        lookup(parsed(parsed(g, first, t1, r1), second, t2, r2), b) == Some((lines_of(g, b) + tokens_of(second), t2)),
{
    law_auditd_line_keyed_by_event_id(g, first, t1, r1, a);
    law_insert_appends(g, a, tokens_of(first), t1);
    law_auditd_line_keyed_by_event_id(parsed(g, first, t1, r1), second, t2, r2, b);
}

/// Different numbers give different keys.
pub proof fn lemma_decimal_injective(x: nat, y: nat)
    requires
        decimal(x) == decimal(y),
    ensures
        x == y,
{
    lemma_decimal_digits(x);
    lemma_decimal_digits(y);
}

/// A line of another service is gathered under the decimal form of the
/// number drawn for it; when no group holds that key yet, the line starts a
/// group of its own that holds exactly its tokens, and the buffer has one
/// more group. Lines drawn different numbers are never gathered together.
pub proof fn law_other_line_keyed_by_number(g: Seq<GroupRecord>, log: Seq<char>, now: u64, random: u128)
    requires
        distinct_ids(g),
        parse_accepts(log),
        !is_auditd_line(tokens_of(log)),
    ensures
        lookup(parsed(g, log, now, random), decimal(random as nat)) == Some(
            (lines_of(g, decimal(random as nat)) + tokens_of(log), now),
        ),
        lookup(g, decimal(random as nat)) is None ==> lookup(parsed(g, log, now, random), decimal(random as nat))
            == Some((tokens_of(log), now)) && parsed(g, log, now, random).len() == g.len() + 1,
        forall|other: u128| other != random ==> decimal(other as nat) != decimal(random as nat),
{
    let k = decimal(random as nat);
    law_insert_appends(g, k, tokens_of(log), now);
    if lookup(g, k) is None {
        assert(tokens_of(log) =~= Seq::<Seq<char>>::empty() + tokens_of(log));
        assert(position_of(g, k) is None);
    }
    assert forall|other: u128| other != random implies decimal(other as nat) != decimal(random as nat) by {
        if decimal(other as nat) == decimal(random as nat) {
            lemma_decimal_injective(other as nat, random as nat);
        }
    }
}

/// What the server stamps on a line is what the organizer reads back: the
/// address is the log's address and the arrival time its timestamp; the host
/// and the service are the raw line's fourth and fifth tokens. A stamped
/// line of another service than auditd is always organized, as unsupported.
pub proof fn law_stamped_line_reads_back(ip: Seq<char>, unix_time: i32, raw: Seq<char>)
    requires
        ip.len() > 0,
        forall|j: int| 0 <= j < ip.len() ==> !is_white_space(#[trigger] ip[j]),
    ensures
        organized(tokens_of(stamped(ip, unix_time as i64, raw))) matches Some(r) ==> {
            &&& r.ip == ip
            &&& r.timestamp == unix_time
            &&& r.hostname == tokens_of(raw)[3]
            &&& r.service == tokens_of(raw)[4]
        },
        tokens_of(raw).len() >= 5 && tokens_of(raw)[4] != AUDITD@ ==> organized(
            tokens_of(stamped(ip, unix_time as i64, raw)),
        ) == Some(
            LogRecord {
                ip: ip,
                timestamp: unix_time,
                hostname: tokens_of(raw)[3],
                service: tokens_of(raw)[4],
                content: ServiceContent::NotSupported,
            },
        ),
{
    law_stamped_tokens(ip, unix_time as i64, raw);
    law_i32_decimal_roundtrip(unix_time);
    let t = tokens_of(stamped(ip, unix_time as i64, raw));
    let d = signed_decimal(unix_time as int);
    assert(t[0] == ip);
    assert(t[1] == d);
    if t.len() > SERVICE {
        assert(t[HOSTNAME as int] == tokens_of(raw)[3]);
        assert(t[SERVICE as int] == tokens_of(raw)[4]);
    }
}

} // verus!

//! The structured event of a complete auditd event, built from the tokens of
//! its records.
//!
//! Each record of an auditd event starts with the token `auditd:`, followed by
//! its `type=...` token; its content starts `CONTENT` tokens after `auditd:`.

use vstd::prelude::*;
use crate::text::{
    views, has_infix, skip_upto, parse_usize_spec, nul_to_space, after_last, trimmed, spaced,
    byte_slice, byte_slice_from, byte_len, has_prefix, same_text, contains, skip_chars,
    parse_usize, replace_nul, last_segment, trim, slice_bytes, slice_bytes_from, byte_length,
    starts_with,
};
use crate::types::{AuditdExecutionLog, AuditdLogType, AuditdEvent, ExecutionRecord, empty_execution};
use crate::outside::{regex_compiles, regex_group_one, regex_is_valid, regex_first_group};

verus! {

/// Offset of a record's content from its `auditd:` token.
pub const CONTENT: usize = 3;
/// Offset of the `mode=` token from the start of a PATH record's content.
pub const PATH_PERMISSIONS: usize = 4;
/// Offset of the `ouid=` token from the start of a PATH record's content.
pub const PATH_OWNER: usize = 14;

/// The first token of every auditd record (the service token of its line).
pub const AUDITD: &'static str = "auditd:";
pub const PROCTITLE: &'static str = "type=PROCTITLE";
pub const EXECVE: &'static str = "type=EXECVE";
pub const PATH: &'static str = "type=PATH";
pub const CWD: &'static str = "type=CWD";
pub const SYSCALL: &'static str = "type=SYSCALL";
pub const UID_PREFIX: &'static str = "uid=";

/// An argument `aN=value` or `aN="value"` of an EXECVE record: group 1 is the value.
pub const ARGUMENT_PATTERN: &'static str = r#"a[0-9]+=(?:")?([^\\"\s]*)"#;

/// The value of the EXECVE argument token at position `k`, once NUL characters
/// are made spaces.
pub open spec fn argument_value(t: Seq<Seq<char>>, k: int) -> Option<Seq<char>> {
    if 0 <= k < t.len() {
        regex_group_one(ARGUMENT_PATTERN@, nul_to_space(t[k]))
    } else {
        None
    }
}

/// The `count` arguments that start at token `first`, if each is there and
/// has a value.
pub open spec fn execve_arguments(t: Seq<Seq<char>>, first: int, count: nat) -> Option<Seq<Seq<char>>> {
    if forall|k: int| 0 <= k < count ==> #[trigger] argument_value(t, first + k) is Some {
        Some(Seq::new(count, |k: int| argument_value(t, first + k)->0))
    } else {
        None
    }
}

/// The record after the PROCTITLE record at `i`: the title without its
/// first ten characters (`proctitle=`).
pub open spec fn proctitle_record(t: Seq<Seq<char>>, i: int, acc: ExecutionRecord) -> Option<ExecutionRecord> {
    if i + CONTENT < t.len() {
        Some(ExecutionRecord { proctitle: skip_upto(t[i + CONTENT], 10), ..acc })
    } else {
        None
    }
}

/// The executable's name: the last `/`-separated segment of the first argument.
/// The command: the arguments joined by spaces.
pub open spec fn execve_fields(acc: ExecutionRecord, args: Seq<Seq<char>>) -> ExecutionRecord {
    ExecutionRecord {
        exe: after_last(args[0], '/'),
        command: trimmed(spaced(args)),
        args: Some(args),
        ..acc
    }
}

/// The record after the EXECVE record at `i`: its content starts with
/// `argc=N`, followed by the `N` arguments.
pub open spec fn execve_record(t: Seq<Seq<char>>, i: int, acc: ExecutionRecord) -> Option<ExecutionRecord> {
    if i + CONTENT < t.len() {
        match parse_usize_spec(skip_upto(t[i + CONTENT], 5)) {
            Some(count) => if count >= 1 {
                match execve_arguments(t, i + CONTENT + 1, count as nat) {
                    Some(args) => Some(execve_fields(acc, args)),
                    None => None,
                }
            } else {
                None
            },
            None => None,
        }
    } else {
        None
    }
}

/// `&s[6..s.len() - 1]`: the value of a `name="value"` token.
pub open spec fn quoted_value(s: Seq<char>) -> Option<Seq<char>> {
    if byte_len(s) >= 1 {
        byte_slice(s, 6, byte_len(s) - 1)
    } else {
        None
    }
}

/// The record after the PATH record at `i`. Its content starts with
/// `item=N name="..."`; item 0 is the executed file, with its mode and its
/// owner, any other item is the loader.
pub open spec fn path_record(t: Seq<Seq<char>>, i: int, acc: ExecutionRecord) -> Option<ExecutionRecord> {
    let p = i + CONTENT;
    if p + 1 < t.len() {
        match (byte_slice_from(t[p], 5), quoted_value(t[p + 1])) {
            (Some(item), Some(name)) => if item != seq!['0'] {
                Some(ExecutionRecord { loader: name, ..acc })
            } else if p + PATH_OWNER < t.len() {
                match (byte_slice_from(t[p + PATH_PERMISSIONS], 5), quoted_value(t[p + PATH_OWNER])) {
                    (Some(mode), Some(owner)) => Some(
                        ExecutionRecord { binary: name, permissions: mode, owner: owner, ..acc },
                    ),
                    _ => None,
                }
            } else {
                None
            },
            _ => None,
        }
    } else {
        None
    }
}

/// The record after the CWD record at `i`: the byte range `5..6` of its
/// content token.
pub open spec fn cwd_record(t: Seq<Seq<char>>, i: int, acc: ExecutionRecord) -> Option<ExecutionRecord> {
    if i + CONTENT < t.len() {
        match byte_slice(t[i + CONTENT], 5, 6) {
            Some(cwd) => Some(ExecutionRecord { cwd: cwd, ..acc }),
            None => None,
        }
    } else {
        None
    }
}

/// The first token of `t` that starts with `p`.
pub open spec fn first_with_prefix(t: Seq<Seq<char>>, p: Seq<char>) -> Option<Seq<char>>
    decreases t.len(),
{
    if t.len() == 0 {
        None
    } else if has_prefix(t[0], p) {
        Some(t[0])
    } else {
        first_with_prefix(t.drop_first(), p)
    }
}

/// The record after a SYSCALL record: success is set, and the uid is the value
/// of the first `uid=` token of the whole event.
pub open spec fn syscall_record(t: Seq<Seq<char>>, acc: ExecutionRecord) -> Option<ExecutionRecord> {
    match first_with_prefix(t, UID_PREFIX@) {
        Some(u) => Some(ExecutionRecord { success: true, uid: u.skip(4), ..acc }),
        None => None,
    }
}

/// The record after the record whose `auditd:` token is at `i`; records of
/// other types leave it as it is.
pub open spec fn apply_record(t: Seq<Seq<char>>, i: int, acc: ExecutionRecord) -> Option<ExecutionRecord> {
    if i + 1 >= t.len() {
        None
    } else {
        let kind = t[i + 1];
        if kind == PROCTITLE@ {
            proctitle_record(t, i, acc)
        } else if kind == EXECVE@ {
            execve_record(t, i, acc)
        } else if kind == PATH@ {
            path_record(t, i, acc)
        } else if kind == CWD@ {
            cwd_record(t, i, acc)
        } else if kind == SYSCALL@ {
            syscall_record(t, acc)
        } else {
            Some(acc)
        }
    }
}

/// The record built from the records that start among the first `n` tokens.
pub open spec fn execution_upto(t: Seq<Seq<char>>, n: int) -> Option<ExecutionRecord>
    decreases n,
{
    if n <= 0 {
        Some(empty_execution())
    } else {
        match execution_upto(t, n - 1) {
            Some(acc) => if t[n - 1] == AUDITD@ {
                apply_record(t, n - 1, acc)
            } else {
                Some(acc)
            },
            None => None,
        }
    }
}

/// Whether an event has an EXECVE record.
pub open spec fn is_execution_event(t: Seq<Seq<char>>) -> bool {
    exists|k: int| 0 <= k < t.len() && has_infix(t[k], EXECVE@)
}

/// The auditd event of the tokens `t` (`Some(None)` for an event of no
/// supported kind), or `None` for a malformed event: a record cut short, a
/// count or an argument that cannot be read, a byte offset that is no
/// character boundary, an execution without `uid=`; or when the `regex` crate
/// refuses `ARGUMENT_PATTERN`.
pub open spec fn auditd_event(t: Seq<Seq<char>>) -> Option<Option<AuditdEvent>> {
    if !regex_compiles(ARGUMENT_PATTERN@) {
        None
    } else if is_execution_event(t) {
        match execution_upto(t, t.len() as int) {
            Some(r) => Some(Some(AuditdEvent::Execution(r))),
            None => None,
        }
    } else {
        Some(None)
    }
}

/// The model of an optional auditd event.
pub open spec fn event_view(o: Option<AuditdLogType>) -> Option<AuditdEvent> {
    match o {
        Some(e) => Some(e@),
        None => None,
    }
}


/// The model of an optional execution log.
pub open spec fn record_view(o: Option<AuditdExecutionLog>) -> Option<ExecutionRecord> {
    match o {
        Some(e) => Some(e@),
        None => None,
    }
}

/// Whether token `k` is `lit`.
fn token_is(tokens: &Vec<String>, k: usize, lit: &str) -> (r: bool)
    requires
        k < tokens@.len(),
    ensures
        r == (views(tokens@)[k as int] == lit@),
{
    same_text(tokens[k].as_str(), lit)
}

/// The executable's name and the command line of the arguments of an EXECVE
/// record: the last `/`-separated segment of the first argument, and the
/// arguments joined by single spaces.
pub fn execve_summary(args: &Vec<String>) -> (r: (String, String))
    requires
        args@.len() >= 1,
    ensures
        r.0@ == after_last(views(args@)[0], '/'),
        r.1@ == trimmed(spaced(views(args@))),
{
    let space = " ";
    proof {
        reveal_strlit(" ");
    }
    let mut command = String::new();
    let n = args.len();
    let mut k: usize = 0;
    while k < n
        invariant
            n == args@.len(),
            k <= n,
            space@ == seq![' '],
            command@ == spaced(views(args@).take(k as int)),
        decreases n - k,
    {
        proof {
            let w = views(args@).take(k + 1);
            assert(w.drop_last() =~= views(args@).take(k as int));
            assert(w.last() == args@[k as int]@);
        }
        command.append(args[k].as_str());
        command.append(space);
        k = k + 1;
    }
    proof {
        assert(views(args@).take(n as int) =~= views(args@));
    }
    let exe = last_segment(args[0].as_str(), '/');
    (exe, trim(command.as_str()))
}

/// The arguments of the EXECVE record at `i`.
fn execve_args(tokens: &Vec<String>, first: usize, count: usize) -> (r: Option<Vec<String>>)
    requires
        regex_compiles(ARGUMENT_PATTERN@),
    ensures
        match r {
            Some(a) => execve_arguments(views(tokens@), first as int, count as nat) == Some(views(a@)),
            None => execve_arguments(views(tokens@), first as int, count as nat) is None,
        },
{
    let ghost t = views(tokens@);
    let n = tokens.len();
    if count == 0 {
        let empty: Vec<String> = Vec::new();
        proof {
            assert(views(empty@) =~= Seq::new(0, |j: int| argument_value(t, first + j)->0));
        }
        return Some(empty);
    }
    if first > n || count > n - first {
        proof {
            let k = if first > n { 0 } else { n - first };
            assert(argument_value(t, first + k) is None);
        }
        return None;
    }
    let mut args: Vec<String> = Vec::new();
    let mut k: usize = 0;
    while k < count
        invariant
            n == tokens@.len(),
            t == views(tokens@),
            first + count <= n,
            k <= count,
            regex_compiles(ARGUMENT_PATTERN@),
            forall|j: int| 0 <= j < k ==> #[trigger] argument_value(t, first + j) is Some,
            views(args@) == Seq::new(k as nat, |j: int| argument_value(t, first + j)->0),
        decreases count - k,
    {
        let text = replace_nul(tokens[first + k].as_str());
        match regex_first_group(ARGUMENT_PATTERN, text.as_str()) {
            Some(v) => {
                let ghost before = views(args@);
                args.push(v);
                proof {
                    assert(argument_value(t, first + k) == Some(v@));
                    assert(views(args@) =~= before.push(v@));
                    assert(views(args@) =~= Seq::new((k + 1) as nat, |j: int| argument_value(t, first + j)->0));
                }
            },
            None => {
                proof {
                    assert(argument_value(t, first + k) is None);
                }
                return None;
            },
        }
        k = k + 1;
    }
    proof {
        assert(views(args@) =~= Seq::new(count as nat, |j: int| argument_value(t, first + j)->0));
    }
    Some(args)
}

/// `&s[6..s.len() - 1]`, or `None` where it panics.
fn quoted(s: &str) -> (r: Option<String>)
    ensures
        match r {
            Some(v) => quoted_value(s@) == Some(v@),
            None => quoted_value(s@) is None,
        },
{
    let len = byte_length(s);
    if len >= 1 {
        slice_bytes(s, 6, len - 1)
    } else {
        None
    }
}

/// The first token that starts with `p`.
fn find_with_prefix(tokens: &Vec<String>, p: &str) -> (r: Option<usize>)
    ensures
        match r {
            Some(k) => k < tokens@.len() && first_with_prefix(views(tokens@), p@) == Some(tokens@[k as int]@)
                && has_prefix(tokens@[k as int]@, p@),
            None => first_with_prefix(views(tokens@), p@) is None,
        },
{
    let ghost t = views(tokens@);
    let n = tokens.len();
    let mut k: usize = 0;
    proof {
        assert(t.skip(0) =~= t);
    }
    while k < n
        invariant
            n == tokens@.len(),
            t == views(tokens@),
            k <= n,
            first_with_prefix(t, p@) == first_with_prefix(t.skip(k as int), p@),
        decreases n - k,
    {
        proof {
            assert(t.skip(k as int).drop_first() =~= t.skip(k + 1));
            assert(t.skip(k as int)[0] == tokens@[k as int]@);
        }
        if starts_with(tokens[k].as_str(), p) {
            return Some(k);
        }
        k = k + 1;
    }
    proof {
        assert(t.skip(n as int).len() == 0);
    }
    None
}

/// Applies the record whose `auditd:` token is at `i` to `acc`.
fn apply_one(tokens: &Vec<String>, i: usize, acc: AuditdExecutionLog) -> (r: Option<AuditdExecutionLog>)
    requires
        i < tokens@.len(),
        regex_compiles(ARGUMENT_PATTERN@),
    ensures
        record_view(r) == apply_record(views(tokens@), i as int, acc@),
{
    let ghost t = views(tokens@);
    let n = tokens.len();
    let mut acc = acc;
    if i + 1 >= n {
        return None;
    }
    if token_is(tokens, i + 1, PROCTITLE) {
        if n - i <= CONTENT {
            return None;
        }
        acc.proctitle = skip_chars(tokens[i + CONTENT].as_str(), 10);
        Some(acc)
    } else if token_is(tokens, i + 1, EXECVE) {
        if n - i <= CONTENT {
            return None;
        }
        let count_text = skip_chars(tokens[i + CONTENT].as_str(), 5);
        let count = match parse_usize(count_text.as_str()) {
            Some(c) => c,
            None => return None,
        };
        if count < 1 {
            return None;
        }
        let args = match execve_args(tokens, i + CONTENT + 1, count) {
            Some(a) => a,
            None => return None,
        };
        let (exe, command) = execve_summary(&args);
        acc.exe = exe;
        acc.command = command;
        acc.args = Some(args);
        Some(acc)
    } else if token_is(tokens, i + 1, PATH) {
        if n - i <= CONTENT + 1 {
            return None;
        }
        let p = i + CONTENT;
        let item = match slice_bytes_from(tokens[p].as_str(), 5) {
            Some(v) => v,
            None => return None,
        };
        let name = match quoted(tokens[p + 1].as_str()) {
            Some(v) => v,
            None => return None,
        };
        let zero = "0";
        proof {
            reveal_strlit("0");
            assert(zero@ =~= seq!['0']);
        }
        if !same_text(item.as_str(), zero) {
            acc.loader = name;
            return Some(acc);
        }
        if n - p <= PATH_OWNER {
            return None;
        }
        let mode = match slice_bytes_from(tokens[p + PATH_PERMISSIONS].as_str(), 5) {
            Some(v) => v,
            None => return None,
        };
        let owner = match quoted(tokens[p + PATH_OWNER].as_str()) {
            Some(v) => v,
            None => return None,
        };
        acc.binary = name;
        acc.permissions = mode;
        acc.owner = owner;
        Some(acc)
    } else if token_is(tokens, i + 1, CWD) {
        if n - i <= CONTENT {
            return None;
        }
        match slice_bytes(tokens[i + CONTENT].as_str(), 5, 6) {
            Some(cwd) => {
                acc.cwd = cwd;
                Some(acc)
            },
            None => None,
        }
    } else if token_is(tokens, i + 1, SYSCALL) {
        match find_with_prefix(tokens, UID_PREFIX) {
            Some(k) => {
                proof {
                    reveal_strlit("uid=");
                    assert(UID_PREFIX@.len() == 4);
                }
                acc.success = true;
                acc.uid = skip_chars(tokens[k].as_str(), 4);
                Some(acc)
            },
            None => None,
        }
    } else {
        Some(acc)
    }
}

/// Once a record cannot be applied, the event cannot be built.
proof fn lemma_execution_upto_stays_none(t: Seq<Seq<char>>, m: int, n: int)
    requires
        m <= n,
        execution_upto(t, m) is None,
    ensures
        execution_upto(t, n) is None,
    decreases n - m,
{
    if m < n {
        lemma_execution_upto_stays_none(t, m, n - 1);
    }
}

/// The auditd event of the tokens of a complete event, or `None` where the
/// event is malformed (`Some(None)`: an event of no supported kind).
pub(crate) fn build_event(tokens: &Vec<String>) -> (r: Option<Option<AuditdLogType>>)
    ensures
        match r {
            Some(o) => auditd_event(views(tokens@)) == Some(event_view(o)),
            None => auditd_event(views(tokens@)) is None,
        },
{
    let ghost t = views(tokens@);
    if !regex_is_valid(ARGUMENT_PATTERN) {
        return None;
    }
    let n = tokens.len();
    let mut is_execution = false;
    let mut k: usize = 0;
    while k < n
        invariant
            n == tokens@.len(),
            t == views(tokens@),
            k <= n,
            is_execution == exists|j: int| 0 <= j < k && has_infix(t[j], EXECVE@),
        decreases n - k,
    {
        let found = contains(tokens[k].as_str(), EXECVE);
        proof {
            assert(t[k as int] == tokens@[k as int]@);
            if found {
                assert(has_infix(t[k as int], EXECVE@));
            }
        }
        if found {
            is_execution = true;
        }
        k = k + 1;
    }
    if !is_execution {
        return Some(None);
    }
    let mut acc = AuditdExecutionLog::default();
    let mut idx: usize = 0;
    while idx < n
        invariant
            n == tokens@.len(),
            t == views(tokens@),
            idx <= n,
            regex_compiles(ARGUMENT_PATTERN@),
            is_execution_event(t),
            execution_upto(t, idx as int) == Some(acc@),
        decreases n - idx,
    {
        if token_is(tokens, idx, AUDITD) {
            match apply_one(tokens, idx, acc) {
                Some(a) => {
                    acc = a;
                },
                None => {
                    proof {
                        lemma_execution_upto_stays_none(t, idx + 1, n as int);
                    }
                    return None;
                },
            }
        }
        idx = idx + 1;
    }
    Some(Some(AuditdLogType::Execution(acc)))
}

/// The auditd event of the tokens of a complete event (`None`: an event of no
/// supported kind).
pub fn auditd_log_organize(tokens: &Vec<String>) -> (r: Option<AuditdLogType>)
    requires
        auditd_event(views(tokens@)) is Some,
    ensures
        auditd_event(views(tokens@)) == Some(event_view(r)),
{
    build_event(tokens).unwrap()
}

/// `auditd_log_organize` on the events it accepts; `None` for a malformed
/// event (`Some(None)`: an event of no supported kind).
pub fn try_auditd_log_organize(tokens: &Vec<String>) -> (r: Option<Option<AuditdLogType>>)
    ensures
        match r {
            Some(o) => auditd_event(views(tokens@)) == Some(event_view(o)),
            None => auditd_event(views(tokens@)) is None,
        },
{
    if build_event(tokens).is_some() {
        Some(auditd_log_organize(tokens))
    } else {
        None
    }
}


/// The record types are told apart.
proof fn lemma_kinds_distinct()
    ensures
        PROCTITLE@ != EXECVE@,
        PROCTITLE@ != PATH@,
        EXECVE@ != PATH@,
        CWD@ != PATH@,
        CWD@ != EXECVE@,
        SYSCALL@ != PATH@,
        SYSCALL@ != EXECVE@,
{
    reveal_strlit("type=PROCTITLE");
    reveal_strlit("type=EXECVE");
    reveal_strlit("type=PATH");
    reveal_strlit("type=CWD");
    reveal_strlit("type=SYSCALL");
    assert(PROCTITLE@.len() != EXECVE@.len());
    assert(PROCTITLE@.len() != PATH@.len());
    assert(EXECVE@.len() != PATH@.len());
    assert(CWD@[5] != PATH@[5]);
    assert(CWD@.len() != EXECVE@.len());
    assert(SYSCALL@.len() != PATH@.len());
    assert(SYSCALL@.len() != EXECVE@.len());
}

/// A record of type `kind` starts at token `i`.
pub open spec fn record_at(t: Seq<Seq<char>>, i: int, kind: Seq<char>) -> bool {
    0 <= i && i + 1 < t.len() && t[i] == AUDITD@ && t[i + 1] == kind
}

/// A PATH record whose item is not 0 (a loader) starts at token `i`.
pub open spec fn loader_record_at(t: Seq<Seq<char>>, i: int) -> bool {
    &&& record_at(t, i, PATH@)
    &&& i + 4 < t.len()
    &&& byte_slice_from(t[i + 3], 5) is Some
    &&& byte_slice_from(t[i + 3], 5)->0 != seq!['0']
}

/// The loader of an event read up to token `n`: the name of the last loader
/// record before `n`, or empty when there is none.
pub open spec fn loader_law(t: Seq<Seq<char>>, n: int, loader: Seq<char>) -> bool {
    ||| exists|i: int| {
        &&& 0 <= i < n
        &&& #[trigger] loader_record_at(t, i)
        &&& forall|j: int| i < j < n ==> !loader_record_at(t, j)
        &&& Some(loader) == quoted_value(t[i + 4])
    }
    ||| (forall|j: int| 0 <= j < n ==> !loader_record_at(t, j)) && loader == Seq::<char>::empty()
}

/// What the EXECVE record at `i` gives: `argc=N` announces `N` arguments, and
/// the arguments are the values of the `N` tokens that follow, all of them,
/// in order; the command joins them by spaces, and the executable is the
/// last segment of the first.
pub open spec fn execve_law_at(t: Seq<Seq<char>>, i: int, r: ExecutionRecord) -> bool {
    &&& i + 3 < t.len()
    &&& parse_usize_spec(skip_upto(t[i + 3], 5)) is Some
    &&& r.args is Some
    &&& ({
        let n = parse_usize_spec(skip_upto(t[i + 3], 5))->0 as int;
        let a = r.args->0;
        &&& n >= 1
        &&& a.len() == n
        &&& i + 3 + n < t.len()
        &&& forall|k: int| 0 <= k < n ==> Some(#[trigger] a[k]) == regex_group_one(ARGUMENT_PATTERN@, nul_to_space(t[i + 4 + k]))
        &&& r.command == trimmed(spaced(a))
        &&& r.exe == after_last(a[0], '/')
    })
}

/// The arguments of an event read up to token `n`: those of its last EXECVE
/// record before `n`, or none (`null`) when there is none.
pub open spec fn execve_law(t: Seq<Seq<char>>, n: int, r: ExecutionRecord) -> bool {
    ||| exists|i: int| {
        &&& 0 <= i < n
        &&& #[trigger] record_at(t, i, EXECVE@)
        &&& forall|j: int| i < j < n ==> !record_at(t, j, EXECVE@)
        &&& execve_law_at(t, i, r)
    }
    ||| (forall|j: int| 0 <= j < n ==> !record_at(t, j, EXECVE@)) && r.args is None && r.exe
        == Seq::<char>::empty() && r.command == Seq::<char>::empty()
}

/// How one record changes the loader and the arguments.
proof fn lemma_apply_record_effect(t: Seq<Seq<char>>, i: int, acc: ExecutionRecord)
    requires
        0 <= i < t.len(),
        t[i] == AUDITD@,
        apply_record(t, i, acc) is Some,
    ensures
        ({
            let r = apply_record(t, i, acc)->0;
            &&& loader_record_at(t, i) ==> Some(r.loader) == quoted_value(t[i + 4])
            &&& !loader_record_at(t, i) ==> r.loader == acc.loader
            &&& record_at(t, i, EXECVE@) ==> execve_law_at(t, i, r)
            &&& !record_at(t, i, EXECVE@) ==> r.args == acc.args && r.exe == acc.exe && r.command
                == acc.command
        }),
{
    lemma_kinds_distinct();
    let r = apply_record(t, i, acc)->0;
    let kind = t[i + 1];
    if kind == EXECVE@ {
        let count = parse_usize_spec(skip_upto(t[i + 3], 5))->0;
        let args = execve_arguments(t, i + CONTENT + 1, count as nat)->0;
        assert forall|k: int| 0 <= k < count implies Some(#[trigger] args[k]) == regex_group_one(
            ARGUMENT_PATTERN@,
            nul_to_space(t[i + 4 + k]),
        ) by {
            assert(argument_value(t, i + CONTENT + 1 + k) is Some);
        }
        if count as int + i + 3 >= t.len() {
            let k = t.len() - i - 4;
            assert(argument_value(t, i + CONTENT + 1 + k) is Some);
        }
    }
}

/// The event's loader is the name of the last loader record: each PATH
/// record whose item is not 0 sets it, whatever was set before; with no such
/// record it stays empty.
proof fn lemma_loader_prefix(t: Seq<Seq<char>>, n: int)
    requires
        0 <= n <= t.len(),
        execution_upto(t, n) is Some,
    ensures
        loader_law(t, n, execution_upto(t, n)->0.loader),
    decreases n,
{
    if n > 0 {
        lemma_loader_prefix(t, n - 1);
        let acc = execution_upto(t, n - 1)->0;
        let r = execution_upto(t, n)->0;
        if t[n - 1] == AUDITD@ {
            lemma_apply_record_effect(t, n - 1, acc);
        }
        if loader_record_at(t, n - 1) {
            assert(loader_law(t, n, r.loader)) by {
                assert(forall|j: int| n - 1 < j < n ==> !loader_record_at(t, j));
            }
        } else {
            assert(r.loader == acc.loader);
            if exists|i: int| {
                &&& 0 <= i < n - 1
                &&& #[trigger] loader_record_at(t, i)
                &&& forall|j: int| i < j < n - 1 ==> !loader_record_at(t, j)
                &&& Some(acc.loader) == quoted_value(t[i + 4])
            } {
                let i = choose|i: int| {
                    &&& 0 <= i < n - 1
                    &&& #[trigger] loader_record_at(t, i)
                    &&& forall|j: int| i < j < n - 1 ==> !loader_record_at(t, j)
                    &&& Some(acc.loader) == quoted_value(t[i + 4])
                };
                assert(forall|j: int| i < j < n ==> !loader_record_at(t, j));
            }
        }
    }
}

/// The event's arguments are those of the last EXECVE record.
proof fn lemma_execve_prefix(t: Seq<Seq<char>>, n: int)
    requires
        0 <= n <= t.len(),
        execution_upto(t, n) is Some,
    ensures
        execve_law(t, n, execution_upto(t, n)->0),
    decreases n,
{
    if n > 0 {
        lemma_execve_prefix(t, n - 1);
        let acc = execution_upto(t, n - 1)->0;
        let r = execution_upto(t, n)->0;
        if t[n - 1] == AUDITD@ {
            lemma_apply_record_effect(t, n - 1, acc);
        }
        if record_at(t, n - 1, EXECVE@) {
            assert(execve_law(t, n, r)) by {
                assert(forall|j: int| n - 1 < j < n ==> !record_at(t, j, EXECVE@));
            }
        } else {
            assert(r.args == acc.args && r.exe == acc.exe && r.command == acc.command);
            if exists|i: int| {
                &&& 0 <= i < n - 1
                &&& #[trigger] record_at(t, i, EXECVE@)
                &&& forall|j: int| i < j < n - 1 ==> !record_at(t, j, EXECVE@)
                &&& execve_law_at(t, i, acc)
            } {
                let i = choose|i: int| {
                    &&& 0 <= i < n - 1
                    &&& #[trigger] record_at(t, i, EXECVE@)
                    &&& forall|j: int| i < j < n - 1 ==> !record_at(t, j, EXECVE@)
                    &&& execve_law_at(t, i, acc)
                };
                assert(forall|j: int| i < j < n ==> !record_at(t, j, EXECVE@));
                assert(execve_law_at(t, i, r));
            }
        }
    }
}

/// In an execution event, the loader is the name of the last PATH record
/// whose item is not 0 (each one overwrites the one before), or empty when
/// there is none.
pub proof fn law_loader_is_last_loader_record(t: Seq<Seq<char>>, r: ExecutionRecord)
    requires
        auditd_event(t) == Some(Some(AuditdEvent::Execution(r))),
    ensures
        loader_law(t, t.len() as int, r.loader),
{
    lemma_loader_prefix(t, t.len() as int);
}

/// In an execution event, the arguments are those of the last EXECVE
/// record: exactly as many as its `argc` announces, each the value of the
/// matching argument token, the command all of them joined by spaces; an
/// event without EXECVE record has none (`null`), no command and no
/// executable.
pub proof fn law_arguments_of_last_execve(t: Seq<Seq<char>>, r: ExecutionRecord)
    requires
        auditd_event(t) == Some(Some(AuditdEvent::Execution(r))),
    ensures
        execve_law(t, t.len() as int, r),
{
    lemma_execve_prefix(t, t.len() as int);
}

} // verus!

//! Framing of the byte stream of one agent into stamped log lines.

use vstd::prelude::*;
use crate::text::{views, signed_decimal, i64_to_decimal, substring, tokens_of, is_white_space, law_tokens_split_at_space, lemma_single_token, lemma_signed_decimal_clean};

verus! {

/// The pieces of `s` between the occurrences of `c` (one more piece than
/// there are occurrences).
pub open spec fn split_on(s: Seq<char>, c: char) -> Seq<Seq<char>>
    decreases s.len(),
{
    if s.len() == 0 {
        seq![seq![]]
    } else {
        let p = split_on(s.drop_last(), c);
        if s.last() == c {
            p.push(seq![])
        } else {
            p.update(p.len() - 1, p.last().push(s.last()))
        }
    }
}

/// The pieces `p`, with `c` between each two.
pub open spec fn join_with(p: Seq<Seq<char>>, c: char) -> Seq<char>
    decreases p.len(),
{
    if p.len() == 0 {
        seq![]
    } else if p.len() == 1 {
        p[0]
    } else {
        join_with(p.drop_last(), c) + seq![c] + p.last()
    }
}

/// Cuts the received text `buffer` into its complete lines (without their
/// `\n`) and the incomplete rest, which waits for the next bytes.
pub fn frame_lines(buffer: &str) -> (r: (Vec<String>, String))
    ensures
        views(r.0@) == split_on(buffer@, '\n').drop_last(),
        r.1@ == split_on(buffer@, '\n').last(),
{
    let n = buffer.unicode_len();
    let mut lines: Vec<String> = Vec::new();
    let mut start: usize = 0;
    let mut i: usize = 0;
    proof {
        assert(buffer@.take(0) =~= Seq::<char>::empty());
        assert(buffer@.subrange(0, 0) =~= Seq::<char>::empty());
        assert(views(lines@).push(Seq::<char>::empty()) =~= seq![Seq::<char>::empty()]);
    }
    while i < n
        invariant
            n == buffer@.len(),
            start <= i <= n,
            split_on(buffer@.take(i as int), '\n') == views(lines@).push(buffer@.subrange(start as int, i as int)),
        decreases n - i,
    {
        let c = buffer.get_char(i);
        proof {
            assert(buffer@.take(i + 1).drop_last() =~= buffer@.take(i as int));
            assert(buffer@.take(i + 1).last() == c);
        }
        let ghost before = views(lines@);
        if c == '\n' {
            let ghost s0 = start;
            let line = substring(buffer, start, i);
            lines.push(line);
            start = i + 1;
            proof {
                assert(views(lines@) =~= before.push(buffer@.subrange(s0 as int, i as int)));
                assert(buffer@.subrange(start as int, i + 1) =~= Seq::<char>::empty());
            }
        } else {
            proof {
                assert(buffer@.subrange(start as int, i + 1) =~= buffer@.subrange(start as int, i as int).push(c));
                assert(before.push(buffer@.subrange(start as int, i as int)).update(
                    before.len() as int,
                    buffer@.subrange(start as int, i + 1),
                ) =~= before.push(buffer@.subrange(start as int, i + 1)));
            }
        }
        i = i + 1;
    }
    proof {
        assert(buffer@.take(n as int) =~= buffer@);
        assert(views(lines@).push(buffer@.subrange(start as int, n as int)).drop_last() =~= views(lines@));
    }
    (lines, substring(buffer, start, n))
}

/// Appends a received chunk to the text left over from earlier reads and takes
/// the complete lines out of it; `leftover` keeps the incomplete rest.
pub fn frame_chunk(leftover: &mut String, chunk: &str) -> (r: Vec<String>)
    ensures
        views(r@) == split_on(old(leftover)@ + chunk@, '\n').drop_last(),
        final(leftover)@ == split_on(old(leftover)@ + chunk@, '\n').last(),
{
    leftover.append(chunk);
    let (lines, rest) = frame_lines(leftover.as_str());
    *leftover = rest;
    lines
}

/// The line handed on for a raw line `raw` received from `ip` at `unix_time`:
/// `ip unix_time raw`.
pub open spec fn stamped(ip: Seq<char>, unix_time: i64, raw: Seq<char>) -> Seq<char> {
    ip + seq![' '] + signed_decimal(unix_time as int) + seq![' '] + raw
}

/// Stamps a raw line with the address of its sender and the time it arrived.
pub fn stamp_line(ip: &str, unix_time: i64, raw: &str) -> (r: String)
    ensures
        r@ == stamped(ip@, unix_time, raw@),
{
    let space = " ";
    proof {
        reveal_strlit(" ");
    }
    let mut r = String::from_str(ip);
    r.append(space);
    let time = i64_to_decimal(unix_time);
    r.append(time.as_str());
    r.append(space);
    r.append(raw);
    proof {
        assert(r@ =~= stamped(ip@, unix_time, raw@));
    }
    r
}


proof fn lemma_join_last(p: Seq<Seq<char>>, c: char)
    requires
        p.len() > 1,
    ensures
        join_with(p, c) == join_with(p.drop_last(), c) + seq![c] + p.last(),
{
}

/// Framing loses nothing and adds nothing: the complete lines and the rest,
/// put back together with `\n` between them, are the received text; and no
/// line, nor the rest, holds a `\n`.
pub proof fn law_framing_roundtrip(s: Seq<char>)
    ensures
        split_on(s, '\n').len() >= 1,
        join_with(split_on(s, '\n'), '\n') == s,
        forall|i: int, j: int| 0 <= i < split_on(s, '\n').len() && 0 <= j < split_on(s, '\n')[i].len() ==> #[trigger] split_on(s, '\n')[i][j] != '\n',
    decreases s.len(),
{
    if s.len() == 0 {
        assert(join_with(seq![seq![]], '\n') == Seq::<char>::empty());
    } else {
        let d = s.drop_last();
        law_framing_roundtrip(d);
        let p = split_on(d, '\n');
        let q = split_on(s, '\n');
        let x = s.last();
        if x == '\n' {
            assert(q.drop_last() =~= p);
            lemma_join_last(q, '\n');
            assert(d + seq!['\n'] + Seq::<char>::empty() =~= s);
            assert forall|i: int, j: int| 0 <= i < q.len() && 0 <= j < q[i].len() implies #[trigger] q[i][j] != '\n' by {
                assert(q[i] == p[i]);
            }
        } else {
            let y = p.last().push(x);
            if p.len() > 1 {
                assert(q.drop_last() =~= p.drop_last());
                lemma_join_last(q, '\n');
                lemma_join_last(p, '\n');
                assert(join_with(p.drop_last(), '\n') + seq!['\n'] + y =~= (join_with(p.drop_last(), '\n') + seq!['\n'] + p.last()).push(x));
            } else {
                assert(q =~= seq![y]);
            }
            assert(d.push(x) =~= s);
            assert forall|i: int, j: int| 0 <= i < q.len() && 0 <= j < q[i].len() implies #[trigger] q[i][j] != '\n' by {
                if i < p.len() - 1 {
                    assert(q[i] == p[i]);
                } else if j < p.last().len() {
                    assert(q[i][j] == p[p.len() - 1][j]);
                }
            }
        }
    }
}

/// A text without `c` is a single piece.
proof fn lemma_split_without_separator(s: Seq<char>, c: char)
    requires
        forall|j: int| 0 <= j < s.len() ==> #[trigger] s[j] != c,
    ensures
        split_on(s, c) == seq![s],
    decreases s.len(),
{
    if s.len() > 0 {
        let d = s.drop_last();
        assert forall|j: int| 0 <= j < d.len() implies #[trigger] d[j] != c by {
            assert(d[j] == s[j]);
        }
        lemma_split_without_separator(d, c);
        assert(s[s.len() - 1] != c);
        assert(d.push(s.last()) =~= s);
        assert(seq![d].update(0, d.push(s.last())) =~= seq![s]);
    } else {
        assert(s =~= Seq::<char>::empty());
    }
}

/// Cutting `a + b` is cutting `a`, then cutting what was left of `a` followed by `b`.
proof fn lemma_split_resumes(a: Seq<char>, b: Seq<char>, c: char)
    requires
        forall|j: int| 0 <= j < split_on(a, c).last().len() ==> #[trigger] split_on(a, c).last()[j] != c,
    ensures
        split_on(a, c).len() >= 1,
        split_on(a + b, c) == split_on(a, c).drop_last() + split_on(split_on(a, c).last() + b, c),
    decreases b.len(),
{
    law_split_nonempty(a, c);
    let p = split_on(a, c);
    let r = p.last();
    if b.len() == 0 {
        lemma_split_without_separator(r, c);
        assert(a + b =~= a);
        assert(r + b =~= r);
        assert(p.drop_last() + seq![r] =~= p);
    } else {
        let b2 = b.drop_last();
        let x = b.last();
        lemma_split_resumes(a, b2, c);
        assert((a + b).drop_last() =~= a + b2);
        assert((a + b).last() == x);
        assert((r + b).drop_last() =~= r + b2);
        assert((r + b).last() == x);
        let l = p.drop_last();
        let q = split_on(r + b2, c);
        law_split_nonempty(r + b2, c);
        if x == c {
            assert((l + q).push(seq![]) =~= l + q.push(seq![]));
        } else {
            assert((l + q).update((l + q).len() - 1, (l + q).last().push(x)) =~= l + q.update(
                q.len() - 1,
                q.last().push(x),
            ));
        }
    }
}

/// There is always at least one piece.
pub proof fn law_split_nonempty(s: Seq<char>, c: char)
    ensures
        split_on(s, c).len() >= 1,
    decreases s.len(),
{
    if s.len() > 0 {
        law_split_nonempty(s.drop_last(), c);
    }
}

/// Framing does not depend on how the stream was cut into reads: framing the
/// first part `a`, then framing the rest it left followed by the next part
/// `b`, gives the lines of `a + b` framed at once, and the same rest.
pub proof fn law_framing_across_reads(a: Seq<char>, b: Seq<char>)
    ensures
        split_on(a + b, '\n').drop_last() == split_on(a, '\n').drop_last() + split_on(
            split_on(a, '\n').last() + b,
            '\n',
        ).drop_last(),
        split_on(a + b, '\n').last() == split_on(split_on(a, '\n').last() + b, '\n').last(),
{
    law_framing_roundtrip(a);
    let p = split_on(a, '\n');
    assert forall|j: int| 0 <= j < p.last().len() implies #[trigger] p.last()[j] != '\n' by {
        assert(p.last()[j] == p[p.len() - 1][j]);
    }
    lemma_split_resumes(a, b, '\n');
    let q = split_on(p.last() + b, '\n');
    law_split_nonempty(p.last() + b, '\n');
    assert((p.drop_last() + q).drop_last() =~= p.drop_last() + q.drop_last());
}

/// The text of the chunks `c`, one after the other.
pub open spec fn concat_all(c: Seq<Seq<char>>) -> Seq<char>
    decreases c.len(),
{
    if c.len() == 0 {
        seq![]
    } else {
        concat_all(c.drop_last()) + c.last()
    }
}

/// What framing the chunks `c` one read after the other yields: all the
/// complete lines handed on, and the rest left over, starting from nothing
/// left over (as `frame_chunk` does on each read).
pub open spec fn framed_reads(c: Seq<Seq<char>>) -> (Seq<Seq<char>>, Seq<char>)
    decreases c.len(),
{
    if c.len() == 0 {
        (seq![], seq![])
    } else {
        let (lines, rest) = framed_reads(c.drop_last());
        let p = split_on(rest + c.last(), '\n');
        (lines + p.drop_last(), p.last())
    }
}

/// However the stream is cut into reads, framing it read by read hands on
/// the same lines, in the same order, and leaves the same rest as framing the
/// whole stream at once: a line split across reads is handed on once, whole.
pub proof fn law_framing_any_chunking(c: Seq<Seq<char>>)
    ensures
        framed_reads(c).0 == split_on(concat_all(c), '\n').drop_last(),
        framed_reads(c).1 == split_on(concat_all(c), '\n').last(),
    decreases c.len(),
{
    if c.len() == 0 {
        assert(split_on(Seq::<char>::empty(), '\n') =~= seq![Seq::<char>::empty()]);
        assert(seq![Seq::<char>::empty()].drop_last() =~= Seq::<Seq<char>>::empty());
    } else {
        let d = c.drop_last();
        law_framing_any_chunking(d);
        let a = concat_all(d);
        law_framing_across_reads(a, c.last());
        assert((split_on(a, '\n').drop_last() + split_on(split_on(a, '\n').last() + c.last(), '\n').drop_last())
            == split_on(a + c.last(), '\n').drop_last());
    }
}

/// The first two tokens of a stamped line are the sender's address and the
/// arrival time; the raw line's tokens follow.
pub proof fn law_stamped_tokens(ip: Seq<char>, unix_time: i64, raw: Seq<char>)
    requires
        ip.len() > 0,
        forall|j: int| 0 <= j < ip.len() ==> !is_white_space(#[trigger] ip[j]),
    ensures
        tokens_of(stamped(ip, unix_time, raw)) == seq![ip, signed_decimal(unix_time as int)] + tokens_of(raw),
{
    let t = signed_decimal(unix_time as int);
    lemma_signed_decimal_clean(unix_time as int);
    let rest = t + seq![' '] + raw;
    assert(stamped(ip, unix_time, raw) =~= ip + seq![' '] + rest);
    law_tokens_split_at_space(ip, rest);
    law_tokens_split_at_space(t, raw);
    lemma_single_token(ip);
    lemma_single_token(t);
    assert(seq![ip] + (seq![t] + tokens_of(raw)) =~= seq![ip, t] + tokens_of(raw));
}

} // verus!

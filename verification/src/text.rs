//! Character-level text primitives with their mathematical models.

use vstd::prelude::*;

verus! {

/// The Unicode `White_Space` property, which is what `char::is_whitespace`
/// and `str::split_whitespace` use.
pub open spec fn is_white_space(c: char) -> bool {
    ||| ('\u{9}' <= c && c <= '\u{d}')
    ||| c == ' '
    ||| c == '\u{85}'
    ||| c == '\u{a0}'
    ||| c == '\u{1680}'
    ||| ('\u{2000}' <= c && c <= '\u{200a}')
    ||| c == '\u{2028}'
    ||| c == '\u{2029}'
    ||| c == '\u{202f}'
    ||| c == '\u{205f}'
    ||| c == '\u{3000}'
}

/// Decides `is_white_space`.
pub fn white_space(c: char) -> (r: bool)
    ensures
        r == is_white_space(c),
{
    ('\u{9}' <= c && c <= '\u{d}') || c == ' ' || c == '\u{85}' || c == '\u{a0}' || c
        == '\u{1680}' || ('\u{2000}' <= c && c <= '\u{200a}') || c == '\u{2028}' || c
        == '\u{2029}' || c == '\u{202f}' || c == '\u{205f}' || c == '\u{3000}'
}

/// The state of a left-to-right scan that cuts `s` at white space: the tokens
/// already closed, and the (possibly empty) token being read.
pub open spec fn scan_tokens(s: Seq<char>) -> (Seq<Seq<char>>, Seq<char>)
    decreases s.len(),
{
    if s.len() == 0 {
        (seq![], seq![])
    } else {
        let (done, cur) = scan_tokens(s.drop_last());
        if is_white_space(s.last()) {
            if cur.len() > 0 {
                (done.push(cur), seq![])
            } else {
                (done, seq![])
            }
        } else {
            (done, cur.push(s.last()))
        }
    }
}

/// The maximal runs of non-white-space characters of `s`, in order
/// (what `str::split_whitespace` yields).
pub open spec fn tokens_of(s: Seq<char>) -> Seq<Seq<char>> {
    let (done, cur) = scan_tokens(s);
    if cur.len() > 0 {
        done.push(cur)
    } else {
        done
    }
}

/// The views of a vector of strings.
pub open spec fn views(v: Seq<String>) -> Seq<Seq<char>> {
    Seq::new(v.len(), |i: int| v[i]@)
}

/// Owned copy of the characters `from..to` of `s`.
pub fn substring(s: &str, from: usize, to: usize) -> (r: String)
    requires
        from <= to <= s@.len(),
    ensures
        r@ == s@.subrange(from as int, to as int),
{
    String::from_str(s.substring_char(from, to))
}

/// Cuts `s` into its white-space separated tokens.
pub fn split_whitespace(s: &str) -> (r: Vec<String>)
    ensures
        views(r@) == tokens_of(s@),
{
    let n = s.unicode_len();
    let mut done: Vec<String> = Vec::new();
    let mut start: usize = 0;
    let mut i: usize = 0;
    while i < n
        invariant
            n == s@.len(),
            start <= i <= n,
            scan_tokens(s@.take(i as int)) == (views(done@), s@.subrange(start as int, i as int)),
        decreases n - i,
    {
        let c = s.get_char(i);
        proof {
            assert(s@.take(i + 1).drop_last() =~= s@.take(i as int));
            assert(s@.take(i + 1).last() == c);
        }
        if white_space(c) {
            if start < i {
                let piece = substring(s, start, i);
                let ghost old_done = done@;
                done.push(piece);
                proof {
                    assert(views(done@) =~= views(old_done).push(s@.subrange(start as int, i as int)));
                }
            }
            start = i + 1;
            proof {
                assert(s@.subrange(start as int, i + 1) =~= Seq::<char>::empty());
            }
        } else {
            proof {
                assert(s@.subrange(start as int, i + 1) =~= s@.subrange(start as int, i as int).push(c));
            }
        }
        i = i + 1;
    }
    proof {
        assert(s@.take(n as int) =~= s@);
    }
    if start < n {
        let piece = substring(s, start, n);
        let ghost old_done = done@;
        done.push(piece);
        proof {
            assert(views(done@) =~= views(old_done).push(s@.subrange(start as int, n as int)));
        }
    }
    done
}


/// An ASCII decimal digit.
pub open spec fn is_digit(c: char) -> bool {
    '0' <= c && c <= '9'
}

pub open spec fn all_digits(s: Seq<char>) -> bool {
    forall|i: int| 0 <= i < s.len() ==> #[trigger] is_digit(s[i])
}

pub open spec fn digit_value(c: char) -> nat {
    (c as int - '0' as int) as nat
}

/// The number written by the decimal digits `s` (most significant first).
pub open spec fn digits_value(s: Seq<char>) -> nat
    decreases s.len(),
{
    if s.len() == 0 {
        0
    } else {
        digits_value(s.drop_last()) * 10 + digit_value(s.last())
    }
}

/// The digits of an unsigned decimal literal as `str::parse` accepts it:
/// an optional `+`, then at least one digit.
pub open spec fn unsigned_body(s: Seq<char>) -> Seq<char> {
    if s.len() > 0 && s[0] == '+' {
        s.drop_first()
    } else {
        s
    }
}

/// What `str::parse::<usize>` returns.
pub open spec fn parse_usize_spec(s: Seq<char>) -> Option<usize> {
    let body = unsigned_body(s);
    if body.len() > 0 && all_digits(body) && digits_value(body) <= usize::MAX {
        Some(digits_value(body) as usize)
    } else {
        None
    }
}

/// The digits of a signed decimal literal: an optional `+` or `-` is removed.
pub open spec fn signed_body(s: Seq<char>) -> Seq<char> {
    if s.len() > 0 && (s[0] == '+' || s[0] == '-') {
        s.drop_first()
    } else {
        s
    }
}

pub open spec fn is_negative_literal(s: Seq<char>) -> bool {
    s.len() > 0 && s[0] == '-'
}

/// The value of a signed decimal literal whose body is well formed.
pub open spec fn signed_value(s: Seq<char>) -> int {
    if is_negative_literal(s) {
        -digits_value(signed_body(s))
    } else {
        digits_value(signed_body(s)) as int
    }
}

/// What `str::parse::<i32>` returns.
pub open spec fn parse_i32_spec(s: Seq<char>) -> Option<i32> {
    let body = signed_body(s);
    if body.len() > 0 && all_digits(body) && i32::MIN <= signed_value(s) <= i32::MAX {
        Some(signed_value(s) as i32)
    } else {
        None
    }
}

/// The value of the digits `s[from..]` when they are all digits, at least one,
/// and their value is at most `limit`.
fn digits_upto(s: &str, from: usize, limit: u64) -> (r: Option<u64>)
    requires
        from <= s@.len(),
    ensures
        ({
            let body = s@.skip(from as int);
            match r {
                Some(v) => body.len() > 0 && all_digits(body) && v == digits_value(body) && v
                    <= limit,
                None => !(body.len() > 0 && all_digits(body) && digits_value(body) <= limit),
            }
        }),
{
    let n = s.unicode_len();
    if from == n {
        return None;
    }
    let mut value: u64 = 0;
    let mut over = false;
    let mut i = from;
    while i < n
        invariant
            n == s@.len(),
            from <= i <= n,
            all_digits(s@.subrange(from as int, i as int)),
            over ==> digits_value(s@.subrange(from as int, i as int)) > limit,
            !over ==> value == digits_value(s@.subrange(from as int, i as int)) && value <= limit,
        decreases n - i,
    {
        let c = s.get_char(i);
        let ghost prev = s@.subrange(from as int, i as int);
        let ghost next = s@.subrange(from as int, i + 1);
        proof {
            assert(next.drop_last() =~= prev);
            assert(next.last() == c);
        }
        if !('0' <= c && c <= '9') {
            proof {
                let body = s@.skip(from as int);
                assert(body[i - from] == c);
                assert(!is_digit(body[i - from]));
            }
            return None;
        }
        let d = (c as u32 - '0' as u32) as u64;
        if !over {
            let nv: u128 = value as u128 * 10 + d as u128;
            if nv > limit as u128 {
                over = true;
            } else {
                value = nv as u64;
            }
        }
        proof {
            assert forall|k: int| 0 <= k < next.len() implies #[trigger] is_digit(next[k]) by {
                if k < prev.len() {
                    assert(next[k] == prev[k]);
                }
            }
        }
        i = i + 1;
    }
    proof {
        assert(s@.subrange(from as int, n as int) =~= s@.skip(from as int));
    }
    if over {
        None
    } else {
        Some(value)
    }
}

/// `str::parse::<usize>`.
pub fn parse_usize(s: &str) -> (r: Option<usize>)
    ensures
        r == parse_usize_spec(s@),
{
    let n = s.unicode_len();
    let from: usize = if n > 0 && s.get_char(0) == '+' {
        1
    } else {
        0
    };
    proof {
        assert(s@.skip(from as int) =~= unsigned_body(s@));
    }
    match digits_upto(s, from, usize::MAX as u64) {
        Some(v) => Some(v as usize),
        None => None,
    }
}

/// `str::parse::<i32>`.
pub fn parse_i32(s: &str) -> (r: Option<i32>)
    ensures
        r == parse_i32_spec(s@),
{
    let n = s.unicode_len();
    let negative = n > 0 && s.get_char(0) == '-';
    let from: usize = if n > 0 && (s.get_char(0) == '+' || s.get_char(0) == '-') {
        1
    } else {
        0
    };
    proof {
        assert(s@.skip(from as int) =~= signed_body(s@));
    }
    let limit: u64 = if negative {
        2147483648
    } else {
        2147483647
    };
    match digits_upto(s, from, limit) {
        Some(v) => {
            if negative {
                Some((0 - v as i64) as i32)
            } else {
                Some(v as i32)
            }
        },
        None => None,
    }
}


/// The character of the decimal digit `d`.
pub open spec fn digit_char(d: nat) -> char {
    (d + 48) as char
}

/// The decimal representation of `n`, without leading zeros.
pub open spec fn decimal(n: nat) -> Seq<char>
    decreases n,
{
    if n < 10 {
        seq![digit_char(n)]
    } else {
        decimal(n / 10).push(digit_char(n % 10))
    }
}

/// The decimal representation of a signed number (`-` before a negative one).
pub open spec fn signed_decimal(n: int) -> Seq<char> {
    if n < 0 {
        seq!['-'] + decimal((-n) as nat)
    } else {
        decimal(n as nat)
    }
}

/// A decimal representation is a non-empty run of digits worth `n`.
pub proof fn lemma_decimal_digits(n: nat)
    ensures
        decimal(n).len() > 0,
        all_digits(decimal(n)),
        digits_value(decimal(n)) == n,
        decimal(n)[0] != '+' && decimal(n)[0] != '-',
    decreases n,
{
    if n >= 10 {
        lemma_decimal_digits(n / 10);
        let d = decimal(n);
        assert(d.drop_last() =~= decimal(n / 10));
        assert forall|i: int| 0 <= i < d.len() implies #[trigger] is_digit(d[i]) by {
            if i < d.len() - 1 {
                assert(d[i] == decimal(n / 10)[i]);
            }
        }
        assert(d[0] == decimal(n / 10)[0]);
        assert(digit_value(digit_char((n % 10) as nat)) == n % 10);
        assert(n == (n / 10) * 10 + n % 10) by (nonlinear_arith);
        assert(d.last() == digit_char((n % 10) as nat));
        assert(digits_value(d) == digits_value(decimal(n / 10)) * 10 + n % 10);
    } else {
        let d = decimal(n);
        assert(d.drop_last() =~= Seq::<char>::empty());
        assert(digit_value(digit_char(n)) == n);
        assert(d.last() == digit_char(n));
        assert(digits_value(d) == digits_value(d.drop_last()) * 10 + digit_value(d.last()));
    }
}

/// The string of the one digit `d`.
fn digit_str(d: u8) -> (r: &'static str)
    requires
        d < 10,
    ensures
        r@ == seq![digit_char(d as nat)],
{
    let all = "0123456789";
    proof {
        reveal_strlit("0123456789");
    }
    let r = all.substring_char(d as usize, d as usize + 1);
    proof {
        assert(r@ =~= seq![all@[d as int]]);
    }
    r
}

/// `n.to_string()` for a `u128`.
pub fn u128_to_decimal(n: u128) -> (r: String)
    ensures
        r@ == decimal(n as nat),
    decreases n,
{
    if n < 10 {
        String::from_str(digit_str(n as u8))
    } else {
        let mut r = u128_to_decimal(n / 10);
        r.append(digit_str((n % 10) as u8));
        r
    }
}

/// `n.to_string()` for an `i64`.
pub fn i64_to_decimal(n: i64) -> (r: String)
    ensures
        r@ == signed_decimal(n as int),
{
    if n < 0 {
        let magnitude: u128 = (0 - n as i128) as u128;
        let digits = u128_to_decimal(magnitude);
        let mut r = String::from_str("-");
        proof {
            reveal_strlit("-");
        }
        r.append(digits.as_str());
        r
    } else {
        u128_to_decimal(n as u128)
    }
}


/// The number of bytes of the UTF-8 encoding of `c`.
pub open spec fn utf8_width(c: char) -> nat {
    if (c as u32) < 0x80 {
        1
    } else if (c as u32) < 0x800 {
        2
    } else if (c as u32) < 0x10000 {
        3
    } else {
        4
    }
}

/// The number of bytes of the UTF-8 encoding of `s` (what `str::len` returns).
pub open spec fn byte_len(s: Seq<char>) -> nat
    decreases s.len(),
{
    if s.len() == 0 {
        0
    } else {
        utf8_width(s[0]) + byte_len(s.drop_first())
    }
}

/// `byte_len` is the length of the UTF-8 encoding that vstd gives a string.
pub proof fn law_byte_len_is_encoding_length(s: Seq<char>)
    ensures
        byte_len(s) == vstd::utf8::encode_utf8(s).len(),
    decreases s.len(),
{
    if s.len() > 0 {
        law_byte_len_is_encoding_length(s.drop_first());
        vstd::utf8::char_is_scalar(s[0]);
    }
}

proof fn lemma_boundary_within(s: Seq<char>, b: int)
    ensures
        boundary_index(s, b) is Some ==> 0 <= b <= byte_len(s),
    decreases s.len(),
{
    if b != 0 && b >= 0 && s.len() > 0 {
        lemma_boundary_within(s.drop_first(), b - utf8_width(s[0]));
    }
}

/// A byte offset has a character index exactly when vstd's UTF-8 model calls
/// it a character boundary of the encoding.
pub proof fn law_boundary_is_char_boundary(s: Seq<char>, b: int)
    ensures
        (boundary_index(s, b) is Some) == vstd::utf8::is_char_boundary(vstd::utf8::encode_utf8(s), b),
    decreases s.len(),
{
    let bytes = vstd::utf8::encode_utf8(s);
    vstd::utf8::encode_utf8_valid_utf8(s);
    law_byte_len_is_encoding_length(s);
    if b != 0 && b >= 0 && s.len() > 0 {
        let w = utf8_width(s[0]);
        law_boundary_is_char_boundary(s.drop_first(), b - w);
        vstd::utf8::encode_utf8_first_scalar(s);
        vstd::utf8::char_is_scalar(s[0]);
        assert(vstd::utf8::pop_first_scalar(bytes) =~= vstd::utf8::encode_utf8(s.drop_first()));
        lemma_boundary_within(s.drop_first(), b - w);
        law_byte_len_is_encoding_length(s.drop_first());
    }
}

/// The index of the character that starts at byte offset `b` of `s` (or `s.len()`
/// when `b` is the end of `s`), if `b` is a character boundary of `s`.
pub open spec fn boundary_index(s: Seq<char>, b: int) -> Option<int>
    decreases s.len(),
{
    if b == 0 {
        Some(0)
    } else if b < 0 || s.len() == 0 {
        None
    } else {
        match boundary_index(s.drop_first(), b - utf8_width(s[0])) {
            Some(k) => Some(k + 1),
            None => None,
        }
    }
}

/// The byte range `a..b` of `s`, as `&s[a..b]` gives it; `None` where that
/// expression panics (an offset that is no character boundary, or `a > b`).
pub open spec fn byte_slice(s: Seq<char>, a: int, b: int) -> Option<Seq<char>> {
    match (boundary_index(s, a), boundary_index(s, b)) {
        (Some(i), Some(j)) => if i <= j {
            Some(s.subrange(i, j))
        } else {
            None
        },
        _ => None,
    }
}

/// `&s[a..]`.
pub open spec fn byte_slice_from(s: Seq<char>, a: int) -> Option<Seq<char>> {
    byte_slice(s, a, byte_len(s) as int)
}

pub open spec fn shift(o: Option<int>, k: int) -> Option<int> {
    match o {
        Some(x) => Some(x + k),
        None => None,
    }
}

fn char_width(c: char) -> (r: u8)
    ensures
        r == utf8_width(c),
{
    if (c as u32) < 0x80 {
        1
    } else if (c as u32) < 0x800 {
        2
    } else if (c as u32) < 0x10000 {
        3
    } else {
        4
    }
}

/// `s.len()`: the byte length of `s` (as a `u128`, which always holds it).
pub fn byte_length(s: &str) -> (r: u128)
    ensures
        r == byte_len(s@),
{
    let n = s.unicode_len();
    let mut k: usize = n;
    let mut acc: u128 = 0;
    proof {
        assert(s@.skip(n as int) =~= Seq::<char>::empty());
    }
    while k > 0
        invariant
            n == s@.len(),
            k <= n,
            acc == byte_len(s@.skip(k as int)),
            acc <= 4 * (n - k),
        decreases k,
    {
        let c = s.get_char(k - 1);
        proof {
            assert(s@.skip(k - 1).drop_first() =~= s@.skip(k as int));
        }
        acc = acc + char_width(c) as u128;
        k = k - 1;
    }
    proof {
        assert(s@.skip(0) =~= s@);
    }
    acc
}

/// The character index at byte offset `b` of `s`, if `b` is a character boundary.
fn char_index_at_byte(s: &str, b: u128) -> (r: Option<usize>)
    ensures
        match r {
            Some(k) => boundary_index(s@, b as int) == Some(k as int),
            None => boundary_index(s@, b as int) is None,
        },
{
    let n = s.unicode_len();
    let mut k: usize = 0;
    let mut acc: u128 = 0;
    proof {
        assert(s@.skip(0) =~= s@);
    }
    while acc < b && k < n
        invariant
            n == s@.len(),
            k <= n,
            acc <= 4 * k,
            boundary_index(s@, b as int) == shift(boundary_index(s@.skip(k as int), b - acc), k as int),
        decreases n - k,
    {
        let c = s.get_char(k);
        let w = char_width(c);
        proof {
            let rest = s@.skip(k as int);
            assert(rest.drop_first() =~= s@.skip(k + 1));
            assert(rest[0] == c);
        }
        acc = acc + w as u128;
        k = k + 1;
    }
    if acc == b {
        Some(k)
    } else {
        None
    }
}

/// `&s[a..b]` as an owned string, or `None` where that expression panics.
pub fn slice_bytes(s: &str, a: u128, b: u128) -> (r: Option<String>)
    ensures
        match r {
            Some(t) => byte_slice(s@, a as int, b as int) == Some(t@),
            None => byte_slice(s@, a as int, b as int) is None,
        },
{
    match (char_index_at_byte(s, a), char_index_at_byte(s, b)) {
        (Some(i), Some(j)) => {
            proof {
                lemma_boundary_index_bound(s@, a as int);
                lemma_boundary_index_bound(s@, b as int);
            }
            if i <= j {
                Some(substring(s, i, j))
            } else {
                None
            }
        },
        _ => None,
    }
}

/// A boundary index lies within the string.
pub proof fn lemma_boundary_index_bound(s: Seq<char>, b: int)
    ensures
        boundary_index(s, b) matches Some(k) ==> 0 <= k <= s.len(),
    decreases s.len(),
{
    if b != 0 && b >= 0 && s.len() > 0 {
        lemma_boundary_index_bound(s.drop_first(), b - utf8_width(s[0]));
    }
}

/// `&s[a..]` as an owned string, or `None` where that expression panics.
pub fn slice_bytes_from(s: &str, a: u128) -> (r: Option<String>)
    ensures
        match r {
            Some(t) => byte_slice_from(s@, a as int) == Some(t@),
            None => byte_slice_from(s@, a as int) is None,
        },
{
    slice_bytes(s, a, byte_length(s))
}


/// `p` occurs in `s` at character index `i`.
pub open spec fn occurs_at(s: Seq<char>, p: Seq<char>, i: int) -> bool {
    0 <= i && i + p.len() <= s.len() && s.subrange(i, i + p.len()) == p
}

/// `s.starts_with(p)`.
pub open spec fn has_prefix(s: Seq<char>, p: Seq<char>) -> bool {
    occurs_at(s, p, 0)
}

/// `s.contains(p)`.
pub open spec fn has_infix(s: Seq<char>, p: Seq<char>) -> bool {
    exists|i: int| occurs_at(s, p, i)
}

/// Decides `occurs_at(s@, p@, i)`.
pub fn matches_at(s: &str, p: &str, i: usize) -> (r: bool)
    ensures
        r == occurs_at(s@, p@, i as int),
{
    let n = s.unicode_len();
    let m = p.unicode_len();
    if i > n || m > n - i {
        return false;
    }
    let mut j: usize = 0;
    while j < m
        invariant
            n == s@.len(),
            m == p@.len(),
            i + m <= n,
            j <= m,
            forall|k: int| 0 <= k < j ==> s@[i + k] == p@[k],
        decreases m - j,
    {
        if s.get_char(i + j) != p.get_char(j) {
            proof {
                assert(s@.subrange(i as int, i + m)[j as int] != p@[j as int]);
            }
            return false;
        }
        j = j + 1;
    }
    proof {
        assert(s@.subrange(i as int, i + m) =~= p@);
    }
    true
}

/// `s.starts_with(p)`.
pub fn starts_with(s: &str, p: &str) -> (r: bool)
    ensures
        r == has_prefix(s@, p@),
{
    matches_at(s, p, 0)
}

/// `s == p`.
pub fn same_text(s: &str, p: &str) -> (r: bool)
    ensures
        r == (s@ == p@),
{
    let r = s.unicode_len() == p.unicode_len() && matches_at(s, p, 0);
    proof {
        if r {
            assert(s@.subrange(0, p@.len() as int) =~= s@);
        }
        if s@ == p@ {
            assert(s@.subrange(0, p@.len() as int) =~= p@);
        }
    }
    r
}

/// `s.contains(p)`.
pub fn contains(s: &str, p: &str) -> (r: bool)
    ensures
        r == has_infix(s@, p@),
{
    let n = s.unicode_len();
    let mut i: usize = 0;
    while i < n
        invariant
            n == s@.len(),
            i <= n,
            forall|k: int| 0 <= k < i ==> !occurs_at(s@, p@, k),
        decreases n - i,
    {
        if matches_at(s, p, i) {
            return true;
        }
        i = i + 1;
    }
    if matches_at(s, p, n) {
        return true;
    }
    proof {
        assert forall|k: int| !occurs_at(s@, p@, k) by {
            if 0 <= k < n {
            }
        }
    }
    false
}

/// `s` without its first `k` characters (empty when it has fewer).
pub open spec fn skip_upto(s: Seq<char>, k: int) -> Seq<char> {
    s.skip(if k <= s.len() { k } else { s.len() as int })
}

/// `s.chars().skip(k).collect::<String>()`.
pub fn skip_chars(s: &str, k: usize) -> (r: String)
    ensures
        r@ == skip_upto(s@, k as int),
{
    let n = s.unicode_len();
    let from = if k <= n {
        k
    } else {
        n
    };
    let r = substring(s, from, n);
    proof {
        assert(s@.subrange(from as int, n as int) =~= s@.skip(from as int));
    }
    r
}

/// `s` without its leading white space.
pub open spec fn trim_start(s: Seq<char>) -> Seq<char>
    decreases s.len(),
{
    if s.len() > 0 && is_white_space(s[0]) {
        trim_start(s.drop_first())
    } else {
        s
    }
}

/// `s` without its trailing white space.
pub open spec fn trim_end(s: Seq<char>) -> Seq<char>
    decreases s.len(),
{
    if s.len() > 0 && is_white_space(s.last()) {
        trim_end(s.drop_last())
    } else {
        s
    }
}

/// `s.trim()`.
pub open spec fn trimmed(s: Seq<char>) -> Seq<char> {
    trim_end(trim_start(s))
}

/// `s.trim()` as an owned string.
pub fn trim(s: &str) -> (r: String)
    ensures
        r@ == trimmed(s@),
{
    let n = s.unicode_len();
    let mut a: usize = 0;
    proof {
        assert(s@.subrange(0, n as int) =~= s@);
    }
    while a < n && white_space(s.get_char(a))
        invariant
            n == s@.len(),
            a <= n,
            trim_start(s@) == trim_start(s@.subrange(a as int, n as int)),
        decreases n - a,
    {
        proof {
            assert(s@.subrange(a as int, n as int).drop_first() =~= s@.subrange(a + 1, n as int));
        }
        a = a + 1;
    }
    proof {
        if a < n {
            assert(s@.subrange(a as int, n as int)[0] == s@[a as int]);
        }
        assert(trim_start(s@) == s@.subrange(a as int, n as int));
    }
    let mut b: usize = n;
    while b > a && white_space(s.get_char(b - 1))
        invariant
            n == s@.len(),
            a <= b <= n,
            trimmed(s@) == trim_end(s@.subrange(a as int, b as int)),
        decreases b,
    {
        proof {
            assert(s@.subrange(a as int, b as int).drop_last() =~= s@.subrange(a as int, b - 1));
        }
        b = b - 1;
    }
    proof {
        if b > a {
            assert(s@.subrange(a as int, b as int).last() == s@[b - 1]);
        }
        assert(trim_end(s@.subrange(a as int, b as int)) == s@.subrange(a as int, b as int));
    }
    substring(s, a, b)
}

/// The part of `s` after the last occurrence of `c` (all of `s` when `c` does
/// not occur): what `s.rsplit(c).next()` yields.
pub open spec fn after_last(s: Seq<char>, c: char) -> Seq<char>
    decreases s.len(),
{
    if s.len() == 0 {
        s
    } else if s.last() == c {
        seq![]
    } else {
        after_last(s.drop_last(), c).push(s.last())
    }
}

/// `s.rsplit(c).next().unwrap()` as an owned string.
pub fn last_segment(s: &str, c: char) -> (r: String)
    ensures
        r@ == after_last(s@, c),
{
    let n = s.unicode_len();
    let mut j: usize = n;
    proof {
        assert(s@.subrange(n as int, n as int) =~= Seq::<char>::empty());
        assert(s@.take(n as int) =~= s@);
    }
    while j > 0 && s.get_char(j - 1) != c
        invariant
            n == s@.len(),
            j <= n,
            after_last(s@, c) == after_last(s@.take(j as int), c) + s@.subrange(j as int, n as int),
        decreases j,
    {
        proof {
            let t = s@.take(j as int);
            assert(t.drop_last() =~= s@.take(j - 1));
            assert(s@.subrange(j - 1, n as int) =~= seq![t.last()] + s@.subrange(j as int, n as int));
            assert(after_last(t, c) == after_last(s@.take(j - 1), c).push(t.last()));
            assert(after_last(s@.take(j - 1), c).push(t.last()) + s@.subrange(j as int, n as int)
                =~= after_last(s@.take(j - 1), c) + s@.subrange(j - 1, n as int));
        }
        j = j - 1;
    }
    proof {
        if j == 0 {
            assert(s@.take(0) =~= Seq::<char>::empty());
        } else {
            assert(s@.take(j as int).last() == c);
        }
        assert(Seq::<char>::empty() + s@.subrange(j as int, n as int) =~= s@.subrange(j as int, n as int));
    }
    substring(s, j, n)
}

/// `s.replace('\0', " ")`.
pub open spec fn nul_to_space(s: Seq<char>) -> Seq<char> {
    Seq::new(s.len(), |i: int| if s[i] == '\0' { ' ' } else { s[i] })
}

/// `s.replace('\0', " ")` as an owned string.
pub fn replace_nul(s: &str) -> (r: String)
    ensures
        r@ == nul_to_space(s@),
{
    let n = s.unicode_len();
    let space = " ";
    proof {
        reveal_strlit(" ");
    }
    let mut r = String::new();
    let mut i: usize = 0;
    while i < n
        invariant
            n == s@.len(),
            i <= n,
            space@ == seq![' '],
            r@ == nul_to_space(s@.take(i as int)),
        decreases n - i,
    {
        let c = s.get_char(i);
        let ghost before = r@;
        if c == '\0' {
            r.append(space);
        } else {
            r.append(s.substring_char(i, i + 1));
        }
        proof {
            assert(nul_to_space(s@.take(i + 1)) =~= before.push(if c == '\0' { ' ' } else { c }));
            assert(r@ =~= before.push(if c == '\0' { ' ' } else { c }));
        }
        i = i + 1;
    }
    proof {
        assert(s@.take(n as int) =~= s@);
    }
    r
}

/// Each word followed by one space: the text `w0 + " " + w1 + " " + ...`.
pub open spec fn spaced(words: Seq<Seq<char>>) -> Seq<char>
    decreases words.len(),
{
    if words.len() == 0 {
        seq![]
    } else {
        spaced(words.drop_last()) + words.last() + seq![' ']
    }
}


/// The state of the scan: the closed tokens are non-empty and free of white
/// space, and so is the token being read.
proof fn lemma_scan_clean(s: Seq<char>)
    ensures
        forall|i: int| 0 <= i < scan_tokens(s).0.len() ==> #[trigger] scan_tokens(s).0[i].len() > 0,
        forall|i: int, j: int| 0 <= i < scan_tokens(s).0.len() && 0 <= j < scan_tokens(s).0[i].len() ==> !is_white_space(#[trigger] scan_tokens(s).0[i][j]),
        forall|j: int| 0 <= j < scan_tokens(s).1.len() ==> !is_white_space(#[trigger] scan_tokens(s).1[j]),
    decreases s.len(),
{
    if s.len() > 0 {
        lemma_scan_clean(s.drop_last());
        let (d, c) = scan_tokens(s.drop_last());
        let (d2, c2) = scan_tokens(s);
        if is_white_space(s.last()) {
            if c.len() > 0 {
                assert forall|i: int| 0 <= i < d2.len() implies #[trigger] d2[i].len() > 0 by {
                    if i < d.len() {
                        assert(d2[i] == d[i]);
                    }
                }
                assert forall|i: int, j: int| 0 <= i < d2.len() && 0 <= j < d2[i].len() implies !is_white_space(#[trigger] d2[i][j]) by {
                    if i < d.len() {
                        assert(d2[i] == d[i]);
                    } else {
                        assert(d2[i] == c);
                    }
                }
            }
        } else {
            assert forall|j: int| 0 <= j < c2.len() implies !is_white_space(#[trigger] c2[j]) by {
                if j < c.len() {
                    assert(c2[j] == c[j]);
                }
            }
        }
    }
}

/// Every token is non-empty and holds no white space.
pub proof fn law_tokens_are_clean(s: Seq<char>)
    ensures
        forall|i: int| 0 <= i < tokens_of(s).len() ==> #[trigger] tokens_of(s)[i].len() > 0,
        forall|i: int, j: int| 0 <= i < tokens_of(s).len() && 0 <= j < tokens_of(s)[i].len() ==> !is_white_space(#[trigger] tokens_of(s)[i][j]),
{
    lemma_scan_clean(s);
}

/// Scanning on after a white-space character starts afresh.
proof fn lemma_scan_after_space(x: Seq<char>, b: Seq<char>)
    requires
        x.len() > 0,
        is_white_space(x.last()),
    ensures
        scan_tokens(x + b) == (tokens_of(x) + scan_tokens(b).0, scan_tokens(b).1),
    decreases b.len(),
{
    if b.len() == 0 {
        assert(x + b =~= x);
        assert(scan_tokens(x).1.len() == 0);
        assert(tokens_of(x) + Seq::<Seq<char>>::empty() =~= tokens_of(x));
    } else {
        lemma_scan_after_space(x, b.drop_last());
        assert((x + b).drop_last() =~= x + b.drop_last());
        assert((x + b).last() == b.last());
        let (d, c) = scan_tokens(b.drop_last());
        assert((tokens_of(x) + d).push(c) =~= tokens_of(x) + d.push(c));
    }
}

/// The tokens of a text that a white-space character cuts in two are the
/// tokens of the two parts.
pub proof fn law_tokens_split_at_space(a: Seq<char>, b: Seq<char>)
    ensures
        tokens_of(a + seq![' '] + b) == tokens_of(a + seq![' ']) + tokens_of(b),
{
    let x = a + seq![' '];
    assert(x.last() == ' ');
    assert(a + seq![' '] + b =~= x + b);
    lemma_scan_after_space(x, b);
    let (d, c) = scan_tokens(b);
    if c.len() > 0 {
        assert((tokens_of(x) + d).push(c) =~= tokens_of(x) + d.push(c));
    }
}

/// A non-empty text without white space, followed by a space, is one token.
pub proof fn lemma_single_token(w: Seq<char>)
    requires
        w.len() > 0,
        forall|j: int| 0 <= j < w.len() ==> !is_white_space(#[trigger] w[j]),
    ensures
        tokens_of(w + seq![' ']) == seq![w],
{
    lemma_scan_word(w);
    let x = w + seq![' '];
    assert(x.drop_last() =~= w);
    assert(x.last() == ' ');
}

proof fn lemma_scan_word(w: Seq<char>)
    requires
        forall|j: int| 0 <= j < w.len() ==> !is_white_space(#[trigger] w[j]),
    ensures
        scan_tokens(w) == (Seq::<Seq<char>>::empty(), w),
    decreases w.len(),
{
    if w.len() > 0 {
        let d = w.drop_last();
        assert forall|j: int| 0 <= j < d.len() implies !is_white_space(#[trigger] d[j]) by {
            assert(d[j] == w[j]);
        }
        lemma_scan_word(d);
        assert(d.push(w.last()) =~= w);
    } else {
        assert(w =~= Seq::<char>::empty());
    }
}

/// The decimal form of an `i32` reads back as that `i32`.
pub proof fn law_i32_decimal_roundtrip(x: i32)
    ensures
        parse_i32_spec(signed_decimal(x as int)) == Some(x),
{
    if x < 0 {
        let m = (-x) as nat;
        lemma_decimal_digits(m);
        let s = seq!['-'] + decimal(m);
        assert(s.drop_first() =~= decimal(m));
    } else {
        lemma_decimal_digits(x as nat);
    }
}

/// The decimal form of a `usize` reads back as that `usize`.
pub proof fn law_usize_decimal_roundtrip(x: usize)
    ensures
        parse_usize_spec(decimal(x as nat)) == Some(x),
{
    lemma_decimal_digits(x as nat);
}

/// A decimal form holds no white space.
pub proof fn lemma_signed_decimal_clean(x: int)
    ensures
        signed_decimal(x).len() > 0,
        forall|j: int| 0 <= j < signed_decimal(x).len() ==> !is_white_space(#[trigger] signed_decimal(x)[j]),
{
    let m: nat = if x < 0 { (-x) as nat } else { x as nat };
    lemma_decimal_digits(m);
    let d = decimal(m);
    assert forall|j: int| 0 <= j < signed_decimal(x).len() implies !is_white_space(#[trigger] signed_decimal(x)[j]) by {
        if x < 0 {
            if j > 0 {
                assert(signed_decimal(x)[j] == d[j - 1]);
                assert(is_digit(d[j - 1]));
            }
        } else {
            assert(is_digit(d[j]));
        }
    }
}

} // verus!

//! What the loopback tool server decides without a socket: where a request
//! head ends, the body length it declares, the seat a path speaks for, and
//! the capability each seat is minted.
//!
//! The seat is the endpoint it dialled: `/seat/<id>/<capability>` is the whole
//! of a caller's identity, and nothing in a payload can change who is calling.

use vstd::prelude::*;

use std::hash::{BuildHasher, RandomState};

use crate::first::{first_index, lemma_first_index, lemma_first_index_unique};
use crate::keyed::StrMap;
use crate::text::{push_char, str_eq, trim, trimmed};

verus! {

/// The most a request head may run to before the connection is closed.
pub const MAX_HEAD_BYTES: usize = 8192;

/// The most a body may declare before the connection is closed.
pub const MAX_BODY_BYTES: usize = 1048576;

/// Whether the four bytes at `i` are the blank line `\r\n\r\n`.
pub open spec fn blank_line_at(b: Seq<u8>, i: int) -> bool {
    &&& i + 4 <= b.len()
    &&& b[i] == 13u8
    &&& b[i + 1] == 10u8
    &&& b[i + 2] == 13u8
    &&& b[i + 3] == 10u8
}

/// `blank_line_at` as a predicate on positions.
pub open spec fn blank_line_pred(b: Seq<u8>) -> spec_fn(int) -> bool {
    |i: int| blank_line_at(b, i)
}

/// Where the head of a request ends: just past its first blank line.
pub open spec fn head_end(b: Seq<u8>) -> Option<int> {
    let f = first_index(blank_line_pred(b), b.len() as int);
    if f < b.len() {
        Some(f + 4)
    } else {
        None
    }
}

/// Where the head in `buffer` ends, just past its first `\r\n\r\n`; `None`
/// while it has not arrived.
pub fn headers_end(buffer: &[u8]) -> (r: Option<usize>)
    ensures
        match r {
            Some(n) => head_end(buffer@) == Some(n as int),
            None => head_end(buffer@) is None,
        },
{
    let ghost b = buffer@;
    let mut i: usize = 0;
    while i < buffer.len()
        invariant
            i <= buffer@.len(),
            b == buffer@,
            forall|j: int| 0 <= j < i ==> !#[trigger] blank_line_pred(b)(j),
        decreases buffer@.len() - i,
    {
        if buffer.len() - i >= 4 && buffer[i] == 13u8 && buffer[i + 1] == 10u8 && buffer[i + 2] == 13u8
            && buffer[i + 3] == 10u8 {
            proof {
                assert(blank_line_pred(b)(i as int));
                lemma_first_index_unique(blank_line_pred(b), b.len() as int, i as int);
            }
            return Some(i + 4);
        }
        i = i + 1;
    }
    proof {
        lemma_first_index_unique(blank_line_pred(b), b.len() as int, b.len() as int);
    }
    None
}

/// `line` without the carriage return a `\r\n` ending leaves on it.
pub open spec fn without_cr(line: Seq<char>) -> Seq<char> {
    if line.len() > 0 && line.last() == '\r' {
        line.drop_last()
    } else {
        line
    }
}

/// The lines `s` completes, and the unfinished one after them.
pub open spec fn split_lines(s: Seq<char>) -> (Seq<Seq<char>>, Seq<char>)
    decreases s.len(),
{
    if s.len() == 0 {
        (seq![], seq![])
    } else {
        let (done, cur) = split_lines(s.drop_last());
        if s.last() == '\n' {
            (done.push(without_cr(cur)), seq![])
        } else {
            (done, cur.push(s.last()))
        }
    }
}

/// The lines of `s` as `str::lines` gives them: split at `\n`, a `\r`
/// before it dropped, no empty line after a final line ending.
pub open spec fn lines_of(s: Seq<char>) -> Seq<Seq<char>> {
    let (done, cur) = split_lines(s);
    if cur.len() > 0 {
        done.push(cur)
    } else {
        done
    }
}

/// `c` in ASCII lower case.
pub open spec fn ascii_lower(c: char) -> char {
    if 'A' <= c && c <= 'Z' {
        ((c as u32) + 32) as char
    } else {
        c
    }
}

/// Whether `a` equals the lower-case ASCII text `b`, ignoring ASCII case.
pub open spec fn ascii_case_eq(a: Seq<char>, b: Seq<char>) -> bool {
    a.len() == b.len() && forall|i: int| 0 <= i < a.len() ==> ascii_lower(#[trigger] a[i]) == b[i]
}

/// The value of a nonempty run of decimal digits.
pub open spec fn digits_value(d: Seq<char>) -> nat
    decreases d.len(),
{
    if d.len() == 0 {
        0
    } else {
        digits_value(d.drop_last()) * 10 + ((d.last() as u32) - ('0' as u32)) as nat
    }
}

/// Whether every character of `d` is a decimal digit.
pub open spec fn all_digits(d: Seq<char>) -> bool {
    forall|i: int| 0 <= i < d.len() ==> '0' <= #[trigger] d[i] && d[i] <= '9'
}

/// What `str::parse::<usize>` reads: an optional `+`, then at least one
/// decimal digit, the value fitting in `usize`.
pub open spec fn parse_usize(s: Seq<char>) -> Option<nat> {
    let d = if s.len() > 0 && s[0] == '+' {
        s.drop_first()
    } else {
        s
    };
    if d.len() > 0 && all_digits(d) && digits_value(d) <= usize::MAX {
        Some(digits_value(d))
    } else {
        None
    }
}

/// Whether the `i`th character is `c`.
pub open spec fn char_at_pred(s: Seq<char>, c: char) -> spec_fn(int) -> bool {
    |i: int| s[i] == c
}

/// The body length one header line declares: a `Content-Length` name in
/// any ASCII case, white space around name and value ignored, and a value
/// that parses.
pub open spec fn declared_length(line: Seq<char>) -> Option<nat> {
    let k = first_index(char_at_pred(line, ':'), line.len() as int);
    if k < line.len() && ascii_case_eq(trimmed(line.subrange(0, k)), "content-length"@) {
        parse_usize(trimmed(line.subrange(k + 1, line.len() as int)))
    } else {
        None
    }
}

/// The length the first line that declares one declares, or zero.
pub open spec fn first_declared(lines: Seq<Seq<char>>) -> nat
    decreases lines.len(),
{
    if lines.len() == 0 {
        0
    } else {
        match declared_length(lines[0]) {
            Some(n) => n,
            None => first_declared(lines.drop_first()),
        }
    }
}

/// The body length a request head declares.
pub open spec fn content_length_spec(head: Seq<char>) -> nat {
    first_declared(lines_of(head))
}

proof fn lemma_digits_grow(d: Seq<char>, i: int)
    requires
        0 <= i <= d.len(),
    ensures
        digits_value(d.subrange(0, i)) <= digits_value(d),
    decreases d.len() - i,
{
    if i < d.len() {
        assert(d.subrange(0, d.len() as int) =~= d);
        lemma_digits_grow_to(d, i, d.len() as int);
    } else {
        assert(d.subrange(0, i) =~= d);
    }
}

proof fn lemma_digits_grow_to(d: Seq<char>, i: int, j: int)
    requires
        0 <= i <= j <= d.len(),
    ensures
        digits_value(d.subrange(0, i)) <= digits_value(d.subrange(0, j)),
    decreases j - i,
{
    if i < j {
        lemma_digits_grow_to(d, i, j - 1);
        assert(d.subrange(0, j).drop_last() =~= d.subrange(0, j - 1));
    }
}

/// Read `s` as `str::parse::<usize>` does.
pub fn parse_decimal(s: &str) -> (r: Option<usize>)
    ensures
        match r {
            Some(n) => parse_usize(s@) == Some(n as nat),
            None => parse_usize(s@) is None,
        },
{
    let n = s.unicode_len();
    let start: usize = if n > 0 && s.get_char(0) == '+' {
        1
    } else {
        0
    };
    let ghost d = s@.subrange(start as int, n as int);
    assert(d =~= if s@.len() > 0 && s@[0] == '+' {
        s@.drop_first()
    } else {
        s@
    });
    if start == n {
        return None;
    }
    let mut value: usize = 0;
    let mut i: usize = start;
    while i < n
        invariant
            start <= i <= n,
            n == s@.len(),
            d == s@.subrange(start as int, n as int),
            d == (if s@.len() > 0 && s@[0] == '+' {
                s@.drop_first()
            } else {
                s@
            }),
            all_digits(d.subrange(0, i - start)),
            value as nat == digits_value(d.subrange(0, i - start)),
        decreases n - i,
    {
        let c = s.get_char(i);
        assert(d[i - start] == c);
        assert(d.subrange(0, i - start + 1).drop_last() =~= d.subrange(0, i - start));
        if c < '0' || c > '9' {
            proof {
                assert(!all_digits(d));
            }
            return None;
        }
        let digit = (c as u32 - '0' as u32) as usize;
        let next = match value.checked_mul(10) {
            Some(v) => v.checked_add(digit),
            None => None,
        };
        match next {
            Some(v) => {
                value = v;
            },
            None => {
                proof {
                    lemma_digits_grow(d, i - start + 1);
                }
                return None;
            },
        }
        i = i + 1;
    }
    assert(d.subrange(0, i - start) =~= d);
    Some(value)
}

/// Whether `a` equals the lower-case ASCII text `b`, ignoring ASCII case.
fn ascii_case_equal(a: &str, b: &str) -> (r: bool)
    ensures
        r == ascii_case_eq(a@, b@),
{
    let n = a.unicode_len();
    if n != b.unicode_len() {
        return false;
    }
    let mut i: usize = 0;
    while i < n
        invariant
            i <= n,
            n == a@.len(),
            n == b@.len(),
            forall|j: int| 0 <= j < i ==> ascii_lower(#[trigger] a@[j]) == b@[j],
        decreases n - i,
    {
        let c = a.get_char(i);
        let d = b.get_char(i);
        let same = if 'A' <= c && c <= 'Z' {
            (c as u32) + 32 == (d as u32)
        } else {
            c == d
        };
        proof {
            if 'A' <= c && c <= 'Z' {
                assert(((c as u32) + 32) as char == ascii_lower(c));
                assert((((c as u32) + 32) as char) as u32 == (c as u32) + 32);
            }
        }
        if !same {
            return false;
        }
        i = i + 1;
    }
    true
}

/// Where `c` first occurs in `s`, or the length of `s`.
pub fn find_char(s: &str, c: char) -> (r: usize)
    ensures
        r as int == first_index(char_at_pred(s@, c), s@.len() as int),
        r <= s@.len(),
{
    let n = s.unicode_len();
    let mut k: usize = 0;
    while k < n && s.get_char(k) != c
        invariant
            k <= n,
            n == s@.len(),
            forall|j: int| 0 <= j < k ==> !#[trigger] char_at_pred(s@, c)(j),
        decreases n - k,
    {
        k = k + 1;
    }
    proof {
        if k < n {
            assert(char_at_pred(s@, c)(k as int));
        }
        lemma_first_index_unique(char_at_pred(s@, c), n as int, k as int);
    }
    k
}

/// The body length one header line declares, if it declares one.
pub fn header_length(line: &str) -> (r: Option<usize>)
    ensures
        match r {
            Some(n) => declared_length(line@) == Some(n as nat),
            None => declared_length(line@) is None,
        },
{
    let n = line.unicode_len();
    let k = find_char(line, ':');
    if k == n {
        return None;
    }
    let name = trim(line.substring_char(0, k));
    proof {
        reveal_strlit("content-length");
    }
    if !ascii_case_equal(name.as_str(), "content-length") {
        return None;
    }
    let value = trim(line.substring_char(k + 1, n));
    parse_decimal(value.as_str())
}

/// The body length a request head declares: the first line naming
/// `Content-Length`, in any ASCII case, with a value that parses; zero when
/// none does.
pub fn content_length(head: &str) -> (r: usize)
    ensures
        r as nat == content_length_spec(head@),
{
    let n = head.unicode_len();
    let ghost h = head@;
    let mut line = String::new();
    let mut i: usize = 0;
    while i < n
        invariant
            i <= n,
            n == h.len(),
            h == head@,
            line@ == split_lines(h.subrange(0, i as int)).1,
            first_declared(split_lines(h.subrange(0, i as int)).0) == 0,
            forall|j: int| 0 <= j < split_lines(h.subrange(0, i as int)).0.len() ==>
                #[trigger] declared_length(split_lines(h.subrange(0, i as int)).0[j]) is None,
        decreases n - i,
    {
        let c = head.get_char(i);
        let ghost before = h.subrange(0, i as int);
        assert(h.subrange(0, i + 1).drop_last() =~= before);
        assert(h.subrange(0, i + 1).last() == c);
        if c == '\n' {
            let done = if line.unicode_len() > 0 && line.as_str().get_char(line.unicode_len() - 1) == '\r' {
                let cut = line.as_str().substring_char(0, line.unicode_len() - 1);
                assert(cut@ =~= line@.drop_last());
                String::from_str(cut)
            } else {
                line.clone()
            };
            assert(done@ == without_cr(split_lines(before).1));
            match header_length(done.as_str()) {
                Some(len) => {
                    proof {
                        lemma_first_declared_after(split_lines(before).0, done@, h.subrange(i + 1, n as int));
                        assert(h =~= h.subrange(0, i + 1) + h.subrange(i + 1, n as int));
                        lemma_lines_split(h.subrange(0, i + 1), h.subrange(i + 1, n as int));
                    }
                    return len;
                },
                None => {},
            }
            line = String::new();
            proof {
                let d2 = split_lines(h.subrange(0, i + 1)).0;
                assert(d2 == split_lines(before).0.push(done@));
                assert forall|j: int| 0 <= j < d2.len() implies #[trigger] declared_length(d2[j]) is None by {
                    if j < d2.len() - 1 {
                        assert(d2[j] == split_lines(before).0[j]);
                    }
                }
                lemma_first_declared_none(d2);
            }
        } else {
            push_char(&mut line, c);
        }
        i = i + 1;
    }
    assert(h.subrange(0, i as int) =~= h);
    match header_length(line.as_str()) {
        Some(len) => {
            proof {
                let (d, cur) = split_lines(h);
                assert(cur.len() > 0) by {
                    if cur.len() == 0 {
                        assert(line@.len() == 0);
                        assert(declared_length(line@) is None) by {
                            assert(first_index(char_at_pred(line@, ':'), 0) == 0);
                        }
                    }
                }
                lemma_first_declared_last(d, cur);
            }
            len
        },
        None => {
            proof {
                let (d, cur) = split_lines(h);
                lemma_first_declared_none(d);
                if cur.len() > 0 {
                    lemma_first_declared_last(d, cur);
                }
            }
            0
        },
    }
}

/// No line declares a length: the head declares zero.
proof fn lemma_first_declared_none(ls: Seq<Seq<char>>)
    requires
        forall|j: int| 0 <= j < ls.len() ==> #[trigger] declared_length(ls[j]) is None,
    ensures
        first_declared(ls) == 0,
    decreases ls.len(),
{
    if ls.len() > 0 {
        assert forall|j: int| 0 <= j < ls.drop_first().len() implies #[trigger] declared_length(ls.drop_first()[j]) is None by {
            assert(ls.drop_first()[j] == ls[j + 1]);
        }
        lemma_first_declared_none(ls.drop_first());
    }
}

/// Lines that declare nothing, then `last`: what `last` declares, if anything.
proof fn lemma_first_declared_last(ls: Seq<Seq<char>>, last: Seq<char>)
    requires
        forall|j: int| 0 <= j < ls.len() ==> #[trigger] declared_length(ls[j]) is None,
    ensures
        first_declared(ls.push(last)) == match declared_length(last) {
            Some(n) => n,
            None => 0nat,
        },
    decreases ls.len(),
{
    if ls.len() == 0 {
        assert(seq![last].drop_first() =~= Seq::<Seq<char>>::empty());
        assert(ls.push(last) =~= seq![last]);
        assert(first_declared(Seq::<Seq<char>>::empty()) == 0);
        assert(seq![last][0] == last);
    } else {
        assert(ls.push(last).drop_first() =~= ls.drop_first().push(last));
        assert forall|j: int| 0 <= j < ls.drop_first().len() implies #[trigger] declared_length(ls.drop_first()[j]) is None by {
            assert(ls.drop_first()[j] == ls[j + 1]);
        }
        lemma_first_declared_last(ls.drop_first(), last);
        assert(ls.push(last)[0] == ls[0]);
    }
}

/// Lines that declare nothing, then a line that declares `n`, then anything:
/// `n`.
proof fn lemma_first_declared_after(ls: Seq<Seq<char>>, line: Seq<char>, rest: Seq<char>)
    requires
        forall|j: int| 0 <= j < ls.len() ==> #[trigger] declared_length(ls[j]) is None,
        declared_length(line) is Some,
    ensures
        forall|more: Seq<Seq<char>>| #[trigger] first_declared(ls.push(line) + more) == declared_length(line)->Some_0,
    decreases ls.len(),
{
    assert forall|more: Seq<Seq<char>>| #[trigger] first_declared(ls.push(line) + more) == declared_length(line)->Some_0 by {
        lemma_first_declared_prefix(ls, line, more);
    }
}

proof fn lemma_first_declared_prefix(ls: Seq<Seq<char>>, line: Seq<char>, more: Seq<Seq<char>>)
    requires
        forall|j: int| 0 <= j < ls.len() ==> #[trigger] declared_length(ls[j]) is None,
        declared_length(line) is Some,
    ensures
        first_declared(ls.push(line) + more) == declared_length(line)->Some_0,
    decreases ls.len(),
{
    if ls.len() == 0 {
        assert((ls.push(line) + more)[0] == line);
    } else {
        assert((ls.push(line) + more).drop_first() =~= ls.drop_first().push(line) + more);
        assert forall|j: int| 0 <= j < ls.drop_first().len() implies #[trigger] declared_length(ls.drop_first()[j]) is None by {
            assert(ls.drop_first()[j] == ls[j + 1]);
        }
        lemma_first_declared_prefix(ls.drop_first(), line, more);
        assert((ls.push(line) + more)[0] == ls[0]);
    }
}

/// The lines of `a + b`, when `a` ends a line, are the lines `a` completes
/// followed by the lines of `b`.
proof fn lemma_lines_split(a: Seq<char>, b: Seq<char>)
    requires
        a.len() > 0,
        a.last() == '\n',
    ensures
        exists|more: Seq<Seq<char>>| lines_of(a + b) == #[trigger] split_lines(a).0 + more,
    decreases b.len(),
{
    if b.len() == 0 {
        assert(a + b =~= a);
        assert(split_lines(a).1 =~= Seq::<char>::empty());
        assert(lines_of(a + b) == split_lines(a).0 + Seq::<Seq<char>>::empty());
    } else {
        lemma_split_prefix(a, b);
        let more = choose|more: Seq<Seq<char>>| split_lines(a + b).0 == split_lines(a).0 + more;
        let cur = split_lines(a + b).1;
        if cur.len() > 0 {
            assert(lines_of(a + b) == split_lines(a).0 + more.push(cur));
        } else {
            assert(lines_of(a + b) == split_lines(a).0 + more);
        }
    }
}

/// The lines `a` completes stay completed whatever follows `a`.
proof fn lemma_split_prefix(a: Seq<char>, b: Seq<char>)
    requires
        a.len() > 0,
        a.last() == '\n',
    ensures
        exists|more: Seq<Seq<char>>| split_lines(a + b).0 == #[trigger] (split_lines(a).0 + more),
    decreases b.len(),
{
    if b.len() == 0 {
        assert(a + b =~= a);
        assert(split_lines(a).0 == split_lines(a).0 + Seq::<Seq<char>>::empty());
    } else {
        lemma_split_prefix(a, b.drop_last());
        assert((a + b).drop_last() =~= a + b.drop_last());
        let more = choose|more: Seq<Seq<char>>| split_lines(a + b.drop_last()).0 == #[trigger] (split_lines(a).0 + more);
        let (d, c) = split_lines(a + b.drop_last());
        if (a + b).last() == '\n' {
            assert(split_lines(a + b).0 == split_lines(a).0 + more.push(without_cr(c)));
        } else {
            assert(split_lines(a + b).0 == split_lines(a).0 + more);
        }
    }
}

/// The prefix of a path that names a seat.
pub open spec fn seat_prefix() -> Seq<char> {
    "/seat/"@
}

/// The seat a path speaks for: `/seat/<seat>/<token>`, where `token` is the
/// capability minted for `seat`.
pub open spec fn seat_for_spec(path: Seq<char>, caps: Map<Seq<char>, Seq<char>>) -> Option<Seq<char>> {
    if path.len() >= 6 && path.subrange(0, 6) == seat_prefix() {
        let rest = path.subrange(6, path.len() as int);
        let k = first_index(char_at_pred(rest, '/'), rest.len() as int);
        if k < rest.len() {
            let seat = rest.subrange(0, k);
            let token = rest.subrange(k + 1, rest.len() as int);
            if caps.dom().contains(seat) && caps[seat] == token {
                Some(seat)
            } else {
                None
            }
        } else {
            None
        }
    } else {
        None
    }
}

/// The seat a path speaks for, if it carries that seat's capability.
pub fn seat_for(path: &str, capabilities: &StrMap<String>) -> (r: Option<String>)
    requires
        capabilities.wf(),
    ensures
        match r {
            Some(seat) => seat_for_spec(path@, capabilities.map()) == Some(seat@),
            None => seat_for_spec(path@, capabilities.map()) is None,
        },
{
    proof {
        reveal_strlit("/seat/");
    }
    let n = path.unicode_len();
    if n < 6 {
        return None;
    }
    let head = path.substring_char(0, 6);
    if !str_eq(head, "/seat/") {
        return None;
    }
    let rest = path.substring_char(6, n);
    let m = rest.unicode_len();
    let k = find_char(rest, '/');
    if k == m {
        return None;
    }
    let seat = rest.substring_char(0, k);
    let token = rest.substring_char(k + 1, m);
    match capabilities.get(seat) {
        Some(minted) => {
            if str_eq(minted.as_str(), token) {
                Some(String::from_str(seat))
            } else {
                None
            }
        },
        None => None,
    }
}

/// The character a hexadecimal digit is written with, in lower case.
pub open spec fn hex_char(d: int) -> char {
    if d < 10 {
        crate::text::digit_char(d)
    } else if d == 10 {
        'a'
    } else if d == 11 {
        'b'
    } else if d == 12 {
        'c'
    } else if d == 13 {
        'd'
    } else if d == 14 {
        'e'
    } else {
        'f'
    }
}

/// The last `n` hexadecimal digits of `v`, zero padded, as `{:0nx}` writes
/// a value below `16^n`.
pub open spec fn hex_padded(v: nat, n: nat) -> Seq<char>
    decreases n,
{
    if n == 0 {
        seq![]
    } else {
        hex_padded(v / 16, (n - 1) as nat).push(hex_char((v % 16) as int))
    }
}

/// Whether `c` is a lower-case hexadecimal digit.
pub open spec fn is_hex_lower(c: char) -> bool {
    ('0' <= c && c <= '9') || ('a' <= c && c <= 'f')
}

proof fn lemma_hex_padded(v: nat, n: nat)
    ensures
        hex_padded(v, n).len() == n,
        forall|i: int| 0 <= i < n ==> is_hex_lower(#[trigger] hex_padded(v, n)[i]),
    decreases n,
{
    if n > 0 {
        lemma_hex_padded(v / 16, (n - 1) as nat);
        let d = (v % 16) as int;
        assert(is_hex_lower(hex_char(d)));
        assert forall|i: int| 0 <= i < n implies is_hex_lower(#[trigger] hex_padded(v, n)[i]) by {
            if i < n - 1 {
                assert(hex_padded(v, n)[i] == hex_padded(v / 16, (n - 1) as nat)[i]);
            }
        }
    }
}

fn hex_digit(d: u64) -> (c: char)
    requires
        d < 16,
    ensures
        c == hex_char(d as int),
{
    if d < 10 {
        crate::text::digit(d)
    } else if d == 10 {
        'a'
    } else if d == 11 {
        'b'
    } else if d == 12 {
        'c'
    } else if d == 13 {
        'd'
    } else if d == 14 {
        'e'
    } else {
        'f'
    }
}

/// The last `n` hexadecimal digits of `v`, zero padded.
fn hex_string(v: u64, n: u64) -> (r: String)
    ensures
        r@ == hex_padded(v as nat, n as nat),
    decreases n,
{
    if n == 0 {
        let s = String::new();
        assert(s@ =~= Seq::<char>::empty());
        s
    } else {
        let mut s = hex_string(v / 16, n - 1);
        push_char(&mut s, hex_digit(v % 16));
        s
    }
}

/// A fresh salt from `RandomState::new`: keys the operating system drew,
/// unpredictable, so nothing about the result is stated.
#[verifier::external_body]
fn fresh_salt() -> RandomState {
    RandomState::new()
}

/// One 64-bit lane of a token: `BuildHasher::hash_one` of the lane and the
/// seat under `salt`. The value rests on the salt's random keys, so nothing
/// about it is stated.
#[verifier::external_body]
fn hash_lane(salt: &RandomState, lane: u8, seat: &str) -> u64 {
    salt.hash_one((lane, seat))
}

/// Whether `t` is a token: two 64-bit lanes as 32 lower-case hexadecimal
/// digits.
pub open spec fn is_token(t: Seq<char>) -> bool {
    exists|a: u64, b: u64| t == #[trigger] hex_padded(a as nat, 16) + #[trigger] hex_padded(b as nat, 16)
}

/// One unguessable capability per seat: two lanes of a hash keyed by a salt
/// the operating system draws, so a token cannot be derived from a seat's
/// name, from another seat's token, or from a previous call's.
pub fn capabilities(seats: &[String]) -> (r: StrMap<String>)
    ensures
        r.wf(),
        forall|k: Seq<char>| #[trigger] r.map().dom().contains(k) <==> crate::types::id_views(seats@).contains(k),
        forall|k: Seq<char>| #[trigger] r.map().dom().contains(k) ==> is_token(r.map()[k]) && r.map()[k].len() == 32
            && forall|i: int| 0 <= i < 32 ==> is_hex_lower(#[trigger] r.map()[k][i]),
{
    let salt = fresh_salt();
    let ghost sv = crate::types::id_views(seats@);
    let mut out: StrMap<String> = StrMap::new();
    let mut i: usize = 0;
    while i < seats.len()
        invariant
            out.wf(),
            i <= seats@.len(),
            sv == crate::types::id_views(seats@),
            forall|k: Seq<char>| #[trigger] out.map().dom().contains(k) <==> sv.subrange(0, i as int).contains(k),
            forall|k: Seq<char>| #[trigger] out.map().dom().contains(k) ==> is_token(out.map()[k]) && out.map()[k].len() == 32
                && forall|j: int| 0 <= j < 32 ==> is_hex_lower(#[trigger] out.map()[k][j]),
        decreases seats@.len() - i,
    {
        let seat = seats[i].as_str();
        let a = hash_lane(&salt, 0, seat);
        let b = hash_lane(&salt, 1, seat);
        let mut token = hex_string(a, 16);
        let tail = hex_string(b, 16);
        token.append(tail.as_str());
        proof {
            lemma_hex_padded(a as nat, 16);
            lemma_hex_padded(b as nat, 16);
            assert(token@ == hex_padded(a as nat, 16) + hex_padded(b as nat, 16));
            assert forall|j: int| 0 <= j < 32 implies is_hex_lower(#[trigger] token@[j]) by {
                if j < 16 {
                    assert(token@[j] == hex_padded(a as nat, 16)[j]);
                } else {
                    assert(token@[j] == hex_padded(b as nat, 16)[j - 16]);
                }
            }
        }
        let ghost before = out.map();
        out.insert(seats[i].clone(), token);
        proof {
            assert forall|k: Seq<char>| #[trigger] out.map().dom().contains(k) <==> sv.subrange(0, i + 1).contains(k) by {
                if sv.subrange(0, i + 1).contains(k) && k != sv[i as int] {
                    let j = choose|j: int| 0 <= j < i + 1 && #[trigger] sv.subrange(0, i + 1)[j] == k;
                    assert(sv.subrange(0, i as int)[j] == k);
                }
                if sv.subrange(0, i as int).contains(k) {
                    let j = choose|j: int| 0 <= j < i && #[trigger] sv.subrange(0, i as int)[j] == k;
                    assert(sv.subrange(0, i + 1)[j] == k);
                }
                if k == sv[i as int] {
                    assert(sv.subrange(0, i + 1)[i as int] == k);
                }
            }
        }
        i = i + 1;
    }
    assert(sv.subrange(0, i as int) =~= sv);
    out
}

} // verus!

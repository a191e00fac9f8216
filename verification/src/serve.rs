use vstd::prelude::*;

use crate::hex::push_char;
use crate::keys::is_white_space;
use crate::pack::Packer;
use crate::unpack::{joined, lemma_range_roundtrip, overlaps, source_pieces, MAX_DECOMPRESSED_CHUNK};

verus! {

/// Whether a header line holds nothing but white space, which ends the headers.
pub fn is_blank_line(line: &str) -> (r: bool)
    ensures
        r == forall|i: int| 0 <= i < line@.len() ==> is_white_space(#[trigger] line@[i]),
{
    let n = line.unicode_len();
    for i in 0..n
        invariant
            n == line@.len(),
            forall|j: int| 0 <= j < i ==> is_white_space(#[trigger] line@[j]),
    {
        if !crate::keys::white_space(line.get_char(i)) {
            return false;
        }
    }
    true
}

/// The lower-case form of an ASCII letter; other characters are kept.
pub open spec fn ascii_lower(c: char) -> char {
    if 'A' <= c <= 'Z' {
        ((c as u32) + 32) as char
    } else {
        c
    }
}

/// The header prefix that announces a byte range.
pub open spec fn range_prefix() -> Seq<char> {
    seq!['r', 'a', 'n', 'g', 'e', ':', ' ', 'b', 'y', 't', 'e', 's', '=']
}

/// A request header line that, lower-cased, starts with `range: bytes=`.
pub open spec fn is_range_line(l: Seq<char>) -> bool {
    l.len() >= 13 && forall|i: int| 0 <= i < 13 ==> ascii_lower(#[trigger] l[i]) == range_prefix()[i]
}

/// `l` up to its trailing white space.
pub open spec fn is_trim_end_of(l: Seq<char>, t: Seq<char>) -> bool {
    exists|b: int|
        0 <= b <= l.len() && t == l.take(b) && (forall|j: int|
            b <= j < l.len() ==> is_white_space(#[trigger] l[j])) && (b > 0 ==> !is_white_space(
            l[b - 1],
        ))
}

fn lower(c: char) -> (r: char)
    ensures
        r == ascii_lower(c),
{
    if 'A' <= c && c <= 'Z' {
        ((c as u8) + 32) as char
    } else {
        c
    }
}

/// The value of a `Range: bytes=` header line, trailing white space dropped; `None` for
/// any other line.
pub fn range_value(line: &str) -> (r: Option<String>)
    ensures
        r is Some <==> is_range_line(line@),
        r matches Some(v) ==> exists|t: Seq<char>| is_trim_end_of(line@, t) && v@ == t.skip(13),
{
    let n = line.unicode_len();
    if n < 13 {
        return None;
    }
    let p = ['r', 'a', 'n', 'g', 'e', ':', ' ', 'b', 'y', 't', 'e', 's', '='];
    assert(p@ =~= range_prefix());
    let mut i: usize = 0;
    while i < 13
        invariant
            n == line@.len(),
            13 <= n,
            p@ == range_prefix(),
            i <= 13,
            forall|j: int| 0 <= j < i ==> ascii_lower(#[trigger] line@[j]) == range_prefix()[j],
        decreases 13 - i,
    {
        if lower(line.get_char(i)) != p[i] {
            return None;
        }
        i = i + 1;
    }
    let mut b: usize = n;
    while b > 13 && crate::keys::white_space(line.get_char(b - 1))
        invariant
            n == line@.len(),
            13 <= b <= n,
            forall|j: int| b <= j < n ==> is_white_space(#[trigger] line@[j]),
        decreases b,
    {
        b = b - 1;
    }
    proof {
        assert(ascii_lower(line@[12]) == '=');
        assert(!is_white_space(line@[12]));
        assert(is_trim_end_of(line@, line@.take(b as int)));
    }
    let v = line.substring_char(13, b).to_owned();
    assert(v@ =~= line@.take(b as int).skip(13));
    Some(v)
}

/// The value of a decimal digit string, most significant first.
pub open spec fn decimal_value(ds: Seq<char>) -> int
    decreases ds.len(),
{
    if ds.len() == 0 {
        0
    } else {
        decimal_value(ds.drop_last()) * 10 + (ds.last() as int - 48)
    }
}

/// A decimal digit.
pub open spec fn is_digit(c: char) -> bool {
    '0' <= c <= '9'
}

/// The digits of a number's text: all but a leading `+`.
pub open spec fn u64_digits(s: Seq<char>) -> Seq<char> {
    if s.len() > 0 && s[0] == '+' {
        s.drop_first()
    } else {
        s
    }
}

/// What `str::parse::<u64>` gives: an optional `+`, then one or more decimal digits whose
/// value fits in 64 bits.
pub open spec fn parse_u64_spec(s: Seq<char>) -> Option<u64> {
    let ds = u64_digits(s);
    if ds.len() > 0 && (forall|i: int| 0 <= i < ds.len() ==> is_digit(#[trigger] ds[i]))
        && decimal_value(ds) <= u64::MAX {
        Some(decimal_value(ds) as u64)
    } else {
        None
    }
}

proof fn lemma_decimal_grows(ds: Seq<char>, i: int)
    requires
        0 <= i <= ds.len(),
        forall|j: int| 0 <= j < ds.len() ==> is_digit(#[trigger] ds[j]),
    ensures
        decimal_value(ds) >= decimal_value(ds.take(i)),
        decimal_value(ds) >= 0,
    decreases ds.len(),
{
    if ds.len() > 0 {
        if i == ds.len() {
            assert(ds.take(i) =~= ds);
            lemma_decimal_grows(ds.drop_last(), 0);
        } else {
            lemma_decimal_grows(ds.drop_last(), i);
            assert(ds.drop_last().take(i) =~= ds.take(i));
        }
    } else {
        assert(ds.take(i) =~= ds);
    }
}

/// Parses a decimal `u64` as `str::parse::<u64>` does.
pub fn parse_u64(s: &str) -> (r: Option<u64>)
    ensures
        r == parse_u64_spec(s@),
{
    let n = s.unicode_len();
    if n == 0 {
        return None;
    }
    let first: usize = if s.get_char(0) == '+' {
        1
    } else {
        0
    };
    let ghost ds = u64_digits(s@);
    assert(ds =~= s@.skip(first as int));
    if first == n {
        return None;
    }
    let mut v: u64 = 0;
    let mut i: usize = first;
    while i < n
        invariant
            n == s@.len(),
            first <= i <= n,
            ds == s@.skip(first as int),
            ds == u64_digits(s@),
            v == decimal_value(ds.take(i - first)),
            forall|j: int| 0 <= j < i - first ==> is_digit(#[trigger] ds[j]),
        decreases n - i,
    {
        let c = s.get_char(i);
        if !('0' <= c && c <= '9') {
            assert(ds[i - first] == c);
            assert(!is_digit(ds[i - first]));
            assert(!(forall|j: int| 0 <= j < ds.len() ==> is_digit(#[trigger] ds[j])));
            assert(parse_u64_spec(s@) is None);
            return None;
        }
        let d = (c as u32 - 48) as u64;
        assert(ds.take(i - first + 1).drop_last() =~= ds.take(i - first));
        assert(ds.take(i - first + 1).last() == c);
        if v > (u64::MAX - d) / 10 {
            proof {
                assert(v * 10 + d > u64::MAX) by (nonlinear_arith)
                    requires
                        v > (u64::MAX - d) / 10,
                        d <= 9,
                ;
                assert(decimal_value(ds.take(i - first + 1)) > u64::MAX);
                if forall|j: int| 0 <= j < ds.len() ==> is_digit(#[trigger] ds[j]) {
                    lemma_decimal_grows(ds, i - first + 1);
                }
                assert(parse_u64_spec(s@) is None);
            }
            return None;
        }
        v = v * 10 + d;
        i = i + 1;
    }
    assert(ds.take(n - first) =~= ds);
    Some(v)
}

/// The decimal digits of a number, most significant first, without leading zeros.
pub open spec fn decimal_digits(v: nat) -> Seq<char>
    decreases v,
{
    if v < 10 {
        seq![(v + 48) as char]
    } else {
        decimal_digits(v / 10).push(((v % 10) + 48) as char)
    }
}

fn push_decimal(s: &mut String, v: u64)
    ensures
        final(s)@ == old(s)@ + decimal_digits(v as nat),
    decreases v,
{
    if v >= 10 {
        push_decimal(s, v / 10);
    }
    push_char(s, ((v % 10) as u8 + 48) as char);
    assert(final(s)@ =~= old(s)@ + decimal_digits(v as nat));
}

/// A number in decimal, as `u64::to_string` writes it.
pub fn decimal_string(v: u64) -> (s: String)
    ensures
        s@ == decimal_digits(v as nat),
{
    let mut s = String::new();
    push_decimal(&mut s, v);
    s
}

/// The position of the first `-` of `s` at or after `from`; the length of `s` where
/// there is none.
pub open spec fn next_dash(s: Seq<char>, from: int) -> int
    decreases s.len() - from,
{
    if from < 0 || from >= s.len() {
        s.len() as int
    } else if s[from] == '-' {
        from
    } else {
        next_dash(s, from + 1)
    }
}

/// The text before the first `-` of `s`, and, where there is a first `-`, the text
/// between it and the next `-` (or the end): the first two fields of `str::split('-')`.
pub open spec fn dash_fields(s: Seq<char>) -> (Seq<char>, Option<Seq<char>>) {
    let i = next_dash(s, 0);
    if i < s.len() {
        (s.take(i), Some(s.subrange(i + 1, next_dash(s, i + 1))))
    } else {
        (s, None)
    }
}

/// The byte range a request asks for, and the response it gets.
#[derive(Debug, Clone, Copy)]
pub struct RangePlan {
    /// First byte sent.
    pub start: u64,
    /// Last byte sent.
    pub end: u64,
    /// `end - start + 1`.
    pub content_length: u64,
    /// Whether the request named a range (a `206` answer) or not (`200`).
    pub partial: bool,
}

fn first_dash(s: &str, from: usize) -> (r: usize)
    requires
        from <= s@.len(),
    ensures
        r == next_dash(s@, from as int),
        from <= r <= s@.len(),
{
    let n = s.unicode_len();
    let mut i = from;
    while i < n && s.get_char(i) != '-'
        invariant
            n == s@.len(),
            from <= i <= n,
            next_dash(s@, i as int) == next_dash(s@, from as int),
        decreases n - i,
    {
        i = i + 1;
    }
    i
}

/// The bytes a request gets from a source of `size` bytes: with a `Range: bytes=` value,
/// its first field (0 where it does not parse) to its second (the last byte where it is
/// missing, empty or does not parse), an end past the source cut to its last byte;
/// without one, all bytes. `None` where the server gives no answer: an empty source, or a
/// range that, so cut, ends before it starts (one that starts past the source among them).
pub fn plan_range(range: Option<&str>, size: u64) -> (r: Option<RangePlan>)
    ensures
        size == 0 ==> r is None,
        r matches Some(p) ==> p.start <= p.end < size && p.content_length == p.end - p.start + 1,
        size > 0 ==> match range {
            None => r == Some(RangePlan { start: 0, end: (size - 1) as u64, content_length: size, partial: false }),
            Some(text) => {
                let (f0, f1) = dash_fields(text@);
                let s = match parse_u64_spec(f0) {
                    Some(v) => v,
                    None => 0,
                };
                let e = match f1 {
                    Some(t) => if t.len() > 0 {
                        match parse_u64_spec(t) {
                            Some(v) => v,
                            None => (size - 1) as u64,
                        }
                    } else {
                        (size - 1) as u64
                    },
                    None => (size - 1) as u64,
                };
                let last = if e < size { e } else { (size - 1) as u64 };
                if last < s {
                    r is None
                } else {
                    r == Some(RangePlan { start: s, end: last, content_length: (last - s + 1) as u64, partial: true })
                }
            },
        },
{
    if size == 0 {
        return None;
    }
    match range {
        None => Some(RangePlan { start: 0, end: size - 1, content_length: size, partial: false }),
        Some(text) => {
            let n = text.unicode_len();
            let i = first_dash(text, 0);
            let f0 = text.substring_char(0, i);
            let s = match parse_u64(f0) {
                Some(v) => v,
                None => 0,
            };
            let e = if i < n {
                let k = first_dash(text, i + 1);
                let f1 = text.substring_char(i + 1, k);
                if k > i + 1 {
                    match parse_u64(f1) {
                        Some(v) => v,
                        None => size - 1,
                    }
                } else {
                    size - 1
                }
            } else {
                size - 1
            };
            proof {
                if i < n {
                    assert(f0@ =~= text@.take(i as int));
                } else {
                    assert(f0@ =~= text@);
                }
            }
            let last = if e < size {
                e
            } else {
                size - 1
            };
            if last < s {
                return None;
            }
            Some(RangePlan { start: s, end: last, content_length: last - s + 1, partial: true })
        },
    }
}

impl RangePlan {
    /// One past the last byte sent, where that fits in 64 bits (the last byte otherwise).
    pub fn stop(&self) -> (r: u64)
        ensures
            self.end < u64::MAX ==> r == self.end + 1,
            self.end == u64::MAX ==> r == u64::MAX,
    {
        if self.end < u64::MAX {
            self.end + 1
        } else {
            u64::MAX
        }
    }
}

/// The status line and headers the server sends before the bytes of a plan.
pub open spec fn response_head_text(plan: RangePlan, content_type: Seq<char>, size: u64) -> Seq<char> {
    if plan.partial {
        "HTTP/1.1 206 Partial Content\r\nContent-Type: "@ + content_type + "\r\nContent-Length: "@
            + decimal_digits(plan.content_length as nat) + "\r\nContent-Range: bytes "@
            + decimal_digits(plan.start as nat) + "-"@ + decimal_digits(plan.end as nat) + "/"@
            + decimal_digits(size as nat) + "\r\nAccept-Ranges: bytes\r\nConnection: close\r\n\r\n"@
    } else {
        "HTTP/1.1 200 OK\r\nContent-Type: "@ + content_type + "\r\nContent-Length: "@
            + decimal_digits(size as nat) + "\r\nAccept-Ranges: bytes\r\nConnection: close\r\n\r\n"@
    }
}

/// Whether `needle` occurs in `text` as a run of consecutive characters.
pub open spec fn occurs_in(needle: Seq<char>, text: Seq<char>) -> bool {
    exists|i: int| 0 <= i && i + needle.len() <= text.len() && #[trigger] text.subrange(i, i + needle.len()) == needle
}

proof fn lemma_head_lines(plan: RangePlan, content_type: Seq<char>, size: u64)
    ensures
        plan.partial ==> response_head_text(plan, content_type, size) == "HTTP/1.1 206 Partial Content\r\n"@
            + "Content-Type: "@ + content_type + "\r\n"@ + "Content-Length: "@ + decimal_digits(
            plan.content_length as nat,
        ) + "\r\n"@ + "Content-Range: bytes "@ + decimal_digits(plan.start as nat) + "-"@
            + decimal_digits(plan.end as nat) + "/"@ + decimal_digits(size as nat) + "\r\n"@
            + "Accept-Ranges: bytes\r\n"@ + "Connection: close\r\n"@ + "\r\n"@,
        !plan.partial ==> response_head_text(plan, content_type, size) == "HTTP/1.1 200 OK\r\n"@
            + "Content-Type: "@ + content_type + "\r\n"@ + "Content-Length: "@ + decimal_digits(size as nat)
            + "\r\n"@ + "Accept-Ranges: bytes\r\n"@ + "Connection: close\r\n"@ + "\r\n"@,
{
    reveal_strlit("HTTP/1.1 206 Partial Content\r\nContent-Type: ");
    reveal_strlit("HTTP/1.1 206 Partial Content\r\n");
    reveal_strlit("Content-Type: ");
    reveal_strlit("\r\nContent-Length: ");
    reveal_strlit("\r\n");
    reveal_strlit("Content-Length: ");
    reveal_strlit("\r\nContent-Range: bytes ");
    reveal_strlit("Content-Range: bytes ");
    reveal_strlit("\r\nAccept-Ranges: bytes\r\nConnection: close\r\n\r\n");
    reveal_strlit("Accept-Ranges: bytes\r\n");
    reveal_strlit("Connection: close\r\n");
    reveal_strlit("HTTP/1.1 200 OK\r\nContent-Type: ");
    reveal_strlit("HTTP/1.1 200 OK\r\n");
    let t = response_head_text(plan, content_type, size);
    if plan.partial {
        assert(t =~= "HTTP/1.1 206 Partial Content\r\n"@ + "Content-Type: "@ + content_type + "\r\n"@
            + "Content-Length: "@ + decimal_digits(plan.content_length as nat) + "\r\n"@
            + "Content-Range: bytes "@ + decimal_digits(plan.start as nat) + "-"@ + decimal_digits(
            plan.end as nat,
        ) + "/"@ + decimal_digits(size as nat) + "\r\n"@ + "Accept-Ranges: bytes\r\n"@
            + "Connection: close\r\n"@ + "\r\n"@);
    } else {
        assert(t =~= "HTTP/1.1 200 OK\r\n"@ + "Content-Type: "@ + content_type + "\r\n"@
            + "Content-Length: "@ + decimal_digits(size as nat) + "\r\n"@ + "Accept-Ranges: bytes\r\n"@
            + "Connection: close\r\n"@ + "\r\n"@);
    }
}

/// The head follows the plan: a ranged plan, whatever range it holds, gets the status
/// line `206 Partial Content` and announces its own length and its range of the object; a
/// plan without a range gets `200 OK` and announces the object's size.
pub proof fn lemma_head_follows_plan(plan: RangePlan, content_type: Seq<char>, size: u64)
    ensures
        plan.partial ==> response_head_text(plan, content_type, size).take(30)
            == "HTTP/1.1 206 Partial Content\r\n"@,
        plan.partial ==> occurs_in(
            "\r\n"@ + "Content-Length: "@ + decimal_digits(plan.content_length as nat) + "\r\n"@,
            response_head_text(plan, content_type, size),
        ),
        plan.partial ==> occurs_in(
            "\r\n"@ + "Content-Range: bytes "@ + decimal_digits(plan.start as nat) + "-"@ + decimal_digits(
                plan.end as nat,
            ) + "/"@ + decimal_digits(size as nat) + "\r\n"@,
            response_head_text(plan, content_type, size),
        ),
        !plan.partial ==> response_head_text(plan, content_type, size).take(17) == "HTTP/1.1 200 OK\r\n"@,
        !plan.partial ==> occurs_in(
            "\r\n"@ + "Content-Length: "@ + decimal_digits(size as nat) + "\r\n"@,
            response_head_text(plan, content_type, size),
        ),
{
    lemma_head_lines(plan, content_type, size);
    reveal_strlit("HTTP/1.1 206 Partial Content\r\n");
    reveal_strlit("HTTP/1.1 200 OK\r\n");
    reveal_strlit("Content-Type: ");
    reveal_strlit("\r\n");
    reveal_strlit("Content-Length: ");
    reveal_strlit("Content-Range: bytes ");
    reveal_strlit("-");
    reveal_strlit("/");
    let t = response_head_text(plan, content_type, size);
    if plan.partial {
        let status = "HTTP/1.1 206 Partial Content\r\n"@;
        let a = status + "Content-Type: "@ + content_type;
        let len_line = "\r\n"@ + "Content-Length: "@ + decimal_digits(plan.content_length as nat) + "\r\n"@;
        let b = a + "\r\n"@ + "Content-Length: "@ + decimal_digits(plan.content_length as nat);
        let range_line = "\r\n"@ + "Content-Range: bytes "@ + decimal_digits(plan.start as nat) + "-"@
            + decimal_digits(plan.end as nat) + "/"@ + decimal_digits(size as nat) + "\r\n"@;
        assert(t.take(30) =~= status);
        assert(t.subrange(a.len() as int, (a.len() + len_line.len()) as int) =~= len_line);
        assert(t.subrange(b.len() as int, (b.len() + range_line.len()) as int) =~= range_line);
    } else {
        let status = "HTTP/1.1 200 OK\r\n"@;
        let a = status + "Content-Type: "@ + content_type;
        let len_line = "\r\n"@ + "Content-Length: "@ + decimal_digits(size as nat) + "\r\n"@;
        assert(t.take(17) =~= status);
        assert(t.subrange(a.len() as int, (a.len() + len_line.len()) as int) =~= len_line);
    }
}

/// The status line and headers for a plan: `206 Partial Content` with the range for a
/// ranged request, `200 OK` otherwise.
pub fn response_head(plan: &RangePlan, content_type: &str, size: u64) -> (r: String)
    ensures
        r@ == response_head_text(*plan, content_type@, size),
        plan.partial ==> r@ == "HTTP/1.1 206 Partial Content\r\n"@ + "Content-Type: "@ + content_type@
            + "\r\n"@ + "Content-Length: "@ + decimal_digits(plan.content_length as nat) + "\r\n"@
            + "Content-Range: bytes "@ + decimal_digits(plan.start as nat) + "-"@ + decimal_digits(
            plan.end as nat,
        ) + "/"@ + decimal_digits(size as nat) + "\r\n"@ + "Accept-Ranges: bytes\r\n"@
            + "Connection: close\r\n"@ + "\r\n"@,
        !plan.partial ==> r@ == "HTTP/1.1 200 OK\r\n"@ + "Content-Type: "@ + content_type@ + "\r\n"@
            + "Content-Length: "@ + decimal_digits(size as nat) + "\r\n"@ + "Accept-Ranges: bytes\r\n"@
            + "Connection: close\r\n"@ + "\r\n"@,
{
    proof {
        lemma_head_lines(*plan, content_type@, size);
    }
    if plan.partial {
        let mut r = String::from_str("HTTP/1.1 206 Partial Content\r\nContent-Type: ");
        r.append(content_type);
        r.append("\r\nContent-Length: ");
        r.append(decimal_string(plan.content_length).as_str());
        r.append("\r\nContent-Range: bytes ");
        r.append(decimal_string(plan.start).as_str());
        r.append("-");
        r.append(decimal_string(plan.end).as_str());
        r.append("/");
        r.append(decimal_string(size).as_str());
        r.append("\r\nAccept-Ranges: bytes\r\nConnection: close\r\n\r\n");
        r
    } else {
        let mut r = String::from_str("HTTP/1.1 200 OK\r\nContent-Type: ");
        r.append(content_type);
        r.append("\r\nContent-Length: ");
        r.append(decimal_string(size).as_str());
        r.append("\r\nAccept-Ranges: bytes\r\nConnection: close\r\n\r\n");
        r
    }
}

/// What the server sends after the head is what the head announces: for a plan over the
/// bytes a packer was fed (as `plan_range` makes it for their size), the pieces of the
/// entries that meet `[start, end + 1)`, restored and joined in index order, are exactly
/// the source bytes `start` to `end`, `content_length` of them.
pub proof fn lemma_body_matches_head(p: Packer, plan: RangePlan)
    requires
        p.wf(),
        p.digests_distinct(),
        plan.start <= plan.end < p.source().len(),
        plan.content_length == plan.end - plan.start + 1,
        forall|i: int|
            0 <= i < p.entries().len() && overlaps(
                #[trigger] p.entries()[i],
                plan.start as int,
                plan.end + 1,
            ) ==> p.entries()[i].source_length <= MAX_DECOMPRESSED_CHUNK,
    ensures
        joined(
            p.entries(),
            source_pieces(p.source(), p.entries(), plan.start as int, plan.end + 1),
            plan.start as int,
            plan.end + 1,
            p.entries().len() as int,
        ) == p.source().subrange(plan.start as int, plan.end + 1),
        p.source().subrange(plan.start as int, plan.end + 1).len() == plan.content_length,
{
    lemma_range_roundtrip(p, plan.start as int, plan.end + 1);
}

} // verus!

use vstd::prelude::*;
use vstd::string::StringSliceAdditionalSpecFns;

verus! {

broadcast use vstd::string::group_string_axioms;

/// The lower-case hexadecimal digit for a value below 16.
pub open spec fn hex_digit(v: int) -> char {
    if v < 10 {
        (v + 48) as char
    } else {
        (v + 87) as char
    }
}

/// Lower-case hexadecimal text of a byte string: two digits per byte, high nibble first.
pub open spec fn hex_encode(b: Seq<u8>) -> Seq<char> {
    Seq::new(
        2 * b.len(),
        |i: int|
            if i % 2 == 0 {
                hex_digit((b[i / 2] / 16) as int)
            } else {
                hex_digit((b[i / 2] % 16) as int)
            },
    )
}

/// A character that denotes a hexadecimal digit, in either case.
pub open spec fn is_hex_char(c: char) -> bool {
    ||| '0' <= c <= '9'
    ||| 'A' <= c <= 'F'
    ||| 'a' <= c <= 'f'
}

/// The value of a hexadecimal digit.
pub open spec fn hex_value(c: char) -> int {
    if (c as u32) <= 57 {
        c as u32 - 48
    } else if (c as u32) <= 70 {
        c as u32 - 55
    } else {
        c as u32 - 87
    }
}

/// The bytes that hexadecimal text denotes: `None` for text of odd length or with a
/// character that is not a hexadecimal digit.
pub open spec fn hex_decode(s: Seq<char>) -> Option<Seq<u8>> {
    if s.len() % 2 == 0 && forall|i: int| 0 <= i < s.len() ==> #[trigger] is_hex_char(s[i]) {
        Some(Seq::new(s.len() / 2, |i: int| (hex_value(s[2 * i]) * 16 + hex_value(s[2 * i + 1])) as u8))
    } else {
        None
    }
}

/// Appends one character to a string (`String::push`).
#[verifier::external_body]
pub(crate) fn push_char(s: &mut String, c: char)
    ensures
        final(s)@ == old(s)@.push(c),
{
    s.push(c)
}

fn digit_char(v: u8) -> (c: char)
    requires
        v < 16,
    ensures
        c == hex_digit(v as int),
        is_hex_char(c),
        hex_value(c) == v,
{
    if v < 10 {
        (v + 48) as char
    } else {
        (v + 87) as char
    }
}

/// Lower-case hexadecimal text of `bytes`.
pub fn hex_string(bytes: &[u8]) -> (s: String)
    ensures
        s@ == hex_encode(bytes@),
{
    let mut s = String::new();
    let n = bytes.len();
    for i in 0..n
        invariant
            n == bytes@.len(),
            s@.len() == 2 * i,
            forall|j: int| 0 <= j < 2 * i ==> s@[j] == #[trigger] hex_encode(bytes@)[j],
    {
        let b = bytes[i];
        push_char(&mut s, digit_char(b / 16));
        push_char(&mut s, digit_char(b % 16));
    }
    assert(s@ =~= hex_encode(bytes@));
    s
}

fn value_of_digit(c: u8) -> (r: Option<u8>)
    ensures
        match r {
            Some(v) => is_hex_char(c as char) && v == hex_value(c as char) && v < 16,
            None => !is_hex_char(c as char),
        },
{
    if 48 <= c && c <= 57 {
        Some(c - 48)
    } else if 65 <= c && c <= 70 {
        Some(c - 55)
    } else if 97 <= c && c <= 102 {
        Some(c - 87)
    } else {
        None
    }
}

/// The bytes that the hexadecimal text `s` denotes, or `None` where it denotes none.
pub fn decode_hex(s: &str) -> (r: Option<Vec<u8>>)
    ensures
        match r {
            Some(v) => hex_decode(s@) == Some(v@),
            None => hex_decode(s@) is None,
        },
{
    if !s.is_ascii() {
        proof {
            let k = choose|k: int| 0 <= k < s@.len() && !('\0' <= #[trigger] s@[k] <= '\u{7f}');
            assert(!is_hex_char(s@[k]));
        }
        return None;
    }
    proof {
        vstd::string::is_ascii_spec_bytes(s);
        assert(s.spec_bytes().len() == s@.len());
    }
    let b = s.as_bytes();
    let n = b.len();
    if n % 2 != 0 {
        return None;
    }
    let mut out: Vec<u8> = Vec::new();
    let mut i: usize = 0;
    while i < n / 2
        invariant
            n == s@.len(),
            n % 2 == 0,
            s.is_ascii(),
            b@ == s.spec_bytes(),
            forall|j: int| 0 <= j < n ==> #[trigger] b@[j] == s@[j] as u8,
            forall|j: int| 0 <= j < n ==> '\0' <= #[trigger] s@[j] <= '\u{7f}',
            i <= n / 2,
            out@.len() == i,
            forall|j: int| 0 <= j < 2 * i ==> #[trigger] is_hex_char(s@[j]),
            forall|j: int|
                0 <= j < i ==> out@[j] == #[trigger] ((hex_value(s@[2 * j]) * 16 + hex_value(
                    s@[2 * j + 1],
                )) as u8),
        decreases n / 2 - i,
    {
        let hi = b[2 * i];
        let lo = b[2 * i + 1];
        match (value_of_digit(hi), value_of_digit(lo)) {
            (Some(h), Some(l)) => {
                assert(hi as char == s@[2 * i as int]);
                assert(lo as char == s@[2 * i + 1]);
                out.push(h * 16 + l);
                i = i + 1;
            },
            _ => {
                assert(hi as char == s@[2 * i as int]);
                assert(lo as char == s@[2 * i + 1]);
                return None;
            },
        }
    }
    assert(out@ =~= Seq::new(
        s@.len() / 2,
        |j: int| (hex_value(s@[2 * j]) * 16 + hex_value(s@[2 * j + 1])) as u8,
    ));
    Some(out)
}

/// Decoding the hexadecimal text of any byte string gives back that byte string.
pub proof fn lemma_hex_roundtrip(b: Seq<u8>)
    ensures
        hex_decode(hex_encode(b)) == Some(b),
{
    let s = hex_encode(b);
    assert forall|i: int| 0 <= i < s.len() implies #[trigger] is_hex_char(s[i]) by {
        let v = if i % 2 == 0 { b[i / 2] / 16 } else { b[i / 2] % 16 };
        assert(0 <= v < 16);
    }
    let d = hex_decode(s).unwrap();
    assert forall|i: int| 0 <= i < b.len() implies d[i] == b[i] by {
        assert((2 * i) % 2 == 0);
        assert((2 * i + 1) % 2 == 1);
        assert((2 * i) / 2 == i);
        assert((2 * i + 1) / 2 == i);
        let x = b[i];
        assert(x == (x / 16) * 16 + x % 16);
    }
    assert(d =~= b);
}

} // verus!

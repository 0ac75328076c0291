use vstd::prelude::*;
use vstd::utf8::{encode_utf8, is_ascii_chars, is_ascii_chars_encode_utf8};

verus! {

/// The character of a decimal digit.
pub open spec fn digit_char(d: nat) -> char {
    if d == 0 {
        '0'
    } else if d == 1 {
        '1'
    } else if d == 2 {
        '2'
    } else if d == 3 {
        '3'
    } else if d == 4 {
        '4'
    } else if d == 5 {
        '5'
    } else if d == 6 {
        '6'
    } else if d == 7 {
        '7'
    } else if d == 8 {
        '8'
    } else {
        '9'
    }
}

/// The decimal notation of `n`, without sign or leading zeros.
pub open spec fn decimal(n: nat) -> Seq<char>
    decreases n,
{
    if n < 10 {
        seq![digit_char(n)]
    } else {
        decimal(n / 10).push(digit_char(n % 10))
    }
}

/// The number that two bytes encode in little-endian order.
pub open spec fn le_u16(bytes: Seq<u8>) -> nat {
    (bytes[0] + 256 * bytes[1]) as nat
}

fn digit_str(d: u32) -> (s: &'static str)
    requires
        d < 10,
    ensures
        s@ == seq![digit_char(d as nat)],
{
    proof {
        reveal_strlit("0");
        reveal_strlit("1");
        reveal_strlit("2");
        reveal_strlit("3");
        reveal_strlit("4");
        reveal_strlit("5");
        reveal_strlit("6");
        reveal_strlit("7");
        reveal_strlit("8");
        reveal_strlit("9");
    }
    match d {
        0 => "0",
        1 => "1",
        2 => "2",
        3 => "3",
        4 => "4",
        5 => "5",
        6 => "6",
        7 => "7",
        8 => "8",
        _ => "9",
    }
}

/// Writes `n` in decimal notation, as `n.to_string()` does.
pub fn decimal_string(n: u32) -> (s: String)
    ensures
        s@ == decimal(n as nat),
    decreases n,
{
    if n < 10 {
        String::from_str(digit_str(n))
    } else {
        let mut s = decimal_string(n / 10);
        s.append(digit_str(n % 10));
        s
    }
}

/// The two bytes of `num`, least significant first.
pub open spec fn u16_le_bytes(num: u16) -> Seq<u8> {
    seq![(num % 256) as u8, (num / 256) as u8]
}

/// The two bytes of `num`, least significant first.
pub fn encode_u16(num: u16) -> (bytes: [u8; 2])
    ensures
        bytes@ == u16_le_bytes(num),
        bytes@.len() == 2,
        bytes@[0] == num % 256,
        bytes@[1] == num / 256,
{
    let bytes = [(num % 256) as u8, (num / 256) as u8];
    assert(bytes@ =~= u16_le_bytes(num));
    bytes
}

/// The decimal notation of the number that the two bytes of `bytes`
/// encode, least significant first.
pub fn decode_u16(bytes: &[u8]) -> (s: String)
    requires
        bytes@.len() == 2,
    ensures
        s@ == decimal(le_u16(bytes@)),
        s@ == decimal((bytes@[0] + 256 * bytes@[1]) as nat),
{
    let value: u32 = bytes[0] as u32 + 256 * (bytes[1] as u32);
    decimal_string(value)
}

/// Decoding what `encode_u16` wrote gives back the number, and
/// `decode_u16` writes it in decimal.
pub proof fn lemma_decode_encode_u16(num: u16)
    ensures
        le_u16(u16_le_bytes(num)) == num,
        decimal(le_u16(u16_le_bytes(num))) == decimal(num as nat),
{
}

/// Whether `b` is an ASCII decimal digit.
pub open spec fn is_digit(b: u8) -> bool {
    48 <= b <= 57
}

/// Whether every byte of `s` is a decimal digit.
pub open spec fn all_digits(s: Seq<u8>) -> bool {
    forall|i: int| 0 <= i < s.len() ==> #[trigger] is_digit(s[i])
}

/// The number that a string of decimal digits denotes.
pub open spec fn digits_value(s: Seq<u8>) -> nat
    decreases s.len(),
{
    if s.len() == 0 {
        0
    } else {
        digits_value(s.drop_last()) * 10 + (s.last() - 48) as nat
    }
}

/// The digits of an unsigned number in text: what follows one optional `+`.
pub open spec fn unsigned_digits(s: Seq<u8>) -> Seq<u8> {
    if s.len() > 0 && s[0] == 43 {
        s.drop_first()
    } else {
        s
    }
}

/// The unsigned number that `s` denotes, as `str::parse` reads one of an
/// unsigned integer type whose largest value is `max`: an optional `+` and at
/// least one decimal digit, with a value of at most `max`; `None` for any
/// other text.
pub open spec fn parse_unsigned(s: Seq<u8>, max: nat) -> Option<nat> {
    let d = unsigned_digits(s);
    if d.len() > 0 && all_digits(d) && digits_value(d) <= max {
        Some(digits_value(d))
    } else {
        None
    }
}

/// A string of digits denotes at least what each of its prefixes denotes.
pub proof fn lemma_digits_value_prefix(s: Seq<u8>, k: int)
    requires
        0 <= k <= s.len(),
        all_digits(s),
    ensures
        digits_value(s.subrange(0, k)) <= digits_value(s),
    decreases s.len(),
{
    if k < s.len() {
        let t = s.drop_last();
        assert(all_digits(t)) by {
            assert forall|i: int| 0 <= i < t.len() implies #[trigger] is_digit(t[i]) by {
                assert(is_digit(s[i]));
            }
        }
        lemma_digits_value_prefix(t, k);
        assert(t.subrange(0, k) =~= s.subrange(0, k));
        assert(is_digit(s[s.len() - 1]));
    } else {
        assert(s.subrange(0, k) =~= s);
    }
}

/// Reads the unsigned number in `bytes[start..end]`, as `str::parse` does for
/// an unsigned integer type whose largest value is `max`.
pub fn parse_unsigned_at(bytes: &[u8], start: usize, end: usize, max: u32) -> (r: Option<u32>)
    requires
        start <= end <= bytes@.len(),
        max <= 65535,
    ensures
        match r {
            Some(v) => parse_unsigned(bytes@.subrange(start as int, end as int), max as nat) == Some(
                v as nat,
            ),
            None => parse_unsigned(bytes@.subrange(start as int, end as int), max as nat) is None,
        },
{
    let ghost s = bytes@.subrange(start as int, end as int);
    let mut first = start;
    if start < end && bytes[start] == 43 {
        first = start + 1;
    }
    let ghost d = bytes@.subrange(first as int, end as int);
    assert(unsigned_digits(s) =~= d);
    if first == end {
        return None;
    }
    let mut acc: u32 = 0;
    let mut i = first;
    while i < end
        invariant
            start <= first <= i <= end <= bytes@.len(),
            max <= 65535,
            s == bytes@.subrange(start as int, end as int),
            d == bytes@.subrange(first as int, end as int),
            unsigned_digits(s) == d,
            d.len() > 0,
            all_digits(bytes@.subrange(first as int, i as int)),
            acc == digits_value(bytes@.subrange(first as int, i as int)),
            acc <= max,
        decreases end - i,
    {
        let b = bytes[i];
        if b < 48 || b > 57 {
            assert(!is_digit(d[i - first]));
            return None;
        }
        let next = acc * 10 + (b - 48) as u32;
        proof {
            let p = bytes@.subrange(first as int, i + 1);
            assert(p.drop_last() =~= bytes@.subrange(first as int, i as int));
            assert(all_digits(p)) by {
                assert forall|j: int| 0 <= j < p.len() implies #[trigger] is_digit(p[j]) by {
                    if j < p.len() - 1 {
                        assert(p[j] == bytes@.subrange(first as int, i as int)[j]);
                    }
                }
            }
        }
        if next > max {
            proof {
                if all_digits(d) {
                    lemma_digits_value_prefix(d, i + 1 - first);
                    assert(d.subrange(0, i + 1 - first) =~= bytes@.subrange(first as int, i + 1));
                }
            }
            return None;
        }
        acc = next;
        i = i + 1;
    }
    assert(bytes@.subrange(first as int, i as int) =~= d);
    Some(acc)
}

/// The first index from `start` on at which `bytes` holds `sep`, or the
/// length of `bytes` if there is none.
pub open spec fn find_from(bytes: Seq<u8>, start: int, sep: u8) -> int
    decreases bytes.len() - start,
{
    if start >= bytes.len() {
        bytes.len() as int
    } else if bytes[start] == sep {
        start
    } else {
        find_from(bytes, start + 1, sep)
    }
}

/// `find_from` finds the first `sep` from `start` on.
pub proof fn lemma_find_from(bytes: Seq<u8>, start: int, sep: u8)
    requires
        start <= bytes.len(),
    ensures
        start <= find_from(bytes, start, sep) <= bytes.len(),
        forall|j: int| start <= j < find_from(bytes, start, sep) ==> bytes[j] != sep,
        find_from(bytes, start, sep) < bytes.len() ==> bytes[find_from(bytes, start, sep)] == sep,
    decreases bytes.len() - start,
{
    if start < bytes.len() && bytes[start] != sep {
        lemma_find_from(bytes, start + 1, sep);
    }
}

/// The first index from `start` on at which `bytes` holds `sep`, or the
/// length of `bytes`.
pub fn find_byte_from(bytes: &[u8], start: usize, sep: u8) -> (end: usize)
    requires
        start <= bytes@.len(),
    ensures
        end == find_from(bytes@, start as int, sep),
{
    proof {
        lemma_find_from(bytes@, start as int, sep);
    }
    let mut i = start;
    while i < bytes.len() && bytes[i] != sep
        invariant
            start <= i <= bytes@.len(),
            find_from(bytes@, i as int, sep) == find_from(bytes@, start as int, sep),
        decreases bytes@.len() - i,
    {
        i = i + 1;
    }
    i
}

/// A vector holding the bytes of `s`.
pub fn bytes_to_vec(s: &[u8]) -> (v: Vec<u8>)
    ensures
        v@ == s@,
{
    let mut v: Vec<u8> = Vec::new();
    for i in 0..s.len()
        invariant
            v@ == s@.subrange(0, i as int),
    {
        v.push(s[i]);
        assert(v@ =~= s@.subrange(0, i + 1));
    }
    assert(v@ =~= s@);
    v
}

/// The ASCII bytes of the decimal notation of `n`.
pub open spec fn decimal_bytes(n: nat) -> Seq<u8>
    decreases n,
{
    if n < 10 {
        seq![(48 + n) as u8]
    } else {
        decimal_bytes(n / 10).push((48 + n % 10) as u8)
    }
}

/// Each character of the decimal notation is the digit whose ASCII byte
/// stands at the same place of `decimal_bytes`, and those bytes are digits
/// that denote `n`.
pub proof fn lemma_decimal_bytes(n: nat)
    ensures
        decimal(n).len() == decimal_bytes(n).len(),
        decimal_bytes(n).len() > 0,
        is_ascii_chars(decimal(n)),
        forall|i: int| 0 <= i < decimal(n).len() ==> #[trigger] decimal(n)[i] as u8 == decimal_bytes(n)[i],
        all_digits(decimal_bytes(n)),
        digits_value(decimal_bytes(n)) == n,
    decreases n,
{
    let d = n % 10;
    assert(digit_char(d) as u8 == 48 + d && '\0' <= digit_char(d) <= '\u{7f}') by {
        if d == 0 {
        } else if d == 1 {
        } else if d == 2 {
        } else if d == 3 {
        } else if d == 4 {
        } else if d == 5 {
        } else if d == 6 {
        } else if d == 7 {
        } else if d == 8 {
        } else {
        }
    }
    if n >= 10 {
        lemma_decimal_bytes(n / 10);
        let b = decimal_bytes(n);
        assert(b.drop_last() =~= decimal_bytes(n / 10));
        assert((n / 10) * 10 + n % 10 == n);
        assert(b.last() == 48 + n % 10);
        assert(digits_value(b) == digits_value(decimal_bytes(n / 10)) * 10 + (b.last() - 48) as nat);
        assert(all_digits(b)) by {
            assert forall|i: int| 0 <= i < b.len() implies #[trigger] is_digit(b[i]) by {
                if i < b.len() - 1 {
                    assert(b[i] == decimal_bytes(n / 10)[i]);
                }
            }
        }
        assert(is_ascii_chars(decimal(n))) by {
            assert forall|i: int| 0 <= i < decimal(n).len() implies '\0' <= #[trigger] decimal(n)[i] <= '\u{7f}' by {
                if i < decimal(n).len() - 1 {
                    assert(decimal(n)[i] == decimal(n / 10)[i]);
                }
            }
        }
        assert forall|i: int| 0 <= i < decimal(n).len() implies #[trigger] decimal(n)[i] as u8 == decimal_bytes(n)[i] by {
            if i < decimal(n).len() - 1 {
                assert(decimal(n)[i] == decimal(n / 10)[i]);
                assert(b[i] == decimal_bytes(n / 10)[i]);
            }
        }
    } else {
        assert(decimal_bytes(n).drop_last() =~= Seq::<u8>::empty());
        assert(decimal_bytes(n).last() == 48 + n);
        assert(digits_value(Seq::<u8>::empty()) == 0);
        assert(is_digit(decimal_bytes(n)[0]));
    }
}

/// The UTF-8 bytes of the decimal notation of `n` are its ASCII digits.
pub proof fn lemma_decimal_utf8(n: nat)
    ensures
        encode_utf8(decimal(n)) == decimal_bytes(n),
{
    lemma_decimal_bytes(n);
    is_ascii_chars_encode_utf8(decimal(n));
    assert(encode_utf8(decimal(n)) =~= decimal_bytes(n));
}

/// Reading the ASCII digits of `n` as `str::parse` does gives `n` back, for
/// any type whose largest value is at least `n`.
pub proof fn lemma_decimal_bytes_parse(n: nat, max: nat)
    requires
        n <= max,
    ensures
        parse_unsigned(decimal_bytes(n), max) == Some(n),
{
    lemma_decimal_bytes(n);
    assert(is_digit(decimal_bytes(n)[0]));
    assert(unsigned_digits(decimal_bytes(n)) == decimal_bytes(n));
}

/// Reading the decimal notation of `n` as `str::parse` does gives `n` back,
/// for any type whose largest value is at least `n`.
pub proof fn lemma_decimal_parses_back(n: nat, max: nat)
    requires
        n <= max,
    ensures
        parse_unsigned(encode_utf8(decimal(n)), max) == Some(n),
{
    lemma_decimal_utf8(n);
    lemma_decimal_bytes_parse(n, max);
}

/// The text that `decode_u16` writes parses back, as a `u16`, to the number
/// that the two bytes encode, and encoding that number gives the two bytes
/// back.
pub proof fn lemma_decode_u16_parses_back(bytes: Seq<u8>)
    requires
        bytes.len() == 2,
    ensures
        le_u16(bytes) <= 65535,
        parse_unsigned(encode_utf8(decimal(le_u16(bytes))), 65535) == Some(le_u16(bytes)),
        u16_le_bytes(le_u16(bytes) as u16) == bytes,
{
    let v = le_u16(bytes);
    let b0 = bytes[0];
    let b1 = bytes[1];
    assert(v % 256 == b0 && v / 256 == b1) by (nonlinear_arith)
        requires
            v == b0 + 256 * b1,
            0 <= b0 < 256,
            0 <= b1 < 256,
    ;
    lemma_decimal_parses_back(v, 65535);
    assert(u16_le_bytes(v as u16) =~= bytes);
}

/// The first `sep` from `start` on is at `k` when none stands before it.
pub proof fn lemma_find_from_at(bytes: Seq<u8>, start: int, k: int, sep: u8)
    requires
        0 <= start <= k <= bytes.len(),
        forall|j: int| start <= j < k ==> bytes[j] != sep,
        k == bytes.len() || bytes[k] == sep,
    ensures
        find_from(bytes, start, sep) == k,
    decreases k - start,
{
    if start < k {
        lemma_find_from_at(bytes, start + 1, k, sep);
    }
}

} // verus!

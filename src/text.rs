//! Text forms of numbers: decimal and hexadecimal, on ASCII bytes.

use vstd::prelude::*;
use vstd::string::{StringExecFns, StringSliceAdditionalSpecFns};

verus! {

/// '0' to '9'.
pub open spec fn is_digit(c: u8) -> bool {
    48 <= c <= 57
}

/// '0' to '9', 'a' to 'f' or 'A' to 'F'.
pub open spec fn is_hex(c: u8) -> bool {
    is_digit(c) || (97 <= c <= 102) || (65 <= c <= 70)
}

/// The value of a hexadecimal digit.
pub open spec fn hex_val(c: u8) -> int {
    if is_digit(c) {
        c - 48
    } else if 97 <= c <= 102 {
        c - 87
    } else {
        c - 55
    }
}

/// Every byte of `s` is a decimal digit.
pub open spec fn all_digits(s: Seq<u8>) -> bool {
    forall|i: int| 0 <= i < s.len() ==> #[trigger] is_digit(s[i])
}

/// Every byte of `s` is a hexadecimal digit.
pub open spec fn all_hex(s: Seq<u8>) -> bool {
    forall|i: int| 0 <= i < s.len() ==> #[trigger] is_hex(s[i])
}

/// The number that the decimal digits `s` write.
pub open spec fn dec_value(s: Seq<u8>) -> int
    decreases s.len(),
{
    if s.len() == 0 {
        0
    } else {
        dec_value(s.drop_last()) * 10 + (s.last() - 48)
    }
}

/// `s` writes a byte in decimal: one or more digits, of value at most 255.
pub open spec fn is_decimal_byte(s: Seq<u8>) -> bool {
    s.len() > 0 && all_digits(s) && dec_value(s) <= 255
}

/// The bytes that a string of hexadecimal digit pairs encodes.
pub open spec fn hex_bytes(s: Seq<u8>) -> Seq<u8> {
    Seq::new(s.len() / 2, |i: int| (hex_val(s[2 * i]) * 16 + hex_val(s[2 * i + 1])) as u8)
}

/// The lower-case hexadecimal digit of value `d`.
pub open spec fn hex_digit(d: int) -> char {
    if d < 10 {
        (48 + d) as char
    } else {
        (87 + d) as char
    }
}

/// Two lower-case hexadecimal digits for each byte, the high one first.
pub open spec fn hex_chars(b: Seq<u8>) -> Seq<char> {
    Seq::new(
        2 * b.len(),
        |i: int|
            if i % 2 == 0 {
                hex_digit((b[i / 2] / 16) as int)
            } else {
                hex_digit((b[i / 2] % 16) as int)
            },
    )
}

/// The decimal digits of `v`, without leading zeros.
pub open spec fn dec_chars(v: u8) -> Seq<char> {
    if v >= 100 {
        seq![(48 + v / 100) as char, (48 + (v / 10) % 10) as char, (48 + v % 10) as char]
    } else if v >= 10 {
        seq![(48 + v / 10) as char, (48 + v % 10) as char]
    } else {
        seq![(48 + v) as char]
    }
}

/// Index of the first '|' in `s` at or after `from`, or the length of `s`.
pub open spec fn first_bar(s: Seq<u8>, from: int) -> int
    decreases s.len() - from,
{
    if from >= s.len() {
        s.len() as int
    } else if s[from] == 124 {
        from
    } else {
        first_bar(s, from + 1)
    }
}

/// Relies on hex::decode: an even number of hexadecimal digits, either case,
/// decodes to one byte per pair, high digit first; anything else is an error.
#[verifier::external_body]
pub(crate) fn hex_decode(s: &[u8]) -> (r: Option<Vec<u8>>)
    ensures
        r is Some <==> (s@.len() % 2 == 0 && all_hex(s@)),
        r is Some ==> r->0@ == hex_bytes(s@),
{
    hex::decode(s).ok()
}

/// Relies on hex::encode: two lower-case hexadecimal digits per byte.
#[verifier::external_body]
pub(crate) fn hex_encode(b: &[u8]) -> (r: String)
    ensures
        r@ == hex_chars(b@),
{
    hex::encode(b)
}

/// The index of the first '|' in `s`, or its length.
pub fn find_bar(s: &[u8]) -> (r: usize)
    ensures
        r == first_bar(s@, 0),
        r <= s@.len(),
        r < s@.len() ==> s@[r as int] == 124,
        forall|j: int| 0 <= j < r ==> s@[j] != 124,
{
    let mut i: usize = 0;
    while i < s.len()
        invariant
            i <= s@.len(),
            first_bar(s@, 0) == first_bar(s@, i as int),
            forall|j: int| 0 <= j < i ==> s@[j] != 124,
        decreases s@.len() - i,
    {
        if s[i] == 124 {
            return i;
        }
        i += 1;
    }
    i
}

/// A copy of `s[start..end]`.
pub fn copy_range(s: &[u8], start: usize, end: usize) -> (r: Vec<u8>)
    requires
        start <= end <= s@.len(),
    ensures
        r@ == s@.subrange(start as int, end as int),
{
    let mut r: Vec<u8> = Vec::new();
    let mut i = start;
    while i < end
        invariant
            start <= i <= end <= s@.len(),
            r@ == s@.subrange(start as int, i as int),
        decreases end - i,
    {
        r.push(s[i]);
        i += 1;
    }
    r
}

/// Whether every byte of `s` is a hexadecimal digit.
pub fn check_hex(s: &[u8]) -> (r: bool)
    ensures
        r == all_hex(s@),
{
    let mut i: usize = 0;
    while i < s.len()
        invariant
            i <= s@.len(),
            forall|j: int| 0 <= j < i ==> #[trigger] is_hex(s@[j]),
        decreases s@.len() - i,
    {
        let c = s[i];
        if !((48 <= c && c <= 57) || (97 <= c && c <= 102) || (65 <= c && c <= 70)) {
            assert(!is_hex(s@[i as int]));
            return false;
        }
        i += 1;
    }
    true
}

/// Reads a byte written in decimal in `s[start..end]`: one or more digits of
/// value at most 255.
pub fn parse_decimal_byte(s: &[u8], start: usize, end: usize) -> (r: Option<u8>)
    requires
        start <= end <= s@.len(),
    ensures
        r is Some <==> is_decimal_byte(s@.subrange(start as int, end as int)),
        r is Some ==> r->0 == dec_value(s@.subrange(start as int, end as int)),
{
    let ghost d = s@.subrange(start as int, end as int);
    if start == end {
        return None;
    }
    let mut v: u32 = 0;
    let mut i = start;
    while i < end
        invariant
            start <= i <= end <= s@.len(),
            d == s@.subrange(start as int, end as int),
            all_digits(d.subrange(0, i - start)),
            v == dec_value(d.subrange(0, i - start)),
            v <= 255,
        decreases end - i,
    {
        let c = s[i];
        assert(d[i - start] == c);
        assert(d.subrange(0, i - start + 1).drop_last() =~= d.subrange(0, i - start));
        if c < 48 || c > 57 {
            assert(!is_digit(d[i - start]));
            return None;
        }
        let nv = v * 10 + (c - 48) as u32;
        assert(nv == dec_value(d.subrange(0, i - start + 1)));
        if nv > 255 {
            proof {
                if all_digits(d) {
                    lemma_dec_value_prefix(d, i - start + 1);
                }
            }
            return None;
        }
        v = nv;
        i += 1;
        assert(all_digits(d.subrange(0, i - start))) by {
            assert forall|j: int| 0 <= j < i - start implies #[trigger] is_digit(d.subrange(0, i - start)[j]) by {
                if j < i - start - 1 {
                    assert(d.subrange(0, i - start)[j] == d.subrange(0, i - start - 1)[j]);
                }
            }
        }
    }
    assert(d.subrange(0, end - start) =~= d);
    Some(v as u8)
}

/// A prefix of digits never writes more than the whole, nor less than zero.
proof fn lemma_dec_value_prefix(d: Seq<u8>, j: int)
    requires
        all_digits(d),
        0 <= j <= d.len(),
    ensures
        0 <= dec_value(d.subrange(0, j)) <= dec_value(d),
    decreases d.len(),
{
    if d.len() == 0 {
        assert(d.subrange(0, j) =~= d);
    } else {
        let e = d.drop_last();
        assert(all_digits(e)) by {
            assert forall|i: int| 0 <= i < e.len() implies #[trigger] is_digit(e[i]) by {
                assert(e[i] == d[i]);
            }
        }
        assert(is_digit(d[d.len() - 1]));
        lemma_dec_value_prefix(e, e.len() as int);
        assert(e.subrange(0, e.len() as int) =~= e);
        if j == d.len() {
            assert(d.subrange(0, j) =~= d);
        } else {
            lemma_dec_value_prefix(e, j);
            assert(e.subrange(0, j) =~= d.subrange(0, j));
        }
    }
}

/// The decimal digits of `v`.
pub fn decimal(v: u8) -> (r: String)
    ensures
        r@ == dec_chars(v),
{
    let mut r = String::from_str("");
    proof {
        reveal_strlit("");
    }
    if v >= 100 {
        r.append(digit(v / 100));
    }
    if v >= 10 {
        r.append(digit((v / 10) % 10));
    }
    r.append(digit(v % 10));
    assert(r@ =~= dec_chars(v));
    r
}

/// The decimal digit `d`.
fn digit(d: u8) -> (r: &'static str)
    requires
        d < 10,
    ensures
        r@ == seq![(48 + d) as char],
{
    proof {
        reveal_strlit("0");
        reveal_strlit("1");
        reveal_strlit("2");
        reveal_strlit("3");
        reveal_strlit("4");
        reveal_strlit("5");
        reveal_strlit("6");
        reveal_strlit("7");
        reveal_strlit("8");
        reveal_strlit("9");
    }
    match d {
        0 => "0",
        1 => "1",
        2 => "2",
        3 => "3",
        4 => "4",
        5 => "5",
        6 => "6",
        7 => "7",
        8 => "8",
        _ => "9",
    }
}

/// The bytes of an ASCII text.
pub open spec fn ascii_bytes(cs: Seq<char>) -> Seq<u8> {
    cs.map_values(|c: char| c as u8)
}

/// The hexadecimal digits of a byte string read back as that byte string.
pub proof fn lemma_hex_round_trip(b: Seq<u8>)
    ensures
        all_hex(ascii_bytes(hex_chars(b))),
        ascii_bytes(hex_chars(b)).len() == 2 * b.len(),
        hex_bytes(ascii_bytes(hex_chars(b))) == b,
{
    let s = ascii_bytes(hex_chars(b));
    assert forall|i: int| 0 <= i < s.len() implies #[trigger] is_hex(s[i]) && hex_val(s[i]) == (if i % 2 == 0 {
        b[i / 2] / 16
    } else {
        b[i / 2] % 16
    }) by {
        let d: int = if i % 2 == 0 {
            (b[i / 2] / 16) as int
        } else {
            (b[i / 2] % 16) as int
        };
        assert(0 <= d < 16);
        assert(s[i] == hex_digit(d) as u8);
    }
    assert forall|i: int| 0 <= i < b.len() implies #[trigger] hex_bytes(s)[i] == b[i] by {
        assert((2 * i) % 2 == 0);
        assert((2 * i + 1) % 2 == 1);
        assert((2 * i) / 2 == i);
        assert((2 * i + 1) / 2 == i);
        assert(hex_val(s[2 * i]) == b[i] / 16);
        assert(hex_val(s[2 * i + 1]) == b[i] % 16);
    }
    assert(hex_bytes(s) =~= b);
}

/// The decimal digits of a byte read back as that byte.
pub proof fn lemma_decimal_round_trip(v: u8)
    ensures
        is_decimal_byte(ascii_bytes(dec_chars(v))),
        dec_value(ascii_bytes(dec_chars(v))) == v,
        forall|i: int| 0 <= i < dec_chars(v).len() ==> #[trigger] ascii_bytes(dec_chars(v))[i] != 124,
{
    let s = ascii_bytes(dec_chars(v));
    if v >= 100 {
        let h = (48 + v / 100) as u8;
        let t = (48 + (v / 10) % 10) as u8;
        let o = (48 + v % 10) as u8;
        assert(s =~= seq![h, t, o]);
        assert(s.drop_last() =~= seq![h, t]);
        assert(s.drop_last().drop_last() =~= seq![h]);
        assert(s.drop_last().drop_last().drop_last() =~= Seq::<u8>::empty());
        assert(seq![h].drop_last() =~= Seq::<u8>::empty());
        assert(dec_value(Seq::<u8>::empty()) == 0);
        assert(dec_value(seq![h]) == v / 100);
        assert(dec_value(seq![h, t]) == (v / 100) * 10 + (v / 10) % 10);
        assert(dec_value(s) == ((v / 100) * 10 + (v / 10) % 10) * 10 + v % 10);
    } else if v >= 10 {
        let t = (48 + v / 10) as u8;
        let o = (48 + v % 10) as u8;
        assert(s =~= seq![t, o]);
        assert(s.drop_last() =~= seq![t]);
        assert(s.drop_last().drop_last() =~= Seq::<u8>::empty());
        assert(seq![t].drop_last() =~= Seq::<u8>::empty());
        assert(dec_value(Seq::<u8>::empty()) == 0);
        assert(dec_value(seq![t]) == v / 10);
        assert(dec_value(s) == (v / 10) * 10 + v % 10);
    } else {
        let o = (48 + v) as u8;
        assert(s =~= seq![o]);
        assert(s.drop_last() =~= Seq::<u8>::empty());
        assert(dec_value(Seq::<u8>::empty()) == 0);
        assert(dec_value(s) == v);
    }
}

/// The first '|' after a prefix without one is the one that follows it.
pub proof fn lemma_first_bar_after(s: Seq<u8>, p: int, from: int)
    requires
        0 <= from <= p < s.len(),
        s[p] == 124,
        forall|i: int| from <= i < p ==> s[i] != 124,
    ensures
        first_bar(s, from) == p,
    decreases p - from,
{
    if from < p {
        lemma_first_bar_after(s, p, from + 1);
    }
}

/// The text `prefix | suffix`, for decimal or hexadecimal digits on either
/// side, is ASCII, and its UTF-8 bytes are its characters.
pub proof fn lemma_ascii_line(s: &str, prefix: Seq<char>, suffix: Seq<char>)
    requires
        forall|i: int| 0 <= i < prefix.len() ==> '0' <= #[trigger] prefix[i] <= 'f',
        forall|i: int| 0 <= i < suffix.len() ==> '0' <= #[trigger] suffix[i] <= 'f',
        s@ == prefix + seq!['|'] + suffix,
    ensures
        s.spec_bytes() == ascii_bytes(s@),
{
    assert forall|i: int| 0 <= i < s@.len() implies '\0' <= #[trigger] s@[i] <= '\u{7f}' by {
        if i < prefix.len() {
            assert(s@[i] == prefix[i]);
        } else if i > prefix.len() {
            assert(s@[i] == suffix[i - prefix.len() - 1]);
        } else {
            assert(s@[i] == '|');
        }
    }
    assert(vstd::utf8::is_ascii_chars(s@));
    vstd::string::is_ascii_spec_bytes(s);
    assert(s.spec_bytes() =~= ascii_bytes(s@));
}

/// Decimal digits are the characters '0' to '9'.
pub proof fn lemma_dec_chars_range(v: u8)
    ensures
        forall|i: int| 0 <= i < dec_chars(v).len() ==> '0' <= #[trigger] dec_chars(v)[i] <= '9',
{
}

/// Hexadecimal digits are the characters '0' to '9' and 'a' to 'f'.
pub proof fn lemma_hex_chars_range(b: Seq<u8>)
    ensures
        forall|i: int| 0 <= i < hex_chars(b).len() ==> '0' <= #[trigger] hex_chars(b)[i] <= 'f',
{
    assert forall|i: int| 0 <= i < hex_chars(b).len() implies '0' <= #[trigger] hex_chars(b)[i] <= 'f' by {
        let d: int = if i % 2 == 0 {
            (b[i / 2] / 16) as int
        } else {
            (b[i / 2] % 16) as int
        };
        assert(0 <= d < 16);
    }
}

/// In d | h, where d holds no '|', the first '|' stands right after d.
pub proof fn lemma_split_at_bar(d: Seq<u8>, h: Seq<u8>)
    requires
        forall|i: int| 0 <= i < d.len() ==> #[trigger] d[i] != 124,
    ensures
        first_bar(d + seq![124u8] + h, 0) == d.len(),
        (d + seq![124u8] + h).subrange(0, d.len() as int) == d,
        (d + seq![124u8] + h).subrange(d.len() as int + 1, (d + seq![124u8] + h).len() as int) == h,
{
    let bs = d + seq![124u8] + h;
    assert forall|i: int| 0 <= i < d.len() implies bs[i] != 124 by {
        assert(bs[i] == d[i]);
    }
    lemma_first_bar_after(bs, d.len() as int, 0);
    assert(bs.subrange(0, d.len() as int) =~= d);
    assert(bs.subrange(d.len() as int + 1, bs.len() as int) =~= h);
}

/// The bytes of prefix | suffix are the bytes of each part around '|'.
pub proof fn lemma_ascii_concat(prefix: Seq<char>, suffix: Seq<char>)
    ensures
        ascii_bytes(prefix + seq!['|'] + suffix) == ascii_bytes(prefix) + seq![124u8] + ascii_bytes(suffix),
{
    assert(ascii_bytes(prefix + seq!['|'] + suffix) =~= ascii_bytes(prefix) + seq![124u8] + ascii_bytes(suffix));
}

} // verus!

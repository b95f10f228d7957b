//! Base-40 callsign codec. A callsign occupies a 6-byte big-endian field
//! holding up to nine characters of a 40-symbol alphabet: space, `A`..`Z`,
//! `0`..`9`, `-`, `/`, `.`, in that order of symbol value. The values
//! 0 and 0xFFFFFFFFFFFF and the range starting at 40^9 are reserved.

use vstd::prelude::*;
use vstd::string::StrSliceExecFns;
use vstd::string::StringExecFns;
use crate::strutil::{push_char, spec_upper, spec_upper_char, upper_char};

verus! {

/// The 40-symbol alphabet: space, letters, digits, `-`, `/`, `.`.
pub open spec fn in_alphabet(c: char) -> bool {
    c == ' ' || ('A' <= c && c <= 'Z') || ('0' <= c && c <= '9') || c == '-' || c == '/'
        || c == '.'
}

/// Symbol value of one character; anything outside the alphabet encodes as
/// 0, the value of a space.
pub open spec fn spec_char_to_base40(c: char) -> u64 {
    if 'A' <= c && c <= 'Z' {
        ((c as int) - ('A' as int) + 1) as u64
    } else if '0' <= c && c <= '9' {
        ((c as int) - ('0' as int) + 27) as u64
    } else if c == '-' {
        37
    } else if c == '/' {
        38
    } else if c == '.' {
        39
    } else {
        0
    }
}

/// Character of one symbol value; anything outside 1..=39 decodes as a
/// space.
pub open spec fn spec_base40_to_char(val: u64) -> char {
    if 1 <= val && val <= 26 {
        ((('A' as u8) + (val as u8) - 1) as u8) as char
    } else if 27 <= val && val <= 36 {
        ((('0' as u8) + (val as u8) - 27) as u8) as char
    } else if val == 37 {
        '-'
    } else if val == 38 {
        '/'
    } else if val == 39 {
        '.'
    } else {
        ' '
    }
}

/// Symbol value of one character.
pub fn char_to_base40(c: char) -> (v: u64)
    ensures
        v == spec_char_to_base40(c),
{
    if 'A' <= c && c <= 'Z' {
        (c as u64) - ('A' as u64) + 1
    } else if '0' <= c && c <= '9' {
        (c as u64) - ('0' as u64) + 27
    } else if c == '-' {
        37
    } else if c == '/' {
        38
    } else if c == '.' {
        39
    } else {
        0
    }
}

/// Character of one symbol value.
pub fn base40_to_char(val: u64) -> (c: char)
    ensures
        c == spec_base40_to_char(val),
{
    if 1 <= val && val <= 26 {
        ((('A' as u8) + (val as u8) - 1) as u8) as char
    } else if 27 <= val && val <= 36 {
        ((('0' as u8) + (val as u8) - 27) as u8) as char
    } else if val == 37 {
        '-'
    } else if val == 38 {
        '/'
    } else if val == 39 {
        '.'
    } else {
        ' '
    }
}

/// 40^n.
pub open spec fn pow40(n: nat) -> int
    decreases n,
{
    if n == 0 {
        1
    } else {
        40 * pow40((n - 1) as nat)
    }
}

/// Numeric value of a character sequence read as base-40 digits, least
/// significant first.
pub open spec fn spec_cs_val(s: Seq<char>) -> int
    decreases s.len(),
{
    if s.len() == 0 {
        0
    } else {
        spec_char_to_base40(s[0]) + 40 * spec_cs_val(s.subrange(1, s.len() as int))
    }
}

/// The `n` low base-40 digits of `v`, least significant first, as
/// characters.
pub open spec fn spec_digits(v: u64, n: nat) -> Seq<char>
    decreases n,
{
    if n == 0 {
        Seq::empty()
    } else {
        seq![spec_base40_to_char(v % 40)] + spec_digits(v / 40, (n - 1) as nat)
    }
}

/// The input normalized for encoding: uppercased, then truncated or padded
/// with trailing spaces to exactly nine characters.
pub open spec fn spec_norm9(s: Seq<char>) -> Seq<char> {
    Seq::new(
        9,
        |i: int|
            if i < s.len() {
                spec_upper_char(s[i])
            } else {
                ' '
            },
    )
}

/// The six big-endian bytes of the low 48 bits of `v`.
pub open spec fn spec_be48(v: u64) -> Seq<u8> {
    Seq::new(6, |i: int| ((v >> ((8 * (5 - i)) as u64)) & 0xFF) as u8)
}

/// The value read from a big-endian byte prefix of length `n`.
pub open spec fn spec_be_prefix(bytes: Seq<u8>, n: int) -> u64
    decreases n,
{
    if n <= 0 {
        0
    } else {
        (spec_be_prefix(bytes, n - 1) << 8) | (bytes[n - 1] as u64)
    }
}

/// The value read from six big-endian bytes.
pub open spec fn spec_val48(bytes: Seq<u8>) -> u64 {
    spec_be_prefix(bytes, bytes.len() as int)
}

/// What `encode_callsign` produces: the base-40 value of the normalized
/// input, serialized as six big-endian bytes.
pub open spec fn spec_encode_callsign(s: Seq<char>) -> Seq<u8> {
    spec_be48(spec_cs_val(spec_norm9(s)) as u64)
}

/// The twelve uppercase hex digits of the low 48 bits of `v`, most
/// significant first.
pub open spec fn spec_hex12(v: u64) -> Seq<char> {
    Seq::new(12, |i: int| spec_hex_char((v >> ((4 * (11 - i)) as u64)) & 0xF))
}

/// Uppercase hex digit of a value below 16.
pub open spec fn spec_hex_char(d: u64) -> char {
    if d < 10 {
        ((('0' as u8) + (d as u8)) as u8) as char
    } else {
        ((('A' as u8) + (d as u8) - 10) as u8) as char
    }
}

/// What `decode_callsign` produces for a 6-byte field: the reserved names
/// for the reserved values, otherwise the nine base-40 digit characters,
/// least significant first, trailing spaces preserved.
pub open spec fn spec_decode_callsign(bytes: Seq<u8>) -> Seq<char> {
    let v = spec_val48(bytes);
    if v == 0 {
        "INVALID"@
    } else if v == 0xFFFFFFFFFFFF {
        "BROADCAST"@
    } else if 0xEE6B28000000 <= v && v <= 0xFFFFFFFFFFFE {
        "RESERVED-"@ + spec_hex12(v)
    } else {
        spec_digits(v, 9)
    }
}

proof fn lemma_pow40_vals()
    ensures
        pow40(8) == 6553600000000,
        pow40(9) == 0xEE6B28000000,
{
    reveal_with_fuel(pow40, 10);
}

proof fn lemma_pow40_pos(n: nat)
    ensures
        pow40(n) >= 1,
    decreases n,
{
    if n > 0 {
        lemma_pow40_pos((n - 1) as nat);
    }
}

proof fn lemma_pow40_mono(a: nat, b: nat)
    requires
        a <= b,
    ensures
        pow40(a) <= pow40(b),
    decreases b,
{
    if a < b {
        lemma_pow40_mono(a, (b - 1) as nat);
        lemma_pow40_pos((b - 1) as nat);
    }
}

/// The base-40 value of a sequence is nonnegative and below 40^len.
pub proof fn lemma_cs_val_bounds(s: Seq<char>)
    ensures
        0 <= spec_cs_val(s) < pow40(s.len()),
    decreases s.len(),
{
    if s.len() > 0 {
        let rest = s.subrange(1, s.len() as int);
        lemma_cs_val_bounds(rest);
        let d = spec_char_to_base40(s[0]) as int;
        let r = spec_cs_val(rest);
        let p = pow40(rest.len());
        assert(0 <= d < 40);
        assert(d + 40 * r < 40 * p) by (nonlinear_arith)
            requires
                0 <= d < 40,
                0 <= r < p,
        ;
        assert(0 <= 40 * r) by (nonlinear_arith)
            requires
                0 <= r,
        ;
    }
}

/// Appending one character adds its symbol value at the next power of 40.
pub proof fn lemma_cs_val_snoc(s: Seq<char>, c: char)
    ensures
        spec_cs_val(s.push(c)) == spec_cs_val(s) + spec_char_to_base40(c) * pow40(s.len()),
    decreases s.len(),
{
    if s.len() == 0 {
        assert(s.push(c)[0] == c);
        assert(spec_cs_val(Seq::<char>::empty()) == 0);
        assert(s.push(c).subrange(1, 1) =~= Seq::<char>::empty());
        assert(spec_cs_val(s.push(c)) == spec_char_to_base40(c));
    } else {
        let tail = s.subrange(1, s.len() as int);
        assert(s.push(c).subrange(1, s.push(c).len() as int) =~= tail.push(c));
        lemma_cs_val_snoc(tail, c);
        let d = spec_char_to_base40(c) as int;
        let p = pow40(tail.len());
        assert(40 * (spec_cs_val(tail) + d * p) == 40 * spec_cs_val(tail) + d * (40 * p))
            by (nonlinear_arith);
    }
}

proof fn lemma_alphabet_char_roundtrip(c: char)
    requires
        in_alphabet(c),
    ensures
        spec_base40_to_char(spec_char_to_base40(c)) == c,
{
}

proof fn lemma_digits_zero(n: nat)
    ensures
        spec_digits(0, n).len() == n,
        forall|i: int| 0 <= i < n ==> spec_digits(0, n)[i] == ' ',
    decreases n,
{
    if n > 0 {
        lemma_digits_zero((n - 1) as nat);
    }
}

/// Digit extraction inverts the base-40 valuation on alphabet sequences of
/// at most nine characters.
pub proof fn lemma_digits_of_val(s: Seq<char>)
    requires
        s.len() <= 9,
        forall|i: int| 0 <= i < s.len() ==> in_alphabet(#[trigger] s[i]),
    ensures
        spec_digits(spec_cs_val(s) as u64, s.len() as nat) == s,
    decreases s.len(),
{
    if s.len() > 0 {
        let rest = s.subrange(1, s.len() as int);
        let d = spec_char_to_base40(s[0]) as int;
        let r = spec_cs_val(rest);
        lemma_cs_val_bounds(rest);
        lemma_cs_val_bounds(s);
        lemma_pow40_mono(s.len() as nat, 9);
        lemma_pow40_vals();
        let v = spec_cs_val(s);
        assert(v == d + 40 * r);
        assert(0 <= v < 0x1000000000000);
        let vu = v as u64;
        assert((d + 40 * r) % 40 == d) by (nonlinear_arith)
            requires
                0 <= d < 40,
                0 <= r,
        ;
        assert((d + 40 * r) / 40 == r) by (nonlinear_arith)
            requires
                0 <= d < 40,
                0 <= r,
        ;
        assert(vu % 40 == d);
        assert(vu / 40 == r as u64);
        lemma_alphabet_char_roundtrip(s[0]);
        lemma_digits_of_val(rest);
        assert(spec_digits(vu, s.len() as nat) =~= s);
    }
}

/// Serializing a 48-bit value as six big-endian bytes and reading them back
/// yields the value.
pub proof fn lemma_be48_roundtrip(v: u64)
    requires
        v < 0x1000000000000,
    ensures
        spec_val48(spec_be48(v)) == v,
{
    let b = spec_be48(v);
    assert(b.len() == 6);
    let b0 = (v >> 40u64) & 0xFF;
    let b1 = (v >> 32u64) & 0xFF;
    let b2 = (v >> 24u64) & 0xFF;
    let b3 = (v >> 16u64) & 0xFF;
    let b4 = (v >> 8u64) & 0xFF;
    let b5 = (v >> 0u64) & 0xFF;
    assert(((v >> 40u64) & 0xFF) < 256 && ((v >> 32u64) & 0xFF) < 256 && ((v >> 24u64) & 0xFF)
        < 256 && ((v >> 16u64) & 0xFF) < 256 && ((v >> 8u64) & 0xFF) < 256 && ((v >> 0u64) & 0xFF)
        < 256) by (bit_vector);
    assert(b[0] as u64 == b0 && b[1] as u64 == b1 && b[2] as u64 == b2 && b[3] as u64 == b3 && b[4]
        as u64 == b4 && b[5] as u64 == b5);
    reveal_with_fuel(spec_be_prefix, 8);
    assert(((((((((((0u64 << 8) | b0) << 8) | b1) << 8) | b2) << 8) | b3) << 8) | b4) << 8 | b5
        == v) by (bit_vector)
        requires
            v < 0x1000000000000,
            b0 == (v >> 40u64) & 0xFF,
            b1 == (v >> 32u64) & 0xFF,
            b2 == (v >> 24u64) & 0xFF,
            b3 == (v >> 16u64) & 0xFF,
            b4 == (v >> 8u64) & 0xFF,
            b5 == (v >> 0u64) & 0xFF,
    ;
}

/// Round trip of the codec: decoding an encoded nine-character alphabet
/// string gives the string back, provided it is not all spaces (the
/// all-space string encodes to the reserved value 0).
pub proof fn lemma_encode_decode_roundtrip(s: Seq<char>)
    requires
        s.len() == 9,
        forall|i: int| 0 <= i < 9 ==> in_alphabet(#[trigger] s[i]),
        exists|i: int| 0 <= i < 9 && s[i] != ' ',
    ensures
        spec_decode_callsign(spec_encode_callsign(s)) == s,
{
    assert(spec_norm9(s) =~= s);
    lemma_cs_val_bounds(s);
    lemma_pow40_vals();
    let v = spec_cs_val(s);
    let vu = v as u64;
    lemma_digits_of_val(s);
    if vu == 0 {
        lemma_digits_zero(9);
        let i = choose|i: int| 0 <= i < 9 && s[i] != ' ';
        assert(spec_digits(0, 9)[i] == ' ');
        assert(false);
    }
    lemma_be48_roundtrip(vu);
    assert(spec_decode_callsign(spec_be48(vu)) == spec_digits(vu, 9));
}

/// Encodes a callsign: uppercase, pad or truncate to nine characters, read
/// as base-40 digits least significant first, serialize as six big-endian
/// bytes.
pub fn encode_callsign(callsign: &str) -> (out: [u8; 6])
    ensures
        out@ == spec_encode_callsign(callsign@),
{
    let n = callsign.unicode_len();
    let mut chars: Vec<char> = Vec::new();
    let mut i: usize = 0;
    while i < 9
        invariant
            i <= 9,
            n == callsign@.len(),
            chars@.len() == i,
            forall|k: int| 0 <= k < i ==> chars@[k] == spec_norm9(callsign@)[k],
        decreases 9 - i,
    {
        if i < n {
            chars.push(upper_char(callsign.get_char(i)));
        } else {
            chars.push(' ');
        }
        i = i + 1;
    }
    proof {
        assert(chars@ =~= spec_norm9(callsign@));
    }

    let mut val: u64 = 0;
    let mut pow: u64 = 1;
    let mut i: usize = 0;
    proof {
        assert(chars@.subrange(0, 0) =~= Seq::<char>::empty());
    }
    while i < 9
        invariant
            i <= 9,
            chars@.len() == 9,
            val == spec_cs_val(chars@.subrange(0, i as int)),
            pow == pow40(i as nat),
        decreases 9 - i,
    {
        proof {
            lemma_cs_val_bounds(chars@.subrange(0, i as int));
            lemma_pow40_mono(i as nat, 9);
            lemma_pow40_vals();
            let d = spec_char_to_base40(chars@[i as int]) as int;
            let p = pow40(i as nat);
            assert(d * p <= 39 * p) by (nonlinear_arith)
                requires
                    0 <= d <= 39,
                    p >= 0,
            ;
            assert(39 * p + p == 40 * p);
            lemma_cs_val_snoc(chars@.subrange(0, i as int), chars@[i as int]);
            assert(chars@.subrange(0, i as int).push(chars@[i as int]) =~= chars@.subrange(
                0,
                i as int + 1,
            ));
        }
        let d = char_to_base40(chars[i]);
        val = val + d * pow;
        i = i + 1;
        proof {
            lemma_pow40_pos((i - 1) as nat);
            lemma_pow40_mono((i - 1) as nat, 8);
            lemma_pow40_vals();
        }
        pow = pow * 40;
    }
    proof {
        assert(chars@.subrange(0, 9) =~= chars@);
        lemma_cs_val_bounds(chars@);
        lemma_pow40_vals();
    }

    let mut out: [u8; 6] = [0u8, 0u8, 0u8, 0u8, 0u8, 0u8];
    let mut i: usize = 0;
    while i < 6
        invariant
            i <= 6,
            val == spec_cs_val(chars@) as u64,
            forall|j: int| 6 - i <= j < 6 ==> out@[j] == spec_be48(val)[j],
        decreases 6 - i,
    {
        let sh: u64 = (8 * i) as u64;
        out[5 - i] = ((val >> sh) & 0xFF) as u8;
        i = i + 1;
    }
    proof {
        assert(out@ =~= spec_be48(val));
    }
    out
}

/// Decodes a 6-byte callsign field: the reserved values yield `INVALID`,
/// `BROADCAST` or a `RESERVED-` hex name; anything else yields the nine
/// base-40 digit characters, trailing spaces preserved.
pub fn decode_callsign(data: &[u8; 6]) -> (r: String)
    ensures
        r@ == spec_decode_callsign(data@),
{
    let mut val: u64 = 0;
    let mut i: usize = 0;
    while i < 6
        invariant
            i <= 6,
            val == spec_be_prefix(data@, i as int),
        decreases 6 - i,
    {
        val = (val << 8) | (data[i] as u64);
        i = i + 1;
    }
    assert(val == spec_val48(data@));

    if val == 0 {
        let r = String::from_str("INVALID");
        return r;
    }
    if val == 0xFFFFFFFFFFFF {
        let r = String::from_str("BROADCAST");
        return r;
    }
    if 0xEE6B28000000 <= val && val <= 0xFFFFFFFFFFFE {
        let mut r = String::from_str("RESERVED-");
        let mut i: usize = 0;
        while i < 12
            invariant
                i <= 12,
                r@.len() == "RESERVED-"@.len() + i,
                r@.subrange(0, "RESERVED-"@.len() as int) =~= "RESERVED-"@,
                forall|k: int|
                    0 <= k < i ==> r@["RESERVED-"@.len() + k] == spec_hex12(val)[k],
            decreases 12 - i,
        {
            let sh: u64 = (4 * (11 - i)) as u64;
            let d = (val >> sh) & 0xF;
            proof {
                assert((val >> sh) & 0xF < 16) by (bit_vector);
            }
            let c = if d < 10 {
                ((('0' as u8) + (d as u8)) as u8) as char
            } else {
                ((('A' as u8) + (d as u8) - 10) as u8) as char
            };
            assert(c == spec_hex_char(d));
            push_char(&mut r, c);
            i = i + 1;
        }
        proof {
            assert(r@ =~= "RESERVED-"@ + spec_hex12(val));
        }
        return r;
    }

    let mut r = String::new();
    let mut temp = val;
    let mut k: usize = 0;
    while k < 9
        invariant
            k <= 9,
            r@ + spec_digits(temp, (9 - k) as nat) == spec_digits(val, 9),
        decreases 9 - k,
    {
        let d = temp % 40;
        let c = base40_to_char(d);
        proof {
            let m = (9 - k) as nat;
            assert(spec_digits(temp, m) == seq![spec_base40_to_char(temp % 40)] + spec_digits(
                temp / 40,
                (m - 1) as nat,
            ));
            assert(r@.push(c) + spec_digits(temp / 40, (m - 1) as nat) =~= r@ + spec_digits(
                temp,
                m,
            ));
        }
        push_char(&mut r, c);
        temp = temp / 40;
        k = k + 1;
    }
    proof {
        assert(r@ + spec_digits(temp, 0) =~= r@);
    }
    r
}

/// ASCII whitespace, as trimmed from the ends of a callsign.
pub open spec fn spec_is_ws(c: char) -> bool {
    c == ' ' || c == '\t' || c == '\n' || c == '\r'
}

/// The separators that end the base form of a callsign.
pub open spec fn spec_is_sep(c: char) -> bool {
    c == ' ' || c == '-' || c == '/'
}

/// Index of the first non-whitespace character at or after `i`, or the
/// length when only whitespace follows.
pub open spec fn spec_first_non_ws(s: Seq<char>, i: int) -> int
    decreases s.len() - i,
{
    if 0 <= i < s.len() && spec_is_ws(s[i]) {
        spec_first_non_ws(s, i + 1)
    } else {
        i
    }
}

/// End of the string with trailing whitespace before `e` removed.
pub open spec fn spec_trim_end_idx(s: Seq<char>, e: int) -> int
    decreases e,
{
    if 0 < e <= s.len() && spec_is_ws(s[e - 1]) {
        spec_trim_end_idx(s, e - 1)
    } else {
        e
    }
}

/// Index of the first separator at or after `i`, or the length when none
/// follows.
pub open spec fn spec_sep_end(s: Seq<char>, i: int) -> int
    decreases s.len() - i,
{
    if 0 <= i < s.len() && !spec_is_sep(s[i]) {
        spec_sep_end(s, i + 1)
    } else {
        i
    }
}

/// The base form of a callsign: whitespace trimmed from both ends, cut at
/// the first space, `-` or `/`, and uppercased.
pub open spec fn spec_base_callsign(s: Seq<char>) -> Seq<char> {
    let a = spec_first_non_ws(s, 0);
    let e = spec_trim_end_idx(s, s.len() as int);
    if a <= e {
        let t = s.subrange(a, e);
        spec_upper(t.subrange(0, spec_sep_end(t, 0)))
    } else {
        Seq::empty()
    }
}

fn is_ws(c: char) -> (b: bool)
    ensures
        b == spec_is_ws(c),
{
    c == ' ' || c == '\t' || c == '\n' || c == '\r'
}

fn is_sep(c: char) -> (b: bool)
    ensures
        b == spec_is_sep(c),
{
    c == ' ' || c == '-' || c == '/'
}

/// The base form of a callsign, used as the key for unicast routing:
/// whitespace trimmed, cut at the first space, `-` or `/`, uppercased.
pub fn base_callsign(callsign: &str) -> (r: String)
    ensures
        r@ == spec_base_callsign(callsign@),
{
    let s = callsign;
    let n = s.unicode_len();
    let mut a: usize = 0;
    while a < n && is_ws(s.get_char(a))
        invariant
            n == s@.len(),
            a <= n,
            spec_first_non_ws(s@, 0) == spec_first_non_ws(s@, a as int),
        decreases n - a,
    {
        a = a + 1;
    }
    assert(spec_first_non_ws(s@, a as int) == a);

    let mut e: usize = n;
    while e > 0 && is_ws(s.get_char(e - 1))
        invariant
            n == s@.len(),
            e <= n,
            spec_trim_end_idx(s@, n as int) == spec_trim_end_idx(s@, e as int),
        decreases e,
    {
        e = e - 1;
    }
    assert(spec_trim_end_idx(s@, e as int) == e);

    if a > e {
        let r = String::new();
        return r;
    }
    let ghost t = s@.subrange(a as int, e as int);
    let mut r = String::new();
    let mut i: usize = a;
    while i < e && !is_sep(s.get_char(i))
        invariant
            n == s@.len(),
            a <= i <= e <= n,
            t == s@.subrange(a as int, e as int),
            r@.len() == i - a,
            forall|k: int| 0 <= k < i - a ==> r@[k] == spec_upper_char(t[k]),
            spec_sep_end(t, 0) == spec_sep_end(t, i - a),
        decreases e - i,
    {
        push_char(&mut r, upper_char(s.get_char(i)));
        i = i + 1;
    }
    proof {
        assert(spec_sep_end(t, i - a) == i - a);
        assert(r@ =~= spec_upper(t.subrange(0, i - a)));
    }
    r
}

} // verus!

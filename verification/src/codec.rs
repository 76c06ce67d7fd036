//! The address codec: dotted-quad IPv4 text to and from 32-bit integers.
//!
//! An address is modelled as a number below 2^32; the textual form is four
//! period-separated decimal octets, most significant first. `quad_spec` gives
//! the value of a dotted-quad string (or nothing when the string is not one),
//! `quad_str` the canonical text of a value. The two round-trip lemmas at the
//! end show that the mappings invert each other.
//!
//! Policy on validation: a dotted-quad string must have exactly four
//! components, each a nonempty run of decimal digits with value at most 255.
//! Leading zeros within an octet are accepted on input and never produced on
//! output. Anything else is a `MalformedAddress`.

use vstd::prelude::*;
use vstd::string::StrSliceExecFns;
use vstd::string::StringExecFns;

use crate::errors::ParseError;
use crate::text::dec_str;
use crate::text::dec_val;
use crate::text::digit_char;
use crate::text::digit_val;
use crate::text::digits_len;
use crate::text::is_digit;
use crate::text::lemma_canonical_dec_unique;
use crate::text::lemma_dec_str_canonical;
use crate::text::lemma_digits_len_digits;
use crate::text::lemma_digits_len_prefix;

verus! {

/// Length of the run of digits in `s` starting at position `p`.
pub open spec fn oct_len(s: Seq<char>, p: int) -> nat {
    digits_len(s.subrange(p, s.len() as int))
}

/// Value of the run of digits in `s` starting at position `p`.
pub open spec fn oct_val(s: Seq<char>, p: int) -> nat {
    dec_val(s.subrange(p, p + oct_len(s, p)))
}

/// A valid octet starts at position `p`: at least one digit, value at most
/// 255.
pub open spec fn oct_ok(s: Seq<char>, p: int) -> bool {
    oct_len(s, p) > 0 && oct_val(s, p) <= 255
}

/// The octet at position `p` carries no leading zero.
pub open spec fn oct_canon(s: Seq<char>, p: int) -> bool {
    oct_len(s, p) == 1 || s[p] != '0'
}

/// Start of the second octet, after the first period.
pub open spec fn pos1(s: Seq<char>) -> int {
    oct_len(s, 0) as int + 1
}

/// Start of the third octet, after the second period.
pub open spec fn pos2(s: Seq<char>) -> int {
    pos1(s) + oct_len(s, pos1(s)) + 1
}

/// Start of the fourth octet, after the third period.
pub open spec fn pos3(s: Seq<char>) -> int {
    pos2(s) + oct_len(s, pos2(s)) + 1
}

/// The value of a dotted-quad string: four period-separated octets, each a
/// nonempty digit run of value at most 255, weighted by descending powers of
/// 256. `None` when `s` is not of that shape.
pub open spec fn quad_spec(s: Seq<char>) -> Option<nat> {
    let e0 = oct_len(s, 0) as int;
    let p1 = pos1(s);
    let e1 = p1 + oct_len(s, p1);
    let p2 = pos2(s);
    let e2 = p2 + oct_len(s, p2);
    let p3 = pos3(s);
    let e3 = p3 + oct_len(s, p3);
    if oct_ok(s, 0) && e0 < s.len() && s[e0] == '.' && oct_ok(s, p1) && e1 < s.len() && s[e1]
        == '.' && oct_ok(s, p2) && e2 < s.len() && s[e2] == '.' && oct_ok(s, p3) && e3 == s.len() {
        Some(
            oct_val(s, 0) * 0x1000000 + oct_val(s, p1) * 0x10000 + oct_val(s, p2) * 0x100
                + oct_val(s, p3),
        )
    } else {
        None
    }
}

/// A dotted-quad string in canonical form: valid, and no octet carries a
/// leading zero.
pub open spec fn canonical_quad(s: Seq<char>) -> bool {
    quad_spec(s) is Some && oct_canon(s, 0) && oct_canon(s, pos1(s)) && oct_canon(s, pos2(s))
        && oct_canon(s, pos3(s))
}

/// The canonical dotted-quad text of an address value: four canonical decimal
/// numerals joined by periods.
pub open spec fn quad_str(v: nat) -> Seq<char> {
    dec_str(v / 0x1000000) + seq!['.'] + dec_str((v / 0x10000) % 0x100) + seq!['.'] + dec_str(
        (v / 0x100) % 0x100,
    ) + seq!['.'] + dec_str(v % 0x100)
}

/// Round trip, value to text to value: the canonical dotted-quad text of any
/// 32-bit address value is a valid, canonical dotted-quad string, and it
/// evaluates back to the very value.
pub proof fn lemma_quad_round_trip_value(v: u32)
    ensures
        quad_spec(quad_str(v as nat)) == Some(v as nat),
        canonical_quad(quad_str(v as nat)),
{
    let o0: u32 = v / 0x1000000;
    let o1: u32 = (v / 0x10000) % 0x100;
    let o2: u32 = (v / 0x100) % 0x100;
    let o3: u32 = v % 0x100;
    assert(o0 <= 255 && o1 <= 255 && o2 <= 255 && o3 <= 255) by (bit_vector)
        requires
            o0 == v / 0x1000000,
            o1 == (v / 0x10000) % 0x100,
            o2 == (v / 0x100) % 0x100,
            o3 == v % 0x100,
    ;
    assert(o0 * 0x1000000 + o1 * 0x10000 + o2 * 0x100 + o3 == v) by (bit_vector)
        requires
            o0 == v / 0x1000000,
            o1 == (v / 0x10000) % 0x100,
            o2 == (v / 0x100) % 0x100,
            o3 == v % 0x100,
    ;
    lemma_dec_str_canonical(o0 as nat);
    lemma_dec_str_canonical(o1 as nat);
    lemma_dec_str_canonical(o2 as nat);
    lemma_dec_str_canonical(o3 as nat);
    let t0 = dec_str(o0 as nat);
    let t1 = dec_str(o1 as nat);
    let t2 = dec_str(o2 as nat);
    let t3 = dec_str(o3 as nat);
    let s = quad_str(v as nat);
    assert(s == t0 + seq!['.'] + t1 + seq!['.'] + t2 + seq!['.'] + t3);
    let e0 = t0.len() as int;
    let p1 = e0 + 1;
    let e1 = p1 + t1.len();
    let p2 = e1 + 1;
    let e2 = p2 + t2.len();
    let p3 = e2 + 1;
    let e3 = p3 + t3.len();
    assert(s.len() == e3);
    assert(s[e0] == '.' && s[e1] == '.' && s[e2] == '.');
    // The digit run at each start position is exactly the numeral put there.
    let u0 = s.subrange(0, s.len() as int);
    assert(u0 =~= s);
    lemma_digits_len_prefix(s, e0);
    assert(oct_len(s, 0) == t0.len());
    assert(s.subrange(0, e0) =~= t0);
    let u1 = s.subrange(p1, s.len() as int);
    assert forall|j: int| 0 <= j < t1.len() implies is_digit(u1[j]) by {
        assert(u1[j] == t1[j]);
    }
    assert(u1[t1.len() as int] == '.');
    lemma_digits_len_prefix(u1, t1.len() as int);
    assert(pos1(s) == p1);
    assert(oct_len(s, p1) == t1.len());
    assert(s.subrange(p1, p1 + t1.len()) =~= t1);
    let u2 = s.subrange(p2, s.len() as int);
    assert forall|j: int| 0 <= j < t2.len() implies is_digit(u2[j]) by {
        assert(u2[j] == t2[j]);
    }
    assert(u2[t2.len() as int] == '.');
    lemma_digits_len_prefix(u2, t2.len() as int);
    assert(pos2(s) == p2);
    assert(oct_len(s, p2) == t2.len());
    assert(s.subrange(p2, p2 + t2.len()) =~= t2);
    let u3 = s.subrange(p3, s.len() as int);
    assert(u3 =~= t3);
    lemma_digits_len_prefix(u3, t3.len() as int);
    assert(pos3(s) == p3);
    assert(oct_len(s, p3) == t3.len());
    assert(s.subrange(p3, p3 + t3.len()) =~= t3);
    assert(oct_val(s, 0) == o0 as nat);
    assert(oct_val(s, p1) == o1 as nat);
    assert(oct_val(s, p2) == o2 as nat);
    assert(oct_val(s, p3) == o3 as nat);
    assert(quad_spec(s) == Some(
        o0 as nat * 0x1000000 + o1 as nat * 0x10000 + o2 as nat * 0x100 + o3 as nat,
    ));
}

/// Round trip, text to value to text: a canonical dotted-quad string is the
/// canonical text of its own value.
pub proof fn lemma_quad_round_trip_string(s: Seq<char>, v: nat)
    requires
        canonical_quad(s),
        quad_spec(s) == Some(v),
    ensures
        quad_str(v) == s,
{
    let e0 = oct_len(s, 0) as int;
    let p1 = pos1(s);
    let e1 = p1 + oct_len(s, p1);
    let p2 = pos2(s);
    let e2 = p2 + oct_len(s, p2);
    let p3 = pos3(s);
    let e3 = p3 + oct_len(s, p3);
    let t0 = s.subrange(0, e0);
    let t1 = s.subrange(p1, e1);
    let t2 = s.subrange(p2, e2);
    let t3 = s.subrange(p3, e3);
    // Each octet segment is a canonical numeral.
    let u0 = s.subrange(0, s.len() as int);
    assert(u0 =~= s);
    lemma_digits_len_digits(s);
    assert forall|j: int| 0 <= j < t0.len() implies is_digit(t0[j]) by {
        assert(t0[j] == s[j]);
    }
    let u1 = s.subrange(p1, s.len() as int);
    lemma_digits_len_digits(u1);
    assert forall|j: int| 0 <= j < t1.len() implies is_digit(t1[j]) by {
        assert(t1[j] == u1[j]);
    }
    let u2 = s.subrange(p2, s.len() as int);
    lemma_digits_len_digits(u2);
    assert forall|j: int| 0 <= j < t2.len() implies is_digit(t2[j]) by {
        assert(t2[j] == u2[j]);
    }
    let u3 = s.subrange(p3, s.len() as int);
    lemma_digits_len_digits(u3);
    assert forall|j: int| 0 <= j < t3.len() implies is_digit(t3[j]) by {
        assert(t3[j] == u3[j]);
    }
    assert(t0[0] == s[0] && t1[0] == s[p1] && t2[0] == s[p2] && t3[0] == s[p3]);
    lemma_canonical_dec_unique(t0);
    lemma_canonical_dec_unique(t1);
    lemma_canonical_dec_unique(t2);
    lemma_canonical_dec_unique(t3);
    let a = oct_val(s, 0) as u32;
    let b = oct_val(s, p1) as u32;
    let c = oct_val(s, p2) as u32;
    let d = oct_val(s, p3) as u32;
    assert(v == a as nat * 0x1000000 + b as nat * 0x10000 + c as nat * 0x100 + d as nat);
    let w = (a * 0x1000000 + b * 0x10000 + c * 0x100 + d) as u32;
    assert(v == w as nat);
    assert(w / 0x1000000 == a && (w / 0x10000) % 0x100 == b && (w / 0x100) % 0x100 == c && w
        % 0x100 == d) by (bit_vector)
        requires
            a <= 255 && b <= 255 && c <= 255 && d <= 255,
            w == (a * 0x1000000 + b * 0x10000 + c * 0x100 + d) as u32,
    ;
    assert(v / 0x1000000 == a as nat);
    assert((v / 0x10000) % 0x100 == b as nat);
    assert((v / 0x100) % 0x100 == c as nat);
    assert(v % 0x100 == d as nat);
    assert(dec_val(t0) == a as nat && dec_val(t1) == b as nat && dec_val(t2) == c as nat && dec_val(
        t3,
    ) == d as nat);
    assert(quad_str(v) == t0 + seq!['.'] + t1 + seq!['.'] + t2 + seq!['.'] + t3);
    assert(quad_str(v) =~= s);
}

/// The numeric value of a digit character, or nothing on any other character.
fn digit_value(c: char) -> (r: Option<u32>)
    ensures
        match r {
            Some(d) => is_digit(c) && d as nat == digit_val(c) && d <= 9,
            None => !is_digit(c),
        },
{
    if c == '0' {
        Some(0)
    } else if c == '1' {
        Some(1)
    } else if c == '2' {
        Some(2)
    } else if c == '3' {
        Some(3)
    } else if c == '4' {
        Some(4)
    } else if c == '5' {
        Some(5)
    } else if c == '6' {
        Some(6)
    } else if c == '7' {
        Some(7)
    } else if c == '8' {
        Some(8)
    } else if c == '9' {
        Some(9)
    } else {
        None
    }
}

/// Reads the octet that starts at position `from`: its value and the position
/// just past its digits. Nothing when no digit starts there or the digit run
/// exceeds 255.
fn scan_octet(s: &str, from: usize) -> (r: Option<(u32, usize)>)
    requires
        from <= s@.len(),
    ensures
        match r {
            Some(pair) => oct_ok(s@, from as int) && pair.1 == from + oct_len(s@, from as int)
                && pair.1 <= s@.len() && pair.0 as nat == oct_val(s@, from as int) && pair.0 <= 255,
            None => !oct_ok(s@, from as int),
        },
{
    let n: usize = s.unicode_len();
    let mut i: usize = from;
    let mut val: u32 = 0;
    let mut big: bool = false;
    proof {
        assert(s@.subrange(from as int, from as int) =~= Seq::<char>::empty());
    }
    loop
        invariant
            from <= i <= n,
            n == s@.len(),
            forall|j: int| from <= j < i ==> is_digit(s@[j]),
            !big ==> val as nat == dec_val(s@.subrange(from as int, i as int)) && val <= 255,
            big ==> dec_val(s@.subrange(from as int, i as int)) > 255,
        ensures
            from <= i <= n,
            forall|j: int| from <= j < i ==> is_digit(s@[j]),
            i == n || !is_digit(s@[i as int]),
            !big ==> val as nat == dec_val(s@.subrange(from as int, i as int)) && val <= 255,
            big ==> dec_val(s@.subrange(from as int, i as int)) > 255,
        decreases n - i,
    {
        if i >= n {
            break;
        }
        let c = s.get_char(i);
        match digit_value(c) {
            None => {
                break;
            },
            Some(d) => {
                proof {
                    let pre = s@.subrange(from as int, i as int);
                    let ext = s@.subrange(from as int, i + 1);
                    assert(ext.drop_last() =~= pre);
                    assert(ext.last() == s@[i as int]);
                    assert(dec_val(ext) == dec_val(pre) * 10 + digit_val(s@[i as int]));
                }
                if !big {
                    let nv: u32 = val * 10 + d;
                    if nv > 255 {
                        big = true;
                    } else {
                        val = nv;
                    }
                }
                i = i + 1;
            },
        }
    }
    proof {
        let u = s@.subrange(from as int, n as int);
        assert forall|j: int| 0 <= j < i - from implies is_digit(u[j]) by {
            assert(u[j] == s@[from + j]);
        }
        if (i as int) - (from as int) < u.len() {
            assert(u[i - from] == s@[i as int]);
        }
        lemma_digits_len_prefix(u, i - from);
        assert(oct_len(s@, from as int) == i - from);
        assert(s@.subrange(from as int, from + oct_len(s@, from as int)) =~= s@.subrange(
            from as int,
            i as int,
        ));
    }
    if i == from {
        return None;
    }
    if big {
        return None;
    }
    Some((val, i))
}

/// Takes a dotted-quad IPv4 address string, such as one whose octets name a
/// private network host, and converts it to its 32-bit value, most
/// significant octet first. Rejects anything but four period-separated
/// decimal octets in 0-255.
pub fn convert_ipv4_address(ip_address: &str) -> (r: Result<u32, ParseError>)
    ensures
        match r {
            Ok(v) => quad_spec(ip_address@) == Some(v as nat),
            Err(e) => quad_spec(ip_address@) is None && e == ParseError::MalformedAddress,
        },
{
    let n: usize = ip_address.unicode_len();
    let r0 = scan_octet(ip_address, 0);
    let (v0, next0) = match r0 {
        None => {
            return Err(ParseError::MalformedAddress);
        },
        Some(p) => p,
    };
    if next0 >= n || ip_address.get_char(next0) != '.' {
        return Err(ParseError::MalformedAddress);
    }
    let r1 = scan_octet(ip_address, next0 + 1);
    let (v1, next1) = match r1 {
        None => {
            return Err(ParseError::MalformedAddress);
        },
        Some(p) => p,
    };
    if next1 >= n || ip_address.get_char(next1) != '.' {
        return Err(ParseError::MalformedAddress);
    }
    let r2 = scan_octet(ip_address, next1 + 1);
    let (v2, next2) = match r2 {
        None => {
            return Err(ParseError::MalformedAddress);
        },
        Some(p) => p,
    };
    if next2 >= n || ip_address.get_char(next2) != '.' {
        return Err(ParseError::MalformedAddress);
    }
    let r3 = scan_octet(ip_address, next2 + 1);
    let (v3, next3) = match r3 {
        None => {
            return Err(ParseError::MalformedAddress);
        },
        Some(p) => p,
    };
    if next3 != n {
        return Err(ParseError::MalformedAddress);
    }
    let value: u32 = v0 * 0x1000000 + v1 * 0x10000 + v2 * 0x100 + v3;
    proof {
        assert(quad_spec(ip_address@) == Some(value as nat));
    }
    Ok(value)
}

/// Appends the digit character of `d` to `out`.
fn append_digit(out: &mut String, d: u32)
    requires
        d <= 9,
    ensures
        final(out)@ == old(out)@ + seq![digit_char(d as nat)],
{
    if d == 0 {
        out.append("0");
        proof {
            reveal_strlit("0");
            assert("0"@ =~= seq![digit_char(0)]);
        }
    } else if d == 1 {
        out.append("1");
        proof {
            reveal_strlit("1");
            assert("1"@ =~= seq![digit_char(1)]);
        }
    } else if d == 2 {
        out.append("2");
        proof {
            reveal_strlit("2");
            assert("2"@ =~= seq![digit_char(2)]);
        }
    } else if d == 3 {
        out.append("3");
        proof {
            reveal_strlit("3");
            assert("3"@ =~= seq![digit_char(3)]);
        }
    } else if d == 4 {
        out.append("4");
        proof {
            reveal_strlit("4");
            assert("4"@ =~= seq![digit_char(4)]);
        }
    } else if d == 5 {
        out.append("5");
        proof {
            reveal_strlit("5");
            assert("5"@ =~= seq![digit_char(5)]);
        }
    } else if d == 6 {
        out.append("6");
        proof {
            reveal_strlit("6");
            assert("6"@ =~= seq![digit_char(6)]);
        }
    } else if d == 7 {
        out.append("7");
        proof {
            reveal_strlit("7");
            assert("7"@ =~= seq![digit_char(7)]);
        }
    } else if d == 8 {
        out.append("8");
        proof {
            reveal_strlit("8");
            assert("8"@ =~= seq![digit_char(8)]);
        }
    } else {
        out.append("9");
        proof {
            reveal_strlit("9");
            assert("9"@ =~= seq![digit_char(9)]);
        }
    }
}

/// Appends the canonical decimal numeral of an octet value to `out`.
fn append_octet(out: &mut String, v: u32)
    requires
        v <= 255,
    ensures
        final(out)@ == old(out)@ + dec_str(v as nat),
{
    if v >= 100 {
        append_digit(out, v / 100);
        append_digit(out, (v / 10) % 10);
        append_digit(out, v % 10);
        proof {
            vstd::arithmetic::div_mod::lemma_div_denominator(v as int, 10, 10);
            assert(v / 10 >= 10);
            assert(dec_str((v / 10) as nat) == dec_str((v / 100) as nat).push(
                digit_char(((v / 10) % 10) as nat),
            ));
            assert(dec_str((v / 100) as nat) == seq![digit_char((v / 100) as nat)]);
            assert(dec_str(v as nat) =~= seq![digit_char((v / 100) as nat)].push(
                digit_char(((v / 10) % 10) as nat),
            ).push(digit_char((v % 10) as nat)));
            assert(final(out)@ =~= old(out)@ + dec_str(v as nat));
        }
    } else if v >= 10 {
        append_digit(out, v / 10);
        append_digit(out, v % 10);
        proof {
            assert(dec_str((v / 10) as nat) == seq![digit_char((v / 10) as nat)]);
            assert(dec_str(v as nat) =~= seq![digit_char((v / 10) as nat)].push(
                digit_char((v % 10) as nat),
            ));
            assert(final(out)@ =~= old(out)@ + dec_str(v as nat));
        }
    } else {
        append_digit(out, v);
        proof {
            assert(final(out)@ =~= old(out)@ + dec_str(v as nat));
        }
    }
}

/// Appends a period to `out`.
fn append_period(out: &mut String)
    ensures
        final(out)@ == old(out)@ + seq!['.'],
{
    out.append(".");
    proof {
        reveal_strlit(".");
        assert("."@ =~= seq!['.']);
    }
}

/// Converts a 32-bit address value to its canonical dotted-quad text: four
/// decimal octets without leading zeros, joined by periods.
pub fn integer_to_ipv4_address(raw_address: u32) -> (r: String)
    ensures
        r@ == quad_str(raw_address as nat),
{
    let o0: u32 = raw_address / 0x1000000;
    let o1: u32 = (raw_address / 0x10000) % 0x100;
    let o2: u32 = (raw_address / 0x100) % 0x100;
    let o3: u32 = raw_address % 0x100;
    let mut out = String::new();
    append_octet(&mut out, o0);
    append_period(&mut out);
    append_octet(&mut out, o1);
    append_period(&mut out);
    append_octet(&mut out, o2);
    append_period(&mut out);
    append_octet(&mut out, o3);
    proof {
        assert(out@ =~= quad_str(raw_address as nat));
    }
    out
}

} // verus!

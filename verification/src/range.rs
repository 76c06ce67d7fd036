//! The range parser: one line of text to a normalized address range.
//!
//! A line, after trimming, is one of three forms, tried in this order:
//! a dashed range (it contains `-`), a CIDR block (it contains `/`), or a
//! single address. `parse_entry_spec` gives the range a line denotes, or the
//! error rejecting it; the executable functions are proved to return exactly
//! that.
//!
//! Policies this parser commits to: a dashed range splits at the first dash
//! and is rejected when its first bound exceeds its second, so every range
//! the parser yields satisfies `start <= end`; a CIDR block splits at the
//! first slash, and its mask length must be a nonempty run of digits with
//! value at most 32. All rejections of a line surface as `MalformedEntry`.

use vstd::arithmetic::div_mod::lemma_fundamental_div_mod;
use vstd::arithmetic::power2::lemma2_to64;
use vstd::arithmetic::power2::lemma_pow2_strictly_increases;
use vstd::arithmetic::power2::pow2;
use vstd::bits::lemma_u32_shl_is_mul;
use vstd::bits::lemma_u32_shr_is_div;
use std::collections::HashSet;

use vstd::prelude::*;
use vstd::string::StrSliceExecFns;

use crate::codec::convert_ipv4_address;
use crate::codec::quad_spec;
use crate::errors::EntryError;
use crate::errors::ParseError;
use crate::text::all_digits;
use crate::text::dec_val;
use crate::text::digit_val;
use crate::text::find_char;
use crate::text::first_index_of;
use crate::text::is_digit;
use crate::text::trim_spec;
use crate::text::trim_str;

verus! {

/// A contiguous range of IPv4 addresses, both ends inclusive, or a single
/// address when `start == end`.
#[derive(Clone, Copy, Debug, PartialEq, Eq, Structural)]
pub struct IPRange {
    pub start: u32,
    pub end: u32,
}

/// `x` lies within `r`, both ends inclusive.
pub open spec fn in_range(r: IPRange, x: u32) -> bool {
    r.start <= x <= r.end
}

/// Number of addresses in a CIDR block of the given mask length.
pub open spec fn block_size(mask: nat) -> nat {
    pow2((32 - mask) as nat)
}

/// First address of the CIDR block of `addr`: the low `32 - mask` bits
/// cleared, which truncates `addr` down to a multiple of the block size.
pub open spec fn cidr_start(addr: nat, mask: nat) -> nat {
    (addr - (addr % block_size(mask))) as nat
}

/// Last address of the CIDR block of `addr`.
pub open spec fn cidr_end(addr: nat, mask: nat) -> nat {
    (cidr_start(addr, mask) + block_size(mask) - 1) as nat
}

/// A well-formed mask length: a nonempty run of digits of value at most 32.
pub open spec fn mask_ok(m: Seq<char>) -> bool {
    m.len() > 0 && all_digits(m) && dec_val(m) <= 32
}

/// The range denoted by one entry line, or why the line is rejected.
///
/// The line is trimmed; a dash makes it a dashed range, else a slash makes it
/// a CIDR block, else it is a single address.
pub open spec fn parse_entry_spec(line: Seq<char>) -> Result<IPRange, ParseError> {
    let t = trim_spec(line);
    let dash = first_index_of(t, '-');
    let slash = first_index_of(t, '/');
    if dash >= 0 {
        let l = trim_spec(t.subrange(0, dash));
        let r = trim_spec(t.subrange(dash + 1, t.len() as int));
        if quad_spec(l) is Some && quad_spec(r) is Some {
            let a = quad_spec(l)->Some_0;
            let b = quad_spec(r)->Some_0;
            if a <= b {
                Ok(IPRange { start: a as u32, end: b as u32 })
            } else {
                Err(ParseError::MalformedEntry)
            }
        } else {
            Err(ParseError::MalformedEntry)
        }
    } else if slash >= 0 {
        let ap = t.subrange(0, slash);
        let mp = t.subrange(slash + 1, t.len() as int);
        if quad_spec(ap) is Some && mask_ok(mp) {
            let a = quad_spec(ap)->Some_0;
            let m = dec_val(mp);
            Ok(IPRange { start: cidr_start(a, m) as u32, end: cidr_end(a, m) as u32 })
        } else {
            Err(ParseError::MalformedEntry)
        }
    } else {
        if quad_spec(t) is Some {
            let a = quad_spec(t)->Some_0;
            Ok(IPRange { start: a as u32, end: a as u32 })
        } else {
            Err(ParseError::MalformedEntry)
        }
    }
}

/// Computes the CIDR block of `addr` with the given mask length: the block's
/// first address is `addr` with the low `32 - mask` bits cleared, its last
/// address lies `2^(32 - mask) - 1` above.
fn cidr_range(addr: u32, mask: u32) -> (r: IPRange)
    requires
        mask <= 32,
    ensures
        r.start as nat == cidr_start(addr as nat, mask as nat),
        r.end as nat == cidr_end(addr as nat, mask as nat),
        r.start <= r.end,
{
    if mask == 0 {
        proof {
            lemma2_to64();
            assert(block_size(0) == 0x100000000);
            assert(addr as nat % 0x100000000 == addr as nat);
        }
        IPRange { start: 0, end: 0xffffffff }
    } else {
        let sh: u32 = 32 - mask;
        let start: u32 = (addr >> sh) << sh;
        proof {
            assert(1u32 << sh >= 1) by (bit_vector)
                requires
                    sh < 32,
            ;
        }
        let span: u32 = (1u32 << sh) - 1;
        proof {
            lemma_pow2_strictly_increases(sh as nat, 32);
            lemma2_to64();
            assert(pow2(sh as nat) < 0x100000000);
            lemma_u32_shr_is_div(addr, sh);
            assert(addr >> sh == addr as nat / pow2(sh as nat));
            lemma_fundamental_div_mod(addr as int, pow2(sh as nat) as int);
            vstd::arithmetic::mul::lemma_mul_is_commutative(
                pow2(sh as nat) as int,
                addr as int / pow2(sh as nat) as int,
            );
            assert((addr as nat / pow2(sh as nat)) * pow2(sh as nat) <= addr);
            lemma_u32_shl_is_mul((addr >> sh), sh);
            assert(start as nat == (addr as nat / pow2(sh as nat)) * pow2(sh as nat));
            assert(start as nat == addr as nat - (addr as nat % pow2(sh as nat)));
            lemma_u32_shl_is_mul(1u32, sh);
            assert((1u32 << sh) as nat == pow2(sh as nat));
            assert(start <= 0xffffffffu32 - ((1u32 << sh) - 1)) by (bit_vector)
                requires
                    sh < 32,
                    start == (addr >> sh) << sh,
            ;
        }
        IPRange { start, end: start + span }
    }
}

/// Reads a mask length: the characters of `t` from `from` to the end must all
/// be digits, at least one, of value at most 32.
fn scan_mask(t: &str, from: usize) -> (r: Option<u32>)
    requires
        from <= t@.len(),
    ensures
        ({
            let m = t@.subrange(from as int, t@.len() as int);
            match r {
                Some(v) => mask_ok(m) && v as nat == dec_val(m) && v <= 32,
                None => !mask_ok(m),
            }
        }),
{
    let n: usize = t.unicode_len();
    let ghost m = t@.subrange(from as int, n as int);
    let mut i: usize = from;
    let mut val: u32 = 0;
    let mut big: bool = false;
    proof {
        assert(t@.subrange(from as int, from as int) =~= Seq::<char>::empty());
    }
    while i < n
        invariant
            from <= i <= n,
            n == t@.len(),
            forall|j: int| from <= j < i ==> is_digit(t@[j]),
            !big ==> val as nat == dec_val(t@.subrange(from as int, i as int)) && val <= 32,
            big ==> dec_val(t@.subrange(from as int, i as int)) > 32,
        decreases n - i,
    {
        let c = t.get_char(i);
        let d: u32 = if c == '0' {
            0
        } else if c == '1' {
            1
        } else if c == '2' {
            2
        } else if c == '3' {
            3
        } else if c == '4' {
            4
        } else if c == '5' {
            5
        } else if c == '6' {
            6
        } else if c == '7' {
            7
        } else if c == '8' {
            8
        } else if c == '9' {
            9
        } else {
            proof {
                let mm = t@.subrange(from as int, t@.len() as int);
                assert(mm[i - from] == t@[i as int]);
                assert(!is_digit(mm[i - from]));
            }
            return None;
        };
        proof {
            assert(is_digit(t@[i as int]) && d as nat == digit_val(t@[i as int]));
            let pre = t@.subrange(from as int, i as int);
            let ext = t@.subrange(from as int, i + 1);
            assert(ext.drop_last() =~= pre);
            assert(ext.last() == t@[i as int]);
            assert(dec_val(ext) == dec_val(pre) * 10 + digit_val(t@[i as int]));
        }
        if !big {
            let nv: u32 = val * 10 + d;
            if nv > 32 {
                big = true;
            } else {
                val = nv;
            }
        }
        i = i + 1;
    }
    proof {
        assert(t@.subrange(from as int, i as int) =~= m);
    }
    if i == from {
        return None;
    }
    if big {
        return None;
    }
    proof {
        assert forall|j: int| 0 <= j < m.len() implies is_digit(m[j]) by {
            assert(m[j] == t@[from + j]);
        }
    }
    Some(val)
}

/// Parses one entry line into its address range: a dashed range, a CIDR
/// block, or a single address, with whitespace tolerated around the line and
/// around the bounds of a dashed range. Every range returned satisfies
/// `start <= end`.
pub fn parse_entry(line: &str) -> (r: Result<IPRange, ParseError>)
    ensures
        r == parse_entry_spec(line@),
        r matches Ok(rng) ==> rng.start <= rng.end,
{
    let t = trim_str(line);
    let n: usize = t.unicode_len();
    match find_char(t, '-') {
        Some(d) => {
            let left = trim_str(t.substring_char(0, d));
            let right = trim_str(t.substring_char(d + 1, n));
            let a = match convert_ipv4_address(left) {
                Ok(a) => a,
                Err(_) => {
                    return Err(ParseError::MalformedEntry);
                },
            };
            let b = match convert_ipv4_address(right) {
                Ok(b) => b,
                Err(_) => {
                    return Err(ParseError::MalformedEntry);
                },
            };
            if a <= b {
                Ok(IPRange { start: a, end: b })
            } else {
                Err(ParseError::MalformedEntry)
            }
        },
        None => {
            match find_char(t, '/') {
                Some(sl) => {
                    let addr = match convert_ipv4_address(t.substring_char(0, sl)) {
                        Ok(a) => a,
                        Err(_) => {
                            return Err(ParseError::MalformedEntry);
                        },
                    };
                    let mask = match scan_mask(t, sl + 1) {
                        Some(m) => m,
                        None => {
                            return Err(ParseError::MalformedEntry);
                        },
                    };
                    Ok(cidr_range(addr, mask))
                },
                None => {
                    match convert_ipv4_address(t) {
                        Ok(a) => Ok(IPRange { start: a, end: a }),
                        Err(_) => Err(ParseError::MalformedEntry),
                    }
                },
            }
        },
    }
}

/// Parses every entry line into its range, preserving order; the first
/// malformed line aborts the run and is reported with its position.
pub fn parse_ip_entries_to_ranges(ip_entries: &Vec<String>) -> (r: Result<Vec<IPRange>, EntryError>)
    ensures
        match r {
            Ok(v) => v@.len() == ip_entries@.len() && forall|i: int|
                0 <= i < v@.len() ==> parse_entry_spec(ip_entries@[i]@) == Ok::<IPRange, ParseError>(v@[i]),
            Err(e) => e.index < ip_entries@.len() && parse_entry_spec(ip_entries@[e.index as int]@)
                == Err::<IPRange, ParseError>(e.kind) && forall|j: int|
                0 <= j < e.index ==> parse_entry_spec(ip_entries@[j]@) is Ok,
        },
{
    let mut parsed: Vec<IPRange> = Vec::new();
    let mut idx: usize = 0;
    while idx < ip_entries.len()
        invariant
            idx <= ip_entries@.len(),
            parsed@.len() == idx,
            forall|i: int| 0 <= i < idx ==> parse_entry_spec(ip_entries@[i]@) == Ok::<IPRange, ParseError>(parsed@[i]),
        decreases ip_entries@.len() - idx,
    {
        match parse_entry(ip_entries[idx].as_str()) {
            Ok(rng) => {
                parsed.push(rng);
            },
            Err(kind) => {
                proof {
                    assert forall|j: int| 0 <= j < idx implies parse_entry_spec(
                        ip_entries@[j]@,
                    ) is Ok by {
                        assert(parse_entry_spec(ip_entries@[j]@) == Ok::<IPRange, ParseError>(
                            parsed@[j],
                        ));
                    }
                }
                return Err(EntryError { index: idx, kind });
            },
        }
        idx = idx + 1;
    }
    Ok(parsed)
}

/// Some entry line among the first `k` of `lines` denotes a range covering
/// the address `x`.
pub open spec fn entries_cover_prefix(lines: Seq<Seq<char>>, k: int, x: u32) -> bool {
    exists|i: int|
        #![trigger parse_entry_spec(lines[i])]
        0 <= i < k && (parse_entry_spec(lines[i]) matches Ok(rng) && in_range(rng, x))
}

/// Some entry line of `lines` denotes a range covering the address `x`.
pub open spec fn entries_cover(lines: Seq<Seq<char>>, x: u32) -> bool {
    entries_cover_prefix(lines, lines.len() as int, x)
}

/// Parses every entry line and expands the ranges into the set of the
/// individual addresses they cover; the first malformed line aborts the run
/// and is reported with its position. An entry spanning a wide range expands
/// into as many set elements as it covers.
pub fn parse_ip_entries(ip_entries: &Vec<String>) -> (r: Result<HashSet<u32>, EntryError>)
    ensures
        match r {
            Ok(parsed) => (forall|i: int|
                0 <= i < ip_entries@.len() ==> parse_entry_spec(ip_entries@[i]@) is Ok)
                && (forall|x: u32| #[trigger]
                parsed@.contains(x) <==> entries_cover(ip_entries.deep_view(), x)),
            Err(e) => e.index < ip_entries@.len() && parse_entry_spec(ip_entries@[e.index as int]@)
                == Err::<IPRange, ParseError>(e.kind) && forall|j: int|
                0 <= j < e.index ==> parse_entry_spec(ip_entries@[j]@) is Ok,
        },
{
    broadcast use vstd::std_specs::hash::group_hash_axioms;

    let ghost lines = ip_entries.deep_view();
    let mut parsed: HashSet<u32> = HashSet::new();
    let mut idx: usize = 0;
    proof {
        assert(lines.len() == ip_entries@.len());
    }
    while idx < ip_entries.len()
        invariant
            idx <= ip_entries@.len(),
            lines == ip_entries.deep_view(),
            lines.len() == ip_entries@.len(),
            forall|j: int| 0 <= j < idx ==> parse_entry_spec(ip_entries@[j]@) is Ok,
            forall|x: u32| #[trigger]
                parsed@.contains(x) <==> entries_cover_prefix(lines, idx as int, x),
        decreases ip_entries@.len() - idx,
    {
        proof {
            assert(lines[idx as int] == ip_entries@[idx as int]@);
        }
        let rng = match parse_entry(ip_entries[idx].as_str()) {
            Ok(rng) => rng,
            Err(kind) => {
                return Err(EntryError { index: idx, kind });
            },
        };
        let ghost before = parsed@;
        let mut x: u32 = rng.start;
        loop
            invariant_except_break
                forall|y: u32| #[trigger]
                    parsed@.contains(y) <==> (before.contains(y) || (rng.start <= y < x)),
            invariant
                rng.start <= x <= rng.end,
            ensures
                forall|y: u32| #[trigger]
                    parsed@.contains(y) <==> (before.contains(y) || (rng.start <= y
                        <= rng.end)),
            decreases rng.end - x,
        {
            parsed.insert(x);
            if x == rng.end {
                break;
            }
            x = x + 1;
        }
        proof {
            assert(parse_entry_spec(lines[idx as int]) == Ok::<IPRange, ParseError>(rng));
            assert forall|y: u32| #[trigger]
                parsed@.contains(y) <==> entries_cover_prefix(lines, idx + 1, y) by {
                if parsed@.contains(y) {
                    if before.contains(y) {
                        let i = choose|i: int|
                            #![trigger parse_entry_spec(lines[i])]
                            0 <= i < idx && (parse_entry_spec(lines[i]) matches Ok(r2)
                                && in_range(r2, y));
                        assert(0 <= i < idx + 1 && (parse_entry_spec(lines[i]) matches Ok(r2)
                            && in_range(r2, y)));
                    } else {
                        assert(in_range(rng, y));
                        assert(0 <= idx < idx + 1 && (parse_entry_spec(
                            lines[idx as int],
                        ) matches Ok(r2) && in_range(r2, y)));
                    }
                }
                if entries_cover_prefix(lines, idx + 1, y) {
                    let i = choose|i: int|
                        #![trigger parse_entry_spec(lines[i])]
                        0 <= i < idx + 1 && (parse_entry_spec(lines[i]) matches Ok(r2)
                            && in_range(r2, y));
                    if i < idx {
                        assert(entries_cover_prefix(lines, idx as int, y));
                    } else {
                        assert(in_range(rng, y));
                    }
                }
            }
        }
        idx = idx + 1;
    }
    Ok(parsed)
}

} // verus!

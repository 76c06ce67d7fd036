//! Characters, decimal numerals and line handling.
//!
//! Spec-level models for decimal digit strings (their numeric value and the
//! canonical numeral of a number), whitespace trimming, locating a character,
//! and splitting text into lines, together with the executable functions that
//! realize them.

use vstd::prelude::*;
use vstd::string::StrSliceExecFns;

verus! {

/// The ASCII whitespace characters tolerated around entries and range bounds.
pub open spec fn is_space(c: char) -> bool {
    c == ' ' || c == '\t' || c == '\r' || c == '\n'
}

/// Decimal digit characters.
pub open spec fn is_digit(c: char) -> bool {
    c == '0' || c == '1' || c == '2' || c == '3' || c == '4' || c == '5' || c == '6' || c == '7'
        || c == '8' || c == '9'
}

/// Numeric value of a digit character (zero on non-digits).
pub open spec fn digit_val(c: char) -> nat {
    if c == '1' {
        1
    } else if c == '2' {
        2
    } else if c == '3' {
        3
    } else if c == '4' {
        4
    } else if c == '5' {
        5
    } else if c == '6' {
        6
    } else if c == '7' {
        7
    } else if c == '8' {
        8
    } else if c == '9' {
        9
    } else {
        0
    }
}

/// The digit character of a value below ten.
pub open spec fn digit_char(d: nat) -> char {
    if d == 1 {
        '1'
    } else if d == 2 {
        '2'
    } else if d == 3 {
        '3'
    } else if d == 4 {
        '4'
    } else if d == 5 {
        '5'
    } else if d == 6 {
        '6'
    } else if d == 7 {
        '7'
    } else if d == 8 {
        '8'
    } else if d == 9 {
        '9'
    } else {
        '0'
    }
}

/// Every character of `s` is a decimal digit.
pub open spec fn all_digits(s: Seq<char>) -> bool {
    forall|i: int| 0 <= i < s.len() ==> is_digit(s[i])
}

/// Value of a string of decimal digits, most significant first.
pub open spec fn dec_val(s: Seq<char>) -> nat
    decreases s.len(),
{
    if s.len() == 0 {
        0
    } else {
        dec_val(s.drop_last()) * 10 + digit_val(s.last())
    }
}

/// Length of the longest digit prefix of `s`.
pub open spec fn digits_len(s: Seq<char>) -> nat
    decreases s.len(),
{
    if s.len() > 0 && is_digit(s[0]) {
        1 + digits_len(s.subrange(1, s.len() as int))
    } else {
        0
    }
}

/// What `digits_len` returns: the digit prefix really is one, and it ends at
/// the end of the string or at a non-digit.
pub proof fn lemma_digits_len_digits(u: Seq<char>)
    ensures
        digits_len(u) <= u.len(),
        forall|j: int| 0 <= j < digits_len(u) ==> is_digit(u[j]),
        digits_len(u) < u.len() ==> !is_digit(u[digits_len(u) as int]),
    decreases u.len(),
{
    if u.len() > 0 && is_digit(u[0]) {
        let t = u.subrange(1, u.len() as int);
        lemma_digits_len_digits(t);
        assert forall|j: int| 0 <= j < digits_len(u) implies is_digit(u[j]) by {
            if j >= 1 {
                assert(u[j] == t[j - 1]);
            }
        }
        if digits_len(u) < u.len() {
            assert(u[digits_len(u) as int] == t[digits_len(t) as int]);
        }
    }
}

/// `digits_len` from a witness: `k` digits followed by the end of the string
/// or by a non-digit.
pub proof fn lemma_digits_len_prefix(u: Seq<char>, k: int)
    requires
        0 <= k <= u.len(),
        forall|j: int| 0 <= j < k ==> is_digit(u[j]),
        k == u.len() || !is_digit(u[k]),
    ensures
        digits_len(u) == k,
    decreases u.len(),
{
    if k == 0 {
        if u.len() > 0 {
            assert(!is_digit(u[0]));
        }
    } else {
        assert(is_digit(u[0]));
        let t = u.subrange(1, u.len() as int);
        assert(forall|j: int| 0 <= j < t.len() ==> t[j] == u[j + 1]);
        lemma_digits_len_prefix(t, k - 1);
    }
}

/// The canonical decimal numeral of `n`: no leading zeros, so a single `'0'`
/// for zero itself.
pub open spec fn dec_str(n: nat) -> Seq<char>
    decreases n,
{
    if n < 10 {
        seq![digit_char(n)]
    } else {
        dec_str(n / 10).push(digit_char(n % 10))
    }
}

/// A digit string is canonical when it is nonempty and has no leading zero.
pub open spec fn is_canonical_dec(s: Seq<char>) -> bool {
    s.len() > 0 && all_digits(s) && (s[0] != '0' || s.len() == 1)
}

/// Round trip of the digit table: a digit character survives the value map.
pub proof fn lemma_digit_char_val(c: char)
    requires
        is_digit(c),
    ensures
        digit_char(digit_val(c)) == c,
        digit_val(c) < 10,
{
}

/// Round trip of the digit table in the other direction.
pub proof fn lemma_digit_val_char(d: nat)
    requires
        d < 10,
    ensures
        digit_val(digit_char(d)) == d,
        is_digit(digit_char(d)),
{
}

/// The canonical numeral of `n` is canonical and evaluates back to `n`.
pub proof fn lemma_dec_str_canonical(n: nat)
    ensures
        is_canonical_dec(dec_str(n)),
        dec_val(dec_str(n)) == n,
        n < 10 ==> dec_str(n).len() == 1,
        n >= 10 ==> dec_str(n).len() >= 2,
    decreases n,
{
    if n < 10 {
        let s = dec_str(n);
        assert(s == seq![digit_char(n)]);
        assert(s.drop_last() =~= Seq::<char>::empty());
        assert(s.last() == digit_char(n));
        lemma_digit_val_char(n);
        assert(dec_val(s) == dec_val(s.drop_last()) * 10 + digit_val(s.last()));
    } else {
        lemma_dec_str_canonical(n / 10);
        let pre = dec_str(n / 10);
        let s = pre.push(digit_char((n % 10) as nat));
        assert(s.drop_last() =~= pre);
        assert(s.last() == digit_char((n % 10) as nat));
        assert(digit_val(digit_char((n % 10) as nat)) == n % 10);
        assert(dec_val(s) == (n / 10) * 10 + n % 10);
        assert((n / 10) * 10 + n % 10 == n) by {
            vstd::arithmetic::div_mod::lemma_fundamental_div_mod(n as int, 10);
        }
        assert(s[0] == pre[0]);
        assert(n / 10 >= 1);
        assert(pre[0] != '0' || pre.len() == 1);
        if pre.len() == 1 {
            assert(pre[0] == digit_char(n / 10));
        }
    }
}

/// A nonempty digit string without a leading zero evaluates to at least one.
pub proof fn lemma_dec_val_pos(s: Seq<char>)
    requires
        s.len() > 0,
        all_digits(s),
        s[0] != '0',
    ensures
        dec_val(s) >= 1,
    decreases s.len(),
{
    if s.len() == 1 {
        assert(s.drop_last() =~= Seq::<char>::empty());
        assert(digit_val(s[0]) >= 1);
    } else {
        assert(s.drop_last()[0] == s[0]);
        lemma_dec_val_pos(s.drop_last());
    }
}

/// Canonical numerals are unique: a canonical digit string is the canonical
/// numeral of its own value.
pub proof fn lemma_canonical_dec_unique(s: Seq<char>)
    requires
        is_canonical_dec(s),
    ensures
        dec_str(dec_val(s)) == s,
    decreases s.len(),
{
    if s.len() == 1 {
        assert(s.drop_last() =~= Seq::<char>::empty());
        assert(s.last() == s[0]);
        assert(dec_val(s) == dec_val(s.drop_last()) * 10 + digit_val(s.last()));
        assert(dec_val(s) == digit_val(s[0]));
        lemma_digit_char_val(s[0]);
        assert(dec_str(dec_val(s)) =~= s);
    } else {
        let pre = s.drop_last();
        assert(pre[0] == s[0]);
        assert(forall|i: int| 0 <= i < pre.len() ==> pre[i] == s[i]);
        lemma_dec_val_pos(pre);
        lemma_digit_char_val(s.last());
        let v = dec_val(s);
        assert(v == dec_val(pre) * 10 + digit_val(s.last()));
        assert(v / 10 == dec_val(pre) && v % 10 == digit_val(s.last())) by {
            vstd::arithmetic::div_mod::lemma_fundamental_div_mod_converse(
                v as int,
                10,
                dec_val(pre) as int,
                digit_val(s.last()) as int,
            );
        }
        assert(v >= 10);
        lemma_canonical_dec_unique(pre);
        assert(dec_str(v) == dec_str(dec_val(pre)).push(digit_char(digit_val(s.last()))));
        assert(dec_str(v) =~= s);
    }
}

/// `s` with leading whitespace removed.
pub open spec fn trim_front(s: Seq<char>) -> Seq<char>
    decreases s.len(),
{
    if s.len() > 0 && is_space(s[0]) {
        trim_front(s.subrange(1, s.len() as int))
    } else {
        s
    }
}

/// `s` with trailing whitespace removed.
pub open spec fn trim_back(s: Seq<char>) -> Seq<char>
    decreases s.len(),
{
    if s.len() > 0 && is_space(s.last()) {
        trim_back(s.drop_last())
    } else {
        s
    }
}

/// `s` with whitespace removed from both ends.
pub open spec fn trim_spec(s: Seq<char>) -> Seq<char> {
    trim_back(trim_front(s))
}

/// Index of the first occurrence of `c` in `s`, or a negative value when `c`
/// does not occur.
pub open spec fn first_index_of(s: Seq<char>, c: char) -> int
    decreases s.len(),
{
    if s.len() == 0 {
        -1
    } else if s[0] == c {
        0
    } else if first_index_of(s.subrange(1, s.len() as int), c) < 0 {
        -1
    } else {
        1 + first_index_of(s.subrange(1, s.len() as int), c)
    }
}

/// What `first_index_of` returns: the least index holding `c`, or negative
/// when there is none.
pub proof fn lemma_first_index_of(s: Seq<char>, c: char)
    ensures
        first_index_of(s, c) < 0 ==> forall|j: int| 0 <= j < s.len() ==> s[j] != c,
        first_index_of(s, c) >= 0 ==> {
            let i = first_index_of(s, c);
            i < s.len() && s[i] == c && forall|j: int| 0 <= j < i ==> s[j] != c
        },
    decreases s.len(),
{
    if s.len() == 0 {
    } else if s[0] == c {
    } else {
        let t = s.subrange(1, s.len() as int);
        lemma_first_index_of(t, c);
        let rt = first_index_of(t, c);
        if rt < 0 {
            assert forall|j: int| 0 <= j < s.len() implies s[j] != c by {
                if j >= 1 {
                    assert(t[j - 1] == s[j]);
                    assert(t[j - 1] != c);
                }
            }
        } else {
            assert(first_index_of(s, c) == 1 + rt);
            assert(s[1 + rt] == t[rt]);
            assert forall|j: int| 0 <= j < 1 + rt implies s[j] != c by {
                if j >= 1 {
                    assert(t[j - 1] == s[j]);
                    assert(t[j - 1] != c);
                }
            }
        }
    }
}

/// `first_index_of` from a witness: `i` holds `c` and nothing before it does.
pub proof fn lemma_first_index_of_is(s: Seq<char>, c: char, i: int)
    requires
        0 <= i < s.len(),
        s[i] == c,
        forall|j: int| 0 <= j < i ==> s[j] != c,
    ensures
        first_index_of(s, c) == i,
{
    lemma_first_index_of(s, c);
    let r = first_index_of(s, c);
    if r < 0 {
        assert(s[i] != c);
    } else if r < i {
        assert(s[r] != c);
    } else if r > i {
        assert(s[i] != c);
    }
}

/// `first_index_of` is negative exactly when `c` does not occur.
pub proof fn lemma_first_index_of_none(s: Seq<char>, c: char)
    requires
        forall|j: int| 0 <= j < s.len() ==> s[j] != c,
    ensures
        first_index_of(s, c) < 0,
{
    lemma_first_index_of(s, c);
    let r = first_index_of(s, c);
    if r >= 0 {
        assert(s[r] != c);
    }
}

/// Splitting at every newline; text without a newline is a single segment.
pub open spec fn split_nl(s: Seq<char>) -> Seq<Seq<char>>
    decreases s.len(),
{
    let i = first_index_of(s, '\n');
    if 0 <= i < s.len() {
        seq![s.subrange(0, i)] + split_nl(s.subrange(i + 1, s.len() as int))
    } else {
        seq![s]
    }
}

/// How a whole input text falls into entry lines: the text is trimmed at both
/// ends and then split at every newline.
pub open spec fn split_lines_spec(s: Seq<char>) -> Seq<Seq<char>> {
    split_nl(trim_spec(s))
}

/// Locates the first occurrence of `c` among the characters of `s`.
pub fn find_char(s: &str, c: char) -> (r: Option<usize>)
    ensures
        match r {
            Some(i) => i < s@.len() && first_index_of(s@, c) == i,
            None => first_index_of(s@, c) < 0,
        },
{
    let n: usize = s.unicode_len();
    let mut i: usize = 0;
    while i < n
        invariant
            i <= n,
            n == s@.len(),
            forall|j: int| 0 <= j < i ==> s@[j] != c,
        decreases n - i,
    {
        if s.get_char(i) == c {
            proof {
                lemma_first_index_of_is(s@, c, i as int);
            }
            return Some(i);
        }
        i = i + 1;
    }
    proof {
        lemma_first_index_of_none(s@, c);
    }
    None
}

/// Removes the whitespace at both ends of `s`.
pub fn trim_str<'a>(s: &'a str) -> (r: &'a str)
    ensures
        r@ == trim_spec(s@),
{
    let n: usize = s.unicode_len();
    let mut i: usize = 0;
    proof {
        assert(s@.subrange(0, n as int) =~= s@);
    }
    loop
        invariant
            i <= n,
            n == s@.len(),
            trim_front(s@) == trim_front(s@.subrange(i as int, n as int)),
        ensures
            i <= n,
            trim_front(s@) == s@.subrange(i as int, n as int),
        decreases n - i,
    {
        if i >= n {
            assert(s@.subrange(i as int, n as int) =~= Seq::<char>::empty());
            break;
        }
        let c = s.get_char(i);
        if !(c == ' ' || c == '\t' || c == '\r' || c == '\n') {
            assert(s@.subrange(i as int, n as int)[0] == s@[i as int]);
            break;
        }
        proof {
            let cur = s@.subrange(i as int, n as int);
            assert(cur[0] == s@[i as int]);
            assert(cur.subrange(1, cur.len() as int) =~= s@.subrange(i + 1, n as int));
        }
        i = i + 1;
    }
    let mut j: usize = n;
    loop
        invariant
            i <= j <= n,
            n == s@.len(),
            trim_back(s@.subrange(i as int, n as int)) == trim_back(
                s@.subrange(i as int, j as int),
            ),
        ensures
            i <= j <= n,
            trim_back(s@.subrange(i as int, n as int)) == s@.subrange(i as int, j as int),
        decreases j,
    {
        if j <= i {
            assert(s@.subrange(i as int, j as int) =~= Seq::<char>::empty());
            break;
        }
        let c = s.get_char(j - 1);
        if !(c == ' ' || c == '\t' || c == '\r' || c == '\n') {
            assert(s@.subrange(i as int, j as int).last() == s@[j - 1]);
            break;
        }
        proof {
            let cur = s@.subrange(i as int, j as int);
            assert(cur.last() == s@[j - 1]);
            assert(cur.drop_last() =~= s@.subrange(i as int, j - 1));
        }
        j = j - 1;
    }
    let r = s.substring_char(i, j);
    proof {
        assert(r@ == s@.subrange(i as int, j as int));
    }
    r
}

/// Splits a whole input text into entry lines: trims the text at both ends,
/// then cuts at every newline.
pub fn split_lines(contents: &str) -> (r: Vec<String>)
    ensures
        r.deep_view() == split_lines_spec(contents@),
{
    let t = trim_str(contents);
    let n: usize = t.unicode_len();
    let mut out: Vec<String> = Vec::new();
    let mut pos: usize = 0;
    proof {
        assert(t@.subrange(0, n as int) =~= t@);
        assert(out.deep_view() =~= Seq::<Seq<char>>::empty());
        assert(split_nl(t@) =~= out.deep_view() + split_nl(t@));
    }
    loop
        invariant_except_break
            pos <= n,
            n == t@.len(),
            split_nl(t@) == out.deep_view() + split_nl(t@.subrange(pos as int, n as int)),
        ensures
            out.deep_view() == split_nl(t@),
        decreases n - pos,
    {
        let rem = t.substring_char(pos, n);
        let ghost remv = t@.subrange(pos as int, n as int);
        match find_char(rem, '\n') {
            None => {
                let line = rem.to_owned();
                out.push(line);
                proof {
                    assert(split_nl(remv) == seq![remv]);
                    assert(out.deep_view() =~= out.deep_view().subrange(
                        0,
                        out.deep_view().len() - 1,
                    ) + seq![remv]);
                    assert(split_nl(t@) =~= out.deep_view());
                }
                break;
            },
            Some(k) => {
                let line = t.substring_char(pos, pos + k).to_owned();
                proof {
                    assert(line@ =~= remv.subrange(0, k as int));
                    assert(remv.subrange(k + 1, remv.len() as int) =~= t@.subrange(
                        pos + k + 1,
                        n as int,
                    ));
                    assert(split_nl(remv) == seq![remv.subrange(0, k as int)] + split_nl(
                        remv.subrange(k + 1, remv.len() as int),
                    ));
                }
                out.push(line);
                proof {
                    assert(split_nl(t@) =~= out.deep_view() + split_nl(
                        t@.subrange(pos + k + 1, n as int),
                    ));
                }
                pos = pos + k + 1;
            },
        }
    }
    proof {
        assert(out.deep_view() == split_lines_spec(contents@));
    }
    out
}

} // verus!

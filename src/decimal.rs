//! Base-10 text of unsigned integers, as written to and read from the
//! catalogue's latest-version pointer.
use vstd::prelude::*;

verus! {

/// The ASCII digit for `d < 10`.
pub open spec fn digit(d: nat) -> u8 {
    (48 + d) as u8
}

/// The shortest base-10 ASCII text of `n`.
pub open spec fn digits(n: nat) -> Seq<u8>
    decreases n,
{
    if n < 10 {
        seq![digit(n)]
    } else {
        digits(n / 10).push(digit(n % 10))
    }
}

/// The same text as characters.
pub open spec fn digit_chars(n: nat) -> Seq<char> {
    digits(n).map_values(|b: u8| b as char)
}

/// `b` is an ASCII digit.
pub open spec fn is_digit(b: u8) -> bool {
    48 <= b <= 57
}

/// `b` is ASCII whitespace: tab, line feed, vertical tab, form feed,
/// carriage return or space.
pub open spec fn is_space(b: u8) -> bool {
    b == 32 || (9 <= b <= 13)
}

/// `a b c` is the UTF-8 encoding of a three-byte whitespace character:
/// U+1680, U+2000 to U+200A, U+2028, U+2029, U+202F, U+205F or U+3000.
pub open spec fn is_wide_space(a: u8, b: u8, c: u8) -> bool {
    ||| (a == 0xe1 && b == 0x9a && c == 0x80)
    ||| (a == 0xe2 && b == 0x80 && ((0x80 <= c <= 0x8a) || c == 0xa8 || c == 0xa9 || c == 0xaf))
    ||| (a == 0xe2 && b == 0x81 && c == 0x9f)
    ||| (a == 0xe3 && b == 0x80 && c == 0x80)
}

/// `a b` is the UTF-8 encoding of U+0085 or U+00A0.
pub open spec fn is_narrow_space(a: u8, b: u8) -> bool {
    a == 0xc2 && (b == 0x85 || b == 0xa0)
}

/// Length of the UTF-8 encoded whitespace character (in the sense of
/// `char::is_whitespace`) that `s` starts with, or 0.
pub open spec fn space_prefix(s: Seq<u8>) -> int {
    if s.len() >= 1 && is_space(s[0]) {
        1
    } else if s.len() >= 2 && is_narrow_space(s[0], s[1]) {
        2
    } else if s.len() >= 3 && is_wide_space(s[0], s[1], s[2]) {
        3
    } else {
        0
    }
}

/// Length of the UTF-8 encoded whitespace character that `s` ends with, or 0.
pub open spec fn space_suffix(s: Seq<u8>) -> int {
    let n = s.len() as int;
    if n >= 1 && is_space(s[n - 1]) {
        1
    } else if n >= 2 && is_narrow_space(s[n - 2], s[n - 1]) {
        2
    } else if n >= 3 && is_wide_space(s[n - 3], s[n - 2], s[n - 1]) {
        3
    } else {
        0
    }
}

/// `s` without its leading whitespace.
pub open spec fn trim_start(s: Seq<u8>) -> Seq<u8>
    decreases s.len(),
{
    if space_prefix(s) > 0 {
        trim_start(s.subrange(space_prefix(s), s.len() as int))
    } else {
        s
    }
}

/// `s` without its trailing whitespace.
pub open spec fn trim_end(s: Seq<u8>) -> Seq<u8>
    decreases s.len(),
{
    if space_suffix(s) > 0 {
        trim_end(s.subrange(0, s.len() - space_suffix(s)))
    } else {
        s
    }
}

fn space_prefix_at(s: &[u8], lo: usize, hi: usize) -> (k: usize)
    requires
        lo <= hi <= s@.len(),
    ensures
        k == space_prefix(s@.subrange(lo as int, hi as int)),
{
    let t = Ghost(s@.subrange(lo as int, hi as int));
    if lo < hi && (s[lo] == 32 || (9 <= s[lo] && s[lo] <= 13)) {
        assert(t@[0] == s@[lo as int]);
        return 1;
    }
    proof {
        if lo < hi {
            assert(t@[0] == s@[lo as int]);
        }
    }
    if hi - lo >= 2 && s[lo] == 0xc2 && (s[lo + 1] == 0x85 || s[lo + 1] == 0xa0) {
        assert(t@[0] == s@[lo as int] && t@[1] == s@[lo + 1]);
        return 2;
    }
    proof {
        if hi - lo >= 2 {
            assert(t@[0] == s@[lo as int] && t@[1] == s@[lo + 1]);
        }
    }
    if hi - lo >= 3 {
        let (a, b, c) = (s[lo], s[lo + 1], s[lo + 2]);
        assert(t@[0] == a && t@[1] == b && t@[2] == c);
        if (a == 0xe1 && b == 0x9a && c == 0x80) || (a == 0xe2 && b == 0x80 && ((0x80 <= c && c <= 0x8a)
            || c == 0xa8 || c == 0xa9 || c == 0xaf)) || (a == 0xe2 && b == 0x81 && c == 0x9f) || (a == 0xe3
            && b == 0x80 && c == 0x80) {
            return 3;
        }
    }
    0
}

fn space_suffix_at(s: &[u8], lo: usize, hi: usize) -> (k: usize)
    requires
        lo <= hi <= s@.len(),
    ensures
        k == space_suffix(s@.subrange(lo as int, hi as int)),
{
    let t = Ghost(s@.subrange(lo as int, hi as int));
    let n = hi - lo;
    if n >= 1 && (s[hi - 1] == 32 || (9 <= s[hi - 1] && s[hi - 1] <= 13)) {
        assert(t@[n - 1] == s@[hi - 1]);
        return 1;
    }
    proof {
        if n >= 1 {
            assert(t@[n - 1] == s@[hi - 1]);
        }
    }
    if n >= 2 && s[hi - 2] == 0xc2 && (s[hi - 1] == 0x85 || s[hi - 1] == 0xa0) {
        assert(t@[n - 2] == s@[hi - 2] && t@[n - 1] == s@[hi - 1]);
        return 2;
    }
    proof {
        if n >= 2 {
            assert(t@[n - 2] == s@[hi - 2] && t@[n - 1] == s@[hi - 1]);
        }
    }
    if n >= 3 {
        let (a, b, c) = (s[hi - 3], s[hi - 2], s[hi - 1]);
        assert(t@[n - 3] == a && t@[n - 2] == b && t@[n - 1] == c);
        if (a == 0xe1 && b == 0x9a && c == 0x80) || (a == 0xe2 && b == 0x80 && ((0x80 <= c && c <= 0x8a)
            || c == 0xa8 || c == 0xa9 || c == 0xaf)) || (a == 0xe2 && b == 0x81 && c == 0x9f) || (a == 0xe3
            && b == 0x80 && c == 0x80) {
            return 3;
        }
    }
    0
}

/// The value of a run of digits (0 for the empty run).
pub open spec fn value(s: Seq<u8>) -> nat
    decreases s.len(),
{
    if s.len() == 0 {
        0
    } else {
        value(s.drop_last()) * 10 + (s.last() - 48) as nat
    }
}

/// What follows the optional `+` once the whitespace around `s` is removed.
pub open spec fn unsigned_part(s: Seq<u8>) -> Seq<u8> {
    let t = trim_end(trim_start(s));
    if t.len() > 0 && t[0] == 43 {
        t.drop_first()
    } else {
        t
    }
}

/// The unsigned number that `s` spells: whitespace around it is ignored, a
/// single leading `+` is allowed, then one or more digits whose value fits
/// in 64 bits.
pub open spec fn parse_u64(s: Seq<u8>) -> Option<u64> {
    let d = unsigned_part(s);
    if d.len() > 0 && (forall|i: int| 0 <= i < d.len() ==> is_digit(#[trigger] d[i])) && value(d)
        <= u64::MAX {
        Some(value(d) as u64)
    } else {
        None
    }
}

proof fn lemma_digits_shape(n: nat)
    ensures
        digits(n).len() > 0,
        forall|i: int| 0 <= i < digits(n).len() ==> is_digit(#[trigger] digits(n)[i]),
        value(digits(n)) == n,
        space_prefix(digits(n)) == 0,
        space_suffix(digits(n)) == 0,
        digits(n)[0] != 43,
    decreases n,
{
    assert(value(digits(n)) == value(digits(n).drop_last()) * 10 + (digits(n).last() - 48) as nat);
    if n < 10 {
        assert(digits(n).drop_last() =~= Seq::<u8>::empty());
        assert(value(Seq::<u8>::empty()) == 0);
    } else {
        lemma_digits_shape(n / 10);
        let p = digits(n / 10);
        assert(digits(n).drop_last() =~= p);
        assert(digits(n).last() == digit(n % 10));
        assert(value(digits(n)) == value(p) * 10 + n % 10);
        assert((n / 10) * 10 + n % 10 == n);
        assert forall|i: int| 0 <= i < digits(n).len() implies is_digit(#[trigger] digits(n)[i]) by {
            if i < p.len() {
                assert(digits(n)[i] == p[i]);
            }
        }
    }
}

/// Reading back the text of a number gives the number.
pub proof fn lemma_parse_digits(n: u64)
    ensures
        parse_u64(digits(n as nat)) == Some(n),
{
    let s = digits(n as nat);
    lemma_digits_shape(n as nat);
    assert(trim_start(s) == s);
    assert(trim_end(s) == s);
}

/// Distinct numbers have distinct texts.
pub proof fn lemma_digits_injective(a: u64, b: u64)
    ensures
        digits(a as nat) == digits(b as nat) ==> a == b,
        digit_chars(a as nat) == digit_chars(b as nat) ==> a == b,
{
    lemma_parse_digits(a);
    lemma_parse_digits(b);
    if digit_chars(a as nat) == digit_chars(b as nat) {
        let x = digits(a as nat);
        let y = digits(b as nat);
        assert(x.len() == digit_chars(a as nat).len());
        assert forall|i: int| 0 <= i < x.len() implies x[i] == y[i] by {
            assert(digit_chars(a as nat)[i] == x[i] as char);
            assert(digit_chars(b as nat)[i] == y[i] as char);
        }
        assert(x =~= y);
    }
}

fn digit_text(d: u64) -> (r: &'static str)
    requires
        d < 10,
    ensures
        r@ == seq![digit(d as nat) as char],
{
    proof {
        reveal_strlit("0");
        reveal_strlit("1");
        reveal_strlit("2");
        reveal_strlit("3");
        reveal_strlit("4");
        reveal_strlit("5");
        reveal_strlit("6");
        reveal_strlit("7");
        reveal_strlit("8");
        reveal_strlit("9");
    }
    match d {
        0 => "0",
        1 => "1",
        2 => "2",
        3 => "3",
        4 => "4",
        5 => "5",
        6 => "6",
        7 => "7",
        8 => "8",
        _ => "9",
    }
}

/// Appends the base-10 text of `n` to `s`.
pub fn push_decimal(s: &mut String, n: u64)
    ensures
        final(s)@ == old(s)@ + digit_chars(n as nat),
    decreases n,
{
    if n >= 10 {
        push_decimal(s, n / 10);
    }
    s.append(digit_text(n % 10));
    proof {
        if n >= 10 {
            assert(digit_chars(n as nat) =~= digit_chars((n / 10) as nat).push(digit((n % 10) as nat) as char));
        } else {
            assert(digit_chars(n as nat) =~= seq![digit(n as nat) as char]);
        }
    }
}

/// The base-10 text of `n` as bytes.
pub fn decimal_bytes(n: u64) -> (r: Vec<u8>)
    ensures
        r@ == digits(n as nat),
    decreases n,
{
    let mut r = if n >= 10 {
        decimal_bytes(n / 10)
    } else {
        Vec::new()
    };
    r.push(48 + (n % 10) as u8);
    proof {
        if n < 10 {
            assert(r@ =~= digits(n as nat));
        }
    }
    r
}

proof fn lemma_value_grows(s: Seq<u8>, i: int)
    requires
        0 <= i <= s.len(),
        forall|j: int| 0 <= j < s.len() ==> is_digit(#[trigger] s[j]),
    ensures
        value(s.subrange(0, i)) <= value(s),
    decreases s.len() - i,
{
    if i < s.len() {
        lemma_value_grows(s, i + 1);
        assert(s.subrange(0, i + 1).drop_last() =~= s.subrange(0, i));
        assert(is_digit(s.subrange(0, i + 1).last()));
    } else {
        assert(s.subrange(0, i) =~= s);
    }
}

/// Reads the unsigned number that `s` spells (see `parse_u64`).
pub fn parse_decimal(s: &[u8]) -> (r: Option<u64>)
    ensures
        r == parse_u64(s@),
{
    let n = s.len();
    let mut lo: usize = 0;
    assert(s@.subrange(0, n as int) =~= s@);
    loop
        invariant
            0 <= lo <= n,
            n == s@.len(),
            trim_start(s@.subrange(lo as int, n as int)) == trim_start(s@),
        ensures
            0 <= lo <= n,
            trim_start(s@.subrange(lo as int, n as int)) == trim_start(s@),
            space_prefix(s@.subrange(lo as int, n as int)) == 0,
        decreases n - lo,
    {
        let k = space_prefix_at(s, lo, n);
        if k == 0 {
            break;
        }
        assert(s@.subrange(lo as int, n as int).subrange(k as int, n - lo) =~= s@.subrange(lo + k, n as int));
        lo += k;
    }
    assert(trim_start(s@) =~= s@.subrange(lo as int, n as int));
    let mut hi: usize = n;
    loop
        invariant
            lo <= hi <= n,
            n == s@.len(),
            trim_end(s@.subrange(lo as int, hi as int)) == trim_end(trim_start(s@)),
        ensures
            lo <= hi <= n,
            trim_end(s@.subrange(lo as int, hi as int)) == trim_end(trim_start(s@)),
            space_suffix(s@.subrange(lo as int, hi as int)) == 0,
        decreases hi,
    {
        let k = space_suffix_at(s, lo, hi);
        if k == 0 {
            break;
        }
        assert(s@.subrange(lo as int, hi as int).subrange(0, hi - lo - k) =~= s@.subrange(lo as int, hi - k));
        hi -= k;
    }
    let ghost t = s@.subrange(lo as int, hi as int);
    assert(trim_end(trim_start(s@)) =~= t);
    let mut start = lo;
    if hi > lo && s[lo] == 43 {
        start = lo + 1;
        assert(t.drop_first() =~= s@.subrange(start as int, hi as int));
    }
    let ghost d = s@.subrange(start as int, hi as int);
    proof {
        if hi > lo {
            assert(t[0] == s@[lo as int]);
        }
        if start == lo {
            assert(d =~= t);
        }
        assert(unsigned_part(s@) == d);
    }
    if start >= hi {
        return None;
    }
    let mut acc: u64 = 0;
    let mut i: usize = start;
    while i < hi
        invariant
            start <= i <= hi,
            hi <= n,
            n == s@.len(),
            d == s@.subrange(start as int, hi as int),
            d == unsigned_part(s@),
            forall|j: int| start <= j < i ==> is_digit(#[trigger] s@[j]),
            acc == value(s@.subrange(start as int, i as int)),
        decreases hi - i,
    {
        let b = s[i];
        if b < 48 || b > 57 {
            assert(d[i - start] == s@[i as int]);
            assert(!is_digit(d[i - start]));
            return None;
        }
        let dv = (b - 48) as u64;
        assert(s@.subrange(start as int, i + 1).drop_last() =~= s@.subrange(start as int, i as int));
        if acc > 1844674407370955161 || (acc == 1844674407370955161 && dv > 5) {
            proof {
                if forall|j: int| 0 <= j < d.len() ==> is_digit(#[trigger] d[j]) {
                    lemma_value_grows(d, i + 1 - start);
                    assert(d.subrange(0, i + 1 - start) =~= s@.subrange(start as int, i + 1));
                    assert(value(s@.subrange(start as int, i + 1)) == acc * 10 + dv);
                    assert(acc * 10 + dv > 18446744073709551615) by (nonlinear_arith)
                        requires
                            acc > 1844674407370955161 || (acc == 1844674407370955161 && dv > 5),
                    ;
                }
            }
            return None;
        }
        acc = acc * 10 + dv;
        i += 1;
    }
    assert(d =~= s@.subrange(start as int, i as int));
    Some(acc)
}

} // verus!

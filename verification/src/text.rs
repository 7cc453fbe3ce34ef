//! Character-level helpers shared by the rest of the crate: Unicode
//! whitespace, trimming, decimal formatting and parsing, and line splitting.

use vstd::prelude::*;
use vstd::utf8::{encode_scalar, encode_utf8};

verus! {

/// Unicode `White_Space`, the property `char::is_whitespace` tests.
pub open spec fn is_ws(c: char) -> bool {
    let u = c as u32;
    ||| (0x9 <= u && u <= 0xd)
    ||| u == 0x20
    ||| u == 0x85
    ||| u == 0xa0
    ||| u == 0x1680
    ||| (0x2000 <= u && u <= 0x200a)
    ||| u == 0x2028
    ||| u == 0x2029
    ||| u == 0x202f
    ||| u == 0x205f
    ||| u == 0x3000
}

/// Whether `c` is Unicode whitespace.
pub fn is_whitespace(c: char) -> (r: bool)
    ensures
        r == is_ws(c),
{
    let u = c as u32;
    (0x9 <= u && u <= 0xd) || u == 0x20 || u == 0x85 || u == 0xa0 || u == 0x1680 || (0x2000 <= u
        && u <= 0x200a) || u == 0x2028 || u == 0x2029 || u == 0x202f || u == 0x205f || u == 0x3000
}

/// `s` without its leading whitespace.
pub open spec fn trim_start(s: Seq<char>) -> Seq<char>
    decreases s.len(),
{
    if s.len() > 0 && is_ws(s[0]) {
        trim_start(s.drop_first())
    } else {
        s
    }
}

/// `s` without its trailing whitespace.
pub open spec fn trim_end(s: Seq<char>) -> Seq<char>
    decreases s.len(),
{
    if s.len() > 0 && is_ws(s.last()) {
        trim_end(s.drop_last())
    } else {
        s
    }
}

/// `s` without whitespace at either end.
pub open spec fn trim(s: Seq<char>) -> Seq<char> {
    trim_end(trim_start(s))
}

/// The characters of a string slice. Its UTF-8 encoding, being the bytes
/// of a slice, has a length that fits in `usize`.
pub fn chars_of(s: &str) -> (v: Vec<char>)
    ensures
        v@ == s@,
        encode_utf8(v@).len() <= usize::MAX,
{
    let bytes = s.as_bytes();
    let n = bytes.len();
    assert(n == encode_utf8(s@).len());
    let mut v: Vec<char> = Vec::new();
    for c in it: s.chars()
        invariant
            v@ == it.seq().take(it.index() as int),
    {
        v.push(c);
    }
    v
}

/// Calls `String::push`, which appends `c` to the end of `s`.
#[verifier::external_body]
fn string_push(s: &mut String, c: char)
    ensures
        final(s)@ == old(s)@.push(c),
{
    s.push(c);
}

/// The string made of the given characters.
pub fn string_of(v: &[char]) -> (s: String)
    ensures
        s@ == v@,
{
    let mut s = String::new();
    let mut i: usize = 0;
    while i < v.len()
        invariant
            i <= v@.len(),
            s@ == v@.take(i as int),
        decreases v@.len() - i,
    {
        string_push(&mut s, v[i]);
        assert(s@ =~= v@.take(i + 1));
        i += 1;
    }
    assert(v@.take(i as int) =~= v@);
    s
}

/// A copy of `v[a..b]`.
pub fn sub_chars(v: &Vec<char>, a: usize, b: usize) -> (r: Vec<char>)
    requires
        a <= b <= v@.len(),
    ensures
        r@ == v@.subrange(a as int, b as int),
{
    let mut r: Vec<char> = Vec::new();
    let mut i: usize = a;
    while i < b
        invariant
            a <= i <= b <= v@.len(),
            r@ == v@.subrange(a as int, i as int),
        decreases b - i,
    {
        r.push(v[i]);
        i += 1;
    }
    r
}

proof fn lemma_trim_start_step(s: Seq<char>, i: int)
    requires
        0 <= i < s.len(),
        is_ws(s[i]),
    ensures
        trim_start(s.skip(i)) == trim_start(s.skip(i + 1)),
{
    assert(s.skip(i).drop_first() =~= s.skip(i + 1));
}

proof fn lemma_trim_end_step(s: Seq<char>, j: int)
    requires
        0 < j <= s.len(),
        is_ws(s[j - 1]),
    ensures
        trim_end(s.take(j)) == trim_end(s.take(j - 1)),
{
    assert(s.take(j).drop_last() =~= s.take(j - 1));
}

/// Index of the first non-whitespace character (or the length).
pub fn trim_start_index(v: &Vec<char>) -> (i: usize)
    ensures
        i <= v@.len(),
        v@.skip(i as int) == trim_start(v@),
{
    let mut i: usize = 0;
    assert(v@.skip(0) =~= v@);
    while i < v.len() && is_whitespace(v[i])
        invariant
            i <= v@.len(),
            trim_start(v@.skip(i as int)) == trim_start(v@),
        decreases v@.len() - i,
    {
        proof {
            lemma_trim_start_step(v@, i as int);
        }
        i += 1;
    }
    i
}

/// Index just past the last non-whitespace character of `v[..end]`.
pub fn trim_end_index(v: &Vec<char>, start: usize, end: usize) -> (j: usize)
    requires
        start <= end <= v@.len(),
    ensures
        start <= j <= end,
        v@.subrange(start as int, j as int) == trim_end(v@.subrange(start as int, end as int)),
{
    let ghost s = v@.subrange(start as int, end as int);
    let mut j: usize = end;
    assert(s.take((end - start) as int) =~= s);
    while j > start && is_whitespace(v[j - 1])
        invariant
            start <= j <= end <= v@.len(),
            s == v@.subrange(start as int, end as int),
            trim_end(s.take(j - start)) == trim_end(s),
        decreases j,
    {
        proof {
            lemma_trim_end_step(s, j - start);
        }
        j -= 1;
    }
    assert(s.take(j - start) =~= v@.subrange(start as int, j as int));
    j
}

/// `v` with surrounding whitespace removed.
pub fn trim_chars(v: &Vec<char>) -> (r: Vec<char>)
    ensures
        r@ == trim(v@),
{
    let i = trim_start_index(v);
    let j = trim_end_index(v, i, v.len());
    assert(v@.subrange(i as int, v@.len() as int) =~= v@.skip(i as int));
    sub_chars(v, i, j)
}


/// The decimal digit character for `d` (`0 <= d < 10`).
pub open spec fn digit_char(d: int) -> char {
    ((48 + d) as u8) as char
}

/// Decimal representation of `n`, without sign or leading zeros.
pub open spec fn decimal(n: nat) -> Seq<char>
    decreases n,
{
    if n < 10 {
        seq![digit_char(n as int)]
    } else {
        decimal(n / 10).push(digit_char((n % 10) as int))
    }
}

/// `s` left-padded with `'0'` to at least `w` characters.
pub open spec fn zero_pad(s: Seq<char>, w: nat) -> Seq<char> {
    if s.len() >= w {
        s
    } else {
        Seq::new((w - s.len()) as nat, |i: int| '0') + s
    }
}

/// Appends the decimal digits of `n` to `out`.
pub fn push_decimal(out: &mut Vec<char>, n: u64)
    ensures
        final(out)@ == old(out)@ + decimal(n as nat),
    decreases n,
{
    if n >= 10 {
        push_decimal(out, n / 10);
    }
    let d = (n % 10) as u8;
    out.push((48u8 + d) as char);
    proof {
        if n < 10 {
            assert(old(out)@ + decimal(n as nat) =~= old(out)@.push(digit_char(n as int)));
        } else {
            assert(old(out)@ + decimal((n / 10) as nat) + seq![digit_char((n % 10) as int)]
                =~= old(out)@ + decimal(n as nat));
        }
    }
}

/// Appends the decimal digits of `n`, zero-padded to `w` characters.
pub fn push_padded(out: &mut Vec<char>, n: u64, w: usize)
    ensures
        final(out)@ == old(out)@ + zero_pad(decimal(n as nat), w as nat),
{
    let mut digits: Vec<char> = Vec::new();
    push_decimal(&mut digits, n);
    assert(digits@ =~= decimal(n as nat));
    let mut k: usize = digits.len();
    let ghost base = out@;
    while k < w
        invariant
            digits@ == decimal(n as nat),
            digits@.len() <= k <= w || (k == digits@.len() && k >= w),
            out@ == base + Seq::new((k - digits@.len()) as nat, |i: int| '0'),
        decreases w - k,
    {
        out.push('0');
        k += 1;
        assert(out@ =~= base + Seq::new((k - digits@.len()) as nat, |i: int| '0'));
    }
    let mut i: usize = 0;
    let ghost mid = out@;
    while i < digits.len()
        invariant
            i <= digits@.len(),
            out@ == mid + digits@.take(i as int),
        decreases digits@.len() - i,
    {
        out.push(digits[i]);
        i += 1;
        assert(out@ =~= mid + digits@.take(i as int));
    }
    assert(digits@.take(digits@.len() as int) =~= digits@);
    if digits.len() >= w {
        assert(Seq::new((k - digits@.len()) as nat, |i: int| '0') =~= Seq::<char>::empty());
        assert(out@ =~= base + zero_pad(decimal(n as nat), w as nat));
    } else {
        assert(out@ =~= base + zero_pad(decimal(n as nat), w as nat));
    }
}

/// Whether `c` is one of `'0'..='9'`.
pub open spec fn is_digit(c: char) -> bool {
    '0' <= c && c <= '9'
}

/// Whether every character of `s` is an ASCII digit.
pub open spec fn all_digits(s: Seq<char>) -> bool {
    forall|i: int| 0 <= i < s.len() ==> #[trigger] is_digit(s[i])
}

/// The number an all-digit string denotes.
pub open spec fn digits_value(s: Seq<char>) -> nat
    decreases s.len(),
{
    if s.len() == 0 {
        0
    } else {
        digits_value(s.drop_last()) * 10 + ((s.last() as u32) - 48) as nat
    }
}

/// `10` to the power `n`.
pub open spec fn pow10(n: nat) -> nat
    decreases n,
{
    if n == 0 {
        1
    } else {
        10 * pow10((n - 1) as nat)
    }
}

/// A number below `10^w` has at most `w` digits.
pub proof fn lemma_decimal_len(n: nat, w: nat)
    requires
        w >= 1,
        n < pow10(w),
    ensures
        decimal(n).len() <= w,
    decreases n,
{
    if n >= 10 {
        assert(w >= 2) by {
            if w == 1 {
                assert(pow10(0) == 1);
            }
        }
        lemma_decimal_len(n / 10, (w - 1) as nat);
    }
}

/// The leading digit of an all-digit string counts `10^(len - 1)` times.
pub proof fn lemma_digits_front(x: Seq<char>)
    requires
        x.len() > 0,
    ensures
        digits_value(x) == ((x[0] as u32) - 48) as nat * pow10((x.len() - 1) as nat)
            + digits_value(x.drop_first()),
    decreases x.len(),
{
    let y = x.drop_last();
    let d0 = ((x[0] as u32) - 48) as nat;
    if y.len() == 0 {
        assert(x.drop_first() =~= Seq::<char>::empty());
        assert(digits_value(y) == 0);
        assert(digits_value(x.drop_first()) == 0);
        assert(pow10(0) == 1);
        assert(d0 * pow10(0) == d0) by (nonlinear_arith)
            requires
                pow10(0) == 1,
        ;
        assert(x.last() == x[0]);
    } else {
        lemma_digits_front(y);
        assert(x.drop_first().drop_last() =~= y.drop_first());
        assert(x.drop_first().last() == x.last());
        assert(y[0] == x[0]);
        let dl = ((x.last() as u32) - 48) as nat;
        assert(digits_value(x) == digits_value(y) * 10 + dl);
        assert(digits_value(x.drop_first()) == digits_value(y.drop_first()) * 10 + dl);
        let p = pow10((y.len() - 1) as nat);
        assert(pow10((x.len() - 1) as nat) == 10 * p);
        assert(d0 * (10 * p) == (d0 * p) * 10) by (nonlinear_arith);
        assert((d0 * p + digits_value(y.drop_first())) * 10 == (d0 * p) * 10
            + digits_value(y.drop_first()) * 10) by (nonlinear_arith);
    }
}

/// An all-digit string of length `n` denotes less than `10^n`.
pub proof fn lemma_digits_bound(x: Seq<char>)
    requires
        all_digits(x),
    ensures
        digits_value(x) < pow10(x.len()),
    decreases x.len(),
{
    if x.len() > 0 {
        let y = x.drop_last();
        assert(all_digits(y)) by {
            assert forall|i: int| 0 <= i < y.len() implies #[trigger] is_digit(y[i]) by {
                assert(y[i] == x[i]);
            }
        }
        lemma_digits_bound(y);
        assert(is_digit(x[x.len() - 1]));
    }
}

/// Of two all-digit strings of one length, the smaller number sorts first.
pub proof fn lemma_digits_order(x: Seq<char>, y: Seq<char>)
    requires
        x.len() == y.len(),
        all_digits(x),
        all_digits(y),
        digits_value(x) < digits_value(y),
    ensures
        crate::order::lex_lt(x, y),
    decreases x.len(),
{
    if x.len() == 0 {
        assert(digits_value(x) == 0 && digits_value(y) == 0);
    } else {
        lemma_digits_front(x);
        lemma_digits_front(y);
        let xs = x.drop_first();
        let ys = y.drop_first();
        assert(all_digits(xs)) by {
            assert forall|i: int| 0 <= i < xs.len() implies #[trigger] is_digit(xs[i]) by {
                assert(xs[i] == x[i + 1]);
            }
        }
        assert(all_digits(ys)) by {
            assert forall|i: int| 0 <= i < ys.len() implies #[trigger] is_digit(ys[i]) by {
                assert(ys[i] == y[i + 1]);
            }
        }
        lemma_digits_bound(xs);
        lemma_digits_bound(ys);
        let p = pow10(xs.len());
        let dx = ((x[0] as u32) - 48) as nat;
        let dy = ((y[0] as u32) - 48) as nat;
        assert(is_digit(x[0]) && is_digit(y[0]));
        if x[0] == y[0] {
            lemma_digits_order(xs, ys);
            assert(x =~= seq![x[0]] + xs);
            assert(y =~= seq![y[0]] + ys);
            if x == y {
                assert(xs == ys);
            }
        } else if x[0] > y[0] {
            assert(dx >= dy + 1);
            assert(dx * p >= (dy + 1) * p) by (nonlinear_arith)
                requires
                    dx >= dy + 1,
            ;
            assert((dy + 1) * p == dy * p + p) by (nonlinear_arith);
            assert(false);
        }
    }
}

/// `s` padded with leading zeros keeps its digits and its value.
pub proof fn lemma_zero_pad_digits(s: Seq<char>, w: nat)
    requires
        all_digits(s),
    ensures
        all_digits(zero_pad(s, w)),
        digits_value(zero_pad(s, w)) == digits_value(s),
        zero_pad(s, w).len() == if s.len() >= w {
            s.len()
        } else {
            w
        },
    decreases w,
{
    if s.len() < w {
        let z = zero_pad(s, w);
        let t = zero_pad(s, (w - 1) as nat);
        lemma_zero_pad_digits(s, (w - 1) as nat);
        assert(z.drop_first() =~= t);
        assert(z[0] == '0');
        lemma_digits_front(z);
        assert(((z[0] as u32) - 48) as nat == 0);
        assert(0 * pow10((z.len() - 1) as nat) == 0);
        assert forall|i: int| 0 <= i < z.len() implies #[trigger] is_digit(z[i]) by {
            if i > 0 {
                assert(z[i] == t[i - 1]);
            }
        }
    }
}

/// What `u64::from_str` and friends accept: an optional `+`, then at least one
/// digit, with a value no larger than `max`.
pub open spec fn parse_unsigned(s: Seq<char>, max: nat) -> Option<nat> {
    let b = if s.len() > 0 && s[0] == '+' {
        s.drop_first()
    } else {
        s
    };
    if b.len() > 0 && all_digits(b) && digits_value(b) <= max {
        Some(digits_value(b))
    } else {
        None
    }
}

/// What `i32::from_str` accepts: an optional sign, then at least one digit,
/// with the value in range.
pub open spec fn parse_i32(s: Seq<char>) -> Option<int> {
    if s.len() > 0 && s[0] == '-' {
        let b = s.drop_first();
        if b.len() > 0 && all_digits(b) && digits_value(b) <= 0x8000_0000 {
            Some(-(digits_value(b) as int))
        } else {
            None
        }
    } else {
        match parse_unsigned(s, 0x7fff_ffff) {
            Some(v) => Some(v as int),
            None => None,
        }
    }
}

proof fn lemma_digits_value_take(s: Seq<char>, i: int)
    requires
        0 <= i < s.len(),
    ensures
        digits_value(s.take(i + 1)) == digits_value(s.take(i)) * 10 + ((s[i] as u32) - 48) as nat,
{
    assert(s.take(i + 1).drop_last() =~= s.take(i));
}

proof fn lemma_digits_value_mono(s: Seq<char>, i: int, j: int)
    requires
        0 <= i <= j <= s.len(),
        all_digits(s),
    ensures
        digits_value(s.take(i)) <= digits_value(s.take(j)),
    decreases j - i,
{
    if i < j {
        lemma_digits_value_mono(s, i, j - 1);
        lemma_digits_value_take(s, j - 1);
        assert(is_digit(s[j - 1]));
    }
}

/// Whether every character of `v[a..b]` is an ASCII digit.
pub fn all_digits_in(v: &Vec<char>, a: usize, b: usize) -> (r: bool)
    requires
        a <= b <= v@.len(),
    ensures
        r == all_digits(v@.subrange(a as int, b as int)),
{
    let mut i: usize = a;
    while i < b
        invariant
            a <= i <= b <= v@.len(),
            forall|k: int| a <= k < i ==> is_digit(v@[k]),
        decreases b - i,
    {
        if !('0' <= v[i] && v[i] <= '9') {
            assert(!is_digit(v@.subrange(a as int, b as int)[i - a]));
            return false;
        }
        i += 1;
    }
    assert forall|k: int| 0 <= k < (b - a) implies #[trigger] is_digit(
        v@.subrange(a as int, b as int)[k],
    ) by {
        assert(v@.subrange(a as int, b as int)[k] == v@[a + k]);
    }
    true
}

/// The value of the all-digit run `v[a..b]`, or `None` when it exceeds `max`.
pub fn digits_value_upto(v: &Vec<char>, a: usize, b: usize, max: u64) -> (r: Option<u64>)
    requires
        a <= b <= v@.len(),
        all_digits(v@.subrange(a as int, b as int)),
    ensures
        match r {
            Some(x) => x as nat == digits_value(v@.subrange(a as int, b as int)) && x <= max,
            None => digits_value(v@.subrange(a as int, b as int)) > max,
        },
{
    let ghost s = v@.subrange(a as int, b as int);
    let mut acc: u64 = 0;
    let mut i: usize = a;
    assert(s.take(0) =~= Seq::<char>::empty());
    while i < b
        invariant
            a <= i <= b <= v@.len(),
            s == v@.subrange(a as int, b as int),
            all_digits(s),
            acc as nat == digits_value(s.take(i - a)),
            acc <= max,
        decreases b - i,
    {
        assert(s[i - a] == v@[i as int]);
        assert(is_digit(s[i - a]));
        let d = (v[i] as u32 - 48) as u64;
        proof {
            lemma_digits_value_take(s, i - a);
        }
        if d > max || acc > (max - d) / 10 {
            proof {
                if d <= max {
                    assert(acc * 10 + d > max) by (nonlinear_arith)
                        requires
                            acc > (max - d) / 10,
                            d <= max,
                    ;
                }
                assert(acc * 10 + d > max);
                lemma_digits_value_mono(s, i - a + 1, s.len() as int);
                assert(s.take(s.len() as int) =~= s);
            }
            return None;
        }
        assert(acc * 10 + d <= max) by (nonlinear_arith)
            requires
                acc <= (max - d) / 10,
                d <= max,
        ;
        acc = acc * 10 + d;
        i += 1;
    }
    assert(s.take(s.len() as int) =~= s);
    Some(acc)
}


/// `parse_unsigned` over the characters `v[a..b]`.
pub fn parse_unsigned_in(v: &Vec<char>, a: usize, b: usize, max: u64) -> (r: Option<u64>)
    requires
        a <= b <= v@.len(),
    ensures
        match r {
            Some(x) => parse_unsigned(v@.subrange(a as int, b as int), max as nat) == Some(x as nat),
            None => parse_unsigned(v@.subrange(a as int, b as int), max as nat) is None,
        },
{
    let ghost s = v@.subrange(a as int, b as int);
    let mut start: usize = a;
    if a < b && v[a] == '+' {
        start = a + 1;
        assert(s.drop_first() =~= v@.subrange(start as int, b as int));
    } else {
        assert(s =~= v@.subrange(start as int, b as int));
    }
    if start == b || !all_digits_in(v, start, b) {
        return None;
    }
    digits_value_upto(v, start, b, max)
}

/// `parse_i32` over the characters `v[a..b]`.
pub fn parse_i32_in(v: &Vec<char>, a: usize, b: usize) -> (r: Option<i32>)
    requires
        a <= b <= v@.len(),
    ensures
        match r {
            Some(x) => parse_i32(v@.subrange(a as int, b as int)) == Some(x as int),
            None => parse_i32(v@.subrange(a as int, b as int)) is None,
        },
{
    let ghost s = v@.subrange(a as int, b as int);
    if a < b && v[a] == '-' {
        assert(s.drop_first() =~= v@.subrange(a + 1, b as int));
        if a + 1 == b || !all_digits_in(v, a + 1, b) {
            return None;
        }
        match digits_value_upto(v, a + 1, b, 0x8000_0000) {
            Some(x) => {
                if x == 0x8000_0000 {
                    Some(-2147483648i32)
                } else {
                    Some(-(x as i32))
                }
            },
            None => None,
        }
    } else {
        match parse_unsigned_in(v, a, b, 0x7fff_ffff) {
            Some(x) => Some(x as i32),
            None => None,
        }
    }
}

proof fn lemma_newline_at(s: Seq<char>, i: int, j: int)
    requires
        0 <= i <= j < s.len(),
        s[j] == '\n',
        forall|k: int| i <= k < j ==> s[k] != '\n',
    ensures
        newline_index(s, i) == j,
    decreases j - i,
{
    if i < j {
        lemma_newline_at(s, i + 1, j);
    }
}

proof fn lemma_newline_shift(p: Seq<char>, b: Seq<char>, i: int)
    requires
        0 <= i,
    ensures
        newline_index(p + b, p.len() + i) == p.len() + newline_index(b, i),
    decreases b.len() - i,
{
    if i < b.len() && b[i] != '\n' {
        lemma_newline_shift(p, b, i + 1);
    }
}

proof fn lemma_lines_shift(p: Seq<char>, b: Seq<char>, i: int)
    requires
        0 <= i,
    ensures
        lines_from(p + b, p.len() + i) == lines_from(b, i),
    decreases b.len() - i,
{
    let s = p + b;
    if i < b.len() {
        lemma_newline_shift(p, b, i);
        lemma_newline_index_bounds(b, i);
        let kb = newline_index(b, i);
        if kb >= b.len() {
            assert(s.subrange(p.len() + i, s.len() as int) =~= b.subrange(i, b.len() as int));
        } else {
            assert(s.subrange(p.len() + i, p.len() + kb) =~= b.subrange(i, kb));
            lemma_lines_shift(p, b, kb + 1);
        }
    }
}

/// A line without a newline (and not ending in a carriage return), then a
/// newline, then more text: the line comes first among the lines.
pub proof fn lemma_lines_cons(a: Seq<char>, b: Seq<char>)
    requires
        forall|k: int| 0 <= k < a.len() ==> a[k] != '\n',
        a.len() == 0 || a.last() != '\r',
    ensures
        lines(a + seq!['\n'] + b) == seq![a] + lines(b),
{
    let p = a + seq!['\n'];
    let s = p + b;
    lemma_newline_at(s, 0, a.len() as int);
    assert(s.subrange(0, a.len() as int) =~= a);
    lemma_lines_shift(p, b, 0);
}

/// Index of the first `'\n'` at or after `i`, or the length.
pub open spec fn newline_index(s: Seq<char>, i: int) -> int
    decreases s.len() - i,
{
    if i >= s.len() {
        s.len() as int
    } else if s[i] == '\n' {
        i
    } else {
        newline_index(s, i + 1)
    }
}

/// `l` without one trailing carriage return.
pub open spec fn strip_cr(l: Seq<char>) -> Seq<char> {
    if l.len() > 0 && l.last() == '\r' {
        l.drop_last()
    } else {
        l
    }
}

/// The lines of `s[i..]` as `str::lines` yields them: split at `'\n'`, a
/// `"\r\n"` ending counts as one, and a final empty line is not produced.
pub open spec fn lines_from(s: Seq<char>, i: int) -> Seq<Seq<char>>
    decreases s.len() - i,
{
    if i < 0 || i >= s.len() {
        seq![]
    } else {
        let k = newline_index(s, i);
        proof {
            lemma_newline_index_bounds(s, i);
        }
        if k >= s.len() {
            seq![s.subrange(i, s.len() as int)]
        } else {
            seq![strip_cr(s.subrange(i, k))] + lines_from(s, k + 1)
        }
    }
}

/// The lines of `s`.
pub open spec fn lines(s: Seq<char>) -> Seq<Seq<char>> {
    lines_from(s, 0)
}

pub proof fn lemma_newline_index_bounds(s: Seq<char>, i: int)
    requires
        0 <= i,
    ensures
        i <= newline_index(s, i) || (i > s.len() && newline_index(s, i) == s.len()),
        newline_index(s, i) <= s.len() || i > s.len(),
        newline_index(s, i) < s.len() ==> s[newline_index(s, i)] == '\n',
        forall|k: int| i <= k < newline_index(s, i) ==> s[k] != '\n',
    decreases s.len() - i,
{
    if i < s.len() && s[i] != '\n' {
        lemma_newline_index_bounds(s, i + 1);
    }
}

/// Index of the first `'\n'` at or after `i`, or the length.
pub fn newline_from(v: &Vec<char>, i: usize) -> (k: usize)
    requires
        i <= v@.len(),
    ensures
        k as int == newline_index(v@, i as int),
        i <= k <= v@.len(),
{
    let mut k: usize = i;
    while k < v.len() && v[k] != '\n'
        invariant
            i <= k <= v@.len(),
            newline_index(v@, k as int) == newline_index(v@, i as int),
        decreases v@.len() - k,
    {
        k += 1;
    }
    k
}

/// The lines of `v`, as `str::lines` yields them.
pub fn split_lines(v: &Vec<char>) -> (r: Vec<Vec<char>>)
    ensures
        r.deep_view() == lines(v@),
{
    let mut r: Vec<Vec<char>> = Vec::new();
    let mut i: usize = 0;
    while i < v.len()
        invariant
            i <= v@.len(),
            r.deep_view() + lines_from(v@, i as int) == lines(v@),
        decreases v@.len() - i,
    {
        let k = newline_from(v, i);
        if k == v.len() {
            let line = sub_chars(v, i, k);
            let ghost before = r.deep_view();
            r.push(line);
            assert(line.deep_view() =~= line@);
            assert(r.deep_view() =~= before.push(line@));
            assert(lines_from(v@, k as int) =~= Seq::<Seq<char>>::empty());
            assert(r.deep_view() + lines_from(v@, k as int) =~= before + lines_from(v@, i as int));
            i = k;
        } else {
            let mut end = k;
            if end > i && v[end - 1] == '\r' {
                end = end - 1;
            }
            let line = sub_chars(v, i, end);
            assert(line@ == strip_cr(v@.subrange(i as int, k as int)));
            let ghost before = r.deep_view();
            r.push(line);
            assert(line.deep_view() =~= line@);
            assert(r.deep_view() =~= before.push(line@));
            assert(r.deep_view() + lines_from(v@, k + 1) =~= before + lines_from(v@, i as int));
            i = k + 1;
        }
    }
    assert(lines_from(v@, i as int) =~= Seq::<Seq<char>>::empty());
    assert(r.deep_view() + lines_from(v@, i as int) =~= r.deep_view());
    r
}

/// Whether `p` occurs in `t` starting at `i`.
pub open spec fn matches_at(t: Seq<char>, p: Seq<char>, i: int) -> bool {
    0 <= i && i + p.len() <= t.len() && t.subrange(i, i + p.len()) == p
}

/// The first position at or after `i` where `p` occurs in `t`.
pub open spec fn find_from(t: Seq<char>, p: Seq<char>, i: int) -> Option<int>
    decreases t.len() - i,
{
    if i < 0 || i + p.len() > t.len() {
        None
    } else if matches_at(t, p, i) {
        Some(i)
    } else if i >= t.len() {
        None
    } else {
        find_from(t, p, i + 1)
    }
}

/// Where `find_from` finds `p`, `p` fits at or after the start.
pub proof fn lemma_find_from_bound(t: Seq<char>, p: Seq<char>, i: int)
    ensures
        find_from(t, p, i) matches Some(k) ==> i <= k && k + p.len() <= t.len(),
    decreases t.len() - i,
{
    if !(i < 0 || i + p.len() > t.len()) && !matches_at(t, p, i) && i < t.len() {
        lemma_find_from_bound(t, p, i + 1);
    }
}

/// `find_from` finds the first match at or after where it starts.
pub proof fn lemma_find_from_first(t: Seq<char>, p: Seq<char>, i: int, k: int)
    requires
        0 <= i <= k,
        matches_at(t, p, k),
        forall|j: int| i <= j < k ==> !matches_at(t, p, j),
    ensures
        find_from(t, p, i) == Some(k),
    decreases k - i,
{
    if i < k {
        lemma_find_from_first(t, p, i + 1, k);
    }
}

/// Whether `v[i..]` starts with `p`.
pub fn matches_at_exec(v: &Vec<char>, p: &Vec<char>, i: usize) -> (r: bool)
    requires
        i <= v@.len(),
    ensures
        r == matches_at(v@, p@, i as int),
{
    if p.len() > v.len() - i {
        return false;
    }
    let mut k: usize = 0;
    let vlen = v.len();
    while k < p.len()
        invariant
            vlen == v@.len(),
            i + p@.len() <= v@.len(),
            k <= p@.len(),
            forall|j: int| 0 <= j < k ==> v@[i + j] == p@[j],
        decreases p@.len() - k,
    {
        assert(i + k < v@.len());
        if v[i + k] != p[k] {
            assert(v@.subrange(i as int, i + p@.len())[k as int] != p@[k as int]);
            return false;
        }
        k += 1;
    }
    assert(v@.subrange(i as int, i + p@.len()) =~= p@);
    true
}

/// The first occurrence of `p` in `v`.
pub fn find_chars(v: &Vec<char>, p: &Vec<char>) -> (r: Option<usize>)
    ensures
        match r {
            Some(i) => find_from(v@, p@, 0) == Some(i as int),
            None => find_from(v@, p@, 0) is None,
        },
{
    if p.len() > v.len() {
        return None;
    }
    if p.len() == 0 {
        assert(v@.subrange(0, 0) =~= p@);
        return Some(0);
    }
    let mut i: usize = 0;
    while i <= v.len() - p.len()
        invariant
            0 < p@.len() <= v@.len(),
            i <= v@.len() - p@.len() + 1,
            find_from(v@, p@, i as int) == find_from(v@, p@, 0),
        decreases v@.len() - p@.len() + 1 - i,
    {
        if matches_at_exec(v, p, i) {
            return Some(i);
        }
        i += 1;
    }
    None
}

/// Number of bytes `c` takes in UTF-8.
pub open spec fn utf8_width(c: char) -> nat {
    let u = c as u32;
    if u <= 0x7f {
        1
    } else if u <= 0x7ff {
        2
    } else if u <= 0xffff {
        3
    } else {
        4
    }
}

proof fn lemma_encode_width(c: char)
    ensures
        encode_scalar(c as u32).len() == utf8_width(c),
{
}

proof fn lemma_encode_utf8_push(s: Seq<char>, c: char)
    ensures
        encode_utf8(s.push(c)).len() == encode_utf8(s).len() + utf8_width(c),
    decreases s.len(),
{
    if s.len() == 0 {
        assert(s.push(c).drop_first() =~= Seq::<char>::empty());
        assert(encode_utf8(Seq::<char>::empty()).len() == 0);
        assert(encode_utf8(s).len() == 0);
        lemma_encode_width(c);
        assert(encode_utf8(s.push(c)) == encode_scalar(c as u32) + encode_utf8(Seq::<char>::empty()));
    } else {
        assert(s.push(c).drop_first() =~= s.drop_first().push(c));
        lemma_encode_utf8_push(s.drop_first(), c);
        lemma_encode_width(s[0]);
        assert(encode_utf8(s.push(c)) == encode_scalar(s[0] as u32) + encode_utf8(
            s.drop_first().push(c),
        ));
        assert(encode_utf8(s) == encode_scalar(s[0] as u32) + encode_utf8(s.drop_first()));
    }
}

proof fn lemma_encode_utf8_concat(a: Seq<char>, b: Seq<char>)
    ensures
        encode_utf8(a + b).len() == encode_utf8(a).len() + encode_utf8(b).len(),
    decreases a.len(),
{
    if a.len() > 0 {
        assert((a + b).drop_first() =~= a.drop_first() + b);
        lemma_encode_utf8_concat(a.drop_first(), b);
    } else {
        assert(a + b =~= b);
    }
}

/// The UTF-8 length in bytes of `v[..i]`: the byte offset `str` methods use.
pub fn byte_offset(v: &Vec<char>, i: usize) -> (r: usize)
    requires
        i <= v@.len(),
        encode_utf8(v@).len() <= usize::MAX,
    ensures
        r as nat == encode_utf8(v@.take(i as int)).len(),
{
    let mut k: usize = 0;
    let mut n: usize = 0;
    assert(v@.take(0) =~= Seq::<char>::empty());
    while k < i
        invariant
            k <= i <= v@.len(),
            n as nat == encode_utf8(v@.take(k as int)).len(),
            encode_utf8(v@).len() <= usize::MAX,
        decreases i - k,
    {
        let u = v[k] as u32;
        let w: usize = if u <= 0x7f {
            1
        } else if u <= 0x7ff {
            2
        } else if u <= 0xffff {
            3
        } else {
            4
        };
        proof {
            lemma_encode_utf8_push(v@.take(k as int), v@[k as int]);
            assert(v@.take(k as int).push(v@[k as int]) =~= v@.take(k + 1));
            lemma_encode_utf8_concat(v@.take(k + 1), v@.skip(k + 1));
            assert(v@.take(k + 1) + v@.skip(k + 1) =~= v@);
        }
        n = n + w;
        k += 1;
    }
    n
}

/// Where `last_ws` points lies inside `s` and holds whitespace.
pub proof fn lemma_last_ws_bound(s: Seq<char>)
    ensures
        last_ws(s) matches Some(i) ==> 0 <= i < s.len() && is_ws(s[i]),
    decreases s.len(),
{
    if s.len() > 0 && !is_ws(s.last()) {
        lemma_last_ws_bound(s.drop_last());
    }
}

/// Index of the last whitespace character of `s`.
pub open spec fn last_ws(s: Seq<char>) -> Option<int>
    decreases s.len(),
{
    if s.len() == 0 {
        None
    } else if is_ws(s.last()) {
        Some(s.len() - 1)
    } else {
        last_ws(s.drop_last())
    }
}


/// `a` followed by `b`.
pub fn concat_chars(a: &Vec<char>, b: &Vec<char>) -> (r: Vec<char>)
    ensures
        r@ == a@ + b@,
{
    let mut r = sub_chars(a, 0, a.len());
    let mut i: usize = 0;
    assert(a@.subrange(0, a@.len() as int) =~= a@);
    while i < b.len()
        invariant
            i <= b@.len(),
            r@ == a@ + b@.take(i as int),
        decreases b@.len() - i,
    {
        r.push(b[i]);
        i += 1;
        assert(r@ =~= a@ + b@.take(i as int));
    }
    assert(b@.take(i as int) =~= b@);
    r
}


/// Whether `s` begins with `p`.
pub open spec fn starts_with(s: Seq<char>, p: Seq<char>) -> bool {
    s.len() >= p.len() && s.take(p.len() as int) == p
}

/// Whether `s` ends with `p`.
pub open spec fn ends_with(s: Seq<char>, p: Seq<char>) -> bool {
    s.len() >= p.len() && s.skip(s.len() - p.len()) == p
}

/// Whether `v` begins with `p`.
pub fn starts_with_exec(v: &Vec<char>, p: &Vec<char>) -> (r: bool)
    ensures
        r == starts_with(v@, p@),
{
    let r = matches_at_exec(v, p, 0);
    assert(v@.subrange(0, p@.len() as int) =~= v@.take(p@.len() as int));
    r
}

/// Whether `v` ends with `p`.
pub fn ends_with_exec(v: &Vec<char>, p: &Vec<char>) -> (r: bool)
    ensures
        r == ends_with(v@, p@),
{
    if p.len() > v.len() {
        return false;
    }
    let r = matches_at_exec(v, p, v.len() - p.len());
    assert(v@.subrange(v@.len() - p@.len(), v@.len() as int) =~= v@.skip(v@.len() - p@.len()));
    r
}

/// The characters of each string, in order.
pub fn chars_of_all(v: &Vec<String>) -> (r: Vec<Vec<char>>)
    ensures
        r.deep_view() == v.deep_view(),
{
    let mut r: Vec<Vec<char>> = Vec::new();
    let mut i: usize = 0;
    while i < v.len()
        invariant
            i <= v@.len(),
            r.deep_view() == v.deep_view().take(i as int),
        decreases v@.len() - i,
    {
        let c = chars_of(v[i].as_str());
        let ghost before = r.deep_view();
        r.push(c);
        assert(c.deep_view() =~= c@);
        assert(r.deep_view() =~= before.push(c@));
        assert(v.deep_view()[i as int] == v@[i as int]@);
        assert(v.deep_view().take(i + 1) =~= v.deep_view().take(i as int).push(v@[i as int]@));
        i += 1;
    }
    assert(v.deep_view().take(i as int) =~= v.deep_view());
    r
}

/// The strings made of each character sequence, in order.
pub fn strings_of_all(v: &Vec<Vec<char>>) -> (r: Vec<String>)
    ensures
        r.deep_view() == v.deep_view(),
{
    let mut r: Vec<String> = Vec::new();
    let mut i: usize = 0;
    while i < v.len()
        invariant
            i <= v@.len(),
            r.deep_view() == v.deep_view().take(i as int),
        decreases v@.len() - i,
    {
        let c = string_of(v[i].as_slice());
        let ghost before = r.deep_view();
        r.push(c);
        assert(r.deep_view() =~= before.push(c@));
        assert(v.deep_view()[i as int] == v@[i as int]@);
        assert(v.deep_view().take(i + 1) =~= v.deep_view().take(i as int).push(v@[i as int]@));
        i += 1;
    }
    assert(v.deep_view().take(i as int) =~= v.deep_view());
    r
}


/// `s` with every trailing `c` removed.
pub open spec fn trim_end_char(s: Seq<char>, c: char) -> Seq<char>
    decreases s.len(),
{
    if s.len() > 0 && s.last() == c {
        trim_end_char(s.drop_last(), c)
    } else {
        s
    }
}

/// Index of the first `c` at or after `i`, or the length.
pub open spec fn char_index(s: Seq<char>, c: char, i: int) -> int
    decreases s.len() - i,
{
    if i >= s.len() {
        s.len() as int
    } else if s[i] == c {
        i
    } else {
        char_index(s, c, i + 1)
    }
}

pub proof fn lemma_char_index_bounds(s: Seq<char>, c: char, i: int)
    requires
        0 <= i <= s.len(),
    ensures
        i <= char_index(s, c, i) <= s.len(),
        char_index(s, c, i) < s.len() ==> s[char_index(s, c, i)] == c,
    decreases s.len() - i,
{
    if i < s.len() && s[i] != c {
        lemma_char_index_bounds(s, c, i + 1);
    }
}

/// The pieces of `s[i..]` between occurrences of `c`, as `str::split` yields
/// them (empty pieces included).
pub open spec fn split_from(s: Seq<char>, c: char, i: int) -> Seq<Seq<char>>
    decreases s.len() - i,
{
    if i < 0 || i > s.len() {
        seq![]
    } else {
        let k = char_index(s, c, i);
        proof {
            lemma_char_index_bounds(s, c, i);
        }
        if k >= s.len() {
            seq![s.subrange(i, s.len() as int)]
        } else {
            seq![s.subrange(i, k)] + split_from(s, c, k + 1)
        }
    }
}

/// The pieces of `s` between occurrences of `c`.
pub open spec fn split_char(s: Seq<char>, c: char) -> Seq<Seq<char>> {
    split_from(s, c, 0)
}

/// The pieces of `v` between occurrences of `c`.
pub fn split_chars(v: &Vec<char>, c: char) -> (r: Vec<Vec<char>>)
    ensures
        r.deep_view() == split_char(v@, c),
{
    let mut r: Vec<Vec<char>> = Vec::new();
    let mut i: usize = 0;
    let mut done = false;
    assert(r.deep_view() + split_from(v@, c, 0) =~= split_char(v@, c));
    while !done
        invariant
            i <= v@.len(),
            !done ==> r.deep_view() + split_from(v@, c, i as int) == split_char(v@, c),
            done ==> r.deep_view() == split_char(v@, c),
        decreases v@.len() - i + (if done { 0int } else { 1int }),
    {
        let mut k: usize = i;
        while k < v.len() && v[k] != c
            invariant
                i <= k <= v@.len(),
                char_index(v@, c, k as int) == char_index(v@, c, i as int),
            decreases v@.len() - k,
        {
            k += 1;
        }
        proof {
            lemma_char_index_bounds(v@, c, i as int);
        }
        let piece = sub_chars(v, i, k);
        let ghost before = r.deep_view();
        r.push(piece);
        assert(piece.deep_view() =~= piece@);
        assert(r.deep_view() =~= before.push(piece@));
        if k == v.len() {
            assert(r.deep_view() =~= before + split_from(v@, c, i as int));
            done = true;
        } else {
            assert(r.deep_view() + split_from(v@, c, k + 1) =~= before + split_from(
                v@,
                c,
                i as int,
            ));
            i = k + 1;
        }
    }
    r
}

/// Position of the first non-whitespace character at or after `i`.
pub open spec fn skip_ws(s: Seq<char>, i: int) -> int
    decreases s.len() - i,
{
    if i >= s.len() {
        s.len() as int
    } else if is_ws(s[i]) {
        skip_ws(s, i + 1)
    } else {
        i
    }
}

/// Position of the first whitespace character at or after `i`.
pub open spec fn word_end(s: Seq<char>, i: int) -> int
    decreases s.len() - i,
{
    if i >= s.len() {
        s.len() as int
    } else if is_ws(s[i]) {
        i
    } else {
        word_end(s, i + 1)
    }
}

pub proof fn lemma_skip_ws_bounds(s: Seq<char>, i: int)
    requires
        0 <= i <= s.len(),
    ensures
        i <= skip_ws(s, i) <= s.len(),
        skip_ws(s, i) < s.len() ==> !is_ws(s[skip_ws(s, i)]),
    decreases s.len() - i,
{
    if i < s.len() && is_ws(s[i]) {
        lemma_skip_ws_bounds(s, i + 1);
    }
}

pub proof fn lemma_word_end_bounds(s: Seq<char>, i: int)
    requires
        0 <= i <= s.len(),
    ensures
        i <= word_end(s, i) <= s.len(),
    decreases s.len() - i,
{
    if i < s.len() && !is_ws(s[i]) {
        lemma_word_end_bounds(s, i + 1);
    }
}

/// The whitespace-separated words of `s[i..]`, as `str::split_whitespace`
/// yields them.
pub open spec fn words_from(s: Seq<char>, i: int) -> Seq<Seq<char>>
    decreases s.len() - i,
{
    if i < 0 || i >= s.len() {
        seq![]
    } else {
        let a = skip_ws(s, i);
        proof {
            lemma_skip_ws_bounds(s, i);
        }
        if a >= s.len() {
            seq![]
        } else {
            let b = word_end(s, a);
            proof {
                lemma_word_end_bounds(s, a);
            }
            if b <= i {
                seq![]
            } else {
                seq![s.subrange(a, b)] + words_from(s, b)
            }
        }
    }
}

/// The whitespace-separated words of `s`.
pub open spec fn words(s: Seq<char>) -> Seq<Seq<char>> {
    words_from(s, 0)
}

/// The whitespace-separated words of `v`.
pub fn split_words(v: &Vec<char>) -> (r: Vec<Vec<char>>)
    ensures
        r.deep_view() == words(v@),
{
    let mut r: Vec<Vec<char>> = Vec::new();
    let mut i: usize = 0;
    assert(r.deep_view() + words_from(v@, 0) =~= words(v@));
    while i < v.len()
        invariant
            i <= v@.len(),
            r.deep_view() + words_from(v@, i as int) == words(v@),
        decreases v@.len() - i,
    {
        let mut a: usize = i;
        while a < v.len() && is_whitespace(v[a])
            invariant
                i <= a <= v@.len(),
                skip_ws(v@, a as int) == skip_ws(v@, i as int),
            decreases v@.len() - a,
        {
            a += 1;
        }
        proof {
            lemma_skip_ws_bounds(v@, i as int);
        }
        if a == v.len() {
            assert(words_from(v@, i as int) =~= Seq::<Seq<char>>::empty());
            assert(r.deep_view() + words_from(v@, a as int) =~= words(v@));
            i = a;
        } else {
            let mut b: usize = a;
            while b < v.len() && !is_whitespace(v[b])
                invariant
                    a <= b <= v@.len(),
                    word_end(v@, b as int) == word_end(v@, a as int),
                decreases v@.len() - b,
            {
                b += 1;
            }
            proof {
                lemma_word_end_bounds(v@, a as int);
            }
            let w = sub_chars(v, a, b);
            let ghost before = r.deep_view();
            r.push(w);
            assert(w.deep_view() =~= w@);
            assert(r.deep_view() =~= before.push(w@));
            assert(r.deep_view() + words_from(v@, b as int) =~= before + words_from(v@, i as int));
            i = b;
        }
    }
    assert(words_from(v@, i as int) =~= Seq::<Seq<char>>::empty());
    assert(r.deep_view() + words_from(v@, i as int) =~= r.deep_view());
    r
}

/// `v` with every trailing `c` removed.
pub fn trim_end_char_exec(v: &Vec<char>, c: char) -> (r: Vec<char>)
    ensures
        r@ == trim_end_char(v@, c),
{
    let mut j: usize = v.len();
    assert(v@.take(j as int) =~= v@);
    while j > 0 && v[j - 1] == c
        invariant
            j <= v@.len(),
            trim_end_char(v@.take(j as int), c) == trim_end_char(v@, c),
        decreases j,
    {
        assert(v@.take(j as int).drop_last() =~= v@.take(j - 1));
        j -= 1;
    }
    let r = sub_chars(v, 0, j);
    assert(r@ =~= v@.take(j as int));
    r
}

/// `s` with every leading `c` removed.
pub open spec fn trim_start_char(s: Seq<char>, c: char) -> Seq<char>
    decreases s.len(),
{
    if s.len() > 0 && s[0] == c {
        trim_start_char(s.drop_first(), c)
    } else {
        s
    }
}

/// `v` without its leading `c`s.
pub fn trim_start_char_exec(v: &Vec<char>, c: char) -> (r: Vec<char>)
    ensures
        r@ == trim_start_char(v@, c),
{
    let mut i: usize = 0;
    assert(v@.skip(0) =~= v@);
    while i < v.len() && v[i] == c
        invariant
            i <= v@.len(),
            trim_start_char(v@.skip(i as int), c) == trim_start_char(v@, c),
        decreases v@.len() - i,
    {
        assert(v@.skip(i as int).drop_first() =~= v@.skip(i + 1));
        i += 1;
    }
    let r = sub_chars(v, i, v.len());
    assert(r@ =~= v@.skip(i as int));
    r
}

} // verus!

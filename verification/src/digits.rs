//! Decimal rendering of integers: plain, with thousands separators, and
//! right-aligned in a field; and parsing of decimal integers.
use vstd::prelude::*;
use vstd::string::StringExecFns;

verus! {

/// The ASCII digit for `d < 10`.
pub open spec fn digit_char(d: nat) -> char {
    (48 + d) as char
}

/// The decimal representation of `n`, without leading zeros ("0" for zero).
pub open spec fn decimal(n: nat) -> Seq<char>
    decreases n,
{
    if n < 10 {
        seq![digit_char(n)]
    } else {
        decimal(n / 10).push(digit_char(n % 10))
    }
}

/// `10^d`.
pub open spec fn pow10(d: nat) -> nat
    decreases d,
{
    if d == 0 {
        1
    } else {
        10 * pow10((d - 1) as nat)
    }
}

/// The last `k` decimal digits of `r`, with leading zeros.
pub open spec fn padded_digits(r: nat, k: nat) -> Seq<char>
    decreases k,
{
    if k == 0 {
        Seq::empty()
    } else {
        padded_digits(r / 10, (k - 1) as nat).push(digit_char(r % 10))
    }
}

/// Writing `y * 10^k + r` (with `y >= 1`, `r < 10^k`) gives the digits of
/// `y` followed by the `k` digits of `r`.
pub proof fn lemma_decimal_split(y: nat, r: nat, k: nat)
    requires
        y >= 1,
        r < pow10(k),
    ensures
        decimal(y * pow10(k) + r) == decimal(y) + padded_digits(r, k),
    decreases k,
{
    if k == 0 {
        assert(r == 0);
        assert(y * 1 + 0 == y);
        assert(decimal(y) + padded_digits(r, k) =~= decimal(y));
    } else {
        let km = (k - 1) as nat;
        let pm = pow10(km);
        let x = y * pow10(k) + r;
        let r1 = r / 10;
        let r0 = r % 10;
        vstd::arithmetic::div_mod::lemma_fundamental_div_mod(r as int, 10);
        assert(r1 < pm) by (nonlinear_arith)
            requires r == 10 * r1 + r0, r < 10 * pm, r0 >= 0;
        lemma_decimal_split(y, r1, km);
        assert(pow10(k) == 10 * pm);
        assert(x == (y * pm + r1) * 10 + r0) by (nonlinear_arith)
            requires x == y * pow10(k) + r, pow10(k) == 10 * pm, r == 10 * r1 + r0;
        vstd::arithmetic::div_mod::lemma_fundamental_div_mod_converse(
            x as int,
            10,
            (y * pm + r1) as int,
            r0 as int,
        );
        assert(pm >= 1) by {
            lemma_pow10_pos(km);
        }
        assert(y * pm >= 1) by (nonlinear_arith)
            requires y >= 1, pm >= 1;
        assert(x >= 10);
        assert(decimal(x) == decimal(x / 10).push(digit_char(x % 10)));
        assert(decimal(y) + padded_digits(r, k) =~= (decimal(y) + padded_digits(r1, km)).push(
            digit_char(r0),
        ));
    }
}

pub proof fn lemma_pow10_pos(d: nat)
    ensures
        pow10(d) >= 1,
    decreases d,
{
    if d > 0 {
        lemma_pow10_pos((d - 1) as nat);
    }
}

/// Append the last `k` decimal digits of `r`, with leading zeros.
pub fn push_padded(out: &mut String, r: u64, k: u32)
    ensures
        final(out)@ == old(out)@ + padded_digits(r as nat, k as nat),
    decreases k,
{
    if k > 0 {
        push_padded(out, r / 10, k - 1);
        push_char(out, digit(r % 10));
    }
    assert(final(out)@ =~= old(out)@ + padded_digits(r as nat, k as nat));
}

/// Exactly three decimal digits of `n < 1000`, with leading zeros.
pub open spec fn three_digits(n: nat) -> Seq<char> {
    seq![digit_char(n / 100), digit_char((n / 10) % 10), digit_char(n % 10)]
}

/// The decimal representation of `n` with a comma between each group of
/// three digits, counted from the right (e.g. "1,234,567").
pub open spec fn with_commas(n: nat) -> Seq<char>
    decreases n,
{
    if n < 1000 {
        decimal(n)
    } else {
        with_commas(n / 1000).push(',') + three_digits(n % 1000)
    }
}

/// `s` with its commas removed.
pub open spec fn without_commas(s: Seq<char>) -> Seq<char>
    decreases s.len(),
{
    if s.len() == 0 {
        s
    } else if s.last() == ',' {
        without_commas(s.drop_last())
    } else {
        without_commas(s.drop_last()).push(s.last())
    }
}

proof fn lemma_without_commas_concat(a: Seq<char>, b: Seq<char>)
    ensures
        without_commas(a + b) == without_commas(a) + without_commas(b),
    decreases b.len(),
{
    if b.len() == 0 {
        assert(a + b =~= a);
        assert(without_commas(a) + without_commas(b) =~= without_commas(a));
    } else {
        lemma_without_commas_concat(a, b.drop_last());
        assert((a + b).drop_last() =~= a + b.drop_last());
        assert((a + b).last() == b.last());
        if b.last() != ',' {
            assert(without_commas(a) + without_commas(b.drop_last()).push(b.last()) =~= (
            without_commas(a) + without_commas(b.drop_last())).push(b.last()));
        }
    }
}

proof fn lemma_without_commas_digits(s: Seq<char>)
    requires
        forall|i: int| 0 <= i < s.len() ==> #[trigger] s[i] != ',',
    ensures
        without_commas(s) == s,
    decreases s.len(),
{
    if s.len() > 0 {
        lemma_without_commas_digits(s.drop_last());
        assert(s.last() != ',');
        assert(without_commas(s.drop_last()).push(s.last()) =~= s);
    }
}

proof fn lemma_digit_char_not_comma(d: nat)
    requires
        d < 10,
    ensures
        digit_char(d) != ',',
{
    assert(',' as int == 44);
}

proof fn lemma_decimal_no_commas(n: nat)
    ensures
        forall|i: int| 0 <= i < decimal(n).len() ==> #[trigger] decimal(n)[i] != ',',
    decreases n,
{
    if n < 10 {
        lemma_digit_char_not_comma(n);
    } else {
        lemma_decimal_no_commas(n / 10);
        lemma_digit_char_not_comma(n % 10);
        let t = decimal(n / 10);
        assert forall|i: int| 0 <= i < decimal(n).len() implies #[trigger] decimal(n)[i] != ',' by {
            if i < t.len() {
                assert(decimal(n)[i] == t[i]);
            }
        }
    }
}

proof fn lemma_three_digits_padded(r: nat)
    requires
        r < 1000,
    ensures
        three_digits(r) == padded_digits(r, 3),
{
    let a = r / 10;
    let b = a / 10;
    vstd::arithmetic::div_mod::lemma_div_denominator(r as int, 10, 10);
    assert(b == r / 100);
    assert(b < 10);
    assert(b / 10 == 0);
    assert(b % 10 == b);
    assert(padded_digits(b / 10, 0) =~= Seq::<char>::empty());
    assert(padded_digits(b, 1) == padded_digits(b / 10, 0).push(digit_char(b % 10)));
    assert(padded_digits(a, 2) == padded_digits(b, 1).push(digit_char(a % 10)));
    assert(padded_digits(r, 3) == padded_digits(a, 2).push(digit_char(r % 10)));
    assert(padded_digits(r, 3) =~= seq![digit_char(b % 10), digit_char(a % 10), digit_char(r % 10)]);
}

proof fn lemma_decimal_short(n: nat)
    requires
        n < 1000,
    ensures
        1 <= decimal(n).len() <= 3,
{
    if n >= 10 {
        assert(decimal(n).len() == decimal(n / 10).len() + 1);
        if n / 10 >= 10 {
            assert(n / 10 / 10 < 10);
            assert(decimal(n / 10).len() == decimal(n / 10 / 10).len() + 1);
        }
    }
}

/// The comma-grouped text of `n` has a first group of one to three digits
/// and then groups of exactly three: counted from the end, every fourth
/// character is a comma and no other is.
pub proof fn lemma_with_commas_groups(n: nat)
    ensures
        with_commas(n).len() % 4 != 0,
        forall|i: int|
            0 <= i < with_commas(n).len() ==> (#[trigger] with_commas(n)[i] == ',' <==> (
            with_commas(n).len() - i) % 4 == 0),
    decreases n,
{
    if n < 1000 {
        lemma_decimal_no_commas(n);
        lemma_decimal_short(n);
    } else {
        let q = n / 1000;
        let r = n % 1000;
        lemma_with_commas_groups(q);
        let t = with_commas(q);
        let s = with_commas(n);
        assert(s == t.push(',') + three_digits(r));
        lemma_digit_char_not_comma(r / 100);
        lemma_digit_char_not_comma((r / 10) % 10);
        lemma_digit_char_not_comma(r % 10);
        assert(s.len() == t.len() + 4);
        assert forall|i: int| 0 <= i < s.len() implies (#[trigger] s[i] == ',' <==> (s.len() - i)
            % 4 == 0) by {
            if i < t.len() {
                assert(s[i] == t[i]);
                assert((s.len() - i) % 4 == (t.len() - i) % 4);
            } else if i == t.len() {
                assert(s[i] == ',');
            } else {
                assert(s[i] == three_digits(r)[i - t.len() - 1]);
            }
        }
    }
}

/// With its commas removed, the comma-grouped text of `n` is its plain
/// decimal text.
pub proof fn lemma_with_commas_digits(n: nat)
    ensures
        without_commas(with_commas(n)) == decimal(n),
    decreases n,
{
    if n < 1000 {
        lemma_decimal_no_commas(n);
        lemma_without_commas_digits(decimal(n));
    } else {
        let q = n / 1000;
        let r = n % 1000;
        lemma_with_commas_digits(q);
        let head = with_commas(q).push(',');
        lemma_without_commas_concat(head, three_digits(r));
        assert(head.drop_last() =~= with_commas(q));
        assert(without_commas(head) == without_commas(with_commas(q)));
        lemma_three_digits_padded(r);
        assert forall|i: int| 0 <= i < three_digits(r).len() implies #[trigger] three_digits(r)[i]
            != ',' by {
            lemma_digit_char_not_comma(r / 100);
            lemma_digit_char_not_comma((r / 10) % 10);
            lemma_digit_char_not_comma(r % 10);
        }
        lemma_without_commas_digits(three_digits(r));
        assert(pow10(3) == 1000) by {
            assert(pow10(0) == 1);
            assert(pow10(1) == 10);
            assert(pow10(2) == 100);
        }
        lemma_decimal_split(q, r, 3);
        vstd::arithmetic::div_mod::lemma_fundamental_div_mod(n as int, 1000);
        assert(q * 1000 + r == n);
    }
}

/// `s` right-aligned in a field of `width` characters, padded with spaces.
pub open spec fn pad_left(s: Seq<char>, width: nat) -> Seq<char> {
    if s.len() >= width {
        s
    } else {
        Seq::new((width - s.len()) as nat, |i: int| ' ') + s
    }
}

/// Append one character to a `String` with std's `String::push`; the
/// contract claims what its documentation says: the new text is the old
/// one followed by `c`.
#[verifier::external_body]
pub(crate) fn push_char(s: &mut String, c: char)
    ensures
        final(s)@ == old(s)@.push(c),
{
    s.push(c);
}

fn digit(d: u64) -> (c: char)
    requires
        d < 10,
    ensures
        c == digit_char(d as nat),
{
    if d == 0 {
        '0'
    } else if d == 1 {
        '1'
    } else if d == 2 {
        '2'
    } else if d == 3 {
        '3'
    } else if d == 4 {
        '4'
    } else if d == 5 {
        '5'
    } else if d == 6 {
        '6'
    } else if d == 7 {
        '7'
    } else if d == 8 {
        '8'
    } else {
        '9'
    }
}

/// Append the decimal representation of `n` to `out`.
pub fn push_decimal(out: &mut String, n: u64)
    ensures
        final(out)@ == old(out)@ + decimal(n as nat),
    decreases n,
{
    if n >= 10 {
        push_decimal(out, n / 10);
    }
    push_char(out, digit(n % 10));
    proof {
        if n < 10 {
            assert(n % 10 == n);
        }
    }
    assert(final(out)@ =~= old(out)@ + decimal(n as nat));
}

/// Append `n` with thousands separators to `out`.
pub fn push_with_commas(out: &mut String, n: u64)
    ensures
        final(out)@ == old(out)@ + with_commas(n as nat),
    decreases n,
{
    if n < 1000 {
        push_decimal(out, n);
    } else {
        push_with_commas(out, n / 1000);
        push_char(out, ',');
        let m = n % 1000;
        push_char(out, digit(m / 100));
        push_char(out, digit((m / 10) % 10));
        push_char(out, digit(m % 10));
        assert(final(out)@ =~= old(out)@ + with_commas(n as nat));
    }
}

/// Format an integer with thousands separators (e.g. 1_000_000 -> "1,000,000").
pub fn fmt_int(n: u64) -> (s: String)
    ensures
        s@ == with_commas(n as nat),
{
    let mut s = String::new();
    push_with_commas(&mut s, n);
    assert(s@ =~= with_commas(n as nat));
    s
}

proof fn lemma_decimal_len(n: nat)
    ensures
        decimal(n).len() >= 1,
        n >= 10 ==> decimal(n).len() >= 2,
        n >= 100 ==> decimal(n).len() >= 3,
        n < 10 ==> decimal(n).len() == 1,
        10 <= n < 100 ==> decimal(n).len() == 2,
        100 <= n < 1000 ==> decimal(n).len() == 3,
    decreases n,
{
    if n >= 10 {
        lemma_decimal_len(n / 10);
    }
}

/// Append `n` right-aligned in a field of three characters.
pub fn push_padded3(out: &mut String, n: u64)
    ensures
        final(out)@ == old(out)@ + pad_left(decimal(n as nat), 3),
{
    proof {
        lemma_decimal_len(n as nat);
    }
    if n < 10 {
        push_char(out, ' ');
        push_char(out, ' ');
    } else if n < 100 {
        push_char(out, ' ');
    }
    push_decimal(out, n);
    assert(final(out)@ =~= old(out)@ + pad_left(decimal(n as nat), 3));
}

/// The value of a sequence of ASCII decimal digits.
pub open spec fn digits_value(s: Seq<char>) -> nat
    decreases s.len(),
{
    if s.len() == 0 {
        0
    } else {
        digits_value(s.drop_last()) * 10 + (s.last() as nat - 48) as nat
    }
}

pub open spec fn is_digit(c: char) -> bool {
    '0' <= c && c <= '9'
}

/// Every character of `t` is an ASCII digit.
pub open spec fn all_digits(t: Seq<char>) -> bool {
    forall|i: int| 0 <= i < t.len() ==> is_digit(#[trigger] t[i])
}

/// `s` without a leading `+`, if it has one.
pub open spec fn unsigned_body(s: Seq<char>) -> Seq<char> {
    if s.len() > 0 && s[0] == '+' {
        s.drop_first()
    } else {
        s
    }
}

/// `s` is an optional `+` followed by at least one ASCII digit: the text
/// that std's integer parsing accepts for an unsigned integer.
pub open spec fn is_unsigned_text(s: Seq<char>) -> bool {
    unsigned_body(s).len() > 0 && all_digits(unsigned_body(s))
}

/// The value that `is_unsigned_text` text denotes.
pub open spec fn unsigned_text_value(s: Seq<char>) -> nat {
    digits_value(unsigned_body(s))
}

/// Parse a decimal unsigned integer the way `str::parse::<u64>` does: an
/// optional `+` sign and at least one ASCII digit, with a value that fits
/// in a `u64`. `None` for anything else.
pub fn parse_u64(s: &str) -> (r: Option<u64>)
    ensures
        r is Some <==> (is_unsigned_text(s@) && unsigned_text_value(s@) <= u64::MAX),
        r matches Some(v) ==> v == unsigned_text_value(s@),
{
    let len = s.unicode_len();
    let mut start: usize = 0;
    if len > 0 && s.get_char(0) == '+' {
        start = 1;
    }
    let ghost body = unsigned_body(s@);
    assert(body =~= s@.subrange(start as int, len as int));
    if start >= len {
        return None;
    }
    let mut value: u64 = 0;
    let mut i: usize = start;
    while i < len
        invariant
            len == s@.len(),
            start <= i <= len,
            start < len,
            body == unsigned_body(s@),
            body =~= s@.subrange(start as int, len as int),
            forall|k: int| start <= k < i ==> is_digit(#[trigger] s@[k]),
            value == digits_value(s@.subrange(start as int, i as int)),
        decreases len - i,
    {
        let c = s.get_char(i);
        if !('0' <= c && c <= '9') {
            assert(body[i - start] == s@[i as int]);
            assert(!is_digit(body[i - start]));
            assert(!all_digits(body));
            return None;
        }
        let d = (c as u32 - 48) as u64;
        assert(s@.subrange(start as int, i + 1).drop_last() =~= s@.subrange(start as int, i as int));
        if value > (u64::MAX - d) / 10 {
            proof {
                assert(digits_value(s@.subrange(start as int, i + 1)) > u64::MAX);
                if all_digits(body) {
                    lemma_digits_value_prefix_le(body, i + 1 - start);
                    assert(body.subrange(0, i + 1 - start) =~= s@.subrange(start as int, i + 1));
                }
            }
            return None;
        }
        value = value * 10 + d;
        i = i + 1;
    }
    assert(body =~= s@.subrange(start as int, i as int));
    Some(value)
}

/// The value of a digit string is at least that of each of its prefixes.
pub proof fn lemma_digits_value_prefix_le(s: Seq<char>, k: int)
    requires
        0 <= k <= s.len(),
        forall|i: int| 0 <= i < s.len() ==> is_digit(#[trigger] s[i]),
    ensures
        digits_value(s.subrange(0, k)) <= digits_value(s),
    decreases s.len(),
{
    if k < s.len() {
        assert(s.drop_last().subrange(0, k) =~= s.subrange(0, k));
        lemma_digits_value_prefix_le(s.drop_last(), k);
        assert(digits_value(s.drop_last()) <= digits_value(s)) by (nonlinear_arith)
            requires
                digits_value(s) == digits_value(s.drop_last()) * 10 + (s.last() as nat - 48) as nat,
        ;
    } else {
        assert(s.subrange(0, k) =~= s);
    }
}


/// The index of the first `a` or `b` in `s` at or after `i`, or `s.len()`
/// when there is none.
pub open spec fn first_of(s: Seq<char>, a: char, b: char, i: nat) -> nat
    decreases s.len() - i,
{
    if i >= s.len() {
        s.len()
    } else if s[i as int] == a || s[i as int] == b {
        i
    } else {
        first_of(s, a, b, i + 1)
    }
}

/// `n` zeros.
pub open spec fn zeros(n: nat) -> Seq<char> {
    Seq::new(n, |i: int| '0')
}

/// The decimal text `raw` cut at its exponent marker (`e` or `E`) and
/// brought to exactly `digits` places after the point: cut after them,
/// padded with zeros, or, without a point, given one and `digits` zeros.
pub open spec fn fixed_decimals_text(raw: Seq<char>, digits: nat) -> Seq<char> {
    let r = raw.take(first_of(raw, 'e', 'E', 0) as int);
    let dot = first_of(r, '.', '.', 0);
    if dot < r.len() {
        let want = dot + 1 + digits;
        if r.len() >= want {
            r.take(want as int)
        } else {
            r + zeros((want - r.len()) as nat)
        }
    } else {
        r + seq!['.'] + zeros(digits)
    }
}

/// Two ASCII characters are equal exactly when their bytes are.
proof fn lemma_ascii_bytes_eq(c: char, d: char)
    requires
        c <= '\u{7f}',
        d <= '\u{7f}',
    ensures
        (c as u8 == d as u8) <==> c == d,
{
    let x: u32 = c as u32;
    let y: u32 = d as u32;
    assert(c as u8 == x as u8);
    assert(d as u8 == y as u8);
    assert(x < 128 && y < 128 ==> ((x as u8 == y as u8) <==> x == y)) by (bit_vector);
}

/// The index of the first `a` or `b` in the ASCII text `s`, or its length.
fn first_index_of(s: &str, a: char, b: char) -> (k: usize)
    requires
        s.is_ascii(),
        a <= '\u{7f}',
        b <= '\u{7f}',
    ensures
        k == first_of(s@, a, b, 0),
        k <= s@.len(),
{
    let n = s.unicode_len();
    let mut i: usize = 0;
    while i < n
        invariant
            s.is_ascii(),
            a <= '\u{7f}',
            b <= '\u{7f}',
            n == s@.len(),
            i <= n,
            first_of(s@, a, b, i as nat) == first_of(s@, a, b, 0),
        decreases n - i,
    {
        let c = s.get_ascii(i);
        proof {
            lemma_ascii_bytes_eq(s@[i as int], a);
            lemma_ascii_bytes_eq(s@[i as int], b);
        }
        if c == a as u8 || c == b as u8 {
            return i;
        }
        i = i + 1;
    }
    i
}

/// Append `n` zeros to `out`.
fn push_zeros(out: &mut String, n: usize)
    ensures
        final(out)@ == old(out)@ + zeros(n as nat),
{
    let mut k: usize = 0;
    while k < n
        invariant
            k <= n,
            out@ == old(out)@ + zeros(k as nat),
        decreases n - k,
    {
        push_char(out, '0');
        k = k + 1;
        assert(out@ =~= old(out)@ + zeros(k as nat));
    }
}

/// The decimal text `raw` (as an arbitrary-precision float prints it, in
/// ASCII) cut at its exponent marker and brought to exactly `digits` places
/// after the point.
pub fn fixed_decimals(raw: &str, digits: usize) -> (s: String)
    requires
        raw.is_ascii(),
        raw@.len() + digits + 1 <= usize::MAX,
    ensures
        s@ == fixed_decimals_text(raw@, digits as nat),
{
    let cut = first_index_of(raw, 'e', 'E');
    let r = raw.substring_ascii(0, cut);
    let dot = first_index_of(r, '.', '.');
    if dot < cut {
        let want = dot + 1 + digits;
        if cut >= want {
            let kept = raw.substring_ascii(0, want);
            assert(kept@ =~= r@.take(want as int));
            kept.to_owned()
        } else {
            let mut out = r.to_owned();
            push_zeros(&mut out, want - cut);
            out
        }
    } else {
        let mut out = r.to_owned();
        push_char(&mut out, '.');
        push_zeros(&mut out, digits);
        assert(out@ =~= r@ + seq!['.'] + zeros(digits as nat));
        out
    }
}

} // verus!

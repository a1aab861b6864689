//! Byte-level helpers shared by the parser and the writer: character
//! classes, decimal digit strings, and uppercase hexadecimal digits.

use vstd::prelude::*;

verus! {

/// Newline, the row and header terminator.
pub const NL: u8 = 10;

/// `[`, which opens a table header.
pub const LBRACKET: u8 = 91;

/// `]`, which closes a table header.
pub const RBRACKET: u8 = 93;

/// `:`, which separates a field name from its type name.
pub const COLON: u8 = 58;

/// `<`, which opens a string literal.
pub const LANGLE: u8 = 60;

/// `>`, which closes a string literal.
pub const RANGLE: u8 = 62;

/// `(`, which opens a bytes literal.
pub const LPAREN: u8 = 40;

/// `)`, which closes a bytes literal.
pub const RPAREN: u8 = 41;

/// `?`, the missing-value marker.
pub const QUERY: u8 = 63;

/// `!`, the sentinel marker.
pub const BANG: u8 = 33;

/// `\`, the escape character inside string literals.
pub const BACKSLASH: u8 = 92;

/// `-`, the negative sign.
pub const DASH: u8 = 45;

/// `.`, the decimal point.
pub const DOT: u8 = 46;

/// `T`, which separates date and time in a datetime literal.
pub const TSEP: u8 = 84;

/// True for a byte that may stand in a table or field name: printable,
/// not a separator, and none of the header's structural characters.
pub open spec fn spec_is_ident_byte(b: u8) -> bool {
    b > 32 && b != LBRACKET && b != RBRACKET && b != COLON
}

/// True for a non-empty name made only of identifier bytes.
pub open spec fn spec_is_ident(s: Seq<u8>) -> bool {
    s.len() > 0 && forall|i: int| 0 <= i < s.len() ==> spec_is_ident_byte(#[trigger] s[i])
}

/// Reports whether a byte may stand in a table or field name.
pub fn is_ident_byte(b: u8) -> (r: bool)
    ensures
        r == spec_is_ident_byte(b),
{
    b > 32 && b != LBRACKET && b != RBRACKET && b != COLON
}

/// Reports whether two byte strings hold the same bytes.
pub fn bytes_eq(a: &[u8], b: &[u8]) -> (r: bool)
    ensures
        r == (a@ == b@),
{
    if a.len() != b.len() {
        assert(a@ != b@);
        return false;
    }
    let n = a.len();
    let mut i: usize = 0;
    while i < n
        invariant
            n == a@.len() == b@.len(),
            0 <= i <= n,
            forall|j: int| 0 <= j < i ==> a@[j] == b@[j],
        decreases n - i,
    {
        if a[i] != b[i] {
            assert(a@ != b@);
            return false;
        }
        i += 1;
    }
    assert(a@ =~= b@);
    true
}

/// True for the bytes that separate values on a row: space and tab.
pub open spec fn spec_is_ws(b: u8) -> bool {
    b == 32 || b == 9
}

/// Reports whether a byte is a value separator (space or tab).
pub fn is_ws(b: u8) -> (r: bool)
    ensures
        r == spec_is_ws(b),
{
    b == 32 || b == 9
}

/// True for ASCII decimal digit bytes.
pub open spec fn spec_is_digit(b: u8) -> bool {
    0x30 <= b <= 0x39
}

/// The numeric value of a decimal digit byte.
pub open spec fn spec_digit_val(b: u8) -> int {
    b - 0x30
}

/// The decimal digit byte for a value below ten.
pub open spec fn spec_digit(n: int) -> u8
    recommends
        0 <= n < 10,
{
    (0x30 + n) as u8
}

/// The decimal digit string of a nonnegative number, most significant
/// digit first, with no leading zeros (a single `0` for zero).
pub open spec fn spec_digits(n: int) -> Seq<u8>
    recommends
        n >= 0,
    decreases n,
{
    if n < 10 {
        seq![spec_digit(n)]
    } else {
        spec_digits(n / 10).push(spec_digit(n % 10))
    }
}

/// The value of a decimal digit string, read left to right.
pub open spec fn spec_digits_val(s: Seq<u8>) -> int
    decreases s.len(),
{
    if s.len() == 0 {
        0
    } else {
        spec_digits_val(s.drop_last()) * 10 + spec_digit_val(s.last())
    }
}

/// True when every byte of `s` is a decimal digit.
pub open spec fn spec_all_digits(s: Seq<u8>) -> bool {
    forall|i: int| 0 <= i < s.len() ==> spec_is_digit(#[trigger] s[i])
}

/// Reading back the digit string of `n` yields `n` again.
pub proof fn lemma_digits_val(n: int)
    requires
        n >= 0,
    ensures
        spec_digits_val(spec_digits(n)) == n,
        spec_digits(n).len() >= 1,
        spec_all_digits(spec_digits(n)),
    decreases n,
{
    if n < 10 {
        assert(spec_digits(n) =~= seq![spec_digit(n)]);
        assert(spec_digits_val(seq![spec_digit(n)].drop_last()) == 0);
    } else {
        lemma_digits_val(n / 10);
        let s = spec_digits(n / 10).push(spec_digit(n % 10));
        assert(s.drop_last() =~= spec_digits(n / 10));
        assert(s.last() == spec_digit(n % 10));
    }
}

/// Ten to the power `w`.
pub open spec fn spec_pow10(w: nat) -> int
    decreases w,
{
    if w == 0 {
        1
    } else {
        10 * spec_pow10((w - 1) as nat)
    }
}

/// Ten to any power is at least one.
pub proof fn lemma_pow10_pos(w: nat)
    ensures
        spec_pow10(w) >= 1,
    decreases w,
{
    if w > 0 {
        lemma_pow10_pos((w - 1) as nat);
    }
}

/// The digit string of a number, zero padded on the left to exactly
/// `w` digits; the number must fit in `w` digits.
pub open spec fn spec_digits_fixed(n: int, w: nat) -> Seq<u8>
    recommends
        0 <= n < spec_pow10(w),
    decreases w,
{
    if w == 0 {
        Seq::empty()
    } else {
        spec_digits_fixed(n / 10, (w - 1) as nat).push(spec_digit(n % 10))
    }
}

/// Reading back a `w`-digit zero-padded string yields the number again.
pub proof fn lemma_digits_fixed_val(n: int, w: nat)
    requires
        0 <= n < spec_pow10(w),
    ensures
        spec_digits_val(spec_digits_fixed(n, w)) == n,
        spec_digits_fixed(n, w).len() == w,
        spec_all_digits(spec_digits_fixed(n, w)),
    decreases w,
{
    if w == 0 {
    } else {
        assert(spec_pow10(w) == 10 * spec_pow10((w - 1) as nat));
        lemma_digits_fixed_val(n / 10, (w - 1) as nat);
        let s = spec_digits_fixed(n / 10, (w - 1) as nat).push(spec_digit(n % 10));
        assert(s.drop_last() =~= spec_digits_fixed(n / 10, (w - 1) as nat));
        assert(s.last() == spec_digit(n % 10));
    }
}

/// Appends the decimal digits of `n` to `out`, most significant first.
pub fn push_digits_u64(n: u64, out: &mut Vec<u8>)
    ensures
        final(out)@ == old(out)@ + spec_digits(n as int),
    decreases n,
{
    if n < 10 {
        out.push(0x30 + (n as u8));
        assert(out@ =~= old(out)@ + spec_digits(n as int));
    } else {
        push_digits_u64(n / 10, out);
        out.push(0x30 + ((n % 10) as u8));
        assert(out@ =~= old(out)@ + spec_digits(n as int));
    }
}

/// Appends the `w`-digit zero-padded decimal form of `n` to `out`.
pub fn push_digits_fixed_u64(n: u64, w: u8, out: &mut Vec<u8>)
    requires
        n < spec_pow10(w as nat),
    ensures
        final(out)@ == old(out)@ + spec_digits_fixed(n as int, w as nat),
    decreases w,
{
    if w == 0 {
        assert(out@ =~= old(out)@ + spec_digits_fixed(n as int, 0));
    } else {
        assert(spec_pow10(w as nat) == 10 * spec_pow10((w - 1) as nat));
        push_digits_fixed_u64(n / 10, w - 1, out);
        out.push(0x30 + ((n % 10) as u8));
        assert(out@ =~= old(out)@ + spec_digits_fixed(n as int, w as nat));
    }
}

/// A digit string's value is nonnegative and below ten to its length.
pub proof fn lemma_digits_val_bound(s: Seq<u8>)
    requires
        spec_all_digits(s),
    ensures
        0 <= spec_digits_val(s) < spec_pow10(s.len()),
    decreases s.len(),
{
    if s.len() == 0 {
    } else {
        lemma_digits_val_bound(s.drop_last());
        assert(spec_all_digits(s.drop_last())) by {
            assert(forall|i: int|
                0 <= i < s.drop_last().len() ==> s.drop_last()[i] == #[trigger] s[i]);
        }
        assert(spec_pow10(s.len()) == 10 * spec_pow10((s.len() - 1) as nat));
        assert(spec_is_digit(s.last()));
    }
}

/// Extending a digit string never lowers its value.
pub proof fn lemma_digits_val_prefix_le(s: Seq<u8>, i: int)
    requires
        spec_all_digits(s),
        0 <= i <= s.len(),
    ensures
        spec_digits_val(s.take(i)) <= spec_digits_val(s),
    decreases s.len() - i,
{
    if i == s.len() {
        assert(s.take(i) =~= s);
    } else {
        lemma_digits_val_prefix_le(s, i + 1);
        let t = s.take(i + 1);
        assert(t.drop_last() =~= s.take(i));
        assert(spec_all_digits(t)) by {
            assert(forall|j: int| 0 <= j < t.len() ==> t[j] == #[trigger] s[j]);
        }
        lemma_digits_val_bound(t.drop_last());
        assert(spec_is_digit(t.last()));
        assert(spec_digits_val(t) == spec_digits_val(s.take(i)) * 10 + spec_digit_val(t.last()));
        assert(spec_digits_val(s.take(i)) <= spec_digits_val(t));
    }
}

/// The uppercase hexadecimal digit byte for a value below sixteen.
pub open spec fn spec_hex_digit(n: int) -> u8
    recommends
        0 <= n < 16,
{
    if n < 10 {
        (0x30 + n) as u8
    } else {
        (0x41 + (n - 10)) as u8
    }
}

/// True for ASCII hexadecimal digit bytes, either case.
pub open spec fn spec_is_hex(b: u8) -> bool {
    spec_is_digit(b) || 0x41 <= b <= 0x46 || 0x61 <= b <= 0x66
}

/// The numeric value of a hexadecimal digit byte.
pub open spec fn spec_hex_val(b: u8) -> int {
    if spec_is_digit(b) {
        b - 0x30
    } else if 0x41 <= b <= 0x46 {
        b - 0x41 + 10
    } else {
        b - 0x61 + 10
    }
}

/// The two uppercase hexadecimal digits of one byte.
pub open spec fn spec_hex_pair(b: u8) -> Seq<u8> {
    seq![spec_hex_digit(b as int / 16), spec_hex_digit(b as int % 16)]
}

/// The uppercase hexadecimal rendering of a byte string.
pub open spec fn spec_hex_of(s: Seq<u8>) -> Seq<u8>
    decreases s.len(),
{
    if s.len() == 0 {
        Seq::empty()
    } else {
        spec_hex_of(s.drop_last()) + spec_hex_pair(s.last())
    }
}

/// Reports whether a byte is a hexadecimal digit, either case.
pub fn is_hex(b: u8) -> (r: bool)
    ensures
        r == spec_is_hex(b),
{
    (0x30 <= b && b <= 0x39) || (0x41 <= b && b <= 0x46) || (0x61 <= b && b <= 0x66)
}

/// The numeric value of a hexadecimal digit byte.
pub fn hex_val(b: u8) -> (r: u8)
    requires
        spec_is_hex(b),
    ensures
        r == spec_hex_val(b),
        r < 16,
{
    if 0x30 <= b && b <= 0x39 {
        b - 0x30
    } else if 0x41 <= b && b <= 0x46 {
        b - 0x41 + 10
    } else {
        b - 0x61 + 10
    }
}

/// Appends the two uppercase hexadecimal digits of `b` to `out`.
pub fn push_hex_pair(b: u8, out: &mut Vec<u8>)
    ensures
        final(out)@ == old(out)@ + spec_hex_pair(b),
{
    let hi = b / 16;
    let lo = b % 16;
    if hi < 10 {
        out.push(0x30 + hi);
    } else {
        out.push(0x41 + (hi - 10));
    }
    if lo < 10 {
        out.push(0x30 + lo);
    } else {
        out.push(0x41 + (lo - 10));
    }
    assert(out@ =~= old(out)@ + spec_hex_pair(b));
}

/// Each uppercase hexadecimal digit reads back as its own value.
pub proof fn lemma_hex_digit_val(n: int)
    requires
        0 <= n < 16,
    ensures
        spec_is_hex(spec_hex_digit(n)),
        spec_hex_val(spec_hex_digit(n)) == n,
{
}

/// Copies the byte range `s[a..b]` into a fresh vector.
pub fn copy_range(s: &[u8], a: usize, b: usize) -> (r: Vec<u8>)
    requires
        a <= b <= s@.len(),
    ensures
        r@ == s@.subrange(a as int, b as int),
{
    let mut out: Vec<u8> = Vec::new();
    let mut i: usize = a;
    while i < b
        invariant
            a <= i <= b <= s@.len(),
            out@ == s@.subrange(a as int, i as int),
        decreases b - i,
    {
        out.push(s[i]);
        i += 1;
        proof {
            assert(out@ =~= s@.subrange(a as int, i as int));
        }
    }
    out
}

} // verus!

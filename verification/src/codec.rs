use vstd::prelude::*;
use vstd::string::StringExecFns;

verus! {

// ---------------------------------------------------------------------------
// Character classes and single-character codes
// ---------------------------------------------------------------------------

pub open spec fn is_digit_char(c: char) -> bool {
    '0' <= c && c <= '9'
}

/// Lower-case hexadecimal digits: `0-9` and `a-f`.
pub open spec fn is_hex_char(c: char) -> bool {
    ('0' <= c && c <= '9') || ('a' <= c && c <= 'f')
}

pub open spec fn digit_char(d: nat) -> char
    recommends
        d < 10,
{
    (d + 48) as char
}

pub open spec fn digit_val(c: char) -> nat
    recommends
        is_digit_char(c),
{
    (c as int - 48) as nat
}

pub open spec fn hex_char(d: nat) -> char
    recommends
        d < 16,
{
    if d < 10 {
        (d + 48) as char
    } else {
        (d + 87) as char
    }
}

pub open spec fn hex_val(c: char) -> nat
    recommends
        is_hex_char(c),
{
    if '0' <= c && c <= '9' {
        (c as int - 48) as nat
    } else {
        (c as int - 87) as nat
    }
}

pub open spec fn all_digits(s: Seq<char>) -> bool {
    forall|i: int| 0 <= i < s.len() ==> is_digit_char(#[trigger] s[i])
}

pub open spec fn all_hex(s: Seq<char>) -> bool {
    forall|i: int| 0 <= i < s.len() ==> is_hex_char(#[trigger] s[i])
}

// ---------------------------------------------------------------------------
// Decimal encoding of natural numbers
// ---------------------------------------------------------------------------

/// The canonical decimal digits of `n`, most significant first, no sign and
/// no leading zeros (a single `'0'` for zero).
pub open spec fn dec_chars(n: nat) -> Seq<char>
    decreases n,
{
    if n < 10 {
        seq![digit_char(n)]
    } else {
        dec_chars(n / 10).push(digit_char(n % 10))
    }
}

/// The value of a digit string read as decimal; the empty string reads as 0.
pub open spec fn dec_value(s: Seq<char>) -> nat
    decreases s.len(),
{
    if s.len() == 0 {
        0
    } else {
        dec_value(s.drop_last()) * 10 + digit_val(s.last())
    }
}

pub proof fn lemma_dec_chars_digits(n: nat)
    ensures
        dec_chars(n).len() >= 1,
        all_digits(dec_chars(n)),
    decreases n,
{
    if n < 10 {
        assert(is_digit_char(digit_char(n)));
    } else {
        lemma_dec_chars_digits(n / 10);
        assert(is_digit_char(digit_char(n % 10)));
        assert(dec_chars(n) == dec_chars(n / 10).push(digit_char(n % 10)));
    }
}

pub proof fn lemma_dec_roundtrip(n: nat)
    ensures
        dec_value(dec_chars(n)) == n,
    decreases n,
{
    if n < 10 {
        let s = dec_chars(n);
        assert(s.drop_last() =~= Seq::<char>::empty());
        assert(dec_value(Seq::<char>::empty()) == 0);
        assert(s.last() == digit_char(n));
        assert(digit_val(digit_char(n)) == n);
        assert(dec_value(s) == dec_value(s.drop_last()) * 10 + digit_val(s.last()));
    } else {
        lemma_dec_roundtrip(n / 10);
        let s = dec_chars(n);
        assert(s.drop_last() =~= dec_chars(n / 10));
        assert(s.last() == digit_char(n % 10));
        assert(digit_val(digit_char(n % 10)) == n % 10);
        assert(dec_value(s) == dec_value(s.drop_last()) * 10 + digit_val(s.last()));
        assert(dec_value(s) == dec_value(dec_chars(n / 10)) * 10 + n % 10);
        assert((n / 10) * 10 + n % 10 == n) by (nonlinear_arith);
    }
}

/// Reading more digits can only make the value larger.
pub proof fn lemma_dec_value_prefix(s: Seq<char>, i: int)
    requires
        0 <= i <= s.len(),
    ensures
        dec_value(s.subrange(0, i)) <= dec_value(s),
    decreases s.len() - i,
{
    if i < s.len() {
        let t = s.drop_last();
        assert(t =~= s.subrange(0, s.len() - 1));
        lemma_dec_value_prefix(t, i);
        assert(t.subrange(0, i) =~= s.subrange(0, i));
        assert(dec_value(s) == dec_value(t) * 10 + digit_val(s.last()));
        assert(dec_value(t) <= dec_value(t) * 10) by (nonlinear_arith);
    } else {
        assert(s.subrange(0, i) =~= s);
    }
}

// ---------------------------------------------------------------------------
// Hexadecimal encoding of byte strings
// ---------------------------------------------------------------------------

/// Two lower-case hexadecimal digits per byte, in order.
pub open spec fn hex_chars(b: Seq<u8>) -> Seq<char>
    decreases b.len(),
{
    if b.len() == 0 {
        Seq::<char>::empty()
    } else {
        hex_chars(b.drop_last()) + seq![
            hex_char((b.last() / 16) as nat),
            hex_char((b.last() % 16) as nat),
        ]
    }
}

/// The bytes encoded by a string of hexadecimal digit pairs; a trailing
/// odd digit is ignored.
pub open spec fn hex_decode(s: Seq<char>) -> Seq<u8>
    decreases s.len(),
{
    if s.len() < 2 {
        Seq::<u8>::empty()
    } else {
        hex_decode(s.subrange(0, s.len() - 2)).push(
            (hex_val(s[s.len() - 2]) * 16 + hex_val(s[s.len() - 1])) as u8,
        )
    }
}

pub proof fn lemma_hex_chars_len(b: Seq<u8>)
    ensures
        hex_chars(b).len() == 2 * b.len(),
        all_hex(hex_chars(b)),
    decreases b.len(),
{
    if b.len() > 0 {
        lemma_hex_chars_len(b.drop_last());
        assert(is_hex_char(hex_char((b.last() / 16) as nat)));
        assert(is_hex_char(hex_char((b.last() % 16) as nat)));
        let s = hex_chars(b);
        assert forall|i: int| 0 <= i < s.len() implies is_hex_char(#[trigger] s[i]) by {
            if i < s.len() - 2 {
                assert(s[i] == hex_chars(b.drop_last())[i]);
            }
        }
    }
}

pub proof fn lemma_hex_roundtrip(b: Seq<u8>)
    ensures
        hex_decode(hex_chars(b)) == b,
    decreases b.len(),
{
    if b.len() == 0 {
        assert(hex_decode(hex_chars(b)) =~= b);
    } else {
        lemma_hex_roundtrip(b.drop_last());
        lemma_hex_chars_len(b.drop_last());
        let s = hex_chars(b);
        let hi = (b.last() / 16) as nat;
        let lo = (b.last() % 16) as nat;
        assert(s.subrange(0, s.len() - 2) =~= hex_chars(b.drop_last()));
        assert(s[s.len() - 2] == hex_char(hi));
        assert(s[s.len() - 1] == hex_char(lo));
        assert(hex_val(hex_char(hi)) == hi);
        assert(hex_val(hex_char(lo)) == lo);
        assert(hi * 16 + lo == b.last());
        assert(hex_decode(s) =~= b);
    }
}

// ---------------------------------------------------------------------------
// Searching for a separator
// ---------------------------------------------------------------------------

/// The least index `i >= from` with `s[i] == c`, or `s.len()` when there is
/// none.
pub open spec fn find_char(s: Seq<char>, c: char, from: int) -> int
    decreases s.len() - from,
{
    if from < 0 || from >= s.len() {
        s.len() as int
    } else if s[from] == c {
        from
    } else {
        find_char(s, c, from + 1)
    }
}

pub proof fn lemma_find_char(s: Seq<char>, c: char, from: int)
    requires
        0 <= from <= s.len(),
    ensures
        from <= find_char(s, c, from) <= s.len(),
        find_char(s, c, from) < s.len() ==> s[find_char(s, c, from)] == c,
        forall|j: int| from <= j < find_char(s, c, from) ==> s[j] != c,
    decreases s.len() - from,
{
    if from < s.len() && s[from] != c {
        lemma_find_char(s, c, from + 1);
    }
}

/// When `s[i]` is the first occurrence of `c` at or after `from`,
/// `find_char` lands exactly on `i`.
pub proof fn lemma_find_char_at(s: Seq<char>, c: char, from: int, i: int)
    requires
        0 <= from <= i < s.len(),
        s[i] == c,
        forall|j: int| from <= j < i ==> s[j] != c,
    ensures
        find_char(s, c, from) == i,
    decreases i - from,
{
    if from < i {
        lemma_find_char_at(s, c, from + 1, i);
    }
}

// ---------------------------------------------------------------------------
// Executable helpers
// ---------------------------------------------------------------------------

/// The one-character string for the hexadecimal digit `d`.
pub fn hex_digit_str(d: u8) -> (r: &'static str)
    requires
        d < 16,
    ensures
        r@ =~= seq![hex_char(d as nat)],
{
    proof {
        reveal_strlit("0");
        reveal_strlit("1");
        reveal_strlit("2");
        reveal_strlit("3");
        reveal_strlit("4");
        reveal_strlit("5");
        reveal_strlit("6");
        reveal_strlit("7");
        reveal_strlit("8");
        reveal_strlit("9");
        reveal_strlit("a");
        reveal_strlit("b");
        reveal_strlit("c");
        reveal_strlit("d");
        reveal_strlit("e");
        reveal_strlit("f");
    }
    match d {
        0 => "0",
        1 => "1",
        2 => "2",
        3 => "3",
        4 => "4",
        5 => "5",
        6 => "6",
        7 => "7",
        8 => "8",
        9 => "9",
        10 => "a",
        11 => "b",
        12 => "c",
        13 => "d",
        14 => "e",
        _ => "f",
    }
}

/// The characters of a digit buffer that stores its least significant digit
/// first, read back most significant digit first.
spec fn rev_chars(digits: Seq<u8>) -> Seq<char>
    decreases digits.len(),
{
    if digits.len() == 0 {
        Seq::<char>::empty()
    } else {
        seq![digit_char(digits.last() as nat)] + rev_chars(digits.drop_last())
    }
}

/// What is still to be printed ahead of an already collected digit buffer.
spec fn dec_prefix(m: nat) -> Seq<char> {
    if m == 0 {
        Seq::<char>::empty()
    } else {
        dec_chars(m)
    }
}

proof fn lemma_rev_chars_index(digits: Seq<u8>, k: int)
    requires
        0 <= k < digits.len(),
    ensures
        rev_chars(digits).len() == digits.len(),
        rev_chars(digits)[k] == digit_char(digits[digits.len() - 1 - k] as nat),
    decreases digits.len(),
{
    lemma_rev_chars_len(digits);
    if k > 0 {
        lemma_rev_chars_index(digits.drop_last(), k - 1);
    }
}

proof fn lemma_rev_chars_len(digits: Seq<u8>)
    ensures
        rev_chars(digits).len() == digits.len(),
    decreases digits.len(),
{
    if digits.len() > 0 {
        lemma_rev_chars_len(digits.drop_last());
    }
}

/// Appends the canonical decimal form of `n` to `s`.
pub fn append_u64_dec(s: &mut String, n: u64)
    ensures
        final(s)@ == old(s)@ + dec_chars(n as nat),
{
    let mut digits: Vec<u8> = Vec::new();
    let mut m: u64 = n;
    let d0: u8 = (m % 10) as u8;
    m = m / 10;
    digits.push(d0);
    proof {
        assert(digits@.drop_last() =~= Seq::<u8>::empty());
        assert(rev_chars(Seq::<u8>::empty()) =~= Seq::<char>::empty());
        assert(rev_chars(digits@) =~= seq![digit_char(d0 as nat)]);
        if n >= 10 {
            assert(dec_chars(n as nat) == dec_chars((n as nat) / 10).push(
                digit_char((n as nat) % 10),
            ));
            assert(dec_chars((n as nat) / 10).push(digit_char((n as nat) % 10))
                =~= dec_chars((n as nat) / 10) + seq![digit_char((n as nat) % 10)]);
        }
        assert(dec_prefix(m as nat) + rev_chars(digits@) =~= dec_chars(n as nat));
    }
    while m > 0
        invariant
            digits@.len() >= 1,
            forall|k: int| 0 <= k < digits@.len() ==> #[trigger] digits@[k] < 10,
            dec_prefix(m as nat) + rev_chars(digits@) =~= dec_chars(n as nat),
        decreases m,
    {
        let d: u8 = (m % 10) as u8;
        let prev: u64 = m;
        let ghost pre = digits@;
        m = m / 10;
        digits.push(d);
        proof {
            assert(digits@ =~= pre.push(d));
            assert(digits@.drop_last() =~= pre);
            assert(rev_chars(digits@) == seq![digit_char(d as nat)] + rev_chars(pre));
            if prev >= 10 {
                assert(dec_chars(prev as nat) == dec_chars((prev as nat) / 10).push(
                    digit_char((prev as nat) % 10),
                ));
                assert(dec_chars((prev as nat) / 10).push(digit_char((prev as nat) % 10))
                    =~= dec_chars((prev as nat) / 10) + seq![digit_char((prev as nat) % 10)]);
            }
            assert(dec_prefix(m as nat) + seq![digit_char(d as nat)] =~= dec_chars(prev as nat));
            assert(dec_prefix(prev as nat) =~= dec_chars(prev as nat));
            assert(dec_prefix(m as nat) + rev_chars(digits@) =~= (dec_prefix(m as nat) + seq![
                digit_char(d as nat),
            ]) + rev_chars(pre));
            assert(dec_prefix(m as nat) + rev_chars(digits@) =~= dec_chars(n as nat));
        }
    }
    proof {
        assert(rev_chars(digits@) =~= dec_chars(n as nat));
        lemma_rev_chars_len(digits@);
        assert(dec_chars(n as nat).take(0) =~= Seq::<char>::empty());
    }
    let mut i: usize = digits.len();
    while i > 0
        invariant
            i <= digits@.len(),
            forall|k: int| 0 <= k < digits@.len() ==> #[trigger] digits@[k] < 10,
            rev_chars(digits@) =~= dec_chars(n as nat),
            rev_chars(digits@).len() == digits@.len(),
            s@ == old(s)@ + dec_chars(n as nat).take(digits@.len() - i),
        decreases i,
    {
        i = i - 1;
        let d = digits[i];
        proof {
            lemma_rev_chars_index(digits@, digits@.len() - 1 - i);
        }
        s.append(hex_digit_str(d));
        proof {
            let full = dec_chars(n as nat);
            let pos = digits@.len() - 1 - i;
            assert(full[pos] == digit_char(digits@[i as int] as nat));
            assert(hex_char(d as nat) == digit_char(d as nat));
            assert(full.take(pos + 1) =~= full.take(pos).push(full[pos]));
            assert(s@ == old(s)@ + full.take(digits@.len() - i));
        }
    }
    proof {
        assert(dec_chars(n as nat).take(digits@.len() as int) =~= dec_chars(n as nat));
    }
}

/// Appends two lower-case hexadecimal digits for each byte of `b` to `s`.
pub fn append_hex(s: &mut String, b: &Vec<u8>)
    ensures
        final(s)@ == old(s)@ + hex_chars(b@),
{
    let mut i: usize = 0;
    while i < b.len()
        invariant
            i <= b@.len(),
            s@ == old(s)@ + hex_chars(b@.subrange(0, i as int)),
        decreases b@.len() - i,
    {
        let x = b[i];
        s.append(hex_digit_str(x / 16));
        s.append(hex_digit_str(x % 16));
        proof {
            let pre = b@.subrange(0, i as int);
            let cur = b@.subrange(0, i + 1);
            assert(cur.drop_last() =~= pre);
            assert(hex_chars(cur) == hex_chars(pre) + seq![
                hex_char((b@[i as int] / 16) as nat),
                hex_char((b@[i as int] % 16) as nat),
            ]);
        }
        i = i + 1;
    }
    proof {
        assert(b@.subrange(0, b@.len() as int) =~= b@);
    }
}

/// The decimal value of an ASCII digit, `None` for any other character.
pub fn char_digit_val(c: char) -> (r: Option<u8>)
    ensures
        r is Some <==> is_digit_char(c),
        r matches Some(v) ==> v == digit_val(c) && v < 10,
{
    let u = c as u32;
    if 48 <= u && u <= 57 {
        Some((u - 48) as u8)
    } else {
        None
    }
}

/// The value of a lower-case hexadecimal digit, `None` for any other
/// character.
pub fn char_hex_val(c: char) -> (r: Option<u8>)
    ensures
        r is Some <==> is_hex_char(c),
        r matches Some(v) ==> v == hex_val(c) && v < 16,
{
    let u = c as u32;
    if 48 <= u && u <= 57 {
        Some((u - 48) as u8)
    } else if 97 <= u && u <= 102 {
        Some((u - 87) as u8)
    } else {
        None
    }
}

} // verus!

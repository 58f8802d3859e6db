//! Decimal text: rendering integers as decimal strings and parsing them
//! back. Tile addresses use this for URL paths, cache file names, and for
//! recognizing cache file names during the startup scan.

use vstd::prelude::*;

verus! {

/// The character for one decimal digit value.
pub open spec fn digit_char(d: int) -> char {
    if d == 0 {
        '0'
    } else if d == 1 {
        '1'
    } else if d == 2 {
        '2'
    } else if d == 3 {
        '3'
    } else if d == 4 {
        '4'
    } else if d == 5 {
        '5'
    } else if d == 6 {
        '6'
    } else if d == 7 {
        '7'
    } else if d == 8 {
        '8'
    } else {
        '9'
    }
}

/// The digit value of a character, or -1 if it is no decimal digit.
pub open spec fn digit_val(c: char) -> int {
    if c == '0' {
        0
    } else if c == '1' {
        1
    } else if c == '2' {
        2
    } else if c == '3' {
        3
    } else if c == '4' {
        4
    } else if c == '5' {
        5
    } else if c == '6' {
        6
    } else if c == '7' {
        7
    } else if c == '8' {
        8
    } else if c == '9' {
        9
    } else {
        -1
    }
}

/// The decimal rendering of `n`, most significant digit first, without
/// leading zeros (`0` itself is the single character `'0'`).
pub open spec fn decimal_chars(n: nat) -> Seq<char>
    decreases n,
{
    if n < 10 {
        seq![digit_char(n as int)]
    } else {
        decimal_chars(n / 10) + seq![digit_char((n % 10) as int)]
    }
}

/// The value of a sequence of digit characters, read base 10.
pub open spec fn digits_value(s: Seq<char>) -> int
    decreases s.len(),
{
    if s.len() == 0 {
        0
    } else {
        digits_value(s.drop_last()) * 10 + digit_val(s.last())
    }
}

/// A sequence of characters that the parser accepts: nonempty, all digits,
/// and no leading zero except for "0" itself.
pub open spec fn well_formed_decimal(s: Seq<char>) -> bool {
    &&& s.len() > 0
    &&& forall|i: int| 0 <= i < s.len() ==> digit_val(#[trigger] s[i]) >= 0
    &&& (s[0] == '0' ==> s.len() == 1)
}

/// What `decimal_chars` renders is well formed and reads back as the same
/// value.
pub proof fn lemma_decimal_chars_value(n: nat)
    ensures
        well_formed_decimal(decimal_chars(n)),
        digits_value(decimal_chars(n)) == n,
        decimal_chars(n)[0] == '0' ==> n == 0,
    decreases n,
{
    if n < 10 {
        let s = decimal_chars(n);
        assert(s.len() == 1);
        assert(s[0] == digit_char(n as int));
        assert(s.last() == digit_char(n as int));
        assert(digit_val(digit_char(n as int)) == n);
        assert(s.drop_last() =~= Seq::<char>::empty());
        reveal_with_fuel(digits_value, 2);
        assert(digits_value(s) == 0 * 10 + n);
    } else {
        lemma_decimal_chars_value(n / 10);
        let p = decimal_chars(n / 10);
        let s = decimal_chars(n);
        assert(s =~= p + seq![digit_char((n % 10) as int)]);
        assert(s.drop_last() =~= p);
        assert(s.last() == digit_char((n % 10) as int));
        assert(digit_val(digit_char((n % 10) as int)) == n % 10);
        assert(digits_value(s) == (n / 10) * 10 + n % 10);
        assert((n / 10) * 10 + n % 10 == n) by (nonlinear_arith);
        assert(n / 10 >= 1);
        assert(s[0] == p[0]);
        assert(p[0] != '0');
    }
}

/// A well-formed digit sequence is exactly the rendering of its value.
pub proof fn lemma_well_formed_decimal_round_trip(s: Seq<char>)
    requires
        well_formed_decimal(s),
    ensures
        digits_value(s) >= 0,
        decimal_chars(digits_value(s) as nat) == s,
    decreases s.len(),
{
    let v = digits_value(s);
    if s.len() == 1 {
        assert(s.drop_last() =~= Seq::<char>::empty());
        assert(v == digit_val(s[0]));
        assert(0 <= v < 10);
        assert(decimal_chars(v as nat) =~= s);
    } else {
        let p = s.drop_last();
        assert(forall|i: int| 0 <= i < p.len() ==> digit_val(#[trigger] p[i]) >= 0);
        assert(p[0] == s[0]);
        assert(p[0] != '0') by {
            if s[0] == '0' {
                assert(s.len() == 1);
            }
        }
        lemma_well_formed_decimal_round_trip(p);
        let pv = digits_value(p);
        assert(v == pv * 10 + digit_val(s.last()));
        assert(pv >= 1) by {
            if pv == 0 {
                // decimal_chars(0) is "0", so p would start with '0'.
                assert(decimal_chars(0) =~= seq!['0']);
                assert(p[0] == '0');
            }
        }
        assert(v >= 10 && v / 10 == pv && v % 10 == digit_val(s.last())) by (nonlinear_arith)
            requires pv >= 1, 0 <= digit_val(s.last()) < 10, v == pv * 10 + digit_val(s.last());
        assert(decimal_chars(v as nat) =~= s);
    }
}

/// Growing a digit string never shrinks its value.
proof fn lemma_digits_value_extend(s: Seq<char>, i: int)
    requires
        0 <= i <= s.len(),
        forall|j: int| 0 <= j < s.len() ==> digit_val(#[trigger] s[j]) >= 0,
    ensures
        digits_value(s) >= digits_value(s.subrange(0, i)),
        digits_value(s.subrange(0, i)) >= 0,
    decreases s.len() - i,
{
    if i == s.len() {
        assert(s.subrange(0, i) =~= s);
        lemma_digits_value_nonneg(s);
    } else {
        lemma_digits_value_extend(s, i + 1);
        let a = s.subrange(0, i);
        let b = s.subrange(0, i + 1);
        assert(b.drop_last() =~= a);
        assert(digits_value(b) == digits_value(a) * 10 + digit_val(s[i]));
        lemma_digits_value_nonneg(a);
        assert(digits_value(a) * 10 >= digits_value(a)) by (nonlinear_arith)
            requires digits_value(a) >= 0;
    }
}

/// Digit strings have nonnegative values.
proof fn lemma_digits_value_nonneg(s: Seq<char>)
    requires
        forall|j: int| 0 <= j < s.len() ==> digit_val(#[trigger] s[j]) >= 0,
    ensures
        digits_value(s) >= 0,
    decreases s.len(),
{
    if s.len() > 0 {
        lemma_digits_value_nonneg(s.drop_last());
        assert(digits_value(s.drop_last()) * 10 >= 0) by (nonlinear_arith)
            requires digits_value(s.drop_last()) >= 0;
    }
}

/// One decimal digit as a borrowed string.
fn digit_str(d: u64) -> (r: &'static str)
    requires
        d < 10,
    ensures
        r@ =~= seq![digit_char(d as int)],
{
    proof {
        reveal_strlit("0");
        reveal_strlit("1");
        reveal_strlit("2");
        reveal_strlit("3");
        reveal_strlit("4");
        reveal_strlit("5");
        reveal_strlit("6");
        reveal_strlit("7");
        reveal_strlit("8");
        reveal_strlit("9");
    }
    match d {
        0 => "0",
        1 => "1",
        2 => "2",
        3 => "3",
        4 => "4",
        5 => "5",
        6 => "6",
        7 => "7",
        8 => "8",
        _ => "9",
    }
}

/// Append the decimal rendering of `n` to `s`.
pub fn push_decimal(s: &mut String, n: u64)
    ensures
        final(s)@ == old(s)@ + decimal_chars(n as nat),
    decreases n,
{
    if n >= 10 {
        push_decimal(s, n / 10);
    }
    let d = digit_str(n % 10);
    s.append(d);
    assert(s@ =~= old(s)@ + decimal_chars(n as nat));
}

/// The decimal rendering of `n` as a fresh string.
pub fn to_decimal(n: u64) -> (r: String)
    ensures
        r@ == decimal_chars(n as nat),
{
    let mut s = String::new();
    push_decimal(&mut s, n);
    proof {
        assert(s@ =~= decimal_chars(n as nat));
    }
    s
}

/// Parse a whole string as the canonical decimal rendering of a `u32`.
///
/// Returns the value exactly when the string is `decimal_chars(n)` for some
/// `n` that fits in a `u32`; leading zeros, stray characters, the empty
/// string and out-of-range values are all rejected.
pub fn parse_u32(s: &str) -> (r: Option<u32>)
    ensures
        match r {
            Some(n) => s@ == decimal_chars(n as nat),
            None => forall|n: u32| s@ != decimal_chars(n as nat),
        },
{
    let len = s.unicode_len();
    if len == 0 {
        proof {
            assert forall|n: u32| s@ != decimal_chars(n as nat) by {
                lemma_decimal_chars_value(n as nat);
            }
        }
        return None;
    }
    let mut acc: u32 = 0;
    let mut i: usize = 0;
    while i < len
        invariant
            i <= len,
            len == s@.len(),
            forall|j: int| 0 <= j < i ==> digit_val(#[trigger] s@[j]) >= 0,
            acc == digits_value(s@.subrange(0, i as int)),
            i > 0 ==> (s@[0] == '0' ==> i == 1),
            i > 0 || acc == 0,
        decreases len - i,
    {
        let c = s.get_char(i);
        let d: u32 = match c {
            '0' => 0,
            '1' => 1,
            '2' => 2,
            '3' => 3,
            '4' => 4,
            '5' => 5,
            '6' => 6,
            '7' => 7,
            '8' => 8,
            '9' => 9,
            _ => {
                proof {
                    lemma_reject_not_well_formed(s@, i as int);
                }
                return None;
            },
        };
        if i == 1 && acc == 0 {
            // Leading zero: only the single string "0" may start with '0'.
            proof {
                assert(s@[0] == '0') by {
                    assert(digits_value(s@.subrange(0, 1)) == acc);
                    assert(s@.subrange(0, 1).drop_last() =~= Seq::<char>::empty());
                    reveal_with_fuel(digits_value, 2);
                    assert(digit_val(s@[0]) == 0);
                }
                lemma_reject_leading_zero(s@);
            }
            return None;
        }
        proof {
            if i == 1 {
                assert(s@.subrange(0, 1).drop_last() =~= Seq::<char>::empty());
                reveal_with_fuel(digits_value, 2);
                assert(acc == digit_val(s@[0]));
            }
        }
        let next: u64 = (acc as u64) * 10 + (d as u64);
        if next > 0xffff_ffffu64 {
            proof {
                assert(digit_val(s@[i as int]) == d);
                lemma_reject_too_large(s@, i as int, next as int);
            }
            return None;
        }
        acc = next as u32;
        proof {
            let pre = s@.subrange(0, i as int);
            let cur = s@.subrange(0, i as int + 1);
            assert(cur.drop_last() =~= pre);
            assert(digit_val(c) == d);
        }
        i = i + 1;
    }
    proof {
        assert(s@.subrange(0, len as int) =~= s@);
        assert(well_formed_decimal(s@));
        lemma_well_formed_decimal_round_trip(s@);
    }
    Some(acc)
}

/// A string with a non-digit character is no decimal rendering.
proof fn lemma_reject_not_well_formed(s: Seq<char>, i: int)
    requires
        0 <= i < s.len(),
        digit_val(s[i]) < 0,
    ensures
        forall|n: u32| s != decimal_chars(n as nat),
{
    assert forall|n: u32| s != decimal_chars(n as nat) by {
        lemma_decimal_chars_value(n as nat);
    }
}

/// A multi-character string that starts with '0' is no decimal rendering.
proof fn lemma_reject_leading_zero(s: Seq<char>)
    requires
        s.len() > 1,
        s[0] == '0',
    ensures
        forall|n: u32| s != decimal_chars(n as nat),
{
    assert forall|n: u32| s != decimal_chars(n as nat) by {
        lemma_decimal_chars_value(n as nat);
    }
}

/// A digit prefix already past `u32::MAX` rules every `u32` rendering out.
proof fn lemma_reject_too_large(s: Seq<char>, i: int, prefix_value: int)
    requires
        0 <= i < s.len(),
        forall|j: int| 0 <= j <= i ==> digit_val(#[trigger] s[j]) >= 0,
        prefix_value == digits_value(s.subrange(0, i)) * 10 + digit_val(s[i]),
        prefix_value > 0xffff_ffff,
    ensures
        forall|n: u32| s != decimal_chars(n as nat),
{
    assert forall|n: u32| s != decimal_chars(n as nat) by {
        lemma_decimal_chars_value(n as nat);
        if s == decimal_chars(n as nat) {
            assert(forall|j: int| 0 <= j < s.len() ==> digit_val(#[trigger] s[j]) >= 0);
            let cur = s.subrange(0, i + 1);
            assert(cur.drop_last() =~= s.subrange(0, i));
            assert(cur.last() == s[i]);
            assert(digits_value(cur) == prefix_value);
            lemma_digits_value_extend(s, i + 1);
            assert(digits_value(s) == n);
        }
    }
}

} // verus!

//! Decimal digit strings: their numeric value, overflow-safe conversion to
//! 64-bit integers, and exact rendering back to text.

use vstd::prelude::*;
use vstd::string::StrSliceExecFns;
use vstd::string::StringExecFns;

verus! {

/// A decimal digit character.
pub open spec fn is_digit_char(c: char) -> bool {
    48 <= c as int <= 57
}

/// The numeric value of a digit character.
pub open spec fn digit_val(c: char) -> int {
    c as int - 48
}

/// Every character of `s` is a decimal digit.
pub open spec fn all_digits(s: Seq<char>) -> bool {
    forall|k: int| 0 <= k < s.len() ==> is_digit_char(s[k])
}

/// Every character of `s` is the digit zero.
pub open spec fn all_zeros(s: Seq<char>) -> bool {
    forall|k: int| 0 <= k < s.len() ==> s[k] == '0'
}

/// The numeric value of a digit string, most significant digit first.
/// The empty string has value zero.
pub open spec fn dec_value(s: Seq<char>) -> nat
    decreases s.len(),
{
    if s.len() == 0 {
        0
    } else {
        dec_value(s.drop_last()) * 10 + (if 0 <= digit_val(s.last()) { digit_val(s.last()) } else { 0 }) as nat
    }
}

/// The digit character for a value below ten.
pub open spec fn dec_digit_char(d: int) -> char {
    if d == 0 {
        '0'
    } else if d == 1 {
        '1'
    } else if d == 2 {
        '2'
    } else if d == 3 {
        '3'
    } else if d == 4 {
        '4'
    } else if d == 5 {
        '5'
    } else if d == 6 {
        '6'
    } else if d == 7 {
        '7'
    } else if d == 8 {
        '8'
    } else {
        '9'
    }
}

/// The canonical decimal rendering of a natural number: no sign, no
/// leading zeros (except for zero itself).
pub open spec fn dec_rep(n: nat) -> Seq<char>
    decreases n,
{
    if n < 10 {
        seq![dec_digit_char(n as int)]
    } else {
        dec_rep(n / 10) + seq![dec_digit_char((n % 10) as int)]
    }
}

/// The canonical decimal rendering of an integer: a minus sign before the
/// magnitude when negative.
pub open spec fn int_rep(i: int) -> Seq<char> {
    if i < 0 {
        seq!['-'] + dec_rep((-i) as nat)
    } else {
        dec_rep(i as nat)
    }
}

/// The value of a prefix never exceeds the value of the whole digit
/// string.
proof fn lemma_dec_value_prefix_le(s: Seq<char>, k: int)
    requires
        0 <= k <= s.len(),
    ensures
        dec_value(s.subrange(0, k)) <= dec_value(s),
    decreases s.len() - k,
{
    if k == s.len() {
        assert(s.subrange(0, k) =~= s);
    } else {
        let t = s.subrange(0, k + 1);
        assert(t.drop_last() =~= s.subrange(0, k));
        assert(dec_value(s.subrange(0, k)) <= dec_value(t));
        lemma_dec_value_prefix_le(s, k + 1);
    }
}

/// Executable test for [`is_digit_char`].
pub fn is_digit(c: char) -> (r: bool)
    ensures
        r == is_digit_char(c),
{
    c >= '0' && c <= '9'
}

/// Does `s` consist of decimal digits only?
pub fn check_all_digits(s: &str) -> (r: bool)
    ensures
        r == all_digits(s@),
{
    let n = s.unicode_len();
    let mut i: usize = 0;
    while i < n
        invariant
            0 <= i <= n,
            n == s@.len(),
            forall|k: int| 0 <= k < i ==> is_digit_char(s@[k]),
        decreases n - i,
    {
        if !is_digit(s.get_char(i)) {
            return false;
        }
        i = i + 1;
    }
    true
}

/// Does `s` consist of zero digits only?
pub fn check_all_zeros(s: &str) -> (r: bool)
    ensures
        r == all_zeros(s@),
{
    let n = s.unicode_len();
    let mut i: usize = 0;
    while i < n
        invariant
            0 <= i <= n,
            n == s@.len(),
            forall|k: int| 0 <= k < i ==> s@[k] == '0',
        decreases n - i,
    {
        if s.get_char(i) != '0' {
            return false;
        }
        i = i + 1;
    }
    true
}

/// Converts a digit string to a 64-bit unsigned integer, reporting `None`
/// exactly when the value does not fit.
pub fn dec_to_u64(s: &str) -> (r: Option<u64>)
    requires
        all_digits(s@),
    ensures
        match r {
            Some(m) => m as nat == dec_value(s@),
            None => dec_value(s@) > u64::MAX,
        },
{
    let n = s.unicode_len();
    let mut i: usize = 0;
    let mut acc: u64 = 0;
    while i < n
        invariant
            0 <= i <= n,
            n == s@.len(),
            all_digits(s@),
            acc as nat == dec_value(s@.subrange(0, i as int)),
        decreases n - i,
    {
        let c = s.get_char(i);
        let d: u64 = char_digit_val(c);
        let wide: u128 = (acc as u128) * 10 + (d as u128);
        proof {
            assert(s@.subrange(0, i + 1).drop_last() =~= s@.subrange(0, i as int));
            assert(wide as nat == dec_value(s@.subrange(0, i + 1)));
        }
        if wide > u64::MAX as u128 {
            proof {
                lemma_dec_value_prefix_le(s@, i + 1);
            }
            return None;
        }
        acc = wide as u64;
        i = i + 1;
    }
    proof {
        assert(s@.subrange(0, n as int) =~= s@);
    }
    Some(acc)
}

/// The numeric value of a digit character, as an executable function.
fn char_digit_val(c: char) -> (d: u64)
    requires
        is_digit_char(c),
    ensures
        d < 10,
        d as int == digit_val(c),
{
    (c as u8 - 48) as u64
}

/// A one-character string slice for a digit value.
fn digit_str(d: u64) -> (r: &'static str)
    requires
        d < 10,
    ensures
        r@ == seq![dec_digit_char(d as int)],
{
    proof {
        reveal_strlit("0");
        reveal_strlit("1");
        reveal_strlit("2");
        reveal_strlit("3");
        reveal_strlit("4");
        reveal_strlit("5");
        reveal_strlit("6");
        reveal_strlit("7");
        reveal_strlit("8");
        reveal_strlit("9");
    }
    let r = match d {
        0 => "0",
        1 => "1",
        2 => "2",
        3 => "3",
        4 => "4",
        5 => "5",
        6 => "6",
        7 => "7",
        8 => "8",
        _ => "9",
    };
    proof {
        assert(r@ =~= seq![dec_digit_char(d as int)]);
    }
    r
}

/// The digit characters of `ds`, least significant first, read back in
/// rendering order.
spec fn rev_digit_chars(ds: Seq<u64>) -> Seq<char> {
    Seq::new(ds.len(), |i: int| dec_digit_char(ds[ds.len() - 1 - i] as int))
}

/// Renders a 64-bit unsigned integer in decimal.
pub fn u64_to_dec(n: u64) -> (r: String)
    ensures
        r@ == dec_rep(n as nat),
{
    let mut out = String::new();
    if n == 0 {
        out.append("0");
        proof {
            reveal_strlit("0");
            assert(out@ =~= dec_rep(0));
        }
        return out;
    }
    let mut ds: Vec<u64> = Vec::new();
    let mut m: u64 = n;
    proof {
        assert(dec_rep(n as nat) =~= dec_rep(n as nat) + rev_digit_chars(ds@));
    }
    while m > 0
        invariant
            forall|k: int| 0 <= k < ds@.len() ==> ds@[k] < 10,
            m == 0 ==> ds@.len() > 0,
            dec_rep(n as nat) == (if m > 0 {
                dec_rep(m as nat)
            } else {
                Seq::<char>::empty()
            }) + rev_digit_chars(ds@),
        decreases m,
    {
        let d = m % 10;
        let ghost old_ds = ds@;
        let ghost old_m = m;
        ds.push(d);
        m = m / 10;
        proof {
            assert(rev_digit_chars(ds@) =~= seq![dec_digit_char(d as int)] + rev_digit_chars(
                old_ds,
            ));
            if m > 0 {
                assert(dec_rep(old_m as nat) == dec_rep(m as nat) + seq![
                    dec_digit_char(d as int),
                ]);
                assert(dec_rep(m as nat) + seq![dec_digit_char(d as int)] + rev_digit_chars(old_ds)
                    =~= dec_rep(m as nat) + rev_digit_chars(ds@));
            } else {
                assert(dec_rep(old_m as nat) == seq![dec_digit_char(d as int)]);
                assert(seq![dec_digit_char(d as int)] + rev_digit_chars(old_ds) =~= Seq::<
                    char,
                >::empty() + rev_digit_chars(ds@));
            }
        }
    }
    let len = ds.len();
    let mut k: usize = 0;
    while k < len
        invariant
            0 <= k <= len,
            len == ds@.len(),
            forall|j: int| 0 <= j < ds@.len() ==> ds@[j] < 10,
            out@.len() == k,
            forall|j: int| 0 <= j < k ==> out@[j] == dec_digit_char(ds@[len - 1 - j] as int),
        decreases len - k,
    {
        out.append(digit_str(ds[len - 1 - k]));
        k = k + 1;
    }
    proof {
        assert(out@ =~= rev_digit_chars(ds@));
    }
    out
}

/// Renders a 64-bit signed integer in decimal, with a minus sign when
/// negative.
pub fn i64_to_dec(n: i64) -> (r: String)
    ensures
        r@ == int_rep(n as int),
{
    if n >= 0 {
        u64_to_dec(n as u64)
    } else {
        let mag: u64 = if n == i64::MIN {
            9223372036854775808u64
        } else {
            (-n) as u64
        };
        proof {
            assert(mag as int == -(n as int));
        }
        let mut out = String::new();
        out.append("-");
        let digits = u64_to_dec(mag);
        out.append(digits.as_str());
        proof {
            reveal_strlit("-");
            assert(out@ =~= int_rep(n as int));
        }
        out
    }
}

} // verus!

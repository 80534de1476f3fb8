//! Small verified string helpers: splitting an address at its colon and
//! printing and parsing decimal numbers.

use vstd::prelude::*;
use vstd::string::StrSliceExecFns;
use vstd::string::StringExecFns;

verus! {

/// `n` is the position of the first `':'` in `s`.
pub open spec fn first_colon_at(s: Seq<char>, n: int) -> bool {
    &&& 0 <= n < s.len()
    &&& s[n] == ':'
    &&& forall|k: int| 0 <= k < n ==> s[k] != ':'
}

/// The host part of `addr`: everything before the first `':'`.  Yields
/// `None` when there is no colon.
pub fn host_of_address(addr: &String) -> (r: Option<String>)
    ensures
        r is Some <==> exists|n: int| first_colon_at(addr@, n),
        r matches Some(h) ==> exists|n: int|
            #[trigger] first_colon_at(addr@, n) && h@ == addr@.take(n),
{
    let s = addr.as_str();
    let len = s.unicode_len();
    let mut i: usize = 0;
    while i < len
        invariant
            len == s@.len(),
            s@ == addr@,
            i <= len,
            forall|k: int| 0 <= k < i ==> s@[k] != ':',
        decreases len - i,
    {
        if s.get_char(i) == ':' {
            proof {
                assert(first_colon_at(addr@, i as int));
            }
            let h = s.substring_char(0, i);
            return Some(String::from_str(h));
        }
        i = i + 1;
    }
    proof {
        assert(forall|n: int| !first_colon_at(addr@, n));
    }
    None
}

/// The character for one decimal digit.
pub open spec fn digit_char(d: int) -> char {
    if d == 0 {
        '0'
    } else if d == 1 {
        '1'
    } else if d == 2 {
        '2'
    } else if d == 3 {
        '3'
    } else if d == 4 {
        '4'
    } else if d == 5 {
        '5'
    } else if d == 6 {
        '6'
    } else if d == 7 {
        '7'
    } else if d == 8 {
        '8'
    } else {
        '9'
    }
}

/// Decimal spelling of a natural number, most significant digit first.
pub open spec fn dec_str(n: nat) -> Seq<char>
    decreases n,
{
    if n < 10 {
        seq![digit_char(n as int)]
    } else {
        dec_str(n / 10).push(digit_char((n % 10) as int))
    }
}

pub open spec fn is_digit(c: char) -> bool {
    '0' <= c <= '9'
}

pub open spec fn digit_val(c: char) -> int {
    c as int - 48
}

/// Numeric value of a digit string, zero for the empty string.
pub open spec fn dec_val(s: Seq<char>) -> int
    decreases s.len(),
{
    if s.len() == 0 {
        0
    } else {
        dec_val(s.drop_last()) * 10 + digit_val(s.last())
    }
}

pub open spec fn all_digits(s: Seq<char>) -> bool {
    forall|i: int| 0 <= i < s.len() ==> is_digit(#[trigger] s[i])
}

/// The digit value never drops when more digits are appended.
pub proof fn lemma_dec_val_nonneg(s: Seq<char>)
    requires
        all_digits(s),
    ensures
        dec_val(s) >= 0,
    decreases s.len(),
{
    if s.len() > 0 {
        assert(all_digits(s.drop_last())) by {
            assert(forall|i: int| 0 <= i < s.len() - 1 ==> is_digit(#[trigger] s[i]));
        }
        lemma_dec_val_nonneg(s.drop_last());
        assert(is_digit(s.last()));
    }
}

/// A digit-string prefix never exceeds the whole string's value.
pub proof fn lemma_dec_val_prefix(s: Seq<char>, k: int)
    requires
        all_digits(s),
        0 <= k <= s.len(),
    ensures
        dec_val(s.take(k)) <= dec_val(s),
    decreases s.len() - k,
{
    if k < s.len() {
        lemma_dec_val_prefix(s, k + 1);
        assert(s.take(k + 1).drop_last() =~= s.take(k));
        assert(s.take(k + 1).last() == s[k]);
        assert(all_digits(s.take(k))) by {
            assert(forall|i: int| 0 <= i < k ==> s.take(k)[i] == s[i]);
        }
        lemma_dec_val_nonneg(s.take(k));
        assert(is_digit(s[k]));
        assert(dec_val(s.take(k + 1)) == dec_val(s.take(k)) * 10 + digit_val(s[k]));
        assert(dec_val(s.take(k)) * 10 >= dec_val(s.take(k))) by (nonlinear_arith)
            requires
                dec_val(s.take(k)) >= 0,
        ;
    } else {
        assert(s.take(k) =~= s);
    }
}

/// Printing and reading back a number is the identity.
pub proof fn lemma_dec_roundtrip(n: nat)
    ensures
        all_digits(dec_str(n)),
        dec_str(n).len() >= 1,
        dec_val(dec_str(n)) == n,
    decreases n,
{
    if n < 10 {
        assert(dec_str(n) =~= seq![digit_char(n as int)]);
        assert(dec_val(dec_str(n)) == dec_val(dec_str(n).drop_last()) * 10 + digit_val(
            dec_str(n).last(),
        ));
        assert(dec_str(n).drop_last() =~= Seq::<char>::empty());
    } else {
        lemma_dec_roundtrip(n / 10);
        let s = dec_str(n / 10);
        let c = digit_char((n % 10) as int);
        assert(dec_str(n) == s.push(c));
        assert(s.push(c).drop_last() =~= s);
        assert(s.push(c).last() == c);
        assert(digit_val(c) == n % 10);
        vstd::arithmetic::div_mod::lemma_fundamental_div_mod(n as int, 10);
        assert(all_digits(s.push(c))) by {
            assert(forall|i: int| 0 <= i < s.len() ==> s.push(c)[i] == s[i]);
            assert(s.push(c).last() == c && is_digit(c));
        }
    }
}

/// One decimal digit as a string.
fn digit_str(d: u64) -> (r: &'static str)
    requires
        d < 10,
    ensures
        r@ =~= seq![digit_char(d as int)],
{
    if d == 0 {
        proof {
            reveal_strlit("0");
        }
        "0"
    } else if d == 1 {
        proof {
            reveal_strlit("1");
        }
        "1"
    } else if d == 2 {
        proof {
            reveal_strlit("2");
        }
        "2"
    } else if d == 3 {
        proof {
            reveal_strlit("3");
        }
        "3"
    } else if d == 4 {
        proof {
            reveal_strlit("4");
        }
        "4"
    } else if d == 5 {
        proof {
            reveal_strlit("5");
        }
        "5"
    } else if d == 6 {
        proof {
            reveal_strlit("6");
        }
        "6"
    } else if d == 7 {
        proof {
            reveal_strlit("7");
        }
        "7"
    } else if d == 8 {
        proof {
            reveal_strlit("8");
        }
        "8"
    } else {
        proof {
            reveal_strlit("9");
        }
        "9"
    }
}

/// Print a number in decimal.
pub fn u64_to_dec(n: u64) -> (s: String)
    ensures
        s@ == dec_str(n as nat),
    decreases n,
{
    if n < 10 {
        String::from_str(digit_str(n))
    } else {
        let mut s = u64_to_dec(n / 10);
        s.append(digit_str(n % 10));
        proof {
            assert(dec_str((n / 10) as nat).push(digit_char((n % 10) as int)) =~= dec_str(
                (n / 10) as nat,
            ) + seq![digit_char((n % 10) as int)]);
        }
        s
    }
}

/// Read a decimal number; anything but a plain digit string that fits in
/// a `u64` is refused.
pub fn parse_u64_dec(s: &str) -> (r: Option<u64>)
    ensures
        r is Some <==> (s@.len() > 0 && all_digits(s@) && dec_val(s@) <= u64::MAX),
        r matches Some(v) ==> v == dec_val(s@),
{
    let len = s.unicode_len();
    if len == 0 {
        return None;
    }
    let mut acc: u64 = 0;
    let mut i: usize = 0;
    while i < len
        invariant
            len == s@.len(),
            0 < len,
            i <= len,
            all_digits(s@.take(i as int)),
            acc == dec_val(s@.take(i as int)),
        decreases len - i,
    {
        let c = s.get_char(i);
        if !('0' <= c && c <= '9') {
            proof {
                assert(!is_digit(s@[i as int]));
            }
            return None;
        }
        let d: u64 = (c as u64) - 48;
        proof {
            assert(s@.take(i + 1).drop_last() =~= s@.take(i as int));
            assert(s@.take(i + 1).last() == s@[i as int]);
            assert(all_digits(s@.take(i + 1))) by {
                assert(forall|k: int| 0 <= k < i ==> s@.take(i + 1)[k] == s@.take(i as int)[k]);
                assert(s@.take(i + 1)[i as int] == s@[i as int]);
            }
        }
        let wide: u128 = (acc as u128) * 10 + (d as u128);
        if wide > u64::MAX as u128 {
            proof {
                assert(dec_val(s@.take(i + 1)) > u64::MAX);
                if all_digits(s@) {
                    lemma_dec_val_prefix(s@, i + 1);
                }
            }
            return None;
        }
        acc = wide as u64;
        i = i + 1;
    }
    proof {
        assert(s@.take(len as int) =~= s@);
    }
    Some(acc)
}

/// Fold an ASCII letter to upper case; anything else is untouched.
pub open spec fn upper_char(c: char) -> char {
    if 'a' <= c <= 'z' {
        ((c as u8) - 32) as char
    } else {
        c
    }
}

pub open spec fn upper_of(s: Seq<char>) -> Seq<char> {
    Seq::new(s.len(), |i: int| upper_char(s[i]))
}

/// Decides whether `s`, folded to upper case, equals the already upper
/// `t`.
pub fn upper_eq(s: &str, t: &str) -> (r: bool)
    ensures
        r == (upper_of(s@) == t@),
{
    let ls = s.unicode_len();
    let lt = t.unicode_len();
    if ls != lt {
        proof {
            assert(upper_of(s@).len() != t@.len());
        }
        return false;
    }
    let mut i: usize = 0;
    while i < ls
        invariant
            ls == s@.len(),
            ls == t@.len(),
            i <= ls,
            forall|k: int| 0 <= k < i ==> upper_char(s@[k]) == t@[k],
        decreases ls - i,
    {
        let c = s.get_char(i);
        let u = if 'a' <= c && c <= 'z' {
            ((c as u8) - 32) as char
        } else {
            c
        };
        proof {
            assert(u == upper_char(s@[i as int]));
        }
        if u != t.get_char(i) {
            proof {
                assert(upper_of(s@)[i as int] != t@[i as int]);
            }
            return false;
        }
        i = i + 1;
    }
    proof {
        assert(upper_of(s@) =~= t@);
    }
    true
}

} // verus!

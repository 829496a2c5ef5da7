use vstd::prelude::*;

verus! {

/// True of the ten ASCII digit characters.
pub open spec fn is_digit_char(c: char) -> bool {
    '0' as int <= c as int && c as int <= '9' as int
}

/// The value an ASCII digit character denotes.
pub open spec fn digit_val(c: char) -> int {
    c as int - '0' as int
}

/// The digit character for a value below ten.
pub open spec fn digit_char(d: int) -> char {
    if d == 0 {
        '0'
    } else if d == 1 {
        '1'
    } else if d == 2 {
        '2'
    } else if d == 3 {
        '3'
    } else if d == 4 {
        '4'
    } else if d == 5 {
        '5'
    } else if d == 6 {
        '6'
    } else if d == 7 {
        '7'
    } else if d == 8 {
        '8'
    } else {
        '9'
    }
}

/// Every character of the sequence is an ASCII digit.
pub open spec fn all_digits(s: Seq<char>) -> bool {
    forall|i: int| 0 <= i < s.len() ==> is_digit_char(#[trigger] s[i])
}

/// The number a run of digit characters denotes, most significant first.
pub open spec fn digits_val(s: Seq<char>) -> int
    decreases s.len(),
{
    if s.len() == 0 {
        0
    } else {
        digits_val(s.drop_last()) * 10 + digit_val(s.last())
    }
}

/// The canonical digits of a nonnegative number: no leading zero except for
/// zero itself.
pub open spec fn dec_digits(n: int) -> Seq<char>
    decreases n,
{
    if n <= 9 {
        seq![digit_char(n)]
    } else {
        dec_digits(n / 10).push(digit_char(n % 10))
    }
}

/// The canonical decimal form of an integer: the digits of its magnitude,
/// after a minus sign if it is negative.
pub open spec fn dec_rep(n: int) -> Seq<char> {
    if n < 0 {
        seq!['-'] + dec_digits(-n)
    } else {
        dec_digits(n)
    }
}

/// The canonical digits of a nonnegative number are all digit characters.
pub proof fn lemma_dec_digits_all_digits(n: int)
    requires
        n >= 0,
    ensures
        all_digits(dec_digits(n)),
        dec_digits(n).len() >= 1,
    decreases n,
{
    if n > 9 {
        lemma_dec_digits_all_digits(n / 10);
    }
}

/// A digit character carries the value it was made from.
pub proof fn lemma_digit_char_val(d: int)
    requires
        0 <= d <= 9,
    ensures
        digit_val(digit_char(d)) == d,
        is_digit_char(digit_char(d)),
{
}

/// The canonical digits of a nonnegative number denote that number.
pub proof fn lemma_dec_digits_val(n: int)
    requires
        n >= 0,
    ensures
        digits_val(dec_digits(n)) == n,
    decreases n,
{
    if n <= 9 {
        lemma_digit_char_val(n);
        let s = dec_digits(n);
        assert(s.drop_last() =~= Seq::<char>::empty());
        assert(digits_val(s.drop_last()) == 0);
    } else {
        lemma_dec_digits_val(n / 10);
        lemma_digit_char_val(n % 10);
        let s = dec_digits(n);
        assert(s.drop_last() =~= dec_digits(n / 10));
        assert(s.last() == digit_char(n % 10));
        assert(digits_val(s) == (n / 10) * 10 + n % 10);
    }
}

/// A run of digit characters denotes a nonnegative number.
pub proof fn lemma_digits_val_nonneg(s: Seq<char>)
    requires
        all_digits(s),
    ensures
        digits_val(s) >= 0,
    decreases s.len(),
{
    if s.len() > 0 {
        assert(all_digits(s.drop_last()));
        lemma_digits_val_nonneg(s.drop_last());
    }
}

/// Extending a run of digit characters never shrinks the number it denotes.
pub proof fn lemma_digits_val_prefix_le(s: Seq<char>, j: int)
    requires
        all_digits(s),
        0 <= j <= s.len(),
    ensures
        digits_val(s.take(j)) <= digits_val(s),
    decreases s.len() - j,
{
    if j < s.len() {
        let p = s.take(j + 1);
        assert(p.drop_last() =~= s.take(j));
        assert(all_digits(s.take(j)));
        lemma_digits_val_nonneg(s.take(j));
        assert(digits_val(p) == digits_val(s.take(j)) * 10 + digit_val(s[j]));
        lemma_digits_val_prefix_le(s, j + 1);
    } else {
        assert(s.take(j) =~= s);
    }
}

/// Reading back the canonical decimal form of a 32-bit value yields the value.
pub proof fn lemma_dec_rep_parse(n: i32)
    ensures
        spec_parse_i32(dec_rep(n as int)) == Some(n),
{
    let s = dec_rep(n as int);
    if n >= 0 {
        lemma_dec_digits_all_digits(n as int);
        lemma_dec_digits_val(n as int);
        assert(is_digit_char(s[0]));
        assert(s[0] != '-' && s[0] != '+');
        assert(spec_parse_i32(s) == Some(n));
    } else {
        let m = -(n as int);
        lemma_dec_digits_all_digits(m);
        lemma_dec_digits_val(m);
        assert(s == seq!['-'] + dec_digits(m));
        assert(s[0] == '-');
        assert(s.skip(1) =~= dec_digits(m));
        assert(spec_parse_i32(s) == Some(n));
    }
}

/// The digit characters for a sequence of digit values.
pub open spec fn digit_chars(ds: Seq<u32>) -> Seq<char> {
    ds.map(|_i: int, d: u32| digit_char(d as int))
}

/// The number an id segment denotes: an optional sign, then at least one
/// ASCII digit, and the value must fit the signed 32-bit range.
pub open spec fn spec_parse_i32(s: Seq<char>) -> Option<i32> {
    let negative = s.len() > 0 && s[0] == '-';
    let digits = if s.len() > 0 && (s[0] == '-' || s[0] == '+') {
        s.skip(1)
    } else {
        s
    };
    if digits.len() == 0 || !all_digits(digits) {
        None
    } else {
        let v = if negative {
            -digits_val(digits)
        } else {
            digits_val(digits)
        };
        if i32::MIN as int <= v <= i32::MAX as int {
            Some(v as i32)
        } else {
            None
        }
    }
}

/// The one-character string for a digit value.
fn digit_str(d: u32) -> (s: &'static str)
    requires
        d < 10,
    ensures
        s@ == seq![digit_char(d as int)],
{
    proof {
        reveal_strlit("0");
        reveal_strlit("1");
        reveal_strlit("2");
        reveal_strlit("3");
        reveal_strlit("4");
        reveal_strlit("5");
        reveal_strlit("6");
        reveal_strlit("7");
        reveal_strlit("8");
        reveal_strlit("9");
    }
    let r: &'static str = if d == 0 {
        "0"
    } else if d == 1 {
        "1"
    } else if d == 2 {
        "2"
    } else if d == 3 {
        "3"
    } else if d == 4 {
        "4"
    } else if d == 5 {
        "5"
    } else if d == 6 {
        "6"
    } else if d == 7 {
        "7"
    } else if d == 8 {
        "8"
    } else {
        "9"
    };
    proof {
        assert(r@ =~= seq![digit_char(d as int)]);
    }
    r
}

/// The magnitude of a signed number; the smallest value's magnitude does not
/// fit in the signed type itself.
fn abs_u32(n: i32) -> (m: u32)
    ensures
        m == if n < 0 { -(n as int) } else { n as int },
{
    if n >= 0 {
        n as u32
    } else {
        (-(n as i64)) as u32
    }
}

/// Writes a number the way the router writes an id into a path: its canonical
/// decimal form.
pub fn i32_to_decimal(n: i32) -> (s: String)
    ensures
        s@ == dec_rep(n as int),
{
    let m: u32 = abs_u32(n);
    let mut ds: Vec<u32> = Vec::new();
    let mut rem: u32 = m;
    proof {
        assert(digit_chars(ds@).reverse() =~= Seq::<char>::empty());
        assert(dec_digits(m as int) + digit_chars(ds@).reverse() =~= dec_digits(m as int));
    }
    loop
        invariant_except_break
            dec_digits(m as int) == dec_digits(rem as int) + digit_chars(ds@).reverse(),
        invariant
            forall|k: int| 0 <= k < ds@.len() ==> #[trigger] ds@[k] < 10,
        ensures
            forall|k: int| 0 <= k < ds@.len() ==> #[trigger] ds@[k] < 10,
            dec_digits(m as int) == digit_chars(ds@).reverse(),
        decreases rem,
    {
        let d: u32 = rem % 10;
        let next: u32 = rem / 10;
        let ghost olds = ds@;
        ds.push(d);
        proof {
            assert(digit_chars(ds@) =~= digit_chars(olds).push(digit_char(d as int)));
            assert(digit_chars(ds@).reverse() =~= seq![digit_char(d as int)]
                + digit_chars(olds).reverse());
        }
        if next == 0 {
            proof {
                assert(rem <= 9);
                assert(dec_digits(rem as int) == seq![digit_char(rem as int)]);
                assert(dec_digits(m as int) =~= digit_chars(ds@).reverse());
            }
            break;
        }
        proof {
            assert(dec_digits(rem as int) == dec_digits(next as int).push(
                digit_char((rem % 10) as int),
            ));
            assert(dec_digits(next as int).push(digit_char(d as int))
                + digit_chars(olds).reverse() =~= dec_digits(next as int) + digit_chars(
                ds@,
            ).reverse());
        }
        rem = next;
    }
    let mut out = String::new();
    if n < 0 {
        out.append("-");
    }
    proof {
        reveal_strlit("-");
    }
    let ghost pre: Seq<char> = out@;
    let mut i: usize = ds.len();
    proof {
        assert(out@ =~= pre + digit_chars(ds@).reverse().take(ds@.len() - i));
    }
    while i > 0
        invariant
            i <= ds@.len(),
            forall|k: int| 0 <= k < ds@.len() ==> #[trigger] ds@[k] < 10,
            out@ == pre + digit_chars(ds@).reverse().take(ds@.len() - i),
        decreases i,
    {
        i = i - 1;
        let d: u32 = ds[i];
        out.append(digit_str(d));
        proof {
            let rev = digit_chars(ds@).reverse();
            assert(rev[ds@.len() - 1 - i] == digit_char(ds@[i as int] as int));
            assert(rev.take(ds@.len() - i) =~= rev.take(ds@.len() - i - 1).push(
                rev[ds@.len() - 1 - i],
            ));
            assert(out@ =~= pre + rev.take(ds@.len() - i));
        }
    }
    proof {
        assert(digit_chars(ds@).reverse().take(ds@.len() as int) =~= digit_chars(ds@).reverse());
        if n < 0 {
            assert(out@ =~= seq!['-'] + dec_digits(-(n as int)));
        } else {
            assert(out@ =~= dec_digits(n as int));
        }
    }
    out
}

/// Reads an id segment the way the router's typed parameter does: an optional
/// sign followed by decimal digits, rejecting anything else and values out of
/// the signed 32-bit range.
#[verifier::loop_isolation(false)]
pub fn parse_i32(s: &str) -> (r: Option<i32>)
    ensures
        r == spec_parse_i32(s@),
{
    let len: usize = s.unicode_len();
    if len == 0 {
        return None;
    }
    let c0: char = s.get_char(0);
    let negative: bool = c0 == '-';
    let start: usize = if c0 == '-' || c0 == '+' {
        1
    } else {
        0
    };
    let ghost digits: Seq<char> = if s@[0] == '-' || s@[0] == '+' {
        s@.skip(1)
    } else {
        s@
    };
    proof {
        assert(digits =~= s@.skip(start as int));
    }
    if start == len {
        return None;
    }
    let mut acc: u64 = 0;
    let mut i: usize = start;
    proof {
        assert(digits.take(0) =~= Seq::<char>::empty());
    }
    while i < len
        invariant
            start <= i <= len,
            all_digits(digits.take(i - start)),
            acc == digits_val(digits.take(i - start)),
            acc <= 0x8000_0000,
        decreases len - i,
    {
        let c: char = s.get_char(i);
        let cv: u32 = c as u32;
        if cv < 48 || cv > 57 {
            proof {
                assert(digits[i - start] == s@[i as int]);
                assert(!is_digit_char(digits[i - start]));
            }
            return None;
        }
        let d: u64 = (cv - 48) as u64;
        let next: u64 = acc * 10 + d;
        proof {
            let p = digits.take(i + 1 - start);
            assert(p.drop_last() =~= digits.take(i - start));
            assert(p.last() == s@[i as int]);
            assert(digit_val(p.last()) == d);
            assert(digits_val(p) == next);
            assert(all_digits(p));
        }
        if next > 0x8000_0000 {
            proof {
                if all_digits(digits) {
                    lemma_digits_val_prefix_le(digits, i + 1 - start);
                }
            }
            return None;
        }
        acc = next;
        i = i + 1;
    }
    proof {
        assert(digits.take(len - start) =~= digits);
    }
    if negative {
        let v: i64 = -(acc as i64);
        Some(v as i32)
    } else {
        if acc > 0x7fff_ffff {
            return None;
        }
        Some(acc as i32)
    }
}

} // verus!

//! Decimal text for record ids: printing a `usize` and reading one back,
//! with the store's tolerant reading rule (any failure reads as id 0).

use vstd::prelude::*;

verus! {

pub open spec fn is_digit(c: char) -> bool {
    48 <= c as int <= 57
}

pub open spec fn digit_char(v: int) -> char {
    ((48 + v) as u8) as char
}

pub open spec fn digit_val(c: char) -> int {
    c as int - 48
}

pub open spec fn all_digits(s: Seq<char>) -> bool {
    forall|i: int| 0 <= i < s.len() ==> is_digit(#[trigger] s[i])
}

/// The number written by a sequence of decimal digits, most significant first.
pub open spec fn digits_val(s: Seq<char>) -> int
    decreases s.len(),
{
    if s.len() == 0 {
        0
    } else {
        digits_val(s.drop_last()) * 10 + digit_val(s.last())
    }
}

/// The decimal form of `n`: no sign, no leading zero except for 0 itself.
pub open spec fn spec_dec(n: int) -> Seq<char>
    decreases n,
{
    if n <= 9 {
        seq![digit_char(if n < 0 { 0 } else { n })]
    } else {
        spec_dec(n / 10) + seq![digit_char(n % 10)]
    }
}

/// How a record's id field is read: as `usize` when the whole field is
/// decimal digits (after an optional leading `+`) whose value fits, and as
/// nothing otherwise.
pub open spec fn spec_parse_usize(s: Seq<char>) -> Option<usize> {
    let body = if s.len() >= 1 && s[0] == '+' {
        s.skip(1)
    } else {
        s
    };
    if body.len() >= 1 && all_digits(body) && digits_val(body) <= usize::MAX {
        Some(digits_val(body) as usize)
    } else {
        None
    }
}

fn digit_str(v: u8) -> (r: &'static str)
    requires
        v <= 9,
    ensures
        r@ =~= seq![digit_char(v as int)],
{
    proof {
        reveal_strlit("0");
        reveal_strlit("1");
        reveal_strlit("2");
        reveal_strlit("3");
        reveal_strlit("4");
        reveal_strlit("5");
        reveal_strlit("6");
        reveal_strlit("7");
        reveal_strlit("8");
        reveal_strlit("9");
    }
    match v {
        0 => "0",
        1 => "1",
        2 => "2",
        3 => "3",
        4 => "4",
        5 => "5",
        6 => "6",
        7 => "7",
        8 => "8",
        _ => "9",
    }
}

/// Appends one decimal digit to `out`.
pub fn push_digit(out: &mut String, v: u32)
    requires
        v <= 9,
    ensures
        final(out)@ == old(out)@ + seq![digit_char(v as int)],
{
    out.append(digit_str(v as u8));
}

/// Appends `v` as exactly two decimal digits.
pub fn push_2dig(out: &mut String, v: u32)
    requires
        v <= 99,
    ensures
        final(out)@ == old(out)@ + seq![digit_char(v as int / 10), digit_char(v as int % 10)],
{
    push_digit(out, v / 10);
    push_digit(out, v % 10);
    proof {
        assert(out@ =~= old(out)@ + seq![digit_char(v as int / 10), digit_char(v as int % 10)]);
    }
}

/// Appends `v` as exactly four decimal digits.
pub fn push_4dig(out: &mut String, v: u32)
    requires
        v <= 9999,
    ensures
        final(out)@ == old(out)@ + seq![
            digit_char(v as int / 1000 % 10),
            digit_char(v as int / 100 % 10),
            digit_char(v as int / 10 % 10),
            digit_char(v as int % 10),
        ],
{
    push_digit(out, v / 1000 % 10);
    push_digit(out, v / 100 % 10);
    push_digit(out, v / 10 % 10);
    push_digit(out, v % 10);
    proof {
        assert(out@ =~= old(out)@ + seq![
            digit_char(v as int / 1000 % 10),
            digit_char(v as int / 100 % 10),
            digit_char(v as int / 10 % 10),
            digit_char(v as int % 10),
        ]);
    }
}

/// Appends the decimal form of `n` to `out`.
pub fn push_dec_usize(out: &mut String, n: usize)
    ensures
        final(out)@ == old(out)@ + spec_dec(n as int),
    decreases n,
{
    if n <= 9 {
        push_digit(out, n as u32);
    } else {
        push_dec_usize(out, n / 10);
        push_digit(out, (n % 10) as u32);
        proof {
            assert(out@ =~= old(out)@ + spec_dec(n as int));
        }
    }
}

/// Every character of a printed decimal is a digit.
pub proof fn lemma_spec_dec_digits(n: int)
    requires
        n >= 0,
    ensures
        all_digits(spec_dec(n)),
        spec_dec(n).len() >= 1,
    decreases n,
{
    if n <= 9 {
    } else {
        lemma_spec_dec_digits(n / 10);
        assert forall|i: int| 0 <= i < spec_dec(n).len() implies is_digit(
            #[trigger] spec_dec(n)[i],
        ) by {
            if i < spec_dec(n / 10).len() {
                assert(spec_dec(n)[i] == spec_dec(n / 10)[i]);
            }
        }
    }
}

/// Reading back a printed decimal recovers the number.
pub proof fn lemma_dec_round_trip(n: usize)
    ensures
        spec_parse_usize(spec_dec(n as int)) == Some(n),
{
    lemma_spec_dec_digits(n as int);
    lemma_digits_val_of_dec(n as int);
    let s = spec_dec(n as int);
    assert(is_digit(s[0]));
    assert(s[0] != '+');
}

proof fn lemma_digits_val_of_dec(n: int)
    requires
        n >= 0,
    ensures
        digits_val(spec_dec(n)) == n,
    decreases n,
{
    if n <= 9 {
        assert(digit_val(digit_char(n)) == n);
        assert(seq![digit_char(n)].drop_last() =~= Seq::<char>::empty());
        assert(digits_val(Seq::<char>::empty()) == 0);
        assert(digits_val(seq![digit_char(n)]) == digit_val(digit_char(n)));
    } else {
        lemma_digits_val_of_dec(n / 10);
        let s = spec_dec(n);
        assert(s.drop_last() =~= spec_dec(n / 10));
        assert(s.last() == digit_char(n % 10));
    }
}

/// Reads a record id field. Mirrors how the store has always read ids:
/// any field that is not a plain decimal number is read as id 0.
pub fn parse_usize_or_zero(s: &str) -> (r: usize)
    ensures
        r == (match spec_parse_usize(s@) {
            Some(v) => v,
            None => 0,
        }),
{
    let len = s.unicode_len();
    let ghost body = if s@.len() >= 1 && s@[0] == '+' {
        s@.skip(1)
    } else {
        s@
    };
    let mut i: usize = 0;
    if len >= 1 && s.get_char(0) == '+' {
        i = 1;
    }
    let ghost start = i as int;
    if i >= len {
        proof {
            if start == 0 {
                assert(body =~= s@.skip(0));
            }
            assert(body.len() == 0);
        }
        return 0;
    }
    proof {
        if start == 0 {
            assert(body =~= s@.skip(0));
            assert(s@.skip(0) =~= s@);
        }
    }
    let mut acc: usize = 0;
    while i < len
        invariant
            len == s@.len(),
            start <= i <= len,
            start < len,
            start == 0 || start == 1,
            body == (if s@.len() >= 1 && s@[0] == '+' {
                s@.skip(1)
            } else {
                s@
            }),
            body == s@.skip(start),
            all_digits(body.take(i - start)),
            acc == digits_val(body.take(i - start)),
        decreases len - i,
    {
        let c = s.get_char(i);
        let cv = c as u32;
        if cv < 48 || cv > 57 {
            proof {
                assert(body[i - start] == c);
                assert(!is_digit(body[i - start]));
                assert(!all_digits(body));
            }
            return 0;
        }
        let d = (cv - 48) as usize;
        proof {
            assert(body.take(i + 1 - start).drop_last() =~= body.take(i - start));
            assert(body.take(i + 1 - start).last() == c);
        }
        if acc > (usize::MAX - d) / 10 {
            proof {
                assert(digits_val(body.take(i + 1 - start)) > usize::MAX);
                if all_digits(body) {
                    lemma_digits_val_prefix_le(body, i + 1 - start);
                }
            }
            return 0;
        }
        acc = acc * 10 + d;
        i += 1;
    }
    proof {
        assert(body.take(len - start) =~= body);
    }
    acc
}

/// A longer all-digit prefix never writes a smaller number.
proof fn lemma_digits_val_prefix_le(s: Seq<char>, k: int)
    requires
        0 <= k <= s.len(),
        all_digits(s),
    ensures
        digits_val(s.take(k)) <= digits_val(s),
        digits_val(s) >= 0,
    decreases s.len() - k,
{
    lemma_digits_val_nonneg(s.take(k));
    if k == s.len() {
        assert(s.take(k) =~= s);
        lemma_digits_val_nonneg(s);
    } else {
        lemma_digits_val_prefix_le(s, k + 1);
        assert(s.take(k + 1).drop_last() =~= s.take(k));
        assert(is_digit(s.take(k + 1).last()));
        lemma_digits_val_nonneg(s.take(k));
    }
}

proof fn lemma_digits_val_nonneg(s: Seq<char>)
    requires
        all_digits(s),
    ensures
        digits_val(s) >= 0,
    decreases s.len(),
{
    if s.len() > 0 {
        assert(all_digits(s.drop_last()));
        lemma_digits_val_nonneg(s.drop_last());
    }
}

} // verus!

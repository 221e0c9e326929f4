//! Decimal text for machine integers, and parsing of digit strings, with
//! exact character-level specifications.

use vstd::prelude::*;

verus! {

/// The decimal digit character for `d` (`d < 10`).
pub open spec fn digit_char(d: nat) -> char {
    if d == 0 {
        '0'
    } else if d == 1 {
        '1'
    } else if d == 2 {
        '2'
    } else if d == 3 {
        '3'
    } else if d == 4 {
        '4'
    } else if d == 5 {
        '5'
    } else if d == 6 {
        '6'
    } else if d == 7 {
        '7'
    } else if d == 8 {
        '8'
    } else {
        '9'
    }
}

/// The decimal digits of `n`, most significant first, with no leading zeros
/// (a single `'0'` for zero).
pub open spec fn dec_digits(n: nat) -> Seq<char>
    decreases n,
{
    if n < 10 {
        seq![digit_char(n)]
    } else {
        dec_digits(n / 10) + seq![digit_char(n % 10)]
    }
}

/// The decimal text of a signed integer: a minus sign before the digits of
/// the magnitude when negative.
pub open spec fn dec_text(n: int) -> Seq<char> {
    if n < 0 {
        seq!['-'] + dec_digits((-n) as nat)
    } else {
        dec_digits(n as nat)
    }
}

/// Is `c` an ASCII decimal digit?
pub open spec fn is_digit_char(c: char) -> bool {
    48 <= c as u32 <= 57
}

/// The numeric value of one digit character.
pub open spec fn digit_val(c: char) -> nat
    recommends
        is_digit_char(c),
{
    (c as u32 - 48) as nat
}

/// The value of a digit string read in base ten.
pub open spec fn dec_val(s: Seq<char>) -> nat
    decreases s.len(),
{
    if s.len() == 0 {
        0
    } else {
        dec_val(s.drop_last()) * 10 + digit_val(s.last())
    }
}

fn digit_str(d: u64) -> (r: &'static str)
    requires
        d < 10,
    ensures
        r@ == seq![digit_char(d as nat)],
{
    proof {
        reveal_strlit("0");
        reveal_strlit("1");
        reveal_strlit("2");
        reveal_strlit("3");
        reveal_strlit("4");
        reveal_strlit("5");
        reveal_strlit("6");
        reveal_strlit("7");
        reveal_strlit("8");
        reveal_strlit("9");
    }
    let r = match d {
        0 => "0",
        1 => "1",
        2 => "2",
        3 => "3",
        4 => "4",
        5 => "5",
        6 => "6",
        7 => "7",
        8 => "8",
        _ => "9",
    };
    proof {
        assert(r@ =~= seq![digit_char(d as nat)]);
    }
    r
}

/// Render an unsigned integer in decimal.
pub fn u64_to_dec(n: u64) -> (r: String)
    ensures
        r@ == dec_digits(n as nat),
{
    let mut rest: Vec<u64> = Vec::new();
    let mut m = n;
    while m >= 10
        invariant
            dec_digits(n as nat) == dec_digits(m as nat) + Seq::new(
                rest@.len(),
                |j: int| digit_char(rest@[rest@.len() - 1 - j] as nat),
            ),
            forall|j: int| 0 <= j < rest@.len() ==> rest@[j] < 10,
        decreases m,
    {
        let ghost old_rest = rest@;
        rest.push(m % 10);
        proof {
            assert(dec_digits(m as nat) == dec_digits((m / 10) as nat) + seq![
                digit_char((m % 10) as nat),
            ]);
            assert(Seq::new(
                rest@.len(),
                |j: int| digit_char(rest@[rest@.len() - 1 - j] as nat),
            ) =~= seq![digit_char((m % 10) as nat)] + Seq::new(
                old_rest.len(),
                |j: int| digit_char(old_rest[old_rest.len() - 1 - j] as nat),
            ));
            assert(dec_digits(n as nat) =~= dec_digits((m / 10) as nat) + Seq::new(
                rest@.len(),
                |j: int| digit_char(rest@[rest@.len() - 1 - j] as nat),
            ));
        }
        m = m / 10;
    }
    let mut out = String::new();
    out.append(digit_str(m));
    let mut k = rest.len();
    while k > 0
        invariant
            k <= rest@.len(),
            forall|j: int| 0 <= j < rest@.len() ==> rest@[j] < 10,
            out@ == dec_digits(m as nat) + Seq::new(
                (rest@.len() - k) as nat,
                |j: int| digit_char(rest@[rest@.len() - 1 - j] as nat),
            ),
        decreases k,
    {
        let ghost old_out = out@;
        k = k - 1;
        out.append(digit_str(rest[k]));
        proof {
            assert(out@ =~= dec_digits(m as nat) + Seq::new(
                (rest@.len() - k) as nat,
                |j: int| digit_char(rest@[rest@.len() - 1 - j] as nat),
            ));
        }
    }
    proof {
        assert(out@ =~= dec_digits(n as nat));
    }
    out
}

/// Render a signed integer in decimal, with a leading minus when negative.
pub fn i64_to_dec(n: i64) -> (r: String)
    ensures
        r@ == dec_text(n as int),
{
    if n >= 0 {
        u64_to_dec(n as u64)
    } else {
        let wide: i128 = n as i128;
        let mag: u64 = (-wide) as u64;
        proof {
            reveal_strlit("-");
        }
        let mut out = String::new();
        out.append("-");
        proof {
            assert(out@ =~= seq!['-']);
        }
        out.append(u64_to_dec(mag).as_str());
        proof {
            assert(out@ =~= dec_text(n as int));
        }
        out
    }
}

proof fn lemma_dec_val_prefix_le(s: Seq<char>, i: int)
    requires
        0 <= i <= s.len(),
    ensures
        dec_val(s.take(i)) <= dec_val(s),
    decreases s.len() - i,
{
    if i < s.len() {
        lemma_dec_val_prefix_le(s, i + 1);
        let t = s.take(i + 1);
        assert(t.drop_last() =~= s.take(i));
        assert(dec_val(s.take(i + 1)) == dec_val(s.take(i)) * 10 + digit_val(t.last()));
    } else {
        assert(s.take(i) =~= s);
    }
}

/// Read a digit string as an `i64`; `None` exactly when the value does not
/// fit.
pub fn parse_i64_digits(digs: &Vec<char>) -> (r: Option<i64>)
    requires
        forall|j: int| 0 <= j < digs@.len() ==> is_digit_char(#[trigger] digs@[j]),
    ensures
        match r {
            Some(v) => dec_val(digs@) <= i64::MAX && v as int == dec_val(digs@),
            None => dec_val(digs@) > i64::MAX,
        },
{
    let n = digs.len();
    let mut acc: i64 = 0;
    let mut i: usize = 0;
    while i < n
        invariant
            0 <= i <= n,
            n == digs@.len(),
            forall|j: int| 0 <= j < digs@.len() ==> is_digit_char(#[trigger] digs@[j]),
            0 <= acc,
            acc as int == dec_val(digs@.take(i as int)),
        decreases n - i,
    {
        let d: u32 = (digs[i] as u32) - 48;
        let step = match acc.checked_mul(10) {
            Some(t) => t.checked_add(d as i64),
            None => None,
        };
        proof {
            assert(digs@.take(i + 1).drop_last() =~= digs@.take(i as int));
            assert(dec_val(digs@.take(i + 1)) == dec_val(digs@.take(i as int)) * 10 + digit_val(
                digs@[i as int],
            ));
        }
        match step {
            Some(v) => {
                acc = v;
            },
            None => {
                proof {
                    lemma_dec_val_prefix_le(digs@, i + 1);
                }
                return None;
            },
        }
        i += 1;
    }
    proof {
        assert(digs@.take(n as int) =~= digs@);
    }
    Some(acc)
}

} // verus!

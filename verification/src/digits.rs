//! Decimal rendering and parsing for the storage codec and record ids,
//! proved to be mutually inverse.

use vstd::prelude::*;

verus! {

pub open spec fn pow10(w: nat) -> nat
    decreases w,
{
    if w == 0 {
        1
    } else {
        10 * pow10((w - 1) as nat)
    }
}

pub open spec fn spec_digit_char(d: nat) -> char {
    if d == 0 {
        '0'
    } else if d == 1 {
        '1'
    } else if d == 2 {
        '2'
    } else if d == 3 {
        '3'
    } else if d == 4 {
        '4'
    } else if d == 5 {
        '5'
    } else if d == 6 {
        '6'
    } else if d == 7 {
        '7'
    } else if d == 8 {
        '8'
    } else {
        '9'
    }
}

pub open spec fn spec_is_digit(c: char) -> bool {
    '0' <= c && c <= '9'
}

pub open spec fn spec_digit_val(c: char) -> nat {
    (c as u32 - '0' as u32) as nat
}

pub open spec fn spec_all_digits(s: Seq<char>) -> bool {
    forall|i: int| 0 <= i < s.len() ==> spec_is_digit(#[trigger] s[i])
}

/// `n` written as exactly `w` decimal digits, zero padded, most significant
/// first; only the `w` low digits when `n` does not fit.
pub open spec fn spec_dec_fixed(n: nat, w: nat) -> Seq<char>
    decreases w,
{
    if w == 0 {
        Seq::empty()
    } else {
        spec_dec_fixed(n / 10, (w - 1) as nat) + seq![spec_digit_char(n % 10)]
    }
}

/// The value of a digit string folded onto an accumulator, left to right.
pub open spec fn spec_dec_val(s: Seq<char>, acc: nat) -> nat
    decreases s.len(),
{
    if s.len() == 0 {
        acc
    } else {
        spec_dec_val(s.drop_first(), acc * 10 + spec_digit_val(s[0]))
    }
}

pub proof fn lemma_digit_char_val(d: nat)
    requires
        d < 10,
    ensures
        spec_is_digit(spec_digit_char(d)),
        spec_digit_val(spec_digit_char(d)) == d,
{
}

pub proof fn lemma_dec_val_singleton(c: char, acc: nat)
    ensures
        spec_dec_val(seq![c], acc) == acc * 10 + spec_digit_val(c),
{
    let s1 = seq![c];
    assert(s1.drop_first() =~= Seq::<char>::empty());
    assert(spec_dec_val(s1.drop_first(), acc * 10 + spec_digit_val(c)) == acc * 10
        + spec_digit_val(c));
    assert(spec_dec_val(s1, acc) == spec_dec_val(s1.drop_first(), acc * 10 + spec_digit_val(
        s1[0],
    )));
}

pub proof fn lemma_dec_val_concat(a: Seq<char>, b: Seq<char>, acc: nat)
    ensures
        spec_dec_val(a + b, acc) == spec_dec_val(b, spec_dec_val(a, acc)),
    decreases a.len(),
{
    if a.len() == 0 {
        assert(a + b =~= b);
    } else {
        assert((a + b).drop_first() =~= a.drop_first() + b);
        lemma_dec_val_concat(a.drop_first(), b, acc * 10 + spec_digit_val(a[0]));
    }
}

pub proof fn lemma_dec_fixed_len(n: nat, w: nat)
    ensures
        spec_dec_fixed(n, w).len() == w,
        spec_all_digits(spec_dec_fixed(n, w)),
    decreases w,
{
    if w > 0 {
        lemma_dec_fixed_len(n / 10, (w - 1) as nat);
        lemma_digit_char_val(n % 10);
        let s = spec_dec_fixed(n, w);
        let a = spec_dec_fixed(n / 10, (w - 1) as nat);
        assert(forall|i: int| 0 <= i < w - 1 ==> s[i] == a[i]);
        assert(s[w - 1] == spec_digit_char(n % 10));
    }
}

/// Reading back a fixed-width rendering restores the value.
pub proof fn lemma_dec_val_of_fixed(n: nat, w: nat, acc: nat)
    requires
        n < pow10(w),
    ensures
        spec_dec_val(spec_dec_fixed(n, w), acc) == acc * pow10(w) + n,
    decreases w,
{
    if w == 0 {
    } else {
        let a = spec_dec_fixed(n / 10, (w - 1) as nat);
        let d = seq![spec_digit_char(n % 10)];
        assert(n / 10 < pow10((w - 1) as nat)) by (nonlinear_arith)
            requires
                n < pow10(w),
                pow10(w) == 10 * pow10((w - 1) as nat),
        ;
        lemma_dec_val_of_fixed(n / 10, (w - 1) as nat, acc);
        lemma_dec_val_concat(a, d, acc);
        lemma_digit_char_val(n % 10);
        lemma_dec_val_singleton(spec_digit_char(n % 10), spec_dec_val(a, acc));
        assert(spec_dec_val(d, spec_dec_val(a, acc)) == spec_dec_val(a, acc) * 10 + n % 10);
        assert((acc * pow10((w - 1) as nat) + n / 10) * 10 + n % 10 == acc * pow10(w) + n)
            by (nonlinear_arith)
            requires
                pow10(w) == 10 * pow10((w - 1) as nat),
        ;
    }
}

/// Folding digits can only grow the accumulator's contribution.
pub proof fn lemma_dec_val_lower_bound(s: Seq<char>, acc: nat)
    ensures
        spec_dec_val(s, acc) >= acc * pow10(s.len()),
    decreases s.len(),
{
    if s.len() == 0 {
        assert(pow10(0) == 1);
    } else {
        let acc2 = acc * 10 + spec_digit_val(s[0]);
        lemma_dec_val_lower_bound(s.drop_first(), acc2);
        assert(spec_dec_val(s, acc) == spec_dec_val(s.drop_first(), acc2));
        assert(s.drop_first().len() == (s.len() - 1) as nat);
        assert(pow10(s.len()) == 10 * pow10((s.len() - 1) as nat));
        assert(acc2 * pow10((s.len() - 1) as nat) >= acc * pow10(s.len())) by (nonlinear_arith)
            requires
                pow10(s.len()) == 10 * pow10((s.len() - 1) as nat),
                acc2 >= acc * 10,
        ;
    }
}

pub proof fn lemma_pow10_20()
    ensures
        pow10(20) > u64::MAX,
{
    reveal_with_fuel(pow10, 21);
}

fn digit_char(d: u64) -> (r: char)
    requires
        d < 10,
    ensures
        r == spec_digit_char(d as nat),
{
    match d {
        0 => '0',
        1 => '1',
        2 => '2',
        3 => '3',
        4 => '4',
        5 => '5',
        6 => '6',
        7 => '7',
        8 => '8',
        _ => '9',
    }
}

/// `n` as exactly `w` zero-padded decimal digits.
pub fn dec_fixed(n: u64, w: usize) -> (r: Vec<char>)
    requires
        (n as nat) < pow10(w as nat),
    ensures
        r@ == spec_dec_fixed(n as nat, w as nat),
    decreases w,
{
    if w == 0 {
        Vec::new()
    } else {
        let mut v = dec_fixed(n / 10, w - 1);
        proof {
            assert(((n / 10) as nat) < pow10((w - 1) as nat)) by (nonlinear_arith)
                requires
                    (n as nat) < pow10(w as nat),
                    pow10(w as nat) == 10 * pow10((w - 1) as nat),
            ;
        }
        v.push(digit_char(n % 10));
        proof {
            assert(v@ =~= spec_dec_fixed(n as nat, w as nat));
        }
        v
    }
}

fn digit_val(c: char) -> (r: Option<u64>)
    ensures
        match r {
            Some(d) => spec_is_digit(c) && d < 10 && d as nat == spec_digit_val(c),
            None => !spec_is_digit(c),
        },
{
    let n = c as u32;
    if 0x30 <= n && n <= 0x39 {
        Some((n - 0x30) as u64)
    } else {
        None
    }
}

/// Parses the `w` characters at `start` as a decimal number. `None` when a
/// character is not a digit or the value does not fit in a `u64`.
pub fn parse_dec_fixed(s: &Vec<char>, start: usize, w: usize) -> (r: Option<u64>)
    requires
        start + w <= s@.len(),
    ensures
        ({
            let digits = s@.subrange(start as int, start as int + w as int);
            match r {
                Some(v) => spec_all_digits(digits) && spec_dec_val(digits, 0) == v as nat,
                None => !(spec_all_digits(digits) && spec_dec_val(digits, 0) <= u64::MAX as nat),
            }
        }),
{
    let ghost digits = s@.subrange(start as int, start as int + w as int);
    let slen = s.len();
    let mut acc: u64 = 0;
    let mut j: usize = 0;
    proof {
        assert(digits.take(0) =~= Seq::<char>::empty());
    }
    while j < w
        invariant
            start + w <= slen,
            slen == s@.len(),
            j <= w,
            digits == s@.subrange(start as int, start as int + w as int),
            spec_all_digits(digits.take(j as int)),
            spec_dec_val(digits.take(j as int), 0) == acc as nat,
        decreases w - j,
    {
        let c = s[start + j];
        proof {
            assert(digits[j as int] == s@[start + j]);
        }
        match digit_val(c) {
            None => {
                proof {
                    if spec_all_digits(digits) {
                        assert(spec_is_digit(digits[j as int]));
                        assert(false);
                    }
                }
                return None;
            },
            Some(d) => {
                if acc > (u64::MAX - d) / 10 {
                    proof {
                        let pref = digits.take(j + 1);
                        lemma_dec_val_concat(digits.take(j as int), seq![digits[j as int]], 0);
                        assert(digits.take(j as int) + seq![digits[j as int]] =~= pref);
                        lemma_dec_val_singleton(digits[j as int], acc as nat);
                        let v1 = (acc as nat) * 10 + (d as nat);
                        assert(spec_dec_val(seq![digits[j as int]], acc as nat) == v1);
                        assert(v1 > u64::MAX as nat) by (nonlinear_arith)
                            requires
                                acc > (u64::MAX - d) / 10,
                                d < 10,
                                v1 == (acc as nat) * 10 + (d as nat),
                        ;
                        assert(spec_dec_val(pref, 0) == v1);
                        if spec_all_digits(digits) && spec_dec_val(digits, 0) <= u64::MAX as nat {
                            assert(digits =~= pref + digits.skip(j + 1));
                            lemma_dec_val_concat(pref, digits.skip(j + 1), 0);
                            lemma_dec_val_lower_bound(digits.skip(j + 1), v1);
                            assert(pow10(digits.skip(j + 1).len()) >= 1) by {
                                lemma_pow10_pos(digits.skip(j + 1).len());
                            }
                            assert(v1 * pow10(digits.skip(j + 1).len()) >= v1) by (nonlinear_arith)
                                requires
                                    pow10(digits.skip(j + 1).len()) >= 1,
                            ;
                            assert(false);
                        }
                    }
                    return None;
                }
                proof {
                    assert((acc as nat) * 10 + (d as nat) <= u64::MAX as nat) by (nonlinear_arith)
                        requires
                            acc <= (u64::MAX - d) / 10,
                            d < 10,
                    ;
                    let pref = digits.take(j + 1);
                    lemma_dec_val_concat(digits.take(j as int), seq![digits[j as int]], 0);
                    assert(digits.take(j as int) + seq![digits[j as int]] =~= pref);
                    lemma_dec_val_singleton(digits[j as int], acc as nat);
                    assert(spec_dec_val(seq![digits[j as int]], acc as nat) == (acc as nat) * 10
                        + spec_digit_val(digits[j as int]));
                    assert(spec_dec_val(pref, 0) == (acc as nat) * 10 + (d as nat));
                }
                acc = acc * 10 + d;
            },
        }
        j = j + 1;
    }
    proof {
        assert(digits.take(w as int) =~= digits);
    }
    Some(acc)
}

pub proof fn lemma_pow10_pos(w: nat)
    ensures
        pow10(w) >= 1,
    decreases w,
{
    if w > 0 {
        lemma_pow10_pos((w - 1) as nat);
    }
}

/// `n` in its usual decimal spelling, no padding.
pub open spec fn spec_dec_str(n: nat) -> Seq<char>
    decreases n,
{
    if n < 10 {
        seq![spec_digit_char(n)]
    } else {
        spec_dec_str(n / 10) + seq![spec_digit_char(n % 10)]
    }
}

/// Renders `n` in its usual decimal spelling.
pub fn dec_str(n: u64) -> (r: Vec<char>)
    ensures
        r@ == spec_dec_str(n as nat),
    decreases n,
{
    if n < 10 {
        let mut v: Vec<char> = Vec::new();
        v.push(digit_char(n));
        proof {
            assert(v@ =~= seq![spec_digit_char(n as nat)]);
        }
        v
    } else {
        let mut v = dec_str(n / 10);
        v.push(digit_char(n % 10));
        proof {
            assert(v@ =~= spec_dec_str((n / 10) as nat) + seq![spec_digit_char(n as nat % 10)]);
        }
        v
    }
}

} // verus!

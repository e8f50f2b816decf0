//! Decimal notation for unsigned integers: the canonical digit string of a
//! number, a fixed-width zero-padded form for fractional parts, and the
//! value a digit string denotes. The argument builder, the status line and
//! the trace codec all print numbers through this module, and the trace
//! codec's replay direction rests on the inverse lemmas proved here.

use vstd::prelude::*;

use vstd::arithmetic::div_mod::lemma_fundamental_div_mod;

verus! {

/// The character for one digit value below ten.
pub open spec fn digit_char(d: nat) -> char {
    if d == 0 {
        '0'
    } else if d == 1 {
        '1'
    } else if d == 2 {
        '2'
    } else if d == 3 {
        '3'
    } else if d == 4 {
        '4'
    } else if d == 5 {
        '5'
    } else if d == 6 {
        '6'
    } else if d == 7 {
        '7'
    } else if d == 8 {
        '8'
    } else {
        '9'
    }
}

/// Whether a character is a decimal digit.
pub open spec fn is_digit_char(c: char) -> bool {
    '0' <= c <= '9'
}

/// The digit value of a digit character.
pub open spec fn digit_value(c: char) -> nat {
    (c as u32 - '0' as u32) as nat
}

/// The canonical decimal notation of a number: no sign, no leading zero
/// except for the single digit of zero itself.
pub open spec fn dec_digits(n: nat) -> Seq<char>
    decreases n,
{
    if n < 10 {
        seq![digit_char(n)]
    } else {
        dec_digits(n / 10).push(digit_char(n % 10))
    }
}

/// The decimal notation of a number zero-padded on the left to a fixed
/// width; digits beyond the width are cut off.
pub open spec fn padded_digits(n: nat, width: nat) -> Seq<char>
    decreases width,
{
    if width == 0 {
        Seq::empty()
    } else {
        padded_digits(n / 10, (width - 1) as nat).push(digit_char(n % 10))
    }
}

/// The number a digit string denotes, most significant digit first.
pub open spec fn dec_value(s: Seq<char>) -> nat
    decreases s.len(),
{
    if s.len() == 0 {
        0
    } else {
        dec_value(s.drop_last()) * 10 + digit_value(s.last())
    }
}

/// Whether every character of the string is a decimal digit.
pub open spec fn all_digits(s: Seq<char>) -> bool {
    forall|i: int| 0 <= i < s.len() ==> is_digit_char(#[trigger] s[i])
}

/// Whether the string is the canonical decimal notation of some number:
/// at least one digit, nothing but digits, and no leading zero unless the
/// string is the single digit zero.
pub open spec fn is_canonical_dec(s: Seq<char>) -> bool {
    &&& s.len() >= 1
    &&& all_digits(s)
    &&& (s[0] != '0' || s.len() == 1)
}

/// Canonical decimal notation consists of digits, starts with a nonzero
/// digit unless it is the single zero digit, and is never empty.
pub proof fn lemma_dec_digits_canonical(n: nat)
    ensures
        is_canonical_dec(dec_digits(n)),
        dec_digits(n)[0] == '0' ==> n == 0,
    decreases n,
{
    if n < 10 {
        assert(dec_digits(n) == seq![digit_char(n)]);
        assert(is_digit_char(digit_char(n)));
    } else {
        lemma_dec_digits_canonical(n / 10);
        let pre = dec_digits(n / 10);
        let s = pre.push(digit_char(n % 10));
        assert(is_digit_char(digit_char(n % 10)));
        assert(forall|i: int| 0 <= i < s.len() ==> is_digit_char(#[trigger] s[i]));
        assert(s[0] == pre[0]);
    }
}

/// Fixed-width notation has exactly its width of digits.
pub proof fn lemma_padded_digits_shape(n: nat, width: nat)
    ensures
        padded_digits(n, width).len() == width,
        all_digits(padded_digits(n, width)),
    decreases width,
{
    if width > 0 {
        lemma_padded_digits_shape(n / 10, (width - 1) as nat);
        let s = padded_digits(n, width);
        assert(is_digit_char(digit_char(n % 10)));
        assert(forall|i: int| 0 <= i < s.len() ==> is_digit_char(#[trigger] s[i]));
    }
}

/// The value of the canonical notation of a number is the number itself.
pub proof fn lemma_dec_value_of_digits(n: nat)
    ensures
        dec_value(dec_digits(n)) == n,
    decreases n,
{
    if n < 10 {
        let s = dec_digits(n);
        assert(s.drop_last() =~= Seq::<char>::empty());
        assert(dec_value(Seq::<char>::empty()) == 0);
        assert(digit_value(digit_char(n)) == n);
    } else {
        lemma_dec_value_of_digits(n / 10);
        let pre = dec_digits(n / 10);
        let s = pre.push(digit_char(n % 10));
        assert(s.drop_last() =~= pre);
        assert(s.last() == digit_char(n % 10));
        assert(digit_value(digit_char(n % 10)) == n % 10);
        lemma_fundamental_div_mod(n as int, 10);
    }
}

/// The value of a fixed-width notation is the number itself, provided the
/// number fits the width.
pub proof fn lemma_padded_value_of_digits(n: nat, width: nat)
    requires
        n < pow10(width),
    ensures
        dec_value(padded_digits(n, width)) == n,
    decreases width,
{
    if width == 0 {
        assert(pow10(0) == 1);
    } else {
        assert(pow10(width) == 10 * pow10((width - 1) as nat));
        assert(n / 10 < pow10((width - 1) as nat)) by (nonlinear_arith)
            requires
                n < 10 * pow10((width - 1) as nat),
                pow10((width - 1) as nat) >= 0,
        ;
        lemma_padded_value_of_digits(n / 10, (width - 1) as nat);
        let pre = padded_digits(n / 10, (width - 1) as nat);
        let s = pre.push(digit_char(n % 10));
        assert(s.drop_last() =~= pre);
        assert(digit_value(digit_char(n % 10)) == n % 10);
        lemma_fundamental_div_mod(n as int, 10);
    }
}

/// Ten to a power.
pub open spec fn pow10(e: nat) -> nat
    decreases e,
{
    if e == 0 {
        1
    } else {
        10 * pow10((e - 1) as nat)
    }
}

/// Ten to the ninth power, spelled out.
pub proof fn lemma_pow10_9()
    ensures
        pow10(9) == 1_000_000_000,
{
    reveal_with_fuel(pow10, 10);
}

/// A digit character's value is below ten, and taking the character of
/// that value gives the character back.
pub proof fn lemma_digit_char_value(c: char)
    requires
        is_digit_char(c),
    ensures
        digit_value(c) < 10,
        digit_char(digit_value(c)) == c,
{
}

/// A canonical digit string is the canonical notation of its own value:
/// notation and value are inverse to one another.
pub proof fn lemma_digits_of_dec_value(s: Seq<char>)
    requires
        is_canonical_dec(s),
    ensures
        dec_digits(dec_value(s)) == s,
    decreases s.len(),
{
    if s.len() == 1 {
        lemma_digit_char_value(s[0]);
        assert(s.drop_last() =~= Seq::<char>::empty());
        assert(dec_value(Seq::<char>::empty()) == 0);
        assert(s.last() == s[0]);
        assert(dec_value(s) == digit_value(s[0]));
        assert(dec_digits(dec_value(s)) =~= seq![digit_char(digit_value(s[0]))]);
    } else {
        let pre = s.drop_last();
        assert(pre[0] == s[0]);
        assert(forall|i: int| 0 <= i < pre.len() ==> is_digit_char(#[trigger] pre[i]));
        lemma_digits_of_dec_value(pre);
        lemma_nonzero_leading_value(pre);
        lemma_digit_char_value(s.last());
        let v = dec_value(s);
        assert(v == dec_value(pre) * 10 + digit_value(s.last()));
        assert(v >= 10) by (nonlinear_arith)
            requires
                dec_value(pre) >= 1,
                digit_value(s.last()) >= 0,
                v == dec_value(pre) * 10 + digit_value(s.last()),
        ;
        assert(v / 10 == dec_value(pre) && v % 10 == digit_value(s.last())) by (nonlinear_arith)
            requires
                v == dec_value(pre) * 10 + digit_value(s.last()),
                digit_value(s.last()) < 10,
        ;
        assert(dec_digits(v) =~= dec_digits(dec_value(pre)).push(digit_char(v % 10)));
        assert(dec_digits(v) =~= s);
    }
}

/// A digit string that starts with a nonzero digit denotes a nonzero value.
pub proof fn lemma_nonzero_leading_value(s: Seq<char>)
    requires
        s.len() >= 1,
        all_digits(s),
        s[0] != '0',
    ensures
        dec_value(s) >= 1,
    decreases s.len(),
{
    if s.len() == 1 {
        lemma_digit_char_value(s[0]);
        assert(s.drop_last() =~= Seq::<char>::empty());
        assert(digit_value(s[0]) >= 1);
    } else {
        let pre = s.drop_last();
        assert(pre[0] == s[0]);
        assert(forall|i: int| 0 <= i < pre.len() ==> is_digit_char(#[trigger] pre[i]));
        lemma_nonzero_leading_value(pre);
        assert(dec_value(s) >= dec_value(pre) * 10) by (nonlinear_arith)
            requires
                dec_value(s) == dec_value(pre) * 10 + digit_value(s.last()),
                digit_value(s.last()) >= 0,
        ;
        assert(dec_value(pre) * 10 >= 10) by (nonlinear_arith)
            requires
                dec_value(pre) >= 1,
        ;
    }
}

/// A fixed-width digit string is the fixed-width notation of its own
/// value.
pub proof fn lemma_padded_of_dec_value(s: Seq<char>, width: nat)
    requires
        s.len() == width,
        all_digits(s),
    ensures
        padded_digits(dec_value(s), width) == s,
        dec_value(s) < pow10(width),
    decreases width,
{
    if width == 0 {
        assert(s =~= Seq::<char>::empty());
        assert(padded_digits(0, 0) =~= Seq::<char>::empty());
    } else {
        let pre = s.drop_last();
        assert(forall|i: int| 0 <= i < pre.len() ==> is_digit_char(#[trigger] pre[i]));
        lemma_padded_of_dec_value(pre, (width - 1) as nat);
        lemma_digit_char_value(s.last());
        let v = dec_value(s);
        assert(v == dec_value(pre) * 10 + digit_value(s.last()));
        assert(v / 10 == dec_value(pre) && v % 10 == digit_value(s.last())) by (nonlinear_arith)
            requires
                v == dec_value(pre) * 10 + digit_value(s.last()),
                digit_value(s.last()) < 10,
        ;
        assert(pow10(width) == 10 * pow10((width - 1) as nat));
        assert(v < pow10(width)) by (nonlinear_arith)
            requires
                v == dec_value(pre) * 10 + digit_value(s.last()),
                digit_value(s.last()) < 10,
                dec_value(pre) < pow10((width - 1) as nat),
                pow10(width) == 10 * pow10((width - 1) as nat),
        ;
        assert(padded_digits(v, width) =~= padded_digits(dec_value(pre), (width - 1) as nat).push(
            digit_char(v % 10),
        ));
        assert(padded_digits(v, width) =~= s);
    }
}

/// A prefix of a digit string never denotes more than the whole string.
pub proof fn lemma_dec_value_prefix_le(s: Seq<char>, m: int)
    requires
        0 <= m <= s.len(),
    ensures
        dec_value(s.subrange(0, m)) <= dec_value(s),
    decreases s.len() - m,
{
    if m == s.len() {
        assert(s.subrange(0, m) =~= s);
    } else {
        lemma_dec_value_prefix_le(s, m + 1);
        let p = s.subrange(0, m);
        let q = s.subrange(0, m + 1);
        assert(q.drop_last() =~= p);
        assert(dec_value(q) == dec_value(p) * 10 + digit_value(q.last()));
        assert(dec_value(p) <= dec_value(p) * 10) by (nonlinear_arith)
            requires
                dec_value(p) >= 0,
        ;
    }
}

/// The end of the digit run beginning at `i`: the first position at or
/// after `i` that is past the string or does not hold a digit.
pub open spec fn digits_end(s: Seq<char>, i: int) -> int
    decreases s.len() - i,
{
    if i < 0 || i >= s.len() {
        i
    } else if is_digit_char(s[i]) {
        digits_end(s, i + 1)
    } else {
        i
    }
}

/// The digit run beginning at `start` consists of digits and stops at the
/// end of the string or right before a non-digit.
pub proof fn lemma_digits_end(s: Seq<char>, start: int)
    requires
        0 <= start <= s.len(),
    ensures
        start <= digits_end(s, start) <= s.len(),
        forall|j: int| start <= j < digits_end(s, start) ==> is_digit_char(#[trigger] s[j]),
        digits_end(s, start) < s.len() ==> !is_digit_char(s[digits_end(s, start)]),
    decreases s.len() - start,
{
    if start < s.len() && is_digit_char(s[start]) {
        lemma_digits_end(s, start + 1);
    }
}

/// A maximal digit run pins the run's end down: digits from `start` up to
/// `k`, and `k` past the string or not a digit, mean the run ends at `k`.
pub proof fn lemma_digits_end_of_run(s: Seq<char>, start: int, k: int)
    requires
        0 <= start <= k <= s.len(),
        forall|j: int| start <= j < k ==> is_digit_char(#[trigger] s[j]),
        k < s.len() ==> !is_digit_char(s[k]),
    ensures
        digits_end(s, start) == k,
    decreases k - start,
{
    if start < k {
        lemma_digits_end_of_run(s, start + 1, k);
    }
}

/// Reads the maximal digit run beginning at `start` as a number: the run's
/// end and its value, or `None` when there is no digit at `start` or the
/// run's value exceeds `limit`.
pub fn scan_number(line: &str, start: usize, limit: u64) -> (r: Option<(usize, u64)>)
    requires
        start <= line@.len(),
        limit < 1_000_000_000_000_000_000,
    ensures
        ({
            let e = digits_end(line@, start as int);
            let run = line@.subrange(start as int, e);
            &&& (r is Some <==> e > start && dec_value(run) <= limit)
            &&& (r matches Some(p) ==> p.0 == e && p.1 == dec_value(run))
        }),
{
    let n = line.unicode_len();
    let mut i: usize = start;
    let mut acc: u64 = 0;
    proof {
        assert(line@.subrange(start as int, start as int) =~= Seq::<char>::empty());
        assert(dec_value(Seq::<char>::empty()) == 0);
    }
    loop
        invariant
            start <= i <= n == line@.len(),
            limit < 1_000_000_000_000_000_000,
            forall|j: int| start <= j < i ==> is_digit_char(#[trigger] line@[j]),
            acc == dec_value(line@.subrange(start as int, i as int)),
            acc <= limit,
        decreases n - i,
    {
        if i == n || !is_digit_char_exec(line.get_char(i)) {
            proof {
                lemma_digits_end_of_run(line@, start as int, i as int);
            }
            if i == start {
                return None;
            }
            return Some((i, acc));
        }
        let c = line.get_char(i);
        let d = (c as u32 - 48) as u64;
        proof {
            assert(digit_value(line@[i as int]) == d);
        }
        let next = acc * 10 + d;
        proof {
            let run1 = line@.subrange(start as int, i as int + 1);
            assert(run1.drop_last() =~= line@.subrange(start as int, i as int));
            assert(run1.last() == line@[i as int]);
            assert(dec_value(run1) == next);
        }
        if next > limit {
            proof {
                lemma_digits_end(line@, start as int);
                let e = digits_end(line@, start as int);
                assert(e >= i + 1) by {
                    lemma_digits_end_of_run_lower(line@, start as int, i as int + 1);
                }
                let run = line@.subrange(start as int, e);
                assert(line@.subrange(start as int, i as int + 1) =~= run.subrange(
                    0,
                    i + 1 - start,
                ));
                lemma_dec_value_prefix_le(run, i + 1 - start as int);
            }
            return None;
        }
        acc = next;
        i = i + 1;
    }
}

/// A digit run reaching `k` means the run's end is at least `k`.
pub proof fn lemma_digits_end_of_run_lower(s: Seq<char>, start: int, k: int)
    requires
        0 <= start <= k <= s.len(),
        forall|j: int| start <= j < k ==> is_digit_char(#[trigger] s[j]),
    ensures
        digits_end(s, start) >= k,
    decreases k - start,
{
    if start < k {
        lemma_digits_end_of_run_lower(s, start + 1, k);
    } else {
        lemma_digits_end(s, start);
    }
}

/// Whether a character is a decimal digit.
pub fn is_digit_char_exec(c: char) -> (b: bool)
    ensures
        b == is_digit_char(c),
{
    '0' <= c && c <= '9'
}

/// One decimal digit as a borrowed string.
fn digit_str(d: u64) -> (s: &'static str)
    requires
        d < 10,
    ensures
        s@ == seq![digit_char(d as nat)],
{
    proof {
        reveal_strlit("0");
        reveal_strlit("1");
        reveal_strlit("2");
        reveal_strlit("3");
        reveal_strlit("4");
        reveal_strlit("5");
        reveal_strlit("6");
        reveal_strlit("7");
        reveal_strlit("8");
        reveal_strlit("9");
    }
    match d {
        0 => "0",
        1 => "1",
        2 => "2",
        3 => "3",
        4 => "4",
        5 => "5",
        6 => "6",
        7 => "7",
        8 => "8",
        _ => "9",
    }
}

/// The canonical decimal notation of a number, as a string.
pub fn u64_to_dec(n: u64) -> (s: String)
    ensures
        s@ == dec_digits(n as nat),
    decreases n,
{
    if n < 10 {
        String::from_str(digit_str(n))
    } else {
        let mut s = u64_to_dec(n / 10);
        s.append(digit_str(n % 10));
        proof {
            assert(dec_digits((n / 10) as nat) + seq![digit_char((n % 10) as nat)] =~= dec_digits(
                n as nat,
            ));
        }
        s
    }
}

/// The decimal notation of a number zero-padded on the left to a fixed
/// width, as a string; digits beyond the width are cut off.
pub fn u64_to_padded(n: u64, width: u64) -> (s: String)
    ensures
        s@ == padded_digits(n as nat, width as nat),
    decreases width,
{
    if width == 0 {
        String::new()
    } else {
        let mut s = u64_to_padded(n / 10, width - 1);
        s.append(digit_str(n % 10));
        proof {
            assert(padded_digits((n / 10) as nat, (width - 1) as nat) + seq![digit_char(
                (n % 10) as nat,
            )] =~= padded_digits(n as nat, width as nat));
        }
        s
    }
}

} // verus!

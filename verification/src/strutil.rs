//! Character-level string helpers: conversions between `String` and
//! `Vec<char>`, and a decimal encoder/parser for unsigned numbers.

use vstd::prelude::*;
use vstd::string::StrSliceExecFns;
use vstd::string::StringExecFns;

verus! {

/// Relies on `String::push`: appends exactly the one character to the string.
#[verifier::external_body]
pub fn push_char(s: &mut String, c: char)
    ensures
        final(s)@ == old(s)@ + seq![c],
{
    s.push(c);
}

/// Collect the characters of a string slice into a vector.
pub fn str_chars(s: &str) -> (r: Vec<char>)
    ensures
        r@ == s@,
{
    let n = s.unicode_len();
    let mut v: Vec<char> = Vec::new();
    let mut i: usize = 0;
    while i < n
        invariant
            i <= n,
            n == s@.len(),
            v@ == s@.subrange(0, i as int),
        decreases n - i,
    {
        let c = s.get_char(i);
        v.push(c);
        proof {
            assert(v@ =~= s@.subrange(0, i + 1));
        }
        i += 1;
    }
    proof {
        assert(v@ =~= s@);
    }
    v
}

/// Build a string out of a character range of a vector.
pub fn chars_string(v: &Vec<char>, from: usize, to: usize) -> (r: String)
    requires
        from <= to <= v@.len(),
    ensures
        r@ == v@.subrange(from as int, to as int),
{
    let mut s = String::new();
    let mut i: usize = from;
    while i < to
        invariant
            from <= i <= to <= v@.len(),
            s@ == v@.subrange(from as int, i as int),
        decreases to - i,
    {
        push_char(&mut s, v[i]);
        proof {
            assert(s@ =~= v@.subrange(from as int, i + 1));
        }
        i += 1;
    }
    s
}

/// The ten decimal digit characters.
pub open spec fn is_digit(c: char) -> bool {
    c == '0' || c == '1' || c == '2' || c == '3' || c == '4' || c == '5' || c == '6' || c == '7'
        || c == '8' || c == '9'
}

/// The numeric value of a digit character.
pub open spec fn digit_val(c: char) -> nat {
    if c == '0' {
        0
    } else if c == '1' {
        1
    } else if c == '2' {
        2
    } else if c == '3' {
        3
    } else if c == '4' {
        4
    } else if c == '5' {
        5
    } else if c == '6' {
        6
    } else if c == '7' {
        7
    } else if c == '8' {
        8
    } else {
        9
    }
}

/// The digit character for a value below ten.
pub open spec fn digit_char(d: int) -> char {
    if d == 0 {
        '0'
    } else if d == 1 {
        '1'
    } else if d == 2 {
        '2'
    } else if d == 3 {
        '3'
    } else if d == 4 {
        '4'
    } else if d == 5 {
        '5'
    } else if d == 6 {
        '6'
    } else if d == 7 {
        '7'
    } else if d == 8 {
        '8'
    } else {
        '9'
    }
}

/// The usual decimal rendering of `n`, most significant digit first.
pub open spec fn dec_digits(n: nat) -> Seq<char>
    decreases n,
{
    if n < 10 {
        seq![digit_char(n as int)]
    } else {
        dec_digits(n / 10).push(digit_char((n % 10) as int))
    }
}

/// The value of a digit sequence read most significant digit first.
pub open spec fn seq_val(ds: Seq<char>) -> nat
    decreases ds.len(),
{
    if ds.len() == 0 {
        0
    } else {
        seq_val(ds.drop_last()) * 10 + digit_val(ds.last())
    }
}

/// Ten to the `k`.
pub open spec fn pow10(k: nat) -> nat
    decreases k,
{
    if k == 0 {
        1nat
    } else {
        10 * pow10((k - 1) as nat)
    }
}

/// Decimal renderings consist of digits, are never empty, and read back
/// as the number they render.
pub proof fn lemma_dec_digits_props(n: nat)
    ensures
        dec_digits(n).len() >= 1,
        forall|k: int| 0 <= k < dec_digits(n).len() ==> is_digit(#[trigger] dec_digits(n)[k]),
        seq_val(dec_digits(n)) == n,
        n < pow10(dec_digits(n).len()),
    decreases n,
{
    if n < 10 {
        assert(seq_val(dec_digits(n)) == seq_val(Seq::<char>::empty()) * 10 + digit_val(
            digit_char(n as int),
        )) by {
            assert(dec_digits(n).drop_last() =~= Seq::<char>::empty());
        }
        assert(pow10(1) == 10 * pow10(0) == 10);
    } else {
        lemma_dec_digits_props(n / 10);
        let pre = dec_digits(n / 10);
        let whole = dec_digits(n);
        assert(whole.drop_last() =~= pre);
        assert(seq_val(whole) == (n / 10) * 10 + (n % 10));
        assert((n / 10) * 10 + (n % 10) == n) by (nonlinear_arith);
        assert(n < pow10(whole.len())) by {
            assert(n / 10 < pow10(pre.len()));
            assert(n < 10 * pow10(pre.len())) by (nonlinear_arith)
                requires
                    n / 10 < pow10(pre.len()),
                    n >= 10,
            ;
        }
    }
}

/// One digit as a borrowed string.
fn digit_str(d: u64) -> (r: &'static str)
    requires
        d < 10,
    ensures
        r@ =~= seq![digit_char(d as int)],
{
    if d == 0 {
        proof {
            reveal_strlit("0");
        }
        "0"
    } else if d == 1 {
        proof {
            reveal_strlit("1");
        }
        "1"
    } else if d == 2 {
        proof {
            reveal_strlit("2");
        }
        "2"
    } else if d == 3 {
        proof {
            reveal_strlit("3");
        }
        "3"
    } else if d == 4 {
        proof {
            reveal_strlit("4");
        }
        "4"
    } else if d == 5 {
        proof {
            reveal_strlit("5");
        }
        "5"
    } else if d == 6 {
        proof {
            reveal_strlit("6");
        }
        "6"
    } else if d == 7 {
        proof {
            reveal_strlit("7");
        }
        "7"
    } else if d == 8 {
        proof {
            reveal_strlit("8");
        }
        "8"
    } else {
        proof {
            reveal_strlit("9");
        }
        "9"
    }
}

/// Render `n` in decimal.
pub fn u64_to_dec(n: u64) -> (r: String)
    ensures
        r@ == dec_digits(n as nat),
    decreases n,
{
    if n < 10 {
        let r = String::from_str(digit_str(n));
        proof {
            assert(r@ =~= dec_digits(n as nat));
        }
        r
    } else {
        let mut s = u64_to_dec(n / 10);
        s.append(digit_str(n % 10));
        proof {
            assert(s@ =~= dec_digits(n as nat));
        }
        s
    }
}

/// Where the run of digits beginning at `start` ends.
pub open spec fn digit_run_end(s: Seq<char>, start: int) -> int
    decreases s.len() - start,
{
    if start < 0 || start >= s.len() || !is_digit(s[start]) {
        start
    } else {
        digit_run_end(s, start + 1)
    }
}

/// The run end lies between `start` and the end of the sequence, digits
/// fill the run, and a non-digit (or the end) follows it.
pub proof fn lemma_digit_run_end_props(s: Seq<char>, start: int)
    requires
        0 <= start <= s.len(),
    ensures
        start <= digit_run_end(s, start) <= s.len(),
        forall|k: int| start <= k < digit_run_end(s, start) ==> is_digit(#[trigger] s[k]),
        digit_run_end(s, start) < s.len() ==> !is_digit(s[digit_run_end(s, start)]),
    decreases s.len() - start,
{
    if start < s.len() && is_digit(s[start]) {
        lemma_digit_run_end_props(s, start + 1);
    }
}

/// A stretch of digits up to `e`, followed by a non-digit or the end,
/// is exactly the digit run.
pub proof fn lemma_digit_run_end_of(s: Seq<char>, start: int, e: int)
    requires
        0 <= start <= e <= s.len(),
        forall|k: int| start <= k < e ==> is_digit(#[trigger] s[k]),
        e < s.len() ==> !is_digit(s[e]),
    ensures
        digit_run_end(s, start) == e,
    decreases e - start,
{
    if start < e {
        lemma_digit_run_end_of(s, start + 1, e);
    }
}

/// What `parse_dec` accepts at `start`: a digit run of one to twenty
/// characters whose value fits an unsigned 64-bit number.
pub open spec fn spec_parse_dec(s: Seq<char>, start: int) -> Option<(nat, int)> {
    let end = digit_run_end(s, start);
    if end - start < 1 || end - start > 20 {
        None
    } else if seq_val(s.subrange(start, end)) >= 0x1_0000_0000_0000_0000 {
        None
    } else {
        Some((seq_val(s.subrange(start, end)), end))
    }
}

/// The numeric value of the digit character `c`.
fn digit_of(c: char) -> (r: u64)
    requires
        is_digit(c),
    ensures
        r == digit_val(c),
        r < 10,
{
    if c == '0' {
        0
    } else if c == '1' {
        1
    } else if c == '2' {
        2
    } else if c == '3' {
        3
    } else if c == '4' {
        4
    } else if c == '5' {
        5
    } else if c == '6' {
        6
    } else if c == '7' {
        7
    } else if c == '8' {
        8
    } else {
        9
    }
}

/// Whether `c` is a decimal digit.
fn is_digit_exec(c: char) -> (r: bool)
    ensures
        r == is_digit(c),
{
    c == '0' || c == '1' || c == '2' || c == '3' || c == '4' || c == '5' || c == '6' || c == '7'
        || c == '8' || c == '9'
}

/// Read a decimal number out of `v` beginning at `start`.
pub fn parse_dec(v: &Vec<char>, start: usize) -> (r: Option<(u64, usize)>)
    requires
        start <= v@.len(),
    ensures
        r is Some <==> spec_parse_dec(v@, start as int) is Some,
        r matches Some((n, end)) ==> spec_parse_dec(v@, start as int) == Some(
            (n as nat, end as int),
        ) && start < end <= v@.len(),
{
    proof {
        lemma_digit_run_end_props(v@, start as int);
    }
    let ghost g_end = digit_run_end(v@, start as int);
    let mut end: usize = start;
    while end < v.len() && is_digit_exec(v[end])
        invariant
            start <= end <= v@.len(),
            end <= g_end <= v@.len(),
            g_end == digit_run_end(v@, start as int),
            forall|k: int| start <= k < g_end ==> is_digit(#[trigger] v@[k]),
            g_end < v@.len() ==> !is_digit(v@[g_end]),
        decreases v@.len() - end,
    {
        end += 1;
        proof {
            if end > g_end {
                assert(is_digit(v@[g_end]));
            }
        }
    }
    proof {
        assert(end == g_end);
    }
    if end - start < 1 || end - start > 20 {
        return None;
    }
    let mut acc: u128 = 0;
    let mut i: usize = start;
    proof {
        assert(v@.subrange(start as int, start as int) =~= Seq::<char>::empty());
    }
    while i < end
        invariant
            start <= i <= end <= v@.len(),
            end - start <= 20,
            forall|k: int| start <= k < end ==> is_digit(#[trigger] v@[k]),
            acc == seq_val(v@.subrange(start as int, i as int)),
            acc < pow10((i - start) as nat),
        decreases end - i,
    {
        let d = digit_of(v[i]);
        proof {
            let pre = v@.subrange(start as int, i as int);
            let cur = v@.subrange(start as int, i + 1);
            assert(cur.drop_last() =~= pre);
            assert(cur.last() == v@[i as int]);
            assert(pow10(((i + 1) - start) as nat) == 10 * pow10((i - start) as nat));
            assert(pow10(((i + 1) - start) as nat) <= pow10(20)) by {
                lemma_pow10_le(((i + 1) - start) as nat, 20);
            }
            lemma_pow10_20();
        }
        acc = acc * 10 + (d as u128);
        i += 1;
    }
    proof {
        lemma_pow10_le((end - start) as nat, 20);
        lemma_pow10_20();
    }
    if acc >= 0x1_0000_0000_0000_0000u128 {
        None
    } else {
        Some((acc as u64, end))
    }
}

/// Ten to the twentieth, written out.
pub proof fn lemma_pow10_20()
    ensures
        pow10(20) == 0x56bc75e2d63100000,
{
    reveal_with_fuel(pow10, 21);
}

/// `pow10` grows with its argument.
pub proof fn lemma_pow10_le(a: nat, b: nat)
    requires
        a <= b,
    ensures
        pow10(a) <= pow10(b),
    decreases b,
{
    if a < b {
        lemma_pow10_le(a, (b - 1) as nat);
        assert(pow10((b - 1) as nat) <= 10 * pow10((b - 1) as nat)) by (nonlinear_arith)
            requires
                pow10((b - 1) as nat) >= 0,
        ;
        assert(pow10((b - 1) as nat) >= 1) by {
            lemma_pow10_pos((b - 1) as nat);
        }
    }
}

/// `pow10` is positive.
pub proof fn lemma_pow10_pos(k: nat)
    ensures
        pow10(k) >= 1,
    decreases k,
{
    if k > 0 {
        lemma_pow10_pos((k - 1) as nat);
    }
}

/// Parsing begins where a decimal rendering was laid down, and a non-digit
/// follows it: the parse returns exactly the rendered number.
pub proof fn lemma_parse_of_dec(s: Seq<char>, start: int, n: nat)
    requires
        n < 0x1_0000_0000_0000_0000,
        0 <= start,
        start + dec_digits(n).len() <= s.len(),
        s.subrange(start, start + dec_digits(n).len() as int) == dec_digits(n),
        start + dec_digits(n).len() < s.len() ==> !is_digit(s[start + dec_digits(n).len()]),
    ensures
        spec_parse_dec(s, start) == Some((n, start + dec_digits(n).len())),
{
    let ds = dec_digits(n);
    let e = start + ds.len();
    lemma_dec_digits_props(n);
    assert(forall|k: int| start <= k < e ==> is_digit(#[trigger] s[k])) by {
        assert(forall|k: int| start <= k < e ==> s[k] == ds[k - start] && is_digit(
            #[trigger] s[k],
        ));
    }
    lemma_digit_run_end_of(s, start, e);
    assert(s.subrange(start, e) == ds);
    assert(ds.len() <= 20) by {
        lemma_pow10_20();
        lemma_dec_len_le(n, 20);
    }
}

/// A number below ten to the `k` renders in at most `k` digits.
pub proof fn lemma_dec_len_le(n: nat, k: nat)
    requires
        1 <= k,
        n < pow10(k),
    ensures
        dec_digits(n).len() <= k,
    decreases n,
{
    if n < 10 {
    } else {
        assert(pow10(k) == 10 * pow10((k - 1) as nat));
        assert(n / 10 < pow10((k - 1) as nat));
        assert(k - 1 >= 1) by {
            if k == 1 {
                lemma_pow10_pos(0);
            }
        }
        lemma_dec_len_le(n / 10, (k - 1) as nat);
    }
}

} // verus!

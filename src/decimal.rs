//! Fixed-point decimal numbers, as written in alert coordinates.
//!
//! A coordinate is held as an integer count of ten-millionths of a degree.
//! The accepted text is an optional sign, up to eleven integer digits, and
//! optionally a point followed by any number of fraction digits, with at least
//! one digit in all (`5`, `5.`, `.5`, `-0.125`). Fraction digits after the
//! seventh are dropped: the value is truncated towards zero. Exponents, `inf`
//! and `NaN`, and more than eleven integer digits are not read.

use vstd::prelude::*;

verus! {

/// Units per whole number: seven fraction digits.
pub const SCALE: i64 = 10000000;

/// The bound (exclusive) on the magnitude of every value the grammar accepts.
pub open spec fn value_bound() -> int {
    1000000000000000000
}

pub open spec fn is_digit(c: char) -> bool {
    '0' <= c && c <= '9'
}

pub open spec fn digit_val(c: char) -> int {
    (c as int) - ('0' as int)
}

pub open spec fn digit_char(d: int) -> char {
    (d + ('0' as int)) as char
}

pub open spec fn all_digits(s: Seq<char>) -> bool {
    forall|i: int| 0 <= i < s.len() ==> is_digit(#[trigger] s[i])
}

/// The number that a run of decimal digits denotes.
pub open spec fn digits_val(s: Seq<char>) -> int
    decreases s.len(),
{
    if s.len() == 0 {
        0
    } else {
        digits_val(s.drop_last()) * 10 + digit_val(s.last())
    }
}

pub open spec fn pow10(n: nat) -> int
    decreases n,
{
    if n == 0 {
        1
    } else {
        10 * pow10((n - 1) as nat)
    }
}

/// Position of the first `c` in `s`, or `s.len()` when there is none.
pub open spec fn index_of(s: Seq<char>, c: char) -> int
    decreases s.len(),
{
    if s.len() == 0 {
        0
    } else if s[0] == c {
        0
    } else {
        1 + index_of(s.drop_first(), c)
    }
}

/// The value of fraction digits in units of `SCALE`, digits after the seventh dropped.
pub open spec fn frac_value(fp: Seq<char>) -> int {
    if fp.len() <= 7 {
        digits_val(fp) * pow10((7 - fp.len()) as nat)
    } else {
        digits_val(fp.take(7))
    }
}

/// The value of an unsigned decimal text, in units of `SCALE`.
pub open spec fn unsigned_value(b: Seq<char>) -> Option<int> {
    let k = index_of(b, '.');
    let ip = b.take(k);
    if !(k <= 11 && all_digits(ip)) {
        None
    } else if k == b.len() {
        if k >= 1 {
            Some(digits_val(ip) * SCALE)
        } else {
            None
        }
    } else {
        let fp = b.skip(k + 1);
        if all_digits(fp) && ip.len() + fp.len() >= 1 {
            Some(digits_val(ip) * SCALE + frac_value(fp))
        } else {
            None
        }
    }
}

/// The value of a decimal text with an optional sign, in units of `SCALE`.
pub open spec fn decimal_value(t: Seq<char>) -> Option<int> {
    if t.len() > 0 && t[0] == '-' {
        match unsigned_value(t.drop_first()) {
            Some(v) => Some(-v),
            None => None,
        }
    } else if t.len() > 0 && t[0] == '+' {
        unsigned_value(t.drop_first())
    } else {
        unsigned_value(t)
    }
}

/// The shortest digit run that denotes `n`.
pub open spec fn digits_of(n: nat) -> Seq<char>
    decreases n,
{
    if n < 10 {
        seq![digit_char(n as int)]
    } else {
        digits_of(n / 10).push(digit_char((n % 10) as int))
    }
}

/// Exactly `w` digits denoting `n` modulo `10^w`.
pub open spec fn fixed_digits(n: nat, w: nat) -> Seq<char>
    decreases w,
{
    if w == 0 {
        seq![]
    } else {
        fixed_digits(n / 10, (w - 1) as nat).push(digit_char((n % 10) as int))
    }
}

pub open spec fn abs(v: int) -> nat {
    if v < 0 {
        (-v) as nat
    } else {
        v as nat
    }
}

/// The canonical text of a value: integer digits, a point, seven fraction digits.
pub open spec fn decimal_text(v: int) -> Seq<char> {
    let a = abs(v);
    let body = digits_of(a / (SCALE as nat)) + seq!['.'] + fixed_digits(a % (SCALE as nat), 7);
    if v < 0 {
        seq!['-'] + body
    } else {
        body
    }
}

pub proof fn lemma_pow10_values()
    ensures
        pow10(7) == 10000000,
        pow10(11) == 100000000000,
{
    reveal_with_fuel(pow10, 12);
}

pub proof fn lemma_pow10_pos(n: nat)
    ensures
        pow10(n) >= 1,
    decreases n,
{
    if n > 0 {
        lemma_pow10_pos((n - 1) as nat);
    }
}

pub proof fn lemma_pow10_mono(a: nat, b: nat)
    requires
        a <= b,
    ensures
        pow10(a) <= pow10(b),
    decreases b,
{
    if a < b {
        lemma_pow10_mono(a, (b - 1) as nat);
        lemma_pow10_pos((b - 1) as nat);
    }
}

pub proof fn lemma_pow10_add(a: nat, b: nat)
    ensures
        pow10(a) * pow10(b) == pow10(a + b),
    decreases a,
{
    if a > 0 {
        lemma_pow10_add((a - 1) as nat, b);
        assert(pow10(a) * pow10(b) == 10 * (pow10((a - 1) as nat) * pow10(b))) by (nonlinear_arith)
            requires
                pow10(a) == 10 * pow10((a - 1) as nat),
        ;
    }
}

pub proof fn lemma_digits_val_bound(s: Seq<char>)
    requires
        all_digits(s),
    ensures
        0 <= digits_val(s) < pow10(s.len()),
    decreases s.len(),
{
    if s.len() > 0 {
        let t = s.drop_last();
        assert(all_digits(t)) by {
            assert forall|i: int| 0 <= i < t.len() implies is_digit(#[trigger] t[i]) by {
                assert(t[i] == s[i]);
            }
        }
        lemma_digits_val_bound(t);
        assert(is_digit(s[s.len() - 1]));
        let p = pow10(t.len());
        let v = digits_val(t);
        let d = digit_val(s.last());
        assert(v * 10 + d < 10 * p) by (nonlinear_arith)
            requires
                0 <= v < p,
                0 <= d <= 9,
        ;
    }
}

pub proof fn lemma_digit_char(d: int)
    requires
        0 <= d <= 9,
    ensures
        digit_val(digit_char(d)) == d,
        is_digit(digit_char(d)),
{
}

pub proof fn lemma_digits_of(n: nat)
    ensures
        all_digits(digits_of(n)),
        digits_val(digits_of(n)) == n,
        digits_of(n).len() >= 1,
    decreases n,
{
    assert(n == (n / 10) * 10 + n % 10);
    lemma_digit_char((n % 10) as int);
    let s = digits_of(n);
    if n >= 10 {
        lemma_digits_of(n / 10);
        assert(s.last() == digit_char((n % 10) as int));
        assert(digits_val(s) == digits_val(s.drop_last()) * 10 + digit_val(s.last()));
        assert(s.drop_last() =~= digits_of(n / 10));
        assert(all_digits(s)) by {
            assert forall|i: int| 0 <= i < s.len() implies is_digit(#[trigger] s[i]) by {
                if i < s.len() - 1 {
                    assert(s[i] == digits_of(n / 10)[i]);
                }
            }
        }
    } else {
        assert(s.drop_last() =~= Seq::<char>::empty());
        assert(digits_val(s) == digits_val(s.drop_last()) * 10 + digit_val(s.last()));
    }
}

pub proof fn lemma_digits_of_len(n: nat, k: nat)
    requires
        n < pow10(k),
        k >= 1,
    ensures
        digits_of(n).len() <= k,
    decreases n,
{
    if n >= 10 {
        if k == 1 {
            assert(pow10(1) == 10) by {
                reveal_with_fuel(pow10, 2);
            }
        } else {
            let p = pow10((k - 1) as nat);
            assert(pow10(k) == 10 * p);
            assert(n / 10 < p) by (nonlinear_arith)
                requires
                    n < 10 * p,
            ;
            lemma_digits_of_len(n / 10, (k - 1) as nat);
        }
    }
}

pub proof fn lemma_fixed_digits(n: nat, w: nat)
    ensures
        all_digits(fixed_digits(n, w)),
        fixed_digits(n, w).len() == w,
        digits_val(fixed_digits(n, w)) == n % (pow10(w) as nat),
    decreases w,
{
    lemma_pow10_pos(w);
    if w > 0 {
        lemma_fixed_digits(n / 10, (w - 1) as nat);
        let s = fixed_digits(n, w);
        assert(s.drop_last() =~= fixed_digits(n / 10, (w - 1) as nat));
        assert(all_digits(s)) by {
            assert forall|i: int| 0 <= i < s.len() implies is_digit(#[trigger] s[i]) by {
                if i < s.len() - 1 {
                    assert(s[i] == fixed_digits(n / 10, (w - 1) as nat)[i]);
                }
            }
        }
        let p = pow10((w - 1) as nat);
        lemma_pow10_pos((w - 1) as nat);
        vstd::arithmetic::div_mod::lemma_mod_breakdown(n as int, 10, p);
    }
}

pub proof fn lemma_index_of_prefix(a: Seq<char>, b: Seq<char>, c: char)
    requires
        forall|i: int| 0 <= i < a.len() ==> a[i] != c,
    ensures
        index_of(a + b, c) == a.len() + index_of(b, c),
    decreases a.len(),
{
    if a.len() > 0 {
        assert((a + b).drop_first() =~= a.drop_first() + b);
        assert((a + b)[0] == a[0]);
        lemma_index_of_prefix(a.drop_first(), b, c);
    } else {
        assert(a + b =~= b);
    }
}

pub proof fn lemma_index_of_bound(s: Seq<char>, c: char)
    ensures
        0 <= index_of(s, c) <= s.len(),
        index_of(s, c) < s.len() ==> s[index_of(s, c)] == c,
        forall|i: int| 0 <= i < index_of(s, c) ==> s[i] != c,
    decreases s.len(),
{
    if s.len() > 0 && s[0] != c {
        lemma_index_of_bound(s.drop_first(), c);
        assert forall|i: int| 0 <= i < index_of(s, c) implies s[i] != c by {
            if i > 0 {
                assert(s[i] == s.drop_first()[i - 1]);
            }
        }
    }
}

proof fn lemma_unsigned_of_parts(ip: Seq<char>, fp: Seq<char>)
    requires
        all_digits(ip),
        1 <= ip.len() <= 11,
        all_digits(fp),
        fp.len() == 7,
    ensures
        unsigned_value(ip + seq!['.'] + fp) == Some(digits_val(ip) * SCALE + digits_val(fp)),
{
    let body = ip + seq!['.'] + fp;
    assert forall|i: int| 0 <= i < ip.len() implies ip[i] != '.' by {
        assert(is_digit(ip[i]));
    }
    lemma_index_of_prefix(ip, seq!['.'] + fp, '.');
    assert(body =~= ip + (seq!['.'] + fp));
    assert(index_of(seq!['.'] + fp, '.') == 0);
    assert(index_of(body, '.') == ip.len());
    assert(body.take(ip.len() as int) =~= ip);
    assert(body.skip(ip.len() as int + 1) =~= fp);
    assert(pow10(0) == 1);
    assert(frac_value(fp) == digits_val(fp));
}

/// The canonical text of every value in range reads back as that value.
pub proof fn lemma_decimal_round_trip(v: int)
    requires
        -value_bound() < v < value_bound(),
    ensures
        decimal_value(decimal_text(v)) == Some(v),
{
    let a = abs(v);
    let sc = SCALE as nat;
    let ip = digits_of(a / sc);
    let fp = fixed_digits(a % sc, 7);
    let body = ip + seq!['.'] + fp;
    lemma_digits_of(a / sc);
    lemma_fixed_digits(a % sc, 7);
    lemma_pow10_values();
    assert(a / sc < pow10(11)) by (nonlinear_arith)
        requires
            a < 1000000000000000000,
            sc == 10000000,
            pow10(11) == 100000000000,
    ;
    lemma_digits_of_len(a / sc, 11);
    assert(a % sc < sc) by (nonlinear_arith)
        requires
            sc > 0,
    ;
    assert((a % sc) % sc == a % sc) by (nonlinear_arith)
        requires
            sc > 0,
            a % sc < sc,
    ;
    lemma_unsigned_of_parts(ip, fp);
    assert(a / sc * sc + a % sc == a) by (nonlinear_arith)
        requires
            sc > 0,
    ;
    assert(unsigned_value(body) == Some(a as int));
    assert(is_digit(body[0])) by {
        assert(body[0] == ip[0]);
    }
    if v < 0 {
        assert((seq!['-'] + body).drop_first() =~= body);
    }
}

/// Reads a run of at most eleven digits, `cs[from..to]`.
fn read_digits(cs: &Vec<char>, from: usize, to: usize) -> (r: Option<i64>)
    requires
        from <= to <= cs@.len(),
        to - from <= 11,
    ensures
        r is Some <==> all_digits(cs@.subrange(from as int, to as int)),
        r matches Some(v) ==> v == digits_val(cs@.subrange(from as int, to as int)) && 0 <= v
            < pow10((to - from) as nat),
{
    let mut acc: i64 = 0;
    let mut i: usize = from;
    proof {
        lemma_pow10_values();
    }
    while i < to
        invariant
            from <= i <= to <= cs@.len(),
            to - from <= 11,
            pow10(11) == 100000000000,
            all_digits(cs@.subrange(from as int, i as int)),
            acc == digits_val(cs@.subrange(from as int, i as int)),
            0 <= acc < pow10((i - from) as nat),
        decreases to - i,
    {
        let c = cs[i];
        if !('0' <= c && c <= '9') {
            proof {
                let s = cs@.subrange(from as int, to as int);
                assert(s[i - from] == c);
            }
            return None;
        }
        let d: i64 = (c as u32 as i64) - ('0' as u32 as i64);
        proof {
            let p = pow10((i - from) as nat);
            lemma_pow10_mono((i + 1 - from) as nat, 11);
            assert(pow10((i + 1 - from) as nat) == 10 * p);
            assert(acc * 10 + d < 10 * p) by (nonlinear_arith)
                requires
                    0 <= acc < p,
                    0 <= d <= 9,
            ;
        }
        acc = acc * 10 + d;
        i += 1;
        proof {
            let s = cs@.subrange(from as int, i as int);
            assert(s.drop_last() =~= cs@.subrange(from as int, i - 1));
            assert forall|j: int| 0 <= j < s.len() implies is_digit(#[trigger] s[j]) by {
                if j < s.len() - 1 {
                    assert(s[j] == cs@.subrange(from as int, i - 1)[j]);
                }
            }
        }
    }
    Some(acc)
}

fn pow10_exec(n: usize) -> (r: i64)
    requires
        n <= 7,
    ensures
        r == pow10(n as nat),
{
    let mut r: i64 = 1;
    let mut i: usize = 0;
    proof {
        lemma_pow10_values();
    }
    while i < n
        invariant
            i <= n <= 7,
            r == pow10(i as nat),
            pow10(7) == 10000000,
        decreases n - i,
    {
        proof {
            lemma_pow10_mono((i + 1) as nat, 7);
            assert(pow10((i + 1) as nat) == 10 * pow10(i as nat));
            assert(pow10((i + 1) as nat) <= 10000000);
            assert(r * 10 <= 10000000);
            lemma_pow10_pos(i as nat);
        }
        r = r * 10;
        i += 1;
    }
    r
}

/// Position of the first `c` in `cs[from..to]`, relative to `from`.
pub fn find_char(cs: &Vec<char>, from: usize, to: usize, c: char) -> (r: usize)
    requires
        from <= to <= cs@.len(),
    ensures
        r == index_of(cs@.subrange(from as int, to as int), c),
        r <= to - from,
{
    let mut i: usize = from;
    while i < to
        invariant
            from <= i <= to <= cs@.len(),
            index_of(cs@.subrange(from as int, to as int), c) == (i - from) + index_of(
                cs@.subrange(i as int, to as int),
                c,
            ),
        decreases to - i,
    {
        if cs[i] == c {
            return i - from;
        }
        assert(cs@.subrange(i as int, to as int).drop_first() =~= cs@.subrange(i + 1, to as int));
        i += 1;
    }
    i - from
}

/// Whether `cs[from..to]` is all digits.
fn digits_only(cs: &Vec<char>, from: usize, to: usize) -> (r: bool)
    requires
        from <= to <= cs@.len(),
    ensures
        r == all_digits(cs@.subrange(from as int, to as int)),
{
    let mut i: usize = from;
    while i < to
        invariant
            from <= i <= to <= cs@.len(),
            forall|j: int| from <= j < i ==> is_digit(#[trigger] cs@[j]),
        decreases to - i,
    {
        let c = cs[i];
        if !('0' <= c && c <= '9') {
            assert(cs@.subrange(from as int, to as int)[i - from] == c);
            return false;
        }
        i += 1;
    }
    assert forall|j: int| 0 <= j < to - from implies is_digit(
        #[trigger] cs@.subrange(from as int, to as int)[j],
    ) by {
        assert(cs@.subrange(from as int, to as int)[j] == cs@[from + j]);
    }
    true
}

/// Reads the fraction digits `cs[from..to]`, in units of `SCALE`.
fn read_fraction(cs: &Vec<char>, from: usize, to: usize) -> (r: i64)
    requires
        from <= to <= cs@.len(),
        all_digits(cs@.subrange(from as int, to as int)),
    ensures
        r == frac_value(cs@.subrange(from as int, to as int)),
        0 <= r < 10000000,
{
    let ghost fp = cs@.subrange(from as int, to as int);
    let f = to - from;
    proof {
        lemma_pow10_values();
    }
    if f <= 7 {
        let v = match read_digits(cs, from, to) {
            Some(v) => v,
            None => {
                assert(false);
                0
            },
        };
        let m = pow10_exec(7 - f);
        proof {
            lemma_pow10_add(f as nat, (7 - f) as nat);
            lemma_pow10_pos((7 - f) as nat);
            assert(0 <= v * m < pow10(7)) by (nonlinear_arith)
                requires
                    0 <= v < pow10(f as nat),
                    m >= 1,
                    pow10(f as nat) * m == pow10(7),
            ;
        }
        v * m
    } else {
        let ghost head = fp.take(7);
        assert(head =~= cs@.subrange(from as int, from + 7));
        assert(all_digits(head)) by {
            assert forall|i: int| 0 <= i < head.len() implies is_digit(#[trigger] head[i]) by {
                assert(head[i] == fp[i]);
            }
        }
        match read_digits(cs, from, from + 7) {
            Some(v) => v,
            None => {
                assert(false);
                0
            },
        }
    }
}

/// Reads the unsigned decimal text `cs[from..to]`.
fn read_unsigned(cs: &Vec<char>, from: usize, to: usize) -> (r: Option<i64>)
    requires
        from <= to <= cs@.len(),
    ensures
        match r {
            Some(v) => unsigned_value(cs@.subrange(from as int, to as int)) == Some(v as int),
            None => unsigned_value(cs@.subrange(from as int, to as int)) is None,
        },
{
    let ghost b = cs@.subrange(from as int, to as int);
    let k = find_char(cs, from, to, '.');
    proof {
        lemma_pow10_values();
        assert(b.take(k as int) =~= cs@.subrange(from as int, from + k));
    }
    if k > 11 {
        return None;
    }
    let ip = match read_digits(cs, from, from + k) {
        Some(v) => v,
        None => return None,
    };
    proof {
        lemma_pow10_mono(k as nat, 11);
        assert(0 <= ip * 10000000 <= 99999999999 * 10000000) by (nonlinear_arith)
            requires
                0 <= ip < 100000000000,
        ;
    }
    if k == to - from {
        if k < 1 {
            return None;
        }
        return Some(ip * SCALE);
    }
    let f = to - from - k - 1;
    proof {
        assert(b.skip(k + 1) =~= cs@.subrange(from + k + 1, to as int));
    }
    if !digits_only(cs, from + k + 1, to) {
        return None;
    }
    if k + f < 1 {
        return None;
    }
    let fv = read_fraction(cs, from + k + 1, to);
    Some(ip * SCALE + fv)
}

/// Reads the decimal text `cs[from..to]`, in units of `SCALE`.
pub fn parse_decimal(cs: &Vec<char>, from: usize, to: usize) -> (r: Option<i64>)
    requires
        from <= to <= cs@.len(),
    ensures
        match r {
            Some(v) => decimal_value(cs@.subrange(from as int, to as int)) == Some(v as int),
            None => decimal_value(cs@.subrange(from as int, to as int)) is None,
        },
{
    let ghost t = cs@.subrange(from as int, to as int);
    if from < to && (cs[from] == '-' || cs[from] == '+') {
        assert(t.drop_first() =~= cs@.subrange(from + 1, to as int));
        let neg = cs[from] == '-';
        match read_unsigned(cs, from + 1, to) {
            Some(v) => {
                proof {
                    lemma_unsigned_bound(t.drop_first());
                }
                if neg {
                    Some(-v)
                } else {
                    Some(v)
                }
            },
            None => None,
        }
    } else {
        read_unsigned(cs, from, to)
    }
}

/// Fraction digits are worth less than one whole unit.
pub proof fn lemma_frac_bound(fp: Seq<char>)
    requires
        all_digits(fp),
    ensures
        0 <= frac_value(fp) < 10000000,
{
    lemma_pow10_values();
    if fp.len() <= 7 {
        lemma_digits_val_bound(fp);
        let e = (7 - fp.len()) as nat;
        lemma_pow10_add(fp.len(), e);
        lemma_pow10_pos(e);
        let f = digits_val(fp);
        let m = pow10(e);
        assert(0 <= f * m < 10000000) by (nonlinear_arith)
            requires
                0 <= f < pow10(fp.len()),
                m >= 1,
                pow10(fp.len()) * m == 10000000,
        ;
    } else {
        let head = fp.take(7);
        assert forall|i: int| 0 <= i < head.len() implies is_digit(#[trigger] head[i]) by {
            assert(head[i] == fp[i]);
        }
        lemma_digits_val_bound(head);
    }
}

/// Every value the unsigned grammar accepts is below `value_bound()`.
pub proof fn lemma_unsigned_bound(b: Seq<char>)
    ensures
        unsigned_value(b) matches Some(v) ==> 0 <= v < value_bound(),
{
    let k = index_of(b, '.');
    lemma_index_of_bound(b, '.');
    let ip = b.take(k);
    if unsigned_value(b) is Some {
        lemma_pow10_values();
        assert(ip.len() == k);
        lemma_digits_val_bound(ip);
        lemma_pow10_mono(ip.len(), 11);
        let i = digits_val(ip);
        assert(0 <= i * 10000000 <= 99999999999 * 10000000) by (nonlinear_arith)
            requires
                0 <= i <= 99999999999,
        ;
        if k < b.len() {
            lemma_frac_bound(b.skip(k + 1));
        }
    }
}

/// Every value the signed grammar accepts lies strictly within `value_bound()`.
pub proof fn lemma_decimal_bound(t: Seq<char>)
    ensures
        decimal_value(t) matches Some(v) ==> -value_bound() < v < value_bound(),
{
    lemma_unsigned_bound(t);
    if t.len() > 0 {
        lemma_unsigned_bound(t.drop_first());
    }
}

fn push_digits(out: &mut Vec<char>, n: u64)
    ensures
        final(out)@ == old(out)@ + digits_of(n as nat),
    decreases n,
{
    if n >= 10 {
        push_digits(out, n / 10);
    }
    let d = (n % 10) as u32;
    let c = char_of_digit(d);
    out.push(c);
    assert(final(out)@ =~= old(out)@ + digits_of(n as nat));
}

fn push_fixed_digits(out: &mut Vec<char>, n: u64, w: u64)
    ensures
        final(out)@ == old(out)@ + fixed_digits(n as nat, w as nat),
    decreases w,
{
    if w > 0 {
        push_fixed_digits(out, n / 10, w - 1);
        let c = char_of_digit((n % 10) as u32);
        out.push(c);
        assert(final(out)@ =~= old(out)@ + fixed_digits(n as nat, w as nat));
    } else {
        assert(final(out)@ =~= old(out)@ + fixed_digits(n as nat, w as nat));
    }
}

fn char_of_digit(d: u32) -> (c: char)
    requires
        d <= 9,
    ensures
        c == digit_char(d as int),
{
    if d == 0 { '0' }
    else if d == 1 { '1' }
    else if d == 2 { '2' }
    else if d == 3 { '3' }
    else if d == 4 { '4' }
    else if d == 5 { '5' }
    else if d == 6 { '6' }
    else if d == 7 { '7' }
    else if d == 8 { '8' }
    else { '9' }
}

/// Appends the canonical text of `v`.
pub fn push_decimal(out: &mut Vec<char>, v: i64)
    requires
        -value_bound() < v < value_bound(),
    ensures
        final(out)@ == old(out)@ + decimal_text(v as int),
{
    let a: u64 = if v < 0 { (-v) as u64 } else { v as u64 };
    if v < 0 {
        out.push('-');
    }
    push_digits(out, a / 10000000);
    out.push('.');
    push_fixed_digits(out, a % 10000000, 7);
    assert(out@ =~= old(out)@ + decimal_text(v as int));
}

/// `s` without its trailing zeros.
pub open spec fn strip_zeros(s: Seq<char>) -> Seq<char>
    decreases s.len(),
{
    if s.len() > 0 && s.last() == '0' {
        strip_zeros(s.drop_last())
    } else {
        s
    }
}

/// A decimal text without its sign.
pub open spec fn unsigned_part(t: Seq<char>) -> Seq<char> {
    if t.len() > 0 && (t[0] == '-' || t[0] == '+') {
        t.drop_first()
    } else {
        t
    }
}

/// The fraction digits a decimal text has after the seventh, trailing zeros removed.
pub open spec fn dropped_digits(t: Seq<char>) -> Seq<char> {
    let b = unsigned_part(t);
    let k = index_of(b, '.');
    if k < b.len() && b.skip(k + 1).len() > 7 {
        strip_zeros(b.skip(k + 1).skip(7))
    } else {
        seq![]
    }
}

/// What fixes the exact number a decimal text writes: its value in units of
/// `SCALE`, the digits dropped after the seventh, and whether it is below
/// zero. Two texts the grammar reads write the same number exactly when
/// their keys are equal.
pub open spec fn exact_key(t: Seq<char>) -> Option<(int, Seq<char>, bool)> {
    match decimal_value(t) {
        Some(v) => Some(
            (
                v,
                dropped_digits(t),
                t.len() > 0 && t[0] == '-' && (v != 0 || dropped_digits(t).len() > 0),
            ),
        ),
        None => None,
    }
}

/// The digits `cs[from..to]` drops after the seventh fraction digit, as a
/// range of `cs`, trailing zeros removed.
fn dropped_range(cs: &Vec<char>, from: usize, to: usize) -> (r: (usize, usize))
    requires
        from <= to <= cs@.len(),
    ensures
        r.0 <= r.1 <= cs@.len(),
        cs@.subrange(r.0 as int, r.1 as int) == dropped_digits(cs@.subrange(from as int, to as int)),
{
    let ghost t = cs@.subrange(from as int, to as int);
    let s = if from < to && (cs[from] == '-' || cs[from] == '+') {
        from + 1
    } else {
        from
    };
    let ghost b = cs@.subrange(s as int, to as int);
    assert(unsigned_part(t) =~= b);
    let k = find_char(cs, s, to, '.');
    if k == to - s || to - (s + k + 1) <= 7 {
        assert(cs@.subrange(to as int, to as int) =~= Seq::<char>::empty());
        return (to, to);
    }
    let start = s + k + 1 + 7;
    assert(b.skip(k + 1).skip(7) =~= cs@.subrange(start as int, to as int));
    let mut end = to;
    while end > start && cs[end - 1] == '0'
        invariant
            start <= end <= to <= cs@.len(),
            strip_zeros(cs@.subrange(start as int, to as int)) == strip_zeros(
                cs@.subrange(start as int, end as int),
            ),
        decreases end,
    {
        assert(cs@.subrange(start as int, end as int).drop_last() =~= cs@.subrange(
            start as int,
            end - 1,
        ));
        end -= 1;
    }
    (start, end)
}

/// Whether `cs[a1..b1]` and `cs[a2..b2]` hold the same characters.
pub fn same_range(cs: &Vec<char>, a1: usize, b1: usize, a2: usize, b2: usize) -> (r: bool)
    requires
        a1 <= b1 <= cs@.len(),
        a2 <= b2 <= cs@.len(),
    ensures
        r == (cs@.subrange(a1 as int, b1 as int) == cs@.subrange(a2 as int, b2 as int)),
{
    if b1 - a1 != b2 - a2 {
        assert(cs@.subrange(a1 as int, b1 as int).len() != cs@.subrange(a2 as int, b2 as int).len());
        return false;
    }
    let n = b1 - a1;
    let mut i: usize = 0;
    while i < n
        invariant
            n == b1 - a1 == b2 - a2,
            a1 <= b1 <= cs@.len(),
            a2 <= b2 <= cs@.len(),
            i <= n,
            forall|j: int| 0 <= j < i ==> #[trigger] cs@[a1 + j] == cs@[a2 + j],
        decreases n - i,
    {
        if cs[a1 + i] != cs[a2 + i] {
            proof {
                let x = cs@.subrange(a1 as int, b1 as int);
                let y = cs@.subrange(a2 as int, b2 as int);
                assert(x[i as int] == cs@[a1 + i]);
                assert(y[i as int] == cs@[a2 + i]);
                assert(x[i as int] != y[i as int]);
            }
            return false;
        }
        i += 1;
    }
    proof {
        let x = cs@.subrange(a1 as int, b1 as int);
        let y = cs@.subrange(a2 as int, b2 as int);
        assert forall|j: int| 0 <= j < x.len() implies x[j] == y[j] by {
            assert(x[j] == cs@[a1 + j]);
            assert(y[j] == cs@[a2 + j]);
        }
        assert(x =~= y);
    }
    true
}

/// Whether two decimal texts of `cs`, both of which the grammar reads, write
/// the same number exactly.
pub fn same_number(cs: &Vec<char>, a1: usize, b1: usize, a2: usize, b2: usize) -> (r: bool)
    requires
        a1 <= b1 <= cs@.len(),
        a2 <= b2 <= cs@.len(),
    ensures
        r == (exact_key(cs@.subrange(a1 as int, b1 as int)) == exact_key(
            cs@.subrange(a2 as int, b2 as int),
        )),
{
    let ghost t1 = cs@.subrange(a1 as int, b1 as int);
    let ghost t2 = cs@.subrange(a2 as int, b2 as int);
    let v1 = parse_decimal(cs, a1, b1);
    let v2 = parse_decimal(cs, a2, b2);
    let (v1, v2) = match (v1, v2) {
        (Some(x), Some(y)) => (x, y),
        (None, None) => return true,
        _ => return false,
    };
    let (s1, e1) = dropped_range(cs, a1, b1);
    let (s2, e2) = dropped_range(cs, a2, b2);
    let n1 = a1 < b1 && cs[a1] == '-' && (v1 != 0 || s1 < e1);
    let n2 = a2 < b2 && cs[a2] == '-' && (v2 != 0 || s2 < e2);
    proof {
        if a1 < b1 {
            assert(t1[0] == cs@[a1 as int]);
        }
        if a2 < b2 {
            assert(t2[0] == cs@[a2 as int]);
        }
    }
    let same_tail = same_range(cs, s1, e1, s2, e2);
    v1 == v2 && same_tail && n1 == n2
}

} // verus!

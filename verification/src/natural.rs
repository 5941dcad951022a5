//! Natural ordering of names: runs of decimal digits compare by their
//! numeric value, everything else compares character by character.

use vstd::prelude::*;

verus! {

/// An ASCII decimal digit, the characters accepted by both
/// `char::is_ascii_digit` and `char::to_digit(10)`.
pub open spec fn is_digit(c: char) -> bool {
    '0' <= c && c <= '9'
}

/// Numeric value of a decimal digit character.
pub open spec fn digit_value(c: char) -> int {
    (c as int) - ('0' as int)
}

/// Number of decimal digits at the front of `s`.
pub open spec fn digit_run_len(s: Seq<char>) -> nat
    decreases s.len(),
{
    if s.len() > 0 && is_digit(s[0]) {
        1 + digit_run_len(s.drop_first())
    } else {
        0
    }
}

/// Value of a sequence of digits read most significant first.
pub open spec fn decimal_value(s: Seq<char>) -> int
    decreases s.len(),
{
    if s.len() == 0 {
        0
    } else {
        decimal_value(s.drop_last()) * 10 + digit_value(s.last())
    }
}

/// Value of the digit run at the front of `s`, however long it is.
pub open spec fn run_value(s: Seq<char>) -> int {
    decimal_value(s.take(digit_run_len(s) as int))
}

/// Every character of `s` is a decimal digit.
pub open spec fn all_digits(s: Seq<char>) -> bool {
    forall|k: int| 0 <= k < s.len() ==> is_digit(#[trigger] s[k])
}

/// Ten to the power `n`.
pub open spec fn pow10(n: nat) -> int
    decreases n,
{
    if n == 0 {
        1
    } else {
        10 * pow10((n - 1) as nat)
    }
}

/// Sign of the comparison of two numbers: -1, 0 or 1.
pub open spec fn compare_values(x: int, y: int) -> int {
    if x < y {
        -1
    } else if x > y {
        1
    } else {
        0
    }
}

proof fn lemma_pow10_monotone(m: nat, n: nat)
    requires
        m <= n,
    ensures
        1 <= pow10(m) <= pow10(n),
    decreases n,
{
    if n > m {
        lemma_pow10_monotone(m, (n - 1) as nat);
    } else if n > 0 {
        lemma_pow10_monotone(0, (n - 1) as nat);
    }
}

/// Reading `u` then `v` shifts the value of `u` past the digits of `v`.
proof fn lemma_decimal_concat(u: Seq<char>, v: Seq<char>)
    ensures
        decimal_value(u + v) == decimal_value(u) * pow10(v.len()) + decimal_value(v),
    decreases v.len(),
{
    if v.len() == 0 {
        assert(u + v =~= u);
    } else {
        let w = v.drop_last();
        assert((u + v).drop_last() =~= u + w);
        assert((u + v).last() == v.last());
        lemma_decimal_concat(u, w);
        let (du, dw, p) = (decimal_value(u), decimal_value(w), pow10(w.len()));
        assert((du * p + dw) * 10 + digit_value(v.last()) == du * (10 * p) + (dw * 10 + digit_value(
            v.last(),
        ))) by (nonlinear_arith);
    }
}

/// A run of `n` digits is worth less than `10^n`.
proof fn lemma_decimal_bounds(s: Seq<char>)
    requires
        all_digits(s),
    ensures
        0 <= decimal_value(s) < pow10(s.len()),
    decreases s.len(),
{
    if s.len() > 0 {
        let t = s.drop_last();
        assert(all_digits(t)) by {
            assert forall|k: int| 0 <= k < t.len() implies is_digit(#[trigger] t[k]) by {
                assert(t[k] == s[k]);
            }
        }
        assert(is_digit(s[s.len() - 1]));
        lemma_decimal_bounds(t);
    }
}

/// A run of `n` digits that does not start with `0` is worth at least
/// `10^(n-1)`.
proof fn lemma_decimal_leading(s: Seq<char>)
    requires
        all_digits(s),
        s.len() >= 1,
        s[0] != '0',
    ensures
        decimal_value(s) >= pow10((s.len() - 1) as nat),
{
    let head = s.take(1);
    let rest = s.skip(1);
    assert(s =~= head + rest);
    lemma_decimal_concat(head, rest);
    assert(head.drop_last() =~= Seq::<char>::empty());
    assert(head.last() == s[0]);
    assert(is_digit(s[0]));
    assert(decimal_value(head.drop_last()) == 0);
    assert(decimal_value(head) == digit_value(s[0]));
    assert(all_digits(rest)) by {
        assert forall|k: int| 0 <= k < rest.len() implies is_digit(#[trigger] rest[k]) by {
            assert(rest[k] == s[k + 1]);
        }
    }
    lemma_decimal_bounds(rest);
    lemma_pow10_monotone(0, rest.len());
    let (d, p, r) = (digit_value(s[0]), pow10(rest.len()), decimal_value(rest));
    assert(d >= 1);
    assert(d * p + r >= p) by (nonlinear_arith)
        requires
            d >= 1,
            p >= 1,
            r >= 0,
    ;
}

/// Leading zeros add nothing to a number.
proof fn lemma_decimal_skip_zeros(s: Seq<char>, z: int)
    requires
        0 <= z <= s.len(),
        forall|k: int| 0 <= k < z ==> #[trigger] s[k] == '0',
    ensures
        decimal_value(s) == decimal_value(s.skip(z)),
    decreases z,
{
    if z > 0 {
        let head = s.take(z);
        assert(s =~= head + s.skip(z));
        lemma_decimal_concat(head, s.skip(z));
        assert forall|k: int| 0 <= k < head.len() implies #[trigger] head[k] == '0' by {
            assert(head[k] == s[k]);
        }
        lemma_decimal_zeros(head);
        let (p, r) = (pow10(s.skip(z).len()), decimal_value(s.skip(z)));
        assert(decimal_value(head) * p + r == r) by (nonlinear_arith)
            requires
                decimal_value(head) == 0,
        ;
        assert(decimal_value(s) == decimal_value(head + s.skip(z)));
    } else {
        assert(s.skip(0) =~= s);
    }
}

proof fn lemma_decimal_zeros(s: Seq<char>)
    requires
        forall|k: int| 0 <= k < s.len() ==> #[trigger] s[k] == '0',
    ensures
        decimal_value(s) == 0,
    decreases s.len(),
{
    if s.len() > 0 {
        let t = s.drop_last();
        assert forall|k: int| 0 <= k < t.len() implies #[trigger] t[k] == '0' by {
            assert(t[k] == s[k]);
        }
        assert(s[s.len() - 1] == '0');
        lemma_decimal_zeros(t);
    }
}

/// Two runs of digits of one length compare as their first differing digit.
proof fn lemma_decimal_first_difference(x: Seq<char>, y: Seq<char>, k: int)
    requires
        x.len() == y.len(),
        all_digits(x),
        all_digits(y),
        0 <= k < x.len(),
        x.take(k) == y.take(k),
        x[k] < y[k],
    ensures
        decimal_value(x) < decimal_value(y),
{
    let (hx, hy) = (x.take(k + 1), y.take(k + 1));
    let (tx, ty) = (x.skip(k + 1), y.skip(k + 1));
    assert(x =~= hx + tx);
    assert(y =~= hy + ty);
    lemma_decimal_concat(hx, tx);
    lemma_decimal_concat(hy, ty);
    assert(hx.drop_last() =~= x.take(k));
    assert(hy.drop_last() =~= y.take(k));
    assert(hx.last() == x[k] && hy.last() == y[k]);
    assert(all_digits(tx)) by {
        assert forall|m: int| 0 <= m < tx.len() implies is_digit(#[trigger] tx[m]) by {
            assert(tx[m] == x[m + k + 1]);
        }
    }
    assert(all_digits(ty)) by {
        assert forall|m: int| 0 <= m < ty.len() implies is_digit(#[trigger] ty[m]) by {
            assert(ty[m] == y[m + k + 1]);
        }
    }
    lemma_decimal_bounds(tx);
    lemma_decimal_bounds(ty);
    let c = decimal_value(x.take(k));
    let (dx, dy) = (digit_value(x[k]), digit_value(y[k]));
    let p = pow10(tx.len());
    let (vx, vy) = (decimal_value(tx), decimal_value(ty));
    assert((c * 10 + dx) * p + vx < (c * 10 + dy) * p + vy) by (nonlinear_arith)
        requires
            dx < dy,
            0 <= vx < p,
            0 <= vy,
    ;
}

pub proof fn lemma_run_len_bounds(s: Seq<char>)
    ensures
        digit_run_len(s) <= s.len(),
        s.len() > 0 && is_digit(s[0]) ==> digit_run_len(s) >= 1,
        forall|k: int| 0 <= k < digit_run_len(s) ==> is_digit(#[trigger] s[k]),
        digit_run_len(s) < s.len() ==> !is_digit(s[digit_run_len(s) as int]),
    decreases s.len(),
{
    if s.len() > 0 && is_digit(s[0]) {
        lemma_run_len_bounds(s.drop_first());
        assert forall|k: int| 0 <= k < digit_run_len(s) implies is_digit(#[trigger] s[k]) by {
            if k > 0 {
                assert(s[k] == s.drop_first()[k - 1]);
            }
        }
    }
}

/// Sign of the natural comparison of `a` with `b`: -1 when `a` sorts first,
/// 1 when `b` sorts first, 0 when they are equivalent.
///
/// Both names are walked from the front. Where both have a digit, the whole
/// digit runs are read as numbers, however long, and compared by value;
/// otherwise single characters are compared by code point. A name that
/// runs out first sorts first.
pub open spec fn natural_order(a: Seq<char>, b: Seq<char>) -> int
    decreases a.len() + b.len(),
{
    if a.len() == 0 && b.len() == 0 {
        0
    } else if a.len() == 0 {
        -1
    } else if b.len() == 0 {
        1
    } else if is_digit(a[0]) && is_digit(b[0]) {
        let la = digit_run_len(a);
        let lb = digit_run_len(b);
        let va = run_value(a);
        let vb = run_value(b);
        if va < vb {
            -1
        } else if va > vb {
            1
        } else {
            proof {
                lemma_run_len_bounds(a);
                lemma_run_len_bounds(b);
            }
            natural_order(a.skip(la as int), b.skip(lb as int))
        }
    } else if a[0] < b[0] {
        -1
    } else if a[0] > b[0] {
        1
    } else {
        natural_order(a.drop_first(), b.drop_first())
    }
}

pub proof fn lemma_decimal_value_nonneg(s: Seq<char>)
    requires
        forall|k: int| 0 <= k < s.len() ==> is_digit(#[trigger] s[k]),
    ensures
        decimal_value(s) >= 0,
    decreases s.len(),
{
    if s.len() > 0 {
        lemma_decimal_value_nonneg(s.drop_last());
    }
}

/// A run of `n` digits ended by the end of `t` or by a non-digit is the
/// digit run at the front of `t`.
pub proof fn lemma_run_len_exact(t: Seq<char>, n: int)
    requires
        0 <= n <= t.len(),
        forall|k: int| 0 <= k < n ==> is_digit(#[trigger] t[k]),
        n == t.len() || !is_digit(t[n]),
    ensures
        digit_run_len(t) == n,
    decreases n,
{
    if n > 0 {
        assert(is_digit(t[0]));
        assert forall|k: int| 0 <= k < n - 1 implies is_digit(#[trigger] t.drop_first()[k]) by {
            assert(t.drop_first()[k] == t[k + 1]);
        }
        if n < t.len() {
            assert(t.drop_first()[n - 1] == t[n]);
        }
        lemma_run_len_exact(t.drop_first(), n - 1);
    }
}

/// True for the ASCII decimal digits.
pub fn is_ascii_digit(c: char) -> (r: bool)
    ensures
        r == is_digit(c),
{
    '0' <= c && c <= '9'
}

/// Where the run of digits that starts at `start` ends.
pub fn digit_run_end(s: &[char], start: usize) -> (end: usize)
    requires
        start <= s.len(),
    ensures
        end == start + digit_run_len(s@.skip(start as int)),
        end <= s.len(),
        forall|m: int| start <= m < end ==> is_digit(#[trigger] s@[m]),
{
    let mut k: usize = start;
    while k < s.len() && is_ascii_digit(s[k])
        invariant
            start <= k <= s.len(),
            forall|m: int| start <= m < k ==> is_digit(#[trigger] s@[m]),
        decreases s.len() - k,
    {
        k = k + 1;
    }
    proof {
        let t = s@.skip(start as int);
        let n = k - start;
        assert forall|m: int| 0 <= m < n implies is_digit(#[trigger] t[m]) by {
            assert(t[m] == s@[start + m]);
        }
        if n < t.len() {
            assert(t[n] == s@[k as int]);
        }
        lemma_run_len_exact(t, n);
    }
    k
}

/// First position in `s[from..to]` that is not `0`, or `to`.
fn skip_zeros(s: &[char], from: usize, to: usize) -> (k: usize)
    requires
        from <= to <= s.len(),
    ensures
        from <= k <= to,
        forall|m: int| from <= m < k ==> #[trigger] s@[m] == '0',
        k < to ==> s@[k as int] != '0',
{
    let mut k = from;
    while k < to && s[k] == '0'
        invariant
            from <= k <= to <= s.len(),
            forall|m: int| from <= m < k ==> #[trigger] s@[m] == '0',
        decreases to - k,
    {
        k = k + 1;
    }
    k
}

/// Compares the numbers spelt by the digit runs `a[i..ei]` and `b[j..ej]`,
/// of any length: leading zeros are passed over, then the longer number is
/// the larger, and numbers of one length compare digit by digit.
#[verifier::rlimit(40)]
pub fn compare_digit_runs(a: &[char], i: usize, ei: usize, b: &[char], j: usize, ej: usize) -> (r: i8)
    requires
        i <= ei <= a.len(),
        j <= ej <= b.len(),
        forall|m: int| i <= m < ei ==> is_digit(#[trigger] a@[m]),
        forall|m: int| j <= m < ej ==> is_digit(#[trigger] b@[m]),
    ensures
        r == compare_values(
            decimal_value(a@.subrange(i as int, ei as int)),
            decimal_value(b@.subrange(j as int, ej as int)),
        ),
{
    let ghost (sa, sb) = (a@.subrange(i as int, ei as int), b@.subrange(j as int, ej as int));
    let i2 = skip_zeros(a, i, ei);
    let j2 = skip_zeros(b, j, ej);
    let ghost (ra, rb) = (a@.subrange(i2 as int, ei as int), b@.subrange(j2 as int, ej as int));
    proof {
        assert forall|m: int| 0 <= m < i2 - i implies #[trigger] sa[m] == '0' by {
            assert(sa[m] == a@[i + m]);
        }
        assert forall|m: int| 0 <= m < j2 - j implies #[trigger] sb[m] == '0' by {
            assert(sb[m] == b@[j + m]);
        }
        lemma_decimal_skip_zeros(sa, i2 - i);
        lemma_decimal_skip_zeros(sb, j2 - j);
        assert(sa.skip(i2 - i) =~= ra);
        assert(sb.skip(j2 - j) =~= rb);
        assert forall|m: int| 0 <= m < ra.len() implies is_digit(#[trigger] ra[m]) by {
            assert(ra[m] == a@[i2 + m]);
        }
        assert forall|m: int| 0 <= m < rb.len() implies is_digit(#[trigger] rb[m]) by {
            assert(rb[m] == b@[j2 + m]);
        }
        lemma_decimal_bounds(ra);
        lemma_decimal_bounds(rb);
        if ra.len() > 0 {
            assert(ra[0] == a@[i2 as int]);
            lemma_decimal_leading(ra);
        }
        if rb.len() > 0 {
            assert(rb[0] == b@[j2 as int]);
            lemma_decimal_leading(rb);
        }
    }
    let la = ei - i2;
    let lb = ej - j2;
    if la < lb {
        proof {
            lemma_pow10_monotone(la as nat, (lb - 1) as nat);
        }
        return -1;
    }
    if la > lb {
        proof {
            lemma_pow10_monotone(lb as nat, (la - 1) as nat);
        }
        return 1;
    }
    let mut k: usize = 0;
    while k < la
        invariant
            la == lb,
            la == ei - i2,
            lb == ej - j2,
            i2 <= ei <= a.len(),
            j2 <= ej <= b.len(),
            ra == a@.subrange(i2 as int, ei as int),
            rb == b@.subrange(j2 as int, ej as int),
            decimal_value(a@.subrange(i as int, ei as int)) == decimal_value(ra),
            decimal_value(b@.subrange(j as int, ej as int)) == decimal_value(rb),
            all_digits(ra),
            all_digits(rb),
            k <= la,
            ra.take(k as int) == rb.take(k as int),
        decreases la - k,
    {
        let (ca, cb) = (a[i2 + k], b[j2 + k]);
        assert(ra[k as int] == ca && rb[k as int] == cb);
        if ca < cb {
            proof {
                lemma_decimal_first_difference(ra, rb, k as int);
            }
            return -1;
        }
        if ca > cb {
            proof {
                lemma_decimal_first_difference(rb, ra, k as int);
            }
            return 1;
        }
        assert(ra.take(k + 1) =~= ra.take(k as int).push(ca));
        assert(rb.take(k + 1) =~= rb.take(k as int).push(cb));
        k = k + 1;
    }
    assert(ra =~= ra.take(la as int));
    assert(rb =~= rb.take(lb as int));
    0
}

/// Natural comparison of two names given as characters; see `natural_order`.
pub fn natural_order_of(a: &[char], b: &[char]) -> (r: i8)
    ensures
        r == natural_order(a@, b@),
{
    let mut i: usize = 0;
    let mut j: usize = 0;
    assert(a@.skip(0) =~= a@);
    assert(b@.skip(0) =~= b@);
    loop
        invariant
            i <= a.len(),
            j <= b.len(),
            natural_order(a@, b@) == natural_order(a@.skip(i as int), b@.skip(j as int)),
        decreases (a.len() - i) + (b.len() - j),
    {
        let ghost sa = a@.skip(i as int);
        let ghost sb = b@.skip(j as int);
        if i == a.len() && j == b.len() {
            return 0;
        }
        if i == a.len() {
            return -1;
        }
        if j == b.len() {
            return 1;
        }
        let ca = a[i];
        let cb = b[j];
        assert(sa[0] == ca && sb[0] == cb);
        if is_ascii_digit(ca) && is_ascii_digit(cb) {
            let ei = digit_run_end(a, i);
            let ej = digit_run_end(b, j);
            proof {
                assert(sa.take(ei - i) =~= a@.subrange(i as int, ei as int));
                assert(sb.take(ej - j) =~= b@.subrange(j as int, ej as int));
            }
            let c = compare_digit_runs(a, i, ei, b, j, ej);
            if c != 0 {
                return c;
            }
            proof {
                lemma_run_len_bounds(sa);
                lemma_run_len_bounds(sb);
                assert(sa.skip(digit_run_len(sa) as int) =~= a@.skip(ei as int));
                assert(sb.skip(digit_run_len(sb) as int) =~= b@.skip(ej as int));
            }
            i = ei;
            j = ej;
        } else if ca < cb {
            return -1;
        } else if ca > cb {
            return 1;
        } else {
            assert(sa.drop_first() =~= a@.skip(i + 1));
            assert(sb.drop_first() =~= b@.skip(j + 1));
            i = i + 1;
            j = j + 1;
        }
    }
}

/// Every name is equivalent to itself.
pub proof fn lemma_natural_order_reflexive(a: Seq<char>)
    ensures
        natural_order(a, a) == 0,
    decreases a.len(),
{
    if a.len() > 0 {
        lemma_run_len_bounds(a);
        if is_digit(a[0]) {
            lemma_natural_order_reflexive(a.skip(digit_run_len(a) as int));
        } else {
            lemma_natural_order_reflexive(a.drop_first());
        }
    }
}

/// Swapping the two names flips the result.
pub proof fn lemma_natural_order_antisymmetric(a: Seq<char>, b: Seq<char>)
    ensures
        natural_order(a, b) == -natural_order(b, a),
    decreases a.len() + b.len(),
{
    if a.len() > 0 && b.len() > 0 {
        lemma_run_len_bounds(a);
        lemma_run_len_bounds(b);
        if is_digit(a[0]) && is_digit(b[0]) {
            lemma_natural_order_antisymmetric(
                a.skip(digit_run_len(a) as int),
                b.skip(digit_run_len(b) as int),
            );
        } else if a[0] == b[0] {
            lemma_natural_order_antisymmetric(a.drop_first(), b.drop_first());
        }
    }
}

/// "Sorts no later than" is transitive.
pub proof fn lemma_natural_order_transitive(a: Seq<char>, b: Seq<char>, c: Seq<char>)
    requires
        natural_order(a, b) <= 0,
        natural_order(b, c) <= 0,
    ensures
        natural_order(a, c) <= 0,
        natural_order(a, b) < 0 || natural_order(b, c) < 0 ==> natural_order(a, c) < 0,
    decreases a.len() + b.len() + c.len(),
{
    if a.len() > 0 && b.len() > 0 && c.len() > 0 {
        lemma_run_len_bounds(a);
        lemma_run_len_bounds(b);
        lemma_run_len_bounds(c);
        if is_digit(a[0]) && is_digit(b[0]) && is_digit(c[0]) {
            if run_value(a) == run_value(b) && run_value(b) == run_value(c) {
                lemma_natural_order_transitive(
                    a.skip(digit_run_len(a) as int),
                    b.skip(digit_run_len(b) as int),
                    c.skip(digit_run_len(c) as int),
                );
            }
        } else if !is_digit(a[0]) && !is_digit(b[0]) && !is_digit(c[0]) {
            if a[0] == b[0] && b[0] == c[0] {
                lemma_natural_order_transitive(a.drop_first(), b.drop_first(), c.drop_first());
            }
        }
    }
}

/// Names that share a beginning compare as their remainders do, as long as
/// the shared part does not end inside a number.
pub proof fn lemma_shared_prefix(p: Seq<char>, x: Seq<char>, y: Seq<char>)
    requires
        p.len() == 0 || !is_digit(p.last()),
    ensures
        natural_order(p + x, p + y) == natural_order(x, y),
    decreases p.len(),
{
    let (a, b) = (p + x, p + y);
    if p.len() == 0 {
        assert(a =~= x);
        assert(b =~= y);
    } else if !is_digit(p[0]) {
        assert(a[0] == p[0] && b[0] == p[0]);
        assert(a.drop_first() =~= p.drop_first() + x);
        assert(b.drop_first() =~= p.drop_first() + y);
        lemma_shared_prefix(p.drop_first(), x, y);
    } else {
        lemma_run_len_bounds(p);
        let n = digit_run_len(p) as int;
        assert(n < p.len()) by {
            if n == p.len() {
                assert(is_digit(p[p.len() - 1]));
            }
        }
        assert forall|k: int| 0 <= k < n implies is_digit(#[trigger] a[k]) && is_digit(b[k]) by {
            assert(a[k] == p[k] && b[k] == p[k]);
        }
        assert(a[n] == p[n] && b[n] == p[n]);
        lemma_run_len_exact(a, n);
        lemma_run_len_exact(b, n);
        assert(a.take(n) =~= p.take(n));
        assert(b.take(n) =~= p.take(n));
        assert(a.skip(n) =~= p.skip(n) + x);
        assert(b.skip(n) =~= p.skip(n) + y);
        assert(is_digit(a[0]) && is_digit(b[0]));
        lemma_shared_prefix(p.skip(n), x, y);
    }
}

/// A number followed by a name that does not go on with a digit: the
/// numbers decide by value, and equal numbers (leading zeros included) hand
/// the comparison on to what follows them.
pub proof fn lemma_number_then_rest(da: Seq<char>, db: Seq<char>, t: Seq<char>, u: Seq<char>)
    requires
        da.len() > 0,
        db.len() > 0,
        all_digits(da),
        all_digits(db),
        t.len() == 0 || !is_digit(t[0]),
        u.len() == 0 || !is_digit(u[0]),
    ensures
        natural_order(da + t, db + u) == if decimal_value(da) < decimal_value(db) {
            -1
        } else if decimal_value(da) > decimal_value(db) {
            1
        } else {
            natural_order(t, u)
        },
{
    let (a, b) = (da + t, db + u);
    assert forall|k: int| 0 <= k < da.len() implies is_digit(#[trigger] a[k]) by {
        assert(a[k] == da[k]);
    }
    assert forall|k: int| 0 <= k < db.len() implies is_digit(#[trigger] b[k]) by {
        assert(b[k] == db[k]);
    }
    if t.len() > 0 {
        assert(a[da.len() as int] == t[0]);
    }
    if u.len() > 0 {
        assert(b[db.len() as int] == u[0]);
    }
    lemma_run_len_exact(a, da.len() as int);
    lemma_run_len_exact(b, db.len() as int);
    assert(a.take(da.len() as int) =~= da);
    assert(b.take(db.len() as int) =~= db);
    assert(a.skip(da.len() as int) =~= t);
    assert(b.skip(db.len() as int) =~= u);
    assert(is_digit(a[0]) && is_digit(b[0]));
}

/// Numbers compare by value: a name starting with a number sorts before one
/// starting with a larger number, whatever follows them.
pub proof fn lemma_numbers_compare_by_value(da: Seq<char>, db: Seq<char>, t: Seq<char>, u: Seq<char>)
    requires
        da.len() > 0,
        db.len() > 0,
        all_digits(da),
        all_digits(db),
        t.len() == 0 || !is_digit(t[0]),
        u.len() == 0 || !is_digit(u[0]),
        decimal_value(da) < decimal_value(db),
    ensures
        natural_order(da + t, db + u) < 0,
{
    lemma_number_then_rest(da, db, t, u);
}

/// Names that differ only in one number compare as the numbers do, however
/// long the numbers are and whatever zeros lead them: `page_01` and
/// `page_1` are equivalent, `page_2` sorts before `page_10`.
pub proof fn lemma_names_differing_in_a_number(p: Seq<char>, da: Seq<char>, db: Seq<char>, s: Seq<char>)
    requires
        p.len() == 0 || !is_digit(p.last()),
        s.len() == 0 || !is_digit(s[0]),
        da.len() > 0,
        db.len() > 0,
        all_digits(da),
        all_digits(db),
    ensures
        natural_order(p + da + s, p + db + s) == compare_values(decimal_value(da), decimal_value(db)),
{
    assert(p + da + s =~= p + (da + s));
    assert(p + db + s =~= p + (db + s));
    lemma_shared_prefix(p, da + s, db + s);
    lemma_number_then_rest(da, db, s, s);
    lemma_natural_order_reflexive(s);
}

/// Plain lexicographic order by code point, a proper prefix sorting first:
/// -1, 0 or 1.
pub open spec fn lexicographic_order(a: Seq<char>, b: Seq<char>) -> int
    decreases a.len() + b.len(),
{
    if a.len() == 0 && b.len() == 0 {
        0
    } else if a.len() == 0 {
        -1
    } else if b.len() == 0 {
        1
    } else if a[0] < b[0] {
        -1
    } else if a[0] > b[0] {
        1
    } else {
        lexicographic_order(a.drop_first(), b.drop_first())
    }
}

/// A name without digits compares with any other in plain lexicographic
/// order.
pub proof fn lemma_digit_free_is_lexicographic(a: Seq<char>, b: Seq<char>)
    requires
        forall|k: int| 0 <= k < a.len() ==> !is_digit(#[trigger] a[k]),
    ensures
        natural_order(a, b) == lexicographic_order(a, b),
    decreases a.len() + b.len(),
{
    if a.len() > 0 && b.len() > 0 {
        assert(!is_digit(a[0]));
        if a[0] == b[0] {
            let a1 = a.drop_first();
            assert forall|k: int| 0 <= k < a1.len() implies !is_digit(#[trigger] a1[k]) by {
                assert(a1[k] == a[k + 1]);
            }
            lemma_digit_free_is_lexicographic(a1, b.drop_first());
        }
    }
}

} // verus!

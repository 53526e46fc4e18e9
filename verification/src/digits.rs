//! Decimal digit sequences and their numeric values.
//!
//! Amounts recovered from the cart are exact decimals, kept as sequences of
//! digits. The facts proved here connect a digit sequence (most significant
//! digit first) to the natural number it denotes, so that comparing digit
//! sequences positionally can be shown to compare the denoted numbers.

use vstd::prelude::*;

verus! {

/// 10 raised to `n`.
pub open spec fn pow10(n: nat) -> nat
    decreases n,
{
    if n == 0 {
        1
    } else {
        10 * pow10((n - 1) as nat)
    }
}

/// Every element is a decimal digit value, `0..=9`.
pub open spec fn all_digits(s: Seq<u8>) -> bool {
    forall|i: int| 0 <= i < s.len() ==> s[i] <= 9
}

/// The natural number a digit sequence denotes, most significant digit first.
pub open spec fn digits_val(s: Seq<u8>) -> nat
    decreases s.len(),
{
    if s.len() == 0 {
        0
    } else {
        digits_val(s.drop_last()) * 10 + s.last() as nat
    }
}

/// A sequence of `n` zero digits.
pub open spec fn zero_digits(n: nat) -> Seq<u8> {
    Seq::new(n, |i: int| 0u8)
}

pub proof fn lemma_pow10_pos(n: nat)
    ensures
        pow10(n) >= 1,
    decreases n,
{
    if n > 0 {
        lemma_pow10_pos((n - 1) as nat);
    }
}

pub proof fn lemma_pow10_add(m: nat, n: nat)
    ensures
        pow10(m + n) == pow10(m) * pow10(n),
    decreases n,
{
    if n == 0 {
        assert(pow10(m + 0) == pow10(m) * 1);
    } else {
        lemma_pow10_add(m, (n - 1) as nat);
        assert(pow10(m + n) == 10 * pow10((m + n - 1) as nat));
        assert(pow10(m) * pow10(n) == pow10(m) * (10 * pow10((n - 1) as nat)));
        assert(pow10(m) * (10 * pow10((n - 1) as nat)) == 10 * (pow10(m) * pow10((n - 1) as nat)))
            by (nonlinear_arith);
    }
}

pub proof fn lemma_pow10_mono(m: nat, n: nat)
    requires
        m <= n,
    ensures
        pow10(m) <= pow10(n),
{
    lemma_pow10_add(m, (n - m) as nat);
    lemma_pow10_pos((n - m) as nat);
    assert(pow10(m) * 1 <= pow10(m) * pow10((n - m) as nat)) by (nonlinear_arith)
        requires
            pow10((n - m) as nat) >= 1,
            pow10(m) >= 0,
    ;
}

/// Appending digit sequences: the left part is scaled by ten to the length of
/// the right part.
pub proof fn lemma_val_append(a: Seq<u8>, b: Seq<u8>)
    ensures
        digits_val(a + b) == digits_val(a) * pow10(b.len()) + digits_val(b),
    decreases b.len(),
{
    if b.len() == 0 {
        assert(a + b =~= a);
        assert(digits_val(a) * 1 == digits_val(a));
    } else {
        lemma_val_append(a, b.drop_last());
        assert((a + b).drop_last() =~= a + b.drop_last());
        assert((a + b).last() == b.last());
        assert(digits_val(a + b) == digits_val(a + b.drop_last()) * 10 + b.last());
        assert(digits_val(a) * pow10(b.len()) == (digits_val(a) * pow10((b.len() - 1) as nat)) * 10)
            by (nonlinear_arith)
            requires
                pow10(b.len()) == 10 * pow10((b.len() - 1) as nat),
        ;
    }
}

/// A digit sequence of length `n` denotes a number below ten to the `n`.
pub proof fn lemma_val_bound(s: Seq<u8>)
    requires
        all_digits(s),
    ensures
        digits_val(s) < pow10(s.len()),
    decreases s.len(),
{
    if s.len() == 0 {
    } else {
        assert(all_digits(s.drop_last()));
        lemma_val_bound(s.drop_last());
        assert(s.last() <= 9);
        assert(pow10(s.len()) == 10 * pow10((s.len() - 1) as nat));
    }
}

/// A digit sequence denotes zero exactly when every digit is zero.
pub proof fn lemma_val_zero(s: Seq<u8>)
    ensures
        (digits_val(s) == 0) <==> (forall|i: int| 0 <= i < s.len() ==> s[i] == 0),
    decreases s.len(),
{
    if s.len() == 0 {
    } else {
        lemma_val_zero(s.drop_last());
        if digits_val(s) == 0 {
            assert(forall|i: int| 0 <= i < s.len() - 1 ==> s[i] == s.drop_last()[i]);
        } else {
            if forall|i: int| 0 <= i < s.len() ==> s[i] == 0 {
                assert(forall|i: int| 0 <= i < s.len() - 1 ==> s.drop_last()[i] == s[i]);
                assert(digits_val(s.drop_last()) == 0);
                assert(s.last() == 0);
            }
        }
    }
}

/// Appended zero digits only scale the denoted value.
pub proof fn lemma_val_zero_suffix(s: Seq<u8>, n: nat)
    ensures
        digits_val(s + zero_digits(n)) == digits_val(s) * pow10(n),
{
    lemma_val_append(s, zero_digits(n));
    lemma_val_zero(zero_digits(n));
    assert(digits_val(zero_digits(n)) == 0);
}

/// A nonzero leading digit puts the denoted value at or above ten to the
/// length less one.
pub proof fn lemma_val_leading(s: Seq<u8>)
    requires
        s.len() >= 1,
        s[0] >= 1,
    ensures
        digits_val(s) >= pow10((s.len() - 1) as nat),
{
    let head = s.subrange(0, 1);
    let tail = s.subrange(1, s.len() as int);
    assert(s =~= head + tail);
    lemma_val_append(head, tail);
    assert(head.drop_last() =~= Seq::<u8>::empty());
    assert(digits_val(Seq::<u8>::empty()) == 0);
    assert(digits_val(head) == digits_val(head.drop_last()) * 10 + head.last() as nat);
    assert(digits_val(head) == s[0]);
    assert(digits_val(head) * pow10(tail.len()) >= 1 * pow10(tail.len())) by (nonlinear_arith)
        requires
            digits_val(head) >= 1,
            pow10(tail.len()) >= 0,
    ;
}

/// Two digit sequences of one length compare as their digits do at the first
/// position where they differ.
pub proof fn lemma_val_lex(a: Seq<u8>, b: Seq<u8>, i: int)
    requires
        a.len() == b.len(),
        all_digits(a),
        all_digits(b),
        0 <= i < a.len(),
        a.subrange(0, i) == b.subrange(0, i),
        a[i] < b[i],
    ensures
        digits_val(a) < digits_val(b),
{
    let n = a.len() as int;
    let ahead = a.subrange(0, i + 1);
    let atail = a.subrange(i + 1, n);
    let bhead = b.subrange(0, i + 1);
    let btail = b.subrange(i + 1, n);
    assert(a =~= ahead + atail);
    assert(b =~= bhead + btail);
    lemma_val_append(ahead, atail);
    lemma_val_append(bhead, btail);
    assert(ahead.drop_last() =~= a.subrange(0, i));
    assert(bhead.drop_last() =~= b.subrange(0, i));
    assert(digits_val(ahead) == digits_val(a.subrange(0, i)) * 10 + a[i]);
    assert(digits_val(bhead) == digits_val(a.subrange(0, i)) * 10 + b[i]);
    assert(digits_val(ahead) + 1 <= digits_val(bhead));
    assert(all_digits(atail));
    lemma_val_bound(atail);
    let p = pow10(atail.len());
    lemma_pow10_pos(atail.len());
    assert(atail.len() == btail.len());
    assert(digits_val(a) < (digits_val(ahead) + 1) * p) by (nonlinear_arith)
        requires
            digits_val(a) == digits_val(ahead) * p + digits_val(atail),
            digits_val(atail) < p,
    ;
    assert((digits_val(ahead) + 1) * p <= digits_val(bhead) * p) by (nonlinear_arith)
        requires
            digits_val(ahead) + 1 <= digits_val(bhead),
            p >= 1,
    ;
    assert(digits_val(bhead) * p <= digits_val(b));
}

/// Digit sequences of one length denoting one number are one sequence.
pub proof fn lemma_val_inj(a: Seq<u8>, b: Seq<u8>)
    requires
        a.len() == b.len(),
        all_digits(a),
        all_digits(b),
        digits_val(a) == digits_val(b),
    ensures
        a == b,
    decreases a.len(),
{
    if a.len() == 0 {
        assert(a =~= b);
    } else {
        if a[0] != b[0] {
            assert(a.subrange(0, 0) =~= b.subrange(0, 0));
            if a[0] < b[0] {
                lemma_val_lex(a, b, 0);
            } else {
                lemma_val_lex(b, a, 0);
            }
            assert(false);
        }
        let at = a.subrange(1, a.len() as int);
        let bt = b.subrange(1, b.len() as int);
        assert(a =~= a.subrange(0, 1) + at);
        assert(b =~= b.subrange(0, 1) + bt);
        lemma_val_append(a.subrange(0, 1), at);
        lemma_val_append(b.subrange(0, 1), bt);
        assert(a.subrange(0, 1) =~= b.subrange(0, 1));
        assert(digits_val(at) == digits_val(bt));
        assert(all_digits(at) && all_digits(bt));
        lemma_val_inj(at, bt);
        assert(a =~= b);
    }
}

/// Scaling both sides by a positive factor preserves strict order.
pub proof fn lemma_mul_cancel_gt(x: int, y: int, p: int)
    requires
        p >= 1,
    ensures
        (x * p > y * p) <==> (x > y),
        (x * p == y * p) <==> (x == y),
{
    assert((x * p > y * p) <==> (x > y)) by (nonlinear_arith)
        requires
            p >= 1,
    ;
    assert((x * p == y * p) <==> (x == y)) by (nonlinear_arith)
        requires
            p >= 1,
    ;
}

} // verus!

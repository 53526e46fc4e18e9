//! Exact decimal amounts.
//!
//! The recovered price and the configured threshold are decimal literals. They
//! are kept exactly, as a sign and two digit sequences, so that the threshold
//! comparison is exact for every input the grammar admits. An `Amount` is
//! always in canonical form: no leading zero before the point, no trailing
//! zero after it, and zero is never negative. Canonical form makes structural
//! equality coincide with equality of the denoted numbers.

use vstd::prelude::*;
use vstd::string::*;

use crate::digits::{
    all_digits, digits_val, lemma_mul_cancel_gt, lemma_pow10_add, lemma_pow10_mono,
    lemma_pow10_pos, lemma_val_append, lemma_val_bound, lemma_val_inj, lemma_val_leading,
    lemma_val_lex, lemma_val_zero, lemma_val_zero_suffix, pow10, zero_digits,
};

verus! {

/// The mathematical content of an `Amount`: a sign and the digits before and
/// after the decimal point.
#[verifier::ext_equal]
pub struct AmountModel {
    pub negative: bool,
    pub int_digits: Seq<u8>,
    pub frac_digits: Seq<u8>,
}

impl AmountModel {
    /// The denoted magnitude, scaled by ten to the number of fraction digits.
    pub open spec fn magnitude(self) -> nat {
        digits_val(self.int_digits) * pow10(self.frac_digits.len()) + digits_val(self.frac_digits)
    }

    /// The number of fraction digits; the denoted value is `numer` over ten
    /// to this.
    pub open spec fn scale(self) -> nat {
        self.frac_digits.len()
    }

    /// The signed numerator of the denoted value over ten to `scale`.
    pub open spec fn numer(self) -> int {
        if self.negative {
            -(self.magnitude() as int)
        } else {
            self.magnitude() as int
        }
    }

    /// Canonical form: digits are digits, at least one digit before the
    /// point, no leading zero there, no trailing zero after the point, and
    /// zero is not negative.
    pub open spec fn wf(self) -> bool {
        &&& all_digits(self.int_digits)
        &&& all_digits(self.frac_digits)
        &&& self.int_digits.len() >= 1
        &&& (self.int_digits.len() > 1 ==> self.int_digits[0] != 0)
        &&& (self.frac_digits.len() > 0 ==> self.frac_digits.last() != 0)
        &&& (self.negative ==> self.magnitude() > 0)
    }
}

/// The two models denote one number.
pub open spec fn val_eq(a: AmountModel, b: AmountModel) -> bool {
    a.numer() * pow10(b.scale()) == b.numer() * pow10(a.scale())
}

/// The first model denotes a strictly greater number than the second.
pub open spec fn val_gt(a: AmountModel, b: AmountModel) -> bool {
    a.numer() * pow10(b.scale()) > b.numer() * pow10(a.scale())
}

/// Denoting one number is indifferent to which of the two models stands on
/// either side of a comparison.
pub proof fn lemma_val_eq_gt(a: AmountModel, b: AmountModel, c: AmountModel)
    requires
        val_eq(a, b),
    ensures
        val_gt(a, c) == val_gt(b, c),
        val_gt(c, a) == val_gt(c, b),
{
    let pa = pow10(a.scale()) as int;
    let pb = pow10(b.scale()) as int;
    let pc = pow10(c.scale()) as int;
    lemma_pow10_pos(a.scale());
    lemma_pow10_pos(b.scale());
    lemma_pow10_pos(c.scale());
    let na = a.numer();
    let nb = b.numer();
    let nc = c.numer();
    assert((na * pc > nc * pa) == (nb * pc > nc * pb)) by (nonlinear_arith)
        requires
            na * pb == nb * pa,
            pa >= 1,
            pb >= 1,
            pc >= 1,
    ;
    assert((nc * pa > na * pc) == (nc * pb > nb * pc)) by (nonlinear_arith)
        requires
            na * pb == nb * pa,
            pa >= 1,
            pb >= 1,
            pc >= 1,
    ;
}

/// One number has one canonical model: two well-formed models that denote
/// one number are equal, so structural equality of amounts is equality of
/// the numbers they denote.
pub proof fn lemma_canonical_unique(a: AmountModel, b: AmountModel)
    requires
        a.wf(),
        b.wf(),
        val_eq(a, b),
    ensures
        a =~= b,
{
    let pa = pow10(a.scale()) as int;
    let pb = pow10(b.scale()) as int;
    lemma_pow10_pos(a.scale());
    lemma_pow10_pos(b.scale());
    if a.magnitude() == 0 {
        assert(b.numer() * pa == 0);
        assert(b.numer() == 0) by (nonlinear_arith)
            requires
                b.numer() * pa == 0,
                pa >= 1,
        ;
        lemma_zero_shape(a);
        lemma_zero_shape(b);
        assert(a =~= b);
    } else {
        // Both magnitudes are positive and the signs agree.
        assert(a.numer() != 0);
        assert(b.numer() * pa == a.numer() * pb);
        assert(b.numer() != 0) by (nonlinear_arith)
            requires
                b.numer() * pa == a.numer() * pb,
                a.numer() != 0,
                pa >= 1,
                pb >= 1,
        ;
        assert(b.magnitude() > 0);
        assert((a.numer() > 0) == (b.numer() > 0)) by (nonlinear_arith)
            requires
                a.numer() * pb == b.numer() * pa,
                pa >= 1,
                pb >= 1,
                a.numer() != 0,
                b.numer() != 0,
        ;
        assert(a.negative == b.negative);
        let ma = a.magnitude() as int;
        let mb = b.magnitude() as int;
        assert(ma * pb == mb * pa) by (nonlinear_arith)
            requires
                a.numer() * pb == b.numer() * pa,
                a.numer() == ma || a.numer() == -ma,
                b.numer() == mb || b.numer() == -mb,
                a.negative == b.negative,
                (a.negative ==> a.numer() == -ma && b.numer() == -mb),
                (!a.negative ==> a.numer() == ma && b.numer() == mb),
        ;
        // The scales agree: a spare factor of ten would end the shorter
        // fraction in a zero, which canonical form forbids.
        if a.scale() < b.scale() {
            lemma_scale_match(a, b);
        } else if b.scale() < a.scale() {
            assert(mb * pa == ma * pb);
            lemma_scale_match(b, a);
        }
        assert(a.scale() == b.scale());
        assert(ma == mb) by (nonlinear_arith)
            requires
                ma * pb == mb * pa,
                pa == pb,
                pa >= 1,
        ;
        // One magnitude at one scale has one digit form.
        lemma_val_bound(a.frac_digits);
        lemma_val_bound(b.frac_digits);
        let ia = digits_val(a.int_digits) as int;
        let ib = digits_val(b.int_digits) as int;
        let fa = digits_val(a.frac_digits) as int;
        let fb = digits_val(b.frac_digits) as int;
        assert(ia == ib && fa == fb) by (nonlinear_arith)
            requires
                ia * pa + fa == ib * pa + fb,
                0 <= fa < pa,
                0 <= fb < pa,
                0 <= ia,
                0 <= ib,
                pa >= 1,
        ;
        lemma_val_inj(a.frac_digits, b.frac_digits);
        if a.int_digits.len() != b.int_digits.len() {
            if a.int_digits.len() > b.int_digits.len() {
                lemma_int_len(a.int_digits, b.int_digits);
            } else {
                lemma_int_len(b.int_digits, a.int_digits);
            }
        }
        lemma_val_inj(a.int_digits, b.int_digits);
        assert(a =~= b);
    }
}

/// A canonical model of magnitude zero is the one form of zero.
proof fn lemma_zero_shape(m: AmountModel)
    requires
        m.wf(),
        m.numer() == 0,
    ensures
        m.negative == false,
        m.int_digits =~= seq![0u8],
        m.frac_digits =~= Seq::<u8>::empty(),
{
    lemma_pow10_pos(m.scale());
    assert(digits_val(m.int_digits) * pow10(m.scale()) == 0 && digits_val(m.frac_digits) == 0);
    assert(digits_val(m.int_digits) == 0) by (nonlinear_arith)
        requires
            digits_val(m.int_digits) * pow10(m.scale()) == 0,
            pow10(m.scale()) >= 1,
    ;
    lemma_val_zero(m.int_digits);
    lemma_val_zero(m.frac_digits);
    if m.frac_digits.len() > 0 {
        assert(m.frac_digits.last() == 0);
        assert(false);
    }
    assert(m.int_digits.len() == 1);
}

/// Two canonical integer parts of different lengths denote different
/// numbers.
proof fn lemma_int_len(a: Seq<u8>, b: Seq<u8>)
    requires
        all_digits(a),
        all_digits(b),
        a.len() > b.len() >= 1,
        a[0] != 0,
    ensures
        digits_val(a) != digits_val(b),
{
    lemma_val_leading(a);
    lemma_val_bound(b);
    lemma_pow10_mono(b.len(), (a.len() - 1) as nat);
}

/// Two canonical models of one number have one scale: were one fraction
/// shorter, the longer would have to end in a zero digit.
proof fn lemma_scale_match(a: AmountModel, b: AmountModel)
    requires
        a.wf(),
        b.wf(),
        a.scale() <= b.scale(),
        a.magnitude() as int * pow10(b.scale()) == b.magnitude() as int * pow10(a.scale()),
    ensures
        a.scale() == b.scale(),
{
    if a.scale() < b.scale() {
        let d = (b.scale() - a.scale()) as nat;
        lemma_pow10_pos(a.scale());
        lemma_pow10_add(a.scale(), d);
        // Cancel the common factor: the magnitude of `b` is the magnitude of
        // `a` times a positive power of ten.
        let ma = a.magnitude() as int;
        let mb = b.magnitude() as int;
        let pa = pow10(a.scale()) as int;
        let pd = pow10(d) as int;
        assert(ma * (pd * pa) == mb * pa) by (nonlinear_arith)
            requires
                ma * (pa * pd) == mb * pa,
        ;
        assert(ma * pd == mb) by (nonlinear_arith)
            requires
                ma * (pd * pa) == mb * pa,
                pa >= 1,
        ;
        // So `b`'s magnitude is a multiple of ten ...
        assert(d >= 1);
        assert(pd == 10 * pow10((d - 1) as nat));
        let q = ma * pow10((d - 1) as nat) as int;
        assert(mb == 10 * q) by (nonlinear_arith)
            requires
                mb == ma * pd,
                pd == 10 * pow10((d - 1) as nat),
                q == ma * pow10((d - 1) as nat) as int,
        ;
        // ... yet it ends in its fraction's last digit, which is not zero.
        assert(b.scale() >= 1);
        assert(b.frac_digits.len() >= 1);
        let fb = b.frac_digits;
        assert(digits_val(fb) == digits_val(fb.drop_last()) * 10 + fb.last() as nat);
        assert(b.magnitude() == digits_val(b.int_digits) * pow10(b.scale()) + digits_val(fb));
        assert(pow10(b.scale()) == 10 * pow10((b.scale() - 1) as nat));
        let h = digits_val(b.int_digits) as int * pow10((b.scale() - 1) as nat) as int + digits_val(
            fb.drop_last(),
        ) as int;
        assert(mb == 10 * h + fb.last() as int) by (nonlinear_arith)
            requires
                mb == digits_val(b.int_digits) as int * (10 * pow10((b.scale() - 1) as nat) as int)
                    + digits_val(fb.drop_last()) as int * 10 + fb.last() as int,
                h == digits_val(b.int_digits) as int * pow10((b.scale() - 1) as nat) as int
                    + digits_val(fb.drop_last()) as int,
        ;
        assert(1 <= fb.last() <= 9);
        assert(10 * q == 10 * h + fb.last() as int ==> false) by (nonlinear_arith)
            requires
                1 <= fb.last() as int <= 9,
        ;
    }
}

/// An exact decimal: sign, digits before the point, digits after it.
/// Kept in canonical form by every constructor.
#[derive(Debug, PartialEq, Eq, Clone)]
pub struct Amount {
    negative: bool,
    int_digits: Vec<u8>,
    frac_digits: Vec<u8>,
}

impl View for Amount {
    type V = AmountModel;

    closed spec fn view(&self) -> AmountModel {
        AmountModel {
            negative: self.negative,
            int_digits: self.int_digits@,
            frac_digits: self.frac_digits@,
        }
    }
}

/// A verified copy of a digit vector.
fn copy_bytes(v: &Vec<u8>) -> (r: Vec<u8>)
    ensures
        r@ == v@,
{
    let mut r: Vec<u8> = Vec::new();
    let mut i: usize = 0;
    while i < v.len()
        invariant
            i <= v.len(),
            r@ == v@.subrange(0, i as int),
        decreases v.len() - i,
    {
        r.push(v[i]);
        assert(r@ =~= v@.subrange(0, i + 1));
        i += 1;
    }
    assert(r@ =~= v@);
    r
}

impl Amount {
    /// A copy that denotes the same number.
    pub fn duplicate(&self) -> (r: Amount)
        ensures
            r@ == self@,
    {
        let r = Amount {
            negative: self.negative,
            int_digits: copy_bytes(&self.int_digits),
            frac_digits: copy_bytes(&self.frac_digits),
        };
        r
    }

    /// Builds the canonical amount denoting
    /// `(-1)^negative * int_digits.frac_digits`: leading zeros before the
    /// point and trailing zeros after it are dropped, an empty integer part
    /// becomes the single digit zero, and a zero magnitude loses its sign.
    pub fn new(negative: bool, int_digits: Vec<u8>, frac_digits: Vec<u8>) -> (r: Amount)
        requires
            all_digits(int_digits@),
            all_digits(frac_digits@),
        ensures
            r@.wf(),
            val_eq(
                r@,
                AmountModel { negative, int_digits: int_digits@, frac_digits: frac_digits@ },
            ),
    {
        let raw = Ghost(
            AmountModel { negative, int_digits: int_digits@, frac_digits: frac_digits@ },
        );

        // Skip the leading zeros of the integer part.
        let mut k: usize = 0;
        while k < int_digits.len() && int_digits[k] == 0
            invariant
                k <= int_digits@.len(),
                forall|i: int| 0 <= i < k ==> int_digits@[i] == 0,
            decreases int_digits.len() - k,
        {
            k += 1;
        }
        let mut ci: Vec<u8> = Vec::new();
        if k == int_digits.len() {
            ci.push(0);
        } else {
            let mut j: usize = k;
            while j < int_digits.len()
                invariant
                    k <= j <= int_digits@.len(),
                    ci@ == int_digits@.subrange(k as int, j as int),
                decreases int_digits.len() - j,
            {
                ci.push(int_digits[j]);
                assert(ci@ =~= int_digits@.subrange(k as int, j + 1));
                j += 1;
            }
        }
        proof {
            // Dropping leading zeros keeps the denoted integer part.
            let zs = int_digits@.subrange(0, k as int);
            lemma_val_zero(zs);
            if k == int_digits@.len() {
                assert(zs =~= int_digits@);
                lemma_val_zero(int_digits@);
                assert(digits_val(int_digits@) == 0);
                assert(ci@ =~= seq![0u8]);
                assert(seq![0u8].drop_last() =~= Seq::<u8>::empty());
                assert(digits_val(Seq::<u8>::empty()) == 0);
                assert(digits_val(seq![0u8]) == digits_val(seq![0u8].drop_last()) * 10 + seq![
                    0u8,
                ].last() as nat);
                assert(digits_val(ci@) == 0);
            } else {
                let rest = int_digits@.subrange(k as int, int_digits@.len() as int);
                assert(int_digits@ =~= zs + rest);
                lemma_val_append(zs, rest);
                assert(ci@ =~= rest);
                assert(digits_val(zs) == 0);
                assert(digits_val(int_digits@) == 0 * pow10(rest.len()) + digits_val(rest));
            }
            assert(digits_val(ci@) == digits_val(int_digits@));
            assert(all_digits(ci@));
            assert(ci@.len() > 1 ==> ci@[0] != 0);
        }

        // Drop the trailing zeros of the fraction part.
        let mut m: usize = frac_digits.len();
        while m > 0 && frac_digits[m - 1] == 0
            invariant
                m <= frac_digits@.len(),
                forall|i: int| m <= i < frac_digits@.len() ==> frac_digits@[i] == 0,
            decreases m,
        {
            m -= 1;
        }
        let mut cf: Vec<u8> = Vec::new();
        let mut j: usize = 0;
        while j < m
            invariant
                j <= m <= frac_digits@.len(),
                cf@ == frac_digits@.subrange(0, j as int),
            decreases m - j,
        {
            cf.push(frac_digits[j]);
            assert(cf@ =~= frac_digits@.subrange(0, j + 1));
            j += 1;
        }
        proof {
            // Dropping trailing zeros scales the fraction down by a power of
            // ten and shrinks the scale to match.
            let kept = frac_digits@.subrange(0, m as int);
            let dropped = (frac_digits@.len() - m) as nat;
            assert(frac_digits@ =~= kept + zero_digits(dropped));
            lemma_val_zero_suffix(kept, dropped);
            assert(cf@ =~= kept);
            assert(digits_val(frac_digits@) == digits_val(cf@) * pow10(dropped));
            assert(all_digits(cf@));
            assert(cf@.len() > 0 ==> cf@.last() != 0);
        }

        // A zero magnitude is never negative in canonical form.
        let is_zero = ci.len() == 1 && ci[0] == 0 && cf.len() == 0;
        let neg = negative && !is_zero;
        let r = Amount { negative: neg, int_digits: ci, frac_digits: cf };
        proof {
            let c = r@;
            let dropped = (frac_digits@.len() - m) as nat;
            lemma_pow10_pos(dropped);
            if is_zero {
                assert(c.int_digits =~= seq![0u8]);
                assert(seq![0u8].drop_last() =~= Seq::<u8>::empty());
                assert(digits_val(Seq::<u8>::empty()) == 0);
                assert(digits_val(seq![0u8]) == digits_val(seq![0u8].drop_last()) * 10 + seq![
                    0u8,
                ].last() as nat);
                assert(digits_val(c.int_digits) == 0);
                assert(digits_val(c.frac_digits) == 0);
                assert(c.magnitude() == 0);
            } else {
                if c.int_digits.len() == 1 && c.int_digits[0] == 0 {
                    assert(c.frac_digits.len() > 0);
                    assert(c.frac_digits.last() != 0);
                    lemma_val_zero(c.frac_digits);
                    assert(digits_val(c.frac_digits) > 0);
                } else {
                    assert(digits_val(c.int_digits) > 0) by {
                        lemma_val_zero(c.int_digits);
                        if c.int_digits.len() == 1 {
                            assert(c.int_digits[0] != 0);
                        } else {
                            assert(c.int_digits[0] != 0);
                        }
                    }
                    lemma_pow10_pos(c.scale());
                    assert(digits_val(c.int_digits) * pow10(c.scale()) >= 1 * pow10(c.scale()))
                        by (nonlinear_arith)
                        requires
                            digits_val(c.int_digits) >= 1,
                            pow10(c.scale()) >= 1,
                    ;
                }
                assert(c.magnitude() > 0);
            }
            assert(c.wf());

            // The canonical form denotes the raw value.
            let rm = raw@;
            assert(rm.scale() == c.scale() + dropped);
            lemma_pow10_add(c.scale(), dropped);
            assert(rm.magnitude() == digits_val(rm.int_digits) * pow10(rm.scale()) + digits_val(
                rm.frac_digits,
            ));
            assert(digits_val(rm.int_digits) * (pow10(c.scale()) * pow10(dropped)) == (digits_val(
                rm.int_digits,
            ) * pow10(c.scale())) * pow10(dropped)) by (nonlinear_arith);
            assert(rm.magnitude() == (digits_val(c.int_digits) * pow10(c.scale())) * pow10(dropped)
                + digits_val(c.frac_digits) * pow10(dropped));
            assert(rm.magnitude() == c.magnitude() * pow10(dropped)) by (nonlinear_arith)
                requires
                    rm.magnitude() == (digits_val(c.int_digits) * pow10(c.scale())) * pow10(dropped)
                        + digits_val(c.frac_digits) * pow10(dropped),
                    c.magnitude() == digits_val(c.int_digits) * pow10(c.scale()) + digits_val(
                        c.frac_digits,
                    ),
            ;
            // Cross-multiplied equality of the two fractions.
            assert(c.numer() * pow10(rm.scale()) == rm.numer() * pow10(c.scale()))
                by (nonlinear_arith)
                requires
                    rm.magnitude() == c.magnitude() * pow10(dropped),
                    pow10(rm.scale()) == pow10(c.scale()) * pow10(dropped),
                    c.numer() == if c.negative {
                        -(c.magnitude() as int)
                    } else {
                        c.magnitude() as int
                    },
                    rm.numer() == if rm.negative {
                        -(rm.magnitude() as int)
                    } else {
                        rm.magnitude() as int
                    },
                    c.negative == rm.negative || (c.magnitude() == 0 && rm.magnitude() == 0),
            ;
            assert(val_eq(c, rm));
        }
        r
    }
}

/// The magnitudes compared as fractions: `|a| > |b|` cross-multiplied.
pub open spec fn mag_gt_spec(a: AmountModel, b: AmountModel) -> bool {
    a.magnitude() * pow10(b.scale()) > b.magnitude() * pow10(a.scale())
}

/// The digits of a model written out at scale `l`: integer digits, fraction
/// digits, and zeros up to `l` fraction places.
pub open spec fn ext_digits(m: AmountModel, l: nat) -> Seq<u8>
    recommends
        l >= m.scale(),
{
    m.int_digits + m.frac_digits + zero_digits((l - m.scale()) as nat)
}

/// Writing a model out at a common scale multiplies its magnitude by the
/// missing power of ten.
pub proof fn lemma_ext_val(m: AmountModel, l: nat)
    requires
        all_digits(m.int_digits),
        all_digits(m.frac_digits),
        l >= m.scale(),
    ensures
        ext_digits(m, l).len() == m.int_digits.len() + l,
        all_digits(ext_digits(m, l)),
        digits_val(ext_digits(m, l)) == m.magnitude() * pow10((l - m.scale()) as nat),
{
    let d = (l - m.scale()) as nat;
    let zs = zero_digits(d);
    let fz = m.frac_digits + zs;
    assert(ext_digits(m, l) =~= m.int_digits + fz);
    lemma_val_zero_suffix(m.frac_digits, d);
    lemma_val_append(m.int_digits, fz);
    lemma_pow10_add(m.scale(), d);
    assert(digits_val(ext_digits(m, l)) == digits_val(m.int_digits) * (pow10(m.scale()) * pow10(d))
        + digits_val(m.frac_digits) * pow10(d));
    assert(digits_val(m.int_digits) * (pow10(m.scale()) * pow10(d)) == (digits_val(m.int_digits)
        * pow10(m.scale())) * pow10(d)) by (nonlinear_arith);
    assert((digits_val(m.int_digits) * pow10(m.scale())) * pow10(d) + digits_val(m.frac_digits)
        * pow10(d) == m.magnitude() * pow10(d)) by (nonlinear_arith)
        requires
            m.magnitude() == digits_val(m.int_digits) * pow10(m.scale()) + digits_val(
                m.frac_digits,
            ),
    ;
    assert forall|i: int| 0 <= i < ext_digits(m, l).len() implies ext_digits(m, l)[i] <= 9 by {
        let s = ext_digits(m, l);
        let li = m.int_digits.len() as int;
        let lf = m.frac_digits.len() as int;
        if i < li {
            assert(s[i] == m.int_digits[i]);
        } else if i < li + lf {
            assert(s[i] == m.frac_digits[i - li]);
        } else {
            assert(s[i] == zs[i - li - lf]);
        }
    }
}

/// Positional comparison of two magnitudes, most significant digit first,
/// fractions padded with zeros to a common scale.
#[verifier::loop_isolation(false)]
fn mag_gt(a: &Amount, b: &Amount) -> (r: bool)
    requires
        a@.wf(),
        b@.wf(),
    ensures
        r == mag_gt_spec(a@, b@),
{
    let la = a.int_digits.len();
    let lb = b.int_digits.len();
    let sa = a.frac_digits.len();
    let sb = b.frac_digits.len();
    let l = if sa > sb {
        sa
    } else {
        sb
    };
    let ghost am = a@;
    let ghost bm = b@;
    let ghost aa = ext_digits(am, l as nat);
    let ghost bb = ext_digits(bm, l as nat);
    proof {
        lemma_ext_val(am, l as nat);
        lemma_ext_val(bm, l as nat);
        // Comparing the written-out digit strings is comparing the
        // magnitudes as fractions.
        let d = (sa + sb - l) as nat;
        lemma_pow10_pos(d);
        lemma_pow10_add((l - sa) as nat, d);
        lemma_pow10_add((l - sb) as nat, d);
        assert(digits_val(aa) * pow10(d) == am.magnitude() * pow10(sb as nat))
            by (nonlinear_arith)
            requires
                digits_val(aa) == am.magnitude() * pow10((l - sa) as nat),
                pow10(sb as nat) == pow10((l - sa) as nat) * pow10(d),
        ;
        assert(digits_val(bb) * pow10(d) == bm.magnitude() * pow10(sa as nat))
            by (nonlinear_arith)
            requires
                digits_val(bb) == bm.magnitude() * pow10((l - sb) as nat),
                pow10(sa as nat) == pow10((l - sb) as nat) * pow10(d),
        ;
        lemma_mul_cancel_gt(digits_val(aa) as int, digits_val(bb) as int, pow10(d) as int);
        assert((digits_val(aa) > digits_val(bb)) == mag_gt_spec(am, bm));
    }
    if la != lb {
        proof {
            if la > lb {
                assert(aa[0] == am.int_digits[0]);
                lemma_val_leading(aa);
                lemma_val_bound(bb);
                lemma_pow10_mono(bb.len(), (aa.len() - 1) as nat);
                assert(digits_val(aa) > digits_val(bb));
            } else {
                assert(bb[0] == bm.int_digits[0]);
                lemma_val_leading(bb);
                lemma_val_bound(aa);
                lemma_pow10_mono(aa.len(), (bb.len() - 1) as nat);
                assert(digits_val(bb) > digits_val(aa));
            }
        }
        return la > lb;
    }
    // The integer parts have one length: the first differing digit decides.
    let mut k: usize = 0;
    while k < la
        invariant
            0 <= k <= la,
            forall|i: int| 0 <= i < k ==> am.int_digits[i] == bm.int_digits[i],
        decreases la - k,
    {
        let da = a.int_digits[k];
        let db = b.int_digits[k];
        if da != db {
            proof {
                assert(aa.subrange(0, k as int) =~= bb.subrange(0, k as int));
                assert(aa[k as int] == da && bb[k as int] == db);
                if da > db {
                    lemma_val_lex(bb, aa, k as int);
                } else {
                    lemma_val_lex(aa, bb, k as int);
                }
            }
            return da > db;
        }
        k += 1;
    }
    // The fraction digits, padded with zeros to the common scale.
    let mut j: usize = 0;
    while j < l
        invariant
            0 <= j <= l,
            forall|i: int| 0 <= i < j ==> #[trigger] aa[la + i] == bb[la + i],
        decreases l - j,
    {
        let da = if j < sa {
            a.frac_digits[j]
        } else {
            0
        };
        let db = if j < sb {
            b.frac_digits[j]
        } else {
            0
        };
        proof {
            assert(aa[la + j] == da && bb[la + j] == db);
        }
        if da != db {
            proof {
                assert forall|i: int| 0 <= i < la + j implies aa[i] == bb[i] by {
                    if i < la {
                        assert(aa[i] == am.int_digits[i]);
                        assert(bb[i] == bm.int_digits[i]);
                    } else {
                        assert(aa[la + (i - la)] == bb[la + (i - la)]);
                    }
                }
                assert(aa.subrange(0, la + j) =~= bb.subrange(0, la + j));
                if da > db {
                    lemma_val_lex(bb, aa, la + j);
                } else {
                    lemma_val_lex(aa, bb, la + j);
                }
            }
            return da > db;
        }
        j += 1;
    }
    proof {
        assert forall|i: int| 0 <= i < aa.len() implies aa[i] == bb[i] by {
            if i < la {
                assert(aa[i] == am.int_digits[i]);
                assert(bb[i] == bm.int_digits[i]);
            } else {
                assert(aa[la + (i - la)] == bb[la + (i - la)]);
            }
        }
        assert(aa =~= bb);
    }
    false
}

impl Amount {
    /// Whether this amount is strictly greater than `other`.
    pub fn gt(&self, other: &Amount) -> (r: bool)
        requires
            self@.wf(),
            other@.wf(),
        ensures
            r == val_gt(self@, other@),
    {
        let am = Ghost(self@);
        let bm = Ghost(other@);
        proof {
            lemma_pow10_pos(am@.scale());
            lemma_pow10_pos(bm@.scale());
        }
        if self.negative != other.negative {
            proof {
                let pa = pow10(am@.scale()) as int;
                let pb = pow10(bm@.scale()) as int;
                if bm@.negative {
                    // A nonnegative number exceeds a negative one.
                    assert(am@.magnitude() * pb >= 0) by (nonlinear_arith)
                        requires
                            pb >= 0,
                    ;
                    assert(bm@.magnitude() * pa >= 1) by (nonlinear_arith)
                        requires
                            bm@.magnitude() >= 1,
                            pa >= 1,
                    ;
                    assert(bm@.numer() * pa == -(bm@.magnitude() as int * pa))
                        by (nonlinear_arith)
                        requires
                            bm@.numer() == -(bm@.magnitude() as int),
                    ;
                    assert(val_gt(am@, bm@));
                } else {
                    assert(bm@.magnitude() * pa >= 0) by (nonlinear_arith)
                        requires
                            pa >= 0,
                    ;
                    assert(am@.magnitude() * pb >= 1) by (nonlinear_arith)
                        requires
                            am@.magnitude() >= 1,
                            pb >= 1,
                    ;
                    assert(am@.numer() * pb == -(am@.magnitude() as int * pb))
                        by (nonlinear_arith)
                        requires
                            am@.numer() == -(am@.magnitude() as int),
                    ;
                    assert(!val_gt(am@, bm@));
                }
            }
            return !self.negative;
        }
        if !self.negative {
            let r = mag_gt(self, other);
            proof {
                assert(val_gt(am@, bm@) == mag_gt_spec(am@, bm@));
            }
            r
        } else {
            // Both negative: the smaller magnitude is the greater number.
            let r = mag_gt(other, self);
            proof {
                let pa = pow10(am@.scale()) as int;
                let pb = pow10(bm@.scale()) as int;
                assert(am@.numer() * pb == -(am@.magnitude() as int * pb)) by (nonlinear_arith)
                    requires
                        am@.numer() == -(am@.magnitude() as int),
                ;
                assert(bm@.numer() * pa == -(bm@.magnitude() as int * pa)) by (nonlinear_arith)
                    requires
                        bm@.numer() == -(bm@.magnitude() as int),
                ;
                assert(val_gt(am@, bm@) == mag_gt_spec(bm@, am@));
            }
            r
        }
    }
}

/// A decimal digit character.
pub open spec fn is_digit_char(c: char) -> bool {
    48 <= c as u32 && c as u32 <= 57
}

/// The digit value of a decimal digit character.
pub open spec fn digit_of(c: char) -> u8 {
    (c as u32 - 48) as u8
}

/// The digit values of a run of digit characters.
pub open spec fn to_digits(t: Seq<char>) -> Seq<u8> {
    Seq::new(t.len(), |i: int| digit_of(t[i]))
}

/// Every character is a decimal digit.
pub open spec fn digits_only(t: Seq<char>) -> bool {
    forall|i: int| 0 <= i < t.len() ==> is_digit_char(t[i])
}

/// How many characters an optional leading sign takes.
pub open spec fn sign_len(s: Seq<char>) -> int {
    if s.len() > 0 && (s[0] == '+' || s[0] == '-') {
        1
    } else {
        0
    }
}

/// The characters after the optional sign.
pub open spec fn body_of(s: Seq<char>) -> Seq<char> {
    s.subrange(sign_len(s), s.len() as int)
}

/// `k` is the position of the one decimal point of `t`, with nothing but
/// digits around it and at least one digit in all.
pub open spec fn dot_at(t: Seq<char>, k: int) -> bool {
    &&& 0 <= k < t.len()
    &&& t[k] == '.'
    &&& digits_only(t.subrange(0, k))
    &&& digits_only(t.subrange(k + 1, t.len() as int))
    &&& t.len() >= 2
}

/// The grammar of a decimal literal, and the model it denotes: an optional
/// sign, then digits, with at most one decimal point somewhere among them and
/// at least one digit in all. Anything else denotes nothing.
pub open spec fn parse_number_spec(s: Seq<char>) -> Option<AmountModel> {
    let neg = s.len() > 0 && s[0] == '-';
    let t = body_of(s);
    if t.len() >= 1 && digits_only(t) {
        Some(
            AmountModel {
                negative: neg,
                int_digits: to_digits(t),
                frac_digits: Seq::empty(),
            },
        )
    } else if exists|k: int| dot_at(t, k) {
        let k = choose|k: int| dot_at(t, k);
        Some(
            AmountModel {
                negative: neg,
                int_digits: to_digits(t.subrange(0, k)),
                frac_digits: to_digits(t.subrange(k + 1, t.len() as int)),
            },
        )
    } else {
        None
    }
}

/// The recorded position of the decimal point, or a stand-in when none has
/// been seen.
pub open spec fn dot_idx(dot: Option<usize>) -> int {
    match dot {
        Some(d) => d as int,
        None => -1,
    }
}

/// Parses a decimal literal. Returns the canonical amount it denotes, or
/// nothing when `s` does not fit the grammar.
#[verifier::loop_isolation(false)]
pub fn parse_amount(s: &str) -> (r: Option<Amount>)
    ensures
        (r is Some) == (parse_number_spec(s@) is Some),
        r matches Some(a) ==> a@.wf() && val_eq(a@, parse_number_spec(s@).unwrap()),
{
    let n = s.unicode_len();
    let mut start: usize = 0;
    let mut neg = false;
    if n > 0 {
        let c0 = s.get_char(0);
        if c0 == '+' || c0 == '-' {
            start = 1;
            neg = c0 == '-';
        }
    }
    let ghost t = body_of(s@);
    proof {
        assert(start as int == sign_len(s@));
        assert(neg == (s@.len() > 0 && s@[0] == '-'));
        assert(t.len() == n - start);
        assert(forall|i: int| 0 <= i < t.len() ==> t[i] == s@[start + i]);
    }

    // One scan: everything must be a digit, except at most one decimal point.
    let mut dot: Option<usize> = None;
    let mut ok = true;
    let mut any_digit = false;
    let mut p: usize = start;
    while p < n
        invariant
            start <= p <= n,
            dot matches Some(d) ==> start <= d < p && s@[d as int] == '.',
            ok ==> forall|q: int|
                start <= q < p && q != dot_idx(dot) ==> is_digit_char(#[trigger] s@[q]),
            any_digit == exists|q: int| start <= q < p && is_digit_char(#[trigger] s@[q]),
            !ok ==> parse_number_spec(s@) is None,
        decreases n - p,
    {
        let c = s.get_char(p);
        let u = c as u32;
        if u >= 48 && u <= 57 {
            any_digit = true;
        } else if c == '.' {
            if dot.is_none() {
                dot = Some(p);
            } else {
                proof {
                    refute_two_dots(s@, t, start as int, dot_idx(dot), p as int);
                }
                ok = false;
            }
        } else {
            proof {
                refute_bad_char(s@, t, start as int, p as int);
            }
            ok = false;
        }
        p += 1;
    }

    if !ok {
        return None;
    }
    if !any_digit {
        proof {
            // A shape with no digit at all is impossible: either form of the
            // grammar puts a digit somewhere.
            if parse_number_spec(s@) is Some {
                if t.len() >= 1 && digits_only(t) {
                    assert(t[0] == s@[start + 0]);
                    assert(is_digit_char(s@[start as int]));
                } else {
                    let k = choose|k: int| dot_at(t, k);
                    if k > 0 {
                        assert(is_digit_char(t.subrange(0, k)[0]));
                        assert(is_digit_char(s@[start as int]));
                    } else {
                        assert(is_digit_char(t.subrange(k + 1, t.len() as int)[0]));
                        assert(is_digit_char(s@[start + k + 1]));
                    }
                }
            }
        }
        return None;
    }

    // The scan accepted: the characters fit the grammar. Collect the digits.
    let int_end = match dot {
        Some(d) => d,
        None => n,
    };
    let mut iv: Vec<u8> = Vec::new();
    let mut q: usize = start;
    while q < int_end
        invariant
            start <= q <= int_end,
            int_end == dot_idx(dot) || (dot is None && int_end == n),
            iv@.len() == q - start,
            forall|i: int| 0 <= i < iv@.len() ==> iv@[i] == digit_of(#[trigger] s@[start + i]),
        decreases int_end - q,
    {
        let c = s.get_char(q);
        assert(is_digit_char(s@[q as int]));
        iv.push((c as u32 - 48) as u8);
        q += 1;
    }
    let mut fv: Vec<u8> = Vec::new();
    if let Some(d) = dot {
        let mut w: usize = d + 1;
        while w < n
            invariant
                dot_idx(dot) + 1 <= w <= n,
                dot == Some(d),
                fv@.len() == w - d - 1,
                forall|i: int|
                    0 <= i < fv@.len() ==> fv@[i] == digit_of(#[trigger] s@[d + 1 + i]),
            decreases n - w,
        {
            let c = s.get_char(w);
            assert(is_digit_char(s@[w as int]));
            fv.push((c as u32 - 48) as u8);
            w += 1;
        }
    }

    proof {
        assert forall|i: int| 0 <= i < iv@.len() implies iv@[i] <= 9 by {
            assert(iv@[i] == digit_of(s@[start + i]));
            assert(is_digit_char(s@[start + i]));
        }
        assert forall|i: int| 0 <= i < fv@.len() implies fv@[i] <= 9 by {
            let d = dot_idx(dot);
            assert(fv@[i] == digit_of(s@[d + 1 + i]));
            assert(is_digit_char(s@[d + 1 + i]));
        }
        assert(all_digits(iv@));
        assert(all_digits(fv@));
    }
    let ghost raw = AmountModel { negative: neg, int_digits: iv@, frac_digits: fv@ };
    let a = Amount::new(neg, iv, fv);
    proof {
        let m = parse_number_spec(s@);
        match dot {
            None => {
                assert(t.len() >= 1 && digits_only(t)) by {
                    let q0 = choose|q: int| start <= q < n && is_digit_char(#[trigger] s@[q]);
                    assert(t[q0 - start] == s@[q0]);
                }
                assert(raw.int_digits =~= to_digits(t));
                assert(raw.frac_digits =~= Seq::<u8>::empty());
                assert(m == Some(raw));
            },
            Some(d) => {
                let k = d - start;
                assert(dot_at(t, k)) by {
                    assert(t[k] == s@[d as int]);
                    assert(forall|i: int|
                        0 <= i < k ==> t.subrange(0, k)[i] == #[trigger] s@[start + i]);
                    assert(forall|i: int|
                        0 <= i < t.len() - k - 1 ==> t.subrange(k + 1, t.len() as int)[i]
                            == #[trigger] s@[start + k + 1 + i]);
                    let q0 = choose|q: int| start <= q < n && is_digit_char(#[trigger] s@[q]);
                    assert(q0 != d);
                    assert(t.len() >= 2);
                }
                // The point of the grammar is the recorded one.
                assert(!(t.len() >= 1 && digits_only(t))) by {
                    assert(t[k] == '.');
                    assert('.' as u32 == 46);
                }
                let k2 = choose|k2: int| dot_at(t, k2);
                assert(t[k2] == '.');
                assert(k2 == k) by {
                    assert('.' as u32 == 46);
                    if k2 != k {
                        assert(is_digit_char(s@[start + k2]));
                        assert(t[k2] == s@[start + k2]);
                    }
                }
                assert(raw.int_digits =~= to_digits(t.subrange(0, k)));
                let sub = t.subrange(k + 1, t.len() as int);
                assert forall|i: int| 0 <= i < fv@.len() implies fv@[i] == to_digits(sub)[i] by {
                    assert(sub[i] == t[k + 1 + i]);
                    assert(t[k + 1 + i] == s@[start + (k + 1 + i)]);
                    assert(fv@[i] == digit_of(s@[d + 1 + i]));
                }
                assert(raw.frac_digits =~= to_digits(sub));
                assert(m == Some(raw));
            },
        }
        assert(val_eq(a@, raw));
    }
    Some(a)
}

/// No decimal literal holds two decimal points.
proof fn refute_two_dots(s: Seq<char>, t: Seq<char>, start: int, d: int, p: int)
    requires
        t == body_of(s),
        start == sign_len(s),
        start <= d < p < s.len(),
        s[d] == '.',
        s[p] == '.',
    ensures
        parse_number_spec(s) is None,
{
    assert('.' as u32 == 46);
    assert(t[d - start] == s[d]);
    assert(t[p - start] == s[p]);
    assert(!(t.len() >= 1 && digits_only(t)));
    assert forall|k: int| !dot_at(t, k) by {
        if dot_at(t, k) {
            if k != d - start {
                lemma_zone_digit(t, k, d - start);
            } else {
                lemma_zone_digit(t, k, p - start);
            }
        }
    }
}

/// No decimal literal holds a character that is neither digit, sign nor
/// point.
proof fn refute_bad_char(s: Seq<char>, t: Seq<char>, start: int, p: int)
    requires
        t == body_of(s),
        start == sign_len(s),
        start <= p < s.len(),
        !is_digit_char(s[p]),
        s[p] != '.',
    ensures
        parse_number_spec(s) is None,
{
    assert(t[p - start] == s[p]);
    assert(!(t.len() >= 1 && digits_only(t)));
    assert forall|k: int| !dot_at(t, k) by {
        if dot_at(t, k) {
            if k == p - start {
                assert(t[k] == '.');
            } else {
                lemma_zone_digit(t, k, p - start);
            }
        }
    }
}

/// Inside a well-formed literal body, every position away from the point
/// holds a digit.
proof fn lemma_zone_digit(t: Seq<char>, k: int, q: int)
    requires
        dot_at(t, k),
        0 <= q < t.len(),
        q != k,
    ensures
        is_digit_char(t[q]),
{
    if q < k {
        assert(t.subrange(0, k)[q] == t[q]);
    } else {
        assert(t.subrange(k + 1, t.len() as int)[q - k - 1] == t[q]);
    }
}

} // verus!

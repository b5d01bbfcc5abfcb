//! Shift-and-add approximations of the 2.2 gamma curve, as cheap hardware
//! evaluates them, and the search for the best such approximation on a range.
use vstd::prelude::*;
use crate::order::{is_index_permutation, stable_order};

verus! {

/// Number of entries of the reference table.
pub const LUT_LEN: usize = 512;

/// The piecewise gamma correction: 0 at 0, then 4c + 20 up to 11, 2c + 35 up
/// to 40, c + 70 up to 113 and c / 2 + 125 above, taken modulo 256.
pub open spec fn gamma22_value(color: int) -> int {
    if color == 0 {
        0
    } else if color <= 11 {
        4 * color + 20
    } else if color <= 40 {
        2 * color + 35
    } else if color <= 113 {
        color + 70
    } else {
        color / 2 + 125
    }
}

/// Gamma correction of a linear 9-bit intensity to an 8-bit sRGB value.
pub fn correct_gamma22(color: i16) -> (r: u8)
    requires
        color >= -8192,
    ensures
        r == gamma22_value(color as int) as u8,
{
    let v: i16 = if color == 0 {
        0
    } else if color <= 11 {
        color * 4 + 20
    } else if color <= 40 {
        color * 2 + 35
    } else if color <= 113 {
        color + 70
    } else {
        color / 2 + 125
    };
    #[verifier::truncate]
    (v as u8)
}

/// One term of a shift-and-add: the input shifted left by `lsh`, then right
/// by `rsh`, added or subtracted.
#[derive(Clone, Copy, Debug, PartialEq, Eq)]
pub struct Term {
    pub lsh: u16,
    pub rsh: u16,
    pub add: bool,
}

/// Inputs that a term evaluates without overflow.
pub open spec fn input_ok(input: int) -> bool {
    0 <= input < 0x1_0000
}

pub open spec fn term_ok(t: Term) -> bool {
    t.lsh <= 16 && t.rsh <= 16
}

pub open spec fn shifted(input: int, lsh: int, rsh: int) -> int {
    (input * vstd::arithmetic::power2::pow2(lsh as nat)) / (vstd::arithmetic::power2::pow2(rsh as nat) as int)
}

pub open spec fn term_value(t: Term, input: int) -> int {
    if t.add {
        shifted(input, t.lsh as int, t.rsh as int)
    } else {
        -shifted(input, t.lsh as int, t.rsh as int)
    }
}

proof fn lemma_shifted(input: u64, lsh: u64, rsh: u64)
    requires
        input < 0x1_0000,
        lsh <= 16,
        rsh <= 16,
    ensures
        (input << lsh) >> rsh == shifted(input as int, lsh as int, rsh as int),
        (input << lsh) >> rsh <= 0x1_0000_0000,
{
    vstd::arithmetic::power2::lemma_pow2_pos(lsh as nat);
    vstd::arithmetic::power2::lemma2_to64();
    let p = vstd::arithmetic::power2::pow2(lsh as nat);
    if lsh < 16 {
        vstd::arithmetic::power2::lemma_pow2_strictly_increases(lsh as nat, 16);
    }
    assert(p <= 0x1_0000);
    assert(input * p < 0x1_0000 * 0x1_0000) by (nonlinear_arith)
        requires
            input < 0x1_0000,
            p <= 0x1_0000,
    ;
    vstd::bits::lemma_u64_shl_is_mul(input, lsh);
    let x: u64 = input << lsh;
    vstd::bits::lemma_u64_shr_is_div(x, rsh);
    vstd::arithmetic::power2::lemma_pow2_pos(rsh as nat);
    let q = vstd::arithmetic::power2::pow2(rsh as nat);
    assert((x as int) / (q as int) <= x) by (nonlinear_arith)
        requires
            q >= 1,
            x >= 0,
    ;
}

proof fn lemma_square_at_most(d: int, m: int)
    requires
        -m <= d <= m,
    ensures
        0 <= d * d <= m * m,
{
    assert(0 <= d * d <= m * m) by (nonlinear_arith)
        requires
            -m <= d <= m,
    ;
}

impl Term {
    /// The term's value on `input`.
    pub fn calc(&self, input: i64) -> (r: i64)
        requires
            input_ok(input as int),
            term_ok(*self),
        ensures
            r == term_value(*self, input as int),
            -0x1_0000_0000 <= r <= 0x1_0000_0000,
    {
        let x = input as u64;
        proof {
            lemma_shifted(x, self.lsh as u64, self.rsh as u64);
        }
        let res = ((x << self.lsh as u64) >> self.rsh as u64) as i64;
        if self.add {
            res
        } else {
            -res
        }
    }
}

/// Three shift-add terms and a constant, used for inputs up to `br`.
#[derive(Clone, Copy, Debug, PartialEq, Eq)]
pub struct ShiftAdd {
    pub br: u16,
    pub terms: [Term; 3],
    pub add: i16,
}

pub open spec fn shift_add_ok(s: ShiftAdd) -> bool {
    term_ok(s.terms@[0]) && term_ok(s.terms@[1]) && term_ok(s.terms@[2])
}

pub open spec fn terms_value(terms: Seq<Term>, input: int) -> int {
    term_value(terms[0], input) + term_value(terms[1], input) + term_value(terms[2], input)
}

pub open spec fn shift_add_value(s: ShiftAdd, input: int) -> int {
    terms_value(s.terms@, input) + s.add
}

impl ShiftAdd {
    /// The sum of the three terms on `input`, plus the constant.
    pub fn calc(&self, input: i64) -> (r: i64)
        requires
            input_ok(input as int),
            shift_add_ok(*self),
        ensures
            r == shift_add_value(*self, input as int),
            -0x3_0001_0000 <= r <= 0x3_0001_0000,
    {
        let mut res: i64 = 0;
        let mut i: usize = 0;
        while i < 3
            invariant
                i <= 3,
                input_ok(input as int),
                shift_add_ok(*self),
                i == 0 ==> res == 0,
                i == 1 ==> res == term_value(self.terms@[0], input as int),
                i == 2 ==> res == term_value(self.terms@[0], input as int) + term_value(
                    self.terms@[1],
                    input as int,
                ),
                i == 3 ==> res == term_value(self.terms@[0], input as int) + term_value(
                    self.terms@[1],
                    input as int,
                ) + term_value(self.terms@[2], input as int),
                -0x1_0000_0000 * i <= res <= 0x1_0000_0000 * i,
            decreases 3 - i,
        {
            res = res + self.terms[i].calc(input);
            i = i + 1;
        }
        res = res + self.add as i64;
        res
    }
}

/// Number of term combinations that the search enumerates: three term
/// positions, each a shift index in `0..19` and a sign.
pub const CANDIDATE_COUNT: u32 = 54872;

/// The term of shift index `i`: a left shift by `9 - i` up to 9, a right
/// shift by `i - 9` above.
pub open spec fn term_from_index(i: int, add: bool) -> Term {
    Term {
        lsh: (if i <= 9 { 9 - i } else { 0 }) as u16,
        rsh: (if i > 9 { i - 9 } else { 0 }) as u16,
        add,
    }
}

/// The digits of a candidate code, most significant first: shift index and
/// sign (0 for added) of the first, second and third term.
pub open spec fn code_i(c: int) -> int {
    c / 2888
}

pub open spec fn code_b0(c: int) -> int {
    (c / 1444) % 2
}

pub open spec fn code_j(c: int) -> int {
    (c / 76) % 19
}

pub open spec fn code_b1(c: int) -> int {
    (c / 38) % 2
}

pub open spec fn code_k(c: int) -> int {
    (c / 2) % 19
}

pub open spec fn code_b2(c: int) -> int {
    c % 2
}

/// A code names a candidate when its three shift indices differ.
pub open spec fn valid_code(c: int) -> bool {
    0 <= c < CANDIDATE_COUNT && code_i(c) != code_j(c) && code_i(c) != code_k(c) && code_j(c)
        != code_k(c)
}

pub open spec fn candidate_terms(c: int) -> Seq<Term> {
    seq![
        term_from_index(code_i(c), code_b0(c) == 0),
        term_from_index(code_j(c), code_b1(c) == 0),
        term_from_index(code_k(c), code_b2(c) == 0),
    ]
}

pub open spec fn range_len(first: int, last: int) -> nat {
    if first <= last {
        (last - first + 1) as nat
    } else {
        0
    }
}

/// For each input of the range, the terms' value plus `add` minus the table.
pub open spec fn fit_offsets(terms: Seq<Term>, add: int, first: int, n: nat, lut: Seq<u8>) -> Seq<int> {
    Seq::new(n, |t: int| terms_value(terms, first + t) + add - lut[first + t])
}

pub open spec fn sum_squares(s: Seq<int>) -> nat
    decreases s.len(),
{
    if s.len() == 0 {
        0
    } else {
        sum_squares(s.drop_last()) + (s.last() * s.last()) as nat
    }
}

/// `m` stands in the middle (index `len / 2`) of an ascending arrangement of `s`.
pub open spec fn is_median_of(s: Seq<int>, m: int) -> bool {
    exists|p: Seq<usize>|
        {
            &&& is_index_permutation(p, s.len())
            &&& forall|i: int, j: int| 0 <= i < j < s.len() ==> s[p[i] as int] <= s[p[j] as int]
            &&& m == s[p[(s.len() / 2) as int] as int]
        }
}

/// The constant fitted to the offsets: their median cut to 16 bits, or 0 on
/// an empty range.
pub open spec fn fit_add(offsets: Seq<int>, m: int) -> int {
    if offsets.len() == 0 {
        0
    } else {
        m as i16 as int
    }
}

/// Squared error over the range of `terms` with the constant fitted from the
/// median `m`.
pub open spec fn fit_error(terms: Seq<Term>, m: int, first: int, last: int, lut: Seq<u8>) -> nat {
    let n = range_len(first, last);
    sum_squares(fit_offsets(terms, fit_add(fit_offsets(terms, 0, first, n, lut), m), first, n, lut))
}

pub open spec fn small_terms(terms: Seq<Term>) -> bool {
    terms.len() == 3 && forall|i: int| 0 <= i < 3 ==> term_ok(#[trigger] terms[i])
}

/// Fits the constant of `terms` on the inputs `first..=last` and measures the
/// squared error; `m` is the median that the constant comes from.
fn evaluate_candidate(terms: [Term; 3], first: u16, last: u16, lut: &[u8; 512]) -> (r: (
    ShiftAdd,
    u128,
    Ghost<int>,
))
    requires
        last < 512,
        small_terms(terms@),
    ensures
        r.0.br == last,
        r.0.terms@ == terms@,
        shift_add_ok(r.0),
        is_median_of(fit_offsets(terms@, 0, first as int, range_len(first as int, last as int), lut@), r.2@)
            || range_len(first as int, last as int) == 0,
        r.0.add == fit_add(
            fit_offsets(terms@, 0, first as int, range_len(first as int, last as int), lut@),
            r.2@,
        ),
        r.1 == fit_error(terms@, r.2@, first as int, last as int, lut@),
        r.1 <= 0x1_0000_0000_0000_0000_0000,
{
    let ghost n = range_len(first as int, last as int);
    let mut shift_add = ShiftAdd { br: last, terms, add: 0 };
    let ghost offs0 = fit_offsets(terms@, 0, first as int, n, lut@);
    let mut adds: Vec<i64> = Vec::new();
    let count: u16 = if first <= last {
        last - first + 1
    } else {
        0
    };
    let mut t: u16 = 0;
    while t < count
        invariant
            t <= count,
            count == n,
            last < 512,
            count > 0 ==> first as int + count - 1 == last,
            shift_add.terms@ == terms@,
            shift_add.add == 0,
            small_terms(terms@),
            adds@.len() == t,
            offs0 == fit_offsets(terms@, 0, first as int, n, lut@),
            forall|u: int| 0 <= u < t ==> adds@[u] as int == #[trigger] offs0[u],
        decreases count - t,
    {
        let input = (first + t) as i64;
        let v = shift_add.calc(input) - lut[(first + t) as usize] as i64;
        adds.push(v);
        proof {
            assert(offs0[t as int] == terms_value(terms@, first + t) - lut@[first + t]);
        }
        t = t + 1;
    }
    let ghost mut m: int = 0;
    if count > 0 {
        let p = stable_order(&adds);
        let mid = adds[p[(count / 2) as usize]];
        proof {
            m = mid as int;
            assert forall|i: int, j: int| 0 <= i < j < n implies offs0[p@[i] as int] <= offs0[p@[j] as int] by {
                assert(adds@[p@[i] as int] as int == offs0[p@[i] as int]);
                assert(adds@[p@[j] as int] as int == offs0[p@[j] as int]);
            }
            assert(offs0.len() == n);
            assert(is_median_of(offs0, m));
        }
        shift_add.add = #[verifier::truncate] (mid as i16);
    }
    let ghost offs = fit_offsets(terms@, shift_add.add as int, first as int, n, lut@);
    let mut error: u128 = 0;
    let mut t: u16 = 0;
    while t < count
        invariant
            t <= count,
            count == n,
            last < 512,
            count > 0 ==> first as int + count - 1 == last,
            shift_add.terms@ == terms@,
            shift_add.br == last,
            small_terms(terms@),
            offs == fit_offsets(terms@, shift_add.add as int, first as int, n, lut@),
            error == sum_squares(offs.take(t as int)),
            error <= t * 0x10_0000_0000_0000_0000,
        decreases count - t,
    {
        let input = (first + t) as i64;
        let d = shift_add.calc(input) as i128 - lut[(first + t) as usize] as i128;
        proof {
            assert(offs.len() == n);
            assert(-0x4_0000_0000 <= d <= 0x4_0000_0000);
            lemma_square_at_most(d as int, 0x4_0000_0000);
            assert(offs.take(t + 1).drop_last() =~= offs.take(t as int));
            assert(offs.take(t + 1).last() == d);
        }
        let sq: i128 = d * d;
        error = error + sq as u128;
        t = t + 1;
    }
    proof {
        assert(offs.take(t as int) =~= offs);
    }
    (shift_add, error, Ghost(m))
}

/// `m` is a median from which candidate `c` takes its constant.
pub open spec fn candidate_fits(c: int, m: int, first: int, last: int, lut: Seq<u8>) -> bool {
    &&& valid_code(c)
    &&& (range_len(first, last) == 0 || is_median_of(
        fit_offsets(candidate_terms(c), 0, first, range_len(first, last), lut),
        m,
    ))
}

pub open spec fn candidate_error(c: int, m: int, first: int, last: int, lut: Seq<u8>) -> nat {
    fit_error(candidate_terms(c), m, first, last, lut)
}

/// `r` is candidate `c` with the constant fitted from median `m`; no
/// candidate fits better, and every candidate enumerated before `c` fits
/// worse.
pub open spec fn is_best_fit(r: ShiftAdd, c: int, m: int, first: int, last: int, lut: Seq<u8>) -> bool {
    &&& candidate_fits(c, m, first, last, lut)
    &&& r.br == last
    &&& r.terms@ == candidate_terms(c)
    &&& r.add == fit_add(fit_offsets(candidate_terms(c), 0, first, range_len(first, last), lut), m)
    &&& forall|d: int|
        #![trigger valid_code(d)]
        valid_code(d) ==> exists|md: int|
            {
                &&& candidate_fits(d, md, first, last, lut)
                &&& candidate_error(d, md, first, last, lut) >= candidate_error(c, m, first, last, lut)
                &&& (d < c ==> candidate_error(d, md, first, last, lut) > candidate_error(
                    c,
                    m,
                    first,
                    last,
                    lut,
                ))
            }
}

fn term_of(i: u32, add: bool) -> (t: Term)
    requires
        i < 19,
    ensures
        t == term_from_index(i as int, add),
        term_ok(t),
{
    if i <= 9 {
        Term { lsh: (9 - i) as u16, rsh: 0, add }
    } else {
        Term { lsh: 0, rsh: (i - 9) as u16, add }
    }
}

/// The shift-add of three distinct shift terms and a constant that best fits
/// `lut` on the inputs `first..=last`. Every combination of shift indices
/// `0..19` and signs is tried in order; the constant of each is the median of
/// its offsets from the table, and the squared error decides. Ties keep the
/// earlier combination.
pub fn find_shift_add(first: u16, last: u16, lut: &[u8; 512]) -> (r: ShiftAdd)
    requires
        last < 512,
    ensures
        exists|c: int, m: int| is_best_fit(r, c, m, first as int, last as int, lut@),
{
    let zero = Term { lsh: 0, rsh: 0, add: false };
    let mut best = ShiftAdd { br: 0, terms: [zero, zero, zero], add: 0 };
    let mut best_err: u128 = 0;
    let mut found = false;
    let ghost mut best_code: int = 0;
    let ghost mut best_m: int = 0;
    let ghost mut meds: Seq<int> = Seq::empty();
    let mut code: u32 = 0;
    while code < CANDIDATE_COUNT
        invariant
            code <= CANDIDATE_COUNT,
            last < 512,
            meds.len() == code,
            forall|d: int|
                #![trigger meds[d]]
                0 <= d < code && valid_code(d) ==> {
                    &&& candidate_fits(d, meds[d], first as int, last as int, lut@)
                    &&& candidate_error(d, meds[d], first as int, last as int, lut@) >= best_err
                    &&& (d < best_code ==> candidate_error(d, meds[d], first as int, last as int, lut@)
                        > best_err)
                },
            found ==> {
                &&& valid_code(best_code)
                &&& best_code < code
                &&& best_m == meds[best_code]
                &&& best_err == candidate_error(best_code, best_m, first as int, last as int, lut@)
                &&& best.br == last
                &&& best.terms@ == candidate_terms(best_code)
                &&& best.add == fit_add(
                    fit_offsets(
                        candidate_terms(best_code),
                        0,
                        first as int,
                        range_len(first as int, last as int),
                        lut@,
                    ),
                    best_m,
                )
            },
            !found ==> forall|d: int| 0 <= d < code ==> !valid_code(d),
        decreases CANDIDATE_COUNT - code,
    {
        let i = code / 2888;
        let b0 = (code / 1444) % 2;
        let j = (code / 76) % 19;
        let b1 = (code / 38) % 2;
        let k = (code / 2) % 19;
        let b2 = code % 2;
        if i != j && i != k && j != k {
            let terms = [term_of(i, b0 == 0), term_of(j, b1 == 0), term_of(k, b2 == 0)];
            proof {
                assert(terms@ =~= candidate_terms(code as int));
            }
            let (shift_add, err, m) = evaluate_candidate(terms, first, last, lut);
            proof {
                meds = meds.push(m@);
            }
            if !found || err < best_err {
                best = shift_add;
                best_err = err;
                found = true;
                proof {
                    best_code = code as int;
                    best_m = m@;
                }
            }
        } else {
            proof {
                meds = meds.push(0);
            }
        }
        code = code + 1;
    }
    proof {
        assert(valid_code(80));
        assert forall|d: int| #![trigger valid_code(d)] valid_code(d) implies exists|md: int|
            {
                &&& candidate_fits(d, md, first as int, last as int, lut@)
                &&& candidate_error(d, md, first as int, last as int, lut@) >= candidate_error(
                    best_code,
                    best_m,
                    first as int,
                    last as int,
                    lut@,
                )
                &&& (d < best_code ==> candidate_error(d, md, first as int, last as int, lut@)
                    > candidate_error(best_code, best_m, first as int, last as int, lut@))
            } by {
            assert(found);
            let md = meds[d];
            assert(candidate_fits(d, md, first as int, last as int, lut@));
            assert(candidate_error(d, md, first as int, last as int, lut@) >= best_err);
        }
        assert(is_best_fit(best, best_code, best_m, first as int, last as int, lut@));
    }
    best
}

} // verus!

use vstd::prelude::*;

verus! {

/// Number of fixed-point units in one whole unit (ohm, farad, henry, volt,
/// radian per second, siemens).
pub const SCALE: i128 = 1000000000000000000;

/// Largest magnitude that a single stamp entry may have; nine such entries
/// still sum within `i128`.
pub const LIMIT: i128 = 10000000000000000000000000000000000000;

/// `num_complex::Complex`, read with its two public fields.
#[verifier::external_type_specification]
#[verifier::reject_recursive_types(T)]
pub struct ExComplex<T>(num_complex::Complex<T>);

/// A complex number whose parts are fixed-point values in units of `1 / SCALE`.
pub type Cx = num_complex::Complex<i128>;

/// The complex zero.
pub fn cx_zero() -> (r: Cx)
    ensures
        r == zero(),
{
    Cx { re: 0, im: 0 }
}

/// A two-terminal element: its terminals and its value in fixed-point units.
#[derive(Clone, Copy, PartialEq, Eq, Structural, Debug)]
pub struct Element {
    pub pos: usize,
    pub neg: usize,
    pub value: i128,
}

#[derive(Clone, Copy, PartialEq, Eq, Structural, Debug)]
pub enum ElementType {
    V,
    R,
    C,
    L,
}

#[derive(Clone, Copy, PartialEq, Eq, Structural, Debug)]
pub enum Analysis {
    DC,
    AC,
    Tran,
}

#[derive(Clone, Copy, PartialEq, Eq, Structural, Debug)]
pub enum CircuitError {
    /// The element's name does not start with one of `v`, `r`, `c`, `l`.
    UnsupportedElement,
    /// Transient analysis was requested.
    UnsupportedAnalysis,
    /// A resistance of zero, a source beyond `LIMIT`, or (in AC) a capacitor
    /// or inductor whose `omega * value` does not fit in `i128`.
    InvalidValue,
    /// An accumulated entry left the range of `i128`, the system would grow
    /// past what `ndarray` can allocate, or branch identifiers ran out.
    Overflow,
    /// The system has no row left to remove.
    InvalidState,
}

pub open spec fn cx(re: int, im: int) -> Cx {
    Cx { re: re as i128, im: im as i128 }
}

pub open spec fn zero() -> Cx {
    cx(0, 0)
}

pub open spec fn unit() -> Cx {
    cx(SCALE as int, 0)
}

pub open spec fn neg(x: Cx) -> Cx {
    cx(-x.re, -x.im)
}

/// Fits a stamp entry: both parts within `LIMIT`.
pub open spec fn small(x: Cx) -> bool {
    -LIMIT <= x.re <= LIMIT && -LIMIT <= x.im <= LIMIT
}

/// Magnitude of an integer.
pub open spec fn mag(x: int) -> int {
    if x >= 0 {
        x
    } else {
        -x
    }
}

/// `1 / r` in fixed point, rounded toward zero.
pub open spec fn conductance(r: int) -> int {
    let q = (SCALE as int * SCALE as int) / mag(r);
    if r > 0 {
        q
    } else {
        -q
    }
}

/// `omega * x` in fixed point, rounded toward zero.
pub open spec fn reactance(omega: int, x: int) -> int {
    let q = mag(omega * x) / (SCALE as int);
    if omega * x >= 0 {
        q
    } else {
        -q
    }
}

/// The element type named by the first character of an instance name.
pub open spec fn type_of_name(name: Seq<char>) -> Option<ElementType> {
    if name.len() == 0 {
        None
    } else if name[0] == 'v' || name[0] == 'V' {
        Some(ElementType::V)
    } else if name[0] == 'c' || name[0] == 'C' {
        Some(ElementType::C)
    } else if name[0] == 'l' || name[0] == 'L' {
        Some(ElementType::L)
    } else if name[0] == 'r' || name[0] == 'R' {
        Some(ElementType::R)
    } else {
        None
    }
}

/// Whether `value` (and, in AC, `omega`) gives a stamp that can be held: a
/// resistance is not zero, a source stays within `LIMIT`, and in AC the
/// product `omega * value` of a capacitor or inductor fits in `i128`.
pub open spec fn value_ok(t: ElementType, value: int, ac: bool, omega: int) -> bool {
    match t {
        ElementType::R => value != 0,
        ElementType::V => -LIMIT <= value <= LIMIT,
        _ => ac ==> mag(omega * value) <= i128::MAX,
    }
}

/// Conductance or susceptance of a resistor or capacitor.
pub open spec fn admittance(t: ElementType, value: int, ac: bool, omega: int) -> Cx {
    match t {
        ElementType::R => cx(conductance(value), 0),
        ElementType::C => if ac {
            cx(0, reactance(omega, value))
        } else {
            zero()
        },
        _ => zero(),
    }
}

/// Impedance of an inductor (zero in DC: a short).
pub open spec fn impedance(value: int, ac: bool, omega: int) -> Cx {
    if ac {
        cx(0, reactance(omega, value))
    } else {
        zero()
    }
}

/// The 2x2 stamp of an admittance between two terminals.
pub open spec fn pair_mat(y: Cx) -> Seq<Seq<Cx>> {
    seq![seq![y, neg(y)], seq![neg(y), y]]
}

/// The 3x3 stamp of a branch with impedance `z` and a current unknown.
pub open spec fn branch_mat(z: Cx) -> Seq<Seq<Cx>> {
    seq![
        seq![zero(), zero(), unit()],
        seq![zero(), zero(), neg(unit())],
        seq![unit(), neg(unit()), neg(z)],
    ]
}

pub open spec fn stamp_mat(t: ElementType, value: int, ac: bool, omega: int) -> Seq<Seq<Cx>> {
    match t {
        ElementType::R => pair_mat(admittance(t, value, ac, omega)),
        ElementType::C => pair_mat(admittance(t, value, ac, omega)),
        ElementType::V => branch_mat(zero()),
        ElementType::L => branch_mat(impedance(value, ac, omega)),
    }
}

pub open spec fn stamp_vec(t: ElementType, value: int) -> Seq<Cx> {
    match t {
        ElementType::V => seq![zero(), zero(), cx(value, 0)],
        ElementType::L => seq![zero(), zero(), zero()],
        _ => seq![zero(), zero()],
    }
}

/// Number of unknowns a stamp of this type spans.
pub open spec fn stamp_size(t: ElementType) -> nat {
    match t {
        ElementType::V | ElementType::L => 3,
        _ => 2,
    }
}

pub open spec fn rows(m: Seq<Vec<Cx>>) -> Seq<Seq<Cx>> {
    m.map_values(|row: Vec<Cx>| row@)
}

/// A well-shaped local stamp of size `k` whose entries are all `small`.
pub open spec fn stamp_shape(m: Seq<Seq<Cx>>, v: Seq<Cx>, k: nat) -> bool {
    &&& m.len() == k
    &&& v.len() == k
    &&& forall|a: int| 0 <= a < k ==> #[trigger] m[a].len() == k
    &&& forall|a: int, b: int| 0 <= a < k && 0 <= b < k ==> small(#[trigger] m[a][b])
    &&& forall|a: int| 0 <= a < k ==> small(#[trigger] v[a])
}

/// The element type of an instance name, by its first character.
pub fn get_element_type(elem: &str) -> (r: Option<ElementType>)
    ensures
        r == type_of_name(elem@),
{
    proof {
        broadcast use vstd::string::axiom_spec_iter;
    }
    let mut it = elem.chars();
    match it.next() {
        Some(c) => {
            if c == 'v' || c == 'V' {
                Some(ElementType::V)
            } else if c == 'c' || c == 'C' {
                Some(ElementType::C)
            } else if c == 'l' || c == 'L' {
                Some(ElementType::L)
            } else if c == 'r' || c == 'R' {
                Some(ElementType::R)
            } else {
                None
            }
        },
        None => None,
    }
}

fn neg_cx(x: Cx) -> (r: Cx)
    requires
        small(x),
    ensures
        r == neg(x),
        small(r),
{
    Cx { re: -x.re, im: -x.im }
}

fn pair_stamp(y: Cx) -> (r: (Vec<Vec<Cx>>, Vec<Cx>))
    requires
        small(y),
    ensures
        rows(r.0@) == pair_mat(y),
        r.1@ == seq![zero(), zero()],
{
    let n = neg_cx(y);
    let row0: Vec<Cx> = vec![y, n];
    let row1: Vec<Cx> = vec![n, y];
    let m: Vec<Vec<Cx>> = vec![row0, row1];
    let v: Vec<Cx> = vec![cx_zero(), cx_zero()];
    proof {
        assert(rows(m@) =~= pair_mat(y));
        assert(v@ =~= seq![zero(), zero()]);
    }
    (m, v)
}

fn branch_stamp(z: Cx, source: i128) -> (r: (Vec<Vec<Cx>>, Vec<Cx>))
    requires
        small(z),
    ensures
        rows(r.0@) == branch_mat(z),
        r.1@ == seq![zero(), zero(), cx(source as int, 0)],
{
    let o = Cx { re: SCALE, im: 0 };
    let no = Cx { re: -SCALE, im: 0 };
    let nz = neg_cx(z);
    let row0: Vec<Cx> = vec![cx_zero(), cx_zero(), o];
    let row1: Vec<Cx> = vec![cx_zero(), cx_zero(), no];
    let row2: Vec<Cx> = vec![o, no, nz];
    let m: Vec<Vec<Cx>> = vec![row0, row1, row2];
    let v: Vec<Cx> = vec![cx_zero(), cx_zero(), Cx { re: source, im: 0 }];
    proof {
        assert(rows(m@) =~= branch_mat(z));
        assert(v@ =~= seq![zero(), zero(), cx(source as int, 0)]);
    }
    (m, v)
}

/// `1 / r` in fixed point, for a nonzero resistance.
fn conductance_of(r: i128) -> (y: i128)
    requires
        r != 0,
    ensures
        y == conductance(r as int),
        -LIMIT <= y <= LIMIT,
{
    let a: u128 = if r > 0 {
        r as u128
    } else {
        ((-(r + 1)) as u128) + 1
    };
    proof {
        assert(a as int == mag(r as int));
    }
    let s: u128 = SCALE as u128;
    let q: u128 = (s * s) / a;
    proof {
        let n: int = SCALE as int * SCALE as int;
        assert(n / (a as int) <= n) by (nonlinear_arith)
            requires n >= 0, a >= 1;
    }
    if r > 0 {
        q as i128
    } else {
        -(q as i128)
    }
}

/// `omega * x` in fixed point, when the product fits.
fn reactance_of(omega: i128, x: i128) -> (r: Option<i128>)
    ensures
        r is Some <==> mag(omega * x) <= i128::MAX,
        r is Some ==> r->0 == reactance(omega as int, x as int) && -LIMIT <= r->0 <= LIMIT,
{
    match omega.checked_mul(x) {
        Some(p) => {
            if p == i128::MIN {
                return None;
            }
            let s = SCALE;
            proof {
                lemma_reactance_bound(omega as int, x as int);
            }
            if p >= 0 {
                Some(p / s)
            } else {
                let q = (-p) / s;
                Some(-q)
            }
        },
        None => None,
    }
}

/// A reactance whose product fits stays within `LIMIT`.
proof fn lemma_reactance_bound(omega: int, x: int)
    requires
        mag(omega * x) <= i128::MAX,
    ensures
        -LIMIT <= reactance(omega, x) <= LIMIT,
{
    let s = SCALE as int;
    let m = mag(omega * x);
    assert(m / s <= (i128::MAX as int) / s) by (nonlinear_arith)
        requires 0 <= m <= i128::MAX as int, s > 0;
    assert(m / s >= 0) by (nonlinear_arith)
        requires 0 <= m, s > 0;
}

/// The DC stamp of an element: its local matrix and vector.
pub fn gen_mat_vec_from_element(elem: Element, etype: ElementType) -> (r: Result<
    (Vec<Vec<Cx>>, Vec<Cx>),
    CircuitError,
>)
    ensures
        r is Ok <==> value_ok(etype, elem.value as int, false, 0),
        r is Err ==> r->Err_0 == CircuitError::InvalidValue,
        r is Ok ==> rows(r->Ok_0.0@) == stamp_mat(etype, elem.value as int, false, 0)
            && r->Ok_0.1@ == stamp_vec(etype, elem.value as int),
{
    element_stamp(elem, etype, false, 0)
}

/// The AC stamp of an element at angular frequency `omega`.
pub fn ac_mat_vec(elem: Element, etype: ElementType, omega: i128) -> (r: Result<
    (Vec<Vec<Cx>>, Vec<Cx>),
    CircuitError,
>)
    ensures
        r is Ok <==> value_ok(etype, elem.value as int, true, omega as int),
        r is Err ==> r->Err_0 == CircuitError::InvalidValue,
        r is Ok ==> rows(r->Ok_0.0@) == stamp_mat(etype, elem.value as int, true, omega as int)
            && r->Ok_0.1@ == stamp_vec(etype, elem.value as int),
{
    element_stamp(elem, etype, true, omega)
}

fn element_stamp(elem: Element, etype: ElementType, ac: bool, omega: i128) -> (r: Result<
    (Vec<Vec<Cx>>, Vec<Cx>),
    CircuitError,
>)
    requires
        !ac ==> omega == 0,
    ensures
        r is Ok <==> value_ok(etype, elem.value as int, ac, omega as int),
        r is Err ==> r->Err_0 == CircuitError::InvalidValue,
        r is Ok ==> rows(r->Ok_0.0@) == stamp_mat(etype, elem.value as int, ac, omega as int)
            && r->Ok_0.1@ == stamp_vec(etype, elem.value as int),
{
    let v = elem.value;
    match etype {
        ElementType::R => {
            if v == 0 {
                return Err(CircuitError::InvalidValue);
            }
            let y = conductance_of(v);
            Ok(pair_stamp(Cx { re: y, im: 0 }))
        },
        ElementType::V => {
            if v < -LIMIT || v > LIMIT {
                return Err(CircuitError::InvalidValue);
            }
            Ok(branch_stamp(cx_zero(), v))
        },
        ElementType::C => {
            if !ac {
                return Ok(pair_stamp(cx_zero()));
            }
            match reactance_of(omega, v) {
                Some(b) => Ok(pair_stamp(Cx { re: 0, im: b })),
                None => Err(CircuitError::InvalidValue),
            }
        },
        ElementType::L => {
            if !ac {
                return Ok(branch_stamp(cx_zero(), 0));
            }
            match reactance_of(omega, v) {
                Some(x) => Ok(branch_stamp(Cx { re: 0, im: x }, 0)),
                None => Err(CircuitError::InvalidValue),
            }
        },
    }
}

/// A stamp built from an acceptable value has its size and small entries.
pub proof fn lemma_stamp_shape(t: ElementType, value: int, ac: bool, omega: int)
    requires
        value_ok(t, value, ac, omega),
        !ac ==> omega == 0,
    ensures
        stamp_shape(stamp_mat(t, value, ac, omega), stamp_vec(t, value), stamp_size(t)),
{
    let s = SCALE as int;
    if t is R {
        let n = s * s;
        let a = mag(value);
        assert(n / a <= n) by (nonlinear_arith)
            requires n >= 0, a >= 1;
        assert(n / a >= 0) by (nonlinear_arith)
            requires n >= 0, a >= 1;
    }
    if (t is C || t is L) && ac {
        lemma_reactance_bound(omega, value);
    }
    let m = stamp_mat(t, value, ac, omega);
    let v = stamp_vec(t, value);
    let k = stamp_size(t);
    assert forall|a: int, b: int| 0 <= a < k && 0 <= b < k implies small(#[trigger] m[a][b]) by {
    }
}

/// A resistor's AC stamp is its DC stamp, whatever the frequency.
pub proof fn lemma_resistor_ac_independent(value: int, omega: int)
    ensures
        stamp_mat(ElementType::R, value, true, omega) == stamp_mat(ElementType::R, value, false, 0),
        stamp_mat(ElementType::R, value, true, omega) == pair_mat(cx(conductance(value), 0)),
{
}

/// Doubling a non-negative numerator doubles its quotient, up to one unit
/// of rounding, and exactly when the division leaves no remainder.
proof fn lemma_double_div(p: int, s: int)
    requires
        p >= 0,
        s > 0,
    ensures
        2 * (p / s) <= (2 * p) / s <= 2 * (p / s) + 1,
        p % s == 0 ==> (2 * p) / s == 2 * (p / s),
{
    vstd::arithmetic::div_mod::lemma_fundamental_div_mod(p, s);
    vstd::arithmetic::div_mod::lemma_fundamental_div_mod(2 * p, s);
    vstd::arithmetic::div_mod::lemma_mod_pos_bound(p, s);
    vstd::arithmetic::div_mod::lemma_mod_pos_bound(2 * p, s);
    let q = p / s;
    let r = p % s;
    let t = (2 * p) / s;
    let u = (2 * p) % s;
    assert(0 <= t - 2 * q <= 1) by (nonlinear_arith)
        requires p == s * q + r, 2 * p == s * t + u, 0 <= r < s, 0 <= u < s, s > 0;
    if r == 0 {
        assert(t == 2 * q) by (nonlinear_arith)
            requires p == s * q, 2 * p == s * t + u, 0 <= u < s, s > 0;
    }
}

/// A capacitor's AC stamp is purely imaginary, for any value and frequency.
/// Doubling the frequency doubles the magnitude of its susceptance up to one
/// fixed-point unit of rounding, and exactly when `omega * value` is a whole
/// number of units.
pub proof fn lemma_capacitor_scaling(value: int, omega: int)
    requires
        mag(2 * omega * value) <= i128::MAX,
    ensures
        stamp_mat(ElementType::C, value, true, omega) == pair_mat(cx(0, reactance(omega, value))),
        stamp_mat(ElementType::C, value, true, 2 * omega) == pair_mat(
            cx(0, reactance(2 * omega, value)),
        ),
        2 * mag(reactance(omega, value)) <= mag(reactance(2 * omega, value)) <= 2 * mag(
            reactance(omega, value),
        ) + 1,
        mag(omega * value) % (SCALE as int) == 0 ==> reactance(2 * omega, value) == 2 * reactance(
            omega,
            value,
        ),
{
    let s = SCALE as int;
    let p = omega * value;
    assert((2 * omega) * value == 2 * p) by (nonlinear_arith)
        requires p == omega * value;
    lemma_double_div(mag(p), s);
    assert(mag(2 * p) == 2 * mag(p));
}

} // verus!

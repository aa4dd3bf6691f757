use vstd::prelude::*;

use crate::text;

verus! {

/// Iterated complex-style maps over a bracketed coordinate pair.
pub struct Day2Solver;

/// A pair of integer components with truncating division, as the
/// engraving rules use it.
pub struct ComplexNumber {
    pub real: i64,
    pub imaginary: i64,
}

// ===== truncating division =====

/// Division that rounds toward zero, as Rust's `/` does.
pub open spec fn tdiv(a: int, b: int) -> int {
    if a >= 0 && b > 0 {
        a / b
    } else if a < 0 && b > 0 {
        -((-a) / b)
    } else if a >= 0 {
        -(a / (-b))
    } else {
        (-a) / (-b)
    }
}

/// Truncating division on machine words.
fn tdiv64(a: i64, b: i64) -> (r: i64)
    requires
        b != 0,
        !(a == i64::MIN && b == -1),
    ensures
        r as int == tdiv(a as int, b as int),
{
    let am: u64 = if a >= 0 {
        a as u64
    } else if a == i64::MIN {
        9223372036854775808u64
    } else {
        (-a) as u64
    };
    let bm: u64 = if b >= 0 {
        b as u64
    } else if b == i64::MIN {
        9223372036854775808u64
    } else {
        (-b) as u64
    };
    let q: u64 = am / bm;
    let neg = (a < 0) != (b < 0);
    proof {
        assert(am as int == if a >= 0 {
            a as int
        } else {
            -(a as int)
        });
        assert(bm as int == if b >= 0 {
            b as int
        } else {
            -(b as int)
        });
    }
    if neg {
        if q == 9223372036854775808u64 {
            i64::MIN
        } else {
            proof {
                assert(q < 9223372036854775808u64);
            }
            -(q as i64)
        }
    } else {
        proof {
            assert(q <= i64::MAX as u64) by {
                assert(am <= i64::MAX as u64 || bm >= 2);
                vstd::arithmetic::div_mod::lemma_div_is_ordered(q as int, am as int, 1);
                if bm >= 2 {
                    vstd::arithmetic::div_mod::lemma_div_is_ordered_by_denominator(
                        am as int,
                        2,
                        bm as int,
                    );
                }
            }
        }
        q as i64
    }
}

// ===== the arithmetic the rules use =====

impl ComplexNumber {
    /// Componentwise addition.
    pub fn add(&self, other: &Self) -> (r: Self)
        requires
            i64::MIN <= self.real + other.real <= i64::MAX,
            i64::MIN <= self.imaginary + other.imaginary <= i64::MAX,
        ensures
            r.real as int == self.real + other.real,
            r.imaginary as int == self.imaginary + other.imaginary,
    {
        ComplexNumber { real: self.real + other.real, imaginary: self.imaginary + other.imaginary }
    }

    /// The complex product `(ac - bd, ad + bc)`.
    pub fn multiply(&self, other: &Self) -> (r: Self)
        requires
            i64::MIN <= self.real * other.real <= i64::MAX,
            i64::MIN <= self.imaginary * other.imaginary <= i64::MAX,
            i64::MIN <= self.real * other.imaginary <= i64::MAX,
            i64::MIN <= self.imaginary * other.real <= i64::MAX,
            i64::MIN <= self.real * other.real - self.imaginary * other.imaginary <= i64::MAX,
            i64::MIN <= self.real * other.imaginary + self.imaginary * other.real <= i64::MAX,
        ensures
            r.real as int == self.real * other.real - self.imaginary * other.imaginary,
            r.imaginary as int == self.real * other.imaginary + self.imaginary * other.real,
    {
        ComplexNumber {
            real: self.real * other.real - self.imaginary * other.imaginary,
            imaginary: self.real * other.imaginary + self.imaginary * other.real,
        }
    }

    /// Componentwise truncating division.
    pub fn divide(&self, other: &Self) -> (r: Self)
        requires
            other.real != 0,
            other.imaginary != 0,
            !(self.real == i64::MIN && other.real == -1),
            !(self.imaginary == i64::MIN && other.imaginary == -1),
        ensures
            r.real as int == tdiv(self.real as int, other.real as int),
            r.imaginary as int == tdiv(self.imaginary as int, other.imaginary as int),
    {
        ComplexNumber {
            real: tdiv64(self.real, other.real),
            imaginary: tdiv64(self.imaginary, other.imaginary),
        }
    }
}

// ===== the grammar: the first bracketed pair =====

/// The end of the run of digits starting at `j`.
pub open spec fn run_end(s: Seq<char>, j: int) -> int
    decreases s.len() - j,
    when 0 <= j <= s.len()
{
    if j < s.len() && text::is_digit(s[j]) {
        run_end(s, j + 1)
    } else {
        j
    }
}

/// The signed value starting at `j`: an optional minus, then a maximal
/// digit run; also where it ends.
pub open spec fn signed_at(s: Seq<char>, j: int) -> Option<(int, int)> {
    let neg = j < s.len() && s[j] == '-';
    let j1 = if neg {
        j + 1
    } else {
        j
    };
    let e = run_end(s, j1);
    if e == j1 {
        None
    } else {
        let v = text::digits_val(s.subrange(j1, e));
        Some(
            (
                if neg {
                    -v
                } else {
                    v
                },
                e,
            ),
        )
    }
}

/// The coordinate pair matched at position `i`: `[`, a signed number,
/// `,`, a signed number, `]`, with both numbers maximal digit runs.
pub open spec fn cx_at(s: Seq<char>, i: int) -> Option<(int, int)> {
    if !(0 <= i < s.len() && s[i] == '[') {
        None
    } else {
        match signed_at(s, i + 1) {
            Option::None => None,
            Option::Some((re, e1)) => {
                if !(e1 < s.len() && s[e1] == ',') {
                    None
                } else {
                    match signed_at(s, e1 + 1) {
                        Option::None => None,
                        Option::Some((im, e2)) => {
                            if e2 < s.len() && s[e2] == ']' {
                                Some((re, im))
                            } else {
                                None
                            }
                        },
                    }
                }
            },
        }
    }
}

/// The leftmost match of the bracketed pair, scanning from `i`.
pub open spec fn first_cx_from(s: Seq<char>, i: int) -> Option<(int, int)>
    decreases s.len() - i,
    when 0 <= i
{
    if i >= s.len() {
        None
    } else {
        match cx_at(s, i) {
            Option::Some(p) => Some(p),
            Option::None => first_cx_from(s, i + 1),
        }
    }
}

/// The parsed pair of the input, bounded for the given safety margin.
pub open spec fn parsed_pair(s: Seq<char>, bound: int) -> Option<(int, int)> {
    match first_cx_from(s, 0) {
        Option::Some((re, im)) => if -bound <= re <= bound && -bound <= im <= bound {
            Some((re, im))
        } else {
            None
        },
        Option::None => None,
    }
}

/// Finds the end of the digit run from `j`.
fn scan_run_end(cs: &Vec<char>, j: usize) -> (e: usize)
    requires
        j <= cs@.len(),
    ensures
        e as int == run_end(cs@, j as int),
        j <= e <= cs@.len(),
{
    let n = cs.len();
    let mut e = j;
    while e < n && (cs[e] as u32) >= 48 && (cs[e] as u32) <= 57
        invariant
            j <= e <= n == cs@.len(),
            run_end(cs@, j as int) == run_end(cs@, e as int),
        decreases n - e,
    {
        e += 1;
    }
    e
}

/// Every position of a digit run holds a digit.
proof fn lemma_run_digits(s: Seq<char>, j: int, e: int)
    requires
        0 <= j <= s.len(),
        e == run_end(s, j),
    ensures
        forall|k: int| j <= k < e ==> text::is_digit(#[trigger] s[k]),
        j <= e <= s.len(),
    decreases s.len() - j,
{
    if j < s.len() && text::is_digit(s[j]) {
        lemma_run_digits(s, j + 1, e);
    }
}

/// Tries the whole pattern at position `i`: reports whether it matched,
/// and the two values when both lie within `bound`.
fn match_at_full(cs: &Vec<char>, i: usize, bound: i64) -> (r: (bool, Option<(i64, i64)>))
    requires
        i < cs@.len(),
        bound >= 0,
    ensures
        r.0 == (cx_at(cs@, i as int) is Some),
        match cx_at(cs@, i as int) {
            Option::Some((re, im)) => {
                &&& (r.1 is Some <==> -bound <= re <= bound && -bound <= im <= bound)
                &&& (r.1 is Some ==> (r.1->0).0 as int == re && (r.1->0).1 as int == im)
            },
            Option::None => r.1 is None,
        },
{
    let n = cs.len();
    if cs[i] != '[' {
        return (false, None);
    }
    let neg1 = i + 1 < n && cs[i + 1] == '-';
    let j1 = if neg1 {
        i + 2
    } else {
        i + 1
    };
    let e1 = scan_run_end(cs, j1);
    if e1 == j1 {
        proof {
            assert(signed_at(cs@, i + 1) is None);
        }
        return (false, None);
    }
    proof {
        lemma_digit_subrange(cs@, j1 as int, e1 as int);
    }
    if !(e1 < n && cs[e1] == ',') {
        return (false, None);
    }
    let neg2 = e1 + 1 < n && cs[e1 + 1] == '-';
    let j2 = if neg2 {
        e1 + 2
    } else {
        e1 + 1
    };
    let e2 = scan_run_end(cs, j2);
    if e2 == j2 {
        proof {
            assert(signed_at(cs@, e1 + 1) is None);
        }
        return (false, None);
    }
    proof {
        lemma_digit_subrange(cs@, j2 as int, e2 as int);
    }
    if !(e2 < n && cs[e2] == ']') {
        return (false, None);
    }
    proof {
        assert(signed_at(cs@, i + 1) == Some(
            (
                if neg1 {
                    -text::digits_val(cs@.subrange(j1 as int, e1 as int))
                } else {
                    text::digits_val(cs@.subrange(j1 as int, e1 as int))
                },
                e1 as int,
            ),
        ));
        assert(signed_at(cs@, e1 + 1) == Some(
            (
                if neg2 {
                    -text::digits_val(cs@.subrange(j2 as int, e2 as int))
                } else {
                    text::digits_val(cs@.subrange(j2 as int, e2 as int))
                },
                e2 as int,
            ),
        ));
    }
    let m1 = text::digits_value_range(cs, j1, e1, bound as u64);
    let m2 = text::digits_value_range(cs, j2, e2, bound as u64);
    match (m1, m2) {
        (Some(a), Some(b)) => {
            let re = if neg1 {
                -(a as i64)
            } else {
                a as i64
            };
            let im = if neg2 {
                -(b as i64)
            } else {
                b as i64
            };
            (true, Some((re, im)))
        },
        _ => (true, None),
    }
}

/// A full digit run is a digit string.
proof fn lemma_digit_subrange(s: Seq<char>, j: int, e: int)
    requires
        0 <= j < e,
        j <= s.len(),
        e == run_end(s, j),
    ensures
        text::is_digits(s.subrange(j, e)),
        e <= s.len(),
{
    lemma_run_digits(s, j, e);
    assert(forall|k: int| 0 <= k < e - j ==> text::is_digit(#[trigger] s.subrange(j, e)[k]));
}

/// The leftmost bracketed pair whose values stay within `bound`;
/// `None` when no pattern matches or a matched value falls outside.
fn scan_first_cx(cs: &Vec<char>, bound: i64) -> (r: Option<(i64, i64)>)
    requires
        bound >= 0,
    ensures
        match parsed_pair(cs@, bound as int) {
            Option::Some((re, im)) => r is Some && (r->0).0 as int == re && (r->0).1 as int == im,
            Option::None => r is None,
        },
{
    let n = cs.len();
    let mut i: usize = 0;
    while i < n
        invariant
            bound >= 0,
            n == cs@.len(),
            0 <= i <= n,
            first_cx_from(cs@, 0) == first_cx_from(cs@, i as int),
        decreases n - i,
    {
        let (matched, vals) = match_at_full(cs, i, bound);
        if matched {
            return vals;
        }
        i += 1;
    }
    None
}


// ===== the engraving iteration =====

/// One engraving step: square, divide both components by `100000`,
/// then add the engraved number.
pub open spec fn engrave_step(st: (int, int), n: (int, int)) -> (int, int) {
    (
        tdiv(st.0 * st.0 - st.1 * st.1, 100000) + n.0,
        tdiv(st.0 * st.1 + st.1 * st.0, 100000) + n.1,
    )
}

/// Has a component left the million bound?
pub open spec fn diverges_spec(v: (int, int)) -> bool {
    v.1 >= 1000000 || v.1 <= -1000000 || v.0 >= 1000000 || v.0 <= -1000000
}

/// Does the iteration starting from `st` at step `i` revisit `n` within
/// a hundred steps before diverging?
pub open spec fn engrave_at(n: (int, int), st: (int, int), i: int) -> bool
    decreases 101 - i,
    when i >= 1
{
    if i > 100 {
        true
    } else if i > 2 && st == n {
        true
    } else {
        let nx = engrave_step(st, n);
        if diverges_spec(nx) {
            false
        } else {
            engrave_at(n, nx, i + 1)
        }
    }
}

/// Is the point engraved: the iteration from the origin returns to it.
pub open spec fn engrave_ok(n: (int, int)) -> bool {
    engrave_at(n, (0, 0), 1)
}

/// A bounded dividend keeps a bounded truncating quotient.
proof fn lemma_tdiv_bound(a: int, b: int, bound: int)
    requires
        b > 0,
        bound >= 0,
        -bound <= a <= bound,
    ensures
        -(bound / b) <= tdiv(a, b) <= bound / b,
{
    if a >= 0 {
        vstd::arithmetic::div_mod::lemma_div_is_ordered(a, bound, b);
        vstd::arithmetic::div_mod::lemma_div_pos_is_pos(a, b);
    } else {
        vstd::arithmetic::div_mod::lemma_div_is_ordered(-a, bound, b);
        vstd::arithmetic::div_mod::lemma_div_pos_is_pos(-a, b);
    }
}

/// Runs the engraving check for one point.
pub fn engrave(number: &ComplexNumber) -> (r: bool)
    requires
        -9200000000000000000 <= number.real <= 9200000000000000000,
        -9200000000000000000 <= number.imaginary <= 9200000000000000000,
    ensures
        r == engrave_ok((number.real as int, number.imaginary as int)),
{
    let ghost np = (number.real as int, number.imaginary as int);
    let divisor = ComplexNumber { real: 100000, imaginary: 100000 };
    let mut st = ComplexNumber { real: 0, imaginary: 0 };
    let mut i: u32 = 1;
    while i <= 100
        invariant
            -9200000000000000000 <= number.real <= 9200000000000000000,
            -9200000000000000000 <= number.imaginary <= 9200000000000000000,
            np == (number.real as int, number.imaginary as int),
            divisor.real == 100000,
            divisor.imaginary == 100000,
            1 <= i <= 101,
            -1000000 < st.real < 1000000,
            -1000000 < st.imaginary < 1000000,
            engrave_ok(np) == engrave_at(np, (st.real as int, st.imaginary as int), i as int),
        decreases 101 - i,
    {
        if i > 2 && st.real == number.real && st.imaginary == number.imaginary {
            return true;
        }
        proof {
            assert(0 <= st.real * st.real <= 1000000000000 && 0 <= st.imaginary * st.imaginary
                <= 1000000000000 && -1000000000000 <= st.real * st.imaginary
                <= 1000000000000 && -1000000000000 <= st.imaginary * st.real
                <= 1000000000000) by (nonlinear_arith)
                requires
                    -1000000 < st.real < 1000000,
                    -1000000 < st.imaginary < 1000000,
            ;
            lemma_tdiv_bound(
                st.real as int * st.real as int - st.imaginary as int * st.imaginary as int,
                100000,
                2000000000000,
            );
            lemma_tdiv_bound(
                st.real as int * st.imaginary as int + st.imaginary as int * st.real as int,
                100000,
                2000000000000,
            );
        }
        let sq = st.multiply(&st);
        let dv = sq.divide(&divisor);
        let nx = dv.add(number);
        if nx.real >= 1000000 || nx.real <= -1000000 || nx.imaginary >= 1000000 || nx.imaginary
            <= -1000000 {
            proof {
                assert(diverges_spec((nx.real as int, nx.imaginary as int)));
            }
            return false;
        }
        proof {
            assert((nx.real as int, nx.imaginary as int) == engrave_step(
                (st.real as int, st.imaginary as int),
                np,
            ));
        }
        st = nx;
        i += 1;
    }
    true
}

// ===== counting engraved grid points =====

/// Engraved points among the first `j` columns of the row at `re`.
pub open spec fn col_count(a: (int, int), re: int, step: int, j: int) -> int
    decreases j,
{
    if j <= 0 {
        0
    } else {
        col_count(a, re, step, j - 1) + if engrave_ok((re, a.1 + step * (j - 1))) {
            1int
        } else {
            0int
        }
    }
}

/// Engraved points among the first `k` rows of the grid.
pub open spec fn grid_count(a: (int, int), step: int, k: int, cols: int) -> int
    decreases k,
{
    if k <= 0 {
        0
    } else {
        grid_count(a, step, k - 1, cols) + col_count(a, a.0 + step * (k - 1), step, cols)
    }
}

proof fn lemma_col_count_le(a: (int, int), re: int, step: int, j: int)
    requires
        j >= 0,
    ensures
        0 <= col_count(a, re, step, j) <= j,
    decreases j,
{
    if j > 0 {
        lemma_col_count_le(a, re, step, j - 1);
    }
}

proof fn lemma_grid_count_le(a: (int, int), step: int, k: int, cols: int)
    requires
        k >= 0,
        cols >= 0,
    ensures
        0 <= grid_count(a, step, k, cols) <= k * cols,
    decreases k,
{
    if k > 0 {
        lemma_grid_count_le(a, step, k - 1, cols);
        lemma_col_count_le(a, a.0 + step * (k - 1), step, cols);
        assert((k - 1) * cols + cols == k * cols) by (nonlinear_arith);
    } else {
        assert(k * cols == 0) by (nonlinear_arith)
            requires
                k == 0,
        ;
    }
}

/// Counts the engraved points of the `cells x cells` grid anchored at
/// `a` with the given step.
fn grid_engraved(a: &ComplexNumber, step: i64, cells: u32) -> (r: u64)
    requires
        1 <= step <= 1000,
        1 <= cells <= 1001,
        (cells - 1) * step == 1000,
        -9199999999999999000 <= a.real <= 9199999999999999000,
        -9199999999999999000 <= a.imaginary <= 9199999999999999000,
    ensures
        r as int == grid_count(
            (a.real as int, a.imaginary as int),
            step as int,
            cells as int,
            cells as int,
        ),
{
    let ghost ap = (a.real as int, a.imaginary as int);
    let mut count: u64 = 0;
    let mut kr: u32 = 0;
    while kr < cells
        invariant
            1 <= step <= 1000,
            1 <= cells <= 1001,
            (cells - 1) * step == 1000,
            -9199999999999999000 <= a.real <= 9199999999999999000,
            -9199999999999999000 <= a.imaginary <= 9199999999999999000,
            ap == (a.real as int, a.imaginary as int),
            0 <= kr <= cells,
            count as int == grid_count(ap, step as int, kr as int, cells as int),
            count <= 1002001,
        decreases cells - kr,
    {
        proof {
            assert(0 <= step as int * (kr as int) && step as int * (kr as int)
                <= 1000) by (nonlinear_arith)
                requires
                    0 <= kr < cells <= 1001,
                    1 <= step <= 1000,
                    (cells - 1) * step == 1000,
            ;
        }
        let re = a.real + step * (kr as i64);
        let mut kc: u32 = 0;
        let mut row: u64 = 0;
        while kc < cells
            invariant
                1 <= step <= 1000,
                1 <= cells <= 1001,
                (cells - 1) * step == 1000,
                -9199999999999999000 <= a.real <= 9199999999999999000,
                -9199999999999999000 <= a.imaginary <= 9199999999999999000,
                ap == (a.real as int, a.imaginary as int),
                0 <= kr < cells,
                re as int == ap.0 + step * (kr as int),
                -9200000000000000000 <= re <= 9200000000000000000,
                0 <= kc <= cells,
                row as int == col_count(ap, re as int, step as int, kc as int),
                row <= kc,
            decreases cells - kc,
        {
            proof {
                assert(0 <= step as int * (kc as int) && step as int * (kc as int)
                    <= 1000) by (nonlinear_arith)
                    requires
                        0 <= kc < cells <= 1001,
                        1 <= step <= 1000,
                        (cells - 1) * step == 1000,
                ;
            }
            let im = a.imaginary + step * (kc as i64);
            let point = ComplexNumber { real: re, imaginary: im };
            if engrave(&point) {
                row += 1;
            }
            kc += 1;
        }
        proof {
            lemma_grid_count_le(ap, step as int, kr + 1, cells as int);
            lemma_grid_count_le(ap, step as int, kr as int, cells as int);
            lemma_col_count_le(ap, re as int, step as int, cells as int);
        }
        count += row;
        proof {
            assert(count as int == grid_count(ap, step as int, kr + 1 as int, cells as int));
            assert(count as int <= (kr + 1) * cells as int);
            assert((kr + 1) * cells as int <= 1002001) by (nonlinear_arith)
                requires
                    0 <= kr < cells <= 1001,
            ;
        }
        kr += 1;
    }
    count
}

// ===== the three parts =====

/// The three-step fold of part one.
pub open spec fn p1_step(acc: (int, int), a: (int, int)) -> (int, int) {
    (
        tdiv(acc.0 * acc.0 - acc.1 * acc.1, 10) + a.0,
        tdiv(acc.0 * acc.1 + acc.1 * acc.0, 10) + a.1,
    )
}

pub open spec fn p1_fold3(a: (int, int)) -> (int, int) {
    p1_step(p1_step(p1_step((0, 0), a), a), a)
}

/// The bracketed rendering `[re,im]`.
pub open spec fn bracket_digits(v: (int, int)) -> Seq<char> {
    seq!['['] + text::int_digits(v.0) + seq![','] + text::int_digits(v.1) + seq![']']
}

/// Three squaring steps from the parsed pair, rendered as `[re,im]`;
/// `None` when no pair is found or it lies outside the safe range.
pub fn part1(input: &str) -> (r: Option<String>)
    ensures
        r is Some <==> parsed_pair(input@, 100000) is Some,
        r is Some ==> r->0@ == bracket_digits(p1_fold3(parsed_pair(input@, 100000)->0)),
{
    let cs = text::chars_of(input);
    let (are, aim) = match scan_first_cx(&cs, 100000) {
        Some(p) => p,
        None => {
            return None;
        },
    };
    let ghost ap = (are as int, aim as int);
    let a = ComplexNumber { real: are, imaginary: aim };
    let tenten = ComplexNumber { real: 10, imaginary: 10 };
    let mut acc = ComplexNumber { real: 0, imaginary: 0 };
    let mut step: u32 = 0;
    while step < 3
        invariant
            -100000 <= are <= 100000,
            -100000 <= aim <= 100000,
            ap == (are as int, aim as int),
            a.real == are && a.imaginary == aim,
            tenten.real == 10 && tenten.imaginary == 10,
            0 <= step <= 3,
            step == 0 ==> acc.real == 0 && acc.imaginary == 0,
            step == 1 ==> (acc.real as int, acc.imaginary as int) == p1_step((0, 0), ap),
            step == 2 ==> (acc.real as int, acc.imaginary as int) == p1_step(
                p1_step((0, 0), ap),
                ap,
            ),
            step == 3 ==> (acc.real as int, acc.imaginary as int) == p1_fold3(ap),
            step == 1 ==> -100000 <= acc.real <= 100000 && -100000 <= acc.imaginary <= 100000,
            step == 2 ==> -2000100000 <= acc.real <= 2000100000 && -2000100000 <= acc.imaginary
                <= 2000100000,
        decreases 3 - step,
    {
        proof {
            if step == 0 {
                assert(acc.real * acc.real == 0 && acc.imaginary * acc.imaginary == 0
                    && acc.real * acc.imaginary == 0
                    && acc.imaginary * acc.real == 0) by (nonlinear_arith)
                    requires
                        acc.real == 0,
                        acc.imaginary == 0,
                ;
                lemma_tdiv_bound(0, 10, 0);
            } else if step == 1 {
                assert(0 <= acc.real * acc.real <= 10000000000 && 0 <= acc.imaginary
                    * acc.imaginary <= 10000000000 && -10000000000 <= acc.real * acc.imaginary
                    <= 10000000000 && -10000000000 <= acc.imaginary * acc.real
                    <= 10000000000) by (nonlinear_arith)
                    requires
                        -100000 <= acc.real <= 100000,
                        -100000 <= acc.imaginary <= 100000,
                ;
                lemma_tdiv_bound(
                    acc.real as int * acc.real as int - acc.imaginary as int
                        * acc.imaginary as int,
                    10,
                    20000000000,
                );
                lemma_tdiv_bound(
                    acc.real as int * acc.imaginary as int + acc.imaginary as int
                        * acc.real as int,
                    10,
                    20000000000,
                );
            } else {
                assert(0 <= acc.real * acc.real <= 4000400010000000000 && 0 <= acc.imaginary
                    * acc.imaginary <= 4000400010000000000 && -4000400010000000000 <= acc.real
                    * acc.imaginary <= 4000400010000000000 && -4000400010000000000
                    <= acc.imaginary * acc.real <= 4000400010000000000) by (nonlinear_arith)
                    requires
                        -2000100000 <= acc.real <= 2000100000,
                        -2000100000 <= acc.imaginary <= 2000100000,
                ;
                lemma_tdiv_bound(
                    acc.real as int * acc.real as int - acc.imaginary as int
                        * acc.imaginary as int,
                    10,
                    8000800020000000000,
                );
                lemma_tdiv_bound(
                    acc.real as int * acc.imaginary as int + acc.imaginary as int
                        * acc.real as int,
                    10,
                    8000800020000000000,
                );
            }
        }
        let sq = acc.multiply(&acc);
        let dv = sq.divide(&tenten);
        acc = dv.add(&a);
        step += 1;
    }
    let res = text::to_decimal_i64(acc.real);
    let ims = text::to_decimal_i64(acc.imaginary);
    let mut out = String::from_str("[");
    out.append(res.as_str());
    out.append(",");
    out.append(ims.as_str());
    out.append("]");
    proof {
        reveal_strlit("[");
        reveal_strlit(",");
        reveal_strlit("]");
        assert(out@ =~= bracket_digits(p1_fold3(ap)));
    }
    Some(out)
}

/// The engraved count of the coarse (step ten) grid; `None` when no
/// pair is found or it lies outside the safe range.
pub fn part2(input: &str) -> (r: Option<u64>)
    ensures
        r is Some <==> parsed_pair(input@, 9199999999999999000) is Some,
        r is Some ==> r->0 as int == grid_count(
            parsed_pair(input@, 9199999999999999000)->0,
            10,
            101,
            101,
        ),
{
    let cs = text::chars_of(input);
    let (are, aim) = match scan_first_cx(&cs, 9199999999999999000) {
        Some(p) => p,
        None => {
            return None;
        },
    };
    let a = ComplexNumber { real: are, imaginary: aim };
    Some(grid_engraved(&a, 10, 101))
}

/// The engraved count of the dense (step one) grid; `None` when no
/// pair is found or it lies outside the safe range.
pub fn part3(input: &str) -> (r: Option<u64>)
    ensures
        r is Some <==> parsed_pair(input@, 9199999999999999000) is Some,
        r is Some ==> r->0 as int == grid_count(
            parsed_pair(input@, 9199999999999999000)->0,
            1,
            1001,
            1001,
        ),
{
    let cs = text::chars_of(input);
    let (are, aim) = match scan_first_cx(&cs, 9199999999999999000) {
        Some(p) => p,
        None => {
            return None;
        },
    };
    let a = ComplexNumber { real: are, imaginary: aim };
    Some(grid_engraved(&a, 1, 1001))
}

impl crate::solutions::solution::Solver for Day2Solver {
    fn solve(&self, input: crate::solutions::solution::Input) -> Option<
        crate::solutions::solution::Solution,
    > {
        let p1 = match part1(input.part1.as_str()) {
            Some(s) => s,
            None => {
                return None;
            },
        };
        let p2 = match part2(input.part2.as_str()) {
            Some(n) => crate::text::to_decimal(n),
            None => {
                return None;
            },
        };
        let p3 = match part3(input.part3.as_str()) {
            Some(n) => crate::text::to_decimal(n),
            None => {
                return None;
            },
        };
        Some(crate::solutions::solution::Solution { part1: p1, part2: p2, part3: p3 })
    }
}

} // verus!

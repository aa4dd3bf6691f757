use vstd::prelude::*;

use crate::text;

verus! {

/// Gear-ratio arithmetic over line-separated numbers.
pub struct Day4Solver;

// ===== the grammar =====

/// Every line is a number a `u32` holds, and there is at least one line.
pub open spec fn wf_lines_u32(s: Seq<char>) -> bool {
    let ls = text::lines_spec(s);
    ls.len() >= 1 && forall|i: int|
        0 <= i < ls.len() ==> ({
            let p = text::parse_uint_spec(#[trigger] ls[i]);
            p is Some && p->0 <= u32::MAX
        })
}

/// The numbers the lines denote.
pub open spec fn line_nums(s: Seq<char>) -> Seq<int> {
    Seq::new(text::lines_spec(s).len(), |i: int| text::parse_uint_spec(text::lines_spec(s)[i])->0)
}

/// A gear line: either one number, or `left|right` read as `right / left`.
pub open spec fn gear_of(line: Seq<char>) -> Option<int> {
    let ps = text::split_by(line, seq!['|']);
    if ps.len() == 1 {
        match text::parse_uint_spec(ps[0]) {
            Option::Some(v) => if v <= u64::MAX {
                Some(v)
            } else {
                None
            },
            Option::None => None,
        }
    } else if ps.len() == 2 {
        match (text::parse_uint_spec(ps[0]), text::parse_uint_spec(ps[1])) {
            (Option::Some(l), Option::Some(r)) => if l != 0 && l <= u64::MAX && r <= u64::MAX {
                Some(r / l)
            } else {
                None
            },
            _ => None,
        }
    } else {
        None
    }
}

/// At least two gear lines, each well-formed.
pub open spec fn wf_gears(s: Seq<char>) -> bool {
    let ls = text::lines_spec(s);
    ls.len() >= 2 && forall|i: int| 0 <= i < ls.len() ==> gear_of(#[trigger] ls[i]) is Some
}

/// The gear ratios the lines denote.
pub open spec fn gears_of(s: Seq<char>) -> Seq<int> {
    Seq::new(text::lines_spec(s).len(), |i: int| gear_of(text::lines_spec(s)[i])->0)
}

/// The product of the interior gears `gs[1..1+i]`.
pub open spec fn gear_prod(gs: Seq<int>, i: int) -> int
    decreases i,
{
    if i <= 0 {
        1
    } else {
        gear_prod(gs, i - 1) * gs[i]
    }
}

/// No prefix of the interior product overflows a `u64` when folded left
/// to right.
pub open spec fn gear_prod_ok(gs: Seq<int>, i: int) -> bool
    decreases i,
{
    if i <= 0 {
        true
    } else {
        gear_prod_ok(gs, i - 1) && gear_prod(gs, i - 1) * gs[i] <= u64::MAX
    }
}

/// The ceiling of `x / d` for non-negative `x` and positive `d`.
pub open spec fn ceil_div(x: int, d: int) -> int {
    (x + d - 1) / d
}

// ===== parsing =====

/// All line numbers; `None` when a line is not a `u32`.
fn parse_lines_u32(v: &Vec<char>) -> (r: Option<Vec<u32>>)
    ensures
        r is Some <==> wf_lines_u32(v@),
        r is Some ==> (r->0)@.len() == line_nums(v@).len() && (r->0)@.len() >= 1 && forall|i: int|
            0 <= i < (r->0)@.len() ==> (r->0)@[i] as int == line_nums(v@)[i],
{
    let lines = text::lines_vecs(v);
    let ghost ls = text::lines_spec(v@);
    let n = lines.len();
    if n == 0 {
        return None;
    }
    let mut out: Vec<u32> = Vec::new();
    let mut i: usize = 0;
    while i < n
        invariant
            lines.deep_view() == ls,
            ls == text::lines_spec(v@),
            n == lines@.len() == ls.len(),
            0 <= i <= n,
            out@.len() == i,
            forall|j: int|
                0 <= j < i ==> ({
                    let p = text::parse_uint_spec(#[trigger] ls[j]);
                    p is Some && p->0 <= u32::MAX && out@[j] as int == p->0
                }),
        decreases n - i,
    {
        let line = &lines[i];
        proof {
            assert(lines.deep_view()[i as int] == lines@[i as int].deep_view());
            assert(lines@[i as int].deep_view() =~= line@);
            assert(line@.subrange(0, line@.len() as int) =~= ls[i as int]);
        }
        match text::parse_u32_range(line, 0, line.len()) {
            Some(x) => {
                out.push(x);
            },
            None => {
                return None;
            },
        }
        i += 1;
    }
    Some(out)
}

/// All gear ratios; `None` when a line is malformed.
fn parse_gears(v: &Vec<char>) -> (r: Option<Vec<u64>>)
    ensures
        r is Some <==> ({
            let ls = text::lines_spec(v@);
            forall|i: int| 0 <= i < ls.len() ==> gear_of(#[trigger] ls[i]) is Some
        }),
        r is Some ==> (r->0)@.len() == gears_of(v@).len() && forall|i: int|
            0 <= i < (r->0)@.len() ==> (r->0)@[i] as int == gears_of(v@)[i],
{
    let lines = text::lines_vecs(v);
    let ghost ls = text::lines_spec(v@);
    let n = lines.len();
    let mut bar: Vec<char> = Vec::new();
    bar.push('|');
    proof {
        assert(bar@ =~= seq!['|']);
    }
    let mut out: Vec<u64> = Vec::new();
    let mut i: usize = 0;
    while i < n
        invariant
            lines.deep_view() == ls,
            ls == text::lines_spec(v@),
            bar@ == seq!['|'],
            n == lines@.len() == ls.len(),
            0 <= i <= n,
            out@.len() == i,
            forall|j: int|
                0 <= j < i ==> gear_of(#[trigger] ls[j]) is Some && out@[j] as int == gear_of(
                    ls[j],
                )->0,
        decreases n - i,
    {
        let line = &lines[i];
        proof {
            assert(lines.deep_view()[i as int] == lines@[i as int].deep_view());
            assert(lines@[i as int].deep_view() =~= line@);
        }
        let ps = text::split_ranges(line, &bar);
        let ghost pieces = text::split_by(ls[i as int], seq!['|']);
        let g: u64;
        if ps.len() == 1 {
            let (a, b) = ps[0];
            proof {
                assert(line@.subrange(a as int, b as int) == pieces[0]);
            }
            match text::parse_u64_range(line, a, b) {
                Some(x) => {
                    g = x;
                },
                None => {
                    return None;
                },
            }
        } else if ps.len() == 2 {
            let (a0, b0) = ps[0];
            let (a1, b1) = ps[1];
            proof {
                assert(line@.subrange(a0 as int, b0 as int) == pieces[0]);
                assert(line@.subrange(a1 as int, b1 as int) == pieces[1]);
            }
            let l = match text::parse_u64_range(line, a0, b0) {
                Some(x) => x,
                None => {
                    return None;
                },
            };
            let rr = match text::parse_u64_range(line, a1, b1) {
                Some(x) => x,
                None => {
                    return None;
                },
            };
            if l == 0 {
                return None;
            }
            g = rr / l;
        } else {
            proof {
                assert(gear_of(ls[i as int]) is None);
            }
            return None;
        }
        out.push(g);
        i += 1;
    }
    Some(out)
}

// ===== the three parts =====

/// `2025 * first / last`, `None` when the input is malformed, the product
/// exceeds a `u32`, or the last number is zero.
pub fn part1(input: &str) -> (r: Option<u32>)
    ensures
        r is Some <==> ({
            let ns = line_nums(input@);
            wf_lines_u32(input@) && 2025 * ns[0] <= u32::MAX && ns[ns.len() - 1] != 0
        }),
        r is Some ==> ({
            let ns = line_nums(input@);
            r->0 as int == (2025 * ns[0]) / ns[ns.len() - 1]
        }),
{
    let v = text::chars_of(input);
    let nums = match parse_lines_u32(&v) {
        Some(x) => x,
        None => {
            return None;
        },
    };
    let n0 = nums[0];
    let last = nums[nums.len() - 1];
    let t = match 2025u32.checked_mul(n0) {
        Some(x) => x,
        None => {
            return None;
        },
    };
    if last == 0 {
        return None;
    }
    Some(t / last)
}

/// The ceiling of `10_000_000_000_000 / first * last`, in exact integer
/// arithmetic; `None` when the input is malformed or `first` is zero.
pub fn part2(input: &str) -> (r: Option<u128>)
    ensures
        r is Some <==> ({
            let ns = line_nums(input@);
            wf_lines_u32(input@) && ns[0] != 0
        }),
        r is Some ==> ({
            let ns = line_nums(input@);
            r->0 as int == ceil_div(10_000_000_000_000 * ns[ns.len() - 1], ns[0])
        }),
{
    let v = text::chars_of(input);
    let nums = match parse_lines_u32(&v) {
        Some(x) => x,
        None => {
            return None;
        },
    };
    let a = nums[0] as u128;
    let b = nums[nums.len() - 1] as u128;
    if a == 0 {
        return None;
    }
    let x = 10_000_000_000_000u128 * b;
    Some((x + (a - 1)) / a)
}

/// `100 * first * (product of the interior gears) / last`, `None` when
/// the input is malformed, a step overflows a `u64`, or `last` is zero.
pub fn part3(input: &str) -> (r: Option<u64>)
    ensures
        r is Some <==> ({
            let gs = gears_of(input@);
            let m = gs.len() - 2;
            &&& wf_gears(input@)
            &&& gear_prod_ok(gs, m)
            &&& 100 * gs[0] <= u64::MAX
            &&& (100 * gs[0]) * gear_prod(gs, m) <= u64::MAX
            &&& gs[gs.len() - 1] != 0
        }),
        r is Some ==> ({
            let gs = gears_of(input@);
            r->0 as int == ((100 * gs[0]) * gear_prod(gs, gs.len() - 2)) / gs[gs.len() - 1]
        }),
{
    let v = text::chars_of(input);
    let ghost gspec = gears_of(input@);
    let gears = match parse_gears(&v) {
        Some(x) => x,
        None => {
            return None;
        },
    };
    let n = gears.len();
    if n < 2 {
        return None;
    }
    let mut prod: u64 = 1;
    let mut i: usize = 1;
    while i < n - 1
        invariant
            gspec == gears_of(input@),
            n == gears@.len() == gspec.len(),
            n >= 2,
            forall|j: int| 0 <= j < n ==> gears@[j] as int == gspec[j],
            1 <= i <= n - 1,
            gear_prod_ok(gspec, i - 1),
            prod as int == gear_prod(gspec, i - 1),
        decreases n - i,
    {
        match prod.checked_mul(gears[i]) {
            Some(p) => {
                prod = p;
            },
            None => {
                proof {
                    assert(!gear_prod_ok(gspec, i as int));
                    lemma_gear_prod_ok_mono(gspec, i as int, n - 2);
                }
                return None;
            },
        }
        i += 1;
    }
    let t1 = match 100u64.checked_mul(gears[0]) {
        Some(x) => x,
        None => {
            return None;
        },
    };
    let t2 = match t1.checked_mul(prod) {
        Some(x) => x,
        None => {
            return None;
        },
    };
    let last = gears[n - 1];
    if last == 0 {
        return None;
    }
    Some(t2 / last)
}

/// A failed prefix keeps every longer fold failed.
proof fn lemma_gear_prod_ok_mono(gs: Seq<int>, i: int, m: int)
    requires
        0 <= i <= m,
        !gear_prod_ok(gs, i),
    ensures
        !gear_prod_ok(gs, m),
    decreases m - i,
{
    if i < m {
        lemma_gear_prod_ok_mono(gs, i + 1, m);
    }
}

impl crate::solutions::solution::Solver for Day4Solver {
    fn solve(&self, input: crate::solutions::solution::Input) -> Option<
        crate::solutions::solution::Solution,
    > {
        let p1 = match part1(input.part1.as_str()) {
            Some(n) => crate::text::to_decimal(n as u64),
            None => {
                return None;
            },
        };
        let p2 = match part2(input.part2.as_str()) {
            Some(n) => crate::text::to_decimal_u128(n),
            None => {
                return None;
            },
        };
        let p3 = match part3(input.part3.as_str()) {
            Some(n) => crate::text::to_decimal(n),
            None => {
                return None;
            },
        };
        Some(crate::solutions::solution::Solution { part1: p1, part2: p2, part3: p3 })
    }
}

} // verus!

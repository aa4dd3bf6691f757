use vstd::prelude::*;

use crate::text;

verus! {

/// Sums and counts over a comma-separated list of numbers.
pub struct Day3Solver;

// ===== the grammar =====

/// The comma-separated pieces of the input.
pub open spec fn pieces_of(s: Seq<char>) -> Seq<Seq<char>> {
    text::split_by(s, seq![','])
}

/// Every piece is a number a `u32` holds.
pub open spec fn wf_input(s: Seq<char>) -> bool {
    forall|i: int|
        0 <= i < pieces_of(s).len() ==> ({
            let p = text::parse_uint_spec(#[trigger] pieces_of(s)[i]);
            p is Some && p->0 <= u32::MAX
        })
}

/// The numbers the pieces denote.
pub open spec fn nums_of(s: Seq<char>) -> Seq<int> {
    Seq::new(pieces_of(s).len(), |i: int| text::parse_uint_spec(pieces_of(s)[i])->0)
}

// ===== the three quantities =====

/// The sum of the values, counting every distinct value once.
pub open spec fn distinct_sum(vals: Seq<int>) -> int
    decreases vals.len(),
{
    if vals.len() == 0 {
        0
    } else {
        distinct_sum(vals.drop_last()) + if vals.drop_last().contains(vals.last()) {
            0int
        } else {
            vals.last()
        }
    }
}

/// The least value in `vals` strictly above `above`, if any.
pub open spec fn min_above(vals: Seq<int>, above: int) -> Option<int>
    decreases vals.len(),
{
    if vals.len() == 0 {
        None
    } else {
        let rest = min_above(vals.drop_first(), above);
        if vals[0] > above {
            match rest {
                Option::None => Some(vals[0]),
                Option::Some(m) => Some(
                    if vals[0] <= m {
                        vals[0]
                    } else {
                        m
                    },
                ),
            }
        } else {
            rest
        }
    }
}

/// The sum of the `count` smallest distinct values above `above`.
pub open spec fn smallest_sum(vals: Seq<int>, above: int, count: int) -> int
    decreases count,
{
    if count <= 0 {
        0
    } else {
        match min_above(vals, above) {
            Option::None => 0,
            Option::Some(m) => m + smallest_sum(vals, m, count - 1),
        }
    }
}

/// How often `x` occurs in `vals`.
pub open spec fn count_of(vals: Seq<int>, x: int) -> int
    decreases vals.len(),
{
    if vals.len() == 0 {
        0
    } else {
        count_of(vals.drop_last(), x) + if vals.last() == x {
            1int
        } else {
            0int
        }
    }
}

/// The largest occurrence count among the first `n` values.
pub open spec fn max_count_upto(vals: Seq<int>, n: int) -> int
    decreases n,
{
    if n <= 0 {
        0
    } else {
        let c = count_of(vals, vals[n - 1]);
        let rest = max_count_upto(vals, n - 1);
        if c >= rest {
            c
        } else {
            rest
        }
    }
}

// ===== parsing =====

/// All numbers of the list; `None` when a piece is not a `u32`.
fn parse_nums(v: &Vec<char>) -> (r: Option<Vec<u32>>)
    ensures
        r is Some <==> wf_input(v@),
        r is Some ==> (r->0)@.len() == nums_of(v@).len() && forall|i: int|
            0 <= i < (r->0)@.len() ==> (r->0)@[i] as int == nums_of(v@)[i],
{
    let mut comma: Vec<char> = Vec::new();
    comma.push(',');
    proof {
        assert(comma@ =~= seq![',']);
    }
    let rs = text::split_ranges(v, &comma);
    let ghost ps = pieces_of(v@);
    let n = rs.len();
    let mut out: Vec<u32> = Vec::new();
    let mut i: usize = 0;
    while i < n
        invariant
            text::ranges_pieces(v@, rs@) == ps,
            ps == pieces_of(v@),
            forall|j: int| 0 <= j < rs@.len() ==> #[trigger] rs@[j].0 <= rs@[j].1 <= v@.len(),
            n == rs@.len() == ps.len(),
            0 <= i <= n,
            out@.len() == i,
            forall|j: int|
                0 <= j < i ==> ({
                    let p = text::parse_uint_spec(#[trigger] ps[j]);
                    p is Some && p->0 <= u32::MAX && out@[j] as int == p->0
                }),
        decreases n - i,
    {
        let (a, b) = rs[i];
        proof {
            assert(v@.subrange(a as int, b as int) == ps[i as int]);
        }
        match text::parse_u32_range(v, a, b) {
            Some(x) => {
                out.push(x);
            },
            None => {
                return None;
            },
        }
        i += 1;
    }
    Some(out)
}

// ===== the three parts =====

/// The sum of the distinct values, `None` when the input is malformed or
/// the sum exceeds a `u32`.
pub fn part1(input: &str) -> (r: Option<u32>)
    ensures
        r is Some <==> wf_input(input@) && distinct_sum(nums_of(input@)) <= u32::MAX,
        r is Some ==> r->0 as int == distinct_sum(nums_of(input@)),
{
    let v = text::chars_of(input);
    let ghost nums = nums_of(input@);
    let vals = match parse_nums(&v) {
        Some(x) => x,
        None => {
            return None;
        },
    };
    let n = vals.len();
    let mut acc: u32 = 0;
    let mut i: usize = 0;
    while i < n
        invariant
            nums == nums_of(input@),
            n == vals@.len() == nums.len(),
            forall|j: int| 0 <= j < n ==> vals@[j] as int == nums[j],
            0 <= i <= n,
            acc as int == distinct_sum(nums.take(i as int)),
        decreases n - i,
    {
        let x = vals[i];
        let mut seen = false;
        let mut j: usize = 0;
        while j < i
            invariant
                n == vals@.len(),
                0 <= j <= i < n,
                x == vals@[i as int],
                seen == exists|t: int| 0 <= t < j && vals@[t] == vals@[i as int],
            decreases i - j,
        {
            if vals[j] == x {
                seen = true;
                proof {
                    assert(vals@[j as int] == vals@[i as int]);
                }
            }
            j += 1;
        }
        proof {
            assert(nums.take(i + 1 as int).drop_last() =~= nums.take(i as int));
            assert(seen == nums.take(i as int).contains(nums[i as int])) by {
                if seen {
                    let t = choose|t: int| 0 <= t < i && vals@[t] == vals@[i as int];
                    assert(nums.take(i as int)[t] == nums[i as int]);
                }
                if nums.take(i as int).contains(nums[i as int]) {
                    let t = choose|t: int|
                        0 <= t < i && nums.take(i as int)[t] == nums[i as int];
                    assert(vals@[t] == vals@[i as int]);
                }
            }
        }
        if !seen {
            match acc.checked_add(x) {
                Some(s) => {
                    acc = s;
                },
                None => {
                    proof {
                        assert(distinct_sum(nums.take(i + 1 as int)) == acc as int
                            + nums[i as int]);
                        assert(forall|t: int| 0 <= t < n ==> nums[t] >= 0) by {
                            assert(forall|t: int|
                                0 <= t < n ==> vals@[t] as int == #[trigger] nums[t]);
                        }
                        lemma_distinct_sum_mono(nums, i + 1, n as int);
                        assert(nums.take(n as int) =~= nums);
                    }
                    return None;
                },
            }
        }
        i += 1;
    }
    proof {
        assert(nums.take(n as int) =~= nums);
    }
    Some(acc)
}

/// A longer prefix never sums to less: the added values are non-negative.
proof fn lemma_distinct_sum_mono(vals: Seq<int>, i: int, n: int)
    requires
        0 <= i <= n <= vals.len(),
        forall|j: int| 0 <= j < vals.len() ==> vals[j] >= 0,
    ensures
        distinct_sum(vals.take(i)) <= distinct_sum(vals.take(n)),
    decreases n - i,
{
    if i < n {
        lemma_distinct_sum_mono(vals, i + 1, n);
        assert(vals.take(i + 1).drop_last() =~= vals.take(i));
        assert(vals.take(i + 1).last() == vals[i]);
    }
}

/// The sum of the twenty smallest distinct values, `None` when the input
/// is malformed or the sum exceeds a `u32`.
pub fn part2(input: &str) -> (r: Option<u32>)
    ensures
        r is Some <==> wf_input(input@) && smallest_sum(nums_of(input@), -1, 20) <= u32::MAX,
        r is Some ==> r->0 as int == smallest_sum(nums_of(input@), -1, 20),
{
    let v = text::chars_of(input);
    let ghost nums = nums_of(input@);
    let vals = match parse_nums(&v) {
        Some(x) => x,
        None => {
            return None;
        },
    };
    let n = vals.len();
    let mut acc: u32 = 0;
    let mut above: i64 = -1;
    let mut taken: usize = 0;
    let ghost total = smallest_sum(nums, -1, 20);
    proof {
        lemma_smallest_sum_nonneg(nums, -1, 20);
    }
    while taken < 20
        invariant
            wf_input(input@),
            nums == nums_of(input@),
            n == vals@.len() == nums.len(),
            forall|j: int| 0 <= j < n ==> vals@[j] as int == nums[j],
            total == smallest_sum(nums, -1, 20),
            0 <= taken <= 20,
            -1 <= above <= u32::MAX,
            acc as int + smallest_sum(nums, above as int, 20 - taken as int) == total,
            smallest_sum(nums, above as int, 20 - taken as int) >= 0,
        decreases 20 - taken,
    {
        // scan for the least value above `above`
        let mut best: Option<u32> = None;
        let mut j: usize = n;
        while j > 0
            invariant
                n == vals@.len() == nums.len(),
                forall|t: int| 0 <= t < n ==> vals@[t] as int == nums[t],
                0 <= j <= n,
                -1 <= above <= u32::MAX,
                match best {
                    Option::None => min_above(nums.skip(j as int), above as int) is None,
                    Option::Some(b) => min_above(nums.skip(j as int), above as int) == Some(
                        b as int,
                    ),
                },
            decreases j,
        {
            j -= 1;
            let x = vals[j];
            proof {
                assert(nums.skip(j as int).drop_first() =~= nums.skip(j + 1 as int));
                assert(nums.skip(j as int)[0] == nums[j as int]);
            }
            if (x as i64) > above {
                best = match best {
                    Option::None => Some(x),
                    Option::Some(b) => Some(
                        if x <= b {
                            x
                        } else {
                            b
                        },
                    ),
                };
            }
        }
        proof {
            assert(nums.skip(0) =~= nums);
        }
        match best {
            Some(m) => {
                proof {
                    assert(forall|t: int| 0 <= t < n ==> nums[t] >= 0) by {
                        assert(forall|t: int|
                            0 <= t < n ==> vals@[t] as int == #[trigger] nums[t]);
                    }
                    lemma_smallest_sum_nonneg(nums, m as int, 20 - (taken + 1));
                    assert(smallest_sum(nums, above as int, 20 - taken as int) == m as int
                        + smallest_sum(nums, m as int, 20 - taken as int - 1));
                }
                match acc.checked_add(m) {
                    Some(s) => {
                        acc = s;
                    },
                    None => {
                        proof {
                            assert(total >= acc as int + m as int);
                        }
                        return None;
                    },
                }
                above = m as i64;
                taken += 1;
            },
            None => {
                proof {
                    assert(min_above(nums, above as int) is None);
                    assert(smallest_sum(nums, above as int, 20 - taken as int) == 0);
                    assert(acc as int == total);
                }
                return Some(acc);
            },
        }
    }
    proof {
        assert(smallest_sum(nums, above as int, 0) == 0);
        assert(acc as int == total);
    }
    Some(acc)
}

/// Sums of non-negative minima are non-negative.
proof fn lemma_smallest_sum_nonneg(vals: Seq<int>, above: int, count: int)
    requires
        forall|j: int| 0 <= j < vals.len() ==> vals[j] >= 0,
    ensures
        smallest_sum(vals, above, count) >= 0,
        match min_above(vals, above) {
            Option::Some(m) => m >= 0,
            Option::None => true,
        },
    decreases count, vals.len(),
{
    lemma_min_above_in(vals, above);
    if count > 0 {
        match min_above(vals, above) {
            Option::Some(m) => {
                lemma_smallest_sum_nonneg(vals, m, count - 1);
            },
            Option::None => {},
        }
    }
}

/// A minimum above a bound is one of the values.
proof fn lemma_min_above_in(vals: Seq<int>, above: int)
    ensures
        match min_above(vals, above) {
            Option::Some(m) => vals.contains(m),
            Option::None => true,
        },
    decreases vals.len(),
{
    if vals.len() > 0 {
        lemma_min_above_in(vals.drop_first(), above);
        match min_above(vals.drop_first(), above) {
            Option::Some(m) => {
                let t = choose|t: int|
                    0 <= t < vals.drop_first().len() && vals.drop_first()[t] == m;
                assert(vals[t + 1] == m);
            },
            Option::None => {},
        }
        assert(vals[0] == vals[0]);
    }
}

/// The highest occurrence count of any value, `None` when the input is
/// malformed or a count exceeds a `u32`.
pub fn part3(input: &str) -> (r: Option<u32>)
    ensures
        r is Some <==> wf_input(input@) && max_count_upto(nums_of(input@), nums_of(input@).len() as int)
            <= u32::MAX,
        r is Some ==> r->0 as int == max_count_upto(nums_of(input@), nums_of(input@).len() as int),
{
    let v = text::chars_of(input);
    let ghost nums = nums_of(input@);
    let vals = match parse_nums(&v) {
        Some(x) => x,
        None => {
            return None;
        },
    };
    let n = vals.len();
    let mut max: u64 = 0;
    let mut i: usize = 0;
    while i < n
        invariant
            nums == nums_of(input@),
            n == vals@.len() == nums.len(),
            forall|j: int| 0 <= j < n ==> vals@[j] as int == nums[j],
            0 <= i <= n,
            max as int == max_count_upto(nums, i as int),
            max <= n,
        decreases n - i,
    {
        let x = vals[i];
        let mut c: u64 = 0;
        let mut j: usize = 0;
        while j < n
            invariant
                n == vals@.len() == nums.len(),
                forall|t: int| 0 <= t < n ==> vals@[t] as int == nums[t],
                0 <= j <= n,
                x == vals@[i as int],
                i < n,
                c as int == count_of(nums.take(j as int), nums[i as int]),
                c <= j,
            decreases n - j,
        {
            proof {
                assert(nums.take(j + 1 as int).drop_last() =~= nums.take(j as int));
                assert(nums.take(j + 1 as int).last() == nums[j as int]);
            }
            if vals[j] == x {
                c += 1;
            }
            j += 1;
        }
        proof {
            assert(nums.take(n as int) =~= nums);
        }
        if c > max {
            max = c;
        }
        i += 1;
    }
    if max > (u32::MAX as u64) {
        return None;
    }
    Some(max as u32)
}

impl crate::solutions::solution::Solver for Day3Solver {
    fn solve(&self, input: crate::solutions::solution::Input) -> Option<
        crate::solutions::solution::Solution,
    > {
        let p1 = match part1(input.part1.as_str()) {
            Some(n) => crate::text::to_decimal(n as u64),
            None => {
                return None;
            },
        };
        let p2 = match part2(input.part2.as_str()) {
            Some(n) => crate::text::to_decimal(n as u64),
            None => {
                return None;
            },
        };
        let p3 = match part3(input.part3.as_str()) {
            Some(n) => crate::text::to_decimal(n as u64),
            None => {
                return None;
            },
        };
        Some(crate::solutions::solution::Solution { part1: p1, part2: p2, part3: p3 })
    }
}

} // verus!

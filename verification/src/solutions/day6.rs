use vstd::prelude::*;

use crate::text;

verus! {

/// Counts mentor/student pairings over a string of letters.
pub struct Day6Solver;

// ===== character classes, by code point =====

pub open spec fn is_upper(c: char) -> bool {
    65 <= c as u32 <= 90
}

pub open spec fn is_lower(c: char) -> bool {
    97 <= c as u32 <= 122
}

/// How many characters of `s` have the code `code`.
pub open spec fn count_code(s: Seq<char>, code: int) -> int
    decreases s.len(),
{
    if s.len() == 0 {
        0
    } else {
        count_code(s.drop_last(), code) + if s.last() as u32 == code {
            1int
        } else {
            0int
        }
    }
}

// ===== part one: a single mentor letter =====

/// Pairs of an `A` before an `a` among the first `n` characters.
pub open spec fn simple_pairs(s: Seq<char>, n: int) -> int
    decreases n,
{
    if n <= 0 {
        0
    } else {
        simple_pairs(s, n - 1) + if s[n - 1] as u32 == 97 {
            count_code(s.take(n - 1), 65)
        } else {
            0int
        }
    }
}

// ===== part two: any letter, case-paired =====

/// Every character is an ASCII letter.
pub open spec fn all_letters(s: Seq<char>) -> bool {
    forall|i: int| 0 <= i < s.len() ==> is_upper(#[trigger] s[i]) || is_lower(s[i])
}

/// Pairs of an uppercase letter before its lowercase partner, among the
/// first `n` characters.
pub open spec fn case_pairs(s: Seq<char>, n: int) -> int
    decreases n,
{
    if n <= 0 {
        0
    } else {
        case_pairs(s, n - 1) + if is_lower(s[n - 1]) {
            count_code(s.take(n - 1), s[n - 1] as u32 - 32)
        } else {
            0int
        }
    }
}

// ===== part three: a wrapping window =====

/// What one window offset contributes for the lowercase character at
/// `i`: 1000 when the partner sits at `i + d` itself, 999 when the
/// index wrapped around.
pub open spec fn window_hit(s: Seq<char>, i: int, d: int) -> int {
    let len = s.len() as int;
    let idx = (i + d) % len;
    if s[idx] as u32 == s[i] as u32 - 32 {
        if 0 <= i + d < len {
            1000
        } else {
            999
        }
    } else {
        0
    }
}

/// The window contributions of offsets `-1000..=d` for position `i`.
pub open spec fn window_sum(s: Seq<char>, i: int, d: int) -> int
    decreases d + 1001,
{
    if d < -1000 {
        0
    } else {
        window_sum(s, i, d - 1) + window_hit(s, i, d)
    }
}

/// The total window contributions of the first `n` characters.
pub open spec fn window_total(s: Seq<char>, n: int) -> int
    decreases n,
{
    if n <= 0 {
        0
    } else {
        window_total(s, n - 1) + if is_lower(s[n - 1]) {
            window_sum(s, n - 1, 1000)
        } else {
            0int
        }
    }
}

// ===== shared counting =====

/// Occurrences of code `code` among the first `upto` characters.
fn count_prefix(cs: &Vec<char>, upto: usize, code: u32) -> (r: u64)
    requires
        upto <= cs@.len(),
    ensures
        r as int == count_code(cs@.take(upto as int), code as int),
        r <= upto,
{
    let mut c: u64 = 0;
    let mut j: usize = 0;
    while j < upto
        invariant
            upto <= cs@.len(),
            0 <= j <= upto,
            c as int == count_code(cs@.take(j as int), code as int),
            c <= j,
        decreases upto - j,
    {
        proof {
            assert(cs@.take(j + 1 as int).drop_last() =~= cs@.take(j as int));
            assert(cs@.take(j + 1 as int).last() == cs@[j as int]);
        }
        if (cs[j] as u32) == code {
            c += 1;
        }
        j += 1;
    }
    c
}

// ===== the three parts =====

/// Pairs of `A` before `a`; `None` only when the count exceeds a `u64`.
pub fn part1(input: &str) -> (r: Option<u64>)
    ensures
        r is Some <==> simple_pairs(input@, input@.len() as int) <= u64::MAX,
        r is Some ==> r->0 as int == simple_pairs(input@, input@.len() as int),
{
    let cs = text::chars_of(input);
    let n = cs.len();
    let mut mentors: u64 = 0;
    let mut combos: u64 = 0;
    let mut i: usize = 0;
    proof {
        lemma_simple_pairs_mono(cs@, 0, n as int);
    }
    while i < n
        invariant
            cs@ == input@,
            n == cs@.len(),
            0 <= i <= n,
            mentors <= i,
            mentors as int == count_code(cs@.take(i as int), 65),
            combos as int == simple_pairs(cs@, i as int),
        decreases n - i,
    {
        let c = cs[i];
        let code = c as u32;
        proof {
            assert(cs@.take(i + 1 as int).drop_last() =~= cs@.take(i as int));
            assert(cs@.take(i + 1 as int).last() == cs@[i as int]);
        }
        if code == 65 {
            mentors += 1;
        } else if code == 97 {
            match combos.checked_add(mentors) {
                Some(s) => {
                    combos = s;
                },
                None => {
                    proof {
                        assert(simple_pairs(cs@, i + 1 as int) == combos as int + mentors as int);
                        lemma_simple_pairs_mono(cs@, i + 1, n as int);
                    }
                    return None;
                },
            }
        }
        i += 1;
    }
    Some(combos)
}

/// Prefix sums only grow: each step adds a non-negative count.
proof fn lemma_simple_pairs_mono(s: Seq<char>, i: int, n: int)
    requires
        0 <= i <= n,
    ensures
        simple_pairs(s, i) <= simple_pairs(s, n),
    decreases n - i,
{
    if i < n {
        lemma_simple_pairs_mono(s, i + 1, n);
        lemma_count_code_nonneg(s.take(i), 65);
    }
}

proof fn lemma_count_code_nonneg(s: Seq<char>, code: int)
    ensures
        count_code(s, code) >= 0,
        count_code(s, code) <= s.len(),
    decreases s.len(),
{
    if s.len() > 0 {
        lemma_count_code_nonneg(s.drop_last(), code);
    }
}

/// Pairs of an uppercase letter before its lowercase partner; `None`
/// when a character is not an ASCII letter or the count exceeds a `u64`.
pub fn part2(input: &str) -> (r: Option<u64>)
    ensures
        r is Some <==> all_letters(input@) && case_pairs(input@, input@.len() as int) <= u64::MAX,
        r is Some ==> r->0 as int == case_pairs(input@, input@.len() as int),
{
    let cs = text::chars_of(input);
    let n = cs.len();
    let mut combos: u64 = 0;
    let mut i: usize = 0;
    while i < n
        invariant
            cs@ == input@,
            n == cs@.len(),
            0 <= i <= n,
            forall|j: int| 0 <= j < i ==> is_upper(#[trigger] cs@[j]) || is_lower(cs@[j]),
            combos as int == case_pairs(cs@, i as int),
        decreases n - i,
    {
        let c = cs[i];
        let code = c as u32;
        if 97 <= code && code <= 122 {
            let m = count_prefix(&cs, i, code - 32);
            match combos.checked_add(m) {
                Some(s) => {
                    combos = s;
                },
                None => {
                    proof {
                        assert(case_pairs(cs@, i + 1 as int) == combos as int + m as int);
                        lemma_case_pairs_mono(cs@, i + 1, n as int);
                    }
                    return None;
                },
            }
        } else if !(65 <= code && code <= 90) {
            proof {
                assert(!is_upper(cs@[i as int]) && !is_lower(cs@[i as int]));
            }
            return None;
        }
        i += 1;
    }
    Some(combos)
}

proof fn lemma_case_pairs_mono(s: Seq<char>, i: int, n: int)
    requires
        0 <= i <= n,
    ensures
        case_pairs(s, i) <= case_pairs(s, n),
    decreases n - i,
{
    if i < n {
        lemma_case_pairs_mono(s, i + 1, n);
        if is_lower(s[i]) {
            lemma_count_code_nonneg(s.take(i), s[i] as u32 - 32);
        }
    }
}

/// The wrapping-window pairing total; `None` only when it exceeds a `u64`.
pub fn part3(input: &str) -> (r: Option<u64>)
    ensures
        r is Some <==> window_total(input@, input@.len() as int) <= u64::MAX,
        r is Some ==> r->0 as int == window_total(input@, input@.len() as int),
{
    let cs = text::chars_of(input);
    let n = cs.len();
    let mut combos: u64 = 0;
    let mut i: usize = 0;
    proof {
        lemma_window_total_bounds(cs@, 0, n as int);
    }
    while i < n
        invariant
            cs@ == input@,
            n == cs@.len(),
            0 <= i <= n,
            combos as int == window_total(cs@, i as int),
        decreases n - i,
    {
        let c = cs[i];
        let code = c as u32;
        if 97 <= code && code <= 122 {
            // the window scan
            let mut inner: u64 = 0;
            let mut d: i64 = -1000;
            proof {
                assert(window_sum(cs@, i as int, -1001) == 0);
            }
            while d <= 1000
                invariant
                    cs@ == input@,
                    n == cs@.len(),
                    0 <= i < n,
                    is_lower(cs@[i as int]),
                    code == cs@[i as int] as u32,
                    -1000 <= d <= 1001,
                    inner as int == window_sum(cs@, i as int, d - 1),
                    inner <= 2001000,
                decreases 1001 - d,
            {
                let t: i128 = (i as i128) + (d as i128);
                let idx: usize = if t >= 0 {
                    ((t as u128) % (n as u128)) as usize
                } else {
                    let m = ((-t) as u128) % (n as u128);
                    proof {
                        crate::text::lemma_neg_mod((-t) as int, n as int);
                        if m != 0 {
                            vstd::arithmetic::div_mod::lemma_small_mod(
                                (n as u128 - m) as nat,
                                n as nat,
                            );
                        } else {
                            vstd::arithmetic::div_mod::lemma_mod_self_0(n as int);
                        }
                    }
                    if m == 0 {
                        0
                    } else {
                        ((n as u128) - m) as usize
                    }
                };
                proof {
                    assert(idx as int == (i + d) % (n as int));
                }
                let hit: u64 = if (cs[idx] as u32) == code - 32 {
                    if t >= 0 && t < (n as i128) {
                        1000
                    } else {
                        999
                    }
                } else {
                    0
                };
                proof {
                    assert(hit as int == window_hit(cs@, i as int, d as int));
                    lemma_window_sum_bounds(cs@, i as int, d as int);
                }
                proof {
                    assert((d + 1001) * 1000 <= 2001000) by (nonlinear_arith)
                        requires
                            d <= 1000,
                    ;
                }
                inner += hit;
                d += 1;
            }
            proof {
                assert(window_sum(cs@, i as int, 1000) == inner as int);
                assert(window_total(cs@, i + 1 as int) == combos as int + inner as int);
                lemma_window_total_bounds(cs@, i + 1, n as int);
            }
            match combos.checked_add(inner) {
                Some(s) => {
                    combos = s;
                },
                None => {
                    return None;
                },
            }
        }
        i += 1;
    }
    Some(combos)
}

/// Window totals grow with the prefix, and one window stays under
/// `2001 * 1000`.
proof fn lemma_window_total_bounds(s: Seq<char>, i: int, n: int)
    requires
        0 <= i <= n,
    ensures
        window_total(s, i) <= window_total(s, n),
    decreases n - i,
{
    if i < n {
        lemma_window_total_bounds(s, i + 1, n);
        if is_lower(s[i]) {
            lemma_window_sum_bounds(s, i, 1000);
        }
    }
}

proof fn lemma_window_sum_bounds(s: Seq<char>, i: int, d: int)
    requires
        d >= -1001,
    ensures
        0 <= window_sum(s, i, d) <= (d + 1001) * 1000,
    decreases d + 1001,
{
    if d >= -1000 {
        lemma_window_sum_bounds(s, i, d - 1);
        assert((d + 1001) * 1000 == (d + 1000) * 1000 + 1000) by (nonlinear_arith);
    }
}

impl crate::solutions::solution::Solver for Day6Solver {
    fn solve(&self, input: crate::solutions::solution::Input) -> Option<
        crate::solutions::solution::Solution,
    > {
        let p1 = match part1(input.part1.as_str()) {
            Some(n) => crate::text::to_decimal(n),
            None => {
                return None;
            },
        };
        let p2 = match part2(input.part2.as_str()) {
            Some(n) => crate::text::to_decimal(n),
            None => {
                return None;
            },
        };
        let p3 = match part3(input.part3.as_str()) {
            Some(n) => crate::text::to_decimal(n),
            None => {
                return None;
            },
        };
        Some(crate::solutions::solution::Solution { part1: p1, part2: p2, part3: p3 })
    }
}

} // verus!

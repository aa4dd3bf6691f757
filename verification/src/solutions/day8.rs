use vstd::prelude::*;

use crate::text;

verus! {

/// Chord-crossing counts around a circle of points.
pub struct Day8Solver {
    /// How many points sit on the circle; a scenario parameter.
    pub points: u16,
}

// ===== the grammar =====

/// The comma-separated pieces of the input.
pub open spec fn pieces_of(s: Seq<char>) -> Seq<Seq<char>> {
    text::split_by(s, seq![','])
}

/// Every piece is a number a `u16` holds.
pub open spec fn wf_input(s: Seq<char>) -> bool {
    forall|i: int|
        0 <= i < pieces_of(s).len() ==> ({
            let p = text::parse_uint_spec(#[trigger] pieces_of(s)[i]);
            p is Some && p->0 <= u16::MAX
        })
}

/// The numbers the pieces denote.
pub open spec fn nums_of(s: Seq<char>) -> Seq<int> {
    Seq::new(pieces_of(s).len(), |i: int| text::parse_uint_spec(pieces_of(s)[i])->0)
}

/// Each adjacent pair of numbers, as one chord.
pub open spec fn crosses_of(s: Seq<char>) -> Seq<(int, int)> {
    let ns = nums_of(s);
    if ns.len() == 0 {
        Seq::empty()
    } else {
        Seq::new((ns.len() - 1) as nat, |i: int| (ns[i], ns[i + 1]))
    }
}

// ===== the crossing conditions =====

pub open spec fn lo_of(p: (int, int)) -> int {
    if p.0 <= p.1 {
        p.0
    } else {
        p.1
    }
}

pub open spec fn hi_of(p: (int, int)) -> int {
    if p.0 <= p.1 {
        p.1
    } else {
        p.0
    }
}

/// Two chords interleave strictly: each has exactly one end inside the
/// other's arc.
pub open spec fn interleaves(a: (int, int), b: (int, int)) -> bool {
    let f1 = lo_of(a);
    let t1 = hi_of(a);
    let f = lo_of(b);
    let t = hi_of(b);
    (f1 < f && f < t1 && t1 < t) || (f < f1 && f1 < t && t < t1)
}

/// The chords among the first `n` whose ends differ by exactly `half`.
pub open spec fn diameter_count(cs: Seq<(int, int)>, half: int, n: int) -> int
    decreases n,
{
    if n <= 0 {
        0
    } else {
        diameter_count(cs, half, n - 1) + if hi_of(cs[n - 1]) - lo_of(cs[n - 1]) == half {
            1int
        } else {
            0int
        }
    }
}

/// How many of the first `j` chords interleave with chord `i`.
pub open spec fn earlier_crossings(cs: Seq<(int, int)>, i: int, j: int) -> int
    decreases j,
{
    if j <= 0 {
        0
    } else {
        earlier_crossings(cs, i, j - 1) + if interleaves(cs[j - 1], cs[i]) {
            1int
        } else {
            0int
        }
    }
}

/// The pairwise crossing total over the first `n` chords.
pub open spec fn crossing_total(cs: Seq<(int, int)>, n: int) -> int
    decreases n,
{
    if n <= 0 {
        0
    } else {
        crossing_total(cs, n - 1) + earlier_crossings(cs, n - 1, n - 1)
    }
}

/// How many of the first `n` chords a strike `(f, t)` hits: interleaving
/// chords, and chords equal to the strike itself.
pub open spec fn strike_count(cs: Seq<(int, int)>, f: int, t: int, n: int) -> int
    decreases n,
{
    if n <= 0 {
        0
    } else {
        strike_count(cs, f, t, n - 1) + if interleaves(cs[n - 1], (f, t)) || (lo_of(cs[n - 1])
            == f && hi_of(cs[n - 1]) == t) {
            1int
        } else {
            0int
        }
    }
}

/// The best strike count over strikes `(i, j)` with `i < j <= points`,
/// for this fixed `i`, scanning `j` upward from `j0`.
pub open spec fn best_from_j(cs: Seq<(int, int)>, points: int, i: int, j0: int) -> int
    decreases points - j0 + 1,
{
    if j0 > points {
        0
    } else {
        let c = strike_count(cs, i, j0, cs.len() as int);
        let rest = best_from_j(cs, points, i, j0 + 1);
        if c >= rest {
            c
        } else {
            rest
        }
    }
}

/// The best strike count over all strikes `(i, j)` with `i0 <= i < j <= points`.
pub open spec fn best_from_i(cs: Seq<(int, int)>, points: int, i0: int) -> int
    decreases points - i0 + 1,
{
    if i0 >= points {
        0
    } else {
        let c = best_from_j(cs, points, i0, i0 + 1);
        let rest = best_from_i(cs, points, i0 + 1);
        if c >= rest {
            c
        } else {
            rest
        }
    }
}

// ===== parsing =====

/// The chords of the input; `None` when a piece is not a `u16`.
fn parse_crosses(v: &Vec<char>) -> (r: Option<Vec<(u16, u16)>>)
    ensures
        r is Some <==> wf_input(v@),
        r is Some ==> (r->0)@.len() == crosses_of(v@).len() && forall|i: int|
            0 <= i < (r->0)@.len() ==> (r->0)@[i].0 as int == crosses_of(v@)[i].0
                && (r->0)@[i].1 as int == crosses_of(v@)[i].1,
{
    let mut comma: Vec<char> = Vec::new();
    comma.push(',');
    proof {
        assert(comma@ =~= seq![',']);
    }
    let rs = text::split_ranges(v, &comma);
    let ghost ps = pieces_of(v@);
    let n = rs.len();
    let mut nums: Vec<u16> = Vec::new();
    let mut i: usize = 0;
    while i < n
        invariant
            text::ranges_pieces(v@, rs@) == ps,
            ps == pieces_of(v@),
            forall|j: int| 0 <= j < rs@.len() ==> #[trigger] rs@[j].0 <= rs@[j].1 <= v@.len(),
            n == rs@.len() == ps.len(),
            0 <= i <= n,
            nums@.len() == i,
            forall|j: int|
                0 <= j < i ==> ({
                    let p = text::parse_uint_spec(#[trigger] ps[j]);
                    p is Some && p->0 <= u16::MAX && nums@[j] as int == p->0
                }),
        decreases n - i,
    {
        let (a, b) = rs[i];
        proof {
            assert(v@.subrange(a as int, b as int) == ps[i as int]);
        }
        match text::parse_u16_range(v, a, b) {
            Some(x) => {
                nums.push(x);
            },
            None => {
                return None;
            },
        }
        i += 1;
    }
    let m = nums.len();
    let mut out: Vec<(u16, u16)> = Vec::new();
    let ghost cspec = crosses_of(v@);
    let mut j: usize = 0;
    while m >= 1 && j < m - 1
        invariant
            cspec == crosses_of(v@),
            m == nums@.len() == nums_of(v@).len(),
            forall|t: int| 0 <= t < m ==> nums@[t] as int == nums_of(v@)[t],
            m >= 1 ==> cspec.len() == m - 1,
            m == 0 ==> cspec.len() == 0,
            0 <= j,
            m >= 1 ==> j <= m - 1,
            m == 0 ==> j == 0,
            out@.len() == j,
            forall|t: int|
                0 <= t < j ==> out@[t].0 as int == cspec[t].0 && out@[t].1 as int == cspec[t].1,
        decreases m - j,
    {
        out.push((nums[j], nums[j + 1]));
        j += 1;
    }
    Some(out)
}

// ===== the three parts =====

/// How many chords span exactly half the circle of `points` points.
pub fn part1(input: &str, points: u16) -> (r: Option<u64>)
    ensures
        r is Some <==> wf_input(input@),
        r is Some ==> r->0 as int == diameter_count(
            crosses_of(input@),
            points as int / 2,
            crosses_of(input@).len() as int,
        ),
{
    let v = text::chars_of(input);
    let ghost cspec = crosses_of(input@);
    let crosses = match parse_crosses(&v) {
        Some(x) => x,
        None => {
            return None;
        },
    };
    let half = points / 2;
    let n = crosses.len();
    let mut count: u64 = 0;
    let mut i: usize = 0;
    while i < n
        invariant
            cspec == crosses_of(input@),
            n == crosses@.len() == cspec.len(),
            forall|t: int| 0 <= t < n ==> crosses@[t].0 as int == cspec[t].0 && crosses@[t].1
                as int == cspec[t].1,
            half == points / 2,
            0 <= i <= n,
            count <= i,
            count as int == diameter_count(cspec, points as int / 2, i as int),
        decreases n - i,
    {
        let (a, b) = crosses[i];
        let d = if a <= b {
            b - a
        } else {
            a - b
        };
        if d == half {
            count += 1;
        }
        i += 1;
    }
    Some(count)
}

/// The pairwise crossing total; `None` when the input is malformed or
/// the total exceeds a `u64`.
pub fn part2(input: &str) -> (r: Option<u64>)
    ensures
        r is Some <==> wf_input(input@) && crossing_total(
            crosses_of(input@),
            crosses_of(input@).len() as int,
        ) <= u64::MAX,
        r is Some ==> r->0 as int == crossing_total(
            crosses_of(input@),
            crosses_of(input@).len() as int,
        ),
{
    let v = text::chars_of(input);
    let ghost cspec = crosses_of(input@);
    let crosses = match parse_crosses(&v) {
        Some(x) => x,
        None => {
            return None;
        },
    };
    let n = crosses.len();
    let mut total: u64 = 0;
    let mut i: usize = 0;
    while i < n
        invariant
            wf_input(input@),
            cspec == crosses_of(input@),
            n == crosses@.len() == cspec.len(),
            forall|t: int| 0 <= t < n ==> crosses@[t].0 as int == cspec[t].0 && crosses@[t].1
                as int == cspec[t].1,
            0 <= i <= n,
            total as int == crossing_total(cspec, i as int),
        decreases n - i,
    {
        let (a2, b2) = crosses[i];
        let mut inner: u64 = 0;
        let mut j: usize = 0;
        while j < i
            invariant
                n == crosses@.len() == cspec.len(),
                forall|t: int| 0 <= t < n ==> crosses@[t].0 as int == cspec[t].0 && crosses@[t].1
                    as int == cspec[t].1,
                0 <= j <= i < n,
                a2 == crosses@[i as int].0,
                b2 == crosses@[i as int].1,
                inner <= j,
                inner as int == earlier_crossings(cspec, i as int, j as int),
            decreases i - j,
        {
            let (a1, b1) = crosses[j];
            let f1 = if a1 <= b1 {
                a1
            } else {
                b1
            };
            let t1 = if a1 <= b1 {
                b1
            } else {
                a1
            };
            let f = if a2 <= b2 {
                a2
            } else {
                b2
            };
            let t = if a2 <= b2 {
                b2
            } else {
                a2
            };
            if (f1 < f && f < t1 && t1 < t) || (f < f1 && f1 < t && t < t1) {
                inner += 1;
            }
            j += 1;
        }
        proof {
            lemma_crossing_total_mono(cspec, i + 1, n as int);
        }
        match total.checked_add(inner) {
            Some(s) => {
                total = s;
            },
            None => {
                return None;
            },
        }
        i += 1;
    }
    Some(total)
}

/// Prefix totals only grow.
proof fn lemma_crossing_total_mono(cs: Seq<(int, int)>, i: int, n: int)
    requires
        0 <= i <= n,
    ensures
        crossing_total(cs, i) <= crossing_total(cs, n),
    decreases n - i,
{
    if i < n {
        lemma_crossing_total_mono(cs, i + 1, n);
        lemma_earlier_nonneg(cs, i, i);
    }
}

proof fn lemma_earlier_nonneg(cs: Seq<(int, int)>, i: int, j: int)
    ensures
        earlier_crossings(cs, i, j) >= 0,
    decreases j,
{
    if j > 0 {
        lemma_earlier_nonneg(cs, i, j - 1);
    }
}

/// The integer view of executable chords.
pub open spec fn chords_view(cs: Seq<(u16, u16)>) -> Seq<(int, int)> {
    Seq::new(cs.len(), |i: int| (cs[i].0 as int, cs[i].1 as int))
}

/// How many chords the strike `(f, t)` hits.
pub fn count_crosses(crosses: &Vec<(u16, u16)>, f: u32, t: u32) -> (c: u64)
    requires
        f <= t,
    ensures
        c as int == strike_count(chords_view(crosses@), f as int, t as int, crosses@.len() as int),
{
    let ghost cv = chords_view(crosses@);
    let n = crosses.len();
    let mut c: u64 = 0;
    let mut k: usize = 0;
    while k < n
        invariant
            f <= t,
            cv == chords_view(crosses@),
            n == crosses@.len() == cv.len(),
            0 <= k <= n,
            c <= k,
            c as int == strike_count(cv, f as int, t as int, k as int),
        decreases n - k,
    {
        let (a1, b1) = crosses[k];
        proof {
            assert(cv[k as int] == (a1 as int, b1 as int));
        }
        let f1: u32 = if a1 <= b1 {
            a1 as u32
        } else {
            b1 as u32
        };
        let t1: u32 = if a1 <= b1 {
            b1 as u32
        } else {
            a1 as u32
        };
        if (f1 < f && f < t1 && t1 < t) || (f < f1 && f1 < t && t < t1) || (f1 == f && t1 == t) {
            c += 1;
        }
        k += 1;
    }
    c
}

/// The most chords any single strike across the circle can hit.
pub fn part3(input: &str, points: u16) -> (r: Option<u64>)
    ensures
        r is Some <==> wf_input(input@),
        r is Some ==> r->0 as int == best_from_i(crosses_of(input@), points as int, 1),
{
    let v = text::chars_of(input);
    let ghost cspec = crosses_of(input@);
    let crosses = match parse_crosses(&v) {
        Some(x) => x,
        None => {
            return None;
        },
    };
    let n = crosses.len();
    let p32 = points as u32;
    let mut best: u64 = 0;
    let mut i: u32 = p32;
    // scan strikes downward so the spec's head recursion lines up
    while i > 1
        invariant
            cspec == crosses_of(input@),
            n == crosses@.len() == cspec.len(),
            forall|t: int| 0 <= t < n ==> crosses@[t].0 as int == cspec[t].0 && crosses@[t].1
                as int == cspec[t].1,
            p32 == points as u32,
            1 <= i <= p32 || (p32 <= 1 && i == p32),
            best as int == best_from_i(cspec, points as int, i as int),
        decreases i,
    {
        i -= 1;
        let mut j: u32 = p32 + 1;
        let mut row: u64 = 0;
        while j > i + 1
            invariant
                cspec == crosses_of(input@),
                n == crosses@.len() == cspec.len(),
                forall|t: int| 0 <= t < n ==> crosses@[t].0 as int == cspec[t].0 && crosses@[t].1
                    as int == cspec[t].1,
                p32 == points as u32,
                1 <= i < p32,
                i + 1 <= j <= p32 + 1,
                row as int == best_from_j(cspec, points as int, i as int, j as int),
            decreases j,
        {
            j -= 1;
            proof {
                assert(chords_view(crosses@) =~= cspec);
            }
            let c = count_crosses(&crosses, i, j);
            if c > row {
                row = c;
            }
        }
        if row > best {
            best = row;
        }
    }
    proof {
        if p32 <= 1 {
            assert(best_from_i(cspec, points as int, 1) == best_from_i(
                cspec,
                points as int,
                i as int,
            ));
        }
    }
    Some(best)
}

impl crate::solutions::solution::Solver for Day8Solver {
    fn solve(&self, input: crate::solutions::solution::Input) -> Option<
        crate::solutions::solution::Solution,
    > {
        let p1 = match part1(input.part1.as_str(), self.points) {
            Some(n) => crate::text::to_decimal(n),
            None => {
                return None;
            },
        };
        let p2 = match part2(input.part2.as_str()) {
            Some(n) => crate::text::to_decimal(n),
            None => {
                return None;
            },
        };
        let p3 = match part3(input.part3.as_str(), self.points) {
            Some(n) => crate::text::to_decimal(n),
            None => {
                return None;
            },
        };
        Some(crate::solutions::solution::Solution { part1: p1, part2: p2, part3: p3 })
    }
}

} // verus!

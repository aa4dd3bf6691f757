use vstd::prelude::*;
use vstd::pervasive::VecAdditionalExecFns;
use vstd::string::StrSliceExecFns;

use crate::text;

verus! {

/// Rotates through a circle of names by a list of left/right commands;
/// the three parts differ in how a command moves the cursor.
pub struct Day1Solver;

// ===== the grammar =====

/// The two input sections, cut at the first blank lines.
pub open spec fn sections_of(s: Seq<char>) -> Seq<Seq<char>> {
    text::split_by(s, seq!['\n', '\n'])
}

/// The comma-separated names of the first section.
pub open spec fn names_of(s: Seq<char>) -> Seq<Seq<char>> {
    text::split_by(sections_of(s)[0], seq![','])
}

/// The comma-separated commands of the second section.
pub open spec fn cmds_of(s: Seq<char>) -> Seq<Seq<char>> {
    text::split_by(sections_of(s)[1], seq![','])
}

/// A command read as a rotation: `L` or `R`, then a signed count that
/// fits an `i32`.  The boolean is true for a left rotation.
pub open spec fn rot_of(c: Seq<char>) -> Option<(bool, int)> {
    if c.len() == 0 {
        None
    } else if c[0] == 'L' || c[0] == 'R' {
        match text::parse_sint_spec(c.drop_first()) {
            Some(v) => if i32::MIN <= v <= i32::MAX {
                Some((c[0] == 'L', v))
            } else {
                None
            },
            None => None,
        }
    } else {
        None
    }
}

/// Every command is a well-formed rotation.
pub open spec fn cmds_ok(cmds: Seq<Seq<char>>) -> bool {
    forall|i: int| 0 <= i < cmds.len() ==> rot_of(#[trigger] cmds[i]) is Some
}

/// Two sections, well-formed commands, and a name count an `i32` holds.
pub open spec fn wf_input(s: Seq<char>) -> bool {
    sections_of(s).len() >= 2 && cmds_ok(cmds_of(s)) && names_of(s).len() <= i32::MAX
}

// ===== the three cursor disciplines =====

pub open spec fn clamp_int(x: int, lo: int, hi: int) -> int {
    if x < lo {
        lo
    } else if x > hi {
        hi
    } else {
        x
    }
}

/// The cursor after the first `n` commands, clamped at the ends.
pub open spec fn pos_clamped(cmds: Seq<Seq<char>>, size: int, n: int) -> int
    decreases n,
{
    if n <= 0 {
        0
    } else {
        let p = pos_clamped(cmds, size, n - 1);
        let rv = rot_of(cmds[n - 1])->0;
        if rv.0 {
            clamp_int(p - rv.1, 0, size - 1)
        } else {
            clamp_int(p + rv.1, 0, size - 1)
        }
    }
}

/// The cursor after the first `n` commands, wrapping around the circle.
pub open spec fn pos_wrapped(cmds: Seq<Seq<char>>, size: int, n: int) -> int
    decreases n,
{
    if n <= 0 {
        0
    } else {
        let p = pos_wrapped(cmds, size, n - 1);
        let rv = rot_of(cmds[n - 1])->0;
        if rv.0 {
            (p - rv.1) % size
        } else {
            (p + rv.1) % size
        }
    }
}

/// The index a command swaps the front with: the wrapped count for a
/// right rotation, its mirror for a left one.
pub open spec fn swap_idx_of(rv: (bool, int), size: int) -> int {
    if rv.0 {
        size - (rv.1 % size)
    } else {
        rv.1 % size
    }
}

/// The index permutation after the first `n` commands, each swapping
/// position 0 with its swap index.
pub open spec fn idxs_after(cmds: Seq<Seq<char>>, size: int, n: int) -> Seq<int>
    decreases n,
{
    if n <= 0 {
        Seq::new(size as nat, |i: int| i)
    } else {
        let s = idxs_after(cmds, size, n - 1);
        let idx = swap_idx_of(rot_of(cmds[n - 1])->0, size);
        s.update(0, s[idx]).update(idx, s[0])
    }
}

/// A left command whose count the circle size divides would swap with
/// the out-of-range index `size`; the third part rejects such inputs.
pub open spec fn swaps_ok(cmds: Seq<Seq<char>>, size: int) -> bool {
    forall|i: int|
        0 <= i < cmds.len() ==> swap_idx_of((#[trigger] rot_of(cmds[i]))->0, size) < size
}

// ===== modular helpers =====

/// The least non-negative remainder of `v` modulo `m`.
fn euclid_rem(v: i32, m: u64) -> (r: u64)
    requires
        m >= 1,
    ensures
        r as int == (v as int) % (m as int),
        r < m,
{
    let mag: u64 = if v >= 0 {
        v as u64
    } else {
        (-(v as i64)) as u64
    };
    let rm: u64 = mag % m;
    if v >= 0 {
        rm
    } else {
        proof {
            text::lemma_neg_mod(mag as int, m as int);
            if rm == 0 {
                assert((m as int - 0) % (m as int) == 0) by {
                    vstd::arithmetic::div_mod::lemma_mod_self_0(m as int);
                }
            } else {
                assert((m - rm) as int % (m as int) == (m - rm) as int) by {
                    vstd::arithmetic::div_mod::lemma_small_mod((m - rm) as nat, m as nat);
                }
            }
        }
        if rm == 0 {
            0
        } else {
            m - rm
        }
    }
}

// ===== shared parsing =====

/// Reads one command `s[a..b]` as a rotation; `None` when it is not one.
fn to_rotation(s: &Vec<char>, a: usize, b: usize) -> (r: Option<(bool, i32)>)
    requires
        a <= b <= s@.len(),
    ensures
        r is Some <==> rot_of(s@.subrange(a as int, b as int)) is Some,
        r is Some ==> rot_of(s@.subrange(a as int, b as int)) == Some(
            ((r->0).0, (r->0).1 as int),
        ),
{
    let ghost c = s@.subrange(a as int, b as int);
    if b == a {
        return None;
    }
    let c0 = s[a];
    proof {
        assert(c0 == c[0]);
    }
    let is_left = if c0 == 'L' {
        true
    } else if c0 == 'R' {
        false
    } else {
        return None;
    };
    proof {
        assert(s@.subrange(a + 1 as int, b as int) =~= c.drop_first());
    }
    match text::parse_i32_range(s, a + 1, b) {
        Some(v) => Some((is_left, v)),
        None => None,
    }
}

/// What `split_input` guarantees about its pieces.
pub open spec fn split_post(
    v: Seq<char>,
    s0: Seq<char>,
    b0: int,
    nrs: Seq<(usize, usize)>,
    s1: Seq<char>,
    crs: Seq<(usize, usize)>,
) -> bool {
    &&& s0 == sections_of(v)[0]
    &&& b0 + s0.len() <= v.len()
    &&& v.subrange(b0, b0 + s0.len()) == s0
    &&& text::ranges_pieces(s0, nrs) == names_of(v)
    &&& forall|j: int| 0 <= j < nrs.len() ==> #[trigger] nrs[j].0 <= nrs[j].1 <= s0.len()
    &&& nrs.len() == names_of(v).len()
    &&& s1 == sections_of(v)[1]
    &&& text::ranges_pieces(s1, crs) == cmds_of(v)
    &&& forall|j: int| 0 <= j < crs.len() ==> #[trigger] crs[j].0 <= crs[j].1 <= s1.len()
    &&& crs.len() == cmds_of(v).len()
}

/// Splits the input into the name ranges (with the first section's base
/// offset) and the command ranges; `None` when a section is missing.
fn split_input(v: &Vec<char>) -> (r: Option<
    (Vec<char>, usize, Vec<(usize, usize)>, Vec<char>, Vec<(usize, usize)>),
>)
    ensures
        r is Some <==> sections_of(v@).len() >= 2,
        r is Some ==> split_post(
            v@,
            (r->0).0@,
            (r->0).1 as int,
            (r->0).2@,
            (r->0).3@,
            (r->0).4@,
        ),
{
    let mut sep: Vec<char> = Vec::new();
    sep.push('\n');
    sep.push('\n');
    proof {
        assert(sep@ =~= seq!['\n', '\n']);
    }
    let secs = text::split_ranges(v, &sep);
    proof {
        assert(secs@.len() == sections_of(v@).len());
    }
    if secs.len() < 2 {
        return None;
    }
    let (a0, b0) = secs[0];
    let (a1, b1) = secs[1];
    let s0 = text::subvec(v, a0, b0);
    let s1 = text::subvec(v, a1, b1);
    proof {
        assert(s0@ == sections_of(v@)[0]);
        assert(s1@ == sections_of(v@)[1]);
    }
    let mut comma: Vec<char> = Vec::new();
    comma.push(',');
    proof {
        assert(comma@ =~= seq![',']);
    }
    let nrs = text::split_ranges(&s0, &comma);
    let crs = text::split_ranges(&s1, &comma);
    proof {
        assert(b0 - a0 == s0@.len());
        assert(v@.subrange(a0 as int, a0 + s0@.len()) == s0@);
        assert(split_post(v@, s0@, a0 as int, nrs@, s1@, crs@));
    }
    Some((s0, a0, nrs, s1, crs))
}

// ===== the three parts =====

/// The name under the cursor after all commands, clamping at the ends.
pub fn part1(input: &str) -> (r: Option<String>)
    ensures
        r is Some <==> wf_input(input@),
        r is Some ==> r->0@ == names_of(input@)[pos_clamped(
            cmds_of(input@),
            names_of(input@).len() as int,
            cmds_of(input@).len() as int,
        )],
{
    let v = text::chars_of(input);
    let total = v.len();
    let ghost names = names_of(input@);
    let ghost cmds = cmds_of(input@);
    let (s0, b0, nrs, s1, crs) = match split_input(&v) {
        Some(t) => t,
        None => {
            return None;
        },
    };
    proof {
        assert(v@ == input@);
        assert(split_post(input@, s0@, b0 as int, nrs@, s1@, crs@));
        assert(names.len() >= 1) by {
            text::lemma_split_scan_len(sections_of(input@)[0], seq![','], 0, 0);
        }
        assert(b0 + s0@.len() <= total);
    }
    let size = nrs.len();
    if size > (i32::MAX as usize) {
        return None;
    }
    let ghost sz = size as int;
    let ncmds = crs.len();
    let mut pos: i64 = 0;
    let mut i: usize = 0;
    while i < ncmds
        invariant
            names == names_of(input@),
            cmds == cmds_of(input@),
            s1@ == sections_of(input@)[1],
            text::ranges_pieces(s1@, crs@) == cmds,
            forall|j: int| 0 <= j < crs@.len() ==> #[trigger] crs@[j].0 <= crs@[j].1 <= s1@.len(),
            ncmds == crs@.len() == cmds.len(),
            1 <= size == names.len() <= i32::MAX,
            sz == size as int,
            0 <= i <= ncmds,
            forall|j: int| 0 <= j < i ==> rot_of(#[trigger] cmds[j]) is Some,
            0 <= pos < sz,
            pos == pos_clamped(cmds, sz, i as int),
        decreases ncmds - i,
    {
        let (ca, cb) = crs[i];
        proof {
            assert(s1@.subrange(ca as int, cb as int) == cmds[i as int]);
        }
        let (is_left, vv) = match to_rotation(&s1, ca, cb) {
            Some(t) => t,
            None => {
                return None;
            },
        };
        proof {
            assert(rot_of(cmds[i as int]) == Some((is_left, vv as int)));
        }
        let x: i64 = if is_left {
            pos - (vv as i64)
        } else {
            pos + (vv as i64)
        };
        let hi: i64 = (size as i64) - 1;
        pos = if x < 0 {
            0
        } else if x > hi {
            hi
        } else {
            x
        };
        i += 1;
    }
    let (na, nb) = nrs[pos as usize];
    proof {
        assert(s0@.subrange(na as int, nb as int) == names[pos as int]);
        assert(nb <= s0@.len());
        assert(b0 + nb <= total);
        assert(input@.subrange(b0 + na as int, b0 + nb as int) =~= s0@.subrange(
            na as int,
            nb as int,
        ));
    }
    let name = input.substring_char(b0 + na, b0 + nb);
    Some(name.to_owned())
}

/// The name under the cursor after all commands, wrapping around.
pub fn part2(input: &str) -> (r: Option<String>)
    ensures
        r is Some <==> wf_input(input@),
        r is Some ==> r->0@ == names_of(input@)[pos_wrapped(
            cmds_of(input@),
            names_of(input@).len() as int,
            cmds_of(input@).len() as int,
        )],
{
    let v = text::chars_of(input);
    let total = v.len();
    let ghost names = names_of(input@);
    let ghost cmds = cmds_of(input@);
    let (s0, b0, nrs, s1, crs) = match split_input(&v) {
        Some(t) => t,
        None => {
            return None;
        },
    };
    proof {
        assert(v@ == input@);
        assert(split_post(input@, s0@, b0 as int, nrs@, s1@, crs@));
        assert(names.len() >= 1) by {
            text::lemma_split_scan_len(sections_of(input@)[0], seq![','], 0, 0);
        }
        assert(b0 + s0@.len() <= total);
    }
    let size = nrs.len();
    if size > (i32::MAX as usize) {
        return None;
    }
    let m: u64 = size as u64;
    let ghost sz = size as int;
    let ncmds = crs.len();
    let mut pos: u64 = 0;
    let mut i: usize = 0;
    while i < ncmds
        invariant
            names == names_of(input@),
            cmds == cmds_of(input@),
            s1@ == sections_of(input@)[1],
            text::ranges_pieces(s1@, crs@) == cmds,
            forall|j: int| 0 <= j < crs@.len() ==> #[trigger] crs@[j].0 <= crs@[j].1 <= s1@.len(),
            ncmds == crs@.len() == cmds.len(),
            1 <= size == names.len() <= i32::MAX,
            sz == size as int,
            m == size as u64,
            0 <= i <= ncmds,
            forall|j: int| 0 <= j < i ==> rot_of(#[trigger] cmds[j]) is Some,
            0 <= pos < m,
            pos as int == pos_wrapped(cmds, sz, i as int),
        decreases ncmds - i,
    {
        let (ca, cb) = crs[i];
        proof {
            assert(s1@.subrange(ca as int, cb as int) == cmds[i as int]);
        }
        let (is_left, vv) = match to_rotation(&s1, ca, cb) {
            Some(t) => t,
            None => {
                return None;
            },
        };
        proof {
            assert(rot_of(cmds[i as int]) == Some((is_left, vv as int)));
        }
        let vm = euclid_rem(vv, m);
        proof {
            text::lemma_shift_mod(pos as int, vv as int, m as int);
        }
        pos = if is_left {
            (pos + (m - vm)) % m
        } else {
            (pos + vm) % m
        };
        i += 1;
    }
    let (na, nb) = nrs[pos as usize];
    proof {
        assert(s0@.subrange(na as int, nb as int) == names[pos as int]);
        assert(nb <= s0@.len());
        assert(b0 + nb <= total);
        assert(input@.subrange(b0 + na as int, b0 + nb as int) =~= s0@.subrange(
            na as int,
            nb as int,
        ));
    }
    let name = input.substring_char(b0 + na, b0 + nb);
    Some(name.to_owned())
}

/// The integer views of a vector of indices.
pub open spec fn iseq(s: Seq<usize>) -> Seq<int> {
    Seq::new(s.len(), |i: int| s[i] as int)
}

/// The name at the front of the index permutation after all commands,
/// each swapping the front with its swap index.
pub fn part3(input: &str) -> (r: Option<String>)
    ensures
        r is Some <==> wf_input(input@) && swaps_ok(cmds_of(input@), names_of(input@).len() as int),
        r is Some ==> r->0@ == names_of(input@)[idxs_after(
            cmds_of(input@),
            names_of(input@).len() as int,
            cmds_of(input@).len() as int,
        )[0]],
{
    let v = text::chars_of(input);
    let total = v.len();
    let ghost names = names_of(input@);
    let ghost cmds = cmds_of(input@);
    let (s0, b0, nrs, s1, crs) = match split_input(&v) {
        Some(t) => t,
        None => {
            return None;
        },
    };
    proof {
        assert(v@ == input@);
        assert(split_post(input@, s0@, b0 as int, nrs@, s1@, crs@));
        assert(names.len() >= 1) by {
            text::lemma_split_scan_len(sections_of(input@)[0], seq![','], 0, 0);
        }
        assert(b0 + s0@.len() <= total);
    }
    let size = nrs.len();
    if size > (i32::MAX as usize) {
        return None;
    }
    let m: u64 = size as u64;
    let ghost sz = size as int;
    let ncmds = crs.len();
    let mut indexes: Vec<usize> = Vec::new();
    let mut t: usize = 0;
    while t < size
        invariant
            0 <= t <= size,
            indexes@.len() == t,
            forall|j: int| 0 <= j < t ==> #[trigger] indexes@[j] == j,
        decreases size - t,
    {
        indexes.push(t);
        t += 1;
    }
    proof {
        assert(iseq(indexes@) =~= idxs_after(cmds, sz, 0));
    }
    let mut i: usize = 0;
    while i < ncmds
        invariant
            names == names_of(input@),
            cmds == cmds_of(input@),
            s1@ == sections_of(input@)[1],
            text::ranges_pieces(s1@, crs@) == cmds,
            forall|j: int| 0 <= j < crs@.len() ==> #[trigger] crs@[j].0 <= crs@[j].1 <= s1@.len(),
            ncmds == crs@.len() == cmds.len(),
            1 <= size == names.len() <= i32::MAX,
            sz == size as int,
            m == size as u64,
            0 <= i <= ncmds,
            forall|j: int| 0 <= j < i ==> rot_of(#[trigger] cmds[j]) is Some,
            forall|j: int|
                0 <= j < i ==> swap_idx_of((#[trigger] rot_of(cmds[j]))->0, sz) < sz,
            indexes@.len() == size,
            forall|j: int| 0 <= j < size ==> #[trigger] indexes@[j] < size,
            iseq(indexes@) == idxs_after(cmds, sz, i as int),
        decreases ncmds - i,
    {
        let (ca, cb) = crs[i];
        proof {
            assert(s1@.subrange(ca as int, cb as int) == cmds[i as int]);
        }
        let (is_left, vv) = match to_rotation(&s1, ca, cb) {
            Some(t) => t,
            None => {
                return None;
            },
        };
        proof {
            assert(rot_of(cmds[i as int]) == Some((is_left, vv as int)));
        }
        let vm = euclid_rem(vv, m);
        let idx64: u64 = if is_left {
            m - vm
        } else {
            vm
        };
        if idx64 >= m {
            proof {
                assert(swap_idx_of(rot_of(cmds[i as int])->0, sz) >= sz);
            }
            return None;
        }
        let idx = idx64 as usize;
        let ghost before = iseq(indexes@);
        let x0 = indexes[0];
        let xi = indexes[idx];
        indexes.set(0, xi);
        indexes.set(idx, x0);
        proof {
            assert(iseq(indexes@) =~= before.update(0, before[idx64 as int]).update(
                idx64 as int,
                before[0],
            ));
        }
        i += 1;
    }
    let front = indexes[0];
    let (na, nb) = nrs[front];
    proof {
        assert(iseq(indexes@)[0] == front as int);
        assert(s0@.subrange(na as int, nb as int) == names[front as int]);
        assert(nb <= s0@.len());
        assert(b0 + nb <= total);
        assert(input@.subrange(b0 + na as int, b0 + nb as int) =~= s0@.subrange(
            na as int,
            nb as int,
        ));
    }
    let name = input.substring_char(b0 + na, b0 + nb);
    Some(name.to_owned())
}

impl crate::solutions::solution::Solver for Day1Solver {
    fn solve(&self, input: crate::solutions::solution::Input) -> Option<
        crate::solutions::solution::Solution,
    > {
        let p1 = match part1(input.part1.as_str()) {
            Some(s) => s,
            None => {
                return None;
            },
        };
        let p2 = match part2(input.part2.as_str()) {
            Some(s) => s,
            None => {
                return None;
            },
        };
        let p3 = match part3(input.part3.as_str()) {
            Some(s) => s,
            None => {
                return None;
            },
        };
        Some(crate::solutions::solution::Solution { part1: p1, part2: p2, part3: p3 })
    }
}

} // verus!

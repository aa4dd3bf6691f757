use vstd::prelude::*;

use crate::text;

verus! {

/// Swords graded by the fishbone arrangement of their spine numbers.
pub struct Day5Solver;

/// One fishbone segment: an optional left number, the spine number, an
/// optional right number.
pub struct Segment {
    pub left: Option<u64>,
    pub mid: u64,
    pub right: Option<u64>,
}

/// The mathematical view of a segment.
pub type SegModel = (Option<int>, int, Option<int>);

// ===== the fishbone =====

/// Where a number lands, scanning segments from the front: the first
/// free left slot whose spine is larger, or free right slot whose spine
/// is smaller; a new segment at the end otherwise.
pub open spec fn add_at(fb: Seq<SegModel>, x: int, i: int) -> Seq<SegModel>
    decreases fb.len() - i,
    when 0 <= i
{
    if i >= fb.len() {
        fb.push((None, x, None))
    } else if fb[i].0 is None && x < fb[i].1 {
        fb.update(i, (Some(x), fb[i].1, fb[i].2))
    } else if fb[i].2 is None && x > fb[i].1 {
        fb.update(i, (fb[i].0, fb[i].1, Some(x)))
    } else {
        add_at(fb, x, i + 1)
    }
}

/// The fishbone of the first `k` numbers.
pub open spec fn fishbone_of(nums: Seq<int>, k: int) -> Seq<SegModel>
    decreases k,
{
    if k <= 0 {
        Seq::empty()
    } else {
        add_at(fishbone_of(nums, k - 1), nums[k - 1], 0)
    }
}

// ===== digit concatenation as arithmetic =====

/// How many decimal digits a non-negative number prints.
pub open spec fn ndigits(n: int) -> int
    decreases n,
{
    if n < 10 {
        1
    } else {
        1 + ndigits(n / 10)
    }
}

pub open spec fn pow10(k: int) -> int
    decreases k,
{
    if k <= 0 {
        1
    } else {
        10 * pow10(k - 1)
    }
}

/// Appending the digits of `m` to a number read so far.
pub open spec fn append_num(acc: int, m: int) -> int {
    acc * pow10(ndigits(m)) + m
}

/// The quality of a fishbone: its spine numbers' digits concatenated,
/// read as one number, over the first `k` segments.
pub open spec fn quality_upto(fb: Seq<SegModel>, k: int) -> int
    decreases k,
{
    if k <= 0 {
        0
    } else {
        append_num(quality_upto(fb, k - 1), fb[k - 1].1)
    }
}

/// A segment read as one number: left, spine and right digits in a row.
pub open spec fn seg_num(seg: SegModel) -> int {
    let v1 = match seg.0 {
        Option::Some(l) => append_num(l, seg.1),
        Option::None => seg.1,
    };
    match seg.2 {
        Option::Some(r) => append_num(v1, r),
        Option::None => v1,
    }
}

// ===== the grammar =====

/// A sword line: an identifier, a colon, comma-separated spine numbers,
/// each a `u64`.
pub open spec fn sword_of(line: Seq<char>) -> Option<(int, Seq<int>)> {
    let ps = text::split_by(line, seq![':']);
    if ps.len() < 2 {
        None
    } else {
        match text::parse_uint_spec(ps[0]) {
            Option::None => None,
            Option::Some(id) => {
                if id > u64::MAX {
                    None
                } else {
                    let ns = text::split_by(ps[1], seq![',']);
                    if forall|k: int|
                        0 <= k < ns.len() ==> {
                            let p = text::parse_uint_spec(#[trigger] ns[k]);
                            p is Some && p->0 <= u64::MAX
                        } {
                        Some(
                            (
                                id,
                                Seq::new(ns.len(), |k: int| text::parse_uint_spec(ns[k])->0),
                            ),
                        )
                    } else {
                        None
                    }
                }
            },
        }
    }
}

/// The fishbone a sword line denotes.
pub open spec fn line_fishbone(line: Seq<char>) -> Seq<SegModel> {
    let nums = (sword_of(line)->0).1;
    fishbone_of(nums, nums.len() as int)
}

/// The quality a sword line denotes.
pub open spec fn line_quality(line: Seq<char>) -> int {
    quality_upto(line_fishbone(line), line_fishbone(line).len() as int)
}

// ===== executable parsing and the fishbone =====

/// The mathematical view of executable segments.
pub open spec fn segs_view(sv: Seq<Segment>) -> Seq<SegModel> {
    Seq::new(
        sv.len(),
        |i: int|
            (
                match sv[i].left {
                    Option::Some(l) => Some(l as int),
                    Option::None => None,
                },
                sv[i].mid as int,
                match sv[i].right {
                    Option::Some(r) => Some(r as int),
                    Option::None => None,
                },
            ),
    )
}

/// Parses one sword line into its identifier and spine numbers.
fn parse_sword(line: &Vec<char>) -> (r: Option<(u64, Vec<u64>)>)
    ensures
        r is Some <==> sword_of(line@) is Some,
        r is Some ==> ({
            let (id, nums) = r->0;
            &&& id as int == (sword_of(line@)->0).0
            &&& nums@.len() == (sword_of(line@)->0).1.len()
            &&& forall|k: int|
                0 <= k < nums@.len() ==> nums@[k] as int == (sword_of(line@)->0).1[k]
        }),
{
    let mut colon: Vec<char> = Vec::new();
    colon.push(':');
    proof {
        assert(colon@ =~= seq![':']);
    }
    let ps = text::split_ranges(line, &colon);
    let ghost pieces = text::split_by(line@, seq![':']);
    if ps.len() < 2 {
        return None;
    }
    let (a0, b0) = ps[0];
    proof {
        assert(line@.subrange(a0 as int, b0 as int) == pieces[0]);
    }
    let id = match text::parse_u64_range(line, a0, b0) {
        Some(x) => x,
        None => {
            return None;
        },
    };
    let (a1, b1) = ps[1];
    proof {
        assert(line@.subrange(a1 as int, b1 as int) == pieces[1]);
    }
    let numsv = text::subvec(line, a1, b1);
    let mut comma: Vec<char> = Vec::new();
    comma.push(',');
    proof {
        assert(comma@ =~= seq![',']);
    }
    let nrs = text::split_ranges(&numsv, &comma);
    let ghost nps = text::split_by(pieces[1], seq![',']);
    let m = nrs.len();
    let mut nums: Vec<u64> = Vec::new();
    let mut k: usize = 0;
    while k < m
        invariant
            pieces == text::split_by(line@, seq![':']),
            pieces.len() >= 2,
            text::parse_uint_spec(pieces[0]) is Some && text::parse_uint_spec(pieces[0])->0
                <= u64::MAX,
            numsv@ == pieces[1],
            nps == text::split_by(pieces[1], seq![',']),
            text::ranges_pieces(numsv@, nrs@) == nps,
            text::ranges_wf(numsv@, nrs@),
            m == nrs@.len() == nps.len(),
            0 <= k <= m,
            nums@.len() == k,
            forall|t: int|
                0 <= t < k ==> ({
                    let p = text::parse_uint_spec(#[trigger] nps[t]);
                    p is Some && p->0 <= u64::MAX && nums@[t] as int == p->0
                }),
        decreases m - k,
    {
        let (a, b) = nrs[k];
        proof {
            assert(numsv@.subrange(a as int, b as int) == nps[k as int]);
        }
        match text::parse_u64_range(&numsv, a, b) {
            Some(x) => {
                nums.push(x);
            },
            None => {
                return None;
            },
        }
        k += 1;
    }
    Some((id, nums))
}

/// Builds the fishbone of the given numbers, in order.
fn fishbone(numbers: &Vec<u64>) -> (r: Vec<Segment>)
    ensures
        segs_view(r@) == fishbone_of(
            Seq::new(numbers@.len(), |i: int| numbers@[i] as int),
            numbers@.len() as int,
        ),
{
    let ghost nspec = Seq::new(numbers@.len(), |i: int| numbers@[i] as int);
    let n = numbers.len();
    let mut fb: Vec<Segment> = Vec::new();
    let mut i: usize = 0;
    proof {
        assert(segs_view(fb@) =~= fishbone_of(nspec, 0));
    }
    while i < n
        invariant
            nspec == Seq::new(numbers@.len(), |t: int| numbers@[t] as int),
            n == numbers@.len(),
            0 <= i <= n,
            segs_view(fb@) == fishbone_of(nspec, i as int),
        decreases n - i,
    {
        let x = numbers[i];
        add_to_fishbone(&mut fb, x);
        proof {
            assert(nspec[i as int] == numbers@[i as int] as int);
        }
        i += 1;
    }
    fb
}

/// Adds one number to the fishbone, exactly as the arrangement rule
/// scans it.
fn add_to_fishbone(fishbone: &mut Vec<Segment>, number: u64)
    ensures
        segs_view(final(fishbone)@) == add_at(segs_view(old(fishbone)@), number as int, 0),
{
    let ghost fb0 = segs_view(old(fishbone)@);
    let n = fishbone.len();
    let mut i: usize = 0;
    while i < n
        invariant
            fishbone@ == old(fishbone)@,
            fb0 == segs_view(fishbone@),
            n == fishbone@.len(),
            0 <= i <= n,
            add_at(fb0, number as int, 0) == add_at(fb0, number as int, i as int),
        decreases n - i,
    {
        let sl = fishbone[i].left.is_none();
        let sm = fishbone[i].mid;
        let sr = fishbone[i].right.is_none();
        proof {
            assert(fb0[i as int] == (
                match fishbone@[i as int].left {
                    Option::Some(l) => Some(l as int),
                    Option::None => None,
                },
                fishbone@[i as int].mid as int,
                match fishbone@[i as int].right {
                    Option::Some(r) => Some(r as int),
                    Option::None => None,
                },
            ));
        }
        if sl && number < sm {
            let old_seg = Segment {
                left: Some(number),
                mid: fishbone[i].mid,
                right: fishbone[i].right,
            };
            fishbone.set(i, old_seg);
            proof {
                assert(segs_view(fishbone@) =~= fb0.update(
                    i as int,
                    (Some(number as int), fb0[i as int].1, fb0[i as int].2),
                ));
            }
            return ;
        }
        if sr && number > sm {
            let old_seg = Segment {
                left: fishbone[i].left,
                mid: fishbone[i].mid,
                right: Some(number),
            };
            fishbone.set(i, old_seg);
            proof {
                assert(segs_view(fishbone@) =~= fb0.update(
                    i as int,
                    (fb0[i as int].0, fb0[i as int].1, Some(number as int)),
                ));
            }
            return ;
        }
        i += 1;
    }
    fishbone.push(Segment { left: None, mid: number, right: None });
    proof {
        assert(segs_view(fishbone@) =~= fb0.push((None, number as int, None)));
    }
}


// ===== digit-append arithmetic, executable =====

proof fn lemma_pow10_pos(k: int)
    ensures
        pow10(k) >= 1,
    decreases k,
{
    if k > 0 {
        lemma_pow10_pos(k - 1);
    }
}

proof fn lemma_ndigits_pos(n: int)
    ensures
        ndigits(n) >= 1,
    decreases n,
{
    if n >= 10 {
        lemma_ndigits_pos(n / 10);
    }
}

proof fn lemma_append_grows(acc: int, m: int)
    requires
        acc >= 0,
        m >= 0,
    ensures
        append_num(acc, m) >= acc,
        append_num(acc, m) >= m,
        append_num(acc, m) >= 0,
{
    lemma_ndigits_pos(m);
    lemma_pow10_pos(ndigits(m));
    assert(acc * pow10(ndigits(m)) >= acc) by (nonlinear_arith)
        requires
            acc >= 0,
            pow10(ndigits(m)) >= 1,
    ;
}

/// The power of ten that shifts past the digits of `m`.
fn pow10_of(m: u64) -> (r: Option<u64>)
    ensures
        match r {
            Option::Some(p) => p as int == pow10(ndigits(m as int)),
            Option::None => pow10(ndigits(m as int)) > u64::MAX,
        },
{
    proof {
        lemma_ndigits_pos(m as int);
    }
    let mut p: u64 = 10;
    let mut x: u64 = m;
    proof {
        assert(pow10(ndigits(m as int)) == 10 * pow10(ndigits(m as int) - 1));
    }
    while x >= 10
        invariant
            p >= 10,
            ndigits(x as int) >= 1,
            pow10(ndigits(m as int)) == p as int * pow10(ndigits(x as int) - 1),
        decreases x,
    {
        proof {
            lemma_ndigits_pos(x as int / 10);
            assert(ndigits(x as int) == 1 + ndigits(x as int / 10));
            assert(pow10(ndigits(x as int) - 1) == 10 * pow10(ndigits(x as int) - 2));
        }
        let ghost oldx = x as int;
        x = x / 10;
        proof {
            assert(ndigits(x as int) == ndigits(oldx) - 1);
            assert(pow10(ndigits(m as int)) == p as int * (10 * pow10(
                ndigits(x as int) - 1,
            )));
        }
        match p.checked_mul(10) {
            Some(q) => {
                proof {
                    assert(p as int * (10 * pow10(ndigits(x as int) - 1)) == (p as int * 10)
                        * pow10(ndigits(x as int) - 1)) by (nonlinear_arith);
                }
                p = q;
            },
            None => {
                proof {
                    lemma_pow10_pos(ndigits(x as int) - 1);
                    assert(p as int * (10 * pow10(ndigits(x as int) - 1)) >= p as int
                        * 10) by (nonlinear_arith)
                        requires
                            pow10(ndigits(x as int) - 1) >= 1,
                            p >= 10,
                    ;
                }
                return None;
            },
        }
    }
    proof {
        assert(ndigits(x as int) == 1);
    }
    Some(p)
}

/// Appends the digits of `m` to `acc`; `None` when the result leaves a
/// `u64`.
fn append_exec(acc: u64, m: u64) -> (r: Option<u64>)
    ensures
        r is Some <==> append_num(acc as int, m as int) <= u64::MAX,
        r is Some ==> r->0 as int == append_num(acc as int, m as int),
{
    proof {
        lemma_append_grows(acc as int, m as int);
        lemma_pow10_pos(ndigits(m as int));
    }
    if acc == 0 {
        proof {
            assert(0int * pow10(ndigits(m as int)) == 0) by (nonlinear_arith);
        }
        return Some(m);
    }
    let p = match pow10_of(m) {
        Some(p) => p,
        None => {
            proof {
                assert(acc as int * pow10(ndigits(m as int)) > u64::MAX) by (nonlinear_arith)
                    requires
                        acc >= 1,
                        pow10(ndigits(m as int)) > u64::MAX,
                ;
            }
            return None;
        },
    };
    match acc.checked_mul(p) {
        Some(t) => {
            match t.checked_add(m) {
                Some(v) => Some(v),
                None => None,
            }
        },
        None => {
            proof {
                assert(acc as int * p as int > u64::MAX ==> append_num(acc as int, m as int)
                    > u64::MAX);
            }
            None
        },
    }
}

/// Quality prefixes never shrink.
proof fn lemma_quality_mono(fb: Seq<SegModel>, i: int, n: int)
    requires
        0 <= i <= n,
        forall|t: int| 0 <= t < n ==> (#[trigger] fb[t]).1 >= 0,
    ensures
        0 <= quality_upto(fb, i) || i == 0,
        quality_upto(fb, i) <= quality_upto(fb, n),
        quality_upto(fb, n) >= 0,
    decreases n - i,
{
    if i < n {
        lemma_quality_mono(fb, i + 1, n);
        if i == 0 {
        } else {
        }
        lemma_quality_nonneg(fb, i);
        lemma_append_grows(quality_upto(fb, i), fb[i].1);
    } else {
        lemma_quality_nonneg(fb, n);
    }
}

proof fn lemma_quality_nonneg(fb: Seq<SegModel>, k: int)
    requires
        forall|t: int| 0 <= t < k ==> (#[trigger] fb[t]).1 >= 0,
    ensures
        quality_upto(fb, k) >= 0,
    decreases k,
{
    if k > 0 {
        lemma_quality_nonneg(fb, k - 1);
        lemma_append_grows(quality_upto(fb, k - 1), fb[k - 1].1);
    }
}

/// The quality of a fishbone; `None` when it leaves a `u64`.
fn quality(fb: &Vec<Segment>) -> (r: Option<u64>)
    ensures
        r is Some <==> quality_upto(segs_view(fb@), fb@.len() as int) <= u64::MAX,
        r is Some ==> r->0 as int == quality_upto(segs_view(fb@), fb@.len() as int),
{
    let ghost fv = segs_view(fb@);
    let n = fb.len();
    proof {
        assert(forall|t: int| 0 <= t < n ==> (#[trigger] fv[t]).1 >= 0);
    }
    let mut q: u64 = 0;
    let mut k: usize = 0;
    while k < n
        invariant
            fv == segs_view(fb@),
            n == fb@.len() == fv.len(),
            forall|t: int| 0 <= t < n ==> (#[trigger] fv[t]).1 >= 0,
            0 <= k <= n,
            q as int == quality_upto(fv, k as int),
        decreases n - k,
    {
        let m = fb[k].mid;
        proof {
            assert(fv[k as int].1 == m as int);
        }
        match append_exec(q, m) {
            Some(nq) => {
                q = nq;
            },
            None => {
                proof {
                    lemma_quality_mono(fv, k + 1, n as int);
                }
                return None;
            },
        }
        k += 1;
    }
    Some(q)
}

// ===== parts one and two =====

/// The quality of the first sword line; `None` when the input is
/// malformed or the quality leaves a `u64`.
pub fn part1(input: &str) -> (r: Option<u64>)
    ensures
        r is Some <==> ({
            let ls = text::lines_spec(input@);
            ls.len() >= 1 && sword_of(ls[0]) is Some && line_quality(ls[0]) <= u64::MAX
        }),
        r is Some ==> r->0 as int == line_quality(text::lines_spec(input@)[0]),
{
    let v = text::chars_of(input);
    let lines = text::lines_vecs(&v);
    let ghost ls = text::lines_spec(input@);
    if lines.len() == 0 {
        return None;
    }
    let line = &lines[0];
    proof {
        assert(lines.deep_view()[0] == lines@[0].deep_view());
        assert(lines@[0].deep_view() =~= line@);
    }
    let (_id, nums) = match parse_sword(line) {
        Some(t) => t,
        None => {
            return None;
        },
    };
    proof {
        assert(Seq::new(nums@.len(), |i: int| nums@[i] as int) =~= (sword_of(ls[0])->0).1);
    }
    let fb = fishbone(&nums);
    quality(&fb)
}

/// Is every line a sword whose quality fits?
pub open spec fn wf_all(s: Seq<char>) -> bool {
    let ls = text::lines_spec(s);
    forall|i: int|
        0 <= i < ls.len() ==> sword_of(#[trigger] ls[i]) is Some && line_quality(ls[i])
            <= u64::MAX
}

/// The largest quality among the first `k` lines.
pub open spec fn max_quality(ls: Seq<Seq<char>>, k: int) -> int
    decreases k,
{
    if k <= 1 {
        line_quality(ls[0])
    } else {
        let prev = max_quality(ls, k - 1);
        if line_quality(ls[k - 1]) >= prev {
            line_quality(ls[k - 1])
        } else {
            prev
        }
    }
}

/// The smallest quality among the first `k` lines.
pub open spec fn min_quality(ls: Seq<Seq<char>>, k: int) -> int
    decreases k,
{
    if k <= 1 {
        line_quality(ls[0])
    } else {
        let prev = min_quality(ls, k - 1);
        if line_quality(ls[k - 1]) <= prev {
            line_quality(ls[k - 1])
        } else {
            prev
        }
    }
}

/// The spread between the best and the worst sword; `None` when the
/// input is malformed or a quality leaves a `u64`.
pub fn part2(input: &str) -> (r: Option<u64>)
    ensures
        r is Some <==> text::lines_spec(input@).len() >= 1 && wf_all(input@),
        r is Some ==> ({
            let ls = text::lines_spec(input@);
            r->0 as int == max_quality(ls, ls.len() as int) - min_quality(ls, ls.len() as int)
        }),
{
    let v = text::chars_of(input);
    let lines = text::lines_vecs(&v);
    let ghost ls = text::lines_spec(input@);
    let n = lines.len();
    if n == 0 {
        return None;
    }
    let mut minq: u64 = 0;
    let mut maxq: u64 = 0;
    let mut i: usize = 0;
    while i < n
        invariant
            ls == text::lines_spec(input@),
            lines.deep_view() == ls,
            n == lines@.len() == ls.len(),
            n >= 1,
            0 <= i <= n,
            forall|j: int|
                0 <= j < i ==> sword_of(#[trigger] ls[j]) is Some && line_quality(ls[j])
                    <= u64::MAX,
            i >= 1 ==> minq as int == min_quality(ls, i as int) && maxq as int == max_quality(
                ls,
                i as int,
            ) && minq <= maxq,
        decreases n - i,
    {
        let line = &lines[i];
        proof {
            assert(lines.deep_view()[i as int] == lines@[i as int].deep_view());
            assert(lines@[i as int].deep_view() =~= line@);
        }
        let (_id, nums) = match parse_sword(line) {
            Some(t) => t,
            None => {
                return None;
            },
        };
        proof {
            assert(Seq::new(nums@.len(), |t: int| nums@[t] as int) =~= (sword_of(
                ls[i as int],
            )->0).1);
        }
        let fb = fishbone(&nums);
        let q = match quality(&fb) {
            Some(q) => q,
            None => {
                return None;
            },
        };
        if i == 0 {
            minq = q;
            maxq = q;
        } else {
            if q < minq {
                minq = q;
            }
            if q > maxq {
                maxq = q;
            }
        }
        i += 1;
    }
    Some(maxq - minq)
}


// ===== part three: ranking the swords =====

/// The key a sword sorts by: its quality, its segment numbers in order,
/// and its identifier.
pub type KeyModel = (int, Seq<int>, int);

/// The segment numbers of a fishbone, in order.
pub open spec fn seg_nums(fb: Seq<SegModel>) -> Seq<int> {
    Seq::new(fb.len(), |i: int| seg_num(fb[i]))
}

/// The key of a sword line.
pub open spec fn key_of_line(line: Seq<char>) -> KeyModel {
    (line_quality(line), seg_nums(line_fishbone(line)), (sword_of(line)->0).0)
}

/// Lexicographic comparison of two zipped number sequences, stopping at
/// the shorter one.
pub open spec fn zip_cmp(a: Seq<int>, b: Seq<int>, i: int) -> int
    decreases a.len() - i,
    when 0 <= i
{
    if i >= a.len() || i >= b.len() {
        0
    } else if a[i] < b[i] {
        -1
    } else if a[i] > b[i] {
        1
    } else {
        zip_cmp(a, b, i + 1)
    }
}

/// The sword order: by quality, then zipped segment numbers, then the
/// identifier.
pub open spec fn cmp_keys(x: KeyModel, y: KeyModel) -> int {
    if x.0 < y.0 {
        -1
    } else if x.0 > y.0 {
        1
    } else {
        let z = zip_cmp(x.1, y.1, 0);
        if z != 0 {
            z
        } else if x.2 < y.2 {
            -1
        } else if x.2 > y.2 {
            1
        } else {
            0
        }
    }
}

/// Descending insertion: a new key passes every key it beats strictly
/// and lands after equal ones.
pub open spec fn ins_desc(s: Seq<KeyModel>, x: KeyModel) -> Seq<KeyModel>
    decreases s.len(),
{
    if s.len() == 0 {
        seq![x]
    } else if cmp_keys(x, s[0]) > 0 {
        seq![x] + s
    } else {
        seq![s[0]] + ins_desc(s.drop_first(), x)
    }
}

/// The descending order of the first `k` keys.
pub open spec fn sorted_keys(keys: Seq<KeyModel>, k: int) -> Seq<KeyModel>
    decreases k,
{
    if k <= 0 {
        Seq::empty()
    } else {
        ins_desc(sorted_keys(keys, k - 1), keys[k - 1])
    }
}

/// The weighted sum of identifiers over the first `j` ranks, best rank
/// weighing one.
pub open spec fn weighted_sum(sorted: Seq<KeyModel>, j: int) -> int
    decreases j,
{
    if j <= 0 {
        0
    } else {
        weighted_sum(sorted, j - 1) + sorted[j - 1].2 * j
    }
}

/// Every line is a sword whose quality and segment numbers fit a `u64`.
pub open spec fn wf_keys(s: Seq<char>) -> bool {
    let ls = text::lines_spec(s);
    forall|i: int|
        0 <= i < ls.len() ==> sword_of(#[trigger] ls[i]) is Some && line_quality(ls[i])
            <= u64::MAX && forall|t: int|
            0 <= t < line_fishbone(ls[i]).len() ==> seg_num(#[trigger] line_fishbone(ls[i])[t])
                <= u64::MAX
}

/// The keys of all lines, in order.
pub open spec fn keys_of(s: Seq<char>) -> Seq<KeyModel> {
    Seq::new(text::lines_spec(s).len(), |i: int| key_of_line(text::lines_spec(s)[i]))
}

/// The view of an executable key.
pub open spec fn key_view(k: (u64, Vec<u64>, u64)) -> KeyModel {
    (k.0 as int, Seq::new(k.1@.len(), |i: int| k.1@[i] as int), k.2 as int)
}

pub open spec fn keys_view(ks: Seq<(u64, Vec<u64>, u64)>) -> Seq<KeyModel> {
    Seq::new(ks.len(), |i: int| key_view(ks[i]))
}

/// One segment read as a number; `None` when it leaves a `u64`.
fn seg_value(seg: &Segment) -> (r: Option<u64>)
    ensures
        ({
            let sm = (
                match seg.left {
                    Option::Some(l) => Some(l as int),
                    Option::None => None,
                },
                seg.mid as int,
                match seg.right {
                    Option::Some(r) => Some(r as int),
                    Option::None => None,
                },
            );
            &&& (r is Some <==> seg_num(sm) <= u64::MAX)
            &&& (r is Some ==> r->0 as int == seg_num(sm))
        }),
{
    let v1 = match seg.left {
        Some(l) => {
            match append_exec(l, seg.mid) {
                Some(v) => v,
                None => {
                    proof {
                        lemma_append_grows(
                            append_num(seg.left->0 as int, seg.mid as int),
                            match seg.right {
                                Option::Some(r) => r as int,
                                Option::None => 0,
                            },
                        );
                    }
                    return None;
                },
            }
        },
        None => seg.mid,
    };
    match seg.right {
        Some(rr) => {
            match append_exec(v1, rr) {
                Some(v) => Some(v),
                None => None,
            }
        },
        None => Some(v1),
    }
}

/// A fresh copy of a number vector.
fn copy_u64s(v: &Vec<u64>) -> (r: Vec<u64>)
    ensures
        r@ == v@,
{
    let n = v.len();
    let mut r: Vec<u64> = Vec::new();
    let mut i: usize = 0;
    while i < n
        invariant
            n == v@.len(),
            0 <= i <= n,
            r@ == v@.take(i as int),
        decreases n - i,
    {
        r.push(v[i]);
        proof {
            assert(r@ =~= v@.take(i + 1 as int));
        }
        i += 1;
    }
    proof {
        assert(v@.take(n as int) =~= v@);
    }
    r
}

/// Compares two executable keys by the sword order.
fn cmp_exec(x: &(u64, Vec<u64>, u64), y: &(u64, Vec<u64>, u64)) -> (r: i32)
    ensures
        r as int == cmp_keys(key_view(*x), key_view(*y)),
{
    if x.0 < y.0 {
        return -1;
    }
    if x.0 > y.0 {
        return 1;
    }
    let na = x.1.len();
    let nb = y.1.len();
    let ghost av = Seq::new(x.1@.len(), |i: int| x.1@[i] as int);
    let ghost bv = Seq::new(y.1@.len(), |i: int| y.1@[i] as int);
    let mut i: usize = 0;
    while i < na && i < nb
        invariant
            na == x.1@.len() == av.len(),
            nb == y.1@.len() == bv.len(),
            av == Seq::new(x.1@.len(), |t: int| x.1@[t] as int),
            bv == Seq::new(y.1@.len(), |t: int| y.1@[t] as int),
            x.0 == y.0,
            0 <= i,
            i <= na,
            i <= nb,
            zip_cmp(av, bv, 0) == zip_cmp(av, bv, i as int),
        decreases na - i,
    {
        let a = x.1[i];
        let b = y.1[i];
        proof {
            assert(av[i as int] == a as int);
            assert(bv[i as int] == b as int);
        }
        if a < b {
            return -1;
        }
        if a > b {
            return 1;
        }
        i += 1;
    }
    proof {
        assert(zip_cmp(av, bv, i as int) == 0);
    }
    if x.2 < y.2 {
        -1
    } else if x.2 > y.2 {
        1
    } else {
        0
    }
}

/// Inserting at the first strictly-beaten position realises the
/// descending insertion.
proof fn lemma_ins_at(s: Seq<KeyModel>, x: KeyModel, p: int)
    requires
        0 <= p <= s.len(),
        forall|t: int| 0 <= t < p ==> cmp_keys(x, #[trigger] s[t]) <= 0,
        p < s.len() ==> cmp_keys(x, s[p]) > 0,
    ensures
        ins_desc(s, x) == s.take(p) + seq![x] + s.skip(p),
    decreases s.len(),
{
    if p == 0 {
        if s.len() == 0 {
            assert(ins_desc(s, x) =~= s.take(0) + seq![x] + s.skip(0));
        } else {
            assert(ins_desc(s, x) =~= s.take(0) + seq![x] + s.skip(0));
        }
    } else {
        assert(cmp_keys(x, s[0]) <= 0);
        let rest = s.drop_first();
        assert(forall|t: int| 0 <= t < p - 1 ==> cmp_keys(x, #[trigger] rest[t]) <= 0) by {
            assert(forall|t: int| 0 <= t < p - 1 ==> rest[t] == s[t + 1]);
        }
        assert(p - 1 < rest.len() ==> cmp_keys(x, rest[p - 1]) > 0);
        lemma_ins_at(rest, x, p - 1);
        assert(seq![s[0]] + (rest.take(p - 1) + seq![x] + rest.skip(p - 1)) =~= s.take(p)
            + seq![x] + s.skip(p));
    }
}

/// The ranked identifier total over all swords; `None` when the input is
/// malformed, a quality or segment number leaves a `u64`, or the total
/// does.
pub fn part3(input: &str) -> (r: Option<u64>)
    ensures
        r is Some <==> ({
            let ks = keys_of(input@);
            let sorted = sorted_keys(ks, ks.len() as int);
            wf_keys(input@) && weighted_sum(sorted, sorted.len() as int) <= u64::MAX
        }),
        r is Some ==> ({
            let ks = keys_of(input@);
            let sorted = sorted_keys(ks, ks.len() as int);
            r->0 as int == weighted_sum(sorted, sorted.len() as int)
        }),
{
    let v = text::chars_of(input);
    let lines = text::lines_vecs(&v);
    let ghost ls = text::lines_spec(input@);
    let ghost ks = keys_of(input@);
    let n = lines.len();
    // build the keys
    let mut keys: Vec<(u64, Vec<u64>, u64)> = Vec::new();
    let mut i: usize = 0;
    while i < n
        invariant
            ls == text::lines_spec(input@),
            ks == keys_of(input@),
            lines.deep_view() == ls,
            n == lines@.len() == ls.len() == ks.len(),
            0 <= i <= n,
            keys@.len() == i,
            forall|j: int|
                0 <= j < i ==> sword_of(#[trigger] ls[j]) is Some && line_quality(ls[j])
                    <= u64::MAX && (forall|t: int|
                    0 <= t < line_fishbone(ls[j]).len() ==> seg_num(
                        #[trigger] line_fishbone(ls[j])[t],
                    ) <= u64::MAX),
            forall|j: int| 0 <= j < i ==> key_view(#[trigger] keys@[j]) == ks[j],
        decreases n - i,
    {
        let line = &lines[i];
        proof {
            assert(lines.deep_view()[i as int] == lines@[i as int].deep_view());
            assert(lines@[i as int].deep_view() =~= line@);
        }
        let (id, nums) = match parse_sword(line) {
            Some(t) => t,
            None => {
                return None;
            },
        };
        proof {
            assert(Seq::new(nums@.len(), |t: int| nums@[t] as int) =~= (sword_of(
                ls[i as int],
            )->0).1);
        }
        let fb = fishbone(&nums);
        let ghost fv = segs_view(fb@);
        proof {
            let nums_spec = (sword_of(ls[i as int])->0).1;
            assert(Seq::new(nums@.len(), |t: int| nums@[t] as int) == nums_spec);
            assert(fv == fishbone_of(nums_spec, nums_spec.len() as int));
            assert(fv == line_fishbone(ls[i as int]));
        }
        let q = match quality(&fb) {
            Some(q) => q,
            None => {
                proof {
                    assert(line_quality(ls[i as int]) > u64::MAX);
                }
                return None;
            },
        };
        let m = fb.len();
        let mut segvals: Vec<u64> = Vec::new();
        let mut t: usize = 0;
        while t < m
            invariant
                fv == segs_view(fb@),
                fv == line_fishbone(ls[i as int]),
                0 <= i < n,
                n == ls.len(),
                ls == text::lines_spec(input@),
                m == fb@.len() == fv.len(),
                0 <= t <= m,
                segvals@.len() == t,
                forall|u: int|
                    0 <= u < t ==> seg_num(#[trigger] fv[u]) <= u64::MAX && segvals@[u] as int
                        == seg_num(fv[u]),
            decreases m - t,
        {
            let sv = match seg_value(&fb[t]) {
                Some(x) => x,
                None => {
                    proof {
                        assert(fv[t as int] == (
                            match fb@[t as int].left {
                                Option::Some(l) => Some(l as int),
                                Option::None => None,
                            },
                            fb@[t as int].mid as int,
                            match fb@[t as int].right {
                                Option::Some(r) => Some(r as int),
                                Option::None => None,
                            },
                        ));
                        assert(seg_num(fv[t as int]) > u64::MAX);
                        assert(!wf_keys(input@)) by {
                            assert(seg_num(line_fishbone(ls[i as int])[t as int]) > u64::MAX);
                            if wf_keys(input@) {
                                assert(sword_of(ls[i as int]) is Some && (forall|u: int|
                                    0 <= u < line_fishbone(ls[i as int]).len() ==> seg_num(
                                        #[trigger] line_fishbone(ls[i as int])[u],
                                    ) <= u64::MAX));
                                assert(false);
                            }
                        }
                    }
                    return None;
                },
            };
            proof {
                assert(fv[t as int] == (
                    match fb@[t as int].left {
                        Option::Some(l) => Some(l as int),
                        Option::None => None,
                    },
                    fb@[t as int].mid as int,
                    match fb@[t as int].right {
                        Option::Some(r) => Some(r as int),
                        Option::None => None,
                    },
                ));
            }
            segvals.push(sv);
            t += 1;
        }
        let key = (q, segvals, id);
        proof {
            assert(key_view(key) =~~= ks[i as int]) by {
                assert(Seq::new(key.1@.len(), |u: int| key.1@[u] as int) =~= seg_nums(fv));
            }
        }
        keys.push(key);
        i += 1;
    }
    proof {
        assert(wf_keys(input@));
    }
    // descending insertion sort
    let mut sorted: Vec<(u64, Vec<u64>, u64)> = Vec::new();
    let mut k: usize = 0;
    proof {
        assert(keys_view(sorted@) =~= sorted_keys(ks, 0));
    }
    while k < n
        invariant
            ks == keys_of(input@),
            n == keys@.len() == ks.len(),
            forall|j: int| 0 <= j < n ==> key_view(#[trigger] keys@[j]) == ks[j],
            0 <= k <= n,
            sorted@.len() == k,
            keys_view(sorted@) == sorted_keys(ks, k as int),
        decreases n - k,
    {
        let ghost sv0 = keys_view(sorted@);
        let klen = sorted.len();
        let mut p: usize = 0;
        while p < klen && !(cmp_exec(&keys[k], &sorted[p]) > 0)
            invariant
                n == keys@.len(),
                0 <= k < n,
                klen == sorted@.len(),
                sv0 == keys_view(sorted@),
                0 <= p <= klen,
                forall|t: int| 0 <= t < p ==> cmp_keys(key_view(keys@[k as int]), #[trigger] sv0[t])
                    <= 0,
            decreases klen - p,
        {
            proof {
                assert(sv0[p as int] == key_view(sorted@[p as int]));
            }
            p += 1;
        }
        proof {
            assert(p < klen ==> cmp_keys(key_view(keys@[k as int]), sv0[p as int]) > 0);
            lemma_ins_at(sv0, key_view(keys@[k as int]), p as int);
        }
        let x0 = keys[k].0;
        let x1 = copy_u64s(&keys[k].1);
        let x2 = keys[k].2;
        proof {
            assert(key_view((x0, x1, x2)) =~~= key_view(keys@[k as int])) by {
                assert(x1@ =~= keys@[k as int].1@);
            }
        }
        let ghost svv = sorted@;
        let ghost kv = key_view(keys@[k as int]);
        sorted.insert(p, (x0, x1, x2));
        proof {
            let target = sv0.take(p as int) + seq![kv] + sv0.skip(p as int);
            assert(sorted@ == svv.insert(p as int, (x0, x1, x2)));
            assert forall|t: int| 0 <= t < sorted@.len() implies #[trigger] keys_view(
                sorted@,
            )[t] =~~= target[t] by {
                assert(keys_view(sorted@)[t] == key_view(sorted@[t]));
                if t < p {
                    assert(sorted@[t] == svv[t]);
                    assert(sv0[t] == key_view(svv[t]));
                } else if t == p {
                    assert(sorted@[t] == (x0, x1, x2));
                } else {
                    assert(sorted@[t] == svv[t - 1]);
                    assert(sv0[t - 1] == key_view(svv[t - 1]));
                }
            }
            assert(keys_view(sorted@) =~~= target);
        }
        k += 1;
    }
    // the weighted identifier sum
    let ghost sspec = sorted_keys(ks, ks.len() as int);
    let mut total: u64 = 0;
    let mut j: usize = 0;
    while j < n
        invariant
            wf_keys(input@),
            ks == keys_of(input@),
            sspec == sorted_keys(ks, ks.len() as int),
            n == sorted@.len() == ks.len() == sspec.len(),
            keys_view(sorted@) == sspec,
            0 <= j <= n,
            total as int == weighted_sum(sspec, j as int),
        decreases n - j,
    {
        proof {
            assert(keys_view(sorted@)[j as int] == key_view(sorted@[j as int]));
        }
        let id = sorted[j].2;
        let w = (j + 1) as u64;
        proof {
            assert forall|t: int| 0 <= t < n implies (#[trigger] sspec[t]).2 >= 0 by {
                assert(sspec[t] == key_view(sorted@[t]));
            }
        }
        let term = match id.checked_mul(w) {
            Some(x) => x,
            None => {
                proof {
                    lemma_wsum_mono(sspec, j + 1, n as int);
                    assert(weighted_sum(sspec, j + 1 as int) == total as int + id as int * (
                    j + 1));
                }
                return None;
            },
        };
        match total.checked_add(term) {
            Some(x) => {
                total = x;
            },
            None => {
                proof {
                    lemma_wsum_mono(sspec, j + 1, n as int);
                }
                return None;
            },
        }
        j += 1;
    }
    Some(total)
}

/// Weighted prefixes only grow when the identifiers are non-negative.
proof fn lemma_wsum_mono(sorted: Seq<KeyModel>, i: int, n: int)
    requires
        0 <= i <= n,
        forall|t: int| 0 <= t < n ==> (#[trigger] sorted[t]).2 >= 0,
    ensures
        weighted_sum(sorted, i) <= weighted_sum(sorted, n),
        weighted_sum(sorted, i) >= 0,
    decreases n - i,
{
    if i < n {
        lemma_wsum_mono(sorted, i + 1, n);
        assert(sorted[i].2 * (i + 1) >= 0) by (nonlinear_arith)
            requires
                sorted[i].2 >= 0,
                i >= 0,
        ;
        lemma_wsum_nonneg(sorted, i);
    } else {
        lemma_wsum_nonneg(sorted, i);
    }
}

proof fn lemma_wsum_nonneg(sorted: Seq<KeyModel>, i: int)
    requires
        forall|t: int| 0 <= t < i ==> (#[trigger] sorted[t]).2 >= 0,
    ensures
        weighted_sum(sorted, i) >= 0,
    decreases i,
{
    if i > 0 {
        lemma_wsum_nonneg(sorted, i - 1);
        assert(sorted[i - 1].2 * i >= 0) by (nonlinear_arith)
            requires
                sorted[i - 1].2 >= 0,
                i >= 1,
        ;
    }
}

impl crate::solutions::solution::Solver for Day5Solver {
    fn solve(&self, input: crate::solutions::solution::Input) -> Option<
        crate::solutions::solution::Solution,
    > {
        let p1 = match part1(input.part1.as_str()) {
            Some(n) => crate::text::to_decimal(n),
            None => {
                return None;
            },
        };
        let p2 = match part2(input.part2.as_str()) {
            Some(n) => crate::text::to_decimal(n),
            None => {
                return None;
            },
        };
        let p3 = match part3(input.part3.as_str()) {
            Some(n) => crate::text::to_decimal(n),
            None => {
                return None;
            },
        };
        Some(crate::solutions::solution::Solution { part1: p1, part2: p2, part3: p3 })
    }
}

} // verus!

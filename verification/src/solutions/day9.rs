use vstd::prelude::*;

use crate::text;

verus! {

/// Kinship among DNA strings: match counts, parent pairs, families.
pub struct Day9Solver;

// ===== the grammar =====

/// The DNA of one line: what follows the first colon, up to the second.
pub open spec fn dna_of(line: Seq<char>) -> Option<Seq<char>> {
    let ps = text::split_by(line, seq![':']);
    if ps.len() >= 2 {
        Some(ps[1])
    } else {
        None
    }
}

/// At least one line, each with a colon.
pub open spec fn wf_input(s: Seq<char>) -> bool {
    let ls = text::lines_spec(s);
    ls.len() >= 1 && forall|i: int| 0 <= i < ls.len() ==> dna_of(#[trigger] ls[i]) is Some
}

/// The DNA strings of all lines.
pub open spec fn dnas_of(s: Seq<char>) -> Seq<Seq<char>> {
    Seq::new(text::lines_spec(s).len(), |i: int| dna_of(text::lines_spec(s)[i])->0)
}

// ===== match counts =====

/// Matching positions among the first `n` of both strings.
pub open spec fn match_upto(p: Seq<char>, c: Seq<char>, n: int) -> int
    decreases n,
{
    if n <= 0 {
        0
    } else {
        match_upto(p, c, n - 1) + if p[n - 1] == c[n - 1] {
            1int
        } else {
            0int
        }
    }
}

/// The zip-truncated match count of a parent against a child.
pub open spec fn match_count(p: Seq<char>, c: Seq<char>) -> int {
    if p.len() <= c.len() {
        match_upto(p, c, p.len() as int)
    } else {
        match_upto(p, c, c.len() as int)
    }
}

/// Counts the matching positions, truncating at the shorter string.
fn count_matches(p: &Vec<char>, c: &Vec<char>) -> (r: u64)
    ensures
        r as int == match_count(p@, c@),
        r <= p@.len(),
{
    let n = if p.len() <= c.len() {
        p.len()
    } else {
        c.len()
    };
    let mut count: u64 = 0;
    let mut i: usize = 0;
    while i < n
        invariant
            n <= p@.len(),
            n <= c@.len(),
            0 <= i <= n,
            count <= i,
            count as int == match_upto(p@, c@, i as int),
        decreases n - i,
    {
        if p[i] == c[i] {
            count += 1;
        }
        i += 1;
    }
    count
}

// ===== part one: product of parent match counts =====

/// The left fold of the parents' match counts, from parent `n - 2` down
/// to parent `k`; the child is the last string.
pub open spec fn p1_fold(ds: Seq<Seq<char>>, k: int) -> int
    decreases ds.len() - k,
{
    if k > ds.len() - 2 {
        1
    } else {
        p1_fold(ds, k + 1) * match_count(ds[k], ds[ds.len() - 1])
    }
}

/// No step of the fold overflows a `u64`.
pub open spec fn p1_fold_ok(ds: Seq<Seq<char>>, k: int) -> bool
    decreases ds.len() - k,
{
    if k > ds.len() - 2 {
        true
    } else {
        p1_fold_ok(ds, k + 1) && p1_fold(ds, k + 1) * match_count(ds[k], ds[ds.len() - 1])
            <= u64::MAX
    }
}

/// Parses all DNA strings; `None` when a line lacks its colon.
fn parse_dnas(v: &Vec<char>) -> (r: Option<Vec<Vec<char>>>)
    ensures
        r is Some <==> ({
            let ls = text::lines_spec(v@);
            forall|i: int| 0 <= i < ls.len() ==> dna_of(#[trigger] ls[i]) is Some
        }),
        r is Some ==> (r->0).deep_view() == dnas_of(v@),
{
    let lines = text::lines_vecs(v);
    let ghost ls = text::lines_spec(v@);
    let ghost dspec = dnas_of(v@);
    let n = lines.len();
    let mut colon: Vec<char> = Vec::new();
    colon.push(':');
    proof {
        assert(colon@ =~= seq![':']);
    }
    let mut out: Vec<Vec<char>> = Vec::new();
    let mut i: usize = 0;
    while i < n
        invariant
            lines.deep_view() == ls,
            ls == text::lines_spec(v@),
            dspec == dnas_of(v@),
            colon@ == seq![':'],
            n == lines@.len() == ls.len(),
            0 <= i <= n,
            out@.len() == i,
            forall|j: int| 0 <= j < i ==> dna_of(#[trigger] ls[j]) is Some,
            forall|j: int| 0 <= j < i ==> #[trigger] out@[j]@ == dspec[j],
        decreases n - i,
    {
        let line = &lines[i];
        proof {
            assert(lines.deep_view()[i as int] == lines@[i as int].deep_view());
            assert(lines@[i as int].deep_view() =~= line@);
        }
        let ps = text::split_ranges(line, &colon);
        if ps.len() < 2 {
            proof {
                assert(dna_of(ls[i as int]) is None);
            }
            return None;
        }
        let (a, b) = ps[1];
        proof {
            assert(line@.subrange(a as int, b as int) == text::split_by(ls[i as int], seq![':'])[1]);
        }
        let dna = text::subvec(line, a, b);
        out.push(dna);
        i += 1;
    }
    proof {
        assert forall|k: int| 0 <= k < dspec.len() implies #[trigger] out.deep_view()[k]
            == dspec[k] by {
            assert(out.deep_view()[k] == out@[k].deep_view());
            assert(out@[k].deep_view() =~= out@[k]@);
        }
        assert(out.deep_view() =~~= dspec);
    }
    Some(out)
}

/// The product of every parent's match count against the child (the last
/// line), folded over the parents from last to first.
pub fn part1(input: &str) -> (r: Option<u64>)
    ensures
        r is Some <==> wf_input(input@) && p1_fold_ok(dnas_of(input@), 0),
        r is Some ==> r->0 as int == p1_fold(dnas_of(input@), 0),
{
    let v = text::chars_of(input);
    let ghost ds = dnas_of(input@);
    let dnas = match parse_dnas(&v) {
        Some(x) => x,
        None => {
            return None;
        },
    };
    let n = dnas.len();
    if n == 0 {
        return None;
    }
    let child = &dnas[n - 1];
    proof {
        assert(dnas.deep_view()[n - 1] == dnas@[n - 1].deep_view());
        assert(dnas@[n - 1].deep_view() =~= child@);
    }
    let mut acc: u64 = 1;
    let mut k: usize = n - 1;
    while k > 0
        invariant
            ds == dnas_of(input@),
            dnas.deep_view() == ds,
            n == dnas@.len() == ds.len(),
            n >= 1,
            child@ == ds[n - 1],
            0 <= k <= n - 1,
            p1_fold_ok(ds, k as int),
            acc as int == p1_fold(ds, k as int),
        decreases k,
    {
        k -= 1;
        let p = &dnas[k];
        proof {
            assert(dnas.deep_view()[k as int] == dnas@[k as int].deep_view());
            assert(dnas@[k as int].deep_view() =~= p@);
        }
        let mc = count_matches(p, child);
        match acc.checked_mul(mc) {
            Some(x) => {
                acc = x;
            },
            None => {
                proof {
                    assert(!p1_fold_ok(ds, k as int));
                    lemma_p1_ok_mono(ds, 0, k as int);
                }
                return None;
            },
        }
    }
    Some(acc)
}

/// A failing fold step keeps every longer fold failing.
proof fn lemma_p1_ok_mono(ds: Seq<Seq<char>>, k: int, bad: int)
    requires
        0 <= k <= bad,
        !p1_fold_ok(ds, bad),
    ensures
        !p1_fold_ok(ds, k),
    decreases bad - k,
{
    if k < bad {
        lemma_p1_ok_mono(ds, k + 1, bad);
    }
}

// ===== shared: the exact child test =====

/// Whether every position of the child comes from one of the parents,
/// reading positions left to right and stopping at the first mismatch:
/// `None` marks an out-of-range read into a too-short parent.
pub open spec fn is_child_at(c: Seq<char>, p1: Seq<char>, p2: Seq<char>, idx: int) -> Option<
    bool,
>
    decreases c.len() - idx,
{
    if idx < 0 || idx >= c.len() {
        Some(true)
    } else if idx >= p1.len() {
        None
    } else if c[idx] == p1[idx] {
        is_child_at(c, p1, p2, idx + 1)
    } else if idx >= p2.len() {
        None
    } else if c[idx] == p2[idx] {
        is_child_at(c, p1, p2, idx + 1)
    } else {
        Some(false)
    }
}

pub open spec fn is_child_spec(c: Seq<char>, p1: Seq<char>, p2: Seq<char>) -> Option<bool> {
    is_child_at(c, p1, p2, 0)
}

/// Tests the child against two parents; `None` where the test would
/// read past a parent's end.
fn is_child_checked(c: &Vec<char>, p1: &Vec<char>, p2: &Vec<char>) -> (r: Option<bool>)
    ensures
        r == is_child_spec(c@, p1@, p2@),
{
    let n = c.len();
    let mut idx: usize = 0;
    while idx < n
        invariant
            n == c@.len(),
            0 <= idx <= n,
            is_child_spec(c@, p1@, p2@) == is_child_at(c@, p1@, p2@, idx as int),
        decreases n - idx,
    {
        if idx >= p1.len() {
            return None;
        }
        if c[idx] == p1[idx] {
            idx += 1;
        } else if idx >= p2.len() {
            return None;
        } else if c[idx] == p2[idx] {
            idx += 1;
        } else {
            return Some(false);
        }
    }
    Some(true)
}

/// The similarity of a child with two parents: the product of the two
/// match counts.
pub open spec fn similarity(c: Seq<char>, p1: Seq<char>, p2: Seq<char>) -> int {
    match_count(p1, c) * match_count(p2, c)
}

// ===== part two: sum of similarities over parent pairs =====

/// Is the index triple skipped before any string is read?
pub open spec fn skip_triple(ic: int, ip1: int, ip2: int) -> bool {
    ic == ip1 || ic == ip2 || ip1 <= ip2
}

/// The similarity sum over `ip2 < ip2max` for fixed `ic`, `ip1`;
/// `None` once a child test would have panicked.
pub open spec fn p2_ip2(ds: Seq<Seq<char>>, ic: int, ip1: int, ip2max: int) -> Option<int>
    decreases ip2max,
{
    if ip2max <= 0 {
        Some(0)
    } else {
        match p2_ip2(ds, ic, ip1, ip2max - 1) {
            Option::None => None,
            Option::Some(acc) => {
                let ip2 = ip2max - 1;
                if skip_triple(ic, ip1, ip2) {
                    Some(acc)
                } else {
                    match is_child_spec(ds[ic], ds[ip1], ds[ip2]) {
                        Option::None => None,
                        Option::Some(true) => Some(acc + similarity(ds[ic], ds[ip1], ds[ip2])),
                        Option::Some(false) => Some(acc),
                    }
                }
            },
        }
    }
}

/// The similarity sum over `ip1 < ip1max` for fixed `ic`.
pub open spec fn p2_ip1(ds: Seq<Seq<char>>, ic: int, ip1max: int) -> Option<int>
    decreases ip1max,
{
    if ip1max <= 0 {
        Some(0)
    } else {
        match (p2_ip1(ds, ic, ip1max - 1), p2_ip2(ds, ic, ip1max - 1, ds.len() as int)) {
            (Option::Some(acc), Option::Some(row)) => Some(acc + row),
            _ => None,
        }
    }
}

/// The similarity sum over children `ic < icmax`.
pub open spec fn p2_total(ds: Seq<Seq<char>>, icmax: int) -> Option<int>
    decreases icmax,
{
    if icmax <= 0 {
        Some(0)
    } else {
        match (p2_total(ds, icmax - 1), p2_ip1(ds, icmax - 1, ds.len() as int)) {
            (Option::Some(acc), Option::Some(row)) => Some(acc + row),
            _ => None,
        }
    }
}


// ===== ordering lemmas for the triple fold =====

proof fn lemma_match_nonneg(p: Seq<char>, c: Seq<char>, n: int)
    ensures
        match_upto(p, c, n) >= 0,
    decreases n,
{
    if n > 0 {
        lemma_match_nonneg(p, c, n - 1);
    }
}

proof fn lemma_similarity_nonneg(c: Seq<char>, p1: Seq<char>, p2: Seq<char>)
    ensures
        similarity(c, p1, p2) >= 0,
{
    lemma_match_nonneg(p1, c, if p1.len() <= c.len() { p1.len() as int } else { c.len() as int });
    lemma_match_nonneg(p2, c, if p2.len() <= c.len() { p2.len() as int } else { c.len() as int });
    vstd::arithmetic::mul::lemma_mul_nonnegative(match_count(p1, c), match_count(p2, c));
}

/// Extending the innermost range: `None` stays `None`, values only grow.
proof fn lemma_p2_ip2_mono(ds: Seq<Seq<char>>, ic: int, ip1: int, l1: int, l2: int)
    requires
        0 <= l1 <= l2,
        0 <= ic < ds.len(),
        0 <= ip1 < ds.len(),
    ensures
        p2_ip2(ds, ic, ip1, l1) is None ==> p2_ip2(ds, ic, ip1, l2) is None,
        p2_ip2(ds, ic, ip1, l1) is Some && p2_ip2(ds, ic, ip1, l2) is Some ==> 0 <= p2_ip2(
            ds,
            ic,
            ip1,
            l1,
        )->0 <= p2_ip2(ds, ic, ip1, l2)->0,
        p2_ip2(ds, ic, ip1, l1) is Some ==> p2_ip2(ds, ic, ip1, l1)->0 >= 0,
    decreases l2,
{
    if l2 > l1 {
        lemma_p2_ip2_mono(ds, ic, ip1, l1, l2 - 1);
        if !skip_triple(ic, ip1, l2 - 1) {
            lemma_similarity_nonneg(ds[ic], ds[ip1], ds[l2 - 1]);
        }
    } else if l1 > 0 {
        lemma_p2_ip2_mono(ds, ic, ip1, l1 - 1, l1 - 1);
        if !skip_triple(ic, ip1, l1 - 1) {
            lemma_similarity_nonneg(ds[ic], ds[ip1], ds[l1 - 1]);
        }
    }
}

/// The same for the middle range.
proof fn lemma_p2_ip1_mono(ds: Seq<Seq<char>>, ic: int, l1: int, l2: int)
    requires
        0 <= l1 <= l2 <= ds.len(),
        0 <= ic < ds.len(),
    ensures
        p2_ip1(ds, ic, l1) is None ==> p2_ip1(ds, ic, l2) is None,
        p2_ip1(ds, ic, l1) is Some && p2_ip1(ds, ic, l2) is Some ==> 0 <= p2_ip1(ds, ic, l1)->0
            <= p2_ip1(ds, ic, l2)->0,
        p2_ip1(ds, ic, l1) is Some ==> p2_ip1(ds, ic, l1)->0 >= 0,
    decreases l2,
{
    if l2 > l1 {
        lemma_p2_ip1_mono(ds, ic, l1, l2 - 1);
        lemma_p2_ip2_mono(ds, ic, l2 - 1, 0, ds.len() as int);
    } else if l1 > 0 {
        lemma_p2_ip1_mono(ds, ic, l1 - 1, l1 - 1);
        lemma_p2_ip2_mono(ds, ic, l1 - 1, 0, ds.len() as int);
    }
}

/// The same for the outer range.
proof fn lemma_p2_total_mono(ds: Seq<Seq<char>>, l1: int, l2: int)
    requires
        0 <= l1 <= l2 <= ds.len(),
    ensures
        p2_total(ds, l1) is None ==> p2_total(ds, l2) is None,
        p2_total(ds, l1) is Some && p2_total(ds, l2) is Some ==> 0 <= p2_total(ds, l1)->0
            <= p2_total(ds, l2)->0,
        p2_total(ds, l1) is Some ==> p2_total(ds, l1)->0 >= 0,
    decreases l2,
{
    if l2 > l1 {
        lemma_p2_total_mono(ds, l1, l2 - 1);
        lemma_p2_ip1_mono(ds, l2 - 1, 0, ds.len() as int);
    } else if l1 > 0 {
        lemma_p2_total_mono(ds, l1 - 1, l1 - 1);
        lemma_p2_ip1_mono(ds, l1 - 1, 0, ds.len() as int);
    }
}

/// The similarity sum over all parent pairs for every child, `None` when
/// the input is malformed, a child test would have panicked, or the sum
/// exceeds a `u64`.
pub fn part2(input: &str) -> (r: Option<u64>)
    ensures
        r is Some <==> ({
            let ds = dnas_of(input@);
            &&& wf_input(input@)
            &&& p2_total(ds, ds.len() as int) is Some
            &&& p2_total(ds, ds.len() as int)->0 <= u64::MAX
        }),
        r is Some ==> r->0 as int == p2_total(dnas_of(input@), dnas_of(input@).len() as int)->0,
{
    let v = text::chars_of(input);
    let ghost ds = dnas_of(input@);
    let dnas = match parse_dnas(&v) {
        Some(x) => x,
        None => {
            return None;
        },
    };
    let n = dnas.len();
    if n == 0 {
        return None;
    }
    let mut total: u64 = 0;
    let mut ic: usize = 0;
    while ic < n
        invariant
            wf_input(input@),
            ds == dnas_of(input@),
            dnas.deep_view() == ds,
            n == dnas@.len() == ds.len(),
            n >= 1,
            0 <= ic <= n,
            p2_total(ds, ic as int) == Some(total as int),
        decreases n - ic,
    {
        let child = &dnas[ic];
        proof {
            assert(dnas.deep_view()[ic as int] == dnas@[ic as int].deep_view());
            assert(dnas@[ic as int].deep_view() =~= child@);
        }
        let ghost t0 = total as int;
        let mut ip1: usize = 0;
        let mut row: u64 = 0;
        while ip1 < n
            invariant
                wf_input(input@),
                ds == dnas_of(input@),
                dnas.deep_view() == ds,
                n == dnas@.len() == ds.len(),
                0 <= ic < n,
                child@ == ds[ic as int],
                t0 >= 0,
                t0 + row <= u64::MAX,
                total == t0 + row,
                p2_total(ds, ic as int) == Some(t0),
                0 <= ip1 <= n,
                p2_ip1(ds, ic as int, ip1 as int) == Some(row as int),
            decreases n - ip1,
        {
            let p1 = &dnas[ip1];
            proof {
                assert(dnas.deep_view()[ip1 as int] == dnas@[ip1 as int].deep_view());
                assert(dnas@[ip1 as int].deep_view() =~= p1@);
            }
            let ghost r0 = row as int;
            let mut ip2: usize = 0;
            let mut cell: u64 = 0;
            while ip2 < n
                invariant
                    wf_input(input@),
                    ds == dnas_of(input@),
                    dnas.deep_view() == ds,
                    n == dnas@.len() == ds.len(),
                    0 <= ic < n,
                    0 <= ip1 < n,
                    child@ == ds[ic as int],
                    p1@ == ds[ip1 as int],
                    t0 >= 0,
                    r0 >= 0,
                    t0 + r0 + cell <= u64::MAX,
                    total == t0 + r0 + cell,
                    row == r0 + cell,
                    p2_total(ds, ic as int) == Some(t0),
                    p2_ip1(ds, ic as int, ip1 as int) == Some(r0),
                    0 <= ip2 <= n,
                    p2_ip2(ds, ic as int, ip1 as int, ip2 as int) == Some(cell as int),
                decreases n - ip2,
            {
                if !(ic == ip1 || ic == ip2 || ip1 <= ip2) {
                    let p2v = &dnas[ip2];
                    proof {
                        assert(dnas.deep_view()[ip2 as int] == dnas@[ip2 as int].deep_view());
                        assert(dnas@[ip2 as int].deep_view() =~= p2v@);
                    }
                    match is_child_checked(child, p1, p2v) {
                        Some(true) => {
                            let m1 = count_matches(p1, child);
                            let m2 = count_matches(p2v, child);
                            proof {
                                lemma_similarity_nonneg(child@, p1@, p2v@);
                            }
                            let sim = match m1.checked_mul(m2) {
                                Some(x) => x,
                                None => {
                                    proof {
                                        lemma_overflow_exit(
                                            ds,
                                            ic as int,
                                            ip1 as int,
                                            ip2 as int,
                                            t0,
                                            r0,
                                            cell as int,
                                        );
                                    }
                                    return None;
                                },
                            };
                            match total.checked_add(sim) {
                                Some(x) => {
                                    proof {
                                        assert(r0 + cell + sim <= u64::MAX);
                                    }
                                    total = x;
                                    row = row + sim;
                                    cell = cell + sim;
                                },
                                None => {
                                    proof {
                                        lemma_overflow_exit(
                                            ds,
                                            ic as int,
                                            ip1 as int,
                                            ip2 as int,
                                            t0,
                                            r0,
                                            cell as int,
                                        );
                                    }
                                    return None;
                                },
                            }
                        },
                        Some(false) => {
                        },
                        None => {
                            proof {
                                assert(p2_ip2(ds, ic as int, ip1 as int, ip2 + 1 as int)
                                    is None);
                                lemma_p2_ip2_mono(
                                    ds,
                                    ic as int,
                                    ip1 as int,
                                    ip2 + 1 as int,
                                    n as int,
                                );
                                assert(p2_ip1(ds, ic as int, ip1 + 1 as int) is None);
                                lemma_p2_ip1_mono(ds, ic as int, ip1 + 1 as int, n as int);
                                assert(p2_total(ds, ic + 1 as int) is None);
                                lemma_p2_total_mono(ds, ic + 1 as int, n as int);
                            }
                            return None;
                        },
                    }
                }
                ip2 += 1;
            }
            ip1 += 1;
        }
        ic += 1;
    }
    Some(total)
}

/// When one more similarity no longer fits a `u64`, the whole total
/// cannot fit either (or is itself a failed run).
proof fn lemma_overflow_exit(
    ds: Seq<Seq<char>>,
    ic: int,
    ip1: int,
    ip2: int,
    t0: int,
    r0: int,
    cell: int,
)
    requires
        0 <= ic < ds.len(),
        0 <= ip1 < ds.len(),
        0 <= ip2 < ds.len(),
        !skip_triple(ic, ip1, ip2),
        is_child_spec(ds[ic], ds[ip1], ds[ip2]) == Some(true),
        p2_total(ds, ic) == Some(t0),
        p2_ip1(ds, ic, ip1) == Some(r0),
        p2_ip2(ds, ic, ip1, ip2) == Some(cell),
        t0 >= 0,
        r0 >= 0,
        cell >= 0,
        t0 + r0 + cell + similarity(ds[ic], ds[ip1], ds[ip2]) > u64::MAX,
    ensures
        p2_total(ds, ds.len() as int) is Some ==> p2_total(ds, ds.len() as int)->0 > u64::MAX,
{
    let n = ds.len() as int;
    let sim = similarity(ds[ic], ds[ip1], ds[ip2]);
    assert(p2_ip2(ds, ic, ip1, ip2 + 1) == Some(cell + sim));
    if p2_total(ds, n) is Some {
        lemma_p2_total_mono(ds, ic + 1, n);
        if p2_total(ds, ic + 1) is None {
        } else {
            lemma_p2_ip1_mono(ds, ic, ip1 + 1, n);
            if p2_ip1(ds, ic, ip1 + 1) is None {
                assert(p2_total(ds, ic + 1) is None);
            } else {
                lemma_p2_ip2_mono(ds, ic, ip1, ip2 + 1, n);
                if p2_ip2(ds, ic, ip1, n) is None {
                    assert(p2_ip1(ds, ic, ip1 + 1) is None);
                } else {
                    assert(p2_ip2(ds, ic, ip1, n)->0 >= cell + sim);
                    assert(p2_ip1(ds, ic, ip1 + 1)->0 >= r0 + cell + sim);
                    assert(p2_total(ds, ic + 1)->0 >= t0 + r0 + cell + sim);
                    assert(p2_total(ds, n)->0 >= t0 + r0 + cell + sim);
                }
            }
        }
    }
}


// ===== the outside union-find =====

#[verifier::external_type_specification]
#[verifier::external_body]
pub struct ExDisjointSet(disjoint::DisjointSet);

/// How many elements the structure tracks, `0` to `len - 1`.
pub uninterp spec fn ds_len(d: disjoint::DisjointSet) -> int;

/// The partition a `disjoint::DisjointSet` holds, as the map sending
/// each element to the least element of its subset.
pub uninterp spec fn ds_rep(d: disjoint::DisjointSet) -> Map<int, int>;

/// The least-element map after the subsets of `a` and `b` merge: both
/// subsets now share the smaller of their two least elements.
pub open spec fn ds_merge(m: Map<int, int>, n: int, a: int, b: int) -> Map<int, int> {
    let least = if m[a] <= m[b] {
        m[a]
    } else {
        m[b]
    };
    Map::new(
        |i: int| 0 <= i < n,
        |i: int|
            if m[i] == m[a] || m[i] == m[b] {
                least
            } else {
                m[i]
            },
    )
}

/// The identity map: every element alone in its own subset.
pub open spec fn ds_identity(n: int) -> Map<int, int> {
    Map::new(|i: int| 0 <= i < n, |i: int| i)
}

/// The members of the subset with least element `r`, ascending, among
/// elements `0..n`.
pub open spec fn ds_members(m: Map<int, int>, n: int, r: int) -> Seq<usize>
    decreases n,
{
    if n <= 0 {
        Seq::empty()
    } else {
        let rest = ds_members(m, n - 1, r);
        if m[n - 1] == r {
            rest.push((n - 1) as usize)
        } else {
            rest
        }
    }
}

/// The least elements of the subsets, ascending: the fixpoints of `m`.
pub open spec fn ds_roots(m: Map<int, int>, n: int) -> Seq<int>
    decreases n,
{
    if n <= 0 {
        Seq::empty()
    } else {
        let rest = ds_roots(m, n - 1);
        if m[n - 1] == n - 1 {
            rest.push(n - 1)
        } else {
            rest
        }
    }
}

/// All subsets, ordered by their least element, members ascending:
/// exactly how `disjoint::DisjointSet::sets` lists them.
pub open spec fn ds_classes(m: Map<int, int>, n: int) -> Seq<Seq<usize>> {
    Seq::new(ds_roots(m, n).len(), |k: int| ds_members(m, n, ds_roots(m, n)[k]))
}

/// Relies on `disjoint::DisjointSet::with_len`: `len` elements, each in
/// its own subset.
pub assume_specification[ disjoint::DisjointSet::with_len ](len: usize) -> (r:
    disjoint::DisjointSet)
    ensures
        ds_len(r) == len,
        ds_rep(r) == ds_identity(len as int),
;

/// Relies on `disjoint::DisjointSet::join`: merges the two subsets and
/// reports whether they were distinct.
pub assume_specification[ disjoint::DisjointSet::join ](
    d: &mut disjoint::DisjointSet,
    first_element: usize,
    second_element: usize,
) -> (r: bool)
    requires
        first_element < ds_len(*old(d)),
        second_element < ds_len(*old(d)),
    ensures
        ds_len(*final(d)) == ds_len(*old(d)),
        r == (ds_rep(*old(d))[first_element as int] != ds_rep(*old(d))[second_element as int]),
        ds_rep(*final(d)) == ds_merge(
            ds_rep(*old(d)),
            ds_len(*old(d)),
            first_element as int,
            second_element as int,
        ),
;

/// Relies on `disjoint::DisjointSet::sets`: the subsets, ordered by
/// their smallest element, each listing its members in order.
pub assume_specification[ disjoint::DisjointSet::sets ](d: &disjoint::DisjointSet) -> (r: Vec<
    Vec<usize>,
>)
    ensures
        r.deep_view() == ds_classes(ds_rep(*d), ds_len(*d)),
;

// ===== part three: the heaviest family =====

/// One triple applied to the partition: a confirmed child joins both
/// parents' subsets; `None` once the child test would have panicked.
pub open spec fn p3_step(
    ds: Seq<Seq<char>>,
    m: Map<int, int>,
    ic: int,
    ip1: int,
    ip2: int,
) -> Option<Map<int, int>> {
    if skip_triple(ic, ip1, ip2) {
        Some(m)
    } else {
        match is_child_spec(ds[ic], ds[ip1], ds[ip2]) {
            Option::None => None,
            Option::Some(true) => Some(
                ds_merge(ds_merge(m, ds.len() as int, ic, ip1), ds.len() as int, ic, ip2),
            ),
            Option::Some(false) => Some(m),
        }
    }
}

/// The partition after the triples `(ic, ip1, 0..ip2max)`.
pub open spec fn p3_ip2(
    ds: Seq<Seq<char>>,
    m0: Map<int, int>,
    ic: int,
    ip1: int,
    ip2max: int,
) -> Option<Map<int, int>>
    decreases ip2max,
{
    if ip2max <= 0 {
        Some(m0)
    } else {
        match p3_ip2(ds, m0, ic, ip1, ip2max - 1) {
            Option::None => None,
            Option::Some(m1) => p3_step(ds, m1, ic, ip1, ip2max - 1),
        }
    }
}

/// The partition after the triples `(ic, 0..ip1max, _)`.
pub open spec fn p3_ip1(ds: Seq<Seq<char>>, m0: Map<int, int>, ic: int, ip1max: int) -> Option<
    Map<int, int>,
>
    decreases ip1max,
{
    if ip1max <= 0 {
        Some(m0)
    } else {
        match p3_ip1(ds, m0, ic, ip1max - 1) {
            Option::None => None,
            Option::Some(m1) => p3_ip2(ds, m1, ic, ip1max - 1, ds.len() as int),
        }
    }
}

/// The partition after the triples of the children `0..icmax`.
pub open spec fn p3_all(ds: Seq<Seq<char>>, m0: Map<int, int>, icmax: int) -> Option<
    Map<int, int>,
>
    decreases icmax,
{
    if icmax <= 0 {
        Some(m0)
    } else {
        match p3_all(ds, m0, icmax - 1) {
            Option::None => None,
            Option::Some(m1) => p3_ip1(ds, m1, icmax - 1, ds.len() as int),
        }
    }
}

/// The final partition of the whole run.
pub open spec fn p3_rep(ds: Seq<Seq<char>>) -> Option<Map<int, int>> {
    p3_all(ds, ds_identity(ds.len() as int), ds.len() as int)
}

/// The class that `max_by` on lengths picks: the last of maximal length
/// among the first `k`.
pub open spec fn pick_largest(css: Seq<Seq<usize>>, k: int) -> Seq<usize>
    decreases k,
{
    if k <= 1 {
        css[0]
    } else {
        let prev = pick_largest(css, k - 1);
        if css[k - 1].len() >= prev.len() {
            css[k - 1]
        } else {
            prev
        }
    }
}

/// The score of a class: each member plus one, summed over a prefix.
pub open spec fn score_upto(cls: Seq<usize>, j: int) -> int
    decreases j,
{
    if j <= 0 {
        0
    } else {
        score_upto(cls, j - 1) + cls[j - 1] + 1
    }
}

proof fn lemma_p3_ip2_none(ds: Seq<Seq<char>>, m0: Map<int, int>, ic: int, ip1: int, l1: int, l2: int)
    requires
        0 <= l1 <= l2,
        p3_ip2(ds, m0, ic, ip1, l1) is None,
    ensures
        p3_ip2(ds, m0, ic, ip1, l2) is None,
    decreases l2 - l1,
{
    if l1 < l2 {
        lemma_p3_ip2_none(ds, m0, ic, ip1, l1 + 1, l2);
    }
}

proof fn lemma_p3_ip1_none(ds: Seq<Seq<char>>, m0: Map<int, int>, ic: int, l1: int, l2: int)
    requires
        0 <= l1 <= l2,
        p3_ip1(ds, m0, ic, l1) is None,
    ensures
        p3_ip1(ds, m0, ic, l2) is None,
    decreases l2 - l1,
{
    if l1 < l2 {
        lemma_p3_ip1_none(ds, m0, ic, l1 + 1, l2);
    }
}

proof fn lemma_p3_all_none(ds: Seq<Seq<char>>, m0: Map<int, int>, l1: int, l2: int)
    requires
        0 <= l1 <= l2,
        p3_all(ds, m0, l1) is None,
    ensures
        p3_all(ds, m0, l2) is None,
    decreases l2 - l1,
{
    if l1 < l2 {
        lemma_p3_all_none(ds, m0, l1 + 1, l2);
    }
}

/// The members-plus-one score of the heaviest family: joins every
/// confirmed child to both parents, then scores the largest subset
/// (ties going to the one listed last).  `None` when the input is
/// malformed, a child test would have panicked, there is no subset at
/// all, or the score overflows.
pub fn part3(input: &str) -> (r: Option<u64>)
    ensures
        r is Some <==> ({
            let ds = dnas_of(input@);
            &&& wf_input(input@)
            &&& p3_rep(ds) is Some
            &&& ds_classes(p3_rep(ds)->0, ds.len() as int).len() >= 1
            &&& ({
                let css = ds_classes(p3_rep(ds)->0, ds.len() as int);
                let cls = pick_largest(css, css.len() as int);
                score_upto(cls, cls.len() as int) <= usize::MAX
            })
        }),
        r is Some ==> ({
            let ds = dnas_of(input@);
            let css = ds_classes(p3_rep(ds)->0, ds.len() as int);
            let cls = pick_largest(css, css.len() as int);
            r->0 as int == score_upto(cls, cls.len() as int)
        }),
{
    let v = text::chars_of(input);
    let ghost ds = dnas_of(input@);
    let dnas = match parse_dnas(&v) {
        Some(x) => x,
        None => {
            return None;
        },
    };
    let n = dnas.len();
    if n == 0 {
        return None;
    }
    let mut fam = disjoint::DisjointSet::with_len(n);
    let ghost m0 = ds_identity(n as int);
    let mut ic: usize = 0;
    while ic < n
        invariant
            wf_input(input@),
            ds == dnas_of(input@),
            dnas.deep_view() == ds,
            n == dnas@.len() == ds.len(),
            m0 == ds_identity(n as int),
            0 <= ic <= n,
            ds_len(fam) == n,
            p3_all(ds, m0, ic as int) == Some(ds_rep(fam)),
        decreases n - ic,
    {
        let child = &dnas[ic];
        proof {
            assert(dnas.deep_view()[ic as int] == dnas@[ic as int].deep_view());
            assert(dnas@[ic as int].deep_view() =~= child@);
        }
        let ghost mc0 = ds_rep(fam);
        let mut ip1: usize = 0;
        while ip1 < n
            invariant
                wf_input(input@),
                ds == dnas_of(input@),
                dnas.deep_view() == ds,
                n == dnas@.len() == ds.len(),
                m0 == ds_identity(n as int),
                0 <= ic < n,
                child@ == ds[ic as int],
                p3_all(ds, m0, ic as int) == Some(mc0),
                0 <= ip1 <= n,
                ds_len(fam) == n,
                p3_ip1(ds, mc0, ic as int, ip1 as int) == Some(ds_rep(fam)),
            decreases n - ip1,
        {
            let p1 = &dnas[ip1];
            proof {
                assert(dnas.deep_view()[ip1 as int] == dnas@[ip1 as int].deep_view());
                assert(dnas@[ip1 as int].deep_view() =~= p1@);
            }
            let ghost mr0 = ds_rep(fam);
            let mut ip2: usize = 0;
            while ip2 < n
                invariant
                    wf_input(input@),
                    ds == dnas_of(input@),
                    dnas.deep_view() == ds,
                    n == dnas@.len() == ds.len(),
                    m0 == ds_identity(n as int),
                    0 <= ic < n,
                    0 <= ip1 < n,
                    child@ == ds[ic as int],
                    p1@ == ds[ip1 as int],
                    p3_all(ds, m0, ic as int) == Some(mc0),
                    p3_ip1(ds, mc0, ic as int, ip1 as int) == Some(mr0),
                    0 <= ip2 <= n,
                    ds_len(fam) == n,
                    p3_ip2(ds, mr0, ic as int, ip1 as int, ip2 as int) == Some(ds_rep(fam)),
                decreases n - ip2,
            {
                if !(ic == ip1 || ic == ip2 || ip1 <= ip2) {
                    let p2v = &dnas[ip2];
                    proof {
                        assert(dnas.deep_view()[ip2 as int] == dnas@[ip2 as int].deep_view());
                        assert(dnas@[ip2 as int].deep_view() =~= p2v@);
                    }
                    match is_child_checked(child, p1, p2v) {
                        Some(true) => {
                            fam.join(ic, ip1);
                            fam.join(ic, ip2);
                        },
                        Some(false) => {
                        },
                        None => {
                            proof {
                                assert(p3_ip2(
                                    ds,
                                    mr0,
                                    ic as int,
                                    ip1 as int,
                                    ip2 + 1 as int,
                                ) is None);
                                lemma_p3_ip2_none(
                                    ds,
                                    mr0,
                                    ic as int,
                                    ip1 as int,
                                    ip2 + 1 as int,
                                    n as int,
                                );
                                assert(p3_ip1(ds, mc0, ic as int, ip1 + 1 as int) is None);
                                lemma_p3_ip1_none(
                                    ds,
                                    mc0,
                                    ic as int,
                                    ip1 + 1 as int,
                                    n as int,
                                );
                                assert(p3_all(ds, m0, ic + 1 as int) is None);
                                lemma_p3_all_none(ds, m0, ic + 1 as int, n as int);
                            }
                            return None;
                        },
                    }
                }
                ip2 += 1;
            }
            ip1 += 1;
        }
        ic += 1;
    }
    proof {
        assert(p3_rep(ds) == Some(ds_rep(fam)));
    }
    let ghost css = ds_classes(p3_rep(ds)->0, ds.len() as int);
    let sets = fam.sets();
    let m = sets.len();
    if m == 0 {
        return None;
    }
    // the last class of maximal size, as `max_by` would pick it
    let mut best: usize = 0;
    let mut k: usize = 1;
    proof {
        assert(sets.deep_view()[0] == sets@[0].deep_view());
        assert(sets@[0].deep_view() =~= sets@[0]@);
        assert(pick_largest(css, 1) == css[0]);
    }
    while k < m
        invariant
            css == ds_classes(p3_rep(ds)->0, ds.len() as int),
            sets.deep_view() == css,
            m == sets@.len() == css.len(),
            1 <= k <= m,
            0 <= best < k,
            sets@[best as int]@ == pick_largest(css, k as int),
        decreases m - k,
    {
        proof {
            assert(sets.deep_view()[k as int] == sets@[k as int].deep_view());
            assert(sets@[k as int].deep_view() =~= sets@[k as int]@);
        }
        if sets[k].len() >= sets[best].len() {
            best = k;
        }
        k += 1;
    }
    let cls = &sets[best];
    let ghost cspec = pick_largest(css, css.len() as int);
    proof {
        assert(cls@ == cspec);
    }
    let len = cls.len();
    let mut score: usize = 0;
    let mut j: usize = 0;
    while j < len
        invariant
            css == ds_classes(p3_rep(dnas_of(input@))->0, dnas_of(input@).len() as int),
            css.len() >= 1,
            p3_rep(dnas_of(input@)) is Some,
            cspec == pick_largest(css, css.len() as int),
            cls@ == cspec,
            len == cls@.len(),
            0 <= j <= len,
            score as int == score_upto(cspec, j as int),
        decreases len - j,
    {
        let x = cls[j];
        match score.checked_add(x) {
            Some(s1) => {
                match s1.checked_add(1) {
                    Some(s2) => {
                        score = s2;
                    },
                    None => {
                        proof {
                            assert(score_upto(cspec, j + 1 as int) == score as int + x as int
                                + 1);
                            lemma_score_mono(cspec, j + 1, len as int);
                        }
                        return None;
                    },
                }
            },
            None => {
                proof {
                    assert(score_upto(cspec, j + 1 as int) == score as int + x as int + 1);
                    lemma_score_mono(cspec, j + 1, len as int);
                }
                return None;
            },
        }
        j += 1;
    }
    Some(score as u64)
}

/// Scores only grow along a prefix.
proof fn lemma_score_mono(cls: Seq<usize>, i: int, n: int)
    requires
        0 <= i <= n,
    ensures
        score_upto(cls, i) <= score_upto(cls, n),
    decreases n - i,
{
    if i < n {
        lemma_score_mono(cls, i + 1, n);
    }
}

impl crate::solutions::solution::Solver for Day9Solver {
    fn solve(&self, input: crate::solutions::solution::Input) -> Option<
        crate::solutions::solution::Solution,
    > {
        let p1 = match part1(input.part1.as_str()) {
            Some(x) => crate::text::to_decimal(x),
            None => {
                return None;
            },
        };
        let p2 = match part2(input.part2.as_str()) {
            Some(x) => crate::text::to_decimal(x),
            None => {
                return None;
            },
        };
        let p3 = match part3(input.part3.as_str()) {
            Some(x) => crate::text::to_decimal(x),
            None => {
                return None;
            },
        };
        Some(crate::solutions::solution::Solution { part1: p1, part2: p2, part3: p3 })
    }
}

} // verus!

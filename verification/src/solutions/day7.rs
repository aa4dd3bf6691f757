use vstd::prelude::*;

use crate::text;

verus! {

/// Names filtered and extended under single-letter succession rules.
pub struct Day7Solver;

// ===== character classes =====

/// A word character: ASCII letter, digit, or underscore.
pub open spec fn is_word(c: char) -> bool {
    (48 <= c as u32 <= 57) || (65 <= c as u32 <= 90) || (97 <= c as u32 <= 122) || c as u32 == 95
}

/// An ASCII whitespace character as the rule pattern accepts it.
pub open spec fn is_space(c: char) -> bool {
    c as u32 == 32 || c as u32 == 9 || c as u32 == 10 || c as u32 == 11 || c as u32 == 12
        || c as u32 == 13
}

/// A follower-run character: a word character or a comma.
pub open spec fn is_wc(c: char) -> bool {
    is_word(c) || c as u32 == 44
}

/// The end of the run of follower characters starting at `j`.
pub open spec fn wc_run_end(s: Seq<char>, j: int) -> int
    decreases s.len() - j,
    when 0 <= j <= s.len()
{
    if j < s.len() && is_wc(s[j]) {
        wc_run_end(s, j + 1)
    } else {
        j
    }
}

// ===== the rule grammar =====

/// Does the rule pattern match at position `i`: a word character, one
/// whitespace, `>`, one whitespace, then at least one follower character?
pub open spec fn rule_match_at(s: Seq<char>, i: int) -> bool {
    &&& 0 <= i
    &&& i + 4 < s.len()
    &&& is_word(s[i])
    &&& is_space(s[i + 1])
    &&& s[i + 2] == '>'
    &&& is_space(s[i + 3])
    &&& is_wc(s[i + 4])
}

/// The first position where the rule pattern matches, from `i` on.
pub open spec fn first_rule_from(s: Seq<char>, i: int) -> Option<int>
    decreases s.len() - i,
    when 0 <= i
{
    if i >= s.len() {
        None
    } else if rule_match_at(s, i) {
        Some(i)
    } else {
        first_rule_from(s, i + 1)
    }
}

/// The first characters of the comma-separated follower pieces; `None`
/// when a piece is empty.
pub open spec fn follower_heads(fs: Seq<char>) -> Option<Seq<char>> {
    let ps = text::split_by(fs, seq![',']);
    if forall|k: int| 0 <= k < ps.len() ==> (#[trigger] ps[k]).len() > 0 {
        Some(Seq::new(ps.len(), |k: int| ps[k][0]))
    } else {
        None
    }
}

/// One line read as a rule: the lead letter and its followers.
pub open spec fn rule_of(line: Seq<char>) -> Option<(char, Seq<char>)> {
    match first_rule_from(line, 0) {
        Option::None => None,
        Option::Some(i) => {
            let e = wc_run_end(line, i + 4);
            match follower_heads(line.subrange(i + 4, e)) {
                Option::None => None,
                Option::Some(hs) => Some((line[i], hs)),
            }
        },
    }
}

// ===== the parsed input =====

/// The two sections, cut at the first blank lines.
pub open spec fn sections_of(s: Seq<char>) -> Seq<Seq<char>> {
    text::split_by(s, seq!['\n', '\n'])
}

/// The comma-separated names of the first section.
pub open spec fn names_of(s: Seq<char>) -> Seq<Seq<char>> {
    text::split_by(sections_of(s)[0], seq![','])
}

/// The rule lines of the second section.
pub open spec fn rule_lines(s: Seq<char>) -> Seq<Seq<char>> {
    text::split_by(sections_of(s)[1], seq!['\n'])
}

/// Two sections and a well-formed rule on every line.
pub open spec fn wf_input(s: Seq<char>) -> bool {
    sections_of(s).len() >= 2 && forall|i: int|
        0 <= i < rule_lines(s).len() ==> rule_of(#[trigger] rule_lines(s)[i]) is Some
}

/// The rules, one per line, in order.
pub open spec fn rules_of(s: Seq<char>) -> Seq<(char, Seq<char>)> {
    Seq::new(rule_lines(s).len(), |i: int| rule_of(rule_lines(s)[i])->0)
}

/// The followers of `c`: the last rule line with lead `c` wins, as a
/// collected map would have it.
pub open spec fn lookup(rules: Seq<(char, Seq<char>)>, c: char) -> Option<Seq<char>>
    decreases rules.len(),
{
    if rules.len() == 0 {
        None
    } else if rules.last().0 == c {
        Some(rules.last().1)
    } else {
        lookup(rules.drop_last(), c)
    }
}

// ===== checking a name =====

/// Does every adjacent pair of the name follow the rules?  `None` where
/// a pair's lead has no rule at all, which no answer can absorb.
pub open spec fn matches_at(name: Seq<char>, rules: Seq<(char, Seq<char>)>, i: int) -> Option<
    bool,
>
    decreases name.len() - i,
    when 0 <= i
{
    if i + 1 >= name.len() {
        Some(true)
    } else {
        match lookup(rules, name[i]) {
            Option::None => None,
            Option::Some(fs) => if !fs.contains(name[i + 1]) {
                Some(false)
            } else {
                matches_at(name, rules, i + 1)
            },
        }
    }
}

pub open spec fn matches_spec(name: Seq<char>, rules: Seq<(char, Seq<char>)>) -> Option<bool> {
    matches_at(name, rules, 0)
}

// ===== part one and two results =====

/// The first name that matches, scanning from `i`; `None` when a check
/// panics first or no name matches at all.
pub open spec fn first_match_from(
    names: Seq<Seq<char>>,
    rules: Seq<(char, Seq<char>)>,
    i: int,
) -> Option<Seq<char>>
    decreases names.len() - i,
    when 0 <= i
{
    if i >= names.len() {
        None
    } else {
        match matches_spec(names[i], rules) {
            Option::None => None,
            Option::Some(true) => Some(names[i]),
            Option::Some(false) => first_match_from(names, rules, i + 1),
        }
    }
}

/// The sum of `index + 1` over the matching names among the first `k`;
/// `None` once a check panics.
pub open spec fn index_sum(names: Seq<Seq<char>>, rules: Seq<(char, Seq<char>)>, k: int) -> Option<
    int,
>
    decreases k,
{
    if k <= 0 {
        Some(0)
    } else {
        match (index_sum(names, rules, k - 1), matches_spec(names[k - 1], rules)) {
            (Option::Some(acc), Option::Some(true)) => Some(acc + k),
            (Option::Some(acc), Option::Some(false)) => Some(acc),
            _ => None,
        }
    }
}


// ===== part three: growing kept names =====

/// Is a name kept: no other name is a strict prefix of it?
pub open spec fn keep_name(names: Seq<Seq<char>>, i: int) -> bool {
    !exists|j: int|
        0 <= j < names.len() && (#[trigger] names[j]).is_prefix_of(names[i]) && names[j]
            != names[i]
}

/// The kept names among the first `k`, in order.
pub open spec fn kept_of(names: Seq<Seq<char>>, k: int) -> Seq<Seq<char>>
    decreases k,
{
    if k <= 0 {
        Seq::empty()
    } else {
        let rest = kept_of(names, k - 1);
        if keep_name(names, k - 1) {
            rest.push(names[k - 1])
        } else {
            rest
        }
    }
}

/// How many rule-respecting extensions of `name` reach a full length of
/// eleven, counting `name` itself once while its length is seven to ten.
pub open spec fn comb(name: Seq<char>, rules: Seq<(char, Seq<char>)>) -> int
    decreases 11 - name.len(), 1int, 0int,
    when 1 <= name.len() <= 11
{
    if name.len() == 11 {
        1
    } else {
        let to_add: int = if 7 <= name.len() <= 10 {
            1
        } else {
            0
        };
        let fs = match lookup(rules, name.last()) {
            Option::Some(fs) => fs,
            Option::None => Seq::empty(),
        };
        comb_sum(name, rules, fs, fs.len() as int) + to_add
    }
}

/// The extension counts over the first `k` followers.
pub open spec fn comb_sum(
    name: Seq<char>,
    rules: Seq<(char, Seq<char>)>,
    fs: Seq<char>,
    k: int,
) -> int
    decreases 11 - name.len(), 0int, k,
    when 1 <= name.len() <= 10 && k <= fs.len()
{
    if k <= 0 {
        0
    } else {
        comb_sum(name, rules, fs, k - 1) + comb(name.push(fs[k - 1]), rules)
    }
}

/// The combination total over the first `k` kept names; `None` once a
/// rule check panics or a name cannot be counted.
pub open spec fn p3_sum(
    kept: Seq<Seq<char>>,
    rules: Seq<(char, Seq<char>)>,
    k: int,
) -> Option<int>
    decreases k,
{
    if k <= 0 {
        Some(0)
    } else {
        match (p3_sum(kept, rules, k - 1), matches_spec(kept[k - 1], rules)) {
            (Option::Some(acc), Option::Some(true)) => {
                if 1 <= kept[k - 1].len() <= 11 {
                    Some(acc + comb(kept[k - 1], rules))
                } else {
                    None
                }
            },
            (Option::Some(acc), Option::Some(false)) => Some(acc),
            _ => None,
        }
    }
}

// ===== executable character classes =====

fn is_word_exec(c: char) -> (r: bool)
    ensures
        r == is_word(c),
{
    let u = c as u32;
    (48 <= u && u <= 57) || (65 <= u && u <= 90) || (97 <= u && u <= 122) || u == 95
}

fn is_space_exec(c: char) -> (r: bool)
    ensures
        r == is_space(c),
{
    let u = c as u32;
    u == 32 || u == 9 || u == 10 || u == 11 || u == 12 || u == 13
}

fn is_wc_exec(c: char) -> (r: bool)
    ensures
        r == is_wc(c),
{
    is_word_exec(c) || (c as u32) == 44
}

/// The view of executable rules.
pub open spec fn rules_view(rv: Seq<(char, Vec<char>)>) -> Seq<(char, Seq<char>)> {
    Seq::new(rv.len(), |i: int| (rv[i].0, rv[i].1@))
}

/// Reads one rule line.
fn scan_rule(line: &Vec<char>) -> (r: Option<(char, Vec<char>)>)
    ensures
        r is Some <==> rule_of(line@) is Some,
        r is Some ==> (r->0).0 == (rule_of(line@)->0).0 && (r->0).1@ == (rule_of(line@)->0).1,
{
    let n = line.len();
    let mut i: usize = 0;
    while i < n
        invariant
            n == line@.len(),
            0 <= i <= n,
            first_rule_from(line@, 0) == first_rule_from(line@, i as int),
        decreases n - i,
    {
        if n > 4 && i < n - 4 && is_word_exec(line[i]) && is_space_exec(line[i + 1]) && line[i
            + 2] == '>' && is_space_exec(line[i + 3]) && is_wc_exec(line[i + 4]) {
            proof {
                assert(rule_match_at(line@, i as int));
                assert(first_rule_from(line@, i as int) == Some(i as int));
                assert(first_rule_from(line@, 0) == Some(i as int));
            }
            // the follower run
            let mut e = i + 4;
            while e < n && is_wc_exec(line[e])
                invariant
                    i + 4 <= e <= n == line@.len(),
                    wc_run_end(line@, i + 4) == wc_run_end(line@, e as int),
                decreases n - e,
            {
                e += 1;
            }
            proof {
                assert(wc_run_end(line@, e as int) == e);
                assert(wc_run_end(line@, i + 4) == e);
            }
            let fsv = text::subvec(line, i + 4, e);
            let mut comma: Vec<char> = Vec::new();
            comma.push(',');
            proof {
                assert(comma@ =~= seq![',']);
            }
            let rs = text::split_ranges(&fsv, &comma);
            let ghost ps = text::split_by(fsv@, seq![',']);
            let m = rs.len();
            let mut heads: Vec<char> = Vec::new();
            let mut k: usize = 0;
            while k < m
                invariant
                    ps == text::split_by(fsv@, seq![',']),
                    first_rule_from(line@, 0) == Some(i as int),
                    i + 4 <= e <= line@.len(),
                    wc_run_end(line@, i + 4) == e,
                    fsv@ == line@.subrange(i + 4, e as int),
                    text::ranges_pieces(fsv@, rs@) == ps,
                    text::ranges_wf(fsv@, rs@),
                    m == rs@.len() == ps.len(),
                    0 <= k <= m,
                    heads@.len() == k,
                    forall|t: int| 0 <= t < k ==> (#[trigger] ps[t]).len() > 0 && heads@[t]
                        == ps[t][0],
                decreases m - k,
            {
                let (a, b) = rs[k];
                proof {
                    assert(fsv@.subrange(a as int, b as int) == ps[k as int]);
                }
                if b == a {
                    proof {
                        assert(ps[k as int].len() == 0);
                        assert(!(forall|t: int|
                            0 <= t < ps.len() ==> (#[trigger] ps[t]).len() > 0)) by {
                            assert(ps[k as int].len() == 0);
                        }
                        assert(follower_heads(fsv@) is None);
                        assert(rule_of(line@) is None);
                    }
                    return None;
                }
                heads.push(fsv[a]);
                k += 1;
            }
            proof {
                assert(follower_heads(fsv@) is Some) by {
                    assert(forall|t: int| 0 <= t < ps.len() ==> (#[trigger] ps[t]).len() > 0);
                }
                assert(heads@ =~= follower_heads(fsv@)->0);
                assert(fsv@ == line@.subrange(i + 4, wc_run_end(line@, i + 4)));
            }
            return Some((line[i], heads));
        }
        proof {
            assert(!rule_match_at(line@, i as int));
        }
        i += 1;
    }
    None
}

/// Finds the followers of `c`: the last rule wins.
fn lookup_exec<'a>(rules: &'a Vec<(char, Vec<char>)>, c: char) -> (r: Option<&'a Vec<char>>)
    ensures
        match lookup(rules_view(rules@), c) {
            Option::Some(fs) => r is Some && (r->0)@ == fs,
            Option::None => r is None,
        },
{
    let ghost rv = rules_view(rules@);
    let mut k = rules.len();
    proof {
        assert(rv.take(rules@.len() as int) =~= rv);
    }
    while k > 0
        invariant
            rv == rules_view(rules@),
            k <= rules@.len() == rv.len(),
            lookup(rv, c) == lookup(rv.take(k as int), c),
        decreases k,
    {
        k -= 1;
        proof {
            assert(rv.take(k + 1 as int).last() == rv[k as int]);
            assert(rv.take(k + 1 as int).drop_last() =~= rv.take(k as int));
        }
        if rules[k].0 == c {
            return Some(&rules[k].1);
        }
    }
    None
}

/// Does the vector hold this character?
fn contains_char(v: &Vec<char>, c: char) -> (r: bool)
    ensures
        r == v@.contains(c),
{
    let n = v.len();
    let mut i: usize = 0;
    while i < n
        invariant
            n == v@.len(),
            0 <= i <= n,
            forall|k: int| 0 <= k < i ==> v@[k] != c,
        decreases n - i,
    {
        if v[i] == c {
            return true;
        }
        i += 1;
    }
    proof {
        if v@.contains(c) {
            let k = choose|k: int| 0 <= k < v@.len() && v@[k] == c;
            assert(false);
        }
    }
    false
}

/// Checks a name against the rules; `None` where a pair's lead has no
/// rule.
fn matches_rules(name: &Vec<char>, rules: &Vec<(char, Vec<char>)>) -> (r: Option<bool>)
    ensures
        r == matches_spec(name@, rules_view(rules@)),
{
    let n = name.len();
    if n == 0 {
        return Some(true);
    }
    let mut i: usize = 0;
    while i < n - 1
        invariant
            n == name@.len(),
            n >= 1,
            0 <= i <= n,
            matches_spec(name@, rules_view(rules@)) == matches_at(
                name@,
                rules_view(rules@),
                i as int,
            ),
        decreases n - i,
    {
        match lookup_exec(rules, name[i]) {
            Some(fs) => {
                if !contains_char(fs, name[i + 1]) {
                    return Some(false);
                }
            },
            None => {
                return None;
            },
        }
        i += 1;
    }
    Some(true)
}

// ===== shared parsing =====

/// Splits the input and reads every rule line; `None` when a section is
/// missing or a rule line is malformed.
fn parse_input(v: &Vec<char>) -> (r: Option<
    (Vec<char>, usize, Vec<(usize, usize)>, Vec<(char, Vec<char>)>)
>)
    ensures
        r is Some <==> wf_input(v@),
        r is Some ==> ({
            let (s0, b0, nrs, rules) = r->0;
            &&& s0@ == sections_of(v@)[0]
            &&& b0 + s0@.len() <= v@.len()
            &&& v@.subrange(b0 as int, b0 + s0@.len()) == s0@
            &&& text::ranges_pieces(s0@, nrs@) == names_of(v@)
            &&& text::ranges_wf(s0@, nrs@)
            &&& nrs@.len() == names_of(v@).len()
            &&& rules_view(rules@) == rules_of(v@)
        }),
{
    let mut sep: Vec<char> = Vec::new();
    sep.push('\n');
    sep.push('\n');
    proof {
        assert(sep@ =~= seq!['\n', '\n']);
    }
    let secs = text::split_ranges(v, &sep);
    proof {
        assert(secs@.len() == sections_of(v@).len());
    }
    if secs.len() < 2 {
        return None;
    }
    let (a0, b0) = secs[0];
    let (a1, b1) = secs[1];
    let s0 = text::subvec(v, a0, b0);
    let s1 = text::subvec(v, a1, b1);
    proof {
        assert(s0@ == sections_of(v@)[0]);
        assert(s1@ == sections_of(v@)[1]);
    }
    let mut comma: Vec<char> = Vec::new();
    comma.push(',');
    proof {
        assert(comma@ =~= seq![',']);
    }
    let nrs = text::split_ranges(&s0, &comma);
    let mut nl: Vec<char> = Vec::new();
    nl.push('\n');
    proof {
        assert(nl@ =~= seq!['\n']);
    }
    let lrs = text::split_ranges(&s1, &nl);
    let ghost ls = rule_lines(v@);
    proof {
        assert(text::ranges_pieces(s1@, lrs@) == ls);
    }
    let m = lrs.len();
    let mut rules: Vec<(char, Vec<char>)> = Vec::new();
    let mut i: usize = 0;
    while i < m
        invariant
            s1@ == sections_of(v@)[1],
            ls == rule_lines(v@),
            text::ranges_pieces(s1@, lrs@) == ls,
            text::ranges_wf(s1@, lrs@),
            m == lrs@.len() == ls.len(),
            0 <= i <= m,
            rules@.len() == i,
            forall|j: int| 0 <= j < i ==> rule_of(#[trigger] ls[j]) is Some,
            forall|j: int|
                0 <= j < i ==> (#[trigger] rules@[j]).0 == (rule_of(ls[j])->0).0 && rules@[j].1@
                    == (rule_of(ls[j])->0).1,
        decreases m - i,
    {
        let (a, b) = lrs[i];
        proof {
            assert(s1@.subrange(a as int, b as int) == ls[i as int]);
        }
        let line = text::subvec(&s1, a, b);
        match scan_rule(&line) {
            Some(rule) => {
                rules.push(rule);
            },
            None => {
                return None;
            },
        }
        i += 1;
    }
    proof {
        assert(rules_view(rules@) =~~= rules_of(v@));
        assert(b0 - a0 == s0@.len());
        assert(v@.subrange(a0 as int, a0 + s0@.len()) == s0@);
    }
    Some((s0, a0, nrs, rules))
}


// ===== the three parts =====

/// The first name that respects the rules; `None` when the input is
/// malformed, a check reads a missing rule, or no name matches.
pub fn part1(input: &str) -> (r: Option<String>)
    ensures
        r is Some <==> wf_input(input@) && first_match_from(
            names_of(input@),
            rules_of(input@),
            0,
        ) is Some,
        r is Some ==> r->0@ == first_match_from(names_of(input@), rules_of(input@), 0)->0,
{
    let v = text::chars_of(input);
    let total = v.len();
    let ghost names = names_of(input@);
    let ghost rl = rules_of(input@);
    let (s0, b0, nrs, rules) = match parse_input(&v) {
        Some(t) => t,
        None => {
            return None;
        },
    };
    proof {
        assert(v@ == input@);
        assert(b0 + s0@.len() <= total);
    }
    let n = nrs.len();
    let mut i: usize = 0;
    while i < n
        invariant
            wf_input(input@),
            names == names_of(input@),
            rl == rules_of(input@),
            s0@ == sections_of(input@)[0],
            text::ranges_pieces(s0@, nrs@) == names,
            text::ranges_wf(s0@, nrs@),
            rules_view(rules@) == rl,
            n == nrs@.len() == names.len(),
            0 <= i <= n,
            first_match_from(names, rl, 0) == first_match_from(names, rl, i as int),
            b0 + s0@.len() <= total,
            total == v@.len(),
            v@ == input@,
            v@.subrange(b0 as int, b0 + s0@.len()) == s0@,
        decreases n - i,
    {
        let (a, b) = nrs[i];
        proof {
            assert(s0@.subrange(a as int, b as int) == names[i as int]);
        }
        let name = text::subvec(&s0, a, b);
        match matches_rules(&name, &rules) {
            Some(true) => {
                proof {
                    assert(first_match_from(names, rl, i as int) == Some(names[i as int]));
                    assert(input@.subrange(b0 + a as int, b0 + b as int) =~= s0@.subrange(
                        a as int,
                        b as int,
                    ));
                }
                let found = input.substring_char(b0 + a, b0 + b);
                return Some(found.to_owned());
            },
            Some(false) => {
            },
            None => {
                return None;
            },
        }
        i += 1;
    }
    None
}

proof fn lemma_index_sum_mono(names: Seq<Seq<char>>, rules: Seq<(char, Seq<char>)>, l1: int, l2: int)
    requires
        0 <= l1 <= l2,
    ensures
        index_sum(names, rules, l1) is None ==> index_sum(names, rules, l2) is None,
        index_sum(names, rules, l1) is Some && index_sum(names, rules, l2) is Some ==> 0
            <= index_sum(names, rules, l1)->0 <= index_sum(names, rules, l2)->0,
        index_sum(names, rules, l1) is Some ==> index_sum(names, rules, l1)->0 >= 0,
    decreases l2,
{
    if l2 > l1 {
        lemma_index_sum_mono(names, rules, l1, l2 - 1);
    } else if l1 > 0 {
        lemma_index_sum_mono(names, rules, l1 - 1, l1 - 1);
    }
}

/// The sum of one-based indices of the names that respect the rules;
/// `None` when the input is malformed, a check reads a missing rule, or
/// the sum exceeds a `u64`.
pub fn part2(input: &str) -> (r: Option<u64>)
    ensures
        r is Some <==> ({
            let total = index_sum(names_of(input@), rules_of(input@), names_of(input@).len() as int);
            wf_input(input@) && total is Some && total->0 <= u64::MAX
        }),
        r is Some ==> r->0 as int == index_sum(
            names_of(input@),
            rules_of(input@),
            names_of(input@).len() as int,
        )->0,
{
    let v = text::chars_of(input);
    let ghost names = names_of(input@);
    let ghost rl = rules_of(input@);
    let (s0, b0, nrs, rules) = match parse_input(&v) {
        Some(t) => t,
        None => {
            return None;
        },
    };
    proof {
        assert(v@ == input@);
    }
    let n = nrs.len();
    let mut sum: u64 = 0;
    let mut i: usize = 0;
    while i < n
        invariant
            wf_input(input@),
            names == names_of(input@),
            rl == rules_of(input@),
            s0@ == sections_of(input@)[0],
            text::ranges_pieces(s0@, nrs@) == names,
            text::ranges_wf(s0@, nrs@),
            rules_view(rules@) == rl,
            n == nrs@.len() == names.len(),
            0 <= i <= n,
            index_sum(names, rl, i as int) == Some(sum as int),
        decreases n - i,
    {
        let (a, b) = nrs[i];
        proof {
            assert(s0@.subrange(a as int, b as int) == names[i as int]);
        }
        let name = text::subvec(&s0, a, b);
        match matches_rules(&name, &rules) {
            Some(true) => {
                if i == usize::MAX || sum.checked_add((i + 1) as u64).is_none() {
                    proof {
                        lemma_index_sum_mono(names, rl, i + 1, n as int);
                    }
                    return None;
                }
                sum = sum + (i + 1) as u64;
            },
            Some(false) => {
            },
            None => {
                proof {
                    assert(index_sum(names, rl, i + 1 as int) is None);
                    lemma_index_sum_mono(names, rl, i + 1, n as int);
                }
                return None;
            },
        }
        i += 1;
    }
    Some(sum)
}

// ===== counting combinations =====

proof fn lemma_comb_nonneg(name: Seq<char>, rules: Seq<(char, Seq<char>)>)
    requires
        1 <= name.len() <= 11,
    ensures
        comb(name, rules) >= 0,
    decreases 11 - name.len(), 1int, 0int,
{
    if name.len() < 11 {
        let fs = match lookup(rules, name.last()) {
            Option::Some(fs) => fs,
            Option::None => Seq::<char>::empty(),
        };
        lemma_comb_sum_nonneg(name, rules, fs, fs.len() as int);
    }
}

proof fn lemma_comb_sum_nonneg(
    name: Seq<char>,
    rules: Seq<(char, Seq<char>)>,
    fs: Seq<char>,
    k: int,
)
    requires
        1 <= name.len() <= 10,
        k <= fs.len(),
    ensures
        comb_sum(name, rules, fs, k) >= 0,
        forall|j: int| 0 <= j <= k ==> #[trigger] comb_sum(name, rules, fs, j) <= comb_sum(
            name,
            rules,
            fs,
            k,
        ),
    decreases 11 - name.len(), 0int, k,
{
    if k > 0 {
        lemma_comb_sum_nonneg(name, rules, fs, k - 1);
        lemma_comb_nonneg(name.push(fs[k - 1]), rules);
    }
}

/// Counts the extensions of `name`; `None` when the count exceeds a
/// `u64`.
fn combinations(name: &Vec<char>, rules: &Vec<(char, Vec<char>)>) -> (r: Option<u64>)
    requires
        1 <= name@.len() <= 11,
    ensures
        r is Some <==> comb(name@, rules_view(rules@)) <= u64::MAX,
        r is Some ==> r->0 as int == comb(name@, rules_view(rules@)),
    decreases 11 - name@.len(),
{
    let ghost rl = rules_view(rules@);
    let n = name.len();
    proof {
        lemma_comb_nonneg(name@, rl);
    }
    if n == 11 {
        return Some(1);
    }
    let to_add: u64 = if 7 <= n && n <= 10 {
        1
    } else {
        0
    };
    let empty_fs: Vec<char> = Vec::new();
    let fs = match lookup_exec(rules, name[n - 1]) {
        Some(fs) => fs,
        None => &empty_fs,
    };
    let ghost fspec = match lookup(rl, name@.last()) {
        Option::Some(f) => f,
        Option::None => Seq::<char>::empty(),
    };
    proof {
        assert(fs@ =~= fspec);
    }
    let m = fs.len();
    let mut sum: u64 = 0;
    let mut k: usize = 0;
    while k < m
        invariant
            1 <= name@.len() <= 10,
            rl == rules_view(rules@),
            fspec == (match lookup(rl, name@.last()) {
                Option::Some(f) => f,
                Option::None => Seq::<char>::empty(),
            }),
            fs@ == fspec,
            m == fs@.len(),
            0 <= k <= m,
            comb_sum(name@, rl, fspec, k as int) == sum as int,
        decreases m - k,
    {
        let mut ext = text::subvec(name, 0, name.len());
        proof {
            assert(ext@ =~= name@);
        }
        ext.push(fs[k]);
        proof {
            assert(ext@ == name@.push(fspec[k as int]));
        }
        let sub = match combinations(&ext, rules) {
            Some(c) => c,
            None => {
                proof {
                    lemma_comb_sum_nonneg(name@, rl, fspec, m as int);
                    assert(comb_sum(name@, rl, fspec, k + 1 as int) > u64::MAX);
                    assert(comb(name@, rl) >= comb_sum(name@, rl, fspec, m as int));
                }
                return None;
            },
        };
        match sum.checked_add(sub) {
            Some(s) => {
                sum = s;
            },
            None => {
                proof {
                    lemma_comb_sum_nonneg(name@, rl, fspec, m as int);
                    assert(comb_sum(name@, rl, fspec, k + 1 as int) > u64::MAX);
                    assert(comb(name@, rl) >= comb_sum(name@, rl, fspec, m as int));
                }
                return None;
            },
        }
        k += 1;
    }
    proof {
        lemma_comb_sum_nonneg(name@, rl, fspec, m as int);
    }
    match sum.checked_add(to_add) {
        Some(s) => Some(s),
        None => None,
    }
}

proof fn lemma_p3_sum_mono(kept: Seq<Seq<char>>, rules: Seq<(char, Seq<char>)>, l1: int, l2: int)
    requires
        0 <= l1 <= l2 <= kept.len(),
    ensures
        p3_sum(kept, rules, l1) is None ==> p3_sum(kept, rules, l2) is None,
        p3_sum(kept, rules, l1) is Some && p3_sum(kept, rules, l2) is Some ==> 0 <= p3_sum(
            kept,
            rules,
            l1,
        )->0 <= p3_sum(kept, rules, l2)->0,
        p3_sum(kept, rules, l1) is Some ==> p3_sum(kept, rules, l1)->0 >= 0,
    decreases l2,
{
    if l2 > l1 {
        lemma_p3_sum_mono(kept, rules, l1, l2 - 1);
        if 0 <= l2 - 1 < kept.len() && matches_spec(kept[l2 - 1], rules) == Some(true) && 1
            <= kept[l2 - 1].len() <= 11 {
            lemma_comb_nonneg(kept[l2 - 1], rules);
        }
    } else if l1 > 0 {
        lemma_p3_sum_mono(kept, rules, l1 - 1, l1 - 1);
        if 0 <= l1 - 1 < kept.len() && matches_spec(kept[l1 - 1], rules) == Some(true) && 1
            <= kept[l1 - 1].len() <= 11 {
            lemma_comb_nonneg(kept[l1 - 1], rules);
        }
    }
}

/// Tests whether `p` is a prefix of `q`.
fn is_prefix(p: &Vec<char>, q: &Vec<char>) -> (r: bool)
    ensures
        r == p@.is_prefix_of(q@),
{
    let np = p.len();
    let nq = q.len();
    if np > nq {
        return false;
    }
    let mut i: usize = 0;
    while i < np
        invariant
            np == p@.len() <= q@.len() == nq,
            0 <= i <= np,
            forall|k: int| 0 <= k < i ==> p@[k] == q@[k],
        decreases np - i,
    {
        if p[i] != q[i] {
            proof {
                assert(p@[i as int] != q@.subrange(0, np as int)[i as int]);
            }
            return false;
        }
        i += 1;
    }
    proof {
        assert(p@ =~= q@.subrange(0, np as int));
    }
    true
}

/// Are the two character vectors equal?
fn eq_chars(p: &Vec<char>, q: &Vec<char>) -> (r: bool)
    ensures
        r == (p@ == q@),
{
    if p.len() != q.len() {
        return false;
    }
    let r = is_prefix(p, q);
    proof {
        if p@.is_prefix_of(q@) {
            assert(p@ =~= q@);
        }
    }
    r
}

/// The combination total over the kept names that respect the rules;
/// `None` when the input is malformed, a check reads a missing rule, a
/// counted name is empty or longer than eleven, or the sum overflows.
pub fn part3(input: &str) -> (r: Option<u64>)
    ensures
        r is Some <==> ({
            let kept = kept_of(names_of(input@), names_of(input@).len() as int);
            let total = p3_sum(kept, rules_of(input@), kept.len() as int);
            wf_input(input@) && total is Some && total->0 <= u64::MAX
        }),
        r is Some ==> ({
            let kept = kept_of(names_of(input@), names_of(input@).len() as int);
            r->0 as int == p3_sum(kept, rules_of(input@), kept.len() as int)->0
        }),
{
    let v = text::chars_of(input);
    let ghost names = names_of(input@);
    let ghost rl = rules_of(input@);
    let (s0, b0, nrs, rules) = match parse_input(&v) {
        Some(t) => t,
        None => {
            return None;
        },
    };
    proof {
        assert(v@ == input@);
    }
    let n = nrs.len();
    // materialise the names
    let mut nvs: Vec<Vec<char>> = Vec::new();
    let mut i: usize = 0;
    while i < n
        invariant
            names == names_of(input@),
            s0@ == sections_of(input@)[0],
            text::ranges_pieces(s0@, nrs@) == names,
            text::ranges_wf(s0@, nrs@),
            n == nrs@.len() == names.len(),
            0 <= i <= n,
            nvs@.len() == i,
            forall|j: int| 0 <= j < i ==> (#[trigger] nvs@[j])@ == names[j],
        decreases n - i,
    {
        let (a, b) = nrs[i];
        proof {
            assert(s0@.subrange(a as int, b as int) == names[i as int]);
        }
        nvs.push(text::subvec(&s0, a, b));
        i += 1;
    }
    // filter out names with a strict prefix among the names
    let ghost keptspec = kept_of(names, n as int);
    let mut kept: Vec<Vec<char>> = Vec::new();
    let mut i2: usize = 0;
    while i2 < n
        invariant
            names == names_of(input@),
            n == nvs@.len() == names.len(),
            forall|j: int| 0 <= j < n ==> (#[trigger] nvs@[j])@ == names[j],
            keptspec == kept_of(names, n as int),
            0 <= i2 <= n,
            kept.deep_view() == kept_of(names, i2 as int),
        decreases n - i2,
    {
        let cand = &nvs[i2];
        let mut removed = false;
        let mut j: usize = 0;
        while j < n
            invariant
                names == names_of(input@),
                n == nvs@.len() == names.len(),
                forall|t: int| 0 <= t < n ==> (#[trigger] nvs@[t])@ == names[t],
                0 <= i2 < n,
                cand@ == names[i2 as int],
                0 <= j <= n,
                removed == exists|t: int|
                    0 <= t < j && (#[trigger] names[t]).is_prefix_of(names[i2 as int])
                        && names[t] != names[i2 as int],
            decreases n - j,
        {
            let other = &nvs[j];
            if is_prefix(other, cand) && !eq_chars(cand, other) {
                proof {
                    assert(names[j as int].is_prefix_of(names[i2 as int]) && names[j as int]
                        != names[i2 as int]);
                }
                removed = true;
            }
            j += 1;
        }
        if !removed {
            proof {
                assert(keep_name(names, i2 as int));
            }
            let copy = text::subvec(cand, 0, cand.len());
            proof {
                assert(copy@ =~= names[i2 as int]);
            }
            kept.push(copy);
            proof {
                assert forall|t: int| 0 <= t < kept@.len() implies #[trigger] kept.deep_view()[t]
                    == kept_of(names, i2 + 1 as int)[t] by {
                    assert(kept.deep_view()[t] == kept@[t].deep_view());
                    assert(kept@[t].deep_view() =~= kept@[t]@);
                }
                assert(kept.deep_view() =~~= kept_of(names, i2 + 1 as int));
            }
        } else {
            proof {
                assert(!keep_name(names, i2 as int));
                assert(kept.deep_view() =~~= kept_of(names, i2 + 1 as int));
            }
        }
        i2 += 1;
    }
    // count the kept names that match
    let m = kept.len();
    let mut total: u64 = 0;
    let mut k: usize = 0;
    while k < m
        invariant
            wf_input(input@),
            names == names_of(input@),
            rl == rules_of(input@),
            rules_view(rules@) == rl,
            keptspec == kept_of(names, names.len() as int),
            kept.deep_view() == keptspec,
            m == kept@.len() == keptspec.len(),
            0 <= k <= m,
            p3_sum(keptspec, rl, k as int) == Some(total as int),
        decreases m - k,
    {
        let name = &kept[k];
        proof {
            assert(kept.deep_view()[k as int] == kept@[k as int].deep_view());
            assert(kept@[k as int].deep_view() =~= name@);
        }
        match matches_rules(name, &rules) {
            Some(true) => {
                let ln = name.len();
                if ln == 0 || ln > 11 {
                    proof {
                        assert(p3_sum(keptspec, rl, k + 1 as int) is None);
                        lemma_p3_sum_mono(keptspec, rl, k + 1, m as int);
                    }
                    return None;
                }
                let c = match combinations(name, &rules) {
                    Some(c) => c,
                    None => {
                        proof {
                            lemma_comb_nonneg(name@, rl);
                            lemma_p3_sum_mono(keptspec, rl, k + 1, m as int);
                        }
                        return None;
                    },
                };
                match total.checked_add(c) {
                    Some(s) => {
                        total = s;
                    },
                    None => {
                        proof {
                            assert(p3_sum(keptspec, rl, k + 1 as int) == Some(
                                total as int + c as int,
                            ));
                            lemma_p3_sum_mono(keptspec, rl, k + 1, m as int);
                        }
                        return None;
                    },
                }
            },
            Some(false) => {
            },
            None => {
                proof {
                    assert(p3_sum(keptspec, rl, k + 1 as int) is None);
                    lemma_p3_sum_mono(keptspec, rl, k + 1, m as int);
                }
                return None;
            },
        }
        k += 1;
    }
    Some(total)
}

impl crate::solutions::solution::Solver for Day7Solver {
    fn solve(&self, input: crate::solutions::solution::Input) -> Option<
        crate::solutions::solution::Solution,
    > {
        let p1 = match part1(input.part1.as_str()) {
            Some(s) => s,
            None => {
                return None;
            },
        };
        let p2 = match part2(input.part2.as_str()) {
            Some(n) => crate::text::to_decimal(n),
            None => {
                return None;
            },
        };
        let p3 = match part3(input.part3.as_str()) {
            Some(n) => crate::text::to_decimal(n),
            None => {
                return None;
            },
        };
        Some(crate::solutions::solution::Solution { part1: p1, part2: p2, part3: p3 })
    }
}

} // verus!

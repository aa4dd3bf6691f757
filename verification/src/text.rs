use vstd::prelude::*;
use vstd::std_specs::iter::IteratorSpec;
use vstd::string::StrSliceExecFns;
use vstd::string::StringExecFns;

verus! {

broadcast use vstd::string::group_string_axioms;

// ---------- character classes ----------

pub open spec fn is_digit(c: char) -> bool {
    48 <= c as u32 <= 57
}

pub open spec fn digit_val(c: char) -> int {
    c as u32 as int - 48
}

pub open spec fn digit_char(d: int) -> char {
    if d == 0 {
        '0'
    } else if d == 1 {
        '1'
    } else if d == 2 {
        '2'
    } else if d == 3 {
        '3'
    } else if d == 4 {
        '4'
    } else if d == 5 {
        '5'
    } else if d == 6 {
        '6'
    } else if d == 7 {
        '7'
    } else if d == 8 {
        '8'
    } else {
        '9'
    }
}

/// A non-empty run of decimal digits.
pub open spec fn is_digits(s: Seq<char>) -> bool {
    s.len() > 0 && forall|i: int| 0 <= i < s.len() ==> is_digit(#[trigger] s[i])
}

/// The number denoted by a digit sequence, most significant digit first.
pub open spec fn digits_val(s: Seq<char>) -> int
    decreases s.len(),
{
    if s.len() == 0 {
        0
    } else {
        digits_val(s.drop_last()) * 10 + digit_val(s.last())
    }
}

/// The decimal digit sequence of a non-negative number.
pub open spec fn dec_digits(n: int) -> Seq<char>
    decreases n,
{
    if n < 10 {
        seq![digit_char(n)]
    } else {
        dec_digits(n / 10).push(digit_char(n % 10))
    }
}

// ---------- exec access to the characters of a `&str` ----------

/// The characters of `s`, in order, as a vector.
pub fn chars_of(s: &str) -> (v: Vec<char>)
    ensures
        v@ == s@,
{
    let mut it = s.chars();
    let mut v: Vec<char> = Vec::new();
    let mut done = false;
    while !done
        invariant
            it.obeys_prophetic_iter_laws(),
            it.decrease() is Some,
            v@ + it.remaining() == s@,
            done ==> it.remaining().len() == 0,
        decreases (if done { 0int } else { it.decrease()->0 + 1int }),
    {
        match it.next() {
            Some(c) => {
                proof {
                    assert((v@ + seq![c]) + it.remaining() =~= s@);
                }
                v.push(c);
            },
            None => {
                done = true;
            },
        }
    }
    proof {
        assert(v@ =~= s@);
    }
    v
}

/// A fresh copy of `v[from..to]`.
pub fn subvec(v: &Vec<char>, from: usize, to: usize) -> (r: Vec<char>)
    requires
        from <= to <= v@.len(),
    ensures
        r@ == v@.subrange(from as int, to as int),
{
    let mut r: Vec<char> = Vec::new();
    let mut i: usize = from;
    while i < to
        invariant
            from <= i <= to <= v@.len(),
            r@ == v@.subrange(from as int, i as int),
        decreases to - i,
    {
        r.push(v[i]);
        proof {
            assert(r@ =~= v@.subrange(from as int, i + 1 as int));
        }
        i += 1;
    }
    r
}

// ---------- splitting ----------

/// The pieces of `s` cut at the leftmost, non-overlapping occurrences of
/// `sep`, scanning from position `i` with the current piece starting at
/// `start`.  `split_by` below is the entry point.
pub open spec fn split_scan(s: Seq<char>, sep: Seq<char>, start: int, i: int) -> Seq<Seq<char>>
    decreases s.len() - i,
    when 0 <= start <= i && sep.len() >= 1
{
    if i + sep.len() > s.len() {
        seq![s.subrange(start, s.len() as int)]
    } else if s.subrange(i, i + sep.len() as int) == sep {
        seq![s.subrange(start, i)] + split_scan(s, sep, i + sep.len() as int, i + sep.len() as int)
    } else {
        split_scan(s, sep, start, i + 1)
    }
}

/// The pieces of `s` separated by `sep`, as `str::split` yields them:
/// leftmost occurrences first, non-overlapping, with empty pieces kept.
pub open spec fn split_by(s: Seq<char>, sep: Seq<char>) -> Seq<Seq<char>> {
    split_scan(s, sep, 0, 0)
}

/// The subsequences of `s` that a vector of index ranges selects.
pub open spec fn ranges_pieces(s: Seq<char>, rs: Seq<(usize, usize)>) -> Seq<Seq<char>> {
    Seq::new(rs.len(), |j: int| s.subrange(rs[j].0 as int, rs[j].1 as int))
}

/// Every range is ordered and stays inside `s`.
pub open spec fn ranges_wf(s: Seq<char>, rs: Seq<(usize, usize)>) -> bool {
    forall|j: int| 0 <= j < rs.len() ==> #[trigger] rs[j].0 <= rs[j].1 <= s.len()
}

/// Does `v[i..i + sep.len()]` equal `sep`?
pub fn match_at(v: &Vec<char>, sep: &Vec<char>, i: usize) -> (r: bool)
    requires
        i + sep@.len() <= v@.len(),
    ensures
        r == (v@.subrange(i as int, i + sep@.len()) == sep@),
{
    let n = v.len();
    let mut j: usize = 0;
    while j < sep.len()
        invariant
            n == v@.len(),
            i + sep@.len() <= v@.len(),
            0 <= j <= sep@.len(),
            forall|k: int| 0 <= k < j ==> v@[i + k] == sep@[k],
        decreases sep@.len() - j,
    {
        if v[i + j] != sep[j] {
            proof {
                assert(v@.subrange(i as int, i + sep@.len())[j as int] != sep@[j as int]);
            }
            return false;
        }
        j += 1;
    }
    proof {
        assert(v@.subrange(i as int, i + sep@.len()) =~= sep@);
    }
    true
}

/// The index ranges `[from, to)` of the pieces of `v` split by `sep`.
pub fn split_ranges(v: &Vec<char>, sep: &Vec<char>) -> (r: Vec<(usize, usize)>)
    requires
        sep@.len() >= 1,
    ensures
        ranges_pieces(v@, r@) == split_by(v@, sep@),
        ranges_wf(v@, r@),
{
    let ghost pieces = split_by(v@, sep@);
    let mut r: Vec<(usize, usize)> = Vec::new();
    let n = v.len();
    let sl = sep.len();
    let mut start: usize = 0;
    let mut i: usize = 0;
    while i <= n && sl <= n - i
        invariant
            n == v@.len(),
            sl == sep@.len(),
            sep@.len() >= 1,
            0 <= start <= i <= v@.len(),
            pieces == split_by(v@, sep@),
            ranges_pieces(v@, r@) + split_scan(v@, sep@, start as int, i as int) == pieces,
            forall|j: int| 0 <= j < r@.len() ==> #[trigger] r@[j].0 <= r@[j].1 <= v@.len(),
        decreases v@.len() - i,
    {
        let ghost rmap = ranges_pieces(v@, r@);
        let ghost rsnap = r@;
        if match_at(v, sep, i) {
            r.push((start, i));
            proof {
                assert(ranges_pieces(v@, r@) =~= rmap + seq![v@.subrange(start as int, i as int)]);
                assert forall|j: int| 0 <= j < r@.len() implies #[trigger] r@[j].0 <= r@[j].1
                    <= v@.len() by {
                    if j < rsnap.len() {
                        assert(r@[j] == rsnap[j]);
                    } else {
                        assert(r@[j] == (start, i));
                    }
                }
                assert(rmap + (seq![v@.subrange(start as int, i as int)] + split_scan(
                    v@,
                    sep@,
                    i + sep@.len(),
                    i + sep@.len(),
                )) =~= (rmap + seq![v@.subrange(start as int, i as int)]) + split_scan(
                    v@,
                    sep@,
                    i + sep@.len(),
                    i + sep@.len(),
                ));
            }
            i += sl;
            start = i;
        } else {
            i += 1;
        }
    }
    let ghost r0 = r@;
    r.push((start, n));
    proof {
        let rmap0 = ranges_pieces(v@, r0);
        assert(split_scan(v@, sep@, start as int, i as int) == seq![
            v@.subrange(start as int, v@.len() as int),
        ]);
        assert(ranges_pieces(v@, r@) =~= rmap0 + seq![
            v@.subrange(start as int, v@.len() as int),
        ]);
        assert forall|j: int| 0 <= j < r@.len() implies #[trigger] r@[j].0 <= r@[j].1
            <= v@.len() by {
            if j < r0.len() {
                assert(r@[j] == r0[j]);
            } else {
                assert(r@[j] == (start, n));
            }
        }
        assert(ranges_wf(v@, r@));
    }
    r
}

/// The pieces themselves, as fresh vectors.
pub fn split_vecs(v: &Vec<char>, sep: &Vec<char>) -> (r: Vec<Vec<char>>)
    requires
        sep@.len() >= 1,
    ensures
        r.deep_view() == split_by(v@, sep@),
{
    let ranges = split_ranges(v, sep);
    let ghost pieces = split_by(v@, sep@);
    let mut r: Vec<Vec<char>> = Vec::new();
    let mut j: usize = 0;
    while j < ranges.len()
        invariant
            ranges_pieces(v@, ranges@) == pieces,
            forall|k: int| 0 <= k < ranges@.len() ==> #[trigger] ranges@[k].0 <= ranges@[k].1
                <= v@.len(),
            0 <= j <= ranges@.len() == pieces.len(),
            r@.len() == j,
            forall|k: int| 0 <= k < j ==> #[trigger] r@[k]@ == pieces[k],
        decreases ranges@.len() - j,
    {
        let (a, b) = ranges[j];
        let piece = subvec(v, a, b);
        proof {
            assert(piece@ == pieces[j as int]);
        }
        r.push(piece);
        j += 1;
    }
    proof {
        assert forall|k: int| 0 <= k < pieces.len() implies #[trigger] r.deep_view()[k]
            == pieces[k] by {
            assert(r.deep_view()[k] == r@[k].deep_view());
            assert(r@[k].deep_view() =~= r@[k]@);
        }
        assert(r.deep_view() =~~= pieces);
    }
    r
}

// ---------- lines ----------

/// A line with one trailing carriage return removed, as `str::lines` does
/// for every line that a line feed terminated.
pub open spec fn strip_cr(l: Seq<char>) -> Seq<char> {
    if l.len() > 0 && l.last() == '\r' {
        l.drop_last()
    } else {
        l
    }
}

/// Every piece with one trailing carriage return removed.
pub open spec fn strip_all(ps: Seq<Seq<char>>) -> Seq<Seq<char>> {
    Seq::new(ps.len(), |i: int| strip_cr(ps[i]))
}

/// The lines of `s`, exactly as `str::lines` yields them: pieces split at
/// `'\n'`; a final empty piece dropped; every piece that a line feed closed
/// loses one trailing `'\r'`; an unterminated final line is kept whole.
pub open spec fn lines_spec(s: Seq<char>) -> Seq<Seq<char>> {
    let ps = split_by(s, seq!['\n']);
    if ps.last().len() == 0 {
        strip_all(ps.drop_last())
    } else {
        strip_all(ps.drop_last()).push(ps.last())
    }
}

/// The lines of `v`, as fresh vectors.
pub fn lines_vecs(v: &Vec<char>) -> (r: Vec<Vec<char>>)
    ensures
        r.deep_view() == lines_spec(v@),
{
    let mut sep: Vec<char> = Vec::new();
    sep.push('\n');
    proof {
        assert(sep@ =~= seq!['\n']);
    }
    let ranges = split_ranges(v, &sep);
    let ghost pieces = split_by(v@, seq!['\n']);
    proof {
        assert(pieces.len() >= 1) by {
            lemma_split_scan_len(v@, seq!['\n'], 0, 0);
        }
        assert(ranges@.len() == pieces.len());
    }
    let m = ranges.len();
    let (la, lb) = ranges[m - 1];
    let ghost stripped_all = strip_all(pieces.drop_last());
    let mut r: Vec<Vec<char>> = Vec::new();
    let mut j: usize = 0;
    while j < m - 1
        invariant
            ranges_pieces(v@, ranges@) == pieces,
            forall|k: int| 0 <= k < ranges@.len() ==> #[trigger] ranges@[k].0 <= ranges@[k].1
                <= v@.len(),
            m == ranges@.len() == pieces.len(),
            1 <= m,
            stripped_all == strip_all(pieces.drop_last()),
            0 <= j <= m - 1,
            r@.len() == j,
            forall|k: int| 0 <= k < j ==> #[trigger] r@[k]@ == stripped_all[k],
        decreases m - 1 - j,
    {
        let (a, b) = ranges[j];
        proof {
            assert(v@.subrange(a as int, b as int) == pieces[j as int]);
            assert(pieces.drop_last()[j as int] == pieces[j as int]);
            assert(stripped_all[j as int] == strip_cr(pieces[j as int]));
        }
        if b > a && v[b - 1] == '\r' {
            let stripped = subvec(v, a, b - 1);
            proof {
                assert(pieces[j as int].last() == '\r');
                assert(stripped@ =~= pieces[j as int].drop_last());
                assert(stripped@ == strip_cr(pieces[j as int]));
            }
            r.push(stripped);
        } else {
            let kept = subvec(v, a, b);
            proof {
                assert(kept@ == strip_cr(pieces[j as int]));
            }
            r.push(kept);
        }
        j += 1;
    }
    proof {
        assert(v@.subrange(la as int, lb as int) == pieces[m - 1 as int]);
        assert(pieces.last() == pieces[m - 1 as int]);
    }
    if lb > la {
        let last = subvec(v, la, lb);
        r.push(last);
        proof {
            assert(pieces.last().len() > 0);
            assert(lines_spec(v@) == stripped_all.push(pieces.last()));
            assert forall|k: int| 0 <= k < r@.len() implies #[trigger] r.deep_view()[k]
                == lines_spec(v@)[k] by {
                assert(r.deep_view()[k] == r@[k].deep_view());
                assert(r@[k].deep_view() =~= r@[k]@);
            }
            assert(r.deep_view() =~~= lines_spec(v@));
        }
    } else {
        proof {
            assert(pieces.last().len() == 0);
            assert(lines_spec(v@) == stripped_all);
            assert forall|k: int| 0 <= k < r@.len() implies #[trigger] r.deep_view()[k]
                == lines_spec(v@)[k] by {
                assert(r.deep_view()[k] == r@[k].deep_view());
                assert(r@[k].deep_view() =~= r@[k]@);
            }
            assert(r.deep_view() =~~= lines_spec(v@));
        }
    }
    r
}

/// Every split has at least one piece.
pub proof fn lemma_split_scan_len(s: Seq<char>, sep: Seq<char>, start: int, i: int)
    requires
        0 <= start <= i,
        sep.len() >= 1,
    ensures
        split_scan(s, sep, start, i).len() >= 1,
    decreases s.len() - i,
{
    if i + sep.len() > s.len() {
    } else if s.subrange(i, i + sep.len() as int) == sep {
        lemma_split_scan_len(s, sep, i + sep.len() as int, i + sep.len() as int);
    } else {
        lemma_split_scan_len(s, sep, start, i + 1);
    }
}

// ---------- numbers ----------

/// The value of an unsigned integer literal as `u64::from_str` reads it:
/// an optional `'+'`, then at least one digit; no bound on the value.
pub open spec fn parse_uint_spec(s: Seq<char>) -> Option<int> {
    let body = if s.len() > 0 && s[0] == '+' {
        s.drop_first()
    } else {
        s
    };
    if is_digits(body) {
        Some(digits_val(body))
    } else {
        None
    }
}

/// The value of a signed integer literal as `i64::from_str` reads it:
/// an optional `'+'` or `'-'`, then at least one digit.
pub open spec fn parse_sint_spec(s: Seq<char>) -> Option<int> {
    if s.len() > 0 && s[0] == '-' {
        match parse_uint_spec(s.drop_first()) {
            Some(m) => if s.drop_first()[0] == '+' {
                None
            } else {
                Some(-m)
            },
            None => None,
        }
    } else {
        parse_uint_spec(s)
    }
}

proof fn lemma_digits_val_bounds(s: Seq<char>)
    requires
        is_digits(s),
    ensures
        digits_val(s) >= 0,
    decreases s.len(),
{
    assert(is_digit(s[s.len() - 1]));
    assert(digit_val(s.last()) >= 0);
    if s.len() > 1 {
        assert(is_digits(s.drop_last())) by {
            assert(forall|i: int| 0 <= i < s.len() - 1 ==> s.drop_last()[i] == s[i]);
        }
        lemma_digits_val_bounds(s.drop_last());
    } else {
        assert(s.drop_last().len() == 0);
        assert(digits_val(s.drop_last()) == 0);
    }
    assert(digits_val(s.drop_last()) * 10 >= 0) by (nonlinear_arith)
        requires
            digits_val(s.drop_last()) >= 0,
    ;
}

/// The digits of `v[from..to]` read as a number, `None` past `bound`.
pub fn digits_value_range(v: &Vec<char>, from: usize, to: usize, bound: u64) -> (r: Option<u64>)
    requires
        from <= to <= v@.len(),
        is_digits(v@.subrange(from as int, to as int)),
    ensures
        ({
            let val = digits_val(v@.subrange(from as int, to as int));
            match r {
                Some(n) => n == val && val <= bound,
                None => val > bound,
            }
        }),
{
    let ghost body = v@.subrange(from as int, to as int);
    let mut acc: u64 = 0;
    let mut i: usize = from;
    proof {
        lemma_digits_val_bounds(body);
    }
    while i < to
        invariant
            from <= i <= to <= v@.len(),
            is_digits(body),
            body == v@.subrange(from as int, to as int),
            acc == digits_val(body.take(i - from)),
            acc <= bound,
            digits_val(body.take(i - from)) <= digits_val(body),
        decreases to - i,
    {
        let c = v[i];
        proof {
            assert(body[i - from] == c);
            assert(is_digit(c));
        }
        let d: u64 = (c as u32 as u64) - 48;
        let next = match acc.checked_mul(10) {
            Some(m) => m.checked_add(d),
            None => None,
        };
        proof {
            assert(body.take(i + 1 - from).drop_last() =~= body.take(i - from));
            assert(body.take(i + 1 - from).last() == c);
            lemma_digits_prefix_bound(body, i + 1 - from);
        }
        match next {
            Some(n) => {
                if n > bound {
                    return None;
                }
                acc = n;
            },
            None => {
                proof {
                    assert(digits_val(body.take(i + 1 - from)) > u64::MAX >= bound);
                }
                return None;
            },
        }
        i += 1;
    }
    proof {
        assert(body.take(to - from) =~= body);
    }
    Some(acc)
}

/// A digit-sequence prefix never exceeds the whole.
pub proof fn lemma_digits_prefix_bound(s: Seq<char>, k: int)
    requires
        is_digits(s),
        0 <= k <= s.len(),
    ensures
        digits_val(s.take(k)) <= digits_val(s),
        digits_val(s) >= 0,
    decreases s.len() - k,
{
    lemma_digits_val_bounds(s);
    if k < s.len() {
        lemma_digits_prefix_bound(s, k + 1);
        let p1 = s.take(k + 1);
        assert(p1.drop_last() =~= s.take(k));
        assert(is_digits(p1)) by {
            assert(forall|i: int| 0 <= i < k + 1 ==> p1[i] == s[i]);
        }
        lemma_digits_val_bounds(p1);
        assert(digits_val(s.take(k)) * 10 + digit_val(p1.last()) == digits_val(p1));
        assert(digits_val(s.take(k)) <= digits_val(p1)) by {
            assert(digits_val(s.take(k)) >= 0) by {
                assert(is_digits(s.take(k)) || s.take(k).len() == 0);
                if s.take(k).len() > 0 {
                    assert(forall|i: int| 0 <= i < k ==> s.take(k)[i] == s[i]);
                    lemma_digits_val_bounds(s.take(k));
                }
            }
        }
    } else {
        assert(s.take(k) =~= s);
    }
}

/// Is `v[from..to]` a non-empty run of digits?
fn all_digits_range(v: &Vec<char>, from: usize, to: usize) -> (r: bool)
    requires
        from <= to <= v@.len(),
    ensures
        r == is_digits(v@.subrange(from as int, to as int)),
{
    if from == to {
        proof {
            assert(!is_digits(v@.subrange(from as int, to as int)));
        }
        return false;
    }
    let mut i: usize = from;
    while i < to
        invariant
            from <= i <= to <= v@.len(),
            forall|k: int| from <= k < i ==> is_digit(#[trigger] v@[k]),
        decreases to - i,
    {
        let c = v[i];
        if !((c as u32) >= 48 && (c as u32) <= 57) {
            proof {
                assert(!is_digit(v@.subrange(from as int, to as int)[i - from]));
            }
            return false;
        }
        i += 1;
    }
    proof {
        assert(forall|k: int| 0 <= k < to - from ==> is_digit(
            #[trigger] v@.subrange(from as int, to as int)[k],
        ));
    }
    true
}

/// `v[from..to]` as `u64::from_str` would read it, `None` on any failure.
pub fn parse_u64_range(v: &Vec<char>, from: usize, to: usize) -> (r: Option<u64>)
    requires
        from <= to <= v@.len(),
    ensures
        ({
            let s = v@.subrange(from as int, to as int);
            match parse_uint_spec(s) {
                Some(val) => (r is Some <==> val <= u64::MAX) && (r is Some ==> r->0 == val),
                None => r is None,
            }
        }),
{
    let ghost s = v@.subrange(from as int, to as int);
    let body_from = if from < to && v[from] == '+' {
        from + 1
    } else {
        from
    };
    proof {
        if from < to && v@[from as int] == '+' {
            assert(s[0] == '+');
            assert(v@.subrange(from + 1 as int, to as int) =~= s.drop_first());
        } else {
            assert(v@.subrange(body_from as int, to as int) == s);
        }
    }
    if !all_digits_range(v, body_from, to) {
        return None;
    }
    digits_value_range(v, body_from, to, u64::MAX)
}

/// `v[from..to]` as `u32::from_str` would read it.
pub fn parse_u32_range(v: &Vec<char>, from: usize, to: usize) -> (r: Option<u32>)
    requires
        from <= to <= v@.len(),
    ensures
        ({
            let s = v@.subrange(from as int, to as int);
            match parse_uint_spec(s) {
                Some(val) => (r is Some <==> val <= u32::MAX) && (r is Some ==> r->0 == val),
                None => r is None,
            }
        }),
{
    match parse_u64_range(v, from, to) {
        Some(n) => if n <= u32::MAX as u64 {
            Some(n as u32)
        } else {
            None
        },
        None => None,
    }
}

/// `v[from..to]` as `u16::from_str` would read it.
pub fn parse_u16_range(v: &Vec<char>, from: usize, to: usize) -> (r: Option<u16>)
    requires
        from <= to <= v@.len(),
    ensures
        ({
            let s = v@.subrange(from as int, to as int);
            match parse_uint_spec(s) {
                Some(val) => (r is Some <==> val <= u16::MAX) && (r is Some ==> r->0 == val),
                None => r is None,
            }
        }),
{
    match parse_u64_range(v, from, to) {
        Some(n) => if n <= u16::MAX as u64 {
            Some(n as u16)
        } else {
            None
        },
        None => None,
    }
}

/// `v[from..to]` as `i64::from_str` would read it.
pub fn parse_i64_range(v: &Vec<char>, from: usize, to: usize) -> (r: Option<i64>)
    requires
        from <= to <= v@.len(),
    ensures
        ({
            let s = v@.subrange(from as int, to as int);
            match parse_sint_spec(s) {
                Some(val) => (r is Some <==> i64::MIN <= val <= i64::MAX) && (r is Some ==> r->0
                    == val),
                None => r is None,
            }
        }),
{
    let ghost s = v@.subrange(from as int, to as int);
    if from < to && v[from] == '-' {
        proof {
            assert(s[0] == '-');
            assert(v@.subrange(from + 1 as int, to as int) =~= s.drop_first());
        }
        if !all_digits_range(v, from + 1, to) {
            proof {
                if s.drop_first().len() > 0 && s.drop_first()[0] == '+' {
                    assert(!is_digit(s.drop_first()[0]));
                }
            }
            return None;
        }
        proof {
            assert(is_digits(s.drop_first()));
            assert(s.drop_first()[0] != '+');
        }
        match digits_value_range(v, from + 1, to, 9223372036854775808u64) {
            Some(mag) => {
                if mag == 9223372036854775808u64 {
                    Some(i64::MIN)
                } else {
                    Some(-(mag as i64))
                }
            },
            None => None,
        }
    } else {
        proof {
            if s.len() > 0 {
                assert(s[0] != '-');
            }
        }
        match parse_u64_range(v, from, to) {
            Some(n) => if n <= i64::MAX as u64 {
                Some(n as i64)
            } else {
                None
            },
            None => {
                proof {
                    if parse_uint_spec(s) is Some {
                        assert(parse_uint_spec(s)->0 > u64::MAX);
                    }
                }
                None
            },
        }
    }
}

/// `v[from..to]` as `i32::from_str` would read it.
pub fn parse_i32_range(v: &Vec<char>, from: usize, to: usize) -> (r: Option<i32>)
    requires
        from <= to <= v@.len(),
    ensures
        ({
            let s = v@.subrange(from as int, to as int);
            match parse_sint_spec(s) {
                Some(val) => (r is Some <==> i32::MIN <= val <= i32::MAX) && (r is Some ==> r->0
                    == val),
                None => r is None,
            }
        }),
{
    match parse_i64_range(v, from, to) {
        Some(n) => if i32::MIN as i64 <= n && n <= i32::MAX as i64 {
            Some(n as i32)
        } else {
            None
        },
        None => None,
    }
}

// ---------- rendering numbers ----------

/// The one-character string of a decimal digit.
fn digit_str(d: u64) -> (r: &'static str)
    requires
        d < 10,
    ensures
        r@ == seq![digit_char(d as int)],
{
    proof {
        reveal_strlit("0");
        reveal_strlit("1");
        reveal_strlit("2");
        reveal_strlit("3");
        reveal_strlit("4");
        reveal_strlit("5");
        reveal_strlit("6");
        reveal_strlit("7");
        reveal_strlit("8");
        reveal_strlit("9");
    }
    let r = if d == 0 {
        "0"
    } else if d == 1 {
        "1"
    } else if d == 2 {
        "2"
    } else if d == 3 {
        "3"
    } else if d == 4 {
        "4"
    } else if d == 5 {
        "5"
    } else if d == 6 {
        "6"
    } else if d == 7 {
        "7"
    } else if d == 8 {
        "8"
    } else {
        "9"
    };
    proof {
        assert(r@ =~= seq![digit_char(d as int)]);
    }
    r
}

/// `n` written in decimal, as `u64`'s `Display` writes it.
pub fn to_decimal(n: u64) -> (r: String)
    ensures
        r@ == dec_digits(n as int),
    decreases n,
{
    if n < 10 {
        String::from_str(digit_str(n))
    } else {
        let mut s = to_decimal(n / 10);
        s.append(digit_str(n % 10));
        proof {
            assert(dec_digits(n as int / 10).push(digit_char(n as int % 10)) =~= dec_digits(
                n as int / 10,
            ) + seq![digit_char(n as int % 10)]);
        }
        s
    }
}

/// `n` written in decimal, as `u128`'s `Display` writes it.
pub fn to_decimal_u128(n: u128) -> (r: String)
    ensures
        r@ == dec_digits(n as int),
    decreases n,
{
    if n < 10 {
        String::from_str(digit_str(n as u64))
    } else {
        let mut s = to_decimal_u128(n / 10);
        s.append(digit_str((n % 10) as u64));
        proof {
            assert(dec_digits(n as int / 10).push(digit_char(n as int % 10)) =~= dec_digits(
                n as int / 10,
            ) + seq![digit_char(n as int % 10)]);
        }
        s
    }
}


// ---------- modular arithmetic ----------

/// The least non-negative remainder of `-x` in terms of that of `x`.
pub proof fn lemma_neg_mod(x: int, m: int)
    requires
        m > 0,
        x >= 0,
    ensures
        (-x) % m == (m - (x % m)) % m,
{
    vstd::arithmetic::div_mod::lemma_fundamental_div_mod(x, m);
    assert(-x == m * (-(x / m) - 1) + (m - x % m)) by (nonlinear_arith)
        requires
            x == m * (x / m) + x % m,
    ;
    vstd::arithmetic::div_mod::lemma_mod_multiples_vanish(-(x / m) - 1, m - x % m, m);
}

/// Shifting by `v` and by `v % m` agree modulo `m`, in both directions.
pub proof fn lemma_shift_mod(p: int, v: int, m: int)
    requires
        m > 0,
    ensures
        (p + v) % m == (p + (v % m)) % m,
        (p - v) % m == (p + (m - (v % m))) % m,
{
    vstd::arithmetic::div_mod::lemma_fundamental_div_mod(v, m);
    assert(p + v == m * (v / m) + (p + v % m)) by (nonlinear_arith)
        requires
            v == m * (v / m) + v % m,
    ;
    vstd::arithmetic::div_mod::lemma_mod_multiples_vanish(v / m, p + v % m, m);
    assert(p - v == m * (-(v / m) - 1) + (p + (m - v % m))) by (nonlinear_arith)
        requires
            v == m * (v / m) + v % m,
    ;
    vstd::arithmetic::div_mod::lemma_mod_multiples_vanish(-(v / m) - 1, p + (m - v % m), m);
}


/// The decimal rendering of a possibly negative number.
pub open spec fn int_digits(v: int) -> Seq<char> {
    if v < 0 {
        seq!['-'] + dec_digits(-v)
    } else {
        dec_digits(v)
    }
}

/// `n` written in decimal, as `i64`'s `Display` writes it.
pub fn to_decimal_i64(n: i64) -> (r: String)
    ensures
        r@ == int_digits(n as int),
{
    if n >= 0 {
        to_decimal(n as u64)
    } else {
        let mag: u64 = if n == i64::MIN {
            9223372036854775808u64
        } else {
            (-n) as u64
        };
        let mut s = String::from_str("-");
        proof {
            reveal_strlit("-");
        }
        let d = to_decimal(mag);
        s.append(d.as_str());
        proof {
            assert(s@ =~= seq!['-'] + dec_digits(mag as int));
        }
        s
    }
}

} // verus!

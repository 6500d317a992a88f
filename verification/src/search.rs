//! Content search: matching lines plus context, merged into blocks.
use vstd::prelude::*;
use crate::text;

verus! {

/// Whether `pat` occurs in `s` at position `k`.
pub open spec fn occurs_at(s: Seq<char>, pat: Seq<char>, k: int) -> bool {
    0 <= k && k + pat.len() <= s.len() && s.subrange(k, k + pat.len()) == pat
}

/// Whether `pat` occurs anywhere in `s` (`str::contains`).
pub open spec fn contains_sub(s: Seq<char>, pat: Seq<char>) -> bool {
    exists|k: int| occurs_at(s, pat, k)
}

/// Whether `pat` occurs in `s` at position `k`, checked character by character.
pub fn occurs_at_exec(s: &Vec<char>, pat: &Vec<char>, k: usize) -> (r: bool)
    ensures
        r == occurs_at(s@, pat@, k as int),
{
    if k > s.len() || pat.len() > s.len() - k {
        return false;
    }
    let mut j: usize = 0;
    while j < pat.len()
        invariant
            k + pat.len() <= s.len(),
            0 <= j <= pat.len(),
            forall|t: int| 0 <= t < j ==> s@[k + t] == pat@[t],
        decreases pat.len() - j,
    {
        if s[k + j] != pat[j] {
            assert(s@.subrange(k as int, k + pat.len())[j as int] != pat@[j as int]);
            return false;
        }
        j = j + 1;
    }
    assert(s@.subrange(k as int, k + pat.len()) =~= pat@);
    true
}

/// `str::contains` on character vectors.
pub fn contains_chars(s: &Vec<char>, pat: &Vec<char>) -> (r: bool)
    ensures
        r == contains_sub(s@, pat@),
{
    if pat.len() > s.len() {
        return false;
    }
    let bound = s.len() - pat.len();
    let mut k: usize = 0;
    while k < bound
        invariant
            pat.len() <= s.len(),
            bound == s.len() - pat.len(),
            0 <= k <= bound,
            forall|t: int| 0 <= t < k ==> !occurs_at(s@, pat@, t),
        decreases bound - k,
    {
        if occurs_at_exec(s, pat, k) {
            return true;
        }
        k = k + 1;
    }
    if occurs_at_exec(s, pat, bound) {
        return true;
    }
    assert forall|t: int| !occurs_at(s@, pat@, t) by {
        if 0 <= t && t + pat@.len() <= s@.len() {
            assert(t <= k);
        }
    }
    false
}

/// The error text `regex::Regex::new` gives for `pattern`, or `None` when it compiles.
pub uninterp spec fn regex_compile_error(pattern: Seq<char>) -> Option<Seq<char>>;

/// Whether the compiled `pattern` matches somewhere in `line` (`Regex::is_match`).
pub uninterp spec fn regex_is_match_spec(pattern: Seq<char>, line: Seq<char>) -> bool;

/// Compiles `pattern` with `regex::Regex::new`: `None` when it is a valid
/// regular expression, else the error's display text.
#[verifier::external_body]
pub(crate) fn regex_check(pattern: &str) -> (r: Option<String>)
    ensures
        r is None <==> regex_compile_error(pattern@) is None,
        r matches Some(e) ==> regex_compile_error(pattern@) == Some(e@),
{
    regex::Regex::new(pattern).err().map(|e| e.to_string())
}

/// Compiles `pattern` with `regex::Regex::new` and runs `Regex::is_match` on
/// `line`; a pattern that does not compile matches nothing.
#[verifier::external_body]
pub(crate) fn regex_is_match(pattern: &str, line: &str) -> (b: bool)
    ensures
        b == (regex_compile_error(pattern@) is None && regex_is_match_spec(pattern@, line@)),
{
    regex::Regex::new(pattern).map_or(false, |re| re.is_match(line))
}

/// How lines are matched: a literal substring or a regular expression.
pub enum Matcher {
    Literal(String),
    Regex(String),
}

/// One block of consecutive line numbers (1-based) around matches.
pub struct MatchBlock {
    pub line_numbers: Vec<usize>,
}

/// Whether `m` matches `line`.
pub open spec fn matches_line(m: &Matcher, line: Seq<char>) -> bool {
    match m {
        Matcher::Literal(s) => contains_sub(line, s@),
        Matcher::Regex(p) => regex_compile_error(p@) is None && regex_is_match_spec(p@, line),
    }
}

/// Whether `m` is the empty literal (which matches nothing in a search).
pub open spec fn is_empty_literal(m: &Matcher) -> bool {
    match m {
        Matcher::Literal(s) => s@.len() == 0,
        Matcher::Regex(_) => false,
    }
}

impl Matcher {
    /// A literal matcher, or a regex matcher when the pattern compiles.
    pub fn new(pattern: &str, regex: bool) -> (r: Result<Matcher, String>)
        ensures
            !regex ==> (r matches Ok(Matcher::Literal(s)) && s@ == pattern@),
            regex ==> (r is Ok <==> regex_compile_error(pattern@) is None),
            regex && r is Ok ==> (r matches Ok(Matcher::Regex(p)) && p@ == pattern@),
            r matches Err(e) ==> e@ == "Invalid regex pattern: "@ + regex_compile_error(pattern@)->0,
    {
        if regex {
            match regex_check(pattern) {
                None => Ok(Matcher::Regex(text::owned(pattern))),
                Some(err) => {
                    let mut msg = text::owned("Invalid regex pattern: ");
                    text::push_str(&mut msg, err.as_str());
                    Err(msg)
                }
            }
        } else {
            Ok(Matcher::Literal(text::owned(pattern)))
        }
    }

    /// Whether this matcher matches `line`.
    pub fn is_match(&self, line: &str) -> (b: bool)
        ensures
            b == matches_line(self, line@),
    {
        match self {
            Matcher::Literal(s) => {
                let lv = text::chars_of(line);
                let sv = text::chars_of(s.as_str());
                contains_chars(&lv, &sv)
            }
            Matcher::Regex(p) => regex_is_match(p.as_str(), line),
        }
    }

    /// Whether this is the empty literal pattern.
    pub fn is_empty_pattern(&self) -> (b: bool)
        ensures
            b == is_empty_literal(self),
    {
        match self {
            Matcher::Literal(s) => s.as_str().is_empty(),
            Matcher::Regex(_) => false,
        }
    }
}

/// The merged `(start, end)` index ranges (inclusive, 0-based) produced by
/// scanning the first `n` lines: each match widens to `ctx` lines on both
/// sides (clamped to `[0, total - 1]`), and a range that starts at most one
/// line after the previous range's end is merged into it.
pub open spec fn ranges_upto(lines: Seq<Seq<char>>, m: spec_fn(Seq<char>) -> bool, ctx: nat, n: nat) -> Seq<(int, int)>
    decreases n,
{
    if n == 0 {
        Seq::<(int, int)>::empty()
    } else {
        let prev = ranges_upto(lines, m, ctx, (n - 1) as nat);
        let idx = n - 1;
        if !m(lines[idx]) {
            prev
        } else {
            let start = if idx >= ctx { idx - ctx } else { 0 };
            let end = if idx + ctx <= lines.len() - 1 { idx + ctx } else { lines.len() - 1 };
            if prev.len() > 0 && start <= prev.last().1 + 1 {
                let last = prev.last();
                prev.update(prev.len() - 1, (last.0, if last.1 >= end { last.1 } else { end }))
            } else {
                prev.push((start, end))
            }
        }
    }
}

/// The 1-based line numbers of an inclusive 0-based index range.
pub open spec fn block_numbers(r: (int, int)) -> Seq<usize> {
    Seq::new((r.1 - r.0 + 1) as nat, |k: int| (r.0 + k + 1) as usize)
}

/// What `search_lines` returns for `content`: no blocks when there is no
/// line or the pattern is the empty literal, else one block per merged range.
pub open spec fn search_spec(content: Seq<char>, m: spec_fn(Seq<char>) -> bool, empty_pattern: bool, ctx: nat) -> Seq<Seq<usize>> {
    let lines = text::lines_of(content);
    if lines.len() == 0 || empty_pattern {
        Seq::<Seq<usize>>::empty()
    } else {
        ranges_upto(lines, m, ctx, lines.len()).map_values(|r: (int, int)| block_numbers(r))
    }
}

/// The line predicate of a matcher.
pub open spec fn matcher_pred(m: &Matcher) -> spec_fn(Seq<char>) -> bool {
    |line: Seq<char>| matches_line(m, line)
}

/// The line numbers of each block.
pub open spec fn block_views(blocks: Seq<MatchBlock>) -> Seq<Seq<usize>> {
    blocks.map_values(|b: MatchBlock| b.line_numbers@)
}

proof fn lemma_ranges_bounds(lines: Seq<Seq<char>>, m: spec_fn(Seq<char>) -> bool, ctx: nat, n: nat)
    requires
        n <= lines.len(),
    ensures
        forall|j: int| 0 <= j < ranges_upto(lines, m, ctx, n).len() ==>
            0 <= #[trigger] ranges_upto(lines, m, ctx, n)[j].0 <= ranges_upto(lines, m, ctx, n)[j].1 < lines.len(),
        ranges_upto(lines, m, ctx, n).len() <= n,
    decreases n,
{
    if n > 0 {
        lemma_ranges_bounds(lines, m, ctx, (n - 1) as nat);
    }
}

/// The first line of the context window around match `i`.
pub open spec fn window_start(i: int, ctx: nat) -> int {
    if i >= ctx { i - ctx } else { 0 }
}

/// The last line of the context window around match `i` in `len` lines.
pub open spec fn window_end(i: int, ctx: nat, len: nat) -> int {
    if i + ctx <= len - 1 { i + ctx } else { len - 1 }
}

/// Whether line `x` lies in one of the ranges.
pub open spec fn covered(r: Seq<(int, int)>, x: int) -> bool {
    exists|j: int| 0 <= j < r.len() && (#[trigger] r[j]).0 <= x <= r[j].1
}

/// Whether line `x` lies in the context window of a match among the first
/// `n` lines.
pub open spec fn in_window(lines: Seq<Seq<char>>, m: spec_fn(Seq<char>) -> bool, ctx: nat, n: nat, x: int) -> bool {
    exists|i: int|
        0 <= i < n && #[trigger] m(lines[i]) && window_start(i, ctx) <= x <= window_end(i, ctx, lines.len())
}

/// The blocks of a search come in line order, each of them apart from the
/// next by at least one line that is in none (so no two overlap or touch),
/// and together they hold exactly the lines that lie in the context window
/// of some matching line.
pub proof fn lemma_search_blocks(lines: Seq<Seq<char>>, m: spec_fn(Seq<char>) -> bool, ctx: nat)
    ensures
        forall|j: int|
            0 <= j < ranges_upto(lines, m, ctx, lines.len()).len() ==> 0 <= #[trigger] ranges_upto(
                lines,
                m,
                ctx,
                lines.len(),
            )[j].0 <= ranges_upto(lines, m, ctx, lines.len())[j].1 < lines.len(),
        forall|j: int|
            0 <= j < ranges_upto(lines, m, ctx, lines.len()).len() - 1 ==> #[trigger] ranges_upto(
                lines,
                m,
                ctx,
                lines.len(),
            )[j].1 + 1 < ranges_upto(lines, m, ctx, lines.len())[j + 1].0,
        forall|x: int| #[trigger] covered(ranges_upto(lines, m, ctx, lines.len()), x) <==> in_window(
            lines,
            m,
            ctx,
            lines.len(),
            x,
        ),
{
    lemma_ranges_shape(lines, m, ctx, lines.len());
}

proof fn lemma_ranges_shape(lines: Seq<Seq<char>>, m: spec_fn(Seq<char>) -> bool, ctx: nat, n: nat)
    requires
        n <= lines.len(),
    ensures
        forall|j: int|
            0 <= j < ranges_upto(lines, m, ctx, n).len() ==> 0 <= #[trigger] ranges_upto(lines, m, ctx, n)[j].0
                <= ranges_upto(lines, m, ctx, n)[j].1 < lines.len(),
        forall|j: int|
            0 <= j < ranges_upto(lines, m, ctx, n).len() - 1 ==> #[trigger] ranges_upto(lines, m, ctx, n)[j].1 + 1
                < ranges_upto(lines, m, ctx, n)[j + 1].0,
        ranges_upto(lines, m, ctx, n).len() > 0 ==> exists|i: int|
            0 <= i < n && #[trigger] m(lines[i]) && ranges_upto(lines, m, ctx, n).last().0 == window_start(i, ctx),
        forall|x: int| #[trigger] covered(ranges_upto(lines, m, ctx, n), x) <==> in_window(lines, m, ctx, n, x),
    decreases n,
{
    lemma_ranges_bounds(lines, m, ctx, n);
    if n == 0 {
        assert forall|x: int| #[trigger] covered(ranges_upto(lines, m, ctx, n), x) <==> in_window(lines, m, ctx, n, x) by {
        }
    } else {
        let pn = (n - 1) as nat;
        lemma_ranges_shape(lines, m, ctx, pn);
        let prev = ranges_upto(lines, m, ctx, pn);
        let r = ranges_upto(lines, m, ctx, n);
        let idx = n - 1;
        if !m(lines[idx]) {
            assert(r == prev);
            assert forall|x: int| #[trigger] covered(r, x) <==> in_window(lines, m, ctx, n, x) by {
                assert(covered(prev, x) <==> in_window(lines, m, ctx, pn, x));
                if in_window(lines, m, ctx, n, x) {
                    let i = choose|i: int|
                        0 <= i < n && #[trigger] m(lines[i]) && window_start(i, ctx) <= x <= window_end(i, ctx, lines.len());
                    assert(i != idx);
                    assert(in_window(lines, m, ctx, pn, x));
                }
                if in_window(lines, m, ctx, pn, x) {
                    let i = choose|i: int|
                        0 <= i < pn && #[trigger] m(lines[i]) && window_start(i, ctx) <= x <= window_end(i, ctx, lines.len());
                    assert(in_window(lines, m, ctx, n, x));
                }
            }
            if r.len() > 0 {
                let i = choose|i: int| 0 <= i < pn && #[trigger] m(lines[i]) && prev.last().0 == window_start(i, ctx);
                assert(0 <= i < n && m(lines[i]));
            }
        } else {
            let start = window_start(idx, ctx);
            let end = window_end(idx, ctx, lines.len());
            assert(start == (if idx >= ctx { idx - ctx } else { 0 }));
            assert forall|x: int| in_window(lines, m, ctx, n, x) <==> (in_window(lines, m, ctx, pn, x) || (start <= x
                <= end)) by {
                if in_window(lines, m, ctx, n, x) {
                    let i = choose|i: int|
                        0 <= i < n && #[trigger] m(lines[i]) && window_start(i, ctx) <= x <= window_end(i, ctx, lines.len());
                    if i < idx {
                        assert(in_window(lines, m, ctx, pn, x));
                    }
                }
                if in_window(lines, m, ctx, pn, x) {
                    let i = choose|i: int|
                        0 <= i < pn && #[trigger] m(lines[i]) && window_start(i, ctx) <= x <= window_end(i, ctx, lines.len());
                    assert(in_window(lines, m, ctx, n, x));
                }
                if start <= x <= end {
                    assert(m(lines[idx]));
                    assert(in_window(lines, m, ctx, n, x));
                }
            }
            if prev.len() > 0 && start <= prev.last().1 + 1 {
                let last = prev.last();
                let ne = if last.1 >= end { last.1 } else { end };
                assert(r == prev.update(prev.len() - 1, (last.0, ne)));
                let i0 = choose|i: int| 0 <= i < pn && #[trigger] m(lines[i]) && prev.last().0 == window_start(i, ctx);
                assert(last.0 <= start);
                assert forall|x: int| #[trigger] covered(r, x) <==> in_window(lines, m, ctx, n, x) by {
                    assert(covered(prev, x) <==> in_window(lines, m, ctx, pn, x));
                    if covered(r, x) {
                        let j = choose|j: int| 0 <= j < r.len() && (#[trigger] r[j]).0 <= x <= r[j].1;
                        if j < r.len() - 1 {
                            assert(r[j] == prev[j]);
                            assert(covered(prev, x));
                        } else if x <= last.1 {
                            assert(prev[prev.len() - 1] == last);
                            assert(covered(prev, x));
                        } else {
                            assert(start <= x <= end);
                        }
                    }
                    if covered(prev, x) {
                        let j = choose|j: int| 0 <= j < prev.len() && (#[trigger] prev[j]).0 <= x <= prev[j].1;
                        if j < prev.len() - 1 {
                            assert(r[j] == prev[j]);
                        } else {
                            assert(r[j].0 <= x <= r[j].1);
                        }
                        assert(covered(r, x));
                    }
                    if start <= x <= end {
                        let j = r.len() - 1;
                        assert(r[j].0 <= x <= r[j].1);
                        assert(covered(r, x));
                    }
                }
                assert(r.last().0 == window_start(i0, ctx));
                assert forall|j: int| 0 <= j < r.len() - 1 implies #[trigger] r[j].1 + 1 < r[j + 1].0 by {
                    assert(r[j] == prev[j]);
                    if j + 1 < r.len() - 1 {
                        assert(r[j + 1] == prev[j + 1]);
                    } else {
                        assert(r[j + 1].0 == prev[j + 1].0);
                    }
                    assert(prev[j].1 + 1 < prev[j + 1].0);
                }
                assert forall|j: int| 0 <= j < r.len() implies 0 <= #[trigger] r[j].0 <= r[j].1 < lines.len() by {
                    if j < r.len() - 1 {
                        assert(r[j] == prev[j]);
                    } else {
                        assert(0 <= prev[j].0 <= prev[j].1 < lines.len());
                    }
                }
            } else {
                assert(r == prev.push((start, end)));
                assert forall|x: int| #[trigger] covered(r, x) <==> in_window(lines, m, ctx, n, x) by {
                    assert(covered(prev, x) <==> in_window(lines, m, ctx, pn, x));
                    if covered(r, x) {
                        let j = choose|j: int| 0 <= j < r.len() && (#[trigger] r[j]).0 <= x <= r[j].1;
                        if j < r.len() - 1 {
                            assert(r[j] == prev[j]);
                            assert(covered(prev, x));
                        }
                    }
                    if covered(prev, x) {
                        let j = choose|j: int| 0 <= j < prev.len() && (#[trigger] prev[j]).0 <= x <= prev[j].1;
                        assert(r[j] == prev[j]);
                        assert(covered(r, x));
                    }
                    if start <= x <= end {
                        let j = r.len() - 1;
                        assert(r[j].0 <= x <= r[j].1);
                        assert(covered(r, x));
                    }
                }
                assert(m(lines[idx]) && r.last().0 == window_start(idx, ctx));
                assert forall|j: int| 0 <= j < r.len() - 1 implies #[trigger] r[j].1 + 1 < r[j + 1].0 by {
                    assert(r[j] == prev[j]);
                    if j + 1 < r.len() - 1 {
                        assert(r[j + 1] == prev[j + 1]);
                    }
                }
            }
        }
    }
}

fn block_of(start: usize, end: usize) -> (b: MatchBlock)
    requires
        start <= end < usize::MAX,
    ensures
        b.line_numbers@ == block_numbers((start as int, end as int)),
{
    let mut v: Vec<usize> = Vec::new();
    let mut i = start;
    while i <= end
        invariant
            start <= i <= end + 1,
            end < usize::MAX,
            v@ == Seq::new((i - start) as nat, |k: int| (start + k + 1) as usize),
        decreases end + 1 - i,
    {
        v.push(i + 1);
        i = i + 1;
        assert(v@ =~= Seq::new((i - start) as nat, |k: int| (start + k + 1) as usize));
    }
    MatchBlock { line_numbers: v }
}

/// Blocks of line numbers around the lines of `content` that `matcher` matches.
pub fn search_lines(content: &str, matcher: &Matcher, context_lines: usize) -> (blocks: Vec<MatchBlock>)
    requires
        content@.len() + context_lines < usize::MAX,
    ensures
        block_views(blocks@) == search_spec(content@, matcher_pred(matcher), is_empty_literal(matcher), context_lines as nat),
{
    let lines = text::split_lines(content);
    let total = lines.len();
    proof {
        text::lemma_lines_len(content@);
    }
    if total == 0 || matcher.is_empty_pattern() {
        assert(block_views(Seq::<MatchBlock>::empty()) =~= Seq::<Seq<usize>>::empty());
        return Vec::new();
    }
    let ghost lv = text::views(lines@);
    let mut starts: Vec<usize> = Vec::new();
    let mut ends: Vec<usize> = Vec::new();
    let mut i: usize = 0;
    while i < total
        invariant
            0 <= i <= total,
            total == lines@.len(),
            lv == text::views(lines@),
            lv == text::lines_of(content@),
            total <= content@.len(),
            content@.len() + context_lines < usize::MAX,
            starts@.len() == ends@.len(),
            forall|j: int| 0 <= j < ends@.len() ==> ends@[j] < total,
            ranges_upto(lv, matcher_pred(matcher), context_lines as nat, i as nat).len() == starts@.len(),
            forall|j: int| 0 <= j < starts@.len() ==>
                (#[trigger] ranges_upto(lv, matcher_pred(matcher), context_lines as nat, i as nat)[j]) == (starts@[j] as int, ends@[j] as int),
        decreases total - i,
    {
        proof {
            lemma_ranges_bounds(lv, matcher_pred(matcher), context_lines as nat, i as nat);
        }
        if matcher.is_match(lines[i].as_str()) {
            let start = if i >= context_lines { i - context_lines } else { 0 };
            let end = if i + context_lines <= total - 1 { i + context_lines } else { total - 1 };
            let n = starts.len();
            if n > 0 && start <= ends[n - 1] + 1 {
                let last_end = ends[n - 1];
                let new_end = if last_end >= end { last_end } else { end };
                ends.set(n - 1, new_end);
            } else {
                starts.push(start);
                ends.push(end);
            }
        }
        i = i + 1;
        proof {
            let r = ranges_upto(lv, matcher_pred(matcher), context_lines as nat, i as nat);
            assert(r.len() == starts@.len());
            assert forall|j: int| 0 <= j < starts@.len() implies
                (#[trigger] r[j]) == (starts@[j] as int, ends@[j] as int) by {}
        }
    }
    proof {
        lemma_ranges_bounds(lv, matcher_pred(matcher), context_lines as nat, total as nat);
    }
    let mut blocks: Vec<MatchBlock> = Vec::new();
    let mut k: usize = 0;
    while k < starts.len()
        invariant
            0 <= k <= starts@.len(),
            starts@.len() == ends@.len(),
            total == lv.len(),
            total <= content@.len(),
            content@.len() + context_lines < usize::MAX,
            ranges_upto(lv, matcher_pred(matcher), context_lines as nat, total as nat).len() == starts@.len(),
            forall|j: int| 0 <= j < starts@.len() ==>
                (#[trigger] ranges_upto(lv, matcher_pred(matcher), context_lines as nat, total as nat)[j]) == (starts@[j] as int, ends@[j] as int),
            forall|j: int| 0 <= j < ranges_upto(lv, matcher_pred(matcher), context_lines as nat, total as nat).len() ==>
                0 <= #[trigger] ranges_upto(lv, matcher_pred(matcher), context_lines as nat, total as nat)[j].0
                    <= ranges_upto(lv, matcher_pred(matcher), context_lines as nat, total as nat)[j].1 < lv.len(),
            block_views(blocks@) == ranges_upto(lv, matcher_pred(matcher), context_lines as nat, total as nat).subrange(0, k as int).map_values(
                |r: (int, int)| block_numbers(r),
            ),
        decreases starts@.len() - k,
    {
        let ghost rk = ranges_upto(lv, matcher_pred(matcher), context_lines as nat, total as nat)[k as int];
        assert(rk == (starts@[k as int] as int, ends@[k as int] as int));
        assert(0 <= rk.0 <= rk.1 < lv.len());
        let b = block_of(starts[k], ends[k]);
        let ghost old_b = blocks@;
        blocks.push(b);
        proof {
            let rs = ranges_upto(lv, matcher_pred(matcher), context_lines as nat, total as nat);
            assert(block_views(blocks@) =~= block_views(old_b).push(block_numbers(rk)));
            assert(rs.subrange(0, k + 1).map_values(|r: (int, int)| block_numbers(r)) =~= rs.subrange(0, k as int).map_values(
                |r: (int, int)| block_numbers(r),
            ).push(block_numbers(rk)));
        }
        k = k + 1;
    }
    proof {
        let rs = ranges_upto(lv, matcher_pred(matcher), context_lines as nat, total as nat);
        assert(rs.subrange(0, k as int) =~= rs);
    }
    blocks
}

/// Literal search (see `search_lines`).
pub fn search_content(content: &str, pattern: &str, context_lines: usize) -> (blocks: Vec<MatchBlock>)
    requires
        content@.len() + context_lines < usize::MAX,
    ensures
        block_views(blocks@) == search_spec(
            content@,
            |line: Seq<char>| contains_sub(line, pattern@),
            pattern@.len() == 0,
            context_lines as nat,
        ),
{
    let m = Matcher::Literal(text::owned(pattern));
    assert(matcher_pred(&m) =~= |line: Seq<char>| contains_sub(line, pattern@));
    search_lines(content, &m, context_lines)
}

} // verus!

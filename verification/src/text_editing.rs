//! Line-range resolution, batch edits and string replacement on file content.
//!
//! File I/O (existence checks, locking, reading, atomic writes, undo history)
//! stays with the caller: these functions map the current content and the
//! requested operations to the new content and the diff report.
use vstd::prelude::*;
use crate::line_hash;
use crate::search;
use crate::text;

verus! {

// ---------------------------------------------------------------------------
// Line indices
// ---------------------------------------------------------------------------

/// What `resolve_line_index` returns: 1-based positive indices stay as they
/// are, negative ones count from the end (-1 is the last line).
pub open spec fn resolve_index_spec(index: int, total: nat) -> Result<nat, Seq<char>> {
    if index == 0 {
        Err("Line numbers are 1-indexed, use 1 for first line"@)
    } else if index > 0 {
        if index > total {
            Err("Line "@ + text::dec(index as nat) + " exceeds file length ("@ + text::dec(total) + " lines)"@)
        } else {
            Ok(index as nat)
        }
    } else if -index > total {
        Err("Negative index "@ + ("-"@ + text::dec((-index) as nat)) + " exceeds file length ("@
            + text::dec(total) + " lines)"@)
    } else {
        Ok((total + index + 1) as nat)
    }
}

fn push_i64(s: &mut String, v: i64)
    requires
        v > i64::MIN,
    ensures
        final(s)@ == old(s)@ + (if v < 0 { "-"@ + text::dec((-v) as nat) } else { text::dec(v as nat) }),
{
    if v < 0 {
        text::push_str(s, "-");
        text::push_dec_u64(s, (-v) as u64);
        assert(final(s)@ =~= old(s)@ + ("-"@ + text::dec((-v) as nat)));
    } else {
        text::push_dec_u64(s, v as u64);
    }
}

/// Resolves a 1-based (or negative, from-the-end) line index against `total_lines`.
pub fn resolve_line_index(index: i64, total_lines: usize) -> (r: Result<usize, String>)
    requires
        index > i64::MIN,
    ensures
        match resolve_index_spec(index as int, total_lines as nat) {
            Ok(n) => r matches Ok(m) && m == n,
            Err(e) => r matches Err(m) && m@ == e,
        },
{
    if index == 0 {
        return Err(text::owned("Line numbers are 1-indexed, use 1 for first line"));
    }
    if index > 0 {
        if (index as u64) > (total_lines as u64) {
            let mut m = text::owned("Line ");
            text::push_dec_u64(&mut m, index as u64);
            text::push_str(&mut m, " exceeds file length (");
            text::push_dec(&mut m, total_lines);
            text::push_str(&mut m, " lines)");
            return Err(m);
        }
        Ok(index as usize)
    } else {
        let from_end = (-index) as u64;
        if from_end > (total_lines as u64) {
            let mut m = text::owned("Negative index ");
            push_i64(&mut m, index);
            text::push_str(&mut m, " exceeds file length (");
            text::push_dec(&mut m, total_lines);
            text::push_str(&mut m, " lines)");
            return Err(m);
        }
        Ok(total_lines - (from_end as usize) + 1)
    }
}

/// What `resolve_line_range_batch` returns.
pub open spec fn resolve_range_spec(start: int, end: int, total: nat) -> Result<(nat, nat), Seq<char>> {
    match resolve_index_spec(start, total) {
        Err(e) => Err(e),
        Ok(s) => match resolve_index_spec(end, total) {
            Err(e) => Err(e),
            Ok(e) => if s > e {
                Err("Start line ("@ + idec(start) + ") cannot be greater than end line ("@ + idec(end) + ")"@)
            } else {
                Ok((s, e))
            },
        },
    }
}

/// Decimal rendering of a signed value.
pub open spec fn idec(v: int) -> Seq<char> {
    if v < 0 {
        "-"@ + text::dec((-v) as nat)
    } else {
        text::dec(v as nat)
    }
}

/// Resolves both ends of a range; the start may not come after the end.
pub fn resolve_line_range_batch(start: i64, end: i64, total_lines: usize) -> (r: Result<(usize, usize), String>)
    requires
        start > i64::MIN,
        end > i64::MIN,
    ensures
        match resolve_range_spec(start as int, end as int, total_lines as nat) {
            Ok((s, e)) => r matches Ok((a, b)) && a == s && b == e,
            Err(e) => r matches Err(m) && m@ == e,
        },
{
    let resolved_start = match resolve_line_index(start, total_lines) {
        Ok(v) => v,
        Err(e) => return Err(e),
    };
    let resolved_end = match resolve_line_index(end, total_lines) {
        Ok(v) => v,
        Err(e) => return Err(e),
    };
    if resolved_start > resolved_end {
        let mut m = text::owned("Start line (");
        push_i64(&mut m, start);
        text::push_str(&mut m, ") cannot be greater than end line (");
        push_i64(&mut m, end);
        text::push_str(&mut m, ")");
        return Err(m);
    }
    Ok((resolved_start, resolved_end))
}

// ---------------------------------------------------------------------------
// Operations
// ---------------------------------------------------------------------------

/// Kind of a batch operation.
#[derive(Debug, Clone, Copy, PartialEq, Eq, Structural)]
pub enum OperationType {
    Insert,
    Replace,
}

/// A resolved line position (insert anchor, or a single replaced line) or range.
#[derive(Debug, Clone, Copy, PartialEq, Eq, Structural)]
pub enum LineRange {
    Single(usize),
    Range(usize, usize),
}

/// A requested line position before resolution against the file.
pub enum UnresolvedLineRange {
    Single(i64),
    Range(i64, i64),
    Hash(String),
    HashRange(String, String),
}

/// The (start, end) a replace covers.
pub open spec fn replace_range_spec(r: LineRange) -> (nat, nat) {
    match r {
        LineRange::Range(s, e) => (s as nat, e as nat),
        LineRange::Single(l) => (l as nat, l as nat),
    }
}

/// The line an insert goes after.
pub open spec fn insert_anchor_spec(r: LineRange) -> nat {
    match r {
        LineRange::Single(l) => l as nat,
        LineRange::Range(s, _) => s as nat,
    }
}

/// The (start, end) a replace covers.
pub fn replace_range(line_range: &LineRange) -> (r: (usize, usize))
    ensures
        (r.0 as nat, r.1 as nat) == replace_range_spec(*line_range),
{
    match line_range {
        LineRange::Range(start, end) => (*start, *end),
        LineRange::Single(line) => (*line, *line),
    }
}

/// The line an insert goes after.
pub fn insert_anchor(line_range: &LineRange) -> (r: usize)
    ensures
        r as nat == insert_anchor_spec(*line_range),
{
    match line_range {
        LineRange::Single(line) => *line,
        LineRange::Range(start, _) => *start,
    }
}

/// An unresolved line range by value, for specifications.
pub enum UnresolvedSpec {
    Single(int),
    Range(int, int),
    Hash(Seq<char>),
    HashRange(Seq<char>, Seq<char>),
}

pub open spec fn unresolved_view(u: &UnresolvedLineRange) -> UnresolvedSpec {
    match u {
        UnresolvedLineRange::Single(l) => UnresolvedSpec::Single(*l as int),
        UnresolvedLineRange::Range(s, e) => UnresolvedSpec::Range(*s as int, *e as int),
        UnresolvedLineRange::Hash(h) => UnresolvedSpec::Hash(h@),
        UnresolvedLineRange::HashRange(s, e) => UnresolvedSpec::HashRange(s@, e@),
    }
}

/// Whether no number in the range is `i64::MIN` (which the resolution negates).
pub open spec fn unresolved_in_bounds(u: UnresolvedSpec) -> bool {
    match u {
        UnresolvedSpec::Single(l) => l > i64::MIN,
        UnresolvedSpec::Range(s, e) => s > i64::MIN && e > i64::MIN,
        _ => true,
    }
}

/// The line number carrying `hash` (see `line_hash::resolve_hash_to_line`).
pub open spec fn hash_line_spec(hash: Seq<char>, lines: Seq<Seq<char>>) -> Result<nat, Seq<char>> {
    let hs = line_hash::line_hashes(lines);
    if hs.contains(hash) {
        Ok((line_hash::last_pos(hs, hash) + 1) as nat)
    } else {
        Err("Hash '"@ + hash + "' not found in file content"@)
    }
}

/// What `resolve_unresolved_line_range` returns: numbers resolve against the
/// line count (a single 0 stays 0, meaning "before the first line"), hashes
/// against the line identifiers; a hash range may not run backwards.
pub open spec fn resolve_unresolved_spec(u: UnresolvedSpec, lines: Seq<Seq<char>>) -> Result<(bool, nat, nat), Seq<char>> {
    match u {
        UnresolvedSpec::Single(l) => if l == 0 {
            Ok((true, 0, 0))
        } else {
            match resolve_index_spec(l, lines.len()) {
                Ok(n) => Ok((true, n, n)),
                Err(e) => Err(e),
            }
        },
        UnresolvedSpec::Range(s, e) => match resolve_range_spec(s, e, lines.len()) {
            Ok((a, b)) => Ok((false, a, b)),
            Err(e) => Err(e),
        },
        UnresolvedSpec::Hash(h) => match hash_line_spec(h, lines) {
            Ok(n) => Ok((true, n, n)),
            Err(e) => Err(e),
        },
        UnresolvedSpec::HashRange(sh, eh) => match hash_line_spec(sh, lines) {
            Err(e) => Err(e),
            Ok(a) => match hash_line_spec(eh, lines) {
                Err(e) => Err(e),
                Ok(b) => if a > b {
                    Err("Hash range is reversed: '"@ + sh + "' is line "@ + text::dec(a) + " but '"@ + eh
                        + "' is line "@ + text::dec(b) + " (which comes before it). Did you mean line_range: [\""@
                        + eh + "\", \""@ + sh + "\"]?"@)
                } else {
                    Ok((false, a, b))
                },
            },
        },
    }
}

/// A resolved range as (is single, start, end).
pub open spec fn range_view(r: LineRange) -> (bool, nat, nat) {
    match r {
        LineRange::Single(l) => (true, l as nat, l as nat),
        LineRange::Range(s, e) => (false, s as nat, e as nat),
    }
}

/// Resolves a requested line range against the file's lines.
pub fn resolve_unresolved_line_range(
    unresolved: &UnresolvedLineRange,
    total_lines: usize,
    lines: &[&str],
) -> (r: Result<LineRange, String>)
    requires
        total_lines == lines@.len(),
        lines@.len() < usize::MAX,
        unresolved_in_bounds(unresolved_view(unresolved)),
    ensures
        match resolve_unresolved_spec(unresolved_view(unresolved), line_hash::str_views(lines@)) {
            Ok(v) => r matches Ok(lr) && range_view(lr) == v,
            Err(e) => r matches Err(m) && m@ == e,
        },
{
    match unresolved {
        UnresolvedLineRange::Single(line) => {
            if *line == 0 {
                return Ok(LineRange::Single(0));
            }
            match resolve_line_index(*line, total_lines) {
                Ok(n) => Ok(LineRange::Single(n)),
                Err(e) => Err(e),
            }
        },
        UnresolvedLineRange::Range(start, end) => {
            match resolve_line_range_batch(*start, *end, total_lines) {
                Ok((s, e)) => Ok(LineRange::Range(s, e)),
                Err(e) => Err(e),
            }
        },
        UnresolvedLineRange::Hash(hash) => {
            match line_hash::resolve_hash_to_line(hash.as_str(), lines) {
                Ok(n) => Ok(LineRange::Single(n)),
                Err(e) => Err(e),
            }
        },
        UnresolvedLineRange::HashRange(start_hash, end_hash) => {
            let start = match line_hash::resolve_hash_to_line(start_hash.as_str(), lines) {
                Ok(n) => n,
                Err(e) => return Err(e),
            };
            let end = match line_hash::resolve_hash_to_line(end_hash.as_str(), lines) {
                Ok(n) => n,
                Err(e) => return Err(e),
            };
            if start > end {
                let mut m = text::owned("Hash range is reversed: '");
                text::push_str(&mut m, start_hash.as_str());
                text::push_str(&mut m, "' is line ");
                text::push_dec(&mut m, start);
                text::push_str(&mut m, " but '");
                text::push_str(&mut m, end_hash.as_str());
                text::push_str(&mut m, "' is line ");
                text::push_dec(&mut m, end);
                text::push_str(&mut m, " (which comes before it). Did you mean line_range: [\"");
                text::push_str(&mut m, end_hash.as_str());
                text::push_str(&mut m, "\", \"");
                text::push_str(&mut m, start_hash.as_str());
                text::push_str(&mut m, "\"]?");
                return Err(m);
            }
            Ok(LineRange::Range(start, end))
        },
    }
}

// ---------------------------------------------------------------------------
// Whitespace-insensitive comparison
// ---------------------------------------------------------------------------

/// Each line's words joined by single spaces, lines joined by `'\n'`.
pub open spec fn normalize_ws_spec(s: Seq<char>) -> Seq<char> {
    text::join(text::lines_of(s).map_values(|l: Seq<char>| text::collapse_ws(l)), "\n"@)
}

/// Whitespace-normalised text: runs of whitespace inside a line become one
/// space, leading and trailing whitespace of each line is dropped.
pub fn normalize_whitespace(s: &str) -> (r: String)
    ensures
        r@ == normalize_ws_spec(s@),
{
    let lines = text::split_lines(s);
    let mut out: Vec<String> = Vec::new();
    let mut i: usize = 0;
    while i < lines.len()
        invariant
            0 <= i <= lines@.len(),
            text::views(lines@) == text::lines_of(s@),
            text::views(out@) == text::lines_of(s@).subrange(0, i as int).map_values(
                |l: Seq<char>| text::collapse_ws(l),
            ),
        decreases lines@.len() - i,
    {
        let lv = text::chars_of(lines[i].as_str());
        let c = text::collapse_ws_exec(&lv);
        let ghost before = out@;
        out.push(c);
        proof {
            assert(text::views(out@) =~= text::views(before).push(c@));
            assert(text::lines_of(s@)[i as int] == lines@[i as int]@);
            assert(text::lines_of(s@).subrange(0, i + 1).map_values(|l: Seq<char>| text::collapse_ws(l))
                =~= text::lines_of(s@).subrange(0, i as int).map_values(|l: Seq<char>| text::collapse_ws(l)).push(
                text::collapse_ws(lines@[i as int]@),
            ));
        }
        i = i + 1;
    }
    assert(text::lines_of(s@).subrange(0, i as int) =~= text::lines_of(s@));
    text::join_strings(&out, "\n")
}

/// Each line of `s` trimmed.
pub open spec fn trimmed_lines(s: Seq<char>) -> Seq<Seq<char>> {
    text::lines_of(s).map_values(|l: Seq<char>| text::trim(l))
}

fn trimmed_lines_exec(s: &str) -> (r: Vec<Vec<char>>)
    ensures
        r@.len() == trimmed_lines(s@).len(),
        forall|i: int| 0 <= i < r@.len() ==> (#[trigger] r@[i])@ == trimmed_lines(s@)[i],
{
    let lines = text::split_lines(s);
    let mut out: Vec<Vec<char>> = Vec::new();
    let mut i: usize = 0;
    while i < lines.len()
        invariant
            0 <= i <= lines@.len(),
            text::views(lines@) == text::lines_of(s@),
            out@.len() == i,
            forall|k: int| 0 <= k < i ==> (#[trigger] out@[k])@ == trimmed_lines(s@)[k],
        decreases lines@.len() - i,
    {
        let lv = text::chars_of(lines[i].as_str());
        let t = text::trim_chars(&lv);
        proof {
            assert(text::lines_of(s@)[i as int] == lines@[i as int]@);
        }
        out.push(t);
        i = i + 1;
    }
    out
}

/// What `diagnose_mismatch` reports.
pub open spec fn diagnose_spec(expected: Seq<char>, actual: Seq<char>) -> Seq<char> {
    if normalize_ws_spec(expected) == normalize_ws_spec(actual) {
        "whitespace/indentation mismatch only"@
    } else if trimmed_lines(expected) == trimmed_lines(actual) {
        "indentation mismatch only"@
    } else {
        "content differs"@
    }
}

/// Classifies how `actual` differs from the `expected` text.
pub fn diagnose_mismatch(expected: &str, actual: &str) -> (r: String)
    ensures
        r@ == diagnose_spec(expected@, actual@),
{
    let en = normalize_whitespace(expected);
    let an = normalize_whitespace(actual);
    if en == an {
        return text::owned("whitespace/indentation mismatch only");
    }
    let et = trimmed_lines_exec(expected);
    let at = trimmed_lines_exec(actual);
    let mut same = et.len() == at.len();
    let mut i: usize = 0;
    while same && i < et.len()
        invariant
            0 <= i <= et@.len(),
            same ==> et@.len() == at@.len(),
            same ==> forall|k: int| 0 <= k < i ==> et@[k]@ == at@[k]@,
            !same ==> trimmed_lines(expected@) != trimmed_lines(actual@),
            et@.len() == trimmed_lines(expected@).len(),
            at@.len() == trimmed_lines(actual@).len(),
            forall|k: int| 0 <= k < et@.len() ==> (#[trigger] et@[k])@ == trimmed_lines(expected@)[k],
            forall|k: int| 0 <= k < at@.len() ==> (#[trigger] at@[k])@ == trimmed_lines(actual@)[k],
        decreases et@.len() - i,
    {
        if !text::seq_eq(&et[i], &at[i]) {
            same = false;
            assert(trimmed_lines(expected@)[i as int] != trimmed_lines(actual@)[i as int]);
        }
        i = i + 1;
    }
    if same {
        assert(trimmed_lines(expected@) =~= trimmed_lines(actual@)) by {
            assert forall|k: int| 0 <= k < trimmed_lines(expected@).len() implies trimmed_lines(expected@)[k]
                == trimmed_lines(actual@)[k] by {
                assert(et@[k]@ == at@[k]@);
            }
        }
        return text::owned("indentation mismatch only");
    }
    text::owned("content differs")
}

// ---------------------------------------------------------------------------
// Occurrences
// ---------------------------------------------------------------------------

/// Number of non-overlapping occurrences of `pat` in `s` from position `i`,
/// scanning left to right (`str::matches(..).count()` for non-empty `pat`).
pub open spec fn count_from(s: Seq<char>, pat: Seq<char>, i: int) -> nat
    decreases s.len() - i,
{
    if pat.len() == 0 || i < 0 || i + pat.len() > s.len() {
        0
    } else if search::occurs_at(s, pat, i) {
        1 + count_from(s, pat, i + pat.len())
    } else {
        count_from(s, pat, i + 1)
    }
}

/// Start positions of those occurrences, from position `i`.
pub open spec fn positions_from(s: Seq<char>, pat: Seq<char>, i: int) -> Seq<int>
    decreases s.len() - i,
{
    if pat.len() == 0 || i < 0 || i + pat.len() > s.len() {
        Seq::<int>::empty()
    } else if search::occurs_at(s, pat, i) {
        seq![i] + positions_from(s, pat, i + pat.len())
    } else {
        positions_from(s, pat, i + 1)
    }
}

/// `s` with every non-overlapping occurrence of `pat` (from position `i`,
/// left to right) replaced by `rep` (`str::replace` for non-empty `pat`).
pub open spec fn replace_from(s: Seq<char>, pat: Seq<char>, rep: Seq<char>, i: int) -> Seq<char>
    decreases s.len() - i,
{
    if i < 0 || i >= s.len() {
        Seq::<char>::empty()
    } else if pat.len() > 0 && i + pat.len() <= s.len() && search::occurs_at(s, pat, i) {
        rep + replace_from(s, pat, rep, i + pat.len())
    } else {
        seq![s[i]] + replace_from(s, pat, rep, i + 1)
    }
}

pub proof fn lemma_count_positions(s: Seq<char>, pat: Seq<char>, i: int)
    ensures
        count_from(s, pat, i) == positions_from(s, pat, i).len(),
        forall|k: int| 0 <= k < positions_from(s, pat, i).len() ==>
            i <= #[trigger] positions_from(s, pat, i)[k] && search::occurs_at(s, pat, positions_from(s, pat, i)[k]),
    decreases s.len() - i,
{
    if pat.len() == 0 || i < 0 || i + pat.len() > s.len() {
    } else if search::occurs_at(s, pat, i) {
        lemma_count_positions(s, pat, i + pat.len());
        let p = positions_from(s, pat, i);
        assert forall|k: int| 0 <= k < p.len() implies i <= #[trigger] p[k] && search::occurs_at(s, pat, p[k]) by {
            if k > 0 {
                assert(p[k] == positions_from(s, pat, i + pat.len())[k - 1]);
            }
        }
    } else {
        lemma_count_positions(s, pat, i + 1);
    }
}

/// Number of non-overlapping occurrences of `pat` in `s`.
pub fn count_matches(s: &Vec<char>, pat: &Vec<char>) -> (n: usize)
    requires
        pat@.len() > 0,
    ensures
        n == count_from(s@, pat@, 0),
{
    let mut n: usize = 0;
    let mut i: usize = 0;
    while i < s.len() && pat.len() <= s.len() - i
        invariant
            0 <= i <= s@.len() + pat@.len(),
            pat@.len() > 0,
            n + count_from(s@, pat@, i as int) == count_from(s@, pat@, 0),
            n <= i,
        decreases s@.len() + pat@.len() - i,
    {
        if search::occurs_at_exec(s, pat, i) {
            n = n + 1;
            i = i + pat.len();
        } else {
            i = i + 1;
        }
    }
    n
}

/// Start positions of the non-overlapping occurrences of `pat` in `s`.
pub fn find_all_positions(s: &Vec<char>, pat: &Vec<char>) -> (ps: Vec<usize>)
    requires
        pat@.len() > 0,
    ensures
        ps@.len() == positions_from(s@, pat@, 0).len(),
        forall|k: int| 0 <= k < ps@.len() ==> ps@[k] as int == #[trigger] positions_from(s@, pat@, 0)[k],
{
    let mut ps: Vec<usize> = Vec::new();
    let mut i: usize = 0;
    while i < s.len() && pat.len() <= s.len() - i
        invariant
            0 <= i <= s@.len() + pat@.len(),
            pat@.len() > 0,
            ps@.map_values(|p: usize| p as int) + positions_from(s@, pat@, i as int) == positions_from(s@, pat@, 0),
        decreases s@.len() + pat@.len() - i,
    {
        if search::occurs_at_exec(s, pat, i) {
            let ghost before = ps@;
            ps.push(i);
            proof {
                assert(ps@.map_values(|p: usize| p as int) =~= before.map_values(|p: usize| p as int).push(i as int));
                assert(positions_from(s@, pat@, i as int) == seq![i as int] + positions_from(s@, pat@, i + pat@.len()));
                assert(before.map_values(|p: usize| p as int) + positions_from(s@, pat@, i as int)
                    =~= ps@.map_values(|p: usize| p as int) + positions_from(s@, pat@, i + pat@.len()));
            }
            i = i + pat.len();
        } else {
            i = i + 1;
        }
    }
    proof {
        assert(positions_from(s@, pat@, i as int) =~= Seq::<int>::empty());
        assert(ps@.map_values(|p: usize| p as int) =~= positions_from(s@, pat@, 0));
        assert forall|k: int| 0 <= k < ps@.len() implies ps@[k] as int == #[trigger] positions_from(s@, pat@, 0)[k] by {
            assert(ps@.map_values(|p: usize| p as int)[k] == ps@[k] as int);
        }
    }
    ps
}

/// `s` with every non-overlapping occurrence of `pat` replaced by `rep`.
pub fn replace_all(s: &Vec<char>, pat: &Vec<char>, rep: &Vec<char>) -> (r: Vec<char>)
    requires
        pat@.len() > 0,
    ensures
        r@ == replace_from(s@, pat@, rep@, 0),
{
    let mut out: Vec<char> = Vec::new();
    let mut i: usize = 0;
    while i < s.len()
        invariant
            0 <= i <= s@.len(),
            pat@.len() > 0,
            out@ + replace_from(s@, pat@, rep@, i as int) == replace_from(s@, pat@, rep@, 0),
        decreases s@.len() - i,
    {
        if pat.len() <= s.len() - i && search::occurs_at_exec(s, pat, i) {
            let ghost before = out@;
            let mut j: usize = 0;
            while j < rep.len()
                invariant
                    0 <= j <= rep@.len(),
                    out@ == before + rep@.subrange(0, j as int),
                decreases rep@.len() - j,
            {
                out.push(rep[j]);
                j = j + 1;
                assert(out@ =~= before + rep@.subrange(0, j as int));
            }
            proof {
                assert(rep@.subrange(0, rep@.len() as int) =~= rep@);
                assert(before + replace_from(s@, pat@, rep@, i as int) =~= out@ + replace_from(
                    s@,
                    pat@,
                    rep@,
                    i + pat@.len(),
                ));
            }
            i = i + pat.len();
        } else {
            let ghost before = out@;
            out.push(s[i]);
            proof {
                assert(before + replace_from(s@, pat@, rep@, i as int) =~= out@ + replace_from(s@, pat@, rep@, i + 1));
            }
            i = i + 1;
        }
    }
    assert(replace_from(s@, pat@, rep@, i as int) =~= Seq::<char>::empty());
    assert(out@ + Seq::<char>::empty() =~= out@);
    out
}

// ---------------------------------------------------------------------------
// Longest common subsequence
// ---------------------------------------------------------------------------

/// Length of a longest common subsequence of `a` and `b`.
pub open spec fn lcs(a: Seq<char>, b: Seq<char>) -> nat
    decreases a.len() + b.len(),
{
    if a.len() == 0 || b.len() == 0 {
        0
    } else if a.last() == b.last() {
        lcs(a.drop_last(), b.drop_last()) + 1
    } else {
        let x = lcs(a.drop_last(), b);
        let y = lcs(a, b.drop_last());
        if x >= y { x } else { y }
    }
}

proof fn lemma_lcs_bound(a: Seq<char>, b: Seq<char>)
    ensures
        lcs(a, b) <= a.len(),
    decreases a.len() + b.len(),
{
    if a.len() > 0 && b.len() > 0 {
        lemma_lcs_bound(a.drop_last(), b.drop_last());
        lemma_lcs_bound(a.drop_last(), b);
        lemma_lcs_bound(a, b.drop_last());
    }
}

/// `s` cut to its first 2000 characters.
pub open spec fn cap2000(s: Seq<char>) -> Seq<char> {
    if s.len() > 2000 { s.subrange(0, 2000) } else { s }
}

/// LCS length of the first 2000 characters of `a` and of `b`.
pub fn lcs_length(a: &[char], b: &[char]) -> (n: usize)
    ensures
        n == lcs(cap2000(a@), cap2000(b@)),
{
    let la: usize = if a.len() > 2000 { 2000 } else { a.len() };
    let lb: usize = if b.len() > 2000 { 2000 } else { b.len() };
    let ghost sa = cap2000(a@);
    let ghost sb = cap2000(b@);
    assert(sa.len() == la && sb.len() == lb);
    let mut prev: Vec<usize> = Vec::new();
    let mut j: usize = 0;
    while j <= lb
        invariant
            0 <= j <= lb + 1,
            lb <= 2000,
            prev@.len() == j,
            forall|k: int| 0 <= k < j ==> #[trigger] prev@[k] == 0,
        decreases lb + 1 - j,
    {
        prev.push(0);
        j = j + 1;
    }
    let mut i: usize = 0;
    while i < la
        invariant
            0 <= i <= la,
            la <= 2000,
            la <= a@.len(),
            lb <= b@.len(),
            lb <= 2000,
            sa.len() == la,
            sb.len() == lb,
            forall|t: int| 0 <= t < la ==> sa[t] == a@[t],
            forall|t: int| 0 <= t < lb ==> sb[t] == b@[t],
            prev@.len() == lb + 1,
            forall|k: int| 0 <= k <= lb ==> #[trigger] prev@[k] == lcs(sa.subrange(0, i as int), sb.subrange(0, k)),
        decreases la - i,
    {
        let mut curr: Vec<usize> = Vec::new();
        curr.push(0);
        proof {
            assert(sb.subrange(0, 0).len() == 0);
        }
        let mut k: usize = 0;
        while k < lb
            invariant
                0 <= k <= lb,
                i < la,
                la <= 2000,
                la <= a@.len(),
                lb <= b@.len(),
                lb <= 2000,
                sa.len() == la,
                sb.len() == lb,
                forall|t: int| 0 <= t < la ==> sa[t] == a@[t],
                forall|t: int| 0 <= t < lb ==> sb[t] == b@[t],
                prev@.len() == lb + 1,
                forall|q: int| 0 <= q <= lb ==> #[trigger] prev@[q] == lcs(sa.subrange(0, i as int), sb.subrange(0, q)),
                curr@.len() == k + 1,
                forall|q: int| 0 <= q <= k ==> #[trigger] curr@[q] == lcs(sa.subrange(0, i + 1), sb.subrange(0, q)),
            decreases lb - k,
        {
            let ghost pa = sa.subrange(0, i + 1);
            let ghost pb = sb.subrange(0, k + 1);
            proof {
                assert(pa.drop_last() =~= sa.subrange(0, i as int));
                assert(pb.drop_last() =~= sb.subrange(0, k as int));
                assert(pa.last() == a@[i as int]);
                assert(pb.last() == b@[k as int]);
                lemma_lcs_bound(sa.subrange(0, i as int), sb.subrange(0, k as int));
                lemma_lcs_bound(pa, pb.drop_last());
                lemma_lcs_bound(pa.drop_last(), pb);
            }
            let v = if a[i] == b[k] {
                prev[k] + 1
            } else {
                let x = prev[k + 1];
                let y = curr[k];
                if x >= y { x } else { y }
            };
            curr.push(v);
            k = k + 1;
        }
        prev = curr;
        i = i + 1;
    }
    proof {
        assert(sa.subrange(0, la as int) =~= sa);
        assert(sb.subrange(0, lb as int) =~= sb);
    }
    prev[lb]
}

// ---------------------------------------------------------------------------
// Structural noise, indentation
// ---------------------------------------------------------------------------

/// `s` with all trailing `','` and `';'` removed.
pub open spec fn strip_trailing_punct(s: Seq<char>) -> Seq<char>
    decreases s.len(),
{
    if s.len() > 0 && (s.last() == ',' || s.last() == ';') {
        strip_trailing_punct(s.drop_last())
    } else {
        s
    }
}

/// Whether a line is blank or only a closing bracket (optionally followed by
/// `,`/`;`): such lines repeat legitimately and never count as duplicates.
pub open spec fn structural_noise_spec(line: Seq<char>) -> bool {
    let t = text::trim(line);
    let core = strip_trailing_punct(t);
    t.len() == 0 || core == seq!['}'] || core == seq![']'] || core == seq![')']
}

/// Whether `line` is structural noise (see `structural_noise_spec`).
pub fn is_structural_noise(line: &str) -> (b: bool)
    ensures
        b == structural_noise_spec(line@),
{
    let lv = text::chars_of(line);
    let t = text::trim_chars(&lv);
    if t.len() == 0 {
        return true;
    }
    let mut n = t.len();
    proof {
        assert(t@.subrange(0, t@.len() as int) =~= t@);
    }
    while n > 0 && (t[n - 1] == ',' || t[n - 1] == ';')
        invariant
            0 <= n <= t@.len(),
            strip_trailing_punct(t@) == strip_trailing_punct(t@.subrange(0, n as int)),
        decreases n,
    {
        proof {
            assert(t@.subrange(0, n as int).drop_last() =~= t@.subrange(0, n - 1));
        }
        n = n - 1;
    }
    let ghost core = t@.subrange(0, n as int);
    assert(strip_trailing_punct(t@) == core);
    if n == 1 && (t[0] == '}' || t[0] == ']' || t[0] == ')') {
        assert(core =~= seq![t@[0]]);
        return true;
    }
    proof {
        if n == 1 {
            assert(core =~= seq![t@[0]]);
        }
        if core == seq!['}'] || core == seq![']'] || core == seq![')'] {
            assert(core.len() == 1);
        }
    }
    false
}

/// The index of the first line at or after `i` with visible content, or `ls.len()`.
pub open spec fn first_content_line(ls: Seq<Seq<char>>, i: int) -> int
    decreases ls.len() - i,
{
    if i >= ls.len() || i < 0 {
        ls.len() as int
    } else if text::trim(ls[i]).len() > 0 {
        i
    } else {
        first_content_line(ls, i + 1)
    }
}

/// Leading whitespace of the first line of `t` with visible content ("" if none).
pub open spec fn indent_spec(t: Seq<char>) -> Seq<char> {
    let ls = text::lines_of(t);
    let k = first_content_line(ls, 0);
    if k < ls.len() {
        ls[k].subrange(0, text::lead_ws(ls[k]) as int)
    } else {
        Seq::<char>::empty()
    }
}

proof fn lemma_first_content_line(ls: Seq<Seq<char>>, i: int)
    requires
        0 <= i <= ls.len(),
    ensures
        i <= first_content_line(ls, i) <= ls.len(),
    decreases ls.len() - i,
{
    if i < ls.len() && text::trim(ls[i]).len() == 0 {
        lemma_first_content_line(ls, i + 1);
    }
}

/// The indentation of the first non-blank line of `t`.
pub fn detect_indent(t: &str) -> (r: Vec<char>)
    ensures
        r@ == indent_spec(t@),
{
    let lines = text::split_lines(t);
    let ghost ls = text::lines_of(t@);
    let mut i: usize = 0;
    while i < lines.len()
        invariant
            0 <= i <= lines@.len(),
            text::views(lines@) == ls,
            ls == text::lines_of(t@),
            first_content_line(ls, i as int) == first_content_line(ls, 0),
        decreases lines@.len() - i,
    {
        let lv = text::chars_of(lines[i].as_str());
        let tv = text::trim_chars(&lv);
        proof {
            assert(ls[i as int] == lv@);
        }
        if tv.len() > 0 {
            let n = text::lead_ws_exec(&lv);
            proof {
                text::lemma_lead_ws(lv@);
            }
            let mut r: Vec<char> = Vec::new();
            let mut j: usize = 0;
            while j < n
                invariant
                    0 <= j <= n <= lv@.len(),
                    r@ == lv@.subrange(0, j as int),
                decreases n - j,
            {
                r.push(lv[j]);
                j = j + 1;
                assert(r@ =~= lv@.subrange(0, j as int));
            }
            return r;
        }
        i = i + 1;
    }
    Vec::new()
}

/// UTF-8 width of a character.
pub open spec fn utf8_width(c: char) -> nat {
    if (c as u32) < 0x80 {
        1
    } else if (c as u32) < 0x800 {
        2
    } else if (c as u32) < 0x10000 {
        3
    } else {
        4
    }
}

/// UTF-8 byte length of a character sequence.
pub open spec fn byte_len(s: Seq<char>) -> nat
    decreases s.len(),
{
    if s.len() == 0 {
        0
    } else {
        byte_len(s.drop_last()) + utf8_width(s.last())
    }
}

/// The number of leading characters of `s` spanning exactly `b` bytes, if any.
pub open spec fn chars_for_bytes(s: Seq<char>, b: int) -> Option<nat>
    decreases s.len(),
{
    if b == 0 {
        Some(0nat)
    } else if s.len() == 0 || b < 0 {
        None
    } else if utf8_width(s[0]) > b {
        None
    } else {
        match chars_for_bytes(s.drop_first(), b - utf8_width(s[0])) {
            Some(k) => Some(k + 1),
            None => None,
        }
    }
}

fn utf8_width_exec(c: char) -> (w: usize)
    ensures
        w == utf8_width(c),
{
    let u = c as u32;
    if u < 0x80 { 1 } else if u < 0x800 { 2 } else if u < 0x10000 { 3 } else { 4 }
}


proof fn lemma_chars_for_bytes_step(s: Seq<char>, b: int, i: int, acc: int)
    requires
        0 <= i <= s.len(),
        acc == byte_len(s.subrange(0, i)),
        acc <= b,
    ensures
        chars_for_bytes(s, b) == match chars_for_bytes(s.subrange(i, s.len() as int), b - acc) {
            Some(k) => Some((k + i) as nat),
            None => None::<nat>,
        },
    decreases i,
{
    if i == 0 {
        assert(s.subrange(0, s.len() as int) =~= s);
    } else {
        lemma_byte_len_concat(seq![s[0]], s.subrange(1, i));
        assert(byte_len(Seq::<char>::empty()) == 0);
        assert(seq![s[0]].drop_last() =~= Seq::<char>::empty());
        assert(byte_len(seq![s[0]]) == utf8_width(s[0]));
        assert(seq![s[0]] + s.subrange(1, i) =~= s.subrange(0, i));
        assert(seq![s[0]].drop_last() =~= Seq::<char>::empty());
        let t = s.drop_first();
        assert(t.subrange(0, i - 1) =~= s.subrange(1, i));
        assert(t.subrange(i - 1, t.len() as int) =~= s.subrange(i, s.len() as int));
        lemma_chars_for_bytes_step(t, b - utf8_width(s[0]), i - 1, acc - utf8_width(s[0]));
    }
}

pub proof fn lemma_byte_len_concat(a: Seq<char>, b: Seq<char>)
    ensures
        byte_len(a + b) == byte_len(a) + byte_len(b),
    decreases b.len(),
{
    if b.len() == 0 {
        assert(a + b =~= a);
    } else {
        lemma_byte_len_concat(a, b.drop_last());
        assert((a + b).drop_last() =~= a + b.drop_last());
    }
}

/// How one line of the replacement text is re-indented (see `adjust_spec`).
pub open spec fn adjust_line(line: Seq<char>, pi: Seq<char>, ai: Seq<char>) -> Seq<char> {
    if text::trim(line).len() == 0 {
        line
    } else if pi.len() > 0 && pi.len() <= line.len() && line.subrange(0, pi.len() as int) == pi {
        ai + line.subrange(pi.len() as int, line.len() as int)
    } else if byte_len(line.subrange(0, text::lead_ws(line) as int)) >= byte_len(pi) {
        match chars_for_bytes(line, byte_len(pi) as int) {
            Some(k) => ai + line.subrange(k as int, line.len() as int),
            None => line,
        }
    } else {
        ai + text::trim_start(line)
    }
}

/// Whether the cut that re-indenting makes in `line` falls on a character
/// boundary: a line whose leading whitespace spans at least as many bytes as
/// the provided indentation (but does not start with it) is cut after that
/// many bytes.
pub open spec fn line_cut_ok(line: Seq<char>, pi: Seq<char>) -> bool {
    (text::trim(line).len() > 0 && !(pi.len() > 0 && pi.len() <= line.len() && line.subrange(0, pi.len() as int) == pi)
        && byte_len(line.subrange(0, text::lead_ws(line) as int)) >= byte_len(pi)) ==> chars_for_bytes(
        line,
        byte_len(pi) as int,
    ) is Some
}

/// What `adjust_indentation` returns: when the indentation of the provided
/// old text differs from that of the text actually found, each line of the
/// new text is re-indented (see `adjust_line`), else the new text is kept.
pub open spec fn adjust_spec(new: Seq<char>, provided_old: Seq<char>, actual_old: Seq<char>) -> Seq<char> {
    let pi = indent_spec(provided_old);
    let ai = indent_spec(actual_old);
    if pi == ai {
        new
    } else {
        text::join(text::lines_of(new).map_values(|l: Seq<char>| adjust_line(l, pi, ai)), "\n"@)
    }
}

/// Whether re-indenting cuts every line of the new text on a character
/// boundary (elsewhere the cut would fail).
pub open spec fn adjust_defined(new: Seq<char>, provided_old: Seq<char>, actual_old: Seq<char>) -> bool {
    let pi = indent_spec(provided_old);
    let ai = indent_spec(actual_old);
    pi != ai ==> forall|i: int| 0 <= i < text::lines_of(new).len() ==> line_cut_ok(#[trigger] text::lines_of(new)[i], pi)
}

/// Re-indenting keeps blank lines as they are and puts every other line of
/// the new text at the indentation actually found: it starts with that
/// indentation, and a line that started with the provided indentation has
/// it replaced by the actual one.
pub proof fn lemma_reindented_lines(new: Seq<char>, provided_old: Seq<char>, actual_old: Seq<char>, i: int)
    requires
        adjust_defined(new, provided_old, actual_old),
        indent_spec(provided_old) != indent_spec(actual_old),
        0 <= i < text::lines_of(new).len(),
    ensures
        ({
            let l = text::lines_of(new)[i];
            let pi = indent_spec(provided_old);
            let ai = indent_spec(actual_old);
            let a = adjust_line(l, pi, ai);
            &&& text::trim(l).len() == 0 ==> a == l
            &&& text::trim(l).len() > 0 ==> ai.len() <= a.len() && a.subrange(0, ai.len() as int) == ai
            &&& text::trim(l).len() > 0 && pi.len() > 0 && pi.len() <= l.len() && l.subrange(0, pi.len() as int) == pi
                ==> a == ai + l.subrange(pi.len() as int, l.len() as int)
        }),
{
    let l = text::lines_of(new)[i];
    let pi = indent_spec(provided_old);
    let ai = indent_spec(actual_old);
    assert(line_cut_ok(l, pi));
    let a = adjust_line(l, pi, ai);
    if text::trim(l).len() > 0 {
        assert(a.subrange(0, ai.len() as int) =~= ai);
    }
}

pub(crate) fn byte_len_wide(s: &Vec<char>, upto: usize) -> (n: u128)
    requires
        upto <= s@.len(),
    ensures
        n == byte_len(s@.subrange(0, upto as int)),
        n <= 4 * upto,
{
    let mut n: u128 = 0;
    let mut i: usize = 0;
    while i < upto
        invariant
            0 <= i <= upto <= s@.len(),
            n == byte_len(s@.subrange(0, i as int)),
            n <= 4 * i,
        decreases upto - i,
    {
        proof {
            assert(s@.subrange(0, i + 1).drop_last() =~= s@.subrange(0, i as int));
        }
        n = n + utf8_width_exec(s[i]) as u128;
        i = i + 1;
    }
    n
}

fn chars_for_bytes_exec(s: &Vec<char>, b: u128) -> (r: Option<usize>)
    ensures
        match chars_for_bytes(s@, b as int) {
            Some(k) => r == Some(k as usize),
            None => r is None,
        },
{
    let mut i: usize = 0;
    let mut acc: u128 = 0;
    assert(s@.subrange(0, 0) =~= Seq::<char>::empty());
    while i < s.len() && acc < b && utf8_width_exec(s[i]) as u128 <= b - acc
        invariant
            0 <= i <= s@.len(),
            acc <= b,
            acc == byte_len(s@.subrange(0, i as int)),
        decreases s@.len() - i,
    {
        proof {
            assert(s@.subrange(0, i + 1).drop_last() =~= s@.subrange(0, i as int));
        }
        acc = acc + utf8_width_exec(s[i]) as u128;
        i = i + 1;
    }
    proof {
        lemma_chars_for_bytes_step(s@, b as int, i as int, acc as int);
        let rest = s@.subrange(i as int, s@.len() as int);
        if acc < b && i < s@.len() {
            assert(rest[0] == s@[i as int]);
        }
    }
    if acc == b {
        Some(i)
    } else {
        None
    }
}

fn adjust_line_exec(line: &Vec<char>, pi: &Vec<char>, ai: &Vec<char>) -> (r: String)
    requires
        line_cut_ok(line@, pi@),
    ensures
        r@ == adjust_line(line@, pi@, ai@),
{
    let t = text::trim_chars(line);
    if t.len() == 0 {
        return text::string_of(line);
    }
    if pi.len() > 0 && pi.len() <= line.len() {
        let mut j: usize = 0;
        while j < pi.len() && line[j] == pi[j]
            invariant
                0 <= j <= pi@.len() <= line@.len(),
                forall|q: int| 0 <= q < j ==> line@[q] == pi@[q],
            decreases pi@.len() - j,
        {
            j = j + 1;
        }
        if j == pi.len() {
            assert(line@.subrange(0, pi@.len() as int) =~= pi@);
            let mut r = text::string_of(ai);
            let rest = text::string_of_range(line, pi.len(), line.len());
            text::push_str(&mut r, rest.as_str());
            return r;
        } else {
            assert(line@.subrange(0, pi@.len() as int)[j as int] != pi@[j as int]);
        }
    }
    let lead = text::lead_ws_exec(line);
    proof {
        text::lemma_lead_ws(line@);
    }
    let lb = byte_len_wide(line, lead);
    let pb = byte_len_wide(pi, pi.len());
    assert(pi@.subrange(0, pi@.len() as int) =~= pi@);
    if lb >= pb {
        let k = match chars_for_bytes_exec(line, pb) {
            Some(k) => k,
            None => {
                assert(false);
                0
            },
        };
        proof {
            lemma_chars_for_bytes_bound(line@, pb as int);
        }
        let mut r = text::string_of(ai);
        let rest = text::string_of_range(line, k, line.len());
        text::push_str(&mut r, rest.as_str());
        r
    } else {
        let mut r = text::string_of(ai);
        let rest = text::string_of_range(line, lead, line.len());
        text::push_str(&mut r, rest.as_str());
        r
    }
}

proof fn lemma_chars_for_bytes_bound(s: Seq<char>, b: int)
    ensures
        chars_for_bytes(s, b) matches Some(k) ==> k <= s.len(),
    decreases s.len(),
{
    if s.len() > 0 && b != 0 {
        lemma_chars_for_bytes_bound(s.drop_first(), b - utf8_width(s[0]));
    }
}

/// Re-indents the replacement text to the indentation of the text actually
/// found (see `adjust_spec`).
pub fn adjust_indentation(new_text: &str, provided_old: &str, actual_old: &str) -> (r: String)
    requires
        adjust_defined(new_text@, provided_old@, actual_old@),
    ensures
        r@ == adjust_spec(new_text@, provided_old@, actual_old@),
{
    let pi = detect_indent(provided_old);
    let ai = detect_indent(actual_old);
    if text::seq_eq(&pi, &ai) {
        return text::owned(new_text);
    }
    let lines = text::split_lines(new_text);
    let ghost lv = text::views(lines@);
    let ghost target = lv.map_values(|l: Seq<char>| adjust_line(l, pi@, ai@));
    let mut out: Vec<String> = Vec::new();
    let mut i: usize = 0;
    while i < lines.len()
        invariant
            0 <= i <= lines@.len(),
            lv == text::views(lines@),
            lv == text::lines_of(new_text@),
            pi@ == indent_spec(provided_old@),
            ai@ == indent_spec(actual_old@),
            pi@ != ai@,
            adjust_defined(new_text@, provided_old@, actual_old@),
            target == lv.map_values(|l: Seq<char>| adjust_line(l, pi@, ai@)),
            text::views(out@) == target.subrange(0, i as int),
        decreases lines@.len() - i,
    {
        let lc = text::chars_of(lines[i].as_str());
        assert(lv[i as int] == lc@);
        assert(line_cut_ok(text::lines_of(new_text@)[i as int], pi@));
        let a = adjust_line_exec(&lc, &pi, &ai);
        let ghost before = out@;
        out.push(a);
        assert(text::views(out@) =~= text::views(before).push(a@));
        assert(text::views(out@) =~= target.subrange(0, i + 1));
        i = i + 1;
    }
    assert(target.subrange(0, target.len() as int) =~= target);
    text::join_strings(&out, "\n")
}

fn line_cut_ok_exec(line: &Vec<char>, pi: &Vec<char>) -> (b: bool)
    ensures
        b == line_cut_ok(line@, pi@),
{
    let t = text::trim_chars(line);
    if t.len() == 0 {
        return true;
    }
    if pi.len() > 0 && pi.len() <= line.len() {
        let mut j: usize = 0;
        while j < pi.len() && line[j] == pi[j]
            invariant
                0 <= j <= pi@.len() <= line@.len(),
                forall|q: int| 0 <= q < j ==> line@[q] == pi@[q],
            decreases pi@.len() - j,
        {
            j = j + 1;
        }
        if j == pi.len() {
            assert(line@.subrange(0, pi@.len() as int) =~= pi@);
            return true;
        } else {
            assert(line@.subrange(0, pi@.len() as int)[j as int] != pi@[j as int]);
        }
    }
    let lead = text::lead_ws_exec(line);
    proof {
        text::lemma_lead_ws(line@);
    }
    let lb = byte_len_wide(line, lead);
    let pb = byte_len_wide(pi, pi.len());
    assert(pi@.subrange(0, pi@.len() as int) =~= pi@);
    if lb >= pb {
        chars_for_bytes_exec(line, pb).is_some()
    } else {
        true
    }
}

/// Whether `adjust_indentation` can re-indent `new_text` (see `adjust_defined`).
pub fn adjust_indentation_defined(new_text: &str, provided_old: &str, actual_old: &str) -> (b: bool)
    ensures
        b == adjust_defined(new_text@, provided_old@, actual_old@),
{
    let pi = detect_indent(provided_old);
    let ai = detect_indent(actual_old);
    if text::seq_eq(&pi, &ai) {
        return true;
    }
    let lines = text::split_lines(new_text);
    let ghost lv = text::views(lines@);
    let mut i: usize = 0;
    while i < lines.len()
        invariant
            0 <= i <= lines@.len(),
            lv == text::views(lines@),
            lv == text::lines_of(new_text@),
            pi@ == indent_spec(provided_old@),
            ai@ == indent_spec(actual_old@),
            pi@ != ai@,
            forall|q: int| 0 <= q < i ==> line_cut_ok(#[trigger] lv[q], pi@),
        decreases lines@.len() - i,
    {
        let lc = text::chars_of(lines[i].as_str());
        assert(lv[i as int] == lc@);
        if !line_cut_ok_exec(&lc, &pi) {
            assert(!line_cut_ok(text::lines_of(new_text@)[i as int], pi@));
            return false;
        }
        i = i + 1;
    }
    true
}

/// The 1-based line of byte offset `offset` of `content`: one more than
/// the newlines before it. The offset must fall between characters.
pub fn byte_offset_to_line(content: &str, offset: usize) -> (n: usize)
    requires
        chars_for_bytes(content@, offset as int) is Some,
        content@.len() < usize::MAX,
    ensures
        n == text::nl_count(content@.subrange(0, chars_for_bytes(content@, offset as int)->0 as int)) + 1,
{
    let cs = text::chars_of(content);
    let k = match chars_for_bytes_exec(&cs, offset as u128) {
        Some(k) => k,
        None => {
            return 1;
        },
    };
    proof {
        lemma_chars_for_bytes_bound(cs@, offset as int);
    }
    let mut count: usize = 0;
    let mut i: usize = 0;
    while i < k
        invariant
            k <= cs@.len(),
            cs@.len() < usize::MAX,
            0 <= i <= k,
            count == text::nl_count(cs@.subrange(0, i as int)),
            count <= i,
        decreases k - i,
    {
        assert(cs@.subrange(0, i + 1).drop_last() =~= cs@.subrange(0, i as int));
        if cs[i] == '\n' {
            count = count + 1;
        }
        i = i + 1;
    }
    count + 1
}

} // verus!

//! Replacing a unique piece of text in a file: an exact match, else a match
//! that ignores whitespace (with the replacement re-indented), and the
//! reports when the text is ambiguous or absent.
use vstd::prelude::*;
use crate::line_hash;
use crate::text;
use crate::text_editing;

verus! {

// ---------------------------------------------------------------------------
// `str::matches(..).count()` and `str::replace`
// ---------------------------------------------------------------------------

/// The number of matches of `pat` in `s` as `str::matches` counts them: the
/// non-overlapping occurrences, or every position for an empty pattern.
pub open spec fn count_std(s: Seq<char>, pat: Seq<char>) -> nat {
    if pat.len() == 0 {
        s.len() + 1
    } else {
        text_editing::count_from(s, pat, 0)
    }
}

/// `rep` before, between and after the characters of `s`.
pub open spec fn interleave(s: Seq<char>, rep: Seq<char>) -> Seq<char>
    decreases s.len(),
{
    if s.len() == 0 {
        rep
    } else {
        rep + seq![s[0]] + interleave(s.drop_first(), rep)
    }
}

/// `s` with `pat` replaced by `rep` as `str::replace` does it.
pub open spec fn replace_std(s: Seq<char>, pat: Seq<char>, rep: Seq<char>) -> Seq<char> {
    if pat.len() == 0 {
        interleave(s, rep)
    } else {
        text_editing::replace_from(s, pat, rep, 0)
    }
}

fn count_capped(s: &Vec<char>, pat: &Vec<char>) -> (n: usize)
    ensures
        n == (if count_std(s@, pat@) < 2 { count_std(s@, pat@) } else { 2 }),
{
    if pat.len() == 0 {
        if s.len() == 0 { 1 } else { 2 }
    } else {
        let c = text_editing::count_matches(s, pat);
        if c < 2 { c } else { 2 }
    }
}

fn interleave_exec(s: &Vec<char>, rep: &Vec<char>) -> (r: Vec<char>)
    ensures
        r@ == interleave(s@, rep@),
{
    let mut out: Vec<char> = Vec::new();
    let mut i: usize = 0;
    assert(s@.subrange(0, s@.len() as int) =~= s@);
    assert(Seq::<char>::empty() + interleave(s@, rep@) =~= interleave(s@, rep@));
    while i < s.len()
        invariant
            0 <= i <= s@.len(),
            out@ + interleave(s@.subrange(i as int, s@.len() as int), rep@) == interleave(s@, rep@),
        decreases s@.len() - i,
    {
        let ghost before = out@;
        let mut j: usize = 0;
        while j < rep.len()
            invariant
                0 <= j <= rep@.len(),
                out@ == before + rep@.subrange(0, j as int),
            decreases rep@.len() - j,
        {
            out.push(rep[j]);
            j = j + 1;
            assert(out@ =~= before + rep@.subrange(0, j as int));
        }
        out.push(s[i]);
        proof {
            let rest = s@.subrange(i as int, s@.len() as int);
            assert(rep@.subrange(0, rep@.len() as int) =~= rep@);
            assert(rest.drop_first() =~= s@.subrange(i + 1, s@.len() as int));
            assert(rest[0] == s@[i as int]);
            assert(before + interleave(rest, rep@) =~= out@ + interleave(rest.drop_first(), rep@));
        }
        i = i + 1;
    }
    let ghost before = out@;
    let mut j: usize = 0;
    while j < rep.len()
        invariant
            0 <= j <= rep@.len(),
            out@ == before + rep@.subrange(0, j as int),
        decreases rep@.len() - j,
    {
        out.push(rep[j]);
        j = j + 1;
        assert(out@ =~= before + rep@.subrange(0, j as int));
    }
    proof {
        assert(s@.subrange(s@.len() as int, s@.len() as int) =~= Seq::<char>::empty());
        assert(rep@.subrange(0, rep@.len() as int) =~= rep@);
    }
    out
}

fn replace_std_exec(s: &Vec<char>, pat: &Vec<char>, rep: &Vec<char>) -> (r: Vec<char>)
    ensures
        r@ == replace_std(s@, pat@, rep@),
{
    if pat.len() == 0 {
        interleave_exec(s, rep)
    } else {
        text_editing::replace_all(s, pat, rep)
    }
}

// ---------------------------------------------------------------------------
// The diff report
// ---------------------------------------------------------------------------

/// `["..."]` when lines are left out, else nothing.
pub open spec fn more_if(b: bool) -> Seq<Seq<char>> {
    if b {
        seq!["..."@]
    } else {
        Seq::<Seq<char>>::empty()
    }
}

/// `prefix` + `N: text` for the lines `ls[a..b)` (none when `b <= a`), numbered from 1.
pub open spec fn numbered(prefix: Seq<char>, ls: Seq<Seq<char>>, a: int, b: int) -> Seq<Seq<char>> {
    Seq::new(if b > a { (b - a) as nat } else { 0 }, |i: int| prefix + text::dec((a + i + 1) as nat) + ": "@ + ls[a + i])
}

/// The lines of the report of a replacement of `oc` lines at line index
/// `start`: up to two lines of context before, the removed lines (`-`), the
/// new text's lines (`+`), numbered from the match, and up to two lines of
/// the new file after them, with `...` where the file goes on.
pub open spec fn diff_lines(
    o: Seq<Seq<char>>,
    n: Seq<Seq<char>>,
    start: int,
    oc: int,
    t: Seq<Seq<char>>,
) -> Seq<Seq<char>> {
    let cbs: int = if start >= 2 { start - 2 } else { 0 };
    let bend: int = if start < o.len() { start } else { o.len() as int };
    let rend: int = if start + oc < o.len() { start + oc } else { o.len() as int };
    let nas: int = start + t.len();
    let cae: int = if nas + 2 < n.len() { nas + 2 } else { n.len() as int };
    more_if(cbs > 0) + numbered(""@, o, cbs, bend) + numbered("-"@, o, start, rend) + Seq::new(
        t.len(),
        |i: int| "+"@ + text::dec((start + 1 + i) as nat) + ": "@ + t[i],
    ) + numbered(""@, n, nas, cae) + more_if(cae < n.len())
}

fn push_numbered(out: &mut Vec<String>, prefix: &str, ls: &Vec<String>, a: usize, b: usize)
    requires
        b <= ls@.len(),
    ensures
        text::views(final(out)@) == text::views(old(out)@) + numbered(prefix@, text::views(ls@), a as int, b as int),
{
    let ghost base = text::views(out@);
    let ghost target = numbered(prefix@, text::views(ls@), a as int, b as int);
    if b <= a {
        assert(text::views(out@) =~= base + target);
        return;
    }
    let mut i: usize = a;
    while i < b
        invariant
            a <= i <= b <= ls@.len(),
            target == numbered(prefix@, text::views(ls@), a as int, b as int),
            text::views(out@) == base + target.subrange(0, i - a),
        decreases b - i,
    {
        let mut line = text::owned(prefix);
        text::push_dec(&mut line, i + 1);
        text::push_str(&mut line, ": ");
        text::push_str(&mut line, ls[i].as_str());
        let ghost before = out@;
        assert(line@ =~= prefix@ + text::dec((i + 1) as nat) + ": "@ + text::views(ls@)[i as int]);
        out.push(line);
        assert(text::views(out@) =~= text::views(before).push(line@));
        assert(text::views(out@) =~= base + target.subrange(0, i + 1 - a));
        i = i + 1;
    }
    assert(target.subrange(0, b - a) =~= target);
}

/// The report of a replacement (see `diff_lines`), lines joined by `'\n'`.
#[verifier::rlimit(40)]
pub fn build_str_replace_diff(
    orig_lines: &Vec<String>,
    new_lines: &Vec<String>,
    start: usize,
    old_line_count: usize,
    new_text_lines: &Vec<String>,
) -> (r: String)
    ensures
        r@ == text::join(
            diff_lines(
                text::views(orig_lines@),
                text::views(new_lines@),
                start as int,
                old_line_count as int,
                text::views(new_text_lines@),
            ),
            "\n"@,
        ),
{
    let ghost o = text::views(orig_lines@);
    let ghost n = text::views(new_lines@);
    let ghost t = text::views(new_text_lines@);
    assert(o.len() == orig_lines@.len());
    assert(n.len() == new_lines@.len());
    assert(t.len() == new_text_lines@.len());
    let cbs: usize = if start >= 2 { start - 2 } else { 0 };
    let bend: usize = if start < orig_lines.len() { start } else { orig_lines.len() };
    let rend: usize = if (start as u128) + (old_line_count as u128) < orig_lines.len() as u128 {
        start + old_line_count
    } else {
        orig_lines.len()
    };
    let nas: u128 = start as u128 + new_text_lines.len() as u128;
    let cae: usize = if nas + 2 < new_lines.len() as u128 { (nas + 2) as usize } else { new_lines.len() };
    let mut out: Vec<String> = Vec::new();
    if cbs > 0 {
        out.push(text::owned("..."));
    }
    let ghost o1 = text::views(out@);
    assert(o1 =~= more_if(cbs > 0));
    push_numbered(&mut out, "", orig_lines, cbs, bend);
    let ghost o2 = text::views(out@);
    push_numbered(&mut out, "-", orig_lines, start, rend);
    let ghost o3 = text::views(out@);
    let ghost added = Seq::new(t.len(), |i: int| "+"@ + text::dec((start + 1 + i) as nat) + ": "@ + t[i]);
    let mut k: usize = 0;
    while k < new_text_lines.len()
        invariant
            0 <= k <= new_text_lines@.len(),
            t == text::views(new_text_lines@),
            added == Seq::new(t.len(), |i: int| "+"@ + text::dec((start + 1 + i) as nat) + ": "@ + t[i]),
            text::views(out@) == o3 + added.subrange(0, k as int),
        decreases new_text_lines@.len() - k,
    {
        let mut line = text::owned("+");
        text::push_dec_u128(&mut line, start as u128 + 1 + k as u128);
        text::push_str(&mut line, ": ");
        text::push_str(&mut line, new_text_lines[k].as_str());
        assert(line@ =~= "+"@ + text::dec((start + 1 + k) as nat) + ": "@ + t[k as int]);
        let ghost before = out@;
        out.push(line);
        assert(text::views(out@) =~= text::views(before).push(line@));
        assert(text::views(out@) =~= o3 + added.subrange(0, k + 1));
        k = k + 1;
    }
    assert(added.subrange(0, t.len() as int) =~= added);
    let ghost o4 = text::views(out@);
    if nas < cae as u128 {
        push_numbered(&mut out, "", new_lines, nas as usize, cae);
    } else {
        assert(numbered(""@, n, nas as int, cae as int) =~= Seq::<Seq<char>>::empty());
        assert(text::views(out@) =~= text::views(out@) + numbered(""@, n, nas as int, cae as int));
    }
    let ghost o5 = text::views(out@);
    if cae < new_lines.len() {
        out.push(text::owned("..."));
    }
    proof {
        let a1 = more_if(cbs > 0);
        let a2 = numbered(""@, o, cbs as int, bend as int);
        let a3 = numbered("-"@, o, start as int, rend as int);
        let a5 = numbered(""@, n, nas as int, cae as int);
        let a6 = more_if(cae < n.len());
        assert(o2 =~= a1 + a2);
        assert(o3 =~= a1 + a2 + a3);
        assert(o4 =~= a1 + a2 + a3 + added);
        assert(o5 =~= a1 + a2 + a3 + added + a5);
        assert(text::views(out@) =~= a1 + a2 + a3 + added + a5 + a6);
    }
    text::join_strings(&out, "\n")
}

// ---------------------------------------------------------------------------
// Locating a match
// ---------------------------------------------------------------------------

/// The 0-based line holding character offset `p` of `s`.
pub open spec fn line_index_at(s: Seq<char>, p: int) -> nat {
    text::nl_count(s.subrange(0, p))
}

/// The first start of `pat` in `s` (0 for an empty pattern).
pub open spec fn first_match(s: Seq<char>, pat: Seq<char>) -> int {
    if pat.len() == 0 {
        0
    } else {
        text_editing::positions_from(s, pat, 0)[0]
    }
}

/// The text of a match location in the report of an ambiguous replacement:
/// `  k. hash H (line L)` in hash mode, `  k. line L` otherwise.
pub open spec fn location_line(k: nat, line: nat, hash_mode: bool, hashes: Seq<Seq<char>>) -> Seq<char> {
    if hash_mode {
        "  "@ + text::dec(k) + ". hash "@ + hashes[line - 1] + " (line "@ + text::dec(line) + ")"@
    } else {
        "  "@ + text::dec(k) + ". line "@ + text::dec(line)
    }
}

/// The report when `old` occurs more than once in `content`.
pub open spec fn ambiguous_message(content: Seq<char>, old: Seq<char>, hash_mode: bool) -> Seq<char> {
    let ps = text_editing::positions_from(content, old, 0);
    let hashes = line_hash::line_hashes(text::lines_of(content));
    "Found "@ + text::dec(ps.len()) + " matches for replacement text at:\n"@ + text::join(
        Seq::new(ps.len(), |i: int| location_line((i + 1) as nat, line_index_at(content, ps[i]) + 1, hash_mode, hashes)),
        "\n"@,
    ) + "\nAdd more surrounding context to make a unique match, or use `batch_edit` with the specific "@ + (if hash_mode {
        "hash range"@
    } else {
        "line range"@
    }) + "."@
}

proof fn lemma_nl_count_prefix(s: Seq<char>, p: int)
    requires
        0 <= p <= s.len(),
    ensures
        text::nl_count(s.subrange(0, p)) <= text::nl_count(s),
        p < s.len() && s.last() == '\n' ==> text::nl_count(s.subrange(0, p)) < text::nl_count(s),
    decreases s.len() - p,
{
    if p < s.len() {
        lemma_nl_count_prefix(s, p + 1);
        assert(s.subrange(0, p + 1).drop_last() =~= s.subrange(0, p));
        if p + 1 == s.len() {
            assert(s.subrange(0, p + 1) =~= s);
        }
    } else {
        assert(s.subrange(0, p) =~= s);
    }
}

proof fn lemma_split_nl_count(s: Seq<char>)
    ensures
        text::split_nl(s).len() == text::nl_count(s) + 1,
        s.len() > 0 && s.last() == '\n' ==> text::split_nl(s).last().len() == 0,
        s.len() > 0 && s.last() != '\n' ==> text::split_nl(s).last().len() > 0,
    decreases s.len(),
{
    if s.len() > 0 {
        lemma_split_nl_count(s.drop_last());
    }
}

/// A character offset lies on an existing line.
proof fn lemma_line_of_offset(s: Seq<char>, p: int)
    requires
        0 <= p < s.len(),
    ensures
        line_index_at(s, p) < text::lines_of(s).len(),
{
    lemma_nl_count_prefix(s, p);
    lemma_split_nl_count(s);
}

fn line_index_exec(s: &Vec<char>, p: usize) -> (n: usize)
    requires
        p <= s@.len(),
    ensures
        n == line_index_at(s@, p as int),
        n <= p,
{
    let mut n: usize = 0;
    let mut i: usize = 0;
    while i < p
        invariant
            0 <= i <= p <= s@.len(),
            n == text::nl_count(s@.subrange(0, i as int)),
            n <= i,
        decreases p - i,
    {
        proof {
            assert(s@.subrange(0, i + 1).drop_last() =~= s@.subrange(0, i as int));
        }
        if s[i] == '\n' {
            n = n + 1;
        }
        i = i + 1;
    }
    n
}

fn ambiguous_message_exec(content: &Vec<char>, old: &Vec<char>, hash_mode: bool) -> (m: String)
    requires
        old@.len() > 0,
    ensures
        m@ == ambiguous_message(content@, old@, hash_mode),
{
    let ps = text_editing::find_all_positions(content, old);
    proof {
        text_editing::lemma_count_positions(content@, old@, 0);
    }
    let ghost pv = text_editing::positions_from(content@, old@, 0);
    let lines = text::split_lines_chars(content);
    let refs = crate::batch_edit::line_refs(&lines);
    let hashes = line_hash::compute_line_hashes(refs.as_slice());
    let ghost hv = line_hash::line_hashes(text::lines_of(content@));
    assert(text::views(hashes@) == hv);
    assert(text::views(hashes@).len() == hashes@.len());
    let ghost target = Seq::new(
        pv.len(),
        |i: int| location_line((i + 1) as nat, line_index_at(content@, pv[i]) + 1, hash_mode, hv),
    );
    let mut locs: Vec<String> = Vec::new();
    let mut i: usize = 0;
    while i < ps.len()
        invariant
            0 <= i <= ps@.len(),
            ps@.len() == pv.len(),
            forall|k: int| 0 <= k < ps@.len() ==> ps@[k] as int == #[trigger] pv[k],
            forall|k: int| 0 <= k < pv.len() ==> 0 <= #[trigger] pv[k] && search_occurs(content@, old@, pv[k]),
            old@.len() > 0,
            text::views(hashes@) == hv,
            hashes@.len() == hv.len(),
            hv == line_hash::line_hashes(text::lines_of(content@)),
            target == Seq::new(
                pv.len(),
                |i: int| location_line((i + 1) as nat, line_index_at(content@, pv[i]) + 1, hash_mode, hv),
            ),
            text::views(locs@) == target.subrange(0, i as int),
        decreases ps@.len() - i,
    {
        let p = ps[i];
        assert(pv[i as int] == p as int);
        assert(p < content@.len());
        assert(p < content.len());
        let line = line_index_exec(content, p) + 1;
        proof {
            lemma_line_of_offset(content@, p as int);
        }
        let mut l = text::owned("  ");
        text::push_dec(&mut l, i + 1);
        if hash_mode {
            text::push_str(&mut l, ". hash ");
            text::push_str(&mut l, hashes[line - 1].as_str());
            text::push_str(&mut l, " (line ");
            text::push_dec(&mut l, line);
            text::push_str(&mut l, ")");
        } else {
            text::push_str(&mut l, ". line ");
            text::push_dec(&mut l, line);
        }
        assert(l@ =~= location_line((i + 1) as nat, line as nat, hash_mode, hv));
        let ghost before = locs@;
        locs.push(l);
        assert(text::views(locs@) =~= text::views(before).push(target[i as int]));
        assert(text::views(locs@) =~= target.subrange(0, i + 1));
        i = i + 1;
    }
    assert(target.subrange(0, pv.len() as int) =~= target);
    let mut m = text::owned("Found ");
    text::push_dec(&mut m, ps.len());
    text::push_str(&mut m, " matches for replacement text at:\n");
    let joined = text::join_strings(&locs, "\n");
    text::push_str(&mut m, joined.as_str());
    text::push_str(&mut m, "\nAdd more surrounding context to make a unique match, or use `batch_edit` with the specific ");
    if hash_mode {
        text::push_str(&mut m, "hash range");
    } else {
        text::push_str(&mut m, "line range");
    }
    text::push_str(&mut m, ".");
    m
}

/// An occurrence of `pat` at `k` (as `search::occurs_at`).
pub open spec fn search_occurs(s: Seq<char>, pat: Seq<char>, k: int) -> bool {
    crate::search::occurs_at(s, pat, k)
}

// ---------------------------------------------------------------------------
// Whitespace-insensitive location
// ---------------------------------------------------------------------------

/// Whether the lines of `cl` from `s` equal `ol` once each line's whitespace
/// runs are collapsed.
pub open spec fn window_matches(cl: Seq<Seq<char>>, ol: Seq<Seq<char>>, s: int) -> bool {
    forall|j: int| 0 <= j < ol.len() ==> text::collapse_ws(#[trigger] cl[s + j]) == text::collapse_ws(ol[j])
}

/// The first window start from `s` up to `last` whose lines match.
pub open spec fn window_from(cl: Seq<Seq<char>>, ol: Seq<Seq<char>>, s: int, last: int) -> Option<int>
    decreases last + 1 - s,
{
    if s > last || s < 0 {
        None
    } else if window_matches(cl, ol, s) {
        Some(s)
    } else {
        window_from(cl, ol, s + 1, last)
    }
}

/// The first line of the file where the old text's lines match.
pub open spec fn fuzzy_start(cl: Seq<Seq<char>>, ol: Seq<Seq<char>>) -> Option<int> {
    window_from(cl, ol, 0, if cl.len() >= ol.len() { cl.len() - ol.len() } else { 0 })
}

proof fn lemma_window_from_bound(cl: Seq<Seq<char>>, ol: Seq<Seq<char>>, s: int, last: int)
    ensures
        window_from(cl, ol, s, last) matches Some(k) ==> s <= k <= last,
    decreases last + 1 - s,
{
    if s <= last && s >= 0 && !window_matches(cl, ol, s) {
        lemma_window_from_bound(cl, ol, s + 1, last);
    }
}

fn collapsed_lines(ls: &Vec<String>) -> (r: Vec<String>)
    ensures
        text::views(r@) == text::views(ls@).map_values(|l: Seq<char>| text::collapse_ws(l)),
{
    let ghost target = text::views(ls@).map_values(|l: Seq<char>| text::collapse_ws(l));
    let mut r: Vec<String> = Vec::new();
    let mut i: usize = 0;
    while i < ls.len()
        invariant
            0 <= i <= ls@.len(),
            target == text::views(ls@).map_values(|l: Seq<char>| text::collapse_ws(l)),
            text::views(r@) == target.subrange(0, i as int),
        decreases ls@.len() - i,
    {
        let cs = text::chars_of(ls[i].as_str());
        let c = text::collapse_ws_exec(&cs);
        let ghost before = r@;
        r.push(c);
        assert(text::views(r@) =~= text::views(before).push(c@));
        assert(text::views(r@) =~= target.subrange(0, i + 1));
        i = i + 1;
    }
    assert(target.subrange(0, ls@.len() as int) =~= target);
    r
}

fn fuzzy_start_exec(cl: &Vec<String>, ol: &Vec<String>) -> (r: Option<usize>)
    requires
        cl@.len() >= ol@.len(),
    ensures
        match fuzzy_start(text::views(cl@), text::views(ol@)) {
            Some(s) => r == Some(s as usize),
            None => r is None,
        },
{
    let ghost cv = text::views(cl@);
    let ghost ov = text::views(ol@);
    let cn = collapsed_lines(cl);
    let on = collapsed_lines(ol);
    assert(text::views(cn@).len() == cn@.len());
    assert(text::views(on@).len() == on@.len());
    assert(cv.len() == cl@.len());
    assert(ov.len() == ol@.len());
    let last = cl.len() - ol.len();
    let mut s: usize = 0;
    while s <= last
        invariant
            0 <= s <= last + 1,
            last == cl@.len() - ol@.len(),
            cv == text::views(cl@),
            ov == text::views(ol@),
            text::views(cn@) == cv.map_values(|l: Seq<char>| text::collapse_ws(l)),
            text::views(on@) == ov.map_values(|l: Seq<char>| text::collapse_ws(l)),
            cn@.len() == cl@.len(),
            on@.len() == ol@.len(),
            cv.len() == cl@.len(),
            ov.len() == ol@.len(),
            fuzzy_start(cv, ov) == window_from(cv, ov, s as int, last as int),
        decreases last + 1 - s,
    {
        let mut j: usize = 0;
        while j < ol.len() && text::str_eq(cn[s + j].as_str(), on[j].as_str())
            invariant
                0 <= j <= ol@.len(),
                s <= last,
                last == cl@.len() - ol@.len(),
                cv == text::views(cl@),
                ov == text::views(ol@),
                text::views(cn@) == cv.map_values(|l: Seq<char>| text::collapse_ws(l)),
                text::views(on@) == ov.map_values(|l: Seq<char>| text::collapse_ws(l)),
                cn@.len() == cl@.len(),
                on@.len() == ol@.len(),
                cv.len() == cl@.len(),
                ov.len() == ol@.len(),
                cl@.len() == cl.len(),
                forall|q: int| 0 <= q < j ==> text::collapse_ws(#[trigger] cv[s + q]) == text::collapse_ws(ov[q]),
            decreases ol@.len() - j,
        {
            assert(text::views(cn@)[s + j] == text::collapse_ws(cv[s + j]));
            assert(text::views(on@)[j as int] == text::collapse_ws(ov[j as int]));
            j = j + 1;
        }
        if j == ol.len() {
            assert(window_matches(cv, ov, s as int));
            return Some(s);
        }
        assert(text::views(cn@)[s + j] == text::collapse_ws(cv[s + j]));
        assert(text::views(on@)[j as int] == text::collapse_ws(ov[j as int]));
        assert(!window_matches(cv, ov, s as int));
        if s == last {
            assert(window_from(cv, ov, s + 1, last as int) is None);
            return None;
        }
        s = s + 1;
    }
    None
}

// ---------------------------------------------------------------------------
// The whole replacement
// ---------------------------------------------------------------------------

/// The hint left after an exact match spanning `n` lines.
pub open spec fn multi_line_hint(n: nat) -> Seq<char> {
    "`str_replace` matched "@ + text::dec(n)
        + " lines. Prefer `batch_edit` when you know the line range — it's faster and avoids content-search ambiguity."@
}

/// The hint left after a whitespace-insensitive match.
pub open spec fn fuzzy_hint() -> Seq<char> {
    "Replaced via fuzzy match (whitespace-normalized). Indentation was auto-adjusted to match the file."@
}

/// What a replacement comes to.
pub enum ReplacePlan {
    /// The old text occurs once: the new content, the report, and a hint
    /// when the match spans several lines.
    Exact { content: String, diff: String, hint: Option<String> },
    /// The old text matches once when whitespace is ignored: the new content
    /// (the replacement re-indented), the report and a hint.
    Fuzzy { content: String, diff: String, hint: String },
    /// The old text occurs more than once: the report.
    Ambiguous(String),
    /// Neither: the caller reports the closest candidates.
    NoMatch,
}

/// A plan by value: (kind, content, report, hint) with kind 0 exact,
/// 1 fuzzy, 2 ambiguous (report only), 3 no match.
pub open spec fn plan_view(p: ReplacePlan) -> (nat, Seq<char>, Seq<char>, Option<Seq<char>>) {
    match p {
        ReplacePlan::Exact { content, diff, hint } => (0, content@, diff@, crate::fsm::opt_view(hint)),
        ReplacePlan::Fuzzy { content, diff, hint } => (1, content@, diff@, Some(hint@)),
        ReplacePlan::Ambiguous(m) => (2, Seq::empty(), m@, None),
        ReplacePlan::NoMatch => (3, Seq::empty(), Seq::empty(), None),
    }
}

/// What `plan_str_replace` decides: an exact unique match is replaced; a
/// repeated one is reported; otherwise a unique whitespace-insensitive
/// match (by whole text, then located line by line) is replaced by the
/// re-indented new text; otherwise there is no match.
pub open spec fn replace_spec(content: Seq<char>, old: Seq<char>, new: Seq<char>, hash_mode: bool) -> (
    nat,
    Seq<char>,
    Seq<char>,
    Option<Seq<char>>,
) {
    let occ = count_std(content, old);
    let cl = text::lines_of(content);
    let oc = text::lines_of(old).len();
    if occ == 1 {
        let nc = replace_std(content, old, new);
        let start = line_index_at(content, first_match(content, old));
        (
            0,
            nc,
            text::join(diff_lines(cl, text::lines_of(nc), start as int, oc as int, text::lines_of(new)), "\n"@),
            if oc > 1 { Some(multi_line_hint(oc)) } else { None },
        )
    } else if occ > 1 {
        (2, Seq::empty(), ambiguous_message(content, old, hash_mode), None)
    } else if count_std(text_editing::normalize_ws_spec(content), text_editing::normalize_ws_spec(old)) == 1 {
        match fuzzy_start(cl, text::lines_of(old)) {
            Some(s) => {
                let actual = text::join(cl.subrange(s, s + oc), "\n"@);
                let adjusted = text_editing::adjust_spec(new, old, actual);
                let nc = replace_std(content, actual, adjusted);
                (
                    1,
                    nc,
                    text::join(diff_lines(cl, text::lines_of(nc), s, oc as int, text::lines_of(adjusted)), "\n"@),
                    Some(fuzzy_hint()),
                )
            },
            None => (3, Seq::empty(), Seq::empty(), None),
        }
    } else {
        (3, Seq::empty(), Seq::empty(), None)
    }
}

/// Whether the replacement can be carried out: an empty old text in a
/// non-empty file makes the search for its positions run forever; the
/// whitespace-insensitive search needs the file to have as many lines as
/// the old text; the re-indentation must cut lines on character boundaries.
pub open spec fn replace_defined(content: Seq<char>, old: Seq<char>, new: Seq<char>) -> bool {
    let occ = count_std(content, old);
    let cl = text::lines_of(content);
    let ol = text::lines_of(old);
    &&& !(old.len() == 0 && content.len() > 0)
    &&& (occ == 0 && count_std(text_editing::normalize_ws_spec(content), text_editing::normalize_ws_spec(old)) == 1
        ==> cl.len() >= ol.len() && match fuzzy_start(cl, ol) {
        Some(s) => text_editing::adjust_defined(new, old, text::join(cl.subrange(s, s + ol.len()), "\n"@)),
        None => true,
    })
}

/// Decides a replacement of `old_text` by `new_text` in `content` (see
/// `replace_spec`).
#[verifier::rlimit(40)]
pub fn plan_str_replace(content: &str, old_text: &str, new_text: &str, hash_mode: bool) -> (r: ReplacePlan)
    requires
        replace_defined(content@, old_text@, new_text@),
    ensures
        plan_view(r) == replace_spec(content@, old_text@, new_text@, hash_mode),
{
    let cc = text::chars_of(content);
    let oc = text::chars_of(old_text);
    let nc = text::chars_of(new_text);
    let occ = count_capped(&cc, &oc);
    let cl = text::split_lines(content);
    let ol = text::split_lines(old_text);
    let old_count = ol.len();
    assert(text::views(ol@).len() == ol@.len());
    assert(text::views(cl@).len() == cl@.len());
    if occ == 1 {
        let pos: usize = if oc.len() == 0 {
            0
        } else {
            let ps = text_editing::find_all_positions(&cc, &oc);
            proof {
                text_editing::lemma_count_positions(cc@, oc@, 0);
            }
            ps[0]
        };
        proof {
            if oc@.len() > 0 {
                text_editing::lemma_count_positions(cc@, oc@, 0);
                assert(crate::search::occurs_at(cc@, oc@, first_match(cc@, oc@)));
            }
        }
        let start = line_index_exec(&cc, pos);
        let replaced = replace_std_exec(&cc, &oc, &nc);
        let new_content = text::string_of(&replaced);
        let new_lines = text::split_lines(new_content.as_str());
        let text_lines = text::split_lines(new_text);
        assert(text::views(text_lines@).len() == text_lines@.len());
        let diff = build_str_replace_diff(&cl, &new_lines, start, old_count, &text_lines);
        let hint = if old_count > 1 {
            let mut h = text::owned("`str_replace` matched ");
            text::push_dec(&mut h, old_count);
            text::push_str(
                &mut h,
                " lines. Prefer `batch_edit` when you know the line range — it's faster and avoids content-search ambiguity.",
            );
            Some(h)
        } else {
            None
        };
        return ReplacePlan::Exact { content: new_content, diff, hint };
    }
    if occ > 1 {
        let m = ambiguous_message_exec(&cc, &oc, hash_mode);
        return ReplacePlan::Ambiguous(m);
    }
    let norm_old = text_editing::normalize_whitespace(old_text);
    let norm_content = text_editing::normalize_whitespace(content);
    let noc = text::chars_of(norm_old.as_str());
    let ncc = text::chars_of(norm_content.as_str());
    if count_capped(&ncc, &noc) != 1 {
        return ReplacePlan::NoMatch;
    }
    let start = match fuzzy_start_exec(&cl, &ol) {
        None => {
            return ReplacePlan::NoMatch;
        },
        Some(s) => s,
    };
    let ghost cv = text::views(cl@);
    proof {
        lemma_window_from_bound(cv, text::views(ol@), 0, cv.len() - text::views(ol@).len());
        assert(cv.subrange(start as int, start as int) =~= Seq::<Seq<char>>::empty());
    }
    let mut window: Vec<String> = Vec::new();
    let mut j: usize = 0;
    while j < old_count
        invariant
            0 <= j <= old_count,
            old_count == ol@.len(),
            start + old_count <= cl@.len(),
            cl@.len() == cl.len(),
            cv == text::views(cl@),
            text::views(window@) == cv.subrange(start as int, start + j),
        decreases old_count - j,
    {
        let ghost before = window@;
        window.push(cl[start + j].clone());
        assert(text::views(window@) =~= text::views(before).push(cv[start + j]));
        assert(text::views(window@) =~= cv.subrange(start as int, start + j + 1));
        j = j + 1;
    }
    let actual_old = text::join_strings(&window, "\n");
    let adjusted = text_editing::adjust_indentation(new_text, old_text, actual_old.as_str());
    let ac = text::chars_of(actual_old.as_str());
    let adc = text::chars_of(adjusted.as_str());
    let replaced = replace_std_exec(&cc, &ac, &adc);
    let new_content = text::string_of(&replaced);
    let new_lines = text::split_lines(new_content.as_str());
    let adjusted_lines = text::split_lines(adjusted.as_str());
    assert(text::views(adjusted_lines@).len() == adjusted_lines@.len());
    let diff = build_str_replace_diff(&cl, &new_lines, start, old_count, &adjusted_lines);
    ReplacePlan::Fuzzy {
        content: new_content,
        diff,
        hint: text::owned("Replaced via fuzzy match (whitespace-normalized). Indentation was auto-adjusted to match the file."),
    }
}

/// Whether `plan_str_replace` can carry out the replacement (see
/// `replace_defined`).
pub fn str_replace_defined(content: &str, old_text: &str, new_text: &str) -> (b: bool)
    ensures
        b == replace_defined(content@, old_text@, new_text@),
{
    let cc = text::chars_of(content);
    let oc = text::chars_of(old_text);
    if oc.len() == 0 && cc.len() > 0 {
        return false;
    }
    let occ = count_capped(&cc, &oc);
    if occ != 0 {
        return true;
    }
    let norm_old = text_editing::normalize_whitespace(old_text);
    let norm_content = text_editing::normalize_whitespace(content);
    let noc = text::chars_of(norm_old.as_str());
    let ncc = text::chars_of(norm_content.as_str());
    if count_capped(&ncc, &noc) != 1 {
        return true;
    }
    let cl = text::split_lines(content);
    let ol = text::split_lines(old_text);
    assert(text::views(ol@).len() == ol@.len());
    assert(text::views(cl@).len() == cl@.len());
    if cl.len() < ol.len() {
        return false;
    }
    let start = match fuzzy_start_exec(&cl, &ol) {
        None => {
            return true;
        },
        Some(s) => s,
    };
    let ghost cv = text::views(cl@);
    proof {
        lemma_window_from_bound(cv, text::views(ol@), 0, cv.len() - text::views(ol@).len());
        assert(cv.subrange(start as int, start as int) =~= Seq::<Seq<char>>::empty());
    }
    let old_count = ol.len();
    let mut window: Vec<String> = Vec::new();
    let mut j: usize = 0;
    while j < old_count
        invariant
            0 <= j <= old_count,
            old_count == ol@.len(),
            start + old_count <= cl@.len(),
            cl@.len() == cl.len(),
            cv == text::views(cl@),
            text::views(window@) == cv.subrange(start as int, start + j),
        decreases old_count - j,
    {
        let ghost before = window@;
        window.push(cl[start + j].clone());
        assert(text::views(window@) =~= text::views(before).push(cv[start + j]));
        assert(text::views(window@) =~= cv.subrange(start as int, start + j + 1));
        j = j + 1;
    }
    let actual_old = text::join_strings(&window, "\n");
    text_editing::adjust_indentation_defined(new_text, old_text, actual_old.as_str())
}

} // verus!

//! Directory listing: file names filtered by a glob turned regular
//! expression, and content search across files with rendered matches.
use vstd::prelude::*;
use crate::text;
use crate::order;
use crate::search;
use crate::line_hash;
use crate::truncation;

verus! {

// ---------------------------------------------------------------------------
// Glob to regular expression
// ---------------------------------------------------------------------------

/// The index of the first `]` from `i` on, else the length.
pub open spec fn close_at(cs: Seq<char>, i: int) -> int
    decreases cs.len() - i,
{
    if i < 0 || i >= cs.len() {
        cs.len() as int
    } else if cs[i] == ']' {
        i
    } else {
        close_at(cs, i + 1)
    }
}

/// The first `]` from `i` on lies between `i` and the length.
pub proof fn lemma_close_at(cs: Seq<char>, i: int)
    requires
        0 <= i,
    ensures
        i <= close_at(cs, i) || i > cs.len(),
        close_at(cs, i) <= cs.len(),
    decreases cs.len() - i,
{
    if i < cs.len() && cs[i] != ']' {
        lemma_close_at(cs, i + 1);
    }
}

/// Characters a glob keeps literally that a regular expression would read
/// as syntax; they are escaped.
pub open spec fn escaped(c: char) -> bool {
    c == '(' || c == ')' || c == '{' || c == '}' || c == '^' || c == '$' || c == '+' || c == '|' || c == '\\'
}

/// The regular expression for the glob characters from `i` on: `*` becomes
/// `.*?`, `?` becomes `.`, a `[..]` class is copied (closed only where the
/// glob closes it), syntax characters are escaped, the rest is kept.
pub open spec fn glob_regex_from(cs: Seq<char>, i: int) -> Seq<char>
    decreases cs.len() - i,
{
    if i < 0 || i >= cs.len() {
        Seq::empty()
    } else if cs[i] == '*' {
        seq!['.', '*', '?'] + glob_regex_from(cs, i + 1)
    } else if cs[i] == '?' {
        seq!['.'] + glob_regex_from(cs, i + 1)
    } else if cs[i] == '[' {
        proof {
            lemma_close_at(cs, i + 1);
        }
        let j = close_at(cs, i + 1);
        if j < cs.len() {
            seq!['['] + cs.subrange(i + 1, j) + seq![']'] + glob_regex_from(cs, j + 1)
        } else {
            seq!['['] + cs.subrange(i + 1, j)
        }
    } else if escaped(cs[i]) {
        seq!['\\', cs[i]] + glob_regex_from(cs, i + 1)
    } else {
        seq![cs[i]] + glob_regex_from(cs, i + 1)
    }
}

/// The regular expression for one glob.
pub open spec fn glob_regex(p: Seq<char>) -> Seq<char> {
    glob_regex_from(p, 0)
}

/// `s` split at every `c` (the separators dropped); always one piece at least.
pub open spec fn split_by(s: Seq<char>, c: char) -> Seq<Seq<char>>
    decreases s.len(),
{
    if s.len() == 0 {
        seq![Seq::<char>::empty()]
    } else {
        let prev = split_by(s.drop_last(), c);
        if s.last() == c {
            prev.push(Seq::<char>::empty())
        } else {
            prev.update(prev.len() - 1, prev.last().push(s.last()))
        }
    }
}

pub(crate) proof fn lemma_split_by_nonempty(s: Seq<char>, c: char)
    ensures
        split_by(s, c).len() >= 1,
    decreases s.len(),
{
    if s.len() > 0 {
        lemma_split_by_nonempty(s.drop_last(), c);
    }
}

/// The regular expression for a name pattern: alternatives separated by
/// `|` are each trimmed, turned into regular expressions and grouped.
pub open spec fn name_regex(p: Seq<char>) -> Seq<char> {
    let parts = split_by(p, '|');
    if parts.len() > 1 {
        seq!['('] + text::join(parts.map_values(|q: Seq<char>| glob_regex(text::trim(q))), seq!['|']) + seq![')']
    } else {
        glob_regex(p)
    }
}

fn glob_regex_exec(cs: &Vec<char>) -> (r: Vec<char>)
    ensures
        r@ == glob_regex(cs@),
{
    let mut out: Vec<char> = Vec::new();
    let mut i: usize = 0;
    while i < cs.len()
        invariant
            0 <= i <= cs@.len(),
            out@ + glob_regex_from(cs@, i as int) == glob_regex(cs@),
        decreases cs@.len() - i,
    {
        let ghost before = out@;
        let c = cs[i];
        if c == '*' {
            out.push('.');
            out.push('*');
            out.push('?');
            assert(out@ =~= before + seq!['.', '*', '?']);
            i = i + 1;
        } else if c == '?' {
            out.push('.');
            assert(out@ =~= before + seq!['.']);
            i = i + 1;
        } else if c == '[' {
            out.push('[');
            let mut j: usize = i + 1;
            proof {
                lemma_close_at(cs@, i + 1);
            }
            while j < cs.len() && cs[j] != ']'
                invariant
                    i + 1 <= j <= cs@.len(),
                    close_at(cs@, i + 1) == close_at(cs@, j as int),
                    out@ == before + seq!['['] + cs@.subrange(i + 1, j as int),
                decreases cs@.len() - j,
            {
                out.push(cs[j]);
                assert(out@ =~= before + seq!['['] + cs@.subrange(i + 1, j + 1));
                j = j + 1;
            }
            assert(close_at(cs@, j as int) == j);
            if j < cs.len() {
                out.push(']');
                assert(out@ =~= before + (seq!['['] + cs@.subrange(i + 1, j as int) + seq![']']));
                i = j + 1;
            } else {
                assert(glob_regex_from(cs@, j as int) =~= Seq::<char>::empty());
                assert(out@ + glob_regex_from(cs@, j as int) =~= before + (seq!['['] + cs@.subrange(
                    i + 1,
                    j as int,
                )));
                i = j;
            }
        } else if c == '(' || c == ')' || c == '{' || c == '}' || c == '^' || c == '$' || c == '+' || c == '|'
            || c == '\\' {
            out.push('\\');
            out.push(c);
            assert(out@ =~= before + seq!['\\', c]);
            i = i + 1;
        } else {
            out.push(c);
            assert(out@ =~= before + seq![c]);
            i = i + 1;
        }
        assert(glob_regex_from(cs@, i as int) == glob_regex_from(cs@, i as int));
    }
    assert(glob_regex_from(cs@, i as int) =~= Seq::<char>::empty());
    assert(out@ + Seq::<char>::empty() =~= out@);
    out
}

pub(crate) fn split_by_exec(cs: &Vec<char>, c: char) -> (parts: Vec<Vec<char>>)
    ensures
        parts@.map_values(|p: Vec<char>| p@) == split_by(cs@, c),
{
    let mut parts: Vec<Vec<char>> = Vec::new();
    let mut cur: Vec<char> = Vec::new();
    let mut i: usize = 0;
    assert(cs@.subrange(0, 0) =~= Seq::<char>::empty());
    while i < cs.len()
        invariant
            0 <= i <= cs@.len(),
            split_by(cs@.subrange(0, i as int), c).len() >= 1,
            parts@.map_values(|p: Vec<char>| p@) == split_by(cs@.subrange(0, i as int), c).drop_last(),
            cur@ == split_by(cs@.subrange(0, i as int), c).last(),
        decreases cs@.len() - i,
    {
        let ghost p = split_by(cs@.subrange(0, i as int), c);
        proof {
            assert(cs@.subrange(0, i + 1).drop_last() =~= cs@.subrange(0, i as int));
            assert(cs@.subrange(0, i + 1).last() == cs@[i as int]);
        }
        if cs[i] == c {
            let ghost before = parts@;
            let done = cur;
            parts.push(done);
            cur = Vec::new();
            proof {
                let p2 = split_by(cs@.subrange(0, i + 1), c);
                assert(p2 == p.push(Seq::<char>::empty()));
                assert(parts@.map_values(|q: Vec<char>| q@) =~= before.map_values(|q: Vec<char>| q@).push(p.last()));
                assert(p.drop_last().push(p.last()) =~= p);
                assert(p2.drop_last() =~= p);
            }
        } else {
            cur.push(cs[i]);
            proof {
                let p2 = split_by(cs@.subrange(0, i + 1), c);
                assert(p2.drop_last() =~= p.drop_last());
            }
        }
        i = i + 1;
    }
    assert(cs@.subrange(0, cs@.len() as int) =~= cs@);
    let ghost all = split_by(cs@, c);
    let ghost before = parts@;
    let ghost cur_v = cur@;
    parts.push(cur);
    assert(parts@.map_values(|q: Vec<char>| q@) =~= before.map_values(|q: Vec<char>| q@).push(cur_v));
    assert(all.drop_last().push(all.last()) =~= all);
    parts
}

/// The regular expression a name pattern is matched with: each `|`
/// alternative trimmed and converted (`*` to `.*?`, `?` to `.`, classes
/// copied, regex syntax escaped), several alternatives grouped in `(..)`.
pub fn convert_glob_to_regex(glob_pattern: &str) -> (r: String)
    ensures
        r@ == name_regex(glob_pattern@),
{
    let cs = text::chars_of(glob_pattern);
    let parts = split_by_exec(&cs, '|');
    let ghost pv = split_by(cs@, '|');
    if parts.len() > 1 {
        let mut conv: Vec<String> = Vec::new();
        let mut k: usize = 0;
        while k < parts.len()
            invariant
                0 <= k <= parts@.len(),
                parts@.map_values(|p: Vec<char>| p@) == pv,
                text::views(conv@) == pv.subrange(0, k as int).map_values(|q: Seq<char>| glob_regex(text::trim(q))),
            decreases parts@.len() - k,
        {
            assert(pv[k as int] == parts@[k as int]@);
            let t = text::trim_chars(&parts[k]);
            let g = glob_regex_exec(&t);
            let ghost before = conv@;
            conv.push(text::string_of(&g));
            assert(text::views(conv@) =~= text::views(before).push(g@));
            assert(pv.subrange(0, k + 1).map_values(|q: Seq<char>| glob_regex(text::trim(q))) =~= pv.subrange(
                0,
                k as int,
            ).map_values(|q: Seq<char>| glob_regex(text::trim(q))).push(glob_regex(text::trim(pv[k as int]))));
            k = k + 1;
        }
        assert(pv.subrange(0, pv.len() as int) =~= pv);
        let mut r = text::owned("(");
        let joined = text::join_strings(&conv, "|");
        text::push_str(&mut r, joined.as_str());
        text::push_str(&mut r, ")");
        proof {
            reveal_strlit("(");
            reveal_strlit(")");
            reveal_strlit("|");
            assert("|"@ =~= seq!['|']);
            assert(r@ =~= seq!['('] + text::join(
                pv.map_values(|q: Seq<char>| glob_regex(text::trim(q))),
                seq!['|'],
            ) + seq![')']);
        }
        r
    } else {
        let g = glob_regex_exec(&cs);
        text::string_of(&g)
    }
}

// ---------------------------------------------------------------------------
// Listing names
// ---------------------------------------------------------------------------

/// The names of `files` that the regular expression `rx` matches.
pub open spec fn names_matching(files: Seq<Seq<char>>, rx: Seq<char>) -> Seq<Seq<char>>
    decreases files.len(),
{
    if files.len() == 0 {
        Seq::empty()
    } else {
        let rest = names_matching(files.drop_last(), rx);
        if search::regex_is_match_spec(rx, files.last()) {
            rest.push(files.last())
        } else {
            rest
        }
    }
}

/// The names listed from the sorted `files`: all of them without a
/// pattern or where the pattern's regular expression does not compile,
/// else those it matches.
pub open spec fn listed_names(files: Seq<Seq<char>>, pattern: Option<Seq<char>>) -> Seq<Seq<char>> {
    match pattern {
        Some(p) => if search::regex_compile_error(name_regex(p)) is None {
            names_matching(files, name_regex(p))
        } else {
            files
        },
        None => files,
    }
}

/// The walked file names sorted, kept where they match the name pattern
/// (see `convert_glob_to_regex`), one per line.
pub fn list_names(files: &Vec<String>, pattern: Option<&str>) -> (r: String)
    ensures
        r@ == text::join(
            listed_names(
                order::sorted_of(text::views(files@)),
                match pattern {
                    Some(p) => Some(p@),
                    None => None,
                },
            ),
            "\n"@,
        ),
{
    let sorted = order::sort_strings(files);
    let ghost w = text::views(sorted@);
    match pattern {
        None => text::join_strings(&sorted, "\n"),
        Some(p) => {
            let rx = convert_glob_to_regex(p);
            if search::regex_check(rx.as_str()).is_some() {
                return text::join_strings(&sorted, "\n");
            }
            let mut kept: Vec<String> = Vec::new();
            let mut i: usize = 0;
            while i < sorted.len()
                invariant
                    0 <= i <= sorted@.len(),
                    w == text::views(sorted@),
                    search::regex_compile_error(rx@) is None,
                    text::views(kept@) == names_matching(w.subrange(0, i as int), rx@),
                decreases sorted@.len() - i,
            {
                let ghost before = kept@;
                assert(w.subrange(0, i + 1).drop_last() =~= w.subrange(0, i as int));
                assert(w.subrange(0, i + 1).last() == sorted@[i as int]@);
                if search::regex_is_match(rx.as_str(), sorted[i].as_str()) {
                    kept.push(sorted[i].clone());
                    assert(text::views(kept@) =~= text::views(before).push(sorted@[i as int]@));
                }
                i = i + 1;
            }
            assert(w.subrange(0, w.len() as int) =~= w);
            text::join_strings(&kept, "\n")
        },
    }
}

// ---------------------------------------------------------------------------
// Content search across files
// ---------------------------------------------------------------------------

/// Number of zero bytes in `s`.
pub open spec fn zero_count(s: Seq<u8>) -> nat
    decreases s.len(),
{
    if s.len() == 0 {
        0
    } else {
        zero_count(s.drop_last()) + if s.last() == 0 { 1nat } else { 0nat }
    }
}

/// Whether file bytes look binary: among the first 512 bytes (or fewer),
/// more than a tenth are zero.
pub open spec fn looks_binary(bytes: Seq<u8>) -> bool {
    let n = if bytes.len() < 512 { bytes.len() } else { 512 };
    zero_count(bytes.subrange(0, n as int)) > n / 10
}

/// Whether file bytes look binary (see `looks_binary`); such files are
/// left out of a content search.
pub fn is_binary_sample(bytes: &Vec<u8>) -> (b: bool)
    ensures
        b == looks_binary(bytes@),
{
    let n: usize = if bytes.len() < 512 { bytes.len() } else { 512 };
    let mut zeros: usize = 0;
    let mut i: usize = 0;
    while i < n
        invariant
            0 <= i <= n <= bytes@.len(),
            n <= 512,
            zeros == zero_count(bytes@.subrange(0, i as int)),
            zeros <= i,
        decreases n - i,
    {
        assert(bytes@.subrange(0, i + 1).drop_last() =~= bytes@.subrange(0, i as int));
        if bytes[i] == 0 {
            zeros = zeros + 1;
        }
        i = i + 1;
    }
    zeros > n / 10
}

/// What `String::from_utf8_lossy` makes of `bytes`.
pub uninterp spec fn utf8_lossy(bytes: Seq<u8>) -> Seq<char>;

/// Decodes bytes as UTF-8 with `String::from_utf8_lossy`: each character
/// comes from one to four bytes, and each replacement character from a
/// non-empty invalid sequence, so there are no more characters than bytes.
#[verifier::external_body]
fn decode_lossy(bytes: &Vec<u8>) -> (s: String)
    ensures
        s@ == utf8_lossy(bytes@),
        s@.len() <= bytes@.len(),
{
    String::from_utf8_lossy(bytes.as_slice()).into_owned()
}

/// The rendered lines `"{id}:{line}"` of a block, for the line numbers that
/// name a line.
pub open spec fn render_nums(nums: Seq<usize>, ids: Seq<Seq<char>>, lines: Seq<Seq<char>>) -> Seq<Seq<char>>
    decreases nums.len(),
{
    if nums.len() == 0 {
        Seq::empty()
    } else {
        let rest = render_nums(nums.drop_last(), ids, lines);
        let n = nums.last();
        if 1 <= n <= lines.len() {
            rest.push(truncation::rendered(ids, lines, n - 1))
        } else {
            rest
        }
    }
}

/// The section of one file in a content search: `"{path}:"`, then its
/// blocks of rendered lines separated by `--` lines; `None` when nothing
/// matches.
pub open spec fn file_section(
    rel_path: Seq<char>,
    content: Seq<char>,
    m: spec_fn(Seq<char>) -> bool,
    empty_pattern: bool,
    ctx: nat,
    hash_mode: bool,
) -> Option<Seq<char>> {
    let blocks = search::search_spec(content, m, empty_pattern, ctx);
    let lines = text::lines_of(content);
    let ids = truncation::prefixes_spec(lines, 1, hash_mode);
    if blocks.len() == 0 {
        None
    } else {
        Some(rel_path + ":\n"@ + text::join(
            blocks.map_values(|b: Seq<usize>| text::join(render_nums(b, ids, lines), "\n"@)),
            "\n--\n"@,
        ))
    }
}

fn render_block(nums: &Vec<usize>, ids: &Vec<String>, lines: &Vec<String>) -> (r: String)
    requires
        ids@.len() == lines@.len(),
    ensures
        r@ == text::join(render_nums(nums@, text::views(ids@), text::views(lines@)), "\n"@),
{
    let ghost iv = text::views(ids@);
    let ghost lv = text::views(lines@);
    let mut out: Vec<String> = Vec::new();
    let mut k: usize = 0;
    while k < nums.len()
        invariant
            0 <= k <= nums@.len(),
            ids@.len() == lines@.len(),
            iv == text::views(ids@),
            lv == text::views(lines@),
            text::views(out@) == render_nums(nums@.subrange(0, k as int), iv, lv),
        decreases nums@.len() - k,
    {
        let n = nums[k];
        assert(nums@.subrange(0, k + 1).drop_last() =~= nums@.subrange(0, k as int));
        if n >= 1 && n - 1 < lines.len() {
            let mut line = ids[n - 1].clone();
            text::push_str(&mut line, ":");
            text::push_str(&mut line, lines[n - 1].as_str());
            let ghost before = out@;
            out.push(line);
            proof {
                reveal_strlit(":");
                assert(text::views(out@) =~= text::views(before).push(truncation::rendered(iv, lv, n - 1)));
            }
        }
        k = k + 1;
    }
    assert(nums@.subrange(0, nums@.len() as int) =~= nums@);
    text::join_strings(&out, "\n")
}

/// The section of one file in a content search (see `file_section`), for
/// its text.
pub fn render_file_matches(
    rel_path: &str,
    content: &str,
    matcher: &search::Matcher,
    context_lines: usize,
    hash_mode: bool,
) -> (r: Option<String>)
    requires
        content@.len() + context_lines < usize::MAX,
    ensures
        r matches Some(s) ==> file_section(rel_path@, content@, search::matcher_pred(matcher), search::is_empty_literal(matcher), context_lines as nat, hash_mode) == Some(s@),
        r is None ==> file_section(rel_path@, content@, search::matcher_pred(matcher), search::is_empty_literal(matcher), context_lines as nat, hash_mode) is None,
{
    let blocks = search::search_lines(content, matcher, context_lines);
    if blocks.len() == 0 {
        return None;
    }
    let lines = text::split_lines(content);
    proof {
        text::lemma_lines_len(content@);
    }
    let refs = crate::batch_edit::line_refs(&lines);
    let ids: Vec<String> = if hash_mode {
        line_hash::compute_line_hashes(&refs)
    } else {
        let mut p: Vec<String> = Vec::new();
        let mut i: usize = 0;
        while i < lines.len()
            invariant
                0 <= i <= lines@.len(),
                lines@.len() <= content@.len() + 1,
                content@.len() + context_lines < usize::MAX,
                text::views(p@) == Seq::new(i as nat, |k: int| text::dec(1 + k as nat)),
            decreases lines@.len() - i,
        {
            let d = text::dec_string(i + 1);
            let ghost before = p@;
            p.push(d);
            assert(text::views(p@) =~= text::views(before).push(d@));
            assert(text::views(p@) =~= Seq::new((i + 1) as nat, |k: int| text::dec(1 + k as nat)));
            i = i + 1;
        }
        p
    };
    let ghost lv = text::views(lines@);
    let ghost iv = truncation::prefixes_spec(lv, 1, hash_mode);
    assert(text::views(ids@) == iv);
    let ghost bv = search::block_views(blocks@);
    let mut rendered: Vec<String> = Vec::new();
    let mut b: usize = 0;
    while b < blocks.len()
        invariant
            0 <= b <= blocks@.len(),
            ids@.len() == lines@.len(),
            bv == search::block_views(blocks@),
            lv == text::views(lines@),
            iv == text::views(ids@),
            text::views(rendered@) == bv.subrange(0, b as int).map_values(
                |x: Seq<usize>| text::join(render_nums(x, iv, lv), "\n"@),
            ),
        decreases blocks@.len() - b,
    {
        let s = render_block(&blocks[b].line_numbers, &ids, &lines);
        let ghost before = rendered@;
        rendered.push(s);
        proof {
            assert(bv[b as int] == blocks@[b as int].line_numbers@);
            assert(text::views(rendered@) =~= text::views(before).push(s@));
            assert(bv.subrange(0, b + 1).map_values(|x: Seq<usize>| text::join(render_nums(x, iv, lv), "\n"@))
                =~= bv.subrange(0, b as int).map_values(|x: Seq<usize>| text::join(render_nums(x, iv, lv), "\n"@)).push(
                text::join(render_nums(bv[b as int], iv, lv), "\n"@)));
        }
        b = b + 1;
    }
    assert(bv.subrange(0, bv.len() as int) =~= bv);
    let mut out = text::owned(rel_path);
    text::push_str(&mut out, ":\n");
    let body = text::join_strings(&rendered, "\n--\n");
    text::push_str(&mut out, body.as_str());
    Some(out)
}

/// A file met by a content search: its path relative to the working
/// directory, and its bytes (`None` where it could not be read).
pub struct FileBytes {
    pub rel_path: String,
    pub bytes: Option<Vec<u8>>,
}

/// The section of one file, if it is readable, not binary and matches.
pub open spec fn entry_section(
    f: FileBytes,
    m: spec_fn(Seq<char>) -> bool,
    empty_pattern: bool,
    ctx: nat,
    hash_mode: bool,
) -> Option<Seq<char>> {
    match f.bytes {
        Some(b) => if looks_binary(b@) {
            None
        } else {
            file_section(f.rel_path@, utf8_lossy(b@), m, empty_pattern, ctx, hash_mode)
        },
        None => None,
    }
}

/// Whether the file's text stays within what the search can count to.
pub open spec fn fits(f: FileBytes, ctx: nat) -> bool {
    match f.bytes {
        Some(b) => b@.len() + ctx < usize::MAX,
        None => true,
    }
}

/// The sections of the files, in order, skipping files without one.
pub open spec fn sections(
    fs: Seq<FileBytes>,
    m: spec_fn(Seq<char>) -> bool,
    empty_pattern: bool,
    ctx: nat,
    hash_mode: bool,
) -> Seq<Seq<char>>
    decreases fs.len(),
{
    if fs.len() == 0 {
        Seq::empty()
    } else {
        let rest = sections(fs.drop_last(), m, empty_pattern, ctx, hash_mode);
        match entry_section(fs.last(), m, empty_pattern, ctx, hash_mode) {
            Some(s) => rest.push(s),
            None => rest,
        }
    }
}

/// A content search over the files (in the order given): each readable,
/// non-binary file with matches contributes its section; sections are
/// separated by a blank line.
pub fn content_listing(files: &Vec<FileBytes>, matcher: &search::Matcher, context_lines: usize, hash_mode: bool) -> (r:
    String)
    requires
        forall|i: int| 0 <= i < files@.len() ==> fits(#[trigger] files@[i], context_lines as nat),
    ensures
        r@ == text::join(
            sections(files@, search::matcher_pred(matcher), search::is_empty_literal(matcher), context_lines as nat, hash_mode),
            "\n\n"@,
        ),
{
    let ghost m = search::matcher_pred(matcher);
    let ghost e = search::is_empty_literal(matcher);
    let mut found: Vec<String> = Vec::new();
    let mut i: usize = 0;
    while i < files.len()
        invariant
            0 <= i <= files@.len(),
            m == search::matcher_pred(matcher),
            e == search::is_empty_literal(matcher),
            forall|j: int| 0 <= j < files@.len() ==> fits(#[trigger] files@[j], context_lines as nat),
            text::views(found@) == sections(files@.subrange(0, i as int), m, e, context_lines as nat, hash_mode),
        decreases files@.len() - i,
    {
        let f = &files[i];
        assert(files@.subrange(0, i + 1).drop_last() =~= files@.subrange(0, i as int));
        assert(files@.subrange(0, i + 1).last() == files@[i as int]);
        match &f.bytes {
            None => {},
            Some(b) => {
                if !is_binary_sample(b) {
                    let content = decode_lossy(b);
                    assert(fits(files@[i as int], context_lines as nat));
                    match render_file_matches(f.rel_path.as_str(), content.as_str(), matcher, context_lines, hash_mode) {
                        Some(s) => {
                            let ghost before = found@;
                            found.push(s);
                            assert(text::views(found@) =~= text::views(before).push(s@));
                        },
                        None => {},
                    }
                }
            },
        }
        i = i + 1;
    }
    assert(files@.subrange(0, files@.len() as int) =~= files@);
    text::join_strings(&found, "\n\n")
}

} // verus!

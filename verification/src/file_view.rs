//! What the file tools show: a file's lines by range, several ranges, its
//! matches, a directory's entries, several files at once, and the report
//! of a created file.
use vstd::prelude::*;
use crate::text;
use crate::order;
use crate::search;
use crate::listing;
use crate::truncation;
use crate::line_hash;

verus! {

/// Files larger than this many bytes are not shown.
pub const MAX_VIEW_BYTES: u64 = 5242880;

/// Whether a file of `size` bytes is too large to show.
pub fn too_large(size: u64) -> (b: bool)
    ensures
        b == (size > MAX_VIEW_BYTES),
{
    size > MAX_VIEW_BYTES
}

/// A file's text rendered with line ids for a view range (see
/// `truncation::format_spec`), where `numbered` holds the lines.
pub open spec fn numbered(content: Seq<char>, range: Option<(usize, i64)>, hash_mode: bool) -> Seq<char> {
    truncation::format_spec(text::lines_of(content), 1, range, hash_mode)
}

fn numbered_exec(content: &str, range: Option<(usize, i64)>, hash_mode: bool) -> (r: String)
    requires
        content@.len() < usize::MAX,
    ensures
        r@ == numbered(content@, range, hash_mode),
{
    let lines = text::split_lines(content);
    proof {
        text::lemma_lines_len(content@);
    }
    let refs = crate::batch_edit::line_refs(&lines);
    truncation::format_file_content_with_numbers(&refs, range, hash_mode)
}

/// A file's lines as the view tool shows them for a range; a rendering
/// that reports a bad start line is an error.
pub fn view_file_text(content: &str, range: Option<(usize, i64)>, hash_mode: bool) -> (r: Result<String, String>)
    requires
        content@.len() < usize::MAX,
    ensures
        ({
            let s = numbered(content@, range, hash_mode);
            if crate::glob::starts(s, "Start line"@) {
                r matches Err(e) && e@ == s
            } else {
                r matches Ok(o) && o@ == s
            }
        }),
{
    let s = numbered_exec(content, range, hash_mode);
    let sv = text::chars_of(s.as_str());
    let pre = text::chars_of("Start line");
    if crate::search::occurs_at_exec(&sv, &pre, 0) {
        Err(s)
    } else {
        Ok(s)
    }
}

/// A file's lines for several ranges, the parts separated by `--` lines;
/// with no range, the whole file.
pub open spec fn view_ranges_spec(content: Seq<char>, ranges: Seq<(usize, i64)>, hash_mode: bool) -> Seq<char> {
    if ranges.len() == 0 {
        numbered(content, None, hash_mode)
    } else {
        text::join(ranges.map_values(|r: (usize, i64)| numbered(content, Some(r), hash_mode)), "\n--\n"@)
    }
}

/// A file's lines for several ranges (see `view_ranges_spec`).
pub fn view_file_ranges(content: &str, ranges: &Vec<(usize, i64)>, hash_mode: bool) -> (r: String)
    requires
        content@.len() < usize::MAX,
    ensures
        r@ == view_ranges_spec(content@, ranges@, hash_mode),
{
    if ranges.len() == 0 {
        return numbered_exec(content, None, hash_mode);
    }
    let mut parts: Vec<String> = Vec::new();
    let mut i: usize = 0;
    while i < ranges.len()
        invariant
            0 <= i <= ranges@.len(),
            content@.len() < usize::MAX,
            text::views(parts@) == ranges@.subrange(0, i as int).map_values(
                |r: (usize, i64)| numbered(content@, Some(r), hash_mode),
            ),
        decreases ranges@.len() - i,
    {
        let p = numbered_exec(content, Some(ranges[i]), hash_mode);
        let ghost before = parts@;
        parts.push(p);
        assert(text::views(parts@) =~= text::views(before).push(p@));
        assert(ranges@.subrange(0, i + 1).map_values(|r: (usize, i64)| numbered(content@, Some(r), hash_mode))
            =~= ranges@.subrange(0, i as int).map_values(|r: (usize, i64)| numbered(content@, Some(r), hash_mode)).push(
            numbered(content@, Some(ranges@[i as int]), hash_mode),
        ));
        i = i + 1;
    }
    assert(ranges@.subrange(0, ranges@.len() as int) =~= ranges@);
    text::join_strings(&parts, "\n--\n")
}

/// The matches of one file as the view tool shows them: each block of
/// rendered lines, blocks separated by `--` lines; nothing for no match.
pub open spec fn search_view_spec(
    content: Seq<char>,
    m: spec_fn(Seq<char>) -> bool,
    empty_pattern: bool,
    ctx: nat,
    hash_mode: bool,
) -> Seq<char> {
    let blocks = search::search_spec(content, m, empty_pattern, ctx);
    let lines = text::lines_of(content);
    let ids = truncation::prefixes_spec(lines, 1, hash_mode);
    text::join(
        blocks.map_values(|b: Seq<usize>| text::join(listing::render_nums(b, ids, lines), "\n"@)),
        "\n--\n"@,
    )
}

/// The matches of one file (see `search_view_spec`).
pub fn view_file_matches(content: &str, matcher: &search::Matcher, context_lines: usize, hash_mode: bool) -> (r: String)
    requires
        content@.len() + context_lines < usize::MAX,
    ensures
        r@ == search_view_spec(
            content@,
            search::matcher_pred(matcher),
            search::is_empty_literal(matcher),
            context_lines as nat,
            hash_mode,
        ),
{
    match listing::render_file_matches("", content, matcher, context_lines, hash_mode) {
        Some(s) => {
            let cs = text::chars_of(s.as_str());
            proof {
                reveal_strlit("");
                reveal_strlit(":\n");
                let body = search_view_spec(
                    content@,
                    search::matcher_pred(matcher),
                    search::is_empty_literal(matcher),
                    context_lines as nat,
                    hash_mode,
                );
                assert(s@ == ""@ + ":\n"@ + body);
                assert(cs@.len() >= 2);
                assert(cs@.subrange(2, cs@.len() as int) =~= body);
            }
            text::string_of_range(&cs, 2, cs.len())
        },
        None => {
            proof {
                let blocks = search::search_spec(
                    content@,
                    search::matcher_pred(matcher),
                    search::is_empty_literal(matcher),
                    context_lines as nat,
                );
                assert(blocks.len() == 0);
                assert(blocks.map_values(
                    |b: Seq<usize>| text::join(
                        listing::render_nums(
                            b,
                            truncation::prefixes_spec(text::lines_of(content@), 1, hash_mode),
                            text::lines_of(content@),
                        ),
                        "\n"@,
                    ),
                ) =~= Seq::<Seq<char>>::empty());
            }
            String::new()
        },
    }
}

/// A directory entry: its name, and whether it is a directory.
pub struct DirEntry {
    pub name: String,
    pub is_dir: bool,
}

/// How an entry is shown: directories with a trailing `/`.
pub open spec fn entry_label(e: DirEntry) -> Seq<char> {
    if e.is_dir { e.name@.push('/') } else { e.name@ }
}

/// A directory's entries as shown: sorted, one per line.
pub open spec fn dir_listing_spec(entries: Seq<DirEntry>) -> Seq<char> {
    text::join(order::sorted_of(entries.map_values(|e: DirEntry| entry_label(e))), "\n"@)
}

/// A directory's entries shown sorted, one per line.
pub fn dir_listing(entries: &Vec<DirEntry>) -> (r: String)
    ensures
        r@ == dir_listing_spec(entries@),
{
    let mut labels: Vec<String> = Vec::new();
    let mut i: usize = 0;
    while i < entries.len()
        invariant
            0 <= i <= entries@.len(),
            text::views(labels@) == entries@.subrange(0, i as int).map_values(|e: DirEntry| entry_label(e)),
        decreases entries@.len() - i,
    {
        let e = &entries[i];
        let mut l = e.name.clone();
        if e.is_dir {
            text::push_char(&mut l, '/');
        }
        let ghost before = labels@;
        labels.push(l);
        assert(text::views(labels@) =~= text::views(before).push(entry_label(entries@[i as int])));
        assert(entries@.subrange(0, i + 1).map_values(|e: DirEntry| entry_label(e)) =~= entries@.subrange(
            0,
            i as int,
        ).map_values(|e: DirEntry| entry_label(e)).push(entry_label(entries@[i as int])));
        i = i + 1;
    }
    assert(entries@.subrange(0, entries@.len() as int) =~= entries@);
    let sorted = order::sort_strings(&labels);
    text::join_strings(&sorted, "\n")
}

/// What the disk said of one requested path.
pub enum FileProbe {
    Missing,
    /// A directory, with its entries where it could be read.
    Dir(Option<Vec<DirEntry>>),
    /// Neither a file nor a directory.
    NotFile,
    /// A file: its size where its metadata could be read, its bytes where
    /// they could be read, and its text where it is UTF-8 and readable.
    File { size: Option<u64>, bytes: Option<Vec<u8>>, text: Option<String> },
}

/// What is shown for one path: the text, and whether it counts as shown.
pub open spec fn probe_part(p: FileProbe, range: Option<(usize, i64)>, hash_mode: bool) -> (Seq<char>, bool) {
    match p {
        FileProbe::Missing => ("✗ File does not exist"@, false),
        FileProbe::Dir(None) => ("✗ Permission denied. Cannot read directory"@, false),
        FileProbe::Dir(Some(entries)) => (dir_listing_spec(entries@), false),
        FileProbe::NotFile => ("✗ Path is not a file"@, false),
        FileProbe::File { size, bytes, text } => match size {
            None => ("✗ Permission denied. Cannot read file"@, false),
            Some(n) => if n > MAX_VIEW_BYTES {
                ("✗ File is too large (>5MB)"@, false)
            } else if bytes matches Some(b) && listing::looks_binary(b@) {
                ("✗ Binary file skipped"@, false)
            } else {
                match text {
                    None => ("✗ Permission denied. Cannot read file"@, false),
                    Some(t) => (numbered(t@, range, hash_mode), true),
                }
            },
        },
    }
}

/// Whether the text of a probed file stays within what can be counted.
pub open spec fn probe_fits(p: FileProbe) -> bool {
    match p {
        FileProbe::File { text: Some(t), .. } => t@.len() < usize::MAX,
        _ => true,
    }
}

/// The range asked for the `i`-th path, if any.
pub open spec fn range_at(ranges: Seq<Option<(usize, i64)>>, i: int) -> Option<(usize, i64)> {
    if 0 <= i < ranges.len() { ranges[i] } else { None }
}

/// The report lines for the first `n` paths: each path, what is shown for
/// it, and a blank line.
pub open spec fn view_parts(
    paths: Seq<String>,
    ranges: Seq<Option<(usize, i64)>>,
    probes: Seq<FileProbe>,
    hash_mode: bool,
    n: nat,
) -> Seq<Seq<char>>
    decreases n,
{
    if n == 0 {
        Seq::empty()
    } else {
        let i = n - 1;
        view_parts(paths, ranges, probes, hash_mode, (n - 1) as nat) + seq![
            paths[i]@,
            probe_part(probes[i], range_at(ranges, i), hash_mode).0,
            Seq::<char>::empty(),
        ]
    }
}

/// The report of viewing several paths: the report lines without the last
/// blank one, joined by newlines.
pub open spec fn view_many_spec(
    paths: Seq<String>,
    ranges: Seq<Option<(usize, i64)>>,
    probes: Seq<FileProbe>,
    hash_mode: bool,
) -> Seq<char> {
    let parts = view_parts(paths, ranges, probes, hash_mode, paths.len());
    text::join(if parts.len() > 0 { parts.drop_last() } else { parts }, "\n"@)
}

/// Views several paths at once (see `view_many_spec`); where nothing could
/// be shown the whole report is the error. `probes` holds what the disk
/// said of each path.
pub fn view_many(
    paths: &Vec<String>,
    ranges: &Vec<Option<(usize, i64)>>,
    probes: Vec<FileProbe>,
    hash_mode: bool,
) -> (r: Result<String, String>)
    requires
        probes@.len() == paths@.len(),
        forall|i: int| 0 <= i < probes@.len() ==> probe_fits(#[trigger] probes@[i]),
    ensures
        (r is Ok) == (exists|i: int| 0 <= i < paths@.len() && (#[trigger] probe_part(
            probes@[i],
            range_at(ranges@, i),
            hash_mode,
        )).1),
        match r {
            Ok(s) => s@ == view_many_spec(paths@, ranges@, probes@, hash_mode),
            Err(s) => s@ == view_many_spec(paths@, ranges@, probes@, hash_mode),
        },
{
    let mut parts: Vec<String> = Vec::new();
    let mut shown: bool = false;
    let ghost all = probes@;
    let mut rest = probes;
    let mut i: usize = 0;
    while i < paths.len()
        invariant
            0 <= i <= paths@.len(),
            rest@.len() == paths@.len() - i,
            all.len() == paths@.len(),
            forall|k: int| 0 <= k < rest@.len() ==> rest@[k] == all[i + k],
            forall|k: int| 0 <= k < all.len() ==> probe_fits(#[trigger] all[k]),
            text::views(parts@) == view_parts(paths@, ranges@, all, hash_mode, i as nat),
            shown == (exists|k: int| 0 <= k < i && (#[trigger] probe_part(all[k], range_at(ranges@, k), hash_mode)).1),
        decreases paths@.len() - i,
    {
        let range: Option<(usize, i64)> = if i < ranges.len() { ranges[i] } else { None };
        let p = rest.remove(0);
        assert(p == all[i as int]);
        assert(probe_fits(p));
        let ghost pp = probe_part(p, range, hash_mode);
        let (text, ok): (String, bool) = match p {
            FileProbe::Missing => (text::owned("✗ File does not exist"), false),
            FileProbe::Dir(None) => (text::owned("✗ Permission denied. Cannot read directory"), false),
            FileProbe::Dir(Some(entries)) => (dir_listing(&entries), false),
            FileProbe::NotFile => (text::owned("✗ Path is not a file"), false),
            FileProbe::File { size, bytes, text } => match size {
                None => (text::owned("✗ Permission denied. Cannot read file"), false),
                Some(n) => {
                    let binary = match &bytes {
                        Some(b) => listing::is_binary_sample(b),
                        None => false,
                    };
                    if too_large(n) {
                        (text::owned("✗ File is too large (>5MB)"), false)
                    } else if binary {
                        (text::owned("✗ Binary file skipped"), false)
                    } else {
                        match text {
                            None => (text::owned("✗ Permission denied. Cannot read file"), false),
                            Some(t) => (numbered_exec(t.as_str(), range, hash_mode), true),
                        }
                    }
                },
            },
        };
        assert(text@ == pp.0 && ok == pp.1);
        let ghost before = parts@;
        parts.push(paths[i].clone());
        parts.push(text);
        parts.push(String::new());
        proof {
            assert(range == range_at(ranges@, i as int));
            assert(text::views(parts@) =~= text::views(before) + seq![paths@[i as int]@, pp.0, Seq::<char>::empty()]);
            assert forall|k: int| 0 <= k < rest@.len() implies rest@[k] == all[i + 1 + k] by {}
            if ok {
                assert(probe_part(all[i as int], range_at(ranges@, i as int), hash_mode).1);
            }
            if exists|k: int| 0 <= k < i + 1 && (#[trigger] probe_part(all[k], range_at(ranges@, k), hash_mode)).1 {
                let k = choose|k: int| 0 <= k < i + 1 && (#[trigger] probe_part(all[k], range_at(ranges@, k), hash_mode)).1;
                if k < i {
                    assert(shown);
                }
            }
        }
        shown = shown || ok;
        i = i + 1;
    }
    let ghost pv = text::views(parts@);
    if parts.len() > 0 {
        parts.pop();
        assert(text::views(parts@) =~= pv.drop_last());
    }
    let all_text = text::join_strings(&parts, "\n");
    if !shown {
        Err(all_text)
    } else {
        Ok(all_text)
    }
}

/// The report of a created file: the bytes written.
pub fn created_report(content: &str) -> (r: String)
    ensures
        r@ == "File created successfully with "@ + text::dec(crate::text_editing::byte_len(content@))
            + " bytes"@,
{
    let cs = text::chars_of(content);
    let n = crate::text_editing::byte_len_wide(&cs, cs.len());
    assert(cs@.subrange(0, cs@.len() as int) =~= cs@);
    let mut r = text::owned("File created successfully with ");
    text::push_dec_u128(&mut r, n);
    text::push_str(&mut r, " bytes");
    r
}

/// The refusal to create a file that exists.
pub fn exists_message(path: &str) -> (m: String)
    ensures
        m@ == "File already exists: "@ + path@
            + ". Do NOT retry `create` — use `str_replace` to replace specific content, `line_replace` to replace specific lines, or `insert` to add new content at a position."@,
{
    let mut m = text::owned("File already exists: ");
    text::push_str(&mut m, path);
    text::push_str(
        &mut m,
        ". Do NOT retry `create` — use `str_replace` to replace specific content, `line_replace` to replace specific lines, or `insert` to add new content at a position.",
    );
    m
}

} // verus!

//! Token estimates, truncation, and line-numbered rendering of file content.
use vstd::prelude::*;
use crate::line_hash;
use crate::text;

verus! {

/// Estimated token count of `content`: one token per started 4 bytes.
pub fn estimate_tokens(content: &str) -> (n: usize)
    ensures
        n == (vstd::utf8::encode_utf8(content@).len() + 3) / 4,
{
    let len = content.as_bytes().len();
    len / 4 + if len % 4 == 0 { 0 } else { 1 }
}

/// Index of the last `'\n'` in `s`, or -1 when there is none.
pub open spec fn last_newline(s: Seq<char>) -> int
    decreases s.len(),
{
    if s.len() == 0 {
        -1
    } else if s.last() == '\n' {
        s.len() - 1
    } else {
        last_newline(s.drop_last())
    }
}

/// `s` cut before its last newline, or `s` itself when it has none.
pub open spec fn cut_at_last_newline(s: Seq<char>) -> Seq<char> {
    if last_newline(s) >= 0 {
        s.subrange(0, last_newline(s))
    } else {
        s
    }
}

/// What `truncate_to_tokens` keeps of `content` for a budget of `max_tokens`:
/// all of it when it fits in `4 * max_tokens` bytes, else the characters of
/// its first `4 * max_tokens` bytes, cut before the last newline among them.
pub open spec fn truncate_spec(content: Seq<char>, max_tokens: nat) -> Seq<char> {
    let bytes = vstd::utf8::encode_utf8(content);
    if bytes.len() <= 4 * max_tokens {
        content
    } else {
        cut_at_last_newline(vstd::utf8::decode_utf8(bytes.subrange(0, 4 * max_tokens as int)))
    }
}

proof fn lemma_last_newline(s: Seq<char>)
    ensures
        -1 <= last_newline(s) < s.len(),
    decreases s.len(),
{
    if s.len() > 0 {
        lemma_last_newline(s.drop_last());
    }
}

/// The position `last_newline` names holds a newline and none comes after
/// it; where it names none, `s` holds no newline.
proof fn lemma_last_newline_is_last(s: Seq<char>)
    ensures
        last_newline(s) >= 0 ==> s[last_newline(s)] == '\n',
        forall|j: int| last_newline(s) < j < s.len() ==> s[j] != '\n',
    decreases s.len(),
{
    lemma_last_newline(s);
    if s.len() > 0 {
        lemma_last_newline_is_last(s.drop_last());
        lemma_last_newline(s.drop_last());
        if s.last() != '\n' {
            if last_newline(s) >= 0 {
                assert(s.drop_last()[last_newline(s)] == s[last_newline(s)]);
            }
            assert forall|j: int| last_newline(s) < j < s.len() implies s[j] != '\n' by {
                if j < s.len() - 1 {
                    assert(s.drop_last()[j] == s[j]);
                }
            }
        }
    }
}

/// When the content does not fit its budget, what is kept is the longest
/// prefix of the in-budget head (the characters of its first `4 *
/// max_tokens` bytes) that ends just before a newline: it is a prefix of the
/// head, the head holds a newline right after it, and no newline further
/// on; a head without any newline is kept whole.
pub proof fn lemma_truncation_cuts_at_last_newline(content: Seq<char>, max_tokens: nat)
    requires
        vstd::utf8::encode_utf8(content).len() > 4 * max_tokens,
    ensures
        ({
            let head = vstd::utf8::decode_utf8(vstd::utf8::encode_utf8(content).subrange(0, 4 * max_tokens as int));
            let r = truncate_spec(content, max_tokens);
            &&& r.len() <= head.len()
            &&& r == head.subrange(0, r.len() as int)
            &&& (exists|j: int| 0 <= j < head.len() && head[j] == '\n') ==> (r.len() < head.len() && head[r.len() as int]
                == '\n' && forall|j: int| r.len() < j < head.len() ==> head[j] != '\n')
            &&& !(exists|j: int| 0 <= j < head.len() && head[j] == '\n') ==> r == head
        }),
{
    let head = vstd::utf8::decode_utf8(vstd::utf8::encode_utf8(content).subrange(0, 4 * max_tokens as int));
    lemma_last_newline(head);
    lemma_last_newline_is_last(head);
    let r = truncate_spec(content, max_tokens);
    if last_newline(head) >= 0 {
        assert(r == head.subrange(0, last_newline(head)));
        assert(r.len() == last_newline(head));
        assert(r =~= head.subrange(0, r.len() as int));
    } else {
        assert(r == head);
        assert(r =~= head.subrange(0, r.len() as int));
        if exists|j: int| 0 <= j < head.len() && head[j] == '\n' {
            let j = choose|j: int| 0 <= j < head.len() && head[j] == '\n';
            assert(last_newline(head) < j);
        }
    }
}

/// Content that fits its budget is kept whole.
pub proof fn lemma_fitting_content_is_kept(content: Seq<char>, max_tokens: nat)
    requires
        vstd::utf8::encode_utf8(content).len() <= 4 * max_tokens,
    ensures
        truncate_spec(content, max_tokens) == content,
{
}

/// The lines shown after a requested range ending (exclusively) at index
/// `ei` account for every line after it, in order: each is rendered as
/// `id:line`, except that past five of them a single marker counts all but
/// the last two, which are rendered.
pub proof fn lemma_tail_accounts_for_every_line(p: Seq<Seq<char>>, lines: Seq<Seq<char>>, ei: int)
    requires
        0 <= ei <= lines.len(),
    ensures
        lines.len() - ei <= 5 ==> tail_part(p, lines, ei) == Seq::new(
            (lines.len() - ei) as nat,
            |k: int| p[ei + k] + ":"@ + lines[ei + k],
        ),
        lines.len() - ei > 5 ==> tail_part(p, lines, ei) == seq![
            "[..."@ + text::dec((lines.len() - ei - 2) as nat) + " lines more]"@,
            p[lines.len() - 2] + ":"@ + lines[lines.len() - 2],
            p[lines.len() - 1] + ":"@ + lines[lines.len() - 1],
        ],
{
    if lines.len() - ei <= 5 {
        assert(tail_part(p, lines, ei) =~= Seq::new(
            (lines.len() - ei) as nat,
            |k: int| p[ei + k] + ":"@ + lines[ei + k],
        ));
    } else {
        assert(tail_part(p, lines, ei) =~= seq![
            "[..."@ + text::dec((lines.len() - ei - 2) as nat) + " lines more]"@,
            p[lines.len() - 2] + ":"@ + lines[lines.len() - 2],
            p[lines.len() - 1] + ":"@ + lines[lines.len() - 1],
        ]);
    }
}

/// The lines shown before a requested range starting at index `si` account
/// for every line before it, in order: each is rendered as `id:line`, except
/// that past five of them only the first two are, and a single marker
/// counts all the others.
pub proof fn lemma_head_accounts_for_every_line(p: Seq<Seq<char>>, lines: Seq<Seq<char>>, si: int)
    requires
        0 <= si <= lines.len(),
    ensures
        si <= 5 ==> head_part(p, lines, si) == Seq::new(si as nat, |k: int| p[k] + ":"@ + lines[k]),
        si > 5 ==> head_part(p, lines, si) == seq![
            p[0] + ":"@ + lines[0],
            p[1] + ":"@ + lines[1],
            "[..."@ + text::dec((si - 2) as nat) + " lines more]"@,
        ],
{
    if si > 3 && si <= 5 {
        assert(head_part(p, lines, si) =~= Seq::new(si as nat, |k: int| p[k] + ":"@ + lines[k]));
    } else if si <= 3 {
        assert(head_part(p, lines, si) =~= Seq::new(si as nat, |k: int| p[k] + ":"@ + lines[k]));
    } else {
        assert(head_part(p, lines, si) =~= seq![
            p[0] + ":"@ + lines[0],
            p[1] + ":"@ + lines[1],
            "[..."@ + text::dec((si - 2) as nat) + " lines more]"@,
        ]);
    }
}

/// The prefix of `content` that fits the token budget, cut at a line end when possible.
pub fn truncate_to_tokens(content: &str, max_tokens: usize) -> (r: String)
    requires
        max_tokens * 4 <= usize::MAX,
        vstd::utf8::encode_utf8(content@).len() > max_tokens * 4 ==> vstd::utf8::is_char_boundary(
            vstd::utf8::encode_utf8(content@),
            max_tokens * 4,
        ),
    ensures
        r@ == truncate_spec(content@, max_tokens as nat),
{
    let max_chars = max_tokens * 4;
    if content.as_bytes().len() <= max_chars {
        return text::owned(content);
    }
    let (head, _) = content.split_at(max_chars);
    proof {
        vstd::utf8::encode_utf8_decode_utf8(head@);
        assert(vstd::utf8::encode_utf8(head@) == vstd::utf8::encode_utf8(content@).subrange(0, max_chars as int));
    }
    let hv = text::chars_of(head);
    let mut i = hv.len();
    assert(hv@.subrange(0, i as int) == hv@);
    assert(vstd::utf8::decode_utf8(vstd::utf8::encode_utf8(content@).subrange(0, max_chars as int)) == hv@);
    while i > 0
        invariant
            0 <= i <= hv@.len(),
            last_newline(hv@) == last_newline(hv@.subrange(0, i as int)),
            vstd::utf8::decode_utf8(vstd::utf8::encode_utf8(content@).subrange(0, max_chars as int)) == hv@,
            vstd::utf8::encode_utf8(content@).len() > max_chars,
            max_chars == max_tokens * 4,
        decreases i,
    {
        if hv[i - 1] == '\n' {
            proof {
                assert(hv@.subrange(0, i as int).last() == '\n');
                assert(last_newline(hv@.subrange(0, i as int)) == i - 1);
            }
            return text::string_of_range(&hv, 0, i - 1);
        }
        proof {
            assert(hv@.subrange(0, i as int).drop_last() == hv@.subrange(0, i - 1));
        }
        i = i - 1;
    }
    proof {
        assert(hv@.subrange(0, 0) =~= Seq::<char>::empty());
        assert(vstd::utf8::decode_utf8(vstd::utf8::encode_utf8(content@).subrange(0, max_chars as int)) == hv@);
    }
    text::string_of(&hv)
}

/// The warning appended to content that had to be truncated.
pub open spec fn truncation_notice(token_count: nat, max_tokens: nat) -> Seq<char> {
    "\n\n⚠️ **MCP RESPONSE TRUNCATED** - Original: "@ + text::dec(token_count) + " tokens estimated, max "@
        + text::dec(max_tokens)
        + " allowed. Use more specific commands to reduce output size]"@
}

/// `content` unchanged when its estimate fits `max_tokens`, else truncated
/// with a notice naming the estimate and the budget.
pub fn truncate_content_smart(content: &str, max_tokens: usize) -> (r: String)
    requires
        max_tokens * 4 <= usize::MAX,
        vstd::utf8::encode_utf8(content@).len() > max_tokens * 4 ==> vstd::utf8::is_char_boundary(
            vstd::utf8::encode_utf8(content@),
            max_tokens * 4,
        ),
    ensures
        ({
            let tokens = (vstd::utf8::encode_utf8(content@).len() + 3) / 4;
            r@ == if tokens <= max_tokens {
                content@
            } else {
                truncate_spec(content@, max_tokens as nat) + truncation_notice(tokens as nat, max_tokens as nat)
            }
        }),
{
    let token_count = estimate_tokens(content);
    if token_count <= max_tokens {
        return text::owned(content);
    }
    let mut r = truncate_to_tokens(content, max_tokens);
    text::push_str(&mut r, "\n\n⚠️ **MCP RESPONSE TRUNCATED** - Original: ");
    text::push_dec(&mut r, token_count);
    text::push_str(&mut r, " tokens estimated, max ");
    text::push_dec(&mut r, max_tokens);
    text::push_str(&mut r, " allowed. Use more specific commands to reduce output size]");
    r
}

/// The response, truncated to `max_tokens` (0 means unlimited), and whether
/// truncation happened.
pub fn truncate_mcp_response_global(content: &str, max_tokens: usize) -> (r: (String, bool))
    requires
        max_tokens * 4 <= usize::MAX,
        vstd::utf8::encode_utf8(content@).len() > max_tokens * 4 ==> vstd::utf8::is_char_boundary(
            vstd::utf8::encode_utf8(content@),
            max_tokens * 4,
        ),
    ensures
        ({
            let tokens = (vstd::utf8::encode_utf8(content@).len() + 3) / 4;
            if max_tokens == 0 || tokens <= max_tokens {
                r.0@ == content@ && !r.1
            } else {
                r.0@ == truncate_spec(content@, max_tokens as nat) + truncation_notice(
                    tokens as nat,
                    max_tokens as nat,
                ) && r.1
            }
        }),
{
    if max_tokens == 0 {
        return (text::owned(content), false);
    }
    let token_count = estimate_tokens(content);
    if token_count <= max_tokens {
        return (text::owned(content), false);
    }
    (truncate_content_smart(content, max_tokens), true)
}

/// `head` lines kept as they are, then a marker line counting the rest,
/// when there are more than `max_lines` (0 means unlimited).
pub open spec fn head_truncation_spec(lines: Seq<Seq<char>>, max_lines: nat) -> (Seq<Seq<char>>, Option<Seq<char>>) {
    if max_lines > 0 && lines.len() > max_lines {
        (
            lines.subrange(0, max_lines - 1).push(
                "["@ + text::dec((lines.len() - (max_lines - 1)) as nat)
                    + " lines truncated - use more specific patterns or increase max_lines]"@,
            ),
            Some(
                "Output truncated: showing "@ + text::dec(max_lines) + " of "@ + text::dec(lines.len())
                    + " total lines"@,
            ),
        )
    } else {
        (lines, None)
    }
}

/// Keeps at most `max_lines` lines (0 means unlimited); when lines are cut
/// the last kept slot reports how many were dropped, plus an info note.
pub fn apply_head_truncation(lines: &[String], max_lines: usize) -> (r: (Vec<String>, Option<String>))
    ensures
        text::views(r.0@) == head_truncation_spec(text::views(lines@), max_lines as nat).0,
        (r.1 is Some) == (head_truncation_spec(text::views(lines@), max_lines as nat).1 is Some),
        r.1 matches Some(info) ==> info@ == head_truncation_spec(text::views(lines@), max_lines as nat).1->0,
{
    let n = lines.len();
    if max_lines > 0 && n > max_lines {
        let mut truncated: Vec<String> = Vec::new();
        let mut i: usize = 0;
        while i < max_lines - 1
            invariant
                0 <= i <= max_lines - 1,
                max_lines < n == lines@.len(),
                text::views(truncated@) == text::views(lines@).subrange(0, i as int),
            decreases max_lines - 1 - i,
        {
            let ghost old_t = truncated@;
            truncated.push(text::owned(lines[i].as_str()));
            proof {
                assert(text::views(truncated@) =~= text::views(old_t).push(lines@[i as int]@));
                assert(text::views(lines@).subrange(0, i + 1) =~= text::views(lines@).subrange(0, i as int).push(lines@[i as int]@));
            }
            i = i + 1;
        }
        let mut marker = text::owned("[");
        text::push_dec(&mut marker, n - (max_lines - 1));
        text::push_str(&mut marker, " lines truncated - use more specific patterns or increase max_lines]");
        let ghost old_t = truncated@;
        truncated.push(marker);
        proof {
            assert(text::views(truncated@) =~= text::views(old_t).push(marker@));
        }
        let mut info = text::owned("Output truncated: showing ");
        text::push_dec(&mut info, max_lines);
        text::push_str(&mut info, " of ");
        text::push_dec(&mut info, n);
        text::push_str(&mut info, " total lines");
        (truncated, Some(info))
    } else {
        let mut all: Vec<String> = Vec::new();
        let mut i: usize = 0;
        while i < n
            invariant
                0 <= i <= n == lines@.len(),
                text::views(all@) == text::views(lines@).subrange(0, i as int),
            decreases n - i,
        {
            let ghost old_t = all@;
            all.push(text::owned(lines[i].as_str()));
            proof {
                assert(text::views(all@) =~= text::views(old_t).push(lines@[i as int]@));
                assert(text::views(lines@).subrange(0, i + 1) =~= text::views(lines@).subrange(0, i as int).push(lines@[i as int]@));
            }
            i = i + 1;
        }
        assert(text::views(lines@).subrange(0, n as int) =~= text::views(lines@));
        (all, None)
    }
}

/// Decimal rendering of a signed value.
pub open spec fn idec(v: int) -> Seq<char> {
    if v < 0 {
        "-"@ + text::dec((-v) as nat)
    } else {
        text::dec(v as nat)
    }
}

/// Line identifiers: hashes in hash mode, else numbers counting from `start`.
pub open spec fn prefixes_spec(lines: Seq<Seq<char>>, start: nat, hash_mode: bool) -> Seq<Seq<char>> {
    if hash_mode {
        line_hash::line_hashes(lines)
    } else {
        Seq::new(lines.len(), |i: int| text::dec(start + i as nat))
    }
}

/// `"{prefix}:{line}"` for line `i`.
pub open spec fn rendered(p: Seq<Seq<char>>, lines: Seq<Seq<char>>, i: int) -> Seq<char> {
    p[i] + ":"@ + lines[i]
}

/// The rendered lines `a..b`.
pub open spec fn render_range(p: Seq<Seq<char>>, lines: Seq<Seq<char>>, a: int, b: int) -> Seq<Seq<char>> {
    Seq::new((b - a) as nat, |k: int| rendered(p, lines, a + k))
}

/// The marker standing for `n` omitted lines.
pub open spec fn more_marker(n: nat) -> Seq<char> {
    "[..."@ + text::dec(n) + " lines more]"@
}

/// 0-based first index of a view range starting at line `start` (0 and 1 both mean the first line).
pub open spec fn range_start_idx(start: nat) -> int {
    if start == 0 { 0 } else { start - 1 }
}

/// 0-based end (exclusive) of a view range ending at `end` (-1 means the last line).
pub open spec fn range_end_idx(end: i64, len: nat) -> int {
    if end == -1 {
        len as int
    } else if (end as usize) as int <= len {
        (end as usize) as int
    } else {
        len as int
    }
}

/// The lines shown before the requested range: all of them when the range
/// starts within the first four lines, else the first two plus either a
/// marker (more than five hidden) or the remaining ones.
pub open spec fn head_part(p: Seq<Seq<char>>, lines: Seq<Seq<char>>, si: int) -> Seq<Seq<char>> {
    if si > 3 {
        render_range(p, lines, 0, 2) + if si > 5 {
            seq![more_marker((si - 2) as nat)]
        } else {
            render_range(p, lines, 2, si)
        }
    } else {
        render_range(p, lines, 0, si)
    }
}

/// The lines shown after the requested range: all of them when at most five
/// remain, else a marker and the last two.
pub open spec fn tail_part(p: Seq<Seq<char>>, lines: Seq<Seq<char>>, ei: int) -> Seq<Seq<char>> {
    let rem = lines.len() - ei;
    if rem > 5 {
        seq![more_marker((rem - 2) as nat)] + render_range(p, lines, lines.len() - 2, lines.len() as int)
    } else {
        render_range(p, lines, ei, lines.len() as int)
    }
}

/// What `format_content_with_line_numbers` returns.
pub open spec fn format_spec(
    lines: Seq<Seq<char>>,
    start: nat,
    view_range: Option<(usize, i64)>,
    hash_mode: bool,
) -> Seq<char> {
    let p = prefixes_spec(lines, start, hash_mode);
    match view_range {
        None => text::join(render_range(p, lines, 0, lines.len() as int), "\n"@),
        Some((s, e)) => {
            let si = range_start_idx(s as nat);
            let ei = range_end_idx(e, lines.len());
            if si >= lines.len() {
                "Start line "@ + text::dec(s as nat) + " exceeds content length ("@ + text::dec(lines.len())
                    + " lines)"@
            } else if si > ei {
                "Start line "@ + text::dec(s as nat) + " must be less than or equal to end line "@ + idec(
                    e as int,
                )
            } else {
                text::join(
                    head_part(p, lines, si) + render_range(p, lines, si, ei) + tail_part(p, lines, ei),
                    "\n"@,
                )
            }
        },
    }
}

fn render(prefix: &String, line: &str) -> (r: String)
    ensures
        r@ == prefix@ + ":"@ + line@,
{
    let mut r = text::owned(prefix.as_str());
    text::push_str(&mut r, ":");
    text::push_str(&mut r, line);
    r
}

fn push_rendered(out: &mut Vec<String>, p: &Vec<String>, lines: &[&str], a: usize, b: usize)
    requires
        a <= b <= lines@.len(),
        p@.len() >= lines@.len(),
    ensures
        text::views(final(out)@) == text::views(old(out)@) + render_range(
            text::views(p@),
            line_hash::str_views(lines@),
            a as int,
            b as int,
        ),
{
    let ghost pv = text::views(p@);
    let ghost lv = line_hash::str_views(lines@);
    let mut i = a;
    while i < b
        invariant
            a <= i <= b <= lines@.len(),
            p@.len() >= lines@.len(),
            pv == text::views(p@),
            lv == line_hash::str_views(lines@),
            text::views(out@) == text::views(old(out)@) + render_range(pv, lv, a as int, i as int),
        decreases b - i,
    {
        let r = render(&p[i], lines[i]);
        let ghost before = out@;
        out.push(r);
        proof {
            assert(text::views(out@) =~= text::views(before).push(r@));
            assert(r@ == rendered(pv, lv, i as int));
            assert(render_range(pv, lv, a as int, i + 1) =~= render_range(pv, lv, a as int, i as int).push(
                rendered(pv, lv, i as int),
            ));
        }
        i = i + 1;
    }
}

fn more_line(n: usize) -> (r: String)
    ensures
        r@ == more_marker(n as nat),
{
    let mut r = text::owned("[...");
    text::push_dec(&mut r, n);
    text::push_str(&mut r, " lines more]");
    r
}

fn compute_prefixes(lines: &[&str], start: usize, hash_mode: bool) -> (p: Vec<String>)
    requires
        lines@.len() < usize::MAX,
        start + lines@.len() <= usize::MAX,
    ensures
        text::views(p@) == prefixes_spec(line_hash::str_views(lines@), start as nat, hash_mode),
{
    if hash_mode {
        line_hash::compute_line_hashes(lines)
    } else {
        let mut p: Vec<String> = Vec::new();
        let mut i: usize = 0;
        while i < lines.len()
            invariant
                0 <= i <= lines@.len(),
                start + lines@.len() <= usize::MAX,
                text::views(p@) == Seq::new(i as nat, |k: int| text::dec(start as nat + k as nat)),
            decreases lines@.len() - i,
        {
            let d = text::dec_string(start + i);
            let ghost before = p@;
            p.push(d);
            proof {
                assert(text::views(p@) =~= text::views(before).push(d@));
                assert(text::views(p@) =~= Seq::new((i + 1) as nat, |k: int| text::dec(start as nat + k as nat)));
            }
            i = i + 1;
        }
        p
    }
}

/// Content lines rendered as `"{id}:{line}"`, optionally focused on a view
/// range `(start, end)` (1-based, inclusive; `end == -1` means the last line):
/// lines around the range are kept when few, else summarised by markers.
pub fn format_content_with_line_numbers(
    lines: &[&str],
    start_line_number: usize,
    view_range: Option<(usize, i64)>,
    hash_mode: bool,
) -> (r: String)
    requires
        lines@.len() < usize::MAX,
        start_line_number + lines@.len() <= usize::MAX,
    ensures
        r@ == format_spec(line_hash::str_views(lines@), start_line_number as nat, view_range, hash_mode),
{
    let ghost lv = line_hash::str_views(lines@);
    let p = compute_prefixes(lines, start_line_number, hash_mode);
    let ghost pv = text::views(p@);
    assert(pv.len() == p@.len());
    assert(p@.len() == lines@.len());
    let n = lines.len();
    match view_range {
        None => {
            let mut out: Vec<String> = Vec::new();
            push_rendered(&mut out, &p, lines, 0, n);
            assert(text::views(out@) =~= render_range(pv, lv, 0, n as int));
            text::join_strings(&out, "\n")
        },
        Some((start, end)) => {
            let start_idx = if start == 0 { 0 } else { start - 1 };
            let end_idx: usize = if end == -1 {
                n
            } else if (end as usize) <= n {
                end as usize
            } else {
                n
            };
            if start_idx >= n {
                let mut r = text::owned("Start line ");
                text::push_dec(&mut r, start);
                text::push_str(&mut r, " exceeds content length (");
                text::push_dec(&mut r, n);
                text::push_str(&mut r, " lines)");
                return r;
            }
            if start_idx > end_idx {
                let mut r = text::owned("Start line ");
                text::push_dec(&mut r, start);
                text::push_str(&mut r, " must be less than or equal to end line ");
                let ghost before = r@;
                if end < 0 {
                    text::push_str(&mut r, "-");
                    let mag = (0 - (end as i128)) as u64;
                    assert(mag as int == -(end as int));
                    text::push_dec_u64(&mut r, mag);
                    assert(r@ =~= before + idec(end as int));
                } else {
                    text::push_dec_u64(&mut r, end as u64);
                    assert(r@ =~= before + idec(end as int));
                }
                return r;
            }
            let mut out: Vec<String> = Vec::new();
            if start_idx > 3 {
                push_rendered(&mut out, &p, lines, 0, 2);
                if start_idx > 5 {
                    let m = more_line(start_idx - 2);
                    out.push(m);
                } else {
                    push_rendered(&mut out, &p, lines, 2, start_idx);
                }
            } else {
                push_rendered(&mut out, &p, lines, 0, start_idx);
            }
            let ghost after_head = text::views(out@);
            assert(after_head =~= head_part(pv, lv, start_idx as int));
            push_rendered(&mut out, &p, lines, start_idx, end_idx);
            let ghost after_body = text::views(out@);
            let remaining = n - end_idx;
            if remaining > 5 {
                let m = more_line(remaining - 2);
                out.push(m);
                push_rendered(&mut out, &p, lines, n - 2, n);
            } else {
                push_rendered(&mut out, &p, lines, end_idx, n);
            }
            assert(text::views(out@) =~= head_part(pv, lv, start_idx as int) + render_range(
                pv,
                lv,
                start_idx as int,
                end_idx as int,
            ) + tail_part(pv, lv, end_idx as int));
            text::join_strings(&out, "\n")
        },
    }
}

/// What `format_extracted_content_smart` returns.
pub open spec fn extracted_spec(
    lines: Seq<Seq<char>>,
    start: nat,
    max_display_lines: Option<usize>,
    hashes: Option<Seq<Seq<char>>>,
    hash_mode: bool,
) -> Seq<char> {
    let p = match hashes {
        Some(h) => h,
        None => prefixes_spec(lines, start, hash_mode),
    };
    let max = match max_display_lines {
        Some(m) => m as int,
        None => 50,
    };
    if lines.len() <= max {
        text::join(render_range(p, lines, 0, lines.len() as int), "\n"@)
    } else {
        let first = (max * 2) / 3;
        let last = max - first - 1;
        text::join(
            render_range(p, lines, 0, first) + seq![more_marker((lines.len() - first - last) as nat)]
                + render_range(p, lines, lines.len() - last, lines.len() as int),
            "\n"@,
        )
    }
}

/// Extracted lines rendered as `"{id}:{line}"`; past `max_display_lines`
/// (50 by default) only the first two thirds and the tail are shown, with a
/// marker for the lines in between. `hashes`, when given, are the identifiers.
pub fn format_extracted_content_smart(
    lines: &[&str],
    start_line: usize,
    max_display_lines: Option<usize>,
    hashes: Option<&[String]>,
    hash_mode: bool,
) -> (r: String)
    requires
        lines@.len() < usize::MAX,
        start_line + lines@.len() <= usize::MAX,
        hashes matches Some(h) ==> h@.len() >= lines@.len(),
        max_display_lines matches Some(m) ==> (lines@.len() > m ==> m >= 1),
        max_display_lines matches Some(m) ==> m * 2 <= usize::MAX,
    ensures
        r@ == extracted_spec(
            line_hash::str_views(lines@),
            start_line as nat,
            max_display_lines,
            match hashes {
                Some(h) => Some(text::views(h@)),
                None => None,
            },
            hash_mode,
        ),
{
    let ghost lv = line_hash::str_views(lines@);
    let p: Vec<String> = match hashes {
        Some(h) => {
            let mut v: Vec<String> = Vec::new();
            let mut i: usize = 0;
            while i < h.len()
                invariant
                    0 <= i <= h@.len(),
                    text::views(v@) == text::views(h@).subrange(0, i as int),
                decreases h@.len() - i,
            {
                let ghost before = v@;
                v.push(text::owned(h[i].as_str()));
                proof {
                    assert(text::views(v@) =~= text::views(before).push(h@[i as int]@));
                    assert(text::views(h@).subrange(0, i + 1) =~= text::views(h@).subrange(0, i as int).push(h@[i as int]@));
                }
                i = i + 1;
            }
            assert(text::views(h@).subrange(0, i as int) =~= text::views(h@));
            v
        },
        None => compute_prefixes(lines, start_line, hash_mode),
    };
    let ghost pv = text::views(p@);
    assert(pv.len() == p@.len());
    let n = lines.len();
    let max_lines: usize = match max_display_lines {
        Some(m) => m,
        None => 50,
    };
    let mut out: Vec<String> = Vec::new();
    if n <= max_lines {
        push_rendered(&mut out, &p, lines, 0, n);
        assert(text::views(out@) =~= render_range(pv, lv, 0, n as int));
    } else {
        let show_first = (max_lines * 2) / 3;
        let show_last = max_lines - show_first - 1;
        push_rendered(&mut out, &p, lines, 0, show_first);
        let hidden = n - show_first - show_last;
        let m = more_line(hidden);
        out.push(m);
        push_rendered(&mut out, &p, lines, n - show_last, n);
        assert(text::views(out@) =~= render_range(pv, lv, 0, show_first as int) + seq![more_marker(hidden as nat)]
            + render_range(pv, lv, n - show_last, n as int));
    }
    text::join_strings(&out, "\n")
}

/// A file's lines rendered with numbers from 1 (see `format_content_with_line_numbers`).
pub fn format_file_content_with_numbers(lines: &[&str], line_range: Option<(usize, i64)>, hash_mode: bool) -> (r: String)
    requires
        lines@.len() < usize::MAX,
    ensures
        r@ == format_spec(line_hash::str_views(lines@), 1, line_range, hash_mode),
{
    format_content_with_line_numbers(lines, 1, line_range, hash_mode)
}

} // verus!

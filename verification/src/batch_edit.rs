//! Batch line edits: conflict and duplicate checks, application of the
//! operations to the file's lines, and the diff report.
//!
//! A file's lines are `text::lines_of(content)`; line numbers are 1-based.
//! In hash mode a line is named by its identifier (`line_hash::line_hashes`),
//! otherwise by its number.
use vstd::prelude::*;
use crate::text;
use crate::text_editing;
use crate::text_editing::{LineRange, OperationType, UnresolvedLineRange, UnresolvedSpec};

verus! {

/// One resolved operation of a batch.
pub struct BatchOperation {
    pub operation_type: OperationType,
    pub line_range: LineRange,
    pub content: String,
    pub operation_index: usize,
}

/// An operation by value, for specifications.
pub struct OpView {
    pub operation_type: OperationType,
    pub line_range: LineRange,
    pub content: Seq<char>,
    pub operation_index: nat,
}

impl View for BatchOperation {
    type V = OpView;

    open spec fn view(&self) -> OpView {
        OpView {
            operation_type: self.operation_type,
            line_range: self.line_range,
            content: self.content@,
            operation_index: self.operation_index as nat,
        }
    }
}

/// The operations of a batch by value.
pub open spec fn op_views(ops: Seq<BatchOperation>) -> Seq<OpView> {
    ops.map_values(|o: BatchOperation| o@)
}

/// The start and end of the range a replace covers.
pub open spec fn rstart(op: OpView) -> nat {
    text_editing::replace_range_spec(op.line_range).0
}

pub open spec fn rend(op: OpView) -> nat {
    text_editing::replace_range_spec(op.line_range).1
}

/// The line an insert goes after.
pub open spec fn anchor(op: OpView) -> nat {
    text_editing::insert_anchor_spec(op.line_range)
}

/// Whether every operation lies inside a file of `len` lines, as resolution
/// leaves them: replaces cover `1 <= start <= end <= len`, inserts go after a
/// line `0 <= line <= len` given by a single number.
pub open spec fn ops_resolved(ops: Seq<OpView>, len: nat) -> bool {
    forall|k: int| 0 <= k < ops.len() ==> #[trigger] op_resolved(ops[k], len)
}

pub open spec fn op_resolved(op: OpView, len: nat) -> bool {
    match op.operation_type {
        OperationType::Replace => 1 <= rstart(op) <= rend(op) <= len,
        OperationType::Insert => op.line_range is Single && anchor(op) <= len,
    }
}

// ---------------------------------------------------------------------------
// Line names
// ---------------------------------------------------------------------------

/// A line's name in messages and diffs: its identifier in hash mode, else its number.
pub open spec fn line_name(hash_mode: bool, hashes: Seq<Seq<char>>, n: int) -> Seq<char> {
    if hash_mode {
        hashes[n - 1]
    } else {
        text::dec(n as nat)
    }
}

fn push_line_name(s: &mut String, hash_mode: bool, hashes: &Vec<String>, n: usize)
    requires
        hash_mode ==> 1 <= n <= hashes@.len(),
    ensures
        final(s)@ == old(s)@ + line_name(hash_mode, text::views(hashes@), n as int),
{
    if hash_mode {
        text::push_str(s, hashes[n - 1].as_str());
    } else {
        text::push_dec(s, n);
    }
}

/// A line as named in duplicate reports: its identifier, or `line N`.
pub open spec fn line_label(hash_mode: bool, hashes: Seq<Seq<char>>, n: int) -> Seq<char> {
    if hash_mode {
        hashes[n - 1]
    } else {
        "line "@ + text::dec(n as nat)
    }
}

fn push_line_label(s: &mut String, hash_mode: bool, hashes: &Vec<String>, n: usize)
    requires
        hash_mode ==> 1 <= n <= hashes@.len(),
    ensures
        final(s)@ == old(s)@ + line_label(hash_mode, text::views(hashes@), n as int),
{
    if hash_mode {
        text::push_str(s, hashes[n - 1].as_str());
    } else {
        proof {
            reveal_strlit("line ");
        }
        text::push_str(s, "line ");
        text::push_dec(s, n);
        assert(s@ =~= old(s)@ + ("line "@ + text::dec(n as nat)));
    }
}

/// A range as named in duplicate reports: `[h1,h2]` or `[s-e]`.
pub open spec fn range_label(hash_mode: bool, hashes: Seq<Seq<char>>, s: int, e: int) -> Seq<char> {
    if hash_mode {
        "["@ + hashes[s - 1] + ","@ + hashes[e - 1] + "]"@
    } else {
        "["@ + text::dec(s as nat) + "-"@ + text::dec(e as nat) + "]"@
    }
}

fn push_range_label(s: &mut String, hash_mode: bool, hashes: &Vec<String>, a: usize, b: usize)
    requires
        hash_mode ==> 1 <= a <= hashes@.len() && 1 <= b <= hashes@.len(),
    ensures
        final(s)@ == old(s)@ + range_label(hash_mode, text::views(hashes@), a as int, b as int),
{
    text::push_str(s, "[");
    if hash_mode {
        text::push_str(s, hashes[a - 1].as_str());
        text::push_str(s, ",");
        text::push_str(s, hashes[b - 1].as_str());
    } else {
        text::push_dec(s, a);
        text::push_str(s, "-");
        text::push_dec(s, b);
    }
    text::push_str(s, "]");
    let ghost h = text::views(hashes@);
    if hash_mode {
        assert(s@ =~= old(s)@ + ("["@ + h[a - 1] + ","@ + h[b - 1] + "]"@));
    } else {
        assert(s@ =~= old(s)@ + ("["@ + text::dec(a as nat) + "-"@ + text::dec(b as nat) + "]"@));
    }
}

// ---------------------------------------------------------------------------
// Conflicts
// ---------------------------------------------------------------------------

/// Two replaces conflict when their ranges overlap, two inserts when they go
/// after the same line; an insert never conflicts with a replace.
pub open spec fn ops_conflict(a: OpView, b: OpView) -> bool {
    match (a.operation_type, b.operation_type) {
        (OperationType::Replace, OperationType::Replace) => rstart(a) <= rend(b) && rstart(b) <= rend(a),
        (OperationType::Insert, OperationType::Insert) => anchor(a) == anchor(b),
        _ => false,
    }
}

/// The first conflicting pair `(i, j)`, `i < j`, in the order `(i, j)`,
/// `(i, j + 1)`, ..., `(i + 1, i + 2)`, ... starting from `(i, j)`.
pub open spec fn conflict_from(ops: Seq<OpView>, i: int, j: int) -> Option<(int, int)>
    decreases ops.len() - i, ops.len() - j,
{
    if i < 0 || i >= ops.len() {
        None
    } else if j >= ops.len() {
        conflict_from(ops, i + 1, i + 2)
    } else if j <= i {
        None
    } else if ops_conflict(ops[i], ops[j]) {
        Some((i, j))
    } else {
        conflict_from(ops, i, j + 1)
    }
}

/// The first conflicting pair of the batch, if any.
pub open spec fn first_conflict(ops: Seq<OpView>) -> Option<(int, int)> {
    conflict_from(ops, 0, 1)
}

/// The report of the conflict between operations `i` and `j`.
pub open spec fn conflict_message(
    ops: Seq<OpView>,
    i: int,
    j: int,
    hash_mode: bool,
    hashes: Seq<Seq<char>>,
) -> Seq<char> {
    let a = ops[i];
    let b = ops[j];
    if a.operation_type == OperationType::Replace {
        "Conflicting operations: operation "@ + text::dec(a.operation_index) + " (replace ["@
            + line_name(hash_mode, hashes, rstart(a) as int) + ","@ + line_name(hash_mode, hashes, rend(a) as int)
            + "]) and "@ + text::dec(b.operation_index) + " (replace ["@ + line_name(
            hash_mode,
            hashes,
            rstart(b) as int,
        ) + ","@ + line_name(hash_mode, hashes, rend(b) as int) + "]) have overlapping ranges"@
    } else {
        "Conflicting operations: operation "@ + text::dec(a.operation_index) + " and "@ + text::dec(
            b.operation_index,
        ) + " both insert after "@ + line_name(hash_mode, hashes, anchor(a) as int)
    }
}

/// Whether the report of the first conflict can name its lines: in hash mode
/// every named line must have an identifier (two inserts at the top of the
/// file have none to name).
pub open spec fn conflict_nameable(ops: Seq<OpView>, hash_mode: bool, nhashes: nat) -> bool {
    hash_mode ==> match first_conflict(ops) {
        Some((i, j)) => if ops[i].operation_type == OperationType::Replace {
            1 <= rstart(ops[i]) && rend(ops[i]) <= nhashes && 1 <= rstart(ops[j]) && rend(ops[j]) <= nhashes
        } else {
            1 <= anchor(ops[i]) <= nhashes
        },
        None => true,
    }
}

fn conflicts(a: &BatchOperation, b: &BatchOperation) -> (r: bool)
    ensures
        r == ops_conflict(a@, b@),
{
    match (a.operation_type, b.operation_type) {
        (OperationType::Replace, OperationType::Replace) => {
            let (s1, e1) = text_editing::replace_range(&a.line_range);
            let (s2, e2) = text_editing::replace_range(&b.line_range);
            s1 <= e2 && s2 <= e1
        },
        (OperationType::Insert, OperationType::Insert) => {
            text_editing::insert_anchor(&a.line_range) == text_editing::insert_anchor(&b.line_range)
        },
        _ => false,
    }
}

/// The first conflicting pair of operations, if any (see `first_conflict`).
pub fn find_conflict(ops: &Vec<BatchOperation>) -> (r: Option<(usize, usize)>)
    ensures
        r is None <==> first_conflict(op_views(ops@)) is None,
        r matches Some((i, j)) ==> first_conflict(op_views(ops@)) == Some((i as int, j as int)) && i < j < ops@.len()
            && ops_conflict(op_views(ops@)[i as int], op_views(ops@)[j as int]),
{
    let n = ops.len();
    let mut i: usize = 0;
    while i < n
        invariant
            n == ops@.len(),
            0 <= i <= n,
            first_conflict(op_views(ops@)) == conflict_from(op_views(ops@), i as int, i + 1),
        decreases n - i,
    {
        let mut j: usize = i + 1;
        while j < n
            invariant
                n == ops@.len(),
                0 <= i < n,
                i + 1 <= j <= n,
                first_conflict(op_views(ops@)) == conflict_from(op_views(ops@), i as int, j as int),
            decreases n - j,
        {
            if conflicts(&ops[i], &ops[j]) {
                return Some((i, j));
            }
            j = j + 1;
        }
        i = i + 1;
    }
    None
}

/// Rejects a batch in which two operations conflict (see `ops_conflict`),
/// naming the first such pair.
pub fn detect_conflicts(operations: &Vec<BatchOperation>, hashes: &Vec<String>, use_hashes: bool) -> (r: Result<
    (),
    String,
>)
    requires
        conflict_nameable(op_views(operations@), use_hashes, hashes@.len()),
    ensures
        match first_conflict(op_views(operations@)) {
            Some((i, j)) => r matches Err(m) && m@ == conflict_message(
                op_views(operations@),
                i,
                j,
                use_hashes,
                text::views(hashes@),
            ),
            None => r is Ok,
        },
{
    match find_conflict(operations) {
        None => Ok(()),
        Some((i, j)) => {
            let a = &operations[i];
            let b = &operations[j];
            let ghost h = text::views(hashes@);
            let mut m = text::owned("Conflicting operations: operation ");
            text::push_dec(&mut m, a.operation_index);
            if a.operation_type == OperationType::Replace {
                let (s1, e1) = text_editing::replace_range(&a.line_range);
                let (s2, e2) = text_editing::replace_range(&b.line_range);
                text::push_str(&mut m, " (replace [");
                push_line_name(&mut m, use_hashes, hashes, s1);
                text::push_str(&mut m, ",");
                push_line_name(&mut m, use_hashes, hashes, e1);
                text::push_str(&mut m, "]) and ");
                text::push_dec(&mut m, b.operation_index);
                text::push_str(&mut m, " (replace [");
                push_line_name(&mut m, use_hashes, hashes, s2);
                text::push_str(&mut m, ",");
                push_line_name(&mut m, use_hashes, hashes, e2);
                text::push_str(&mut m, "]) have overlapping ranges");
            } else {
                let l1 = text_editing::insert_anchor(&a.line_range);
                text::push_str(&mut m, " and ");
                text::push_dec(&mut m, b.operation_index);
                text::push_str(&mut m, " both insert after ");
                push_line_name(&mut m, use_hashes, hashes, l1);
            }
            assert(m@ =~= conflict_message(op_views(operations@), i as int, j as int, use_hashes, h));
            Err(m)
        },
    }
}

// ---------------------------------------------------------------------------
// Duplicated lines
// ---------------------------------------------------------------------------

/// Which neighbour of the replaced range `[s, e]` the replacement `c`
/// repeats: `Some(true)` when its first line equals the line just before,
/// `Some(false)` when its last line equals the line just after; lines that
/// are structural noise never count.
pub open spec fn replace_dup_side(c: Seq<Seq<char>>, f: Seq<Seq<char>>, s: nat, e: nat) -> Option<bool> {
    if c.len() == 0 {
        None
    } else if s > 1 && c[0] == f[s - 2] && !text_editing::structural_noise_spec(f[s - 2]) {
        Some(true)
    } else if e < f.len() && c.last() == f[e as int] && !text_editing::structural_noise_spec(f[e as int]) {
        Some(false)
    } else {
        None
    }
}

/// The report of a replacement that repeats the line before (`before`) or
/// after the range `[s, e]`; `shown` is that line as `{:?}` renders it.
pub open spec fn replace_dup_message(
    before: bool,
    idx: nat,
    hash_mode: bool,
    h: Seq<Seq<char>>,
    s: nat,
    e: nat,
    shown: Seq<char>,
) -> Seq<char> {
    let n: int = if before { s - 1 } else { (e + 1) as int };
    "Duplicate line detected in operation "@ + text::dec(idx) + ": content's "@ + (if before {
        "first"@
    } else {
        "last"@
    }) + " line matches "@ + line_label(hash_mode, h, n) + " (just "@ + (if before {
        "before"@
    } else {
        "after"@
    }) + " the replacement range "@ + range_label(hash_mode, h, s as int, e as int) + "). "@ + line_label(
        hash_mode,
        h,
        n,
    ) + ": "@ + shown + ". Do NOT include surrounding unchanged lines — only provide the lines that replace "@
        + range_label(hash_mode, h, s as int, e as int) + "."@
}

/// The report `check_replace_duplicates` gives, if any.
pub open spec fn replace_dup_report(
    c: Seq<Seq<char>>,
    f: Seq<Seq<char>>,
    s: nat,
    e: nat,
    idx: nat,
    hash_mode: bool,
    h: Seq<Seq<char>>,
) -> Option<Seq<char>> {
    match replace_dup_side(c, f, s, e) {
        Some(true) => Some(replace_dup_message(true, idx, hash_mode, h, s, e, text::str_debug(f[s - 2]))),
        Some(false) => Some(replace_dup_message(false, idx, hash_mode, h, s, e, text::str_debug(f[e as int]))),
        None => None,
    }
}

/// The duplicate report for a replacement, built from the repeated line's
/// `{:?}` rendering `shown`.
pub fn replace_duplicate_message(
    before: bool,
    operation_index: usize,
    start_line: usize,
    end_line: usize,
    hashes: &Vec<String>,
    use_hashes: bool,
    shown: &str,
) -> (m: String)
    requires
        1 <= start_line <= end_line,
        end_line < usize::MAX,
        before ==> start_line >= 2,
        use_hashes ==> end_line <= hashes@.len() && (!before ==> end_line + 1 <= hashes@.len()),
    ensures
        m@ == replace_dup_message(
            before,
            operation_index as nat,
            use_hashes,
            text::views(hashes@),
            start_line as nat,
            end_line as nat,
            shown@,
        ),
{
    let n: usize = if before { start_line - 1 } else { end_line + 1 };
    let mut m = text::owned("Duplicate line detected in operation ");
    text::push_dec(&mut m, operation_index);
    text::push_str(&mut m, ": content's ");
    if before {
        text::push_str(&mut m, "first");
    } else {
        text::push_str(&mut m, "last");
    }
    text::push_str(&mut m, " line matches ");
    push_line_label(&mut m, use_hashes, hashes, n);
    text::push_str(&mut m, " (just ");
    if before {
        text::push_str(&mut m, "before");
    } else {
        text::push_str(&mut m, "after");
    }
    text::push_str(&mut m, " the replacement range ");
    push_range_label(&mut m, use_hashes, hashes, start_line, end_line);
    text::push_str(&mut m, "). ");
    push_line_label(&mut m, use_hashes, hashes, n);
    text::push_str(&mut m, ": ");
    text::push_str(&mut m, shown);
    text::push_str(&mut m, ". Do NOT include surrounding unchanged lines — only provide the lines that replace ");
    push_range_label(&mut m, use_hashes, hashes, start_line, end_line);
    text::push_str(&mut m, ".");
    let ghost h = text::views(hashes@);
    assert(m@ =~= replace_dup_message(
        before,
        operation_index as nat,
        use_hashes,
        h,
        start_line as nat,
        end_line as nat,
        shown@,
    ));
    m
}

/// Rejects a replacement of lines `[start_line, end_line]` whose first line
/// repeats the line just before the range or whose last line repeats the
/// line just after it (see `replace_dup_side`).
pub fn check_replace_duplicates(
    content_lines: &Vec<String>,
    file_lines: &Vec<String>,
    start_line: usize,
    end_line: usize,
    operation_index: usize,
    hashes: &Vec<String>,
    use_hashes: bool,
) -> (r: Result<(), String>)
    requires
        1 <= start_line <= end_line <= file_lines@.len(),
        file_lines@.len() < usize::MAX,
        use_hashes ==> hashes@.len() == file_lines@.len(),
    ensures
        match replace_dup_report(
            text::views(content_lines@),
            text::views(file_lines@),
            start_line as nat,
            end_line as nat,
            operation_index as nat,
            use_hashes,
            text::views(hashes@),
        ) {
            Some(m) => r matches Err(e) && e@ == m,
            None => r is Ok,
        },
{
    let ghost c = text::views(content_lines@);
    let ghost f = text::views(file_lines@);
    if content_lines.len() == 0 {
        return Ok(());
    }
    if start_line > 1 {
        let before = file_lines[start_line - 2].as_str();
        if text::str_eq(content_lines[0].as_str(), before) && !text_editing::is_structural_noise(before) {
            let shown = text::debug_str(before);
            let m = replace_duplicate_message(
                true,
                operation_index,
                start_line,
                end_line,
                hashes,
                use_hashes,
                shown.as_str(),
            );
            return Err(m);
        }
    }
    if end_line < file_lines.len() {
        let after = file_lines[end_line].as_str();
        let last = content_lines[content_lines.len() - 1].as_str();
        assert(c.last() == last@);
        if text::str_eq(last, after) && !text_editing::is_structural_noise(after) {
            let shown = text::debug_str(after);
            let m = replace_duplicate_message(
                false,
                operation_index,
                start_line,
                end_line,
                hashes,
                use_hashes,
                shown.as_str(),
            );
            return Err(m);
        }
    }
    Ok(())
}

/// How many lines of an insert after line `a` repeat the file: 1 when its
/// only line equals the line after `a` (not counting structural noise), `k`
/// when its first `k >= 2` lines (as many as fit) equal the `k` lines after
/// `a`, else 0.
pub open spec fn insert_dup_count(c: Seq<Seq<char>>, f: Seq<Seq<char>>, a: nat) -> nat {
    if c.len() == 0 {
        0
    } else if c.len() == 1 {
        if a < f.len() && c[0] == f[a as int] && !text_editing::structural_noise_spec(f[a as int]) {
            1
        } else {
            0
        }
    } else {
        let avail: nat = if f.len() > a { (f.len() - a) as nat } else { 0 };
        let k: nat = if c.len() < avail { c.len() } else { avail };
        if k >= 2 && c.subrange(0, k as int) == f.subrange(a as int, (a + k) as int) {
            k
        } else {
            0
        }
    }
}

/// The report of an insert after line `a` whose first `k` lines repeat the
/// file (`shown`: the repeated line's `{:?}` rendering, used when `k == 1`).
pub open spec fn insert_dup_message(
    idx: nat,
    hash_mode: bool,
    h: Seq<Seq<char>>,
    a: nat,
    k: nat,
    shown: Seq<char>,
) -> Seq<char> {
    if k == 1 {
        "Duplicate line detected in operation "@ + text::dec(idx) + ": inserting after "@ + line_label(
            hash_mode,
            h,
            a as int,
        ) + " would duplicate "@ + line_label(hash_mode, h, (a + 1) as int) + " which already reads "@ + shown
            + ". Do NOT re-insert content that already exists in the file."@
    } else {
        "Duplicate block detected in operation "@ + text::dec(idx) + ": the "@ + text::dec(k)
            + " inserted lines starting after "@ + line_label(hash_mode, h, a as int) + " already exist verbatim at "@
            + line_label(hash_mode, h, (a + 1) as int) + "-"@ + line_label(hash_mode, h, (a + k) as int)
            + ". Do NOT re-insert content that already exists in the file."@
    }
}

/// The duplicate report for an insert, built from the repeated line's `{:?}`
/// rendering `shown` (used for a single repeated line).
pub fn insert_duplicate_message(
    operation_index: usize,
    insert_after: usize,
    count: usize,
    hashes: &Vec<String>,
    use_hashes: bool,
    shown: &str,
) -> (m: String)
    requires
        count >= 1,
        insert_after + count < usize::MAX,
        use_hashes ==> 1 <= insert_after && insert_after + count <= hashes@.len(),
    ensures
        m@ == insert_dup_message(
            operation_index as nat,
            use_hashes,
            text::views(hashes@),
            insert_after as nat,
            count as nat,
            shown@,
        ),
{
    let ghost h = text::views(hashes@);
    if count == 1 {
        let mut m = text::owned("Duplicate line detected in operation ");
        text::push_dec(&mut m, operation_index);
        text::push_str(&mut m, ": inserting after ");
        push_line_label(&mut m, use_hashes, hashes, insert_after);
        text::push_str(&mut m, " would duplicate ");
        push_line_label(&mut m, use_hashes, hashes, insert_after + 1);
        text::push_str(&mut m, " which already reads ");
        text::push_str(&mut m, shown);
        text::push_str(&mut m, ". Do NOT re-insert content that already exists in the file.");
        assert(m@ =~= insert_dup_message(
            operation_index as nat,
            use_hashes,
            h,
            insert_after as nat,
            count as nat,
            shown@,
        ));
        m
    } else {
        let mut m = text::owned("Duplicate block detected in operation ");
        text::push_dec(&mut m, operation_index);
        text::push_str(&mut m, ": the ");
        text::push_dec(&mut m, count);
        text::push_str(&mut m, " inserted lines starting after ");
        push_line_label(&mut m, use_hashes, hashes, insert_after);
        text::push_str(&mut m, " already exist verbatim at ");
        push_line_label(&mut m, use_hashes, hashes, insert_after + 1);
        text::push_str(&mut m, "-");
        push_line_label(&mut m, use_hashes, hashes, insert_after + count);
        text::push_str(&mut m, ". Do NOT re-insert content that already exists in the file.");
        assert(m@ =~= insert_dup_message(
            operation_index as nat,
            use_hashes,
            h,
            insert_after as nat,
            count as nat,
            shown@,
        ));
        m
    }
}

/// The report `check_insert_duplicates` gives, if any.
pub open spec fn insert_dup_report(
    c: Seq<Seq<char>>,
    f: Seq<Seq<char>>,
    a: nat,
    idx: nat,
    hash_mode: bool,
    h: Seq<Seq<char>>,
) -> Option<Seq<char>> {
    let k = insert_dup_count(c, f, a);
    if k == 0 {
        None
    } else {
        Some(insert_dup_message(idx, hash_mode, h, a, k, text::str_debug(f[a as int])))
    }
}

fn prefix_repeats(c: &Vec<String>, f: &Vec<String>, a: usize, k: usize) -> (r: bool)
    requires
        k <= c@.len(),
        a + k <= f@.len(),
    ensures
        r == (text::views(c@).subrange(0, k as int) == text::views(f@).subrange(a as int, a + k)),
{
    let ghost cv = text::views(c@);
    let ghost fv = text::views(f@);
    let mut i: usize = 0;
    while i < k
        invariant
            k <= c@.len(),
            a + k <= f@.len(),
            a + k <= f.len(),
            0 <= i <= k,
            cv == text::views(c@),
            fv == text::views(f@),
            forall|j: int| 0 <= j < i ==> cv[j] == fv[a + j],
        decreases k - i,
    {
        if !text::str_eq(c[i].as_str(), f[a + i].as_str()) {
            assert(cv.subrange(0, k as int)[i as int] != fv.subrange(a as int, a + k)[i as int]);
            return false;
        }
        i = i + 1;
    }
    assert(cv.subrange(0, k as int) =~= fv.subrange(a as int, a + k));
    true
}

/// Rejects an insert after line `insert_after` that repeats the lines
/// already there (see `insert_dup_count`).
pub fn check_insert_duplicates(
    content_lines: &Vec<String>,
    file_lines: &Vec<String>,
    insert_after: usize,
    operation_index: usize,
    hashes: &Vec<String>,
    use_hashes: bool,
) -> (r: Result<(), String>)
    requires
        insert_after <= file_lines@.len() < usize::MAX,
        use_hashes ==> hashes@.len() == file_lines@.len(),
        use_hashes && insert_dup_count(text::views(content_lines@), text::views(file_lines@), insert_after as nat)
            > 0 ==> insert_after >= 1,
    ensures
        match insert_dup_report(
            text::views(content_lines@),
            text::views(file_lines@),
            insert_after as nat,
            operation_index as nat,
            use_hashes,
            text::views(hashes@),
        ) {
            Some(m) => r matches Err(e) && e@ == m,
            None => r is Ok,
        },
{
    let ghost c = text::views(content_lines@);
    let ghost f = text::views(file_lines@);
    if content_lines.len() == 0 {
        return Ok(());
    }
    if content_lines.len() == 1 {
        if insert_after < file_lines.len() {
            let after = file_lines[insert_after].as_str();
            if text::str_eq(content_lines[0].as_str(), after) && !text_editing::is_structural_noise(after) {
                let shown = text::debug_str(after);
                let m = insert_duplicate_message(operation_index, insert_after, 1, hashes, use_hashes, shown.as_str());
                return Err(m);
            }
        }
        return Ok(());
    }
    let available: usize = file_lines.len() - insert_after;
    let check_len: usize = if content_lines.len() < available { content_lines.len() } else { available };
    if check_len >= 2 && prefix_repeats(content_lines, file_lines, insert_after, check_len) {
        assert(insert_after < f.len());
        let shown = text::debug_str(file_lines[insert_after].as_str());
        let m = insert_duplicate_message(operation_index, insert_after, check_len, hashes, use_hashes, shown.as_str());
        return Err(m);
    }
    Ok(())
}

/// The duplicate report an operation draws, if any: a replace is checked
/// against its neighbours, an insert against the lines after its anchor.
pub open spec fn op_dup_report(op: OpView, f: Seq<Seq<char>>, hash_mode: bool, h: Seq<Seq<char>>) -> Option<
    Seq<char>,
> {
    let c = text::lines_of(op.content);
    match op.operation_type {
        OperationType::Replace => replace_dup_report(
            c,
            f,
            rstart(op),
            rend(op),
            op.operation_index,
            hash_mode,
            h,
        ),
        OperationType::Insert => insert_dup_report(c, f, anchor(op), op.operation_index, hash_mode, h),
    }
}

/// The first report among operations `k..`, in batch order.
pub open spec fn dup_from(ops: Seq<OpView>, f: Seq<Seq<char>>, hash_mode: bool, h: Seq<Seq<char>>, k: int) -> Option<
    Seq<char>,
>
    decreases ops.len() - k,
{
    if k < 0 || k >= ops.len() {
        None
    } else {
        match op_dup_report(ops[k], f, hash_mode, h) {
            Some(m) => Some(m),
            None => dup_from(ops, f, hash_mode, h, k + 1),
        }
    }
}

/// Whether an operation's content repeats the lines around it.
pub open spec fn op_has_dup(op: OpView, f: Seq<Seq<char>>) -> bool {
    let c = text::lines_of(op.content);
    match op.operation_type {
        OperationType::Replace => replace_dup_side(c, f, rstart(op), rend(op)) is Some,
        OperationType::Insert => insert_dup_count(c, f, anchor(op)) > 0,
    }
}

/// The first operation among `k..` whose content repeats the lines around it.
pub open spec fn first_dup(ops: Seq<OpView>, f: Seq<Seq<char>>, k: int) -> Option<int>
    decreases ops.len() - k,
{
    if k < 0 || k >= ops.len() {
        None
    } else if op_has_dup(ops[k], f) {
        Some(k)
    } else {
        first_dup(ops, f, k + 1)
    }
}

/// Whether the report of the first duplicate can name its lines: in hash
/// mode an insert at the top of the file has no line before it to name.
pub open spec fn dup_nameable(ops: Seq<OpView>, f: Seq<Seq<char>>, hash_mode: bool) -> bool {
    hash_mode ==> match first_dup(ops, f, 0) {
        Some(k) => ops[k].operation_type == OperationType::Insert ==> anchor(ops[k]) >= 1,
        None => true,
    }
}

/// Rejects the first operation of the batch whose content repeats the lines
/// around it (see `op_dup_report`).
pub fn check_duplicates(
    ops: &Vec<BatchOperation>,
    file_lines: &Vec<String>,
    hashes: &Vec<String>,
    use_hashes: bool,
) -> (r: Result<(), String>)
    requires
        ops_resolved(op_views(ops@), file_lines@.len()),
        file_lines@.len() < usize::MAX,
        use_hashes ==> hashes@.len() == file_lines@.len(),
        dup_nameable(op_views(ops@), text::views(file_lines@), use_hashes),
    ensures
        match dup_from(op_views(ops@), text::views(file_lines@), use_hashes, text::views(hashes@), 0) {
            Some(m) => r matches Err(e) && e@ == m,
            None => r is Ok,
        },
{
    let ghost f = text::views(file_lines@);
    let ghost h = text::views(hashes@);
    let mut k: usize = 0;
    while k < ops.len()
        invariant
            0 <= k <= ops@.len(),
            ops_resolved(op_views(ops@), file_lines@.len()),
            file_lines@.len() < usize::MAX,
            use_hashes ==> hashes@.len() == file_lines@.len(),
            dup_nameable(op_views(ops@), f, use_hashes),
            f == text::views(file_lines@),
            h == text::views(hashes@),
            dup_from(op_views(ops@), f, use_hashes, h, 0) == dup_from(op_views(ops@), f, use_hashes, h, k as int),
            first_dup(op_views(ops@), f, 0) == first_dup(op_views(ops@), f, k as int),
        decreases ops@.len() - k,
    {
        let op = &ops[k];
        assert(op_resolved(op_views(ops@)[k as int], file_lines@.len()));
        let content_lines = text::split_lines(op.content.as_str());
        let res = match op.operation_type {
            OperationType::Replace => {
                let (s, e) = text_editing::replace_range(&op.line_range);
                check_replace_duplicates(&content_lines, file_lines, s, e, op.operation_index, hashes, use_hashes)
            },
            OperationType::Insert => {
                let a = text_editing::insert_anchor(&op.line_range);
                check_insert_duplicates(&content_lines, file_lines, a, op.operation_index, hashes, use_hashes)
            },
        };
        match res {
            Err(e) => {
                return Err(e);
            },
            Ok(()) => {},
        }
        k = k + 1;
    }
    Ok(())
}

// ---------------------------------------------------------------------------
// Applying a batch
// ---------------------------------------------------------------------------

/// The line an operation is ordered by: the start of its range, or its line.
pub open spec fn sort_key(op: OpView) -> nat {
    text_editing::insert_anchor_spec(op.line_range)
}

/// The indices of the operations of kind `kind`, in batch order.
pub open spec fn kind_indices(ops: Seq<OpView>, kind: OperationType) -> Seq<int>
    decreases ops.len(),
{
    if ops.len() == 0 {
        Seq::<int>::empty()
    } else {
        let p = kind_indices(ops.drop_last(), kind);
        if ops.last().operation_type == kind {
            p.push(ops.len() - 1)
        } else {
            p
        }
    }
}

/// Where `x` goes in `sorted` (larger keys first): before the first element
/// with a smaller key, so that it follows every element with an equal key.
pub open spec fn desc_slot(sorted: Seq<int>, x: int, ops: Seq<OpView>) -> int
    decreases sorted.len(),
{
    if sorted.len() == 0 {
        0
    } else if sort_key(ops[sorted.last()]) >= sort_key(ops[x]) {
        sorted.len() as int
    } else {
        desc_slot(sorted.drop_last(), x, ops)
    }
}

/// `idx` ordered by key, larger keys first, equal keys in their given order:
/// what a stable sort by descending key yields.
pub open spec fn sort_desc(idx: Seq<int>, ops: Seq<OpView>) -> Seq<int>
    decreases idx.len(),
{
    if idx.len() == 0 {
        idx
    } else {
        let prev = sort_desc(idx.drop_last(), ops);
        prev.insert(desc_slot(prev, idx.last(), ops), idx.last())
    }
}

/// `l` with lines `[a, b)` replaced by `c`.
pub open spec fn splice(l: Seq<Seq<char>>, a: int, b: int, c: Seq<Seq<char>>) -> Seq<Seq<char>> {
    l.subrange(0, a) + c + l.subrange(b, l.len() as int)
}

/// The error a replace draws in a file of `len` lines, if any.
pub open spec fn replace_error(op: OpView, len: nat) -> Option<Seq<char>> {
    let s = rstart(op);
    let e = rend(op);
    if s == 0 || e == 0 {
        Some("Line numbers must be 1-indexed (start from 1)"@)
    } else if s > len || e > len {
        Some("Line range ["@ + text::dec(s) + ", "@ + text::dec(e) + "] is beyond file length "@ + text::dec(len))
    } else if s > e {
        Some("Invalid line range: start "@ + text::dec(s) + " > end "@ + text::dec(e))
    } else {
        None
    }
}

/// The error an insert draws in a file of `len` lines, if any.
pub open spec fn insert_error(op: OpView, len: nat) -> Option<Seq<char>> {
    if !(op.line_range is Single) {
        Some("Insert operation must use single line number"@)
    } else if anchor(op) > len {
        Some("Insert position "@ + text::dec(anchor(op)) + " is beyond file length "@ + text::dec(len))
    } else {
        None
    }
}

/// The first error among the operations `order[k..]`.
pub open spec fn first_error(ops: Seq<OpView>, order: Seq<int>, len: nat, replace: bool, k: int) -> Option<
    Seq<char>,
>
    decreases order.len() - k,
{
    if k < 0 || k >= order.len() {
        None
    } else {
        let e = if replace {
            replace_error(ops[order[k]], len)
        } else {
            insert_error(ops[order[k]], len)
        };
        match e {
            Some(m) => Some(m),
            None => first_error(ops, order, len, replace, k + 1),
        }
    }
}

/// The lines after the replaces `order`, applied in that order.
pub open spec fn replaced(lines: Seq<Seq<char>>, ops: Seq<OpView>, order: Seq<int>) -> Seq<Seq<char>>
    decreases order.len(),
{
    if order.len() == 0 {
        lines
    } else {
        let op = ops[order.last()];
        splice(
            replaced(lines, ops, order.drop_last()),
            rstart(op) - 1,
            rend(op) as int,
            text::lines_of(op.content),
        )
    }
}

/// How much a replace moves an insert anchored after original line `a`: by
/// its change in length when it lies before `a`; onto the corresponding
/// place in its new lines (or their end) when it covers `a`.
pub open spec fn shift(a: int, op: OpView) -> int {
    let rs = rstart(op) as int;
    let re = rend(op) as int;
    let old_count = re - rs + 1;
    let new_count = text::lines_of(op.content).len() as int;
    if a >= re {
        new_count - old_count
    } else if a >= rs {
        let off = a - rs;
        let on = if off < new_count { off } else { new_count };
        (rs + on) - a
    } else {
        0
    }
}

/// The total shift of anchor `a` by the replaces `order`.
pub open spec fn shift_sum(a: int, ops: Seq<OpView>, order: Seq<int>) -> int
    decreases order.len(),
{
    if order.len() == 0 {
        0
    } else {
        shift_sum(a, ops, order.drop_last()) + shift(a, ops[order.last()])
    }
}

/// Where the insert goes in lines `cur` (after the replaces `rorder`).
pub open spec fn insert_pos(op: OpView, ops: Seq<OpView>, rorder: Seq<int>, cur_len: nat) -> int {
    let adj = anchor(op) + shift_sum(anchor(op) as int, ops, rorder);
    let p = if adj < 0 { 0 } else { adj };
    if p < cur_len { p } else { cur_len as int }
}

/// The lines after the inserts `iorder`, applied in that order on top of the
/// replaced lines `cur`.
pub open spec fn inserted(
    cur: Seq<Seq<char>>,
    ops: Seq<OpView>,
    rorder: Seq<int>,
    iorder: Seq<int>,
) -> Seq<Seq<char>>
    decreases iorder.len(),
{
    if iorder.len() == 0 {
        cur
    } else {
        let prev = inserted(cur, ops, rorder, iorder.drop_last());
        let op = ops[iorder.last()];
        let p = insert_pos(op, ops, rorder, prev.len());
        splice(prev, p, p, text::lines_of(op.content))
    }
}

/// The replaces in the order they are applied (descending start).
pub open spec fn replace_order(ops: Seq<OpView>) -> Seq<int> {
    sort_desc(kind_indices(ops, OperationType::Replace), ops)
}

/// The inserts in the order they are applied (descending anchor).
pub open spec fn insert_order(ops: Seq<OpView>) -> Seq<int> {
    sort_desc(kind_indices(ops, OperationType::Insert), ops)
}

/// The lines joined by `'\n'`, with a final `'\n'` restored when the
/// original content ended with one and the joined text does not.
pub open spec fn with_final_newline(original: Seq<char>, joined: Seq<char>) -> Seq<char> {
    if original.len() > 0 && original.last() == '\n' && !(joined.len() > 0 && joined.last() == '\n') {
        joined.push('\n')
    } else {
        joined
    }
}

/// What `apply_batch_operations` returns: the first replace error, else the
/// first insert error, else the edited content.
pub open spec fn apply_spec(original: Seq<char>, ops: Seq<OpView>) -> Result<Seq<char>, Seq<char>> {
    let lines = text::lines_of(original);
    let ro = replace_order(ops);
    let io = insert_order(ops);
    match first_error(ops, ro, lines.len(), true, 0) {
        Some(m) => Err(m),
        None => match first_error(ops, io, lines.len(), false, 0) {
            Some(m) => Err(m),
            None => Ok(
                with_final_newline(original, text::join(inserted(replaced(lines, ops, ro), ops, ro, io), "\n"@)),
            ),
        },
    }
}

/// Whether no two replaces of the batch overlap (as `detect_conflicts` ensures).
pub open spec fn replaces_disjoint(ops: Seq<OpView>) -> bool {
    forall|i: int, j: int|
        0 <= i < ops.len() && 0 <= j < ops.len() && i != j && ops[i].operation_type == OperationType::Replace
            && ops[j].operation_type == OperationType::Replace ==> !(#[trigger] ops_conflict(ops[i], ops[j]))
}

/// Whether the batch and the file are small enough for the line arithmetic.
pub open spec fn batch_in_bounds(original: Seq<char>, ops: Seq<OpView>) -> bool {
    &&& original.len() < 0x100_0000_0000
    &&& ops.len() <= 0x1_0000
    &&& forall|k: int| 0 <= k < ops.len() ==> (#[trigger] ops[k]).content.len() < 0x100_0000_0000
}

proof fn lemma_kind_indices(ops: Seq<OpView>, kind: OperationType)
    ensures
        forall|p: int|
            0 <= p < kind_indices(ops, kind).len() ==> 0 <= #[trigger] kind_indices(ops, kind)[p] < ops.len()
                && ops[kind_indices(ops, kind)[p]].operation_type == kind,
        forall|p: int, q: int|
            0 <= p < q < kind_indices(ops, kind).len() ==> #[trigger] kind_indices(ops, kind)[p]
                < #[trigger] kind_indices(ops, kind)[q],
        kind_indices(ops, kind).len() <= ops.len(),
    decreases ops.len(),
{
    if ops.len() > 0 {
        lemma_kind_indices(ops.drop_last(), kind);
    }
}

proof fn lemma_desc_slot(sorted: Seq<int>, x: int, ops: Seq<OpView>)
    ensures
        0 <= desc_slot(sorted, x, ops) <= sorted.len(),
        (forall|p: int, q: int| 0 <= p < q < sorted.len() ==> sort_key(ops[sorted[p]]) >= sort_key(ops[sorted[q]]))
            ==> (forall|p: int|
            0 <= p < sorted.len() ==> (p < desc_slot(sorted, x, ops) <==> sort_key(ops[sorted[p]]) >= sort_key(ops[x])))
    decreases sorted.len(),
{
    if sorted.len() > 0 {
        lemma_desc_slot(sorted.drop_last(), x, ops);
        if forall|p: int, q: int| 0 <= p < q < sorted.len() ==> sort_key(ops[sorted[p]]) >= sort_key(ops[sorted[q]]) {
            let d = sorted.drop_last();
            assert forall|p: int, q: int| 0 <= p < q < d.len() implies sort_key(ops[d[p]]) >= sort_key(ops[d[q]]) by {
                assert(d[p] == sorted[p] && d[q] == sorted[q]);
            }
            if sort_key(ops[sorted.last()]) >= sort_key(ops[x]) {
                assert forall|p: int| 0 <= p < sorted.len() implies sort_key(ops[sorted[p]]) >= sort_key(ops[x]) by {
                    if p < sorted.len() - 1 {
                        assert(sort_key(ops[sorted[p]]) >= sort_key(ops[sorted[sorted.len() - 1]]));
                    }
                }
            } else {
                let slot = desc_slot(sorted, x, ops);
                assert(slot == desc_slot(d, x, ops));
                assert forall|p: int| 0 <= p < sorted.len() implies (p < slot <==> sort_key(ops[sorted[p]]) >= sort_key(
                    ops[x],
                )) by {
                    if p < d.len() {
                        assert(d[p] == sorted[p]);
                    }
                }
            }
        }
    }
}

/// Whether the keys of `r` never increase.
pub open spec fn keys_descending(r: Seq<int>, ops: Seq<OpView>) -> bool {
    forall|p: int, q: int| 0 <= p < q < r.len() ==> sort_key(ops[#[trigger] r[p]]) >= sort_key(ops[#[trigger] r[q]])
}

proof fn lemma_sort_desc(idx: Seq<int>, ops: Seq<OpView>)
    requires
        forall|p: int, q: int| 0 <= p < q < idx.len() ==> idx[p] != idx[q],
    ensures
        sort_desc(idx, ops).len() == idx.len(),
        keys_descending(sort_desc(idx, ops), ops),
        forall|p: int| 0 <= p < idx.len() ==> idx.contains(#[trigger] sort_desc(idx, ops)[p]),
        forall|p: int, q: int|
            0 <= p < idx.len() && 0 <= q < idx.len() && p != q ==> #[trigger] sort_desc(idx, ops)[p]
                != #[trigger] sort_desc(idx, ops)[q],
    decreases idx.len(),
{
    if idx.len() > 0 {
        let d = idx.drop_last();
        let x = idx.last();
        lemma_sort_desc(d, ops);
        let prev = sort_desc(d, ops);
        let slot = desc_slot(prev, x, ops);
        lemma_desc_slot(prev, x, ops);
        let r = prev.insert(slot, x);
        assert(r == sort_desc(idx, ops));
        assert forall|p: int| 0 <= p < idx.len() implies idx.contains(#[trigger] r[p]) by {
            if p < slot {
                assert(d.contains(prev[p]));
                let w = choose|w: int| 0 <= w < d.len() && d[w] == prev[p];
                assert(idx[w] == prev[p]);
            } else if p == slot {
                assert(idx[idx.len() - 1] == x);
            } else {
                assert(r[p] == prev[p - 1]);
                assert(d.contains(prev[p - 1]));
                let w = choose|w: int| 0 <= w < d.len() && d[w] == prev[p - 1];
                assert(idx[w] == prev[p - 1]);
            }
        }
        assert forall|p: int| 0 <= p < prev.len() implies #[trigger] prev[p] != x by {
            assert(d.contains(prev[p]));
            let w = choose|w: int| 0 <= w < d.len() && d[w] == prev[p];
            assert(idx[w] != idx[idx.len() - 1]);
        }
        assert forall|p: int, q: int|
            0 <= p < idx.len() && 0 <= q < idx.len() && p != q implies #[trigger] r[p] != #[trigger] r[q] by {
            if p != slot && q != slot {
                let pp = if p < slot { p } else { p - 1 };
                let qq = if q < slot { q } else { q - 1 };
                assert(r[p] == prev[pp] && r[q] == prev[qq]);
            } else if p == slot {
                let qq = if q < slot { q } else { q - 1 };
                assert(r[q] == prev[qq]);
            } else {
                let pp = if p < slot { p } else { p - 1 };
                assert(r[p] == prev[pp]);
            }
        }
        assert forall|p: int, q: int| 0 <= p < q < r.len() implies sort_key(ops[#[trigger] r[p]]) >= sort_key(
            ops[#[trigger] r[q]],
        ) by {
            let pp = if p < slot { p } else { p - 1 };
            let qq = if q < slot { q } else { q - 1 };
            if p != slot && q != slot {
                assert(r[p] == prev[pp] && r[q] == prev[qq]);
            } else if p == slot {
                assert(r[q] == prev[qq]);
            } else {
                assert(r[p] == prev[pp]);
            }
        }
    }
}

/// Indices as mathematical integers.
pub open spec fn as_ints(v: Seq<usize>) -> Seq<int> {
    v.map_values(|x: usize| x as int)
}

fn kind_indices_exec(ops: &Vec<BatchOperation>, kind: OperationType) -> (r: Vec<usize>)
    ensures
        as_ints(r@) == kind_indices(op_views(ops@), kind),
{
    let mut r: Vec<usize> = Vec::new();
    let mut i: usize = 0;
    while i < ops.len()
        invariant
            0 <= i <= ops@.len(),
            as_ints(r@) == kind_indices(op_views(ops@).subrange(0, i as int), kind),
        decreases ops@.len() - i,
    {
        let ghost sub = op_views(ops@).subrange(0, i + 1);
        assert(sub.drop_last() =~= op_views(ops@).subrange(0, i as int));
        assert(sub.last() == op_views(ops@)[i as int]);
        let ghost old_r = r@;
        if ops[i].operation_type == kind {
            r.push(i);
            assert(as_ints(r@) =~= as_ints(old_r).push(i as int));
        }
        i = i + 1;
    }
    assert(op_views(ops@).subrange(0, ops@.len() as int) =~= op_views(ops@));
    r
}

fn key_of(op: &BatchOperation) -> (k: usize)
    ensures
        k == sort_key(op@),
{
    text_editing::insert_anchor(&op.line_range)
}

fn sort_desc_exec(idx: &Vec<usize>, ops: &Vec<BatchOperation>) -> (r: Vec<usize>)
    requires
        forall|k: int| 0 <= k < idx@.len() ==> idx@[k] < ops@.len(),
    ensures
        as_ints(r@) == sort_desc(as_ints(idx@), op_views(ops@)),
        forall|k: int| 0 <= k < r@.len() ==> r@[k] < ops@.len(),
{
    let mut out: Vec<usize> = Vec::new();
    let mut i: usize = 0;
    assert(as_ints(idx@.subrange(0, 0)) =~= Seq::<int>::empty());
    while i < idx.len()
        invariant
            0 <= i <= idx@.len(),
            forall|k: int| 0 <= k < idx@.len() ==> idx@[k] < ops@.len(),
            forall|k: int| 0 <= k < out@.len() ==> out@[k] < ops@.len(),
            as_ints(out@) == sort_desc(as_ints(idx@.subrange(0, i as int)), op_views(ops@)),
        decreases idx@.len() - i,
    {
        let x = idx[i];
        let kx = key_of(&ops[x]);
        let mut p = out.len();
        assert(as_ints(out@).subrange(0, p as int) =~= as_ints(out@));
        while p > 0 && key_of(&ops[out[p - 1]]) < kx
            invariant
                0 <= p <= out@.len(),
                x < ops@.len(),
                kx == sort_key(op_views(ops@)[x as int]),
                forall|k: int| 0 <= k < out@.len() ==> out@[k] < ops@.len(),
                desc_slot(as_ints(out@), x as int, op_views(ops@)) == desc_slot(as_ints(out@).subrange(0, p as int), x as int, op_views(ops@)),
            decreases p,
        {
            assert(as_ints(out@).subrange(0, p as int).drop_last() =~= as_ints(out@).subrange(0, p - 1));
            p = p - 1;
        }
        proof {
            let sub = as_ints(out@).subrange(0, p as int);
            if p > 0 {
                assert(sub.last() == out@[p - 1] as int);
            }
            let a = as_ints(idx@.subrange(0, i + 1));
            assert(a.drop_last() =~= as_ints(idx@.subrange(0, i as int)));
            assert(a.last() == x as int);
        }
        let ghost old_out = out@;
        out.insert(p, x);
        assert(as_ints(out@) =~= as_ints(old_out).insert(p as int, x as int));
        i = i + 1;
    }
    assert(idx@.subrange(0, idx@.len() as int) =~= idx@);
    out
}

fn splice_exec(cur: &Vec<String>, a: usize, b: usize, c: &Vec<String>) -> (r: Vec<String>)
    requires
        a <= b <= cur@.len(),
    ensures
        text::views(r@) == splice(text::views(cur@), a as int, b as int, text::views(c@)),
{
    let ghost cv = text::views(cur@);
    let ghost ccv = text::views(c@);
    let mut r: Vec<String> = Vec::new();
    let mut i: usize = 0;
    while i < a
        invariant
            a <= b <= cur@.len(),
            0 <= i <= a,
            cv == text::views(cur@),
            text::views(r@) == cv.subrange(0, i as int),
        decreases a - i,
    {
        let ghost old_r = r@;
        let x = cur[i].clone();
        r.push(x);
        assert(text::views(r@) =~= text::views(old_r).push(cv[i as int]));
        assert(text::views(r@) =~= cv.subrange(0, i + 1));
        i = i + 1;
    }
    let mut j: usize = 0;
    while j < c.len()
        invariant
            a <= b <= cur@.len(),
            0 <= j <= c@.len(),
            cv == text::views(cur@),
            ccv == text::views(c@),
            text::views(r@) == cv.subrange(0, a as int) + ccv.subrange(0, j as int),
        decreases c@.len() - j,
    {
        let ghost old_r = r@;
        let x = c[j].clone();
        r.push(x);
        assert(text::views(r@) =~= text::views(old_r).push(ccv[j as int]));
        assert(text::views(r@) =~= cv.subrange(0, a as int) + ccv.subrange(0, j + 1));
        j = j + 1;
    }
    assert(ccv.subrange(0, c@.len() as int) =~= ccv);
    let mut k: usize = b;
    while k < cur.len()
        invariant
            a <= b <= k <= cur@.len(),
            cv == text::views(cur@),
            ccv == text::views(c@),
            text::views(r@) == cv.subrange(0, a as int) + ccv + cv.subrange(b as int, k as int),
        decreases cur@.len() - k,
    {
        let ghost old_r = r@;
        let x = cur[k].clone();
        r.push(x);
        assert(text::views(r@) =~= text::views(old_r).push(cv[k as int]));
        assert(text::views(r@) =~= cv.subrange(0, a as int) + ccv + cv.subrange(b as int, k + 1));
        k = k + 1;
    }
    r
}

proof fn lemma_shift_bound(a: int, op: OpView, len: nat)
    requires
        0 <= a <= len < 0x100_0000_0000,
        1 <= rstart(op) <= rend(op) <= len,
        text::lines_of(op.content).len() < 0x100_0000_0000,
    ensures
        -0x100_0000_0000 <= shift(a, op) <= 0x100_0000_0000,
{
}

/// Applies a batch to `original_content`: the replaces from the bottom of
/// the file up, then the inserts from the bottom up, each insert placed
/// where its anchor line ended up (see `apply_spec`).
pub fn apply_batch_operations(original_content: &str, operations: &Vec<BatchOperation>) -> (r: Result<String, String>)
    requires
        replaces_disjoint(op_views(operations@)),
        batch_in_bounds(original_content@, op_views(operations@)),
    ensures
        match apply_spec(original_content@, op_views(operations@)) {
            Ok(c) => r matches Ok(t) && t@ == c,
            Err(m) => r matches Err(e) && e@ == m,
        },
{
    let ghost ops = op_views(operations@);
    let lines0 = text::split_lines(original_content);
    let ghost lines = text::views(lines0@);
    proof {
        text::lemma_lines_len(original_content@);
    }
    let original_len = lines0.len();
    let rids = kind_indices_exec(operations, OperationType::Replace);
    proof {
        lemma_kind_indices(ops, OperationType::Replace);
    }
    assert forall|q: int| 0 <= q < rids@.len() implies rids@[q] < ops.len() by {
        assert(as_ints(rids@)[q] == rids@[q] as int);
    }
    let ro = sort_desc_exec(&rids, operations);
    let ghost rov = as_ints(ro@);
    proof {
        lemma_sort_desc(as_ints(rids@), ops);
    }
    assert(rov.len() == ro@.len());
    assert(rov.len() <= ops.len());
    assert(forall|q: int| 0 <= q < rov.len() ==> rov[q] == ro@[q] as int);
    assert forall|q: int| 0 <= q < rov.len() implies ops[#[trigger] rov[q]].operation_type == OperationType::Replace by {
        let w = choose|w: int| 0 <= w < as_ints(rids@).len() && as_ints(rids@)[w] == rov[q];
    }
    // Replaces, bottom up.
    let mut cur = lines0;
    let mut counts: Vec<usize> = Vec::new();
    let mut bound: usize = original_len;
    let mut k: usize = 0;
    while k < ro.len()
        invariant
            ops == op_views(operations@),
            replaces_disjoint(ops),
            batch_in_bounds(original_content@, ops),
            lines == text::lines_of(original_content@),
            original_len == lines.len(),
            lines.len() <= original_content@.len(),
            rov == as_ints(ro@),
            rov == replace_order(ops),
            rov.len() == ro@.len(),
            forall|q: int| 0 <= q < rov.len() ==> rov[q] == ro@[q] as int,
            forall|q: int| 0 <= q < ro@.len() ==> ro@[q] < ops.len(),
            forall|q: int| 0 <= q < rov.len() ==> ops[#[trigger] rov[q]].operation_type == OperationType::Replace,
            keys_descending(rov, ops),
            forall|p: int, q: int| 0 <= p < rov.len() && 0 <= q < rov.len() && p != q ==> #[trigger] rov[p] != #[trigger] rov[q],
            0 <= k <= ro@.len(),
            text::views(cur@) == replaced(lines, ops, rov.subrange(0, k as int)),
            first_error(ops, rov, lines.len(), true, 0) == first_error(ops, rov, lines.len(), true, k as int),
            bound <= cur@.len(),
            bound <= original_len,
            text::views(cur@).subrange(0, bound as int) == lines.subrange(0, bound as int),
            forall|q: int|
                k <= q < rov.len() && replace_error(ops[rov[q]], lines.len()) is None ==> rend(ops[rov[q]]) <= bound,
            counts@.len() == k,
            forall|q: int| 0 <= q < k ==> counts@[q] == text::lines_of(ops[#[trigger] rov[q]].content).len(),
            forall|q: int| 0 <= q < k ==> replace_error(ops[#[trigger] rov[q]], lines.len()) is None,
        decreases ro@.len() - k,
    {
        let ghost prev = text::views(cur@);
        let op = &operations[ro[k]];
        let (s, e) = text_editing::replace_range(&op.line_range);
        if s == 0 || e == 0 {
            return Err(text::owned("Line numbers must be 1-indexed (start from 1)"));
        }
        if s > original_len || e > original_len {
            let mut m = text::owned("Line range [");
            text::push_dec(&mut m, s);
            text::push_str(&mut m, ", ");
            text::push_dec(&mut m, e);
            text::push_str(&mut m, "] is beyond file length ");
            text::push_dec(&mut m, original_len);
            assert(m@ =~= "Line range ["@ + text::dec(s as nat) + ", "@ + text::dec(e as nat) + "] is beyond file length "@
                + text::dec(original_len as nat));
            return Err(m);
        }
        if s > e {
            let mut m = text::owned("Invalid line range: start ");
            text::push_dec(&mut m, s);
            text::push_str(&mut m, " > end ");
            text::push_dec(&mut m, e);
            assert(m@ =~= "Invalid line range: start "@ + text::dec(s as nat) + " > end "@ + text::dec(e as nat));
            return Err(m);
        }
        assert(replace_error(ops[rov[k as int]], lines.len()) is None);
        assert(e <= bound);
        let content_lines = text::split_lines(op.content.as_str());
        proof {
            text::lemma_lines_len(op.content@);
            assert(ops[rov[k as int]].content.len() < 0x100_0000_0000);
        }
        assert(prev.len() == cur@.len());
        cur = splice_exec(&cur, s - 1, e, &content_lines);
        counts.push(content_lines.len());
        proof {
            assert(text::views(cur@).len() == cur@.len());
            assert(text::views(content_lines@).len() == content_lines@.len());
            let sub = rov.subrange(0, k + 1);
            assert(sub.drop_last() =~= rov.subrange(0, k as int));
            assert(sub.last() == rov[k as int]);
            assert(text::views(cur@).subrange(0, s - 1) =~= lines.subrange(0, s - 1)) by {
                assert(prev.subrange(0, s - 1) =~= prev.subrange(0, bound as int).subrange(0, s - 1));
                assert(lines.subrange(0, s - 1) =~= lines.subrange(0, bound as int).subrange(0, s - 1));
            }
            assert forall|q: int|
                k + 1 <= q < rov.len() && replace_error(ops[rov[q]], lines.len()) is None implies rend(ops[rov[q]])
                <= s - 1 by {
                assert(sort_key(ops[rov[k as int]]) >= sort_key(ops[rov[q]]));
                assert(rov[k as int] != rov[q]);
                assert(!ops_conflict(ops[rov[k as int]], ops[rov[q]]));
            }
        }
        bound = s - 1;
        k = k + 1;
    }
    assert(rov.subrange(0, rov.len() as int) =~= rov);
    let ghost after_r = text::views(cur@);
    // Inserts, bottom up.
    let iids = kind_indices_exec(operations, OperationType::Insert);
    proof {
        lemma_kind_indices(ops, OperationType::Insert);
    }
    assert forall|q: int| 0 <= q < iids@.len() implies iids@[q] < ops.len() by {
        assert(as_ints(iids@)[q] == iids@[q] as int);
    }
    let io = sort_desc_exec(&iids, operations);
    let ghost iov = as_ints(io@);
    proof {
        lemma_sort_desc(as_ints(iids@), ops);
    }
    assert(forall|q: int| 0 <= q < iov.len() ==> iov[q] == io@[q] as int);
    let mut j: usize = 0;
    while j < io.len()
        invariant
            ops == op_views(operations@),
            batch_in_bounds(original_content@, ops),
            lines == text::lines_of(original_content@),
            original_len == lines.len(),
            lines.len() <= original_content@.len(),
            rov == replace_order(ops),
            rov.len() == ro@.len(),
            rov.len() <= ops.len(),
            forall|q: int| 0 <= q < rov.len() ==> rov[q] == ro@[q] as int,
            forall|q: int| 0 <= q < ro@.len() ==> ro@[q] < ops.len(),
            counts@.len() == ro@.len(),
            forall|q: int| 0 <= q < rov.len() ==> counts@[q] == text::lines_of(ops[#[trigger] rov[q]].content).len(),
            forall|q: int| 0 <= q < rov.len() ==> replace_error(ops[#[trigger] rov[q]], lines.len()) is None,
            after_r == replaced(lines, ops, rov),
            first_error(ops, rov, lines.len(), true, 0) is None,
            iov == as_ints(io@),
            iov == insert_order(ops),
            forall|q: int| 0 <= q < iov.len() ==> iov[q] == io@[q] as int,
            forall|q: int| 0 <= q < io@.len() ==> io@[q] < ops.len(),
            0 <= j <= io@.len(),
            text::views(cur@) == inserted(after_r, ops, rov, iov.subrange(0, j as int)),
            first_error(ops, iov, lines.len(), false, 0) == first_error(ops, iov, lines.len(), false, j as int),
        decreases io@.len() - j,
    {
        let op = &operations[io[j]];
        let a = match op.line_range {
            LineRange::Single(line) => line,
            _ => {
                return Err(text::owned("Insert operation must use single line number"));
            },
        };
        if a > original_len {
            let mut m = text::owned("Insert position ");
            text::push_dec(&mut m, a);
            text::push_str(&mut m, " is beyond file length ");
            text::push_dec(&mut m, original_len);
            assert(m@ =~= "Insert position "@ + text::dec(a as nat) + " is beyond file length "@ + text::dec(
                original_len as nat,
            ));
            return Err(m);
        }
        let mut adj: i64 = a as i64;
        let mut t: usize = 0;
        while t < ro.len()
            invariant
                ops == op_views(operations@),
                lines.len() <= original_content@.len() < 0x100_0000_0000,
                original_len == lines.len(),
                a <= original_len,
                ops.len() <= 0x1_0000,
                rov.len() == ro@.len(),
                rov.len() <= ops.len(),
                forall|q: int| 0 <= q < rov.len() ==> rov[q] == ro@[q] as int,
                forall|q: int| 0 <= q < ro@.len() ==> ro@[q] < ops.len(),
                counts@.len() == ro@.len(),
                forall|q: int| 0 <= q < rov.len() ==> counts@[q] == text::lines_of(ops[#[trigger] rov[q]].content).len(),
                forall|q: int| 0 <= q < rov.len() ==> replace_error(ops[#[trigger] rov[q]], lines.len()) is None,
                forall|q: int| 0 <= q < ops.len() ==> (#[trigger] ops[q]).content.len() < 0x100_0000_0000,
                0 <= t <= ro@.len(),
                adj == a + shift_sum(a as int, ops, rov.subrange(0, t as int)),
                -(t as int) * 0x100_0000_0000 <= adj - a <= (t as int) * 0x100_0000_0000,
            decreases ro@.len() - t,
        {
            let rop = &operations[ro[t]];
            let (rs, re) = text_editing::replace_range(&rop.line_range);
            let nc = counts[t];
            proof {
                let sub = rov.subrange(0, t + 1);
                assert(sub.drop_last() =~= rov.subrange(0, t as int));
                assert(sub.last() == rov[t as int]);
                assert(replace_error(ops[rov[t as int]], lines.len()) is None);
                text::lemma_lines_len(ops[rov[t as int]].content);
                lemma_shift_bound(a as int, ops[rov[t as int]], lines.len());
            }
            if a >= re {
                adj = adj + (nc as i64 - (re - rs + 1) as i64);
            } else if a >= rs {
                let off = (a - rs) as i64;
                let on: i64 = if off < nc as i64 { off } else { nc as i64 };
                adj = adj + ((rs as i64 + on) - a as i64);
            }
            t = t + 1;
        }
        assert(rov.subrange(0, rov.len() as int) =~= rov);
        assert((t as int) * 0x100_0000_0000 <= 0x1_0000 * 0x100_0000_0000) by (nonlinear_arith)
            requires
                t <= 0x1_0000,
        ;
        assert(adj < 0x1_0000_0000_0000_0000);
        let content_lines = text::split_lines(op.content.as_str());
        let p: usize = if adj <= 0 {
            0
        } else if (adj as i128) < (cur.len() as i128) {
            adj as usize
        } else {
            cur.len()
        };
        proof {
            let sub = iov.subrange(0, j + 1);
            assert(sub.drop_last() =~= iov.subrange(0, j as int));
            assert(sub.last() == iov[j as int]);
            assert(a == anchor(ops[iov[j as int]]));
            assert(adj == anchor(ops[iov[j as int]]) + shift_sum(a as int, ops, rov));
            assert(text::views(cur@).len() == cur@.len());
            assert(p == insert_pos(ops[iov[j as int]], ops, rov, text::views(cur@).len()));
        }
        cur = splice_exec(&cur, p, p, &content_lines);
        j = j + 1;
    }
    assert(iov.subrange(0, iov.len() as int) =~= iov);
    let joined = text::join_strings(&cur, "\n");
    let oc = text::chars_of(original_content);
    let jc = text::chars_of(joined.as_str());
    proof {
        reveal_strlit("\n");
    }
    if oc.len() > 0 && oc[oc.len() - 1] == '\n' && !(jc.len() > 0 && jc[jc.len() - 1] == '\n') {
        let mut out = joined;
        text::push_str(&mut out, "\n");
        assert(out@ =~= jc@.push('\n'));
        Ok(out)
    } else {
        Ok(joined)
    }
}

// ---------------------------------------------------------------------------
// The diff report
// ---------------------------------------------------------------------------

/// Where `x` goes in `sorted` (smaller keys first), after every element with
/// an equal key.
pub open spec fn asc_slot(sorted: Seq<int>, x: int, ops: Seq<OpView>) -> int
    decreases sorted.len(),
{
    if sorted.len() == 0 {
        0
    } else if sort_key(ops[sorted.last()]) <= sort_key(ops[x]) {
        sorted.len() as int
    } else {
        asc_slot(sorted.drop_last(), x, ops)
    }
}

/// `idx` ordered by ascending key, equal keys in their given order: what a
/// stable sort by key yields.
pub open spec fn sort_asc(idx: Seq<int>, ops: Seq<OpView>) -> Seq<int>
    decreases idx.len(),
{
    if idx.len() == 0 {
        idx
    } else {
        let prev = sort_asc(idx.drop_last(), ops);
        prev.insert(asc_slot(prev, idx.last(), ops), idx.last())
    }
}

/// The order in which the operations are reported: by line.
pub open spec fn display_order(ops: Seq<OpView>) -> Seq<int> {
    sort_asc(Seq::new(ops.len(), |i: int| i), ops)
}

fn sort_asc_exec(ops: &Vec<BatchOperation>) -> (r: Vec<usize>)
    ensures
        as_ints(r@) == display_order(op_views(ops@)),
        forall|k: int| 0 <= k < r@.len() ==> r@[k] < ops@.len(),
{
    let ghost idx = Seq::new(ops@.len(), |i: int| i);
    let mut out: Vec<usize> = Vec::new();
    let mut i: usize = 0;
    assert(idx.subrange(0, 0) =~= Seq::<int>::empty());
    while i < ops.len()
        invariant
            0 <= i <= ops@.len(),
            idx == Seq::new(ops@.len(), |i: int| i),
            forall|k: int| 0 <= k < out@.len() ==> out@[k] < ops@.len(),
            as_ints(out@) == sort_asc(idx.subrange(0, i as int), op_views(ops@)),
        decreases ops@.len() - i,
    {
        let kx = key_of(&ops[i]);
        let mut p = out.len();
        assert(as_ints(out@).subrange(0, p as int) =~= as_ints(out@));
        while p > 0 && key_of(&ops[out[p - 1]]) > kx
            invariant
                0 <= p <= out@.len(),
                i < ops@.len(),
                kx == sort_key(op_views(ops@)[i as int]),
                forall|k: int| 0 <= k < out@.len() ==> out@[k] < ops@.len(),
                asc_slot(as_ints(out@), i as int, op_views(ops@)) == asc_slot(
                    as_ints(out@).subrange(0, p as int),
                    i as int,
                    op_views(ops@),
                ),
            decreases p,
        {
            assert(as_ints(out@).subrange(0, p as int).drop_last() =~= as_ints(out@).subrange(0, p - 1));
            p = p - 1;
        }
        proof {
            let sub = as_ints(out@).subrange(0, p as int);
            if p > 0 {
                assert(sub.last() == out@[p - 1] as int);
            }
            let a = idx.subrange(0, i + 1);
            assert(a.drop_last() =~= idx.subrange(0, i as int));
            assert(a.last() == i as int);
        }
        let ghost old_out = out@;
        out.insert(p, i);
        assert(as_ints(out@) =~= as_ints(old_out).insert(p as int, i as int));
        i = i + 1;
    }
    assert(idx.subrange(0, ops@.len() as int) =~= idx);
    out
}

/// `["..."]` when lines are left out, else nothing.
pub open spec fn ellipsis_if(b: bool) -> Seq<Seq<char>> {
    if b {
        seq!["..."@]
    } else {
        Seq::<Seq<char>>::empty()
    }
}

/// A context line of the diff: `N: text` (the line named as in `line_name`).
pub open spec fn ctx_line(hash_mode: bool, h: Seq<Seq<char>>, ls: Seq<Seq<char>>, i: int) -> Seq<char> {
    line_name(hash_mode, h, i) + ": "@ + ls[i - 1]
}

/// The name of an added line `idx`: as in the new file where it exists there,
/// else its number.
pub open spec fn plus_name(hash_mode: bool, nh: Seq<Seq<char>>, idx: int, new_len: nat) -> Seq<char> {
    if idx <= new_len {
        line_name(hash_mode, nh, idx)
    } else {
        text::dec(idx as nat)
    }
}

/// An added line of the diff: `+N: text`.
pub open spec fn plus_line(hash_mode: bool, nh: Seq<Seq<char>>, idx: int, new_len: nat, t: Seq<char>) -> Seq<char> {
    "+"@ + plus_name(hash_mode, nh, idx, new_len) + ": "@ + t
}

/// Context lines `a..=b` of the new file (none when `b < a`).
pub open spec fn new_ctx(hash_mode: bool, nh: Seq<Seq<char>>, new: Seq<Seq<char>>, a: int, b: int) -> Seq<Seq<char>> {
    Seq::new(if b >= a { (b - a + 1) as nat } else { 0 }, |i: int| ctx_line(hash_mode, nh, new, a + i))
}

/// The diff lines reported for a replace: up to two lines of context before
/// (old numbering), the removed lines (`-`), the new lines (`+`) and up to
/// two lines of context after (new numbering), with `...` where the file
/// goes on.
pub open spec fn replace_diff(
    op: OpView,
    orig: Seq<Seq<char>>,
    new: Seq<Seq<char>>,
    hash_mode: bool,
    oh: Seq<Seq<char>>,
    nh: Seq<Seq<char>>,
) -> Seq<Seq<char>> {
    let s = rstart(op) as int;
    let e = rend(op) as int;
    let c = text::lines_of(op.content);
    let cbs: int = if s >= 3 { s - 2 } else { 1 };
    let nas: int = s + c.len();
    let nae: int = if nas + 1 < new.len() { nas + 1 } else { new.len() as int };
    ellipsis_if(cbs > 1) + Seq::new((s - cbs) as nat, |i: int| ctx_line(hash_mode, oh, orig, cbs + i)) + Seq::new(
        (e - s + 1) as nat,
        |i: int| "-"@ + ctx_line(hash_mode, oh, orig, s + i),
    ) + Seq::new(c.len(), |i: int| plus_line(hash_mode, nh, s + i, new.len(), c[i])) + new_ctx(
        hash_mode,
        nh,
        new,
        nas,
        nae,
    ) + ellipsis_if(nae < new.len())
}

/// The diff lines reported for an insert: up to two lines of context before
/// the inserted lines, the inserted lines (`+`) and up to two lines after,
/// all in the new numbering, with `...` where the file goes on.
pub open spec fn insert_diff(op: OpView, new: Seq<Seq<char>>, hash_mode: bool, nh: Seq<Seq<char>>) -> Seq<Seq<char>> {
    let at: int = anchor(op) as int + 1;
    let c = text::lines_of(op.content);
    let cbs: int = if at >= 3 { at - 2 } else { 1 };
    let bend: int = if at - 1 < new.len() { at - 1 } else { new.len() as int };
    let ae: int = at + c.len();
    let cae: int = if ae + 1 < new.len() { ae + 1 } else { new.len() as int };
    ellipsis_if(cbs > 1) + new_ctx(hash_mode, nh, new, cbs, bend) + Seq::new(
        c.len(),
        |i: int| plus_line(hash_mode, nh, at + i, new.len(), c[i]),
    ) + new_ctx(hash_mode, nh, new, ae, cae) + ellipsis_if(cae < new.len())
}

/// The diff lines of one operation.
pub open spec fn op_diff(
    op: OpView,
    orig: Seq<Seq<char>>,
    new: Seq<Seq<char>>,
    hash_mode: bool,
    oh: Seq<Seq<char>>,
    nh: Seq<Seq<char>>,
) -> Seq<Seq<char>> {
    if op.operation_type == OperationType::Replace {
        replace_diff(op, orig, new, hash_mode, oh, nh)
    } else {
        insert_diff(op, new, hash_mode, nh)
    }
}

/// The report of a batch: each operation's diff (lines joined by `'\n'`),
/// in line order, separated by `"\n---\n"`.
pub open spec fn batch_diff(ops: Seq<OpView>, orig: Seq<Seq<char>>, new: Seq<Seq<char>>, hash_mode: bool) -> Seq<char> {
    let oh = crate::line_hash::line_hashes(orig);
    let nh = crate::line_hash::line_hashes(new);
    let d = display_order(ops);
    text::join(
        Seq::new(d.len(), |p: int| text::join(op_diff(ops[d[p]], orig, new, hash_mode, oh, nh), "\n"@)),
        "\n---\n"@,
    )
}

fn ctx_string(hash_mode: bool, h: &Vec<String>, ls: &Vec<String>, i: usize) -> (r: String)
    requires
        1 <= i <= ls@.len(),
        hash_mode ==> h@.len() == ls@.len(),
    ensures
        r@ == ctx_line(hash_mode, text::views(h@), text::views(ls@), i as int),
{
    let mut r = String::new();
    push_line_name(&mut r, hash_mode, h, i);
    text::push_str(&mut r, ": ");
    text::push_str(&mut r, ls[i - 1].as_str());
    assert(r@ =~= ctx_line(hash_mode, text::views(h@), text::views(ls@), i as int));
    r
}

fn push_new_ctx(out: &mut Vec<String>, hash_mode: bool, nh: &Vec<String>, new: &Vec<String>, a: usize, b: usize)
    requires
        1 <= a,
        b <= new@.len(),
        hash_mode ==> nh@.len() == new@.len(),
    ensures
        text::views(final(out)@) == text::views(old(out)@) + new_ctx(
            hash_mode,
            text::views(nh@),
            text::views(new@),
            a as int,
            b as int,
        ),
{
    let ghost base = text::views(out@);
    let ghost target = new_ctx(hash_mode, text::views(nh@), text::views(new@), a as int, b as int);
    if b < a {
        assert(text::views(out@) =~= base + target);
        return;
    }
    let count = b - a + 1;
    let mut k: usize = 0;
    while k < count
        invariant
            1 <= a <= b,
            count == b - a + 1,
            b <= new@.len(),
            hash_mode ==> nh@.len() == new@.len(),
            0 <= k <= count,
            target == new_ctx(hash_mode, text::views(nh@), text::views(new@), a as int, b as int),
            text::views(out@) == base + target.subrange(0, k as int),
        decreases count - k,
    {
        let line = ctx_string(hash_mode, nh, new, a + k);
        let ghost old_out = out@;
        out.push(line);
        assert(text::views(out@) =~= text::views(old_out).push(line@));
        assert(text::views(out@) =~= base + target.subrange(0, k + 1));
        k = k + 1;
    }
    assert(target.subrange(0, count as int) =~= target);
}

fn push_old_lines(
    out: &mut Vec<String>,
    minus: bool,
    hash_mode: bool,
    oh: &Vec<String>,
    orig: &Vec<String>,
    a: usize,
    count: usize,
)
    requires
        1 <= a,
        a + count <= orig@.len() + 1,
        hash_mode ==> oh@.len() == orig@.len(),
    ensures
        text::views(final(out)@) == text::views(old(out)@) + Seq::new(
            count as nat,
            |i: int|
                if minus {
                    "-"@ + ctx_line(hash_mode, text::views(oh@), text::views(orig@), a + i)
                } else {
                    ctx_line(hash_mode, text::views(oh@), text::views(orig@), a + i)
                },
        ),
{
    let ghost base = text::views(out@);
    let ghost target = Seq::new(
        count as nat,
        |i: int|
            if minus {
                "-"@ + ctx_line(hash_mode, text::views(oh@), text::views(orig@), a + i)
            } else {
                ctx_line(hash_mode, text::views(oh@), text::views(orig@), a + i)
            },
    );
    let mut k: usize = 0;
    while k < count
        invariant
            1 <= a,
            a + count <= orig.len() + 1,
            hash_mode ==> oh@.len() == orig@.len(),
            0 <= k <= count,
            target.len() == count,
            forall|i: int|
                0 <= i < count ==> #[trigger] target[i] == if minus {
                    "-"@ + ctx_line(hash_mode, text::views(oh@), text::views(orig@), a + i)
                } else {
                    ctx_line(hash_mode, text::views(oh@), text::views(orig@), a + i)
                },
            text::views(out@) == base + target.subrange(0, k as int),
        decreases count - k,
    {
        let body = ctx_string(hash_mode, oh, orig, a + k);
        let line = if minus {
            let mut m = text::owned("-");
            text::push_str(&mut m, body.as_str());
            m
        } else {
            body
        };
        let ghost old_out = out@;
        out.push(line);
        assert(text::views(out@) =~= text::views(old_out).push(line@));
        assert(text::views(out@) =~= base + target.subrange(0, k + 1));
        k = k + 1;
    }
    assert(target.subrange(0, count as int) =~= target);
}

fn push_added_lines(
    out: &mut Vec<String>,
    hash_mode: bool,
    nh: &Vec<String>,
    new_len: usize,
    first: u128,
    c: &Vec<String>,
)
    requires
        1 <= first <= 0x2_0000_0000_0000_0000,
        hash_mode ==> nh@.len() == new_len,
    ensures
        text::views(final(out)@) == text::views(old(out)@) + Seq::new(
            c@.len(),
            |i: int| plus_line(hash_mode, text::views(nh@), first + i, new_len as nat, text::views(c@)[i]),
        ),
{
    let ghost base = text::views(out@);
    let ghost target = Seq::new(
        c@.len(),
        |i: int| plus_line(hash_mode, text::views(nh@), first + i, new_len as nat, text::views(c@)[i]),
    );
    let mut k: usize = 0;
    while k < c.len()
        invariant
            1 <= first <= 0x2_0000_0000_0000_0000,
            hash_mode ==> nh@.len() == new_len,
            0 <= k <= c@.len(),
            target == Seq::new(
                c@.len(),
                |i: int| plus_line(hash_mode, text::views(nh@), first + i, new_len as nat, text::views(c@)[i]),
            ),
            text::views(out@) == base + target.subrange(0, k as int),
        decreases c@.len() - k,
    {
        let idx: u128 = first + k as u128;
        let mut line = text::owned("+");
        if idx <= new_len as u128 {
            push_line_name(&mut line, hash_mode, nh, idx as usize);
        } else {
            text::push_dec_u128(&mut line, idx);
        }
        text::push_str(&mut line, ": ");
        text::push_str(&mut line, c[k].as_str());
        assert(line@ =~= plus_line(hash_mode, text::views(nh@), idx as int, new_len as nat, text::views(c@)[k as int]));
        let ghost old_out = out@;
        out.push(line);
        assert(text::views(out@) =~= text::views(old_out).push(line@));
        assert(text::views(out@) =~= base + target.subrange(0, k + 1));
        k = k + 1;
    }
    assert(target.subrange(0, c@.len() as int) =~= target);
}

fn push_ellipsis(out: &mut Vec<String>, b: bool)
    ensures
        text::views(final(out)@) == text::views(old(out)@) + ellipsis_if(b),
{
    if b {
        let ghost old_out = out@;
        let e = text::owned("...");
        out.push(e);
        assert(text::views(out@) =~= text::views(old_out) + ellipsis_if(b));
    } else {
        assert(text::views(out@) =~= text::views(out@) + ellipsis_if(b));
    }
}

#[verifier::rlimit(40)]
fn render_replace_diff(
    op: &BatchOperation,
    orig: &Vec<String>,
    new: &Vec<String>,
    hash_mode: bool,
    oh: &Vec<String>,
    nh: &Vec<String>,
) -> (r: Vec<String>)
    requires
        op.operation_type == OperationType::Replace,
        op_resolved(op@, orig@.len()),
        hash_mode ==> oh@.len() == orig@.len() && nh@.len() == new@.len(),
    ensures
        text::views(r@) == replace_diff(
            op@,
            text::views(orig@),
            text::views(new@),
            hash_mode,
            text::views(oh@),
            text::views(nh@),
        ),
{
    let c = text::split_lines(op.content.as_str());
    assert(text::views(c@).len() == c@.len());
    let mut out: Vec<String> = Vec::new();
    let new_len = new.len();
    let (s, e) = text_editing::replace_range(&op.line_range);
    let cbs: usize = if s >= 3 { s - 2 } else { 1 };
    let nas: u128 = s as u128 + c.len() as u128;
    let nae: usize = if nas + 1 < new_len as u128 { (nas + 1) as usize } else { new_len };
    let ghost ov = text::views(orig@);
    let ghost nv = text::views(new@);
    let ghost ohv = text::views(oh@);
    let ghost nhv = text::views(nh@);
    let ghost cv = text::views(c@);
    push_ellipsis(&mut out, cbs > 1);
    let ghost o1 = text::views(out@);
    push_old_lines(&mut out, false, hash_mode, oh, orig, cbs, s - cbs);
    let ghost o2 = text::views(out@);
    push_old_lines(&mut out, true, hash_mode, oh, orig, s, e - s + 1);
    let ghost o3 = text::views(out@);
    push_added_lines(&mut out, hash_mode, nh, new_len, s as u128, &c);
    let ghost o4 = text::views(out@);
    if nas <= nae as u128 {
        push_new_ctx(&mut out, hash_mode, nh, new, nas as usize, nae);
    } else {
        assert(new_ctx(hash_mode, nhv, nv, nas as int, nae as int) =~= Seq::<Seq<char>>::empty());
        assert(text::views(out@) =~= text::views(out@) + new_ctx(hash_mode, nhv, nv, nas as int, nae as int));
    }
    let ghost o5 = text::views(out@);
    push_ellipsis(&mut out, nae < new_len);
    proof {
        let a1 = ellipsis_if(cbs > 1);
        let a2 = Seq::new((s - cbs) as nat, |i: int| ctx_line(hash_mode, ohv, ov, cbs + i));
        let a3 = Seq::new((e - s + 1) as nat, |i: int| "-"@ + ctx_line(hash_mode, ohv, ov, s + i));
        let a4 = Seq::new(cv.len(), |i: int| plus_line(hash_mode, nhv, s + i, new_len as nat, cv[i]));
        let a5 = new_ctx(hash_mode, nhv, nv, nas as int, nae as int);
        let a6 = ellipsis_if(nae < new_len);
        assert(o1 =~= a1);
        assert(o2 =~= a1 + a2);
        assert(o3 =~= a1 + a2 + a3);
        assert(o4 =~= a1 + a2 + a3 + a4);
        assert(o5 =~= a1 + a2 + a3 + a4 + a5);
        assert(text::views(out@) =~= a1 + a2 + a3 + a4 + a5 + a6);
    }
    out
}

fn render_insert_diff(op: &BatchOperation, new: &Vec<String>, hash_mode: bool, nh: &Vec<String>) -> (r: Vec<String>)
    requires
        op.operation_type == OperationType::Insert,
        hash_mode ==> nh@.len() == new@.len(),
    ensures
        text::views(r@) == insert_diff(op@, text::views(new@), hash_mode, text::views(nh@)),
{
    let c = text::split_lines(op.content.as_str());
    assert(text::views(c@).len() == c@.len());
    let mut out: Vec<String> = Vec::new();
    let new_len = new.len();
    let a: usize = text_editing::insert_anchor(&op.line_range);
    let at: u128 = a as u128 + 1;
    let cbs: u128 = if at >= 3 { at - 2 } else { 1 };
    let bend: usize = if a < new_len { a } else { new_len };
    let ae: u128 = at + c.len() as u128;
    let cae: usize = if ae + 1 < new_len as u128 { (ae + 1) as usize } else { new_len };
    let ghost o0 = text::views(out@);
    let ghost nhv = text::views(nh@);
    let ghost nv = text::views(new@);
    push_ellipsis(&mut out, cbs > 1);
    if cbs <= bend as u128 {
        push_new_ctx(&mut out, hash_mode, nh, new, cbs as usize, bend);
    } else {
        assert(new_ctx(hash_mode, nhv, nv, cbs as int, bend as int) =~= Seq::<Seq<char>>::empty());
        assert(text::views(out@) =~= text::views(out@) + new_ctx(hash_mode, nhv, nv, cbs as int, bend as int));
    }
    push_added_lines(&mut out, hash_mode, nh, new_len, at, &c);
    if ae <= cae as u128 {
        push_new_ctx(&mut out, hash_mode, nh, new, ae as usize, cae);
    } else {
        assert(new_ctx(hash_mode, nhv, nv, ae as int, cae as int) =~= Seq::<Seq<char>>::empty());
        assert(text::views(out@) =~= text::views(out@) + new_ctx(hash_mode, nhv, nv, ae as int, cae as int));
    }
    push_ellipsis(&mut out, cae < new_len);
    assert(o0 =~= Seq::<Seq<char>>::empty());
    out
}

/// The report of a batch (see `batch_diff`), given the identifiers of the
/// original lines (`oh`) and of the new lines (`nh`).
pub fn render_batch_diff(
    ops: &Vec<BatchOperation>,
    orig: &Vec<String>,
    new: &Vec<String>,
    hash_mode: bool,
    oh: &Vec<String>,
    nh: &Vec<String>,
) -> (r: String)
    requires
        ops_resolved(op_views(ops@), orig@.len()),
        text::views(oh@) == crate::line_hash::line_hashes(text::views(orig@)),
        text::views(nh@) == crate::line_hash::line_hashes(text::views(new@)),
    ensures
        r@ == batch_diff(op_views(ops@), text::views(orig@), text::views(new@), hash_mode),
{
    let ghost ov = text::views(orig@);
    let ghost nv = text::views(new@);
    let ghost opv = op_views(ops@);
    assert(text::views(oh@).len() == oh@.len());
    assert(text::views(nh@).len() == nh@.len());
    let order = sort_asc_exec(ops);
    let ghost d = display_order(opv);
    let ghost target = Seq::new(
        d.len(),
        |p: int| text::join(op_diff(opv[d[p]], ov, nv, hash_mode, text::views(oh@), text::views(nh@)), "\n"@),
    );
    assert(as_ints(order@).len() == order@.len());
    let mut parts: Vec<String> = Vec::new();
    let mut p: usize = 0;
    while p < order.len()
        invariant
            0 <= p <= order@.len(),
            ops_resolved(opv, orig@.len()),
            opv == op_views(ops@),
            ov == text::views(orig@),
            nv == text::views(new@),
            oh@.len() == orig@.len(),
            nh@.len() == new@.len(),
            as_ints(order@) == d,
            d.len() == order@.len(),
            forall|k: int| 0 <= k < order@.len() ==> order@[k] < ops@.len(),
            target == Seq::new(
                d.len(),
                |p: int| text::join(op_diff(opv[d[p]], ov, nv, hash_mode, text::views(oh@), text::views(nh@)), "\n"@),
            ),
            text::views(parts@) == target.subrange(0, p as int),
        decreases order@.len() - p,
    {
        let k = order[p];
        let op = &ops[k];
        assert(d[p as int] == k as int);
        assert(opv[k as int] == op@);
        assert(op_resolved(opv[k as int], orig@.len()));
        let lines = if op.operation_type == OperationType::Replace {
            render_replace_diff(op, orig, new, hash_mode, oh, nh)
        } else {
            render_insert_diff(op, new, hash_mode, nh)
        };
        let joined = text::join_strings(&lines, "\n");
        let ghost old_parts = parts@;
        parts.push(joined);
        assert(text::views(parts@) =~= text::views(old_parts).push(joined@));
        assert(text::views(parts@) =~= target.subrange(0, p + 1));
        p = p + 1;
    }
    assert(target.subrange(0, d.len() as int) =~= target);
    text::join_strings(&parts, "\n---\n")
}

/// References to the lines, for the functions that take string slices.
pub fn line_refs(v: &Vec<String>) -> (r: Vec<&str>)
    ensures
        crate::line_hash::str_views(r@) == text::views(v@),
{
    let mut r: Vec<&str> = Vec::new();
    let mut i: usize = 0;
    while i < v.len()
        invariant
            0 <= i <= v@.len(),
            crate::line_hash::str_views(r@) == text::views(v@).subrange(0, i as int),
        decreases v@.len() - i,
    {
        let ghost old_r = r@;
        r.push(v[i].as_str());
        assert(crate::line_hash::str_views(r@) =~= crate::line_hash::str_views(old_r).push(v@[i as int]@));
        assert(crate::line_hash::str_views(r@) =~= text::views(v@).subrange(0, i + 1));
        i = i + 1;
    }
    assert(text::views(v@).subrange(0, v@.len() as int) =~= text::views(v@));
    r
}

// ---------------------------------------------------------------------------
// Arguments
// ---------------------------------------------------------------------------

/// A JSON value inside a `line_range` array.
pub enum ScalarArg {
    /// A number, with its value where it is an integer that fits `i64`.
    Number(Option<i64>),
    Text(String),
    Other,
}

/// The JSON value of an operation's `line_range`.
pub enum RangeArg {
    /// A number, with its value where it is an integer that fits `i64`.
    Number(Option<i64>),
    Text(String),
    Array(Vec<ScalarArg>),
    Other,
}

/// One element of the `operations` array, as far as parsing reads it.
pub struct OperationArg {
    /// Whether the element is a JSON object; the fields are read from it.
    pub is_object: bool,
    /// The `operation` field, where it is a string.
    pub operation: Option<String>,
    /// The `line_range` field, where present.
    pub line_range: Option<RangeArg>,
    /// The `content` field, where it is a string.
    pub content: Option<String>,
}

/// The integer value of an array element, if it has one.
pub open spec fn scalar_i64(v: ScalarArg) -> Option<i64> {
    match v {
        ScalarArg::Number(n) => n,
        _ => None,
    }
}

/// A single line number: an insert anchor, or a one-line replace (never line 0).
pub open spec fn single_line_spec(l: i64, kind: OperationType) -> Result<UnresolvedSpec, Seq<char>> {
    match kind {
        OperationType::Insert => Ok(UnresolvedSpec::Single(l as int)),
        OperationType::Replace => if l == 0 {
            Err("Replace line numbers are 1-indexed, use 1 for first line"@)
        } else {
            Ok(UnresolvedSpec::Range(l as int, l as int))
        },
    }
}

/// What `parse_line_range` returns for a `line_range` value: a number, a
/// hash string, or an array of one number, two numbers (replace only) or two
/// hash strings (replace only).
pub open spec fn parse_range_spec(v: RangeArg, kind: OperationType) -> Result<UnresolvedSpec, Seq<char>> {
    match v {
        RangeArg::Number(n) => match n {
            None => Err("Line number must be an integer"@),
            Some(l) => single_line_spec(l, kind),
        },
        RangeArg::Text(h) => Ok(UnresolvedSpec::Hash(h@)),
        RangeArg::Array(a) => if a@.len() == 0 {
            Err("Line range array must have 1 or 2 elements"@)
        } else if a@[0] is Text {
            if a@.len() != 2 {
                Err("Hash range array must have exactly 2 elements"@)
            } else {
                match (a@[0], a@[1]) {
                    (ScalarArg::Text(x), ScalarArg::Text(y)) => match kind {
                        OperationType::Insert => Err("Insert operation cannot use hash range - use single hash"@),
                        OperationType::Replace => Ok(UnresolvedSpec::HashRange(x@, y@)),
                    },
                    _ => Err("Hash must be a string"@),
                }
            }
        } else if a@.len() == 1 {
            match scalar_i64(a@[0]) {
                None => Err("Line number must be an integer"@),
                Some(l) => single_line_spec(l, kind),
            }
        } else if a@.len() == 2 {
            match scalar_i64(a@[0]) {
                None => Err("Start line must be an integer"@),
                Some(st) => match scalar_i64(a@[1]) {
                    None => Err("End line must be an integer"@),
                    Some(en) => if st == 0 || en == 0 {
                        Err("Replace line numbers are 1-indexed, use 1 for first line"@)
                    } else {
                        match kind {
                            OperationType::Insert => Err(
                                "Insert operation cannot use line range - use single line number"@,
                            ),
                            OperationType::Replace => Ok(UnresolvedSpec::Range(st as int, en as int)),
                        }
                    },
                },
            }
        } else {
            Err("Line range array must have 1 or 2 elements"@)
        },
        RangeArg::Other => Err("Line range must be a number, array, or hash string"@),
    }
}

fn scalar_i64_exec(v: &ScalarArg) -> (r: Option<i64>)
    ensures
        r == scalar_i64(*v),
{
    match v {
        ScalarArg::Number(n) => *n,
        _ => None,
    }
}

fn single_line(l: i64, kind: OperationType) -> (r: Result<UnresolvedLineRange, String>)
    ensures
        match single_line_spec(l, kind) {
            Ok(u) => r matches Ok(x) && text_editing::unresolved_view(&x) == u,
            Err(m) => r matches Err(e) && e@ == m,
        },
{
    match kind {
        OperationType::Insert => Ok(UnresolvedLineRange::Single(l)),
        OperationType::Replace => {
            if l == 0 {
                return Err(text::owned("Replace line numbers are 1-indexed, use 1 for first line"));
            }
            Ok(UnresolvedLineRange::Range(l, l))
        },
    }
}

/// Parses an operation's `line_range` (see `parse_range_spec`).
pub fn parse_line_range(value: &RangeArg, operation_type: OperationType) -> (r: Result<UnresolvedLineRange, String>)
    ensures
        match parse_range_spec(*value, operation_type) {
            Ok(u) => r matches Ok(x) && text_editing::unresolved_view(&x) == u,
            Err(m) => r matches Err(e) && e@ == m,
        },
{
    match value {
        RangeArg::Number(n) => match n {
            None => Err(text::owned("Line number must be an integer")),
            Some(l) => single_line(*l, operation_type),
        },
        RangeArg::Text(h) => Ok(UnresolvedLineRange::Hash(h.clone())),
        RangeArg::Array(a) => {
            if a.len() == 0 {
                return Err(text::owned("Line range array must have 1 or 2 elements"));
            }
            if let ScalarArg::Text(x) = &a[0] {
                if a.len() != 2 {
                    return Err(text::owned("Hash range array must have exactly 2 elements"));
                }
                match &a[1] {
                    ScalarArg::Text(y) => match operation_type {
                        OperationType::Insert => Err(
                            text::owned("Insert operation cannot use hash range - use single hash"),
                        ),
                        OperationType::Replace => Ok(UnresolvedLineRange::HashRange(x.clone(), y.clone())),
                    },
                    _ => Err(text::owned("Hash must be a string")),
                }
            } else if a.len() == 1 {
                match scalar_i64_exec(&a[0]) {
                    None => Err(text::owned("Line number must be an integer")),
                    Some(l) => single_line(l, operation_type),
                }
            } else if a.len() == 2 {
                let st = match scalar_i64_exec(&a[0]) {
                    None => {
                        return Err(text::owned("Start line must be an integer"));
                    },
                    Some(v) => v,
                };
                let en = match scalar_i64_exec(&a[1]) {
                    None => {
                        return Err(text::owned("End line must be an integer"));
                    },
                    Some(v) => v,
                };
                if st == 0 || en == 0 {
                    return Err(text::owned("Replace line numbers are 1-indexed, use 1 for first line"));
                }
                match operation_type {
                    OperationType::Insert => Err(
                        text::owned("Insert operation cannot use line range - use single line number"),
                    ),
                    OperationType::Replace => Ok(UnresolvedLineRange::Range(st, en)),
                }
            } else {
                Err(text::owned("Line range array must have 1 or 2 elements"))
            }
        },
        RangeArg::Other => Err(text::owned("Line range must be a number, array, or hash string")),
    }
}

/// A parsed operation whose line range is not resolved yet.
pub struct UnresolvedBatchOperation {
    pub operation_type: OperationType,
    pub line_range: UnresolvedLineRange,
    pub content: String,
    pub operation_index: usize,
}

/// A parsed operation by value, for specifications.
pub struct UnresolvedOpView {
    pub operation_type: OperationType,
    pub line_range: UnresolvedSpec,
    pub content: Seq<char>,
    pub operation_index: nat,
}

impl View for UnresolvedBatchOperation {
    type V = UnresolvedOpView;

    open spec fn view(&self) -> UnresolvedOpView {
        UnresolvedOpView {
            operation_type: self.operation_type,
            line_range: text_editing::unresolved_view(&self.line_range),
            content: self.content@,
            operation_index: self.operation_index as nat,
        }
    }
}

/// The operation kind an `operation` string names.
pub open spec fn op_kind_of(o: Seq<char>) -> Option<OperationType> {
    if o == "insert"@ {
        Some(OperationType::Insert)
    } else if o == "replace"@ {
        Some(OperationType::Replace)
    } else {
        None
    }
}

/// The operation an element of the array describes, if it is an object with
/// a known `operation`, a valid `line_range` and a string `content`.
pub open spec fn parse_op_spec(a: OperationArg, idx: nat) -> Option<UnresolvedOpView> {
    if !a.is_object {
        None
    } else {
        match a.operation {
            None => None,
            Some(o) => match op_kind_of(o@) {
                None => None,
                Some(k) => match a.line_range {
                    None => None,
                    Some(r) => match parse_range_spec(r, k) {
                        Err(_) => None,
                        Ok(u) => match a.content {
                            None => None,
                            Some(c) => Some(
                                UnresolvedOpView { operation_type: k, line_range: u, content: c@, operation_index: idx },
                            ),
                        },
                    },
                },
            },
        }
    }
}

/// The operations that parse, in order, each with its index in the array.
pub open spec fn parsed_ops(args: Seq<OperationArg>) -> Seq<UnresolvedOpView>
    decreases args.len(),
{
    if args.len() == 0 {
        Seq::<UnresolvedOpView>::empty()
    } else {
        let p = parsed_ops(args.drop_last());
        match parse_op_spec(args.last(), (args.len() - 1) as nat) {
            Some(u) => p.push(u),
            None => p,
        }
    }
}

/// Parses one element of the `operations` array (see `parse_op_spec`).
pub fn parse_operation(arg: &OperationArg, index: usize) -> (r: Option<UnresolvedBatchOperation>)
    ensures
        match parse_op_spec(*arg, index as nat) {
            Some(u) => r matches Some(x) && x@ == u,
            None => r is None,
        },
{
    if !arg.is_object {
        return None;
    }
    let o = match &arg.operation {
        None => {
            return None;
        },
        Some(o) => o,
    };
    proof {
        reveal_strlit("insert");
        reveal_strlit("replace");
    }
    let kind = if text::str_eq(o.as_str(), "insert") {
        OperationType::Insert
    } else if text::str_eq(o.as_str(), "replace") {
        OperationType::Replace
    } else {
        return None;
    };
    let range = match &arg.line_range {
        None => {
            return None;
        },
        Some(r) => match parse_line_range(r, kind) {
            Err(_) => {
                return None;
            },
            Ok(u) => u,
        },
    };
    let content = match &arg.content {
        None => {
            return None;
        },
        Some(c) => c.clone(),
    };
    Some(UnresolvedBatchOperation { operation_type: kind, line_range: range, content, operation_index: index })
}

/// A resolved range from its `(single, start, end)` description.
pub open spec fn resolved_range(t: (bool, nat, nat)) -> LineRange {
    if t.0 {
        LineRange::Single(t.1 as usize)
    } else {
        LineRange::Range(t.1 as usize, t.2 as usize)
    }
}

/// The parsed operations with their ranges resolved against the file's
/// lines, or the report of the first that does not resolve.
#[verifier::opaque]
pub open spec fn resolve_ops_spec(p: Seq<UnresolvedOpView>, lines: Seq<Seq<char>>) -> Result<Seq<OpView>, Seq<char>>
    decreases p.len(),
{
    if p.len() == 0 {
        Ok(Seq::<OpView>::empty())
    } else {
        match resolve_ops_spec(p.drop_last(), lines) {
            Err(m) => Err(m),
            Ok(v) => {
                let u = p.last();
                match text_editing::resolve_unresolved_spec(u.line_range, lines) {
                    Err(e) => Err("Invalid line range in operation "@ + text::dec(u.operation_index) + ": "@ + e),
                    Ok(t) => Ok(
                        v.push(
                            OpView {
                                operation_type: u.operation_type,
                                line_range: resolved_range(t),
                                content: u.content,
                                operation_index: u.operation_index,
                            },
                        ),
                    ),
                }
            },
        }
    }
}

// ---------------------------------------------------------------------------
// The whole batch edit
// ---------------------------------------------------------------------------

/// The most operations one batch may hold.
pub const MAX_OPERATIONS: usize = 50;

/// The refusal of a batch some of whose operations do not parse: the batch
/// is applied whole or not at all.
pub open spec fn partial_parse_message(failed: nat, total: nat) -> Seq<char> {
    "Batch not applied: "@ + text::dec(failed) + " of "@ + text::dec(total)
        + " operations failed during parsing; no operation was applied."@
}

/// What `plan_batch_edit` returns: the checks on the batch in order (size,
/// parsing, resolution, conflicts, duplicates, application), then the new
/// content and the diff report. A batch is applied whole or not at all: an
/// element that does not parse refuses the whole batch.
pub open spec fn plan_spec(original: Seq<char>, args: Seq<OperationArg>, hash_mode: bool) -> Result<
    (Seq<char>, Seq<char>),
    Seq<char>,
> {
    if args.len() == 0 {
        Err("Operations array is empty — nothing to do."@)
    } else if args.len() > MAX_OPERATIONS {
        Err("Too many operations: "@ + text::dec(args.len()) + " (max 50). Split into multiple calls."@)
    } else {
        let parsed = parsed_ops(args);
        if parsed.len() == 0 {
            Err("No valid operations found. "@ + text::dec(args.len()) + " operations failed during parsing."@)
        } else if parsed.len() < args.len() {
            Err(partial_parse_message((args.len() - parsed.len()) as nat, args.len()))
        } else {
            let lines = text::lines_of(original);
            match resolve_ops_spec(parsed, lines) {
                Err(m) => Err(m),
                Ok(ops) => {
                    let oh = crate::line_hash::line_hashes(lines);
                    match first_conflict(ops) {
                        Some((i, j)) => Err(conflict_message(ops, i, j, hash_mode, oh)),
                        None => match dup_from(ops, lines, hash_mode, oh, 0) {
                            Some(m) => Err(m),
                            None => match apply_spec(original, ops) {
                                Err(m) => Err("Failed to apply operations: "@ + m),
                                Ok(c) => Ok((c, batch_diff(ops, lines, text::lines_of(c), hash_mode))),
                            },
                        },
                    }
                },
            }
        }
    }
}

proof fn lemma_parsed_all(args: Seq<OperationArg>, k: int)
    requires
        0 <= k < args.len(),
        parse_op_spec(args[k], k as nat) is None,
    ensures
        parsed_ops(args).len() < args.len(),
    decreases args.len(),
{
    lemma_parsed_ops(args.drop_last());
    if k < args.len() - 1 {
        assert(args.drop_last()[k] == args[k]);
        lemma_parsed_all(args.drop_last(), k);
    }
}

/// A batch is applied whole or not at all: where any element of the
/// operations array does not parse, the batch is refused and no content is
/// produced.
pub proof fn lemma_unparsed_refuses_batch(original: Seq<char>, args: Seq<OperationArg>, hash_mode: bool, k: int)
    requires
        0 <= k < args.len(),
        parse_op_spec(args[k], k as nat) is None,
    ensures
        plan_spec(original, args, hash_mode) is Err,
{
    lemma_parsed_all(args, k);
}

/// Whether the batch can be carried out without a failure of the process
/// itself: no line number resolved on the way is `i64::MIN`, and in hash
/// mode the first conflict or duplicate reported does not need the name of
/// a line before the first.
pub open spec fn plan_defined(original: Seq<char>, args: Seq<OperationArg>, hash_mode: bool) -> bool {
    let parsed = parsed_ops(args);
    let lines = text::lines_of(original);
    1 <= args.len() <= MAX_OPERATIONS && parsed.len() == args.len() ==> {
        &&& forall|k: int|
            0 <= k < parsed.len() && resolve_ops_spec(parsed.subrange(0, k), lines) is Ok
                ==> text_editing::unresolved_in_bounds(#[trigger] parsed[k].line_range)
        &&& match resolve_ops_spec(parsed, lines) {
            Ok(ops) => conflict_nameable(ops, hash_mode, lines.len()) && (first_conflict(ops) is None ==> dup_nameable(
                ops,
                lines,
                hash_mode,
            )),
            Err(_) => true,
        }
    }
}

/// Whether an element's content is small enough for the line arithmetic.
pub open spec fn arg_content_bounded(a: OperationArg) -> bool {
    a.content matches Some(c) ==> c@.len() < 0x100_0000_0000
}

/// The shapes parsing gives: inserts go after a line or hash; replaces
/// cover a range (of non-zero numbers), a hash or a hash range.
pub open spec fn parsed_shape(u: UnresolvedOpView) -> bool {
    match u.operation_type {
        OperationType::Insert => u.line_range is Single || u.line_range is Hash,
        OperationType::Replace => match u.line_range {
            UnresolvedSpec::Range(a, b) => a != 0 && b != 0,
            UnresolvedSpec::Single(_) => false,
            _ => true,
        },
    }
}

proof fn lemma_parsed_ops(args: Seq<OperationArg>)
    ensures
        parsed_ops(args).len() <= args.len(),
        forall|p: int| 0 <= p < parsed_ops(args).len() ==> parsed_shape(#[trigger] parsed_ops(args)[p]),
        (forall|k: int| 0 <= k < args.len() ==> arg_content_bounded(#[trigger] args[k])) ==> forall|p: int|
            0 <= p < parsed_ops(args).len() ==> (#[trigger] parsed_ops(args)[p]).content.len() < 0x100_0000_0000,
    decreases args.len(),
{
    if args.len() > 0 {
        lemma_parsed_ops(args.drop_last());
        let a = args.last();
        if (forall|k: int| 0 <= k < args.len() ==> arg_content_bounded(#[trigger] args[k])) {
            assert(forall|k: int|
                0 <= k < args.drop_last().len() ==> arg_content_bounded(#[trigger] args.drop_last()[k])) by {
                assert forall|k: int| 0 <= k < args.drop_last().len() implies arg_content_bounded(
                    #[trigger] args.drop_last()[k],
                ) by {
                    assert(args.drop_last()[k] == args[k]);
                }
            }
            assert(arg_content_bounded(args[args.len() - 1]));
        }
    }
}

proof fn lemma_hash_line(h: Seq<char>, lines: Seq<Seq<char>>)
    ensures
        text_editing::hash_line_spec(h, lines) matches Ok(n) ==> 1 <= n <= lines.len(),
{
    crate::line_hash::lemma_last_pos(crate::line_hash::line_hashes(lines), h);
}

proof fn lemma_index_range(index: int, total: nat)
    ensures
        text_editing::resolve_index_spec(index, total) matches Ok(n) ==> 1 <= n <= total,
{
}

proof fn lemma_range_range(a: int, b: int, total: nat)
    ensures
        text_editing::resolve_range_spec(a, b, total) matches Ok((s, e)) ==> 1 <= s <= e <= total,
{
    lemma_index_range(a, total);
    lemma_index_range(b, total);
}

proof fn lemma_resolve_one(u: UnresolvedOpView, lines: Seq<Seq<char>>)
    requires
        parsed_shape(u),
        lines.len() <= usize::MAX,
    ensures
        text_editing::resolve_unresolved_spec(u.line_range, lines) matches Ok(t) ==> op_resolved(
            OpView {
                operation_type: u.operation_type,
                line_range: resolved_range(t),
                content: u.content,
                operation_index: u.operation_index,
            },
            lines.len(),
        ),
{
    let r = text_editing::resolve_unresolved_spec(u.line_range, lines);
    match u.line_range {
        UnresolvedSpec::Single(l) => {
            lemma_index_range(l, lines.len());
            if l != 0 {
                assert(r matches Ok(t) ==> t.0 && 1 <= t.1 <= lines.len());
            }
        },
        UnresolvedSpec::Range(a, b) => {
            lemma_range_range(a, b, lines.len());
            assert(r matches Ok(t) ==> !t.0 && 1 <= t.1 <= t.2 <= lines.len());
        },
        UnresolvedSpec::Hash(h) => {
            lemma_hash_line(h, lines);
            assert(r matches Ok(t) ==> t.0 && 1 <= t.1 <= lines.len() && t.1 == t.2);
        },
        UnresolvedSpec::HashRange(a, b) => {
            lemma_hash_line(a, lines);
            lemma_hash_line(b, lines);
            assert(r matches Ok(t) ==> !t.0 && 1 <= t.1 <= t.2 <= lines.len());
        },
    }
}

proof fn lemma_resolve_step(p: Seq<UnresolvedOpView>, lines: Seq<Seq<char>>, k: int)
    requires
        0 <= k < p.len(),
    ensures
        resolve_ops_spec(p.subrange(0, k + 1), lines) == match resolve_ops_spec(p.subrange(0, k), lines) {
            Err(m) => Err(m),
            Ok(v) => match text_editing::resolve_unresolved_spec(p[k].line_range, lines) {
                Err(e) => Err("Invalid line range in operation "@ + text::dec(p[k].operation_index) + ": "@ + e),
                Ok(t) => Ok(
                    v.push(
                        OpView {
                            operation_type: p[k].operation_type,
                            line_range: resolved_range(t),
                            content: p[k].content,
                            operation_index: p[k].operation_index,
                        },
                    ),
                ),
            },
        },
{
    reveal(resolve_ops_spec);
    assert(p.subrange(0, k + 1).drop_last() =~= p.subrange(0, k));
    assert(p.subrange(0, k + 1).last() == p[k]);
}

proof fn lemma_resolve_empty(lines: Seq<Seq<char>>)
    ensures
        resolve_ops_spec(Seq::<UnresolvedOpView>::empty(), lines) == Ok::<Seq<OpView>, Seq<char>>(Seq::<OpView>::empty()),
{
    reveal(resolve_ops_spec);
}

proof fn lemma_resolve_prefix_err(p: Seq<UnresolvedOpView>, lines: Seq<Seq<char>>, j: int)
    requires
        0 <= j <= p.len(),
        resolve_ops_spec(p.subrange(0, j), lines) is Err,
    ensures
        resolve_ops_spec(p, lines) == resolve_ops_spec(p.subrange(0, j), lines),
    decreases p.len() - j,
{
    reveal(resolve_ops_spec);
    if j < p.len() {
        let q = p.subrange(0, j + 1);
        assert(q.drop_last() =~= p.subrange(0, j));
        lemma_resolve_prefix_err(p, lines, j + 1);
    } else {
        assert(p.subrange(0, p.len() as int) =~= p);
    }
}

proof fn lemma_resolve_ops(p: Seq<UnresolvedOpView>, lines: Seq<Seq<char>>)
    requires
        forall|k: int| 0 <= k < p.len() ==> parsed_shape(#[trigger] p[k]),
        lines.len() <= usize::MAX,
    ensures
        resolve_ops_spec(p, lines) matches Ok(ops) ==> ops.len() == p.len() && ops_resolved(ops, lines.len())
            && forall|k: int| 0 <= k < p.len() ==> (#[trigger] ops[k]).content == p[k].content,
    decreases p.len(),
{
    reveal(resolve_ops_spec);
    if p.len() > 0 {
        let d = p.drop_last();
        assert forall|k: int| 0 <= k < d.len() implies parsed_shape(#[trigger] d[k]) by {
            assert(d[k] == p[k]);
        }
        lemma_resolve_ops(d, lines);
        let u = p.last();
        assert(parsed_shape(p[p.len() - 1]));
        lemma_resolve_one(u, lines);
        if let Ok(ops) = resolve_ops_spec(p, lines) {
            let prev = resolve_ops_spec(d, lines)->Ok_0;
            assert(ops == prev.push(ops.last()));
            assert forall|k: int| 0 <= k < ops.len() implies #[trigger] op_resolved(ops[k], lines.len()) by {
                if k < prev.len() {
                    assert(ops[k] == prev[k]);
                }
            }
            assert forall|k: int| 0 <= k < p.len() implies (#[trigger] ops[k]).content == p[k].content by {
                if k < prev.len() {
                    assert(ops[k] == prev[k]);
                    assert(d[k] == p[k]);
                }
            }
        }
    }
}

proof fn lemma_conflict_free(ops: Seq<OpView>, i: int, j: int)
    requires
        0 <= i < j,
        conflict_from(ops, i, j) is None,
    ensures
        forall|p: int, q: int|
            ((p == i && j <= q) || i < p) && p < q < ops.len() ==> !(#[trigger] ops_conflict(ops[p], ops[q])),
    decreases ops.len() - i, ops.len() - j,
{
    if i < ops.len() {
        if j >= ops.len() {
            lemma_conflict_free(ops, i + 1, i + 2);
        } else {
            lemma_conflict_free(ops, i, j + 1);
        }
    }
}

proof fn lemma_disjoint(ops: Seq<OpView>)
    requires
        first_conflict(ops) is None,
    ensures
        replaces_disjoint(ops),
{
    lemma_conflict_free(ops, 0, 1);
    assert forall|i: int, j: int|
        0 <= i < ops.len() && 0 <= j < ops.len() && i != j && ops[i].operation_type == OperationType::Replace
            && ops[j].operation_type == OperationType::Replace implies !(#[trigger] ops_conflict(ops[i], ops[j])) by {
        if i < j {
            assert(!ops_conflict(ops[i], ops[j]));
        } else {
            assert(!ops_conflict(ops[j], ops[i]));
        }
    }
}

/// The parsed operations by value.
pub open spec fn unresolved_views(v: Seq<UnresolvedBatchOperation>) -> Seq<UnresolvedOpView> {
    v.map_values(|u: UnresolvedBatchOperation| u@)
}

/// The new content of a batch edit and its diff report.
pub struct BatchEditOutcome {
    pub content: String,
    pub diff: String,
}

/// Checks the number of operations a batch holds.
pub fn validate_operation_count(n: usize) -> (r: Result<(), String>)
    ensures
        n == 0 ==> (r matches Err(m) && m@ == "Operations array is empty — nothing to do."@),
        n > MAX_OPERATIONS ==> (r matches Err(m) && m@ == "Too many operations: "@ + text::dec(n as nat)
            + " (max 50). Split into multiple calls."@),
        1 <= n <= MAX_OPERATIONS ==> r is Ok,
{
    if n == 0 {
        return Err(text::owned("Operations array is empty — nothing to do."));
    }
    if n > MAX_OPERATIONS {
        let mut m = text::owned("Too many operations: ");
        text::push_dec(&mut m, n);
        text::push_str(&mut m, " (max 50). Split into multiple calls.");
        assert(m@ =~= "Too many operations: "@ + text::dec(n as nat) + " (max 50). Split into multiple calls."@);
        return Err(m);
    }
    Ok(())
}

/// Resolves the parsed operations against the file's lines, in order; the
/// first that does not resolve is reported (see `resolve_ops_spec`).
#[verifier::rlimit(60)]
pub fn resolve_operations(parsed: &Vec<UnresolvedBatchOperation>, lines: &Vec<String>) -> (r: Result<
    Vec<BatchOperation>,
    String,
>)
    requires
        lines@.len() < usize::MAX,
        forall|q: int|
            0 <= q < parsed@.len() && resolve_ops_spec(unresolved_views(parsed@).subrange(0, q), text::views(lines@)) is Ok
                ==> text_editing::unresolved_in_bounds(#[trigger] unresolved_views(parsed@)[q].line_range),
    ensures
        match resolve_ops_spec(unresolved_views(parsed@), text::views(lines@)) {
            Ok(v) => r matches Ok(ops) && op_views(ops@) == v,
            Err(m) => r matches Err(e) && e@ == m,
        },
{
    let ghost pv = unresolved_views(parsed@);
    let ghost lv = text::views(lines@);
    let refs = line_refs(lines);
    let total = refs.len();
    assert(crate::line_hash::str_views(refs@).len() == refs@.len());
    assert(text::views(lines@).len() == lines@.len());
    let mut ops: Vec<BatchOperation> = Vec::new();
    let mut k: usize = 0;
    assert(pv.subrange(0, 0) =~= Seq::<UnresolvedOpView>::empty());
    assert(op_views(ops@) =~= Seq::<OpView>::empty());
    proof {
        lemma_resolve_empty(lv);
    }
    while k < parsed.len()
        invariant
            pv == unresolved_views(parsed@),
            forall|q: int|
                0 <= q < pv.len() && resolve_ops_spec(pv.subrange(0, q), lv) is Ok
                    ==> text_editing::unresolved_in_bounds(#[trigger] pv[q].line_range),
            lv == text::views(lines@),
            crate::line_hash::str_views(refs@) == lv,
            total == refs@.len(),
            refs@.len() == lines@.len(),
            lines@.len() < usize::MAX,
            0 <= k <= parsed@.len(),
            resolve_ops_spec(pv.subrange(0, k as int), lv) == Ok::<Seq<OpView>, Seq<char>>(op_views(ops@)),
        decreases parsed@.len() - k,
    {
        let u = &parsed[k];
        assert(pv[k as int] == u@);
        assert(text_editing::unresolved_in_bounds(pv[k as int].line_range));
        proof {
            lemma_resolve_step(pv, lv, k as int);
        }
        match text_editing::resolve_unresolved_line_range(&u.line_range, total, refs.as_slice()) {
            Ok(lr) => {
                let ghost old_ops = ops@;
                let op = BatchOperation {
                    operation_type: u.operation_type,
                    line_range: lr,
                    content: u.content.clone(),
                    operation_index: u.operation_index,
                };
                ops.push(op);
                assert(op_views(ops@) =~= op_views(old_ops).push(op@));
            },
            Err(e) => {
                let mut m = text::owned("Invalid line range in operation ");
                text::push_dec(&mut m, u.operation_index);
                text::push_str(&mut m, ": ");
                text::push_str(&mut m, e.as_str());
                assert(m@ =~= "Invalid line range in operation "@ + text::dec(u.operation_index as nat) + ": "@ + e@);
                proof {
                    lemma_resolve_prefix_err(pv, lv, k + 1);
                }
                return Err(m);
            },
        }
        k = k + 1;
    }
    assert(pv.subrange(0, pv.len() as int) =~= pv);
    Ok(ops)
}

/// Carries out a batch edit of `original` (see `plan_spec`): the new
/// content to write and the diff to report, or why the batch was refused.
pub fn plan_batch_edit(original: &str, operations: &Vec<OperationArg>, hash_mode: bool) -> (r: Result<
    BatchEditOutcome,
    String,
>)
    requires
        original@.len() < 0x100_0000_0000,
        original@.len() < usize::MAX,
        forall|k: int| 0 <= k < operations@.len() ==> arg_content_bounded(#[trigger] operations@[k]),
        plan_defined(original@, operations@, hash_mode),
    ensures
        match plan_spec(original@, operations@, hash_mode) {
            Ok((c, d)) => r matches Ok(o) && o.content@ == c && o.diff@ == d,
            Err(m) => r matches Err(e) && e@ == m,
        },
{
    let ghost args = operations@;
    let n = operations.len();
    match validate_operation_count(n) {
        Err(m) => {
            return Err(m);
        },
        Ok(()) => {},
    }
    // Parsing.
    let mut parsed: Vec<UnresolvedBatchOperation> = Vec::new();
    let mut i: usize = 0;
    assert(args.subrange(0, 0) =~= Seq::<OperationArg>::empty());
    assert(unresolved_views(parsed@) =~= Seq::<UnresolvedOpView>::empty());
    while i < n
        invariant
            n == args.len(),
            args == operations@,
            0 <= i <= n,
            unresolved_views(parsed@) == parsed_ops(args.subrange(0, i as int)),
        decreases n - i,
    {
        proof {
            let sub = args.subrange(0, i + 1);
            assert(sub.drop_last() =~= args.subrange(0, i as int));
            assert(sub.last() == args[i as int]);
        }
        let ghost old_p = parsed@;
        match parse_operation(&operations[i], i) {
            Some(u) => {
                parsed.push(u);
                assert(unresolved_views(parsed@) =~= unresolved_views(old_p).push(u@));
            },
            None => {},
        }
        i = i + 1;
    }
    assert(args.subrange(0, n as int) =~= args);
    let ghost pv = parsed_ops(args);
    proof {
        lemma_parsed_ops(args);
    }
    if parsed.len() == 0 {
        let mut m = text::owned("No valid operations found. ");
        text::push_dec(&mut m, n);
        text::push_str(&mut m, " operations failed during parsing.");
        assert(m@ =~= "No valid operations found. "@ + text::dec(n as nat) + " operations failed during parsing."@);
        return Err(m);
    }
    if parsed.len() < n {
        let mut m = text::owned("Batch not applied: ");
        text::push_dec(&mut m, n - parsed.len());
        text::push_str(&mut m, " of ");
        text::push_dec(&mut m, n);
        text::push_str(&mut m, " operations failed during parsing; no operation was applied.");
        assert(m@ =~= partial_parse_message((n - parsed.len()) as nat, n as nat));
        return Err(m);
    }
    // Resolution.
    let lines = text::split_lines(original);
    let ghost lv = text::views(lines@);
    proof {
        text::lemma_lines_len(original@);
    }
    let ops = match resolve_operations(&parsed, &lines) {
        Err(m) => {
            return Err(m);
        },
        Ok(o) => o,
    };
    let refs = line_refs(&lines);
    let ghost opv = op_views(ops@);
    proof {
        lemma_resolve_ops(pv, lv);
    }
    let oh = crate::line_hash::compute_line_hashes(refs.as_slice());
    assert(text::views(oh@).len() == oh@.len());
    // Conflicts and duplicates.
    match detect_conflicts(&ops, &oh, hash_mode) {
        Err(m) => {
            return Err(m);
        },
        Ok(()) => {},
    }
    match check_duplicates(&ops, &lines, &oh, hash_mode) {
        Err(m) => {
            return Err(m);
        },
        Ok(()) => {},
    }
    // Application.
    proof {
        lemma_disjoint(opv);
        assert forall|q: int| 0 <= q < opv.len() implies (#[trigger] opv[q]).content.len() < 0x100_0000_0000 by {
            assert(opv[q].content == pv[q].content);
        }
    }
    let content = match apply_batch_operations(original, &ops) {
        Err(e) => {
            let mut m = text::owned("Failed to apply operations: ");
            text::push_str(&mut m, e.as_str());
            assert(m@ =~= "Failed to apply operations: "@ + e@);
            return Err(m);
        },
        Ok(c) => c,
    };
    let new_lines = text::split_lines(content.as_str());
    let new_refs = line_refs(&new_lines);
    let nh = crate::line_hash::compute_line_hashes(new_refs.as_slice());
    let diff = render_batch_diff(&ops, &lines, &new_lines, hash_mode, &oh, &nh);
    Ok(BatchEditOutcome { content, diff })
}

fn unresolved_in_bounds_exec(u: &UnresolvedLineRange) -> (b: bool)
    ensures
        b == text_editing::unresolved_in_bounds(text_editing::unresolved_view(u)),
{
    match u {
        UnresolvedLineRange::Single(l) => *l > i64::MIN,
        UnresolvedLineRange::Range(a, b) => *a > i64::MIN && *b > i64::MIN,
        _ => true,
    }
}

fn first_dup_exec(ops: &Vec<BatchOperation>, file_lines: &Vec<String>) -> (r: Option<usize>)
    requires
        ops_resolved(op_views(ops@), file_lines@.len()),
        file_lines@.len() < usize::MAX,
    ensures
        match first_dup(op_views(ops@), text::views(file_lines@), 0) {
            Some(k) => r == Some(k as usize) && 0 <= k < ops@.len(),
            None => r is None,
        },
{
    let ghost f = text::views(file_lines@);
    let none: Vec<String> = Vec::new();
    let mut k: usize = 0;
    while k < ops.len()
        invariant
            0 <= k <= ops@.len(),
            ops_resolved(op_views(ops@), file_lines@.len()),
            file_lines@.len() < usize::MAX,
            f == text::views(file_lines@),
            first_dup(op_views(ops@), f, 0) == first_dup(op_views(ops@), f, k as int),
        decreases ops@.len() - k,
    {
        let op = &ops[k];
        assert(op_resolved(op_views(ops@)[k as int], file_lines@.len()));
        let content_lines = text::split_lines(op.content.as_str());
        let res = match op.operation_type {
            OperationType::Replace => {
                let (s, e) = text_editing::replace_range(&op.line_range);
                check_replace_duplicates(&content_lines, file_lines, s, e, op.operation_index, &none, false)
            },
            OperationType::Insert => {
                let a = text_editing::insert_anchor(&op.line_range);
                check_insert_duplicates(&content_lines, file_lines, a, op.operation_index, &none, false)
            },
        };
        if res.is_err() {
            return Some(k);
        }
        k = k + 1;
    }
    None
}

/// Whether every operation resolved on the way, up to the first that does
/// not resolve, has no line number `i64::MIN`.
#[verifier::rlimit(60)]
fn resolution_in_bounds(parsed: &Vec<UnresolvedBatchOperation>, lines: &Vec<String>) -> (b: bool)
    requires
        lines@.len() < usize::MAX,
    ensures
        b == forall|q: int|
            0 <= q < parsed@.len() && resolve_ops_spec(unresolved_views(parsed@).subrange(0, q), text::views(lines@)) is Ok
                ==> text_editing::unresolved_in_bounds(#[trigger] unresolved_views(parsed@)[q].line_range),
{
    let ghost pv = unresolved_views(parsed@);
    let ghost lv = text::views(lines@);
    let refs = line_refs(lines);
    let total = refs.len();
    assert(crate::line_hash::str_views(refs@).len() == refs@.len());
    assert(text::views(lines@).len() == lines@.len());
    let mut k: usize = 0;
    assert(pv.subrange(0, 0) =~= Seq::<UnresolvedOpView>::empty());
    proof {
        lemma_resolve_empty(lv);
    }
    while k < parsed.len()
        invariant
            pv == unresolved_views(parsed@),
            lv == text::views(lines@),
            crate::line_hash::str_views(refs@) == lv,
            total == refs@.len(),
            refs@.len() == lines@.len(),
            lines@.len() < usize::MAX,
            0 <= k <= parsed@.len(),
            resolve_ops_spec(pv.subrange(0, k as int), lv) is Ok,
            forall|q: int|
                0 <= q < k && resolve_ops_spec(pv.subrange(0, q), lv) is Ok
                    ==> text_editing::unresolved_in_bounds(#[trigger] pv[q].line_range),
        decreases parsed@.len() - k,
    {
        let u = &parsed[k];
        assert(pv[k as int] == u@);
        if !unresolved_in_bounds_exec(&u.line_range) {
            assert(!text_editing::unresolved_in_bounds(pv[k as int].line_range));
            return false;
        }
        proof {
            lemma_resolve_step(pv, lv, k as int);
        }
        match text_editing::resolve_unresolved_line_range(&u.line_range, total, refs.as_slice()) {
            Ok(_) => {},
            Err(_) => {
                proof {
                    assert forall|q: int|
                        0 <= q < pv.len() && resolve_ops_spec(pv.subrange(0, q), lv) is Ok
                            implies text_editing::unresolved_in_bounds(#[trigger] pv[q].line_range) by {
                        if q > k {
                            assert(pv.subrange(0, q).subrange(0, k + 1) =~= pv.subrange(0, k + 1));
                            lemma_resolve_prefix_err(pv.subrange(0, q), lv, k + 1);
                        }
                    }
                }
                return true;
            },
        }
        k = k + 1;
    }
    true
}

/// Whether `plan_batch_edit` can carry out the batch (see `plan_defined`);
/// where it cannot, the process itself would fail.
#[verifier::rlimit(60)]
pub fn batch_edit_defined(original: &str, operations: &Vec<OperationArg>, hash_mode: bool) -> (b: bool)
    requires
        original@.len() < usize::MAX,
    ensures
        b == plan_defined(original@, operations@, hash_mode),
{
    let ghost args = operations@;
    let n = operations.len();
    if n == 0 || n > MAX_OPERATIONS {
        return true;
    }
    let mut parsed: Vec<UnresolvedBatchOperation> = Vec::new();
    let mut i: usize = 0;
    assert(args.subrange(0, 0) =~= Seq::<OperationArg>::empty());
    assert(unresolved_views(parsed@) =~= Seq::<UnresolvedOpView>::empty());
    while i < n
        invariant
            n == args.len(),
            args == operations@,
            0 <= i <= n,
            unresolved_views(parsed@) == parsed_ops(args.subrange(0, i as int)),
        decreases n - i,
    {
        proof {
            let sub = args.subrange(0, i + 1);
            assert(sub.drop_last() =~= args.subrange(0, i as int));
            assert(sub.last() == args[i as int]);
        }
        let ghost old_p = parsed@;
        match parse_operation(&operations[i], i) {
            Some(u) => {
                parsed.push(u);
                assert(unresolved_views(parsed@) =~= unresolved_views(old_p).push(u@));
            },
            None => {},
        }
        i = i + 1;
    }
    assert(args.subrange(0, n as int) =~= args);
    let ghost pv = parsed_ops(args);
    proof {
        lemma_parsed_ops(args);
    }
    if parsed.len() < n {
        return true;
    }
    let lines = text::split_lines(original);
    let ghost lv = text::views(lines@);
    proof {
        text::lemma_lines_len(original@);
    }
    if !resolution_in_bounds(&parsed, &lines) {
        return false;
    }
    let total = lines.len();
    let ops = match resolve_operations(&parsed, &lines) {
        Err(_) => {
            return true;
        },
        Ok(o) => o,
    };
    let ghost opv = op_views(ops@);
    proof {
        lemma_resolve_ops(pv, lv);
    }
    match find_conflict(&ops) {
        Some((i, j)) => {
            if !hash_mode {
                return true;
            }
            let a = &ops[i];
            let b = &ops[j];
            if a.operation_type == OperationType::Replace {
                let (s1, e1) = text_editing::replace_range(&a.line_range);
                let (s2, e2) = text_editing::replace_range(&b.line_range);
                return 1 <= s1 && e1 <= total && 1 <= s2 && e2 <= total;
            } else {
                let l = text_editing::insert_anchor(&a.line_range);
                return 1 <= l && l <= total;
            }
        },
        None => {},
    }
    if !hash_mode {
        return true;
    }
    match first_dup_exec(&ops, &lines) {
        Some(k) => {
            let op = &ops[k];
            op.operation_type != OperationType::Insert || text_editing::insert_anchor(&op.line_range) >= 1
        },
        None => true,
    }
}

// ---------------------------------------------------------------------------
// The order of a batch does not matter
// ---------------------------------------------------------------------------

/// The operations at the positions `order`, in that order.
pub open spec fn ops_at(ops: Seq<OpView>, order: Seq<int>) -> Seq<OpView> {
    order.map_values(|k: int| ops[k])
}

/// Whether `p` lists each position `0..n` exactly once.
pub open spec fn is_permutation(p: Seq<int>, n: nat) -> bool {
    &&& p.len() == n
    &&& forall|j: int| 0 <= j < n ==> 0 <= #[trigger] p[j] < n
    &&& forall|j: int, k: int| 0 <= j < n && 0 <= k < n && j != k ==> #[trigger] p[j] != #[trigger] p[k]
    &&& forall|i: int| 0 <= i < n ==> #[trigger] p.contains(i)
}

/// `first_error` over the operations themselves.
spec fn first_error_v(vs: Seq<OpView>, len: nat, replace: bool, k: int) -> Option<Seq<char>>
    decreases vs.len() - k,
{
    if k < 0 || k >= vs.len() {
        None
    } else {
        let e = if replace {
            replace_error(vs[k], len)
        } else {
            insert_error(vs[k], len)
        };
        match e {
            Some(m) => Some(m),
            None => first_error_v(vs, len, replace, k + 1),
        }
    }
}

/// `replaced` over the operations themselves.
spec fn replaced_v(lines: Seq<Seq<char>>, vs: Seq<OpView>) -> Seq<Seq<char>>
    decreases vs.len(),
{
    if vs.len() == 0 {
        lines
    } else {
        let op = vs.last();
        splice(replaced_v(lines, vs.drop_last()), rstart(op) - 1, rend(op) as int, text::lines_of(op.content))
    }
}

/// `shift_sum` over the operations themselves.
spec fn shift_sum_v(a: int, vs: Seq<OpView>) -> int
    decreases vs.len(),
{
    if vs.len() == 0 {
        0
    } else {
        shift_sum_v(a, vs.drop_last()) + shift(a, vs.last())
    }
}

/// `inserted` over the operations themselves.
spec fn inserted_v(cur: Seq<Seq<char>>, rv: Seq<OpView>, iv: Seq<OpView>) -> Seq<Seq<char>>
    decreases iv.len(),
{
    if iv.len() == 0 {
        cur
    } else {
        let prev = inserted_v(cur, rv, iv.drop_last());
        let op = iv.last();
        let adj = anchor(op) + shift_sum_v(anchor(op) as int, rv);
        let q = if adj < 0 { 0 } else { adj };
        let pos = if q < prev.len() { q } else { prev.len() as int };
        splice(prev, pos, pos, text::lines_of(op.content))
    }
}

/// `apply_spec` over the replaces and inserts in the order they apply.
spec fn apply_views(original: Seq<char>, rv: Seq<OpView>, iv: Seq<OpView>) -> Result<Seq<char>, Seq<char>> {
    let lines = text::lines_of(original);
    match first_error_v(rv, lines.len(), true, 0) {
        Some(m) => Err(m),
        None => match first_error_v(iv, lines.len(), false, 0) {
            Some(m) => Err(m),
            None => Ok(with_final_newline(original, text::join(inserted_v(replaced_v(lines, rv), rv, iv), "\n"@))),
        },
    }
}

proof fn lemma_first_error_v(ops: Seq<OpView>, order: Seq<int>, len: nat, replace: bool, k: int)
    ensures
        first_error(ops, order, len, replace, k) == first_error_v(ops_at(ops, order), len, replace, k),
    decreases order.len() - k,
{
    if !(k < 0 || k >= order.len()) {
        lemma_first_error_v(ops, order, len, replace, k + 1);
    }
}

proof fn lemma_replaced_v(lines: Seq<Seq<char>>, ops: Seq<OpView>, order: Seq<int>)
    ensures
        replaced(lines, ops, order) == replaced_v(lines, ops_at(ops, order)),
    decreases order.len(),
{
    if order.len() > 0 {
        assert(ops_at(ops, order.drop_last()) =~= ops_at(ops, order).drop_last());
        lemma_replaced_v(lines, ops, order.drop_last());
    }
}

proof fn lemma_shift_sum_v(a: int, ops: Seq<OpView>, order: Seq<int>)
    ensures
        shift_sum(a, ops, order) == shift_sum_v(a, ops_at(ops, order)),
    decreases order.len(),
{
    if order.len() > 0 {
        assert(ops_at(ops, order.drop_last()) =~= ops_at(ops, order).drop_last());
        lemma_shift_sum_v(a, ops, order.drop_last());
    }
}

proof fn lemma_inserted_v(cur: Seq<Seq<char>>, ops: Seq<OpView>, ro: Seq<int>, io: Seq<int>)
    ensures
        inserted(cur, ops, ro, io) == inserted_v(cur, ops_at(ops, ro), ops_at(ops, io)),
    decreases io.len(),
{
    if io.len() > 0 {
        assert(ops_at(ops, io.drop_last()) =~= ops_at(ops, io).drop_last());
        lemma_inserted_v(cur, ops, ro, io.drop_last());
        let op = ops[io.last()];
        lemma_shift_sum_v(anchor(op) as int, ops, ro);
    }
}

proof fn lemma_apply_views(original: Seq<char>, ops: Seq<OpView>)
    ensures
        apply_spec(original, ops) == apply_views(
            original,
            ops_at(ops, replace_order(ops)),
            ops_at(ops, insert_order(ops)),
        ),
{
    let lines = text::lines_of(original);
    let ro = replace_order(ops);
    let io = insert_order(ops);
    lemma_first_error_v(ops, ro, lines.len(), true, 0);
    lemma_first_error_v(ops, io, lines.len(), false, 0);
    lemma_replaced_v(lines, ops, ro);
    lemma_inserted_v(replaced(lines, ops, ro), ops, ro, io);
}

proof fn lemma_kind_indices_has(ops: Seq<OpView>, kind: OperationType, i: int)
    requires
        0 <= i < ops.len(),
        ops[i].operation_type == kind,
    ensures
        kind_indices(ops, kind).contains(i),
    decreases ops.len(),
{
    if i < ops.len() - 1 {
        lemma_kind_indices_has(ops.drop_last(), kind, i);
        let w = choose|w: int| 0 <= w < kind_indices(ops.drop_last(), kind).len() && kind_indices(ops.drop_last(), kind)[w] == i;
        assert(kind_indices(ops, kind)[w] == i);
    } else {
        let k = kind_indices(ops, kind);
        assert(k[k.len() - 1] == i);
    }
}

proof fn lemma_sort_desc_has(idx: Seq<int>, ops: Seq<OpView>, q: int)
    requires
        0 <= q < idx.len(),
    ensures
        sort_desc(idx, ops).contains(idx[q]),
    decreases idx.len(),
{
    let d = idx.drop_last();
    let prev = sort_desc(d, ops);
    lemma_desc_slot(prev, idx.last(), ops);
    let slot = desc_slot(prev, idx.last(), ops);
    let r = prev.insert(slot, idx.last());
    if q < idx.len() - 1 {
        lemma_sort_desc_has(d, ops, q);
        let w = choose|w: int| 0 <= w < prev.len() && prev[w] == d[q];
        if w < slot {
            assert(r[w] == d[q]);
        } else {
            assert(r[w + 1] == d[q]);
        }
    } else {
        assert(r[slot] == idx[q]);
    }
}

/// Keys strictly descending.
spec fn strictly_descending(s: Seq<OpView>) -> bool {
    forall|p: int, q: int| 0 <= p < q < s.len() ==> sort_key(#[trigger] s[p]) > sort_key(#[trigger] s[q])
}

proof fn lemma_sorted_unique(s1: Seq<OpView>, s2: Seq<OpView>)
    requires
        strictly_descending(s1),
        strictly_descending(s2),
        forall|x: OpView| s1.contains(x) <==> s2.contains(x),
    ensures
        s1 == s2,
    decreases s1.len(),
{
    if s1.len() == 0 {
        if s2.len() > 0 {
            assert(s2.contains(s2[0]));
        }
        assert(s1 =~= s2);
    } else {
        assert(s1.contains(s1[0]));
        assert(s2.contains(s1[0]));
        assert(s2.len() > 0);
        assert(s2.contains(s2[0]));
        assert(s1.contains(s2[0]));
        let a = choose|q: int| 0 <= q < s1.len() && s1[q] == s2[0];
        let b = choose|q: int| 0 <= q < s2.len() && s2[q] == s1[0];
        if a > 0 {
            assert(sort_key(s1[0]) > sort_key(s1[a]));
            if b > 0 {
                assert(sort_key(s2[0]) > sort_key(s2[b]));
            }
        }
        if b > 0 {
            assert(sort_key(s2[0]) > sort_key(s2[b]));
        }
        assert(a == 0 || b == 0);
        assert(s1[0] == s2[0]);
        let t1 = s1.drop_first();
        let t2 = s2.drop_first();
        assert forall|p: int, q: int| 0 <= p < q < t1.len() implies sort_key(#[trigger] t1[p]) > sort_key(#[trigger] t1[q]) by {
            assert(t1[p] == s1[p + 1] && t1[q] == s1[q + 1]);
        }
        assert forall|p: int, q: int| 0 <= p < q < t2.len() implies sort_key(#[trigger] t2[p]) > sort_key(#[trigger] t2[q]) by {
            assert(t2[p] == s2[p + 1] && t2[q] == s2[q + 1]);
        }
        assert forall|x: OpView| t1.contains(x) <==> t2.contains(x) by {
            if t1.contains(x) {
                let w = choose|w: int| 0 <= w < t1.len() && t1[w] == x;
                assert(s1[w + 1] == x);
                assert(sort_key(s1[0]) > sort_key(s1[w + 1]));
                assert(s2.contains(x));
                let v = choose|v: int| 0 <= v < s2.len() && s2[v] == x;
                assert(v != 0);
                assert(t2[v - 1] == x);
            }
            if t2.contains(x) {
                let w = choose|w: int| 0 <= w < t2.len() && t2[w] == x;
                assert(s2[w + 1] == x);
                assert(sort_key(s2[0]) > sort_key(s2[w + 1]));
                assert(s1.contains(x));
                let v = choose|v: int| 0 <= v < s1.len() && s1[v] == x;
                assert(v != 0);
                assert(t1[v - 1] == x);
            }
        }
        lemma_sorted_unique(t1, t2);
        assert(s1 =~= s2) by {
            assert forall|q: int| 0 <= q < s1.len() implies s1[q] == s2[q] by {
                if q > 0 {
                    assert(s1[q] == t1[q - 1] && s2[q] == t2[q - 1]);
                }
            }
        }
    }
}

/// Whether `ops` lie in a file of `len` lines and no two conflict.
spec fn clean_batch(ops: Seq<OpView>, len: nat) -> bool {
    &&& ops_resolved(ops, len)
    &&& forall|i: int, j: int| 0 <= i < ops.len() && 0 <= j < ops.len() && i != j ==> !#[trigger] ops_conflict(ops[i], ops[j])
}

/// In a clean batch the operations of one kind, in the order they apply,
/// are sorted strictly by line and are exactly the operations of that kind.
proof fn lemma_kind_views(ops: Seq<OpView>, len: nat, kind: OperationType)
    requires
        clean_batch(ops, len),
    ensures
        strictly_descending(ops_at(ops, sort_desc(kind_indices(ops, kind), ops))),
        forall|x: OpView|
            #[trigger] ops_at(ops, sort_desc(kind_indices(ops, kind), ops)).contains(x) <==> (ops.contains(x)
                && x.operation_type == kind),
{
    let ki = kind_indices(ops, kind);
    lemma_kind_indices(ops, kind);
    assert forall|p: int, q: int| 0 <= p < q < ki.len() implies ki[p] != ki[q] by {
        assert(ki[p] < ki[q]);
    }
    lemma_sort_desc(ki, ops);
    let sd = sort_desc(ki, ops);
    let v = ops_at(ops, sd);
    assert forall|p: int| 0 <= p < sd.len() implies 0 <= #[trigger] sd[p] < ops.len() && ops[sd[p]].operation_type == kind by {
        assert(ki.contains(sd[p]));
        let w = choose|w: int| 0 <= w < ki.len() && ki[w] == sd[p];
        assert(ki[w] == sd[p]);
    }
    assert forall|p: int, q: int| 0 <= p < q < v.len() implies sort_key(#[trigger] v[p]) > sort_key(#[trigger] v[q]) by {
        assert(sd[p] != sd[q]);
        assert(sort_key(ops[sd[p]]) >= sort_key(ops[sd[q]]));
        assert(!ops_conflict(ops[sd[p]], ops[sd[q]]));
        assert(op_resolved(ops[sd[p]], len));
        assert(op_resolved(ops[sd[q]], len));
    }
    assert forall|x: OpView| #[trigger] v.contains(x) <==> (ops.contains(x) && x.operation_type == kind) by {
        if v.contains(x) {
            let w = choose|w: int| 0 <= w < v.len() && v[w] == x;
            assert(ops[sd[w]] == x);
        }
        if ops.contains(x) && x.operation_type == kind {
            let i = choose|i: int| 0 <= i < ops.len() && ops[i] == x;
            lemma_kind_indices_has(ops, kind, i);
            let w = choose|w: int| 0 <= w < ki.len() && ki[w] == i;
            lemma_sort_desc_has(ki, ops, w);
            let u = choose|u: int| 0 <= u < sd.len() && sd[u] == i;
            assert(v[u] == x);
        }
    }
}

/// A batch whose operations all lie inside the file and of which no two
/// conflict gives the same result in whatever order its operations are
/// listed: `p` reorders the batch.
pub proof fn lemma_batch_order_irrelevant(original: Seq<char>, ops: Seq<OpView>, p: Seq<int>)
    requires
        ops_resolved(ops, text::lines_of(original).len()),
        forall|i: int, j: int| 0 <= i < ops.len() && 0 <= j < ops.len() && i != j ==> !#[trigger] ops_conflict(ops[i], ops[j]),
        is_permutation(p, ops.len()),
    ensures
        apply_spec(original, ops_at(ops, p)) == apply_spec(original, ops),
{
    let len = text::lines_of(original).len();
    let perm = ops_at(ops, p);
    assert(clean_batch(ops, len));
    assert forall|j: int| 0 <= j < perm.len() implies #[trigger] op_resolved(perm[j], len) by {
        assert(perm[j] == ops[p[j]]);
    }
    assert forall|j: int, k: int| 0 <= j < perm.len() && 0 <= k < perm.len() && j != k implies !#[trigger] ops_conflict(
        perm[j],
        perm[k],
    ) by {
        assert(p[j] != p[k]);
        assert(perm[j] == ops[p[j]] && perm[k] == ops[p[k]]);
    }
    assert(clean_batch(perm, len));
    assert forall|x: OpView| #[trigger] ops.contains(x) <==> perm.contains(x) by {
        if ops.contains(x) {
            let i = choose|i: int| 0 <= i < ops.len() && ops[i] == x;
            assert(p.contains(i));
            let j = choose|j: int| 0 <= j < p.len() && p[j] == i;
            assert(perm[j] == x);
        }
        if perm.contains(x) {
            let j = choose|j: int| 0 <= j < perm.len() && perm[j] == x;
            assert(ops[p[j]] == x);
        }
    }
    lemma_kind_views(ops, len, OperationType::Replace);
    lemma_kind_views(perm, len, OperationType::Replace);
    lemma_kind_views(ops, len, OperationType::Insert);
    lemma_kind_views(perm, len, OperationType::Insert);
    let r1 = ops_at(ops, replace_order(ops));
    let r2 = ops_at(perm, replace_order(perm));
    let i1 = ops_at(ops, insert_order(ops));
    let i2 = ops_at(perm, insert_order(perm));
    assert forall|x: OpView| r1.contains(x) <==> r2.contains(x) by {
        assert(ops.contains(x) <==> perm.contains(x));
    }
    assert forall|x: OpView| i1.contains(x) <==> i2.contains(x) by {
        assert(ops.contains(x) <==> perm.contains(x));
    }
    lemma_sorted_unique(r1, r2);
    lemma_sorted_unique(i1, i2);
    lemma_apply_views(original, ops);
    lemma_apply_views(original, perm);
}

} // verus!

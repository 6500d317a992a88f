//! Character-level text utilities shared by the formatting and editing code.
//!
//! Text is modelled as `Seq<char>`; `lines_of` states exactly what `str::lines`
//! yields, `join` what `[..].join(sep)` yields and `dec` the decimal rendering
//! of a natural number.
use vstd::prelude::*;

verus! {

broadcast use vstd::string::group_string_axioms;

/// Appends one character to a string (`String::push`).
#[verifier::external_body]
pub(crate) fn push_char(s: &mut String, c: char)
    ensures
        final(s)@ == old(s)@.push(c),
{
    s.push(c);
}

/// The text `format!("{:?}", s)` gives for a string slice: the characters in
/// double quotes, with quotes, backslashes and control characters escaped.
pub uninterp spec fn str_debug(s: Seq<char>) -> Seq<char>;

/// `format!("{:?}", s)`: std's `Debug` rendering of a string slice; the
/// contract names the result and states nothing else of it.
#[verifier::external_body]
pub(crate) fn debug_str(s: &str) -> (r: String)
    ensures
        r@ == str_debug(s@),
{
    format!("{:?}", s)
}

/// The characters of a string slice, in order.
pub fn chars_of(s: &str) -> (v: Vec<char>)
    ensures
        v@ == s@,
{
    let mut v: Vec<char> = Vec::new();
    for c in iter: s.chars()
        invariant
            v@ == iter.seq().take(iter.index() as int),
            iter.seq() == s@,
    {
        v.push(c);
    }
    v
}

/// A string holding exactly the characters of `v[from..to]`.
pub fn string_of_range(v: &Vec<char>, from: usize, to: usize) -> (s: String)
    requires
        from <= to <= v.len(),
    ensures
        s@ == v@.subrange(from as int, to as int),
{
    let mut s = String::new();
    let mut i = from;
    while i < to
        invariant
            from <= i <= to <= v.len(),
            s@ == v@.subrange(from as int, i as int),
        decreases to - i,
    {
        push_char(&mut s, v[i]);
        i = i + 1;
    }
    s
}

/// A string holding exactly the characters of `v`.
pub fn string_of(v: &Vec<char>) -> (s: String)
    ensures
        s@ == v@,
{
    let s = string_of_range(v, 0, v.len());
    assert(v@.subrange(0, v@.len() as int) == v@);
    s
}

/// Appends all characters of `t` to `s`.
pub fn push_chars(s: &mut String, t: &Vec<char>)
    ensures
        final(s)@ == old(s)@ + t@,
{
    let mut i: usize = 0;
    while i < t.len()
        invariant
            0 <= i <= t.len(),
            s@ == old(s)@ + t@.subrange(0, i as int),
        decreases t.len() - i,
    {
        push_char(s, t[i]);
        i = i + 1;
    }
    assert(t@.subrange(0, t@.len() as int) == t@);
}

/// Appends the characters of a string slice.
pub fn push_str(s: &mut String, t: &str)
    ensures
        final(s)@ == old(s)@ + t@,
{
    let v = chars_of(t);
    push_chars(s, &v);
}

/// A copy of a string slice as an owned string.
pub fn owned(t: &str) -> (s: String)
    ensures
        s@ == t@,
{
    let mut s = String::new();
    push_str(&mut s, t);
    s
}

/// Character-wise equality of two strings.
pub fn seq_eq(a: &Vec<char>, b: &Vec<char>) -> (r: bool)
    ensures
        r == (a@ == b@),
{
    if a.len() != b.len() {
        return false;
    }
    let mut i: usize = 0;
    while i < a.len()
        invariant
            a.len() == b.len(),
            0 <= i <= a.len(),
            forall|j: int| 0 <= j < i ==> a@[j] == b@[j],
        decreases a.len() - i,
    {
        if a[i] != b[i] {
            return false;
        }
        i = i + 1;
    }
    assert(a@ =~= b@);
    true
}

/// Equality of two string slices by their characters.
pub fn str_eq(a: &str, b: &str) -> (r: bool)
    ensures
        r == (a@ == b@),
{
    let va = chars_of(a);
    let vb = chars_of(b);
    seq_eq(&va, &vb)
}

// ---------------------------------------------------------------------------
// Decimal and hexadecimal rendering
// ---------------------------------------------------------------------------

/// The decimal digit character for `d < 10`.
pub open spec fn digit_char(d: nat) -> char {
    if d == 0 { '0' }
    else if d == 1 { '1' }
    else if d == 2 { '2' }
    else if d == 3 { '3' }
    else if d == 4 { '4' }
    else if d == 5 { '5' }
    else if d == 6 { '6' }
    else if d == 7 { '7' }
    else if d == 8 { '8' }
    else { '9' }
}

/// Decimal rendering of a natural number, as `format!("{}", n)` prints it.
pub open spec fn dec(n: nat) -> Seq<char>
    decreases n,
{
    if n < 10 {
        seq![digit_char(n)]
    } else {
        dec(n / 10).push(digit_char(n % 10))
    }
}

fn digit(d: usize) -> (c: char)
    requires
        d < 10,
    ensures
        c == digit_char(d as nat),
{
    if d == 0 { '0' }
    else if d == 1 { '1' }
    else if d == 2 { '2' }
    else if d == 3 { '3' }
    else if d == 4 { '4' }
    else if d == 5 { '5' }
    else if d == 6 { '6' }
    else if d == 7 { '7' }
    else if d == 8 { '8' }
    else { '9' }
}

/// Appends the decimal rendering of `n`.
pub fn push_dec_u64(s: &mut String, n: u64)
    ensures
        final(s)@ == old(s)@ + dec(n as nat),
    decreases n,
{
    if n < 10 {
        push_char(s, digit(n as usize));
        assert(dec(n as nat) == seq![digit_char(n as nat)]);
    } else {
        push_dec_u64(s, n / 10);
        push_char(s, digit((n % 10) as usize));
        assert(old(s)@ + dec(n as nat) == old(s)@ + dec((n / 10) as nat) + seq![digit_char((n % 10) as nat)]);
    }
}

/// Appends the decimal rendering of `n`.
pub fn push_dec_u128(s: &mut String, n: u128)
    ensures
        final(s)@ == old(s)@ + dec(n as nat),
    decreases n,
{
    if n < 10 {
        push_char(s, digit(n as usize));
        assert(dec(n as nat) == seq![digit_char(n as nat)]);
    } else {
        push_dec_u128(s, n / 10);
        push_char(s, digit((n % 10) as usize));
        assert(old(s)@ + dec(n as nat) == old(s)@ + dec((n / 10) as nat) + seq![digit_char((n % 10) as nat)]);
    }
}

/// Appends the decimal rendering of `n`.
pub fn push_dec(s: &mut String, n: usize)
    ensures
        final(s)@ == old(s)@ + dec(n as nat),
{
    push_dec_u64(s, n as u64);
}

/// Decimal rendering of `n` as a new string.
pub fn dec_string(n: usize) -> (s: String)
    ensures
        s@ == dec(n as nat),
{
    let mut s = String::new();
    push_dec(&mut s, n);
    s
}

/// The lowercase hexadecimal digit character for `d < 16`.
pub open spec fn hex_char(d: nat) -> char {
    if d < 10 { digit_char(d) }
    else if d == 10 { 'a' }
    else if d == 11 { 'b' }
    else if d == 12 { 'c' }
    else if d == 13 { 'd' }
    else if d == 14 { 'e' }
    else { 'f' }
}

/// Exactly `width` lowercase hex digits of `n` (most significant first),
/// as `format!("{:0width$x}", n)` prints a value below `16^width`.
pub open spec fn hex_fixed(n: nat, width: nat) -> Seq<char>
    decreases width,
{
    if width == 0 {
        seq![]
    } else {
        hex_fixed(n / 16, (width - 1) as nat).push(hex_char(n % 16))
    }
}

/// `hex_fixed` has exactly `width` digits.
pub proof fn lemma_hex_fixed_len(n: nat, width: nat)
    ensures
        hex_fixed(n, width).len() == width,
    decreases width,
{
    if width > 0 {
        lemma_hex_fixed_len(n / 16, (width - 1) as nat);
    }
}

fn hex_digit(d: u64) -> (c: char)
    requires
        d < 16,
    ensures
        c == hex_char(d as nat),
{
    if d < 10 { digit(d as usize) }
    else if d == 10 { 'a' }
    else if d == 11 { 'b' }
    else if d == 12 { 'c' }
    else if d == 13 { 'd' }
    else if d == 14 { 'e' }
    else { 'f' }
}

/// Appends the `width` low hex digits of `n`.
pub fn push_hex_fixed(s: &mut String, n: u64, width: usize)
    ensures
        final(s)@ == old(s)@ + hex_fixed(n as nat, width as nat),
    decreases width,
{
    if width > 0 {
        push_hex_fixed(s, n / 16, width - 1);
        push_char(s, hex_digit(n % 16));
        assert(old(s)@ + hex_fixed(n as nat, width as nat)
            == old(s)@ + hex_fixed((n / 16) as nat, (width - 1) as nat) + seq![hex_char((n % 16) as nat)]);
    } else {
        assert(old(s)@ + hex_fixed(n as nat, 0) == old(s)@);
    }
}

// ---------------------------------------------------------------------------
// Lines and joins
// ---------------------------------------------------------------------------

/// `s` split at every `'\n'` (the separators dropped); always at least one piece.
pub open spec fn split_nl(s: Seq<char>) -> Seq<Seq<char>>
    decreases s.len(),
{
    if s.len() == 0 {
        seq![Seq::<char>::empty()]
    } else {
        let prev = split_nl(s.drop_last());
        if s.last() == '\n' {
            prev.push(Seq::<char>::empty())
        } else {
            prev.update(prev.len() - 1, prev.last().push(s.last()))
        }
    }
}

/// A line with one trailing `'\r'` removed, if it has one.
pub open spec fn strip_cr(l: Seq<char>) -> Seq<char> {
    if l.len() > 0 && l.last() == '\r' {
        l.drop_last()
    } else {
        l
    }
}

/// The lines of `s` exactly as `str::lines` yields them: pieces ended by
/// `'\n'` lose one trailing `'\r'`; a final empty piece is not a line.
pub open spec fn lines_of(s: Seq<char>) -> Seq<Seq<char>> {
    let pieces = split_nl(s);
    let ended = pieces.drop_last().map_values(|l: Seq<char>| strip_cr(l));
    if pieces.last().len() == 0 {
        ended
    } else {
        ended.push(pieces.last())
    }
}

/// `parts` joined with `sep` between consecutive parts, as `[..].join(sep)`.
pub open spec fn join(parts: Seq<Seq<char>>, sep: Seq<char>) -> Seq<char>
    decreases parts.len(),
{
    if parts.len() == 0 {
        Seq::<char>::empty()
    } else if parts.len() == 1 {
        parts[0]
    } else {
        join(parts.drop_last(), sep) + sep + parts.last()
    }
}

/// The character views of a vector of strings.
pub open spec fn views(v: Seq<String>) -> Seq<Seq<char>> {
    v.map_values(|s: String| s@)
}

proof fn lemma_split_nl_nonempty(s: Seq<char>)
    ensures
        split_nl(s).len() >= 1,
    decreases s.len(),
{
    if s.len() > 0 {
        lemma_split_nl_nonempty(s.drop_last());
    }
}

/// Splits `s` into its lines (see `lines_of`).
pub fn split_lines(s: &str) -> (lines: Vec<String>)
    ensures
        views(lines@) == lines_of(s@),
{
    let cs = chars_of(s);
    split_lines_chars(&cs)
}

fn strip_cr_string(cur: &Vec<char>) -> (s: String)
    ensures
        s@ == strip_cr(cur@),
{
    if cur.len() > 0 && cur[cur.len() - 1] == '\r' {
        let s = string_of_range(cur, 0, cur.len() - 1);
        assert(cur@.subrange(0, cur.len() - 1) == cur@.drop_last());
        s
    } else {
        string_of(cur)
    }
}

/// Splits a character vector into its lines (see `lines_of`).
pub fn split_lines_chars(cs: &Vec<char>) -> (lines: Vec<String>)
    ensures
        views(lines@) == lines_of(cs@),
{
    let mut out: Vec<String> = Vec::new();
    let mut cur: Vec<char> = Vec::new();
    let mut i: usize = 0;
    assert(cs@.subrange(0, 0) =~= Seq::<char>::empty());
    assert(views(out@) =~= split_nl(cs@.subrange(0, 0)).drop_last().map_values(|l: Seq<char>| strip_cr(l)));
    while i < cs.len()
        invariant
            0 <= i <= cs.len(),
            split_nl(cs@.subrange(0, i as int)).len() >= 1,
            cur@ == split_nl(cs@.subrange(0, i as int)).last(),
            views(out@) == split_nl(cs@.subrange(0, i as int)).drop_last().map_values(
                |l: Seq<char>| strip_cr(l),
            ),
        decreases cs.len() - i,
    {
        let ghost p = split_nl(cs@.subrange(0, i as int));
        proof {
            assert(cs@.subrange(0, i + 1).drop_last() == cs@.subrange(0, i as int));
            assert(cs@.subrange(0, i + 1).last() == cs@[i as int]);
        }
        if cs[i] == '\n' {
            let piece = strip_cr_string(&cur);
            let ghost old_out = out@;
            out.push(piece);
            cur = Vec::new();
            proof {
                let p2 = split_nl(cs@.subrange(0, i + 1));
                assert(p2 == p.push(Seq::<char>::empty()));
                assert(p2.drop_last() == p);
                assert(views(out@) =~= views(old_out).push(strip_cr(p.last())));
                assert(p.map_values(|l: Seq<char>| strip_cr(l)) =~= p.drop_last().map_values(
                    |l: Seq<char>| strip_cr(l),
                ).push(strip_cr(p.last())));
            }
        } else {
            cur.push(cs[i]);
            proof {
                let p2 = split_nl(cs@.subrange(0, i + 1));
                assert(p2 == p.update(p.len() - 1, p.last().push(cs@[i as int])));
                assert(p2.drop_last() =~= p.drop_last());
            }
        }
        i = i + 1;
    }
    proof {
        assert(cs@.subrange(0, cs@.len() as int) == cs@);
    }
    if cur.len() > 0 {
        let last = string_of(&cur);
        let ghost old_out = out@;
        out.push(last);
        proof {
            assert(views(out@) =~= views(old_out).push(cur@));
        }
    }
    out
}

/// `parts` joined by `sep`, as `parts.join(sep)`.
pub fn join_strings(parts: &Vec<String>, sep: &str) -> (s: String)
    ensures
        s@ == join(views(parts@), sep@),
{
    let mut s = String::new();
    let sepv = chars_of(sep);
    let mut i: usize = 0;
    while i < parts.len()
        invariant
            0 <= i <= parts.len(),
            sepv@ == sep@,
            s@ == join(views(parts@.subrange(0, i as int)), sep@),
        decreases parts.len() - i,
    {
        proof {
            let a = views(parts@.subrange(0, i + 1));
            assert(a.drop_last() =~= views(parts@.subrange(0, i as int)));
            assert(a.last() == parts@[i as int]@);
            assert(a.len() == i + 1);
        }
        if i > 0 {
            push_chars(&mut s, &sepv);
        } else {
            assert(views(parts@.subrange(0, 0)) =~= Seq::<Seq<char>>::empty());
        }
        let part = parts[i].as_str();
        push_str(&mut s, part);
        i = i + 1;
    }
    assert(parts@.subrange(0, parts@.len() as int) == parts@);
    s
}

/// Number of `'\n'` characters in `s`.
pub open spec fn nl_count(s: Seq<char>) -> nat
    decreases s.len(),
{
    if s.len() == 0 {
        0
    } else {
        nl_count(s.drop_last()) + if s.last() == '\n' { 1nat } else { 0nat }
    }
}

proof fn lemma_split_nl_count(s: Seq<char>)
    ensures
        split_nl(s).len() == nl_count(s) + 1,
        nl_count(s) <= s.len(),
        split_nl(s).last().len() > 0 ==> nl_count(s) < s.len(),
    decreases s.len(),
{
    if s.len() > 0 {
        lemma_split_nl_count(s.drop_last());
    }
}

/// There are never more lines than characters.
pub proof fn lemma_lines_len(s: Seq<char>)
    ensures
        lines_of(s).len() <= s.len(),
{
    lemma_split_nl_count(s);
}

// ---------------------------------------------------------------------------
// Whitespace (Unicode `White_Space`, as `char::is_whitespace`)
// ---------------------------------------------------------------------------

/// `char::is_whitespace`: the Unicode `White_Space` characters.
pub open spec fn is_ws(c: char) -> bool {
    c == '\t' || c == '\n' || c == '\u{0B}' || c == '\u{0C}' || c == '\r' || c == ' ' || c == '\u{85}'
        || c == '\u{A0}' || c == '\u{1680}' || ('\u{2000}' <= c && c <= '\u{200A}') || c == '\u{2028}'
        || c == '\u{2029}' || c == '\u{202F}' || c == '\u{205F}' || c == '\u{3000}'
}

/// Whether `c` is whitespace.
pub fn is_ws_exec(c: char) -> (b: bool)
    ensures
        b == is_ws(c),
{
    c == '\t' || c == '\n' || c == '\u{0B}' || c == '\u{0C}' || c == '\r' || c == ' ' || c == '\u{85}'
        || c == '\u{A0}' || c == '\u{1680}' || ('\u{2000}' <= c && c <= '\u{200A}') || c == '\u{2028}'
        || c == '\u{2029}' || c == '\u{202F}' || c == '\u{205F}' || c == '\u{3000}'
}

/// Number of leading whitespace characters of `s`.
pub open spec fn lead_ws(s: Seq<char>) -> nat
    decreases s.len(),
{
    if s.len() == 0 || !is_ws(s[0]) {
        0
    } else {
        1 + lead_ws(s.drop_first())
    }
}

/// Number of trailing whitespace characters of `s`.
pub open spec fn trail_ws(s: Seq<char>) -> nat
    decreases s.len(),
{
    if s.len() == 0 || !is_ws(s.last()) {
        0
    } else {
        1 + trail_ws(s.drop_last())
    }
}

/// `str::trim_start`.
pub open spec fn trim_start(s: Seq<char>) -> Seq<char> {
    s.subrange(lead_ws(s) as int, s.len() as int)
}

/// `str::trim_end`.
pub open spec fn trim_end(s: Seq<char>) -> Seq<char> {
    s.subrange(0, s.len() - trail_ws(s))
}

/// `str::trim`.
pub open spec fn trim(s: Seq<char>) -> Seq<char> {
    trim_end(trim_start(s))
}

pub proof fn lemma_lead_ws(s: Seq<char>)
    ensures
        lead_ws(s) <= s.len(),
        forall|i: int| 0 <= i < lead_ws(s) ==> is_ws(#[trigger] s[i]),
        lead_ws(s) < s.len() ==> !is_ws(s[lead_ws(s) as int]),
    decreases s.len(),
{
    if s.len() > 0 && is_ws(s[0]) {
        lemma_lead_ws(s.drop_first());
        assert forall|i: int| 0 <= i < lead_ws(s) implies is_ws(#[trigger] s[i]) by {
            if i > 0 {
                assert(s.drop_first()[i - 1] == s[i]);
            }
        }
    }
}

pub proof fn lemma_trail_ws(s: Seq<char>)
    ensures
        trail_ws(s) <= s.len(),
        forall|i: int| s.len() - trail_ws(s) <= i < s.len() ==> is_ws(#[trigger] s[i]),
        trail_ws(s) < s.len() ==> !is_ws(s[s.len() - trail_ws(s) - 1]),
    decreases s.len(),
{
    if s.len() > 0 && is_ws(s.last()) {
        lemma_trail_ws(s.drop_last());
        assert forall|i: int| s.len() - trail_ws(s) <= i < s.len() implies is_ws(#[trigger] s[i]) by {
            if i < s.len() - 1 {
                assert(s.drop_last()[i] == s[i]);
            }
        }
    }
}

/// Count of leading whitespace characters.
pub fn lead_ws_exec(s: &Vec<char>) -> (n: usize)
    ensures
        n == lead_ws(s@),
{
    let mut i: usize = 0;
    assert(s@.subrange(0, s@.len() as int) =~= s@);
    while i < s.len() && is_ws_exec(s[i])
        invariant
            0 <= i <= s@.len(),
            lead_ws(s@) == i + lead_ws(s@.subrange(i as int, s@.len() as int)),
        decreases s.len() - i,
    {
        proof {
            let t = s@.subrange(i as int, s@.len() as int);
            assert(t[0] == s@[i as int]);
            assert(t.drop_first() =~= s@.subrange(i + 1, s@.len() as int));
        }
        i = i + 1;
    }
    proof {
        let t = s@.subrange(i as int, s@.len() as int);
        if i < s@.len() {
            assert(t[0] == s@[i as int]);
        }
    }
    i
}

/// Count of trailing whitespace characters.
pub fn trail_ws_exec(s: &Vec<char>) -> (n: usize)
    ensures
        n == trail_ws(s@),
{
    let mut i: usize = s.len();
    assert(s@.subrange(0, s@.len() as int) =~= s@);
    while i > 0 && is_ws_exec(s[i - 1])
        invariant
            0 <= i <= s@.len(),
            trail_ws(s@) == (s@.len() - i) + trail_ws(s@.subrange(0, i as int)),
        decreases i,
    {
        proof {
            let t = s@.subrange(0, i as int);
            assert(t.last() == s@[i - 1]);
            assert(t.drop_last() =~= s@.subrange(0, i - 1));
        }
        i = i - 1;
    }
    proof {
        let t = s@.subrange(0, i as int);
        if i > 0 {
            assert(t.last() == s@[i - 1]);
        }
    }
    s.len() - i
}

/// `s.trim()` as characters.
pub fn trim_chars(s: &Vec<char>) -> (t: Vec<char>)
    ensures
        t@ == trim(s@),
{
    let a = lead_ws_exec(s);
    let mut head: Vec<char> = Vec::new();
    let mut i = a;
    proof { lemma_lead_ws(s@); }
    while i < s.len()
        invariant
            a <= i <= s@.len(),
            a == lead_ws(s@),
            head@ == s@.subrange(a as int, i as int),
        decreases s.len() - i,
    {
        head.push(s[i]);
        i = i + 1;
        assert(head@ =~= s@.subrange(a as int, i as int));
    }
    let b = trail_ws_exec(&head);
    let mut out: Vec<char> = Vec::new();
    let mut j: usize = 0;
    proof { lemma_trail_ws(head@); }
    while j < head.len() - b
        invariant
            b == trail_ws(head@),
            b <= head@.len(),
            0 <= j <= head@.len() - b,
            out@ == head@.subrange(0, j as int),
        decreases head.len() - b - j,
    {
        out.push(head[j]);
        j = j + 1;
        assert(out@ =~= head@.subrange(0, j as int));
    }
    out
}

/// The whitespace-separated words of `s` (`str::split_whitespace`).
pub open spec fn words(s: Seq<char>) -> Seq<Seq<char>>
    decreases s.len(),
{
    if s.len() == 0 {
        Seq::<Seq<char>>::empty()
    } else {
        let w = words(s.drop_last());
        let c = s.last();
        if is_ws(c) {
            w
        } else if s.len() > 1 && !is_ws(s.drop_last().last()) {
            w.update(w.len() - 1, w.last().push(c))
        } else {
            w.push(seq![c])
        }
    }
}

proof fn lemma_words_nonempty(s: Seq<char>)
    ensures
        s.len() > 0 && !is_ws(s.last()) ==> words(s).len() > 0,
    decreases s.len(),
{
    if s.len() > 1 {
        lemma_words_nonempty(s.drop_last());
    }
}

/// `s.split_whitespace().collect::<Vec<_>>().join(" ")`.
pub open spec fn collapse_ws(s: Seq<char>) -> Seq<char> {
    join(words(s), " "@)
}

/// The words of a character vector (see `words`).
pub fn words_exec(s: &Vec<char>) -> (w: Vec<String>)
    ensures
        views(w@) == words(s@),
{
    let mut out: Vec<String> = Vec::new();
    let mut cur: Vec<char> = Vec::new();
    let mut i: usize = 0;
    while i < s.len()
        invariant
            0 <= i <= s@.len(),
            ({
                let w = words(s@.subrange(0, i as int));
                if i > 0 && !is_ws(s@[i - 1]) {
                    w.len() > 0 && views(out@) == w.drop_last() && cur@ == w.last() && cur@.len() > 0
                } else {
                    views(out@) == w && cur@.len() == 0
                }
            }),
        decreases s.len() - i,
    {
        let ghost pre = s@.subrange(0, i as int);
        let ghost w = words(pre);
        let ghost nxt = s@.subrange(0, i + 1);
        proof {
            assert(nxt.drop_last() =~= pre);
            assert(nxt.last() == s@[i as int]);
            if i > 0 {
                assert(pre.last() == s@[i - 1]);
                assert(nxt.drop_last().last() == s@[i - 1]);
            }
        }
        let c = s[i];
        if is_ws_exec(c) {
            assert(words(nxt) == w);
            if cur.len() > 0 {
                let piece = string_of(&cur);
                let ghost before = out@;
                out.push(piece);
                cur = Vec::new();
                proof {
                    assert(views(out@) =~= views(before).push(piece@));
                    assert(views(out@) =~= w);
                }
            }
        } else {
            let ghost old_cur = cur@;
            cur.push(c);
            proof {
                if i > 0 && !is_ws(s@[i - 1]) {
                    assert(words(nxt) == w.update(w.len() - 1, w.last().push(c)));
                    assert(words(nxt).drop_last() =~= w.drop_last());
                } else {
                    assert(words(nxt) == w.push(seq![c]));
                    assert(words(nxt).drop_last() =~= w);
                    assert(cur@ =~= seq![c]);
                }
            }
        }
        i = i + 1;
    }
    proof {
        assert(s@.subrange(0, s@.len() as int) =~= s@);
    }
    if cur.len() > 0 {
        let piece = string_of(&cur);
        let ghost before = out@;
        out.push(piece);
        proof {
            assert(views(out@) =~= views(before).push(piece@));
            let w = words(s@);
            assert(w =~= w.drop_last().push(w.last()));
        }
    }
    out
}

/// `s.split_whitespace().collect::<Vec<_>>().join(" ")` on characters.
pub fn collapse_ws_exec(s: &Vec<char>) -> (r: String)
    ensures
        r@ == collapse_ws(s@),
{
    let w = words_exec(s);
    join_strings(&w, " ")
}

} // verus!

//! Line identifiers: sequential numbers or position-dependent 4-hex-digit
//! FNV-1a hashes of `"{line_number}:{content}"`.
use vstd::prelude::*;
use crate::text;
use crate::text::push_hex_fixed;

verus! {

/// How lines are identified in rendered file content.
#[derive(Debug, Clone, Copy, PartialEq, Eq, Structural)]
pub enum LineMode {
    Number,
    Hash,
}

/// The process-wide line mode, settable once (later settings are ignored).
pub struct LineModeSetting {
    mode: Option<LineMode>,
}

impl LineModeSetting {
    /// A setting that has not been set yet.
    pub fn new() -> (s: Self)
        ensures
            s.mode() is None,
    {
        LineModeSetting { mode: None }
    }

    /// The mode that was set, if any.
    pub closed spec fn mode(&self) -> Option<LineMode> {
        self.mode
    }
}

/// Sets the line mode; only the first call has an effect.
pub fn set_line_mode(setting: &mut LineModeSetting, mode: LineMode)
    ensures
        final(setting).mode() == (match old(setting).mode() {
            Some(m) => Some(m),
            None => Some(mode),
        }),
{
    if setting.mode.is_none() {
        setting.mode = Some(mode);
    }
}

/// The line mode in effect: the one set, `Number` by default.
pub fn get_line_mode(setting: &LineModeSetting) -> (m: LineMode)
    ensures
        m == (match setting.mode() {
            Some(m) => m,
            None => LineMode::Number,
        }),
{
    match setting.mode {
        Some(m) => m,
        None => LineMode::Number,
    }
}

/// Whether lines are identified by hashes.
pub fn is_hash_mode(setting: &LineModeSetting) -> (b: bool)
    ensures
        b == (setting.mode() == Some(LineMode::Hash)),
{
    match setting.mode {
        Some(LineMode::Hash) => true,
        _ => false,
    }
}

pub open spec fn fnv_offset() -> u32 {
    2166136261u32
}

pub open spec fn fnv_prime() -> u32 {
    16777619u32
}

/// One FNV-1a step: xor the byte in, then multiply modulo 2^32.
pub open spec fn fnv_step(h: u32, b: u8) -> u32 {
    (((h ^ (b as u32)) as nat * fnv_prime() as nat) % 0x1_0000_0000) as u32
}

/// FNV-1a over `bytes`, starting from `h`.
pub open spec fn fnv_fold(h: u32, bytes: Seq<u8>) -> u32
    decreases bytes.len(),
{
    if bytes.len() == 0 {
        h
    } else {
        fnv_step(fnv_fold(h, bytes.drop_last()), bytes.last())
    }
}

/// The 32-bit FNV-1a hash of `bytes`, folded to 16 bits by xoring its halves.
pub open spec fn fnv16(bytes: Seq<u8>) -> u16 {
    let h = fnv_fold(fnv_offset(), bytes);
    ((h >> 16u32) ^ (h & 0xFFFFu32)) as u16
}

/// Decimal rendering of `n` as ASCII bytes.
pub open spec fn dec_bytes(n: nat) -> Seq<u8> {
    text::dec(n).map_values(|c: char| c as u8)
}

/// The bytes hashed for line number `number` holding `line`:
/// those of `format!("{}:{}", number, line)`.
pub open spec fn line_key(number: nat, line: Seq<char>) -> Seq<u8> {
    dec_bytes(number) + seq![58u8] + vstd::utf8::encode_utf8(line)
}

/// The identifier of the line at index `i` (number `i + 1`).
pub open spec fn line_hash(i: nat, line: Seq<char>) -> Seq<char> {
    text::hex_fixed(fnv16(line_key(i + 1, line)) as nat, 4)
}

/// The identifiers of all lines, in order.
pub open spec fn line_hashes(lines: Seq<Seq<char>>) -> Seq<Seq<char>> {
    Seq::new(lines.len(), |i: int| line_hash(i as nat, lines[i]))
}

/// The character views of a slice of string slices.
pub open spec fn str_views(v: Seq<&str>) -> Seq<Seq<char>> {
    v.map_values(|s: &str| s@)
}

fn fnv_bytes(bytes: &[u8]) -> (r: u16)
    ensures
        r == fnv16(bytes@),
{
    let mut hash: u32 = 2166136261;
    let mut i: usize = 0;
    while i < bytes.len()
        invariant
            0 <= i <= bytes.len(),
            hash == fnv_fold(fnv_offset(), bytes@.subrange(0, i as int)),
        decreases bytes.len() - i,
    {
        proof {
            assert(bytes@.subrange(0, i + 1).drop_last() == bytes@.subrange(0, i as int));
        }
        hash = hash ^ (bytes[i] as u32);
        hash = hash.wrapping_mul(16777619);
        i = i + 1;
    }
    proof {
        assert(bytes@.subrange(0, bytes@.len() as int) == bytes@);
    }
    ((hash >> 16) ^ (hash & 0xFFFF)) as u16
}

/// The 16-bit FNV-1a hash of the UTF-8 bytes of `content`.
pub fn fnv1a_16(content: &str) -> (r: u16)
    ensures
        r == fnv16(vstd::utf8::encode_utf8(content@)),
{
    fnv_bytes(content.as_bytes())
}

fn digit_byte(d: usize) -> (b: u8)
    requires
        d < 10,
    ensures
        b == text::digit_char(d as nat) as u8,
{
    (d as u8) + 48
}

fn push_dec_bytes(v: &mut Vec<u8>, n: usize)
    ensures
        final(v)@ == old(v)@ + dec_bytes(n as nat),
    decreases n,
{
    if n < 10 {
        v.push(digit_byte(n));
        assert(dec_bytes(n as nat) =~= seq![text::digit_char(n as nat) as u8]);
    } else {
        push_dec_bytes(v, n / 10);
        v.push(digit_byte(n % 10));
        assert(text::dec(n as nat) == text::dec((n / 10) as nat).push(text::digit_char((n % 10) as nat)));
        assert(dec_bytes(n as nat) =~= dec_bytes((n / 10) as nat).push(text::digit_char((n % 10) as nat) as u8));
    }
}

/// The identifier of line number `number` holding `line`.
fn hash_of_line(number: usize, line: &str) -> (h: String)
    ensures
        h@ == text::hex_fixed(fnv16(line_key(number as nat, line@)) as nat, 4),
{
    let mut key: Vec<u8> = Vec::new();
    push_dec_bytes(&mut key, number);
    key.push(58u8);
    let bytes = line.as_bytes();
    let ghost start = key@;
    let mut j: usize = 0;
    while j < bytes.len()
        invariant
            0 <= j <= bytes.len(),
            key@ == start + bytes@.subrange(0, j as int),
        decreases bytes.len() - j,
    {
        key.push(bytes[j]);
        j = j + 1;
        proof {
            assert(bytes@.subrange(0, j as int) == bytes@.subrange(0, j - 1).push(bytes@[j - 1]));
        }
    }
    proof {
        assert(bytes@.subrange(0, bytes@.len() as int) == bytes@);
        assert(key@ == line_key(number as nat, line@));
    }
    let h = fnv_bytes(key.as_slice());
    let mut s = String::new();
    push_hex_fixed(&mut s, h as u64, 4);
    s
}

/// The identifier of every line: `format!("{:04x}", fnv1a_16(&format!("{}:{}", i + 1, line)))`.
pub fn compute_line_hashes(lines: &[&str]) -> (hashes: Vec<String>)
    ensures
        text::views(hashes@) == line_hashes(str_views(lines@)),
{
    let mut hashes: Vec<String> = Vec::new();
    let mut i: usize = 0;
    while i < lines.len()
        invariant
            0 <= i <= lines@.len(),
            lines@.len() == lines.len(),
            text::views(hashes@) == line_hashes(str_views(lines@)).subrange(0, i as int),
        decreases lines.len() - i,
    {
        let h = hash_of_line(i + 1, lines[i]);
        let ghost old_h = hashes@;
        hashes.push(h);
        proof {
            assert(text::views(hashes@) =~= text::views(old_h).push(h@));
            assert(line_hashes(str_views(lines@)).subrange(0, i + 1) =~= line_hashes(
                str_views(lines@),
            ).subrange(0, i as int).push(line_hash(i as nat, lines@[i as int]@)));
        }
        i = i + 1;
    }
    proof {
        assert(line_hashes(str_views(lines@)).subrange(0, i as int) =~= line_hashes(
            str_views(lines@),
        ));
    }
    hashes
}

/// Index of the last element of `hs` equal to `h`, or -1 when none is.
pub open spec fn last_pos(hs: Seq<Seq<char>>, h: Seq<char>) -> int
    decreases hs.len(),
{
    if hs.len() == 0 {
        -1
    } else if hs.last() == h {
        hs.len() - 1
    } else {
        last_pos(hs.drop_last(), h)
    }
}

/// Number of distinct values in `hs`.
pub open spec fn distinct_count(hs: Seq<Seq<char>>) -> nat
    decreases hs.len(),
{
    if hs.len() == 0 {
        0
    } else if hs.drop_last().contains(hs.last()) {
        distinct_count(hs.drop_last())
    } else {
        distinct_count(hs.drop_last()) + 1
    }
}

pub proof fn lemma_last_pos(hs: Seq<Seq<char>>, h: Seq<char>)
    ensures
        -1 <= last_pos(hs, h) < hs.len(),
        last_pos(hs, h) >= 0 ==> hs[last_pos(hs, h)] == h,
        last_pos(hs, h) >= 0 <==> hs.contains(h),
        forall|j: int| last_pos(hs, h) < j < hs.len() ==> hs[j] != h,
    decreases hs.len(),
{
    if hs.len() > 0 {
        lemma_last_pos(hs.drop_last(), h);
        if hs.last() != h {
            if hs.contains(h) {
                let k = choose|k: int| 0 <= k < hs.len() && hs[k] == h;
                assert(hs.drop_last()[k] == h);
            }
            if hs.drop_last().contains(h) {
                let k = choose|k: int| 0 <= k < hs.drop_last().len() && hs.drop_last()[k] == h;
                assert(hs[k] == h);
            }
            assert forall|j: int| last_pos(hs, h) < j < hs.len() implies hs[j] != h by {
                if j < hs.len() - 1 {
                    assert(hs.drop_last()[j] == hs[j]);
                }
            }
        } else {
            assert(hs[hs.len() - 1] == h);
        }
    }
}

/// Map from line identifier to the (1-based) number of the last line carrying it.
pub struct HashToLineMap {
    hashes: Vec<String>,
}

impl HashToLineMap {
    /// The identifiers the map was built from, in line order.
    pub closed spec fn hashes(&self) -> Seq<Seq<char>> {
        text::views(self.hashes@)
    }

    /// The map itself: each identifier to the number of its last line.
    pub open spec fn view(&self) -> Map<Seq<char>, nat> {
        Map::new(
            |h: Seq<char>| self.hashes().contains(h),
            |h: Seq<char>| (last_pos(self.hashes(), h) + 1) as nat,
        )
    }

    /// The line number for identifier `hash`, if any line carries it.
    pub fn get(&self, hash: &str) -> (r: Option<usize>)
        ensures
            r == (if self@.contains_key(hash@) { Some(self@[hash@] as usize) } else { None::<usize> }),
            r matches Some(n) ==> 1 <= n <= self.hashes().len(),
    {
        let key = text::owned(hash);
        let mut i = self.hashes.len();
        while i > 0
            invariant
                0 <= i <= self.hashes@.len(),
                key@ == hash@,
                forall|j: int| i <= j < self.hashes@.len() ==> self.hashes@[j]@ != hash@,
            decreases i,
        {
            if self.hashes[i - 1] == key {
                proof {
                    lemma_last_pos(self.hashes(), hash@);
                    assert(self.hashes()[i - 1] == hash@);
                    assert(self.hashes().contains(hash@));
                    assert(last_pos(self.hashes(), hash@) == i - 1);
                }
                return Some(i);
            }
            i = i - 1;
        }
        proof {
            lemma_last_pos(self.hashes(), hash@);
            if self.hashes().contains(hash@) {
                let k = last_pos(self.hashes(), hash@);
                assert(self.hashes@[k]@ == hash@);
            }
        }
        None
    }

    /// Number of distinct identifiers.
    pub fn len(&self) -> (n: usize)
        ensures
            n == distinct_count(self.hashes()),
    {
        let mut n: usize = 0;
        let mut i: usize = 0;
        while i < self.hashes.len()
            invariant
                0 <= i <= self.hashes@.len(),
                n == distinct_count(self.hashes().subrange(0, i as int)),
                n <= i,
            decreases self.hashes@.len() - i,
        {
            let mut seen = false;
            let mut j: usize = 0;
            while j < i
                invariant
                    0 <= j <= i < self.hashes@.len(),
                    seen == exists|k: int| 0 <= k < j && self.hashes@[k]@ == self.hashes@[i as int]@,
                decreases i - j,
            {
                if self.hashes[j] == self.hashes[i] {
                    seen = true;
                }
                j = j + 1;
            }
            proof {
                let pre = self.hashes().subrange(0, i + 1);
                assert(pre.drop_last() =~= self.hashes().subrange(0, i as int));
                assert(pre.last() == self.hashes@[i as int]@);
                if seen {
                    let k = choose|k: int| 0 <= k < i && self.hashes@[k]@ == self.hashes@[i as int]@;
                    assert(pre.drop_last()[k] == pre.last());
                } else {
                    if pre.drop_last().contains(pre.last()) {
                        let k = choose|k: int| 0 <= k < pre.drop_last().len() && pre.drop_last()[k] == pre.last();
                        assert(self.hashes@[k]@ == self.hashes@[i as int]@);
                    }
                }
            }
            if !seen {
                n = n + 1;
            }
            i = i + 1;
        }
        assert(self.hashes().subrange(0, i as int) =~= self.hashes());
        n
    }
}

/// A line's identifier leads back to a line with that identifier (the
/// number that `resolve_hash_to_line` gives is `last_pos + 1`): the line
/// itself, or the last later line with the same identifier.
pub proof fn lemma_hash_round_trip(lines: Seq<Seq<char>>, i: int)
    requires
        0 <= i < lines.len(),
    ensures
        line_hashes(lines).contains(line_hashes(lines)[i]),
        i <= last_pos(line_hashes(lines), line_hashes(lines)[i]) < lines.len(),
        line_hashes(lines)[last_pos(line_hashes(lines), line_hashes(lines)[i])] == line_hashes(lines)[i],
        (forall|j: int| i < j < lines.len() ==> line_hashes(lines)[j] != line_hashes(lines)[i]) ==> last_pos(
            line_hashes(lines),
            line_hashes(lines)[i],
        ) == i,
{
    let hs = line_hashes(lines);
    lemma_last_pos(hs, hs[i]);
    assert(hs.contains(hs[i]));
    assert(hs.len() == lines.len());
}

/// The identifier-to-line-number map of `lines`.
pub fn build_hash_to_line_map(lines: &[&str]) -> (map: HashToLineMap)
    ensures
        map.hashes() == line_hashes(str_views(lines@)),
{
    HashToLineMap { hashes: compute_line_hashes(lines) }
}

/// The number of the (last) line whose identifier is `hash`.
pub fn resolve_hash_to_line(hash: &str, lines: &[&str]) -> (r: Result<usize, String>)
    ensures
        r is Ok <==> line_hashes(str_views(lines@)).contains(hash@),
        r matches Ok(n) ==> n == last_pos(line_hashes(str_views(lines@)), hash@) + 1,
        r matches Err(msg) ==> msg@ == "Hash '"@ + hash@ + "' not found in file content"@,
{
    let map = build_hash_to_line_map(lines);
    proof {
        lemma_last_pos(line_hashes(str_views(lines@)), hash@);
    }
    match map.get(hash) {
        Some(n) => Ok(n),
        None => {
            let mut msg = text::owned("Hash '");
            text::push_str(&mut msg, hash);
            text::push_str(&mut msg, "' not found in file content");
            Err(msg)
        }
    }
}

} // verus!

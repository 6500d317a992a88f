//! Hints gathered while a tool call runs and appended to its response.
use vstd::prelude::*;
use crate::text;

verus! {

/// The hints pushed and not drained yet, in order.
pub struct HintQueue {
    pub hints: Vec<String>,
}

/// The hints by value.
pub open spec fn hint_views(v: Seq<String>) -> Seq<Seq<char>> {
    v.map_values(|s: String| s@)
}

/// `s` with every repeated element dropped after its first occurrence.
pub open spec fn dedup_first(s: Seq<Seq<char>>) -> Seq<Seq<char>>
    decreases s.len(),
{
    if s.len() == 0 {
        s
    } else {
        let p = dedup_first(s.drop_last());
        if p.contains(s.last()) {
            p
        } else {
            p.push(s.last())
        }
    }
}

impl HintQueue {
    pub fn new() -> (q: Self)
        ensures
            q.hints@.len() == 0,
    {
        HintQueue { hints: Vec::new() }
    }
}

/// Queues a hint.
pub fn push_hint(q: &mut HintQueue, hint: &str)
    ensures
        hint_views(final(q).hints@) == hint_views(old(q).hints@).push(hint@),
{
    let ghost before = q.hints@;
    q.hints.push(text::owned(hint));
    assert(hint_views(q.hints@) =~= hint_views(before).push(hint@));
}

fn contains_hint(v: &Vec<String>, h: &str) -> (b: bool)
    ensures
        b == hint_views(v@).contains(h@),
{
    let mut i: usize = 0;
    while i < v.len()
        invariant
            0 <= i <= v@.len(),
            forall|j: int| 0 <= j < i ==> hint_views(v@)[j] != h@,
        decreases v@.len() - i,
    {
        if text::str_eq(v[i].as_str(), h) {
            assert(hint_views(v@)[i as int] == h@);
            return true;
        }
        i = i + 1;
    }
    false
}

/// Takes every queued hint, each distinct hint once, in the order of its
/// first occurrence; the queue is left empty.
pub fn drain_hints(q: &mut HintQueue) -> (r: Vec<String>)
    ensures
        final(q).hints@.len() == 0,
        hint_views(r@) == dedup_first(hint_views(old(q).hints@)),
{
    let mut taken: Vec<String> = Vec::new();
    std::mem::swap(&mut taken, &mut q.hints);
    let ghost hv = hint_views(taken@);
    let mut out: Vec<String> = Vec::new();
    let mut i: usize = 0;
    assert(hv.subrange(0, 0) =~= Seq::<Seq<char>>::empty());
    while i < taken.len()
        invariant
            0 <= i <= taken@.len(),
            hv == hint_views(taken@),
            hint_views(out@) == dedup_first(hv.subrange(0, i as int)),
        decreases taken@.len() - i,
    {
        proof {
            let sub = hv.subrange(0, i + 1);
            assert(sub.drop_last() =~= hv.subrange(0, i as int));
        }
        let h = taken[i].as_str();
        if !contains_hint(&out, h) {
            let ghost before = out@;
            out.push(text::owned(h));
            assert(hint_views(out@) =~= hint_views(before).push(h@));
        }
        i = i + 1;
    }
    assert(hv.subrange(0, hv.len() as int) =~= hv);
    out
}

/// Whether any hint is queued.
pub fn has_hints(q: &HintQueue) -> (b: bool)
    ensures
        b == (q.hints@.len() > 0),
{
    q.hints.len() > 0
}

/// Draining gives each queued hint exactly once: nothing is repeated and
/// nothing queued is lost.
pub proof fn lemma_drain_each_once(s: Seq<Seq<char>>)
    ensures
        dedup_first(s).no_duplicates(),
        forall|h: Seq<char>| dedup_first(s).contains(h) <==> s.contains(h),
    decreases s.len(),
{
    if s.len() > 0 {
        lemma_drain_each_once(s.drop_last());
        let p = dedup_first(s.drop_last());
        assert forall|h: Seq<char>| dedup_first(s).contains(h) <==> s.contains(h) by {
            if s.contains(h) {
                let k = choose|k: int| 0 <= k < s.len() && s[k] == h;
                if k < s.len() - 1 {
                    assert(s.drop_last()[k] == h);
                }
            }
            if s.drop_last().contains(h) {
                let k = choose|k: int| 0 <= k < s.drop_last().len() && s.drop_last()[k] == h;
                assert(s[k] == h);
            }
            if !p.contains(s.last()) {
                assert(p.push(s.last())[p.len() as int] == s.last());
                if p.push(s.last()).contains(h) {
                    let k = choose|k: int| 0 <= k < p.len() + 1 && p.push(s.last())[k] == h;
                    if k < p.len() {
                        assert(p[k] == h);
                    }
                }
                if p.contains(h) {
                    let k = choose|k: int| 0 <= k < p.len() && p[k] == h;
                    assert(p.push(s.last())[k] == h);
                }
            }
        }
    }
}

} // verus!

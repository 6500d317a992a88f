//! Which tools of a tool server an agent sees, under which names and
//! descriptions.
use vstd::prelude::*;
use crate::text;

verus! {

/// A tool as the filter sees it: its name and description, and the rest of
/// its definition, carried along untouched.
pub struct ToolEntry<X> {
    pub name: String,
    pub description: Option<String>,
    pub rest: X,
}

/// A list of (key, value) pairs in which no key occurs twice.
pub struct StringMap {
    pub entries: Vec<(String, String)>,
}

impl StringMap {
    /// The pairs by value.
    pub open spec fn pairs(&self) -> Seq<(Seq<char>, Seq<char>)> {
        self.entries@.map_values(|e: (String, String)| (e.0@, e.1@))
    }

    /// No key occurs twice.
    pub open spec fn wf(&self) -> bool {
        forall|i: int, j: int|
            0 <= i < self.pairs().len() && 0 <= j < self.pairs().len() && i != j ==> #[trigger] self.pairs()[i].0
                != #[trigger] self.pairs()[j].0
    }

    /// The map the pairs describe.
    pub open spec fn view(&self) -> Map<Seq<char>, Seq<char>> {
        Map::new(
            |k: Seq<char>| exists|i: int| 0 <= i < self.pairs().len() && self.pairs()[i].0 == k,
            |k: Seq<char>| self.pairs()[choose|i: int| 0 <= i < self.pairs().len() && self.pairs()[i].0 == k].1,
        )
    }

    pub fn new() -> (m: Self)
        ensures
            m.wf(),
            m@ == Map::<Seq<char>, Seq<char>>::empty(),
    {
        let m = StringMap { entries: Vec::new() };
        assert(m@ =~= Map::<Seq<char>, Seq<char>>::empty());
        m
    }

    fn position(&self, key: &str) -> (r: Option<usize>)
        ensures
            match r {
                Some(i) => i < self.pairs().len() && self.pairs()[i as int].0 == key@,
                None => forall|i: int| 0 <= i < self.pairs().len() ==> self.pairs()[i].0 != key@,
            },
    {
        let mut i: usize = 0;
        while i < self.entries.len()
            invariant
                0 <= i <= self.entries@.len(),
                forall|j: int| 0 <= j < i ==> self.pairs()[j].0 != key@,
            decreases self.entries@.len() - i,
        {
            if text::str_eq(self.entries[i].0.as_str(), key) {
                return Some(i);
            }
            i = i + 1;
        }
        None
    }

    /// The value of `key`, if it has one.
    pub fn get(&self, key: &str) -> (r: Option<&String>)
        requires
            self.wf(),
        ensures
            match r {
                Some(v) => self@.contains_key(key@) && self@[key@] == v@,
                None => !self@.contains_key(key@),
            },
    {
        match self.position(key) {
            Some(i) => {
                proof {
                    let c = choose|j: int| 0 <= j < self.pairs().len() && self.pairs()[j].0 == key@;
                    assert(c == i);
                }
                Some(&self.entries[i].1)
            },
            None => None,
        }
    }

    /// Sets the value of `key` (replacing the old one, if any).
    pub fn insert(&mut self, key: String, value: String)
        requires
            old(self).wf(),
        ensures
            final(self).wf(),
            final(self)@ == old(self)@.insert(key@, value@),
    {
        let ghost kv = key@;
        let ghost vv = value@;
        match self.position(key.as_str()) {
            Some(i) => {
                let ghost before = self.pairs();
                self.entries.set(i, (key, value));
                proof {
                    assert(self.pairs() =~= before.update(i as int, (kv, vv)));
                    assert forall|k: Seq<char>| #[trigger] self@.contains_key(k) == old(self)@.insert(kv, vv).contains_key(k) by {
                        if k != kv {
                            if old(self)@.contains_key(k) {
                                let w = choose|w: int| 0 <= w < before.len() && before[w].0 == k;
                                assert(self.pairs()[w].0 == k);
                            }
                            if self@.contains_key(k) {
                                let w = choose|w: int| 0 <= w < self.pairs().len() && self.pairs()[w].0 == k;
                                assert(before[w].0 == k);
                            }
                        } else {
                            assert(self.pairs()[i as int].0 == kv);
                        }
                    }
                    assert forall|k: Seq<char>| #[trigger] self@.contains_key(k) implies self@[k] == old(self)@.insert(kv, vv)[k] by {
                        let w = choose|w: int| 0 <= w < self.pairs().len() && self.pairs()[w].0 == k;
                        if k == kv {
                            assert(w == i);
                        } else {
                            let w0 = choose|w0: int| 0 <= w0 < before.len() && before[w0].0 == k;
                            assert(w0 == w);
                        }
                    }
                    assert(self@ =~= old(self)@.insert(kv, vv));
                }
            },
            None => {
                let ghost before = self.pairs();
                self.entries.push((key, value));
                proof {
                    assert(self.pairs() =~= before.push((kv, vv)));
                    assert forall|k: Seq<char>| #[trigger] self@.contains_key(k) == old(self)@.insert(kv, vv).contains_key(k) by {
                        if k != kv {
                            if old(self)@.contains_key(k) {
                                let w = choose|w: int| 0 <= w < before.len() && before[w].0 == k;
                                assert(self.pairs()[w].0 == k);
                            }
                            if self@.contains_key(k) {
                                let w = choose|w: int| 0 <= w < self.pairs().len() && self.pairs()[w].0 == k;
                                assert(before[w].0 == k);
                            }
                        } else {
                            assert(self.pairs()[before.len() as int].0 == kv);
                        }
                    }
                    assert forall|k: Seq<char>| #[trigger] self@.contains_key(k) implies self@[k] == old(self)@.insert(kv, vv)[k] by {
                        let w = choose|w: int| 0 <= w < self.pairs().len() && self.pairs()[w].0 == k;
                        if k == kv {
                            assert(w == before.len());
                        } else {
                            let w0 = choose|w0: int| 0 <= w0 < before.len() && before[w0].0 == k;
                            assert(w0 == w);
                        }
                    }
                    assert(self@ =~= old(self)@.insert(kv, vv));
                }
            },
        }
    }
}

/// Which tools are visible and how they are presented: an allow list (only
/// those), or else a deny list (all but those); renames (original name to
/// exposed name) and new descriptions (original name to description).
pub struct ToolFilter {
    pub allow_list: Option<Vec<String>>,
    pub deny_list: Vec<String>,
    pub rename_map: StringMap,
    pub redescripte_map: StringMap,
}

pub open spec fn names(v: Seq<String>) -> Seq<Seq<char>> {
    v.map_values(|s: String| s@)
}

/// Whether a tool with this original name is visible.
pub open spec fn visible(allow: Option<Seq<Seq<char>>>, deny: Seq<Seq<char>>, name: Seq<char>) -> bool {
    match allow {
        Some(a) => a.contains(name),
        None => !deny.contains(name),
    }
}

fn contains_name(v: &Vec<String>, name: &str) -> (b: bool)
    ensures
        b == names(v@).contains(name@),
{
    let mut i: usize = 0;
    while i < v.len()
        invariant
            0 <= i <= v@.len(),
            forall|j: int| 0 <= j < i ==> names(v@)[j] != name@,
        decreases v@.len() - i,
    {
        if text::str_eq(v[i].as_str(), name) {
            assert(names(v@)[i as int] == name@);
            return true;
        }
        i = i + 1;
    }
    false
}

fn copy_names(names_in: &Vec<String>) -> (r: Vec<String>)
    ensures
        names(r@) == names(names_in@),
{
    let mut r: Vec<String> = Vec::new();
    let mut i: usize = 0;
    while i < names_in.len()
        invariant
            0 <= i <= names_in@.len(),
            names(r@) == names(names_in@).subrange(0, i as int),
        decreases names_in@.len() - i,
    {
        let ghost old_r = r@;
        let x = names_in[i].clone();
        r.push(x);
        assert(names(r@) =~= names(old_r).push(names_in@[i as int]@));
        assert(names(r@) =~= names(names_in@).subrange(0, i + 1));
        i = i + 1;
    }
    assert(names(names_in@).subrange(0, names_in@.len() as int) =~= names(names_in@));
    r
}

impl ToolFilter {
    /// The allow list by value, if any.
    pub open spec fn allow(&self) -> Option<Seq<Seq<char>>> {
        match self.allow_list {
            Some(a) => Some(names(a@)),
            None => None,
        }
    }

    pub open spec fn deny(&self) -> Seq<Seq<char>> {
        names(self.deny_list@)
    }

    /// Both maps are well formed.
    pub open spec fn wf(&self) -> bool {
        self.rename_map.wf() && self.redescripte_map.wf()
    }

    /// Every tool visible, none renamed or redescribed.
    pub fn allow_all() -> (f: Self)
        ensures
            f.wf(),
            f.allow() is None,
            f.deny().len() == 0,
            f.rename_map@ == Map::<Seq<char>, Seq<char>>::empty(),
            f.redescripte_map@ == Map::<Seq<char>, Seq<char>>::empty(),
    {
        ToolFilter::default_filter()
    }

    /// The filter of a tool server with no filter configured: every tool visible.
    pub fn default_filter() -> (f: Self)
        ensures
            f.wf(),
            f.allow() is None,
            f.deny().len() == 0,
            f.rename_map@ == Map::<Seq<char>, Seq<char>>::empty(),
            f.redescripte_map@ == Map::<Seq<char>, Seq<char>>::empty(),
    {
        let f = ToolFilter {
            allow_list: None,
            deny_list: Vec::new(),
            rename_map: StringMap::new(),
            redescripte_map: StringMap::new(),
        };
        assert(f.deny() =~= Seq::<Seq<char>>::empty());
        f
    }

    /// Only the tools named are visible.
    pub fn allowed(list: &Vec<String>) -> (f: Self)
        ensures
            f.wf(),
            f.allow() == Some(names(list@)),
            f.deny().len() == 0,
            f.rename_map@ == Map::<Seq<char>, Seq<char>>::empty(),
            f.redescripte_map@ == Map::<Seq<char>, Seq<char>>::empty(),
    {
        let f = ToolFilter {
            allow_list: Some(copy_names(list)),
            deny_list: Vec::new(),
            rename_map: StringMap::new(),
            redescripte_map: StringMap::new(),
        };
        assert(f.deny() =~= Seq::<Seq<char>>::empty());
        f
    }

    /// All tools but the ones named are visible.
    pub fn denied(list: &Vec<String>) -> (f: Self)
        ensures
            f.wf(),
            f.allow() is None,
            f.deny() == names(list@),
            f.rename_map@ == Map::<Seq<char>, Seq<char>>::empty(),
            f.redescripte_map@ == Map::<Seq<char>, Seq<char>>::empty(),
    {
        ToolFilter {
            allow_list: None,
            deny_list: copy_names(list),
            rename_map: StringMap::new(),
            redescripte_map: StringMap::new(),
        }
    }

    /// Exposes the tool `from` under the name `to`.
    pub fn with_rename(self, from: &str, to: &str) -> (f: Self)
        requires
            self.wf(),
        ensures
            f.wf(),
            f.allow() == self.allow(),
            f.deny() == self.deny(),
            f.rename_map@ == self.rename_map@.insert(from@, to@),
            f.redescripte_map@ == self.redescripte_map@,
    {
        let mut f = self;
        f.rename_map.insert(text::owned(from), text::owned(to));
        f
    }

    /// Shows the tool exposed as `tool` with the description `desc`.
    pub fn with_redescripte(self, tool: &str, desc: &str) -> (f: Self)
        requires
            self.wf(),
        ensures
            f.wf(),
            f.allow() == self.allow(),
            f.deny() == self.deny(),
            f.rename_map@ == self.rename_map@,
            f.redescripte_map@ == self.redescripte_map@.insert(tool@, desc@),
    {
        let mut f = self;
        f.redescripte_map.insert(text::owned(tool), text::owned(desc));
        f
    }

    /// Whether the tool with this original name is visible.
    pub fn is_tool_visible(&self, original_name: &str) -> (b: bool)
        ensures
            b == visible(self.allow(), self.deny(), original_name@),
    {
        match &self.allow_list {
            Some(allowed) => contains_name(allowed, original_name),
            None => !contains_name(&self.deny_list, original_name),
        }
    }

    /// The visible tools, in order, renamed and redescribed (see `applied`).
    pub fn apply<X>(&self, tools: Vec<ToolEntry<X>>) -> (r: Vec<ToolEntry<X>>)
        requires
            self.wf(),
        ensures
            r@.map_values(|t: ToolEntry<X>| entry_view(t)) == applied(
                self.allow(),
                self.deny(),
                self.rename_map@,
                self.redescripte_map@,
                tools@.map_values(|t: ToolEntry<X>| entry_view(t)),
            ),
    {
        let ghost tv = tools@.map_values(|t: ToolEntry<X>| entry_view(t));
        let mut out: Vec<ToolEntry<X>> = Vec::new();
        let mut rest = tools;
        let ghost n = rest@.len();
        assert(n == rest.len());
        let mut i: usize = 0;
        assert(rest@.map_values(|t: ToolEntry<X>| entry_view(t)) =~= tv.subrange(0, n as int));
        while rest.len() > 0
            invariant
                self.wf(),
                i + rest@.len() == n,
                n == tv.len(),
                n <= usize::MAX,
                rest@.map_values(|t: ToolEntry<X>| entry_view(t)) == tv.subrange(i as int, n as int),
                out@.map_values(|t: ToolEntry<X>| entry_view(t)) == applied(
                    self.allow(),
                    self.deny(),
                    self.rename_map@,
                    self.redescripte_map@,
                    tv.subrange(0, i as int),
                ),
            decreases rest@.len(),
        {
            let ghost before_rest = rest@;
            let mut t = rest.remove(0);
            proof {
                let rv = before_rest.map_values(|t: ToolEntry<X>| entry_view(t));
                assert(rv[0] == entry_view(t));
                assert(rest@ =~= before_rest.subrange(1, before_rest.len() as int));
                assert(rest@.map_values(|t: ToolEntry<X>| entry_view(t)) =~= rv.subrange(1, rv.len() as int));
                assert(rest@.map_values(|t: ToolEntry<X>| entry_view(t)) =~= tv.subrange(i + 1, n as int));
                let sub = tv.subrange(0, i + 1);
                assert(sub.drop_last() =~= tv.subrange(0, i as int));
                assert(sub.last() == tv[i as int]);
            }
            let ghost tv_i = entry_view(t);
            if self.is_tool_visible(t.name.as_str()) {
                let new_description = match self.redescripte_map.get(t.name.as_str()) {
                    Some(d) => Some(d.clone()),
                    None => None,
                };
                match self.rename_map.get(t.name.as_str()) {
                    Some(exposed) => {
                        t.name = exposed.clone();
                    },
                    None => {},
                }
                match new_description {
                    Some(d) => {
                        t.description = Some(d);
                    },
                    None => {},
                }
                let ghost old_out = out@;
                out.push(t);
                assert(out@.map_values(|t: ToolEntry<X>| entry_view(t)) =~= old_out.map_values(
                    |t: ToolEntry<X>| entry_view(t),
                ).push(present(self.rename_map@, self.redescripte_map@, tv_i)));
            }
            i = i + 1;
        }
        assert(tv.subrange(0, n as int) =~= tv);
        out
    }
}

/// A tool by value: its name and description.
pub open spec fn entry_view<X>(t: ToolEntry<X>) -> (Seq<char>, Option<Seq<char>>) {
    (
        t.name@,
        match t.description {
            Some(d) => Some(d@),
            None => None,
        },
    )
}

/// A visible tool as presented: renamed where a rename exists, and given
/// the description set for its original name, if any.
pub open spec fn present(
    rename: Map<Seq<char>, Seq<char>>,
    redesc: Map<Seq<char>, Seq<char>>,
    t: (Seq<char>, Option<Seq<char>>),
) -> (Seq<char>, Option<Seq<char>>) {
    let name = if rename.contains_key(t.0) { rename[t.0] } else { t.0 };
    (name, if redesc.contains_key(t.0) { Some(redesc[t.0]) } else { t.1 })
}

/// The visible tools in order, each as presented.
pub open spec fn applied(
    allow: Option<Seq<Seq<char>>>,
    deny: Seq<Seq<char>>,
    rename: Map<Seq<char>, Seq<char>>,
    redesc: Map<Seq<char>, Seq<char>>,
    ts: Seq<(Seq<char>, Option<Seq<char>>)>,
) -> Seq<(Seq<char>, Option<Seq<char>>)>
    decreases ts.len(),
{
    if ts.len() == 0 {
        Seq::empty()
    } else {
        let prev = applied(allow, deny, rename, redesc, ts.drop_last());
        if visible(allow, deny, ts.last().0) {
            prev.push(present(rename, redesc, ts.last()))
        } else {
            prev
        }
    }
}

/// A filter never adds tools: at most as many come out as went in.
pub proof fn lemma_apply_never_adds(
    allow: Option<Seq<Seq<char>>>,
    deny: Seq<Seq<char>>,
    rename: Map<Seq<char>, Seq<char>>,
    redesc: Map<Seq<char>, Seq<char>>,
    ts: Seq<(Seq<char>, Option<Seq<char>>)>,
)
    ensures
        applied(allow, deny, rename, redesc, ts).len() <= ts.len(),
    decreases ts.len(),
{
    if ts.len() > 0 {
        lemma_apply_never_adds(allow, deny, rename, redesc, ts.drop_last());
    }
}

/// With an allow list, a tool is visible exactly when it is listed, whatever
/// the deny list holds.
pub proof fn lemma_allow_list_wins(allow: Seq<Seq<char>>, deny: Seq<Seq<char>>, name: Seq<char>)
    ensures
        visible(Some(allow), deny, name) == allow.contains(name),
{
}

} // verus!

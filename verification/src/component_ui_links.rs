//! Component-to-UI link graph operations: which UI locations use a
//! component, and which components a UI location uses.

use vstd::prelude::*;

verus! {

use crate::component_ui_link::ComponentUILink;

/// The per-component link lists as a mathematical map.
pub open spec fn links_map(s: Seq<(String, Vec<ComponentUILink>)>) -> Map<
    Seq<char>,
    Seq<ComponentUILink>,
>
    decreases s.len(),
{
    if s.len() == 0 {
        Map::empty()
    } else {
        links_map(s.drop_last()).insert(s.last().0@, s.last().1@)
    }
}

/// No two entries carry the same component id.
pub open spec fn link_keys_unique(s: Seq<(String, Vec<ComponentUILink>)>) -> bool {
    forall|i: int, j: int| 0 <= i < j < s.len() ==> (#[trigger] s[i]).0@ != (#[trigger] s[j]).0@
}

/// All links of all entries, in entry order, that name a UI location.
pub open spec fn links_in_ui(s: Seq<(String, Vec<ComponentUILink>)>, loc: Seq<char>) -> Seq<
    ComponentUILink,
>
    decreases s.len(),
{
    if s.len() == 0 {
        Seq::empty()
    } else {
        links_in_ui(s.drop_last(), loc) + s.last().1@.filter(
            |l: ComponentUILink| l.ui_location@ == loc,
        )
    }
}

proof fn lemma_links_dom(s: Seq<(String, Vec<ComponentUILink>)>, k: Seq<char>)
    ensures
        links_map(s).dom().contains(k) <==> exists|i: int| 0 <= i < s.len() && (#[trigger] s[i]).0@
            == k,
    decreases s.len(),
{
    if s.len() > 0 {
        lemma_links_dom(s.drop_last(), k);
        if links_map(s).dom().contains(k) {
            if s.last().0@ != k {
                let d = s.drop_last();
                let i = choose|i: int| 0 <= i < d.len() && (#[trigger] d[i]).0@ == k;
                assert(s[i].0@ == k);
            } else {
                assert(s[s.len() - 1].0@ == k);
            }
        }
        if exists|i: int| 0 <= i < s.len() && (#[trigger] s[i]).0@ == k {
            let i = choose|i: int| 0 <= i < s.len() && (#[trigger] s[i]).0@ == k;
            if i < s.len() - 1 {
                assert(s.drop_last()[i].0@ == k);
            }
        }
    }
}

proof fn lemma_links_index(s: Seq<(String, Vec<ComponentUILink>)>, i: int)
    requires
        link_keys_unique(s),
        0 <= i < s.len(),
    ensures
        links_map(s).dom().contains(s[i].0@),
        links_map(s)[s[i].0@] == s[i].1@,
    decreases s.len(),
{
    if i < s.len() - 1 {
        assert(link_keys_unique(s.drop_last()));
        assert(s.drop_last()[i] == s[i]);
        lemma_links_index(s.drop_last(), i);
        assert(s[i].0@ != s.last().0@);
    }
}

proof fn lemma_links_update(
    s: Seq<(String, Vec<ComponentUILink>)>,
    i: int,
    e: (String, Vec<ComponentUILink>),
)
    requires
        link_keys_unique(s),
        0 <= i < s.len(),
        s[i].0@ == e.0@,
    ensures
        link_keys_unique(s.update(i, e)),
        links_map(s.update(i, e)) == links_map(s).insert(e.0@, e.1@),
    decreases s.len(),
{
    let t = s.update(i, e);
    assert(link_keys_unique(t));
    if i == s.len() - 1 {
        assert(t.drop_last() =~= s.drop_last());
        assert(t.last() == e);
        assert(links_map(t) =~= links_map(s).insert(e.0@, e.1@));
    } else {
        assert(link_keys_unique(s.drop_last()));
        assert(s.drop_last()[i] == s[i]);
        lemma_links_update(s.drop_last(), i, e);
        assert(t.drop_last() =~= s.drop_last().update(i, e));
        assert(t.last() == s.last());
        assert(s[i].0@ != s.last().0@);
        assert(links_map(t) =~= links_map(s).insert(e.0@, e.1@));
    }
}

proof fn lemma_links_remove(s: Seq<(String, Vec<ComponentUILink>)>, i: int)
    requires
        link_keys_unique(s),
        0 <= i < s.len(),
    ensures
        link_keys_unique(s.remove(i)),
        links_map(s.remove(i)) == links_map(s).remove(s[i].0@),
    decreases s.len(),
{
    let t = s.remove(i);
    assert(link_keys_unique(t)) by {
        assert forall|a: int, b: int| 0 <= a < b < t.len() implies (#[trigger] t[a]).0@ != (
        #[trigger] t[b]).0@ by {
            let a0 = if a < i {
                a
            } else {
                a + 1
            };
            let b0 = if b < i {
                b
            } else {
                b + 1
            };
            assert(t[a] == s[a0] && t[b] == s[b0]);
        }
    }
    if i == s.len() - 1 {
        assert(t =~= s.drop_last());
        lemma_links_dom(s.drop_last(), s[i].0@);
        assert(forall|j: int|
            0 <= j < s.drop_last().len() ==> (#[trigger] s.drop_last()[j]).0@ != s[i].0@);
        assert(!links_map(s.drop_last()).dom().contains(s[i].0@));
        assert(links_map(t) =~= links_map(s).remove(s[i].0@));
    } else {
        assert(link_keys_unique(s.drop_last()));
        assert(s.drop_last()[i] == s[i]);
        lemma_links_remove(s.drop_last(), i);
        assert(t.drop_last() =~= s.drop_last().remove(i));
        assert(t.last() == s.last());
        assert(s[i].0@ != s.last().0@);
        assert(links_map(t) =~= links_map(s).remove(s[i].0@));
    }
}

/// Manages component-to-UI link relationships in the graph: for each
/// component id, the ordered list of UI locations using it.
pub struct ComponentUILinkManager {
    links: Vec<(String, Vec<ComponentUILink>)>,
}

impl ComponentUILinkManager {
    /// The links per component id.
    pub closed spec fn links(self) -> Map<Seq<char>, Seq<ComponentUILink>> {
        links_map(self.links@)
    }

    /// The entries in insertion order of first use, which fixes the
    /// order `get_components_in_ui` reports links in.
    pub closed spec fn entries(self) -> Seq<(String, Vec<ComponentUILink>)> {
        self.links@
    }

    /// One entry per component id.
    pub closed spec fn wf(self) -> bool {
        link_keys_unique(self.links@)
    }

    /// Create a new manager with no links.
    pub fn new() -> (r: Self)
        ensures
            r.wf(),
            r.links() =~= Map::<Seq<char>, Seq<ComponentUILink>>::empty(),
            r.entries() =~= Seq::<(String, Vec<ComponentUILink>)>::empty(),
    {
        Self { links: Vec::new() }
    }

    /// Add a component-to-UI link under the link's own component id.
    pub fn add_link(&mut self, link: ComponentUILink)
        requires
            old(self).wf(),
        ensures
            final(self).wf(),
            final(self).links() == old(self).links().insert(
                link.component_id@,
                if old(self).links().dom().contains(link.component_id@) {
                    old(self).links()[link.component_id@].push(link)
                } else {
                    seq![link]
                },
            ),
    {
        let ghost pre = self.links@;
        let found = Self::find(&self.links, &link.component_id);
        proof {
            lemma_links_dom(pre, link.component_id@);
        }
        match found {
            Some(i) => {
                proof {
                    lemma_links_index(pre, i as int);
                }
                let (key, mut list) = self.links.remove(i);
                list.push(link);
                self.links.insert(i, (key, list));
                proof {
                    assert(self.links@ =~= pre.update(i as int, self.links@[i as int]));
                    lemma_links_update(pre, i as int, self.links@[i as int]);
                }
            },
            None => {
                let key = link.component_id.clone();
                let mut list: Vec<ComponentUILink> = Vec::new();
                list.push(link);
                self.links.push((key, list));
                proof {
                    assert(self.links@.drop_last() =~= pre);
                    assert(self.links@.last().1@ =~= seq![link]);
                }
            },
        }
    }

    /// Finds the entry carrying `id`, if any.
    fn find(v: &Vec<(String, Vec<ComponentUILink>)>, id: &String) -> (r: Option<usize>)
        ensures
            match r {
                Some(i) => i < v@.len() && v@[i as int].0@ == id@,
                None => forall|i: int| 0 <= i < v@.len() ==> (#[trigger] v@[i]).0@ != id@,
            },
    {
        let mut i: usize = 0;
        while i < v.len()
            invariant
                i <= v@.len(),
                forall|j: int| 0 <= j < i ==> (#[trigger] v@[j]).0@ != id@,
            decreases v@.len() - i,
        {
            if v[i].0 == *id {
                return Some(i);
            }
            i += 1;
        }
        None
    }

    /// Get all UI locations where a component is used, in insertion
    /// order; empty when the component has none.
    pub fn get_ui_locations(&self, component_id: &str) -> (r: Vec<&ComponentUILink>)
        requires
            self.wf(),
        ensures
            self.links().dom().contains(component_id@) ==> ({
                let stored = self.links()[component_id@];
                r@.len() == stored.len() && forall|i: int|
                    0 <= i < r@.len() ==> *(#[trigger] r@[i]) == stored[i]
            }),
            !self.links().dom().contains(component_id@) ==> r@.len() == 0,
    {
        let id = component_id.to_owned();
        let found = Self::find(&self.links, &id);
        proof {
            lemma_links_dom(self.links@, component_id@);
        }
        match found {
            Some(i) => {
                proof {
                    lemma_links_index(self.links@, i as int);
                }
                let list = &self.links[i].1;
                let mut out: Vec<&ComponentUILink> = Vec::new();
                let mut j: usize = 0;
                while j < list.len()
                    invariant
                        j <= list@.len(),
                        out@.len() == j,
                        forall|k: int| 0 <= k < j ==> *(#[trigger] out@[k]) == list@[k],
                    decreases list@.len() - j,
                {
                    out.push(&list[j]);
                    j += 1;
                }
                out
            },
            None => Vec::new(),
        }
    }

    /// Get all links into a specific UI location, walking every
    /// component's list in entry order.
    pub fn get_components_in_ui(&self, ui_location: &str) -> (r: Vec<&ComponentUILink>)
        requires
            self.wf(),
        ensures
            r@.len() == links_in_ui(self.entries(), ui_location@).len(),
            forall|i: int|
                0 <= i < r@.len() ==> *(#[trigger] r@[i]) == links_in_ui(
                    self.entries(),
                    ui_location@,
                )[i],
    {
        let loc = ui_location.to_owned();
        let ghost target = links_in_ui(self.entries(), ui_location@);
        let mut out: Vec<&ComponentUILink> = Vec::new();
        let mut i: usize = 0;
        while i < self.links.len()
            invariant
                self.wf(),
                loc@ == ui_location@,
                i <= self.links@.len(),
                out@.len() == links_in_ui(self.links@.take(i as int), ui_location@).len(),
                forall|k: int|
                    0 <= k < out@.len() ==> *(#[trigger] out@[k]) == links_in_ui(
                        self.links@.take(i as int),
                        ui_location@,
                    )[k],
            decreases self.links@.len() - i,
        {
            let list = &self.links[i].1;
            let ghost upto = links_in_ui(self.links@.take(i as int), ui_location@);
            let ghost pred = |l: ComponentUILink| l.ui_location@ == ui_location@;
            let mut j: usize = 0;
            while j < list.len()
                invariant
                    j <= list@.len(),
                    loc@ == ui_location@,
                    pred == (|l: ComponentUILink| l.ui_location@ == ui_location@),
                    out@.len() == upto.len() + list@.take(j as int).filter(pred).len(),
                    forall|k: int|
                        0 <= k < upto.len() ==> *(#[trigger] out@[k]) == upto[k],
                    forall|k: int|
                        upto.len() <= k < out@.len() ==> *(#[trigger] out@[k]) == list@.take(
                            j as int,
                        ).filter(pred)[k - upto.len()],
                decreases list@.len() - j,
            {
                proof {
                    assert(list@.take(j + 1) =~= list@.take(j as int).push(list@[j as int]));
                    crate::spatial::lemma_filter_push(list@.take(j as int), list@[j as int], pred);
                }
                if list[j].ui_location == loc {
                    out.push(&list[j]);
                }
                j += 1;
            }
            proof {
                assert(list@.take(list@.len() as int) =~= list@);
                assert(self.links@.take(i + 1).drop_last() =~= self.links@.take(i as int));
                assert(self.links@.take(i + 1).last() == self.links@[i as int]);
                assert(links_in_ui(self.links@.take(i + 1), ui_location@) =~= upto + list@.filter(
                    pred,
                ));
            }
            i += 1;
        }
        proof {
            assert(self.links@.take(self.links@.len() as int) =~= self.links@);
        }
        out
    }

    /// Remove all links for a component.
    pub fn remove_component_links(&mut self, component_id: &str)
        requires
            old(self).wf(),
        ensures
            final(self).wf(),
            final(self).links() == old(self).links().remove(component_id@),
    {
        let id = component_id.to_owned();
        let ghost pre = self.links@;
        let found = Self::find(&self.links, &id);
        proof {
            lemma_links_dom(pre, component_id@);
        }
        match found {
            Some(i) => {
                self.links.remove(i);
                proof {
                    lemma_links_remove(pre, i as int);
                }
            },
            None => {
                proof {
                    assert(!links_map(pre).dom().contains(component_id@));
                    assert(links_map(pre).remove(component_id@) =~= links_map(pre));
                }
            },
        }
    }

    /// Get the number of recorded usages of a component.
    pub fn get_usage_count(&self, component_id: &str) -> (r: usize)
        requires
            self.wf(),
        ensures
            self.links().dom().contains(component_id@) ==> ({
                let stored = self.links()[component_id@];
                r == stored.len()
            }),
            !self.links().dom().contains(component_id@) ==> r == 0,
    {
        let id = component_id.to_owned();
        let found = Self::find(&self.links, &id);
        proof {
            lemma_links_dom(self.links@, component_id@);
        }
        match found {
            Some(i) => {
                proof {
                    lemma_links_index(self.links@, i as int);
                }
                self.links[i].1.len()
            },
            None => 0,
        }
    }
}

} // verus!

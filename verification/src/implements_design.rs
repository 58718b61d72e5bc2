//! Implementation-tracking edge: links an implementation file to the
//! design specification it realizes, with a completeness measure kept in
//! hundredths (zero through one hundred).

use vstd::prelude::*;

verus! {

use vstd::string::StrSliceExecFns;
use vstd::string::StringExecFns;

/// Whether `s` ends with the character sequence `suffix`.
pub open spec fn chars_end_with(s: Seq<char>, suffix: Seq<char>) -> bool {
    s.len() >= suffix.len() && s.skip(s.len() - suffix.len()) == suffix
}

/// Suffix test on strings, character by character.
fn str_ends_with(s: &str, suffix: &str) -> (r: bool)
    ensures
        r == chars_end_with(s@, suffix@),
{
    let n = s.unicode_len();
    let m = suffix.unicode_len();
    if m > n {
        return false;
    }
    let mut i: usize = 0;
    while i < m
        invariant
            m <= n,
            n == s@.len(),
            m == suffix@.len(),
            i <= m,
            forall|j: int| 0 <= j < i ==> s@[n - m + j] == suffix@[j],
        decreases m - i,
    {
        if s.get_char(n - m + i) != suffix.get_char(i) {
            proof {
                assert(s@.skip(n - m as int)[i as int] != suffix@[i as int]);
            }
            return false;
        }
        i += 1;
    }
    proof {
        assert(s@.skip(n - m as int) =~= suffix@);
    }
    true
}

/// Edge from an implementation file to the design spec it implements.
#[derive(Debug, Clone)]
pub struct ImplementsDesignEdge {
    /// Implementation node id.
    pub source: String,
    /// Design spec node id.
    pub target: String,
    /// How much of the design is implemented, in hundredths (0 to 100).
    pub completeness: u32,
    pub implemented_states: Vec<String>,
    pub implemented_variants: Vec<String>,
    /// Unix timestamp of the last verification, if any.
    pub last_verified: Option<i64>,
    pub deviations: Vec<String>,
    pub notes: Option<String>,
}

/// Relies on `chrono::Utc::now().timestamp()` for the current Unix time
/// in seconds; the result depends on the clock, so nothing is assumed of
/// it beyond non-negativity (`Utc::now` does not return for a clock set
/// before the epoch).
#[verifier::external_body]
fn unix_now_secs() -> (r: i64)
    ensures
        r >= 0,
{
    chrono::Utc::now().timestamp()
}

impl ImplementsDesignEdge {
    /// A new edge, fully complete, with nothing else recorded.
    pub fn new(source: String, target: String) -> (r: Self)
        ensures
            r.source == source,
            r.target == target,
            r.completeness == 100,
            r.implemented_states@.len() == 0,
            r.implemented_variants@.len() == 0,
            r.last_verified is None,
            r.deviations@.len() == 0,
            r.notes is None,
    {
        Self {
            source,
            target,
            completeness: 100,
            implemented_states: Vec::new(),
            implemented_variants: Vec::new(),
            last_verified: None,
            deviations: Vec::new(),
            notes: None,
        }
    }

    /// Set the completeness, clamped into the zero-to-one-hundred range.
    pub fn with_completeness(self, completeness: u32) -> (r: Self)
        ensures
            r.completeness == if completeness > 100 {
                100u32
            } else {
                completeness
            },
            r.source == self.source,
            r.target == self.target,
            r.implemented_states == self.implemented_states,
            r.implemented_variants == self.implemented_variants,
            r.last_verified == self.last_verified,
            r.deviations == self.deviations,
            r.notes == self.notes,
    {
        let clamped = if completeness > 100 {
            100
        } else {
            completeness
        };
        Self { completeness: clamped, ..self }
    }

    /// Record the implemented states.
    pub fn with_states(self, states: Vec<String>) -> (r: Self)
        ensures
            r.implemented_states == states,
            r.source == self.source,
            r.target == self.target,
            r.completeness == self.completeness,
            r.implemented_variants == self.implemented_variants,
            r.last_verified == self.last_verified,
            r.deviations == self.deviations,
            r.notes == self.notes,
    {
        Self { implemented_states: states, ..self }
    }

    /// Record the implemented variants.
    pub fn with_variants(self, variants: Vec<String>) -> (r: Self)
        ensures
            r.implemented_variants == variants,
            r.source == self.source,
            r.target == self.target,
            r.completeness == self.completeness,
            r.implemented_states == self.implemented_states,
            r.last_verified == self.last_verified,
            r.deviations == self.deviations,
            r.notes == self.notes,
    {
        Self { implemented_variants: variants, ..self }
    }

    /// Record one more deviation from the spec.
    pub fn with_deviation(self, deviation: String) -> (r: Self)
        ensures
            r.deviations@ == self.deviations@.push(deviation),
            r.source == self.source,
            r.target == self.target,
            r.completeness == self.completeness,
            r.implemented_states == self.implemented_states,
            r.implemented_variants == self.implemented_variants,
            r.last_verified == self.last_verified,
            r.notes == self.notes,
    {
        let mut r = self;
        r.deviations.push(deviation);
        r
    }

    /// Stamp the edge as verified now.
    pub fn mark_verified(self) -> (r: Self)
        ensures
            r.last_verified is Some,
            r.source == self.source,
            r.target == self.target,
            r.completeness == self.completeness,
            r.implemented_states == self.implemented_states,
            r.implemented_variants == self.implemented_variants,
            r.deviations == self.deviations,
            r.notes == self.notes,
    {
        Self { last_verified: Some(unix_now_secs()), ..self }
    }

    /// Complete means at least ninety-nine hundredths implemented and no
    /// recorded deviation.
    pub fn is_complete(&self) -> (r: bool)
        ensures
            r == (self.completeness >= 99 && self.deviations@.len() == 0),
    {
        self.completeness >= 99 && self.deviations.len() == 0
    }

    /// The completeness field is sound exactly when it is at most one
    /// hundred hundredths.
    pub fn validate(&self) -> (r: Result<(), String>)
        ensures
            match r {
                Ok(_) => self.completeness <= 100,
                Err(m) => self.completeness > 100 && m@
                    == "Completeness must be between 0 and 100"@,
            },
    {
        if self.completeness > 100 {
            return Err(String::from_str("Completeness must be between 0 and 100"));
        }
        Ok(())
    }
}

/// A source file that implements a component.
#[derive(Debug, Clone)]
pub struct ImplementationNode {
    pub id: String,
    pub file_path: String,
    /// Implementation language: "tsx", "ts", "js" or "unknown".
    pub language: String,
    pub component_name: String,
    pub exports: Vec<String>,
}

/// The language a file path implies, from its extension.
pub open spec fn spec_language_of(path: Seq<char>) -> Seq<char> {
    if chars_end_with(path, ".tsx"@) {
        "tsx"@
    } else if chars_end_with(path, ".ts"@) {
        "ts"@
    } else if chars_end_with(path, ".js"@) {
        "js"@
    } else {
        "unknown"@
    }
}

impl ImplementationNode {
    /// A new implementation node: the id is the file path behind an
    /// `impl:` prefix, the language read off the file extension.
    pub fn new(file_path: String, component_name: String) -> (r: Self)
        ensures
            r.id@ == "impl:"@ + file_path@,
            r.file_path == file_path,
            r.language@ == spec_language_of(file_path@),
            r.component_name == component_name,
            r.exports@.len() == 0,
    {
        let language: &'static str = if str_ends_with(file_path.as_str(), ".tsx") {
            "tsx"
        } else if str_ends_with(file_path.as_str(), ".ts") {
            "ts"
        } else if str_ends_with(file_path.as_str(), ".js") {
            "js"
        } else {
            "unknown"
        };
        let id = String::from_str("impl:").concat(file_path.as_str());
        Self {
            id,
            file_path,
            language: language.to_owned(),
            component_name,
            exports: Vec::new(),
        }
    }

    /// Record the exported names.
    pub fn with_exports(self, exports: Vec<String>) -> (r: Self)
        ensures
            r.exports == exports,
            r.id == self.id,
            r.file_path == self.file_path,
            r.language == self.language,
            r.component_name == self.component_name,
    {
        Self { exports, ..self }
    }

    /// A node is valid exactly when its language is one of the known
    /// three and its file path carries a matching extension.
    pub fn validate(&self) -> (r: Result<(), String>)
        ensures
            ({
                let lang_ok = self.language@ == "tsx"@ || self.language@ == "ts"@
                    || self.language@ == "js"@;
                let ext_ok = chars_end_with(self.file_path@, ".tsx"@) || chars_end_with(
                    self.file_path@,
                    ".ts"@,
                ) || chars_end_with(self.file_path@, ".js"@);
                match r {
                    Ok(_) => lang_ok && ext_ok,
                    Err(m) => if !lang_ok {
                        m@ == "Invalid language"@
                    } else {
                        !ext_ok && m@ == "Invalid file extension"@
                    },
                }
            }),
    {
        let lang_ok = self.language == String::from_str("tsx") || self.language
            == String::from_str("ts") || self.language == String::from_str("js");
        if !lang_ok {
            return Err(String::from_str("Invalid language"));
        }
        if !str_ends_with(self.file_path.as_str(), ".tsx") && !str_ends_with(
            self.file_path.as_str(),
            ".ts",
        ) && !str_ends_with(self.file_path.as_str(), ".js") {
            return Err(String::from_str("Invalid file extension"));
        }
        Ok(())
    }
}

/// Law: a node built over a path with a known extension validates; the
/// language it is given always matches the extension it was read from.
pub proof fn lemma_new_node_language_consistent(path: Seq<char>)
    ensures
        chars_end_with(path, ".tsx"@) ==> spec_language_of(path) == "tsx"@,
        !chars_end_with(path, ".tsx"@) && chars_end_with(path, ".ts"@) ==> spec_language_of(path)
            == "ts"@,
        !chars_end_with(path, ".tsx"@) && !chars_end_with(path, ".ts"@) && chars_end_with(
            path,
            ".js"@,
        ) ==> spec_language_of(path) == "js"@,
{
}

/// An edge implemented less than fully.
pub open spec fn incomplete_pred() -> spec_fn(ImplementsDesignEdge) -> bool {
    |e: ImplementsDesignEdge| e.completeness < 100
}

/// An edge with recorded deviations.
pub open spec fn deviating_pred() -> spec_fn(ImplementsDesignEdge) -> bool {
    |e: ImplementsDesignEdge| e.deviations@.len() > 0
}

/// The implementation-node table as a map from node id to the stored
/// node.
pub open spec fn impl_nodes_map(s: Seq<(String, ImplementationNode)>) -> Map<
    Seq<char>,
    ImplementationNode,
>
    decreases s.len(),
{
    if s.len() == 0 {
        Map::empty()
    } else {
        impl_nodes_map(s.drop_last()).insert(s.last().0@, s.last().1)
    }
}

pub open spec fn impl_keys_unique(s: Seq<(String, ImplementationNode)>) -> bool {
    forall|i: int, j: int| 0 <= i < j < s.len() ==> (#[trigger] s[i]).0@ != (#[trigger] s[j]).0@
}

/// The node-edge pairs one edge list contributes, in order: the edges
/// satisfying the predicate whose source has a stored node.
pub open spec fn spec_matches_in(
    list: Seq<ImplementsDesignEdge>,
    nm: Map<Seq<char>, ImplementationNode>,
    pred: spec_fn(ImplementsDesignEdge) -> bool,
) -> Seq<(ImplementationNode, ImplementsDesignEdge)>
    decreases list.len(),
{
    if list.len() == 0 {
        Seq::empty()
    } else {
        spec_matches_in(list.drop_last(), nm, pred) + (if pred(list.last()) && nm.dom().contains(
            list.last().source@,
        ) {
            seq![(nm[list.last().source@], list.last())]
        } else {
            Seq::empty()
        })
    }
}

/// The node-edge pairs every entry contributes, in entry order.
pub open spec fn spec_query_matches(
    entries: Seq<(String, Vec<ImplementsDesignEdge>)>,
    nm: Map<Seq<char>, ImplementationNode>,
    pred: spec_fn(ImplementsDesignEdge) -> bool,
) -> Seq<(ImplementationNode, ImplementsDesignEdge)>
    decreases entries.len(),
{
    if entries.len() == 0 {
        Seq::empty()
    } else {
        spec_query_matches(entries.drop_last(), nm, pred) + spec_matches_in(
            entries.last().1@,
            nm,
            pred,
        )
    }
}

proof fn lemma_impl_nodes_dom(s: Seq<(String, ImplementationNode)>, k: Seq<char>)
    ensures
        impl_nodes_map(s).dom().contains(k) <==> exists|i: int|
            0 <= i < s.len() && (#[trigger] s[i]).0@ == k,
    decreases s.len(),
{
    if s.len() > 0 {
        lemma_impl_nodes_dom(s.drop_last(), k);
        if impl_nodes_map(s).dom().contains(k) {
            if s.last().0@ != k {
                let d = s.drop_last();
                let i = choose|i: int| 0 <= i < d.len() && (#[trigger] d[i]).0@ == k;
                assert(s[i].0@ == k);
            } else {
                assert(s[s.len() - 1].0@ == k);
            }
        }
        if exists|i: int| 0 <= i < s.len() && (#[trigger] s[i]).0@ == k {
            let i = choose|i: int| 0 <= i < s.len() && (#[trigger] s[i]).0@ == k;
            if i < s.len() - 1 {
                assert(s.drop_last()[i].0@ == k);
            }
        }
    }
}

proof fn lemma_impl_nodes_index(s: Seq<(String, ImplementationNode)>, i: int)
    requires
        impl_keys_unique(s),
        0 <= i < s.len(),
    ensures
        impl_nodes_map(s).dom().contains(s[i].0@),
        impl_nodes_map(s)[s[i].0@] == s[i].1,
    decreases s.len(),
{
    if i < s.len() - 1 {
        assert(impl_keys_unique(s.drop_last()));
        assert(s.drop_last()[i] == s[i]);
        lemma_impl_nodes_index(s.drop_last(), i);
        assert(s[i].0@ != s.last().0@);
    }
}

/// Whether some edge of the list has this source.
pub open spec fn has_source(list: Seq<ImplementsDesignEdge>, impl_id: Seq<char>) -> bool {
    exists|i: int| 0 <= i < list.len() && (#[trigger] list[i]).source@ == impl_id
}

/// Query surface over implementation-tracking edges: which files
/// implement a spec, which spec a file implements, and which links are
/// incomplete or deviating.
pub struct ImplementationQuery {
    edges: Vec<(String, Vec<ImplementsDesignEdge>)>,
    nodes: Vec<(String, ImplementationNode)>,
}

impl ImplementationQuery {
    /// The edge lists by design-spec id, in insertion order of first use.
    pub closed spec fn edge_entries(self) -> Seq<(String, Vec<ImplementsDesignEdge>)> {
        self.edges@
    }

    /// The stored implementation nodes by node id.
    pub closed spec fn nodes_map(self) -> Map<Seq<char>, ImplementationNode> {
        impl_nodes_map(self.nodes@)
    }

    /// One entry per spec id and per node id.
    pub closed spec fn wf(self) -> bool {
        &&& forall|i: int, j: int|
            0 <= i < j < self.edges@.len() ==> (#[trigger] self.edges@[i]).0@ != (
            #[trigger] self.edges@[j]).0@
        &&& impl_keys_unique(self.nodes@)
    }

    pub fn new() -> (r: Self)
        ensures
            r.wf(),
            r.edge_entries() =~= Seq::<(String, Vec<ImplementsDesignEdge>)>::empty(),
            r.nodes_map() =~= Map::<Seq<char>, ImplementationNode>::empty(),
    {
        Self { edges: Vec::new(), nodes: Vec::new() }
    }

    /// Store an implementation node under its own id; an id already
    /// present keeps its first node.
    pub fn add_node(&mut self, node: ImplementationNode) -> (r: bool)
        requires
            old(self).wf(),
        ensures
            final(self).wf(),
            final(self).edge_entries() == old(self).edge_entries(),
            r == !old(self).nodes_map().dom().contains(node.id@),
            r ==> final(self).nodes_map() == old(self).nodes_map().insert(node.id@, node),
            !r ==> final(self).nodes_map() == old(self).nodes_map(),
    {
        let mut i: usize = 0;
        while i < self.nodes.len()
            invariant
                *self == *old(self),
                old(self).wf(),
                i <= self.nodes@.len(),
                forall|j: int| 0 <= j < i ==> (#[trigger] self.nodes@[j]).0@ != node.id@,
            decreases self.nodes@.len() - i,
        {
            if self.nodes[i].0 == node.id {
                proof {
                    lemma_impl_nodes_dom(self.nodes@, node.id@);
                }
                return false;
            }
            i += 1;
        }
        proof {
            lemma_impl_nodes_dom(self.nodes@, node.id@);
        }
        let ghost pre = self.nodes@;
        let key = node.id.clone();
        self.nodes.push((key, node));
        proof {
            assert(self.nodes@.drop_last() =~= pre);
        }
        true
    }

    /// Record an implementation edge under its design spec id.
    pub fn add_edge(&mut self, spec_id: String, edge: ImplementsDesignEdge)
        requires
            old(self).wf(),
        ensures
            final(self).wf(),
            final(self).nodes_map() == old(self).nodes_map(),
            ({
                let pre = old(self).edge_entries();
                let post = final(self).edge_entries();
                ||| (exists|i: int|
                    {
                        &&& 0 <= i < pre.len()
                        &&& (#[trigger] pre[i]).0@ == spec_id@
                        &&& post.len() == pre.len()
                        &&& post[i].0 == pre[i].0
                        &&& post[i].1@ == pre[i].1@.push(edge)
                        &&& forall|j: int| 0 <= j < pre.len() && j != i ==> post[j] == pre[j]
                    })
                ||| {
                    &&& post.len() == pre.len() + 1
                    &&& post.take(pre.len() as int) == pre
                    &&& post.last().0@ == spec_id@
                    &&& post.last().1@ == seq![edge]
                    &&& forall|j: int| 0 <= j < pre.len() ==> (#[trigger] pre[j]).0@ != spec_id@
                }
            }),
    {
        let mut i: usize = 0;
        while i < self.edges.len()
            invariant
                self.wf(),
                i <= self.edges@.len(),
                self.edges@ == old(self).edges@,
                self.nodes@ == old(self).nodes@,
                forall|j: int| 0 <= j < i ==> (#[trigger] self.edges@[j]).0@ != spec_id@,
            decreases self.edges@.len() - i,
        {
            if self.edges[i].0 == spec_id {
                let ghost pre = self.edges@;
                proof {
                    assert(pre == old(self).edges@);
                }
                let (key, mut list) = self.edges.remove(i);
                list.push(edge);
                self.edges.insert(i, (key, list));
                proof {
                    assert(self.edges@ =~= pre.update(i as int, self.edges@[i as int]));
                    assert forall|a: int, b: int|
                        0 <= a < b < self.edges@.len() implies (#[trigger] self.edges@[a]).0@ != (
                    #[trigger] self.edges@[b]).0@ by {
                        assert(pre[a].0@ != pre[b].0@);
                    }
                }
                return ;
            }
            i += 1;
        }
        let ghost pre = self.edges@;
        let mut list: Vec<ImplementsDesignEdge> = Vec::new();
        list.push(edge);
        self.edges.push((spec_id, list));
        proof {
            assert(self.edges@.take(pre.len() as int) =~= pre);
        }
    }

    /// All stored implementation nodes for the edges of a design spec,
    /// in edge order; an edge whose source has no stored node is passed
    /// over.
    pub fn find_for_spec(&self, spec_id: &str) -> (r: Vec<&ImplementationNode>)
        requires
            self.wf(),
        ensures
            ({
                let expectation = spec_matches_in_nodes(*self, spec_id@);
                r@.len() == expectation.len() && forall|i: int|
                    0 <= i < r@.len() ==> *(#[trigger] r@[i]) == expectation[i]
            }),
    {
        let id = spec_id.to_owned();
        let mut i: usize = 0;
        while i < self.edges.len()
            invariant
                self.wf(),
                i <= self.edges@.len(),
                forall|j: int| 0 <= j < i ==> (#[trigger] self.edges@[j]).0@ != spec_id@,
                id@ == spec_id@,
            decreases self.edges@.len() - i,
        {
            if self.edges[i].0 == id {
                let list = &self.edges[i].1;
                let ghost pred = any_pred();
                proof {
                    assert(self.edge_entries()[i as int].0@ == spec_id@);
                    let c = choose|c: int|
                        0 <= c < self.edge_entries().len() && (
                        #[trigger] self.edge_entries()[c]).0@ == spec_id@;
                    if c != i {
                        let a = if c < i { c } else { i as int };
                        let b = if c < i { i as int } else { c };
                        assert(self.edges@[a].0@ != self.edges@[b].0@);
                    }
                    assert(c == i);
                    assert(list@ == self.edge_entries()[i as int].1@);
                    assert(spec_matches_in_nodes(*self, spec_id@) =~= spec_matches_in(
                        list@,
                        self.nodes_map(),
                        pred,
                    ).map_values(|p: (ImplementationNode, ImplementsDesignEdge)| p.0));
                }
                let pairs = self.matches_in_list(list);
                let mut out: Vec<&ImplementationNode> = Vec::new();
                let mut k: usize = 0;
                while k < pairs.len()
                    invariant
                        k <= pairs@.len(),
                        out@.len() == k,
                        forall|m: int| 0 <= m < k ==> out@[m] == (#[trigger] pairs@[m]).0,
                    decreases pairs@.len() - k,
                {
                    out.push(pairs[k].0);
                    k += 1;
                }
                proof {
                    let exp = spec_matches_in(list@, self.nodes_map(), pred);
                    let expectation = spec_matches_in_nodes(*self, spec_id@);
                    assert(forall|m: int|
                        0 <= m < exp.len() ==> exp.map_values(
                            |p: (ImplementationNode, ImplementsDesignEdge)| p.0,
                        )[m] == (#[trigger] exp[m]).0);
                    assert(out@.len() == expectation.len());
                    assert forall|m: int| 0 <= m < out@.len() implies *(#[trigger] out@[m])
                        == expectation[m] by {
                        assert(out@[m] == pairs@[m].0);
                        assert(*pairs@[m].0 == exp[m].0);
                        assert(expectation[m] == exp[m].0);
                    }
                }
                return out;
            }
            i += 1;
        }
        proof {
            assert(!(exists|c: int|
                0 <= c < self.edge_entries().len() && (#[trigger] self.edge_entries()[c]).0@
                    == spec_id@));
            assert(spec_matches_in_nodes(*self, spec_id@) =~= Seq::<ImplementationNode>::empty());
        }
        Vec::new()
    }

    /// The first design spec id (in entry order) one of whose edges has
    /// this implementation as its source.
    pub fn find_spec_for_impl(&self, impl_id: &str) -> (r: Option<String>)
        requires
            self.wf(),
        ensures
            match r {
                Some(found) => exists|i: int|
                    {
                        &&& 0 <= i < self.edge_entries().len()
                        &&& (#[trigger] self.edge_entries()[i]).0@ == found@
                        &&& has_source(self.edge_entries()[i].1@, impl_id@)
                        &&& forall|j: int|
                            0 <= j < i ==> !has_source(
                                (#[trigger] self.edge_entries()[j]).1@,
                                impl_id@,
                            )
                    },
                None => forall|i: int|
                    0 <= i < self.edge_entries().len() ==> !has_source(
                        (#[trigger] self.edge_entries()[i]).1@,
                        impl_id@,
                    ),
            },
    {
        let id = impl_id.to_owned();
        let mut i: usize = 0;
        while i < self.edges.len()
            invariant
                self.wf(),
                i <= self.edges@.len(),
                id@ == impl_id@,
                forall|j: int|
                    0 <= j < i ==> !has_source((#[trigger] self.edges@[j]).1@, impl_id@),
            decreases self.edges@.len() - i,
        {
            let list = &self.edges[i].1;
            let mut k: usize = 0;
            while k < list.len()
                invariant
                    self.wf(),
                    i < self.edges@.len(),
                    list@ == self.edges@[i as int].1@,
                    k <= list@.len(),
                    id@ == impl_id@,
                    forall|j: int|
                        0 <= j < i ==> !has_source((#[trigger] self.edges@[j]).1@, impl_id@),
                    forall|m: int| 0 <= m < k ==> (#[trigger] list@[m]).source@ != impl_id@,
                decreases list@.len() - k,
            {
                if list[k].source == id {
                    let found = self.edges[i].0.clone();
                    proof {
                        assert(list@[k as int].source@ == impl_id@);
                        assert(has_source(self.edges@[i as int].1@, impl_id@));
                        assert(self.edge_entries()[i as int].0@ == found@);
                    }
                    return Some(found);
                }
                k += 1;
            }
            proof {
                assert(!has_source(self.edges@[i as int].1@, impl_id@));
            }
            i += 1;
        }
        None
    }

    /// The node-edge pairs of one list that satisfy a predicate given at
    /// the spec level through the callers below.
    fn matches_in_list<'a>(&'a self, list: &'a Vec<ImplementsDesignEdge>) -> (r: Vec<
        (&'a ImplementationNode, &'a ImplementsDesignEdge),
    >)
        requires
            self.wf(),
        ensures
            ({
                let exp = spec_matches_in(list@, self.nodes_map(), any_pred());
                r@.len() == exp.len() && forall|i: int|
                    0 <= i < r@.len() ==> *(#[trigger] r@[i]).0 == exp[i].0 && *r@[i].1 == exp[i].1
            }),
    {
        self.matches_with(list, 0)
    }

    /// Implementations less than fully complete, with their edges, in
    /// entry order.
    pub fn find_incomplete(&self) -> (r: Vec<(&ImplementationNode, &ImplementsDesignEdge)>)
        requires
            self.wf(),
        ensures
            ({
                let exp = spec_query_matches(
                    self.edge_entries(),
                    self.nodes_map(),
                    incomplete_pred(),
                );
                r@.len() == exp.len() && forall|i: int|
                    0 <= i < r@.len() ==> *(#[trigger] r@[i]).0 == exp[i].0 && *r@[i].1 == exp[i].1
            }),
    {
        self.query_matches(1)
    }

    /// Implementations with recorded deviations, with their edges, in
    /// entry order.
    pub fn find_with_deviations(&self) -> (r: Vec<(&ImplementationNode, &ImplementsDesignEdge)>)
        requires
            self.wf(),
        ensures
            ({
                let exp = spec_query_matches(
                    self.edge_entries(),
                    self.nodes_map(),
                    deviating_pred(),
                );
                r@.len() == exp.len() && forall|i: int|
                    0 <= i < r@.len() ==> *(#[trigger] r@[i]).0 == exp[i].0 && *r@[i].1 == exp[i].1
            }),
    {
        self.query_matches(2)
    }

    /// The matching node-edge pairs over every entry for a predicate
    /// selector: every edge, the incomplete ones, or the deviating ones.
    fn query_matches(&self, which: u8) -> (r: Vec<(&ImplementationNode, &ImplementsDesignEdge)>)
        requires
            self.wf(),
            which == 1 || which == 2,
        ensures
            ({
                let pred = if which == 1 {
                    incomplete_pred()
                } else {
                    deviating_pred()
                };
                let exp = spec_query_matches(self.edge_entries(), self.nodes_map(), pred);
                r@.len() == exp.len() && forall|i: int|
                    0 <= i < r@.len() ==> *(#[trigger] r@[i]).0 == exp[i].0 && *r@[i].1 == exp[i].1
            }),
    {
        let ghost pred = if which == 1 {
            incomplete_pred()
        } else {
            deviating_pred()
        };
        let mut out: Vec<(&ImplementationNode, &ImplementsDesignEdge)> = Vec::new();
        let mut i: usize = 0;
        while i < self.edges.len()
            invariant
                self.wf(),
                i <= self.edges@.len(),
                which == 1 || which == 2,
                pred == if which == 1 {
                    incomplete_pred()
                } else {
                    deviating_pred()
                },
                ({
                    let exp = spec_query_matches(
                        self.edges@.take(i as int),
                        self.nodes_map(),
                        pred,
                    );
                    out@.len() == exp.len() && forall|m: int|
                        0 <= m < out@.len() ==> *(#[trigger] out@[m]).0 == exp[m].0 && *out@[m].1
                            == exp[m].1
                }),
            decreases self.edges@.len() - i,
        {
            let list = &self.edges[i].1;
            let pairs = self.matches_with(list, which);
            let ghost upto = spec_query_matches(self.edges@.take(i as int), self.nodes_map(), pred);
            let mut k: usize = 0;
            while k < pairs.len()
                invariant
                    k <= pairs@.len(),
                    ({
                        let exp = spec_matches_in(
                            self.edges@[i as int].1@,
                            self.nodes_map(),
                            pred,
                        );
                        pairs@.len() == exp.len() && forall|m: int|
                            0 <= m < pairs@.len() ==> *(#[trigger] pairs@[m]).0 == exp[m].0
                                && *pairs@[m].1 == exp[m].1
                    }),
                    out@.len() == upto.len() + k,
                    forall|m: int|
                        0 <= m < upto.len() ==> *(#[trigger] out@[m]).0 == upto[m].0 && *out@[m].1
                            == upto[m].1,
                    forall|m: int|
                        0 <= m < k ==> *(#[trigger] out@[upto.len() + m]).0 == pairs@[m].0
                            && *out@[upto.len() + m].1 == pairs@[m].1,
                    i < self.edges@.len(),
                decreases pairs@.len() - k,
            {
                out.push(pairs[k]);
                k += 1;
            }
            proof {
                assert(self.edges@.take(i + 1).drop_last() =~= self.edges@.take(i as int));
                assert(self.edges@.take(i + 1).last() == self.edges@[i as int]);
                let exp1 = spec_query_matches(self.edges@.take(i + 1), self.nodes_map(), pred);
                let inner = spec_matches_in(self.edges@[i as int].1@, self.nodes_map(), pred);
                assert(exp1 =~= upto + inner);
                assert forall|m: int|
                    0 <= m < out@.len() implies *(#[trigger] out@[m]).0 == exp1[m].0 && *out@[m].1
                    == exp1[m].1 by {
                    if m < upto.len() {
                        assert(exp1[m] == upto[m]);
                        assert(*out@[m].0 == upto[m].0 && *out@[m].1 == upto[m].1);
                    } else {
                        let mm = m - upto.len();
                        assert(exp1[m] == inner[mm]);
                        assert(*(out@[upto.len() + mm]).0 == pairs@[mm].0
                            && *(out@[upto.len() + mm]).1 == pairs@[mm].1);
                        assert(*pairs@[mm].0 == inner[mm].0 && *pairs@[mm].1 == inner[mm].1);
                    }
                }
            }
            i += 1;
        }
        proof {
            assert(self.edges@.take(self.edges@.len() as int) =~= self.edges@);
        }
        out
    }

    /// The pairs of one list for a predicate selector: every edge (zero),
    /// the incomplete ones (one), or the deviating ones (two).
    fn matches_with<'a>(&'a self, list: &'a Vec<ImplementsDesignEdge>, which: u8) -> (r: Vec<
        (&'a ImplementationNode, &'a ImplementsDesignEdge),
    >)
        requires
            self.wf(),
            which <= 2,
        ensures
            ({
                let pred = if which == 0 {
                    any_pred()
                } else if which == 1 {
                    incomplete_pred()
                } else {
                    deviating_pred()
                };
                let exp = spec_matches_in(list@, self.nodes_map(), pred);
                r@.len() == exp.len() && forall|i: int|
                    0 <= i < r@.len() ==> *(#[trigger] r@[i]).0 == exp[i].0 && *r@[i].1 == exp[i].1
            }),
    {
        let ghost pred = if which == 0 {
            any_pred()
        } else if which == 1 {
            incomplete_pred()
        } else {
            deviating_pred()
        };
        let mut out: Vec<(&ImplementationNode, &ImplementsDesignEdge)> = Vec::new();
        let mut k: usize = 0;
        while k < list.len()
            invariant
                self.wf(),
                k <= list@.len(),
                which <= 2,
                pred == if which == 0 {
                    any_pred()
                } else if which == 1 {
                    incomplete_pred()
                } else {
                    deviating_pred()
                },
                ({
                    let exp = spec_matches_in(list@.take(k as int), self.nodes_map(), pred);
                    out@.len() == exp.len() && forall|m: int|
                        0 <= m < out@.len() ==> *(#[trigger] out@[m]).0 == exp[m].0 && *out@[m].1
                            == exp[m].1
                }),
            decreases list@.len() - k,
        {
            let e = &list[k];
            let keep = if which == 0 {
                true
            } else if which == 1 {
                e.completeness < 100
            } else {
                e.deviations.len() > 0
            };
            let ghost preout = out@;
            proof {
                assert(list@.take(k + 1).drop_last() =~= list@.take(k as int));
                assert(list@.take(k + 1).last() == list@[k as int]);
            }
            if keep {
                match self.node_find(&e.source) {
                    Some(ni) => {
                        proof {
                            lemma_impl_nodes_index(self.nodes@, ni as int);
                        }
                        out.push((&self.nodes[ni].1, e));
                    },
                    None => {
                        proof {
                            lemma_impl_nodes_dom(self.nodes@, list@[k as int].source@);
                        }
                    },
                }
            }
            proof {
                lemma_impl_nodes_dom(self.nodes@, list@[k as int].source@);
                let exp1 = spec_matches_in(list@.take(k + 1), self.nodes_map(), pred);
                assert forall|m: int|
                    0 <= m < out@.len() implies *(#[trigger] out@[m]).0 == exp1[m].0 && *out@[m].1
                    == exp1[m].1 by {
                    if m < preout.len() {
                        assert(out@[m] == preout[m]);
                    }
                }
            }
            k += 1;
        }
        proof {
            assert(list@.take(list@.len() as int) =~= list@);
        }
        out
    }

    fn node_find(&self, id: &String) -> (r: Option<usize>)
        ensures
            match r {
                Some(i) => i < self.nodes@.len() && self.nodes@[i as int].0@ == id@,
                None => forall|i: int|
                    0 <= i < self.nodes@.len() ==> (#[trigger] self.nodes@[i]).0@ != id@,
            },
    {
        let mut i: usize = 0;
        while i < self.nodes.len()
            invariant
                i <= self.nodes@.len(),
                forall|j: int| 0 <= j < i ==> (#[trigger] self.nodes@[j]).0@ != id@,
            decreases self.nodes@.len() - i,
        {
            if self.nodes[i].0 == *id {
                return Some(i);
            }
            i += 1;
        }
        None
    }

    /// The given spec ids with no recorded implementation edges, in the
    /// given order.
    pub fn find_unimplemented_specs(&self, all_spec_ids: &Vec<String>) -> (r: Vec<String>)
        requires
            self.wf(),
        ensures
            ({
                let pred = unimplemented_pred(self.spec_key_set());
                r@.map_values(|t: String| t@) == all_spec_ids@.map_values(|t: String| t@).filter(
                    pred,
                )
            }),
    {
        let ghost pred = unimplemented_pred(self.spec_key_set());
        let mut out: Vec<String> = Vec::new();
        let mut i: usize = 0;
        while i < all_spec_ids.len()
            invariant
                self.wf(),
                i <= all_spec_ids@.len(),
                pred == unimplemented_pred(self.spec_key_set()),
                out@.map_values(|t: String| t@) == all_spec_ids@.take(i as int).map_values(
                    |t: String| t@,
                ).filter(pred),
            decreases all_spec_ids@.len() - i,
        {
            let sid = &all_spec_ids[i];
            let ghost preout = out@;
            proof {
                assert(all_spec_ids@.take(i + 1) =~= all_spec_ids@.take(i as int).push(
                    all_spec_ids@[i as int],
                ));
                assert(all_spec_ids@.take(i + 1).map_values(|t: String| t@) =~= all_spec_ids@.take(
                    i as int,
                ).map_values(|t: String| t@).push(sid@));
                crate::spatial::lemma_filter_push(
                    all_spec_ids@.take(i as int).map_values(|t: String| t@),
                    sid@,
                    pred,
                );
            }
            let mut found: bool = false;
            let mut j: usize = 0;
            while j < self.edges.len()
                invariant
                    j <= self.edges@.len(),
                    found == exists|m: int|
                        0 <= m < j && (#[trigger] self.edges@[m]).0@ == sid@,
                decreases self.edges@.len() - j,
            {
                if self.edges[j].0 == *sid {
                    found = true;
                    proof {
                        assert(self.edges@[j as int].0@ == sid@);
                    }
                }
                j += 1;
            }
            proof {
                assert(found == self.spec_key_set().contains(sid@)) by {
                    if found {
                        let m = choose|m: int|
                            0 <= m < self.edges@.len() && (#[trigger] self.edges@[m]).0@ == sid@;
                        assert(self.spec_key_set().contains(self.edges@[m].0@));
                    }
                    if self.spec_key_set().contains(sid@) {
                        let m = choose|m: int|
                            0 <= m < self.edges@.len() && (#[trigger] self.edges@[m]).0@ == sid@;
                        assert(0 <= m < self.edges@.len() && self.edges@[m].0@ == sid@);
                    }
                }
            }
            if !found {
                out.push(sid.clone());
                proof {
                    assert(out@.map_values(|t: String| t@) =~= preout.map_values(
                        |t: String| t@,
                    ).push(sid@));
                }
            }
            i += 1;
        }
        proof {
            assert(all_spec_ids@.take(all_spec_ids@.len() as int) =~= all_spec_ids@);
        }
        out
    }

    /// The set of spec ids with recorded edges.
    pub closed spec fn spec_key_set(self) -> Set<Seq<char>> {
        Set::new(
            |k: Seq<char>|
                exists|i: int| 0 <= i < self.edges@.len() && (#[trigger] self.edges@[i]).0@ == k,
        )
    }
}

/// Every edge.
pub open spec fn any_pred() -> spec_fn(ImplementsDesignEdge) -> bool {
    |e: ImplementsDesignEdge| true
}

/// The spec ids not implemented by any recorded edge.
pub open spec fn unimplemented_pred(keys: Set<Seq<char>>) -> spec_fn(Seq<char>) -> bool {
    |s: Seq<char>| !keys.contains(s)
}

/// The stored nodes matched by the entry carrying a spec id, every edge
/// considered.
pub open spec fn spec_matches_in_nodes(q: ImplementationQuery, spec_id: Seq<char>) -> Seq<
    ImplementationNode,
> {
    if exists|i: int|
        0 <= i < q.edge_entries().len() && (#[trigger] q.edge_entries()[i]).0@ == spec_id {
        let i = choose|i: int|
            0 <= i < q.edge_entries().len() && (#[trigger] q.edge_entries()[i]).0@ == spec_id;
        spec_matches_in(q.edge_entries()[i].1@, q.nodes_map(), any_pred()).map_values(
            |p: (ImplementationNode, ImplementsDesignEdge)| p.0,
        )
    } else {
        Seq::empty()
    }
}

} // verus!

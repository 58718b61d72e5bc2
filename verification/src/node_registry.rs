//! Registry of node types: metadata per type id, a category index for
//! fast filtering, and bookkeeping of the total memory requirement.

use vstd::prelude::*;

verus! {

/// Port definition for inputs and outputs.
#[derive(Debug, Clone)]
pub struct PortDefinition {
    pub name: String,
    /// Data type carried: "audio", "midi", "control" or "event".
    pub data_type: String,
    pub is_required: bool,
}

/// Parameter definition. Numeric bounds are kept as integers in
/// thousandths of the parameter's unit.
#[derive(Debug, Clone)]
pub struct ParameterDefinition {
    pub name: String,
    /// Data type: "float", "int", "bool", "string" or "enum".
    pub data_type: String,
    pub default_value: String,
    /// Smallest allowed value, in thousandths, if bounded.
    pub min_value: Option<i64>,
    /// Largest allowed value, in thousandths, if bounded.
    pub max_value: Option<i64>,
    pub enum_values: Option<Vec<String>>,
}

/// Node type metadata describing a registered node processor.
#[derive(Debug, Clone)]
pub struct NodeTypeMetadata {
    /// Unique identifier for the node type (e.g., "audio.gain").
    pub type_id: String,
    /// Human-readable display name.
    pub display_name: String,
    /// Category for organization (e.g., "audio", "midi", "control").
    pub category: String,
    /// Input port definitions.
    pub inputs: Vec<PortDefinition>,
    /// Output port definitions.
    pub outputs: Vec<PortDefinition>,
    /// Parameter definitions.
    pub parameters: Vec<ParameterDefinition>,
    /// Name of the compiled processor function.
    pub wasm_function: String,
    /// Memory requirements in bytes.
    pub memory_requirement: u32,
    /// Whether this node can be executed in parallel.
    pub is_parallel_safe: bool,
    /// Version string for compatibility checking.
    pub version: String,
}

/// Registry statistics.
#[derive(Debug, Clone, Copy, PartialEq, Eq, Structural)]
pub struct RegistryStats {
    pub total_nodes: usize,
    pub total_categories: usize,
    pub total_memory: u32,
    pub parallel_safe_count: usize,
}

/// The registry entries as a map from type id to the stored metadata.
pub open spec fn registry_map(s: Seq<(String, NodeTypeMetadata)>) -> Map<
    Seq<char>,
    NodeTypeMetadata,
>
    decreases s.len(),
{
    if s.len() == 0 {
        Map::empty()
    } else {
        registry_map(s.drop_last()).insert(s.last().0@, s.last().1)
    }
}

pub open spec fn registry_keys_unique(s: Seq<(String, NodeTypeMetadata)>) -> bool {
    forall|i: int, j: int| 0 <= i < j < s.len() ==> (#[trigger] s[i]).0@ != (#[trigger] s[j]).0@
}

/// The category index as a map from category name to the listed type
/// ids.
pub open spec fn category_map(s: Seq<(String, Vec<String>)>) -> Map<Seq<char>, Seq<Seq<char>>>
    decreases s.len(),
{
    if s.len() == 0 {
        Map::empty()
    } else {
        category_map(s.drop_last()).insert(
            s.last().0@,
            s.last().1@.map_values(|t: String| t@),
        )
    }
}

pub open spec fn category_keys_unique(s: Seq<(String, Vec<String>)>) -> bool {
    forall|i: int, j: int| 0 <= i < j < s.len() ==> (#[trigger] s[i]).0@ != (#[trigger] s[j]).0@
}

proof fn lemma_registry_dom(s: Seq<(String, NodeTypeMetadata)>, k: Seq<char>)
    ensures
        registry_map(s).dom().contains(k) <==> exists|i: int|
            0 <= i < s.len() && (#[trigger] s[i]).0@ == k,
    decreases s.len(),
{
    if s.len() > 0 {
        lemma_registry_dom(s.drop_last(), k);
        if registry_map(s).dom().contains(k) {
            if s.last().0@ != k {
                let d = s.drop_last();
                let i = choose|i: int| 0 <= i < d.len() && (#[trigger] d[i]).0@ == k;
                assert(s[i].0@ == k);
            } else {
                assert(s[s.len() - 1].0@ == k);
            }
        }
        if exists|i: int| 0 <= i < s.len() && (#[trigger] s[i]).0@ == k {
            let i = choose|i: int| 0 <= i < s.len() && (#[trigger] s[i]).0@ == k;
            if i < s.len() - 1 {
                assert(s.drop_last()[i].0@ == k);
            }
        }
    }
}

proof fn lemma_registry_index(s: Seq<(String, NodeTypeMetadata)>, i: int)
    requires
        registry_keys_unique(s),
        0 <= i < s.len(),
    ensures
        registry_map(s).dom().contains(s[i].0@),
        registry_map(s)[s[i].0@] == s[i].1,
    decreases s.len(),
{
    if i < s.len() - 1 {
        assert(registry_keys_unique(s.drop_last()));
        assert(s.drop_last()[i] == s[i]);
        lemma_registry_index(s.drop_last(), i);
        assert(s[i].0@ != s.last().0@);
    }
}

proof fn lemma_registry_remove(s: Seq<(String, NodeTypeMetadata)>, i: int)
    requires
        registry_keys_unique(s),
        0 <= i < s.len(),
    ensures
        registry_keys_unique(s.remove(i)),
        registry_map(s.remove(i)) == registry_map(s).remove(s[i].0@),
    decreases s.len(),
{
    let t = s.remove(i);
    assert(registry_keys_unique(t)) by {
        assert forall|a: int, b: int| 0 <= a < b < t.len() implies (#[trigger] t[a]).0@ != (
        #[trigger] t[b]).0@ by {
            let a0 = if a < i {
                a
            } else {
                a + 1
            };
            let b0 = if b < i {
                b
            } else {
                b + 1
            };
            assert(t[a] == s[a0] && t[b] == s[b0]);
        }
    }
    if i == s.len() - 1 {
        assert(t =~= s.drop_last());
        lemma_registry_dom(s.drop_last(), s[i].0@);
        assert(forall|j: int|
            0 <= j < s.drop_last().len() ==> (#[trigger] s.drop_last()[j]).0@ != s[i].0@);
        assert(!registry_map(s.drop_last()).dom().contains(s[i].0@));
        assert(registry_map(t) =~= registry_map(s).remove(s[i].0@));
    } else {
        assert(registry_keys_unique(s.drop_last()));
        assert(s.drop_last()[i] == s[i]);
        lemma_registry_remove(s.drop_last(), i);
        assert(t.drop_last() =~= s.drop_last().remove(i));
        assert(t.last() == s.last());
        assert(s[i].0@ != s.last().0@);
        assert(registry_map(t) =~= registry_map(s).remove(s[i].0@));
    }
}

proof fn lemma_category_dom(s: Seq<(String, Vec<String>)>, k: Seq<char>)
    ensures
        category_map(s).dom().contains(k) <==> exists|i: int|
            0 <= i < s.len() && (#[trigger] s[i]).0@ == k,
    decreases s.len(),
{
    if s.len() > 0 {
        lemma_category_dom(s.drop_last(), k);
        if category_map(s).dom().contains(k) {
            if s.last().0@ != k {
                let d = s.drop_last();
                let i = choose|i: int| 0 <= i < d.len() && (#[trigger] d[i]).0@ == k;
                assert(s[i].0@ == k);
            } else {
                assert(s[s.len() - 1].0@ == k);
            }
        }
        if exists|i: int| 0 <= i < s.len() && (#[trigger] s[i]).0@ == k {
            let i = choose|i: int| 0 <= i < s.len() && (#[trigger] s[i]).0@ == k;
            if i < s.len() - 1 {
                assert(s.drop_last()[i].0@ == k);
            }
        }
    }
}

proof fn lemma_category_index(s: Seq<(String, Vec<String>)>, i: int)
    requires
        category_keys_unique(s),
        0 <= i < s.len(),
    ensures
        category_map(s).dom().contains(s[i].0@),
        category_map(s)[s[i].0@] == s[i].1@.map_values(|t: String| t@),
    decreases s.len(),
{
    if i < s.len() - 1 {
        assert(category_keys_unique(s.drop_last()));
        assert(s.drop_last()[i] == s[i]);
        lemma_category_index(s.drop_last(), i);
        assert(s[i].0@ != s.last().0@);
    }
}

proof fn lemma_category_update(s: Seq<(String, Vec<String>)>, i: int, e: (String, Vec<String>))
    requires
        category_keys_unique(s),
        0 <= i < s.len(),
        s[i].0@ == e.0@,
    ensures
        category_keys_unique(s.update(i, e)),
        category_map(s.update(i, e)) == category_map(s).insert(
            e.0@,
            e.1@.map_values(|t: String| t@),
        ),
    decreases s.len(),
{
    let t = s.update(i, e);
    assert(category_keys_unique(t));
    if i == s.len() - 1 {
        assert(t.drop_last() =~= s.drop_last());
        assert(t.last() == e);
        assert(category_map(t) =~= category_map(s).insert(
            e.0@,
            e.1@.map_values(|t: String| t@),
        ));
    } else {
        assert(category_keys_unique(s.drop_last()));
        assert(s.drop_last()[i] == s[i]);
        lemma_category_update(s.drop_last(), i, e);
        assert(t.drop_last() =~= s.drop_last().update(i, e));
        assert(t.last() == s.last());
        assert(s[i].0@ != s.last().0@);
        assert(category_map(t) =~= category_map(s).insert(
            e.0@,
            e.1@.map_values(|t: String| t@),
        ));
    }
}

/// The main registry managing all node types.
pub struct WASMNodeRegistry {
    registry: Vec<(String, NodeTypeMetadata)>,
    category_index: Vec<(String, Vec<String>)>,
    total_memory: u32,
}

impl WASMNodeRegistry {
    /// The stored metadata by type id.
    pub closed spec fn entries(self) -> Map<Seq<char>, NodeTypeMetadata> {
        registry_map(self.registry@)
    }

    /// The category index: type ids per category.
    pub closed spec fn categories(self) -> Map<Seq<char>, Seq<Seq<char>>> {
        category_map(self.category_index@)
    }

    /// Total memory requirement recorded (saturating at the counter's
    /// top).
    pub closed spec fn spec_total_memory(self) -> u32 {
        self.total_memory
    }

    /// One entry per type id and per category.
    pub closed spec fn wf(self) -> bool {
        registry_keys_unique(self.registry@) && category_keys_unique(self.category_index@)
    }

    /// Create a new empty registry.
    pub fn new() -> (r: WASMNodeRegistry)
        ensures
            r.wf(),
            r.entries() =~= Map::<Seq<char>, NodeTypeMetadata>::empty(),
            r.categories() =~= Map::<Seq<char>, Seq<Seq<char>>>::empty(),
            r.spec_total_memory() == 0,
    {
        WASMNodeRegistry { registry: Vec::new(), category_index: Vec::new(), total_memory: 0 }
    }

    fn registry_find(&self, id: &String) -> (r: Option<usize>)
        ensures
            match r {
                Some(i) => i < self.registry@.len() && self.registry@[i as int].0@ == id@,
                None => forall|i: int|
                    0 <= i < self.registry@.len() ==> (#[trigger] self.registry@[i]).0@ != id@,
            },
    {
        let mut i: usize = 0;
        while i < self.registry.len()
            invariant
                i <= self.registry@.len(),
                forall|j: int| 0 <= j < i ==> (#[trigger] self.registry@[j]).0@ != id@,
            decreases self.registry@.len() - i,
        {
            if self.registry[i].0 == *id {
                return Some(i);
            }
            i += 1;
        }
        None
    }

    fn category_find(&self, id: &String) -> (r: Option<usize>)
        ensures
            match r {
                Some(i) => i < self.category_index@.len() && self.category_index@[i as int].0@
                    == id@,
                None => forall|i: int|
                    0 <= i < self.category_index@.len() ==> (#[trigger] self.category_index@[i]).0@
                        != id@,
            },
    {
        let mut i: usize = 0;
        while i < self.category_index.len()
            invariant
                i <= self.category_index@.len(),
                forall|j: int| 0 <= j < i ==> (#[trigger] self.category_index@[j]).0@ != id@,
            decreases self.category_index@.len() - i,
        {
            if self.category_index[i].0 == *id {
                return Some(i);
            }
            i += 1;
        }
        None
    }

    /// Register a node type: refused (and nothing changes) exactly when
    /// the type id is taken; otherwise the metadata is stored, the type
    /// id is appended to its category's list, and the memory total grows
    /// by the metadata's requirement, saturating at the counter's top.
    pub fn register(&mut self, metadata: NodeTypeMetadata) -> (r: bool)
        requires
            old(self).wf(),
        ensures
            final(self).wf(),
            r == !old(self).entries().dom().contains(metadata.type_id@),
            !r ==> *final(self) == *old(self),
            r ==> final(self).entries() == old(self).entries().insert(
                metadata.type_id@,
                metadata,
            ),
            r ==> final(self).categories() == old(self).categories().insert(
                metadata.category@,
                if old(self).categories().dom().contains(metadata.category@) {
                    old(self).categories()[metadata.category@].push(metadata.type_id@)
                } else {
                    seq![metadata.type_id@]
                },
            ),
            r ==> final(self).spec_total_memory() == if old(self).spec_total_memory()
                + metadata.memory_requirement <= u32::MAX {
                (old(self).spec_total_memory() + metadata.memory_requirement) as u32
            } else {
                u32::MAX
            },
    {
        let found = self.registry_find(&metadata.type_id);
        proof {
            lemma_registry_dom(self.registry@, metadata.type_id@);
        }
        if found.is_some() {
            return false;
        }

        self.total_memory = if self.total_memory <= u32::MAX - metadata.memory_requirement {
            self.total_memory + metadata.memory_requirement
        } else {
            u32::MAX
        };

        let ghost cpre = self.category_index@;
        let cat_found = self.category_find(&metadata.category);
        proof {
            lemma_category_dom(cpre, metadata.category@);
        }
        match cat_found {
            Some(i) => {
                proof {
                    lemma_category_index(cpre, i as int);
                }
                let (key, mut list) = self.category_index.remove(i);
                let ghost plist = list@;
                list.push(metadata.type_id.clone());
                self.category_index.insert(i, (key, list));
                proof {
                    assert(plist.push(self.category_index@[i as int].1@.last()).map_values(
                        |t: String| t@,
                    ) =~= plist.map_values(|t: String| t@).push(metadata.type_id@));
                    assert(self.category_index@ =~= cpre.update(
                        i as int,
                        self.category_index@[i as int],
                    ));
                    lemma_category_update(cpre, i as int, self.category_index@[i as int]);
                }
            },
            None => {
                let mut list: Vec<String> = Vec::new();
                list.push(metadata.type_id.clone());
                self.category_index.push((metadata.category.clone(), list));
                proof {
                    assert(self.category_index@.drop_last() =~= cpre);
                    assert(self.category_index@.last().1@.map_values(|t: String| t@) =~= seq![
                        metadata.type_id@,
                    ]);
                }
            },
        }

        let ghost rpre = self.registry@;
        let key = metadata.type_id.clone();
        self.registry.push((key, metadata));
        proof {
            assert(self.registry@.drop_last() =~= rpre);
        }
        true
    }

    /// Unregister a node type: succeeds exactly when it was registered;
    /// then its entry is removed and its memory requirement subtracted
    /// (saturating at zero). Its category's list keeps its other types.
    pub fn unregister(&mut self, type_id: &str) -> (r: bool)
        requires
            old(self).wf(),
        ensures
            final(self).wf(),
            r == old(self).entries().dom().contains(type_id@),
            !r ==> *final(self) == *old(self),
            r ==> final(self).entries() == old(self).entries().remove(type_id@),
            r ==> final(self).spec_total_memory() == if old(self).spec_total_memory() >= old(
                self,
            ).entries()[type_id@].memory_requirement {
                (old(self).spec_total_memory() - old(
                    self,
                ).entries()[type_id@].memory_requirement) as u32
            } else {
                0u32
            },
    {
        let id = type_id.to_owned();
        let found = self.registry_find(&id);
        proof {
            lemma_registry_dom(self.registry@, type_id@);
        }
        let i = match found {
            Some(i) => i,
            None => {
                return false;
            },
        };
        proof {
            lemma_registry_index(self.registry@, i as int);
        }
        let ghost rpre = self.registry@;
        let (_key, metadata) = self.registry.remove(i);
        proof {
            lemma_registry_remove(rpre, i as int);
        }

        self.total_memory = if self.total_memory >= metadata.memory_requirement {
            self.total_memory - metadata.memory_requirement
        } else {
            0
        };

        let ghost cpre = self.category_index@;
        let cat_found = self.category_find(&metadata.category);
        proof {
            lemma_category_dom(cpre, metadata.category@);
        }
        match cat_found {
            Some(ci) => {
                proof {
                    lemma_category_index(cpre, ci as int);
                }
                let (ckey, list) = self.category_index.remove(ci);
                let mut kept: Vec<String> = Vec::new();
                let mut j: usize = 0;
                while j < list.len()
                    invariant
                        j <= list@.len(),
                    decreases list@.len() - j,
                {
                    if !(list[j] == id) {
                        kept.push(list[j].clone());
                    }
                    j += 1;
                }
                self.category_index.insert(ci, (ckey, kept));
                proof {
                    assert(self.category_index@ =~= cpre.update(
                        ci as int,
                        self.category_index@[ci as int],
                    ));
                    lemma_category_update(cpre, ci as int, self.category_index@[ci as int]);
                }
            },
            None => {},
        }
        true
    }

    /// Get the metadata stored for a type id.
    pub fn get(&self, type_id: &str) -> (r: Option<&NodeTypeMetadata>)
        requires
            self.wf(),
        ensures
            self.entries().dom().contains(type_id@) ==> match r {
                Some(m) => *m == self.entries()[type_id@],
                None => false,
            },
            !self.entries().dom().contains(type_id@) ==> r is None,
    {
        let id = type_id.to_owned();
        let found = self.registry_find(&id);
        proof {
            lemma_registry_dom(self.registry@, type_id@);
        }
        match found {
            Some(i) => {
                proof {
                    lemma_registry_index(self.registry@, i as int);
                }
                Some(&self.registry[i].1)
            },
            None => None,
        }
    }

    /// Check if a node type is registered.
    pub fn has(&self, type_id: &str) -> (r: bool)
        requires
            self.wf(),
        ensures
            r == self.entries().dom().contains(type_id@),
    {
        let id = type_id.to_owned();
        let found = self.registry_find(&id);
        proof {
            lemma_registry_dom(self.registry@, type_id@);
        }
        found.is_some()
    }

    /// All registered type ids, in registration order.
    pub fn list_all(&self) -> (r: Vec<String>)
        requires
            self.wf(),
        ensures
            r@.len() == self.registry_order().len(),
            forall|i: int| 0 <= i < r@.len() ==> (#[trigger] r@[i])@ == self.registry_order()[i],
    {
        let mut out: Vec<String> = Vec::new();
        let mut i: usize = 0;
        while i < self.registry.len()
            invariant
                i <= self.registry@.len(),
                out@.len() == i,
                forall|j: int|
                    0 <= j < i ==> (#[trigger] out@[j])@ == self.registry@[j].0@,
            decreases self.registry@.len() - i,
        {
            out.push(self.registry[i].0.clone());
            i += 1;
        }
        out
    }

    /// The registered type ids, in registration order.
    pub closed spec fn registry_order(self) -> Seq<Seq<char>> {
        self.registry@.map_values(|e: (String, NodeTypeMetadata)| e.0@)
    }

    /// All type ids of a category, in registration order; empty for an
    /// unknown category.
    pub fn list_by_category(&self, category: &str) -> (r: Vec<String>)
        requires
            self.wf(),
        ensures
            self.categories().dom().contains(category@) ==> ({
                let stored = self.categories()[category@];
                r@.len() == stored.len() && forall|i: int|
                    0 <= i < r@.len() ==> (#[trigger] r@[i])@ == stored[i]
            }),
            !self.categories().dom().contains(category@) ==> r@.len() == 0,
    {
        let id = category.to_owned();
        let found = self.category_find(&id);
        proof {
            lemma_category_dom(self.category_index@, category@);
        }
        match found {
            Some(i) => {
                proof {
                    lemma_category_index(self.category_index@, i as int);
                }
                let list = &self.category_index[i].1;
                let mut out: Vec<String> = Vec::new();
                let mut j: usize = 0;
                while j < list.len()
                    invariant
                        j <= list@.len(),
                        out@.len() == j,
                        forall|k: int| 0 <= k < j ==> (#[trigger] out@[k])@ == list@[k]@,
                    decreases list@.len() - j,
                {
                    out.push(list[j].clone());
                    j += 1;
                }
                proof {
                    assert(forall|k: int|
                        0 <= k < list@.len() ==> list@.map_values(|t: String| t@)[k] == (
                        #[trigger] list@[k])@);
                }
                out
            },
            None => Vec::new(),
        }
    }

    /// All category names, in order of first use.
    pub fn list_categories(&self) -> (r: Vec<String>)
        requires
            self.wf(),
        ensures
            r@.len() == self.category_order().len(),
            forall|i: int| 0 <= i < r@.len() ==> (#[trigger] r@[i])@ == self.category_order()[i],
    {
        let mut out: Vec<String> = Vec::new();
        let mut i: usize = 0;
        while i < self.category_index.len()
            invariant
                i <= self.category_index@.len(),
                out@.len() == i,
                forall|j: int|
                    0 <= j < i ==> (#[trigger] out@[j])@ == self.category_index@[j].0@,
            decreases self.category_index@.len() - i,
        {
            out.push(self.category_index[i].0.clone());
            i += 1;
        }
        out
    }

    /// The category names, in order of first use.
    pub closed spec fn category_order(self) -> Seq<Seq<char>> {
        self.category_index@.map_values(|e: (String, Vec<String>)| e.0@)
    }

    /// Get the total memory requirement for all registered nodes.
    pub fn get_total_memory(&self) -> (r: u32)
        ensures
            r == self.spec_total_memory(),
    {
        self.total_memory
    }

    /// Registry statistics: node count, category count, memory total and
    /// how many registered types are parallel-safe.
    pub fn get_stats(&self) -> (r: RegistryStats)
        requires
            self.wf(),
        ensures
            r.total_nodes == self.registry_order().len(),
            r.total_categories == self.category_order().len(),
            r.total_memory == self.spec_total_memory(),
            r.parallel_safe_count <= r.total_nodes,
    {
        let mut parallel_safe: usize = 0;
        let mut i: usize = 0;
        while i < self.registry.len()
            invariant
                i <= self.registry@.len(),
                parallel_safe <= i,
            decreases self.registry@.len() - i,
        {
            if self.registry[i].1.is_parallel_safe {
                parallel_safe += 1;
            }
            i += 1;
        }
        RegistryStats {
            total_nodes: self.registry.len(),
            total_categories: self.category_index.len(),
            total_memory: self.total_memory,
            parallel_safe_count: parallel_safe,
        }
    }

    /// Clear all registered node types.
    pub fn clear(&mut self)
        ensures
            final(self).wf(),
            final(self).entries() =~= Map::<Seq<char>, NodeTypeMetadata>::empty(),
            final(self).categories() =~= Map::<Seq<char>, Seq<Seq<char>>>::empty(),
            final(self).spec_total_memory() == 0,
    {
        self.registry.clear();
        self.category_index.clear();
        self.total_memory = 0;
    }
}

} // verus!

//! The graph that a text is compiled into: sections, the mappings that lead
//! from one section to another, and the tree that holds them.

use vstd::prelude::*;

verus! {

/// The texts of a list of strings.
pub open spec fn texts(v: Seq<String>) -> Seq<Seq<char>> {
    Seq::new(v.len(), |i: int| v[i]@)
}

/// A mapping: an edge of the graph, which leaves the section it is stored in.
#[derive(Debug, PartialEq, Eq)]
pub struct Mapping {
    /// The inputs that select this mapping, in the order they were written.
    pub triggers: Vec<String>,
    /// The text shown beside the option.
    pub description: String,
    /// The name of the section that the mapping leads to.
    pub to: String,
}

/// What a [`Mapping`] holds.
pub struct MappingView {
    pub triggers: Seq<Seq<char>>,
    pub description: Seq<char>,
    pub to: Seq<char>,
}

impl View for Mapping {
    type V = MappingView;

    open spec fn view(&self) -> MappingView {
        MappingView {
            triggers: texts(self.triggers@),
            description: self.description@,
            to: self.to@,
        }
    }
}

impl MappingView {
    /// Whether `trigger` is, scalar value for scalar value, one of the
    /// triggers of this mapping.
    pub open spec fn has_trigger(self, trigger: Seq<char>) -> bool {
        self.triggers.contains(trigger)
    }
}

impl Mapping {
    /// Checks whether `trigger` is one of the triggers of this mapping.
    pub fn has_trigger(&self, trigger: &str) -> (r: bool)
        ensures
            r == self@.has_trigger(trigger@),
    {
        let mut i: usize = 0;
        while i < self.triggers.len()
            invariant
                i <= self.triggers.len(),
                forall|j: int| 0 <= j < i ==> (#[trigger] self@.triggers[j]) != trigger@,
            decreases self.triggers.len() - i,
        {
            if self.triggers[i].as_str().eq(trigger) {
                assert(self@.triggers[i as int] == trigger@);
                return true;
            }
            i += 1;
        }
        false
    }
}

/// The views of a list of mappings.
pub open spec fn mapping_views(v: Seq<Mapping>) -> Seq<MappingView> {
    Seq::new(v.len(), |i: int| v[i]@)
}

/// A section: a node of the graph.
#[derive(Debug, PartialEq, Eq)]
pub struct Section {
    /// The name of the section, by which mappings refer to it.
    pub name: String,
    /// The text shown on arrival.
    pub description: String,
    /// The mappings that leave this section, in the order they were declared.
    pub mappings: Vec<Mapping>,
}

/// What a [`Section`] holds.
pub struct SectionView {
    pub name: Seq<char>,
    pub description: Seq<char>,
    pub mappings: Seq<MappingView>,
}

impl View for Section {
    type V = SectionView;

    open spec fn view(&self) -> SectionView {
        SectionView {
            name: self.name@,
            description: self.description@,
            mappings: mapping_views(self.mappings@),
        }
    }
}

/// Whether the mapping at `k` is the first of `mappings` that `trigger`
/// selects.
pub open spec fn is_first_match(mappings: Seq<MappingView>, trigger: Seq<char>, k: int) -> bool {
    &&& 0 <= k < mappings.len()
    &&& mappings[k].has_trigger(trigger)
    &&& forall|j: int| 0 <= j < k ==> !(#[trigger] mappings[j]).has_trigger(trigger)
}

/// The index of the first of `mappings` that `trigger` selects, if any does.
pub open spec fn first_match(mappings: Seq<MappingView>, trigger: Seq<char>) -> Option<int> {
    if exists|k: int| is_first_match(mappings, trigger, k) {
        Some(choose|k: int| is_first_match(mappings, trigger, k))
    } else {
        None
    }
}

/// There is one first match at most.
pub proof fn lemma_first_match_is(mappings: Seq<MappingView>, trigger: Seq<char>, k: int)
    requires
        is_first_match(mappings, trigger, k),
    ensures
        first_match(mappings, trigger) == Some(k),
{
    let c = choose|c: int| is_first_match(mappings, trigger, c);
    if c < k {
        assert(!mappings[c].has_trigger(trigger));
    } else if k < c {
        assert(!mappings[k].has_trigger(trigger));
    }
}

/// Where no mapping has the trigger, there is no first match.
pub proof fn lemma_first_match_none(mappings: Seq<MappingView>, trigger: Seq<char>)
    requires
        forall|j: int| 0 <= j < mappings.len() ==> !(#[trigger] mappings[j]).has_trigger(trigger),
    ensures
        first_match(mappings, trigger) is None,
{
}

impl SectionView {
    /// The name of the section that `trigger` leads to from here: the
    /// destination of the first mapping that has it.
    pub open spec fn destination(self, trigger: Seq<char>) -> Option<Seq<char>> {
        match first_match(self.mappings, trigger) {
            Some(k) => Some(self.mappings[k].to),
            None => None,
        }
    }
}

impl Section {
    /// Gets the name of the section that `trigger` leads to: the destination
    /// of the first mapping that has it among its triggers.
    pub fn mapping<'a>(&'a self, trigger: &str) -> (r: Option<&'a str>)
        ensures
            match r {
                Some(to) => self@.destination(trigger@) == Some(to@),
                None => self@.destination(trigger@) is None,
            },
    {
        let mut i: usize = 0;
        while i < self.mappings.len()
            invariant
                i <= self.mappings.len(),
                forall|j: int| 0 <= j < i ==> !(#[trigger] self@.mappings[j]).has_trigger(trigger@),
            decreases self.mappings.len() - i,
        {
            if self.mappings[i].has_trigger(trigger) {
                proof {
                    assert(self@.mappings[i as int] == self.mappings[i as int]@);
                    lemma_first_match_is(self@.mappings, trigger@, i as int);
                }
                return Some(self.mappings[i].to.as_str());
            }
            assert(self@.mappings[i as int] == self.mappings[i as int]@);
            i += 1;
        }
        proof {
            lemma_first_match_none(self@.mappings, trigger@);
        }
        None
    }
}

/// The views of a list of sections.
pub open spec fn section_views(v: Seq<Section>) -> Seq<SectionView> {
    Seq::new(v.len(), |i: int| v[i]@)
}

/// Whether one of `sections` is named `name`.
pub open spec fn has_section(sections: Seq<SectionView>, name: Seq<char>) -> bool {
    exists|i: int| 0 <= i < sections.len() && (#[trigger] sections[i]).name == name
}

/// Whether the section at `i` is the first of `sections` named `name`.
pub open spec fn is_first_named(sections: Seq<SectionView>, name: Seq<char>, i: int) -> bool {
    &&& 0 <= i < sections.len()
    &&& sections[i].name == name
    &&& forall|j: int| 0 <= j < i ==> (#[trigger] sections[j]).name != name
}

/// The index of the first of `sections` named `name`, if one is.
pub open spec fn section_index(sections: Seq<SectionView>, name: Seq<char>) -> Option<int> {
    if exists|i: int| is_first_named(sections, name, i) {
        Some(choose|i: int| is_first_named(sections, name, i))
    } else {
        None
    }
}

/// No two of `sections` share a name.
pub open spec fn names_unique(sections: Seq<SectionView>) -> bool {
    forall|i: int, j: int|
        0 <= i < j < sections.len() ==> (#[trigger] sections[i]).name != (
        #[trigger] sections[j]).name
}

/// Every mapping of `sections` leads to one of them.
pub open spec fn no_dangling(sections: Seq<SectionView>) -> bool {
    forall|i: int, k: int|
        0 <= i < sections.len() && 0 <= k < sections[i].mappings.len() ==> has_section(
            sections,
            (#[trigger] sections[i].mappings[k]).to,
        )
}

/// What holds of the sections of every tree: their names differ, and every
/// mapping leads to a section of the same tree.
pub open spec fn well_formed(sections: Seq<SectionView>) -> bool {
    names_unique(sections) && no_dangling(sections)
}

/// The first section of a given name is found by its index.
pub proof fn lemma_section_index_is(sections: Seq<SectionView>, name: Seq<char>, i: int)
    requires
        is_first_named(sections, name, i),
    ensures
        section_index(sections, name) == Some(i),
        has_section(sections, name),
{
    let c = choose|c: int| is_first_named(sections, name, c);
    if c < i {
        assert(sections[c].name != name);
    } else if i < c {
        assert(sections[i].name != name);
    }
}

/// A name that no section has is not found.
pub proof fn lemma_section_index_none(sections: Seq<SectionView>, name: Seq<char>)
    requires
        forall|j: int| 0 <= j < sections.len() ==> (#[trigger] sections[j]).name != name,
    ensures
        section_index(sections, name) is None,
        !has_section(sections, name),
{
}

/// A name is found exactly when a section has it, and then at an index
/// where it stands.
pub proof fn lemma_section_index_found(sections: Seq<SectionView>, name: Seq<char>)
    ensures
        has_section(sections, name) <==> section_index(sections, name) is Some,
        section_index(sections, name) matches Some(i) ==> is_first_named(sections, name, i),
{
    if has_section(sections, name) {
        let w = choose|i: int| 0 <= i < sections.len() && (#[trigger] sections[i]).name == name;
        lemma_first_named_exists(sections, name, w);
    }
}

proof fn lemma_first_named_exists(sections: Seq<SectionView>, name: Seq<char>, w: int)
    requires
        0 <= w < sections.len(),
        sections[w].name == name,
    ensures
        exists|i: int| is_first_named(sections, name, i),
    decreases w,
{
    if forall|j: int| 0 <= j < w ==> (#[trigger] sections[j]).name != name {
        assert(is_first_named(sections, name, w));
    } else {
        let j = choose|j: int| 0 <= j < w && (#[trigger] sections[j]).name == name;
        lemma_first_named_exists(sections, name, j);
    }
}

/// Looks for the first of `sections` named `name`.
pub fn find_section(sections: &Vec<Section>, name: &str) -> (r: Option<usize>)
    ensures
        match r {
            Some(i) => section_index(section_views(sections@), name@) == Some(i as int) && i
                < sections.len(),
            None => section_index(section_views(sections@), name@) is None,
        },
        r is Some <==> has_section(section_views(sections@), name@),
{
    let ghost views = section_views(sections@);
    let mut i: usize = 0;
    while i < sections.len()
        invariant
            i <= sections.len(),
            views == section_views(sections@),
            forall|j: int| 0 <= j < i ==> (#[trigger] views[j]).name != name@,
        decreases sections.len() - i,
    {
        assert(views[i as int] == sections[i as int]@);
        if sections[i].name.as_str().eq(name) {
            proof {
                lemma_section_index_is(views, name@, i as int);
            }
            return Some(i);
        }
        i += 1;
    }
    proof {
        lemma_section_index_none(views, name@);
    }
    None
}

/// The whole graph. Its sections are kept in the order they were declared;
/// their names differ, and every mapping leads to one of them.
#[derive(Debug)]
pub struct Tree {
    sections: Vec<Section>,
}

impl View for Tree {
    type V = Seq<SectionView>;

    closed spec fn view(&self) -> Seq<SectionView> {
        section_views(self.sections@)
    }
}

impl Tree {
    #[verifier::type_invariant]
    spec fn inv(self) -> bool {
        well_formed(self@)
    }

    /// Makes a tree of sections that are well formed together.
    pub(crate) fn from_sections(sections: Vec<Section>) -> (tree: Tree)
        requires
            well_formed(section_views(sections@)),
        ensures
            tree@ == section_views(sections@),
    {
        Tree { sections }
    }

    /// All the sections, in the order they were declared.
    pub fn sections(&self) -> (r: &Vec<Section>)
        ensures
            section_views(r@) == self@,
            well_formed(self@),
    {
        proof {
            use_type_invariant(self);
        }
        &self.sections
    }

    /// The section named `name`, if the tree has one.
    pub fn get(&self, name: &str) -> (r: Option<&Section>)
        ensures
            match r {
                Some(section) => section_index(self@, name@) matches Some(i) && self@[i]
                    == section@,
                None => section_index(self@, name@) is None,
            },
            r is Some <==> has_section(self@, name@),
    {
        match find_section(&self.sections, name) {
            Some(i) => Some(&self.sections[i]),
            None => None,
        }
    }
}

/// In every tree the names of the sections differ, and the destination of
/// every mapping is the name of a section: no edge dangles.
pub proof fn lemma_destinations_exist(sections: Seq<SectionView>, i: int, k: int)
    requires
        well_formed(sections),
        0 <= i < sections.len(),
        0 <= k < sections[i].mappings.len(),
    ensures
        section_index(sections, sections[i].mappings[k].to) is Some,
{
    lemma_section_index_found(sections, sections[i].mappings[k].to);
}

} // verus!

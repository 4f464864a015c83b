//! Walking a tree: a session stands in one section and moves along the
//! mapping that an input selects.

use crate::dtree::{
    find_section, first_match, is_first_match, lemma_destinations_exist, lemma_first_match_is,
    lemma_first_match_none, lemma_section_index_found, section_index, texts, well_formed,
    SectionView, Tree,
};
use crate::error::{DtreeError, DtreeErrorView};
use vstd::prelude::*;

verus! {

/// What an input did to a session.
#[derive(Debug, PartialEq, Eq, Clone, Copy)]
pub enum Step {
    /// A mapping had the input among its triggers, and the session went
    /// where it leads.
    Moved,
    /// No mapping of the section had the input among its triggers, and the
    /// session stayed.
    NoMatch,
}

/// Where `input` leads from the section at `at`: to the section named by
/// the first mapping that has `input` among its triggers, or nowhere.
pub open spec fn step(sections: Seq<SectionView>, at: int, input: Seq<char>) -> (Step, int) {
    match sections[at].destination(input) {
        Some(to) => match section_index(sections, to) {
            Some(next) => (Step::Moved, next),
            None => (Step::NoMatch, at),
        },
        None => (Step::NoMatch, at),
    }
}

/// A walk through a tree. Many sessions may walk one tree.
#[derive(Debug)]
pub struct Session<'a> {
    tree: &'a Tree,
    current: usize,
}

impl<'a> Session<'a> {
    #[verifier::type_invariant]
    spec fn inv(self) -> bool {
        self.current < self.tree@.len()
    }

    /// The tree that is walked.
    pub closed spec fn tree(&self) -> Tree {
        *self.tree
    }

    /// The index, among the sections of the tree, of the one that the
    /// session stands in.
    pub closed spec fn position(&self) -> int {
        self.current as int
    }

    /// The section that the session stands in.
    pub open spec fn section(&self) -> SectionView {
        self.tree()@[self.position()]
    }

    /// Starts a session in the section named `name`.
    pub fn start(tree: &'a Tree, name: &str) -> (r: Result<Session<'a>, DtreeError>)
        ensures
            match section_index(tree@, name@) {
                Some(i) => r matches Ok(session) && session.tree() == *tree && session.position()
                    == i && 0 <= i < tree@.len(),
                None => r matches Err(e) && e@ == (DtreeErrorView::NoStartingSection {
                    name: name@,
                }),
            },
    {
        match find_section(tree.sections(), name) {
            Some(current) => Ok(Session { tree, current }),
            None => Err(DtreeError::NoStartingSection { name: name.to_owned() }),
        }
    }

    /// What is to be shown of the section that the session stands in: its
    /// description, and the triggers and the description of each of its
    /// mappings, in the order they were declared.
    pub fn current(&self) -> (r: (&'a str, Vec<(&'a Vec<String>, &'a str)>))
        ensures
            0 <= self.position() < self.tree()@.len(),
            r.0@ == self.section().description,
            r.1.len() == self.section().mappings.len(),
            forall|i: int|
                0 <= i < r.1.len() ==> texts((#[trigger] r.1[i]).0@)
                    == self.section().mappings[i].triggers && r.1[i].1@
                    == self.section().mappings[i].description,
    {
        proof {
            use_type_invariant(self);
        }
        let tree: &'a Tree = self.tree;
        let section = &tree.sections()[self.current];
        let mut options: Vec<(&'a Vec<String>, &'a str)> = Vec::new();
        let mut i: usize = 0;
        while i < section.mappings.len()
            invariant
                i <= section.mappings.len(),
                options.len() == i,
                forall|j: int|
                    0 <= j < i ==> texts((#[trigger] options[j]).0@) == section@.mappings[j].triggers
                        && options[j].1@ == section@.mappings[j].description,
            decreases section.mappings.len() - i,
        {
            let mapping = &section.mappings[i];
            assert(section@.mappings[i as int] == mapping@);
            options.push((&mapping.triggers, mapping.description.as_str()));
            i += 1;
        }
        assert(section@ == self.section());
        (section.description.as_str(), options)
    }

    /// Takes one input. The mappings of the section are tried in the order
    /// they were declared, and the triggers of each in theirs; the first
    /// trigger that is the input, scalar value for scalar value, moves the
    /// session to the section that its mapping leads to. Where none is, the
    /// session stays where it stands.
    pub fn advance(&mut self, input: &str) -> (r: Step)
        ensures
            final(self).tree() == old(self).tree(),
            0 <= old(self).position() < old(self).tree()@.len(),
            0 <= final(self).position() < final(self).tree()@.len(),
            (r, final(self).position()) == step(
                old(self).tree()@,
                old(self).position(),
                input@,
            ),
            r == Step::Moved <==> old(self).section().destination(input@) is Some,
    {
        proof {
            use_type_invariant(&*self);
        }
        let tree: &'a Tree = self.tree;
        let sections = tree.sections();
        let section = &sections[self.current];
        assert(section@ == tree@[self.current as int]);
        match section.mapping(input) {
            Some(to) => {
                proof {
                    let k = first_match(section@.mappings, input@)->Some_0;
                    lemma_destinations_exist(tree@, self.current as int, k);
                }
                let found = find_section(sections, to);
                self.current = found.unwrap();
                Step::Moved
            },
            None => Step::NoMatch,
        }
    }
}

/// A section without mappings is a dead end: whatever the input, the
/// session stays.
pub proof fn lemma_dead_end_stays(sections: Seq<SectionView>, at: int, input: Seq<char>)
    requires
        0 <= at < sections.len(),
        sections[at].mappings.len() == 0,
    ensures
        step(sections, at, input) == (Step::NoMatch, at),
{
    lemma_first_match_none(sections[at].mappings, input);
}

/// Where several mappings of a section have the same trigger, the one
/// declared first is taken: the session moves to the section that the
/// mapping at `first` leads to, whatever mappings behind it have the input
/// among their triggers too.
pub proof fn lemma_first_declared_wins(
    sections: Seq<SectionView>,
    at: int,
    input: Seq<char>,
    first: int,
)
    requires
        well_formed(sections),
        0 <= at < sections.len(),
        is_first_match(sections[at].mappings, input, first),
    ensures
        step(sections, at, input).0 == Step::Moved,
        0 <= step(sections, at, input).1 < sections.len(),
        sections[step(sections, at, input).1].name == sections[at].mappings[first].to,
{
    lemma_first_match_is(sections[at].mappings, input, first);
    lemma_destinations_exist(sections, at, first);
    lemma_section_index_found(sections, sections[at].mappings[first].to);
}

/// A trigger is matched as it is written: the session moves exactly when
/// some trigger of some mapping of the section is the input, scalar value
/// for scalar value.
pub proof fn lemma_match_is_exact(sections: Seq<SectionView>, at: int, input: Seq<char>)
    requires
        well_formed(sections),
        0 <= at < sections.len(),
    ensures
        step(sections, at, input).0 == Step::Moved <==> exists|i: int, t: int|
            0 <= i < sections[at].mappings.len() && 0 <= t < sections[at].mappings[i].triggers.len()
                && #[trigger] sections[at].mappings[i].triggers[t] == input,
{
    let mappings = sections[at].mappings;
    if exists|i: int, t: int|
        0 <= i < mappings.len() && 0 <= t < mappings[i].triggers.len()
            && #[trigger] mappings[i].triggers[t] == input {
        let (i, t) = choose|i: int, t: int|
            0 <= i < mappings.len() && 0 <= t < mappings[i].triggers.len()
                && #[trigger] mappings[i].triggers[t] == input;
        assert(mappings[i].has_trigger(input));
        lemma_some_match_is_first(sections[at], input, i);
        let k = choose|k: int| is_first_match(mappings, input, k);
        lemma_first_declared_wins(sections, at, input, k);
    }
    if step(sections, at, input).0 == Step::Moved {
        let k = first_match(mappings, input)->Some_0;
        assert(is_first_match(mappings, input, k));
        assert(mappings[k].has_trigger(input));
        let t = choose|t: int| 0 <= t < mappings[k].triggers.len() && mappings[k].triggers[t] == input;
        assert(mappings[k].triggers[t] == input);
    }
}

proof fn lemma_some_match_is_first(section: SectionView, input: Seq<char>, i: int)
    requires
        0 <= i < section.mappings.len(),
        section.mappings[i].has_trigger(input),
    ensures
        exists|k: int| is_first_match(section.mappings, input, k),
    decreases i,
{
    if forall|j: int| 0 <= j < i ==> !(#[trigger] section.mappings[j]).has_trigger(input) {
        assert(is_first_match(section.mappings, input, i));
    } else {
        let j = choose|j: int| 0 <= j < i && (#[trigger] section.mappings[j]).has_trigger(input);
        lemma_some_match_is_first(section, input, j);
    }
}

} // verus!

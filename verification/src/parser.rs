//! The grammar: section and mapping declarations, and the text as a
//! sequence of them.
//!
//! ```text
//! [name] description
//! [name (trigger)|(trigger) -> destination] description
//! ```

use crate::dtree::{
    lemma_destinations_exist, section_index, texts, well_formed, SectionView, Tree,
};
use crate::error::{DtreeError, DtreeErrorView};
use crate::linker::{
    all_declared_triggered, all_triggered, declared_once, declares,
    lemma_duplicate_section_refused, lemma_link_keeps_triggers, lemma_link_well_formed,
    lemma_unknown_destination_refused, link, link_fragments, linked,
};
use crate::text::{
    after_char, after_optional, desc_text, expect, identifier, lemma_escaped_len_bound,
    lemma_run_is_longest_prefix, mapping_name, optional, parse_escaped, parse_identifier, parsed,
    scan, CharClass, Reject, Scan,
};
use vstd::prelude::*;

verus! {

/// A section declaration as it was read, not yet part of a tree.
#[derive(Debug, PartialEq, Eq)]
pub struct PartialDTree {
    pub name: String,
    pub description: String,
}

/// What a [`PartialDTree`] holds.
pub struct PartialDTreeView {
    pub name: Seq<char>,
    pub description: Seq<char>,
}

impl View for PartialDTree {
    type V = PartialDTreeView;

    open spec fn view(&self) -> PartialDTreeView {
        PartialDTreeView { name: self.name@, description: self.description@ }
    }
}

/// A mapping declaration as it was read, not yet part of a tree: neither
/// the section it was written for nor the one it leads to need exist.
#[derive(Debug, PartialEq, Eq)]
pub struct PartialDTreeOption {
    pub parent: String,
    pub description: String,
    pub triggers: Vec<String>,
    pub dest: String,
}

/// What a [`PartialDTreeOption`] holds.
pub struct PartialDTreeOptionView {
    pub parent: Seq<char>,
    pub description: Seq<char>,
    pub triggers: Seq<Seq<char>>,
    pub dest: Seq<char>,
}

impl View for PartialDTreeOption {
    type V = PartialDTreeOptionView;

    open spec fn view(&self) -> PartialDTreeOptionView {
        PartialDTreeOptionView {
            parent: self.parent@,
            description: self.description@,
            triggers: texts(self.triggers@),
            dest: self.dest@,
        }
    }
}

/// The offset of the name in a declaration at `at`: behind whitespace that
/// may lead, the opening bracket, and blanks that may follow it.
pub open spec fn after_opening(s: Seq<char>, at: nat) -> Scan {
    after_optional(
        s,
        after_char(s, after_optional(s, Ok(at), CharClass::Whitespace), '['),
        CharClass::Blank,
    )
}

/// The offset of the description in a declaration whose inside ends at
/// `at`: behind blanks that may lead, the closing bracket, and blanks that
/// may follow it.
pub open spec fn after_closing(s: Seq<char>, at: nat) -> Scan {
    after_optional(
        s,
        after_char(s, after_optional(s, Ok(at), CharClass::Blank), ']'),
        CharClass::Blank,
    )
}

/// A section declaration at `at`: `[`, a name, `]` and a description.
/// Whitespace may stand before it, and blanks around the brackets and the
/// name.
pub open spec fn parse_section(s: Seq<char>, at: nat) -> Result<(nat, PartialDTreeView), Reject> {
    match after_opening(s, at) {
        Err(e) => Err(e),
        Ok(a) => match parse_identifier(s, a) {
            Err(e) => Err(e),
            Ok((b, name)) => match after_closing(s, b) {
                Err(e) => Err(e),
                Ok(c) => match parse_escaped(s, c, '\n') {
                    Err(e) => Err(e),
                    Ok((end, description)) => Ok((end, PartialDTreeView { name, description })),
                },
            },
        },
    }
}

/// A trigger group at `at`: a label between parentheses. Blanks may stand
/// before and behind it.
pub open spec fn parse_group(s: Seq<char>, at: nat) -> Result<(nat, Seq<char>), Reject> {
    match after_char(s, after_optional(s, Ok(at), CharClass::Blank), '(') {
        Err(e) => Err(e),
        Ok(a) => match parse_escaped(s, a, ')') {
            Err(e) => Err(e),
            Ok((b, label)) => match after_optional(s, after_char(s, Ok(b), ')'), CharClass::Blank) {
                Err(e) => Err(e),
                Ok(end) => Ok((end, label)),
            },
        },
    }
}

/// One trigger group or more at `at`, with `|` between them. Behind a `|`
/// a group has to follow.
pub open spec fn parse_triggers(s: Seq<char>, at: nat) -> Result<(nat, Seq<Seq<char>>), Reject>
    decreases s.len() - at,
{
    match parse_group(s, at) {
        Err(e) => Err(e),
        Ok((end, label)) => if end < s.len() && s[end as int] == '|' {
            match parse_triggers(s, end + 1) {
                Err(e) => Err(e),
                Ok((last, more)) => Ok((last, seq![label] + more)),
            }
        } else {
            Ok((end, seq![label]))
        },
    }
}

/// The destination of a mapping at `at`: `->` and a name. Blanks may
/// stand between them.
pub open spec fn parse_destination(s: Seq<char>, at: nat) -> Result<(nat, Seq<char>), Reject> {
    match after_optional(s, after_char(s, after_char(s, Ok(at), '-'), '>'), CharClass::Blank) {
        Err(e) => Err(e),
        Ok(a) => parse_identifier(s, a),
    }
}

/// A mapping declaration at `at`: `[`, the name of the section it is
/// written for, its trigger groups, `->`, the name of the section it leads
/// to, `]` and a description.
pub open spec fn parse_mapping(s: Seq<char>, at: nat) -> Result<
    (nat, PartialDTreeOptionView),
    Reject,
> {
    match after_opening(s, at) {
        Err(e) => Err(e),
        Ok(a) => match parse_identifier(s, a) {
            Err(e) => Err(e),
            Ok((b, parent)) => match after_optional(s, Ok(b), CharClass::Blank) {
                Err(e) => Err(e),
                Ok(c) => match parse_triggers(s, c) {
                    Err(e) => Err(e),
                    Ok((d, triggers)) => match parse_destination(s, d) {
                        Err(e) => Err(e),
                        Ok((f, dest)) => match after_closing(s, f) {
                            Err(e) => Err(e),
                            Ok(g) => match parse_escaped(s, g, '\n') {
                                Err(e) => Err(e),
                                Ok((end, description)) => Ok(
                                    (
                                        end,
                                        PartialDTreeOptionView {
                                            parent,
                                            description,
                                            triggers,
                                            dest,
                                        },
                                    ),
                                ),
                            },
                        },
                    },
                },
            },
        },
    }
}

/// Steps to the name of the declaration at `at`.
fn opening(input: &[char], at: usize) -> (r: Result<usize, Reject>)
    requires
        at <= input.len(),
    ensures
        scan(r) == after_opening(input@, at as nat),
        r matches Ok(p) ==> at < p < input.len(),
{
    let a = optional(input, at, CharClass::Whitespace)?;
    let b = expect(input, a, '[')?;
    optional(input, b, CharClass::Blank)
}

/// Steps to the description of the declaration whose inside ends at `at`.
fn closing(input: &[char], at: usize) -> (r: Result<usize, Reject>)
    requires
        at <= input.len(),
    ensures
        scan(r) == after_closing(input@, at as nat),
        r matches Ok(p) ==> at < p < input.len(),
{
    let a = optional(input, at, CharClass::Blank)?;
    let b = expect(input, a, ']')?;
    optional(input, b, CharClass::Blank)
}

/// Reads the section declaration at `at` and answers with the offset
/// behind its description.
pub fn section_desc(input: &[char], at: usize) -> (r: Result<(usize, PartialDTree), Reject>)
    requires
        at <= input.len(),
    ensures
        parsed(r) == parse_section(input@, at as nat),
        r matches Ok((end, _)) ==> at < end <= input.len(),
{
    let a = opening(input, at)?;
    let (b, name) = identifier(input, a)?;
    let c = closing(input, b)?;
    let (end, description) = desc_text(input, c)?;
    Ok((end, PartialDTree { name, description }))
}

/// Reads the trigger group at `at` and answers with its label.
fn trigger_group(input: &[char], at: usize) -> (r: Result<(usize, String), Reject>)
    requires
        at <= input.len(),
    ensures
        parsed(r) == parse_group(input@, at as nat),
        r matches Ok((end, _)) ==> at < end < input.len(),
{
    let a = optional(input, at, CharClass::Blank)?;
    let b = expect(input, a, '(')?;
    let (c, label) = mapping_name(input, b)?;
    let d = expect(input, c, ')')?;
    let end = optional(input, d, CharClass::Blank)?;
    Ok((end, label))
}

/// The outcome of reading a list of texts, as the specification sees it.
pub open spec fn parsed_texts(r: Result<(usize, Vec<String>), Reject>) -> Result<
    (nat, Seq<Seq<char>>),
    Reject,
> {
    match r {
        Ok((end, list)) => Ok((end as nat, texts(list@))),
        Err(e) => Err(e),
    }
}

/// `r` with `front` put before the texts it holds.
pub open spec fn behind(front: Seq<Seq<char>>, r: Result<(nat, Seq<Seq<char>>), Reject>) -> Result<
    (nat, Seq<Seq<char>>),
    Reject,
> {
    match r {
        Ok((end, more)) => Ok((end, front + more)),
        Err(e) => Err(e),
    }
}

/// Reads the trigger groups at `at` and answers with their labels in the
/// order they stand in.
pub fn trigger_from(input: &[char], at: usize) -> (r: Result<(usize, Vec<String>), Reject>)
    requires
        at <= input.len(),
    ensures
        parsed_texts(r) == parse_triggers(input@, at as nat),
        r matches Ok((end, list)) ==> at < end < input.len() && list.len() > 0,
{
    let ghost s = input@;
    let mut labels: Vec<String> = Vec::new();
    let mut cur: usize = at;
    loop
        invariant
            s == input@,
            at <= cur <= input.len(),
            parse_triggers(s, at as nat) == behind(texts(labels@), parse_triggers(s, cur as nat)),
        decreases input.len() - cur,
    {
        let (end, label) = match trigger_group(input, cur) {
            Ok(found) => found,
            Err(e) => {
                return Err(e);
            },
        };
        let ghost before = texts(labels@);
        labels.push(label);
        assert(texts(labels@) == before.push(label@));
        if input[end] == '|' {
            proof {
                match parse_triggers(s, (end + 1) as nat) {
                    Ok((last, more)) => {
                        assert(before + (seq![label@] + more) == before.push(label@) + more);
                    },
                    Err(e) => {},
                }
            }
            cur = end + 1;
        } else {
            assert(before + seq![label@] == before.push(label@));
            return Ok((end, labels));
        }
    }
}

/// Reads the destination of a mapping at `at`: the arrow and the name
/// behind it.
pub fn trigger_to(input: &[char], at: usize) -> (r: Result<(usize, String), Reject>)
    requires
        at <= input.len(),
    ensures
        parsed(r) == parse_destination(input@, at as nat),
        r matches Ok((end, _)) ==> at < end <= input.len(),
{
    let a = expect(input, at, '-')?;
    let b = expect(input, a, '>')?;
    let c = optional(input, b, CharClass::Blank)?;
    identifier(input, c)
}

/// Reads the mapping declaration at `at` and answers with the offset
/// behind its description.
pub fn mapping(input: &[char], at: usize) -> (r: Result<(usize, PartialDTreeOption), Reject>)
    requires
        at <= input.len(),
    ensures
        parsed(r) == parse_mapping(input@, at as nat),
        r matches Ok((end, _)) ==> at < end <= input.len(),
{
    let a = opening(input, at)?;
    let (b, parent) = identifier(input, a)?;
    let c = optional(input, b, CharClass::Blank)?;
    let (d, triggers) = trigger_from(input, c)?;
    let (f, dest) = trigger_to(input, d)?;
    let g = closing(input, f)?;
    let (end, description) = desc_text(input, g)?;
    Ok((end, PartialDTreeOption { parent, description, triggers, dest }))
}

/// A declaration as it was read: the text is a sequence of these.
#[derive(Debug, PartialEq, Eq)]
pub enum Fragment {
    Section(PartialDTree),
    Mapping(PartialDTreeOption),
}

/// What a [`Fragment`] holds.
pub enum FragmentView {
    Section(PartialDTreeView),
    Mapping(PartialDTreeOptionView),
}

impl View for Fragment {
    type V = FragmentView;

    open spec fn view(&self) -> FragmentView {
        match *self {
            Fragment::Section(section) => FragmentView::Section(section@),
            Fragment::Mapping(mapping) => FragmentView::Mapping(mapping@),
        }
    }
}

/// The views of a list of fragments.
pub open spec fn fragment_views(v: Seq<Fragment>) -> Seq<FragmentView> {
    Seq::new(v.len(), |i: int| v[i]@)
}

/// The declaration at `at`. A mapping is tried first, since it begins as a
/// section does; a section is tried only where the text is no mapping, and
/// not where the text ended before that was settled.
pub open spec fn parse_next(s: Seq<char>, at: nat) -> Result<(nat, FragmentView), Reject> {
    match parse_mapping(s, at) {
        Ok((end, mapping)) => Ok((end, FragmentView::Mapping(mapping))),
        Err(Reject::EndOfInput) => Err(Reject::EndOfInput),
        Err(Reject::Mismatch) => match parse_section(s, at) {
            Ok((end, section)) => Ok((end, FragmentView::Section(section))),
            Err(e) => Err(e),
        },
    }
}

/// Trigger groups that were read end behind where they began, and inside
/// the text.
pub proof fn lemma_triggers_advance(s: Seq<char>, at: nat)
    ensures
        parse_triggers(s, at) matches Ok((end, labels)) ==> at < end < s.len() && labels.len() > 0,
    decreases s.len() - at,
{
    if let Ok((end, label)) = parse_group(s, at) {
        let a = after_char(s, after_optional(s, Ok(at), CharClass::Blank), '(')->Ok_0;
        lemma_escaped_len_bound(s.skip(a as int), ')');
        if end < s.len() && s[end as int] == '|' {
            lemma_triggers_advance(s, end + 1);
        }
    }
}

/// A declaration that was read ends behind where it began, and inside the
/// text.
pub proof fn lemma_next_advances(s: Seq<char>, at: nat)
    ensures
        parse_next(s, at) matches Ok((end, _)) ==> at < end <= s.len(),
{
    if let Ok(a) = after_opening(s, at) {
        lemma_run_is_longest_prefix(s.skip(a as int), CharClass::Word);
        if let Ok((b, _)) = parse_identifier(s, a) {
            if let Ok(c) = after_closing(s, b) {
                lemma_escaped_len_bound(s.skip(c as int), '\n');
            }
            if let Ok(c) = after_optional(s, Ok(b), CharClass::Blank) {
                lemma_triggers_advance(s, c);
                if let Ok((d, _)) = parse_triggers(s, c) {
                    if let Ok(f) = after_optional(
                        s,
                        after_char(s, after_char(s, Ok(d), '-'), '>'),
                        CharClass::Blank,
                    ) {
                        lemma_run_is_longest_prefix(s.skip(f as int), CharClass::Word);
                        if let Ok((g, _)) = parse_identifier(s, f) {
                            if let Ok(h) = after_closing(s, g) {
                                lemma_escaped_len_bound(s.skip(h as int), '\n');
                            }
                        }
                    }
                }
            }
        }
    }
}

/// The declarations of the text from `at` on, in the order they stand in.
/// Reading ends without complaint where the text ends, be it in the middle
/// of a declaration, which is then left out; it fails at the offset where
/// the text goes on and is neither a mapping nor a section.
pub open spec fn parse_fragments(s: Seq<char>, at: nat) -> Result<Seq<FragmentView>, DtreeErrorView>
    decreases s.len() - at,
{
    match parse_next(s, at) {
        Ok((end, fragment)) => {
            proof {
                lemma_next_advances(s, at);
            }
            match parse_fragments(s, end) {
                Ok(more) => Ok(seq![fragment] + more),
                Err(e) => Err(e),
            }
        },
        Err(Reject::EndOfInput) => Ok(Seq::empty()),
        Err(Reject::Mismatch) => Err(DtreeErrorView::Syntax { position: at }),
    }
}

/// The outcome of reading a text, as the specification sees it.
pub open spec fn fragments_read(r: Result<Vec<Fragment>, DtreeError>) -> Result<
    Seq<FragmentView>,
    DtreeErrorView,
> {
    match r {
        Ok(fragments) => Ok(fragment_views(fragments@)),
        Err(e) => Err(e@),
    }
}

/// `r` with `front` put before the fragments it holds.
pub open spec fn after_fragments(
    front: Seq<FragmentView>,
    r: Result<Seq<FragmentView>, DtreeErrorView>,
) -> Result<Seq<FragmentView>, DtreeErrorView> {
    match r {
        Ok(more) => Ok(front + more),
        Err(e) => Err(e),
    }
}

/// Reads the declarations of a text.
pub fn read_fragments(input: &[char]) -> (r: Result<Vec<Fragment>, DtreeError>)
    ensures
        fragments_read(r) == parse_fragments(input@, 0),
{
    let ghost s = input@;
    let mut fragments: Vec<Fragment> = Vec::new();
    let mut cur: usize = 0;
    loop
        invariant
            s == input@,
            cur <= input.len(),
            parse_fragments(s, 0) == after_fragments(
                fragment_views(fragments@),
                parse_fragments(s, cur as nat),
            ),
        decreases input.len() - cur,
    {
        let ghost before = fragment_views(fragments@);
        let (end, fragment) = match mapping(input, cur) {
            Ok((end, found)) => (end, Fragment::Mapping(found)),
            Err(Reject::EndOfInput) => {
                assert(before + Seq::<FragmentView>::empty() == before);
                return Ok(fragments);
            },
            Err(Reject::Mismatch) => match section_desc(input, cur) {
                Ok((end, found)) => (end, Fragment::Section(found)),
                Err(Reject::EndOfInput) => {
                    assert(before + Seq::<FragmentView>::empty() == before);
                    return Ok(fragments);
                },
                Err(Reject::Mismatch) => {
                    return Err(DtreeError::Syntax { position: cur });
                },
            },
        };
        proof {
            assert(parse_next(s, cur as nat) == Ok::<(nat, FragmentView), Reject>(
                (end as nat, fragment@),
            ));
            if let Ok(more) = parse_fragments(s, end as nat) {
                assert(before + (seq![fragment@] + more) == before.push(fragment@) + more);
            }
        }
        fragments.push(fragment);
        assert(fragment_views(fragments@) == before.push(fragment@));
        cur = end;
    }
}

/// The sections of the tree that a text stands for, or why it stands for
/// none: its declarations are read, and then linked.
pub open spec fn compile(text: Seq<char>) -> Result<Seq<SectionView>, DtreeErrorView> {
    match parse_fragments(text, 0) {
        Err(e) => Err(e),
        Ok(fragments) => link_fragments(fragments),
    }
}

/// Every mapping declaration that is read has a trigger.
pub proof fn lemma_read_mappings_have_triggers(s: Seq<char>, at: nat)
    ensures
        parse_fragments(s, at) matches Ok(fragments) ==> all_declared_triggered(fragments),
    decreases s.len() - at,
{
    if let Ok((end, fragment)) = parse_next(s, at) {
        lemma_next_advances(s, at);
        lemma_read_mappings_have_triggers(s, end);
        if let Ok(more) = parse_fragments(s, end) {
            let fragments = seq![fragment] + more;
            if let FragmentView::Mapping(m) = fragment {
                let a = after_opening(s, at)->Ok_0;
                let b = parse_identifier(s, a)->Ok_0.0;
                let c = after_optional(s, Ok(b), CharClass::Blank)->Ok_0;
                lemma_triggers_advance(s, c);
            }
            assert forall|k: int| 0 <= k < fragments.len() implies (
            #[trigger] fragments[k] matches FragmentView::Mapping(m) ==> m.triggers.len() > 0) by {
                if k > 0 {
                    assert(fragments[k] == more[k - 1]);
                }
            }
        }
    }
}

/// In the tree of any text the names of the sections differ, every
/// mapping leads to a section of the tree, and every mapping has a trigger.
pub proof fn lemma_compile_well_formed(text: Seq<char>)
    ensures
        compile(text) matches Ok(sections) ==> well_formed(sections) && all_triggered(sections),
{
    if let Ok(fragments) = parse_fragments(text, 0) {
        lemma_link_well_formed(fragments);
        lemma_read_mappings_have_triggers(text, 0);
        lemma_link_keeps_triggers(fragments);
    }
}

/// No edge of a compiled tree dangles: looking up the destination of any
/// mapping of any section finds a section.
pub proof fn lemma_compiled_destinations_found(text: Seq<char>, i: int, k: int)
    requires
        compile(text) is Ok,
        0 <= i < compile(text)->Ok_0.len(),
        0 <= k < compile(text)->Ok_0[i].mappings.len(),
    ensures
        section_index(compile(text)->Ok_0, compile(text)->Ok_0[i].mappings[k].to) is Some,
{
    lemma_compile_well_formed(text);
    lemma_destinations_exist(compile(text)->Ok_0, i, k);
}

/// A text that declares a section name twice is refused for it, wherever
/// in the text the two declarations stand.
pub proof fn lemma_text_with_duplicate_refused(text: Seq<char>, i: int, j: int)
    requires
        parse_fragments(text, 0) is Ok,
        ({
            let fragments = parse_fragments(text, 0)->Ok_0;
            &&& 0 <= i < j < fragments.len()
            &&& fragments[i] is Section
            &&& fragments[j] is Section
            &&& fragments[i]->Section_0.name == fragments[j]->Section_0.name
        }),
    ensures
        compile(text) matches Err(e) && e is DuplicateSection,
{
    lemma_duplicate_section_refused(parse_fragments(text, 0)->Ok_0, i, j);
}

/// A text with a mapping that leads to a section which the text nowhere
/// declares is refused, and the failure names that destination. This is
/// said of a text that declares no section twice, and in which the
/// mappings before this one have the sections they lead to and were
/// written for: a failure there comes first.
pub proof fn lemma_text_with_unknown_destination_refused(text: Seq<char>, j: int)
    requires
        parse_fragments(text, 0) is Ok,
        ({
            let fragments = parse_fragments(text, 0)->Ok_0;
            &&& 0 <= j < fragments.len()
            &&& fragments[j] is Mapping
            &&& !declares(fragments, fragments[j]->Mapping_0.dest)
            &&& declared_once(fragments)
            &&& forall|k: int|
                0 <= k < j ==> (#[trigger] fragments[k] matches FragmentView::Mapping(m)
                    ==> declares(fragments, m.dest) && declares(fragments, m.parent))
        }),
    ensures
        compile(text) matches Err(DtreeErrorView::UnknownDestination { destination, .. })
            && destination == parse_fragments(text, 0)->Ok_0[j]->Mapping_0.dest,
{
    lemma_unknown_destination_refused(parse_fragments(text, 0)->Ok_0, j);
}

/// Compiles a text that is held as scalar values.
pub fn dtree_parse_impl(input: &[char]) -> (r: Result<Tree, DtreeError>)
    ensures
        linked(r) == compile(input@),
        r matches Ok(tree) ==> well_formed(tree@) && all_triggered(tree@),
{
    let fragments = read_fragments(input)?;
    let tree = link(&fragments)?;
    proof {
        lemma_compile_well_formed(input@);
    }
    Ok(tree)
}

/// The scalar values of a text.
pub fn scalar_values(text: &str) -> (r: Vec<char>)
    ensures
        r@ == text@,
{
    let mut out: Vec<char> = Vec::new();
    for c in it: text.chars()
        invariant
            out@ == it.seq().take(it.index() as int),
    {
        out.push(c);
    }
    out
}

/// Compiles a text into its tree. The text is refused as a whole where it
/// is not a sequence of declarations, where a section is declared twice,
/// and where a mapping leads to, or was written for, a section that is
/// nowhere declared.
pub fn parse_dtree(input: &str) -> (r: Result<Tree, DtreeError>)
    ensures
        linked(r) == compile(input@),
        r matches Ok(tree) ==> well_formed(tree@) && all_triggered(tree@),
{
    let text = scalar_values(input);
    dtree_parse_impl(text.as_slice())
}

} // verus!

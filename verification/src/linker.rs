//! Linking: the declarations of a text become a tree, or the text is
//! refused. Sections are declared first and mappings attached afterwards,
//! so a mapping may name a section that is declared behind it.

use crate::dtree::{
    find_section, has_section, is_first_named, lemma_section_index_found, lemma_section_index_is,
    mapping_views, section_index, section_views, texts, well_formed, Mapping, MappingView, Section,
    SectionView, Tree,
};
use crate::error::{DtreeError, DtreeErrorView};
use crate::parser::{fragment_views, Fragment, FragmentView, PartialDTreeOptionView};
use vstd::prelude::*;

verus! {

/// The sections that `fragments` declare, in their order and without
/// mappings yet. A name that was declared before is refused where it comes
/// again.
pub open spec fn declared(fragments: Seq<FragmentView>) -> Result<Seq<SectionView>, DtreeErrorView>
    decreases fragments.len(),
{
    if fragments.len() == 0 {
        Ok(Seq::empty())
    } else {
        match declared(fragments.drop_last()) {
            Err(e) => Err(e),
            Ok(sections) => match fragments.last() {
                FragmentView::Section(section) => if has_section(sections, section.name) {
                    Err(DtreeErrorView::DuplicateSection { name: section.name })
                } else {
                    Ok(
                        sections.push(
                            SectionView {
                                name: section.name,
                                description: section.description,
                                mappings: Seq::empty(),
                            },
                        ),
                    )
                },
                FragmentView::Mapping(_) => Ok(sections),
            },
        }
    }
}

/// `section` with one more mapping at the end of its list.
pub open spec fn with_mapping(section: SectionView, mapping: MappingView) -> SectionView {
    SectionView {
        name: section.name,
        description: section.description,
        mappings: section.mappings.push(mapping),
    }
}

/// The mapping that a mapping declaration stands for.
pub open spec fn mapping_of(declaration: PartialDTreeOptionView) -> MappingView {
    MappingView {
        triggers: declaration.triggers,
        description: declaration.description,
        to: declaration.dest,
    }
}

/// `sections` with the mapping of `declaration` put at the end of the list
/// of the section it was written for. The section it leads to has to
/// exist, and then the section it was written for.
pub open spec fn attach(sections: Seq<SectionView>, declaration: PartialDTreeOptionView) -> Result<
    Seq<SectionView>,
    DtreeErrorView,
> {
    if !has_section(sections, declaration.dest) {
        Err(
            DtreeErrorView::UnknownDestination {
                destination: declaration.dest,
                triggers: declaration.triggers,
                section: declaration.parent,
            },
        )
    } else {
        match section_index(sections, declaration.parent) {
            None => Err(
                DtreeErrorView::UnknownSource {
                    section: declaration.parent,
                    triggers: declaration.triggers,
                    destination: declaration.dest,
                },
            ),
            Some(i) => Ok(sections.update(i, with_mapping(sections[i], mapping_of(declaration)))),
        }
    }
}

/// `sections` with the mappings that `fragments` declare attached one
/// after the other, up to the first that cannot be.
pub open spec fn attached(sections: Seq<SectionView>, fragments: Seq<FragmentView>) -> Result<
    Seq<SectionView>,
    DtreeErrorView,
>
    decreases fragments.len(),
{
    if fragments.len() == 0 {
        Ok(sections)
    } else {
        match attached(sections, fragments.drop_last()) {
            Err(e) => Err(e),
            Ok(current) => match fragments.last() {
                FragmentView::Section(_) => Ok(current),
                FragmentView::Mapping(declaration) => attach(current, declaration),
            },
        }
    }
}

/// The sections of the tree that `fragments` make, or why they make none.
pub open spec fn link_fragments(fragments: Seq<FragmentView>) -> Result<
    Seq<SectionView>,
    DtreeErrorView,
> {
    match declared(fragments) {
        Err(e) => Err(e),
        Ok(sections) => attached(sections, fragments),
    }
}

/// The outcome of making a tree, as the specification sees it.
pub open spec fn linked(r: Result<Tree, DtreeError>) -> Result<Seq<SectionView>, DtreeErrorView> {
    match r {
        Ok(tree) => Ok(tree@),
        Err(e) => Err(e@),
    }
}

/// Sections that were declared have different names and no mappings.
pub proof fn lemma_declared_well_formed(fragments: Seq<FragmentView>)
    ensures
        declared(fragments) matches Ok(sections) ==> well_formed(sections) && forall|i: int|
            0 <= i < sections.len() ==> (#[trigger] sections[i]).mappings.len() == 0,
    decreases fragments.len(),
{
    if fragments.len() > 0 {
        lemma_declared_well_formed(fragments.drop_last());
    }
}

/// Attaching a mapping keeps a well-formed list of sections well formed,
/// and leaves the sections their names.
pub proof fn lemma_attach_well_formed(
    sections: Seq<SectionView>,
    declaration: PartialDTreeOptionView,
)
    requires
        well_formed(sections),
    ensures
        attach(sections, declaration) matches Ok(next) ==> well_formed(next) && same_names(
            sections,
            next,
        ),
{
    if let Ok(next) = attach(sections, declaration) {
        lemma_section_index_found(sections, declaration.parent);
        let at = section_index(sections, declaration.parent)->Some_0;
        assert(same_names(sections, next));
        assert forall|i: int, k: int|
            0 <= i < next.len() && 0 <= k < next[i].mappings.len() implies has_section(
            next,
            (#[trigger] next[i].mappings[k]).to,
        ) by {
            let to = next[i].mappings[k].to;
            if i == at && k == sections[i].mappings.len() {
                assert(to == declaration.dest);
            } else {
                assert(to == sections[i].mappings[k].to);
            }
            lemma_same_names_has(sections, next, to);
        }
    }
}

/// Two lists of sections with the same names in the same places.
pub open spec fn same_names(a: Seq<SectionView>, b: Seq<SectionView>) -> bool {
    a.len() == b.len() && forall|i: int| 0 <= i < a.len() ==> (#[trigger] a[i]).name == b[i].name
}

/// Lists of sections with the same names answer alike when asked for one.
pub proof fn lemma_same_names_has(a: Seq<SectionView>, b: Seq<SectionView>, name: Seq<char>)
    requires
        same_names(a, b),
    ensures
        has_section(a, name) == has_section(b, name),
        section_index(a, name) == section_index(b, name),
{
    assert forall|i: int| is_first_named(a, name, i) == is_first_named(b, name, i) by {
        if is_first_named(a, name, i) {
            assert(a[i].name == b[i].name);
            assert forall|j: int| 0 <= j < i implies (#[trigger] b[j]).name != name by {
                assert(a[j].name == b[j].name);
            }
        }
        if is_first_named(b, name, i) {
            assert(a[i].name == b[i].name);
            assert forall|j: int| 0 <= j < i implies (#[trigger] a[j]).name != name by {
                assert(a[j].name == b[j].name);
            }
        }
    }
    lemma_section_index_found(a, name);
    lemma_section_index_found(b, name);
    if has_section(a, name) {
        let i = section_index(a, name)->Some_0;
        assert(is_first_named(b, name, i));
        lemma_section_index_is(b, name, i);
    }
    if has_section(b, name) {
        let i = section_index(b, name)->Some_0;
        assert(is_first_named(a, name, i));
        lemma_section_index_is(a, name, i);
    }
}

/// Attaching mappings keeps a well-formed list of sections well formed,
/// and leaves the sections their names.
pub proof fn lemma_attached_well_formed(sections: Seq<SectionView>, fragments: Seq<FragmentView>)
    requires
        well_formed(sections),
    ensures
        attached(sections, fragments) matches Ok(last) ==> well_formed(last) && same_names(
            sections,
            last,
        ),
    decreases fragments.len(),
{
    if fragments.len() > 0 {
        lemma_attached_well_formed(sections, fragments.drop_last());
        if let Ok(current) = attached(sections, fragments.drop_last()) {
            if let FragmentView::Mapping(declaration) = fragments.last() {
                lemma_attach_well_formed(current, declaration);
                if let Ok(last) = attach(current, declaration) {
                    assert forall|i: int| 0 <= i < sections.len() implies (
                    #[trigger] sections[i]).name == last[i].name by {
                        assert(sections[i].name == current[i].name);
                        assert(current[i].name == last[i].name);
                    }
                }
            }
        }
    }
}

/// No edge dangles in a tree that linking made: its sections have
/// different names, and the destination of every mapping is one of them.
pub proof fn lemma_link_well_formed(fragments: Seq<FragmentView>)
    ensures
        link_fragments(fragments) matches Ok(sections) ==> well_formed(sections),
{
    lemma_declared_well_formed(fragments);
    if let Ok(sections) = declared(fragments) {
        lemma_attached_well_formed(sections, fragments);
    }
}

/// Once a declaration is refused, so are all the fragments together.
pub proof fn lemma_declared_error_stays(fragments: Seq<FragmentView>, n: int)
    requires
        0 <= n <= fragments.len(),
        declared(fragments.take(n)) is Err,
    ensures
        declared(fragments) == declared(fragments.take(n)),
    decreases fragments.len(),
{
    if n == fragments.len() {
        assert(fragments.take(n) == fragments);
    } else {
        assert(fragments.drop_last().take(n) == fragments.take(n));
        lemma_declared_error_stays(fragments.drop_last(), n);
    }
}

/// Once a mapping cannot be attached, neither can all the fragments
/// together.
pub proof fn lemma_attached_error_stays(
    sections: Seq<SectionView>,
    fragments: Seq<FragmentView>,
    n: int,
)
    requires
        0 <= n <= fragments.len(),
        attached(sections, fragments.take(n)) is Err,
    ensures
        attached(sections, fragments) == attached(sections, fragments.take(n)),
    decreases fragments.len(),
{
    if n == fragments.len() {
        assert(fragments.take(n) == fragments);
    } else {
        assert(fragments.drop_last().take(n) == fragments.take(n));
        lemma_attached_error_stays(sections, fragments.drop_last(), n);
    }
}

/// A copy of a list of strings.
fn copy_texts(list: &Vec<String>) -> (r: Vec<String>)
    ensures
        texts(r@) == texts(list@),
{
    let mut out: Vec<String> = Vec::new();
    let mut i: usize = 0;
    while i < list.len()
        invariant
            i <= list.len(),
            out.len() == i,
            forall|j: int| 0 <= j < i ==> (#[trigger] out[j])@ == list[j]@,
        decreases list.len() - i,
    {
        out.push(list[i].clone());
        i += 1;
    }
    assert(texts(out@) == texts(list@));
    out
}

/// The outcome of a pass over the fragments, as the specification sees it.
pub open spec fn sections_made(r: Result<Vec<Section>, DtreeError>) -> Result<
    Seq<SectionView>,
    DtreeErrorView,
> {
    match r {
        Ok(sections) => Ok(section_views(sections@)),
        Err(e) => Err(e@),
    }
}

/// The first pass: makes a section of every section declaration, and
/// refuses a name that comes twice.
pub fn declare_sections(fragments: &Vec<Fragment>) -> (r: Result<Vec<Section>, DtreeError>)
    ensures
        sections_made(r) == declared(fragment_views(fragments@)),
{
    let ghost views = fragment_views(fragments@);
    let mut sections: Vec<Section> = Vec::new();
    let mut i: usize = 0;
    assert(views.take(0) == Seq::<FragmentView>::empty());
    assert(section_views(sections@) == Seq::<SectionView>::empty());
    while i < fragments.len()
        invariant
            i <= fragments.len(),
            views == fragment_views(fragments@),
            declared(views.take(i as int)) == Ok::<Seq<SectionView>, DtreeErrorView>(
                section_views(sections@),
            ),
        decreases fragments.len() - i,
    {
        let ghost before = section_views(sections@);
        proof {
            assert(views.take(i + 1).drop_last() == views.take(i as int));
            assert(views.take(i + 1).last() == fragments[i as int]@);
        }
        match &fragments[i] {
            Fragment::Section(declaration) => {
                if find_section(&sections, declaration.name.as_str()).is_some() {
                    proof {
                        lemma_declared_error_stays(views, i + 1);
                    }
                    return Err(DtreeError::DuplicateSection { name: declaration.name.clone() });
                }
                let section = Section {
                    name: declaration.name.clone(),
                    description: declaration.description.clone(),
                    mappings: Vec::new(),
                };
                assert(section@.mappings == Seq::<MappingView>::empty());
                sections.push(section);
                assert(section_views(sections@) == before.push(section@));
            },
            Fragment::Mapping(_) => {},
        }
        i += 1;
    }
    assert(views.take(i as int) == views);
    Ok(sections)
}

/// The second pass: puts every mapping declaration into the section it
/// was written for, and refuses one that leads to, or was written for, a
/// section that is not there.
pub fn attach_mappings(declared: Vec<Section>, fragments: &Vec<Fragment>) -> (r: Result<
    Vec<Section>,
    DtreeError,
>)
    ensures
        sections_made(r) == attached(section_views(declared@), fragment_views(fragments@)),
{
    let ghost views = fragment_views(fragments@);
    let ghost first = section_views(declared@);
    let mut sections = declared;
    let mut i: usize = 0;
    assert(views.take(0) == Seq::<FragmentView>::empty());
    while i < fragments.len()
        invariant
            i <= fragments.len(),
            views == fragment_views(fragments@),
            first == section_views(declared@),
            attached(first, views.take(i as int)) == Ok::<Seq<SectionView>, DtreeErrorView>(
                section_views(sections@),
            ),
        decreases fragments.len() - i,
    {
        let ghost before = section_views(sections@);
        proof {
            assert(views.take(i + 1).drop_last() == views.take(i as int));
            assert(views.take(i + 1).last() == fragments[i as int]@);
        }
        match &fragments[i] {
            Fragment::Section(_) => {},
            Fragment::Mapping(declaration) => {
                if find_section(&sections, declaration.dest.as_str()).is_none() {
                    proof {
                        lemma_attached_error_stays(first, views, i + 1);
                    }
                    return Err(
                        DtreeError::UnknownDestination {
                            destination: declaration.dest.clone(),
                            triggers: copy_texts(&declaration.triggers),
                            section: declaration.parent.clone(),
                        },
                    );
                }
                match find_section(&sections, declaration.parent.as_str()) {
                    None => {
                        proof {
                            lemma_attached_error_stays(first, views, i + 1);
                        }
                        return Err(
                            DtreeError::UnknownSource {
                                section: declaration.parent.clone(),
                                triggers: copy_texts(&declaration.triggers),
                                destination: declaration.dest.clone(),
                            },
                        );
                    },
                    Some(at) => {
                        let mapping = Mapping {
                            triggers: copy_texts(&declaration.triggers),
                            description: declaration.description.clone(),
                            to: declaration.dest.clone(),
                        };
                        assert(mapping@ == mapping_of(declaration@));
                        let ghost old_mappings = mapping_views(sections[at as int].mappings@);
                        sections[at].mappings.push(mapping);
                        proof {
                            assert(mapping_views(sections[at as int].mappings@)
                                == old_mappings.push(mapping@));
                            assert(section_views(sections@) == before.update(
                                at as int,
                                with_mapping(before[at as int], mapping@),
                            ));
                        }
                    },
                }
            },
        }
        i += 1;
    }
    assert(views.take(i as int) == views);
    Ok(sections)
}

/// Makes the tree of the declarations of a text.
pub fn link(fragments: &Vec<Fragment>) -> (r: Result<Tree, DtreeError>)
    ensures
        linked(r) == link_fragments(fragment_views(fragments@)),
{
    let declared = declare_sections(fragments)?;
    let sections = attach_mappings(declared, fragments)?;
    proof {
        lemma_link_well_formed(fragment_views(fragments@));
    }
    Ok(Tree::from_sections(sections))
}

/// Whether one of `fragments` declares a section named `name`.
pub open spec fn declares(fragments: Seq<FragmentView>, name: Seq<char>) -> bool {
    exists|k: int|
        0 <= k < fragments.len() && (#[trigger] fragments[k] matches FragmentView::Section(section)
            && section.name == name)
}

/// Whether no two of `fragments` declare a section of the same name.
pub open spec fn declared_once(fragments: Seq<FragmentView>) -> bool {
    forall|i: int, j: int|
        0 <= i < j < fragments.len() ==> !(#[trigger] fragments[i] matches FragmentView::Section(a)
            && #[trigger] fragments[j] matches FragmentView::Section(b) && a.name == b.name)
}

/// The first pass fails in one way only, and the sections it makes have
/// the names that were declared.
pub proof fn lemma_declared_names(fragments: Seq<FragmentView>)
    ensures
        match declared(fragments) {
            Ok(sections) => forall|name: Seq<char>|
                has_section(sections, name) <==> declares(fragments, name),
            Err(e) => e is DuplicateSection,
        },
    decreases fragments.len(),
{
    if fragments.len() > 0 {
        let front = fragments.drop_last();
        lemma_declared_names(front);
        if let Ok(before) = declared(front) {
            if let Ok(sections) = declared(fragments) {
                assert forall|name: Seq<char>| has_section(sections, name) implies declares(
                    fragments,
                    name,
                ) by {
                    let i = choose|i: int|
                        0 <= i < sections.len() && (#[trigger] sections[i]).name == name;
                    if i < before.len() {
                        assert(before[i].name == name);
                        assert(has_section(before, name));
                        let k = choose|k: int|
                            0 <= k < front.len() && (#[trigger] front[k] matches FragmentView::Section(
                                section,
                            ) && section.name == name);
                        assert(fragments[k] == front[k]);
                    } else {
                        assert(fragments[fragments.len() - 1] == fragments.last());
                    }
                }
                assert forall|name: Seq<char>| declares(fragments, name) implies has_section(
                    sections,
                    name,
                ) by {
                    let k = choose|k: int|
                        0 <= k < fragments.len() && (
                        #[trigger] fragments[k] matches FragmentView::Section(section)
                            && section.name == name);
                    if k < front.len() {
                        assert(front[k] == fragments[k]);
                        assert(declares(front, name));
                        let i = choose|i: int|
                            0 <= i < before.len() && (#[trigger] before[i]).name == name;
                        assert(sections[i].name == name);
                    } else {
                        assert(sections[sections.len() - 1].name == name);
                    }
                }
            }
        }
    }
}

/// A section name that is declared twice is refused, wherever in the
/// fragments the two declarations stand.
pub proof fn lemma_duplicate_section_refused(fragments: Seq<FragmentView>, i: int, j: int)
    requires
        0 <= i < j < fragments.len(),
        fragments[i] matches FragmentView::Section(a) && fragments[j] matches FragmentView::Section(
            b,
        ) && a.name == b.name,
    ensures
        link_fragments(fragments) matches Err(e) && e is DuplicateSection,
{
    let front = fragments.take(j);
    lemma_declared_names(front);
    lemma_declared_names(fragments);
    if let Ok(before) = declared(front) {
        assert(front[i] == fragments[i]);
        assert(declares(front, fragments[i]->Section_0.name));
        assert(fragments.take(j + 1).drop_last() == front);
        assert(fragments.take(j + 1).last() == fragments[j]);
        assert(declared(fragments.take(j + 1)) is Err);
        lemma_declared_error_stays(fragments, j + 1);
    } else {
        lemma_declared_error_stays(fragments, j);
    }
}

/// Where no name is declared twice, the first pass makes its sections.
pub proof fn lemma_declared_once_succeeds(fragments: Seq<FragmentView>)
    requires
        declared_once(fragments),
    ensures
        declared(fragments) is Ok,
{
    if let Err(e) = declared(fragments) {
        lemma_first_refusal(fragments);
    }
}

proof fn lemma_first_refusal(fragments: Seq<FragmentView>)
    requires
        declared(fragments) is Err,
    ensures
        !declared_once(fragments),
    decreases fragments.len(),
{
    let front = fragments.drop_last();
    if let Ok(before) = declared(front) {
        lemma_declared_names(front);
        let j = fragments.len() - 1;
        let name = fragments[j]->Section_0.name;
        assert(declares(front, name));
        let i = choose|i: int|
            0 <= i < front.len() && (#[trigger] front[i] matches FragmentView::Section(section)
                && section.name == name);
        assert(fragments[i] == front[i]);
        assert(fragments[i] matches FragmentView::Section(a) && fragments[j] matches FragmentView::Section(
            b,
        ) && a.name == b.name);
    } else {
        lemma_first_refusal(front);
        let (i, j) = choose|i: int, j: int|
            0 <= i < j < front.len() && (#[trigger] front[i] matches FragmentView::Section(a)
                && #[trigger] front[j] matches FragmentView::Section(b) && a.name == b.name);
        assert(fragments[i] == front[i] && fragments[j] == front[j]);
    }
}

/// Mappings whose sections are all there can all be attached, and the
/// sections keep their names.
proof fn lemma_attached_succeeds(
    sections: Seq<SectionView>,
    fragments: Seq<FragmentView>,
    n: int,
)
    requires
        0 <= n <= fragments.len(),
        forall|k: int|
            0 <= k < n ==> (#[trigger] fragments[k] matches FragmentView::Mapping(m)
                ==> has_section(sections, m.dest) && has_section(sections, m.parent)),
    ensures
        attached(sections, fragments.take(n)) matches Ok(current) && same_names(sections, current),
    decreases n,
{
    if n > 0 {
        lemma_attached_succeeds(sections, fragments, n - 1);
        assert(fragments.take(n).drop_last() == fragments.take(n - 1));
        assert(fragments.take(n).last() == fragments[n - 1]);
        let current = attached(sections, fragments.take(n - 1))->Ok_0;
        if let FragmentView::Mapping(m) = fragments[n - 1] {
            lemma_same_names_has(sections, current, m.dest);
            lemma_same_names_has(sections, current, m.parent);
            lemma_section_index_found(current, m.parent);
            let last = attach(current, m)->Ok_0;
            assert forall|i: int| 0 <= i < sections.len() implies (#[trigger] sections[i]).name
                == last[i].name by {
                assert(sections[i].name == current[i].name);
            }
        }
    } else {
        assert(fragments.take(0) == Seq::<FragmentView>::empty());
    }
}

/// A mapping that leads to a section which is nowhere declared is
/// refused, and the failure names that destination. This is said of
/// fragments in which no section is declared twice, and in which the
/// mappings before this one have the sections they lead to and were
/// written for: a failure there comes first.
pub proof fn lemma_unknown_destination_refused(fragments: Seq<FragmentView>, j: int)
    requires
        0 <= j < fragments.len(),
        fragments[j] is Mapping,
        !declares(fragments, fragments[j]->Mapping_0.dest),
        declared_once(fragments),
        forall|k: int|
            0 <= k < j ==> (#[trigger] fragments[k] matches FragmentView::Mapping(m) ==> declares(
                fragments,
                m.dest,
            ) && declares(fragments, m.parent)),
    ensures
        link_fragments(fragments) == Err::<Seq<SectionView>, DtreeErrorView>(
            DtreeErrorView::UnknownDestination {
                destination: fragments[j]->Mapping_0.dest,
                triggers: fragments[j]->Mapping_0.triggers,
                section: fragments[j]->Mapping_0.parent,
            },
        ),
{
    let m = fragments[j]->Mapping_0;
    lemma_declared_once_succeeds(fragments);
    lemma_declared_names(fragments);
    let sections = declared(fragments)->Ok_0;
    lemma_attached_succeeds(sections, fragments, j);
    let current = attached(sections, fragments.take(j))->Ok_0;
    lemma_same_names_has(sections, current, m.dest);
    assert(fragments.take(j + 1).drop_last() == fragments.take(j));
    assert(fragments.take(j + 1).last() == fragments[j]);
    lemma_attached_error_stays(sections, fragments, j + 1);
}

/// Whether every mapping of `sections` has a trigger.
pub open spec fn all_triggered(sections: Seq<SectionView>) -> bool {
    forall|i: int, k: int|
        0 <= i < sections.len() && 0 <= k < sections[i].mappings.len() ==> (
        #[trigger] sections[i].mappings[k]).triggers.len() > 0
}

/// Whether every mapping declaration among `fragments` has a trigger.
pub open spec fn all_declared_triggered(fragments: Seq<FragmentView>) -> bool {
    forall|k: int|
        0 <= k < fragments.len() ==> (#[trigger] fragments[k] matches FragmentView::Mapping(m)
            ==> m.triggers.len() > 0)
}

proof fn lemma_attached_triggered(sections: Seq<SectionView>, fragments: Seq<FragmentView>)
    requires
        all_triggered(sections),
        all_declared_triggered(fragments),
    ensures
        attached(sections, fragments) matches Ok(last) ==> all_triggered(last),
    decreases fragments.len(),
{
    if fragments.len() > 0 {
        let front = fragments.drop_last();
        assert forall|k: int| 0 <= k < front.len() implies (
        #[trigger] front[k] matches FragmentView::Mapping(m) ==> m.triggers.len() > 0) by {
            assert(front[k] == fragments[k]);
        }
        lemma_attached_triggered(sections, front);
        if let Ok(current) = attached(sections, front) {
            if let FragmentView::Mapping(declaration) = fragments.last() {
                assert(fragments[fragments.len() - 1] == fragments.last());
                if let Ok(last) = attach(current, declaration) {
                    let at = section_index(current, declaration.parent)->Some_0;
                    lemma_section_index_found(current, declaration.parent);
                    assert forall|i: int, k: int|
                        0 <= i < last.len() && 0 <= k < last[i].mappings.len() implies (
                    #[trigger] last[i].mappings[k]).triggers.len() > 0 by {
                        if i == at && k == current[i].mappings.len() {
                        } else {
                            assert(last[i].mappings[k] == current[i].mappings[k]);
                        }
                    }
                }
            }
        }
    }
}

/// Where every mapping declaration has a trigger, so has every mapping of
/// the tree.
pub proof fn lemma_link_keeps_triggers(fragments: Seq<FragmentView>)
    requires
        all_declared_triggered(fragments),
    ensures
        link_fragments(fragments) matches Ok(sections) ==> all_triggered(sections),
{
    lemma_declared_well_formed(fragments);
    if let Ok(sections) = declared(fragments) {
        lemma_attached_triggered(sections, fragments);
    }
}

} // verus!

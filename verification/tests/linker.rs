use dtree::dtree::{Mapping, Section};
use dtree::error::DtreeError;
use dtree::linker::{attach_mappings, declare_sections, link};
use dtree::parser::{parse_dtree, Fragment, PartialDTree, PartialDTreeOption};

fn declare(name: &str, description: &str) -> Fragment {
    Fragment::Section(PartialDTree {
        name: String::from(name),
        description: String::from(description),
    })
}

fn map(parent: &str, triggers: &[&str], dest: &str, description: &str) -> Fragment {
    Fragment::Mapping(PartialDTreeOption {
        parent: String::from(parent),
        description: String::from(description),
        triggers: triggers.iter().map(|t| String::from(*t)).collect(),
        dest: String::from(dest),
    })
}

fn edge(triggers: &[&str], description: &str, to: &str) -> Mapping {
    Mapping {
        triggers: triggers.iter().map(|t| String::from(*t)).collect(),
        description: String::from(description),
        to: String::from(to),
    }
}

fn node(name: &str, description: &str, mappings: Vec<Mapping>) -> Section {
    Section { name: String::from(name), description: String::from(description), mappings }
}

#[test]
fn link_builds_sections_with_their_mappings_in_order() {
    let fragments = vec![
        map("start", &["yes", "y"], "a", "Go to a"),
        declare("start", "Begin"),
        declare("a", "In a"),
        map("a", &["back"], "start", "Return"),
        map("start", &["no"], "b", "Go to b"),
        declare("b", "In b"),
    ];
    let tree = link(&fragments).unwrap();
    assert_eq!(
        tree.sections(),
        &vec![
            node(
                "start",
                "Begin",
                vec![edge(&["yes", "y"], "Go to a", "a"), edge(&["no"], "Go to b", "b")]
            ),
            node("a", "In a", vec![edge(&["back"], "Return", "start")]),
            node("b", "In b", vec![]),
        ]
    );
}

#[test]
fn link_of_nothing_is_an_empty_tree() {
    let tree = link(&vec![]).unwrap();
    assert!(tree.sections().is_empty());
    assert!(tree.get("start").is_none());
}

#[test]
fn first_pass_keeps_sections_and_skips_mappings() {
    let fragments = vec![declare("a", "one"), map("x", &["t"], "y", "m"), declare("b", "two")];
    assert_eq!(
        declare_sections(&fragments),
        Ok(vec![node("a", "one", vec![]), node("b", "two", vec![])])
    );
}

#[test]
fn second_pass_attaches_to_the_sections_it_is_given() {
    let fragments = vec![declare("ignored", ""), map("a", &["t"], "b", "m")];
    let sections = vec![node("a", "one", vec![]), node("b", "two", vec![])];
    assert_eq!(
        attach_mappings(sections, &fragments),
        Ok(vec![node("a", "one", vec![edge(&["t"], "m", "b")]), node("b", "two", vec![])])
    );
}

#[test]
fn duplicate_section_is_refused_when_adjacent() {
    let fragments = vec![declare("a", "one"), declare("a", "two")];
    assert_eq!(
        link(&fragments).err(),
        Some(DtreeError::DuplicateSection { name: String::from("a") })
    );
}

#[test]
fn duplicate_section_is_refused_when_far_apart() {
    let fragments = vec![
        declare("a", "one"),
        declare("b", "two"),
        map("a", &["t"], "b", "m"),
        declare("c", "three"),
        map("nowhere", &["t"], "nothing", "m"),
        declare("a", "again"),
    ];
    assert_eq!(
        link(&fragments).err(),
        Some(DtreeError::DuplicateSection { name: String::from("a") })
    );
}

#[test]
fn the_first_name_that_comes_again_is_reported() {
    let fragments =
        vec![declare("a", ""), declare("b", ""), declare("b", ""), declare("a", "")];
    assert_eq!(
        link(&fragments).err(),
        Some(DtreeError::DuplicateSection { name: String::from("b") })
    );
}

#[test]
fn unknown_destination_names_the_mapping() {
    let fragments = vec![declare("a", "one"), map("a", &["x", "y"], "missing", "m")];
    assert_eq!(
        link(&fragments).err(),
        Some(DtreeError::UnknownDestination {
            destination: String::from("missing"),
            triggers: vec![String::from("x"), String::from("y")],
            section: String::from("a"),
        })
    );
}

#[test]
fn unknown_source_names_the_mapping() {
    let fragments = vec![declare("a", "one"), map("missing", &["x"], "a", "m")];
    assert_eq!(
        link(&fragments).err(),
        Some(DtreeError::UnknownSource {
            section: String::from("missing"),
            triggers: vec![String::from("x")],
            destination: String::from("a"),
        })
    );
}

#[test]
fn destination_is_looked_up_before_source() {
    let fragments = vec![declare("a", "one"), map("no_source", &["x"], "no_dest", "m")];
    assert_eq!(
        link(&fragments).err(),
        Some(DtreeError::UnknownDestination {
            destination: String::from("no_dest"),
            triggers: vec![String::from("x")],
            section: String::from("no_source"),
        })
    );
}

#[test]
fn the_first_mapping_that_fails_is_reported() {
    let fragments = vec![
        declare("a", "one"),
        map("missing", &["x"], "a", "m"),
        map("a", &["y"], "nowhere", "m"),
    ];
    assert_eq!(
        link(&fragments).err(),
        Some(DtreeError::UnknownSource {
            section: String::from("missing"),
            triggers: vec![String::from("x")],
            destination: String::from("a"),
        })
    );
}

#[test]
fn mapping_may_lead_to_its_own_section() {
    let tree = link(&vec![declare("a", "one"), map("a", &["again"], "a", "loop")]).unwrap();
    assert_eq!(tree.get("a").unwrap().mapping("again"), Some("a"));
}

#[test]
fn every_destination_of_a_parsed_tree_is_found() {
    let text = "[start] Where to?\n\
                [start (north)|(n) -> woods] Into the woods\n\
                [start (south) -> shore] Down to the shore\n\
                [woods] Trees.\n\
                [woods (back) -> start] Back\n\
                [shore (back) -> start] Back\n\
                [shore (swim) -> shore] Swim\n\
                [shore] Water.\n";
    let tree = parse_dtree(text).unwrap();
    let mut edges = 0;
    for section in tree.sections() {
        for mapping in &section.mappings {
            let found = tree.get(&mapping.to).expect("destination");
            assert_eq!(found.name, mapping.to);
            edges += 1;
        }
    }
    assert_eq!(edges, 5);
    assert_eq!(tree.sections().len(), 3);
}

#[test]
fn parse_dtree_allows_forward_references() {
    let tree = parse_dtree("[a (go) -> b] Onwards\n[a] First\n[b] Second\n").unwrap();
    assert_eq!(tree.get("a"), Some(&node("a", "First", vec![edge(&["go"], "Onwards", "b")])));
    assert_eq!(tree.get("b"), Some(&node("b", "Second", vec![])));
    assert_eq!(tree.get("c"), None);
}

#[test]
fn parse_dtree_refuses_a_section_declared_twice() {
    assert_eq!(
        parse_dtree("[a] one\n[b] two\n[a] three\n").err(),
        Some(DtreeError::DuplicateSection { name: String::from("a") })
    );
}

#[test]
fn parse_dtree_refuses_an_unknown_destination() {
    assert_eq!(
        parse_dtree("[a] one\n[a (x)|(y z) -> nowhere] two\n").err(),
        Some(DtreeError::UnknownDestination {
            destination: String::from("nowhere"),
            triggers: vec![String::from("x"), String::from("y z")],
            section: String::from("a"),
        })
    );
}

#[test]
fn parse_dtree_refuses_an_unknown_source() {
    assert_eq!(
        parse_dtree("[a] one\n[b (x) -> a] two\n").err(),
        Some(DtreeError::UnknownSource {
            section: String::from("b"),
            triggers: vec![String::from("x")],
            destination: String::from("a"),
        })
    );
}

#[test]
fn parse_dtree_of_an_empty_text_is_an_empty_tree() {
    assert!(parse_dtree("").unwrap().sections().is_empty());
}

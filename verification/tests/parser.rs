use dtree::error::DtreeError;
use dtree::parser::{
    mapping, parse_dtree, read_fragments, section_desc, trigger_from, trigger_to, Fragment,
    PartialDTree, PartialDTreeOption,
};
use dtree::text::{desc_text, escaped_until, identifier, mapping_name, Reject};

/// Runs a production at the start of `text` and answers with what it left
/// unread and what it read.
fn on<T>(
    production: fn(&[char], usize) -> Result<(usize, T), Reject>,
    text: &str,
) -> Result<(String, T), Reject> {
    let input: Vec<char> = text.chars().collect();
    production(&input, 0).map(|(end, value)| (input[end..].iter().collect(), value))
}

fn left<T>(rest: &str, value: T) -> Result<(String, T), Reject> {
    Ok((String::from(rest), value))
}

fn fragments_of(text: &str) -> Result<Vec<Fragment>, DtreeError> {
    let input: Vec<char> = text.chars().collect();
    read_fragments(&input)
}

fn section(name: &str, description: &str) -> PartialDTree {
    PartialDTree { name: String::from(name), description: String::from(description) }
}

fn option(parent: &str, triggers: &[&str], dest: &str, description: &str) -> PartialDTreeOption {
    PartialDTreeOption {
        parent: String::from(parent),
        description: String::from(description),
        triggers: triggers.iter().map(|t| String::from(*t)).collect(),
        dest: String::from(dest),
    }
}

#[test]
fn parse_identifier_test() {
    assert_eq!(on(identifier, "asdf"), left("", String::from("asdf")));
    assert_eq!(on(identifier, "asdf123"), left("", String::from("asdf123")));
    assert_eq!(on(identifier, "asd 12f"), left(" 12f", String::from("asd")));
    assert_eq!(on(identifier, "asd^f"), left("^f", String::from("asd")));
    assert_eq!(on(identifier, "a_d^f"), left("^f", String::from("a_d")));
    // The not sign is neither alphabetic nor numeric: the name ends before it.
    assert_eq!(on(identifier, "aäº¬d^f"), left("¬d^f", String::from("aäº")));
}

#[test]
fn parse_desc_test() {
    assert_eq!(on(desc_text, "ðŸ’hiboi\\\na"), left("", String::from("ðŸ’hiboi\na")));
    assert_eq!(on(desc_text, "hiboi\na"), left("\na", String::from("hiboi")));
    assert_eq!(on(desc_text, "\\hiboi\\\na"), left("", String::from("\\hiboi\na")));
    assert_eq!(on(desc_text, "hello \nasdf"), left("\nasdf", String::from("hello ")));
}

#[test]
fn section_test() {
    assert_eq!(on(section_desc, "[ a ] hello \nasdf"), left("\nasdf", section("a", "hello ")));
    assert_eq!(on(section_desc, "[a] hello\\\naaaa"), left("", section("a", "hello\naaaa")));
}

#[test]
fn mapping_test() {
    assert_eq!(on(mapping, " [ a (b) -> c ] adf"), left("", option("a", &["b"], "c", "adf")));
    assert_eq!(
        on(mapping, "[ a123 (b\\)a\\d)->c] adf \\\nhello\na"),
        left("\na", option("a123", &["b)a\\d"], "c", "adf \nhello"))
    );
    assert_eq!(
        on(mapping, "[ a123 (b) | (e)->c] adf"),
        left("", option("a123", &["b", "e"], "c", "adf"))
    );
}

#[test]
fn identifier_takes_scalar_values_whole() {
    assert_eq!(on(identifier, "a京d^f"), left("^f", String::from("a京d")));
    assert_eq!(on(identifier, "京"), left("", String::from("京")));
    assert_eq!(on(identifier, "é-٣_x]"), left("]", String::from("é-٣_x")));
}

#[test]
fn identifier_must_not_be_empty() {
    assert_eq!(on(identifier, ""), Err(Reject::Mismatch));
    assert_eq!(on(identifier, "^f"), Err(Reject::Mismatch));
    assert_eq!(on(identifier, " a"), Err(Reject::Mismatch));
    assert_eq!(on(identifier, "💝"), Err(Reject::Mismatch));
}

#[test]
fn identifier_starts_at_the_given_offset() {
    let input: Vec<char> = "[ab cd]".chars().collect();
    assert_eq!(identifier(&input, 1), Ok((3, String::from("ab"))));
    assert_eq!(identifier(&input, 4), Ok((6, String::from("cd"))));
    assert_eq!(identifier(&input, 3), Err(Reject::Mismatch));
    assert_eq!(identifier(&input, 7), Err(Reject::Mismatch));
}

#[test]
fn escaped_text_runs_to_the_end_without_its_delimiter() {
    assert_eq!(on(desc_text, ""), left("", String::new()));
    assert_eq!(on(desc_text, "no line feed"), left("", String::from("no line feed")));
    assert_eq!(on(mapping_name, "abc"), left("", String::from("abc")));
    assert_eq!(on(desc_text, "ends in a backslash\\"), left("", String::from("ends in a backslash\\")));
}

#[test]
fn escaped_text_stops_before_its_delimiter() {
    assert_eq!(on(mapping_name, "yes) -> a]"), left(") -> a]", String::from("yes")));
    assert_eq!(on(mapping_name, ")"), left(")", String::new()));
    assert_eq!(on(desc_text, "\nnext"), left("\nnext", String::new()));
}

#[test]
fn only_a_backslash_before_the_delimiter_escapes() {
    assert_eq!(on(mapping_name, "b\\)c)"), left(")", String::from("b)c")));
    assert_eq!(on(mapping_name, "a\\b)"), left(")", String::from("a\\b")));
    assert_eq!(on(mapping_name, "a\\\nb)"), left(")", String::from("a\\\nb")));
    assert_eq!(on(desc_text, "a\\)b\n"), left("\n", String::from("a\\)b")));
    assert_eq!(on(mapping_name, "\\\\)x)"), left(")", String::from("\\)x")));
}

#[test]
fn escaped_until_takes_any_delimiter() {
    let input: Vec<char> = "a\\;b;c".chars().collect();
    assert_eq!(escaped_until(&input, 0, ';'), Ok((4, String::from("a;b"))));
    assert_eq!(escaped_until(&input, 4, ';'), Ok((4, String::new())));
    assert_eq!(escaped_until(&input, 5, ';'), Ok((6, String::from("c"))));
    assert_eq!(escaped_until(&input, 6, ';'), Ok((6, String::new())));
    let doubled: Vec<char> = "a\\\\b\\c".chars().collect();
    assert_eq!(escaped_until(&doubled, 0, '\\'), Ok((4, String::from("a\\b"))));
}

#[test]
fn description_keeps_escaped_line_feeds() {
    assert_eq!(
        on(section_desc, "[a] hello\\\nworld\n[b] x"),
        left("\n[b] x", section("a", "hello\nworld"))
    );
}

#[test]
fn section_allows_whitespace_before_and_blanks_inside() {
    assert_eq!(on(section_desc, "\n\t \r\n[\ta\t]\tx"), left("", section("a", "x")));
    assert_eq!(on(section_desc, "[a]x"), left("", section("a", "x")));
    assert_eq!(on(section_desc, "[a] \nx"), left("\nx", section("a", "")));
}

#[test]
fn section_is_no_match_where_the_text_differs() {
    assert_eq!(on(section_desc, "a] x"), Err(Reject::Mismatch));
    assert_eq!(on(section_desc, "[] x"), Err(Reject::Mismatch));
    assert_eq!(on(section_desc, "[a b] x"), Err(Reject::Mismatch));
    assert_eq!(on(section_desc, "[\na] x"), Err(Reject::Mismatch));
    assert_eq!(on(section_desc, "[a (b) -> c] x"), Err(Reject::Mismatch));
}

#[test]
fn section_runs_out_of_input() {
    assert_eq!(on(section_desc, ""), Err(Reject::EndOfInput));
    assert_eq!(on(section_desc, "  \n"), Err(Reject::EndOfInput));
    assert_eq!(on(section_desc, "["), Err(Reject::EndOfInput));
    assert_eq!(on(section_desc, "[ "), Err(Reject::EndOfInput));
    assert_eq!(on(section_desc, "[a"), Err(Reject::EndOfInput));
    assert_eq!(on(section_desc, "[a "), Err(Reject::EndOfInput));
    assert_eq!(on(section_desc, "[a]"), Err(Reject::EndOfInput));
    assert_eq!(on(section_desc, "[a] "), Err(Reject::EndOfInput));
}

#[test]
fn trigger_groups_are_separated_by_bars() {
    assert_eq!(on(trigger_from, "(a)->"), left("->", vec![String::from("a")]));
    assert_eq!(
        on(trigger_from, " ( a ) | (b)|(c d) ->"),
        left("->", vec![String::from(" a "), String::from("b"), String::from("c d")])
    );
    assert_eq!(on(trigger_from, "()x"), left("x", vec![String::new()]));
}

#[test]
fn trigger_groups_need_one_group_and_one_behind_each_bar() {
    assert_eq!(on(trigger_from, "-> c]"), Err(Reject::Mismatch));
    assert_eq!(on(trigger_from, "(a) | -> c]"), Err(Reject::Mismatch));
    assert_eq!(on(trigger_from, "(a) |"), Err(Reject::EndOfInput));
    assert_eq!(on(trigger_from, "(a)"), Err(Reject::EndOfInput));
    assert_eq!(on(trigger_from, "(a"), Err(Reject::EndOfInput));
    assert_eq!(on(trigger_from, "(a\\)"), Err(Reject::EndOfInput));
    assert_eq!(on(trigger_from, ""), Err(Reject::EndOfInput));
}

#[test]
fn destination_is_an_arrow_and_a_name() {
    assert_eq!(on(trigger_to, "->c]"), left("]", String::from("c")));
    assert_eq!(on(trigger_to, "-> \t c ]"), left(" ]", String::from("c")));
    assert_eq!(on(trigger_to, "- > c"), Err(Reject::Mismatch));
    assert_eq!(on(trigger_to, "=> c"), Err(Reject::Mismatch));
    assert_eq!(on(trigger_to, "->]"), Err(Reject::Mismatch));
    assert_eq!(on(trigger_to, "-"), Err(Reject::EndOfInput));
    assert_eq!(on(trigger_to, "->"), Err(Reject::EndOfInput));
    assert_eq!(on(trigger_to, "-> "), Err(Reject::EndOfInput));
}

#[test]
fn mapping_is_no_match_where_the_text_differs() {
    assert_eq!(on(mapping, "[a] x"), Err(Reject::Mismatch));
    assert_eq!(on(mapping, "[a -> c] x"), Err(Reject::Mismatch));
    assert_eq!(on(mapping, "[a (b) c] x"), Err(Reject::Mismatch));
    assert_eq!(on(mapping, "[a (b) -> ] x"), Err(Reject::Mismatch));
    assert_eq!(on(mapping, "[a (b) -> c d] x"), Err(Reject::Mismatch));
    assert_eq!(on(mapping, "[a (b) | -> c] x"), Err(Reject::Mismatch));
    assert_eq!(on(mapping, "x"), Err(Reject::Mismatch));
}

#[test]
fn mapping_runs_out_of_input() {
    assert_eq!(on(mapping, ""), Err(Reject::EndOfInput));
    assert_eq!(on(mapping, "[a"), Err(Reject::EndOfInput));
    assert_eq!(on(mapping, "[a (b"), Err(Reject::EndOfInput));
    assert_eq!(on(mapping, "[a (b) -"), Err(Reject::EndOfInput));
    assert_eq!(on(mapping, "[a (b) -> c"), Err(Reject::EndOfInput));
    assert_eq!(on(mapping, "[a (b) -> c]"), Err(Reject::EndOfInput));
    assert_eq!(on(mapping, "[a (b) -> c] \t"), Err(Reject::EndOfInput));
}

#[test]
fn fragments_come_in_the_order_of_the_text() {
    let text = "[start] Begin\n[start (yes) -> a] Go on\n[a] The end";
    assert_eq!(
        fragments_of(text),
        Ok(vec![
            Fragment::Section(section("start", "Begin")),
            Fragment::Mapping(option("start", &["yes"], "a", "Go on")),
            Fragment::Section(section("a", "The end")),
        ])
    );
}

#[test]
fn fragments_accept_what_linking_refuses() {
    let text = "[a (x) -> nowhere] dangling\n[b] first\n[b] second";
    assert_eq!(
        fragments_of(text),
        Ok(vec![
            Fragment::Mapping(option("a", &["x"], "nowhere", "dangling")),
            Fragment::Section(section("b", "first")),
            Fragment::Section(section("b", "second")),
        ])
    );
}

#[test]
fn empty_and_blank_texts_have_no_fragments() {
    assert_eq!(fragments_of(""), Ok(vec![]));
    assert_eq!(fragments_of(" \n\t\r\n"), Ok(vec![]));
}

#[test]
fn a_declaration_cut_off_by_the_end_is_left_out() {
    assert_eq!(fragments_of("[a] one\n[b"), Ok(vec![Fragment::Section(section("a", "one"))]));
    assert_eq!(fragments_of("[a] one\n[b]"), Ok(vec![Fragment::Section(section("a", "one"))]));
    assert_eq!(
        fragments_of("[a] one\n[a (x) -> a]"),
        Ok(vec![Fragment::Section(section("a", "one"))])
    );
    assert_eq!(fragments_of("[a] one\n"), Ok(vec![Fragment::Section(section("a", "one"))]));
}

#[test]
fn syntax_error_carries_the_offset_of_the_declaration() {
    assert_eq!(fragments_of("hello"), Err(DtreeError::Syntax { position: 0 }));
    assert_eq!(fragments_of("[a] one\nhello"), Err(DtreeError::Syntax { position: 7 }));
    assert_eq!(fragments_of("[a] one\n[b c] two"), Err(DtreeError::Syntax { position: 7 }));
    assert_eq!(fragments_of("[京] 一\n[a -> b] x"), Err(DtreeError::Syntax { position: 5 }));
}

#[test]
fn parse_dtree_refuses_bad_syntax() {
    assert_eq!(
        parse_dtree("[start] Begin\n(yes) -> a").err(),
        Some(DtreeError::Syntax { position: 13 })
    );
}

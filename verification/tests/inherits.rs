use tree_house::inherits::{expand_inherits, inherits_directives, Inherits};

fn directive(query: &str, text: &str, languages: &[&str]) -> Inherits {
    let start = query.find(text).unwrap();
    Inherits {
        start,
        end: start + text.len(),
        languages: languages.iter().map(|l| l.to_string()).collect(),
    }
}

#[test]
fn a_query_without_directive_has_none() {
    assert_eq!(inherits_directives(""), Vec::new());
    assert_eq!(inherits_directives("(identifier) @variable\n; a comment\n"), Vec::new());
    assert_eq!(inherits_directives("; inherit: c\n"), Vec::new());
}

#[test]
fn a_directive_names_its_languages() {
    let query = "; inherits: c,cpp\n(identifier) @variable\n";
    assert_eq!(
        inherits_directives(query),
        vec![directive(query, "; inherits: c,cpp\n", &["c", "cpp"])]
    );
}

#[test]
fn a_directive_may_be_written_in_many_ways() {
    let query = ";;;inherits html_tags\n";
    assert_eq!(inherits_directives(query), vec![directive(query, query, &["html_tags"])]);
    let query = "(a)\n;  inherits  :  ecma  \n(b)";
    assert_eq!(
        inherits_directives(query),
        vec![directive(query, ";  inherits  :  ecma  \n", &["ecma"])]
    );
}

#[test]
fn commas_part_the_languages() {
    let query = "; inherits: a,,b,";
    assert_eq!(inherits_directives(query), vec![directive(query, query, &["a", "", "b", ""])]);
    let query = "; inherits: ,";
    assert_eq!(inherits_directives(query), vec![directive(query, query, &["", ""])]);
}

#[test]
fn the_list_ends_at_the_first_other_character() {
    let query = "; inherits: c, cpp\n";
    assert_eq!(inherits_directives(query), vec![directive(query, "; inherits: c, ", &["c", ""])]);
    let query = "; inherits: Rust";
    assert_eq!(inherits_directives(query), Vec::new());
}

#[test]
fn directives_come_in_the_order_of_the_text() {
    let query = "; inherits: a\n(x)\n; inherits: b,c\n(y)\n;inherits (d)";
    assert_eq!(
        inherits_directives(query),
        vec![
            directive(query, "; inherits: a\n", &["a"]),
            directive(query, "; inherits: b,c\n", &["b", "c"]),
            directive(query, ";inherits (d)", &["(d)"]),
        ]
    );
}

#[test]
fn expansion_puts_the_inherited_queries_in_place() {
    let query = "; inherits: c,cpp\n(identifier) @variable\n";
    let directives = inherits_directives(query);
    let inherited = vec![vec!["(c) @c".to_string(), "(cpp) @cpp".to_string()]];
    assert_eq!(
        expand_inherits(query, &directives, &inherited),
        "\n(c) @c\n\n(cpp) @cpp\n(identifier) @variable\n"
    );
}

#[test]
fn expansion_without_directive_is_the_query() {
    let query = "(identifier) @variable ; é\n";
    assert_eq!(expand_inherits(query, &[], &[]), query);
    assert_eq!(expand_inherits("", &[], &[]), "");
}

#[test]
fn expansion_keeps_the_text_between_directives() {
    let query = "(é)\n; inherits: a\n(x)\n; inherits: b,c\n(y)";
    let directives = inherits_directives(query);
    assert_eq!(directives.len(), 2);
    let inherited =
        vec![vec!["A".to_string()], vec!["B".to_string(), "C".to_string()]];
    assert_eq!(
        expand_inherits(query, &directives, &inherited),
        "(é)\n\nA\n(x)\n\nB\n\nC\n(y)"
    );
    // A directive with nothing to inherit leaves only its place.
    let inherited = vec![Vec::new(), Vec::new()];
    assert_eq!(expand_inherits(query, &directives, &inherited), "(é)\n(x)\n(y)");
}

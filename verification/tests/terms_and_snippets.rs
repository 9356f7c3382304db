use rustme::glossary::{merge_term, table_get, Glossary};
use rustme::snippet::{join_lines, load_snippets, remove_shared_prefix, Snippets};
use rustme::term::{Context, Term};
use rustme::error::Error;

fn bv(s: &str) -> Vec<u8> {
    s.as_bytes().to_vec()
}

#[test]
fn shared_prefix_strips_comment_column() {
    let mut lines = vec![bv("# foo"), bv("# bar")];
    let stripped = remove_shared_prefix(&mut lines);
    assert_eq!(stripped, 2);
    assert_eq!(lines, vec![bv("foo"), bv("bar")]);
}

#[test]
fn shared_prefix_stops_at_disagreement() {
    let mut lines = vec![bv("# foo"), bv("bar")];
    let stripped = remove_shared_prefix(&mut lines);
    assert_eq!(stripped, 0);
    assert_eq!(lines, vec![bv("# foo"), bv("bar")]);
}

#[test]
fn shared_prefix_stops_at_letters() {
    // a shared column is stripped only while it is whitespace or punctuation
    let mut lines = vec![bv("  aa"), bv("  ab")];
    let stripped = remove_shared_prefix(&mut lines);
    assert_eq!(stripped, 2);
    assert_eq!(lines, vec![bv("aa"), bv("ab")]);
}

#[test]
fn shared_prefix_single_line_stops_at_content() {
    let mut lines = vec![bv("  x")];
    let stripped = remove_shared_prefix(&mut lines);
    assert_eq!(stripped, 2);
    assert_eq!(lines, vec![bv("x")]);
}

#[test]
fn shared_prefix_empty_line_stops_stripping() {
    let mut lines = vec![bv("  a"), bv("")];
    let stripped = remove_shared_prefix(&mut lines);
    assert_eq!(stripped, 0);
    assert_eq!(lines, vec![bv("  a"), bv("")]);
}

#[test]
fn join_lines_single_newline_separator() {
    let lines = vec![bv("a"), bv(""), bv("c")];
    assert_eq!(join_lines(&lines), bv("a\n\nc"));
    assert_eq!(join_lines(&Vec::new()), bv(""));
}

#[test]
fn merge_static_then_conditional_keeps_static_as_default() {
    let mut table: Vec<(Vec<u8>, Term)> = Vec::new();
    merge_term(&mut table, bv("k"), Term::Static(bv("A")));
    merge_term(
        &mut table,
        bv("k"),
        Term::Conditional { for_docs: None, release: Some(bv("B")), default: None },
    );
    let term = table_get(&table, b"k").expect("the key stays bound");
    match term {
        Term::Conditional { for_docs, release, default } => {
            assert_eq!(for_docs, &None);
            assert_eq!(release, &Some(bv("B")));
            assert_eq!(default, &Some(bv("A")));
        },
        Term::Static(_) => panic!("a conditional term must not collapse to static"),
    }
}

#[test]
fn merge_static_replaces_wholesale() {
    let mut table: Vec<(Vec<u8>, Term)> = Vec::new();
    merge_term(
        &mut table,
        bv("k"),
        Term::Conditional { for_docs: Some(bv("D")), release: None, default: None },
    );
    merge_term(&mut table, bv("k"), Term::Static(bv("S")));
    match table_get(&table, b"k").expect("bound") {
        Term::Static(value) => assert_eq!(value, &bv("S")),
        _ => panic!("an incoming static term replaces the existing term"),
    }
}

#[test]
fn merge_conditional_overrides_field_by_field() {
    let mut table: Vec<(Vec<u8>, Term)> = Vec::new();
    merge_term(
        &mut table,
        bv("k"),
        Term::Conditional { for_docs: Some(bv("D1")), release: Some(bv("R1")), default: Some(bv("X1")) },
    );
    merge_term(
        &mut table,
        bv("k"),
        Term::Conditional { for_docs: None, release: Some(bv("R2")), default: None },
    );
    match table_get(&table, b"k").expect("bound") {
        Term::Conditional { for_docs, release, default } => {
            assert_eq!(for_docs, &Some(bv("D1")));
            assert_eq!(release, &Some(bv("R2")));
            assert_eq!(default, &Some(bv("X1")));
        },
        _ => panic!("both conditional: the result stays conditional"),
    }
}

#[test]
fn conditional_term_renders_by_context() {
    let term = Term::Conditional {
        for_docs: Some(bv("D")),
        release: Some(bv("R")),
        default: Some(bv("X")),
    };
    assert_eq!(term.to_string(Context { for_docs: true, release: true }), bv("D"));
    assert_eq!(term.to_string(Context { for_docs: true, release: false }), bv("D"));
    assert_eq!(term.to_string(Context { for_docs: false, release: true }), bv("R"));
    assert_eq!(term.to_string(Context { for_docs: false, release: false }), bv("X"));
}

#[test]
fn conditional_term_with_no_fields_renders_empty() {
    let term = Term::Conditional { for_docs: None, release: None, default: None };
    assert_eq!(term.to_string(Context { for_docs: true, release: true }), bv(""));
}

#[test]
fn static_term_ignores_context() {
    let term = Term::Static(bv("same"));
    assert_eq!(term.to_string(Context { for_docs: true, release: false }), bv("same"));
    assert_eq!(term.to_string(Context { for_docs: false, release: false }), bv("same"));
}

#[test]
fn glossary_location_names_source() {
    assert_eq!(Glossary::External(bv("https://x/terms.ron")).location(), bv("https://x/terms.ron"));
    assert_eq!(Glossary::Inline(Vec::new()).location(), bv("(inline)"));
}

#[test]
fn snippets_extract_named_region() {
    let content = bv(
        "fn main() {\n// begin rustme snippet: demo\n    let x = 1;\n// end rustme snippet\n}\n",
    );
    let mut store = Snippets::new();
    load_snippets(b"src/main.rs", content.as_slice(), &mut store).expect("well formed");
    let file = store.get_file(b"src/main.rs").expect("loaded");
    assert_eq!(file.whole, content);
    assert_eq!(file.regions.len(), 1);
    assert_eq!(file.regions[0].0, bv("demo"));
    assert_eq!(file.regions[0].1, bv("let x = 1;"));
}

#[test]
fn snippets_strip_shared_comment_column() {
    let content = bv("begin rustme snippet: doc\n# alpha\n# beta\nend rustme snippet\n");
    let mut store = Snippets::new();
    load_snippets(b"f", content.as_slice(), &mut store).expect("well formed");
    let file = store.get_file(b"f").expect("loaded");
    assert_eq!(file.regions[0].1, bv("alpha\nbeta"));
}

#[test]
fn duplicate_snippet_name_fails_naming_it() {
    let content = bv(
        "begin rustme snippet: x\na\nend rustme snippet\nbegin rustme snippet: x\nb\nend rustme snippet\n",
    );
    let mut store = Snippets::new();
    match load_snippets(b"f", content.as_slice(), &mut store) {
        Err(Error::SnippetAlreadyDefined(name)) => assert_eq!(name, bv("x")),
        _ => panic!("two regions named x must fail with the duplicate-name error"),
    }
}

#[test]
fn end_marker_without_begin_is_malformed() {
    let content = bv("plain line\nend rustme snippet\n");
    let mut store = Snippets::new();
    assert!(matches!(
        load_snippets(b"f", content.as_slice(), &mut store),
        Err(Error::MalformedSnippet)
    ));
}

#[test]
fn second_begin_discards_open_region() {
    let content = bv(
        "begin rustme snippet: a\nlost\nbegin rustme snippet: b\nkept\nend rustme snippet\n",
    );
    let mut store = Snippets::new();
    load_snippets(b"f", content.as_slice(), &mut store).expect("last start wins");
    let file = store.get_file(b"f").expect("loaded");
    assert_eq!(file.regions.len(), 1);
    assert_eq!(file.regions[0].0, bv("b"));
    assert_eq!(file.regions[0].1, bv("kept"));
}

#[test]
fn unclosed_region_is_dropped() {
    let content = bv("begin rustme snippet: open\nnever closed\n");
    let mut store = Snippets::new();
    load_snippets(b"f", content.as_slice(), &mut store).expect("no error at end of input");
    assert_eq!(store.get_file(b"f").expect("loaded").regions.len(), 0);
}

#[test]
fn whole_file_contains_unstripped_region_not_stripped_one() {
    let content = bv("begin rustme snippet: x\n  a\n  b\nend rustme snippet\n");
    let mut store = Snippets::new();
    load_snippets(b"f", content.as_slice(), &mut store).expect("well formed");
    let file = store.get_file(b"f").expect("loaded");
    // the named region is stripped
    assert_eq!(file.regions[0].1, bv("a\nb"));
    // the whole-file entry holds the raw text, which contains the region's
    // unstripped lines verbatim, not the stripped extract
    let contains = |hay: &[u8], needle: &[u8]| {
        rustme::bytes::find_subslice(hay, needle).is_some()
    };
    assert!(contains(&file.whole, b"  a\n  b"));
    assert!(!contains(&file.whole, b"a\nb"));
}

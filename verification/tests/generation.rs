use rustme::cache::{Cache, CacheKey, Fetched, Halt, ParsedGlossary, Request};
use rustme::config::{
    config_path_for_entry, Configuration, File, FileConfiguration, Generation,
};
use rustme::error::Error;
use rustme::glossary::Glossary;
use rustme::markdown::{preprocess_rust_codeblocks, process_markdown, replace_references};
use rustme::snippet::{load_snippet, Snippets};
use rustme::term::{Context, Term};

fn bv(s: &str) -> Vec<u8> {
    s.as_bytes().to_vec()
}

fn ctx() -> Context {
    Context { for_docs: false, release: false }
}

fn cached(entries: &[(&str, Fetched)]) -> Cache {
    let mut cache = Cache::new();
    for (path, fetched) in entries {
        let value = match fetched {
            Fetched::Found(text) => Fetched::Found(text.clone()),
            Fetched::Missing => Fetched::Missing,
            Fetched::Failed(reason) => Fetched::Failed(reason.clone()),
        };
        cache.insert_resource(CacheKey::Path(bv(path)), value);
    }
    cache
}

#[test]
fn escaped_dollar_resolves_to_one_dollar() {
    let mut store = Snippets::new();
    let table: Vec<(Vec<u8>, Term)> = Vec::new();
    let cache = Cache::new();
    let out = replace_references(b"a $$ b", b".", &mut store, &table, ctx(), &cache)
        .expect("an empty token is an escape");
    assert_eq!(out, bv("a $ b"));
}

#[test]
fn unterminated_token_is_malformed() {
    let mut store = Snippets::new();
    let table: Vec<(Vec<u8>, Term)> = Vec::new();
    let cache = Cache::new();
    match replace_references(b"a $b", b".", &mut store, &table, ctx(), &cache) {
        Err(Halt::Fail(Error::MalformedCodeBlock)) => {},
        _ => panic!("a reference without its closing delimiter must fail"),
    }
}

#[test]
fn glossary_term_wins_over_snippets() {
    let mut store = Snippets::new();
    let table = vec![(bv("name"), Term::Static(bv("value")))];
    let cache = Cache::new();
    let out = replace_references(b"<$name$>", b".", &mut store, &table, ctx(), &cache)
        .expect("a bound term needs no snippet");
    assert_eq!(out, bv("<value>"));
}

#[test]
fn unknown_reference_is_resolved_as_snippet() {
    let mut store = Snippets::new();
    let table: Vec<(Vec<u8>, Term)> = Vec::new();
    let cache = cached(&[(
        "./lib.rs",
        Fetched::Found(bv("begin rustme snippet: hi\nworld\nend rustme snippet\n")),
    )]);
    let out = replace_references(b"hello $lib.rs:hi$", b".", &mut store, &table, ctx(), &cache)
        .expect("the snippet resolves");
    assert_eq!(out, bv("hello world"));
}

#[test]
fn snippet_file_is_requested_before_it_is_read() {
    let mut store = Snippets::new();
    let table: Vec<(Vec<u8>, Term)> = Vec::new();
    let cache = Cache::new();
    match replace_references(b"$lib.rs:hi$", b".", &mut store, &table, ctx(), &cache) {
        Err(Halt::Need(Request::Fetch(CacheKey::Path(path)))) => assert_eq!(path, bv("./lib.rs")),
        _ => panic!("a file not yet cached must be requested"),
    }
}

#[test]
fn missing_snippet_file_reports_the_reference() {
    let mut store = Snippets::new();
    let cache = cached(&[("./lib.rs", Fetched::Missing)]);
    match load_snippet(b"lib.rs:hi", b".", &mut store, &cache) {
        Err(Halt::Fail(Error::SnippetNotFound(reference))) => assert_eq!(reference, bv("lib.rs")),
        _ => panic!("a missing source file is a broken reference"),
    }
}

#[test]
fn unknown_region_reports_the_full_reference() {
    let mut store = Snippets::new();
    let cache = cached(&[("./lib.rs", Fetched::Found(bv("no markers here\n")))]);
    match load_snippet(b"lib.rs:nope", b".", &mut store, &cache) {
        Err(Halt::Fail(Error::SnippetNotFound(reference))) => {
            assert_eq!(reference, bv("lib.rs:nope"))
        },
        _ => panic!("an absent region is a broken reference"),
    }
}

#[test]
fn whole_file_reference_returns_raw_text() {
    let mut store = Snippets::new();
    let content = bv("begin rustme snippet: x\n  inner\nend rustme snippet\n");
    let cache = cached(&[("./lib.rs", Fetched::Found(content.clone()))]);
    let direct = load_snippet(b"lib.rs:x", b".", &mut store, &cache).expect("region");
    assert_eq!(direct, bv("inner"));
    let whole = load_snippet(b"lib.rs", b".", &mut store, &cache).expect("whole file");
    assert_eq!(whole, content);
}

#[test]
fn unreadable_snippet_file_keeps_its_reason() {
    let mut store = Snippets::new();
    let cache = cached(&[("./lib.rs", Fetched::Failed(bv("permission denied")))]);
    match load_snippet(b"lib.rs", b".", &mut store, &cache) {
        Err(Halt::Fail(Error::Io(reason))) => assert_eq!(reason, bv("permission denied")),
        _ => panic!("a read failure is not a broken reference"),
    }
}

#[test]
fn rust_fence_drops_hidden_lines() {
    let input = bv("intro\n```rust\n# use std::fmt;\nlet x = 1;\n```\noutro\n");
    let out = preprocess_rust_codeblocks(input.as_slice()).expect("the fence closes");
    assert_eq!(out, bv("intro\n```rust\nlet x = 1;\n```\noutro\n"));
}

#[test]
fn indented_closing_fence_ends_the_block() {
    let input = bv("```rust\ncode\n  ```\n");
    let out = preprocess_rust_codeblocks(input.as_slice()).expect("the fence closes");
    assert_eq!(out, bv("```rust\ncode\n  ```\n"));
}

#[test]
fn other_fences_pass_through() {
    let input = bv("```text\n# kept\n```\n");
    let out = preprocess_rust_codeblocks(input.as_slice()).expect("nothing to rewrite");
    assert_eq!(out, input);
}

#[test]
fn unclosed_rust_fence_is_malformed() {
    let input = bv("```rust\nno end\n");
    assert!(matches!(
        preprocess_rust_codeblocks(input.as_slice()),
        Err(Error::MalformedCodeBlock)
    ));
}

#[test]
fn process_markdown_substitutes_then_rewrites() {
    let mut store = Snippets::new();
    let table = vec![(bv("code"), Term::Static(bv("```rust\n# hidden\nshown\n```\n")))];
    let cache = Cache::new();
    let out = process_markdown(b"$code$", b".", &mut store, &table, ctx(), &cache)
        .expect("the inserted fence is rewritten");
    assert_eq!(out, bv("```rust\nshown\n```\n"));
}

fn plain_config() -> Configuration {
    Configuration {
        relative_to: bv("."),
        files: vec![(
            bv("README.md"),
            FileConfiguration::Sections(vec![bv("a.md"), bv("b.md")]),
        )],
        glossaries: Vec::new(),
    }
}

#[test]
fn round_trip_without_tokens() {
    let config = plain_config();
    let cache = cached(&[
        ("./a.md", Fetched::Found(bv("first section\n"))),
        ("./b.md", Fetched::Found(bv("second section\n"))),
    ]);
    match config.generate_with_cache(false, &cache).expect("nothing fails") {
        Generation::Complete(outputs) => {
            assert_eq!(outputs.len(), 1);
            assert_eq!(outputs[0].name, bv("README.md"));
            assert_eq!(outputs[0].content, bv("first section\n\nsecond section\n"));
        },
        Generation::Need(_) => panic!("everything is cached"),
    }
}

#[test]
fn generation_is_idempotent() {
    let config = plain_config();
    let cache = cached(&[
        ("./a.md", Fetched::Found(bv("alpha\n"))),
        ("./b.md", Fetched::Found(bv("beta\n"))),
    ]);
    let first = match config.generate_with_cache(true, &cache).expect("ok") {
        Generation::Complete(outputs) => outputs,
        Generation::Need(_) => panic!("everything is cached"),
    };
    let second = match config.generate_with_cache(true, &cache).expect("ok") {
        Generation::Complete(outputs) => outputs,
        Generation::Need(_) => panic!("everything is cached"),
    };
    assert_eq!(first.len(), second.len());
    for (a, b) in first.iter().zip(second.iter()) {
        assert_eq!(a.name, b.name);
        assert_eq!(a.content, b.content);
    }
}

#[test]
fn generation_requests_sections_first() {
    let config = plain_config();
    match config.generate(false).expect("a request is not an error") {
        Generation::Need(Request::Fetch(CacheKey::Path(path))) => assert_eq!(path, bv("./a.md")),
        _ => panic!("an empty cache must yield a fetch request"),
    }
}

#[test]
fn missing_section_is_a_broken_reference() {
    let config = plain_config();
    let cache = cached(&[
        ("./a.md", Fetched::Missing),
        ("./b.md", Fetched::Found(bv("beta\n"))),
    ]);
    match config.generate_with_cache(false, &cache) {
        Err(Error::SnippetNotFound(section)) => assert_eq!(section, bv("a.md")),
        _ => panic!("a missing section names itself"),
    }
}

#[test]
fn failed_local_read_is_an_io_error() {
    let config = plain_config();
    let cache = cached(&[
        ("./a.md", Fetched::Failed(bv("disk on fire"))),
    ]);
    match config.generate_with_cache(false, &cache) {
        Err(Error::Io(reason)) => assert_eq!(reason, bv("disk on fire")),
        _ => panic!("a failed read keeps its reason"),
    }
}

#[test]
fn failed_remote_fetch_is_an_http_error() {
    let config = Configuration {
        relative_to: bv("."),
        files: vec![(
            bv("README.md"),
            FileConfiguration::Sections(vec![bv("https://example.invalid/s.md")]),
        )],
        glossaries: Vec::new(),
    };
    let mut cache = Cache::new();
    cache.insert_resource(
        CacheKey::Url(bv("https://example.invalid/s.md")),
        Fetched::Failed(bv("connection refused")),
    );
    match config.generate_with_cache(false, &cache) {
        Err(Error::Http(reason)) => assert_eq!(reason, bv("connection refused")),
        _ => panic!("a failed fetch keeps its reason"),
    }
}

#[test]
fn file_glossary_overrides_configuration_glossary() {
    let config = Configuration {
        relative_to: bv("."),
        files: vec![(
            bv("README.md"),
            FileConfiguration::File(File {
                for_docs: true,
                sections: vec![bv("a.md")],
                glossaries: vec![Glossary::Inline(vec![(bv("who"), Term::Static(bv("file")))])],
            }),
        )],
        glossaries: vec![Glossary::Inline(vec![(bv("who"), Term::Static(bv("config")))])],
    };
    let cache = cached(&[("./a.md", Fetched::Found(bv("by $who$")))]);
    match config.generate_with_cache(false, &cache).expect("ok") {
        Generation::Complete(outputs) => assert_eq!(outputs[0].content, bv("by file")),
        Generation::Need(_) => panic!("everything is cached"),
    }
}

#[test]
fn external_glossary_is_fetched_then_parsed_then_used() {
    let config = Configuration {
        relative_to: bv("."),
        files: vec![(bv("README.md"), FileConfiguration::Sections(vec![bv("a.md")]))],
        glossaries: vec![Glossary::External(bv("terms.ron"))],
    };
    let mut cache = cached(&[("./a.md", Fetched::Found(bv("hi $name$")))]);
    match config.generate_with_cache(false, &cache).expect("a request comes first") {
        Generation::Need(Request::Fetch(CacheKey::Path(path))) => assert_eq!(path, bv("./terms.ron")),
        _ => panic!("the glossary must be fetched first"),
    }
    cache.insert_resource(CacheKey::Path(bv("./terms.ron")), Fetched::Found(bv("{}")));
    match config.generate_with_cache(false, &cache).expect("a parse comes next") {
        Generation::Need(Request::ParseGlossary(CacheKey::Path(path))) => {
            assert_eq!(path, bv("./terms.ron"))
        },
        _ => panic!("the fetched glossary must be parsed"),
    }
    cache.insert_glossary(
        CacheKey::Path(bv("./terms.ron")),
        ParsedGlossary::Terms(vec![(bv("name"), Term::Static(bv("you")))]),
    );
    match config.generate_with_cache(false, &cache).expect("ok") {
        Generation::Complete(outputs) => assert_eq!(outputs[0].content, bv("hi you")),
        Generation::Need(_) => panic!("everything is cached"),
    }
}

#[test]
fn missing_external_glossary_names_its_location() {
    let config = Configuration {
        relative_to: bv("."),
        files: vec![(bv("README.md"), FileConfiguration::Sections(vec![bv("a.md")]))],
        glossaries: vec![Glossary::External(bv("terms.ron"))],
    };
    let cache = cached(&[("./terms.ron", Fetched::Missing)]);
    match config.generate_with_cache(false, &cache) {
        Err(Error::Glossary { location, error }) => {
            assert_eq!(location, bv("terms.ron"));
            assert_eq!(error, bv("not found"));
        },
        _ => panic!("an absent glossary is a glossary error"),
    }
}

#[test]
fn malformed_external_glossary_names_its_location() {
    let config = Configuration {
        relative_to: bv("."),
        files: vec![(bv("README.md"), FileConfiguration::Sections(vec![bv("a.md")]))],
        glossaries: vec![Glossary::External(bv("terms.ron"))],
    };
    let mut cache = cached(&[("./terms.ron", Fetched::Found(bv("not ron at all")))]);
    cache.insert_glossary(
        CacheKey::Path(bv("./terms.ron")),
        ParsedGlossary::Malformed(bv("expected a map")),
    );
    match config.generate_with_cache(false, &cache) {
        Err(Error::Glossary { location, error }) => {
            assert_eq!(location, bv("terms.ron"));
            assert_eq!(error, bv("expected a map"));
        },
        _ => panic!("a glossary that does not parse is a glossary error"),
    }
}

#[test]
fn duplicate_snippet_fails_generation() {
    let config = Configuration {
        relative_to: bv("."),
        files: vec![(bv("README.md"), FileConfiguration::Sections(vec![bv("a.md")]))],
        glossaries: Vec::new(),
    };
    let cache = cached(&[
        ("./a.md", Fetched::Found(bv("$src.rs:x$"))),
        (
            "./src.rs",
            Fetched::Found(bv(
                "begin rustme snippet: x\na\nend rustme snippet\nbegin rustme snippet: x\nb\nend rustme snippet\n",
            )),
        ),
    ]);
    match config.generate_with_cache(false, &cache) {
        Err(Error::SnippetAlreadyDefined(name)) => assert_eq!(name, bv("x")),
        _ => panic!("two regions named x fail generation"),
    }
}

#[test]
fn snippet_files_are_read_once_per_run() {
    // two sections referencing the same source: the second resolves from the
    // store without a second fetch request, even though the cache was only
    // ever asked once
    let config = Configuration {
        relative_to: bv("."),
        files: vec![(
            bv("README.md"),
            FileConfiguration::Sections(vec![bv("a.md"), bv("b.md")]),
        )],
        glossaries: Vec::new(),
    };
    let cache = cached(&[
        ("./a.md", Fetched::Found(bv("$s.rs:one$"))),
        ("./b.md", Fetched::Found(bv("$s.rs:two$"))),
        (
            "./s.rs",
            Fetched::Found(bv(
                "begin rustme snippet: one\n1\nend rustme snippet\nbegin rustme snippet: two\n2\nend rustme snippet\n",
            )),
        ),
    ]);
    match config.generate_with_cache(false, &cache).expect("ok") {
        Generation::Complete(outputs) => {
            assert_eq!(outputs[0].content, bv("1\n2"));
        },
        Generation::Need(_) => panic!("everything is cached"),
    }
}

#[test]
fn for_docs_flag_selects_documentation_text() {
    let config = Configuration {
        relative_to: bv("."),
        files: vec![(
            bv("README.md"),
            FileConfiguration::File(File {
                for_docs: true,
                sections: vec![bv("a.md")],
                glossaries: Vec::new(),
            }),
        )],
        glossaries: vec![Glossary::Inline(vec![(
            bv("t"),
            Term::Conditional {
                for_docs: Some(bv("docs")),
                release: Some(bv("release")),
                default: Some(bv("plain")),
            },
        )])],
    };
    let cache = cached(&[("./a.md", Fetched::Found(bv("$t$")))]);
    match config.generate_with_cache(true, &cache).expect("ok") {
        Generation::Complete(outputs) => assert_eq!(outputs[0].content, bv("docs")),
        Generation::Need(_) => panic!("everything is cached"),
    }
}

#[test]
fn cache_keeps_first_recorded_outcome() {
    let mut cache = Cache::new();
    cache.insert_resource(CacheKey::Path(bv("p")), Fetched::Found(bv("first")));
    cache.insert_resource(CacheKey::Path(bv("p")), Fetched::Found(bv("second")));
    match cache.lookup_resource(&CacheKey::Path(bv("p"))) {
        Some(Fetched::Found(text)) => assert_eq!(text, &bv("first")),
        _ => panic!("the entry stays"),
    }
}

#[test]
fn config_paths_are_recognized() {
    assert_eq!(
        config_path_for_entry(b"./sub/.rustme.ron", b".rustme.ron", false),
        Some(bv("./sub/.rustme.ron"))
    );
    assert_eq!(
        config_path_for_entry(b"./sub/.rustme", b".rustme", true),
        Some(bv("./sub/.rustme/config.ron"))
    );
    assert_eq!(config_path_for_entry(b"./sub/.rustme", b".rustme", false), None);
    assert_eq!(config_path_for_entry(b"./README.md", b"README.md", false), None);
}

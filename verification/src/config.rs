//! The configuration and the generation driver.
//!
//! A configuration maps each output file name to its sections and glossaries.
//! Generation resolves every section against the cache, substitutes its
//! references, rewrites its fenced rust blocks, and joins the sections with
//! blank lines. The engine is pure: it either completes with every output
//! file's content, stops with a request the surrounding program must serve,
//! or fails with the error generation ends with.

use vstd::prelude::*;

use crate::bytes::{
    clone_bytes, config_dir_name, config_dir_name_bytes, config_file_name, config_file_name_bytes,
    config_inner_name, config_inner_name_bytes, http_prefix, http_prefix_bytes, https_prefix,
    https_prefix_bytes, join_path, join_path_spec, not_found_text, not_found_text_bytes, starts_with,
};
use crate::cache::{
    assoc_find, halted, table_view, Cache, CacheKey, Fetched, FetchedView, Halt, HaltView, KeyView,
    Outcome, ParsedGlossary, ParsedView, Request, RequestView,
};
use crate::error::{Error, ErrorView};
use crate::glossary::{merge_table, table_duplicate, table_merge_all, Glossary, GlossaryView};
use crate::markdown::{process_markdown, process_spec};
use crate::scanner::NEWLINE;
use crate::snippet::{FileSnippetsView, Snippets};
use crate::term::{Context, Term, TermView};

verus! {

/// The view of a list of section references.
pub open spec fn sections_view(sections: Seq<Vec<u8>>) -> Seq<Seq<u8>> {
    sections.map_values(|s: Vec<u8>| s@)
}

/// The view of a list of glossaries.
pub open spec fn glossaries_view(glossaries: Seq<Glossary>) -> Seq<GlossaryView> {
    glossaries.map_values(|g: Glossary| g@)
}

/// A full file specification: its sections, whether the output targets
/// documentation, and the file-scoped glossaries that override the
/// configuration's.
#[derive(Debug)]
pub struct File {
    /// True when the output is meant for rendered documentation.
    pub for_docs: bool,
    /// The section references that compose the file, in order.
    pub sections: Vec<Vec<u8>>,
    /// Glossaries that take precedence over the configuration's.
    pub glossaries: Vec<Glossary>,
}

/// The mathematical shape of a [`File`].
pub ghost struct FileView {
    /// True when the output is meant for rendered documentation.
    pub for_docs: bool,
    /// The section references that compose the file.
    pub sections: Seq<Seq<u8>>,
    /// Glossaries that take precedence over the configuration's.
    pub glossaries: Seq<GlossaryView>,
}

impl View for File {
    type V = FileView;

    open spec fn view(&self) -> FileView {
        FileView {
            for_docs: self.for_docs,
            sections: sections_view(self.sections@),
            glossaries: glossaries_view(self.glossaries@),
        }
    }
}

/// How one output file is configured: a bare list of sections, or a full
/// specification.
#[derive(Debug)]
pub enum FileConfiguration {
    /// Just the sections, with every other field at its default.
    Sections(Vec<Vec<u8>>),
    /// A full file specification.
    File(File),
}

/// The mathematical shape of a [`FileConfiguration`].
pub ghost enum FileConfigurationView {
    /// Just the sections.
    Sections(Seq<Seq<u8>>),
    /// A full file specification.
    File(FileView),
}

impl View for FileConfiguration {
    type V = FileConfigurationView;

    open spec fn view(&self) -> FileConfigurationView {
        match *self {
            FileConfiguration::Sections(sections) => FileConfigurationView::Sections(
                sections_view(sections@),
            ),
            FileConfiguration::File(file) => FileConfigurationView::File(file@),
        }
    }
}

/// The file specification a configuration entry stands for: a bare section
/// list keeps every other field at its default.
pub open spec fn file_of(config: FileConfigurationView) -> FileView {
    match config {
        FileConfigurationView::Sections(sections) => FileView {
            for_docs: false,
            sections,
            glossaries: Seq::empty(),
        },
        FileConfigurationView::File(file) => file,
    }
}

/// A fresh copy of a list of sections.
fn duplicate_sections(sections: &Vec<Vec<u8>>) -> (r: Vec<Vec<u8>>)
    ensures
        sections_view(r@) == sections_view(sections@),
{
    let n = sections.len();
    let mut out: Vec<Vec<u8>> = Vec::new();
    let mut i: usize = 0;
    while i < n
        invariant
            n == sections@.len(),
            0 <= i <= n,
            out@.len() == i,
            forall|j: int| 0 <= j < i ==> (#[trigger] out@[j])@ == sections@[j]@,
        decreases n - i,
    {
        out.push(clone_bytes(sections[i].as_slice()));
        i += 1;
    }
    proof {
        assert(sections_view(out@) =~= sections_view(sections@));
    }
    out
}

impl Glossary {
    /// A fresh copy of this glossary.
    pub fn duplicate(&self) -> (r: Glossary)
        ensures
            r@ == self@,
    {
        match self {
            Glossary::External(reference) => Glossary::External(clone_bytes(reference.as_slice())),
            Glossary::Inline(entries) => {
                let copied = table_duplicate(entries);
                proof {
                    assert(table_view(copied@) =~= table_view(entries@));
                }
                Glossary::Inline(copied)
            },
        }
    }
}

/// A fresh copy of a list of glossaries.
fn duplicate_glossaries(glossaries: &Vec<Glossary>) -> (r: Vec<Glossary>)
    ensures
        glossaries_view(r@) == glossaries_view(glossaries@),
{
    let n = glossaries.len();
    let mut out: Vec<Glossary> = Vec::new();
    let mut i: usize = 0;
    while i < n
        invariant
            n == glossaries@.len(),
            0 <= i <= n,
            out@.len() == i,
            forall|j: int| 0 <= j < i ==> (#[trigger] out@[j])@ == glossaries@[j]@,
        decreases n - i,
    {
        out.push(glossaries[i].duplicate());
        i += 1;
    }
    proof {
        assert(glossaries_view(out@) =~= glossaries_view(glossaries@));
    }
    out
}

impl File {
    /// The file specification a configuration entry stands for, as
    /// [`file_of`] describes.
    pub fn from_config(config: &FileConfiguration) -> (r: File)
        ensures
            r@ == file_of(config@),
    {
        match config {
            FileConfiguration::Sections(sections) => {
                let file = File {
                    for_docs: false,
                    sections: duplicate_sections(sections),
                    glossaries: Vec::new(),
                };
                proof {
                    assert(glossaries_view(file.glossaries@) =~= Seq::<GlossaryView>::empty());
                }
                file
            },
            FileConfiguration::File(file) => File {
                for_docs: file.for_docs,
                sections: duplicate_sections(&file.sections),
                glossaries: duplicate_glossaries(&file.glossaries),
            },
        }
    }
}

/// A configuration: each output file's specification, the default
/// glossaries, and the directory every relative reference resolves against.
#[derive(Debug)]
pub struct Configuration {
    /// The directory the configuration was loaded from.
    pub relative_to: Vec<u8>,
    /// Each output file's name and specification, in order.
    pub files: Vec<(Vec<u8>, FileConfiguration)>,
    /// Glossaries available to every file.
    pub glossaries: Vec<Glossary>,
}

/// The mathematical shape of a [`Configuration`].
pub ghost struct ConfigurationView {
    /// The directory the configuration was loaded from.
    pub relative_to: Seq<u8>,
    /// Each output file's name and specification.
    pub files: Seq<(Seq<u8>, FileConfigurationView)>,
    /// Glossaries available to every file.
    pub glossaries: Seq<GlossaryView>,
}

impl View for Configuration {
    type V = ConfigurationView;

    open spec fn view(&self) -> ConfigurationView {
        ConfigurationView {
            relative_to: self.relative_to@,
            files: self.files@.map_values(|e: (Vec<u8>, FileConfiguration)| (e.0@, e.1@)),
            glossaries: glossaries_view(self.glossaries@),
        }
    }
}

/// Whether a reference is a remote URL.
pub open spec fn is_url_ref(reference: Seq<u8>) -> bool {
    (http_prefix().len() <= reference.len() && reference.take(http_prefix().len() as int)
        == http_prefix()) || (https_prefix().len() <= reference.len() && reference.take(
        https_prefix().len() as int,
    ) == https_prefix())
}

/// The cache key a reference is read under: a URL stands alone, a path is
/// resolved against the configuration's directory.
pub open spec fn resource_key(base: Seq<u8>, reference: Seq<u8>) -> KeyView {
    if is_url_ref(reference) {
        KeyView::Url(reference)
    } else {
        KeyView::Path(join_path_spec(base, reference))
    }
}

/// Executable form of [`resource_key`].
pub fn make_resource_key(base: &[u8], reference: &[u8]) -> (key: CacheKey)
    ensures
        key@ == resource_key(base@, reference@),
{
    let http = http_prefix_bytes();
    let https = https_prefix_bytes();
    if starts_with(reference, http.as_slice()) || starts_with(reference, https.as_slice()) {
        CacheKey::Url(clone_bytes(reference))
    } else {
        CacheKey::Path(join_path(base, reference))
    }
}

/// What fetching one section comes to: its text, a fetch request, or the
/// failure its absence gives — a missing section is a broken reference, and
/// any other failure keeps its reported reason under the key's transport.
pub open spec fn section_text(
    base: Seq<u8>,
    section: Seq<u8>,
    resources: Seq<(KeyView, FetchedView)>,
) -> Outcome<Seq<u8>> {
    let key = resource_key(base, section);
    match assoc_find(resources, key) {
        None => Outcome::Need(RequestView::Fetch(key)),
        Some(FetchedView::Found(text)) => Outcome::Done(text),
        Some(FetchedView::Missing) => Outcome::Fail(ErrorView::SnippetNotFound(section)),
        Some(FetchedView::Failed(reason)) => Outcome::Fail(
            match key {
                KeyView::Url(_) => ErrorView::Http(reason),
                KeyView::Path(_) => ErrorView::Io(reason),
            },
        ),
    }
}

/// Fetches one section's text from the cache, as [`section_text`] describes.
fn fetch_section(section: &[u8], base: &[u8], cache: &Cache) -> (r: Result<Vec<u8>, Halt>)
    ensures
        match r {
            Ok(text) => section_text(base@, section@, cache@.resources) == Outcome::Done(text@),
            Err(halt) => section_text(base@, section@, cache@.resources) == halted::<Seq<u8>>(
                halt@,
            ),
        },
{
    let key = make_resource_key(base, section);
    match cache.lookup_resource(&key) {
        None => Err(Halt::Need(Request::Fetch(key))),
        Some(Fetched::Found(text)) => Ok(clone_bytes(text.as_slice())),
        Some(Fetched::Missing) => Err(Halt::Fail(Error::SnippetNotFound(clone_bytes(section)))),
        Some(Fetched::Failed(reason)) => {
            let message = clone_bytes(reason.as_slice());
            match key {
                CacheKey::Url(_) => Err(Halt::Fail(Error::Http(message))),
                CacheKey::Path(_) => Err(Halt::Fail(Error::Io(message))),
            }
        },
    }
}

/// Why loading one glossary stops, if it does: its resource must be fetched,
/// then parsed; a missing or unreadable resource, or a failed parse, wraps
/// the reason with the glossary's location.
pub open spec fn glossary_halt(
    glossary: GlossaryView,
    base: Seq<u8>,
    resources: Seq<(KeyView, FetchedView)>,
    parsed: Seq<(KeyView, ParsedView)>,
) -> Option<HaltView> {
    match glossary {
        GlossaryView::Inline(_) => None,
        GlossaryView::External(reference) => {
            let key = resource_key(base, reference);
            match assoc_find(resources, key) {
                None => Some(HaltView::Need(RequestView::Fetch(key))),
                Some(FetchedView::Found(_)) => match assoc_find(parsed, key) {
                    None => Some(HaltView::Need(RequestView::ParseGlossary(key))),
                    Some(ParsedView::Terms(_)) => None,
                    Some(ParsedView::Malformed(reason)) => Some(
                        HaltView::Fail(ErrorView::Glossary { location: reference, error: reason }),
                    ),
                },
                Some(FetchedView::Missing) => Some(
                    HaltView::Fail(
                        ErrorView::Glossary { location: reference, error: not_found_text() },
                    ),
                ),
                Some(FetchedView::Failed(reason)) => Some(
                    HaltView::Fail(ErrorView::Glossary { location: reference, error: reason }),
                ),
            }
        },
    }
}

/// The table one glossary contributes, once nothing halts it.
pub open spec fn glossary_table(
    glossary: GlossaryView,
    base: Seq<u8>,
    resources: Seq<(KeyView, FetchedView)>,
    parsed: Seq<(KeyView, ParsedView)>,
) -> Seq<(Seq<u8>, TermView)> {
    match glossary {
        GlossaryView::Inline(entries) => entries,
        GlossaryView::External(reference) => match assoc_find(parsed, resource_key(base, reference)) {
            Some(ParsedView::Terms(entries)) => entries,
            _ => Seq::empty(),
        },
    }
}

/// Why loading a list of glossaries stops, if it does: the first halting
/// glossary decides.
pub open spec fn glossaries_halt(
    glossaries: Seq<GlossaryView>,
    base: Seq<u8>,
    resources: Seq<(KeyView, FetchedView)>,
    parsed: Seq<(KeyView, ParsedView)>,
) -> Option<HaltView>
    decreases glossaries.len(),
{
    if glossaries.len() == 0 {
        None
    } else {
        match glossary_halt(glossaries[0], base, resources, parsed) {
            Some(halt) => Some(halt),
            None => glossaries_halt(glossaries.skip(1), base, resources, parsed),
        }
    }
}

/// The table a list of glossaries builds over `t0`, merged left to right.
pub open spec fn combined_table(
    glossaries: Seq<GlossaryView>,
    base: Seq<u8>,
    resources: Seq<(KeyView, FetchedView)>,
    parsed: Seq<(KeyView, ParsedView)>,
    t0: Seq<(Seq<u8>, TermView)>,
) -> Seq<(Seq<u8>, TermView)>
    decreases glossaries.len(),
{
    if glossaries.len() == 0 {
        t0
    } else {
        combined_table(
            glossaries.skip(1),
            base,
            resources,
            parsed,
            table_merge_all(t0, glossary_table(glossaries[0], base, resources, parsed)),
        )
    }
}

/// Merges one glossary's terms into `combined`, as [`glossary_halt`] and
/// [`glossary_table`] describe.
fn load_glossary_terms(
    glossary: &Glossary,
    base: &[u8],
    combined: &mut Vec<(Vec<u8>, Term)>,
    cache: &Cache,
) -> (r: Result<(), Halt>)
    ensures
        match r {
            Ok(()) => glossary_halt(glossary@, base@, cache@.resources, cache@.glossaries) is None
                && table_view(final(combined)@) == table_merge_all(
                table_view(old(combined)@),
                glossary_table(glossary@, base@, cache@.resources, cache@.glossaries),
            ),
            Err(halt) => glossary_halt(glossary@, base@, cache@.resources, cache@.glossaries)
                == Some(halt@) && final(combined)@ == old(combined)@,
        },
{
    match glossary {
        Glossary::Inline(entries) => {
            merge_table(combined, entries);
            Ok(())
        },
        Glossary::External(reference) => {
            let key = make_resource_key(base, reference.as_slice());
            match cache.lookup_resource(&key) {
                None => Err(Halt::Need(Request::Fetch(key))),
                Some(Fetched::Found(_)) => match cache.lookup_glossary(&key) {
                    None => Err(Halt::Need(Request::ParseGlossary(key))),
                    Some(ParsedGlossary::Terms(entries)) => {
                        merge_table(combined, entries);
                        Ok(())
                    },
                    Some(ParsedGlossary::Malformed(reason)) => Err(
                        Halt::Fail(
                            Error::Glossary {
                                location: clone_bytes(reference.as_slice()),
                                error: clone_bytes(reason.as_slice()),
                            },
                        ),
                    ),
                },
                Some(Fetched::Missing) => Err(
                    Halt::Fail(
                        Error::Glossary {
                            location: clone_bytes(reference.as_slice()),
                            error: not_found_text_bytes(),
                        },
                    ),
                ),
                Some(Fetched::Failed(reason)) => Err(
                    Halt::Fail(
                        Error::Glossary {
                            location: clone_bytes(reference.as_slice()),
                            error: clone_bytes(reason.as_slice()),
                        },
                    ),
                ),
            }
        },
    }
}

/// Merges every glossary of the list, in order, into `combined`, as
/// [`glossaries_halt`] and [`combined_table`] describe.
fn load_glossaries_into(
    glossaries: &Vec<Glossary>,
    base: &[u8],
    combined: &mut Vec<(Vec<u8>, Term)>,
    cache: &Cache,
) -> (r: Result<(), Halt>)
    ensures
        match r {
            Ok(()) => glossaries_halt(
                glossaries_view(glossaries@),
                base@,
                cache@.resources,
                cache@.glossaries,
            ) is None && table_view(final(combined)@) == combined_table(
                glossaries_view(glossaries@),
                base@,
                cache@.resources,
                cache@.glossaries,
                table_view(old(combined)@),
            ),
            Err(halt) => glossaries_halt(
                glossaries_view(glossaries@),
                base@,
                cache@.resources,
                cache@.glossaries,
            ) == Some(halt@),
        },
{
    let ghost gv = glossaries_view(glossaries@);
    let ghost t0 = table_view(old(combined)@);
    let n = glossaries.len();
    let mut i: usize = 0;
    proof {
        assert(gv.skip(0) =~= gv);
    }
    while i < n
        invariant
            gv == glossaries_view(glossaries@),
            n == glossaries@.len(),
            0 <= i <= n,
            glossaries_halt(gv, base@, cache@.resources, cache@.glossaries) == glossaries_halt(
                gv.skip(i as int),
                base@,
                cache@.resources,
                cache@.glossaries,
            ),
            combined_table(gv, base@, cache@.resources, cache@.glossaries, t0) == combined_table(
                gv.skip(i as int),
                base@,
                cache@.resources,
                cache@.glossaries,
                table_view(combined@),
            ),
            t0 == table_view(old(combined)@),
        decreases n - i,
    {
        let ghost before = gv.skip(i as int);
        match load_glossary_terms(&glossaries[i], base, combined, cache) {
            Ok(()) => {},
            Err(halt) => {
                return Err(halt);
            },
        }
        proof {
            assert(gv.skip(i as int).skip(1) =~= gv.skip(i as int + 1));
            assert(gv[i as int] == glossaries@[i as int]@);
        }
        i += 1;
    }
    proof {
        assert(gv.skip(n as int) =~= Seq::<GlossaryView>::empty());
    }
    Ok(())
}

/// What joining processed sections comes to: each section fetched and
/// processed in order, the results separated by single blank lines, the
/// snippet store threading through.
pub open spec fn sections_output(
    sections: Seq<Seq<u8>>,
    base: Seq<u8>,
    store: Seq<(Seq<u8>, FileSnippetsView)>,
    glossary: Seq<(Seq<u8>, TermView)>,
    context: Context,
    resources: Seq<(KeyView, FetchedView)>,
) -> (Outcome<Seq<u8>>, Seq<(Seq<u8>, FileSnippetsView)>)
    decreases sections.len(),
{
    if sections.len() == 0 {
        (Outcome::Done(Seq::empty()), store)
    } else {
        match section_text(base, sections[0], resources) {
            Outcome::Need(request) => (Outcome::Need(request), store),
            Outcome::Fail(error) => (Outcome::Fail(error), store),
            Outcome::Done(markdown) => {
                let processed = process_spec(markdown, base, store, glossary, context, resources);
                match processed.0 {
                    Outcome::Done(text) => {
                        let tail = sections_output(
                            sections.skip(1),
                            base,
                            processed.1,
                            glossary,
                            context,
                            resources,
                        );
                        (
                            match tail.0 {
                                Outcome::Done(rest) => if sections.len() > 1 {
                                    Outcome::Done(text + seq![NEWLINE] + rest)
                                } else {
                                    Outcome::Done(text)
                                },
                                other => other,
                            },
                            tail.1,
                        )
                    },
                    other => (other, processed.1),
                }
            },
        }
    }
}

/// Fetches, processes and joins a file's sections, as [`sections_output`]
/// describes.
fn build_file_output(
    sections: &Vec<Vec<u8>>,
    base: &[u8],
    snippets: &mut Snippets,
    glossary: &Vec<(Vec<u8>, Term)>,
    context: Context,
    cache: &Cache,
) -> (r: Result<Vec<u8>, Halt>)
    ensures
        final(snippets)@ == sections_output(
            sections_view(sections@),
            base@,
            old(snippets)@,
            table_view(glossary@),
            context,
            cache@.resources,
        ).1,
        match r {
            Ok(text) => sections_output(
                sections_view(sections@),
                base@,
                old(snippets)@,
                table_view(glossary@),
                context,
                cache@.resources,
            ).0 == Outcome::Done(text@),
            Err(halt) => sections_output(
                sections_view(sections@),
                base@,
                old(snippets)@,
                table_view(glossary@),
                context,
                cache@.resources,
            ).0 == halted::<Seq<u8>>(halt@),
        },
{
    let ghost sv = sections_view(sections@);
    let ghost gl = table_view(glossary@);
    let ghost res = cache@.resources;
    let n = sections.len();
    let mut out: Vec<u8> = Vec::new();
    let mut i: usize = 0;
    proof {
        assert(sv.skip(0) =~= sv);
    }
    while i < n
        invariant
            sv == sections_view(sections@),
            gl == table_view(glossary@),
            res == cache@.resources,
            n == sections@.len(),
            0 <= i <= n,
            i == 0 ==> out@.len() == 0,
            ({
                let total = sections_output(sv, base@, old(snippets)@, gl, context, res);
                let rest = sections_output(sv.skip(i as int), base@, snippets@, gl, context, res);
                &&& total.1 == rest.1
                &&& total.0 == (match rest.0 {
                    Outcome::Done(tail) => if i == 0 {
                        Outcome::Done(tail)
                    } else if i < n {
                        Outcome::Done(out@ + seq![NEWLINE] + tail)
                    } else {
                        Outcome::Done(out@)
                    },
                    other => other,
                })
            }),
        decreases n - i,
    {
        proof {
            assert(sv.skip(i as int).skip(1) =~= sv.skip(i as int + 1));
            assert(sv.skip(i as int)[0] == sv[i as int]);
        }
        let ghost out_start = out@;
        if i > 0 {
            out.push(NEWLINE);
        }
        let ghost out_with_sep = out@;
        proof {
            if i > 0 {
                assert(out_with_sep =~= out_start + seq![NEWLINE]);
            }
        }
        let markdown = match fetch_section(sections[i].as_slice(), base, cache) {
            Ok(text) => text,
            Err(halt) => {
                return Err(halt);
            },
        };
        let processed = match process_markdown(
            markdown.as_slice(),
            base,
            snippets,
            glossary,
            context,
            cache,
        ) {
            Ok(text) => text,
            Err(halt) => {
                return Err(halt);
            },
        };
        out.extend_from_slice(processed.as_slice());
        proof {
            assert(out@ =~= out_with_sep + processed@);
            let rest_next = sections_output(
                sv.skip(i as int + 1),
                base@,
                snippets@,
                gl,
                context,
                res,
            );
            if rest_next.0 is Done {
                let tail = rest_next.0->Done_0;
                if i + 1 < n {
                    if i == 0 {
                        assert(out@ + seq![NEWLINE] + tail =~= processed@ + seq![NEWLINE] + tail);
                    } else {
                        assert(out@ + seq![NEWLINE] + tail =~= out_start + seq![NEWLINE] + (
                        processed@ + seq![NEWLINE] + tail));
                    }
                } else {
                    assert(sv.skip(i as int + 1) =~= Seq::<Seq<u8>>::empty());
                    if i == 0 {
                        assert(out@ =~= processed@);
                    } else {
                        assert(out@ =~= out_start + seq![NEWLINE] + processed@);
                    }
                }
            }
        }
        i += 1;
    }
    proof {
        assert(sv.skip(n as int) =~= Seq::<Seq<u8>>::empty());
        if n == 0 {
            assert(out@ =~= Seq::<u8>::empty());
        }
    }
    Ok(out)
}

/// What generating one output file comes to: its file-scoped glossaries
/// merged over the configuration's, then its sections joined.
pub open spec fn file_output(
    config: FileConfigurationView,
    base: Seq<u8>,
    store: Seq<(Seq<u8>, FileSnippetsView)>,
    base_table: Seq<(Seq<u8>, TermView)>,
    release: bool,
    resources: Seq<(KeyView, FetchedView)>,
    parsed: Seq<(KeyView, ParsedView)>,
) -> (Outcome<Seq<u8>>, Seq<(Seq<u8>, FileSnippetsView)>) {
    let file = file_of(config);
    match glossaries_halt(file.glossaries, base, resources, parsed) {
        Some(HaltView::Need(request)) => (Outcome::Need(request), store),
        Some(HaltView::Fail(error)) => (Outcome::Fail(error), store),
        None => sections_output(
            file.sections,
            base,
            store,
            combined_table(file.glossaries, base, resources, parsed, base_table),
            Context { for_docs: file.for_docs, release },
            resources,
        ),
    }
}

/// Generates one output file's content, as [`file_output`] describes.
fn generate_file(
    config: &FileConfiguration,
    base: &[u8],
    snippets: &mut Snippets,
    base_table: &Vec<(Vec<u8>, Term)>,
    release: bool,
    cache: &Cache,
) -> (r: Result<Vec<u8>, Halt>)
    ensures
        final(snippets)@ == file_output(
            config@,
            base@,
            old(snippets)@,
            table_view(base_table@),
            release,
            cache@.resources,
            cache@.glossaries,
        ).1,
        match r {
            Ok(text) => file_output(
                config@,
                base@,
                old(snippets)@,
                table_view(base_table@),
                release,
                cache@.resources,
                cache@.glossaries,
            ).0 == Outcome::Done(text@),
            Err(halt) => file_output(
                config@,
                base@,
                old(snippets)@,
                table_view(base_table@),
                release,
                cache@.resources,
                cache@.glossaries,
            ).0 == halted::<Seq<u8>>(halt@),
        },
{
    let file = File::from_config(config);
    let mut combined = table_duplicate(base_table);
    proof {
        assert(table_view(combined@) =~= table_view(base_table@));
    }
    match load_glossaries_into(&file.glossaries, base, &mut combined, cache) {
        Ok(()) => {},
        Err(halt) => {
            return Err(halt);
        },
    }
    let context = Context { for_docs: file.for_docs, release };
    build_file_output(&file.sections, base, snippets, &combined, context, cache)
}

/// One generated output file: its configured name and its content.
#[derive(Debug)]
pub struct OutputFile {
    /// The output file's name, as the configuration keys it.
    pub name: Vec<u8>,
    /// The generated content.
    pub content: Vec<u8>,
}

/// The view of a list of output files.
pub open spec fn outputs_view(outputs: Seq<OutputFile>) -> Seq<(Seq<u8>, Seq<u8>)> {
    outputs.map_values(|o: OutputFile| (o.name@, o.content@))
}

/// How a generation call ends short of failure: every file's content, or a
/// request the surrounding program must serve before calling again.
#[derive(Debug)]
pub enum Generation {
    /// Every output file's name and content, in configuration order.
    Complete(Vec<OutputFile>),
    /// A resource must be fetched or parsed first.
    Need(Request),
}

/// What generating every configured file comes to, the snippet store
/// threading through the files in order.
pub open spec fn files_output(
    files: Seq<(Seq<u8>, FileConfigurationView)>,
    base: Seq<u8>,
    store: Seq<(Seq<u8>, FileSnippetsView)>,
    base_table: Seq<(Seq<u8>, TermView)>,
    release: bool,
    resources: Seq<(KeyView, FetchedView)>,
    parsed: Seq<(KeyView, ParsedView)>,
) -> Outcome<Seq<(Seq<u8>, Seq<u8>)>>
    decreases files.len(),
{
    if files.len() == 0 {
        Outcome::Done(Seq::empty())
    } else {
        let head = file_output(files[0].1, base, store, base_table, release, resources, parsed);
        match head.0 {
            Outcome::Need(request) => Outcome::Need(request),
            Outcome::Fail(error) => Outcome::Fail(error),
            Outcome::Done(text) => match files_output(
                files.skip(1),
                base,
                head.1,
                base_table,
                release,
                resources,
                parsed,
            ) {
                Outcome::Done(rest) => Outcome::Done(seq![(files[0].0, text)] + rest),
                other => other,
            },
        }
    }
}

/// What a whole generation run comes to: the configuration's glossaries
/// loaded, then every file generated in order.
pub open spec fn generate_spec(
    config: ConfigurationView,
    release: bool,
    resources: Seq<(KeyView, FetchedView)>,
    parsed: Seq<(KeyView, ParsedView)>,
) -> Outcome<Seq<(Seq<u8>, Seq<u8>)>> {
    match glossaries_halt(config.glossaries, config.relative_to, resources, parsed) {
        Some(HaltView::Need(request)) => Outcome::Need(request),
        Some(HaltView::Fail(error)) => Outcome::Fail(error),
        None => files_output(
            config.files,
            config.relative_to,
            Seq::empty(),
            combined_table(config.glossaries, config.relative_to, resources, parsed, Seq::empty()),
            release,
            resources,
            parsed,
        ),
    }
}

impl Configuration {
    /// The configuration-level glossary table, every source merged in order.
    fn load_glossaries(&self, cache: &Cache) -> (r: Result<Vec<(Vec<u8>, Term)>, Halt>)
        ensures
            match r {
                Ok(table) => glossaries_halt(
                    self@.glossaries,
                    self@.relative_to,
                    cache@.resources,
                    cache@.glossaries,
                ) is None && table_view(table@) == combined_table(
                    self@.glossaries,
                    self@.relative_to,
                    cache@.resources,
                    cache@.glossaries,
                    Seq::empty(),
                ),
                Err(halt) => glossaries_halt(
                    self@.glossaries,
                    self@.relative_to,
                    cache@.resources,
                    cache@.glossaries,
                ) == Some(halt@),
            },
    {
        let mut combined: Vec<(Vec<u8>, Term)> = Vec::new();
        proof {
            assert(table_view(combined@) =~= Seq::<(Seq<u8>, TermView)>::empty());
        }
        match load_glossaries_into(&self.glossaries, self.relative_to.as_slice(), &mut combined, cache) {
            Ok(()) => Ok(combined),
            Err(halt) => Err(halt),
        }
    }

    /// Generates every configured file against `cache`, as [`generate_spec`]
    /// describes: the full outputs, a request to serve first, or the error
    /// generation ends with.
    pub fn generate_with_cache(&self, release: bool, cache: &Cache) -> (r: Result<
        Generation,
        Error,
    >)
        ensures
            match r {
                Ok(generation) => match generation {
                    Generation::Complete(outputs) => generate_spec(
                        self@,
                        release,
                        cache@.resources,
                        cache@.glossaries,
                    ) == Outcome::Done(outputs_view(outputs@)),
                    Generation::Need(request) => generate_spec(
                        self@,
                        release,
                        cache@.resources,
                        cache@.glossaries,
                    ) == Outcome::<Seq<(Seq<u8>, Seq<u8>)>>::Need(request@),
                },
                Err(error) => generate_spec(self@, release, cache@.resources, cache@.glossaries)
                    == Outcome::<Seq<(Seq<u8>, Seq<u8>)>>::Fail(error@),
            },
    {
        let ghost res = cache@.resources;
        let ghost parsed = cache@.glossaries;
        let base_table = match self.load_glossaries(cache) {
            Ok(table) => table,
            Err(Halt::Need(request)) => {
                return Ok(Generation::Need(request));
            },
            Err(Halt::Fail(error)) => {
                return Err(error);
            },
        };
        let ghost tbl = table_view(base_table@);
        let mut snippets = Snippets::new();
        let mut outputs: Vec<OutputFile> = Vec::new();
        let n = self.files.len();
        let mut i: usize = 0;
        proof {
            assert(snippets@ =~= Seq::<(Seq<u8>, FileSnippetsView)>::empty());
            assert(outputs_view(outputs@) =~= Seq::<(Seq<u8>, Seq<u8>)>::empty());
            assert(self@.files.skip(0) =~= self@.files);
            let total = files_output(self@.files, self@.relative_to, snippets@, tbl, release, res, parsed);
            if total is Done {
                assert(outputs_view(outputs@) + total->Done_0 =~= total->Done_0);
            }
        }
        while i < n
            invariant
                res == cache@.resources,
                parsed == cache@.glossaries,
                glossaries_halt(self@.glossaries, self@.relative_to, res, parsed) is None,
                tbl == table_view(base_table@),
                tbl == combined_table(
                    self@.glossaries,
                    self@.relative_to,
                    res,
                    parsed,
                    Seq::empty(),
                ),
                n == self.files@.len(),
                0 <= i <= n,
                files_output(
                    self@.files,
                    self@.relative_to,
                    Seq::empty(),
                    tbl,
                    release,
                    res,
                    parsed,
                ) == (match files_output(
                    self@.files.skip(i as int),
                    self@.relative_to,
                    snippets@,
                    tbl,
                    release,
                    res,
                    parsed,
                ) {
                    Outcome::Done(rest) => Outcome::Done(outputs_view(outputs@) + rest),
                    other => other,
                }),
            decreases n - i,
        {
            proof {
                assert(self@.files.skip(i as int)[0] == self@.files[i as int]);
                assert(self@.files.skip(i as int).skip(1) =~= self@.files.skip(i as int + 1));
            }
            let name = clone_bytes(self.files[i].0.as_slice());
            let ghost outputs_before = outputs_view(outputs@);
            let content = match generate_file(
                &self.files[i].1,
                self.relative_to.as_slice(),
                &mut snippets,
                &base_table,
                release,
                cache,
            ) {
                Ok(text) => text,
                Err(Halt::Need(request)) => {
                    return Ok(Generation::Need(request));
                },
                Err(Halt::Fail(error)) => {
                    return Err(error);
                },
            };
            let ghost entry = (name@, content@);
            outputs.push(OutputFile { name, content });
            proof {
                assert(outputs_view(outputs@) =~= outputs_before.push(entry));
                let rest_next = files_output(
                    self@.files.skip(i as int + 1),
                    self@.relative_to,
                    snippets@,
                    tbl,
                    release,
                    res,
                    parsed,
                );
                if rest_next is Done {
                    assert(outputs_before + (seq![entry] + rest_next->Done_0) =~= outputs_view(
                        outputs@,
                    ) + rest_next->Done_0);
                }
            }
            i += 1;
        }
        proof {
            assert(self@.files.skip(n as int) =~= Seq::<(Seq<u8>, FileConfigurationView)>::empty());
        }
        Ok(Generation::Complete(outputs))
    }

    /// Generates every configured file with a fresh, empty cache: with no
    /// resources recorded yet this completes only for a configuration that
    /// needs none, and otherwise reports the first request to serve.
    pub fn generate(&self, release: bool) -> (r: Result<Generation, Error>)
        ensures
            match r {
                Ok(generation) => match generation {
                    Generation::Complete(outputs) => generate_spec(
                        self@,
                        release,
                        Seq::empty(),
                        Seq::empty(),
                    ) == Outcome::Done(outputs_view(outputs@)),
                    Generation::Need(request) => generate_spec(
                        self@,
                        release,
                        Seq::empty(),
                        Seq::empty(),
                    ) == Outcome::<Seq<(Seq<u8>, Seq<u8>)>>::Need(request@),
                },
                Err(error) => generate_spec(self@, release, Seq::empty(), Seq::empty())
                    == Outcome::<Seq<(Seq<u8>, Seq<u8>)>>::Fail(error@),
            },
    {
        let cache = Cache::new();
        proof {
            assert(cache@.resources =~= Seq::<(KeyView, FetchedView)>::empty());
            assert(cache@.glossaries =~= Seq::<(KeyView, ParsedView)>::empty());
        }
        self.generate_with_cache(release, &cache)
    }
}

/// Where a directory entry's configuration lives, if the entry carries one:
/// a file named `.rustme.ron` is itself a configuration; a directory named
/// `.rustme` holds one under `config.ron`; anything else carries none.
pub fn config_path_for_entry(entry_path: &[u8], entry_name: &[u8], is_dir: bool) -> (r: Option<
    Vec<u8>,
>)
    ensures
        match r {
            Some(path) => (entry_name@ == config_file_name() && path@ == entry_path@) || (is_dir
                && entry_name@ == config_dir_name() && path@ == join_path_spec(
                entry_path@,
                config_inner_name(),
            )),
            None => entry_name@ != config_file_name() && !(is_dir && entry_name@
                == config_dir_name()),
        },
{
    let file_name = config_file_name_bytes();
    if crate::bytes::bytes_eq(entry_name, file_name.as_slice()) {
        return Some(clone_bytes(entry_path));
    }
    let dir_name = config_dir_name_bytes();
    if is_dir && crate::bytes::bytes_eq(entry_name, dir_name.as_slice()) {
        let inner = config_inner_name_bytes();
        return Some(join_path(entry_path, inner.as_slice()));
    }
    None
}

} // verus!

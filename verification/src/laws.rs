//! Laws the engine obeys, stated and proved over the same spec functions its
//! contracts use.

use vstd::prelude::*;

use crate::bytes::{contains_sub, is_match_at, CARRIAGE_RETURN, DOLLAR, BACKTICK};
use crate::cache::{CacheView, FetchedView, KeyView, Outcome};
use crate::config::{generate_spec, section_text, sections_output, ConfigurationView};
use crate::markdown::{opens_rust_fence, process_spec, resolve_refs, rewrite_blocks};
use crate::scanner::{find_byte, lemma_find_byte, NEWLINE};
use crate::snippet::{
    joined_lines, lemma_joined_lines_push, region_text, scan_file, scan_regions, split_line,
    strip_cr, FileSnippetsView,
};
use crate::term::{Context, TermView};

verus! {

/// Text without a `$` passes through reference resolution untouched, and
/// loads nothing.
pub proof fn lemma_resolve_refs_plain(
    s: Seq<u8>,
    base: Seq<u8>,
    store: Seq<(Seq<u8>, FileSnippetsView)>,
    glossary: Seq<(Seq<u8>, TermView)>,
    context: Context,
    resources: Seq<(KeyView, FetchedView)>,
)
    requires
        forall|j: int| 0 <= j < s.len() ==> s[j] != DOLLAR,
    ensures
        resolve_refs(s, base, store, glossary, context, resources) == (
            Outcome::Done(s),
            store,
        ),
{
    lemma_find_byte(s, DOLLAR);
    if find_byte(s, DOLLAR) >= 0 {
        assert(s[find_byte(s, DOLLAR)] == DOLLAR);
    }
}

/// Text without a backtick passes through the code-block rewriter untouched.
pub proof fn lemma_rewrite_plain(s: Seq<u8>)
    requires
        forall|j: int| 0 <= j < s.len() ==> s[j] != BACKTICK,
    ensures
        rewrite_blocks(s, false) == Result::<Seq<u8>, crate::error::ErrorView>::Ok(s),
    decreases s.len(),
{
    if s.len() == 0 {
        assert(s =~= Seq::<u8>::empty());
    } else {
        assert(!opens_rust_fence(s));
        assert forall|j: int| 0 <= j < s.skip(1).len() implies s.skip(1)[j] != BACKTICK by {
            assert(s.skip(1)[j] == s[j + 1]);
        }
        lemma_rewrite_plain(s.skip(1));
        assert(seq![s[0]] + s.skip(1) =~= s);
    }
}

/// A section without tokens or backticks is processed to itself.
pub proof fn lemma_process_plain(
    s: Seq<u8>,
    base: Seq<u8>,
    store: Seq<(Seq<u8>, FileSnippetsView)>,
    glossary: Seq<(Seq<u8>, TermView)>,
    context: Context,
    resources: Seq<(KeyView, FetchedView)>,
)
    requires
        forall|j: int| 0 <= j < s.len() ==> s[j] != DOLLAR && s[j] != BACKTICK,
    ensures
        process_spec(s, base, store, glossary, context, resources) == (
            Outcome::Done(s),
            store,
        ),
{
    lemma_resolve_refs_plain(s, base, store, glossary, context, resources);
    lemma_rewrite_plain(s);
}

/// The texts a list of sections fetches from the cache.
pub open spec fn fetched_sections(
    sections: Seq<Seq<u8>>,
    base: Seq<u8>,
    resources: Seq<(KeyView, FetchedView)>,
) -> Seq<Seq<u8>> {
    Seq::new(sections.len(), |i: int| section_text(base, sections[i], resources)->Done_0)
}

/// Round trip: when every section of a file is available and holds neither a
/// reference token nor a backtick, the file's output is byte-identical to
/// its sections joined with single blank lines, and nothing is loaded into
/// the snippet store.
pub proof fn lemma_round_trip(
    sections: Seq<Seq<u8>>,
    base: Seq<u8>,
    store: Seq<(Seq<u8>, FileSnippetsView)>,
    glossary: Seq<(Seq<u8>, TermView)>,
    context: Context,
    resources: Seq<(KeyView, FetchedView)>,
)
    requires
        forall|i: int|
            0 <= i < sections.len() ==> (#[trigger] section_text(base, sections[i], resources))
                is Done,
        forall|i: int, j: int|
            0 <= i < sections.len() && 0 <= j < section_text(base, sections[i], resources)
                ->Done_0.len() ==> (#[trigger] section_text(base, sections[i], resources)
                ->Done_0[j]) != DOLLAR && section_text(base, sections[i], resources)->Done_0[j]
                != BACKTICK,
    ensures
        sections_output(sections, base, store, glossary, context, resources) == (
            Outcome::Done(joined_lines(fetched_sections(sections, base, resources))),
            store,
        ),
    decreases sections.len(),
{
    let texts = fetched_sections(sections, base, resources);
    if sections.len() == 0 {
        assert(joined_lines(texts) == Seq::<u8>::empty());
    } else {
        let head = section_text(base, sections[0], resources)->Done_0;
        lemma_process_plain(head, base, store, glossary, context, resources);
        assert forall|i: int|
            0 <= i < sections.skip(1).len() implies (#[trigger] section_text(
            base,
            sections.skip(1)[i],
            resources,
        )) is Done by {
            assert(sections.skip(1)[i] == sections[i + 1]);
        }
        assert forall|i: int, j: int|
            0 <= i < sections.skip(1).len() && 0 <= j < section_text(
                base,
                sections.skip(1)[i],
                resources,
            )->Done_0.len() implies (#[trigger] section_text(base, sections.skip(1)[i], resources)
            ->Done_0[j]) != DOLLAR && section_text(base, sections.skip(1)[i], resources)
            ->Done_0[j] != BACKTICK by {
            assert(sections.skip(1)[i] == sections[i + 1]);
        }
        lemma_round_trip(sections.skip(1), base, store, glossary, context, resources);
        let tail_texts = fetched_sections(sections.skip(1), base, resources);
        assert(tail_texts =~= texts.skip(1));
        if sections.len() > 1 {
            assert(joined_lines(texts) == texts[0] + seq![NEWLINE] + joined_lines(texts.skip(1)));
            assert(texts[0] == head);
        } else {
            assert(joined_lines(texts) == texts[0]);
        }
    }
}

/// Round trip at the file level: a file configured as a bare list of
/// available, token- and backtick-free sections comes out as exactly those
/// sections joined with single blank lines, whatever the glossaries say.
pub proof fn lemma_round_trip_file(
    sections: Seq<Seq<u8>>,
    base: Seq<u8>,
    store: Seq<(Seq<u8>, FileSnippetsView)>,
    base_table: Seq<(Seq<u8>, TermView)>,
    release: bool,
    resources: Seq<(KeyView, FetchedView)>,
    parsed: Seq<(KeyView, crate::cache::ParsedView)>,
)
    requires
        forall|i: int|
            0 <= i < sections.len() ==> (#[trigger] section_text(base, sections[i], resources))
                is Done,
        forall|i: int, j: int|
            0 <= i < sections.len() && 0 <= j < section_text(base, sections[i], resources)
                ->Done_0.len() ==> (#[trigger] section_text(base, sections[i], resources)
                ->Done_0[j]) != DOLLAR && section_text(base, sections[i], resources)->Done_0[j]
                != BACKTICK,
    ensures
        crate::config::file_output(
            crate::config::FileConfigurationView::Sections(sections),
            base,
            store,
            base_table,
            release,
            resources,
            parsed,
        ) == (
            Outcome::Done(joined_lines(fetched_sections(sections, base, resources))),
            store,
        ),
{
    lemma_round_trip(
        sections,
        base,
        store,
        base_table,
        Context { for_docs: false, release },
        resources,
    );
}

/// Idempotence: generation is a function of the configuration, the mode and
/// the recorded resources alone, so two runs over the same inputs produce
/// identical output.
pub proof fn lemma_generation_deterministic(
    config: ConfigurationView,
    release: bool,
    cache_a: CacheView,
    cache_b: CacheView,
    first: Seq<(Seq<u8>, Seq<u8>)>,
    second: Seq<(Seq<u8>, Seq<u8>)>,
)
    requires
        cache_a.resources == cache_b.resources,
        cache_a.glossaries == cache_b.glossaries,
        generate_spec(config, release, cache_a.resources, cache_a.glossaries) == Outcome::Done(
            first,
        ),
        generate_spec(config, release, cache_b.resources, cache_b.glossaries) == Outcome::Done(
            second,
        ),
    ensures
        first == second,
{
}

/// The scan's collected lines stay contiguous in the file: every region it
/// completes was cut, line for line, out of one place in the text.
proof fn lemma_scan_contiguous(
    whole: Seq<u8>,
    s: Seq<u8>,
    open_region: Option<(Seq<u8>, Seq<Seq<u8>>)>,
    done: Seq<(Seq<u8>, Seq<u8>)>,
    result: Seq<(Seq<u8>, Seq<u8>)>,
)
    requires
        scan_regions(s, open_region, done) == Result::<
            Seq<(Seq<u8>, Seq<u8>)>,
            crate::error::ErrorView,
        >::Ok(result),
        forall|j: int| 0 <= j < whole.len() ==> whole[j] != CARRIAGE_RETURN,
        exists|k: int| 0 <= k <= whole.len() && s == whole.skip(k),
        match open_region {
            Some(region) => region.1.len() == 0 || exists|a: int|
                0 <= a && is_match_at(whole, joined_lines(region.1), a) && a + joined_lines(
                    region.1,
                ).len() + 1 + s.len() == whole.len() && whole[a + joined_lines(region.1).len()]
                    == NEWLINE,
            None => true,
        },
        forall|i: int|
            0 <= i < done.len() ==> exists|lines: Seq<Seq<u8>>|
                (#[trigger] done[i]).1 == region_text(lines) && contains_sub(
                    whole,
                    joined_lines(lines),
                ),
    ensures
        forall|i: int|
            0 <= i < result.len() ==> exists|lines: Seq<Seq<u8>>|
                (#[trigger] result[i]).1 == region_text(lines) && contains_sub(
                    whole,
                    joined_lines(lines),
                ),
    decreases s.len(),
{
    if s.len() == 0 {
        assert(result == done);
    } else {
        let k = choose|k: int| 0 <= k <= whole.len() && s == whole.skip(k);
        let parts = split_line(s);
        let line = parts.0;
        let rest = parts.1;
        let i = find_byte(s, NEWLINE);
        lemma_find_byte(s, NEWLINE);
        // without carriage returns the split is exact: s == line + \n + rest,
        // or the last line has no newline and the rest is empty
        if 0 <= i < s.len() {
            assert(s[i] == whole[k + i]);
            assert(strip_cr(s.take(i)) == s.take(i)) by {
                if s.take(i).len() > 0 && s.take(i)[i - 1] == CARRIAGE_RETURN {
                    assert(whole[k + i - 1] == CARRIAGE_RETURN);
                }
            }
            assert(line == s.take(i));
            assert(rest == s.skip(i + 1));
            assert(rest == whole.skip(k + i + 1)) by {
                assert(s.skip(i + 1) =~= whole.skip(k + i + 1));
            }
        } else {
            assert(line == s && rest.len() == 0);
        }
        // the remainder is again a suffix of the file
        if 0 <= i < s.len() {
            assert(0 <= k + i + 1 <= whole.len());
        } else {
            assert(rest =~= whole.skip(whole.len() as int));
        }
        assert(exists|k2: int| 0 <= k2 <= whole.len() && rest == whole.skip(k2));
        if crate::snippet::is_begin_line(line) {
            // a fresh region opens with no collected lines
            lemma_scan_contiguous(
                whole,
                rest,
                Some((crate::snippet::begin_name(line), Seq::empty())),
                done,
                result,
            );
        } else if crate::snippet::is_end_line(line) {
            let region = open_region->Some_0;
            assert(!crate::snippet::region_names_has(done, region.0));
            assert forall|idx: int|
                0 <= idx < done.push((region.0, region_text(region.1))).len() implies exists|
                lines: Seq<Seq<u8>>,
            |
                (#[trigger] done.push((region.0, region_text(region.1)))[idx]).1 == region_text(
                    lines,
                ) && contains_sub(whole, joined_lines(lines)) by {
                if idx < done.len() {
                    assert(done.push((region.0, region_text(region.1)))[idx] == done[idx]);
                } else {
                    // the closing region's lines stand contiguously in the file
                    if region.1.len() == 0 {
                        assert(joined_lines(region.1) == Seq::<u8>::empty());
                        assert(is_match_at(whole, joined_lines(region.1), 0)) by {
                            assert(whole.subrange(0, 0) =~= Seq::<u8>::empty());
                        }
                        crate::bytes::lemma_find_sub(whole, joined_lines(region.1));
                        assert(contains_sub(whole, joined_lines(region.1)));
                    } else {
                        let a = choose|a: int|
                            0 <= a && is_match_at(whole, joined_lines(region.1), a) && a
                                + joined_lines(region.1).len() + 1 + s.len() == whole.len()
                                && whole[a + joined_lines(region.1).len()] == NEWLINE;
                        crate::bytes::lemma_find_sub(whole, joined_lines(region.1));
                        if crate::bytes::find_sub(whole, joined_lines(region.1)) < 0 {
                            assert(is_match_at(whole, joined_lines(region.1), a));
                        }
                        assert(contains_sub(whole, joined_lines(region.1)));
                    }
                    assert(done.push((region.0, region_text(region.1)))[idx].1 == region_text(
                        region.1,
                    ));
                }
            }
            lemma_scan_contiguous(
                whole,
                rest,
                None,
                done.push((region.0, region_text(region.1))),
                result,
            );
        } else {
            match open_region {
                Some(region) => {
                    let grown = region.1.push(line);
                    lemma_joined_lines_push(region.1, line);
                    if 0 <= i < s.len() {
                        // the collected block, the newline, and the remainder
                        // tile the file
                        if region.1.len() == 0 {
                            assert(joined_lines(grown) == line);
                            assert(is_match_at(whole, line, k)) by {
                                assert(whole.subrange(k, k + line.len()) =~= line);
                            }
                            assert(whole[k + line.len()] == NEWLINE) by {
                                assert(whole[k + i] == s[i]);
                            }
                            assert(k + line.len() + 1 + rest.len() == whole.len());
                            assert(0 <= k && is_match_at(whole, joined_lines(grown), k) && k
                                + joined_lines(grown).len() + 1 + rest.len() == whole.len()
                                && whole[k + joined_lines(grown).len()] == NEWLINE);
                        } else {
                            let a = choose|a: int|
                                0 <= a && is_match_at(whole, joined_lines(region.1), a) && a
                                    + joined_lines(region.1).len() + 1 + s.len() == whole.len()
                                    && whole[a + joined_lines(region.1).len()] == NEWLINE;
                            let old_join = joined_lines(region.1);
                            assert(joined_lines(grown) == old_join + seq![NEWLINE] + line);
                            assert(is_match_at(whole, joined_lines(grown), a)) by {
                                assert(whole.subrange(a, a + joined_lines(grown).len())
                                    =~= joined_lines(grown)) by {
                                    assert(whole.subrange(a, a + old_join.len()) == old_join);
                                    assert forall|j: int|
                                        0 <= j < joined_lines(grown).len() implies whole[a + j]
                                        == joined_lines(grown)[j] by {
                                        if j < old_join.len() {
                                            assert(whole.subrange(a, a + old_join.len())[j]
                                                == whole[a + j]);
                                        } else if j == old_join.len() {
                                        } else {
                                            assert(whole[a + old_join.len() + 1 + (j
                                                - old_join.len() - 1)] == s[j - old_join.len()
                                                - 1]);
                                            assert(s[j - old_join.len() - 1] == line[j
                                                - old_join.len() - 1]);
                                        }
                                    }
                                }
                            }
                            assert(whole[a + joined_lines(grown).len()] == NEWLINE) by {
                                assert(whole[a + old_join.len() + 1 + i] == s[i]);
                            }
                            assert(a + joined_lines(grown).len() + 1 + rest.len() == whole.len());
                            assert(0 <= a && is_match_at(whole, joined_lines(grown), a) && a
                                + joined_lines(grown).len() + 1 + rest.len() == whole.len()
                                && whole[a + joined_lines(grown).len()] == NEWLINE);
                        }
                        lemma_scan_contiguous(whole, rest, Some((region.0, grown)), done, result);
                    } else {
                        // the file ends inside the open region; it is dropped
                        assert(rest.len() == 0);
                        assert(result == done);
                    }
                },
                None => {
                    lemma_scan_contiguous(whole, rest, None, done, result);
                },
            }
        }
    }
}

/// Whole-file fallback: every region a carriage-return-free file defines is
/// stored as the stripped form of lines that stand, joined and unstripped,
/// as one contiguous substring of the raw file text — which is exactly what
/// the whole-file entry keeps. The stripped region text itself need not
/// occur in the file.
pub proof fn lemma_region_in_whole_file(
    contents: Seq<u8>,
    regions: Seq<(Seq<u8>, Seq<u8>)>,
    i: int,
)
    requires
        scan_file(contents) == Result::<Seq<(Seq<u8>, Seq<u8>)>, crate::error::ErrorView>::Ok(
            regions,
        ),
        forall|j: int| 0 <= j < contents.len() ==> contents[j] != CARRIAGE_RETURN,
        0 <= i < regions.len(),
    ensures
        exists|lines: Seq<Seq<u8>>|
            regions[i].1 == region_text(lines) && contains_sub(contents, joined_lines(lines)),
{
    assert(contents =~= contents.skip(0));
    assert(exists|k: int| 0 <= k <= contents.len() && contents == contents.skip(k));
    lemma_scan_contiguous(contents, contents, None, Seq::empty(), regions);
    // name the entry, so the quantified conclusion applies to it
    let entry = regions[i];
    assert(entry == regions[i]);
}

} // verus!

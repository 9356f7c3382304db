//! Reference substitution and code-block rewriting over markdown text.
//!
//! A section's text is scanned once for `$reference$` tokens: each token is
//! rendered from the glossary, or failing that resolved as a snippet
//! reference; `$$` stands for one literal dollar sign; a token without its
//! closing delimiter fails. The resolved text is then scanned again and every
//! fenced block tagged as rust code has its hidden lines (a `#` and a space,
//! after indentation) dropped, the way documentation tooling renders them.

use vstd::prelude::*;

use crate::bytes::{
    closing_fence, closing_fence_bytes, hidden_line_marker, hidden_line_marker_bytes,
    rust_fence_tail, rust_fence_tail_bytes, starts_with, trim_ascii_start, trim_start_spec, BACKTICK,
    DOLLAR,
};
use crate::cache::{halted, Cache, FetchedView, Halt, KeyView, Outcome, table_view};
use crate::error::{Error, ErrorView};
use crate::glossary::{table_find, table_get};
use crate::scanner::{find_byte, StrByteIterator, NEWLINE};
use crate::snippet::{snippet_value, store_after_lookup, FileSnippetsView, Snippets};
use crate::term::{render_term, Context, Term, TermView};

verus! {

/// `table_find` over a table is `assoc_find` over its view.
pub proof fn lemma_table_find_view(entries: Seq<(Vec<u8>, Term)>, key: Seq<u8>)
    ensures
        table_find(entries, key) == crate::cache::assoc_find(table_view(entries), key),
    decreases entries.len(),
{
    if entries.len() > 0 {
        lemma_table_find_view(entries.skip(1), key);
        assert(table_view(entries).skip(1) =~= table_view(entries.skip(1)));
    }
}

/// An outcome with `prefix` put before its finished text.
pub open spec fn with_prefix(prefix: Seq<u8>, outcome: Outcome<Seq<u8>>) -> Outcome<Seq<u8>> {
    match outcome {
        Outcome::Done(text) => Outcome::Done(prefix + text),
        other => other,
    }
}

/// Prefixes compose.
pub proof fn lemma_with_prefix_assoc(a: Seq<u8>, b: Seq<u8>, outcome: Outcome<Seq<u8>>)
    ensures
        with_prefix(a, with_prefix(b, outcome)) == with_prefix(a + b, outcome),
{
    match outcome {
        Outcome::Done(text) => {
            assert(a + (b + text) =~= (a + b) + text);
        },
        _ => {},
    }
}

/// What substituting every token of `s` comes to, and the snippet store it
/// leaves behind. Text up to the next `$` passes through; the token between
/// that `$` and the next is rendered from the glossary, or resolved as a
/// snippet; an empty token is one literal `$`; a missing closing `$` fails.
pub open spec fn resolve_refs(
    s: Seq<u8>,
    base: Seq<u8>,
    store: Seq<(Seq<u8>, FileSnippetsView)>,
    glossary: Seq<(Seq<u8>, TermView)>,
    context: Context,
    resources: Seq<(KeyView, FetchedView)>,
) -> (Outcome<Seq<u8>>, Seq<(Seq<u8>, FileSnippetsView)>)
    decreases s.len(),
{
    let i = find_byte(s, DOLLAR);
    if !(0 <= i < s.len()) {
        (Outcome::Done(s), store)
    } else {
        let prefix = s.take(i);
        let after = s.skip(i + 1);
        let j = find_byte(after, DOLLAR);
        if !(0 <= j < after.len()) {
            (Outcome::Fail(ErrorView::MalformedCodeBlock), store)
        } else {
            let token = after.take(j);
            let rest = after.skip(j + 1);
            if token.len() == 0 {
                let tail = resolve_refs(rest, base, store, glossary, context, resources);
                (with_prefix(prefix + seq![DOLLAR], tail.0), tail.1)
            } else {
                match crate::cache::assoc_find(glossary, token) {
                    Some(term) => {
                        let tail = resolve_refs(rest, base, store, glossary, context, resources);
                        (with_prefix(prefix + render_term(term, context), tail.0), tail.1)
                    },
                    None => match snippet_value(token, base, store, resources) {
                        Outcome::Done(text) => {
                            let loaded = store_after_lookup(token, base, store, resources);
                            let tail = resolve_refs(rest, base, loaded, glossary, context, resources);
                            (with_prefix(prefix + text, tail.0), tail.1)
                        },
                        Outcome::Need(request) => (
                            Outcome::Need(request),
                            store_after_lookup(token, base, store, resources),
                        ),
                        Outcome::Fail(error) => (
                            Outcome::Fail(error),
                            store_after_lookup(token, base, store, resources),
                        ),
                    },
                }
            }
        }
    }
}

/// Substitutes every `$reference$` token of `markdown`, as [`resolve_refs`]
/// describes, loading snippet files into the store on first use.
pub fn replace_references(
    markdown: &[u8],
    base_dir: &[u8],
    snippets: &mut Snippets,
    glossary: &Vec<(Vec<u8>, Term)>,
    context: Context,
    cache: &Cache,
) -> (r: Result<Vec<u8>, Halt>)
    ensures
        final(snippets)@ == resolve_refs(
            markdown@,
            base_dir@,
            old(snippets)@,
            table_view(glossary@),
            context,
            cache@.resources,
        ).1,
        match r {
            Ok(text) => resolve_refs(
                markdown@,
                base_dir@,
                old(snippets)@,
                table_view(glossary@),
                context,
                cache@.resources,
            ).0 == Outcome::Done(text@),
            Err(halt) => resolve_refs(
                markdown@,
                base_dir@,
                old(snippets)@,
                table_view(glossary@),
                context,
                cache@.resources,
            ).0 == halted::<Seq<u8>>(halt@),
        },
{
    let ghost gl = table_view(glossary@);
    let ghost res = cache@.resources;
    let mut iter = StrByteIterator::new(markdown);
    let mut out: Vec<u8> = Vec::new();
    loop
        invariant
            gl == table_view(glossary@),
            res == cache@.resources,
            resolve_refs(markdown@, base_dir@, old(snippets)@, gl, context, res).0 == with_prefix(
                out@,
                resolve_refs(iter@, base_dir@, snippets@, gl, context, res).0,
            ),
            resolve_refs(markdown@, base_dir@, old(snippets)@, gl, context, res).1 == resolve_refs(
                iter@,
                base_dir@,
                snippets@,
                gl,
                context,
                res,
            ).1,
        decreases iter@.len(),
    {
        let ghost s_before = iter@;
        let ghost store_before = snippets@;
        let ghost out_before = out@;
        let skipped = iter.read_until_char(DOLLAR);
        out.extend_from_slice(skipped);
        proof {
            crate::scanner::lemma_find_byte(s_before, DOLLAR);
        }
        match iter.next_byte() {
            None => {
                // no reference is left; the rest passed through
                proof {
                    assert(out@ =~= out_before + s_before);
                }
                return Ok(out);
            },
            Some(_) => {},
        }
        let ghost after = s_before.skip(find_byte(s_before, DOLLAR) + 1);
        proof {
            assert(iter@ =~= after);
            crate::scanner::lemma_find_byte(after, DOLLAR);
        }
        let token = iter.read_until_char(DOLLAR);
        match iter.next_byte() {
            None => {
                // the closing delimiter is missing
                return Err(Halt::Fail(Error::MalformedCodeBlock));
            },
            Some(_) => {},
        }
        proof {
            assert(iter@ =~= after.skip(find_byte(after, DOLLAR) + 1));
        }
        if token.len() == 0 {
            out.push(DOLLAR);
            proof {
                let prefix = s_before.take(find_byte(s_before, DOLLAR));
                assert(out@ =~= out_before + (prefix + seq![DOLLAR]));
                lemma_with_prefix_assoc(
                    out_before,
                    prefix + seq![DOLLAR],
                    resolve_refs(iter@, base_dir@, snippets@, gl, context, res).0,
                );
            }
        } else {
            proof {
                lemma_table_find_view(glossary@, token@);
            }
            match table_get(glossary, token) {
                Some(term) => {
                    let rendered = term.to_string(context);
                    out.extend_from_slice(rendered.as_slice());
                    proof {
                        let prefix = s_before.take(find_byte(s_before, DOLLAR));
                        assert(out@ =~= out_before + (prefix + rendered@));
                        lemma_with_prefix_assoc(
                            out_before,
                            prefix + rendered@,
                            resolve_refs(iter@, base_dir@, snippets@, gl, context, res).0,
                        );
                    }
                },
                None => {
                    match crate::snippet::load_snippet(token, base_dir, snippets, cache) {
                        Ok(text) => {
                            out.extend_from_slice(text.as_slice());
                            proof {
                                let prefix = s_before.take(find_byte(s_before, DOLLAR));
                                assert(out@ =~= out_before + (prefix + text@));
                                lemma_with_prefix_assoc(
                                    out_before,
                                    prefix + text@,
                                    resolve_refs(iter@, base_dir@, snippets@, gl, context, res).0,
                                );
                            }
                        },
                        Err(halt) => {
                            return Err(halt);
                        },
                    }
                },
            }
        }
    }
}

/// The first line of `s` kept verbatim, its newline included, and the rest.
pub open spec fn split_raw_line(s: Seq<u8>) -> (Seq<u8>, Seq<u8>) {
    let i = find_byte(s, NEWLINE);
    if 0 <= i < s.len() {
        (s.take(i + 1), s.skip(i + 1))
    } else {
        (s, Seq::empty())
    }
}

/// Whether a line, its indentation ignored, closes a fence.
pub open spec fn closes_fence(line: Seq<u8>) -> bool {
    let t = trim_start_spec(line);
    closing_fence().len() <= t.len() && t.take(closing_fence().len() as int) == closing_fence()
}

/// Whether a line, its indentation ignored, is a hidden line.
pub open spec fn is_hidden_line(line: Seq<u8>) -> bool {
    let t = trim_start_spec(line);
    hidden_line_marker().len() <= t.len() && t.take(hidden_line_marker().len() as int)
        == hidden_line_marker()
}

/// Whether `s` opens a rust fence: a backtick followed by the rust tag.
pub open spec fn opens_rust_fence(s: Seq<u8>) -> bool {
    s.len() >= 1 && s[0] == BACKTICK && 1 + rust_fence_tail().len() <= s.len() && s.skip(1).take(
        rust_fence_tail().len() as int,
    ) == rust_fence_tail()
}

/// What rewriting fenced rust blocks comes to. Outside a fence, text passes
/// through until a rust fence opens; it is kept, with the rest of its opening
/// line. Inside, a closing fence line is kept and the fence ends, a hidden
/// line is dropped, any other line is kept; input ending inside a fence
/// fails.
pub open spec fn rewrite_blocks(s: Seq<u8>, in_fence: bool) -> Result<Seq<u8>, ErrorView>
    decreases s.len(), (if in_fence {
        0int
    } else {
        1int
    }),
{
    if in_fence {
        if s.len() == 0 {
            Err(ErrorView::MalformedCodeBlock)
        } else {
            let parts = split_raw_line(s);
            let line = parts.0;
            let rest = parts.1;
            if closes_fence(line) {
                match rewrite_blocks(rest, false) {
                    Ok(tail) => Ok(line + tail),
                    Err(e) => Err(e),
                }
            } else if is_hidden_line(line) {
                rewrite_blocks(rest, true)
            } else {
                match rewrite_blocks(rest, true) {
                    Ok(tail) => Ok(line + tail),
                    Err(e) => Err(e),
                }
            }
        }
    } else {
        if s.len() == 0 {
            Ok(Seq::empty())
        } else if opens_rust_fence(s) {
            let opened = s.skip(1 + rust_fence_tail().len() as int);
            let parts = split_raw_line(opened);
            let line = parts.0;
            let rest = parts.1;
            match rewrite_blocks(rest, true) {
                Ok(tail) => Ok(seq![BACKTICK] + rust_fence_tail() + line + tail),
                Err(e) => Err(e),
            }
        } else {
            match rewrite_blocks(s.skip(1), false) {
                Ok(tail) => Ok(seq![s[0]] + tail),
                Err(e) => Err(e),
            }
        }
    }
}

/// A rewrite result with `prefix` put before its finished text.
pub open spec fn rewrite_with_prefix(prefix: Seq<u8>, r: Result<Seq<u8>, ErrorView>) -> Result<
    Seq<u8>,
    ErrorView,
> {
    match r {
        Ok(text) => Ok(prefix + text),
        Err(e) => Err(e),
    }
}

/// Rewrite prefixes compose.
pub proof fn lemma_rewrite_prefix_assoc(a: Seq<u8>, b: Seq<u8>, r: Result<Seq<u8>, ErrorView>)
    ensures
        rewrite_with_prefix(a, rewrite_with_prefix(b, r)) == rewrite_with_prefix(a + b, r),
{
    match r {
        Ok(text) => {
            assert(a + (b + text) =~= (a + b) + text);
        },
        Err(_) => {},
    }
}

/// Rewrites every fenced rust block of `markdown`, as [`rewrite_blocks`]
/// describes.
pub fn preprocess_rust_codeblocks(markdown: &[u8]) -> (r: Result<Vec<u8>, Error>)
    ensures
        match r {
            Ok(text) => rewrite_blocks(markdown@, false) == Result::<Seq<u8>, ErrorView>::Ok(
                text@,
            ),
            Err(e) => rewrite_blocks(markdown@, false) == Result::<Seq<u8>, ErrorView>::Err(e@),
        },
{
    let fence_tail = rust_fence_tail_bytes();
    let fence_close = closing_fence_bytes();
    let hidden = hidden_line_marker_bytes();
    let mut iter = StrByteIterator::new(markdown);
    let mut out: Vec<u8> = Vec::new();
    loop
        invariant
            fence_tail@ == rust_fence_tail(),
            fence_close@ == closing_fence(),
            hidden@ == hidden_line_marker(),
            rewrite_blocks(markdown@, false) == rewrite_with_prefix(
                out@,
                rewrite_blocks(iter@, false),
            ),
        decreases iter@.len(),
    {
        let ghost s_before = iter@;
        let ghost out_before = out@;
        match iter.next_byte() {
            None => {
                return Ok(out);
            },
            Some(ch) => {
                if ch == BACKTICK && iter.try_read(fence_tail.as_slice()) {
                    proof {
                        assert(opens_rust_fence(s_before));
                        assert(iter@ =~= s_before.skip(1 + rust_fence_tail().len() as int));
                    }
                    out.push(BACKTICK);
                    out.extend_from_slice(fence_tail.as_slice());
                    let ghost opened = iter@;
                    let rest_of_line = iter.read_line();
                    out.extend_from_slice(rest_of_line);
                    proof {
                        crate::scanner::lemma_find_byte(opened, NEWLINE);
                        assert(rest_of_line@ == split_raw_line(opened).0);
                        assert(iter@ == split_raw_line(opened).1);
                        assert(out@ =~= out_before + (seq![BACKTICK] + rust_fence_tail()
                            + rest_of_line@));
                        lemma_rewrite_prefix_assoc(
                            out_before,
                            seq![BACKTICK] + rust_fence_tail() + rest_of_line@,
                            rewrite_blocks(iter@, true),
                        );
                    }
                    let ghost fence_entry_len = iter@.len();
                    proof {
                        assert(fence_entry_len < s_before.len());
                    }
                    loop
                        invariant_except_break
                            fence_close@ == closing_fence(),
                            hidden@ == hidden_line_marker(),
                            iter@.len() <= fence_entry_len,
                            rewrite_blocks(markdown@, false) == rewrite_with_prefix(
                                out@,
                                rewrite_blocks(iter@, true),
                            ),
                        ensures
                            iter@.len() <= fence_entry_len,
                            rewrite_blocks(markdown@, false) == rewrite_with_prefix(
                                out@,
                                rewrite_blocks(iter@, false),
                            ),
                        decreases iter@.len(),
                    {
                        let ghost f_before = iter@;
                        let ghost f_out_before = out@;
                        if iter.is_at_end() {
                            return Err(Error::MalformedCodeBlock);
                        }
                        let line = iter.read_line();
                        proof {
                            crate::scanner::lemma_find_byte(f_before, NEWLINE);
                            assert(line@ == split_raw_line(f_before).0);
                            assert(iter@ == split_raw_line(f_before).1);
                        }
                        let trimmed = trim_ascii_start(line);
                        if starts_with(trimmed, fence_close.as_slice()) {
                            out.extend_from_slice(line);
                            proof {
                                assert(out@ =~= f_out_before + line@);
                                lemma_rewrite_prefix_assoc(
                                    f_out_before,
                                    line@,
                                    rewrite_blocks(iter@, false),
                                );
                            }
                            break ;
                        } else if starts_with(trimmed, hidden.as_slice()) {
                            // a hidden line: dropped
                        } else {
                            out.extend_from_slice(line);
                            proof {
                                assert(out@ =~= f_out_before + line@);
                                lemma_rewrite_prefix_assoc(
                                    f_out_before,
                                    line@,
                                    rewrite_blocks(iter@, true),
                                );
                            }
                        }
                    }
                } else {
                    out.push(ch);
                    proof {
                        assert(!opens_rust_fence(s_before));
                        assert(out@ =~= out_before + seq![s_before[0]]);
                        assert(iter@ =~= s_before.skip(1));
                        lemma_rewrite_prefix_assoc(
                            out_before,
                            seq![s_before[0]],
                            rewrite_blocks(iter@, false),
                        );
                    }
                }
            },
        }
    }
}

/// What processing one section comes to: its references substituted, then
/// its fenced rust blocks rewritten.
pub open spec fn process_spec(
    s: Seq<u8>,
    base: Seq<u8>,
    store: Seq<(Seq<u8>, FileSnippetsView)>,
    glossary: Seq<(Seq<u8>, TermView)>,
    context: Context,
    resources: Seq<(KeyView, FetchedView)>,
) -> (Outcome<Seq<u8>>, Seq<(Seq<u8>, FileSnippetsView)>) {
    let resolved = resolve_refs(s, base, store, glossary, context, resources);
    (
        match resolved.0 {
            Outcome::Done(text) => match rewrite_blocks(text, false) {
                Ok(rewritten) => Outcome::Done(rewritten),
                Err(e) => Outcome::Fail(e),
            },
            other => other,
        },
        resolved.1,
    )
}

/// Processes one section's text: substitutes its references, then rewrites
/// its fenced rust blocks, as [`process_spec`] describes.
pub fn process_markdown(
    markdown: &[u8],
    base_dir: &[u8],
    snippets: &mut Snippets,
    glossary: &Vec<(Vec<u8>, Term)>,
    context: Context,
    cache: &Cache,
) -> (r: Result<Vec<u8>, Halt>)
    ensures
        final(snippets)@ == process_spec(
            markdown@,
            base_dir@,
            old(snippets)@,
            table_view(glossary@),
            context,
            cache@.resources,
        ).1,
        match r {
            Ok(text) => process_spec(
                markdown@,
                base_dir@,
                old(snippets)@,
                table_view(glossary@),
                context,
                cache@.resources,
            ).0 == Outcome::Done(text@),
            Err(halt) => process_spec(
                markdown@,
                base_dir@,
                old(snippets)@,
                table_view(glossary@),
                context,
                cache@.resources,
            ).0 == halted::<Seq<u8>>(halt@),
        },
{
    let expanded = match replace_references(markdown, base_dir, snippets, glossary, context, cache) {
        Ok(text) => text,
        Err(halt) => {
            return Err(halt);
        },
    };
    match preprocess_rust_codeblocks(expanded.as_slice()) {
        Ok(text) => Ok(text),
        Err(e) => Err(Halt::Fail(e)),
    }
}

} // verus!

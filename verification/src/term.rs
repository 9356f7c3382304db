//! Glossary terms and their rendering against an output context.
//!
//! A term is either the same text in every context, or a choice among up to
//! three texts keyed by the context flags. Rendering prefers the
//! documentation text, then the release text, then the default; a conditional
//! term with no applicable text renders as the empty string, never an error.

use vstd::prelude::*;

use crate::bytes::clone_bytes;

verus! {

/// The output context: whether the run targets documentation output, and
/// whether it targets release output.
#[derive(Clone, Copy)]
pub struct Context {
    /// True when the output is meant for rendered documentation.
    pub for_docs: bool,
    /// True when the output is generated in release mode.
    pub release: bool,
}

/// A glossary value: the same text everywhere, or a context-dependent choice.
#[derive(Debug)]
pub enum Term {
    /// A term that reads the same in every context.
    Static(Vec<u8>),
    /// A term whose text depends on the output context.
    Conditional {
        /// The text used when the documentation flag is set.
        for_docs: Option<Vec<u8>>,
        /// The text used when the release flag is set.
        release: Option<Vec<u8>>,
        /// The text used when no more specific field applies.
        default: Option<Vec<u8>>,
    },
}

/// The mathematical shape of a [`Term`].
pub ghost enum TermView {
    /// A term that reads the same in every context.
    Static(Seq<u8>),
    /// A term whose text depends on the output context.
    Conditional {
        /// The text used when the documentation flag is set.
        for_docs: Option<Seq<u8>>,
        /// The text used when the release flag is set.
        release: Option<Seq<u8>>,
        /// The text used when no more specific field applies.
        default: Option<Seq<u8>>,
    },
}

/// The view of an optional text.
pub open spec fn view_opt(v: Option<Vec<u8>>) -> Option<Seq<u8>> {
    match v {
        Some(text) => Some(text@),
        None => None,
    }
}

impl View for Term {
    type V = TermView;

    open spec fn view(&self) -> TermView {
        match *self {
            Term::Static(value) => TermView::Static(value@),
            Term::Conditional { for_docs, release, default } => TermView::Conditional {
                for_docs: view_opt(for_docs),
                release: view_opt(release),
                default: view_opt(default),
            },
        }
    }
}

/// What a term renders to in a context: the documentation text when that
/// flag is set and the text exists, else the release text under the same
/// rule, else the default, else nothing.
pub open spec fn render_term(term: TermView, context: Context) -> Seq<u8> {
    match term {
        TermView::Static(value) => value,
        TermView::Conditional { for_docs, release, default } => {
            if context.for_docs && for_docs is Some {
                for_docs->Some_0
            } else if context.release && release is Some {
                release->Some_0
            } else if default is Some {
                default->Some_0
            } else {
                Seq::empty()
            }
        },
    }
}

/// How an incoming term overrides an existing one: a static incoming term
/// replaces the existing term wholesale; a conditional incoming term takes
/// each field it carries, falls back to the existing term's field otherwise,
/// and adopts an existing static value as its default when it brings none.
pub open spec fn merged_term(existing: TermView, incoming: TermView) -> TermView {
    match incoming {
        TermView::Static(_) => incoming,
        TermView::Conditional { for_docs, release, default } => match existing {
            TermView::Static(value) => TermView::Conditional {
                for_docs,
                release,
                default: if default is Some {
                    default
                } else {
                    Some(value)
                },
            },
            TermView::Conditional {
                for_docs: prior_docs,
                release: prior_release,
                default: prior_default,
            } => TermView::Conditional {
                for_docs: if for_docs is Some {
                    for_docs
                } else {
                    prior_docs
                },
                release: if release is Some {
                    release
                } else {
                    prior_release
                },
                default: if default is Some {
                    default
                } else {
                    prior_default
                },
            },
        },
    }
}

/// A fresh copy of an optional text.
fn clone_opt(v: &Option<Vec<u8>>) -> (r: Option<Vec<u8>>)
    ensures
        view_opt(r) == view_opt(*v),
{
    match v {
        Some(text) => Some(clone_bytes(text.as_slice())),
        None => None,
    }
}

impl Term {
    /// Overrides this term with `other`, as [`merged_term`] describes.
    pub fn update_with(&mut self, other: Term)
        ensures
            final(self)@ == merged_term(old(self)@, other@),
    {
        match other {
            Term::Static(value) => {
                *self = Term::Static(value);
            },
            Term::Conditional { for_docs, release, default } => {
                let merged = match self {
                    Term::Static(value) => Term::Conditional {
                        for_docs,
                        release,
                        default: match default {
                            Some(text) => Some(text),
                            None => Some(clone_bytes(value.as_slice())),
                        },
                    },
                    Term::Conditional {
                        for_docs: prior_docs,
                        release: prior_release,
                        default: prior_default,
                    } => Term::Conditional {
                        for_docs: match for_docs {
                            Some(text) => Some(text),
                            None => clone_opt(prior_docs),
                        },
                        release: match release {
                            Some(text) => Some(text),
                            None => clone_opt(prior_release),
                        },
                        default: match default {
                            Some(text) => Some(text),
                            None => clone_opt(prior_default),
                        },
                    },
                };
                *self = merged;
            },
        }
    }

    /// The text this term contributes in `context`, as [`render_term`]
    /// describes.
    pub fn to_string(&self, context: Context) -> (r: Vec<u8>)
        ensures
            r@ == render_term(self@, context),
    {
        match self {
            Term::Static(value) => clone_bytes(value.as_slice()),
            Term::Conditional { for_docs, release, default } => {
                if context.for_docs {
                    if let Some(text) = for_docs {
                        return clone_bytes(text.as_slice());
                    }
                }
                if context.release {
                    if let Some(text) = release {
                        return clone_bytes(text.as_slice());
                    }
                }
                match default {
                    Some(text) => clone_bytes(text.as_slice()),
                    None => Vec::new(),
                }
            },
        }
    }

    /// A fresh copy of this term.
    pub fn duplicate(&self) -> (r: Term)
        ensures
            r@ == self@,
    {
        match self {
            Term::Static(value) => Term::Static(clone_bytes(value.as_slice())),
            Term::Conditional { for_docs, release, default } => Term::Conditional {
                for_docs: clone_opt(for_docs),
                release: clone_opt(release),
                default: clone_opt(default),
            },
        }
    }
}

} // verus!

//! The resource cache and the requests the engine hands out.
//!
//! The engine never reads a file or opens a connection. When it needs a
//! resource that the cache does not hold it stops and returns a [`Request`];
//! the surrounding program performs the read, fetch or parse, records the
//! outcome here, and calls the engine again. Entries are immutable once
//! inserted: within a run a resource is read once and reused.

use vstd::prelude::*;

use crate::bytes::bytes_eq;
use crate::error::Error;
use crate::term::Term;

verus! {

/// What a resource is addressed by: a local path or a URL.
#[derive(Debug)]
pub enum CacheKey {
    /// A local path, already resolved against the configuration's directory.
    Path(Vec<u8>),
    /// A remote URL, kept verbatim.
    Url(Vec<u8>),
}

/// The mathematical shape of a [`CacheKey`].
pub ghost enum KeyView {
    /// A local path.
    Path(Seq<u8>),
    /// A remote URL.
    Url(Seq<u8>),
}

impl View for CacheKey {
    type V = KeyView;

    open spec fn view(&self) -> KeyView {
        match *self {
            CacheKey::Path(path) => KeyView::Path(path@),
            CacheKey::Url(url) => KeyView::Url(url@),
        }
    }
}

impl CacheKey {
    /// A fresh copy of this key.
    pub fn duplicate(&self) -> (r: CacheKey)
        ensures
            r@ == self@,
    {
        match self {
            CacheKey::Path(path) => CacheKey::Path(crate::bytes::clone_bytes(path.as_slice())),
            CacheKey::Url(url) => CacheKey::Url(crate::bytes::clone_bytes(url.as_slice())),
        }
    }
}

/// The recorded outcome of reading or fetching one resource.
#[derive(Debug)]
pub enum Fetched {
    /// The resource was read; its text is carried.
    Found(Vec<u8>),
    /// The resource does not exist: a missing file, or a 404-equivalent
    /// response.
    Missing,
    /// Reading failed for another reason; the reported reason is carried.
    Failed(Vec<u8>),
}

/// The mathematical shape of a [`Fetched`].
pub ghost enum FetchedView {
    /// The resource was read.
    Found(Seq<u8>),
    /// The resource does not exist.
    Missing,
    /// Reading failed for another reason.
    Failed(Seq<u8>),
}

impl View for Fetched {
    type V = FetchedView;

    open spec fn view(&self) -> FetchedView {
        match *self {
            Fetched::Found(text) => FetchedView::Found(text@),
            Fetched::Missing => FetchedView::Missing,
            Fetched::Failed(reason) => FetchedView::Failed(reason@),
        }
    }
}

/// The recorded outcome of parsing a fetched glossary.
#[derive(Debug)]
pub enum ParsedGlossary {
    /// The table the glossary held, in its serialized order.
    Terms(Vec<(Vec<u8>, Term)>),
    /// Parsing failed; the reported reason is carried.
    Malformed(Vec<u8>),
}

/// The mathematical shape of a [`ParsedGlossary`].
pub ghost enum ParsedView {
    /// The table the glossary held.
    Terms(Seq<(Seq<u8>, crate::term::TermView)>),
    /// Parsing failed.
    Malformed(Seq<u8>),
}

/// The view of a term table, entry by entry.
pub open spec fn table_view(entries: Seq<(Vec<u8>, Term)>) -> Seq<(Seq<u8>, crate::term::TermView)> {
    entries.map_values(|e: (Vec<u8>, Term)| (e.0@, e.1@))
}

impl View for ParsedGlossary {
    type V = ParsedView;

    open spec fn view(&self) -> ParsedView {
        match *self {
            ParsedGlossary::Terms(entries) => ParsedView::Terms(table_view(entries@)),
            ParsedGlossary::Malformed(reason) => ParsedView::Malformed(reason@),
        }
    }
}

/// What the engine asks the surrounding program to do before it can go on.
#[derive(Debug)]
pub enum Request {
    /// Read or fetch the resource and record the outcome with
    /// [`Cache::insert_resource`].
    Fetch(CacheKey),
    /// Parse the already fetched resource as a glossary table and record the
    /// outcome with [`Cache::insert_glossary`].
    ParseGlossary(CacheKey),
}

/// The mathematical shape of a [`Request`].
pub ghost enum RequestView {
    /// Read or fetch the resource.
    Fetch(KeyView),
    /// Parse the already fetched resource as a glossary table.
    ParseGlossary(KeyView),
}

impl View for Request {
    type V = RequestView;

    open spec fn view(&self) -> RequestView {
        match *self {
            Request::Fetch(key) => RequestView::Fetch(key@),
            Request::ParseGlossary(key) => RequestView::ParseGlossary(key@),
        }
    }
}

/// Why the engine stopped short of a finished output: it needs something
/// from outside, or generation failed.
#[derive(Debug)]
pub enum Halt {
    /// The engine needs the request served before it can go on.
    Need(Request),
    /// Generation failed.
    Fail(Error),
}

/// The mathematical shape of a [`Halt`].
pub ghost enum HaltView {
    /// The engine needs the request served.
    Need(RequestView),
    /// Generation failed.
    Fail(crate::error::ErrorView),
}

impl View for Halt {
    type V = HaltView;

    open spec fn view(&self) -> HaltView {
        match *self {
            Halt::Need(request) => HaltView::Need(request@),
            Halt::Fail(error) => HaltView::Fail(error@),
        }
    }
}

/// How a step of the engine can come out: a value, a request that must be
/// served first, or a failure.
pub ghost enum Outcome<T> {
    /// The step finished with this value.
    Done(T),
    /// The step needs the request served before it can finish.
    Need(RequestView),
    /// The step failed.
    Fail(crate::error::ErrorView),
}

/// The outcome a halt stands for.
pub open spec fn halted<T>(h: HaltView) -> Outcome<T> {
    match h {
        HaltView::Need(request) => Outcome::Need(request),
        HaltView::Fail(error) => Outcome::Fail(error),
    }
}

/// The first value bound to `key` in an association list, scanning from the
/// front.
pub open spec fn assoc_find<K, V>(entries: Seq<(K, V)>, key: K) -> Option<V>
    decreases entries.len(),
{
    if entries.len() == 0 {
        None
    } else if entries[0].0 == key {
        Some(entries[0].1)
    } else {
        assoc_find(entries.skip(1), key)
    }
}

/// A key bound at `i`, with no earlier binding, is what `assoc_find` returns.
pub proof fn lemma_assoc_find_at<K, V>(entries: Seq<(K, V)>, i: int)
    requires
        0 <= i < entries.len(),
        forall|j: int| 0 <= j < i ==> entries[j].0 != entries[i].0,
    ensures
        assoc_find(entries, entries[i].0) == Some(entries[i].1),
    decreases i,
{
    if i > 0 {
        lemma_assoc_find_at(entries.skip(1), i - 1);
    }
}

/// A key bound nowhere is not found.
pub proof fn lemma_assoc_find_none<K, V>(entries: Seq<(K, V)>, key: K)
    requires
        forall|j: int| 0 <= j < entries.len() ==> entries[j].0 != key,
    ensures
        assoc_find(entries, key) is None,
    decreases entries.len(),
{
    if entries.len() > 0 {
        lemma_assoc_find_none(entries.skip(1), key);
    }
}

/// Appending a binding for an unbound key binds it and leaves every other
/// key's binding alone.
pub proof fn lemma_assoc_find_push<K, V>(entries: Seq<(K, V)>, key: K, value: V)
    requires
        assoc_find(entries, key) is None,
    ensures
        assoc_find(entries.push((key, value)), key) == Some(value),
        forall|k: K|
            k != key ==> assoc_find(entries.push((key, value)), k) == assoc_find(entries, k),
    decreases entries.len(),
{
    let appended = entries.push((key, value));
    if entries.len() == 0 {
        assert(appended.skip(1) =~= entries);
        assert(appended[0] == (key, value));
        assert forall|k: K| k != key implies assoc_find(appended, k) == assoc_find(entries, k) by {
            assert(assoc_find(appended, k) == assoc_find(appended.skip(1), k));
        }
    } else {
        assert(entries[0].0 != key);
        lemma_assoc_find_push(entries.skip(1), key, value);
        assert(appended.skip(1) =~= entries.skip(1).push((key, value)));
        assert(appended[0] == entries[0]);
        assert(assoc_find(appended, key) == assoc_find(appended.skip(1), key));
        assert forall|k: K| k != key implies assoc_find(appended, k) == assoc_find(entries, k) by {
            if appended[0].0 != k {
                assert(assoc_find(appended, k) == assoc_find(appended.skip(1), k));
                assert(assoc_find(entries, k) == assoc_find(entries.skip(1), k));
            }
        }
    }
}

/// The mathematical shape of a [`Cache`]: what each key's fetch and parse
/// came to.
pub ghost struct CacheView {
    /// Fetch outcomes, in insertion order.
    pub resources: Seq<(KeyView, FetchedView)>,
    /// Glossary parse outcomes, in insertion order.
    pub glossaries: Seq<(KeyView, ParsedView)>,
}

/// A memo of every resource read and every glossary parsed during one run.
pub struct Cache {
    resources: Vec<(CacheKey, Fetched)>,
    glossaries: Vec<(CacheKey, ParsedGlossary)>,
}

impl View for Cache {
    type V = CacheView;

    closed spec fn view(&self) -> CacheView {
        CacheView {
            resources: self.resources@.map_values(|e: (CacheKey, Fetched)| (e.0@, e.1@)),
            glossaries: self.glossaries@.map_values(
                |e: (CacheKey, ParsedGlossary)| (e.0@, e.1@),
            ),
        }
    }
}

/// Whether two keys are the same address.
fn key_eq(a: &CacheKey, b: &CacheKey) -> (r: bool)
    ensures
        r == (a@ == b@),
{
    match (a, b) {
        (CacheKey::Path(left), CacheKey::Path(right)) => bytes_eq(
            left.as_slice(),
            right.as_slice(),
        ),
        (CacheKey::Url(left), CacheKey::Url(right)) => bytes_eq(left.as_slice(), right.as_slice()),
        _ => false,
    }
}

impl Cache {
    /// An empty cache, for the start of a run.
    pub fn new() -> (r: Cache)
        ensures
            r@.resources.len() == 0,
            r@.glossaries.len() == 0,
    {
        Cache { resources: Vec::new(), glossaries: Vec::new() }
    }

    /// The recorded fetch outcome for `key`, if one was recorded.
    pub fn lookup_resource<'a>(&'a self, key: &CacheKey) -> (r: Option<&'a Fetched>)
        ensures
            match r {
                Some(found) => assoc_find(self@.resources, key@) == Some(found@),
                None => assoc_find(self@.resources, key@) is None,
            },
    {
        let n = self.resources.len();
        let mut i: usize = 0;
        while i < n
            invariant
                n == self.resources@.len(),
                0 <= i <= n,
                forall|j: int| 0 <= j < i ==> self@.resources[j].0 != key@,
            decreases n - i,
        {
            if key_eq(&self.resources[i].0, key) {
                proof {
                    lemma_assoc_find_at(self@.resources, i as int);
                }
                return Some(&self.resources[i].1);
            }
            i += 1;
        }
        proof {
            lemma_assoc_find_none(self@.resources, key@);
        }
        None
    }

    /// The recorded parse outcome for `key`, if one was recorded.
    pub fn lookup_glossary<'a>(&'a self, key: &CacheKey) -> (r: Option<&'a ParsedGlossary>)
        ensures
            match r {
                Some(found) => assoc_find(self@.glossaries, key@) == Some(found@),
                None => assoc_find(self@.glossaries, key@) is None,
            },
    {
        let n = self.glossaries.len();
        let mut i: usize = 0;
        while i < n
            invariant
                n == self.glossaries@.len(),
                0 <= i <= n,
                forall|j: int| 0 <= j < i ==> self@.glossaries[j].0 != key@,
            decreases n - i,
        {
            if key_eq(&self.glossaries[i].0, key) {
                proof {
                    lemma_assoc_find_at(self@.glossaries, i as int);
                }
                return Some(&self.glossaries[i].1);
            }
            i += 1;
        }
        proof {
            lemma_assoc_find_none(self@.glossaries, key@);
        }
        None
    }

    /// Records a fetch outcome. An already recorded key keeps its first
    /// outcome: entries never change within a run.
    pub fn insert_resource(&mut self, key: CacheKey, value: Fetched)
        ensures
            final(self)@.glossaries == old(self)@.glossaries,
            assoc_find(old(self)@.resources, key@) is Some ==> final(self)@.resources == old(
                self,
            )@.resources,
            assoc_find(old(self)@.resources, key@) is None ==> final(self)@.resources == old(
                self,
            )@.resources.push((key@, value@)),
    {
        if self.lookup_resource(&key).is_some() {
            return ;
        }
        let ghost inserted_key = key@;
        let ghost inserted_value = value@;
        self.resources.push((key, value));
        proof {
            assert(self@.resources =~= old(self)@.resources.push(
                (inserted_key, inserted_value),
            ));
            assert(self@.glossaries =~= old(self)@.glossaries);
        }
    }

    /// Records a parse outcome. An already recorded key keeps its first
    /// outcome: entries never change within a run.
    pub fn insert_glossary(&mut self, key: CacheKey, value: ParsedGlossary)
        ensures
            final(self)@.resources == old(self)@.resources,
            assoc_find(old(self)@.glossaries, key@) is Some ==> final(self)@.glossaries == old(
                self,
            )@.glossaries,
            assoc_find(old(self)@.glossaries, key@) is None ==> final(self)@.glossaries == old(
                self,
            )@.glossaries.push((key@, value@)),
    {
        if self.lookup_glossary(&key).is_some() {
            return ;
        }
        let ghost inserted_key = key@;
        let ghost inserted_value = value@;
        self.glossaries.push((key, value));
        proof {
            assert(self@.glossaries =~= old(self)@.glossaries.push(
                (inserted_key, inserted_value),
            ));
            assert(self@.resources =~= old(self)@.resources);
        }
    }
}

} // verus!

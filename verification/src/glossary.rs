//! Glossary sources and the merged term table.
//!
//! A glossary is either an inline table of terms or a reference to an
//! external, serialized table. Tables merge left to right: a later source
//! overrides an earlier one term by term, at the field level, as
//! [`merged_term`](crate::term::merged_term) describes.

use vstd::prelude::*;

use crate::bytes::{bytes_eq, clone_bytes, inline_location};
use crate::cache::table_view;
use crate::term::{merged_term, Term, TermView};

verus! {

/// A source of glossary terms.
#[derive(Debug)]
pub enum Glossary {
    /// A reference (a URL or a path) to a serialized table of terms.
    External(Vec<u8>),
    /// A table of terms written in place.
    Inline(Vec<(Vec<u8>, Term)>),
}

/// The mathematical shape of a [`Glossary`].
pub ghost enum GlossaryView {
    /// A reference to a serialized table of terms.
    External(Seq<u8>),
    /// A table of terms written in place.
    Inline(Seq<(Seq<u8>, TermView)>),
}

impl View for Glossary {
    type V = GlossaryView;

    open spec fn view(&self) -> GlossaryView {
        match *self {
            Glossary::External(reference) => GlossaryView::External(reference@),
            Glossary::Inline(entries) => GlossaryView::Inline(table_view(entries@)),
        }
    }
}

impl Glossary {
    /// Where this glossary came from, for diagnostics: the reference of an
    /// external glossary, the fixed text `(inline)` otherwise.
    pub fn location(&self) -> (r: Vec<u8>)
        ensures
            r@ == match self {
                Glossary::External(reference) => reference@,
                Glossary::Inline(_) => inline_location(),
            },
    {
        match self {
            Glossary::External(reference) => clone_bytes(reference.as_slice()),
            Glossary::Inline(_) => crate::bytes::inline_location_bytes(),
        }
    }
}

/// The first term bound to `key` in a table, scanning from the front.
pub open spec fn table_find(entries: Seq<(Vec<u8>, Term)>, key: Seq<u8>) -> Option<TermView>
    decreases entries.len(),
{
    if entries.len() == 0 {
        None
    } else if entries[0].0@ == key {
        Some(entries[0].1@)
    } else {
        table_find(entries.skip(1), key)
    }
}

/// A key bound at `i`, with no earlier binding, is what `table_find` returns.
pub proof fn lemma_table_find_at(entries: Seq<(Vec<u8>, Term)>, i: int)
    requires
        0 <= i < entries.len(),
        forall|j: int| 0 <= j < i ==> entries[j].0@ != entries[i].0@,
    ensures
        table_find(entries, entries[i].0@) == Some(entries[i].1@),
    decreases i,
{
    if i > 0 {
        lemma_table_find_at(entries.skip(1), i - 1);
    }
}

/// A key bound nowhere is not found.
pub proof fn lemma_table_find_none(entries: Seq<(Vec<u8>, Term)>, key: Seq<u8>)
    requires
        forall|j: int| 0 <= j < entries.len() ==> entries[j].0@ != key,
    ensures
        table_find(entries, key) is None,
    decreases entries.len(),
{
    if entries.len() > 0 {
        lemma_table_find_none(entries.skip(1), key);
    }
}

/// Replacing the term at `i`, the first binding of its key, rebinds that key
/// and leaves every other key's binding alone.
pub proof fn lemma_table_find_update(entries: Seq<(Vec<u8>, Term)>, i: int, term: Term)
    requires
        0 <= i < entries.len(),
        forall|j: int| 0 <= j < i ==> entries[j].0@ != entries[i].0@,
    ensures
        table_find(entries.update(i, (entries[i].0, term)), entries[i].0@) == Some(term@),
        forall|k: Seq<u8>|
            k != entries[i].0@ ==> table_find(entries.update(i, (entries[i].0, term)), k)
                == table_find(entries, k),
    decreases i,
{
    let updated = entries.update(i, (entries[i].0, term));
    if i == 0 {
        assert(updated.skip(1) =~= entries.skip(1));
        assert(updated[0].0@ == entries[0].0@ && updated[0].1 == term);
        assert forall|k: Seq<u8>| k != entries[0].0@ implies table_find(updated, k) == table_find(
            entries,
            k,
        ) by {
            assert(table_find(updated, k) == table_find(updated.skip(1), k));
            assert(table_find(entries, k) == table_find(entries.skip(1), k));
        }
    } else {
        lemma_table_find_update(entries.skip(1), i - 1, term);
        assert(updated.skip(1) =~= entries.skip(1).update(i - 1, (entries.skip(1)[i - 1].0, term)));
        assert(updated[0] == entries[0]);
        assert(entries.skip(1)[i - 1] == entries[i]);
        assert(entries[0].0@ != entries[i].0@);
        assert(table_find(updated, entries[i].0@) == table_find(updated.skip(1), entries[i].0@));
        assert(table_find(updated, entries[i].0@) == Some(term@));
        assert forall|k: Seq<u8>| k != entries[i].0@ implies table_find(updated, k) == table_find(
            entries,
            k,
        ) by {
            if updated[0].0@ != k {
                assert(table_find(updated, k) == table_find(updated.skip(1), k));
                assert(table_find(entries, k) == table_find(entries.skip(1), k));
            }
        }
    }
}

/// Appending a binding for an unbound key binds it and leaves every other
/// key's binding alone.
pub proof fn lemma_table_find_push(entries: Seq<(Vec<u8>, Term)>, key: Vec<u8>, term: Term)
    requires
        table_find(entries, key@) is None,
    ensures
        table_find(entries.push((key, term)), key@) == Some(term@),
        forall|k: Seq<u8>|
            k != key@ ==> table_find(entries.push((key, term)), k) == table_find(entries, k),
    decreases entries.len(),
{
    let appended = entries.push((key, term));
    if entries.len() == 0 {
        assert(appended.skip(1) =~= entries);
        assert(appended[0] == (key, term));
        assert forall|k: Seq<u8>| k != key@ implies table_find(appended, k) == table_find(
            entries,
            k,
        ) by {
            assert(table_find(appended, k) == table_find(appended.skip(1), k));
        }
    } else {
        assert(entries[0].0@ != key@);
        lemma_table_find_push(entries.skip(1), key, term);
        assert(appended.skip(1) =~= entries.skip(1).push((key, term)));
        assert(appended[0] == entries[0]);
        assert(table_find(appended, key@) == table_find(appended.skip(1), key@));
        assert forall|k: Seq<u8>| k != key@ implies table_find(appended, k) == table_find(
            entries,
            k,
        ) by {
            if appended[0].0@ != k {
                assert(table_find(appended, k) == table_find(appended.skip(1), k));
                assert(table_find(entries, k) == table_find(entries.skip(1), k));
            }
        }
    }
}

/// Tables whose entries agree view by view give the same lookups.
pub proof fn lemma_table_find_congruent(a: Seq<(Vec<u8>, Term)>, b: Seq<(Vec<u8>, Term)>)
    requires
        a.len() == b.len(),
        forall|i: int| 0 <= i < a.len() ==> a[i].0@ == b[i].0@ && a[i].1@ == b[i].1@,
    ensures
        forall|k: Seq<u8>| table_find(a, k) == table_find(b, k),
    decreases a.len(),
{
    if a.len() > 0 {
        lemma_table_find_congruent(a.skip(1), b.skip(1));
        assert forall|k: Seq<u8>| table_find(a, k) == table_find(b, k) by {
            assert(a[0].0@ == b[0].0@ && a[0].1@ == b[0].1@);
            if a[0].0@ != k {
                assert(table_find(a, k) == table_find(a.skip(1), k));
                assert(table_find(b, k) == table_find(b.skip(1), k));
            }
        }
    }
}

/// The first position binding `key` in a table view, or `-1`.
pub open spec fn table_index_of(t: Seq<(Seq<u8>, TermView)>, key: Seq<u8>) -> int
    decreases t.len(),
{
    if t.len() == 0 {
        -1
    } else if t[0].0 == key {
        0
    } else {
        let rest = table_index_of(t.skip(1), key);
        if rest < 0 {
            -1
        } else {
            rest + 1
        }
    }
}

/// A key bound first at `i` has that index.
pub proof fn lemma_table_index_of_at(t: Seq<(Seq<u8>, TermView)>, i: int)
    requires
        0 <= i < t.len(),
        forall|j: int| 0 <= j < i ==> t[j].0 != t[i].0,
    ensures
        table_index_of(t, t[i].0) == i,
    decreases i,
{
    if i > 0 {
        lemma_table_index_of_at(t.skip(1), i - 1);
    }
}

/// A key bound nowhere has no index.
pub proof fn lemma_table_index_of_none(t: Seq<(Seq<u8>, TermView)>, key: Seq<u8>)
    requires
        forall|j: int| 0 <= j < t.len() ==> t[j].0 != key,
    ensures
        table_index_of(t, key) == -1,
    decreases t.len(),
{
    if t.len() > 0 {
        lemma_table_index_of_none(t.skip(1), key);
    }
}

/// One binding merged into a table view: an existing key keeps its place and
/// has its term overridden as [`merged_term`] describes; a new key is
/// appended.
pub open spec fn table_merge_term(
    t: Seq<(Seq<u8>, TermView)>,
    key: Seq<u8>,
    term: TermView,
) -> Seq<(Seq<u8>, TermView)> {
    let i = table_index_of(t, key);
    if i >= 0 {
        t.update(i, (t[i].0, merged_term(t[i].1, term)))
    } else {
        t.push((key, term))
    }
}

/// Every binding of `incoming` merged into `t`, in order.
pub open spec fn table_merge_all(
    t: Seq<(Seq<u8>, TermView)>,
    incoming: Seq<(Seq<u8>, TermView)>,
) -> Seq<(Seq<u8>, TermView)>
    decreases incoming.len(),
{
    if incoming.len() == 0 {
        t
    } else {
        table_merge_all(table_merge_term(t, incoming[0].0, incoming[0].1), incoming.skip(1))
    }
}

/// Merging grows from the right one binding at a time.
pub proof fn lemma_table_merge_all_push(
    t: Seq<(Seq<u8>, TermView)>,
    incoming: Seq<(Seq<u8>, TermView)>,
    binding: (Seq<u8>, TermView),
)
    ensures
        table_merge_all(t, incoming.push(binding)) == table_merge_term(
            table_merge_all(t, incoming),
            binding.0,
            binding.1,
        ),
    decreases incoming.len(),
{
    let appended = incoming.push(binding);
    if incoming.len() == 0 {
        assert(appended[0] == binding);
        assert(appended.skip(1) =~= Seq::<(Seq<u8>, TermView)>::empty());
        assert(table_merge_all(t, appended) == table_merge_all(
            table_merge_term(t, binding.0, binding.1),
            appended.skip(1),
        ));
        assert(table_merge_all(t, appended) == table_merge_term(t, binding.0, binding.1));
        assert(table_merge_all(t, incoming) == t);
    } else {
        assert(appended[0] == incoming[0]);
        assert(appended.skip(1) =~= incoming.skip(1).push(binding));
        lemma_table_merge_all_push(
            table_merge_term(t, incoming[0].0, incoming[0].1),
            incoming.skip(1),
            binding,
        );
        assert(table_merge_all(t, appended) == table_merge_all(
            table_merge_term(t, incoming[0].0, incoming[0].1),
            incoming.skip(1).push(binding),
        ));
        assert(table_merge_all(t, incoming) == table_merge_all(
            table_merge_term(t, incoming[0].0, incoming[0].1),
            incoming.skip(1),
        ));
    }
}

/// The first term bound to `key`, or `None` when the table does not bind it.
pub fn table_get<'a>(entries: &'a Vec<(Vec<u8>, Term)>, key: &[u8]) -> (r: Option<&'a Term>)
    ensures
        match r {
            Some(term) => table_find(entries@, key@) == Some(term@),
            None => table_find(entries@, key@) is None,
        },
{
    let n = entries.len();
    let mut i: usize = 0;
    while i < n
        invariant
            n == entries@.len(),
            0 <= i <= n,
            forall|j: int| 0 <= j < i ==> entries@[j].0@ != key@,
        decreases n - i,
    {
        if bytes_eq(entries[i].0.as_slice(), key) {
            proof {
                lemma_table_find_at(entries@, i as int);
            }
            return Some(&entries[i].1);
        }
        i += 1;
    }
    proof {
        lemma_table_find_none(entries@, key@);
    }
    None
}

/// Binds `key` to `term` in `combined`: a key already bound keeps its place
/// and has its term overridden as [`merged_term`] describes; a new key is
/// appended. No other key's binding changes.
pub fn merge_term(combined: &mut Vec<(Vec<u8>, Term)>, key: Vec<u8>, term: Term)
    ensures
        table_view(final(combined)@) == table_merge_term(table_view(old(combined)@), key@, term@),
        table_find(final(combined)@, key@) == Some(
            match table_find(old(combined)@, key@) {
                Some(existing) => merged_term(existing, term@),
                None => term@,
            },
        ),
        forall|k: Seq<u8>|
            k != key@ ==> table_find(final(combined)@, k) == table_find(old(combined)@, k),
{
    let n = combined.len();
    let mut i: usize = 0;
    while i < n
        invariant
            n == combined@.len(),
            0 <= i <= n,
            combined@ == old(combined)@,
            forall|j: int| 0 <= j < i ==> combined@[j].0@ != key@,
        decreases n - i,
    {
        if bytes_eq(combined[i].0.as_slice(), key.as_slice()) {
            proof {
                lemma_table_find_at(combined@, i as int);
            }
            let mut entry = combined.remove(i);
            entry.1.update_with(term);
            combined.insert(i, entry);
            proof {
                assert(combined@ =~= old(combined)@.update(
                    i as int,
                    (old(combined)@[i as int].0, combined@[i as int].1),
                ));
                lemma_table_find_update(old(combined)@, i as int, combined@[i as int].1);
                let tv = table_view(old(combined)@);
                assert forall|j: int| 0 <= j < i implies tv[j].0 != tv[i as int].0 by {
                    assert(tv[j].0 == old(combined)@[j].0@);
                }
                lemma_table_index_of_at(tv, i as int);
                assert(table_view(combined@) =~= tv.update(
                    i as int,
                    (tv[i as int].0, merged_term(tv[i as int].1, term@)),
                ));
            }
            return ;
        }
        i += 1;
    }
    proof {
        lemma_table_find_none(combined@, key@);
    }
    let ghost appended_key = key;
    let ghost appended_term = term;
    combined.push((key, term));
    proof {
        lemma_table_find_push(old(combined)@, appended_key, appended_term);
        assert(combined@ =~= old(combined)@.push((appended_key, appended_term)));
        let tv = table_view(old(combined)@);
        assert forall|j: int| 0 <= j < tv.len() implies tv[j].0 != appended_key@ by {
            assert(tv[j].0 == old(combined)@[j].0@);
        }
        lemma_table_index_of_none(tv, appended_key@);
        assert(table_view(combined@) =~= tv.push((appended_key@, appended_term@)));
    }
}

/// Merges every binding of `incoming`, in order, into `combined`, as
/// [`table_merge_all`] describes.
pub fn merge_table(combined: &mut Vec<(Vec<u8>, Term)>, incoming: &Vec<(Vec<u8>, Term)>)
    ensures
        table_view(final(combined)@) == table_merge_all(
            table_view(old(combined)@),
            table_view(incoming@),
        ),
{
    let ghost t0 = table_view(old(combined)@);
    let ghost inc = table_view(incoming@);
    let n = incoming.len();
    let mut i: usize = 0;
    proof {
        assert(inc.take(0) =~= Seq::<(Seq<u8>, TermView)>::empty());
    }
    while i < n
        invariant
            t0 == table_view(old(combined)@),
            inc == table_view(incoming@),
            n == incoming@.len(),
            0 <= i <= n,
            table_view(combined@) == table_merge_all(t0, inc.take(i as int)),
        decreases n - i,
    {
        let key = clone_bytes(incoming[i].0.as_slice());
        let term = incoming[i].1.duplicate();
        let ghost before = table_view(combined@);
        merge_term(combined, key, term);
        proof {
            assert(inc.take(i as int).push(inc[i as int]) =~= inc.take(i as int + 1));
            lemma_table_merge_all_push(t0, inc.take(i as int), inc[i as int]);
            assert(inc[i as int] == (incoming@[i as int].0@, incoming@[i as int].1@));
        }
        i += 1;
    }
    proof {
        assert(inc.take(n as int) =~= inc);
    }
}

/// A fresh table with the same bindings.
pub fn table_duplicate(entries: &Vec<(Vec<u8>, Term)>) -> (r: Vec<(Vec<u8>, Term)>)
    ensures
        r@.len() == entries@.len(),
        forall|i: int| 0 <= i < entries@.len() ==> r@[i].0@ == entries@[i].0@ && r@[i].1@
            == entries@[i].1@,
        forall|k: Seq<u8>| table_find(r@, k) == table_find(entries@, k),
{
    let n = entries.len();
    let mut out: Vec<(Vec<u8>, Term)> = Vec::new();
    let mut i: usize = 0;
    while i < n
        invariant
            n == entries@.len(),
            0 <= i <= n,
            out@.len() == i,
            forall|j: int| 0 <= j < i ==> out@[j].0@ == entries@[j].0@ && out@[j].1@
                == entries@[j].1@,
        decreases n - i,
    {
        let key = clone_bytes(entries[i].0.as_slice());
        let term = entries[i].1.duplicate();
        out.push((key, term));
        i += 1;
    }
    proof {
        lemma_table_find_congruent(out@, entries@);
    }
    out
}

} // verus!

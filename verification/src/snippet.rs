//! Snippet extraction: named regions of arbitrary source files, delimited by
//! begin/end marker lines, with the shared leading column stripped.
//!
//! A source file is scanned once per run. Every named region is stored under
//! its name, and the whole, untouched file text is stored beside them, so a
//! reference without a name resolves to the whole file.

use vstd::prelude::*;

use crate::bytes::{
    ascii_punct, ascii_space, begin_marker, begin_marker_bytes, bytes_eq, clone_bytes, contains_sub,
    end_marker, end_marker_bytes, find_sub, find_subslice, is_ascii_punct, is_ascii_space, join_path,
    join_path_spec, lemma_find_sub, take_until_byte, trim_ascii, trim_end_spec, trim_start_spec,
    CARRIAGE_RETURN, COLON,
};
use crate::cache::{assoc_find, lemma_assoc_find_none, lemma_assoc_find_push};
use crate::error::Error;
use crate::scanner::{find_byte, NEWLINE};

verus! {

/// The view of a sequence of owned lines.
pub open spec fn lines_view(lines: Seq<Vec<u8>>) -> Seq<Seq<u8>> {
    lines.map_values(|l: Vec<u8>| l@)
}

/// Whether one more column may be stripped after `r` columns already were:
/// every line still has a byte there, all lines agree on it, and it is ASCII
/// whitespace or punctuation (the shared indentation-or-comment column).
pub open spec fn round_ok(lines: Seq<Seq<u8>>, r: int) -> bool {
    &&& lines.len() > 0
    &&& forall|i: int|
        0 <= i < lines.len() ==> (#[trigger] lines[i]).len() > r && lines[i][r] == lines[0][r]
    &&& (is_ascii_space(lines[0][r]) || is_ascii_punct(lines[0][r]))
}

/// Whether `n` columns may be stripped in turn.
pub open spec fn strip_ok(lines: Seq<Seq<u8>>, n: int) -> bool {
    0 <= n && forall|r: int| 0 <= r < n ==> round_ok(lines, r)
}

/// How many columns stripping removes: the unique count whose rounds all
/// hold and whose next round does not.
pub open spec fn strip_count(lines: Seq<Seq<u8>>) -> int {
    choose|n: int| strip_ok(lines, n) && !round_ok(lines, n)
}

/// A stopping count exists at or above any count whose rounds all hold.
proof fn lemma_strip_count_exists_from(lines: Seq<Seq<u8>>, k: int)
    requires
        strip_ok(lines, k),
    ensures
        exists|n: int| strip_ok(lines, n) && !round_ok(lines, n),
    decreases (if lines.len() > 0 && round_ok(lines, k) {
        lines[0].len() - k
    } else {
        0int
    }),
{
    if round_ok(lines, k) {
        assert(strip_ok(lines, k + 1));
        lemma_strip_count_exists_from(lines, k + 1);
    } else {
        assert(strip_ok(lines, k) && !round_ok(lines, k));
    }
}

/// The stopping count is well defined and unique.
pub proof fn lemma_strip_count(lines: Seq<Seq<u8>>)
    ensures
        strip_ok(lines, strip_count(lines)),
        !round_ok(lines, strip_count(lines)),
        forall|n: int| strip_ok(lines, n) && !round_ok(lines, n) ==> n == strip_count(lines),
{
    lemma_strip_count_exists_from(lines, 0);
    let c = strip_count(lines);
    assert(strip_ok(lines, c) && !round_ok(lines, c));
    assert forall|n: int| strip_ok(lines, n) && !round_ok(lines, n) implies n == c by {
        if n < c {
            assert(round_ok(lines, n));
        } else if n > c {
            assert(round_ok(lines, c));
        }
    }
}

/// The lines with their shared leading column stripped.
pub open spec fn strip_shared(lines: Seq<Seq<u8>>) -> Seq<Seq<u8>> {
    lines.map_values(|l: Seq<u8>| l.skip(strip_count(lines)))
}

/// Whether one more column may be stripped, decided on the lines as they
/// stand.
fn check_round(lines: &Vec<Vec<u8>>, r: usize) -> (ok: bool)
    ensures
        ok == round_ok(lines_view(lines@), r as int),
{
    let ghost lv = lines_view(lines@);
    if lines.len() == 0 {
        return false;
    }
    if lines[0].len() <= r {
        assert(!round_ok(lv, r as int)) by {
            assert(lv[0].len() <= r);
        }
        return false;
    }
    let lead = lines[0][r];
    if !(ascii_space(lead) || ascii_punct(lead)) {
        assert(lv[0][r as int] == lead);
        return false;
    }
    let n = lines.len();
    let mut i: usize = 0;
    while i < n
        invariant
            n == lines@.len(),
            0 <= i <= n,
            lv == lines_view(lines@),
            r < lines@[0]@.len(),
            lead == lv[0][r as int],
            is_ascii_space(lead) || is_ascii_punct(lead),
            forall|j: int| 0 <= j < i ==> (#[trigger] lv[j]).len() > r && lv[j][r as int] == lead,
        decreases n - i,
    {
        if lines[i].len() <= r {
            assert(lv[i as int].len() <= r);
            return false;
        }
        if lines[i][r] != lead {
            assert(lv[i as int][r as int] != lead);
            return false;
        }
        i += 1;
    }
    true
}

/// Strips the shared leading whitespace-or-punctuation column from every
/// line, one column at a time, until a column is no longer shared or
/// strippable; returns how many columns went.
pub fn remove_shared_prefix(lines: &mut Vec<Vec<u8>>) -> (stripped: usize)
    ensures
        stripped as int == strip_count(lines_view(old(lines)@)),
        strip_ok(lines_view(old(lines)@), stripped as int),
        !round_ok(lines_view(old(lines)@), stripped as int),
        lines_view(final(lines)@) == strip_shared(lines_view(old(lines)@)),
{
    let ghost lv = lines_view(old(lines)@);
    let mut count: usize = 0;
    while check_round(lines, count)
        invariant
            lines@ == old(lines)@,
            lv == lines_view(lines@),
            strip_ok(lv, count as int),
            lines@.len() > 0 ==> count <= lines@[0]@.len(),
        decreases (if lines@.len() > 0 {
            lines@[0]@.len() - count
        } else {
            0int
        }),
    {
        proof {
            assert(round_ok(lv, count as int));
            assert forall|r: int| 0 <= r < count + 1 implies round_ok(lv, r) by {}
        }
        let first_len = lines[0].len();
        proof {
            assert(count < first_len);
        }
        count += 1;
    }
    proof {
        lemma_strip_count(lv);
    }
    let n = lines.len();
    let mut out: Vec<Vec<u8>> = Vec::new();
    let mut i: usize = 0;
    while i < n
        invariant
            n == lines@.len(),
            0 <= i <= n,
            lines@ == old(lines)@,
            lv == lines_view(lines@),
            strip_ok(lv, count as int),
            out@.len() == i,
            forall|j: int| 0 <= j < i ==> (#[trigger] out@[j])@ == lv[j].skip(count as int),
        decreases n - i,
    {
        proof {
            if count > 0 {
                assert(round_ok(lv, count as int - 1));
                assert(lv[i as int].len() > count - 1);
            }
        }
        let (_, tail) = lines[i].as_slice().split_at(count);
        out.push(clone_bytes(tail));
        i += 1;
    }
    proof {
        assert(lines_view(out@) =~= strip_shared(lv));
    }
    *lines = out;
    count
}

/// The lines joined with single newlines, no terminator.
pub open spec fn joined_lines(lines: Seq<Seq<u8>>) -> Seq<u8>
    decreases lines.len(),
{
    if lines.len() == 0 {
        Seq::empty()
    } else if lines.len() == 1 {
        lines[0]
    } else {
        lines[0] + seq![NEWLINE] + joined_lines(lines.skip(1))
    }
}

/// Joining grows from the right one line at a time.
pub proof fn lemma_joined_lines_push(lines: Seq<Seq<u8>>, line: Seq<u8>)
    ensures
        joined_lines(lines.push(line)) == if lines.len() == 0 {
            line
        } else {
            joined_lines(lines) + seq![NEWLINE] + line
        },
    decreases lines.len(),
{
    let appended = lines.push(line);
    if lines.len() == 0 {
        assert(appended[0] == line);
    } else if lines.len() == 1 {
        assert(appended.skip(1) =~= seq![line]);
        assert(joined_lines(appended.skip(1)) == line);
        assert(appended[0] == lines[0]);
    } else {
        lemma_joined_lines_push(lines.skip(1), line);
        assert(appended.skip(1) =~= lines.skip(1).push(line));
        assert(appended[0] == lines[0]);
        assert(lines[0] + seq![NEWLINE] + (joined_lines(lines.skip(1)) + seq![NEWLINE] + line) =~= (
        lines[0] + seq![NEWLINE] + joined_lines(lines.skip(1))) + seq![NEWLINE] + line);
    }
}

/// The lines joined with single newlines.
pub fn join_lines(lines: &Vec<Vec<u8>>) -> (r: Vec<u8>)
    ensures
        r@ == joined_lines(lines_view(lines@)),
{
    let ghost lv = lines_view(lines@);
    let n = lines.len();
    if n == 0 {
        return Vec::new();
    }
    let mut out = clone_bytes(lines[0].as_slice());
    proof {
        assert(lv.take(1) =~= seq![lv[0]]);
        assert(joined_lines(lv.take(1)) == lv[0]);
    }
    let mut i: usize = 1;
    while i < n
        invariant
            n == lines@.len(),
            1 <= i <= n,
            lv == lines_view(lines@),
            out@ == joined_lines(lv.take(i as int)),
        decreases n - i,
    {
        out.push(NEWLINE);
        out.extend_from_slice(lines[i].as_slice());
        proof {
            lemma_joined_lines_push(lv.take(i as int), lv[i as int]);
            assert(lv.take(i as int).push(lv[i as int]) =~= lv.take(i as int + 1));
            assert(out@ =~= joined_lines(lv.take(i as int)) + seq![NEWLINE] + lv[i as int]);
        }
        i += 1;
    }
    proof {
        assert(lv.take(n as int) =~= lv);
    }
    out
}

/// The view of a sequence of owned byte pairs.
pub open spec fn pairs_view(entries: Seq<(Vec<u8>, Vec<u8>)>) -> Seq<(Seq<u8>, Seq<u8>)> {
    entries.map_values(|e: (Vec<u8>, Vec<u8>)| (e.0@, e.1@))
}

/// One trailing carriage return removed: a line that ended in a carriage
/// return and a newline keeps neither.
pub open spec fn strip_cr(line: Seq<u8>) -> Seq<u8> {
    if line.len() > 0 && line[line.len() - 1] == CARRIAGE_RETURN {
        line.drop_last()
    } else {
        line
    }
}

/// The first line of `s` (its newline, and a carriage return before it,
/// dropped) and everything after it.
pub open spec fn split_line(s: Seq<u8>) -> (Seq<u8>, Seq<u8>) {
    let i = find_byte(s, NEWLINE);
    if 0 <= i < s.len() {
        (strip_cr(s.take(i)), s.skip(i + 1))
    } else {
        (s, Seq::empty())
    }
}

/// Where the begin phrase starts in a line, or `-1`.
pub open spec fn begin_at(line: Seq<u8>) -> int {
    find_sub(line, begin_marker())
}

/// Whether a line opens a region.
pub open spec fn is_begin_line(line: Seq<u8>) -> bool {
    begin_at(line) >= 0
}

/// Whether a line closes a region.
pub open spec fn is_end_line(line: Seq<u8>) -> bool {
    contains_sub(line, end_marker())
}

/// The name a begin line declares: the first space-delimited token of what
/// follows the phrase, whitespace around it ignored.
pub open spec fn begin_name(line: Seq<u8>) -> Seq<u8> {
    let after = line.skip(begin_at(line) + begin_marker().len());
    let trimmed = trim_end_spec(trim_start_spec(after));
    let i = find_byte(trimmed, crate::bytes::SPACE);
    if i >= 0 {
        trimmed.take(i)
    } else {
        trimmed
    }
}

/// The open region a scan stands in: its name and collected lines.
pub open spec fn open_view(name: Option<Vec<u8>>, lines: Seq<Vec<u8>>) -> Option<
    (Seq<u8>, Seq<Seq<u8>>),
> {
    match name {
        Some(n) => Some((n@, lines_view(lines))),
        None => None,
    }
}

/// Whether `done` already holds a region of this name.
pub open spec fn region_names_has(done: Seq<(Seq<u8>, Seq<u8>)>, name: Seq<u8>) -> bool {
    exists|i: int| 0 <= i < done.len() && done[i].0 == name
}

/// What a region's collected lines become: the shared column stripped, the
/// lines joined with newlines.
pub open spec fn region_text(lines: Seq<Seq<u8>>) -> Seq<u8> {
    joined_lines(strip_shared(lines))
}

/// The region scan, line by line. A begin line opens a region, discarding
/// any already open one; an end line closes the open region, or fails when
/// none is open; a second region under one name fails; other lines collect
/// into the open region, or pass. A region left open at the end is dropped.
pub open spec fn scan_regions(
    s: Seq<u8>,
    open_region: Option<(Seq<u8>, Seq<Seq<u8>>)>,
    done: Seq<(Seq<u8>, Seq<u8>)>,
) -> Result<Seq<(Seq<u8>, Seq<u8>)>, crate::error::ErrorView>
    decreases s.len(),
{
    if s.len() == 0 {
        Ok(done)
    } else {
        let parts = split_line(s);
        let line = parts.0;
        let rest = parts.1;
        if is_begin_line(line) {
            scan_regions(rest, Some((begin_name(line), Seq::empty())), done)
        } else if is_end_line(line) {
            match open_region {
                Some(region) => if region_names_has(done, region.0) {
                    Err(crate::error::ErrorView::SnippetAlreadyDefined(region.0))
                } else {
                    scan_regions(rest, None, done.push((region.0, region_text(region.1))))
                },
                None => Err(crate::error::ErrorView::MalformedSnippet),
            }
        } else {
            match open_region {
                Some(region) => scan_regions(rest, Some((region.0, region.1.push(line))), done),
                None => scan_regions(rest, None, done),
            }
        }
    }
}

/// Every region a source file defines, in order, or the error its markers
/// give.
pub open spec fn scan_file(contents: Seq<u8>) -> Result<
    Seq<(Seq<u8>, Seq<u8>)>,
    crate::error::ErrorView,
> {
    scan_regions(contents, None, Seq::empty())
}

/// The extracted content of one source file: the whole text, and each named
/// region's stripped text.
#[derive(Debug)]
pub struct FileSnippets {
    /// The file's raw text, stored whole.
    pub whole: Vec<u8>,
    /// Each region's name and stripped text, in order of completion.
    pub regions: Vec<(Vec<u8>, Vec<u8>)>,
}

/// The mathematical shape of a [`FileSnippets`].
pub ghost struct FileSnippetsView {
    /// The file's raw text.
    pub whole: Seq<u8>,
    /// Each region's name and stripped text.
    pub regions: Seq<(Seq<u8>, Seq<u8>)>,
}

impl View for FileSnippets {
    type V = FileSnippetsView;

    open spec fn view(&self) -> FileSnippetsView {
        FileSnippetsView { whole: self.whole@, regions: pairs_view(self.regions@) }
    }
}

/// The snippet store: each loaded file's extracted content, keyed by the
/// reference path that loaded it. A file is loaded at most once per run.
pub struct Snippets {
    files: Vec<(Vec<u8>, FileSnippets)>,
}

impl View for Snippets {
    type V = Seq<(Seq<u8>, FileSnippetsView)>;

    closed spec fn view(&self) -> Seq<(Seq<u8>, FileSnippetsView)> {
        self.files@.map_values(|e: (Vec<u8>, FileSnippets)| (e.0@, e.1@))
    }
}

impl Snippets {
    /// An empty store, for the start of a run.
    pub fn new() -> (r: Snippets)
        ensures
            r@.len() == 0,
    {
        Snippets { files: Vec::new() }
    }

    /// The loaded content of the file `path` referred to, if it was loaded.
    pub fn get_file<'a>(&'a self, path: &[u8]) -> (r: Option<&'a FileSnippets>)
        ensures
            match r {
                Some(file) => assoc_find(self@, path@) == Some(file@),
                None => assoc_find(self@, path@) is None,
            },
    {
        let n = self.files.len();
        let mut i: usize = 0;
        while i < n
            invariant
                n == self.files@.len(),
                0 <= i <= n,
                forall|j: int| 0 <= j < i ==> self@[j].0 != path@,
            decreases n - i,
        {
            if bytes_eq(self.files[i].0.as_slice(), path) {
                proof {
                    crate::cache::lemma_assoc_find_at(self@, i as int);
                }
                return Some(&self.files[i].1);
            }
            i += 1;
        }
        proof {
            lemma_assoc_find_none(self@, path@);
        }
        None
    }

    /// Whether the file `path` refers to was loaded.
    pub fn contains_file(&self, path: &[u8]) -> (r: bool)
        ensures
            r == (assoc_find(self@, path@) is Some),
    {
        self.get_file(path).is_some()
    }

    /// Records a loaded file. An already recorded path keeps its first
    /// content: a file is loaded once per run.
    pub fn insert_file(&mut self, path: Vec<u8>, entry: FileSnippets)
        ensures
            assoc_find(old(self)@, path@) is Some ==> final(self)@ == old(self)@,
            assoc_find(old(self)@, path@) is None ==> final(self)@ == old(self)@.push(
                (path@, entry@),
            ),
    {
        if self.contains_file(path.as_slice()) {
            return ;
        }
        let ghost inserted_path = path@;
        let ghost inserted_entry = entry@;
        self.files.push((path, entry));
        proof {
            assert(self@ =~= old(self)@.push((inserted_path, inserted_entry)));
        }
    }
}

/// Whether a region of this name was already completed.
fn names_contains(done: &Vec<(Vec<u8>, Vec<u8>)>, name: &[u8]) -> (r: bool)
    ensures
        r == region_names_has(pairs_view(done@), name@),
{
    let n = done.len();
    let mut i: usize = 0;
    while i < n
        invariant
            n == done@.len(),
            0 <= i <= n,
            forall|j: int| 0 <= j < i ==> pairs_view(done@)[j].0 != name@,
        decreases n - i,
    {
        if bytes_eq(done[i].0.as_slice(), name) {
            proof {
                assert(pairs_view(done@)[i as int].0 == name@);
            }
            return true;
        }
        i += 1;
    }
    false
}

/// Scans `contents` for regions and records the result in the store under
/// `ref_path`, exactly as [`scan_file`] describes; the whole text is stored
/// beside the regions. On a scan error the store is left unchanged.
pub fn load_snippets(ref_path: &[u8], contents: &[u8], snippets: &mut Snippets) -> (r: Result<
    (),
    Error,
>)
    ensures
        match r {
            Ok(()) => scan_file(contents@) is Ok && (if assoc_find(old(snippets)@, ref_path@)
                is None {
                final(snippets)@ == old(snippets)@.push(
                    (
                        ref_path@,
                        FileSnippetsView {
                            whole: contents@,
                            regions: scan_file(contents@)->Ok_0,
                        },
                    ),
                )
            } else {
                final(snippets)@ == old(snippets)@
            }),
            Err(e) => scan_file(contents@) == Result::<
                Seq<(Seq<u8>, Seq<u8>)>,
                crate::error::ErrorView,
            >::Err(e@) && final(snippets)@ == old(snippets)@,
        },
{
    let begin_bytes = begin_marker_bytes();
    let end_bytes = end_marker_bytes();
    let mut iter = crate::scanner::StrByteIterator::new(contents);
    let mut current_name: Option<Vec<u8>> = None;
    let mut current_lines: Vec<Vec<u8>> = Vec::new();
    let mut done: Vec<(Vec<u8>, Vec<u8>)> = Vec::new();
    proof {
        assert(pairs_view(done@) =~= Seq::<(Seq<u8>, Seq<u8>)>::empty());
    }
    while !iter.is_at_end()
        invariant
            begin_bytes@ == begin_marker(),
            end_bytes@ == end_marker(),
            scan_file(contents@) == scan_regions(
                iter@,
                open_view(current_name, current_lines@),
                pairs_view(done@),
            ),
        decreases iter@.len(),
    {
        let ghost s_before = iter@;
        let ghost open_before = open_view(current_name, current_lines@);
        let ghost done_before = pairs_view(done@);
        let raw = iter.read_line();
        proof {
            crate::scanner::lemma_find_byte(s_before, NEWLINE);
        }
        let line: &[u8] = if raw.len() > 0 && raw[raw.len() - 1] == NEWLINE {
            let (head, _) = raw.split_at(raw.len() - 1);
            let trimmed: &[u8] = if head.len() > 0 && head[head.len() - 1] == CARRIAGE_RETURN {
                let (inner, _) = head.split_at(head.len() - 1);
                inner
            } else {
                head
            };
            trimmed
        } else {
            raw
        };
        proof {
            let i = find_byte(s_before, NEWLINE);
            if i >= 0 {
                assert(raw@ == s_before.take(i + 1));
                assert(raw@[i] == s_before[i]);
                assert(raw@.len() == i + 1);
                assert(raw@.take(i) =~= s_before.take(i));
                if s_before.take(i).len() > 0 && s_before.take(i)[i - 1] == CARRIAGE_RETURN {
                    assert(line@ =~= s_before.take(i).drop_last());
                } else {
                    assert(line@ =~= s_before.take(i));
                }
                assert(line@ == split_line(s_before).0);
                assert(iter@ == split_line(s_before).1);
            } else {
                assert(raw@ == s_before);
                assert(forall|j: int| 0 <= j < s_before.len() ==> s_before[j] != NEWLINE);
                assert(line@ == split_line(s_before).0);
                assert(iter@ == split_line(s_before).1);
            }
        }
        if let Some(begin_pos) = find_subslice(line, begin_bytes.as_slice()) {
            proof {
                lemma_find_sub(line@, begin_marker());
                assert(begin_pos + begin_marker().len() <= line@.len());
            }
            let (_, after) = line.split_at(begin_pos + begin_bytes.len());
            let trimmed = trim_ascii(after);
            let name_slice = take_until_byte(trimmed, crate::bytes::SPACE);
            proof {
                crate::scanner::lemma_find_byte(trimmed@, crate::bytes::SPACE);
                assert(name_slice@ == begin_name(line@));
            }
            current_name = Some(clone_bytes(name_slice));
            current_lines = Vec::new();
            proof {
                assert(lines_view(current_lines@) =~= Seq::<Seq<u8>>::empty());
            }
        } else if find_subslice(line, end_bytes.as_slice()).is_some() {
            let taken = current_name;
            current_name = None;
            match taken {
                Some(name) => {
                    if names_contains(&done, name.as_slice()) {
                        return Err(Error::SnippetAlreadyDefined(name));
                    }
                    let ghost collected = lines_view(current_lines@);
                    remove_shared_prefix(&mut current_lines);
                    let text = join_lines(&current_lines);
                    proof {
                        assert(text@ == region_text(collected));
                    }
                    done.push((name, text));
                    current_lines = Vec::new();
                    proof {
                        assert(pairs_view(done@) =~= done_before.push(
                            (open_before->Some_0.0, region_text(open_before->Some_0.1)),
                        ));
                    }
                },
                None => {
                    return Err(Error::MalformedSnippet);
                },
            }
        } else {
            if current_name.is_some() {
                current_lines.push(clone_bytes(line));
                proof {
                    assert(lines_view(current_lines@) =~= open_before->Some_0.1.push(line@));
                }
            }
        }
    }
    let entry = FileSnippets { whole: clone_bytes(contents), regions: done };
    let path_key = clone_bytes(ref_path);
    snippets.insert_file(path_key, entry);
    Ok(())
}

/// The file path a reference names: everything before the first colon.
pub open spec fn ref_file_part(reference: Seq<u8>) -> Seq<u8> {
    let i = find_byte(reference, COLON);
    if i >= 0 {
        reference.take(i)
    } else {
        reference
    }
}

/// The cache key a reference's file is read under.
pub open spec fn file_key(base: Seq<u8>, path: Seq<u8>) -> crate::cache::KeyView {
    crate::cache::KeyView::Path(join_path_spec(base, path))
}

/// What a reference finds in a loaded file: the whole text when it names no
/// region, else the region's stripped text, else a not-found failure naming
/// the reference.
pub open spec fn lookup_in_file(
    file: FileSnippetsView,
    reference: Seq<u8>,
    path: Seq<u8>,
) -> crate::cache::Outcome<Seq<u8>> {
    if reference == path {
        crate::cache::Outcome::Done(file.whole)
    } else {
        match assoc_find(file.regions, reference.skip(path.len() as int + 1)) {
            Some(text) => crate::cache::Outcome::Done(text),
            None => crate::cache::Outcome::Fail(crate::error::ErrorView::SnippetNotFound(reference)),
        }
    }
}

/// What resolving a snippet reference comes to, given the store and the
/// fetched resources: the loaded (or to-be-loaded) file's answer, a fetch
/// request for its file, or the failure the file's absence or markers give.
pub open spec fn snippet_value(
    reference: Seq<u8>,
    base: Seq<u8>,
    store: Seq<(Seq<u8>, FileSnippetsView)>,
    resources: Seq<(crate::cache::KeyView, crate::cache::FetchedView)>,
) -> crate::cache::Outcome<Seq<u8>> {
    let path = ref_file_part(reference);
    match assoc_find(store, path) {
        Some(file) => lookup_in_file(file, reference, path),
        None => match assoc_find(resources, file_key(base, path)) {
            None => crate::cache::Outcome::Need(crate::cache::RequestView::Fetch(file_key(base, path))),
            Some(crate::cache::FetchedView::Found(text)) => match scan_file(text) {
                Ok(regions) => lookup_in_file(
                    FileSnippetsView { whole: text, regions },
                    reference,
                    path,
                ),
                Err(e) => crate::cache::Outcome::Fail(e),
            },
            Some(crate::cache::FetchedView::Missing) => crate::cache::Outcome::Fail(
                crate::error::ErrorView::SnippetNotFound(path),
            ),
            Some(crate::cache::FetchedView::Failed(reason)) => crate::cache::Outcome::Fail(
                crate::error::ErrorView::Io(reason),
            ),
        },
    }
}

/// The store after resolving a reference: unchanged, except that a file
/// read and scanned for the first time is recorded.
pub open spec fn store_after_lookup(
    reference: Seq<u8>,
    base: Seq<u8>,
    store: Seq<(Seq<u8>, FileSnippetsView)>,
    resources: Seq<(crate::cache::KeyView, crate::cache::FetchedView)>,
) -> Seq<(Seq<u8>, FileSnippetsView)> {
    let path = ref_file_part(reference);
    if assoc_find(store, path) is Some {
        store
    } else {
        match assoc_find(resources, file_key(base, path)) {
            Some(crate::cache::FetchedView::Found(text)) => match scan_file(text) {
                Ok(regions) => store.push((path, FileSnippetsView { whole: text, regions })),
                Err(_) => store,
            },
            _ => store,
        }
    }
}

/// The first text bound to `name` among a file's regions.
fn region_get<'a>(regions: &'a Vec<(Vec<u8>, Vec<u8>)>, name: &[u8]) -> (r: Option<&'a Vec<u8>>)
    ensures
        match r {
            Some(text) => assoc_find(pairs_view(regions@), name@) == Some(text@),
            None => assoc_find(pairs_view(regions@), name@) is None,
        },
{
    let n = regions.len();
    let mut i: usize = 0;
    while i < n
        invariant
            n == regions@.len(),
            0 <= i <= n,
            forall|j: int| 0 <= j < i ==> pairs_view(regions@)[j].0 != name@,
        decreases n - i,
    {
        if bytes_eq(regions[i].0.as_slice(), name) {
            proof {
                crate::cache::lemma_assoc_find_at(pairs_view(regions@), i as int);
            }
            return Some(&regions[i].1);
        }
        i += 1;
    }
    proof {
        lemma_assoc_find_none(pairs_view(regions@), name@);
    }
    None
}

/// Resolves a snippet reference: loads the file it names on first use, then
/// looks the reference up, exactly as [`snippet_value`] and
/// [`store_after_lookup`] describe. A file that is not in the cache yet
/// stops the engine with a fetch request.
pub fn load_snippet(
    snippet_ref: &[u8],
    base_dir: &[u8],
    snippets: &mut Snippets,
    cache: &crate::cache::Cache,
) -> (r: Result<Vec<u8>, crate::cache::Halt>)
    ensures
        final(snippets)@ == store_after_lookup(
            snippet_ref@,
            base_dir@,
            old(snippets)@,
            cache@.resources,
        ),
        match r {
            Ok(text) => snippet_value(snippet_ref@, base_dir@, old(snippets)@, cache@.resources)
                == crate::cache::Outcome::Done(text@),
            Err(halt) => snippet_value(snippet_ref@, base_dir@, old(snippets)@, cache@.resources)
                == crate::cache::halted::<Seq<u8>>(halt@),
        },
{
    let path = take_until_byte(snippet_ref, COLON);
    proof {
        crate::scanner::lemma_find_byte(snippet_ref@, COLON);
        assert(path@ == ref_file_part(snippet_ref@));
    }
    if !snippets.contains_file(path) {
        let key = crate::cache::CacheKey::Path(join_path(base_dir, path));
        match cache.lookup_resource(&key) {
            None => {
                return Err(crate::cache::Halt::Need(crate::cache::Request::Fetch(key)));
            },
            Some(fetched) => match fetched {
                crate::cache::Fetched::Found(text) => {
                    match load_snippets(path, text.as_slice(), snippets) {
                        Ok(()) => {
                            proof {
                                lemma_assoc_find_push(
                                    old(snippets)@,
                                    path@,
                                    FileSnippetsView {
                                        whole: text@,
                                        regions: scan_file(text@)->Ok_0,
                                    },
                                );
                            }
                        },
                        Err(e) => {
                            return Err(crate::cache::Halt::Fail(e));
                        },
                    }
                },
                crate::cache::Fetched::Missing => {
                    return Err(
                        crate::cache::Halt::Fail(Error::SnippetNotFound(clone_bytes(path))),
                    );
                },
                crate::cache::Fetched::Failed(reason) => {
                    return Err(
                        crate::cache::Halt::Fail(Error::Io(clone_bytes(reason.as_slice()))),
                    );
                },
            },
        }
    }
    match snippets.get_file(path) {
        Some(file) => {
            if path.len() == snippet_ref.len() {
                proof {
                    assert(snippet_ref@ =~= path@);
                }
                Ok(clone_bytes(file.whole.as_slice()))
            } else {
                let (_, name) = snippet_ref.split_at(path.len() + 1);
                match region_get(&file.regions, name) {
                    Some(text) => Ok(clone_bytes(text.as_slice())),
                    None => Err(
                        crate::cache::Halt::Fail(
                            Error::SnippetNotFound(clone_bytes(snippet_ref)),
                        ),
                    ),
                }
            }
        },
        None => {
            proof {
                assert(false);
            }
            Err(crate::cache::Halt::Fail(Error::MalformedSnippet))
        },
    }
}


} // verus!

//! Byte-level helpers shared by the engine: ASCII classification, substring
//! search, trimming, path joining, and the literal markers the formats use.

use vstd::prelude::*;

use crate::scanner::find_byte;

verus! {

/// The `$` byte that delimits references.
pub const DOLLAR: u8 = 36;

/// The carriage-return byte.
pub const CARRIAGE_RETURN: u8 = 13;

/// The space byte.
pub const SPACE: u8 = 32;

/// The `:` byte that separates a file path from a snippet name.
pub const COLON: u8 = 58;

/// The `/` byte that separates path components.
pub const SLASH: u8 = 47;

/// The backtick byte that opens and closes fenced code blocks.
pub const BACKTICK: u8 = 96;

/// ASCII whitespace: space, tab, line feed, form feed, carriage return.
pub open spec fn is_ascii_space(b: u8) -> bool {
    b == 32 || b == 9 || b == 10 || b == 12 || b == 13
}

/// ASCII punctuation, as the ranges of the ASCII table give it.
pub open spec fn is_ascii_punct(b: u8) -> bool {
    (33 <= b <= 47) || (58 <= b <= 64) || (91 <= b <= 96) || (123 <= b <= 126)
}

/// Executable form of [`is_ascii_space`].
pub fn ascii_space(b: u8) -> (r: bool)
    ensures
        r == is_ascii_space(b),
{
    b == 32 || b == 9 || b == 10 || b == 12 || b == 13
}

/// Executable form of [`is_ascii_punct`].
pub fn ascii_punct(b: u8) -> (r: bool)
    ensures
        r == is_ascii_punct(b),
{
    (33 <= b && b <= 47) || (58 <= b && b <= 64) || (91 <= b && b <= 96) || (123 <= b && b <= 126)
}

/// A fresh `Vec` holding the same bytes.
pub fn clone_bytes(v: &[u8]) -> (r: Vec<u8>)
    ensures
        r@ == v@,
{
    let mut out: Vec<u8> = Vec::new();
    out.extend_from_slice(v);
    proof {
        assert(out@ =~= v@);
    }
    out
}

/// Byte-for-byte equality of two slices.
pub fn bytes_eq(a: &[u8], b: &[u8]) -> (r: bool)
    ensures
        r == (a@ == b@),
{
    if a.len() != b.len() {
        return false;
    }
    let n = a.len();
    let mut i: usize = 0;
    while i < n
        invariant
            n == a@.len() == b@.len(),
            0 <= i <= n,
            forall|j: int| 0 <= j < i ==> a@[j] == b@[j],
        decreases n - i,
    {
        if a[i] != b[i] {
            return false;
        }
        i += 1;
    }
    proof {
        assert(a@ =~= b@);
    }
    true
}

/// Whether `pat` occurs in `s` starting at position `i`.
pub open spec fn is_match_at(s: Seq<u8>, pat: Seq<u8>, i: int) -> bool {
    0 <= i && i + pat.len() <= s.len() && s.subrange(i, i + pat.len()) == pat
}

/// The position of the first occurrence of `pat` in `s`, or `-1` when `pat`
/// does not occur.
pub open spec fn find_sub(s: Seq<u8>, pat: Seq<u8>) -> int
    decreases s.len(),
{
    if pat.len() == 0 {
        0
    } else if s.len() < pat.len() {
        -1
    } else if s.take(pat.len() as int) == pat {
        0
    } else {
        let rest = find_sub(s.skip(1), pat);
        if rest < 0 {
            -1
        } else {
            rest + 1
        }
    }
}

/// Whether `pat` occurs anywhere in `s`.
pub open spec fn contains_sub(s: Seq<u8>, pat: Seq<u8>) -> bool {
    find_sub(s, pat) >= 0
}

/// What `find_sub` returns: either `-1` and no occurrence, or the first
/// occurrence.
pub proof fn lemma_find_sub(s: Seq<u8>, pat: Seq<u8>)
    ensures
        find_sub(s, pat) == -1 || (0 <= find_sub(s, pat) && find_sub(s, pat) + pat.len()
            <= s.len()),
        find_sub(s, pat) == -1 ==> forall|i: int| !is_match_at(s, pat, i),
        find_sub(s, pat) >= 0 ==> is_match_at(s, pat, find_sub(s, pat)),
        find_sub(s, pat) >= 0 ==> forall|i: int| 0 <= i < find_sub(s, pat) ==> !is_match_at(
            s,
            pat,
            i,
        ),
    decreases s.len(),
{
    if pat.len() == 0 {
        assert(s.subrange(0, 0) =~= pat);
    } else if s.len() < pat.len() {
        assert forall|i: int| !is_match_at(s, pat, i) by {}
    } else if s.take(pat.len() as int) == pat {
        assert(s.subrange(0, pat.len() as int) =~= s.take(pat.len() as int));
    } else {
        lemma_find_sub(s.skip(1), pat);
        assert(!is_match_at(s, pat, 0)) by {
            assert(s.subrange(0, pat.len() as int) =~= s.take(pat.len() as int));
        }
        assert forall|i: int| 1 <= i && i + pat.len() <= s.len() implies (is_match_at(s, pat, i)
            <==> is_match_at(s.skip(1), pat, i - 1)) by {
            assert(s.subrange(i, i + pat.len()) =~= s.skip(1).subrange(i - 1, i - 1 + pat.len()));
        }
    }
}

/// A position that carries a match, with no earlier one, is the one
/// `find_sub` returns.
pub proof fn lemma_find_sub_at(s: Seq<u8>, pat: Seq<u8>, i: int)
    requires
        is_match_at(s, pat, i),
        forall|j: int| 0 <= j < i ==> !is_match_at(s, pat, j),
    ensures
        find_sub(s, pat) == i,
{
    lemma_find_sub(s, pat);
}

/// The first occurrence of `pat` in `s`, or `None` when `pat` does not occur.
pub fn find_subslice(s: &[u8], pat: &[u8]) -> (r: Option<usize>)
    ensures
        match r {
            Some(i) => find_sub(s@, pat@) == i as int,
            None => find_sub(s@, pat@) == -1,
        },
{
    let n = s.len();
    let m = pat.len();
    if m == 0 {
        return Some(0);
    }
    if m > n {
        proof {
            lemma_find_sub(s@, pat@);
        }
        return None;
    }
    let mut i: usize = 0;
    while i <= n - m
        invariant
            m <= n,
            n == s@.len(),
            m == pat@.len(),
            1 <= m,
            0 <= i <= n - m + 1,
            forall|j: int| 0 <= j < i ==> !is_match_at(s@, pat@, j),
        decreases n - i,
    {
        let mut k: usize = 0;
        let mut agree = true;
        while k < m && agree
            invariant
                m <= n,
                n == s@.len(),
                m == pat@.len(),
                0 <= i <= n - m,
                0 <= k <= m,
                agree ==> forall|j: int| 0 <= j < k ==> s@[i + j] == pat@[j],
                !agree ==> !is_match_at(s@, pat@, i as int),
            decreases m - k + (if agree { 1int } else { 0int }),
        {
            if s[i + k] != pat[k] {
                proof {
                    assert(s@.subrange(i as int, i + m as int)[k as int] != pat@[k as int]);
                }
                agree = false;
            } else {
                k += 1;
            }
        }
        if agree {
            proof {
                assert(s@.subrange(i as int, i + m as int) =~= pat@);
                lemma_find_sub_at(s@, pat@, i as int);
            }
            return Some(i);
        }
        i += 1;
    }
    proof {
        lemma_find_sub(s@, pat@);
        if find_sub(s@, pat@) >= 0 {
            assert(is_match_at(s@, pat@, find_sub(s@, pat@)));
        }
    }
    None
}

/// Whether `s` begins with `pat`.
pub fn starts_with(s: &[u8], pat: &[u8]) -> (r: bool)
    ensures
        r == (pat@.len() <= s@.len() && s@.take(pat@.len() as int) == pat@),
{
    if pat.len() > s.len() {
        return false;
    }
    let n = pat.len();
    let mut i: usize = 0;
    while i < n
        invariant
            n == pat@.len(),
            n <= s@.len(),
            0 <= i <= n,
            forall|j: int| 0 <= j < i ==> s@[j] == pat@[j],
        decreases n - i,
    {
        if s[i] != pat[i] {
            proof {
                assert(s@.take(n as int)[i as int] != pat@[i as int]);
            }
            return false;
        }
        i += 1;
    }
    proof {
        assert(s@.take(n as int) =~= pat@);
    }
    true
}

/// `s` without its leading ASCII whitespace.
pub open spec fn trim_start_spec(s: Seq<u8>) -> Seq<u8>
    decreases s.len(),
{
    if s.len() > 0 && is_ascii_space(s[0]) {
        trim_start_spec(s.skip(1))
    } else {
        s
    }
}

/// `s` without its trailing ASCII whitespace.
pub open spec fn trim_end_spec(s: Seq<u8>) -> Seq<u8>
    decreases s.len(),
{
    if s.len() > 0 && is_ascii_space(s[s.len() - 1]) {
        trim_end_spec(s.take(s.len() - 1))
    } else {
        s
    }
}

/// `s` without leading ASCII whitespace.
pub fn trim_ascii_start(s: &[u8]) -> (r: &[u8])
    ensures
        r@ == trim_start_spec(s@),
{
    let n = s.len();
    let mut start: usize = 0;
    proof {
        assert(s@.skip(0) =~= s@);
    }
    while start < n && ascii_space(s[start])
        invariant
            n == s@.len(),
            0 <= start <= n,
            trim_start_spec(s@) == trim_start_spec(s@.skip(start as int)),
        decreases n - start,
    {
        proof {
            assert(s@.skip(start as int).skip(1) =~= s@.skip(start as int + 1));
        }
        start += 1;
    }
    let (_, tail) = s.split_at(start);
    proof {
        assert(tail@ =~= s@.skip(start as int));
    }
    tail
}

/// `s` without leading or trailing ASCII whitespace.
pub fn trim_ascii(s: &[u8]) -> (r: &[u8])
    ensures
        r@ == trim_end_spec(trim_start_spec(s@)),
{
    let t = trim_ascii_start(s);
    let mut end = t.len();
    proof {
        assert(t@.take(t@.len() as int) =~= t@);
    }
    while end > 0 && ascii_space(t[end - 1])
        invariant
            end <= t@.len(),
            trim_end_spec(t@) == trim_end_spec(t@.take(end as int)),
        decreases end,
    {
        proof {
            assert(t@.take(end as int).take(end as int - 1) =~= t@.take(end as int - 1));
        }
        end -= 1;
    }
    let (head, _) = t.split_at(end);
    proof {
        assert(head@ =~= t@.take(end as int));
    }
    head
}

/// The prefix of `s` up to, not including, the first occurrence of `ch`; all
/// of `s` when `ch` is absent.
pub fn take_until_byte(s: &[u8], ch: u8) -> (r: &[u8])
    ensures
        ({
            let i = find_byte(s@, ch);
            &&& i >= 0 ==> r@ == s@.take(i)
            &&& i < 0 ==> r@ == s@
        }),
{
    let n = s.len();
    let mut i: usize = 0;
    while i < n && s[i] != ch
        invariant
            n == s@.len(),
            0 <= i <= n,
            forall|j: int| 0 <= j < i ==> s@[j] != ch,
        decreases n - i,
    {
        i += 1;
    }
    proof {
        if i < n {
            crate::scanner::lemma_find_byte_at(s@, ch, i as int);
        } else {
            crate::scanner::lemma_find_byte(s@, ch);
            if find_byte(s@, ch) >= 0 {
                assert(s@[find_byte(s@, ch)] == ch);
            }
        }
    }
    let (head, _) = s.split_at(i);
    proof {
        assert(head@ =~= s@.take(i as int));
        if find_byte(s@, ch) < 0 {
            assert(head@ =~= s@);
        }
    }
    head
}

/// How a reference path is resolved against the directory a configuration
/// was loaded from: an absolute path stands alone, anything else is joined
/// with a single separator.
pub open spec fn join_path_spec(base: Seq<u8>, rel: Seq<u8>) -> Seq<u8> {
    if rel.len() > 0 && rel[0] == SLASH {
        rel
    } else if base.len() == 0 {
        rel
    } else {
        base + seq![SLASH] + rel
    }
}

/// Executable form of [`join_path_spec`].
pub fn join_path(base: &[u8], rel: &[u8]) -> (r: Vec<u8>)
    ensures
        r@ == join_path_spec(base@, rel@),
{
    if (rel.len() > 0 && rel[0] == SLASH) || base.len() == 0 {
        let mut out: Vec<u8> = Vec::new();
        out.extend_from_slice(rel);
        proof {
            assert(out@ =~= rel@);
        }
        out
    } else {
        let mut out: Vec<u8> = Vec::new();
        out.extend_from_slice(base);
        out.push(SLASH);
        out.extend_from_slice(rel);
        proof {
            assert(out@ =~= base@ + seq![SLASH] + rel@);
        }
        out
    }
}

/// The phrase that opens a snippet region: `begin rustme snippet:`.
pub open spec fn begin_marker() -> Seq<u8> {
    seq![98u8, 101, 103, 105, 110, 32, 114, 117, 115, 116, 109, 101, 32, 115, 110, 105, 112, 112, 101, 116, 58]
}

/// The phrase that closes a snippet region: `end rustme snippet`.
pub open spec fn end_marker() -> Seq<u8> {
    seq![101u8, 110, 100, 32, 114, 117, 115, 116, 109, 101, 32, 115, 110, 105, 112, 112, 101, 116]
}

/// The tag that follows the first backtick of a rust fence: `` `` ``rust``.
pub open spec fn rust_fence_tail() -> Seq<u8> {
    seq![96u8, 96, 114, 117, 115, 116]
}

/// A closing fence: three backticks.
pub open spec fn closing_fence() -> Seq<u8> {
    seq![96u8, 96, 96]
}

/// The marker of a hidden line inside a rust fence: `#` and a space.
pub open spec fn hidden_line_marker() -> Seq<u8> {
    seq![35u8, 32]
}

/// The scheme prefix `http://`.
pub open spec fn http_prefix() -> Seq<u8> {
    seq![104u8, 116, 116, 112, 58, 47, 47]
}

/// The scheme prefix `https://`.
pub open spec fn https_prefix() -> Seq<u8> {
    seq![104u8, 116, 116, 112, 115, 58, 47, 47]
}

/// The location an inline glossary reports: `(inline)`.
pub open spec fn inline_location() -> Seq<u8> {
    seq![40u8, 105, 110, 108, 105, 110, 101, 41]
}

/// Executable form of [`begin_marker`].
pub fn begin_marker_bytes() -> (v: Vec<u8>)
    ensures
        v@ == begin_marker(),
{
    let mut v: Vec<u8> = Vec::new();
    v.push(98);
    v.push(101);
    v.push(103);
    v.push(105);
    v.push(110);
    v.push(32);
    v.push(114);
    v.push(117);
    v.push(115);
    v.push(116);
    v.push(109);
    v.push(101);
    v.push(32);
    v.push(115);
    v.push(110);
    v.push(105);
    v.push(112);
    v.push(112);
    v.push(101);
    v.push(116);
    v.push(58);
    proof {
        assert(v@ =~= begin_marker());
    }
    v
}

/// Executable form of [`end_marker`].
pub fn end_marker_bytes() -> (v: Vec<u8>)
    ensures
        v@ == end_marker(),
{
    let mut v: Vec<u8> = Vec::new();
    v.push(101);
    v.push(110);
    v.push(100);
    v.push(32);
    v.push(114);
    v.push(117);
    v.push(115);
    v.push(116);
    v.push(109);
    v.push(101);
    v.push(32);
    v.push(115);
    v.push(110);
    v.push(105);
    v.push(112);
    v.push(112);
    v.push(101);
    v.push(116);
    proof {
        assert(v@ =~= end_marker());
    }
    v
}

/// Executable form of [`rust_fence_tail`].
pub fn rust_fence_tail_bytes() -> (v: Vec<u8>)
    ensures
        v@ == rust_fence_tail(),
{
    let mut v: Vec<u8> = Vec::new();
    v.push(96);
    v.push(96);
    v.push(114);
    v.push(117);
    v.push(115);
    v.push(116);
    proof {
        assert(v@ =~= rust_fence_tail());
    }
    v
}

/// Executable form of [`closing_fence`].
pub fn closing_fence_bytes() -> (v: Vec<u8>)
    ensures
        v@ == closing_fence(),
{
    let mut v: Vec<u8> = Vec::new();
    v.push(96);
    v.push(96);
    v.push(96);
    proof {
        assert(v@ =~= closing_fence());
    }
    v
}

/// Executable form of [`hidden_line_marker`].
pub fn hidden_line_marker_bytes() -> (v: Vec<u8>)
    ensures
        v@ == hidden_line_marker(),
{
    let mut v: Vec<u8> = Vec::new();
    v.push(35);
    v.push(32);
    proof {
        assert(v@ =~= hidden_line_marker());
    }
    v
}

/// Executable form of [`http_prefix`].
pub fn http_prefix_bytes() -> (v: Vec<u8>)
    ensures
        v@ == http_prefix(),
{
    let mut v: Vec<u8> = Vec::new();
    v.push(104);
    v.push(116);
    v.push(116);
    v.push(112);
    v.push(58);
    v.push(47);
    v.push(47);
    proof {
        assert(v@ =~= http_prefix());
    }
    v
}

/// Executable form of [`https_prefix`].
pub fn https_prefix_bytes() -> (v: Vec<u8>)
    ensures
        v@ == https_prefix(),
{
    let mut v: Vec<u8> = Vec::new();
    v.push(104);
    v.push(116);
    v.push(116);
    v.push(112);
    v.push(115);
    v.push(58);
    v.push(47);
    v.push(47);
    proof {
        assert(v@ =~= https_prefix());
    }
    v
}

/// Executable form of [`inline_location`].
pub fn inline_location_bytes() -> (v: Vec<u8>)
    ensures
        v@ == inline_location(),
{
    let mut v: Vec<u8> = Vec::new();
    v.push(40);
    v.push(105);
    v.push(110);
    v.push(108);
    v.push(105);
    v.push(110);
    v.push(101);
    v.push(41);
    proof {
        assert(v@ =~= inline_location());
    }
    v
}

/// The text `not found`, the reason an absent glossary reports.
pub open spec fn not_found_text() -> Seq<u8> {
    seq![110u8, 111, 116, 32, 102, 111, 117, 110, 100]
}

/// Executable form of [`not_found_text`].
pub fn not_found_text_bytes() -> (v: Vec<u8>)
    ensures
        v@ == not_found_text(),
{
    let mut v: Vec<u8> = Vec::new();
    v.push(110);
    v.push(111);
    v.push(116);
    v.push(32);
    v.push(102);
    v.push(111);
    v.push(117);
    v.push(110);
    v.push(100);
    proof {
        assert(v@ =~= not_found_text());
    }
    v
}

/// The file name `.rustme.ron`, a configuration standing on its own.
pub open spec fn config_file_name() -> Seq<u8> {
    seq![46u8, 114, 117, 115, 116, 109, 101, 46, 114, 111, 110]
}

/// Executable form of [`config_file_name`].
pub fn config_file_name_bytes() -> (v: Vec<u8>)
    ensures
        v@ == config_file_name(),
{
    let mut v: Vec<u8> = Vec::new();
    v.push(46);
    v.push(114);
    v.push(117);
    v.push(115);
    v.push(116);
    v.push(109);
    v.push(101);
    v.push(46);
    v.push(114);
    v.push(111);
    v.push(110);
    proof {
        assert(v@ =~= config_file_name());
    }
    v
}

/// The directory name `.rustme`, which holds a configuration.
pub open spec fn config_dir_name() -> Seq<u8> {
    seq![46u8, 114, 117, 115, 116, 109, 101]
}

/// Executable form of [`config_dir_name`].
pub fn config_dir_name_bytes() -> (v: Vec<u8>)
    ensures
        v@ == config_dir_name(),
{
    let mut v: Vec<u8> = Vec::new();
    v.push(46);
    v.push(114);
    v.push(117);
    v.push(115);
    v.push(116);
    v.push(109);
    v.push(101);
    proof {
        assert(v@ =~= config_dir_name());
    }
    v
}

/// The file name `config.ron` inside a configuration directory.
pub open spec fn config_inner_name() -> Seq<u8> {
    seq![99u8, 111, 110, 102, 105, 103, 46, 114, 111, 110]
}

/// Executable form of [`config_inner_name`].
pub fn config_inner_name_bytes() -> (v: Vec<u8>)
    ensures
        v@ == config_inner_name(),
{
    let mut v: Vec<u8> = Vec::new();
    v.push(99);
    v.push(111);
    v.push(110);
    v.push(102);
    v.push(105);
    v.push(103);
    v.push(46);
    v.push(114);
    v.push(111);
    v.push(110);
    proof {
        assert(v@ =~= config_inner_name());
    }
    v
}

} // verus!

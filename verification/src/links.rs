//! The links of a page: the article links that follow the start of the
//! page's content, without those of the excluded namespaces.

use vstd::prelude::*;
use vstd::slice::slice_subrange;
use vstd::string::StringSliceAdditionalSpecFns;

verus! {

/// The bytes that open the content of a page.
pub open spec fn content_marker() -> Seq<u8> {
    "<div id=\"mw-content-text\"".spec_bytes()
}

/// The bytes that open a link to an article.
pub open spec fn anchor() -> Seq<u8> {
    "<a href=\"/wiki/".spec_bytes()
}

/// The byte that closes the address of a link.
pub open spec fn quote() -> Seq<u8> {
    "\"".spec_bytes()
}

/// The bytes that every returned page identifier starts with.
pub open spec fn base() -> Seq<u8> {
    "https://en.wikipedia.org/wiki/".spec_bytes()
}

/// Whether `pat` stands in `s` at position `at`.
pub open spec fn matches_at(s: Seq<u8>, pat: Seq<u8>, at: int) -> bool {
    0 <= at && at + pat.len() <= s.len() && s.subrange(at, at + pat.len()) == pat
}

/// The first position at or after `from` where `pat` stands in `s`.
pub open spec fn find_from(s: Seq<u8>, pat: Seq<u8>, from: int) -> Option<int>
    decreases s.len() - from,
{
    if from < 0 || from + pat.len() > s.len() {
        None
    } else if matches_at(s, pat, from) {
        Some(from)
    } else if from < s.len() {
        find_from(s, pat, from + 1)
    } else {
        None
    }
}

/// Whether an article name belongs to a namespace whose pages are left out.
pub open spec fn excluded(name: Seq<u8>) -> bool {
    ||| matches_at(name, "File:".spec_bytes(), 0)
    ||| matches_at(name, "Category:".spec_bytes(), 0)
    ||| matches_at(name, "Special:".spec_bytes(), 0)
    ||| matches_at(name, "Talk:".spec_bytes(), 0)
    ||| matches_at(name, "Wikipedia:".spec_bytes(), 0)
    ||| matches_at(name, "Template:".spec_bytes(), 0)
    ||| matches_at(name, "Portal:".spec_bytes(), 0)
    ||| matches_at(name, "Help:".spec_bytes(), 0)
}

/// The opening bytes of a link are fifteen.
pub proof fn lemma_anchor_len()
    ensures
        anchor().len() == 15,
{
    reveal_strlit("<a href=\"/wiki/");
    let a = "<a href=\"/wiki/";
    assert(vstd::string::is_ascii(a));
    vstd::string::is_ascii_spec_bytes(a);
}

/// The page identifiers of the article links that start at or after `from`,
/// in the order of their appearance. A link runs from its opening bytes to
/// the next quote; the search for the following link starts at that quote.
/// A last link that no quote closes is left out.
pub open spec fn links_from(s: Seq<u8>, from: int) -> Seq<Seq<u8>>
    decreases s.len() - from,
{
    match find_from(s, anchor(), from) {
        None => Seq::empty(),
        Some(at) => match find_from(s, quote(), at + anchor().len()) {
            None => Seq::empty(),
            Some(end) => {
                proof {
                    lemma_anchor_len();
                    lemma_find_from(s, anchor(), from);
                    lemma_find_from(s, quote(), at + anchor().len());
                }
                let name = s.subrange(at + anchor().len(), end);
                let rest = links_from(s, end);
                if excluded(name) {
                    rest
                } else {
                    seq![base() + name] + rest
                }
            },
        },
    }
}

/// The page identifiers that a page links to: none where the page has no
/// content marker, else those of the article links after the first marker.
pub open spec fn links_of(html: Seq<u8>) -> Seq<Seq<u8>> {
    match find_from(html, content_marker(), 0) {
        None => Seq::empty(),
        Some(begin) => links_from(html, begin),
    }
}

/// The byte strings that a sequence of vectors holds, in order.
pub open spec fn rows(v: Seq<Vec<u8>>) -> Seq<Seq<u8>> {
    Seq::new(v.len(), |i: int| v[i]@)
}

/// What `find_from` finds is the first match at or after `from`, and it
/// finds nothing only where there is no such match.
pub proof fn lemma_find_from(s: Seq<u8>, pat: Seq<u8>, from: int)
    requires
        0 <= from,
    ensures
        match find_from(s, pat, from) {
            Some(at) => from <= at && matches_at(s, pat, at) && forall|j: int|
                from <= j < at ==> !matches_at(s, pat, j),
            None => forall|j: int| from <= j ==> !matches_at(s, pat, j),
        },
    decreases s.len() - from,
{
    if from + pat.len() <= s.len() && !matches_at(s, pat, from) && from < s.len() {
        lemma_find_from(s, pat, from + 1);
    }
}

/// Whether `pat` stands in `s` at position `at`.
pub fn has_at(s: &[u8], pat: &[u8], at: usize) -> (hit: bool)
    ensures
        hit == matches_at(s@, pat@, at as int),
{
    if pat.len() > s.len() || at > s.len() - pat.len() {
        return false;
    }
    let mut i: usize = 0;
    while i < pat.len()
        invariant
            i <= pat@.len(),
            at + pat@.len() <= s@.len() <= usize::MAX,
            forall|j: int| 0 <= j < i ==> s@[at + j] == pat@[j],
        decreases pat@.len() - i,
    {
        if s[at + i] != pat[i] {
            proof {
                assert(s@.subrange(at as int, at + pat@.len())[i as int] == s@[at + i]);
            }
            return false;
        }
        i = i + 1;
    }
    proof {
        assert(s@.subrange(at as int, at + pat@.len()) =~= pat@);
    }
    true
}

/// The first position at or after `from` where `pat` stands in `s`.
pub fn find(s: &[u8], pat: &[u8], from: usize) -> (found: Option<usize>)
    ensures
        match found {
            Some(at) => find_from(s@, pat@, from as int) == Some(at as int),
            None => find_from(s@, pat@, from as int) is None,
        },
{
    if pat.len() > s.len() {
        return None;
    }
    let last: usize = s.len() - pat.len();
    let mut i: usize = from;
    while i <= last
        invariant
            from <= i,
            last == s@.len() - pat@.len(),
            find_from(s@, pat@, from as int) == find_from(s@, pat@, i as int),
        decreases last + 1 - i,
    {
        if has_at(s, pat, i) {
            return Some(i);
        }
        if i == last {
            proof {
                assert(find_from(s@, pat@, i + 1) is None);
            }
            return None;
        }
        i = i + 1;
    }
    None
}

/// Whether an article name belongs to a namespace whose pages are left out.
pub fn is_excluded(name: &[u8]) -> (out: bool)
    ensures
        out == excluded(name@),
{
    has_at(name, "File:".as_bytes(), 0) || has_at(name, "Category:".as_bytes(), 0) || has_at(
        name,
        "Special:".as_bytes(),
        0,
    ) || has_at(name, "Talk:".as_bytes(), 0) || has_at(name, "Wikipedia:".as_bytes(), 0)
        || has_at(name, "Template:".as_bytes(), 0) || has_at(name, "Portal:".as_bytes(), 0)
        || has_at(name, "Help:".as_bytes(), 0)
}

/// The page identifiers that a page links to, in the order of their first
/// to last appearance in the page.
pub fn extract_links(html: &[u8]) -> (links: Vec<Vec<u8>>)
    ensures
        rows(links@) == links_of(html@),
{
    let mut links: Vec<Vec<u8>> = Vec::new();
    let total: usize = html.len();
    proof {
        lemma_find_from(html@, content_marker(), 0);
    }
    let begin: usize = match find(html, "<div id=\"mw-content-text\"".as_bytes(), 0) {
        Some(begin) => begin,
        None => {
            proof {
                assert(rows(links@) =~= Seq::empty());
            }
            return links;
        },
    };
    let anchor = "<a href=\"/wiki/".as_bytes();
    let quote = "\"".as_bytes();
    let base = "https://en.wikipedia.org/wiki/".as_bytes();
    let mut pos: usize = begin;
    let mut open: bool = true;
    proof {
        assert(rows(links@) =~= Seq::empty());
    }
    while open
        invariant
            pos <= html@.len() == total,
            anchor@ == self::anchor(),
            quote@ == self::quote(),
            base@ == self::base(),
            open ==> rows(links@) + links_from(html@, pos as int) == links_of(html@),
            !open ==> rows(links@) == links_of(html@),
        decreases html@.len() - pos, if open { 1int } else { 0int },
    {
        let ghost before = rows(links@);
        proof {
            lemma_find_from(html@, anchor@, pos as int);
        }
        match find(html, anchor, pos) {
            None => {
                open = false;
                proof {
                    assert(before + Seq::empty() =~= before);
                }
            },
            Some(at) => {
                let start: usize = at + anchor.len();
                proof {
                    lemma_find_from(html@, quote@, start as int);
                }
                match find(html, quote, start) {
                    None => {
                        open = false;
                        proof {
                            assert(before + Seq::empty() =~= before);
                        }
                    },
                    Some(end) => {
                        let name = slice_subrange(html, start, end);
                        let ghost rest = links_from(html@, end as int);
                        if !is_excluded(name) {
                            let mut link: Vec<u8> = Vec::new();
                            link.extend_from_slice(base);
                            link.extend_from_slice(name);
                            proof {
                                assert(link@ =~= base@ + name@);
                            }
                            links.push(link);
                            proof {
                                assert(rows(links@) =~= before + seq![base@ + name@]);
                                assert((before + seq![base@ + name@]) + rest =~= before + (seq![
                                    base@ + name@,
                                ] + rest));
                            }
                        }
                        proof {
                            lemma_anchor_len();
                        }
                        pos = end;
                    },
                }
            },
        }
    }
    links
}

} // verus!

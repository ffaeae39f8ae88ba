//! Streaming extraction of `<loc>` entries from sitemap XML text.
//!
//! The extractor scans the document bytes once, left to right. Each literal
//! `<loc>` start tag whose text content runs up to a closing `</loc>` tag
//! yields one entry (trimmed of surrounding whitespace; whitespace-only
//! content is skipped). On malformed or truncated input the scan stops and
//! everything extracted so far is kept.

use vstd::prelude::*;

verus! {

/// The byte sequence of the literal start tag `<loc>`.
pub open spec fn open_tag() -> Seq<u8> {
    seq![60u8, 108u8, 111u8, 99u8, 62u8]
}

/// The byte sequence of the literal end tag `</loc>`.
pub open spec fn close_tag() -> Seq<u8> {
    seq![60u8, 47u8, 108u8, 111u8, 99u8, 62u8]
}

/// XML whitespace: space, tab, line feed, carriage return.
pub open spec fn is_ws(b: u8) -> bool {
    b == 32 || b == 9 || b == 10 || b == 13
}

/// The sequence with leading whitespace removed.
pub open spec fn trim_front(s: Seq<u8>) -> Seq<u8>
    decreases s.len(),
{
    if s.len() > 0 && is_ws(s[0]) {
        trim_front(s.drop_first())
    } else {
        s
    }
}

/// The sequence with trailing whitespace removed.
pub open spec fn trim_back(s: Seq<u8>) -> Seq<u8>
    decreases s.len(),
{
    if s.len() > 0 && is_ws(s.last()) {
        trim_back(s.drop_last())
    } else {
        s
    }
}

/// The sequence with both leading and trailing whitespace removed.
pub open spec fn trim(s: Seq<u8>) -> Seq<u8> {
    trim_back(trim_front(s))
}

/// The position of the first `<` byte in `s`, if any.
pub open spec fn find_lt(s: Seq<u8>) -> Option<nat>
    decreases s.len(),
{
    if s.len() == 0 {
        Option::None
    } else if s[0] == 60 {
        Option::Some(0)
    } else {
        match find_lt(s.drop_first()) {
            Option::Some(i) => Option::Some((i + 1) as nat),
            Option::None => Option::None,
        }
    }
}

/// The entries that a single left-to-right scan of the document extracts:
/// at each `<loc>` start tag, the text up to the next `<` is one entry
/// (trimmed; skipped when whitespace-only) provided that `<` begins a
/// `</loc>` end tag; a missing `<` (truncation) or a `<` that does not begin
/// `</loc>` (malformed content) stops the scan, keeping what was extracted.
pub open spec fn locs_of(s: Seq<u8>) -> Seq<Seq<u8>>
    decreases s.len(),
{
    if s.len() >= 5 && s.take(5) == open_tag() {
        match find_lt(s.skip(5)) {
            Option::Some(j) => {
                let j = j as int;
                if 5 + j + 6 <= s.len() && s.subrange(5 + j, 5 + j + 6) == close_tag() {
                    let entry = trim(s.subrange(5, 5 + j));
                    let tail = locs_of(s.skip(5 + j + 6));
                    if entry.len() > 0 {
                        seq![entry] + tail
                    } else {
                        tail
                    }
                } else {
                    Seq::empty()
                }
            }
            Option::None => Seq::empty(),
        }
    } else if s.len() == 0 {
        Seq::empty()
    } else {
        locs_of(s.drop_first())
    }
}

proof fn lemma_find_lt_some(s: Seq<u8>, j: int)
    requires
        0 <= j < s.len(),
        s[j] == 60,
        forall|k: int| 0 <= k < j ==> s[k] != 60,
    ensures
        find_lt(s) == Option::Some(j as nat),
    decreases j,
{
    if j > 0 {
        assert forall|k: int| 0 <= k < j - 1 implies s.drop_first()[k] != 60 by {
            assert(s.drop_first()[k] == s[k + 1]);
        }
        lemma_find_lt_some(s.drop_first(), j - 1);
    }
}

proof fn lemma_find_lt_none(s: Seq<u8>)
    requires
        forall|k: int| 0 <= k < s.len() ==> s[k] != 60,
    ensures
        find_lt(s) == Option::None::<nat>,
    decreases s.len(),
{
    if s.len() > 0 {
        assert forall|k: int| 0 <= k < s.len() - 1 implies s.drop_first()[k] != 60 by {
            assert(s.drop_first()[k] == s[k + 1]);
        }
        lemma_find_lt_none(s.drop_first());
    }
}

proof fn lemma_locs_of_short(s: Seq<u8>)
    requires
        s.len() < 5,
    ensures
        locs_of(s) == Seq::<Seq<u8>>::empty(),
    decreases s.len(),
{
    if s.len() > 0 {
        lemma_locs_of_short(s.drop_first());
    }
}

/// An occurrence of the `<loc>` start tag at position `i` of `t`.
pub open spec fn is_open_at(t: Seq<u8>, i: int) -> bool {
    0 <= i && i + 5 <= t.len() && t.subrange(i, i + 5) == open_tag()
}

/// Content standing before the first `<loc>` start tag — an XML prologue, a
/// `<urlset>` or `<sitemapindex>` wrapper, other elements — contributes no
/// entry: extraction is driven by the `<loc>` tags alone.
pub proof fn lemma_locs_of_skip_junk(junk: Seq<u8>, s: Seq<u8>)
    requires
        forall|i: int| 0 <= i < junk.len() ==> !is_open_at(junk + s, i),
    ensures
        locs_of(junk + s) == locs_of(s),
    decreases junk.len(),
{
    if junk.len() == 0 {
        assert(junk + s =~= s);
    } else {
        let t = junk + s;
        assert(!is_open_at(t, 0));
        if t.len() >= 5 {
            assert(t.take(5) =~= t.subrange(0, 5));
        }
        assert(t.drop_first() =~= junk.drop_first() + s);
        assert forall|i: int| 0 <= i < junk.drop_first().len() implies !is_open_at(
            junk.drop_first() + s,
            i,
        ) by {
            if is_open_at(junk.drop_first() + s, i) {
                assert(t.subrange(i + 1, i + 6) =~= (junk.drop_first() + s).subrange(i, i + 5));
                assert(is_open_at(t, i + 1));
                assert(false);
            }
        }
        lemma_locs_of_skip_junk(junk.drop_first(), s);
    }
}

/// One well-formed `<loc>` element yields exactly one entry — its trimmed
/// text content, skipped only when whitespace-only — and extraction then
/// continues behind its end tag.
pub proof fn lemma_locs_of_entry(text: Seq<u8>, rest: Seq<u8>)
    requires
        forall|k: int| 0 <= k < text.len() ==> text[k] != 60,
    ensures
        locs_of(open_tag() + text + close_tag() + rest) == (if trim(text).len() > 0 {
            seq![trim(text)]
        } else {
            Seq::<Seq<u8>>::empty()
        }) + locs_of(rest),
{
    let s = open_tag() + text + close_tag() + rest;
    let t = s.skip(5);
    let j = text.len() as int;
    assert(t =~= text + close_tag() + rest);
    assert(t[j] == 60);
    assert forall|k: int| 0 <= k < j implies t[k] != 60 by {
        assert(t[k] == text[k]);
    }
    lemma_find_lt_some(t, j);
    assert(s.take(5) =~= open_tag());
    assert(s.subrange(5 + j, 5 + j + 6) =~= close_tag());
    assert(s.subrange(5, 5 + j) =~= text);
    assert(s.skip(5 + j + 6) =~= rest);
    if trim(text).len() == 0 {
        assert(Seq::<Seq<u8>>::empty() + locs_of(rest) =~= locs_of(rest));
    }
}

/// Truncation right after a start tag: with no `<` left to end the text
/// content, the pending entry is dropped and extraction stops there.
pub proof fn lemma_locs_of_truncated(text: Seq<u8>)
    requires
        forall|k: int| 0 <= k < text.len() ==> text[k] != 60,
    ensures
        locs_of(open_tag() + text) == Seq::<Seq<u8>>::empty(),
{
    let s = open_tag() + text;
    assert(s.take(5) =~= open_tag());
    assert(s.skip(5) =~= text);
    lemma_find_lt_none(text);
}

/// A document made of well-formed `<loc>` elements, one after the other:
/// each piece of content in turn, wrapped in one start and one end tag.
pub open spec fn entries_doc(texts: Seq<Seq<u8>>) -> Seq<u8>
    decreases texts.len(),
{
    if texts.len() == 0 {
        Seq::empty()
    } else {
        open_tag() + texts.first() + close_tag() + entries_doc(texts.drop_first())
    }
}

/// Exactly one extracted location per well-formed `<loc>` element, in
/// document order: on a document of well-formed elements whose contents hold
/// no markup and are not whitespace-only, extraction returns their trimmed
/// contents, one each, in order.
pub proof fn lemma_locs_of_entries(texts: Seq<Seq<u8>>)
    requires
        forall|i: int, k: int| 0 <= i < texts.len() && 0 <= k < texts[i].len() ==> texts[i][k]
            != 60,
        forall|i: int| 0 <= i < texts.len() ==> trim(texts[i]).len() > 0,
    ensures
        locs_of(entries_doc(texts)) == texts.map_values(|t: Seq<u8>| trim(t)),
    decreases texts.len(),
{
    if texts.len() == 0 {
        assert(texts.map_values(|t: Seq<u8>| trim(t)) =~= Seq::<Seq<u8>>::empty());
    } else {
        lemma_locs_of_entry(texts.first(), entries_doc(texts.drop_first()));
        lemma_locs_of_entries(texts.drop_first());
        assert(trim(texts.first()).len() > 0);
        assert(seq![trim(texts.first())] + texts.drop_first().map_values(|t: Seq<u8>| trim(t))
            =~= texts.map_values(|t: Seq<u8>| trim(t)));
    }
}

/// Copies `text[from..to]` with surrounding whitespace removed.
fn trimmed_copy(text: &Vec<u8>, from: usize, to: usize) -> (r: Vec<u8>)
    requires
        from <= to <= text@.len(),
    ensures
        r@ == trim(text@.subrange(from as int, to as int)),
{
    let mut a: usize = from;
    while a < to && (text[a] == 32 || text[a] == 9 || text[a] == 10 || text[a] == 13)
        invariant
            from <= a <= to <= text@.len(),
            trim_front(text@.subrange(from as int, to as int)) == trim_front(
                text@.subrange(a as int, to as int),
            ),
        decreases to - a,
    {
        proof {
            let s = text@.subrange(a as int, to as int);
            assert(s[0] == text@[a as int]);
            assert(s.drop_first() =~= text@.subrange(a + 1, to as int));
        }
        a = a + 1;
    }
    proof {
        let s = text@.subrange(a as int, to as int);
        assert(trim_front(s) == s);
    }
    let mut b: usize = to;
    while b > a && (text[b - 1] == 32 || text[b - 1] == 9 || text[b - 1] == 10 || text[b - 1]
        == 13)
        invariant
            from <= a <= b <= to <= text@.len(),
            trim_front(text@.subrange(from as int, to as int)) == text@.subrange(
                a as int,
                to as int,
            ),
            trim_back(text@.subrange(a as int, to as int)) == trim_back(
                text@.subrange(a as int, b as int),
            ),
        decreases b,
    {
        proof {
            let s = text@.subrange(a as int, b as int);
            assert(s.last() == text@[b - 1]);
            assert(s.drop_last() =~= text@.subrange(a as int, b - 1));
        }
        b = b - 1;
    }
    proof {
        let s = text@.subrange(a as int, b as int);
        assert(trim_back(s) == s);
    }
    let mut r: Vec<u8> = Vec::new();
    let mut i: usize = a;
    while i < b
        invariant
            a <= i <= b <= text@.len(),
            r@ =~= text@.subrange(a as int, i as int),
        decreases b - i,
    {
        r.push(text[i]);
        proof {
            assert(text@.subrange(a as int, i + 1) =~= text@.subrange(a as int, i as int).push(
                text@[i as int],
            ));
        }
        i = i + 1;
    }
    proof {
        assert(r@ =~= text@.subrange(a as int, b as int));
    }
    r
}

/// Extracts every `<loc>` entry from the document, in document order.
///
/// A malformed or truncated document yields everything extracted up to the
/// point where the scan stopped; it is never an error.
pub fn extract(text: &Vec<u8>) -> (r: Vec<Vec<u8>>)
    ensures
        crate::views_of(r@) == locs_of(text@),
{
    let n: usize = text.len();
    let mut out: Vec<Vec<u8>> = Vec::new();
    let mut p: usize = 0;
    proof {
        assert(crate::views_of(out@) =~= Seq::<Seq<u8>>::empty());
        assert(text@.skip(0) =~= text@);
        assert(locs_of(text@) =~= crate::views_of(out@) + locs_of(text@.skip(0)));
    }
    loop
        invariant
            p <= n,
            n == text@.len(),
            locs_of(text@) == crate::views_of(out@) + locs_of(text@.skip(p as int)),
        ensures
            locs_of(text@) == crate::views_of(out@),
        decreases n - p,
    {
        if n - p < 5 {
            proof {
                lemma_locs_of_short(text@.skip(p as int));
                assert(crate::views_of(out@) + Seq::<Seq<u8>>::empty() =~= crate::views_of(
                    out@,
                ));
            }
            break;
        }
        let ghost s = text@.skip(p as int);
        if text[p] == 60 && text[p + 1] == 108 && text[p + 2] == 111 && text[p + 3] == 99 && text[p
            + 4] == 62 {
            proof {
                assert(s.take(5) =~= open_tag());
            }
            // scan for the next `<`, which ends the text content
            let mut q: usize = p + 5;
            while q < n && text[q] != 60
                invariant
                    p + 5 <= q <= n,
                    n == text@.len(),
                    forall|k: int| p + 5 <= k < q ==> text@[k] != 60,
                decreases n - q,
            {
                q = q + 1;
            }
            if q == n {
                // truncated: no `<` after the text content
                proof {
                    assert forall|k: int| 0 <= k < s.skip(5).len() implies s.skip(5)[k]
                        != 60 by {
                        assert(s.skip(5)[k] == text@[p + 5 + k]);
                    }
                    lemma_find_lt_none(s.skip(5));
                    assert(locs_of(s) == Seq::<Seq<u8>>::empty());
                    lemma_locs_of_short(text@.skip(n as int));
                    assert(crate::views_of(out@) + Seq::<Seq<u8>>::empty() =~= crate::views_of(
                        out@,
                    ));
                }
                p = n;
            } else {
                let ghost j = q - p - 5;
                proof {
                    assert(s.skip(5)[j as int] == text@[q as int]);
                    assert forall|k: int| 0 <= k < j implies s.skip(5)[k] != 60 by {
                        assert(s.skip(5)[k] == text@[p + 5 + k]);
                    }
                    lemma_find_lt_some(s.skip(5), j as int);
                }
                if n - q >= 6 && text[q + 1] == 47 && text[q + 2] == 108 && text[q + 3] == 111
                    && text[q + 4] == 99 && text[q + 5] == 62 {
                    proof {
                        assert(s.subrange(5 + j as int, 5 + j + 6) =~= close_tag());
                        assert(s.subrange(5, 5 + j as int) =~= text@.subrange(p + 5, q as int));
                        assert(s.skip(5 + j + 6) =~= text@.skip(q + 6));
                    }
                    let entry = trimmed_copy(text, p + 5, q);
                    if entry.len() > 0 {
                        let ghost out_pre = out@;
                        out.push(entry);
                        proof {
                            assert(crate::views_of(out@) =~= crate::views_of(out_pre).push(
                                entry@,
                            ));
                            assert(crate::views_of(out_pre) + (seq![entry@] + locs_of(
                                text@.skip(q + 6),
                            )) =~= crate::views_of(out@) + locs_of(text@.skip(q + 6)));
                        }
                    }
                    p = q + 6;
                } else {
                    // the `<` does not begin a `</loc>` end tag: malformed
                    proof {
                        if 5 + j + 6 <= s.len() {
                            assert(s.subrange(5 + j as int, 5 + j + 6) != close_tag()) by {
                                if s.subrange(5 + j as int, 5 + j + 6) == close_tag() {
                                    assert(s.subrange(5 + j as int, 5 + j + 6)[1] == text@[q
                                        + 1]);
                                    assert(s.subrange(5 + j as int, 5 + j + 6)[2] == text@[q
                                        + 2]);
                                    assert(s.subrange(5 + j as int, 5 + j + 6)[3] == text@[q
                                        + 3]);
                                    assert(s.subrange(5 + j as int, 5 + j + 6)[4] == text@[q
                                        + 4]);
                                    assert(s.subrange(5 + j as int, 5 + j + 6)[5] == text@[q
                                        + 5]);
                                    assert(false);
                                }
                            }
                        }
                        assert(locs_of(s) == Seq::<Seq<u8>>::empty());
                        lemma_locs_of_short(text@.skip(n as int));
                        assert(crate::views_of(out@) + Seq::<Seq<u8>>::empty() =~= crate::views_of(
                            out@,
                        ));
                    }
                    p = n;
                }
            }
        } else {
            proof {
                assert(s.take(5) != open_tag()) by {
                    if s.take(5) == open_tag() {
                        assert(s.take(5)[0] == text@[p as int]);
                        assert(s.take(5)[1] == text@[p + 1]);
                        assert(s.take(5)[2] == text@[p + 2]);
                        assert(s.take(5)[3] == text@[p + 3]);
                        assert(s.take(5)[4] == text@[p + 4]);
                        assert(false);
                    }
                }
                assert(s.drop_first() =~= text@.skip(p + 1));
                assert(locs_of(s) == locs_of(text@.skip(p + 1)));
            }
            p = p + 1;
        }
    }
    out
}

} // verus!

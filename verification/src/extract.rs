//! Anchor extraction: from one page's document text to the set of accepted
//! URLs found in its anchors.

use vstd::prelude::*;
use crate::shape::{
    capture_spec, is_accepted_url, all_accepted, capture_url, lemma_capture_accepted,
};
use crate::urlset::{
    strset, views, no_dups, contains_str, lemma_strset_index, lemma_strset_push,
};

verus! {

/// The `href` attribute values of the anchor elements of the document that
/// `body` holds, in document order.
pub uninterp spec fn hrefs_of(body: Seq<char>) -> Seq<Seq<char>>;

/// Relies on scraper: `Html::parse_document` parses the text leniently
/// (never failing), `select` with the selector `a` walks the anchor elements
/// in document order, and `attr` hands back each one's `href` value when it
/// has one. The result depends on the document text alone; an empty document
/// holds no anchors.
#[verifier::external_body]
fn anchor_hrefs(body: &str) -> (r: Vec<String>)
    ensures
        views(r@) == hrefs_of(body@),
        body@.len() == 0 ==> r@.len() == 0,
{
    let document = scraper::Html::parse_document(body);
    let selector = scraper::Selector::parse("a").unwrap();
    let mut out = Vec::new();
    for element in document.select(&selector) {
        if let Some(href) = element.value().attr("href") {
            out.push(href.to_owned());
        }
    }
    out
}

/// The URLs kept from a sequence of candidate links.
pub open spec fn extracted_set(hs: Seq<Seq<char>>) -> Set<Seq<char>> {
    Set::new(
        |u: Seq<char>| exists|i: int| 0 <= i < hs.len() && capture_spec(hs[i]) == Some(u),
    )
}

/// The set of URLs that one page's document text yields.
pub open spec fn page_links(body: Seq<char>) -> Set<Seq<char>> {
    extracted_set(hrefs_of(body))
}

/// Every URL of an extracted set matches the accepted shape.
pub proof fn lemma_extracted_accepted(hs: Seq<Seq<char>>)
    ensures
        forall|u: Seq<char>| #[trigger] extracted_set(hs).contains(u) ==> is_accepted_url(u),
{
    assert forall|u: Seq<char>| #[trigger] extracted_set(hs).contains(u) implies
        is_accepted_url(u) by {
        let i = choose|i: int| 0 <= i < hs.len() && capture_spec(hs[i]) == Some(u);
        lemma_capture_accepted(hs[i], u);
    }
}

/// Taking one more candidate into account adds exactly its capture, if any.
pub proof fn lemma_extracted_extend(hs: Seq<Seq<char>>, i: int)
    requires
        0 <= i < hs.len(),
    ensures
        capture_spec(hs[i]) is Some ==> extracted_set(hs.subrange(0, i + 1))
            == extracted_set(hs.subrange(0, i)).insert(capture_spec(hs[i])->Some_0),
        capture_spec(hs[i]) is None ==> extracted_set(hs.subrange(0, i + 1))
            == extracted_set(hs.subrange(0, i)),
{
    let pre = hs.subrange(0, i);
    let cur = hs.subrange(0, i + 1);
    assert forall|u: Seq<char>| #[trigger] extracted_set(cur).contains(u) implies
        extracted_set(pre).contains(u) || capture_spec(hs[i]) == Some(u) by {
        let j = choose|j: int| 0 <= j < cur.len() && capture_spec(cur[j]) == Some(u);
        if j < i {
            assert(pre[j] == hs[j]);
        }
    }
    assert forall|u: Seq<char>| #[trigger] extracted_set(pre).contains(u) implies
        extracted_set(cur).contains(u) by {
        let j = choose|j: int| 0 <= j < pre.len() && capture_spec(pre[j]) == Some(u);
        assert(cur[j] == hs[j]);
        assert(capture_spec(cur[j]) == Some(u));
    }
    if capture_spec(hs[i]) is Some {
        let u0 = capture_spec(hs[i])->Some_0;
        assert(cur[i] == hs[i]);
        assert(capture_spec(cur[i]) == Some(u0));
        assert(extracted_set(cur).contains(u0));
        assert(extracted_set(cur) =~= extracted_set(pre).insert(u0));
    } else {
        assert(extracted_set(cur) =~= extracted_set(pre));
    }
}

/// Extracts from one page's document text the accepted URLs of its anchors,
/// without duplicates.
pub fn extract_links(body: &str) -> (r: Vec<String>)
    ensures
        no_dups(r@),
        all_accepted(r@),
        strset(r@) == page_links(body@),
{
    let hrefs = anchor_hrefs(body);
    let ghost hs = hrefs_of(body@);
    let mut out: Vec<String> = Vec::new();
    let mut i: usize = 0;
    assert(strset(out@) =~= extracted_set(hs.subrange(0, 0))) by {
        assert(forall|u: Seq<char>| !strset(out@).contains(u));
        assert(forall|u: Seq<char>| !extracted_set(hs.subrange(0, 0)).contains(u));
    }
    while i < hrefs.len()
        invariant
            i <= hrefs@.len(),
            views(hrefs@) == hs,
            hs == hrefs_of(body@),
            no_dups(out@),
            all_accepted(out@),
            strset(out@) == extracted_set(hs.subrange(0, i as int)),
        decreases hrefs@.len() - i,
    {
        assert(hrefs@[i as int]@ == hs[i as int]) by {
            assert(views(hrefs@)[i as int] == hrefs@[i as int]@);
        }
        let cand = &hrefs[i];
        let picked = capture_url(cand.as_str());
        match picked {
            Some(u) => {
                let ghost uv = u@;
                proof {
                    lemma_capture_accepted(hs[i as int], uv);
                }
                if !contains_str(&out, &u) {
                    let ghost prev = out@;
                    let ghost us = u;
                    proof {
                        assert forall|p: int| 0 <= p < prev.len() implies prev[p]@ != uv by {
                            lemma_strset_index(prev, p);
                        }
                    }
                    out.push(u);
                    proof {
                        lemma_strset_push(prev, us);
                        assert(out@ == prev.push(us));
                    }
                }
            },
            None => {},
        }
        proof {
            lemma_extracted_extend(hs, i as int);
            assert(strset(out@) =~= extracted_set(hs.subrange(0, i as int + 1)));
        }
        i = i + 1;
    }
    proof {
        assert(hs.subrange(0, hs.len() as int) =~= hs);
    }
    out
}

} // verus!

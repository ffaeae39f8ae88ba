//! The output format: one page URL per line, newline-terminated, UTF-8, in
//! discovery order — no header, no deduplication, no sorting.

use vstd::prelude::*;

verus! {

/// The bytes of the persisted output: each URL followed by one line feed.
pub open spec fn rendered(urls: Seq<Seq<u8>>) -> Seq<u8>
    decreases urls.len(),
{
    if urls.len() == 0 {
        Seq::empty()
    } else {
        rendered(urls.drop_last()) + urls.last() + seq![10u8]
    }
}

/// Renders the collected page URLs as the bytes of the output file: one URL
/// per line, each line newline-terminated, in the order collected.
pub fn render_output(urls: &Vec<Vec<u8>>) -> (r: Vec<u8>)
    ensures
        r@ == rendered(crate::views_of(urls@)),
{
    let ghost ls = crate::views_of(urls@);
    let mut r: Vec<u8> = Vec::new();
    proof {
        assert(ls.take(0) =~= Seq::<Seq<u8>>::empty());
        assert(r@ =~= rendered(ls.take(0)));
    }
    let mut i: usize = 0;
    while i < urls.len()
        invariant
            0 <= i <= urls@.len(),
            ls == crate::views_of(urls@),
            r@ == rendered(ls.take(i as int)),
        decreases urls@.len() - i,
    {
        proof {
            assert(ls[i as int] == urls@[i as int]@);
        }
        let url = &urls[i];
        let mut j: usize = 0;
        while j < url.len()
            invariant
                0 <= j <= url@.len(),
                url@ == ls[i as int],
                i < ls.len(),
                r@ == rendered(ls.take(i as int)) + url@.subrange(0, j as int),
            decreases url@.len() - j,
        {
            r.push(url[j]);
            proof {
                assert(url@.subrange(0, j + 1) =~= url@.subrange(0, j as int).push(
                    url@[j as int],
                ));
                assert(rendered(ls.take(i as int)) + url@.subrange(0, j + 1) =~= (rendered(
                    ls.take(i as int),
                ) + url@.subrange(0, j as int)).push(url@[j as int]));
            }
            j = j + 1;
        }
        r.push(10);
        proof {
            assert(url@.subrange(0, url@.len() as int) =~= url@);
            assert(ls.take(i + 1).drop_last() =~= ls.take(i as int));
            assert(ls.take(i + 1).last() == ls[i as int]);
            assert(rendered(ls.take(i + 1)) =~= (rendered(ls.take(i as int)) + url@).push(10u8));
        }
        i = i + 1;
    }
    proof {
        assert(ls.take(ls.len() as int) =~= ls);
    }
    r
}

} // verus!

//! Classification of extracted locations: nested sitemap or terminal page URL.

use vstd::prelude::*;

verus! {

/// What one extracted location is: a reference to a nested sitemap document
/// that must be traversed further, or a terminal page URL to collect.
pub enum Classification {
    NestedSitemap(Vec<u8>),
    PageUrl(Vec<u8>),
}

/// The nested-sitemap references among a list of locations, in order.
pub open spec fn nested_of(ls: Seq<Seq<u8>>) -> Seq<Seq<u8>>
    decreases ls.len(),
{
    if ls.len() == 0 {
        Seq::empty()
    } else {
        let init = nested_of(ls.drop_last());
        if crate::is_sitemap_ref(ls.last()) {
            init.push(ls.last())
        } else {
            init
        }
    }
}

/// The terminal page URLs among a list of locations, in order.
pub open spec fn pages_of(ls: Seq<Seq<u8>>) -> Seq<Seq<u8>>
    decreases ls.len(),
{
    if ls.len() == 0 {
        Seq::empty()
    } else {
        let init = pages_of(ls.drop_last());
        if crate::is_sitemap_ref(ls.last()) {
            init
        } else {
            init.push(ls.last())
        }
    }
}

/// Decides whether a location names a nested sitemap or a terminal page URL:
/// a genuine suffix match on the literal `.xml`, case-sensitive, never a
/// substring match.
pub fn classify(location: Vec<u8>) -> (c: Classification)
    ensures
        match c {
            Classification::NestedSitemap(u) => crate::is_sitemap_ref(location@) && u@
                == location@,
            Classification::PageUrl(u) => !crate::is_sitemap_ref(location@) && u@ == location@,
        },
{
    let n: usize = location.len();
    if n >= 4 && location[n - 4] == 46 && location[n - 3] == 120 && location[n - 2] == 109
        && location[n - 1] == 108 {
        proof {
            assert(location@.subrange(n - 4, n as int) =~= crate::xml_suffix());
        }
        Classification::NestedSitemap(location)
    } else {
        proof {
            if n >= 4 {
                assert(location@.subrange(n - 4, n as int) != crate::xml_suffix()) by {
                    if location@.subrange(n - 4, n as int) == crate::xml_suffix() {
                        assert(location@.subrange(n - 4, n as int)[0] == location@[n - 4]);
                        assert(location@.subrange(n - 4, n as int)[1] == location@[n - 3]);
                        assert(location@.subrange(n - 4, n as int)[2] == location@[n - 2]);
                        assert(location@.subrange(n - 4, n as int)[3] == location@[n - 1]);
                        assert(false);
                    }
                }
            }
        }
        Classification::PageUrl(location)
    }
}

} // verus!

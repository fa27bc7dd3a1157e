//! Plain page rendering of consolidated rows: one line per row, sliced to
//! the requested page.

use vstd::prelude::*;
use vstd::string::StringExecFns;

use crate::models::{models, FullItem, ItemModel};
use crate::text::{dec_str, push_dec_u64};
use crate::util::{deref_models, page_slice};

verus! {

/// The one-line rendering of a row: its name and its merged count.
pub open spec fn display_str(m: ItemModel) -> Seq<char> {
    m.name + " (x"@ + dec_str(m.count as nat) + ")"@
}

pub open spec fn displayed(ms: Seq<ItemModel>) -> Seq<Seq<char>> {
    ms.map_values(|m: ItemModel| display_str(m))
}

pub open spec fn string_views(ss: Seq<String>) -> Seq<Seq<char>> {
    ss.map_values(|s: String| s@)
}

/// Renders one row as the plain list shows it.
pub fn for_display(item: &FullItem) -> (r: String)
    ensures
        r@ == display_str(item.model()),
{
    let mut s = item.name.clone();
    s.append(" (x");
    push_dec_u64(&mut s, item.count);
    s.append(")");
    proof {
        assert(s@ =~= display_str(item.model()));
    }
    s
}

/// The rendered lines of one display page of `items`, in order.
pub fn filter(items: &[FullItem], page: usize, page_size: u16) -> (r: Vec<String>)
    ensures
        string_views(r@) == displayed(
            page_slice(models(items@), page as int, page_size as int),
        ),
{
    let on_page = crate::util::paginate(items, page, page_size);
    let ghost ms = deref_models(on_page@);
    let mut r: Vec<String> = Vec::new();
    let mut i: usize = 0;
    while i < on_page.len()
        invariant
            0 <= i <= on_page@.len(),
            ms == deref_models(on_page@),
            string_views(r@) == displayed(ms.take(i as int)),
        decreases on_page@.len() - i,
    {
        let ghost oldr = r@;
        let line = for_display(on_page[i]);
        r.push(line);
        proof {
            assert(ms.take(i as int + 1) =~= ms.take(i as int).push(ms[i as int]));
            assert(ms[i as int] == on_page@[i as int].model());
            assert(r@ == oldr.push(line));
            assert(ms.len() == on_page@.len());
            assert(string_views(oldr).len() == oldr.len());
            assert(displayed(ms.take(i as int)).len() == i as int);
            assert(oldr.len() == i as int);
            assert forall|a: int| 0 <= a < r@.len() implies string_views(r@)[a] == displayed(
                ms.take(i as int + 1),
            )[a] by {
                assert(displayed(ms.take(i as int + 1))[a] == display_str(
                    ms.take(i as int + 1)[a],
                ));
                if a < oldr.len() {
                    assert(string_views(r@)[a] == string_views(oldr)[a]);
                    assert(string_views(oldr)[a] == displayed(ms.take(i as int))[a]);
                    assert(ms.take(i as int + 1)[a] == ms.take(i as int)[a]);
                } else {
                    assert(string_views(r@)[a] == line@);
                    assert(ms.take(i as int + 1)[a] == ms[i as int]);
                }
            }
            assert(string_views(r@) =~= displayed(ms.take(i as int + 1)));
        }
        i += 1;
    }
    proof {
        assert(ms.take(ms.len() as int) =~= ms);
        assert(string_views(r@) == displayed(
            page_slice(models(items@), page as int, page_size as int),
        ));
    }
    r
}

} // verus!

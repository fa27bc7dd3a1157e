//! The interactive view-model: the consolidated rows, the live query, the
//! current page and page size, and the key-event transitions the terminal
//! shell drives each frame. The shell only renders what `filtered_items`
//! and `search_status` return.

use vstd::prelude::*;
use vstd::string::StringExecFns;

use crate::models::{models, FullItem, ItemModel};
use crate::text::{dec_str, push_dec_u64};
use crate::util::{deref_models, matching, max_pages_spec, page_slice};

verus! {

/// The one-line rendering of a row in the interactive list: name, merged
/// count, owning character.
pub open spec fn row_str(m: ItemModel) -> Seq<char> {
    m.name + " (x"@ + dec_str(m.count as nat) + ") - "@ + m.character
}

pub open spec fn rows_rendered(ms: Seq<ItemModel>) -> Seq<Seq<char>> {
    ms.map_values(|m: ItemModel| row_str(m))
}

pub open spec fn line_views(ss: Seq<String>) -> Seq<Seq<char>> {
    ss.map_values(|s: String| s@)
}

/// The status line: current page, page count, page size, total row count.
pub open spec fn status_str(page: int, pages: int, size: int, total: int) -> Seq<char> {
    "Page "@ + dec_str((page + 1) as nat) + "/"@ + dec_str(pages as nat) + ", showing "@ + dec_str(
        size as nat,
    ) + " per page, "@ + dec_str(total as nat) + " total items"@
}

/// One key event the terminal shell hands the view-model.
pub enum AppEvent {
    /// A typed character: appended to the query; the page resets.
    Input(char),
    /// The last query character is removed; the page resets.
    Backspace,
    /// The whole query is cleared; the page resets.
    Clear,
    /// One page forward, when a further page exists.
    PageDown,
    /// One page back, when not already on the first.
    PageUp,
}

/// The view-model state. The rows are fixed for the session; the query, the
/// page and the page size change under events and terminal resizes.
pub struct App {
    items: Vec<FullItem>,
    input: String,
    page: usize,
    page_size: u16,
}

impl App {
    /// The page index never runs past the rows, so page arithmetic stays in
    /// range; a resize may still leave it past the *current* page count,
    /// which pagination clips.
    #[verifier::type_invariant]
    spec fn wf(self) -> bool {
        self.page == 0 || self.page < self.items@.len()
    }

    /// The consolidated rows the view holds.
    pub closed spec fn item_rows(self) -> Seq<ItemModel> {
        models(self.items@)
    }

    /// The live query text.
    pub closed spec fn query(self) -> Seq<char> {
        self.input@
    }

    /// The current page index, starting at 0.
    pub closed spec fn current_page(self) -> int {
        self.page as int
    }

    /// How many rows fit on one page right now.
    pub closed spec fn rows_per_page(self) -> int {
        self.page_size as int
    }

    /// A fresh view over the consolidated rows: empty query, first page, no
    /// room to draw yet.
    pub fn new(items: Vec<FullItem>) -> (r: Self)
        ensures
            r.item_rows() == models(items@),
            r.query() == Seq::<char>::empty(),
            r.current_page() == 0,
            r.rows_per_page() == 0,
    {
        App { items, input: String::new(), page: 0, page_size: 0 }
    }

    /// The shell reports how many rows fit after a resize; the page index is
    /// deliberately left alone.
    pub fn set_page_size(&mut self, size: u16)
        ensures
            final(self).rows_per_page() == size as int,
            final(self).item_rows() == old(self).item_rows(),
            final(self).query() == old(self).query(),
            final(self).current_page() == old(self).current_page(),
    {
        proof {
            use_type_invariant(&*self);
        }
        self.page_size = size;
    }

    /// The query text, for the shell to draw.
    pub fn input_text(&self) -> (r: &str)
        ensures
            r@ == self.query(),
    {
        self.input.as_str()
    }

    /// How many consolidated rows the view holds in all.
    pub fn get_all_slots_count(&self) -> (n: usize)
        ensures
            n == self.item_rows().len(),
    {
        self.items.len()
    }

    /// The page count over all rows: the rounded-up quotient, at least 1.
    pub fn max_pages(&self) -> (n: usize)
        ensures
            n as int == max_pages_spec(self.item_rows().len() as int, self.rows_per_page()),
    {
        let count = self.items.len();
        let ps = self.page_size as usize;
        if ps == 0 || count == 0 {
            1
        } else {
            (count - 1) / ps + 1
        }
    }

    /// The status line describing the current view.
    pub fn search_status(&self) -> (r: String)
        ensures
            r@ == status_str(
                self.current_page(),
                max_pages_spec(self.item_rows().len() as int, self.rows_per_page()),
                self.rows_per_page(),
                self.item_rows().len() as int,
            ),
    {
        proof {
            use_type_invariant(self);
        }
        let pages = self.max_pages();
        let total = self.items.len();
        let mut s = "Page ".to_owned();
        push_dec_u64(&mut s, self.page as u64 + 1);
        s.append("/");
        push_dec_u64(&mut s, pages as u64);
        s.append(", showing ");
        push_dec_u64(&mut s, self.page_size as u64);
        s.append(" per page, ");
        push_dec_u64(&mut s, total as u64);
        s.append(" total items");
        proof {
            assert(s@ =~= status_str(
                self.current_page(),
                max_pages_spec(self.item_rows().len() as int, self.rows_per_page()),
                self.rows_per_page(),
                self.item_rows().len() as int,
            ));
        }
        s
    }

    /// The rendered lines of the current page of rows matching the query.
    pub fn filtered_items(&self) -> (r: Vec<String>)
        ensures
            line_views(r@) == rows_rendered(
                page_slice(
                    matching(self.item_rows(), self.query()),
                    self.current_page(),
                    self.rows_per_page(),
                ),
            ),
    {
        let matched = crate::util::filter(self.items.as_slice(), self.input.as_str());
        let ghost mm = matching(self.item_rows(), self.query());
        let mut filtered: Vec<FullItem> = Vec::new();
        let mut i: usize = 0;
        while i < matched.len()
            invariant
                0 <= i <= matched@.len(),
                deref_models(matched@) == mm,
                models(filtered@) == mm.take(i as int),
            decreases matched@.len() - i,
        {
            let ghost oldf = filtered@;
            let c = matched[i].clone();
            filtered.push(c);
            proof {
                assert(mm.take(i as int + 1) =~= mm.take(i as int).push(mm[i as int]));
                assert(mm[i as int] == matched@[i as int].model());
                assert forall|a: int| 0 <= a < filtered@.len() implies models(filtered@)[a]
                    == mm.take(i as int + 1)[a] by {
                    if a < oldf.len() {
                        assert(models(filtered@)[a] == models(oldf)[a]);
                    }
                }
                assert(models(filtered@) =~= mm.take(i as int + 1));
            }
            i += 1;
        }
        proof {
            assert(mm.take(mm.len() as int) =~= mm);
        }
        let on_page = crate::util::paginate(filtered.as_slice(), self.page, self.page_size);
        let ghost pm = deref_models(on_page@);
        let mut r: Vec<String> = Vec::new();
        let mut j: usize = 0;
        while j < on_page.len()
            invariant
                0 <= j <= on_page@.len(),
                pm == deref_models(on_page@),
                line_views(r@) == rows_rendered(pm.take(j as int)),
            decreases on_page@.len() - j,
        {
            let ghost oldr = r@;
            let line = format_row(on_page[j]);
            r.push(line);
            proof {
                assert(r@ == oldr.push(line));
                assert(line_views(oldr).len() == oldr.len());
                assert(rows_rendered(pm.take(j as int)).len() == j as int);
                assert(pm.take(j as int + 1) =~= pm.take(j as int).push(pm[j as int]));
                assert(pm[j as int] == on_page@[j as int].model());
                assert forall|a: int| 0 <= a < r@.len() implies line_views(r@)[a] == rows_rendered(
                    pm.take(j as int + 1),
                )[a] by {
                    assert(rows_rendered(pm.take(j as int + 1))[a] == row_str(
                        pm.take(j as int + 1)[a],
                    ));
                    if a < oldr.len() {
                        assert(line_views(r@)[a] == line_views(oldr)[a]);
                        assert(line_views(oldr)[a] == rows_rendered(pm.take(j as int))[a]);
                        assert(pm.take(j as int + 1)[a] == pm.take(j as int)[a]);
                    } else {
                        assert(line_views(r@)[a] == line@);
                        assert(pm.take(j as int + 1)[a] == pm[j as int]);
                    }
                }
                assert(line_views(r@) =~= rows_rendered(pm.take(j as int + 1)));
            }
            j += 1;
        }
        proof {
            assert(pm.take(pm.len() as int) =~= pm);
            assert(models(filtered@) == mm);
            assert(pm == page_slice(mm, self.current_page(), self.rows_per_page()));
        }
        r
    }

    /// One key-event transition: typing, erasing and clearing reset the page
    /// to 0; paging moves within the page count over all rows; the rows and
    /// the page size never change.
    pub fn handle_event(&mut self, event: &AppEvent)
        ensures
            final(self).item_rows() == old(self).item_rows(),
            final(self).rows_per_page() == old(self).rows_per_page(),
            match *event {
                AppEvent::Input(c) => final(self).query() == old(self).query().push(c)
                    && final(self).current_page() == 0,
                AppEvent::Backspace => final(self).current_page() == 0 && final(self).query() == (
                if old(self).query().len() > 0 {
                    old(self).query().drop_last()
                } else {
                    old(self).query()
                }),
                AppEvent::Clear => final(self).query().len() == 0 && final(self).current_page()
                    == 0,
                AppEvent::PageDown => final(self).query() == old(self).query()
                    && final(self).current_page() == (if old(self).current_page() + 1
                    < max_pages_spec(old(self).item_rows().len() as int, old(self).rows_per_page())
                 {
                    old(self).current_page() + 1
                } else {
                    old(self).current_page()
                }),
                AppEvent::PageUp => final(self).query() == old(self).query()
                    && final(self).current_page() == (if old(self).current_page() > 0 {
                    old(self).current_page() - 1
                } else {
                    0
                }),
            },
    {
        proof {
            use_type_invariant(&*self);
        }
        match event {
            AppEvent::Input(c) => {
                let mut q = self.input.clone();
                q.push(*c);
                self.input = q;
                self.page = 0;
            },
            AppEvent::Backspace => {
                let mut q = self.input.clone();
                let _ = q.pop();
                self.input = q;
                self.page = 0;
            },
            AppEvent::Clear => {
                self.input = String::new();
                self.page = 0;
            },
            AppEvent::PageDown => {
                let pages = self.max_pages();
                let total = self.items.len();
                if self.page + 1 < pages {
                    self.page = self.page + 1;
                }
            },
            AppEvent::PageUp => {
                if self.page > 0 {
                    self.page = self.page - 1;
                }
            },
        }
    }
}

/// Renders one row as the interactive list shows it.
fn format_row(item: &FullItem) -> (r: String)
    ensures
        r@ == row_str(item.model()),
{
    let mut s = item.name.clone();
    s.append(" (x");
    push_dec_u64(&mut s, item.count);
    s.append(") - ");
    s.append(item.character.as_str());
    proof {
        assert(s@ =~= row_str(item.model()));
    }
    s
}

} // verus!

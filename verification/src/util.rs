//! The consolidation pipeline: per-character merging of same-item slots, the
//! join against the metadata cache, the stable name sort, and the query
//! filter and pagination that drive the view.

use vstd::prelude::*;

use crate::cache::Cache;
use crate::models::{
    models, slot_entries, FullItem, Inventory, InventorySlot, ItemInfo, ItemModel, SlotKey,
};
use crate::text::{
    lemma_lex_lt_irreflexive, lemma_lex_lt_le_transitive, lemma_lex_total, lex_le, lex_lt, str_lt,
};

pub mod model;

verus! {

// ---------------------------------------------------------------------------
// The merge model: what consolidation does to (identity, count) entries.
// ---------------------------------------------------------------------------

/// The first position in `acc` holding identity `k`, or `acc.len()` if none.
pub open spec fn find_key(acc: Seq<(SlotKey, int)>, k: SlotKey) -> int
    decreases acc.len(),
{
    if acc.len() == 0 {
        0
    } else if acc[0].0 == k {
        0
    } else {
        1 + find_key(acc.drop_first(), k)
    }
}

pub open spec fn has_key(es: Seq<(SlotKey, int)>, k: SlotKey) -> bool {
    exists|i: int| 0 <= i < es.len() && es[i].0 == k
}

pub proof fn lemma_find_key(acc: Seq<(SlotKey, int)>, k: SlotKey)
    ensures
        0 <= find_key(acc, k) <= acc.len(),
        find_key(acc, k) < acc.len() ==> acc[find_key(acc, k)].0 == k,
        forall|i: int| 0 <= i < find_key(acc, k) ==> acc[i].0 != k,
        (find_key(acc, k) < acc.len()) == has_key(acc, k),
    decreases acc.len(),
{
    if acc.len() == 0 {
        assert(!has_key(acc, k));
    } else if acc[0].0 == k {
        assert(has_key(acc, k));
    } else {
        let rest = acc.drop_first();
        lemma_find_key(rest, k);
        let j = find_key(acc, k);
        assert(j == 1 + find_key(rest, k));
        assert forall|i: int| 0 <= i < j implies acc[i].0 != k by {
            if i > 0 {
                assert(acc[i] == rest[i - 1]);
            }
        }
        if find_key(rest, k) < rest.len() {
            assert(acc[j] == rest[j - 1]);
            assert(has_key(acc, k));
        } else {
            assert(!has_key(acc, k)) by {
                if has_key(acc, k) {
                    let w = choose|i: int| 0 <= i < acc.len() && acc[i].0 == k;
                    assert(w > 0);
                    assert(rest[w - 1] == acc[w]);
                    assert(has_key(rest, k));
                }
            }
        }
    }
}

/// One merge step: add entry `e` onto the accumulated entries, either into
/// the first entry with the same identity or as a fresh entry at the end.
pub open spec fn merge_push(acc: Seq<(SlotKey, int)>, e: (SlotKey, int)) -> Seq<(SlotKey, int)> {
    let j = find_key(acc, e.0);
    if j < acc.len() {
        acc.update(j, (e.0, acc[j].1 + e.1))
    } else {
        acc.push(e)
    }
}

/// The whole merge of a sequence of entries, left to right.
pub open spec fn merge_seq(es: Seq<(SlotKey, int)>) -> Seq<(SlotKey, int)>
    decreases es.len(),
{
    if es.len() == 0 {
        Seq::empty()
    } else {
        merge_push(merge_seq(es.drop_last()), es.last())
    }
}

/// The total count carried by identity `k` in a sequence of entries.
pub open spec fn entry_sum(es: Seq<(SlotKey, int)>, k: SlotKey) -> int
    decreases es.len(),
{
    if es.len() == 0 {
        0
    } else {
        entry_sum(es.drop_last(), k) + if es.last().0 == k {
            es.last().1
        } else {
            0
        }
    }
}

proof fn lemma_entry_sum_update(es: Seq<(SlotKey, int)>, j: int, c: int, k: SlotKey)
    requires
        0 <= j < es.len(),
    ensures
        entry_sum(es.update(j, (es[j].0, es[j].1 + c)), k) == entry_sum(es, k) + if es[j].0 == k {
            c
        } else {
            0
        },
    decreases es.len(),
{
    let up = es.update(j, (es[j].0, es[j].1 + c));
    if j == es.len() - 1 {
        assert(up.drop_last() =~= es.drop_last());
        assert(up.last() == (es[j].0, es[j].1 + c));
    } else {
        assert(up.drop_last() =~= es.drop_last().update(j, (es[j].0, es[j].1 + c)));
        assert(es.drop_last()[j] == es[j]);
        lemma_entry_sum_update(es.drop_last(), j, c, k);
        assert(up.last() == es.last());
    }
}

proof fn lemma_entry_sum_push(es: Seq<(SlotKey, int)>, e: (SlotKey, int), k: SlotKey)
    ensures
        entry_sum(es.push(e), k) == entry_sum(es, k) + if e.0 == k {
            e.1
        } else {
            0
        },
{
    assert(es.push(e).drop_last() =~= es);
    assert(es.push(e).last() == e);
}

proof fn lemma_merge_push_sum(acc: Seq<(SlotKey, int)>, e: (SlotKey, int), k: SlotKey)
    ensures
        entry_sum(merge_push(acc, e), k) == entry_sum(acc, k) + if e.0 == k {
            e.1
        } else {
            0
        },
{
    lemma_find_key(acc, e.0);
    let j = find_key(acc, e.0);
    if j < acc.len() {
        lemma_entry_sum_update(acc, j, e.1, k);
    } else {
        lemma_entry_sum_push(acc, e, k);
    }
}

/// Merging never changes the total count of any identity: the count filed
/// under an identity in the merged output is the sum of all the raw entries
/// carrying that identity.
pub proof fn lemma_merge_preserves_counts(es: Seq<(SlotKey, int)>, k: SlotKey)
    ensures
        entry_sum(merge_seq(es), k) == entry_sum(es, k),
    decreases es.len(),
{
    if es.len() > 0 {
        lemma_merge_preserves_counts(es.drop_last(), k);
        lemma_merge_push_sum(merge_seq(es.drop_last()), es.last(), k);
    }
}

/// No two entries of a merged sequence share an identity: entries that differ
/// only in count always land in a single merged entry.
pub open spec fn distinct_keys(es: Seq<(SlotKey, int)>) -> bool {
    forall|i: int, j: int| 0 <= i < j < es.len() ==> es[i].0 != es[j].0
}

pub proof fn lemma_merge_distinct(es: Seq<(SlotKey, int)>)
    ensures
        distinct_keys(merge_seq(es)),
    decreases es.len(),
{
    if es.len() > 0 {
        let acc = merge_seq(es.drop_last());
        lemma_merge_distinct(es.drop_last());
        lemma_find_key(acc, es.last().0);
        let j = find_key(acc, es.last().0);
        if j < acc.len() {
            let up = acc.update(j, (es.last().0, acc[j].1 + es.last().1));
            assert(up[j].0 == acc[j].0);
            assert forall|a: int, b: int| 0 <= a < b < up.len() implies up[a].0 != up[b].0 by {
                assert(up[a].0 == acc[a].0 && up[b].0 == acc[b].0);
            }
        } else {
            let up = acc.push(es.last());
            assert forall|a: int, b: int| 0 <= a < b < up.len() implies up[a].0 != up[b].0 by {
                if b == up.len() - 1 {
                    assert(up[a].0 == acc[a].0);
                    assert(!has_key(acc, es.last().0));
                    if up[a].0 == es.last().0 {
                        assert(has_key(acc, es.last().0));
                    }
                }
            }
        }
    }
}

/// An identity occurs in the merged output exactly when some raw entry
/// carries it: entries with different identities are never merged away.
pub proof fn lemma_merge_keys(es: Seq<(SlotKey, int)>, k: SlotKey)
    ensures
        has_key(merge_seq(es), k) == has_key(es, k),
    decreases es.len(),
{
    if es.len() == 0 {
        assert(!has_key(merge_seq(es), k));
        assert(!has_key(es, k));
    } else {
        let pre = es.drop_last();
        let acc = merge_seq(pre);
        let m = merge_seq(es);
        lemma_merge_keys(pre, k);
        lemma_find_key(acc, es.last().0);
        let j = find_key(acc, es.last().0);
        assert(has_key(es, k) == (has_key(pre, k) || es.last().0 == k)) by {
            if has_key(es, k) {
                let w = choose|i: int| 0 <= i < es.len() && es[i].0 == k;
                if w < es.len() - 1 {
                    assert(pre[w] == es[w]);
                    assert(has_key(pre, k));
                }
            }
            if has_key(pre, k) {
                let w = choose|i: int| 0 <= i < pre.len() && pre[i].0 == k;
                assert(es[w] == pre[w]);
            }
            if es.last().0 == k {
                assert(es[es.len() - 1].0 == k);
            }
        }
        if j < acc.len() {
            assert(m == acc.update(j, (es.last().0, acc[j].1 + es.last().1)));
            assert(has_key(m, k) == (has_key(acc, k) || es.last().0 == k)) by {
                assert(m[j].0 == es.last().0 && acc[j].0 == es.last().0);
                if has_key(m, k) {
                    let w = choose|i: int| 0 <= i < m.len() && m[i].0 == k;
                    assert(m[w].0 == acc[w].0 || w == j);
                }
                if has_key(acc, k) {
                    let w = choose|i: int| 0 <= i < acc.len() && acc[i].0 == k;
                    assert(m[w].0 == acc[w].0 || w == j);
                }
                if es.last().0 == k {
                    assert(m[j].0 == k);
                }
            }
        } else {
            assert(m == acc.push(es.last()));
            assert(has_key(m, k) == (has_key(acc, k) || es.last().0 == k)) by {
                if has_key(m, k) {
                    let w = choose|i: int| 0 <= i < m.len() && m[i].0 == k;
                    if w < acc.len() {
                        assert(acc[w] == m[w]);
                    }
                }
                if has_key(acc, k) {
                    let w = choose|i: int| 0 <= i < acc.len() && acc[i].0 == k;
                    assert(m[w] == acc[w]);
                }
                assert(m[m.len() - 1] == es.last());
            }
        }
    }
}

/// In a merged (hence identity-distinct) sequence, each entry's count is the
/// whole sum for its identity.
pub proof fn lemma_distinct_entry_count(es: Seq<(SlotKey, int)>, i: int)
    requires
        distinct_keys(es),
        0 <= i < es.len(),
    ensures
        entry_sum(es, es[i].0) == es[i].1,
    decreases es.len(),
{
    let k = es[i].0;
    if i == es.len() - 1 {
        assert(forall|a: int| 0 <= a < es.drop_last().len() ==> es.drop_last()[a] == es[a]);
        lemma_sum_absent(es.drop_last(), k);
    } else {
        assert(forall|a: int| 0 <= a < es.drop_last().len() ==> es.drop_last()[a] == es[a]);
        lemma_distinct_entry_count(es.drop_last(), i);
        assert(es.last().0 != k);
    }
}

proof fn lemma_sum_absent(es: Seq<(SlotKey, int)>, k: SlotKey)
    requires
        !has_key(es, k),
    ensures
        entry_sum(es, k) == 0,
    decreases es.len(),
{
    if es.len() > 0 {
        assert(es.last().0 != k) by {
            if es.last().0 == k {
                assert(es[es.len() - 1].0 == k);
            }
        }
        assert(!has_key(es.drop_last(), k)) by {
            if has_key(es.drop_last(), k) {
                let w = choose|i: int| 0 <= i < es.drop_last().len() && es.drop_last()[i].0 == k;
                assert(es[w] == es.drop_last()[w]);
            }
        }
        lemma_sum_absent(es.drop_last(), k);
    }
}

/// Within one character, each consolidated entry's count is the whole count
/// its identity carries among that character's raw slots. `char_items` is a
/// function of one character's inventory alone, so no other character's
/// slots ever contribute.
pub proof fn lemma_consolidated_counts(inv: Inventory, i: int)
    requires
        0 <= i < merge_seq(slot_entries(inv.contents())).len(),
    ensures
        merge_seq(slot_entries(inv.contents()))[i].1 == entry_sum(
            slot_entries(inv.contents()),
            merge_seq(slot_entries(inv.contents()))[i].0,
        ),
{
    let es = slot_entries(inv.contents());
    lemma_merge_distinct(es);
    lemma_distinct_entry_count(merge_seq(es), i);
    lemma_merge_preserves_counts(es, merge_seq(es)[i].0);
}

/// Sums of non-negative counts only grow with the prefix.
proof fn lemma_entry_sum_take_le(es: Seq<(SlotKey, int)>, i: int, k: SlotKey)
    requires
        0 <= i <= es.len(),
        forall|a: int| 0 <= a < es.len() ==> es[a].1 >= 0,
    ensures
        entry_sum(es.take(i), k) <= entry_sum(es, k),
    decreases es.len() - i,
{
    if i == es.len() {
        assert(es.take(i) =~= es);
    } else {
        lemma_entry_sum_take_le(es, i + 1, k);
        assert(es.take(i + 1).drop_last() =~= es.take(i));
        assert(es.take(i + 1).last() == es[i]);
    }
}

// ---------------------------------------------------------------------------
// The consolidated rows and the name order on them.
// ---------------------------------------------------------------------------

/// The display row a merged entry produces once joined against the cache.
pub open spec fn item_of(e: (SlotKey, int), cache: Map<u64, ItemInfo>, character: Seq<char>) -> ItemModel {
    ItemModel {
        id: cache[e.0.id].id,
        count: e.1,
        name: cache[e.0.id].name@,
        description: crate::models::opt_str_view(cache[e.0.id].description),
        item_type: cache[e.0.id].item_type@,
        character: character,
    }
}

/// All rows of one character: that character's slots merged, then joined.
pub open spec fn char_items(character: Seq<char>, inv: Inventory, cache: Map<u64, ItemInfo>) -> Seq<
    ItemModel,
> {
    merge_seq(slot_entries(inv.contents())).map_values(
        |e: (SlotKey, int)| item_of(e, cache, character),
    )
}

/// All characters' rows, character by character, before sorting.
pub open spec fn all_items(pairs: Seq<(String, Inventory)>, cache: Map<u64, ItemInfo>) -> Seq<
    ItemModel,
>
    decreases pairs.len(),
{
    if pairs.len() == 0 {
        Seq::empty()
    } else {
        all_items(pairs.drop_last(), cache) + char_items(
            pairs.last().0@,
            pairs.last().1,
            cache,
        )
    }
}

pub open spec fn sorted_by_name(ms: Seq<ItemModel>) -> bool {
    forall|i: int, j: int| 0 <= i < j < ms.len() ==> lex_le(ms[i].name, ms[j].name)
}

/// The rows bearing one exact name, in order: the stability measure of the
/// sort.
pub open spec fn filter_name(ms: Seq<ItemModel>, n: Seq<char>) -> Seq<ItemModel>
    decreases ms.len(),
{
    if ms.len() == 0 {
        Seq::empty()
    } else {
        let rest = filter_name(ms.drop_last(), n);
        if ms.last().name == n {
            rest.push(ms.last())
        } else {
            rest
        }
    }
}

proof fn lemma_filter_name_add(a: Seq<ItemModel>, b: Seq<ItemModel>, n: Seq<char>)
    ensures
        filter_name(a + b, n) == filter_name(a, n) + filter_name(b, n),
    decreases b.len(),
{
    if b.len() == 0 {
        assert(a + b =~= a);
        assert(filter_name(a, n) + filter_name(b, n) =~= filter_name(a, n));
    } else {
        lemma_filter_name_add(a, b.drop_last(), n);
        assert((a + b).drop_last() =~= a + b.drop_last());
        assert((a + b).last() == b.last());
        if b.last().name == n {
            assert(filter_name(a, n) + filter_name(b.drop_last(), n).push(b.last())
                =~= (filter_name(a, n) + filter_name(b.drop_last(), n)).push(b.last()));
        }
    }
}

proof fn lemma_filter_name_absent(ms: Seq<ItemModel>, n: Seq<char>)
    requires
        forall|i: int| 0 <= i < ms.len() ==> ms[i].name != n,
    ensures
        filter_name(ms, n) == Seq::<ItemModel>::empty(),
    decreases ms.len(),
{
    if ms.len() > 0 {
        assert(forall|i: int|
            0 <= i < ms.drop_last().len() ==> ms.drop_last()[i] == ms[i]);
        lemma_filter_name_absent(ms.drop_last(), n);
        assert(ms.last() == ms[ms.len() - 1]);
    }
}

/// Extending a sequence by one row extends each name filter by at most that
/// row.
proof fn lemma_filter_name_take_succ(ms: Seq<ItemModel>, i: int, n: Seq<char>)
    requires
        0 <= i < ms.len(),
    ensures
        filter_name(ms.take(i + 1), n) == if ms[i].name == n {
            filter_name(ms.take(i), n).push(ms[i])
        } else {
            filter_name(ms.take(i), n)
        },
{
    assert(ms.take(i + 1).drop_last() =~= ms.take(i));
    assert(ms.take(i + 1).last() == ms[i]);
}

/// Inserting a row after every row that sorts no later than it, and before
/// every strictly later row, keeps the order sorted, appends the row to its
/// own name's filter, and leaves every other name's filter unchanged.
proof fn lemma_sorted_insert(ms: Seq<ItemModel>, m2: Seq<ItemModel>, p: int, x: ItemModel)
    requires
        sorted_by_name(ms),
        0 <= p <= ms.len(),
        m2 == ms.take(p) + seq![x] + ms.skip(p),
        forall|idx: int| 0 <= idx < p ==> !lex_lt(x.name, ms[idx].name),
        forall|idx: int| p <= idx < ms.len() ==> lex_lt(x.name, ms[idx].name),
    ensures
        sorted_by_name(m2),
        forall|n: Seq<char>| #[trigger] filter_name(m2, n) == if n == x.name {
            filter_name(ms, n).push(x)
        } else {
            filter_name(ms, n)
        },
{
    assert(m2.len() == ms.len() + 1);
    assert forall|i: int| 0 <= i < m2.len() implies m2[i] == (if i < p {
        ms[i]
    } else if i == p {
        x
    } else {
        ms[i - 1]
    }) by {}
    assert forall|i: int, j: int| 0 <= i < j < m2.len() implies lex_le(m2[i].name, m2[j].name) by {
        if i < p && j == p {
            lemma_lex_total(x.name, ms[i].name);
        } else if i == p && j > p {
            assert(lex_lt(x.name, ms[j - 1].name));
        } else if i < p && j > p {
            assert(lex_le(ms[i].name, ms[j - 1].name));
        }
    }
    assert forall|n: Seq<char>| #[trigger] filter_name(m2, n) == (if n == x.name {
        filter_name(ms, n).push(x)
    } else {
        filter_name(ms, n)
    }) by {
        let pre = ms.take(p);
        let post = ms.skip(p);
        lemma_filter_name_add(pre + seq![x], post, n);
        lemma_filter_name_add(pre, seq![x], n);
        assert(m2 == (pre + seq![x]) + post) by {
            assert(m2 =~= (pre + seq![x]) + post);
        }
        assert(seq![x].drop_last() =~= Seq::<ItemModel>::empty());
        assert(seq![x].last() == x);
        assert(filter_name(Seq::<ItemModel>::empty(), n) == Seq::<ItemModel>::empty());
        assert(filter_name(seq![x], n) == if x.name == n {
            Seq::<ItemModel>::empty().push(x)
        } else {
            Seq::<ItemModel>::empty()
        });
        lemma_filter_name_add(pre, post, n);
        assert(ms == pre + post) by {
            assert(ms =~= pre + post);
        }
        if n == x.name {
            assert forall|i: int| 0 <= i < post.len() implies post[i].name != n by {
                assert(post[i] == ms[p + i]);
                assert(lex_lt(x.name, post[i].name));
                if post[i].name == n {
                    lemma_lex_lt_irreflexive(n);
                }
            }
            lemma_filter_name_absent(post, n);
            assert(filter_name(ms, n) =~= filter_name(pre, n));
            assert(filter_name(m2, n) =~= filter_name(pre, n).push(x));
        } else {
            assert(filter_name(m2, n) =~= filter_name(pre, n) + filter_name(post, n));
        }
    }
}

/// The position before the first row whose name sorts strictly after `name`.
fn insertion_point(out: &Vec<FullItem>, name: &str) -> (p: usize)
    requires
        sorted_by_name(models(out@)),
    ensures
        p <= out@.len(),
        forall|idx: int| 0 <= idx < p ==> !lex_lt(name@, models(out@)[idx].name),
        forall|idx: int| p <= idx < out@.len() ==> lex_lt(name@, models(out@)[idx].name),
{
    let mut p: usize = 0;
    loop
        invariant
            p <= out@.len(),
            sorted_by_name(models(out@)),
            forall|idx: int| 0 <= idx < p ==> !lex_lt(name@, models(out@)[idx].name),
        decreases out@.len() - p,
    {
        if p == out.len() {
            return p;
        }
        if str_lt(name, out[p].name.as_str()) {
            proof {
                assert forall|idx: int| p <= idx < out@.len() implies lex_lt(
                    name@,
                    models(out@)[idx].name,
                ) by {
                    if idx > p {
                        assert(lex_le(models(out@)[p as int].name, models(out@)[idx].name));
                        lemma_lex_lt_le_transitive(
                            name@,
                            models(out@)[p as int].name,
                            models(out@)[idx].name,
                        );
                    }
                }
            }
            return p;
        }
        p += 1;
    }
}

/// Sorts the rows by name, stably: rows of equal name keep their relative
/// order, stated as each name's filter being left exactly as it was.
pub fn sort_items_by_name(items: Vec<FullItem>) -> (r: Vec<FullItem>)
    ensures
        sorted_by_name(models(r@)),
        forall|n: Seq<char>| #[trigger] filter_name(models(r@), n) == filter_name(
            models(items@),
            n,
        ),
{
    let mut out: Vec<FullItem> = Vec::new();
    let mut i: usize = 0;
    while i < items.len()
        invariant
            0 <= i <= items@.len(),
            sorted_by_name(models(out@)),
            forall|n: Seq<char>| #[trigger] filter_name(models(out@), n) == filter_name(
                models(items@.take(i as int)),
                n,
            ),
        decreases items@.len() - i,
    {
        let c = items[i].clone();
        let ghost x = items@[i as int].model();
        let p = insertion_point(&out, c.name.as_str());
        let ghost oldm = models(out@);
        let ghost oldv = out@;
        out.insert(p, c);
        proof {
            assert(out@ =~= oldv.take(p as int) + seq![items@[i as int]] + oldv.skip(p as int));
            assert(models(out@) =~= oldm.take(p as int) + seq![x] + oldm.skip(p as int)) by {
                assert forall|a: int| 0 <= a < out@.len() implies models(out@)[a] == (oldm.take(
                    p as int,
                ) + seq![x] + oldm.skip(p as int))[a] by {
                    if a < p {
                        assert(out@[a] == oldv[a]);
                    } else if a > p {
                        assert(out@[a] == oldv[a - 1]);
                    }
                }
            }
            lemma_sorted_insert(oldm, models(out@), p as int, x);
            assert forall|n: Seq<char>| #[trigger] filter_name(models(out@), n) == filter_name(
                models(items@.take(i as int + 1)),
                n,
            ) by {
                assert(models(items@.take(i as int + 1)) =~= models(items@).take(i as int + 1));
                assert(models(items@.take(i as int)) =~= models(items@).take(i as int));
                lemma_filter_name_take_succ(models(items@), i as int, n);
                assert(models(items@)[i as int] == x);
            }
        }
        i += 1;
    }
    proof {
        assert(items@.take(items@.len() as int) =~= items@);
    }
    out
}

/// The first position in `dedup` holding a slot with the same identity as
/// `slot`, or `dedup.len()` if none.
fn find_same_slot(dedup: &Vec<InventorySlot>, slot: &InventorySlot) -> (p: usize)
    ensures
        p <= dedup@.len(),
        p < dedup@.len() ==> dedup@[p as int].key() == slot.key(),
        forall|j: int| 0 <= j < p ==> dedup@[j].key() != slot.key(),
{
    let mut p: usize = 0;
    loop
        invariant
            p <= dedup@.len(),
            forall|j: int| 0 <= j < p ==> dedup@[j].key() != slot.key(),
        decreases dedup@.len() - p,
    {
        if p == dedup.len() {
            return p;
        }
        if dedup[p].same_item(slot) {
            return p;
        }
        p += 1;
    }
}

/// Merges each character's occupied slots by identity, summing counts, joins
/// each merged stack against the cache, tags it with its character, and
/// returns all rows sorted by name, stably.
///
/// Each slot's id must be in the cache, and no identity's total count within
/// one character may exceed what a count can hold.
pub fn process_inventories(inventories: &Vec<(String, Inventory)>, cache: &Cache) -> (r: Vec<
    FullItem,
>)
    requires
        forall|ci: int, k: SlotKey|
            #![trigger entry_sum(slot_entries(inventories@[ci].1.contents()), k)]
            0 <= ci < inventories@.len() ==> entry_sum(
                slot_entries(inventories@[ci].1.contents()),
                k,
            ) <= u64::MAX,
        forall|ci: int, si: int|
            #![trigger inventories@[ci].1.contents()[si]]
            0 <= ci < inventories@.len() && 0 <= si < inventories@[ci].1.contents().len()
                ==> cache@.contains_key(inventories@[ci].1.contents()[si].id),
    ensures
        sorted_by_name(models(r@)),
        forall|n: Seq<char>| #[trigger] filter_name(models(r@), n) == filter_name(
            all_items(inventories@, cache@),
            n,
        ),
{
    let mut items: Vec<FullItem> = Vec::new();
    let mut ci: usize = 0;
    while ci < inventories.len()
        invariant
            0 <= ci <= inventories@.len(),
            models(items@) == all_items(inventories@.take(ci as int), cache@),
            forall|cj: int, k: SlotKey|
                #![trigger entry_sum(slot_entries(inventories@[cj].1.contents()), k)]
                0 <= cj < inventories@.len() ==> entry_sum(
                    slot_entries(inventories@[cj].1.contents()),
                    k,
                ) <= u64::MAX,
            forall|cj: int, si: int|
                #![trigger inventories@[cj].1.contents()[si]]
                0 <= cj < inventories@.len() && 0 <= si < inventories@[cj].1.contents().len()
                    ==> cache@.contains_key(inventories@[cj].1.contents()[si].id),
        decreases inventories@.len() - ci,
    {
        let pair = &inventories[ci];
        let character = &pair.0;
        let slots = pair.1.all_content();
        let ghost contents = inventories@[ci as int].1.contents();
        let ghost ents = slot_entries(slots@);
        proof {
            assert(pair.1 == inventories@[ci as int].1);
            assert(ents == slot_entries(contents));
        }
        // merge same-item slots, summing counts, within this character only
        let mut dedup: Vec<InventorySlot> = Vec::new();
        let mut si: usize = 0;
        while si < slots.len()
            invariant
                0 <= si <= slots@.len(),
                0 <= ci < inventories@.len(),
                ents == slot_entries(slots@),
                ents == slot_entries(inventories@[ci as int].1.contents()),
                forall|k: SlotKey| entry_sum(ents, k) <= u64::MAX,
                slot_entries(dedup@) == merge_seq(ents.take(si as int)),
            decreases slots@.len() - si,
        {
            let slot = &slots[si];
            let ghost k = slots@[si as int].key();
            let ghost pre = ents.take(si as int);
            let ghost acc = merge_seq(pre);
            let ghost e = ents[si as int];
            let p = find_same_slot(&dedup, slot);
            proof {
                assert(e == (k, slots@[si as int].count as int));
                lemma_find_key(acc, k);
                assert(forall|j: int|
                    0 <= j < dedup@.len() ==> (#[trigger] acc[j]).0 == dedup@[j].key());
                if p < dedup.len() {
                    assert(acc[p as int].0 == k);
                    if find_key(acc, k) < p {
                        assert(dedup@[find_key(acc, k)].key() != k);
                        assert(false);
                    }
                    if find_key(acc, k) > p {
                        assert(acc[p as int].0 != k);
                        assert(false);
                    }
                    assert(find_key(acc, k) == p);
                } else {
                    if has_key(acc, k) {
                        let w = choose|i: int| 0 <= i < acc.len() && acc[i].0 == k;
                        assert(dedup@[w].key() == k);
                        assert(false);
                    }
                    assert(find_key(acc, k) == acc.len());
                }
                assert(ents.take(si as int + 1).drop_last() =~= pre);
                assert(ents.take(si as int + 1).last() == e);
            }
            if p < dedup.len() {
                proof {
                    lemma_merge_distinct(pre);
                    lemma_distinct_entry_count(acc, p as int);
                    lemma_merge_preserves_counts(pre, k);
                    assert(acc[p as int].1 == entry_sum(pre, k));
                    assert(acc[p as int].1 == dedup@[p as int].count as int);
                    assert(forall|a: int| 0 <= a < ents.len() ==> (#[trigger] ents[a]).1 >= 0) by {
                        assert(forall|a: int|
                            0 <= a < ents.len() ==> (#[trigger] ents[a]).1 == slots@[a].count as int);
                    }
                    lemma_entry_sum_take_le(ents, si as int + 1, k);
                    assert(entry_sum(ents.take(si as int + 1), k) == entry_sum(pre, k)
                        + slots@[si as int].count as int);
                    assert(entry_sum(ents, k) <= u64::MAX);
                }
                let mut upd = dedup[p].clone();
                let ghost oldd = dedup@;
                upd.count = upd.count + slot.count;
                let ghost u = upd;
                dedup[p] = upd;
                proof {
                    assert(dedup@ == oldd.update(p as int, u));
                    assert(u.key() == k && u.count as int == acc[p as int].1 + e.1);
                    let m2 = merge_push(acc, e);
                    assert(m2 == acc.update(p as int, (k, acc[p as int].1 + e.1)));
                    assert forall|a: int| 0 <= a < dedup@.len() implies slot_entries(dedup@)[a]
                        == m2[a] by {
                        if a != p {
                            assert(dedup@[a] == oldd[a]);
                            assert(slot_entries(oldd)[a] == acc[a]);
                        }
                    }
                    assert(slot_entries(dedup@) =~= m2);
                    assert(merge_seq(ents.take(si as int + 1)) == m2);
                }
            } else {
                let c = slot.clone();
                let ghost oldd = dedup@;
                dedup.push(c);
                proof {
                    let m2 = merge_push(acc, e);
                    assert(m2 == acc.push(e));
                    assert forall|a: int| 0 <= a < dedup@.len() implies slot_entries(dedup@)[a]
                        == m2[a] by {
                        if a < oldd.len() {
                            assert(dedup@[a] == oldd[a]);
                            assert(slot_entries(oldd)[a] == acc[a]);
                        }
                    }
                    assert(slot_entries(dedup@) =~= m2);
                    assert(merge_seq(ents.take(si as int + 1)) == m2);
                }
            }
            si += 1;
        }
        proof {
            assert(ents.take(ents.len() as int) =~= ents);
        }
        let ghost merged = merge_seq(ents);
        let ghost rows = char_items(
            inventories@[ci as int].0@,
            inventories@[ci as int].1,
            cache@,
        );
        proof {
            assert(rows.len() == merged.len());
            assert(character@ == inventories@[ci as int].0@);
        }
        // join each merged stack against the cache, tagged with the character
        let mut di: usize = 0;
        while di < dedup.len()
            invariant
                0 <= di <= dedup@.len(),
                0 <= ci < inventories@.len(),
                ents == slot_entries(inventories@[ci as int].1.contents()),
                slot_entries(dedup@) == merged,
                merged == merge_seq(ents),
                rows == char_items(inventories@[ci as int].0@, inventories@[ci as int].1, cache@),
                rows.len() == merged.len(),
                character@ == inventories@[ci as int].0@,
                models(items@) == all_items(inventories@.take(ci as int), cache@) + rows.take(
                    di as int,
                ),
                forall|cj: int, sj: int|
                    #![trigger inventories@[cj].1.contents()[sj]]
                    0 <= cj < inventories@.len() && 0 <= cj < inventories@.len() && 0 <= sj
                        < inventories@[cj].1.contents().len() ==> cache@.contains_key(
                        inventories@[cj].1.contents()[sj].id,
                    ),
            decreases dedup@.len() - di,
        {
            let item = &dedup[di];
            proof {
                let ik = dedup@[di as int].key();
                assert(slot_entries(dedup@)[di as int] == (ik, dedup@[di as int].count as int));
                assert(merged[di as int].0 == ik);
                assert(has_key(merged, ik));
                lemma_merge_keys(ents, ik);
                let w = choose|i: int| 0 <= i < ents.len() && ents[i].0 == ik;
                let contents = inventories@[ci as int].1.contents();
                assert(ents[w].0 == contents[w].key());
                assert(contents[w].key().id == contents[w].id);
                assert(cache@.contains_key(contents[w].id));
                assert(ik.id == dedup@[di as int].id);
            }
            let info = cache.lookup(&item.id);
            let fi = FullItem::new(item, info, character.as_str());
            let ghost oldm = models(items@);
            items.push(fi);
            proof {
                let e = merged[di as int];
                assert(rows[di as int] == item_of(e, cache@, inventories@[ci as int].0@));
                assert(e.0.id == dedup@[di as int].id);
                assert(e.1 == dedup@[di as int].count as int);
                assert(fi.model() == rows[di as int]);
                assert(rows.take(di as int + 1) =~= rows.take(di as int).push(rows[di as int]));
                assert forall|a: int| 0 <= a < items@.len() implies models(items@)[a] == (all_items(
                    inventories@.take(ci as int),
                    cache@,
                ) + rows.take(di as int + 1))[a] by {
                    if a < oldm.len() {
                        assert(models(items@)[a] == oldm[a]);
                    }
                }
                assert(models(items@) =~= all_items(inventories@.take(ci as int), cache@)
                    + rows.take(di as int + 1));
            }
            di += 1;
        }
        proof {
            assert(rows.take(rows.len() as int) =~= rows);
            assert(inventories@.take(ci as int + 1).drop_last() =~= inventories@.take(ci as int));
            assert(inventories@.take(ci as int + 1).last() == inventories@[ci as int]);
            assert(models(items@) == all_items(inventories@.take(ci as int + 1), cache@));
        }
        ci += 1;
    }
    proof {
        assert(inventories@.take(inventories@.len() as int) =~= inventories@);
    }
    sort_items_by_name(items)
}

// ---------------------------------------------------------------------------
// The query filter and the page slice.
// ---------------------------------------------------------------------------

/// Does `p` occur within `c` in order, as a subsequence?
pub open spec fn is_subsequence(p: Seq<char>, c: Seq<char>) -> bool
    decreases p.len() + c.len(),
{
    if p.len() == 0 {
        true
    } else if c.len() == 0 {
        false
    } else if p[0] == c[0] {
        is_subsequence(p.drop_first(), c.drop_first())
    } else {
        is_subsequence(p, c.drop_first())
    }
}

pub proof fn lemma_subsequence_refl(s: Seq<char>)
    ensures
        is_subsequence(s, s),
    decreases s.len(),
{
    if s.len() > 0 {
        lemma_subsequence_refl(s.drop_first());
    }
}

/// The score the fuzzy matcher assigns to a candidate for a pattern: a
/// function of the two strings' characters alone.
pub uninterp spec fn fuzzy_score(choice: Seq<char>, pattern: Seq<char>) -> Option<i64>;

/// Relies on fuzzy_matcher's SkimMatcherV2 under its default configuration:
/// the score depends on the two strings' characters alone; an empty pattern
/// always scores Some(0); and a pattern whose characters occur in order
/// within the candidate always scores Some, as its initial greedy
/// subsequence scan finds them.
#[verifier::external_body]
fn skim_score(choice: &str, pattern: &str) -> (r: Option<i64>)
    ensures
        r == fuzzy_score(choice@, pattern@),
        pattern@.len() == 0 ==> r == Some(0i64),
        is_subsequence(pattern@, choice@) ==> r is Some,
{
    let matcher = fuzzy_matcher::skim::SkimMatcherV2::default();
    fuzzy_matcher::FuzzyMatcher::fuzzy_match(&matcher, choice, pattern)
}

/// Whether a row passes the query: an empty query admits every row, any
/// other query is fuzzy-matched against the row's name.
pub open spec fn matches_query(m: ItemModel, q: Seq<char>) -> bool {
    q.len() == 0 || fuzzy_score(m.name, q) is Some
}

/// The rows that pass the query, in their original order.
pub open spec fn matching(ms: Seq<ItemModel>, q: Seq<char>) -> Seq<ItemModel>
    decreases ms.len(),
{
    if ms.len() == 0 {
        Seq::empty()
    } else {
        let rest = matching(ms.drop_last(), q);
        if matches_query(ms.last(), q) {
            rest.push(ms.last())
        } else {
            rest
        }
    }
}

/// An empty query matches every row, leaving the sequence unchanged.
pub proof fn lemma_matching_empty_query(ms: Seq<ItemModel>, q: Seq<char>)
    requires
        q.len() == 0,
    ensures
        matching(ms, q) == ms,
    decreases ms.len(),
{
    if ms.len() > 0 {
        lemma_matching_empty_query(ms.drop_last(), q);
        assert(matching(ms, q) =~= ms);
    }
}

/// A row that passes the query is in the matched subsequence.
proof fn lemma_matching_contains(ms: Seq<ItemModel>, q: Seq<char>, i: int)
    requires
        0 <= i < ms.len(),
        matches_query(ms[i], q),
    ensures
        matching(ms, q).contains(ms[i]),
    decreases ms.len(),
{
    if i == ms.len() - 1 {
        assert(matching(ms, q).last() == ms[i]);
        assert(matching(ms, q).contains(ms[i]));
    } else {
        assert(ms.drop_last()[i] == ms[i]);
        lemma_matching_contains(ms.drop_last(), q, i);
        let w = choose|a: int|
            0 <= a < matching(ms.drop_last(), q).len() && matching(ms.drop_last(), q)[a] == ms[i];
        if matches_query(ms.last(), q) {
            assert(matching(ms, q)[w] == ms[i]);
        }
    }
}

/// The models behind a sequence of borrowed rows.
pub open spec fn deref_models(rs: Seq<&FullItem>) -> Seq<ItemModel> {
    rs.map_values(|x: &FullItem| x.model())
}

/// The rows whose names the fuzzy matcher accepts for this query, in their
/// original order. An empty query returns every row unchanged, and a row
/// whose name equals the query exactly is always among the matches.
pub fn filter<'a>(items: &'a [FullItem], user_input: &str) -> (r: Vec<&'a FullItem>)
    ensures
        deref_models(r@) == matching(models(items@), user_input@),
        user_input@.len() == 0 ==> deref_models(r@) == models(items@),
        forall|i: int|
            0 <= i < items@.len() && items@[i].name@ == user_input@ ==> matching(
                models(items@),
                user_input@,
            ).contains(#[trigger] items@[i].model()),
{
    let ghost q = user_input@;
    let mut r: Vec<&'a FullItem> = Vec::new();
    let mut i: usize = 0;
    while i < items.len()
        invariant
            0 <= i <= items@.len(),
            deref_models(r@) == matching(models(items@).take(i as int), q),
            q == user_input@,
            forall|j: int|
                0 <= j < i && items@[j].name@ == q ==> matches_query(
                    #[trigger] models(items@)[j],
                    q,
                ),
        decreases items@.len() - i,
    {
        let it = &items[i];
        let score = skim_score(it.name.as_str(), user_input);
        proof {
            if it.name@ == q {
                lemma_subsequence_refl(q);
            }
            assert(models(items@).take(i as int + 1).drop_last() =~= models(items@).take(i as int));
            assert(models(items@).take(i as int + 1).last() == models(items@)[i as int]);
            assert(matches_query(models(items@)[i as int], q) == (q.len() == 0 || score is Some));
        }
        let ghost oldr = r@;
        if score.is_some() {
            r.push(it);
            proof {
                assert(deref_models(r@) =~= deref_models(oldr).push(it.model()));
            }
        } else {
            proof {
                assert(q.len() > 0);
            }
        }
        i += 1;
    }
    proof {
        assert(models(items@).take(items@.len() as int) =~= models(items@));
        if q.len() == 0 {
            lemma_matching_empty_query(models(items@), q);
        }
        assert forall|i: int|
            0 <= i < items@.len() && items@[i].name@ == q implies matching(
            models(items@),
            q,
        ).contains(#[trigger] items@[i].model()) by {
            assert(matches_query(models(items@)[i], q));
            lemma_matching_contains(models(items@), q, i);
        }
    }
    r
}

/// The contiguous page slice `[page*size, page*size + size)`, clipped to the
/// available rows; empty once `page*size` reaches the end.
pub open spec fn page_slice<A>(s: Seq<A>, page: int, size: int) -> Seq<A> {
    if size <= 0 || page * size >= s.len() {
        Seq::empty()
    } else if page * size + size <= s.len() {
        s.subrange(page * size, page * size + size)
    } else {
        s.subrange(page * size, s.len() as int)
    }
}

/// How many pages a row count fills, the last page possibly partial: the
/// rounded-up quotient, and at least one page even with nothing to show.
pub open spec fn max_pages_spec(count: int, size: int) -> int {
    if size <= 0 || count <= 0 {
        1
    } else if (count - 1) / size + 1 < 1 {
        1
    } else {
        (count - 1) / size + 1
    }
}

/// A page index is out of range exactly when it is at or past the rounded-up
/// page count.
pub proof fn lemma_page_threshold(count: int, page: int, size: int)
    requires
        size > 0,
        count >= 0,
        page >= 0,
    ensures
        (page * size >= count) == (page >= (count + size - 1) / size),
{
    let c = (count + size - 1) / size;
    vstd::arithmetic::div_mod::lemma_fundamental_div_mod(count + size - 1, size);
    let rem = (count + size - 1) % size;
    assert(count + size - 1 == size * c + rem);
    if page >= c {
        vstd::arithmetic::mul::lemma_mul_inequality(c, page, size);
        assert(c * size <= page * size);
        assert(c * size == count + size - 1 - rem) by (nonlinear_arith)
            requires
                count + size - 1 == size * c + rem,
        ;
    } else {
        vstd::arithmetic::mul::lemma_mul_inequality(page, c - 1, size);
        assert(page * size <= (c - 1) * size);
        assert((c - 1) * size == count - 1 - rem) by (nonlinear_arith)
            requires
                count + size - 1 == size * c + rem,
        ;
    }
}

/// The rows of one display page, borrowed in order: never more than
/// `page_size` of them, and none once `page * page_size` is past the end.
pub fn paginate<'a>(items: &'a [FullItem], page: usize, page_size: u16) -> (r: Vec<&'a FullItem>)
    ensures
        r@.len() <= page_size,
        deref_models(r@) == page_slice(models(items@), page as int, page_size as int),
        (page as int) * (page_size as int) >= items@.len() ==> r@.len() == 0,
{
    let ps = page_size as usize;
    if ps == 0 || items.len() == 0 {
        proof {
            if ps > 0 {
                vstd::arithmetic::mul::lemma_mul_inequality(0, page as int, page_size as int);
            }
        }
        return Vec::new();
    }
    let maxp = (items.len() - 1) / ps;
    if page > maxp {
        proof {
            let len = items@.len() as int;
            vstd::arithmetic::div_mod::lemma_fundamental_div_mod(len - 1, ps as int);
            let rem = (len - 1) % (ps as int);
            vstd::arithmetic::mul::lemma_mul_inequality(
                maxp as int + 1,
                page as int,
                ps as int,
            );
            assert((maxp as int + 1) * (ps as int) == len - 1 - rem + ps as int) by (
            nonlinear_arith)
                requires
                    len - 1 == (ps as int) * (maxp as int) + rem,
            ;
            assert(page as int * (ps as int) >= len);
        }
        return Vec::new();
    }
    proof {
        let len = items@.len() as int;
        vstd::arithmetic::div_mod::lemma_fundamental_div_mod(len - 1, ps as int);
        let rem = (len - 1) % (ps as int);
        vstd::arithmetic::mul::lemma_mul_inequality(page as int, maxp as int, ps as int);
        assert((maxp as int) * (ps as int) == len - 1 - rem) by (nonlinear_arith)
            requires
                len - 1 == (ps as int) * (maxp as int) + rem,
                0 <= rem,
        ;
        assert(page as int * (ps as int) <= len - 1);
    }
    let start = page * ps;
    let end = if ps <= items.len() - start {
        start + ps
    } else {
        items.len()
    };
    let mut r: Vec<&'a FullItem> = Vec::new();
    let mut idx = start;
    while idx < end
        invariant
            start <= idx <= end,
            end <= items@.len(),
            start == page * ps,
            end - start <= ps,
            ps == page_size as usize,
            0 < ps,
            start < items@.len(),
            end == if start + ps <= items@.len() {
                start + ps
            } else {
                items@.len() as int
            },
            deref_models(r@) == models(items@).subrange(start as int, idx as int),
        decreases end - idx,
    {
        let ghost oldr = r@;
        r.push(&items[idx]);
        proof {
            assert(models(items@).subrange(start as int, idx as int + 1) =~= models(
                items@,
            ).subrange(start as int, idx as int).push(models(items@)[idx as int]));
            assert(deref_models(r@) =~= deref_models(oldr).push(items@[idx as int].model()));
        }
        idx += 1;
    }
    proof {
        let ms = models(items@);
        let p = page as int;
        let sz = page_size as int;
        assert(p * sz == start as int);
        assert(p * sz < ms.len());
        if p * sz + sz <= ms.len() {
            assert(end == start + ps);
            assert(deref_models(r@) == page_slice(ms, p, sz));
        } else {
            assert(end == items@.len());
            assert(deref_models(r@) == page_slice(ms, p, sz));
        }
    }
    r
}

} // verus!

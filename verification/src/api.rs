//! The compute half of the remote workflow: how a full id catalog is split
//! into bounded fetch batches, and which characters an interactive selection
//! picks. The HTTP calls themselves live outside the library and consume
//! these plans.

use vstd::prelude::*;

verus! {

/// Bulk metadata fetches carry at most this many ids per call.
pub const BATCH_SIZE: usize = 200;

/// Batch `i` of the catalog: the next 200 ids, the last batch possibly
/// partial.
pub open spec fn batch_of(ids: Seq<u64>, i: int) -> Seq<u64> {
    if (i + 1) * 200 <= ids.len() {
        ids.subrange(i * 200, i * 200 + 200)
    } else {
        ids.subrange(i * 200, ids.len() as int)
    }
}

/// Splits the id catalog into successive batches of at most 200, in order:
/// batch `i` holds the ids from position `i*200` on. Their concatenation is
/// the whole catalog.
pub fn id_batches(ids: &Vec<u64>) -> (r: Vec<Vec<u64>>)
    ensures
        ids@.len() == 0 ==> r@.len() == 0,
        ids@.len() > 0 ==> r@.len() == (ids@.len() - 1) / 200 + 1,
        forall|i: int| 0 <= i < r@.len() ==> (#[trigger] r@[i])@ == batch_of(ids@, i),
{
    let mut r: Vec<Vec<u64>> = Vec::new();
    let mut start: usize = 0;
    while start < ids.len()
        invariant
            0 <= start <= ids@.len(),
            start as int == (if r@.len() * 200 <= ids@.len() {
                (r@.len() * 200) as int
            } else {
                ids@.len() as int
            }),
            r@.len() == 0 || (r@.len() - 1) * 200 < ids@.len(),
            forall|i: int| 0 <= i < r@.len() ==> (#[trigger] r@[i])@ == batch_of(ids@, i),
        decreases ids@.len() - start,
    {
        let end = if ids.len() - start > BATCH_SIZE {
            start + BATCH_SIZE
        } else {
            ids.len()
        };
        let mut batch: Vec<u64> = Vec::new();
        let mut j = start;
        while j < end
            invariant
                start <= j <= end,
                end <= ids@.len(),
                batch@ == ids@.subrange(start as int, j as int),
            decreases end - j,
        {
            batch.push(ids[j]);
            proof {
                assert(batch@ =~= ids@.subrange(start as int, j as int + 1));
            }
            j += 1;
        }
        let ghost bi = r@.len() as int;
        let ghost oldr = r@;
        proof {
            assert(batch@ == batch_of(ids@, bi)) by {
                assert(start as int == bi * 200);
                if (bi + 1) * 200 <= ids@.len() {
                    assert(end as int == bi * 200 + 200);
                } else {
                    assert(end as int == ids@.len());
                }
            }
        }
        r.push(batch);
        proof {
            assert(forall|i: int|
                0 <= i < oldr.len() ==> (#[trigger] r@[i])@ == batch_of(ids@, i));
            assert((r@[bi])@ == batch_of(ids@, bi));
            assert(r@.len() * 200 == bi * 200 + 200);
        }
        start = end;
    }
    proof {
        let n = r@.len() as int;
        let len = ids@.len() as int;
        if len > 0 {
            assert(n >= 1);
            assert(n * 200 >= len);
            assert((n - 1) * 200 < len);
            assert(n == (len - 1) / 200 + 1);
        }
    }
    r
}

/// Whether `x` occurs in `v`.
fn contains_usize(v: &Vec<usize>, x: usize) -> (r: bool)
    ensures
        r == v@.contains(x),
{
    let mut i: usize = 0;
    while i < v.len()
        invariant
            0 <= i <= v@.len(),
            forall|j: int| 0 <= j < i ==> v@[j] != x,
        decreases v@.len() - i,
    {
        if v[i] == x {
            return true;
        }
        i += 1;
    }
    proof {
        if v@.contains(x) {
            let w = choose|j: int| 0 <= j < v@.len() && v@[j] == x;
        }
    }
    false
}

/// The names whose position the selection picked, in their original order.
pub open spec fn picked_names(names: Seq<String>, chosen: Seq<usize>, n: int) -> Seq<Seq<char>>
    decreases n,
{
    if n <= 0 {
        Seq::empty()
    } else {
        let rest = picked_names(names, chosen, n - 1);
        if chosen.contains((n - 1) as usize) {
            rest.push(names[n - 1]@)
        } else {
            rest
        }
    }
}

/// Keeps the characters whose indices the interactive multi-select returned,
/// in their original order.
pub fn selected_names(names: &Vec<String>, chosen: &Vec<usize>) -> (r: Vec<String>)
    ensures
        r@.map_values(|s: String| s@) == picked_names(names@, chosen@, names@.len() as int),
{
    let mut r: Vec<String> = Vec::new();
    let mut i: usize = 0;
    while i < names.len()
        invariant
            0 <= i <= names@.len(),
            r@.map_values(|s: String| s@) == picked_names(names@, chosen@, i as int),
        decreases names@.len() - i,
    {
        let ghost oldr = r@;
        if contains_usize(chosen, i) {
            let name = names[i].clone();
            r.push(name);
            proof {
                assert(r@.map_values(|s: String| s@) =~= picked_names(
                    names@,
                    chosen@,
                    i as int + 1,
                ));
            }
        } else {
            proof {
                assert(picked_names(names@, chosen@, i as int + 1) == picked_names(
                    names@,
                    chosen@,
                    i as int,
                ));
            }
        }
        i += 1;
    }
    r
}

} // verus!

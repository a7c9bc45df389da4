//! What a report of the accounts needs besides the numbers: which keys hold
//! the most, and how wide the columns of a listing are.

use crate::crate_map::{items_view, keys_of, CrateMap};
use crate::order::{key_before, strictly_ascending};
use vstd::prelude::*;

verus! {

/// The bytes that make one of the unit in which a report shows sizes.
pub const REPORT_UNIT: u64 = 1_000_000;

/// Width of the path column of a query listing.
pub const QUERY_PATH_WIDTH: usize = 50;

/// Width of the size column of a query listing.
pub const QUERY_SIZE_WIDTH: usize = 10;

/// The widths of the two columns of a query listing: path, then size.
pub fn query_param_widths() -> (widths: (usize, usize))
    ensures
        widths == (QUERY_PATH_WIDTH, QUERY_SIZE_WIDTH),
{
    (QUERY_PATH_WIDTH, QUERY_SIZE_WIDTH)
}

/// The full width of a query line: both columns and the blank between them.
pub fn query_full_width() -> (width: usize)
    ensures
        width == QUERY_PATH_WIDTH + QUERY_SIZE_WIDTH + 1,
{
    let (path_width, size_width) = query_param_widths();
    path_width + size_width + 1
}

/// Booking `a` is shown before booking `b`: it holds more bytes, or as many
/// under the earlier key.
pub open spec fn ranks_before(a: (Seq<char>, nat), b: (Seq<char>, nat)) -> bool {
    a.1 > b.1 || (a.1 == b.1 && key_before(a.0, b.0))
}

/// Each booking of the list is shown before every later one.
pub open spec fn ranked(items: Seq<(Seq<char>, nat)>) -> bool {
    forall|i: int, j: int| 0 <= i < j < items.len() ==> ranks_before(items[i], items[j])
}

/// `top` holds the `number` bookings of `table` that are shown first, in that
/// order; all of them where the table has no more than `number`.
pub open spec fn is_top(
    top: Seq<(Seq<char>, nat)>,
    table: Map<Seq<char>, nat>,
    number: nat,
) -> bool {
    &&& table.dom().finite()
    &&& top.len() == if number < table.dom().len() {
        number
    } else {
        table.dom().len()
    }
    &&& ranked(top)
    &&& forall|i: int|
        0 <= i < top.len() ==> table.contains_key((#[trigger] top[i]).0) && table[top[i].0]
            == top[i].1
    &&& forall|key: Seq<char>, i: int|
        #![trigger table.contains_key(key), top[i]]
        table.contains_key(key) && !keys_of(top).contains(key) && 0 <= i < top.len()
            ==> ranks_before(top[i], (key, table[key]))
}

/// A list with one more booking at `pos` holds what it held and that booking.
proof fn lemma_insert_to_multiset(
    items: Seq<(Seq<char>, nat)>,
    pos: int,
    item: (Seq<char>, nat),
)
    requires
        0 <= pos <= items.len(),
    ensures
        items.insert(pos, item).to_multiset() == items.to_multiset().insert(item),
{
    let after = items.insert(pos, item);
    assert(after.remove(pos) =~= items);
    vstd::seq_lib::to_multiset_remove(after, pos);
    after.to_multiset_ensures();
    assert(after.contains(item)) by {
        assert(after[pos] == item);
    }
}

/// Lists that hold the same bookings as often hold the same bookings.
proof fn lemma_same_members(
    a: Seq<(Seq<char>, nat)>,
    b: Seq<(Seq<char>, nat)>,
    item: (Seq<char>, nat),
)
    requires
        a.to_multiset() == b.to_multiset(),
        a.contains(item),
    ensures
        b.contains(item),
{
    a.to_multiset_ensures();
    b.to_multiset_ensures();
    assert(a.to_multiset().count(item) > 0);
}

/// The `number` bookings of `crates` that hold the most bytes, the largest
/// first and bookings of one size in the order of their keys; all of them
/// where `crates` has no more than `number`.
pub fn top_crates(crates: &CrateMap, number: usize) -> (top: Vec<(String, u64)>)
    ensures
        is_top(items_view(top@), crates@, number as nat),
{
    let entries = crates.entries();
    let count = crates.len();
    let ghost all = items_view(entries@);
    proof {
        assert forall|i: int, j: int| 0 <= i < j < all.len() implies keys_of(all)[i] != keys_of(
            all,
        )[j] by {
            crate::order::lemma_key_before_asymmetric(keys_of(all)[i], keys_of(all)[j]);
        }
        keys_of(all).unique_seq_to_set();
    }
    let mut sorted: Vec<(String, u64)> = Vec::new();
    let mut i: usize = 0;
    assert(all.take(0) =~= items_view(sorted@));
    while i < entries.len()
        invariant
            i <= entries.len(),
            all == items_view(entries@),
            strictly_ascending(keys_of(all)),
            sorted.len() == i,
            ranked(items_view(sorted@)),
            items_view(sorted@).to_multiset() == all.take(i as int).to_multiset(),
        decreases entries.len() - i,
    {
        let size = entries[i].1;
        let ghost held = items_view(sorted@);
        let ghost seen = all.take(i as int);
        let mut pos: usize = 0;
        while pos < sorted.len() && sorted[pos].1 >= size
            invariant
                pos <= sorted.len(),
                held == items_view(sorted@),
                forall|a: int| 0 <= a < pos ==> (#[trigger] held[a]).1 >= size,
            decreases sorted.len() - pos,
        {
            pos += 1;
        }
        let ghost item = all[i as int];
        proof {
            assert forall|a: int| 0 <= a < pos implies ranks_before(#[trigger] held[a], item) by {
                if held[a].1 == item.1 {
                    lemma_same_members(held, seen, held[a]);
                    let j = choose|j: int| 0 <= j < seen.len() && seen[j] == held[a];
                    assert(keys_of(all)[j] == held[a].0);
                    assert(keys_of(all)[i as int] == item.0);
                }
            }
            assert forall|b: int| pos <= b < held.len() implies ranks_before(
                item,
                #[trigger] held[b],
            ) by {
                if b > pos {
                    assert(ranks_before(held[pos as int], held[b]));
                }
            }
            lemma_insert_to_multiset(held, pos as int, item);
            assert(all.take(i + 1) =~= seen.push(item));
            vstd::seq_lib::to_multiset_build(seen, item);
        }
        sorted.insert(pos, (entries[i].0.clone(), size));
        proof {
            let grown = items_view(sorted@);
            assert(grown =~= held.insert(pos as int, item));
            assert forall|a: int, b: int| 0 <= a < b < grown.len() implies ranks_before(
                grown[a],
                grown[b],
            ) by {
                if a < pos && pos < b {
                    assert(ranks_before(held[a], held[b - 1]));
                }
            }
        }
        i += 1;
    }
    let ghost full = items_view(sorted@);
    proof {
        assert(all.take(i as int) =~= all);
    }
    if number < count {
        sorted.truncate(number);
    }
    proof {
        let top = items_view(sorted@);
        let table = crates@;
        assert(top =~= full.take(top.len() as int));
        assert forall|a: int| 0 <= a < top.len() implies table.contains_key((#[trigger] top[a]).0)
            && table[top[a].0] == top[a].1 by {
            lemma_same_members(full, all, full[a]);
            let j = choose|j: int| 0 <= j < all.len() && all[j] == full[a];
            assert(keys_of(all)[j] == all[j].0);
        }
        assert forall|key: Seq<char>, a: int|
            #![trigger table.contains_key(key), top[a]]
            table.contains_key(key) && !keys_of(top).contains(key) && 0 <= a < top.len()
                implies ranks_before(top[a], (key, table[key])) by {
            let j = choose|j: int| 0 <= j < keys_of(all).len() && keys_of(all)[j] == key;
            lemma_same_members(all, full, all[j]);
            let b = choose|b: int| 0 <= b < full.len() && full[b] == all[j];
            if b < top.len() {
                assert(keys_of(top)[b] == key);
            }
        }
    }
    sorted
}

} // verus!

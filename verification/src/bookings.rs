//! Lists of bookings, each a key with a number of bytes, and what a table
//! holds once a whole list is booked.
//!
//! Booking adds up: after a list is booked, a key holds what it held before
//! plus the bytes of every booking on it, in whatever order they came.

use crate::crate_map::{
    accumulate, add_crate_to_hash_map, get_hashmap_crate_size, items_view, size_in, CrateInfo,
    CrateMap,
};
use vstd::prelude::*;

verus! {

/// The bytes that `items` book on `key`, all together.
pub open spec fn key_total(items: Seq<(Seq<char>, nat)>, key: Seq<char>) -> nat
    decreases items.len(),
{
    if items.len() == 0 {
        0
    } else if items.last().0 == key {
        key_total(items.drop_last(), key) + items.last().1
    } else {
        key_total(items.drop_last(), key)
    }
}

/// The keys on which `items` book anything.
pub open spec fn item_keys(items: Seq<(Seq<char>, nat)>) -> Set<Seq<char>> {
    Set::new(|key: Seq<char>| exists|i: int| 0 <= i < items.len() && (#[trigger] items[i]).0 == key)
}

/// `table` after all of `items` were booked on top of what it held: every key
/// holds what it held before and what the items book on it.
pub open spec fn accumulated(table: Map<Seq<char>, nat>, items: Seq<(Seq<char>, nat)>) -> Map<
    Seq<char>,
    nat,
> {
    Map::new(
        |key: Seq<char>| table.contains_key(key) || item_keys(items).contains(key),
        |key: Seq<char>| size_in(table, key) + key_total(items, key),
    )
}

/// Every key on which `items` book holds no more than 64 bits can count once
/// they are booked on top of `table`.
pub open spec fn fits(table: Map<Seq<char>, nat>, items: Seq<(Seq<char>, nat)>) -> bool {
    forall|key: Seq<char>| #[trigger]
        item_keys(items).contains(key) ==> size_in(table, key) + key_total(items, key) <= u64::MAX
}

/// `table` after each of `items` in turn was booked in place of what its key
/// held: a key holds what the last booking on it says.
pub open spec fn overwritten(table: Map<Seq<char>, nat>, items: Seq<(Seq<char>, nat)>) -> Map<
    Seq<char>,
    nat,
>
    decreases items.len(),
{
    if items.len() == 0 {
        table
    } else {
        overwritten(table, items.drop_last()).insert(items.last().0, items.last().1)
    }
}

/// What the first bookings of a list put on a key is no more than what the
/// whole list puts on it.
pub proof fn lemma_key_total_grows(items: Seq<(Seq<char>, nat)>, n: int, key: Seq<char>)
    requires
        0 <= n <= items.len(),
    ensures
        key_total(items.take(n), key) <= key_total(items, key),
    decreases items.len(),
{
    if n == items.len() {
        assert(items.take(n) =~= items);
    } else {
        assert(items.drop_last().take(n) =~= items.take(n));
        lemma_key_total_grows(items.drop_last(), n, key);
    }
}

/// No bookings leave a table as it is.
pub proof fn lemma_accumulated_none(table: Map<Seq<char>, nat>)
    ensures
        accumulated(table, Seq::empty()) == table,
{
    assert(accumulated(table, Seq::empty()) =~= table);
}

/// Booking a list and then one more item is booking the list with that item
/// at its end.
pub proof fn lemma_accumulated_push(
    table: Map<Seq<char>, nat>,
    items: Seq<(Seq<char>, nat)>,
    key: Seq<char>,
    size: nat,
)
    ensures
        accumulated(table, items.push((key, size))) == accumulate(
            accumulated(table, items),
            key,
            size,
        ),
        item_keys(items.push((key, size))) == item_keys(items).insert(key),
{
    let more = items.push((key, size));
    assert(more.drop_last() =~= items);
    assert(more[items.len() as int].0 == key);
    assert forall|k: Seq<char>| item_keys(more).contains(k) <==> item_keys(items).insert(
        key,
    ).contains(k) by {
        if item_keys(more).contains(k) {
            let i = choose|i: int| 0 <= i < more.len() && (#[trigger] more[i]).0 == k;
            if i < items.len() {
                assert(items[i].0 == k);
            }
        }
    }
    lemma_size_in_accumulated(table, items, key);
}

/// What a key holds after a list was booked: what it held and what the list
/// books on it.
pub proof fn lemma_size_in_accumulated(
    table: Map<Seq<char>, nat>,
    items: Seq<(Seq<char>, nat)>,
    key: Seq<char>,
)
    ensures
        size_in(accumulated(table, items), key) == size_in(table, key) + key_total(items, key),
{
    if !item_keys(items).contains(key) {
        lemma_untouched_key(items, key);
    }
}

/// A key on which a list books nothing gets no bytes from it.
pub proof fn lemma_untouched_key(items: Seq<(Seq<char>, nat)>, key: Seq<char>)
    requires
        !item_keys(items).contains(key),
    ensures
        key_total(items, key) == 0,
    decreases items.len(),
{
    if items.len() > 0 {
        assert forall|i: int| 0 <= i < items.len() - 1 implies (#[trigger] items.drop_last()[i]).0
            != key by {
            assert(items[i].0 != key);
        }
        lemma_untouched_key(items.drop_last(), key);
    }
}

/// The bookings of a vector with one more item are its bookings and that item.
pub proof fn lemma_items_view_take(items: Seq<(String, u64)>, n: int)
    requires
        0 <= n < items.len(),
    ensures
        items_view(items).take(n + 1) == items_view(items).take(n).push(
            (items[n].0@, items[n].1 as nat),
        ),
{
    assert(items_view(items).take(n + 1) =~= items_view(items).take(n).push(
        (items[n].0@, items[n].1 as nat),
    ));
}

/// What a list books on a key is what it books without one of its bookings,
/// and that booking where it is on the key.
pub proof fn lemma_key_total_remove(items: Seq<(Seq<char>, nat)>, at: int, key: Seq<char>)
    requires
        0 <= at < items.len(),
    ensures
        key_total(items, key) == key_total(items.remove(at), key) + if items[at].0 == key {
            items[at].1
        } else {
            0
        },
    decreases items.len(),
{
    if at == items.len() - 1 {
        assert(items.remove(at) =~= items.drop_last());
    } else {
        assert(items.remove(at).drop_last() =~= items.drop_last().remove(at));
        lemma_key_total_remove(items.drop_last(), at, key);
    }
}

/// The order of the bookings makes no difference to what they put on a key.
pub proof fn lemma_key_total_any_order(
    items: Seq<(Seq<char>, nat)>,
    other: Seq<(Seq<char>, nat)>,
    key: Seq<char>,
)
    requires
        items.to_multiset() == other.to_multiset(),
    ensures
        key_total(items, key) == key_total(other, key),
    decreases items.len(),
{
    items.to_multiset_ensures();
    other.to_multiset_ensures();
    if items.len() > 0 {
        let n = items.len() - 1;
        let last = items[n];
        assert(items.to_multiset().count(last) > 0);
        let at = other.index_of(last);
        vstd::seq_lib::to_multiset_remove(items, n);
        vstd::seq_lib::to_multiset_remove(other, at);
        lemma_key_total_any_order(items.drop_last(), other.remove(at), key);
        lemma_key_total_remove(other, at, key);
    }
}

/// The order in which bookings are made makes no difference to what a table
/// holds after them.
pub proof fn lemma_accumulated_any_order(
    table: Map<Seq<char>, nat>,
    items: Seq<(Seq<char>, nat)>,
    other: Seq<(Seq<char>, nat)>,
)
    requires
        items.to_multiset() == other.to_multiset(),
    ensures
        accumulated(table, items) == accumulated(table, other),
        fits(table, items) == fits(table, other),
{
    items.to_multiset_ensures();
    other.to_multiset_ensures();
    assert forall|key: Seq<char>| item_keys(items).contains(key) <==> item_keys(other).contains(
        key,
    ) by {
        if item_keys(items).contains(key) {
            let i = choose|i: int| 0 <= i < items.len() && (#[trigger] items[i]).0 == key;
            assert(items.to_multiset().count(items[i]) > 0);
            let j = other.index_of(items[i]);
            assert(other[j].0 == key);
        }
        if item_keys(other).contains(key) {
            let j = choose|j: int| 0 <= j < other.len() && (#[trigger] other[j]).0 == key;
            assert(other.to_multiset().count(other[j]) > 0);
            let i = items.index_of(other[j]);
            assert(items[i].0 == key);
        }
    }
    assert forall|key: Seq<char>| key_total(items, key) == key_total(other, key) by {
        lemma_key_total_any_order(items, other, key);
    }
}

/// `table` with all of `items` booked on top of what it holds, where every
/// key stays within 64 bits; `table` itself stays as it is.
pub fn book_all(table: &CrateMap, items: &Vec<(String, u64)>) -> (booked: Option<CrateMap>)
    ensures
        match booked {
            Some(booked) => fits(table@, items_view(items@)) && booked@ == accumulated(
                table@,
                items_view(items@),
            ),
            None => !fits(table@, items_view(items@)),
        },
{
    let mut booked = table.clone();
    let ghost all = items_view(items@);
    proof {
        lemma_accumulated_none(table@);
    }
    let mut i: usize = 0;
    while i < items.len()
        invariant
            i <= items.len(),
            all == items_view(items@),
            booked@ == accumulated(table@, all.take(i as int)),
            fits(table@, all.take(i as int)),
        decreases items.len() - i,
    {
        let size = items[i].1;
        let key = items[i].0.clone();
        let held = get_hashmap_crate_size(&booked, key.as_str());
        let ghost before = all.take(i as int);
        let ghost after = all.take(i + 1);
        proof {
            lemma_items_view_take(items@, i as int);
            lemma_accumulated_push(table@, before, key@, size as nat);
            lemma_size_in_accumulated(table@, before, key@);
            assert(after.drop_last() =~= before);
            lemma_key_total_grows(all, i + 1, key@);
        }
        if held > u64::MAX - size {
            proof {
                assert(item_keys(all).contains(key@));
            }
            return None;
        }
        add_crate_to_hash_map(&mut booked, key, size);
        proof {
            assert forall|k: Seq<char>| #[trigger]
                item_keys(after).contains(k) implies size_in(table@, k) + key_total(after, k)
                <= u64::MAX by {
                if k != all[i as int].0 {
                    assert(item_keys(before).contains(k));
                }
            }
        }
        i += 1;
    }
    proof {
        assert(all.take(i as int) =~= all);
    }
    Some(booked)
}

/// Books each of `items` in turn on `table`, in place of what its key held.
pub fn overwrite_all(table: &mut CrateMap, items: &Vec<(String, u64)>)
    ensures
        final(table)@ == overwritten(old(table)@, items_view(items@)),
{
    let ghost all = items_view(items@);
    proof {
        assert(all.take(0) =~= Seq::<(Seq<char>, nat)>::empty());
    }
    let mut i: usize = 0;
    while i < items.len()
        invariant
            i <= items.len(),
            all == items_view(items@),
            table@ == overwritten(old(table)@, all.take(i as int)),
        decreases items.len() - i,
    {
        proof {
            lemma_items_view_take(items@, i as int);
            assert(all.take(i + 1).drop_last() =~= all.take(i as int));
        }
        table.insert(items[i].0.clone(), CrateInfo::new(items[i].1));
        i += 1;
    }
    proof {
        assert(all.take(i as int) =~= all);
    }
}

} // verus!

//! The table of one category: for each key, how many bytes are booked on it.

use crate::order::{
    key_before, key_views, lemma_insert_keeps_strict, lemma_key_before_asymmetric,
    lemma_key_before_irreflexive, lemma_strictly_ascending_is_ascending,
    lemma_strictly_ascending_unique, lower_bound, rank_keys, strictly_ascending, KeyRank,
};
use vstd::prelude::*;

verus! {

/// What is recorded of one key: the bytes it occupies.
#[derive(Clone, Copy, Debug, PartialEq, Eq, Structural)]
pub struct CrateInfo {
    size: u64,
}

impl View for CrateInfo {
    type V = nat;

    closed spec fn view(&self) -> nat {
        self.size as nat
    }
}

impl CrateInfo {
    /// A record of `size` bytes.
    pub fn new(size: u64) -> (info: Self)
        ensures
            info@ == size,
    {
        CrateInfo { size }
    }

    /// The bytes recorded.
    pub fn size(&self) -> (size: u64)
        ensures
            size == self@,
    {
        self.size
    }
}

/// Records of the same size are the same record.
pub proof fn lemma_info_by_size(a: CrateInfo, b: CrateInfo)
    requires
        a@ == b@,
    ensures
        a == b,
{
}

/// The bytes booked on `key` in `table`; nothing is booked on a key it lacks.
pub open spec fn size_in(table: Map<Seq<char>, nat>, key: Seq<char>) -> nat {
    if table.contains_key(key) {
        table[key]
    } else {
        0
    }
}

/// `table` after `size` more bytes were booked on `key`.
pub open spec fn accumulate(table: Map<Seq<char>, nat>, key: Seq<char>, size: nat) -> Map<
    Seq<char>,
    nat,
> {
    table.insert(key, size_in(table, key) + size)
}

/// The bookings that a vector of keys with their bytes stands for.
pub open spec fn items_view(items: Seq<(String, u64)>) -> Seq<(Seq<char>, nat)> {
    items.map_values(|item: (String, u64)| (item.0@, item.1 as nat))
}

/// The keys of a list of bookings, in its order.
pub open spec fn keys_of(items: Seq<(Seq<char>, nat)>) -> Seq<Seq<char>> {
    items.map_values(|item: (Seq<char>, nat)| item.0)
}

/// `items` lists `table`: each of its keys once, in the order of keys, with
/// the bytes that the key holds.
pub open spec fn lists_table(items: Seq<(Seq<char>, nat)>, table: Map<Seq<char>, nat>) -> bool {
    &&& strictly_ascending(keys_of(items))
    &&& keys_of(items).to_set() == table.dom()
    &&& forall|i: int| 0 <= i < items.len() ==> table[(#[trigger] items[i]).0] == items[i].1
}

/// Booking `a` bytes and then `b` bytes on a key puts `a + b` bytes on top of
/// what the key held, whichever of the two is booked first; and a key that the
/// table lacks takes a booking as one that holds nothing does.
pub proof fn lemma_accumulate_commutes(table: Map<Seq<char>, nat>, key: Seq<char>, a: nat, b: nat)
    ensures
        accumulate(accumulate(table, key, a), key, b) == accumulate(
            accumulate(table, key, b),
            key,
            a,
        ),
        size_in(accumulate(accumulate(table, key, a), key, b), key) == size_in(table, key) + a + b,
        !table.contains_key(key) ==> accumulate(table, key, a) == accumulate(
            table.insert(key, 0),
            key,
            a,
        ),
{
    assert(accumulate(accumulate(table, key, a), key, b) =~= accumulate(
        accumulate(table, key, b),
        key,
        a,
    ));
    if !table.contains_key(key) {
        assert(accumulate(table, key, a) =~= accumulate(table.insert(key, 0), key, a));
    }
}

/// Bookings on two different keys can be made in either order.
pub proof fn lemma_accumulate_apart(
    table: Map<Seq<char>, nat>,
    key: Seq<char>,
    a: nat,
    other: Seq<char>,
    b: nat,
)
    requires
        key != other,
    ensures
        accumulate(accumulate(table, key, a), other, b) == accumulate(
            accumulate(table, other, b),
            key,
            a,
        ),
{
    assert(accumulate(accumulate(table, key, a), other, b) =~= accumulate(
        accumulate(table, other, b),
        key,
        a,
    ));
}

/// The sizes that a vector of records stands for.
spec fn info_views(infos: Seq<CrateInfo>) -> Seq<nat> {
    infos.map_values(|info: CrateInfo| info@)
}

/// The table that keys and sizes at the same positions make up.
spec fn table_of(keys: Seq<Seq<char>>, sizes: Seq<nat>) -> Map<Seq<char>, nat> {
    Map::new(|key: Seq<char>| keys.contains(key), |key: Seq<char>| sizes[keys.index_of(key)])
}

/// In a strictly ascending list every key is found at its own position only.
proof fn lemma_positions(keys: Seq<Seq<char>>)
    requires
        strictly_ascending(keys),
    ensures
        keys.no_duplicates(),
        forall|i: int| 0 <= i < keys.len() ==> keys.index_of(#[trigger] keys[i]) == i,
{
    assert forall|i: int, j: int| 0 <= i < keys.len() && 0 <= j < keys.len() && i != j implies keys[i]
        != keys[j] by {
        if i < j {
            lemma_key_before_asymmetric(keys[i], keys[j]);
        } else {
            lemma_key_before_asymmetric(keys[j], keys[i]);
        }
    }
}

/// A key put into its place in the list, where it is not there yet, adds
/// exactly that key to the table.
proof fn lemma_table_gains(
    keys: Seq<Seq<char>>,
    sizes: Seq<nat>,
    pos: int,
    key: Seq<char>,
    size: nat,
)
    requires
        strictly_ascending(keys),
        keys.len() == sizes.len(),
        0 <= pos <= keys.len(),
        forall|i: int| 0 <= i < pos ==> key_before(#[trigger] keys[i], key),
        forall|i: int| pos <= i < keys.len() ==> !key_before(#[trigger] keys[i], key),
        pos < keys.len() ==> keys[pos] != key,
    ensures
        strictly_ascending(keys.insert(pos, key)),
        table_of(keys.insert(pos, key), sizes.insert(pos, size)) == table_of(keys, sizes).insert(
            key,
            size,
        ),
{
    let grown = keys.insert(pos, key);
    let grown_sizes = sizes.insert(pos, size);
    lemma_insert_keeps_strict(keys, pos, key);
    lemma_positions(keys);
    lemma_positions(grown);
    let before = table_of(keys, sizes);
    let after = table_of(grown, grown_sizes);
    assert forall|k: Seq<char>| after.contains_key(k) <==> before.insert(key, size).contains_key(
        k,
    ) by {
        if grown.contains(k) {
            let i = grown.index_of(k);
            if i < pos {
                assert(keys[i] == k);
            } else if i > pos {
                assert(keys[i - 1] == k);
            }
        }
        if keys.contains(k) {
            let i = keys.index_of(k);
            if i < pos {
                assert(grown[i] == k);
            } else {
                assert(grown[i + 1] == k);
            }
        }
        if k == key {
            assert(grown[pos] == k);
        }
    }
    assert forall|k: Seq<char>| after.contains_key(k) implies after[k] == before.insert(
        key,
        size,
    )[k] by {
        let i = grown.index_of(k);
        if i < pos {
            assert(keys[i] == k);
        } else if i > pos {
            assert(keys[i - 1] == k);
        }
    }
}

/// A new size at the position of a key rebooks that key and no other.
proof fn lemma_table_rebooks(keys: Seq<Seq<char>>, sizes: Seq<nat>, pos: int, size: nat)
    requires
        strictly_ascending(keys),
        keys.len() == sizes.len(),
        0 <= pos < keys.len(),
    ensures
        table_of(keys, sizes.update(pos, size)) == table_of(keys, sizes).insert(keys[pos], size),
{
    lemma_positions(keys);
    let before = table_of(keys, sizes);
    let after = table_of(keys, sizes.update(pos, size));
    assert forall|k: Seq<char>| after.contains_key(k) implies after[k] == before.insert(
        keys[pos],
        size,
    )[k] by {
        let i = keys.index_of(k);
        assert(keys[i] == k);
    }
}

/// The keys of a table are those of its list, each once.
proof fn lemma_table_domain(keys: Seq<Seq<char>>, sizes: Seq<nat>)
    requires
        strictly_ascending(keys),
    ensures
        table_of(keys, sizes).dom() == keys.to_set(),
        table_of(keys, sizes).dom().finite(),
        table_of(keys, sizes).dom().len() == keys.len(),
{
    lemma_positions(keys);
    vstd::seq_lib::seq_to_set_is_finite(keys);
    keys.unique_seq_to_set();
}

/// Two lists that make up the same table are the same lists.
proof fn lemma_one_list_per_table(
    keys: Seq<Seq<char>>,
    sizes: Seq<nat>,
    other_keys: Seq<Seq<char>>,
    other_sizes: Seq<nat>,
)
    requires
        strictly_ascending(keys),
        strictly_ascending(other_keys),
        keys.len() == sizes.len(),
        other_keys.len() == other_sizes.len(),
        table_of(keys, sizes) == table_of(other_keys, other_sizes),
    ensures
        keys == other_keys,
        sizes == other_sizes,
{
    lemma_table_domain(keys, sizes);
    lemma_table_domain(other_keys, other_sizes);
    lemma_strictly_ascending_unique(keys, other_keys);
    lemma_positions(keys);
    assert forall|i: int| 0 <= i < sizes.len() implies sizes[i] == other_sizes[i] by {
        assert(table_of(keys, sizes)[keys[i]] == sizes[i]);
    }
}

/// A table from keys to the bytes booked on them.
///
/// The keys are kept in their order, each once, so two tables that hold the
/// same bookings are equal field by field.
#[derive(Debug)]
pub struct CrateMap {
    keys: Vec<String>,
    infos: Vec<CrateInfo>,
}

impl View for CrateMap {
    type V = Map<Seq<char>, nat>;

    closed spec fn view(&self) -> Map<Seq<char>, nat> {
        table_of(key_views(self.keys@), info_views(self.infos@))
    }
}

impl CrateMap {
    #[verifier::type_invariant]
    spec fn well_formed(self) -> bool {
        &&& self.keys.len() == self.infos.len()
        &&& strictly_ascending(key_views(self.keys@))
    }

    /// The empty table.
    pub fn new() -> (table: Self)
        ensures
            table@ == Map::<Seq<char>, nat>::empty(),
    {
        let table = CrateMap { keys: Vec::new(), infos: Vec::new() };
        table
    }

    /// The number of keys.
    pub fn len(&self) -> (count: usize)
        ensures
            self@.dom().finite(),
            count == self@.dom().len(),
    {
        proof {
            use_type_invariant(self);
            lemma_table_domain(key_views(self.keys@), info_views(self.infos@));
        }
        self.keys.len()
    }

    /// The record of `key`, if the table has one.
    pub fn get(&self, key: &str) -> (found: Option<CrateInfo>)
        ensures
            match found {
                Some(info) => self@.contains_key(key@) && info@ == self@[key@],
                None => !self@.contains_key(key@),
            },
    {
        proof {
            use_type_invariant(self);
            lemma_positions(key_views(self.keys@));
            lemma_strictly_ascending_is_ascending(key_views(self.keys@));
        }
        let pos = lower_bound(&self.keys, key);
        if pos < self.keys.len() && rank_keys(self.keys[pos].as_str(), key) == KeyRank::Same {
            assert(key_views(self.keys@)[pos as int] == key@);
            Some(self.infos[pos])
        } else {
            proof {
                let keys = key_views(self.keys@);
                if keys.contains(key@) {
                    let i = keys.index_of(key@);
                    lemma_key_before_irreflexive(key@);
                    if pos < i {
                        lemma_key_before_asymmetric(keys[pos as int], keys[i]);
                    }
                }
            }
            None
        }
    }

    /// The bookings of the table, key by key in the order of keys.
    pub fn entries(&self) -> (list: Vec<(String, u64)>)
        ensures
            lists_table(items_view(list@), self@),
    {
        proof {
            use_type_invariant(self);
        }
        let ghost keys = key_views(self.keys@);
        let ghost sizes = info_views(self.infos@);
        let mut list: Vec<(String, u64)> = Vec::new();
        let mut i: usize = 0;
        while i < self.keys.len()
            invariant
                i <= self.keys.len(),
                self.keys.len() == self.infos.len(),
                keys == key_views(self.keys@),
                sizes == info_views(self.infos@),
                list.len() == i,
                forall|j: int|
                    0 <= j < i ==> (#[trigger] list@[j]).0@ == keys[j] && list@[j].1 == sizes[j],
            decreases self.keys.len() - i,
        {
            list.push((self.keys[i].clone(), self.infos[i].size()));
            i += 1;
        }
        proof {
            let items = items_view(list@);
            assert(keys_of(items) =~= keys);
            lemma_table_domain(keys, sizes);
            lemma_positions(keys);
            assert forall|j: int| 0 <= j < items.len() implies self@[(#[trigger] items[j]).0]
                == items[j].1 by {
                assert(keys[j] == items[j].0);
            }
        }
        list
    }

    /// Books `info` on `key`, in place of what was booked on it before.
    pub fn insert(&mut self, key: String, info: CrateInfo)
        ensures
            final(self)@ == old(self)@.insert(key@, info@),
    {
        proof {
            use_type_invariant(&*self);
        }
        let mut taken = CrateMap { keys: Vec::new(), infos: Vec::new() };
        std::mem::swap(self, &mut taken);
        let CrateMap { mut keys, mut infos } = taken;
        let ghost old_keys = key_views(keys@);
        let ghost old_sizes = info_views(infos@);
        proof {
            lemma_strictly_ascending_is_ascending(old_keys);
        }
        let pos = lower_bound(&keys, key.as_str());
        if pos < keys.len() && rank_keys(keys[pos].as_str(), key.as_str()) == KeyRank::Same {
            infos.set(pos, info);
            proof {
                lemma_table_rebooks(old_keys, old_sizes, pos as int, info@);
            }
        } else {
            proof {
                assert forall|i: int| 0 <= i < pos implies key_before(
                    #[trigger] old_keys[i],
                    key@,
                ) by {
                    assert(old_keys[i] == keys[i]@);
                }
                assert forall|i: int| pos <= i < old_keys.len() implies !key_before(
                    #[trigger] old_keys[i],
                    key@,
                ) by {
                    assert(old_keys[i] == keys[i]@);
                }
                if pos < keys.len() {
                    assert(old_keys[pos as int] == keys[pos as int]@);
                }
                lemma_table_gains(old_keys, old_sizes, pos as int, key@, info@);
            }
            keys.insert(pos, key);
            infos.insert(pos, info);
            proof {
                assert(key_views(keys@) =~= old_keys.insert(pos as int, key@));
            }
        }
        *self = CrateMap { keys, infos };
    }
}

impl PartialEq for CrateMap {
    /// Whether the two tables hold the same bookings.
    fn eq(&self, other: &Self) -> (same: bool) {
        proof {
            use_type_invariant(self);
            use_type_invariant(other);
        }
        let ghost keys = key_views(self.keys@);
        let ghost sizes = info_views(self.infos@);
        let ghost other_keys = key_views(other.keys@);
        let ghost other_sizes = info_views(other.infos@);
        if self.keys.len() != other.keys.len() {
            proof {
                if self@ == other@ {
                    lemma_one_list_per_table(keys, sizes, other_keys, other_sizes);
                }
            }
            return false;
        }
        let mut i: usize = 0;
        while i < self.keys.len()
            invariant
                i <= self.keys.len(),
                self.keys.len() == other.keys.len(),
                self.keys.len() == self.infos.len(),
                other.keys.len() == other.infos.len(),
                keys == key_views(self.keys@),
                sizes == info_views(self.infos@),
                other_keys == key_views(other.keys@),
                other_sizes == info_views(other.infos@),
                strictly_ascending(keys),
                strictly_ascending(other_keys),
                forall|j: int| 0 <= j < i ==> keys[j] == other_keys[j] && sizes[j] == other_sizes[j],
            decreases self.keys.len() - i,
        {
            let same_key = self.keys[i] == other.keys[i];
            let same_size = self.infos[i].size() == other.infos[i].size();
            if !same_key || !same_size {
                proof {
                    assert(keys[i as int] == self.keys[i as int]@);
                    if self@ == other@ {
                        lemma_one_list_per_table(keys, sizes, other_keys, other_sizes);
                    }
                }
                return false;
            }
            proof {
                assert(keys[i as int] == self.keys[i as int]@);
            }
            i += 1;
        }
        proof {
            assert(keys =~= other_keys);
            assert(sizes =~= other_sizes);
        }
        true
    }
}

impl Eq for CrateMap {

}

impl vstd::std_specs::cmp::PartialEqSpecImpl for CrateMap {
    open spec fn obeys_eq_spec() -> bool {
        true
    }

    open spec fn eq_spec(&self, other: &Self) -> bool {
        self@ == other@
    }
}

impl Clone for CrateMap {
    /// A table with the same bookings.
    fn clone(&self) -> (copy: Self)
        ensures
            copy@ == self@,
    {
        proof {
            use_type_invariant(self);
        }
        let keys = self.keys.clone();
        let infos = self.infos.clone();
        proof {
            assert(key_views(keys@) =~= key_views(self.keys@));
        }
        CrateMap { keys, infos }
    }
}

/// The bytes booked on `crate_name` in `table`: 0 where it has no such key.
pub fn get_hashmap_crate_size(table: &CrateMap, crate_name: &str) -> (size: u64)
    ensures
        size == size_in(table@, crate_name@),
{
    match table.get(crate_name) {
        Some(info) => info.size(),
        None => 0,
    }
}

/// Books `size` more bytes on `crate_name` in `table`: on top of what the key
/// holds, or as its first booking. What the key then holds must fit into 64
/// bits.
pub fn add_crate_to_hash_map(table: &mut CrateMap, crate_name: String, size: u64)
    requires
        size_in(old(table)@, crate_name@) + size <= u64::MAX,
    ensures
        final(table)@ == accumulate(old(table)@, crate_name@, size as nat),
{
    let held = get_hashmap_crate_size(table, crate_name.as_str());
    table.insert(crate_name, CrateInfo::new(held + size));
}

} // verus!

//! What a scan of a cache directory is handed, and how its entries become
//! bookings: each entry gets the key that its place in the cache calls for
//! and the size of the tree under it.

use crate::bookings::item_keys;
use crate::crate_map::items_view;
use crate::names::{
    archive_key, checkout_key, database_key, git_checkout_key, git_database_key,
    registry_archive_key, stem, stem_of, HYPHEN,
};
use crate::order::{ascending, insert_sorted, insert_unique, key_views, strictly_ascending};
use crate::size::{get_size, tree_size, FsNode};
use vstd::prelude::*;

verus! {

/// An entry of a directory: its file name and a picture of what is under it.
#[derive(Debug, PartialEq, Eq)]
pub struct Entry {
    /// The entry's file name.
    pub name: String,
    /// What is under the entry.
    pub node: FsNode,
}

/// The checkouts of one repository: the folder named after the repository and
/// the folders in it, one for each revision checked out.
#[derive(Debug, PartialEq, Eq)]
pub struct Checkout {
    /// The name of the repository's folder.
    pub folder: String,
    /// The folders of the revisions, each named by its revision.
    pub revisions: Vec<Entry>,
}

/// Why a scan booked nothing.
#[derive(Debug, PartialEq, Eq)]
pub enum ScanError {
    /// The name it holds lacks the separator at which its key is cut.
    MissingSeparator(String),
    /// A tree, or what a key would hold, is more than 64 bits can count.
    SizeOverflow,
}

/// How the key of an entry is made from its name.
#[derive(Debug, PartialEq, Eq)]
pub enum KeyFormat {
    /// The name is the key.
    Plain,
    /// The name without its extension.
    Archive,
    /// The name up to its last hyphen, then `-HEAD`.
    Database,
    /// The name is a revision: the key is the repository folder's name up to
    /// its last hyphen, a hyphen, and the revision.
    Revision {
        /// The name of the repository's folder.
        folder: String,
    },
}

/// The key that `format` makes from `name`, where the name allows one.
pub open spec fn key_for(format: KeyFormat, name: Seq<char>) -> Option<Seq<char>> {
    match format {
        KeyFormat::Plain => Some(name),
        KeyFormat::Archive => archive_key(name),
        KeyFormat::Database => database_key(name),
        KeyFormat::Revision { folder } => checkout_key(folder@, name),
    }
}

/// The name of the first entry from which `format` makes no key.
pub open spec fn first_unkeyed(entries: Seq<Entry>, format: KeyFormat) -> Option<Seq<char>>
    decreases entries.len(),
{
    if entries.len() == 0 {
        None
    } else if key_for(format, entries[0].name@) is None {
        Some(entries[0].name@)
    } else {
        first_unkeyed(entries.drop_first(), format)
    }
}

/// The bookings that `entries` make under `format`: for each entry its key and
/// the bytes under it. Meant for entries that all have a key.
pub open spec fn keyed_items(entries: Seq<Entry>, format: KeyFormat) -> Seq<(Seq<char>, nat)> {
    Seq::new(
        entries.len(),
        |i: int| (key_for(format, entries[i].name@).unwrap(), tree_size(entries[i].node)),
    )
}

/// The tree under every entry fits into 64 bits.
pub open spec fn all_measurable(entries: Seq<Entry>) -> bool {
    forall|i: int| 0 <= i < entries.len() ==> tree_size(#[trigger] entries[i].node) <= u64::MAX
}

/// A repository folder with revisions in it whose name has no hyphen to cut at.
pub open spec fn misnamed(checkout: Checkout) -> bool {
    checkout.revisions.len() > 0 && stem(checkout.folder@, HYPHEN) is None
}

/// The name of the first misnamed repository folder.
pub open spec fn first_misnamed(checkouts: Seq<Checkout>) -> Option<Seq<char>>
    decreases checkouts.len(),
{
    if checkouts.len() == 0 {
        None
    } else if misnamed(checkouts[0]) {
        Some(checkouts[0].folder@)
    } else {
        first_misnamed(checkouts.drop_first())
    }
}

/// The bookings that the revisions of one repository folder make.
pub open spec fn revision_items(checkout: Checkout) -> Seq<(Seq<char>, nat)> {
    keyed_items(checkout.revisions@, KeyFormat::Revision { folder: checkout.folder })
}

/// The bookings that the revisions in `checkouts` make, folder after folder.
pub open spec fn checkout_items(checkouts: Seq<Checkout>) -> Seq<(Seq<char>, nat)>
    decreases checkouts.len(),
{
    if checkouts.len() == 0 {
        Seq::empty()
    } else {
        checkout_items(checkouts.drop_last()) + revision_items(checkouts.last())
    }
}

/// The tree under every revision in `checkouts` fits into 64 bits.
pub open spec fn checkouts_measurable(checkouts: Seq<Checkout>) -> bool {
    forall|i: int|
        0 <= i < checkouts.len() ==> all_measurable((#[trigger] checkouts[i]).revisions@)
}

/// `keys` lists the keys in `set`: each once, in the order of keys.
pub open spec fn lists_keys(keys: Seq<Seq<char>>, set: Set<Seq<char>>) -> bool {
    strictly_ascending(keys) && keys.to_set() == set
}

/// The names of `entries`, in their order.
pub open spec fn entry_names(entries: Seq<Entry>) -> Seq<Seq<char>> {
    entries.map_values(|entry: Entry| entry.name@)
}

/// `names` lists what `given` holds, each as often as it is there, in the
/// order of keys.
pub open spec fn lists_names(names: Seq<Seq<char>>, given: Seq<Seq<char>>) -> bool {
    ascending(names) && names.to_multiset() == given.to_multiset()
}

/// A name is its own key, so no entry is without one.
pub proof fn lemma_plain_names_are_keys(entries: Seq<Entry>)
    ensures
        first_unkeyed(entries, KeyFormat::Plain) is None,
{
    lemma_first_unkeyed_skips(entries, KeyFormat::Plain, entries.len() as int);
}

/// Entries without a key before `n` have one among the first `n`.
proof fn lemma_first_unkeyed_skips(entries: Seq<Entry>, format: KeyFormat, n: int)
    requires
        0 <= n <= entries.len(),
        forall|i: int| 0 <= i < n ==> key_for(format, (#[trigger] entries[i]).name@) is Some,
    ensures
        first_unkeyed(entries, format) == first_unkeyed(entries.skip(n), format),
    decreases n,
{
    if n > 0 {
        lemma_first_unkeyed_skips(entries, format, n - 1);
        let rest = entries.skip(n - 1);
        assert(rest.drop_first() =~= entries.skip(n));
    } else {
        assert(entries.skip(0) =~= entries);
    }
}

/// Where no entry is without a key, each has one.
pub proof fn lemma_all_keyed(entries: Seq<Entry>, format: KeyFormat, i: int)
    requires
        first_unkeyed(entries, format) is None,
        0 <= i < entries.len(),
    ensures
        key_for(format, entries[i].name@) is Some,
    decreases entries.len(),
{
    if i > 0 {
        lemma_all_keyed(entries.drop_first(), format, i - 1);
    }
}

/// Where no folder is misnamed, none of them is.
pub proof fn lemma_none_misnamed(checkouts: Seq<Checkout>, i: int)
    requires
        first_misnamed(checkouts) is None,
        0 <= i < checkouts.len(),
    ensures
        !misnamed(checkouts[i]),
    decreases checkouts.len(),
{
    if i > 0 {
        lemma_none_misnamed(checkouts.drop_first(), i - 1);
    }
}

/// The key that `format` makes from `name`, where the name allows one.
pub fn derive_key(format: &KeyFormat, name: &str) -> (key: Option<String>)
    ensures
        match key {
            Some(key) => key_for(*format, name@) == Some(key@),
            None => key_for(*format, name@) is None,
        },
{
    match format {
        KeyFormat::Plain => Some(name.to_owned()),
        KeyFormat::Archive => registry_archive_key(name),
        KeyFormat::Database => git_database_key(name),
        KeyFormat::Revision { folder } => git_checkout_key(folder.as_str(), name),
    }
}

/// The name of the first entry from which `format` makes no key.
pub fn find_unkeyed(entries: &Vec<Entry>, format: &KeyFormat) -> (name: Option<String>)
    ensures
        match name {
            Some(name) => first_unkeyed(entries@, *format) == Some(name@),
            None => first_unkeyed(entries@, *format) is None,
        },
{
    let mut i: usize = 0;
    while i < entries.len()
        invariant
            i <= entries.len(),
            forall|j: int| 0 <= j < i ==> key_for(*format, (#[trigger] entries@[j]).name@) is Some,
        decreases entries.len() - i,
    {
        if derive_key(format, entries[i].name.as_str()).is_none() {
            proof {
                lemma_first_unkeyed_skips(entries@, *format, i as int);
            }
            return Some(entries[i].name.clone());
        }
        i += 1;
    }
    proof {
        lemma_first_unkeyed_skips(entries@, *format, i as int);
    }
    None
}

/// The bookings that `entries` make under `format`: for each entry its key and
/// the size of its tree. There are none where an entry has no key, else where
/// a tree does not fit into 64 bits.
pub fn bookings_of(entries: &Vec<Entry>, format: &KeyFormat) -> (made: Result<
    Vec<(String, u64)>,
    ScanError,
>)
    ensures
        match made {
            Ok(items) => {
                &&& first_unkeyed(entries@, *format) is None
                &&& all_measurable(entries@)
                &&& items_view(items@) == keyed_items(entries@, *format)
            },
            Err(ScanError::MissingSeparator(name)) => first_unkeyed(entries@, *format) == Some(
                name@,
            ),
            Err(ScanError::SizeOverflow) => {
                &&& first_unkeyed(entries@, *format) is None
                &&& !all_measurable(entries@)
            },
        },
{
    if let Some(name) = find_unkeyed(entries, format) {
        return Err(ScanError::MissingSeparator(name));
    }
    let mut items: Vec<(String, u64)> = Vec::new();
    let ghost all = keyed_items(entries@, *format);
    let mut i: usize = 0;
    while i < entries.len()
        invariant
            i <= entries.len(),
            first_unkeyed(entries@, *format) is None,
            all == keyed_items(entries@, *format),
            items_view(items@) == all.take(i as int),
            forall|j: int| 0 <= j < i ==> tree_size(#[trigger] entries@[j].node) <= u64::MAX,
        decreases entries.len() - i,
    {
        proof {
            lemma_all_keyed(entries@, *format, i as int);
        }
        let measured = get_size(&entries[i].node);
        let keyed = derive_key(format, entries[i].name.as_str());
        match (keyed, measured) {
            (Some(key), Some(size)) => {
                let ghost before = items@;
                items.push((key, size));
                proof {
                    assert(items_view(items@) =~= items_view(before).push((key@, size as nat)));
                }
            },
            _ => {
                return Err(ScanError::SizeOverflow);
            },
        }
        i += 1;
    }
    proof {
        assert(all.take(i as int) =~= all);
    }
    Ok(items)
}

/// The name of the first misnamed repository folder.
pub fn find_misnamed(checkouts: &Vec<Checkout>) -> (name: Option<String>)
    ensures
        match name {
            Some(name) => first_misnamed(checkouts@) == Some(name@),
            None => first_misnamed(checkouts@) is None,
        },
{
    let mut i: usize = 0;
    assert(checkouts@.skip(0) =~= checkouts@);
    while i < checkouts.len()
        invariant
            i <= checkouts.len(),
            first_misnamed(checkouts@) == first_misnamed(checkouts@.skip(i as int)),
        decreases checkouts.len() - i,
    {
        let ghost rest = checkouts@.skip(i as int);
        proof {
            assert(rest.drop_first() =~= checkouts@.skip(i + 1));
        }
        if checkouts[i].revisions.len() > 0 && stem_of(
            checkouts[i].folder.as_str(),
            HYPHEN,
        ).is_none() {
            return Some(checkouts[i].folder.clone());
        }
        i += 1;
    }
    None
}

/// The bookings that the revisions in `checkouts` make, folder after folder.
/// There are none where a folder is misnamed, else where a tree does not fit
/// into 64 bits.
pub fn checkout_bookings(checkouts: &Vec<Checkout>) -> (made: Result<Vec<(String, u64)>, ScanError>)
    ensures
        match made {
            Ok(items) => {
                &&& first_misnamed(checkouts@) is None
                &&& checkouts_measurable(checkouts@)
                &&& items_view(items@) == checkout_items(checkouts@)
            },
            Err(ScanError::MissingSeparator(name)) => first_misnamed(checkouts@) == Some(name@),
            Err(ScanError::SizeOverflow) => {
                &&& first_misnamed(checkouts@) is None
                &&& !checkouts_measurable(checkouts@)
            },
        },
{
    if let Some(name) = find_misnamed(checkouts) {
        return Err(ScanError::MissingSeparator(name));
    }
    let mut items: Vec<(String, u64)> = Vec::new();
    let mut i: usize = 0;
    while i < checkouts.len()
        invariant
            i <= checkouts.len(),
            first_misnamed(checkouts@) is None,
            items_view(items@) == checkout_items(checkouts@.take(i as int)),
            forall|j: int| 0 <= j < i ==> all_measurable((#[trigger] checkouts@[j]).revisions@),
        decreases checkouts.len() - i,
    {
        let format = KeyFormat::Revision { folder: checkouts[i].folder.clone() };
        proof {
            lemma_none_misnamed(checkouts@, i as int);
            lemma_revisions_keyed(checkouts@[i as int].revisions@, format, 0);
            assert(checkouts@[i as int].revisions@.skip(0) =~= checkouts@[i as int].revisions@);
            assert(checkouts@.take(i + 1).drop_last() =~= checkouts@.take(i as int));
        }
        let ghost before = items_view(items@);
        match bookings_of(&checkouts[i].revisions, &format) {
            Ok(more) => {
                let mut more = more;
                let ghost added = items_view(more@);
                items.append(&mut more);
                proof {
                    assert(items_view(items@) =~= before + added);
                }
            },
            Err(_) => {
                return Err(ScanError::SizeOverflow);
            },
        }
        i += 1;
    }
    proof {
        assert(checkouts@.take(i as int) =~= checkouts@);
    }
    Ok(items)
}

/// Under a folder with a hyphen in its name every revision has a key; so has
/// every one of no revisions.
proof fn lemma_revisions_keyed(revisions: Seq<Entry>, format: KeyFormat, n: int)
    requires
        format is Revision,
        revisions.len() > 0 ==> stem(format->folder@, HYPHEN) is Some,
        0 <= n <= revisions.len(),
    ensures
        first_unkeyed(revisions.skip(n), format) is None,
    decreases revisions.len() - n,
{
    if n < revisions.len() {
        lemma_revisions_keyed(revisions, format, n + 1);
        assert(revisions.skip(n).drop_first() =~= revisions.skip(n + 1));
    }
}

/// Puts the keys of `items` into the list `keys`, each once and in its place.
fn collect_keys(keys: &mut Vec<String>, items: &Vec<(String, u64)>)
    requires
        strictly_ascending(key_views(old(keys)@)),
    ensures
        strictly_ascending(key_views(final(keys)@)),
        key_views(final(keys)@).to_set() == key_views(old(keys)@).to_set() + item_keys(
            items_view(items@),
        ),
{
    let ghost start = key_views(keys@).to_set();
    let ghost all = items_view(items@);
    let mut i: usize = 0;
    while i < items.len()
        invariant
            i <= items.len(),
            all == items_view(items@),
            start == key_views(old(keys)@).to_set(),
            strictly_ascending(key_views(keys@)),
            key_views(keys@).to_set() == start + item_keys(all.take(i as int)),
        decreases items.len() - i,
    {
        proof {
            crate::bookings::lemma_items_view_take(items@, i as int);
            crate::bookings::lemma_accumulated_push(
                Map::empty(),
                all.take(i as int),
                items@[i as int].0@,
                items@[i as int].1 as nat,
            );
        }
        insert_unique(keys, items[i].0.clone());
        proof {
            assert(key_views(keys@).to_set() =~= start + item_keys(all.take(i + 1)));
        }
        i += 1;
    }
    proof {
        assert(all.take(i as int) =~= all);
    }
}

/// The keys on which `first` or `second` book, each once and in the order of
/// keys.
pub fn listed_keys(first: &Vec<(String, u64)>, second: &Vec<(String, u64)>) -> (keys: Vec<String>)
    ensures
        lists_keys(
            key_views(keys@),
            item_keys(items_view(first@)) + item_keys(items_view(second@)),
        ),
{
    let mut keys: Vec<String> = Vec::new();
    collect_keys(&mut keys, first);
    collect_keys(&mut keys, second);
    assert(key_views(keys@).to_set() =~= item_keys(items_view(first@)) + item_keys(
        items_view(second@),
    ));
    keys
}

/// The names of `entries` in the order of keys, each as often as it occurs.
pub fn sorted_names(entries: &Vec<Entry>) -> (names: Vec<String>)
    ensures
        lists_names(key_views(names@), entry_names(entries@)),
{
    let mut names: Vec<String> = Vec::new();
    let ghost all = entry_names(entries@);
    let mut i: usize = 0;
    assert(all.take(0) =~= key_views(names@));
    while i < entries.len()
        invariant
            i <= entries.len(),
            all == entry_names(entries@),
            ascending(key_views(names@)),
            key_views(names@).to_multiset() == all.take(i as int).to_multiset(),
        decreases entries.len() - i,
    {
        proof {
            assert(all.take(i + 1) =~= all.take(i as int).push(entries@[i as int].name@));
            vstd::seq_lib::to_multiset_build(all.take(i as int), entries@[i as int].name@);
        }
        insert_sorted(&mut names, entries[i].name.clone());
        i += 1;
    }
    proof {
        assert(all.take(i as int) =~= all);
    }
    names
}

} // verus!

//! The accounts of a cache: one table for each category of entry, and the
//! scans that fill them.

use crate::bookings::{accumulated, book_all, fits, item_keys, overwrite_all, overwritten};
use crate::crate_map::{
    accumulate, add_crate_to_hash_map, get_hashmap_crate_size, size_in, CrateInfo, CrateMap,
};
use crate::order::key_views;
use crate::scan::{
    all_measurable, bookings_of, checkout_bookings, checkout_items, checkouts_measurable,
    entry_names, find_unkeyed, first_misnamed, first_unkeyed, keyed_items,
    lemma_plain_names_are_keys, listed_keys, lists_keys, lists_names, sorted_names, Checkout,
    Entry, KeyFormat, ScanError,
};
use crate::text::{contains_text, occurs_at, occurs_in};
use vstd::prelude::*;

verus! {

/// What the accounts hold: for each category the bytes booked on each key.
pub struct Accounts {
    /// Installed binaries.
    pub bin: Map<Seq<char>, nat>,
    /// Databases of repositories.
    pub git_crates_source: Map<Seq<char>, nat>,
    /// Sources unpacked from a registry.
    pub registry_crates_source: Map<Seq<char>, nat>,
    /// Revisions checked out of repositories.
    pub git_crates_archive: Map<Seq<char>, nat>,
    /// Archives fetched from a registry.
    pub registry_crates_archive: Map<Seq<char>, nat>,
}

/// Accounts with nothing booked.
pub open spec fn no_accounts() -> Accounts {
    Accounts {
        bin: Map::empty(),
        git_crates_source: Map::empty(),
        registry_crates_source: Map::empty(),
        git_crates_archive: Map::empty(),
        registry_crates_archive: Map::empty(),
    }
}

/// The label of locations that belong to a registry.
pub open spec fn registry_label() -> Seq<char> {
    seq!['R', 'E', 'G', 'I', 'S', 'T', 'R', 'Y']
}

/// The label of locations that belong to repositories.
pub open spec fn git_label() -> Seq<char> {
    seq!['G', 'I', 'T']
}

/// The bytes that `key` holds among the repositories: revisions and database.
pub open spec fn total_git(accounts: Accounts, key: Seq<char>) -> nat {
    size_in(accounts.git_crates_archive, key) + size_in(accounts.git_crates_source, key)
}

/// The bytes that `key` holds in the registry: archive and source.
pub open spec fn total_registry(accounts: Accounts, key: Seq<char>) -> nat {
    size_in(accounts.registry_crates_archive, key) + size_in(accounts.registry_crates_source, key)
}

/// The bytes that `key` holds at `location`: in the registry where the
/// location names it, else among the repositories where the location names
/// those, else nothing.
pub open spec fn located_size(accounts: Accounts, key: Seq<char>, location: Seq<char>) -> nat {
    if occurs_in(location, registry_label()) {
        total_registry(accounts, key)
    } else if occurs_in(location, git_label()) {
        total_git(accounts, key)
    } else {
        0
    }
}

/// A location that is the registry's label is looked up in the registry, one
/// that is the repositories' label among the repositories, and one that holds
/// neither label finds nothing.
pub proof fn lemma_find_by_label(accounts: Accounts, key: Seq<char>, location: Seq<char>)
    ensures
        located_size(accounts, key, registry_label()) == total_registry(accounts, key),
        located_size(accounts, key, git_label()) == total_git(accounts, key),
        !occurs_in(location, registry_label()) && !occurs_in(location, git_label())
            ==> located_size(accounts, key, location) == 0,
{
    assert(registry_label().subrange(0, 8) =~= registry_label());
    assert(occurs_at(registry_label(), registry_label(), 0));
    assert(git_label().subrange(0, 3) =~= git_label());
    assert(occurs_at(git_label(), git_label(), 0));
}

/// The accounts after the binaries `entries` were booked, each in place of
/// what its name held.
pub open spec fn bin_scan_booked(accounts: Accounts, entries: Seq<Entry>) -> Accounts {
    Accounts { bin: overwritten(accounts.bin, keyed_items(entries, KeyFormat::Plain)), ..accounts }
}

/// A scan of the registry stays within 64 bits: every tree does, and so does
/// what every key would hold.
pub open spec fn registry_scan_fits(accounts: Accounts, src: Seq<Entry>, cache: Seq<Entry>) -> bool {
    &&& all_measurable(src)
    &&& all_measurable(cache)
    &&& fits(accounts.registry_crates_source, keyed_items(src, KeyFormat::Plain))
    &&& fits(accounts.registry_crates_archive, keyed_items(cache, KeyFormat::Archive))
}

/// The accounts after the sources `src` and the archives `cache` of a
/// registry were booked on top of what their keys held.
pub open spec fn registry_scan_booked(
    accounts: Accounts,
    src: Seq<Entry>,
    cache: Seq<Entry>,
) -> Accounts {
    Accounts {
        registry_crates_source: accumulated(
            accounts.registry_crates_source,
            keyed_items(src, KeyFormat::Plain),
        ),
        registry_crates_archive: accumulated(
            accounts.registry_crates_archive,
            keyed_items(cache, KeyFormat::Archive),
        ),
        ..accounts
    }
}

/// The keys that a scan of the registry comes upon.
pub open spec fn registry_scan_keys(src: Seq<Entry>, cache: Seq<Entry>) -> Set<Seq<char>> {
    item_keys(keyed_items(src, KeyFormat::Plain)) + item_keys(
        keyed_items(cache, KeyFormat::Archive),
    )
}

/// The first name among the repositories from which no key can be cut: a
/// misnamed folder of checkouts, else a database folder without a hyphen.
pub open spec fn git_scan_misnamed(checkouts: Seq<Checkout>, db: Seq<Entry>) -> Option<Seq<char>> {
    match first_misnamed(checkouts) {
        Some(name) => Some(name),
        None => first_unkeyed(db, KeyFormat::Database),
    }
}

/// A scan of the repositories stays within 64 bits: every tree does, and so
/// does what every key would hold.
pub open spec fn git_scan_fits(accounts: Accounts, checkouts: Seq<Checkout>, db: Seq<Entry>) -> bool {
    &&& checkouts_measurable(checkouts)
    &&& all_measurable(db)
    &&& fits(accounts.git_crates_archive, checkout_items(checkouts))
    &&& fits(accounts.git_crates_source, keyed_items(db, KeyFormat::Database))
}

/// The accounts after the revisions in `checkouts` and the databases `db`
/// were booked on top of what their keys held.
pub open spec fn git_scan_booked(
    accounts: Accounts,
    checkouts: Seq<Checkout>,
    db: Seq<Entry>,
) -> Accounts {
    Accounts {
        git_crates_archive: accumulated(accounts.git_crates_archive, checkout_items(checkouts)),
        git_crates_source: accumulated(
            accounts.git_crates_source,
            keyed_items(db, KeyFormat::Database),
        ),
        ..accounts
    }
}

/// The keys that a scan of the repositories comes upon.
pub open spec fn git_scan_keys(checkouts: Seq<Checkout>, db: Seq<Entry>) -> Set<Seq<char>> {
    item_keys(checkout_items(checkouts)) + item_keys(keyed_items(db, KeyFormat::Database))
}

/// The accounts of a cache, one table for each category.
#[derive(Debug)]
pub struct CrateDetail {
    bin: CrateMap,
    git_crates_source: CrateMap,
    registry_crates_source: CrateMap,
    git_crates_archive: CrateMap,
    registry_crates_archive: CrateMap,
}

impl View for CrateDetail {
    type V = Accounts;

    closed spec fn view(&self) -> Accounts {
        Accounts {
            bin: self.bin@,
            git_crates_source: self.git_crates_source@,
            registry_crates_source: self.registry_crates_source@,
            git_crates_archive: self.git_crates_archive@,
            registry_crates_archive: self.registry_crates_archive@,
        }
    }
}

impl PartialEq for CrateDetail {
    /// Whether the two hold the same bookings in every category.
    fn eq(&self, other: &Self) -> (same: bool) {
        self.bin == other.bin && self.git_crates_source == other.git_crates_source
            && self.registry_crates_source == other.registry_crates_source
            && self.git_crates_archive == other.git_crates_archive
            && self.registry_crates_archive == other.registry_crates_archive
    }
}

impl Eq for CrateDetail {

}

impl vstd::std_specs::cmp::PartialEqSpecImpl for CrateDetail {
    open spec fn obeys_eq_spec() -> bool {
        true
    }

    open spec fn eq_spec(&self, other: &Self) -> bool {
        self@ == other@
    }
}

impl Default for CrateDetail {
    /// Accounts with nothing booked.
    fn default() -> (detail: Self)
        ensures
            detail@ == no_accounts(),
    {
        CrateDetail {
            bin: CrateMap::new(),
            git_crates_source: CrateMap::new(),
            registry_crates_source: CrateMap::new(),
            git_crates_archive: CrateMap::new(),
            registry_crates_archive: CrateMap::new(),
        }
    }
}

impl CrateDetail {
    /// The table of installed binaries.
    pub fn bin(&self) -> (table: &CrateMap)
        ensures
            table@ == self@.bin,
    {
        &self.bin
    }

    /// The table of the databases of repositories.
    pub fn git_crates_source(&self) -> (table: &CrateMap)
        ensures
            table@ == self@.git_crates_source,
    {
        &self.git_crates_source
    }

    /// The table of sources unpacked from a registry.
    pub fn registry_crates_source(&self) -> (table: &CrateMap)
        ensures
            table@ == self@.registry_crates_source,
    {
        &self.registry_crates_source
    }

    /// The table of revisions checked out of repositories.
    pub fn git_crates_archive(&self) -> (table: &CrateMap)
        ensures
            table@ == self@.git_crates_archive,
    {
        &self.git_crates_archive
    }

    /// The table of archives fetched from a registry.
    pub fn registry_crates_archive(&self) -> (table: &CrateMap)
        ensures
            table@ == self@.registry_crates_archive,
    {
        &self.registry_crates_archive
    }

    /// Books `size` bytes on the binary `bin_name`, in place of what it held.
    pub fn add_bin(&mut self, bin_name: String, size: u64)
        ensures
            final(self)@ == (Accounts {
                bin: old(self)@.bin.insert(bin_name@, size as nat),
                ..old(self)@
            }),
    {
        self.bin.insert(bin_name, CrateInfo::new(size));
    }

    /// Books `size` more bytes on `crate_name` among the databases of
    /// repositories.
    pub fn add_git_crate_source(&mut self, crate_name: String, size: u64)
        requires
            size_in(old(self)@.git_crates_source, crate_name@) + size <= u64::MAX,
        ensures
            final(self)@ == (Accounts {
                git_crates_source: accumulate(
                    old(self)@.git_crates_source,
                    crate_name@,
                    size as nat,
                ),
                ..old(self)@
            }),
    {
        add_crate_to_hash_map(&mut self.git_crates_source, crate_name, size);
    }

    /// Books `size` more bytes on `crate_name` among the sources of a registry.
    pub fn add_registry_crate_source(&mut self, crate_name: String, size: u64)
        requires
            size_in(old(self)@.registry_crates_source, crate_name@) + size <= u64::MAX,
        ensures
            final(self)@ == (Accounts {
                registry_crates_source: accumulate(
                    old(self)@.registry_crates_source,
                    crate_name@,
                    size as nat,
                ),
                ..old(self)@
            }),
    {
        add_crate_to_hash_map(&mut self.registry_crates_source, crate_name, size);
    }

    /// Books `size` more bytes on `crate_name` among the checked-out revisions.
    pub fn add_git_crate_archive(&mut self, crate_name: String, size: u64)
        requires
            size_in(old(self)@.git_crates_archive, crate_name@) + size <= u64::MAX,
        ensures
            final(self)@ == (Accounts {
                git_crates_archive: accumulate(
                    old(self)@.git_crates_archive,
                    crate_name@,
                    size as nat,
                ),
                ..old(self)@
            }),
    {
        add_crate_to_hash_map(&mut self.git_crates_archive, crate_name, size);
    }

    /// Books `size` more bytes on `crate_name` among the archives of a registry.
    pub fn add_registry_crate_archive(&mut self, crate_name: String, size: u64)
        requires
            size_in(old(self)@.registry_crates_archive, crate_name@) + size <= u64::MAX,
        ensures
            final(self)@ == (Accounts {
                registry_crates_archive: accumulate(
                    old(self)@.registry_crates_archive,
                    crate_name@,
                    size as nat,
                ),
                ..old(self)@
            }),
    {
        add_crate_to_hash_map(&mut self.registry_crates_archive, crate_name, size);
    }

    /// The bytes of the database of `crate_name`; 0 where none is booked.
    pub fn find_size_git_source(&self, crate_name: &str) -> (size: u64)
        ensures
            size == size_in(self@.git_crates_source, crate_name@),
    {
        get_hashmap_crate_size(&self.git_crates_source, crate_name)
    }

    /// The bytes of the registry source `crate_name`; 0 where none is booked.
    pub fn find_size_registry_source(&self, crate_name: &str) -> (size: u64)
        ensures
            size == size_in(self@.registry_crates_source, crate_name@),
    {
        get_hashmap_crate_size(&self.registry_crates_source, crate_name)
    }

    /// The bytes of the checked-out revision `crate_name`; 0 where none is
    /// booked.
    pub fn find_size_git_archive(&self, crate_name: &str) -> (size: u64)
        ensures
            size == size_in(self@.git_crates_archive, crate_name@),
    {
        get_hashmap_crate_size(&self.git_crates_archive, crate_name)
    }

    /// The bytes of the registry archive `crate_name`; 0 where none is booked.
    pub fn find_size_registry_archive(&self, crate_name: &str) -> (size: u64)
        ensures
            size == size_in(self@.registry_crates_archive, crate_name@),
    {
        get_hashmap_crate_size(&self.registry_crates_archive, crate_name)
    }

    /// The bytes that `crate_name` holds among the repositories.
    pub fn find_size_git_all(&self, crate_name: &str) -> (size: u128)
        ensures
            size == total_git(self@, crate_name@),
    {
        let archive = self.find_size_git_archive(crate_name);
        let source = self.find_size_git_source(crate_name);
        archive as u128 + source as u128
    }

    /// The bytes that `crate_name` holds in the registry.
    pub fn find_size_registry_all(&self, crate_name: &str) -> (size: u128)
        ensures
            size == total_registry(self@, crate_name@),
    {
        let archive = self.find_size_registry_archive(crate_name);
        let source = self.find_size_registry_source(crate_name);
        archive as u128 + source as u128
    }

    /// The bytes that `crate_name` holds at `location`, a title that says
    /// `REGISTRY` or `GIT`; 0 for any other.
    pub fn find(&self, crate_name: &str, location: &str) -> (size: u128)
        ensures
            size == located_size(self@, crate_name@, location@),
    {
        proof {
            reveal_strlit("REGISTRY");
            reveal_strlit("GIT");
            assert("REGISTRY"@ =~= registry_label());
            assert("GIT"@ =~= git_label());
        }
        if contains_text(location, "REGISTRY") {
            self.find_size_registry_all(crate_name)
        } else if contains_text(location, "GIT") {
            self.find_size_git_all(crate_name)
        } else {
            0
        }
    }

    /// Books the installed binaries `entries`, each under its name and in place
    /// of what the name held, and lists their names in the order of keys.
    /// Where a tree among them does not fit into 64 bits, nothing is booked.
    pub fn list_installed_bin(&mut self, entries: &Vec<Entry>) -> (installed: Result<
        Vec<String>,
        ScanError,
    >)
        ensures
            match installed {
                Ok(names) => {
                    &&& all_measurable(entries@)
                    &&& final(self)@ == bin_scan_booked(old(self)@, entries@)
                    &&& lists_names(key_views(names@), entry_names(entries@))
                },
                Err(error) => {
                    &&& error == ScanError::SizeOverflow
                    &&& !all_measurable(entries@)
                    &&& final(self)@ == old(self)@
                },
            },
    {
        proof {
            lemma_plain_names_are_keys(entries@);
        }
        let items = match bookings_of(entries, &KeyFormat::Plain) {
            Ok(items) => items,
            Err(_) => {
                return Err(ScanError::SizeOverflow);
            },
        };
        overwrite_all(&mut self.bin, &items);
        Ok(sorted_names(entries))
    }

    /// Books the entries of a registry on top of what their keys held: the
    /// unpacked sources `src` under their names, the archives `cache` under
    /// their names without the extension. Lists the keys it came upon, each
    /// once and in the order of keys. Where an archive's name has no
    /// extension, or a size does not fit into 64 bits, nothing is booked.
    pub fn list_installed_crate_registry(
        &mut self,
        src: &Vec<Entry>,
        cache: &Vec<Entry>,
    ) -> (installed: Result<Vec<String>, ScanError>)
        ensures
            match installed {
                Ok(keys) => {
                    &&& first_unkeyed(cache@, KeyFormat::Archive) is None
                    &&& registry_scan_fits(old(self)@, src@, cache@)
                    &&& final(self)@ == registry_scan_booked(old(self)@, src@, cache@)
                    &&& lists_keys(key_views(keys@), registry_scan_keys(src@, cache@))
                },
                Err(ScanError::MissingSeparator(name)) => {
                    &&& first_unkeyed(cache@, KeyFormat::Archive) == Some(name@)
                    &&& final(self)@ == old(self)@
                },
                Err(ScanError::SizeOverflow) => {
                    &&& first_unkeyed(cache@, KeyFormat::Archive) is None
                    &&& !registry_scan_fits(old(self)@, src@, cache@)
                    &&& final(self)@ == old(self)@
                },
            },
    {
        if let Some(name) = find_unkeyed(cache, &KeyFormat::Archive) {
            return Err(ScanError::MissingSeparator(name));
        }
        proof {
            lemma_plain_names_are_keys(src@);
        }
        let src_items = match bookings_of(src, &KeyFormat::Plain) {
            Ok(items) => items,
            Err(_) => {
                return Err(ScanError::SizeOverflow);
            },
        };
        let cache_items = match bookings_of(cache, &KeyFormat::Archive) {
            Ok(items) => items,
            Err(_) => {
                return Err(ScanError::SizeOverflow);
            },
        };
        let source = match book_all(&self.registry_crates_source, &src_items) {
            Some(source) => source,
            None => {
                return Err(ScanError::SizeOverflow);
            },
        };
        let archive = match book_all(&self.registry_crates_archive, &cache_items) {
            Some(archive) => archive,
            None => {
                return Err(ScanError::SizeOverflow);
            },
        };
        let keys = listed_keys(&src_items, &cache_items);
        self.registry_crates_source = source;
        self.registry_crates_archive = archive;
        Ok(keys)
    }

    /// Books what was fetched from repositories on top of what the keys held:
    /// each revision in `checkouts` under the name of its repository folder,
    /// cut at the last hyphen, with the revision behind it, and each database
    /// folder in `db` under its name with `HEAD` behind the last hyphen. Lists
    /// the keys it came upon, each once and in the order of keys. Where a
    /// folder's name has no hyphen, or a size does not fit into 64 bits,
    /// nothing is booked.
    pub fn list_installed_crate_git(
        &mut self,
        checkouts: &Vec<Checkout>,
        db: &Vec<Entry>,
    ) -> (installed: Result<Vec<String>, ScanError>)
        ensures
            match installed {
                Ok(keys) => {
                    &&& git_scan_misnamed(checkouts@, db@) is None
                    &&& git_scan_fits(old(self)@, checkouts@, db@)
                    &&& final(self)@ == git_scan_booked(old(self)@, checkouts@, db@)
                    &&& lists_keys(key_views(keys@), git_scan_keys(checkouts@, db@))
                },
                Err(ScanError::MissingSeparator(name)) => {
                    &&& git_scan_misnamed(checkouts@, db@) == Some(name@)
                    &&& final(self)@ == old(self)@
                },
                Err(ScanError::SizeOverflow) => {
                    &&& git_scan_misnamed(checkouts@, db@) is None
                    &&& !git_scan_fits(old(self)@, checkouts@, db@)
                    &&& final(self)@ == old(self)@
                },
            },
    {
        let revisions = checkout_bookings(checkouts);
        if let Err(ScanError::MissingSeparator(name)) = revisions {
            return Err(ScanError::MissingSeparator(name));
        }
        if let Some(name) = find_unkeyed(db, &KeyFormat::Database) {
            return Err(ScanError::MissingSeparator(name));
        }
        let revision_items = match revisions {
            Ok(items) => items,
            Err(_) => {
                return Err(ScanError::SizeOverflow);
            },
        };
        let db_items = match bookings_of(db, &KeyFormat::Database) {
            Ok(items) => items,
            Err(_) => {
                return Err(ScanError::SizeOverflow);
            },
        };
        let archive = match book_all(&self.git_crates_archive, &revision_items) {
            Some(archive) => archive,
            None => {
                return Err(ScanError::SizeOverflow);
            },
        };
        let source = match book_all(&self.git_crates_source, &db_items) {
            Some(source) => source,
            None => {
                return Err(ScanError::SizeOverflow);
            },
        };
        let keys = listed_keys(&revision_items, &db_items);
        self.git_crates_archive = archive;
        self.git_crates_source = source;
        Ok(keys)
    }
}

} // verus!

//! Accounting for the disk space held by a package manager's local cache.
//!
//! The accounts ([`CrateDetail`]) keep one table ([`CrateMap`]) for each
//! category of cache entry: installed binaries, sources and archives fetched
//! from a registry, and databases and checked-out revisions of repositories.
//! A table says for each key how many bytes are booked on it. A scan is handed
//! the entries of a cache directory, each with a picture of the file tree
//! under it ([`FsNode`]); it gives each entry the key that its place in the
//! cache calls for, measures its tree, books it, and lists the keys it came
//! upon.
//!
//! Beside the accounts stand what a report of them needs: byte counts as
//! people read them ([`convert_pretty`]), names parted into package and
//! version ([`split_name_version`]), the largest bookings of a table
//! ([`top_crates`]), and what to do with a path that is to be deleted
//! ([`plan_removal`]).
//!
//! Every function states what it returns or changes and is proved to do so.
//! The one thing taken on trust is the parser of the `semver` crate, which
//! decides whether a token of a name is a version.

pub mod bookings;
pub mod cleanup;
pub mod crate_detail;
pub mod crate_map;
pub mod names;
pub mod order;
pub mod pretty;
pub mod report;
pub mod scan;
pub mod size;
pub mod text;

pub use cleanup::{is_index_cache, plan_removal, PathKind, Removal};
pub use crate_detail::CrateDetail;
pub use crate_map::{add_crate_to_hash_map, get_hashmap_crate_size, CrateInfo, CrateMap};
pub use names::{split_name_at, split_name_version};
pub use pretty::convert_pretty;
pub use report::{query_full_width, query_param_widths, top_crates, REPORT_UNIT};
pub use scan::{Checkout, Entry, ScanError};
pub use size::{get_size, FsNode};

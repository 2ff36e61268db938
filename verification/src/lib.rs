//! Deleted-file recovery for NTFS, FAT32 and exFAT volumes, raw-data carving for
//! everything else, and mounted-filesystem usage.
//!
//! - NTFS: a deleted file's record keeps its name, parent folder, size and data runs until the
//!   record is reused; small files live inside the record itself. Where the runs do not fit in
//!   one record, the attribute list leads to the others. A name that is gone is looked for in
//!   the directory indexes, the entries removed from them included; without one the file is
//!   listed by its record number.
//! - FAT32: the long name, the size and the first cluster remain, the chain does not: the data
//!   is taken to be contiguous, and a file of more than one cluster is marked as such a guess.
//! - exFAT: everything remains but the mark that the file is in use. A file without a chain,
//!   and not recorded as contiguous, is a guess too.
//! - Any other: files are carved out of the raw data, by their contents.

pub mod bytes;
pub mod text;

pub mod model;
pub mod source;
pub mod volume;

pub mod clusters;
pub mod heap;

pub mod exfat;
pub mod fat32;
pub mod walk;

pub mod index;
pub mod kind;
pub mod mft;
pub mod ntfs;
pub mod order;
pub mod resolve;
pub mod runs;

pub mod recover;
pub mod scan;

pub mod carve;
pub mod plan;
pub mod progress;

pub mod cells;
pub mod cli;
pub mod glob;
pub mod mount;
pub mod report;

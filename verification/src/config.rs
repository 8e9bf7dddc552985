//! What a backup is configured with.

use crate::paths::{have_distinct_labels, labels_distinct};
use crate::text::texts;
use vstd::prelude::*;

verus! {

/// The whole configuration.
#[derive(Debug)]
pub struct Config {
    pub paths: BackupPaths,
    pub backup: BackupOptions,
}

/// The include roots and the exclude patterns.
#[derive(Debug)]
pub struct BackupPaths {
    pub includes: Vec<String>,
    pub exclude: Vec<String>,
}

/// The destination root and the retention count.
#[derive(Debug)]
pub struct BackupOptions {
    pub destination: String,
    pub max_versions: Option<u32>,
}

/// A configuration as contracts see it.
pub struct ConfigView {
    pub includes: Seq<Seq<char>>,
    pub exclude: Seq<Seq<char>>,
    pub destination: Seq<char>,
    pub max_versions: Option<u32>,
}

impl View for Config {
    type V = ConfigView;

    open spec fn view(&self) -> ConfigView {
        ConfigView {
            includes: texts(self.paths.includes@),
            exclude: texts(self.paths.exclude@),
            destination: self.backup.destination@,
            max_versions: self.backup.max_versions,
        }
    }
}

impl ConfigView {
    /// How many versions of a file retention keeps: the configured maximum,
    /// and none where no maximum is configured.
    pub open spec fn keep_count(self) -> nat {
        match self.max_versions {
            Some(n) => n as nat,
            None => 0,
        }
    }
}

impl Config {
    /// Whether each configured root can be told from the others by its
    /// label, so that no two roots send their files to one place.
    pub fn has_distinct_roots(&self) -> (distinct: bool)
        ensures
            distinct == labels_distinct(self@.includes),
    {
        have_distinct_labels(&self.paths.includes)
    }

    /// How many versions of a file retention keeps.
    pub fn keep_count(&self) -> (n: u32)
        ensures
            n == self@.keep_count(),
    {
        match self.backup.max_versions {
            Some(n) => n,
            None => 0,
        }
    }
}

} // verus!

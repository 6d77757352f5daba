//! Builders for opening stores and maps, and small shared value types.

use vstd::prelude::*;

verus! {

/// How to recover from unexpected data when opening a store.
#[derive(Debug, Copy, Clone, PartialEq, Eq, Structural)]
pub enum RecoveryStrategy {
    /// Refuse to open and report the corruption.
    Error,
    /// Convert partially written records into gaps and restore an end tag.
    Rollback,
}

/// Options for opening or creating a slab store.
#[derive(Debug, Clone)]
pub struct OpenStoreOptions {
    pub spec_magic: Vec<u8>,
    pub recovery_strategy: RecoveryStrategy,
}

impl OpenStoreOptions {
    /// Expect no specialization magic in the header.
    pub fn no_spec_magic(self) -> (r: OpenStoreOptions)
        ensures
            r.spec_magic@ == Seq::<u8>::empty(),
            r.recovery_strategy == self.recovery_strategy,
    {
        OpenStoreOptions { spec_magic: Vec::new(), recovery_strategy: self.recovery_strategy }
    }

    /// Expect exactly these specialization magic bytes in the header.
    pub fn exact_spec_magic(self, expected: Vec<u8>) -> (r: OpenStoreOptions)
        ensures
            r.spec_magic@ == expected@,
            r.recovery_strategy == self.recovery_strategy,
    {
        OpenStoreOptions { spec_magic: expected, recovery_strategy: self.recovery_strategy }
    }

    /// Choose what happens when the opening scan meets invalid data.
    pub fn recovery_strategy(self, strategy: RecoveryStrategy) -> (r: OpenStoreOptions)
        ensures
            r.spec_magic@ == self.spec_magic@,
            r.recovery_strategy == strategy,
    {
        OpenStoreOptions { spec_magic: self.spec_magic, recovery_strategy: strategy }
    }
}

/// Options for a sorted-string map: the write-buffer threshold and the count
/// of files per level that triggers a merge.
#[derive(Debug, Clone, PartialEq, Eq, Structural)]
pub struct DatabaseOptions {
    pub merge_on_open: bool,
    pub fanout: usize,
    pub memory_threshold: usize,
    pub create: bool,
}

impl DatabaseOptions {
    /// The defaults: fanout six, threshold one hundred and twenty-eight.
    pub fn new() -> (r: DatabaseOptions)
        ensures
            r.fanout == 6,
            r.memory_threshold == 128,
            !r.merge_on_open,
            r.create,
    {
        DatabaseOptions { merge_on_open: false, fanout: 6, memory_threshold: 128, create: true }
    }

    /// Whether to merge all levels when the map is opened.
    pub fn merge(self, merge: bool) -> (r: DatabaseOptions)
        ensures
            r == (DatabaseOptions { merge_on_open: merge, ..self }),
    {
        DatabaseOptions { merge_on_open: merge, ..self }
    }

    /// Whether a missing map may be created rather than reported.
    pub fn create(self, create: bool) -> (r: DatabaseOptions)
        ensures
            r == (DatabaseOptions { create, ..self }),
    {
        DatabaseOptions { create, ..self }
    }

    /// How many files of one level trigger a merge; at least two.
    pub fn fanout(self, fanout: usize) -> (r: DatabaseOptions)
        ensures
            r.fanout == (if fanout >= 2 { fanout } else { 2 }),
            r.memory_threshold == self.memory_threshold,
            r.merge_on_open == self.merge_on_open,
            r.create == self.create,
    {
        let f: usize = if fanout >= 2 { fanout } else { 2 };
        DatabaseOptions { fanout: f, ..self }
    }

    /// How many entries the write buffer holds before a flush; at least
    /// sixteen.
    pub fn write_threshold(self, threshold: usize) -> (r: DatabaseOptions)
        ensures
            r.memory_threshold == (if threshold >= 16 { threshold } else { 16 }),
            r.fanout == self.fanout,
            r.merge_on_open == self.merge_on_open,
            r.create == self.create,
    {
        let t: usize = if threshold >= 16 { threshold } else { 16 };
        DatabaseOptions { memory_threshold: t, ..self }
    }
}

/// An identifier of one stored object in a content-addressed store.
#[derive(Debug, Copy, Clone, Eq, PartialEq, Structural)]
pub struct ObjectId(pub u64);

/// Size classes of benchmark records.
#[derive(Debug, Copy, Clone, Eq, PartialEq, Structural)]
pub enum Size {
    Tiny,
    Small,
    Medium,
    Large,
    Huge,
    Colossal,
}

impl Size {
    /// The inclusive range of byte lengths this class covers.
    pub fn range(self) -> (r: (u16, u16))
        ensures
            r.0 <= r.1,
    {
        match self {
            Size::Tiny => (0, 7),
            Size::Small => (8, 127),
            Size::Medium => (128, 511),
            Size::Large => (512, 2047),
            Size::Huge => (2048, 8191),
            Size::Colossal => (20480, 65535),
        }
    }
}

/// Which engines a comparison run drives.
#[derive(Debug, Copy, Clone, Eq, PartialEq, Structural)]
pub enum Which {
    Both,
    This,
    Sqlite,
}

impl Which {
    /// This library's engine is part of the run.
    pub fn this(self) -> (r: bool)
        ensures
            r == (self == Which::Both || self == Which::This),
    {
        match self {
            Which::Both => true,
            Which::This => true,
            Which::Sqlite => false,
        }
    }

    /// The reference engine is part of the run.
    pub fn sqlite(self) -> (r: bool)
        ensures
            r == (self == Which::Both || self == Which::Sqlite),
    {
        match self {
            Which::Both => true,
            Which::Sqlite => true,
            Which::This => false,
        }
    }
}

} // verus!

//! The records of the metadata store, the tasks carried by the move and
//! retry queues, and the per-file facts a scan pass observes.

use vstd::prelude::*;
use vstd::string::{StrSliceExecFns, StringExecFns};
use crate::paths::KeyView;
use crate::tier::Tier;

verus! {

/// What the store remembers about one file. Times are wall-clock seconds
/// since the epoch; `access_count` counts the scan passes that saw the file,
/// not raw reads.
#[derive(Clone, Copy, Debug, PartialEq, Eq)]
pub struct FileMetadata {
    pub last_access_time: u64,
    pub access_count: u64,
    pub file_size: u64,
    pub tier: Tier,
    pub last_tier_move: Option<u64>,
}

impl FileMetadata {
    /// A record present in the store has been seen at least once.
    pub open spec fn wf(self) -> bool {
        self.access_count >= 1
    }

    /// The record for a file the scan sees for the first time.
    pub open spec fn spec_fresh(tier: Tier, atime: u64, size: u64) -> FileMetadata {
        FileMetadata {
            last_access_time: atime,
            access_count: 1,
            file_size: size,
            tier,
            last_tier_move: None,
        }
    }

    pub fn fresh(tier: Tier, atime: u64, size: u64) -> (r: FileMetadata)
        ensures
            r == FileMetadata::spec_fresh(tier, atime, size),
    {
        FileMetadata {
            last_access_time: atime,
            access_count: 1,
            file_size: size,
            tier,
            last_tier_move: None,
        }
    }

    /// The record after a scan pass sees the file again: the access time
    /// becomes the larger of the stored and the observed one, the pass count
    /// goes up by one (and stays put at its ceiling), and the size is the
    /// one just observed.
    pub open spec fn spec_scanned(self, atime: u64, size: u64) -> FileMetadata {
        FileMetadata {
            last_access_time: if self.last_access_time >= atime {
                self.last_access_time
            } else {
                atime
            },
            access_count: if self.access_count == u64::MAX {
                u64::MAX
            } else {
                (self.access_count + 1) as u64
            },
            file_size: size,
            tier: self.tier,
            last_tier_move: self.last_tier_move,
        }
    }

    pub fn scanned(self, atime: u64, size: u64) -> (r: FileMetadata)
        ensures
            r == self.spec_scanned(atime, size),
    {
        FileMetadata {
            last_access_time: if self.last_access_time >= atime {
                self.last_access_time
            } else {
                atime
            },
            access_count: if self.access_count == u64::MAX {
                u64::MAX
            } else {
                self.access_count + 1
            },
            file_size: size,
            tier: self.tier,
            last_tier_move: self.last_tier_move,
        }
    }

    /// The record after the file was moved to `target` at time `now`:
    /// access statistics and size are preserved.
    pub open spec fn spec_moved(self, target: Tier, now: u64) -> FileMetadata {
        FileMetadata {
            last_access_time: self.last_access_time,
            access_count: self.access_count,
            file_size: self.file_size,
            tier: target,
            last_tier_move: Some(now),
        }
    }

    pub fn moved(self, target: Tier, now: u64) -> (r: FileMetadata)
        ensures
            r == self.spec_moved(target, now),
    {
        FileMetadata {
            last_access_time: self.last_access_time,
            access_count: self.access_count,
            file_size: self.file_size,
            tier: target,
            last_tier_move: Some(now),
        }
    }

}

/// A unit of work for the movers: copy `src` from `source_tier` to
/// `target_tier` and drop the source on success.
pub struct FileMoveInfo {
    /// Path of the file relative to its tier root.
    pub src: String,
    pub source_tier: Tier,
    pub target_tier: Tier,
    pub retries: u32,
}

/// The mathematical value of a [`FileMoveInfo`].
#[verifier::ext_equal]
pub struct TaskView {
    pub src: Seq<char>,
    pub source_tier: Tier,
    pub target_tier: Tier,
    pub retries: u32,
}

impl View for FileMoveInfo {
    type V = TaskView;

    open spec fn view(&self) -> TaskView {
        TaskView {
            src: self.src@,
            source_tier: self.source_tier,
            target_tier: self.target_tier,
            retries: self.retries,
        }
    }
}

impl Clone for FileMoveInfo {
    fn clone(&self) -> (r: FileMoveInfo)
        ensures
            r@ == self@,
    {
        FileMoveInfo {
            src: self.src.clone(),
            source_tier: self.source_tier,
            target_tier: self.target_tier,
            retries: self.retries,
        }
    }
}

impl TaskView {
    /// The key of the file the task would move.
    pub open spec fn source_key(self) -> KeyView {
        KeyView { tier: self.source_tier, rel: self.src }
    }

    /// The key the file carries once the task has succeeded.
    pub open spec fn target_key(self) -> KeyView {
        KeyView { tier: self.target_tier, rel: self.src }
    }
}

impl FileMoveInfo {
    pub fn new(src: String, source_tier: Tier, target_tier: Tier) -> (r: FileMoveInfo)
        ensures
            r@ == (TaskView { src: src@, source_tier, target_tier, retries: 0 }),
    {
        FileMoveInfo { src, source_tier, target_tier, retries: 0 }
    }

    /// Where the file sits before the move, below the union root.
    pub fn source_path(&self, union_root: &str) -> (r: String)
        ensures
            r@ == union_root@ + "/"@ + crate::paths::spec_tier_name(self.source_tier) + "/"@
                + self.src@,
    {
        let key = crate::paths::FileKey { tier: self.source_tier, rel: self.src.clone() };
        let mut s = union_root.to_owned();
        s.append("/");
        let kp = key.path();
        s.append(kp.as_str());
        proof {
            assert(s@ =~= union_root@ + "/"@ + crate::paths::spec_tier_name(self.source_tier)
                + "/"@ + self.src@);
        }
        s
    }

    /// Where the move puts the file, below the union root.
    pub fn target_path(&self, union_root: &str) -> (r: String)
        ensures
            r@ == union_root@ + "/"@ + crate::paths::spec_tier_name(self.target_tier) + "/"@
                + self.src@,
    {
        let key = crate::paths::FileKey { tier: self.target_tier, rel: self.src.clone() };
        let mut s = union_root.to_owned();
        s.append("/");
        let kp = key.path();
        s.append(kp.as_str());
        proof {
            assert(s@ =~= union_root@ + "/"@ + crate::paths::spec_tier_name(self.target_tier)
                + "/"@ + self.src@);
        }
        s
    }

    /// The task handed back by a mover after one more failed attempt.
    pub fn retried(&self) -> (r: FileMoveInfo)
        requires
            self.retries < u32::MAX,
        ensures
            r@ == (TaskView { retries: (self.retries + 1) as u32, ..self@ }),
    {
        FileMoveInfo {
            src: self.src.clone(),
            source_tier: self.source_tier,
            target_tier: self.target_tier,
            retries: self.retries + 1,
        }
    }
}

/// One regular file as a walk over a tier root reports it: the tier root it
/// was found under, its path relative to that root, and its stat data.
pub struct Observation {
    pub tier: Tier,
    pub rel: String,
    pub atime: u64,
    pub size: u64,
}

/// The mathematical value of an [`Observation`].
#[verifier::ext_equal]
pub struct ObsView {
    pub tier: Tier,
    pub rel: Seq<char>,
    pub atime: u64,
    pub size: u64,
}

impl View for Observation {
    type V = ObsView;

    open spec fn view(&self) -> ObsView {
        ObsView { tier: self.tier, rel: self.rel@, atime: self.atime, size: self.size }
    }
}

impl ObsView {
    /// The store key the observed file is filed under.
    pub open spec fn key(self) -> KeyView {
        KeyView { tier: self.tier, rel: self.rel }
    }
}

impl Observation {
    pub fn new(tier: Tier, rel: String, atime: u64, size: u64) -> (r: Observation)
        ensures
            r@ == (ObsView { tier, rel: rel@, atime, size }),
    {
        Observation { tier, rel, atime, size }
    }

    pub fn key(&self) -> (k: crate::paths::FileKey)
        ensures
            k@ == self@.key(),
    {
        crate::paths::FileKey { tier: self.tier, rel: self.rel.clone() }
    }
}

} // verus!

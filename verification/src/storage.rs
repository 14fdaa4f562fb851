//! Where a group's schedule is stored: one deterministically named file
//! per group under a root directory, or one deterministically derived key
//! per group in a shared key-value store. The reads and writes themselves
//! are the caller's; this module fixes the names, and the codec fixes
//! what the stored bytes mean.

use vstd::prelude::*;
use vstd::string::StringExecFns;

verus! {

/// The file-per-group layout: everything lives under one root directory.
pub struct FsStorage {
    pub root: String,
}

impl FsStorage {
    pub fn new(root: String) -> (s: FsStorage)
        ensures
            s.root@ == root@,
    {
        FsStorage { root }
    }

    /// The path of one group's schedule file under the root.
    pub fn schedule_path(&self, guild: &str) -> (p: String)
        ensures
            p@ == self.root@ + "/schedule_"@ + guild@ + ".json"@,
    {
        let mut p: String = self.root.clone();
        p.append("/schedule_");
        p.append(guild);
        p.append(".json");
        p
    }
}

/// The key of one group's schedule in the key-value store.
pub fn redis_key(guild: &str) -> (k: String)
    ensures
        k@ == "schedule:"@ + guild@,
{
    let mut k: String = String::new();
    k.append("schedule:");
    k.append(guild);
    k
}

} // verus!

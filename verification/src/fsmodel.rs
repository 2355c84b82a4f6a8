//! The directory snapshot the engine works over. The caller walks a tree
//! once and hands the engine one entry per file it saw: the path, whether
//! it is a symlink and where the link leads, and — for candidate sidecar
//! files — the bytes that were read. The engine itself never touches the
//! file system.

use vstd::prelude::*;

verus! {

/// One file the walk saw. `content` carries the file's bytes where the
/// caller read them (sidecar candidates); `None` stands for a file that
/// was not read or could not be read.
pub struct FsEntry {
    pub path: String,
    pub is_file: bool,
    pub is_symlink: bool,
    pub symlink_target: Option<String>,
    pub target_exists: bool,
    pub content: Option<Vec<u8>>,
}

/// A snapshot: the entries of one walk, in walk order.
pub struct FsSnapshot {
    pub entries: Vec<FsEntry>,
}

/// Index of the first entry with the given path, or -1.
pub open spec fn idx_of_path(es: Seq<FsEntry>, p: Seq<char>) -> int
    decreases es.len(),
{
    if es.len() == 0 {
        -1
    } else if es[0].path@ == p {
        0
    } else {
        let r = idx_of_path(es.drop_first(), p);
        if r < 0 {
            -1
        } else {
            r + 1
        }
    }
}

/// Whether the snapshot holds an entry for a path: the model of "this
/// path exists on disk".
pub open spec fn has_path(es: Seq<FsEntry>, p: Seq<char>) -> bool {
    idx_of_path(es, p) >= 0
}

/// The entry a path designates (meaningful when `has_path` holds).
pub open spec fn entry_at(es: Seq<FsEntry>, p: Seq<char>) -> FsEntry {
    es[idx_of_path(es, p)]
}

/// The first-match index is in range, holds the path, and nothing before
/// it does.
pub proof fn lemma_idx_of_path(es: Seq<FsEntry>, p: Seq<char>)
    ensures
        idx_of_path(es, p) == -1 ==> forall|j: int|
            0 <= j < es.len() ==> #[trigger] es[j].path@ != p,
        idx_of_path(es, p) >= 0 ==> 0 <= idx_of_path(es, p) < es.len() && es[idx_of_path(es,
            p)].path@ == p,
    decreases es.len(),
{
    if es.len() > 0 && es[0].path@ != p {
        let t = es.drop_first();
        lemma_idx_of_path(t, p);
        assert forall|j: int| 1 <= j < es.len() implies #[trigger] es[j] == t[j - 1] by {
            assert(t[j - 1] == es[j]);
        }
        if idx_of_path(t, p) < 0 {
            assert forall|j: int| 0 <= j < es.len() implies #[trigger] es[j].path@ != p by {
                if j >= 1 {
                    assert(t[j - 1].path@ != p);
                }
            }
        }
    }
}

/// A position that holds the path, with no earlier one, is the
/// first-match index.
pub proof fn lemma_idx_of_path_witness(es: Seq<FsEntry>, p: Seq<char>, i: int)
    requires
        0 <= i < es.len(),
        es[i].path@ == p,
        forall|j: int| 0 <= j < i ==> #[trigger] es[j].path@ != p,
    ensures
        idx_of_path(es, p) == i,
    decreases es.len(),
{
    if i > 0 {
        lemma_idx_of_path_witness(es.drop_first(), p, i - 1);
    }
}

/// A path that some entry holds is present.
pub proof fn lemma_has_path_of_entry(es: Seq<FsEntry>, j: int)
    requires
        0 <= j < es.len(),
    ensures
        has_path(es, es[j].path@),
    decreases es.len(),
{
    if es.len() > 0 && es[0].path@ != es[j].path@ {
        let t = es.drop_first();
        assert(t[j - 1] == es[j]);
        lemma_has_path_of_entry(t, j - 1);
    }
}

impl FsSnapshot {
    /// The entry of a path, if the snapshot holds one.
    pub fn find_entry<'a>(&'a self, path: &str) -> (r: Option<&'a FsEntry>)
        ensures
            match r {
                Some(e) => has_path(self.entries@, path@) && *e == entry_at(self.entries@,
                    path@),
                None => !has_path(self.entries@, path@),
            },
    {
        let n = self.entries.len();
        let mut i: usize = 0;
        while i < n
            invariant
                n == self.entries@.len(),
                i <= n,
                forall|j: int| 0 <= j < i ==> #[trigger] self.entries@[j].path@ != path@,
            decreases n - i,
        {
            if crate::strutil::str_eq(self.entries[i].path.as_str(), path) {
                proof {
                    lemma_idx_of_path_witness(self.entries@, path@, i as int);
                }
                return Some(&self.entries[i]);
            }
            i = i + 1;
        }
        proof {
            lemma_idx_of_path(self.entries@, path@);
            if idx_of_path(self.entries@, path@) >= 0 {
                assert(self.entries@[idx_of_path(self.entries@, path@)].path@ == path@);
                assert(false);
            }
        }
        None
    }

    /// Whether the snapshot holds a path at all.
    pub fn contains_path(&self, path: &str) -> (r: bool)
        ensures
            r == has_path(self.entries@, path@),
    {
        match self.find_entry(path) {
            Some(_) => true,
            None => false,
        }
    }
}

} // verus!

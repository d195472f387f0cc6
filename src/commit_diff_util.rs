use vstd::prelude::*;
use vstd::string::StringExecFns;

use crate::ids::CommitId;

verus! {

/// A file that a commit touched: its path after and before the commit.
pub struct ListCommitDiffFileEntry {
    pub new_file_path: Option<String>,
    pub old_file_path: Option<String>,
}

/// The files that a commit changed against its first parent.
pub struct ListCommitDiffResult {
    pub current_oid: CommitId,
    pub parent_oid: CommitId,
    pub files: Vec<ListCommitDiffFileEntry>,
}

/// How a file entry is shown: `old -> new` for a move, else the new path,
/// and nothing for a file that no longer exists.
pub open spec fn file_move_text(new_path: Option<Seq<char>>, old_path: Option<Seq<char>>) -> Seq<char> {
    match new_path {
        Some(n) => match old_path {
            Some(o) => if o != n {
                o + seq![' ', '-', '>', ' '] + n
            } else {
                n
            },
            None => n,
        },
        None => Seq::empty(),
    }
}

pub open spec fn path_view(p: Option<String>) -> Option<Seq<char>> {
    match p {
        Some(s) => Some(s@),
        None => None,
    }
}

impl ListCommitDiffFileEntry {
    pub fn format_file_move(&self) -> (r: String)
        ensures
            r@ == file_move_text(path_view(self.new_file_path), path_view(self.old_file_path)),
    {
        if let Some(new_file) = &self.new_file_path {
            if let Some(old_file) = &self.old_file_path {
                if !new_file.eq(old_file) {
                    let mut r = old_file.clone();
                    proof {
                        reveal_strlit(" -> ");
                    }
                    r.append(" -> ");
                    r.append(new_file.as_str());
                    return r;
                }
            }
            return new_file.clone();
        }
        String::new()
    }
}

} // verus!

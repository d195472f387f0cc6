use vstd::prelude::*;
use vstd::string::StringExecFns;

verus! {

/// Where the repository to work on lies.
pub struct RepositoryManager {
    work_dir_path: String,
}

impl View for RepositoryManager {
    type V = Seq<char>;

    closed spec fn view(&self) -> Seq<char> {
        self.work_dir_path@
    }
}

impl RepositoryManager {
    /// A manager whose path is not set yet (empty).
    pub fn new() -> (r: RepositoryManager)
        ensures
            r@ == Seq::<char>::empty(),
    {
        RepositoryManager { work_dir_path: String::new() }
    }

    pub fn set_work_dir_path(&mut self, work_dir_path: &str)
        ensures
            final(self)@ == work_dir_path@,
    {
        self.work_dir_path = String::from_str(work_dir_path);
    }

    /// The path from which the repository is discovered.
    pub fn work_dir_path(&self) -> (r: &str)
        ensures
            r@ == self@,
    {
        self.work_dir_path.as_str()
    }
}

} // verus!

use vstd::prelude::*;

use crate::ids::CommitId;

verus! {

/// One reference as the repository enumerates it: its short name and the
/// commit it points at, where it has them.
pub struct RefRecord {
    pub shorthand: Option<String>,
    pub target: Option<CommitId>,
}

pub open spec fn ref_view(r: RefRecord) -> (Option<Seq<char>>, Option<Seq<char>>) {
    (
        match r.shorthand {
            Some(s) => Some(s@),
            None => None,
        },
        match r.target {
            Some(t) => Some(t@),
            None => None,
        },
    )
}

/// The references that name a commit, as (commit, name) pairs, in order.
pub open spec fn complete_entries(refs: Seq<(Option<Seq<char>>, Option<Seq<char>>)>) -> Seq<
    (Seq<char>, Seq<char>),
>
    decreases refs.len(),
{
    if refs.len() == 0 {
        Seq::empty()
    } else {
        let rest = complete_entries(refs.drop_last());
        let (name, target) = refs.last();
        if name is Some && target is Some {
            rest.push((target->0, name->0))
        } else {
            rest
        }
    }
}

/// The names of the entries that point at `oid`, in order.
pub open spec fn names_for(entries: Seq<(Seq<char>, Seq<char>)>, oid: Seq<char>) -> Seq<Seq<char>>
    decreases entries.len(),
{
    if entries.len() == 0 {
        Seq::empty()
    } else {
        let rest = names_for(entries.drop_last(), oid);
        if entries.last().0 == oid {
            rest.push(entries.last().1)
        } else {
            rest
        }
    }
}

/// Which reference names point at which commit.
pub struct RefTable {
    oid_table: Vec<(CommitId, String)>,
}

impl View for RefTable {
    type V = Seq<(Seq<char>, Seq<char>)>;

    closed spec fn view(&self) -> Seq<(Seq<char>, Seq<char>)> {
        self.oid_table@.map_values(|e: (CommitId, String)| (e.0@, e.1@))
    }
}

impl RefTable {
    /// The table of the references in enumeration order; one without a
    /// target or a short name is left out.
    pub fn collect(refs: &Vec<RefRecord>) -> (r: RefTable)
        ensures
            r@ == complete_entries(refs@.map_values(|x: RefRecord| ref_view(x))),
    {
        let ghost all = refs@.map_values(|x: RefRecord| ref_view(x));
        let mut table: Vec<(CommitId, String)> = Vec::new();
        let mut i: usize = 0;
        while i < refs.len()
            invariant
                i <= refs@.len(),
                all == refs@.map_values(|x: RefRecord| ref_view(x)),
                table@.map_values(|e: (CommitId, String)| (e.0@, e.1@)) == complete_entries(
                    all.take(i as int),
                ),
            decreases refs@.len() - i,
        {
            assert(all.take(i + 1).drop_last() =~= all.take(i as int));
            let ghost before = table@;
            let r = &refs[i];
            if let Some(target) = &r.target {
                if let Some(shorthand) = &r.shorthand {
                    table.push((target.duplicate(), shorthand.clone()));
                    assert(table@.map_values(|e: (CommitId, String)| (e.0@, e.1@)) =~= before.map_values(
                        |e: (CommitId, String)| (e.0@, e.1@),
                    ).push((target@, shorthand@)));
                }
            }
            i += 1;
        }
        assert(all.take(i as int) =~= all);
        RefTable { oid_table: table }
    }

    /// The names of the references that point at `oid`, in enumeration order;
    /// empty where none does.
    pub fn get_names_for_oid(&self, oid: &CommitId) -> (r: Vec<String>)
        ensures
            r@.map_values(|s: String| s@) == names_for(self@, oid@),
    {
        let ghost entries = self@;
        let mut names: Vec<String> = Vec::new();
        let mut i: usize = 0;
        while i < self.oid_table.len()
            invariant
                i <= self.oid_table@.len(),
                entries == self@,
                names@.map_values(|s: String| s@) == names_for(entries.take(i as int), oid@),
            decreases self.oid_table@.len() - i,
        {
            assert(entries.take(i + 1).drop_last() =~= entries.take(i as int));
            let ghost before = names@;
            let entry = &self.oid_table[i];
            if entry.0.same_as(oid) {
                names.push(entry.1.clone());
                assert(names@.map_values(|s: String| s@) =~= before.map_values(|s: String| s@).push(
                    entry.1@,
                ));
            }
            i += 1;
        }
        assert(entries.take(i as int) =~= entries);
        names
    }
}

} // verus!

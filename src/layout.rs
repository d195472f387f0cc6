use vstd::prelude::*;

use crate::allocator::{
    acquire, assign_track, initial_alloc, lemma_filter_push, register, take_or_acquire, vacuum,
    AllocModel,
};

verus! {

/// One row of a station's lane table, as mathematics.
pub struct RowModel {
    pub line: nat,
    pub track: nat,
    pub active: bool,
    pub from_tracks: Seq<nat>,
    pub to_lines: Seq<nat>,
    pub to_tracks: Seq<nat>,
}

/// What the layout reads of a commit: its identifier and its parents in order.
pub struct CommitModel {
    pub oid: Seq<char>,
    pub parents: Seq<Seq<char>>,
}

/// The traversal after some commits: the allocator and the rows of each station.
pub struct WalkModel {
    pub alloc: AllocModel,
    pub stations: Seq<Seq<RowModel>>,
}

/// Decide the line of one parent. `free` says that no parent has yet continued
/// the commit's own line.
pub open spec fn parent_step(s: AllocModel, active: nat, free: bool, parent: Seq<char>) -> (
    AllocModel,
    nat,
    bool,
) {
    if s.pending.contains_key(parent) {
        let (s1, line) = take_or_acquire(s, parent);
        (register(s1, line, parent), line, free)
    } else if free {
        (register(s, active, parent), active, false)
    } else {
        let (s1, line) = take_or_acquire(s, parent);
        (register(s1, line, parent), line, free)
    }
}

/// Decide the lines of the parents, in parent order.
pub open spec fn parents_fold(s: AllocModel, active: nat, parents: Seq<Seq<char>>) -> (
    AllocModel,
    Seq<nat>,
    bool,
)
    decreases parents.len(),
{
    if parents.len() == 0 {
        (s, Seq::empty(), true)
    } else {
        let (s1, lines, free) = parents_fold(s, active, parents.drop_last());
        let (s2, line, free2) = parent_step(s1, active, free, parents.last());
        (s2, lines.push(line), free2)
    }
}

/// Every line that some row of a station hands on downward.
pub open spec fn to_line_set(rows: Seq<RowModel>) -> Set<nat> {
    Set::new(
        |n: nat|
            exists|a: int, b: int|
                0 <= a < rows.len() && 0 <= b < rows[a].to_lines.len() && (
                #[trigger] rows[a].to_lines[b]) == n,
    )
}

/// The row on track `t`: lines in `keep` continue from the station above.
pub open spec fn row_at(lines: Seq<nat>, keep: Set<nat>, active: nat, active_to: Seq<nat>, t: int) -> RowModel {
    let line = lines[t];
    let continued = keep.contains(line);
    RowModel {
        line,
        track: t as nat,
        active: line == active,
        from_tracks: if continued {
            seq![t as nat]
        } else {
            Seq::empty()
        },
        to_lines: if line == active {
            active_to
        } else if continued {
            seq![line]
        } else {
            Seq::empty()
        },
        to_tracks: Seq::empty(),
    }
}

pub open spec fn build_rows(lines: Seq<nat>, keep: Set<nat>, active: nat, active_to: Seq<nat>) -> Seq<RowModel> {
    Seq::new(lines.len(), |t: int| row_at(lines, keep, active, active_to, t))
}

/// A row whose downward connectors now name the tracks of the next station.
pub open spec fn with_to_tracks(row: RowModel, lines: Seq<nat>) -> RowModel {
    RowModel {
        line: row.line,
        track: row.track,
        active: row.active,
        from_tracks: row.from_tracks,
        to_lines: row.to_lines,
        to_tracks: row.to_lines.map_values(|l: nat| lines.index_of(l) as nat),
    }
}

pub open spec fn resolve_to_tracks(rows: Seq<RowModel>, lines: Seq<nat>) -> Seq<RowModel> {
    rows.map_values(|r: RowModel| with_to_tracks(r, lines))
}

/// The lines that the last station hands on; none before the first station.
pub open spec fn previous_keep(w: WalkModel) -> Set<nat> {
    if w.stations.len() > 0 {
        to_line_set(w.stations.last())
    } else {
        Set::empty()
    }
}

/// The allocator once the lines that ended at the last station are retired.
pub open spec fn settled(w: WalkModel) -> AllocModel {
    if w.stations.len() > 0 {
        vacuum(w.alloc, previous_keep(w))
    } else {
        w.alloc
    }
}

/// The line of the commit itself.
pub open spec fn active_line(w: WalkModel, c: CommitModel) -> nat {
    take_or_acquire(settled(w), c.oid).1
}

/// The lines that the commit hands on to its parents, in parent order.
pub open spec fn active_to_lines(w: WalkModel, c: CommitModel) -> Seq<nat> {
    let (s1, active) = take_or_acquire(settled(w), c.oid);
    parents_fold(s1, active, c.parents).1
}

/// Process one commit: settle the allocator, give the last station its
/// downward tracks, resolve the commit and its parents, and add its station.
pub open spec fn walk_step(w: WalkModel, c: CommitModel) -> WalkModel {
    let keep = previous_keep(w);
    let s0 = settled(w);
    let earlier = if w.stations.len() > 0 {
        w.stations.update(w.stations.len() - 1, resolve_to_tracks(w.stations.last(), s0.lines))
    } else {
        w.stations
    };
    let (s1, active) = take_or_acquire(s0, c.oid);
    let (s2, active_to, _free) = parents_fold(s1, active, c.parents);
    WalkModel { alloc: s2, stations: earlier.push(build_rows(s2.lines, keep, active, active_to)) }
}

pub open spec fn initial_walk() -> WalkModel {
    WalkModel { alloc: initial_alloc(), stations: Seq::empty() }
}

/// The traversal over commits given newest first.
pub open spec fn walk(commits: Seq<CommitModel>) -> WalkModel
    decreases commits.len(),
{
    if commits.len() == 0 {
        initial_walk()
    } else {
        walk_step(walk(commits.drop_last()), commits.last())
    }
}

/// How many lines a traversal may open at most: one per commit and one per
/// parent link.
pub open spec fn link_count(commits: Seq<CommitModel>) -> nat
    decreases commits.len(),
{
    if commits.len() == 0 {
        0
    } else {
        link_count(commits.drop_last()) + 1 + commits.last().parents.len()
    }
}

/// `a` starts with `b`.
pub open spec fn extends(a: Seq<nat>, b: Seq<nat>) -> bool {
    b.len() <= a.len() && forall|i: int| 0 <= i < b.len() ==> a[i] == b[i]
}

/// What holds after every step of a traversal.
pub open spec fn walk_inv(w: WalkModel) -> bool {
    &&& w.alloc.lines.no_duplicates()
    &&& w.stations.len() > 0 ==> forall|n: nat| #[trigger]
        to_line_set(w.stations.last()).contains(n) ==> w.alloc.lines.contains(n)
    &&& w.stations.len() == 0 ==> w.alloc.lines.len() == 0
}

pub proof fn lemma_take_or_acquire(s: AllocModel, oid: Seq<char>)
    ensures
        take_or_acquire(s, oid).0.lines.contains(take_or_acquire(s, oid).1),
        extends(take_or_acquire(s, oid).0.lines, s.lines),
        s.lines.no_duplicates() ==> take_or_acquire(s, oid).0.lines.no_duplicates(),
        s.next <= take_or_acquire(s, oid).0.next <= s.next + 1,
{
    let (s1, line) = take_or_acquire(s, oid);
    let mid = if s.pending.contains_key(oid) {
        AllocModel { next: s.next, pending: s.pending.remove(oid), lines: s.lines }
    } else {
        acquire(s).0
    };
    if !mid.lines.contains(line) {
        assert(s1.lines[s.lines.len() as int] == line);
        if s.lines.no_duplicates() {
            assert forall|i: int, j: int|
                0 <= i < s1.lines.len() && 0 <= j < s1.lines.len() && i != j implies s1.lines[i]
                != s1.lines[j] by {
                if i == s.lines.len() {
                    assert(s1.lines[j] == s.lines[j]);
                } else if j == s.lines.len() {
                    assert(s1.lines[i] == s.lines[i]);
                }
            }
        }
    }
}

pub proof fn lemma_parents_fold(s: AllocModel, active: nat, parents: Seq<Seq<char>>)
    requires
        s.lines.contains(active),
    ensures
        extends(parents_fold(s, active, parents).0.lines, s.lines),
        s.lines.no_duplicates() ==> parents_fold(s, active, parents).0.lines.no_duplicates(),
        parents_fold(s, active, parents).1.len() == parents.len(),
        forall|i: int|
            0 <= i < parents.len() ==> parents_fold(s, active, parents).0.lines.contains(
                #[trigger] parents_fold(s, active, parents).1[i],
            ),
        s.next <= parents_fold(s, active, parents).0.next <= s.next + parents.len(),
    decreases parents.len(),
{
    if parents.len() > 0 {
        let (s1, lines, free) = parents_fold(s, active, parents.drop_last());
        lemma_parents_fold(s, active, parents.drop_last());
        let p = parents.last();
        let (s2, line, free2) = parent_step(s1, active, free, p);
        assert(s1.lines.contains(active)) by {
            let k = choose|k: int| 0 <= k < s.lines.len() && s.lines[k] == active;
            assert(s1.lines[k] == active);
        }
        lemma_take_or_acquire(s1, p);
        let r = parents_fold(s, active, parents);
        assert(r.0 == s2 && r.1 == lines.push(line));
        assert forall|i: int| 0 <= i < parents.len() implies r.0.lines.contains(#[trigger] r.1[i]) by {
            if i < parents.len() - 1 {
                assert(r.1[i] == lines[i]);
                assert(s1.lines.contains(lines[i]));
                let k = choose|k: int| 0 <= k < s1.lines.len() && s1.lines[k] == lines[i];
                assert(s2.lines[k] == lines[i]);
            }
        }
    }
}

/// With distinct parents, each parent awaits, after the fold, the line
/// handed to it at its position.
pub proof fn lemma_parents_fold_pending(s: AllocModel, active: nat, parents: Seq<Seq<char>>)
    requires
        parents.no_duplicates(),
    ensures
        parents_fold(s, active, parents).1.len() == parents.len(),
        forall|i: int|
            0 <= i < parents.len() ==> parents_fold(s, active, parents).0.pending.contains_key(
                #[trigger] parents[i],
            ) && parents_fold(s, active, parents).0.pending[parents[i]] == parents_fold(
                s,
                active,
                parents,
            ).1[i],
    decreases parents.len(),
{
    if parents.len() > 0 {
        let dl = parents.drop_last();
        assert(dl.no_duplicates()) by {
            assert forall|i: int, j: int| 0 <= i < dl.len() && 0 <= j < dl.len() && i != j implies dl[i]
                != dl[j] by {
                assert(dl[i] == parents[i] && dl[j] == parents[j]);
            }
        }
        lemma_parents_fold_pending(s, active, dl);
        let (s1, lines, free) = parents_fold(s, active, dl);
        let p = parents.last();
        let r = parents_fold(s, active, parents);
        assert forall|i: int| 0 <= i < parents.len() implies r.0.pending.contains_key(#[trigger] parents[i])
            && r.0.pending[parents[i]] == r.1[i] by {
            if i < parents.len() - 1 {
                assert(parents[i] == dl[i]);
                assert(parents[i] != p);
            }
        }
    }
}

pub proof fn lemma_filter_no_dup(s: Seq<nat>, p: spec_fn(nat) -> bool)
    requires
        s.no_duplicates(),
    ensures
        s.filter(p).no_duplicates(),
        forall|x: nat| #[trigger] s.filter(p).contains(x) ==> s.contains(x),
        forall|x: nat| s.contains(x) && p(x) ==> #[trigger] s.filter(p).contains(x),
    decreases s.len(),
{
    if s.len() > 0 {
        let rest = s.drop_last();
        assert(rest.push(s.last()) =~= s);
        lemma_filter_push(rest, s.last(), p);
        lemma_filter_no_dup(rest, p);
        let f = s.filter(p);
        let fr = rest.filter(p);
        assert(!rest.contains(s.last()));
        assert forall|x: nat| f.contains(x) implies s.contains(x) by {
            if x != s.last() {
                let k = choose|k: int| 0 <= k < f.len() && f[k] == x;
                assert(fr[k] == x);
                assert(fr.contains(x));
                assert(rest.contains(x));
                let j = choose|j: int| 0 <= j < rest.len() && rest[j] == x;
                assert(s[j] == x);
            } else {
                assert(s[s.len() - 1] == x);
            }
        }
        assert forall|x: nat| s.contains(x) && p(x) implies f.contains(x) by {
            let j = choose|j: int| 0 <= j < s.len() && s[j] == x;
            if j < s.len() - 1 {
                assert(rest[j] == x);
                assert(rest.contains(x));
                assert(fr.contains(x));
                let k = choose|k: int| 0 <= k < fr.len() && fr[k] == x;
                assert(f[k] == x);
            } else {
                assert(f[f.len() - 1] == x);
            }
        }
        if p(s.last()) {
            assert forall|i: int, j: int|
                0 <= i < f.len() && 0 <= j < f.len() && i != j implies f[i] != f[j] by {
                if i == f.len() - 1 {
                    assert(fr.contains(f[j]));
                } else if j == f.len() - 1 {
                    assert(fr.contains(f[i]));
                }
            }
        }
    }
}

pub proof fn lemma_walk_step(w: WalkModel, c: CommitModel)
    requires
        walk_inv(w),
    ensures
        walk_inv(walk_step(w, c)),
        walk_step(w, c).alloc.lines.contains(active_line(w, c)),
        settled(w).lines.no_duplicates(),
        forall|n: nat| #[trigger] previous_keep(w).contains(n) ==> settled(w).lines.contains(n),
        forall|n: nat| #[trigger] settled(w).lines.contains(n) ==> previous_keep(w).contains(n),
        extends(walk_step(w, c).alloc.lines, settled(w).lines),
        w.alloc.next <= walk_step(w, c).alloc.next <= w.alloc.next + 1 + c.parents.len(),
{
    let keep = previous_keep(w);
    let s0 = settled(w);
    let pred = |l: nat| keep.contains(l);
    if w.stations.len() > 0 {
        lemma_filter_no_dup(w.alloc.lines, pred);
        assert forall|n: nat| #[trigger] keep.contains(n) implies s0.lines.contains(n) by {
            assert(w.alloc.lines.contains(n));
        }
        assert forall|n: nat| #[trigger] s0.lines.contains(n) implies keep.contains(n) by {
            let k = choose|k: int| 0 <= k < s0.lines.len() && s0.lines[k] == n;
            w.alloc.lines.lemma_filter_pred(pred, k);
        }
    } else {
        assert(s0.lines =~= Seq::empty());
    }
    lemma_take_or_acquire(s0, c.oid);
    let (s1, active) = take_or_acquire(s0, c.oid);
    lemma_parents_fold(s1, active, c.parents);
    let (s2, active_to, free) = parents_fold(s1, active, c.parents);
    let w2 = walk_step(w, c);
    let rows = build_rows(s2.lines, keep, active, active_to);
    assert(w2.stations.last() == rows);
    assert(s2.lines.contains(active)) by {
        let k = choose|k: int| 0 <= k < s1.lines.len() && s1.lines[k] == active;
        assert(s2.lines[k] == active);
    }
    assert forall|n: nat| #[trigger] to_line_set(rows).contains(n) implies s2.lines.contains(n) by {
        let (a, b) = choose|a: int, b: int|
            0 <= a < rows.len() && 0 <= b < rows[a].to_lines.len() && (
            #[trigger] rows[a].to_lines[b]) == n;
        if s2.lines[a] == active {
            assert(rows[a].to_lines == active_to);
            assert(s2.lines.contains(active_to[b]));
        } else {
            assert(rows[a].to_lines[b] == s2.lines[a]);
        }
    }
    assert(extends(s2.lines, s0.lines)) by {
        assert forall|i: int| 0 <= i < s0.lines.len() implies s2.lines[i] == s0.lines[i] by {
            assert(s1.lines[i] == s0.lines[i]);
        }
    }
}

/// The invariant and the bound on issued lines hold after any prefix.
pub proof fn lemma_walk(commits: Seq<CommitModel>)
    ensures
        walk_inv(walk(commits)),
        walk(commits).alloc.next <= link_count(commits),
        walk(commits).stations.len() == commits.len(),
    decreases commits.len(),
{
    if commits.len() == 0 {
        assert(walk(commits).alloc.lines =~= Seq::empty());
    } else {
        lemma_walk(commits.drop_last());
        lemma_walk_step(walk(commits.drop_last()), commits.last());
    }
}

} // verus!

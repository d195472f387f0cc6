use vstd::multiset::Multiset;
use vstd::prelude::*;

use crate::allocator::{lemma_filter_push, take_or_acquire, vacuum, AllocModel};
use crate::layout::{
    active_line, active_to_lines, build_rows, lemma_filter_no_dup, lemma_parents_fold,
    lemma_parents_fold_pending,
    lemma_take_or_acquire, lemma_walk, lemma_walk_step, previous_keep, resolve_to_tracks, settled,
    to_line_set, walk, walk_step, with_to_tracks, CommitModel, RowModel,
};

verus! {

/// Two row tables that differ at most in their downward tracks.
pub open spec fn same_rows(a: Seq<RowModel>, b: Seq<RowModel>) -> bool {
    &&& a.len() == b.len()
    &&& forall|i: int|
        0 <= i < a.len() ==> {
            &&& (#[trigger] a[i]).line == b[i].line
            &&& a[i].track == b[i].track
            &&& a[i].active == b[i].active
            &&& a[i].from_tracks == b[i].from_tracks
            &&& a[i].to_lines == b[i].to_lines
        }
}

/// The walk over the first `n + 1` commits is one step after the walk over `n`.
proof fn lemma_walk_prefix(commits: Seq<CommitModel>, n: int)
    requires
        0 <= n < commits.len(),
    ensures
        walk(commits.take(n + 1)) == walk_step(walk(commits.take(n)), commits[n]),
        walk(commits.take(n)).stations.len() == n,
{
    assert(commits.take(n + 1).drop_last() =~= commits.take(n));
    lemma_walk(commits.take(n));
}

/// The rows of the station of commit `k` as the step that adds it builds them.
pub open spec fn created_rows(commits: Seq<CommitModel>, k: int) -> Seq<RowModel> {
    let w = walk(commits.take(k));
    let c = commits[k];
    build_rows(walk_step(w, c).alloc.lines, previous_keep(w), active_line(w, c), active_to_lines(w, c))
}

proof fn lemma_created(commits: Seq<CommitModel>, k: int)
    requires
        0 <= k < commits.len(),
    ensures
        walk(commits.take(k + 1)).stations[k] == created_rows(commits, k),
{
    lemma_walk_prefix(commits, k);
}

/// Later steps change a station's downward tracks at most.
proof fn lemma_rows_persist(commits: Seq<CommitModel>, k: int)
    requires
        0 <= k < commits.len(),
    ensures
        same_rows(walk(commits).stations[k], created_rows(commits, k)),
    decreases commits.len(),
{
    lemma_created(commits, k);
    if k == commits.len() - 1 {
        assert(commits.take(k + 1) =~= commits);
    } else {
        let dl = commits.drop_last();
        assert(dl.take(k + 1) =~= commits.take(k + 1));
        assert(dl.take(k) =~= commits.take(k));
        assert(dl[k] == commits[k]);
        lemma_rows_persist(dl, k);
        lemma_walk(dl);
        let prev = walk(dl).stations[k];
        let now = walk(commits).stations[k];
        if k == dl.len() - 1 {
            assert(now == resolve_to_tracks(prev, settled(walk(dl)).lines));
        } else {
            assert(now == prev);
        }
    }
}

/// Once the next commit is placed, a station does not change any more.
proof fn lemma_station_frozen(commits: Seq<CommitModel>, k: int)
    requires
        0 <= k,
        k + 1 < commits.len(),
    ensures
        walk(commits).stations[k] == walk(commits.take(k + 2)).stations[k],
    decreases commits.len(),
{
    if k + 2 == commits.len() {
        assert(commits.take(k + 2) =~= commits);
    } else {
        let dl = commits.drop_last();
        assert(dl.take(k + 2) =~= commits.take(k + 2));
        lemma_station_frozen(dl, k);
        lemma_walk(dl);
    }
}

/// Facts of the step that adds the station of commit `k`.
proof fn lemma_creation_facts(commits: Seq<CommitModel>, k: int)
    requires
        0 <= k < commits.len(),
    ensures
        ({
            let w = walk(commits.take(k));
            let c = commits[k];
            let lines = walk_step(w, c).alloc.lines;
            &&& lines.no_duplicates()
            &&& lines.contains(active_line(w, c))
            &&& active_to_lines(w, c).len() == c.parents.len()
        }),
{
    let w = walk(commits.take(k));
    let c = commits[k];
    lemma_walk(commits.take(k));
    lemma_walk_step(w, c);
    let (s1, a) = take_or_acquire(settled(w), c.oid);
    lemma_take_or_acquire(settled(w), c.oid);
    lemma_parents_fold(s1, a, c.parents);
}

/// Every station has exactly one active row.
pub proof fn lemma_single_active_track(commits: Seq<CommitModel>, k: int)
    requires
        0 <= k < commits.len(),
    ensures
        ({
            let rows = walk(commits).stations[k];
            exists|i: int|
                0 <= i < rows.len() && (#[trigger] rows[i]).active && forall|j: int|
                    0 <= j < rows.len() && (#[trigger] rows[j]).active ==> j == i
        }),
{
    lemma_rows_persist(commits, k);
    lemma_creation_facts(commits, k);
    let w = walk(commits.take(k));
    let c = commits[k];
    let lines = walk_step(w, c).alloc.lines;
    let created = created_rows(commits, k);
    let rows = walk(commits).stations[k];
    let i = choose|i: int| 0 <= i < lines.len() && lines[i] == active_line(w, c);
    assert(rows[i].active == created[i].active);
    assert forall|j: int| 0 <= j < rows.len() && (#[trigger] rows[j]).active implies j == i by {
        assert(rows[j].active == created[j].active);
    }
}

/// The rows of a station stand on tracks 0, 1, ..., one row per track, left
/// to right: the track numbers are exactly 0 up to the number of rows, with
/// no gap and no repeat.
pub proof fn lemma_dense_tracks(commits: Seq<CommitModel>, k: int)
    requires
        0 <= k < commits.len(),
    ensures
        forall|i: int|
            0 <= i < walk(commits).stations[k].len() ==> (#[trigger] walk(commits).stations[k][i]).track == i,
{
    lemma_rows_persist(commits, k);
    let rows = walk(commits).stations[k];
    let created = created_rows(commits, k);
    assert forall|i: int| 0 <= i < rows.len() implies (#[trigger] rows[i]).track == i by {
        assert(rows[i].track == created[i].track);
    }
}

/// A root commit (no parents) ends its line: its active row hands on nothing.
pub proof fn lemma_root_ends_line(commits: Seq<CommitModel>, k: int)
    requires
        0 <= k < commits.len(),
        commits[k].parents.len() == 0,
    ensures
        forall|i: int|
            0 <= i < walk(commits).stations[k].len() && (#[trigger] walk(commits).stations[k][i]).active
                ==> walk(commits).stations[k][i].to_lines.len() == 0,
{
    lemma_merge_fans_out(commits, k);
}

/// The active row of a commit with N parents hands on N lines, the i-th of
/// them for the i-th parent: with distinct parents, once the commit is placed
/// the i-th parent awaits exactly the i-th of those lines.
pub proof fn lemma_merge_fans_out(commits: Seq<CommitModel>, k: int)
    requires
        0 <= k < commits.len(),
    ensures
        forall|i: int|
            0 <= i < walk(commits).stations[k].len() && (#[trigger] walk(commits).stations[k][i]).active
                ==> walk(commits).stations[k][i].to_lines == active_to_lines(walk(commits.take(k)), commits[k]),
        active_to_lines(walk(commits.take(k)), commits[k]).len() == commits[k].parents.len(),
        commits[k].parents.no_duplicates() ==> forall|i: int|
            0 <= i < commits[k].parents.len() ==> walk(commits.take(k + 1)).alloc.pending.contains_key(
                #[trigger] commits[k].parents[i],
            ) && walk(commits.take(k + 1)).alloc.pending[commits[k].parents[i]] == active_to_lines(
                walk(commits.take(k)),
                commits[k],
            )[i],
{
    lemma_rows_persist(commits, k);
    lemma_creation_facts(commits, k);
    lemma_walk_prefix(commits, k);
    if commits[k].parents.no_duplicates() {
        let w = walk(commits.take(k));
        let (s1, a) = take_or_acquire(settled(w), commits[k].oid);
        lemma_parents_fold_pending(s1, a, commits[k].parents);
    }
    let rows = walk(commits).stations[k];
    let created = created_rows(commits, k);
    assert forall|i: int| 0 <= i < rows.len() && (#[trigger] rows[i]).active implies rows[i].to_lines
        == active_to_lines(walk(commits.take(k)), commits[k]) by {
        assert(rows[i].active == created[i].active);
        assert(rows[i].to_lines == created[i].to_lines);
    }
}

/// Adjacent stations connect: the lines that station `k` hands on are
/// exactly the lines of the rows of station `k + 1` that continue from above,
/// and each downward track of station `k` lands on the row of that line, which
/// names the same track as where it comes from.
pub proof fn lemma_continuity(commits: Seq<CommitModel>, k: int)
    requires
        0 <= k,
        k + 1 < commits.len(),
    ensures
        ({
            let upper = walk(commits).stations[k];
            let lower = walk(commits).stations[k + 1];
            &&& forall|n: nat|
                #[trigger] to_line_set(upper).contains(n) <==> exists|t: int|
                    0 <= t < lower.len() && (#[trigger] lower[t]).line == n && lower[t].from_tracks.len() > 0
            &&& forall|a: int, b: int|
                0 <= a < upper.len() && 0 <= b < upper[a].to_lines.len() ==> {
                    let t = (#[trigger] upper[a].to_tracks[b]) as int;
                    &&& upper[a].to_tracks.len() == upper[a].to_lines.len()
                    &&& 0 <= t < lower.len()
                    &&& lower[t].line == upper[a].to_lines[b]
                    &&& lower[t].from_tracks == seq![t as nat]
                }
        }),
{
    let upper = walk(commits).stations[k];
    let lower = walk(commits).stations[k + 1];
    lemma_station_frozen(commits, k);
    lemma_rows_persist(commits, k + 1);
    lemma_walk_prefix(commits, k + 1);
    let w = walk(commits.take(k + 1));
    let c = commits[k + 1];
    lemma_walk(commits.take(k + 1));
    lemma_walk_step(w, c);
    let keep = previous_keep(w);
    let s0 = settled(w);
    let s2 = walk_step(w, c).alloc.lines;
    let created = created_rows(commits, k + 1);
    assert(w.stations.len() == k + 1);
    assert(upper == resolve_to_tracks(w.stations.last(), s0.lines));
    assert(to_line_set(upper) =~= keep) by {
        assert forall|n: nat| to_line_set(upper).contains(n) == keep.contains(n) by {
            let last = w.stations.last();
            if to_line_set(upper).contains(n) {
                let (a, b) = choose|a: int, b: int|
                    0 <= a < upper.len() && 0 <= b < upper[a].to_lines.len() && (
                    #[trigger] upper[a].to_lines[b]) == n;
                assert(last[a].to_lines[b] == n);
            }
            if keep.contains(n) {
                let (a, b) = choose|a: int, b: int|
                    0 <= a < last.len() && 0 <= b < last[a].to_lines.len() && (
                    #[trigger] last[a].to_lines[b]) == n;
                assert(upper[a] == with_to_tracks(last[a], s0.lines));
                assert(upper[a].to_lines[b] == n);
            }
        }
    }
    assert forall|n: nat| #[trigger] to_line_set(upper).contains(n) <==> exists|t: int|
        0 <= t < lower.len() && (#[trigger] lower[t]).line == n && lower[t].from_tracks.len() > 0 by {
        if keep.contains(n) {
            assert(s0.lines.contains(n));
            let t = choose|t: int| 0 <= t < s0.lines.len() && s0.lines[t] == n;
            assert(s2[t] == n);
            assert(lower[t].line == created[t].line);
            assert(lower[t].from_tracks == created[t].from_tracks);
        }
        if exists|t: int| 0 <= t < lower.len() && (#[trigger] lower[t]).line == n && lower[t].from_tracks.len() > 0 {
            let t = choose|t: int| 0 <= t < lower.len() && (#[trigger] lower[t]).line == n && lower[t].from_tracks.len() > 0;
            assert(lower[t].line == created[t].line);
            assert(lower[t].from_tracks == created[t].from_tracks);
        }
    }
    assert forall|a: int, b: int| 0 <= a < upper.len() && 0 <= b < upper[a].to_lines.len() implies {
        let t = (#[trigger] upper[a].to_tracks[b]) as int;
        &&& upper[a].to_tracks.len() == upper[a].to_lines.len()
        &&& 0 <= t < lower.len()
        &&& lower[t].line == upper[a].to_lines[b]
        &&& lower[t].from_tracks == seq![t as nat]
    } by {
        let last = w.stations.last();
        let n = upper[a].to_lines[b];
        assert(upper[a] == with_to_tracks(last[a], s0.lines));
        assert(to_line_set(upper).contains(n));
        assert(s0.lines.contains(n));
        let t = s0.lines.index_of(n);
        assert(upper[a].to_tracks[b] == t);
        assert(s2[t] == n);
        assert(lower[t].line == created[t].line);
        assert(lower[t].from_tracks == created[t].from_tracks);
    }
}

/// Every line handed on downward by the rows, once per connector.
pub open spec fn handed_on(rows: Seq<RowModel>) -> Multiset<nat>
    decreases rows.len(),
{
    if rows.len() == 0 {
        Multiset::empty()
    } else {
        handed_on(rows.drop_last()).add(rows.last().to_lines.to_multiset())
    }
}

/// The lines of the rows that continue from the station above.
pub open spec fn continued_lines(rows: Seq<RowModel>) -> Multiset<nat>
    decreases rows.len(),
{
    if rows.len() == 0 {
        Multiset::empty()
    } else {
        let rest = continued_lines(rows.drop_last());
        if rows.last().from_tracks.len() > 0 {
            rest.insert(rows.last().line)
        } else {
            rest
        }
    }
}

proof fn lemma_handed_on_count(rows: Seq<RowModel>, n: nat)
    ensures
        handed_on(rows).count(n) > 0 <==> to_line_set(rows).contains(n),
    decreases rows.len(),
{
    broadcast use vstd::multiset::group_multiset_axioms, vstd::seq_lib::to_multiset_contains;

    if rows.len() > 0 {
        let dl = rows.drop_last();
        let last = rows.last();
        lemma_handed_on_count(dl, n);
        assert(last.to_lines.contains(n) <==> last.to_lines.to_multiset().count(n) > 0);
        if to_line_set(rows).contains(n) {
            let (a, b) = choose|a: int, b: int|
                0 <= a < rows.len() && 0 <= b < rows[a].to_lines.len() && (#[trigger] rows[a].to_lines[b])
                    == n;
            if a < dl.len() {
                assert(dl[a].to_lines[b] == n);
                assert(to_line_set(dl).contains(n));
            } else {
                assert(last.to_lines[b] == n);
            }
        }
        if to_line_set(dl).contains(n) {
            let (a, b) = choose|a: int, b: int|
                0 <= a < dl.len() && 0 <= b < dl[a].to_lines.len() && (#[trigger] dl[a].to_lines[b]) == n;
            assert(rows[a].to_lines[b] == n);
        }
        if last.to_lines.contains(n) {
            let b = choose|b: int| 0 <= b < last.to_lines.len() && last.to_lines[b] == n;
            assert(rows[rows.len() - 1].to_lines[b] == n);
        }
    }
}

proof fn lemma_continued_count(rows: Seq<RowModel>, n: nat)
    requires
        forall|i: int, j: int| 0 <= i < j < rows.len() ==> (#[trigger] rows[i]).line != (#[trigger] rows[j]).line,
    ensures
        continued_lines(rows).count(n) == (if exists|t: int|
            0 <= t < rows.len() && (#[trigger] rows[t]).line == n && rows[t].from_tracks.len() > 0 {
            1nat
        } else {
            0nat
        }),
    decreases rows.len(),
{
    broadcast use vstd::multiset::group_multiset_axioms;

    if rows.len() > 0 {
        let dl = rows.drop_last();
        let last = rows.last();
        assert forall|i: int, j: int| 0 <= i < j < dl.len() implies (#[trigger] dl[i]).line != (
        #[trigger] dl[j]).line by {
            assert(dl[i] == rows[i] && dl[j] == rows[j]);
        }
        lemma_continued_count(dl, n);
        let in_rows = exists|t: int|
            0 <= t < rows.len() && (#[trigger] rows[t]).line == n && rows[t].from_tracks.len() > 0;
        let in_dl = exists|t: int|
            0 <= t < dl.len() && (#[trigger] dl[t]).line == n && dl[t].from_tracks.len() > 0;
        if in_dl {
            let t = choose|t: int| 0 <= t < dl.len() && (#[trigger] dl[t]).line == n && dl[t].from_tracks.len() > 0;
            assert(rows[t] == dl[t]);
            assert(in_rows);
            assert(rows[t].line != rows[rows.len() - 1].line);
        }
        if in_rows && !in_dl {
            let t = choose|t: int| 0 <= t < rows.len() && (#[trigger] rows[t]).line == n && rows[t].from_tracks.len() > 0;
            if t < dl.len() {
                assert(dl[t] == rows[t]);
            }
        }
        if last.line == n && last.from_tracks.len() > 0 {
            assert(rows[rows.len() - 1] == last);
            assert(in_rows);
        }
    }
}

/// Counted continuity: where no line is handed on twice by the rows of
/// station `k` (two rows converge on one line only in that case), the lines
/// it hands on, counted, are exactly the lines of station `k + 1` that
/// continue from above.
pub proof fn lemma_continuity_counted(commits: Seq<CommitModel>, k: int)
    requires
        0 <= k,
        k + 1 < commits.len(),
        forall|n: nat| #[trigger] handed_on(walk(commits).stations[k]).count(n) <= 1,
    ensures
        handed_on(walk(commits).stations[k]) == continued_lines(walk(commits).stations[k + 1]),
{
    let upper = walk(commits).stations[k];
    let lower = walk(commits).stations[k + 1];
    lemma_continuity(commits, k);
    lemma_rows_persist(commits, k + 1);
    lemma_creation_facts(commits, k + 1);
    let created = created_rows(commits, k + 1);
    assert forall|i: int, j: int| 0 <= i < j < lower.len() implies (#[trigger] lower[i]).line != (
    #[trigger] lower[j]).line by {
        assert(lower[i].line == created[i].line);
        assert(lower[j].line == created[j].line);
    }
    assert forall|n: nat| handed_on(upper).count(n) == continued_lines(lower).count(n) by {
        lemma_handed_on_count(upper, n);
        lemma_continued_count(lower, n);
        assert(handed_on(upper).count(n) <= 1);
    }
    assert(handed_on(upper) =~= continued_lines(lower));
}

/// Retiring lines keeps the left-to-right order of the survivors: for two
/// surviving lines, one stands left of the other after the vacuum exactly when
/// it did before; and the survivors are exactly the open lines in `keep`.
pub proof fn lemma_vacuum_keeps_order(s: AllocModel, keep: Set<nat>)
    requires
        s.lines.no_duplicates(),
    ensures
        vacuum(s, keep).lines.no_duplicates(),
        forall|x: nat| #[trigger] vacuum(s, keep).lines.contains(x) <==> s.lines.contains(x) && keep.contains(x),
        forall|x: nat, y: nat|
            #![trigger vacuum(s, keep).lines.index_of(x), vacuum(s, keep).lines.index_of(y)]
            vacuum(s, keep).lines.contains(x) && vacuum(s, keep).lines.contains(y) ==> (s.lines.index_of(x)
                < s.lines.index_of(y) <==> vacuum(s, keep).lines.index_of(x) < vacuum(s, keep).lines.index_of(y)),
{
    let p = |l: nat| keep.contains(l);
    let v = vacuum(s, keep).lines;
    lemma_filter_no_dup(s.lines, p);
    lemma_filter_order(s.lines, p);
    assert forall|x: nat| #[trigger] v.contains(x) implies keep.contains(x) by {
        let i = choose|i: int| 0 <= i < v.len() && v[i] == x;
        s.lines.lemma_filter_pred(p, i);
    }
    assert forall|x: nat, y: nat|
        #![trigger v.index_of(x), v.index_of(y)]
        v.contains(x) && v.contains(y) implies (s.lines.index_of(x) < s.lines.index_of(y) <==> v.index_of(x)
            < v.index_of(y)) by {
        let i = v.index_of(x);
        let j = v.index_of(y);
        if i < j {
            assert(s.lines.index_of(v[i]) < s.lines.index_of(v[j]));
        } else if j < i {
            assert(s.lines.index_of(v[j]) < s.lines.index_of(v[i]));
        }
    }
}

/// Filtering keeps order: positions in the result increase with positions
/// in the source.
proof fn lemma_filter_order(s: Seq<nat>, p: spec_fn(nat) -> bool)
    requires
        s.no_duplicates(),
    ensures
        forall|i: int, j: int|
            0 <= i < j < s.filter(p).len() ==> s.index_of(#[trigger] s.filter(p)[i]) < s.index_of(
                #[trigger] s.filter(p)[j],
            ),
        forall|i: int|
            0 <= i < s.filter(p).len() ==> 0 <= s.index_of(#[trigger] s.filter(p)[i]) < s.len()
                && s[s.index_of(s.filter(p)[i])] == s.filter(p)[i],
    decreases s.len(),
{
    lemma_filter_no_dup(s, p);
    let f = s.filter(p);
    assert forall|i: int| 0 <= i < f.len() implies 0 <= s.index_of(#[trigger] f[i]) < s.len()
        && s[s.index_of(f[i])] == f[i] by {
        assert(f.contains(f[i]));
        assert(s.contains(f[i]));
    }
    if s.len() > 0 {
        let rest = s.drop_last();
        assert(rest.push(s.last()) =~= s);
        lemma_filter_push(rest, s.last(), p);
        lemma_filter_order(rest, p);
        let fr = rest.filter(p);
        assert forall|x: nat| rest.contains(x) implies s.index_of(x) == rest.index_of(x) by {
            let a = rest.index_of(x);
            let b = s.index_of(x);
            assert(s[a] == x);
            assert(s.contains(x));
        }
        assert forall|i: int, j: int| 0 <= i < j < f.len() implies s.index_of(#[trigger] f[i]) < s.index_of(
            #[trigger] f[j],
        ) by {
            assert(f[i] == fr[i]);
            assert(fr.contains(fr[i]));
            lemma_filter_no_dup(rest, p);
            assert(rest.contains(f[i]));
            if j < fr.len() {
                assert(f[j] == fr[j]);
                assert(fr.contains(fr[j]));
                assert(rest.contains(f[j]));
            } else {
                assert(f[j] == s.last());
                assert(s.index_of(f[j]) == s.len() - 1) by {
                    assert(s[s.len() - 1] == f[j]);
                    assert(s.contains(f[j]));
                }
                assert(s.index_of(f[i]) == rest.index_of(f[i]));
            }
        }
    }
}

} // verus!

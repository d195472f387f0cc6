use vstd::prelude::*;

use crate::ids::{CommitId, LineNumber, TrackNumber};

verus! {

/// The allocator's state as mathematics: the next line to issue, the line that
/// each awaited commit resumes, and the open lines in column order (the line on
/// track `t` is `lines[t]`, so track numbers are dense by construction).
pub struct AllocModel {
    pub next: nat,
    pub pending: Map<Seq<char>, nat>,
    pub lines: Seq<nat>,
}

pub open spec fn initial_alloc() -> AllocModel {
    AllocModel { next: 0, pending: Map::empty(), lines: Seq::empty() }
}

/// Issue a fresh line.
pub open spec fn acquire(s: AllocModel) -> (AllocModel, nat) {
    (AllocModel { next: s.next + 1, pending: s.pending, lines: s.lines }, s.next)
}

/// Give `line` a track if it has none: the column right of all others.
pub open spec fn assign_track(s: AllocModel, line: nat) -> AllocModel {
    if s.lines.contains(line) {
        s
    } else {
        AllocModel { next: s.next, pending: s.pending, lines: s.lines.push(line) }
    }
}

/// Resume the line that awaits `oid`, or open a new one; either way it has a track.
pub open spec fn take_or_acquire(s: AllocModel, oid: Seq<char>) -> (AllocModel, nat) {
    let (s1, line) = if s.pending.contains_key(oid) {
        (AllocModel { next: s.next, pending: s.pending.remove(oid), lines: s.lines }, s.pending[oid])
    } else {
        acquire(s)
    };
    (assign_track(s1, line), line)
}

/// Record that visiting `oid` resumes `line`.
pub open spec fn register(s: AllocModel, line: nat, oid: Seq<char>) -> AllocModel {
    AllocModel { next: s.next, pending: s.pending.insert(oid, line), lines: s.lines }
}

/// Retire every line outside `keep`; the survivors close up leftward.
pub open spec fn vacuum(s: AllocModel, keep: Set<nat>) -> AllocModel {
    AllocModel { next: s.next, pending: s.pending, lines: s.lines.filter(|l: nat| keep.contains(l)) }
}

/// The numbers of a sequence of lines.
pub open spec fn line_nums(v: Seq<LineNumber>) -> Seq<nat> {
    v.map_values(|l: LineNumber| l.0 as nat)
}

/// The set of the numbers of a sequence of lines.
pub open spec fn line_set(v: Seq<LineNumber>) -> Set<nat> {
    Set::new(|n: nat| exists|i: int| 0 <= i < v.len() && v[i].0 == n)
}

pub open spec fn pending_has(p: Seq<(CommitId, LineNumber)>, k: Seq<char>) -> bool {
    exists|i: int| 0 <= i < p.len() && (#[trigger] p[i]).0@ == k
}

pub open spec fn pending_map(p: Seq<(CommitId, LineNumber)>) -> Map<Seq<char>, nat> {
    Map::new(
        |k: Seq<char>| pending_has(p, k),
        |k: Seq<char>| p[choose|i: int| 0 <= i < p.len() && (#[trigger] p[i]).0@ == k].1.0 as nat,
    )
}

/// Filtering a sequence with one more element at its end.
pub proof fn lemma_filter_push(s: Seq<nat>, x: nat, p: spec_fn(nat) -> bool)
    ensures
        s.push(x).filter(p) == (if p(x) {
            s.filter(p).push(x)
        } else {
            s.filter(p)
        }),
{
    reveal(Seq::filter);
    assert(s.push(x).drop_last() =~= s);
}

/// The allocator of lines and tracks for one traversal.
pub struct TrackLineMap {
    max_line_number: LineNumber,
    oid_line_map: Vec<(CommitId, LineNumber)>,
    track_lines: Vec<LineNumber>,
}

impl View for TrackLineMap {
    type V = AllocModel;

    closed spec fn view(&self) -> AllocModel {
        AllocModel {
            next: self.max_line_number.0 as nat,
            pending: pending_map(self.oid_line_map@),
            lines: line_nums(self.track_lines@),
        }
    }
}

/// Whether `v` holds a line numbered `line`.
pub fn holds_line(v: &Vec<LineNumber>, line: LineNumber) -> (r: bool)
    ensures
        r == line_set(v@).contains(line.0 as nat),
{
    let mut i: usize = 0;
    while i < v.len()
        invariant
            i <= v@.len(),
            forall|j: int| 0 <= j < i ==> v@[j].0 != line.0,
        decreases v@.len() - i,
    {
        if v[i].0 == line.0 {
            return true;
        }
        i += 1;
    }
    false
}

impl TrackLineMap {
    /// Each awaited commit is awaited by one entry only.
    pub closed spec fn wf(&self) -> bool {
        forall|i: int, j: int|
            0 <= i < j < self.oid_line_map@.len() ==> (#[trigger] self.oid_line_map@[i]).0@
                != (#[trigger] self.oid_line_map@[j]).0@
    }

    pub fn new() -> (r: TrackLineMap)
        ensures
            r.wf(),
            r@ == initial_alloc(),
    {
        let r = TrackLineMap {
            max_line_number: LineNumber(0),
            oid_line_map: Vec::new(),
            track_lines: Vec::new(),
        };
        assert(r@.pending =~= Map::empty());
        assert(r@.lines =~= Seq::empty());
        r
    }

    /// The number the next new line will get.
    pub fn next_line_number(&self) -> (r: LineNumber)
        ensures
            r.0 == self@.next,
    {
        self.max_line_number
    }

    proof fn lemma_pending_entry(&self, i: int)
        requires
            self.wf(),
            0 <= i < self.oid_line_map@.len(),
        ensures
            self@.pending.contains_key(self.oid_line_map@[i].0@),
            self@.pending[self.oid_line_map@[i].0@] == self.oid_line_map@[i].1.0,
    {
        let p = self.oid_line_map@;
        let k = p[i].0@;
        assert(pending_has(p, k));
        let c = choose|c: int| 0 <= c < p.len() && (#[trigger] p[c]).0@ == k;
        assert(c == i);
    }

    /// Where the entry awaiting `oid` stands, if there is one.
    fn find_pending(&self, oid: &CommitId) -> (r: Option<usize>)
        requires
            self.wf(),
        ensures
            match r {
                Some(i) => i < self.oid_line_map@.len() && self.oid_line_map@[i as int].0@ == oid@,
                None => !self@.pending.contains_key(oid@),
            },
    {
        let mut i: usize = 0;
        while i < self.oid_line_map.len()
            invariant
                i <= self.oid_line_map@.len(),
                forall|j: int| 0 <= j < i ==> (#[trigger] self.oid_line_map@[j]).0@ != oid@,
            decreases self.oid_line_map@.len() - i,
        {
            if self.oid_line_map[i].0.same_as(oid) {
                return Some(i);
            }
            i += 1;
        }
        None
    }

    pub fn acquire_line_number(&mut self) -> (r: LineNumber)
        requires
            old(self).wf(),
            old(self)@.next < usize::MAX,
        ensures
            final(self).wf(),
            (final(self)@, r.0 as nat) == acquire(old(self)@),
    {
        let line_number = self.max_line_number;
        self.max_line_number = line_number.next_number();
        line_number
    }

    /// Whether some open line awaits `oid` as its next commit.
    pub fn is_oid_assigned(&self, oid: &CommitId) -> (r: bool)
        requires
            self.wf(),
        ensures
            r == self@.pending.contains_key(oid@),
    {
        match self.find_pending(oid) {
            Some(i) => {
                proof {
                    self.lemma_pending_entry(i as int);
                }
                true
            },
            None => false,
        }
    }

    /// Resume the line that awaits `oid`, or open a new one, and make sure it
    /// has a track.
    pub fn take_line_number_or_aquire(&mut self, oid: &CommitId) -> (r: LineNumber)
        requires
            old(self).wf(),
            old(self)@.pending.contains_key(oid@) || old(self)@.next < usize::MAX,
        ensures
            final(self).wf(),
            (final(self)@, r.0 as nat) == take_or_acquire(old(self)@, oid@),
    {
        let line_number = match self.find_pending(oid) {
            Some(i) => {
                proof {
                    self.lemma_pending_entry(i as int);
                }
                let ghost before = self.oid_line_map@;
                let entry = self.oid_line_map.remove(i);
                proof {
                    let after = self.oid_line_map@;
                    assert(forall|j: int| 0 <= j < after.len() ==> #[trigger] after[j] == (if j < i {
                        before[j]
                    } else {
                        before[j + 1]
                    }));
                    assert forall|a: int, b: int| 0 <= a < b < after.len() implies (
                    #[trigger] after[a]).0@ != (#[trigger] after[b]).0@ by {
                        let a2 = if a < i { a } else { a + 1 };
                        let b2 = if b < i { b } else { b + 1 };
                        assert(before[a2] == after[a] && before[b2] == after[b]);
                    }
                    assert forall|k: Seq<char>| #[trigger] pending_has(after, k) == (pending_has(
                        before,
                        k,
                    ) && k != oid@) by {
                        if pending_has(after, k) {
                            let a = choose|a: int| 0 <= a < after.len() && (#[trigger] after[a]).0@ == k;
                            let a2 = if a < i { a } else { a + 1 };
                            assert(before[a2] == after[a]);
                        }
                        if pending_has(before, k) && k != oid@ {
                            let c = choose|c: int| 0 <= c < before.len() && (#[trigger] before[c]).0@ == k;
                            assert(c != i);
                            let c2 = if c < i { c } else { c - 1 };
                            assert(after[c2] == before[c]);
                        }
                    }
                    assert forall|k: Seq<char>| pending_has(after, k) implies #[trigger] pending_map(
                        after,
                    )[k] == pending_map(before)[k] by {
                        let a = choose|a: int| 0 <= a < after.len() && (#[trigger] after[a]).0@ == k;
                        let a2 = if a < i { a } else { a + 1 };
                        assert(before[a2] == after[a]);
                        let ca = choose|c: int| 0 <= c < before.len() && (#[trigger] before[c]).0@ == k;
                        assert(ca == a2);
                    }
                    assert(pending_map(after) =~= pending_map(before).remove(oid@));
                }
                entry.1
            },
            None => self.acquire_line_number(),
        };
        self.assign_track_number_if_required(line_number);
        line_number
    }

    /// Record that visiting `oid` resumes `line_number`.
    pub fn set_next_oid(&mut self, line_number: LineNumber, oid: &CommitId)
        requires
            old(self).wf(),
        ensures
            final(self).wf(),
            final(self)@ == register(old(self)@, line_number.0 as nat, oid@),
    {
        let ghost before = self.oid_line_map@;
        match self.find_pending(oid) {
            Some(i) => {
                self.oid_line_map.set(i, (oid.duplicate(), line_number));
                proof {
                    let after = self.oid_line_map@;
                    assert forall|a: int, b: int| 0 <= a < b < after.len() implies (
                    #[trigger] after[a]).0@ != (#[trigger] after[b]).0@ by {
                        assert(after[a].0@ == before[a].0@);
                        assert(after[b].0@ == before[b].0@);
                    }
                    assert forall|k: Seq<char>| #[trigger] pending_has(after, k) == (pending_has(
                        before,
                        k,
                    ) || k == oid@) by {
                        if pending_has(after, k) {
                            let a = choose|a: int| 0 <= a < after.len() && (#[trigger] after[a]).0@ == k;
                            assert(after[a].0@ == before[a].0@);
                        }
                        if pending_has(before, k) {
                            let c = choose|c: int| 0 <= c < before.len() && (#[trigger] before[c]).0@ == k;
                            assert(after[c].0@ == before[c].0@);
                        }
                        if k == oid@ {
                            assert(after[i as int].0@ == k);
                        }
                    }
                    assert forall|k: Seq<char>| pending_has(after, k) implies #[trigger] pending_map(
                        after,
                    )[k] == pending_map(before).insert(oid@, line_number.0 as nat)[k] by {
                        let a = choose|a: int| 0 <= a < after.len() && (#[trigger] after[a]).0@ == k;
                        if k == oid@ {
                            assert(a == i);
                        } else {
                            assert(after[a] == before[a]);
                            let c = choose|c: int| 0 <= c < before.len() && (#[trigger] before[c]).0@ == k;
                            assert(c == a);
                        }
                    }
                    assert(pending_map(after) =~= pending_map(before).insert(oid@, line_number.0 as nat));
                }
            },
            None => {
                self.oid_line_map.push((oid.duplicate(), line_number));
                proof {
                    let after = self.oid_line_map@;
                    let n = before.len() as int;
                    assert(after[n].0@ == oid@);
                    assert forall|a: int, b: int| 0 <= a < b < after.len() implies (
                    #[trigger] after[a]).0@ != (#[trigger] after[b]).0@ by {
                        if b == n {
                            assert(after[a] == before[a]);
                            assert(pending_has(before, after[a].0@));
                        }
                    }
                    assert forall|k: Seq<char>| #[trigger] pending_has(after, k) == (pending_has(
                        before,
                        k,
                    ) || k == oid@) by {
                        if pending_has(after, k) && k != oid@ {
                            let a = choose|a: int| 0 <= a < after.len() && (#[trigger] after[a]).0@ == k;
                            assert(after[a] == before[a]);
                        }
                        if pending_has(before, k) {
                            let c = choose|c: int| 0 <= c < before.len() && (#[trigger] before[c]).0@ == k;
                            assert(after[c] == before[c]);
                        }
                    }
                    assert forall|k: Seq<char>| pending_has(after, k) implies #[trigger] pending_map(
                        after,
                    )[k] == pending_map(before).insert(oid@, line_number.0 as nat)[k] by {
                        let a = choose|a: int| 0 <= a < after.len() && (#[trigger] after[a]).0@ == k;
                        if k == oid@ {
                            assert(a == n);
                        } else {
                            assert(after[a] == before[a]);
                            let c = choose|c: int| 0 <= c < before.len() && (#[trigger] before[c]).0@ == k;
                            assert(c == a);
                        }
                    }
                    assert(pending_map(after) =~= pending_map(before).insert(oid@, line_number.0 as nat));
                }
            },
        }
    }

    /// Give `line_number` a track if it has none: the column right of all others.
    pub fn assign_track_number_if_required(&mut self, line_number: LineNumber)
        requires
            old(self).wf(),
        ensures
            final(self).wf(),
            final(self)@ == assign_track(old(self)@, line_number.0 as nat),
    {
        let ghost before = self@;
        if holds_line(&self.track_lines, line_number) {
            assert(before.lines.contains(line_number.0 as nat)) by {
                let i = choose|i: int| 0 <= i < self.track_lines@.len() && self.track_lines@[i].0 == line_number.0;
                assert(before.lines[i] == line_number.0);
            }
            return;
        }
        assert(!before.lines.contains(line_number.0 as nat)) by {
            if before.lines.contains(line_number.0 as nat) {
                let i = choose|i: int| 0 <= i < before.lines.len() && before.lines[i] == line_number.0;
                assert(self.track_lines@[i].0 == line_number.0);
            }
        }
        self.track_lines.push(line_number);
        assert(self@.lines =~= before.lines.push(line_number.0 as nat));
    }

    /// The open lines with their tracks, left to right.
    pub fn line_track_numbers(&self) -> (r: Vec<(LineNumber, TrackNumber)>)
        ensures
            r@.len() == self@.lines.len(),
            forall|t: int|
                0 <= t < r@.len() ==> (#[trigger] r@[t]).0.0 == self@.lines[t] && r@[t].1.0 == t,
    {
        let mut r: Vec<(LineNumber, TrackNumber)> = Vec::new();
        let mut t: usize = 0;
        while t < self.track_lines.len()
            invariant
                t <= self.track_lines@.len(),
                r@.len() == t,
                forall|u: int|
                    0 <= u < t ==> (#[trigger] r@[u]).0 == self.track_lines@[u] && r@[u].1.0 == u,
            decreases self.track_lines@.len() - t,
        {
            r.push((self.track_lines[t], TrackNumber(t)));
            t += 1;
        }
        r
    }

    /// The track of `line`, if it has one.
    pub fn convert_line_to_track(&self, line: LineNumber) -> (r: Option<TrackNumber>)
        ensures
            match r {
                Some(t) => t.0 < self@.lines.len() && self@.lines[t.0 as int] == line.0
                    && forall|u: int| 0 <= u < t.0 ==> self@.lines[u] != line.0,
                None => !self@.lines.contains(line.0 as nat),
            },
    {
        let mut t: usize = 0;
        while t < self.track_lines.len()
            invariant
                t <= self.track_lines@.len(),
                forall|u: int| 0 <= u < t ==> self.track_lines@[u].0 != line.0,
            decreases self.track_lines@.len() - t,
        {
            if self.track_lines[t].0 == line.0 {
                return Some(TrackNumber(t));
            }
            t += 1;
        }
        None
    }

    /// Retire every line outside `keep`; the others keep their order and close
    /// up leftward, so the tracks stay dense.
    pub fn vacuum_unused_track_numbers(&mut self, keep: &Vec<LineNumber>)
        requires
            old(self).wf(),
        ensures
            final(self).wf(),
            final(self)@ == vacuum(old(self)@, line_set(keep@)),
    {
        let ghost before = self@;
        let ghost pred = |l: nat| line_set(keep@).contains(l);
        let mut kept: Vec<LineNumber> = Vec::new();
        let mut i: usize = 0;
        while i < self.track_lines.len()
            invariant
                i <= self.track_lines@.len(),
                before.lines == line_nums(self.track_lines@),
                pred == (|l: nat| line_set(keep@).contains(l)),
                line_nums(kept@) == line_nums(self.track_lines@.take(i as int)).filter(pred),
            decreases self.track_lines@.len() - i,
        {
            let line = self.track_lines[i];
            let ghost prefix = line_nums(self.track_lines@.take(i as int));
            assert(line_nums(self.track_lines@.take(i + 1)) =~= prefix.push(line.0 as nat));
            assert(prefix.push(line.0 as nat).drop_last() =~= prefix);
            proof {
                lemma_filter_push(prefix, line.0 as nat, pred);
            }
            let ghost old_kept = kept@;
            let ghost stepped = prefix.push(line.0 as nat);
            assert(stepped.last() == line.0 as nat);
            if holds_line(keep, line) {
                kept.push(line);
                assert(line_nums(kept@) =~= line_nums(old_kept).push(line.0 as nat));
                assert(stepped.filter(pred) == prefix.filter(pred).push(line.0 as nat));
            } else {
                assert(stepped.filter(pred) == prefix.filter(pred));
            }
            i += 1;
        }
        assert(self.track_lines@.take(i as int) =~= self.track_lines@);
        self.track_lines = kept;
    }
}

} // verus!

use vstd::prelude::*;
use vstd::string::StringExecFns;

use crate::allocator::{holds_line, line_nums, line_set, take_or_acquire, TrackLineMap};
use crate::ids::{CommitId, LineNumber, TrackNumber};
use crate::layout::{
    build_rows, lemma_parents_fold, lemma_take_or_acquire, lemma_walk, lemma_walk_step, link_count, parents_fold,
    previous_keep, resolve_to_tracks, row_at, settled, to_line_set, walk, walk_inv, walk_step,
    with_to_tracks, CommitModel, RowModel, WalkModel,
};
use crate::refs::{names_for, RefTable};
use crate::text::{comma_list, decimal, first_line, first_line_of, join, push_comma_list, push_decimal};

verus! {

/// One row of a station's lane table.
pub struct RailwayTrack {
    pub line_number: LineNumber,
    pub track_number: TrackNumber,
    pub is_active: bool,
    pub from_tracks: Vec<TrackNumber>,
    pub to_tracks: Vec<TrackNumber>,
    pub to_lines: Vec<LineNumber>,
}

pub open spec fn track_nums(v: Seq<TrackNumber>) -> Seq<nat> {
    v.map_values(|t: TrackNumber| t.0 as nat)
}

impl View for RailwayTrack {
    type V = RowModel;

    open spec fn view(&self) -> RowModel {
        RowModel {
            line: self.line_number.0 as nat,
            track: self.track_number.0 as nat,
            active: self.is_active,
            from_tracks: track_nums(self.from_tracks@),
            to_lines: line_nums(self.to_lines@),
            to_tracks: track_nums(self.to_tracks@),
        }
    }
}

pub open spec fn arrow() -> Seq<char> {
    seq![' ', '=', '>', ' ']
}

/// `[<from tracks> => <track><* if active> => <to tracks>]`
pub open spec fn row_text(r: RowModel) -> Seq<char> {
    seq!['['] + comma_list(r.from_tracks) + arrow() + decimal(r.track) + seq![
        if r.active {
            '*'
        } else {
            ' '
        },
    ] + arrow() + comma_list(r.to_tracks) + seq![']']
}

/// The rows' texts, left to right, separated by ` | `.
pub open spec fn station_text(rows: Seq<RowModel>) -> Seq<char> {
    join(rows.map_values(|r: RowModel| row_text(r)), seq![' ', '|', ' '])
}

fn copy_lines(v: &Vec<LineNumber>) -> (r: Vec<LineNumber>)
    ensures
        r@ == v@,
{
    let mut r: Vec<LineNumber> = Vec::new();
    let mut i: usize = 0;
    while i < v.len()
        invariant
            i <= v@.len(),
            r@ == v@.take(i as int),
        decreases v@.len() - i,
    {
        r.push(v[i]);
        assert(r@ =~= v@.take(i + 1));
        i += 1;
    }
    assert(v@.take(i as int) =~= v@);
    r
}

fn copy_tracks(v: &Vec<TrackNumber>) -> (r: Vec<TrackNumber>)
    ensures
        r@ == v@,
{
    let mut r: Vec<TrackNumber> = Vec::new();
    let mut i: usize = 0;
    while i < v.len()
        invariant
            i <= v@.len(),
            r@ == v@.take(i as int),
        decreases v@.len() - i,
    {
        r.push(v[i]);
        assert(r@ =~= v@.take(i + 1));
        i += 1;
    }
    assert(v@.take(i as int) =~= v@);
    r
}

fn track_values(v: &Vec<TrackNumber>) -> (r: Vec<usize>)
    ensures
        r@.map_values(|n: usize| n as nat) == track_nums(v@),
{
    let mut r: Vec<usize> = Vec::new();
    let mut i: usize = 0;
    while i < v.len()
        invariant
            i <= v@.len(),
            r@.map_values(|n: usize| n as nat) == track_nums(v@.take(i as int)),
        decreases v@.len() - i,
    {
        let ghost old_r = r@;
        r.push(v[i].0);
        assert(v@.take(i + 1) =~= v@.take(i as int).push(v@[i as int]));
        assert(track_nums(v@.take(i + 1)) =~= track_nums(v@.take(i as int)).push(v@[i as int].0 as nat));
        assert(r@.map_values(|n: usize| n as nat) =~= old_r.map_values(|n: usize| n as nat).push(v@[i as int].0 as nat));
        i += 1;
    }
    assert(v@.take(i as int) =~= v@);
    r
}

impl RailwayTrack {
    /// A row whose downward tracks are not known yet.
    pub fn new(
        line_number: LineNumber,
        track_number: TrackNumber,
        is_active: bool,
        from_tracks: Vec<TrackNumber>,
        to_lines: Vec<LineNumber>,
    ) -> (r: RailwayTrack)
        ensures
            r.line_number == line_number,
            r.track_number == track_number,
            r.is_active == is_active,
            r.from_tracks == from_tracks,
            r.to_lines == to_lines,
            r.to_tracks@.len() == 0,
    {
        RailwayTrack {
            line_number,
            track_number,
            is_active,
            from_tracks,
            to_lines,
            to_tracks: Vec::new(),
        }
    }

    /// The row as text, for example `[0 => 1* => 0,2]`.
    pub fn dump_from_to(&self) -> (r: String)
        ensures
            r@ == row_text(self@),
    {
        proof {
            reveal_strlit("[");
            reveal_strlit(" => ");
            reveal_strlit("*");
            reveal_strlit(" ");
            reveal_strlit("]");
        }
        let mut r = String::new();
        r.append("[");
        push_comma_list(&mut r, &track_values(&self.from_tracks));
        r.append(" => ");
        push_decimal(&mut r, self.track_number.0);
        if self.is_active {
            r.append("*");
        } else {
            r.append(" ");
        }
        r.append(" => ");
        push_comma_list(&mut r, &track_values(&self.to_tracks));
        r.append("]");
        assert(r@ =~= row_text(self@));
        r
    }

    /// This row with the tracks of its downward lines resolved in `map`.
    fn resolved(&self, map: &TrackLineMap) -> (r: RailwayTrack)
        requires
            map@.lines.no_duplicates(),
            forall|j: int| 0 <= j < self.to_lines@.len() ==> map@.lines.contains(#[trigger] self.to_lines@[j].0 as nat),
        ensures
            r@ == with_to_tracks(self@, map@.lines),
    {
        let mut to_tracks: Vec<TrackNumber> = Vec::new();
        let mut j: usize = 0;
        while j < self.to_lines.len()
            invariant
                j <= self.to_lines@.len(),
                map@.lines.no_duplicates(),
                forall|b: int| 0 <= b < self.to_lines@.len() ==> map@.lines.contains(#[trigger] self.to_lines@[b].0 as nat),
                track_nums(to_tracks@) == line_nums(self.to_lines@.take(j as int)).map_values(
                    |l: nat| map@.lines.index_of(l) as nat,
                ),
            decreases self.to_lines@.len() - j,
        {
            let line = self.to_lines[j];
            let t = match map.convert_line_to_track(line) {
                Some(t) => t,
                None => {
                    proof {
                        assert(map@.lines.contains(self.to_lines@[j as int].0 as nat));
                    }
                    TrackNumber(0)
                },
            };
            proof {
                let lines = map@.lines;
                let c = lines.index_of(line.0 as nat);
                assert(lines.contains(line.0 as nat));
                assert(c == t.0) by {
                    if c != t.0 {
                        assert(lines[c] == lines[t.0 as int]);
                    }
                }
            }
            let ghost old_to = to_tracks@;
            to_tracks.push(t);
            proof {
                let f = |l: nat| map@.lines.index_of(l) as nat;
                assert(self.to_lines@.take(j + 1) =~= self.to_lines@.take(j as int).push(line));
                assert(line_nums(self.to_lines@.take(j + 1)) =~= line_nums(self.to_lines@.take(j as int)).push(line.0 as nat));
                assert(line_nums(self.to_lines@.take(j + 1)).map_values(f) =~= line_nums(self.to_lines@.take(j as int)).map_values(f).push(f(line.0 as nat)));
                assert(track_nums(to_tracks@) =~= track_nums(old_to).push(t.0 as nat));
            }
            j += 1;
        }
        assert(self.to_lines@.take(j as int) =~= self.to_lines@);
        let r = RailwayTrack {
            line_number: self.line_number,
            track_number: self.track_number,
            is_active: self.is_active,
            from_tracks: copy_tracks(&self.from_tracks),
            to_tracks,
            to_lines: copy_lines(&self.to_lines),
        };
        assert(r@.to_tracks =~= with_to_tracks(self@, map@.lines).to_tracks);
        r
    }
}

/// The input of the layout for one commit: its identifier, its parents in
/// the repository's parent order, and its message where it has one.
pub struct CommitRecord {
    pub oid: CommitId,
    pub parent_ids: Vec<CommitId>,
    pub message: Option<String>,
}

pub open spec fn commit_model(c: CommitRecord) -> CommitModel {
    CommitModel { oid: c.oid@, parents: c.parent_ids@.map_values(|p: CommitId| p@) }
}

pub open spec fn commit_models(commits: Seq<CommitRecord>) -> Seq<CommitModel> {
    commits.map_values(|c: CommitRecord| commit_model(c))
}

pub open spec fn message_text(m: Option<String>) -> Seq<char> {
    match m {
        Some(s) => s@,
        None => Seq::empty(),
    }
}

/// One processed commit.
pub struct RailwayStation {
    pub tracks: Vec<RailwayTrack>,
    pub oid: CommitId,
    pub subject: String,
    pub ref_names: Vec<String>,
    pub active_track_index: usize,
}

impl RailwayStation {
    pub open spec fn rows(&self) -> Seq<RowModel> {
        self.tracks@.map_values(|t: RailwayTrack| t@)
    }

    pub open spec fn active_index(&self) -> nat {
        self.active_track_index as nat
    }

    /// The active index points at an active row.
    pub open spec fn wf(&self) -> bool {
        self.active_index() < self.tracks@.len() && self.tracks@[self.active_index() as int].is_active
    }

    /// A station for the commit `oid`; its subject is the first line of
    /// `message`, and its active track the first active row.
    pub fn new(oid: CommitId, message: &Option<String>, ref_names: Vec<String>, tracks: Vec<RailwayTrack>) -> (r: RailwayStation)
        requires
            exists|i: int| 0 <= i < tracks@.len() && (#[trigger] tracks@[i]).is_active,
        ensures
            r.wf(),
            r.tracks == tracks,
            r.oid == oid,
            r.subject@ == first_line_of(message_text(*message)),
            r.ref_names == ref_names,
            forall|i: int| 0 <= i < r.active_index() ==> !(#[trigger] tracks@[i]).is_active,
    {
        let mut i: usize = 0;
        while i < tracks.len()
            invariant
                i <= tracks@.len(),
                forall|j: int| 0 <= j < i ==> !(#[trigger] tracks@[j]).is_active,
                exists|j: int| 0 <= j < tracks@.len() && (#[trigger] tracks@[j]).is_active,
            ensures
                i < tracks@.len() && tracks@[i as int].is_active,
                forall|j: int| 0 <= j < i ==> !(#[trigger] tracks@[j]).is_active,
            decreases tracks@.len() - i,
        {
            if tracks[i].is_active {
                break;
            }
            i += 1;
        }
        let subject = match message {
            Some(m) => first_line(m.as_str()),
            None => {
                proof {
                    reveal_strlit("");
                }
                assert(""@ =~= Seq::<char>::empty());
                first_line("")
            },
        };
        RailwayStation { tracks, oid, subject, ref_names, active_track_index: i }
    }

    /// The rows as text, left to right, separated by ` | `.
    pub fn dump_tracks(&self) -> (r: String)
        ensures
            r@ == station_text(self.rows()),
    {
        let ghost all = self.rows().map_values(|row: RowModel| row_text(row));
        let mut r = String::new();
        let mut i: usize = 0;
        while i < self.tracks.len()
            invariant
                i <= self.tracks@.len(),
                all == self.rows().map_values(|row: RowModel| row_text(row)),
                r@ == join(all.take(i as int), seq![' ', '|', ' ']),
            decreases self.tracks@.len() - i,
        {
            assert(all.take(i + 1).drop_last() =~= all.take(i as int));
            if i > 0 {
                proof {
                    reveal_strlit(" | ");
                }
                r.append(" | ");
            }
            let text = self.tracks[i].dump_from_to();
            r.append(text.as_str());
            assert(r@ =~= join(all.take(i + 1), seq![' ', '|', ' ']));
            i += 1;
        }
        assert(all.take(i as int) =~= all);
        r
    }

    pub fn active_track(&self) -> (r: &RailwayTrack)
        requires
            self.wf(),
        ensures
            *r == self.tracks@[self.active_index() as int],
            r.is_active,
    {
        &self.tracks[self.active_track_index]
    }

    pub fn active_track_index(&self) -> (r: usize)
        ensures
            r == self.active_index(),
    {
        self.active_track_index
    }

    /// Every line that some row hands on downward.
    fn to_lines_of(&self) -> (r: Vec<LineNumber>)
        ensures
            line_set(r@) == to_line_set(self.rows()),
    {
        let ghost rows = self.rows();
        let mut r: Vec<LineNumber> = Vec::new();
        let mut a: usize = 0;
        while a < self.tracks.len()
            invariant
                a <= self.tracks@.len(),
                rows == self.rows(),
                forall|n: nat|
                    #[trigger] line_set(r@).contains(n) <==> exists|x: int, y: int|
                        0 <= x < a && 0 <= y < rows[x].to_lines.len() && (
                        #[trigger] rows[x].to_lines[y]) == n,
            decreases self.tracks@.len() - a,
        {
            let ghost before = r@;
            let track = &self.tracks[a];
            let mut b: usize = 0;
            while b < track.to_lines.len()
                invariant
                    a < self.tracks@.len(),
                    *track == self.tracks@[a as int],
                    b <= track.to_lines@.len(),
                    rows == self.rows(),
                    r@ == before + track.to_lines@.take(b as int),
                decreases track.to_lines@.len() - b,
            {
                r.push(track.to_lines[b]);
                assert(r@ =~= before + track.to_lines@.take(b + 1));
                b += 1;
            }
            assert(track.to_lines@.take(b as int) =~= track.to_lines@);
            assert forall|n: nat| #[trigger] line_set(r@).contains(n) <==> exists|x: int, y: int|
                0 <= x < a + 1 && 0 <= y < rows[x].to_lines.len() && (#[trigger] rows[x].to_lines[y])
                    == n by {
                if line_set(r@).contains(n) {
                    let i = choose|i: int| 0 <= i < r@.len() && r@[i].0 == n;
                    if i < before.len() {
                        assert(line_set(before).contains(n));
                        let (x, y) = choose|x: int, y: int|
                            0 <= x < a && 0 <= y < rows[x].to_lines.len() && (
                            #[trigger] rows[x].to_lines[y]) == n;
                        assert(rows[x].to_lines[y] == n);
                    } else {
                        let y = i - before.len();
                        assert(rows[a as int].to_lines[y] == n);
                    }
                }
                if exists|x: int, y: int|
                    0 <= x < a + 1 && 0 <= y < rows[x].to_lines.len() && (
                    #[trigger] rows[x].to_lines[y]) == n {
                    let (x, y) = choose|x: int, y: int|
                        0 <= x < a + 1 && 0 <= y < rows[x].to_lines.len() && (
                        #[trigger] rows[x].to_lines[y]) == n;
                    if x < a {
                        assert(rows[x].to_lines[y] == n);
                        assert(line_set(before).contains(n));
                        let i = choose|i: int| 0 <= i < before.len() && before[i].0 == n;
                        assert(r@[i].0 == n);
                    } else {
                        assert(r@[before.len() + y].0 == n);
                    }
                }
            }
            a += 1;
        }
        assert(line_set(r@) =~= to_line_set(rows));
        r
    }

    /// This station with the downward tracks of its rows resolved in `map`.
    fn resolved(self, map: &TrackLineMap) -> (r: RailwayStation)
        requires
            map@.lines.no_duplicates(),
            forall|n: nat| #[trigger] to_line_set(self.rows()).contains(n) ==> map@.lines.contains(n),
        ensures
            r.rows() == resolve_to_tracks(self.rows(), map@.lines),
            r.oid == self.oid,
            r.subject == self.subject,
            r.ref_names == self.ref_names,
            r.active_index() == self.active_index(),
            r.tracks@.len() == self.tracks@.len(),
            forall|i: int| 0 <= i < r.tracks@.len() ==> (#[trigger] r.tracks@[i]).is_active == self.tracks@[i].is_active,
    {
        let ghost rows = self.rows();
        let RailwayStation { tracks, oid, subject, ref_names, active_track_index } = self;
        let mut resolved: Vec<RailwayTrack> = Vec::new();
        let mut i: usize = 0;
        while i < tracks.len()
            invariant
                i <= tracks@.len(),
                rows == tracks@.map_values(|t: RailwayTrack| t@),
                map@.lines.no_duplicates(),
                forall|n: nat| #[trigger] to_line_set(rows).contains(n) ==> map@.lines.contains(n),
                resolved@.len() == i,
                forall|j: int| 0 <= j < i ==> (#[trigger] resolved@[j])@ == with_to_tracks(rows[j], map@.lines),
            decreases tracks@.len() - i,
        {
            assert forall|j: int| 0 <= j < tracks@[i as int].to_lines@.len() implies map@.lines.contains(
                #[trigger] tracks@[i as int].to_lines@[j].0 as nat,
            ) by {
                assert(rows[i as int].to_lines[j] == tracks@[i as int].to_lines@[j].0);
                assert(to_line_set(rows).contains(rows[i as int].to_lines[j]));
            }
            resolved.push(tracks[i].resolved(map));
            i += 1;
        }
        let r = RailwayStation { tracks: resolved, oid, subject, ref_names, active_track_index };
        assert(r.rows() =~= resolve_to_tracks(rows, map@.lines));
        r
    }
}

/// The stations match the walk model, station by station.
pub open spec fn stations_match(stations: Seq<RailwayStation>, w: WalkModel) -> bool {
    &&& stations.len() == w.stations.len()
    &&& forall|k: int|
        0 <= k < stations.len() ==> (#[trigger] stations[k]).rows() == w.stations[k] && stations[k].wf()
}

/// The station shows `commit`: its identifier, the first line of its message
/// and the names of the references that point at it.
pub open spec fn station_for(st: RailwayStation, commit: CommitRecord, table: Seq<(Seq<char>, Seq<char>)>) -> bool {
    &&& st.oid@ == commit.oid@
    &&& st.subject@ == first_line_of(message_text(commit.message))
    &&& st.ref_names@.map_values(|s: String| s@) == names_for(table, commit.oid@)
}

/// One step of the traversal: settle the allocator, resolve the last
/// station's downward tracks, place `commit` and its parents, add its station.
fn process_commit(
    map: &mut TrackLineMap,
    stations: &mut Vec<RailwayStation>,
    commit: &CommitRecord,
    ref_table: &RefTable,
    Ghost(w): Ghost<WalkModel>,
)
    requires
        old(map).wf(),
        old(map)@ == w.alloc,
        walk_inv(w),
        stations_match(old(stations)@, w),
        w.alloc.next + 1 + commit.parent_ids@.len() < usize::MAX,
    ensures
        final(map).wf(),
        final(map)@ == walk_step(w, commit_model(*commit)).alloc,
        stations_match(final(stations)@, walk_step(w, commit_model(*commit))),
        final(stations)@.len() == old(stations)@.len() + 1,
        forall|k: int|
            0 <= k < old(stations)@.len() ==> (#[trigger] final(stations)@[k]).oid == old(stations)@[k].oid
                && final(stations)@[k].subject == old(stations)@[k].subject
                && final(stations)@[k].ref_names == old(stations)@[k].ref_names,
        station_for(final(stations)@.last(), *commit, ref_table@),
{
    let ghost c = commit_model(*commit);
    let ghost keep_set = previous_keep(w);
    let ghost s0 = settled(w);
    proof {
        lemma_walk_step(w, c);
    }
    let keep: Vec<LineNumber>;
    if stations.len() > 0 {
        let last = match stations.pop() {
            Some(st) => st,
            None => {
                return;
            },
        };
        keep = last.to_lines_of();
        map.vacuum_unused_track_numbers(&keep);
        assert(line_set(keep@) == keep_set);
        assert(map@ == s0);
        let fixed = last.resolved(map);
        stations.push(fixed);
    } else {
        keep = Vec::new();
        assert(line_set(keep@) =~= keep_set);
    }
    assert(map@ == s0);
    let ghost mid = stations@;
    let active = map.take_line_number_or_aquire(&commit.oid);
    let ghost s1 = map@;
    assert((s1, active.0 as nat) == take_or_acquire(s0, c.oid));
    proof {
        lemma_take_or_acquire(s0, c.oid);
    }
    let mut free = true;
    let mut active_to: Vec<LineNumber> = Vec::new();
    let mut i: usize = 0;
    assert(c.parents.take(0) =~= Seq::<Seq<char>>::empty());
    assert(line_nums(active_to@) =~= Seq::<nat>::empty());
    while i < commit.parent_ids.len()
        invariant
            i <= commit.parent_ids@.len(),
            c == commit_model(*commit),
            map.wf(),
            (map@, line_nums(active_to@), free) == parents_fold(s1, active.0 as nat, c.parents.take(i as int)),
            s1.lines.contains(active.0 as nat),
            s1.next + c.parents.len() < usize::MAX,
        decreases commit.parent_ids@.len() - i,
    {
        proof {
            lemma_parents_fold(s1, active.0 as nat, c.parents.take(i as int));
            assert(c.parents.take(i + 1).drop_last() =~= c.parents.take(i as int));
        }
        let parent = &commit.parent_ids[i];
        assert(c.parents.take(i + 1).last() == parent@);
        let ghost old_to = active_to@;
        let line = if map.is_oid_assigned(parent) {
            map.take_line_number_or_aquire(parent)
        } else if free {
            free = false;
            active
        } else {
            map.take_line_number_or_aquire(parent)
        };
        map.set_next_oid(line, parent);
        active_to.push(line);
        assert(line_nums(active_to@) =~= line_nums(old_to).push(line.0 as nat));
        i += 1;
    }
    assert(c.parents.take(i as int) =~= c.parents);
    let ghost s2 = map@;
    let ghost to_nums = line_nums(active_to@);
    assert(walk_step(w, c).alloc == s2);
    let line_tracks = map.line_track_numbers();
    let mut tracks: Vec<RailwayTrack> = Vec::new();
    let mut t: usize = 0;
    while t < line_tracks.len()
        invariant
            t <= line_tracks@.len(),
            line_tracks@.len() == s2.lines.len(),
            forall|u: int|
                0 <= u < line_tracks@.len() ==> (#[trigger] line_tracks@[u]).0.0 == s2.lines[u]
                    && line_tracks@[u].1.0 == u,
            line_set(keep@) == keep_set,
            to_nums == line_nums(active_to@),
            tracks@.len() == t,
            forall|u: int|
                0 <= u < t ==> (#[trigger] tracks@[u])@ == row_at(s2.lines, keep_set, active.0 as nat, to_nums, u),
        decreases line_tracks@.len() - t,
    {
        let (line, track) = line_tracks[t];
        let continued = holds_line(&keep, line);
        let mut from_tracks: Vec<TrackNumber> = Vec::new();
        let mut from_lines: Vec<LineNumber> = Vec::new();
        if continued {
            from_tracks.push(track);
            from_lines.push(line);
        }
        let row = if line.0 == active.0 {
            RailwayTrack::new(line, track, true, from_tracks, copy_lines(&active_to))
        } else {
            RailwayTrack::new(line, track, false, from_tracks, from_lines)
        };
        proof {
            let expected = row_at(s2.lines, keep_set, active.0 as nat, to_nums, t as int);
            assert(row@.from_tracks =~= expected.from_tracks);
            assert(row@.to_lines =~= expected.to_lines);
            assert(row@.to_tracks =~= expected.to_tracks);
            assert(row@ == expected);
        }
        tracks.push(row);
        t += 1;
    }
    assert(s2.lines.contains(active.0 as nat));
    assert(exists|u: int| 0 <= u < tracks@.len() && (#[trigger] tracks@[u]).is_active) by {
        let u = choose|u: int| 0 <= u < s2.lines.len() && s2.lines[u] == active.0;
        assert(tracks@[u]@ == row_at(s2.lines, keep_set, active.0 as nat, to_nums, u));
    }
    let ghost new_rows = tracks@.map_values(|tr: RailwayTrack| tr@);
    assert(new_rows =~= build_rows(s2.lines, keep_set, active.0 as nat, to_nums));
    let names = ref_table.get_names_for_oid(&commit.oid);
    let station = RailwayStation::new(commit.oid.duplicate(), &commit.message, names, tracks);
    stations.push(station);
    proof {
        let w2 = walk_step(w, c);
        assert(w2.stations == mid.map_values(|st: RailwayStation| st.rows()).push(new_rows)) by {
            assert(mid.map_values(|st: RailwayStation| st.rows()) =~= if w.stations.len() > 0 {
                w.stations.update(w.stations.len() - 1, resolve_to_tracks(w.stations.last(), s0.lines))
            } else {
                w.stations
            });
        }
        assert forall|k: int| 0 <= k < stations@.len() implies (#[trigger] stations@[k]).rows() == w2.stations[k]
            && stations@[k].wf() by {
            if k < mid.len() {
                assert(stations@[k] == mid[k]);
                assert(w2.stations[k] == mid.map_values(|st: RailwayStation| st.rows())[k]);
            }
        }
    }
}

/// Lay out the commit graph: one station per commit, in the order given
/// (newest first, parents after children), each with the rows that the walk
/// model gives, the commit's identifier, subject and reference names.
pub fn collect_tree(commits: &Vec<CommitRecord>, ref_table: &RefTable) -> (r: Vec<RailwayStation>)
    requires
        link_count(commit_models(commits@)) < usize::MAX,
    ensures
        r@.len() == commits@.len(),
        forall|k: int|
            0 <= k < r@.len() ==> {
                &&& (#[trigger] r@[k]).rows() == walk(commit_models(commits@)).stations[k]
                &&& r@[k].wf()
                &&& station_for(r@[k], commits@[k], ref_table@)
            },
{
    let ghost all = commit_models(commits@);
    let mut map = TrackLineMap::new();
    let mut stations: Vec<RailwayStation> = Vec::new();
    let mut i: usize = 0;
    assert(all.take(0) =~= Seq::<CommitModel>::empty());
    while i < commits.len()
        invariant
            i <= commits@.len(),
            all == commit_models(commits@),
            link_count(all) < usize::MAX,
            map.wf(),
            map@ == walk(all.take(i as int)).alloc,
            stations_match(stations@, walk(all.take(i as int))),
            stations@.len() == i,
            forall|k: int| 0 <= k < i ==> station_for(#[trigger] stations@[k], commits@[k], ref_table@),
        decreases commits@.len() - i,
    {
        proof {
            lemma_walk(all.take(i as int));
            lemma_link_count_prefix(all, i + 1);
            assert(all.take(i + 1).drop_last() =~= all.take(i as int));
            assert(all.take(i + 1).last() == commit_model(commits@[i as int]));
        }
        let ghost before = stations@;
        process_commit(&mut map, &mut stations, &commits[i], ref_table, Ghost(walk(all.take(i as int))));
        assert forall|k: int| 0 <= k < i + 1 implies station_for(#[trigger] stations@[k], commits@[k], ref_table@) by {
            if k < i {
                assert(station_for(before[k], commits@[k], ref_table@));
                assert(stations@[k].oid == before[k].oid);
            }
        }
        i += 1;
    }
    assert(all.take(i as int) =~= all);
    proof {
        lemma_walk(all);
    }
    stations
}

/// A prefix of the commits needs no more lines than all of them.
pub proof fn lemma_link_count_prefix(commits: Seq<CommitModel>, i: int)
    requires
        0 <= i <= commits.len(),
    ensures
        link_count(commits.take(i)) <= link_count(commits),
    decreases commits.len(),
{
    if i < commits.len() {
        assert(commits.drop_last().take(i) =~= commits.take(i));
        lemma_link_count_prefix(commits.drop_last(), i);
    } else {
        assert(commits.take(i) =~= commits);
    }
}

} // verus!

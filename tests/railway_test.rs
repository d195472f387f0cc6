use metal_git::ids::CommitId;
use metal_git::railway::{collect_tree, CommitRecord, RailwayStation};
use metal_git::refs::{RefRecord, RefTable};

fn id(name: &str) -> CommitId {
    CommitId::new(format!("{:0>40}", name))
}

fn record(name: &str, parents: &[&str]) -> CommitRecord {
    CommitRecord {
        oid: id(name),
        parent_ids: parents.iter().map(|p| id(p)).collect(),
        message: Some(name.to_string()),
    }
}

fn layout(commits: &[CommitRecord]) -> Vec<RailwayStation> {
    let commits: Vec<CommitRecord> = commits
        .iter()
        .map(|c| CommitRecord {
            oid: c.oid.clone(),
            parent_ids: c.parent_ids.clone(),
            message: c.message.clone(),
        })
        .collect();
    collect_tree(&commits, &RefTable::collect(&Vec::new()))
}

// * B
// * A
fn flat_two() -> Vec<CommitRecord> {
    vec![record("B", &["A"]), record("A", &[])]
}

// *   D
// |\
// * | C
// | * B
// |/
// * A
fn two_parent_two_child() -> Vec<CommitRecord> {
    vec![
        record("D", &["C", "B"]),
        record("C", &["A"]),
        record("B", &["A"]),
        record("A", &[]),
    ]
}

fn branch_merge_branch_merge() -> Vec<CommitRecord> {
    vec![
        record("F", &["D", "C", "E"]),
        record("E", &["D"]),
        record("D", &["A", "B"]),
        record("C", &["A"]),
        record("B", &["A"]),
        record("A", &[]),
    ]
}

#[test]
pub fn collect_tree_flat_two() {
    let stations = layout(&flat_two());

    println!("Stations:");
    for station in stations.iter() {
        println!("{}", station.dump_tracks());
    }

    assert_eq!(2, stations.len());
    let (b, a) = (&stations[0], &stations[1]);
    assert_eq!("B", b.subject);
    assert_eq!("A", a.subject);

    assert_eq!("[ => 0* => 0]", b.dump_tracks());
    assert_eq!("[0 => 0* => ]", a.dump_tracks());
}

#[test]
pub fn collect_tree_two_parent_two_child() {
    let stations = layout(&two_parent_two_child());

    println!("Stations:");
    for station in stations.iter() {
        println!("{}", station.dump_tracks());
    }

    assert_eq!(4, stations.len());
    let (d, c, b, a) = (&stations[0], &stations[1], &stations[2], &stations[3]);
    assert_eq!("D", d.subject);
    assert_eq!("C", c.subject);
    assert_eq!("B", b.subject);
    assert_eq!("A", a.subject);

    assert_eq!("[ => 0* => 0,1] | [ => 1  => ]", d.dump_tracks());
    assert_eq!("[0 => 0* => 0] | [1 => 1  => 1]", c.dump_tracks());
    assert_eq!("[0 => 0  => 0] | [1 => 1* => 0]", b.dump_tracks());
    assert_eq!("[0 => 0* => ]", a.dump_tracks());
}

#[test]
pub fn collect_tree_branch_merge_branch_merge() {
    let stations = layout(&branch_merge_branch_merge());

    println!("Stations:");
    for station in stations.iter() {
        println!("{}", station.dump_tracks());
    }

    assert_eq!(6, stations.len());
    let (f, e, d, c, b, a) = (
        &stations[0],
        &stations[1],
        &stations[2],
        &stations[3],
        &stations[4],
        &stations[5],
    );
    assert_eq!("F", f.subject);
    assert_eq!("E", e.subject);
    assert_eq!("D", d.subject);
    assert_eq!("C", c.subject);
    assert_eq!("B", b.subject);
    assert_eq!("A", a.subject);

    assert_eq!("[ => 0* => 0,1,2] | [ => 1  => ] | [ => 2  => ]", f.dump_tracks());
    assert_eq!("[0 => 0  => 0] | [1 => 1  => 1] | [2 => 2* => 0]", e.dump_tracks());
    assert_eq!("[0 => 0* => 0,2] | [1 => 1  => 1] | [ => 2  => ]", d.dump_tracks());
    assert_eq!("[0 => 0  => 0] | [1 => 1* => 0] | [2 => 2  => 1]", c.dump_tracks());
    assert_eq!("[0 => 0  => 0] | [1 => 1* => 0]", b.dump_tracks());
    assert_eq!("[0 => 0* => ]", a.dump_tracks());
}

#[test]
fn every_station_has_one_active_track() {
    for commits in [flat_two(), two_parent_two_child(), branch_merge_branch_merge()] {
        for station in layout(&commits).iter() {
            assert_eq!(1, station.tracks.iter().filter(|t| t.is_active).count());
            assert!(station.active_track().is_active);
            assert!(station.tracks[station.active_track_index()].is_active);
        }
    }
}

#[test]
fn track_numbers_are_dense() {
    for commits in [flat_two(), two_parent_two_child(), branch_merge_branch_merge()] {
        for station in layout(&commits).iter() {
            for (i, track) in station.tracks.iter().enumerate() {
                assert_eq!(i, track.track_number.as_usize());
            }
        }
    }
}

#[test]
fn adjacent_stations_connect() {
    let stations = layout(&branch_merge_branch_merge());
    for k in 0..stations.len() - 1 {
        let (upper, lower) = (&stations[k], &stations[k + 1]);
        let mut handed: Vec<usize> = upper
            .tracks
            .iter()
            .flat_map(|t| t.to_lines.iter().map(|l| l.0))
            .collect();
        handed.sort();
        let counted = handed.clone();
        handed.dedup();
        let mut continued: Vec<usize> = lower
            .tracks
            .iter()
            .filter(|t| !t.from_tracks.is_empty())
            .map(|t| t.line_number.0)
            .collect();
        continued.sort();
        assert_eq!(handed, continued);
        if counted.len() == handed.len() {
            assert_eq!(counted, continued);
        }
        for track in upper.tracks.iter() {
            assert_eq!(track.to_lines.len(), track.to_tracks.len());
            for (line, to) in track.to_lines.iter().zip(track.to_tracks.iter()) {
                let target = &lower.tracks[to.as_usize()];
                assert_eq!(*line, target.line_number);
                assert_eq!(vec![*to], target.from_tracks);
            }
        }
    }
}

#[test]
fn root_commit_hands_on_nothing() {
    let stations = layout(&[record("R", &[])]);
    assert_eq!(1, stations.len());
    assert!(stations[0].active_track().to_lines.is_empty());
    assert_eq!("[ => 0* => ]", stations[0].dump_tracks());
}

#[test]
fn merge_hands_on_one_line_per_parent() {
    let stations = layout(&branch_merge_branch_merge());
    let f = stations[0].active_track();
    assert_eq!(3, f.to_lines.len());
    let d = stations[2].active_track();
    assert_eq!(2, d.to_lines.len());
    // the first parent continues the commit's own line, the others open new ones
    assert_eq!(f.line_number, f.to_lines[0]);
    assert_ne!(f.to_lines[1], f.to_lines[2]);
}

#[test]
fn layout_is_stable() {
    let first: Vec<String> = layout(&branch_merge_branch_merge()).iter().map(|s| s.dump_tracks()).collect();
    let second: Vec<String> = layout(&branch_merge_branch_merge()).iter().map(|s| s.dump_tracks()).collect();
    assert_eq!(first, second);
}

#[test]
fn no_commits_no_stations() {
    assert!(layout(&[]).is_empty());
}

#[test]
fn ref_names_follow_enumeration_order() {
    let refs = vec![
        RefRecord { shorthand: Some("master".to_string()), target: Some(id("B")) },
        RefRecord { shorthand: Some("v1".to_string()), target: Some(id("A")) },
        RefRecord { shorthand: None, target: Some(id("B")) },
        RefRecord { shorthand: Some("HEAD-less".to_string()), target: None },
        RefRecord { shorthand: Some("feature".to_string()), target: Some(id("B")) },
    ];
    let table = RefTable::collect(&refs);
    let stations = collect_tree(&flat_two(), &table);
    assert_eq!(vec!["master".to_string(), "feature".to_string()], stations[0].ref_names);
    assert_eq!(vec!["v1".to_string()], stations[1].ref_names);
    assert!(table.get_names_for_oid(&id("C")).is_empty());
}

#[test]
fn subject_is_first_line() {
    let mut commits = vec![record("A", &[])];
    commits[0].message = Some("Fix the thing\r\n\nLonger text".to_string());
    let stations = layout(&commits);
    assert_eq!("Fix the thing", stations[0].subject);
    commits[0].message = None;
    assert_eq!("", layout(&commits)[0].subject);
    assert_eq!(id("A"), layout(&commits)[0].oid);
}

#[test]
fn converging_rows_hand_on_one_line_twice() {
    let stations = layout(&two_parent_two_child());
    let b = &stations[2];
    let handed: Vec<usize> = b.tracks.iter().flat_map(|t| t.to_lines.iter().map(|l| l.0)).collect();
    assert_eq!(vec![0, 0], handed);
    let a = &stations[3];
    let continued: Vec<usize> =
        a.tracks.iter().filter(|t| !t.from_tracks.is_empty()).map(|t| t.line_number.0).collect();
    assert_eq!(vec![0], continued);
}

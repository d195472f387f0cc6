use metal_git::allocator::TrackLineMap;
use metal_git::commit_diff_util::ListCommitDiffFileEntry;
use metal_git::ids::{CommitId, LineNumber, TrackNumber};
use metal_git::railway::RailwayTrack;
use metal_git::repository_manager::RepositoryManager;
use metal_git::text::{first_line, push_comma_list, push_decimal};

fn id(name: &str) -> CommitId {
    CommitId::new(name.to_string())
}

#[test]
fn numbers_step() {
    assert_eq!(LineNumber(4), LineNumber(3).next_number());
    assert_eq!(TrackNumber(8), TrackNumber(7).next_number());
    assert_eq!(TrackNumber(6), TrackNumber(7).prev_number());
    assert_eq!(7, TrackNumber(7).as_usize());
}

#[test]
fn track_dump_text() {
    let mut track = RailwayTrack::new(
        LineNumber(5),
        TrackNumber(12),
        true,
        vec![TrackNumber(3)],
        vec![LineNumber(5), LineNumber(9)],
    );
    track.to_tracks = vec![TrackNumber(10), TrackNumber(2)];
    assert_eq!("[3 => 12* => 10,2]", track.dump_from_to());
    let passive = RailwayTrack::new(LineNumber(1), TrackNumber(0), false, vec![], vec![]);
    assert_eq!("[ => 0  => ]", passive.dump_from_to());
}

#[test]
fn decimal_text() {
    let mut s = String::from("x");
    push_decimal(&mut s, 0);
    push_decimal(&mut s, 1907);
    assert_eq!("x01907", s);
    let mut t = String::new();
    push_comma_list(&mut t, &vec![4, 10, 0]);
    assert_eq!("4,10,0", t);
}

#[test]
fn first_lines() {
    assert_eq!("abc", first_line("abc\ndef"));
    assert_eq!("abc", first_line("abc\r\ndef"));
    assert_eq!("abc\r", first_line("abc\r"));
    assert_eq!("", first_line("\nabc"));
    assert_eq!("", first_line(""));
    assert_eq!("ünï", first_line("ünï\nx"));
}

#[test]
fn allocator_issues_and_resumes_lines() {
    let mut map = TrackLineMap::new();
    let a = map.take_line_number_or_aquire(&id("a"));
    assert_eq!(LineNumber(0), a);
    assert!(!map.is_oid_assigned(&id("p")));
    map.set_next_oid(a, &id("p"));
    assert!(map.is_oid_assigned(&id("p")));
    let b = map.take_line_number_or_aquire(&id("q"));
    assert_eq!(LineNumber(1), b);
    assert_eq!(Some(TrackNumber(1)), map.convert_line_to_track(b));
    let again = map.take_line_number_or_aquire(&id("p"));
    assert_eq!(a, again);
    assert!(!map.is_oid_assigned(&id("p")));
    assert_eq!(LineNumber(2), map.next_line_number());
    assert_eq!(None, map.convert_line_to_track(LineNumber(7)));
}

#[test]
fn vacuum_keeps_survivor_order() {
    let mut map = TrackLineMap::new();
    let lines: Vec<LineNumber> = (0..5).map(|_| map.acquire_line_number()).collect();
    for line in lines.iter() {
        map.assign_track_number_if_required(*line);
    }
    map.assign_track_number_if_required(lines[2]);
    assert_eq!(5, map.line_track_numbers().len());
    map.vacuum_unused_track_numbers(&vec![lines[4], lines[1], lines[3]]);
    let after: Vec<(usize, usize)> =
        map.line_track_numbers().iter().map(|(l, t)| (l.0, t.0)).collect();
    assert_eq!(vec![(1, 0), (3, 1), (4, 2)], after);
    map.vacuum_unused_track_numbers(&vec![lines[1], lines[3], lines[4]]);
    let again: Vec<(usize, usize)> =
        map.line_track_numbers().iter().map(|(l, t)| (l.0, t.0)).collect();
    assert_eq!(after, again);
}

#[test]
fn file_move_text() {
    let moved = ListCommitDiffFileEntry {
        new_file_path: Some("b.rs".to_string()),
        old_file_path: Some("a.rs".to_string()),
    };
    assert_eq!("a.rs -> b.rs", moved.format_file_move());
    let same = ListCommitDiffFileEntry {
        new_file_path: Some("a.rs".to_string()),
        old_file_path: Some("a.rs".to_string()),
    };
    assert_eq!("a.rs", same.format_file_move());
    let added = ListCommitDiffFileEntry { new_file_path: Some("n.rs".to_string()), old_file_path: None };
    assert_eq!("n.rs", added.format_file_move());
    let deleted = ListCommitDiffFileEntry { new_file_path: None, old_file_path: Some("a.rs".to_string()) };
    assert_eq!("", deleted.format_file_move());
}

#[test]
fn repository_manager_path() {
    let mut manager = RepositoryManager::new();
    assert_eq!("", manager.work_dir_path());
    manager.set_work_dir_path("/tmp/repo");
    assert_eq!("/tmp/repo", manager.work_dir_path());
}

#[test]
fn commit_ids_compare() {
    assert!(id("abc").same_as(&id("abc")));
    assert!(!id("abc").same_as(&id("abd")));
    assert_eq!("abc", id("abc").duplicate().as_str());
}

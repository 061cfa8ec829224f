use playlist_restore::config::{check_input_correct, read_config, DirEntryInfo};
use playlist_restore::descriptor::{
    descriptor_from_fields, parse_position, read_descriptor, read_descriptors, Descriptor,
    DescriptorError,
};
use playlist_restore::materialize::{file_name, pending, plan};
use playlist_restore::playlist::Playlist;
use playlist_restore::pool::{Metadata, PoolError, SourceItem, TrackPool};
use playlist_restore::reconcile::reconcile;
use playlist_restore::run::{collect_leftovers, reconcile_all, PlaylistInput};
use playlist_restore::track::Track;

fn track(title: &str, source: &str) -> Track {
    Track::new(title.to_string(), source.to_string())
}

fn pool_of(tracks: &[(&str, &str)]) -> TrackPool {
    TrackPool::from_tracks(tracks.iter().map(|(t, s)| track(t, s)).collect())
}

fn desc(title: &str, position: usize) -> Descriptor {
    Descriptor { title: title.to_string(), position }
}

fn slots(p: &Playlist) -> Vec<(usize, String, String)> {
    (0..p.len())
        .map(|i| (p.position_at(i), p.track_at(i).title.clone(), p.track_at(i).source.clone()))
        .collect()
}

fn pool_titles(pool: &TrackPool) -> Vec<String> {
    (0..pool.len()).map(|i| pool.title_at(i).clone()).collect()
}

fn fields(title: &str, position: &str) -> Vec<String> {
    let mut f: Vec<String> = vec![title.to_string()];
    for i in 1..7 {
        f.push(format!("f{}", i));
    }
    f.push(position.to_string());
    f
}

#[test]
fn scenario_one_playlist_and_misc() {
    let mut pool = pool_of(&[("A", "pathA"), ("B", "pathB"), ("C", "pathC")]);
    let report = reconcile(&mut pool, "Favourites".to_string(), &vec![desc("B", 0), desc("Z", 1)]);
    assert_eq!(report.playlist.name(), "Favourites");
    assert_eq!(slots(&report.playlist), vec![(0, "B".to_string(), "pathB".to_string())]);
    assert_eq!(report.unmatched, vec![1]);
    assert!(report.displaced.is_empty());
    assert_eq!(pool_titles(&pool), vec!["A".to_string(), "C".to_string()]);
    let misc = collect_leftovers(&mut pool).unwrap();
    assert_eq!(misc.name(), "Misc");
    assert_eq!(
        slots(&misc),
        vec![(0, "C".to_string(), "pathC".to_string()), (1, "A".to_string(), "pathA".to_string())]
    );
    assert!(pool.is_empty());
}

#[test]
fn entity_encoded_title_matches_plain_title() {
    let d = descriptor_from_fields(&fields("Rock &amp; Roll", "0")).unwrap();
    assert_eq!(d.title, "Rock & Roll");
    assert_eq!(d.position, 0);
    let mut pool = pool_of(&[("Rock & Roll", "song.mp3")]);
    let report = reconcile(&mut pool, "P".to_string(), &vec![d]);
    assert_eq!(slots(&report.playlist), vec![(0, "Rock & Roll".to_string(), "song.mp3".to_string())]);
    assert!(report.unmatched.is_empty());
    assert!(pool.is_empty());
}

#[test]
fn numeric_entities_are_decoded() {
    let d = descriptor_from_fields(&fields("Caf&#233; &#x41;", "3")).unwrap();
    assert_eq!(d.title, "Caf\u{e9} A");
    assert_eq!(d.position, 3);
}

#[test]
fn unmatched_descriptor_does_not_stop_the_pass() {
    let mut pool = pool_of(&[("A", "a"), ("B", "b")]);
    let ds = vec![desc("X", 0), desc("A", 1), desc("Y", 2), desc("B", 3)];
    let report = reconcile(&mut pool, "P".to_string(), &ds);
    assert_eq!(
        slots(&report.playlist),
        vec![(1, "A".to_string(), "a".to_string()), (3, "B".to_string(), "b".to_string())]
    );
    assert_eq!(report.unmatched, vec![0, 2]);
    assert!(pool.is_empty());
}

#[test]
fn a_track_is_claimed_by_one_playlist_only() {
    let mut pool = pool_of(&[("A", "a"), ("B", "b"), ("C", "c")]);
    let inputs = vec![
        PlaylistInput { name: "first".to_string(), descriptors: vec![desc("B", 0), desc("A", 1)] },
        PlaylistInput { name: "second".to_string(), descriptors: vec![desc("B", 0), desc("C", 1)] },
    ];
    let reports = reconcile_all(&mut pool, &inputs);
    assert_eq!(reports.len(), 2);
    assert_eq!(
        slots(&reports[0].playlist),
        vec![(0, "B".to_string(), "b".to_string()), (1, "A".to_string(), "a".to_string())]
    );
    assert_eq!(slots(&reports[1].playlist), vec![(1, "C".to_string(), "c".to_string())]);
    assert_eq!(reports[1].unmatched, vec![0]);
    assert!(pool.is_empty());
    assert!(collect_leftovers(&mut pool).is_none());
}

#[test]
fn all_tracks_end_up_somewhere_exactly_once() {
    let mut pool = pool_of(&[("A", "a"), ("B", "b"), ("C", "c"), ("D", "d")]);
    let inputs = vec![
        PlaylistInput { name: "x".to_string(), descriptors: vec![desc("D", 5)] },
        PlaylistInput { name: "y".to_string(), descriptors: vec![desc("A", 0), desc("Q", 1)] },
    ];
    let reports = reconcile_all(&mut pool, &inputs);
    let misc = collect_leftovers(&mut pool).unwrap();
    let mut all: Vec<String> = Vec::new();
    for r in &reports {
        all.extend(slots(&r.playlist).into_iter().map(|s| s.2));
    }
    all.extend(slots(&misc).into_iter().map(|s| s.2));
    all.sort();
    assert_eq!(all, vec!["a", "b", "c", "d"]);
}

#[test]
fn first_pooled_track_wins_on_equal_titles() {
    let mut pool = pool_of(&[("A", "first"), ("A", "second")]);
    let report = reconcile(&mut pool, "P".to_string(), &vec![desc("A", 0)]);
    assert_eq!(slots(&report.playlist), vec![(0, "A".to_string(), "first".to_string())]);
    assert_eq!(pool.len(), 1);
    assert_eq!(pool.find_by_title(&"A".to_string()), Some(0));
}

#[test]
fn duplicate_position_overwrites_and_reports() {
    let mut pool = pool_of(&[("A", "a"), ("B", "b")]);
    let report = reconcile(&mut pool, "P".to_string(), &vec![desc("A", 2), desc("B", 2)]);
    assert_eq!(slots(&report.playlist), vec![(2, "B".to_string(), "b".to_string())]);
    assert_eq!(report.displaced.len(), 1);
    assert_eq!(report.displaced[0].title, "A");
}

#[test]
fn slots_come_out_in_ascending_position() {
    let mut p = Playlist::new("P".to_string());
    assert!(p.place(7, track("x", "1")).is_none());
    assert!(p.place(2, track("y", "2")).is_none());
    assert!(p.place(4, track("z", "3")).is_none());
    let positions: Vec<usize> = slots(&p).into_iter().map(|s| s.0).collect();
    assert_eq!(positions, vec![2, 4, 7]);
}

#[test]
fn populate_builds_pool_in_order() {
    let items = vec![
        SourceItem { source: "a.mp3".to_string(), metadata: Metadata::Titled("A".to_string()) },
        SourceItem { source: "b.mp3".to_string(), metadata: Metadata::Titled("B".to_string()) },
    ];
    let pool = TrackPool::populate(&items).unwrap();
    assert_eq!(pool_titles(&pool), vec!["A".to_string(), "B".to_string()]);
}

#[test]
fn populate_fails_on_unreadable_metadata() {
    let items = vec![
        SourceItem { source: "a.mp3".to_string(), metadata: Metadata::Titled("A".to_string()) },
        SourceItem { source: "b.mp3".to_string(), metadata: Metadata::Unreadable },
        SourceItem { source: "c.mp3".to_string(), metadata: Metadata::Untitled },
    ];
    match TrackPool::populate(&items) {
        Err(PoolError::ExtractionError(s)) => assert_eq!(s, "b.mp3"),
        _ => panic!("expected an extraction error"),
    }
}

#[test]
fn populate_fails_on_missing_title() {
    let items = vec![SourceItem { source: "c.mp3".to_string(), metadata: Metadata::Untitled }];
    match TrackPool::populate(&items) {
        Err(PoolError::MissingTitleError(s)) => assert_eq!(s, "c.mp3"),
        _ => panic!("expected a missing-title error"),
    }
}

#[test]
fn position_parsing() {
    assert_eq!(parse_position("42"), Some(42));
    assert_eq!(parse_position("0"), Some(0));
    assert_eq!(parse_position("+7"), Some(7));
    assert_eq!(parse_position(""), None);
    assert_eq!(parse_position("+"), None);
    assert_eq!(parse_position("-1"), None);
    assert_eq!(parse_position("4a"), None);
    assert_eq!(parse_position(" 4"), None);
    assert_eq!(parse_position("18446744073709551615"), Some(usize::MAX));
    assert_eq!(parse_position("18446744073709551616"), None);
}

#[test]
fn descriptor_field_errors() {
    assert_eq!(
        descriptor_from_fields(&vec!["A".to_string(); 7]).err(),
        Some(DescriptorError::MissingField)
    );
    assert_eq!(
        descriptor_from_fields(&fields("&nosuchentity;", "1")).err(),
        Some(DescriptorError::BadTitle)
    );
    assert_eq!(descriptor_from_fields(&fields("A", "one")).err(), Some(DescriptorError::BadPosition));
}

const HEADER: &str = "Title,Album,Artist,Duration,Rating,Plays,Removed,Position\n";

#[test]
fn descriptor_from_record_text() {
    let text = format!("{}Rock &amp; Roll,Al,Ar,1000,0,3,,12\n", HEADER);
    let d = read_descriptor(text.as_bytes()).unwrap();
    assert_eq!(d.title, "Rock & Roll");
    assert_eq!(d.position, 12);
}

#[test]
fn quoted_field_with_comma() {
    let text = format!("{}\"Hello, World\",Al,Ar,1000,0,3,,4\n", HEADER);
    let d = read_descriptor(text.as_bytes()).unwrap();
    assert_eq!(d.title, "Hello, World");
    assert_eq!(d.position, 4);
}

#[test]
fn record_text_errors() {
    assert_eq!(read_descriptor(HEADER.as_bytes()).err(), Some(DescriptorError::NoRecord));
    let short = format!("{}A,B\n", HEADER);
    assert_eq!(read_descriptor(short.as_bytes()).err(), Some(DescriptorError::Malformed));
}

#[test]
fn descriptors_of_a_playlist() {
    let good = format!("{}A,x,x,x,x,x,,1\n", HEADER).into_bytes();
    let bad = format!("{}B,x,x,x,x,x,,z\n", HEADER).into_bytes();
    let ds = read_descriptors(&vec![good.clone(), good.clone()]).unwrap();
    assert_eq!(ds.len(), 2);
    assert_eq!(ds[1].title, "A");
    match read_descriptors(&vec![good, bad]) {
        Err((1, DescriptorError::BadPosition)) => {}
        _ => panic!("expected a position error at the second record"),
    }
}

#[test]
fn file_names() {
    assert_eq!(file_name(3, &"AC/DC".to_string()), "3_AC_DC.mp3");
    assert_eq!(file_name(0, &"Song".to_string()), "0_Song.mp3");
    assert_eq!(file_name(120, &"a/b/c".to_string()), "120_a_b_c.mp3");
}

#[test]
fn materializing_twice_copies_nothing_new() {
    let mut p = Playlist::new("P".to_string());
    p.place(1, track("B/side", "b.mp3"));
    p.place(0, track("A", "a.mp3"));
    let steps = plan(&p);
    let names: Vec<String> = steps.iter().map(|s| s.file_name.clone()).collect();
    assert_eq!(names, vec!["0_A.mp3".to_string(), "1_B_side.mp3".to_string()]);
    assert_eq!(steps[1].source, "b.mp3");
    let present = vec!["0_A.mp3".to_string(), "other".to_string()];
    assert_eq!(pending(&steps, &present), vec![1]);
    assert_eq!(pending(&steps, &vec![]), vec![0, 1]);
    let mut after = present.clone();
    after.push("1_B_side.mp3".to_string());
    assert!(pending(&steps, &after).is_empty());
}

#[test]
fn config_needs_two_arguments() {
    let args = vec!["prog".to_string(), "in".to_string()];
    assert_eq!(read_config(&args), Err("not enough arguments"));
    let args = vec!["prog".to_string(), "in".to_string(), "out".to_string()];
    assert_eq!(read_config(&args), Ok(("in", "out")));
}

#[test]
fn input_layout_is_found() {
    let e = |n: &str, d: bool| DirEntryInfo { name: n.to_string(), is_dir: d };
    let layout = check_input_correct(&vec![e("Tracks", false), e("Playlists", true), e("x", true)]);
    assert_eq!(layout.playlists, Some(1));
    assert_eq!(layout.tracks, None);
    assert!(!layout.is_complete());
    let layout = check_input_correct(&vec![e("Tracks", true), e("Playlists", true)]);
    assert!(layout.is_complete());
    assert_eq!(layout.tracks, Some(0));
}

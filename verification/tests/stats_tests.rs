use spotify_history::song::{FullSongDetails, Timestamp};
use spotify_history::stats::{
    build_unique_song_stats, count_unique_shuffled, sorted_unique_by, try_build_unique_song_stats,
    SongStats, SongStatsTable, SortKey,
};

fn play(track: Option<&str>, artist: Option<&str>, shuffle: bool, skipped: bool) -> FullSongDetails {
    FullSongDetails {
        ts: Timestamp { secs: 1_700_000_000, nanos: 0 },
        platform: "linux".to_string(),
        ms_played: 180_000,
        conn_country: "NL".to_string(),
        ip_addr: "127.0.0.1".to_string(),
        master_metadata_track_name: track.map(|s| s.to_string()),
        master_metadata_album_artist_name: artist.map(|s| s.to_string()),
        master_metadata_album_album_name: None,
        spotify_track_uri: track.map(|s| format!("spotify:track:{}", s)),
        episode_name: None,
        episode_show_name: None,
        spotify_episode_uri: None,
        audiobook_title: None,
        audiobook_uri: None,
        audiobook_chapter_uri: None,
        audiobook_chapter_title: None,
        reason_start: "trackdone".to_string(),
        reason_end: "trackdone".to_string(),
        shuffle,
        skipped,
        offline: Some(false),
        offline_timestamp: None,
        incognito_mode: false,
    }
}

fn stats_of<'a>(ranked: &'a [(String, SongStats)], name: &str) -> &'a SongStats {
    &ranked.iter().find(|(t, _)| t == name).expect("track present").1
}

#[test]
fn counts_plays_shuffles_and_skips_per_track() {
    let songs = vec![
        play(Some("Halo"), Some("Beyonce"), true, false),
        play(Some("Halo"), Some("Beyonce"), false, true),
        play(Some("Halo"), Some("Beyonce"), true, true),
        play(Some("Yellow"), Some("Coldplay"), false, false),
    ];
    let table = build_unique_song_stats(&songs);
    assert_eq!(table.len(), 2);
    let halo = table.get(&"Halo".to_string()).unwrap();
    assert_eq!(halo.play_count, 3);
    assert_eq!(halo.shuffled_count, 2);
    assert_eq!(halo.skipped_count, 2);
    assert_eq!(halo.full_play_count, 1);
    assert_eq!(halo.artist_name, "Beyonce");
    let yellow = table.get(&"Yellow".to_string()).unwrap();
    assert_eq!(yellow.play_count, 1);
    assert_eq!(yellow.full_play_count, 1);
    assert!(table.get(&"Clocks".to_string()).is_none());
}

#[test]
fn plays_without_a_track_name_are_ignored() {
    let songs = vec![
        play(None, Some("Podcast"), false, false),
        play(Some("Song"), None, false, false),
    ];
    let table = build_unique_song_stats(&songs);
    assert_eq!(table.len(), 1);
    assert_eq!(table.get(&"Song".to_string()).unwrap().artist_name, "Unknown Artist");
}

#[test]
fn artist_comes_from_the_first_play() {
    let songs = vec![
        play(Some("Intro"), Some("The xx"), false, false),
        play(Some("Intro"), Some("M83"), false, false),
    ];
    let table = build_unique_song_stats(&songs);
    assert_eq!(table.get(&"Intro".to_string()).unwrap().artist_name, "The xx");
    assert_eq!(table.get(&"Intro".to_string()).unwrap().play_count, 2);
}

#[test]
fn empty_history_gives_empty_table() {
    let table = build_unique_song_stats(&[]);
    assert_eq!(table.len(), 0);
    assert_eq!(count_unique_shuffled(&table), 0);
    assert!(sorted_unique_by(table, SortKey::FullPlay).is_empty());
}

#[test]
fn ranking_orders_by_full_plays_then_name() {
    let songs = vec![
        play(Some("b"), Some("x"), false, false),
        play(Some("a"), Some("x"), false, false),
        play(Some("c"), Some("x"), false, false),
        play(Some("c"), Some("x"), false, false),
        play(Some("c"), Some("x"), false, true),
        play(Some("d"), Some("x"), false, true),
        play(Some("B"), Some("x"), false, false),
    ];
    let table = build_unique_song_stats(&songs);
    let ranked = sorted_unique_by(table, SortKey::FullPlay);
    let names: Vec<&str> = ranked.iter().map(|(t, _)| t.as_str()).collect();
    // "c" has two full plays; "B", "a", "b" one each, by byte order; "d" none.
    assert_eq!(names, vec!["c", "B", "a", "b", "d"]);
    assert_eq!(stats_of(&ranked, "c").full_play_count, 2);
    assert_eq!(stats_of(&ranked, "d").full_play_count, 0);
}

#[test]
fn ranking_ties_use_utf8_byte_order_and_prefixes_first() {
    let songs = vec![
        play(Some("zebra"), Some("x"), false, false),
        play(Some("\u{e9}t\u{e9}"), Some("x"), false, false),
        play(Some("ab"), Some("x"), false, false),
        play(Some("a"), Some("x"), false, false),
    ];
    let ranked = sorted_unique_by(build_unique_song_stats(&songs), SortKey::FullPlay);
    let names: Vec<&str> = ranked.iter().map(|(t, _)| t.as_str()).collect();
    assert_eq!(names, vec!["a", "ab", "zebra", "\u{e9}t\u{e9}"]);
}

#[test]
fn ranking_lists_every_track_once() {
    let mut songs = Vec::new();
    for i in 0..50u32 {
        let name = format!("track{}", i % 17);
        songs.push(play(Some(&name), Some("x"), i % 3 == 0, i % 5 == 0));
    }
    let table = build_unique_song_stats(&songs);
    assert_eq!(table.len(), 17);
    let ranked = sorted_unique_by(table, SortKey::FullPlay);
    assert_eq!(ranked.len(), 17);
    for w in ranked.windows(2) {
        let (a, b) = (&w[0], &w[1]);
        assert!(
            a.1.full_play_count > b.1.full_play_count
                || (a.1.full_play_count == b.1.full_play_count && a.0 < b.0)
        );
    }
    let total: u32 = ranked.iter().map(|(_, s)| s.play_count).sum();
    assert_eq!(total, 50);
}

#[test]
fn counts_tracks_played_in_shuffle_mode() {
    let songs = vec![
        play(Some("a"), Some("x"), true, false),
        play(Some("a"), Some("x"), true, false),
        play(Some("b"), Some("x"), false, false),
        play(Some("c"), Some("x"), false, false),
        play(Some("c"), Some("x"), true, true),
    ];
    let table = build_unique_song_stats(&songs);
    assert_eq!(count_unique_shuffled(&table), 2);
}

#[test]
fn full_plays_plus_skips_make_all_plays() {
    let mut songs = Vec::new();
    for i in 0..30u32 {
        songs.push(play(Some(if i % 2 == 0 { "even" } else { "odd" }), Some("x"), false, i % 3 == 0));
    }
    let ranked = sorted_unique_by(build_unique_song_stats(&songs), SortKey::FullPlay);
    for (_, s) in &ranked {
        assert_eq!(s.full_play_count + s.skipped_count, s.play_count);
        assert!(s.shuffled_count <= s.play_count);
    }
    assert_eq!(stats_of(&ranked, "even").skipped_count, 5);
    assert_eq!(stats_of(&ranked, "odd").skipped_count, 5);
}

#[test]
fn ranking_does_not_depend_on_the_order_of_the_history() {
    let mut songs = Vec::new();
    for i in 0..40u32 {
        let name = format!("t{}", (i * 7) % 11);
        songs.push(play(Some(&name), Some("x"), i % 2 == 0, i % 4 == 0));
    }
    let forward = sorted_unique_by(build_unique_song_stats(&songs), SortKey::FullPlay);
    songs.reverse();
    let backward = sorted_unique_by(build_unique_song_stats(&songs), SortKey::FullPlay);
    let f: Vec<(String, u32, u32)> = forward.iter().map(|(t, s)| (t.clone(), s.play_count, s.full_play_count)).collect();
    let b: Vec<(String, u32, u32)> = backward.iter().map(|(t, s)| (t.clone(), s.play_count, s.full_play_count)).collect();
    assert_eq!(f, b);
}

#[test]
fn many_distinct_tracks_are_all_found_again() {
    let mut songs = Vec::new();
    for i in 0..3000u32 {
        let name = format!("song number {}", i % 1000);
        songs.push(play(Some(&name), Some("x"), false, false));
    }
    let table = build_unique_song_stats(&songs);
    assert_eq!(table.len(), 1000);
    for i in 0..1000u32 {
        assert_eq!(table.get(&format!("song number {}", i)).unwrap().play_count, 3);
    }
}

fn st(n: u32) -> SongStats {
    SongStats {
        play_count: n,
        shuffled_count: 0,
        skipped_count: 0,
        full_play_count: n,
        artist_name: "X".to_string(),
    }
}

#[test]
fn ranking_a_table_built_from_entries() {
    let table = SongStatsTable::from_entries(vec![
        ("b".to_string(), st(5)),
        ("a".to_string(), st(5)),
        ("c".to_string(), st(9)),
        ("d".to_string(), st(0)),
    ]);
    assert_eq!(table.len(), 4);
    let result = sorted_unique_by(table, SortKey::FullPlay);
    assert_eq!(result.len(), 4);
    assert_eq!(result.iter().map(|e| e.0.as_str()).collect::<Vec<_>>(), vec!["c", "a", "b", "d"]);
    assert_eq!(result[0].1.full_play_count, 9);
}

#[test]
fn a_later_entry_replaces_an_earlier_one() {
    let table = SongStatsTable::from_entries(vec![("a".to_string(), st(1)), ("a".to_string(), st(7))]);
    assert_eq!(table.len(), 1);
    assert_eq!(table.get(&"a".to_string()).unwrap().play_count, 7);
}

#[test]
fn try_build_agrees_with_build() {
    let songs = vec![
        play(Some("a"), Some("x"), true, false),
        play(None, Some("x"), true, true),
        play(Some("a"), None, false, true),
    ];
    let table = try_build_unique_song_stats(&songs).unwrap();
    assert_eq!(table.get(&"a".to_string()).unwrap().play_count, 2);
    assert_eq!(count_unique_shuffled(&table), 1);
}

#[test]
fn a_play_without_a_track_name_changes_nothing() {
    let base = vec![play(Some("a"), Some("x"), false, false), play(Some("b"), Some("y"), true, true)];
    let more = vec![
        play(Some("a"), Some("x"), false, false),
        play(None, Some("z"), true, true),
        play(Some("b"), Some("y"), true, true),
    ];
    let r1 = sorted_unique_by(build_unique_song_stats(&base), SortKey::FullPlay);
    let r2 = sorted_unique_by(build_unique_song_stats(&more), SortKey::FullPlay);
    let key = |r: &Vec<(String, SongStats)>| {
        r.iter()
            .map(|(t, s)| (t.clone(), s.play_count, s.shuffled_count, s.skipped_count, s.full_play_count, s.artist_name.clone()))
            .collect::<Vec<_>>()
    };
    assert_eq!(key(&r1), key(&r2));
}

fn shuffled(n: u32, shuffles: u32) -> SongStats {
    SongStats { shuffled_count: shuffles, ..st(n) }
}

#[test]
fn a_new_shuffled_track_adds_one_to_the_shuffled_count() {
    let base = vec![("a".to_string(), shuffled(3, 1)), ("b".to_string(), shuffled(2, 0))];
    let before = count_unique_shuffled(&SongStatsTable::from_entries(base.clone()));
    assert_eq!(before, 1);
    let mut with_shuffled = base.clone();
    with_shuffled.push(("c".to_string(), shuffled(4, 2)));
    assert_eq!(count_unique_shuffled(&SongStatsTable::from_entries(with_shuffled)), before + 1);
    let mut with_plain = base;
    with_plain.push(("d".to_string(), shuffled(4, 0)));
    assert_eq!(count_unique_shuffled(&SongStatsTable::from_entries(with_plain)), before);
}


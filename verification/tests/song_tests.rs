use spotify_history::song::{FullSongDetails, Timestamp};

fn entry(uri: Option<&str>, shuffle: bool, skipped: bool, ms: u64) -> FullSongDetails {
    FullSongDetails {
        ts: Timestamp { secs: 1_600_000_000, nanos: 5 },
        platform: "android".to_string(),
        ms_played: ms,
        conn_country: "DE".to_string(),
        ip_addr: "10.0.0.1".to_string(),
        master_metadata_track_name: Some("Name".to_string()),
        master_metadata_album_artist_name: Some("Artist".to_string()),
        master_metadata_album_album_name: Some("Album".to_string()),
        spotify_track_uri: uri.map(|s| s.to_string()),
        episode_name: None,
        episode_show_name: None,
        spotify_episode_uri: None,
        audiobook_title: None,
        audiobook_uri: None,
        audiobook_chapter_uri: None,
        audiobook_chapter_title: None,
        reason_start: "clickrow".to_string(),
        reason_end: "endplay".to_string(),
        shuffle,
        skipped,
        offline: None,
        offline_timestamp: None,
        incognito_mode: false,
    }
}

#[test]
fn filter_tracks_keeps_plays_with_a_track_uri_in_order() {
    let songs = vec![
        entry(Some("spotify:track:1"), false, false, 1),
        entry(None, false, false, 2),
        entry(Some("spotify:track:3"), false, false, 3),
        entry(None, false, false, 4),
    ];
    let kept = FullSongDetails::filter_tracks(songs);
    let ms: Vec<u64> = kept.iter().map(|s| s.ms_played).collect();
    assert_eq!(ms, vec![1, 3]);
}

#[test]
fn filter_tracks_twice_is_filter_tracks_once() {
    let songs = vec![
        entry(None, false, false, 1),
        entry(Some("spotify:track:2"), false, false, 2),
    ];
    let once = FullSongDetails::filter_tracks(songs);
    let twice = FullSongDetails::filter_tracks(once);
    assert_eq!(twice.len(), 1);
    assert_eq!(twice[0].ms_played, 2);
}

#[test]
fn filter_tracks_of_nothing_is_nothing() {
    assert!(FullSongDetails::filter_tracks(Vec::new()).is_empty());
}

#[test]
fn shuffle_and_skip_flags_are_reported() {
    let s = entry(Some("u"), true, false, 0);
    assert!(s.is_shuffled());
    assert!(!s.is_skipped());
    let t = entry(Some("u"), false, true, 0);
    assert!(!t.is_shuffled());
    assert!(t.is_skipped());
}

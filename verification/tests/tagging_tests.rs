use spotify_history::tagging::{track_index, SpotifyTrack, TrackIndex, TrackTags};

fn play(track: Option<&str>, artist: Option<&str>, album: Option<&str>) -> SpotifyTrack {
    SpotifyTrack {
        master_metadata_track_name: track.map(|s| s.to_string()),
        master_metadata_album_artist_name: artist.map(|s| s.to_string()),
        master_metadata_album_album_name: album.map(|s| s.to_string()),
    }
}

fn tags(title: &str, artist: &str, album: &str) -> TrackTags {
    TrackTags { title: title.to_string(), artist: artist.to_string(), album: album.to_string() }
}

#[test]
fn index_files_plays_under_normalised_artist_and_title() {
    let plays = vec![
        play(Some("Halo"), Some("Beyonce"), Some("I Am... Sasha Fierce")),
        play(Some("Yellow"), Some("Coldplay"), None),
        play(None, Some("Nobody"), None),
        play(Some("Untitled"), None, None),
    ];
    let index = track_index(&plays);
    assert_eq!(index.len(), 2);
    let halo = index.get(&"beyonce  halo".to_string()).unwrap();
    assert_eq!(halo.title, "Halo");
    assert_eq!(halo.artist, "Beyonce");
    assert_eq!(halo.album, "I Am... Sasha Fierce");
    let yellow = index.get(&"coldplay  yellow".to_string()).unwrap();
    assert_eq!(yellow.album, "");
}

#[test]
fn a_later_play_replaces_an_earlier_one_under_the_same_name() {
    let plays = vec![
        play(Some("Halo"), Some("Beyonce"), Some("First")),
        play(Some("HALO!"), Some("beyonce"), Some("Second")),
    ];
    let index = track_index(&plays);
    assert_eq!(index.len(), 1);
    let t = index.get(&"beyonce  halo".to_string()).unwrap();
    assert_eq!(t.album, "Second");
    assert_eq!(t.title, "HALO!");
}

#[test]
fn insert_then_get_gives_back_the_tags() {
    let mut index = TrackIndex::new();
    assert_eq!(index.len(), 0);
    index.insert("k".to_string(), tags("a", "b", "c"));
    index.insert("k".to_string(), tags("x", "y", "z"));
    index.insert("other".to_string(), tags("1", "2", "3"));
    assert_eq!(index.len(), 2);
    assert_eq!(index.get(&"k".to_string()).unwrap().title, "x");
    assert!(index.get(&"missing".to_string()).is_none());
}

#[test]
fn find_match_prefers_the_exact_name() {
    let mut index = TrackIndex::new();
    index.insert("muse".to_string(), tags("short", "", ""));
    index.insert("muse  uprising".to_string(), tags("Uprising", "Muse", "The Resistance"));
    let m = index.find_match(&"muse  uprising".to_string()).unwrap();
    assert_eq!(m.title, "Uprising");
}

#[test]
fn find_match_falls_back_to_a_name_inside_the_file_name() {
    let mut index = TrackIndex::new();
    index.insert("muse  uprising".to_string(), tags("Uprising", "Muse", "The Resistance"));
    let m = index.find_match(&"01 muse  uprising official video".to_string()).unwrap();
    assert_eq!(m.artist, "Muse");
    assert!(index.find_match(&"muse uprising".to_string()).is_none());
    assert!(index.find_match(&"".to_string()).is_none());
}

use spotify_history::csv_export::{csv_records, decimal, song_stats_csv};
use spotify_history::stats::SongStats;

fn entry(track: &str, artist: &str, plays: u32, shuffled: u32, full: u32) -> (String, SongStats) {
    (
        track.to_string(),
        SongStats {
            play_count: plays,
            shuffled_count: shuffled,
            skipped_count: plays - full,
            full_play_count: full,
            artist_name: artist.to_string(),
        },
    )
}

#[test]
fn decimal_numerals() {
    assert_eq!(decimal(0), "0");
    assert_eq!(decimal(7), "7");
    assert_eq!(decimal(10), "10");
    assert_eq!(decimal(305), "305");
    assert_eq!(decimal(u32::MAX), "4294967295");
}

#[test]
fn csv_has_a_header_and_one_row_per_track() {
    let rows = vec![entry("Halo", "Beyonce", 3, 2, 1), entry("Yellow", "Coldplay", 10, 0, 10)];
    let bytes = song_stats_csv(&rows).unwrap();
    assert_eq!(
        String::from_utf8(bytes).unwrap(),
        "track_name,artist_name,play_count,shuffled_count,full_play_count\n\
         Halo,Beyonce,3,2,1\n\
         Yellow,Coldplay,10,0,10\n"
    );
}

#[test]
fn csv_quotes_fields_that_need_it() {
    let rows = vec![entry("Hello, Goodbye", "The \"Fab\" Four", 1, 1, 1)];
    let text = String::from_utf8(song_stats_csv(&rows).unwrap()).unwrap();
    assert_eq!(
        text,
        "track_name,artist_name,play_count,shuffled_count,full_play_count\n\
         \"Hello, Goodbye\",\"The \"\"Fab\"\" Four\",1,1,1\n"
    );
}

#[test]
fn csv_of_no_tracks_is_empty() {
    assert!(song_stats_csv(&[]).unwrap().is_empty());
    assert!(csv_records(&[]).is_empty());
}

#[test]
fn csv_records_are_the_header_then_the_rows() {
    let rows = vec![entry("a", "b", 2, 1, 2)];
    let records = csv_records(&rows);
    assert_eq!(
        records,
        vec![
            vec!["track_name", "artist_name", "play_count", "shuffled_count", "full_play_count"],
            vec!["a", "b", "2", "1", "2"],
        ]
    );
}

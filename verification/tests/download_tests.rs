use spotify_history::download::{download_jobs, parse_count, skip_count, yt_dlp_args};
use spotify_history::stats::SongStats;

fn entry(track: &str, artist: &str) -> (String, SongStats) {
    (
        track.to_string(),
        SongStats {
            play_count: 3,
            shuffled_count: 1,
            skipped_count: 1,
            full_play_count: 2,
            artist_name: artist.to_string(),
        },
    )
}

#[test]
fn jobs_skip_the_songs_already_on_disk() {
    let songs = vec![entry("One", "A"), entry("Two", "B"), entry("Three", "C")];
    let jobs = download_jobs(&songs, 1);
    assert_eq!(jobs.len(), 2);
    assert_eq!(jobs[0].position, 2);
    assert_eq!(jobs[0].track_name, "Two");
    assert_eq!(jobs[0].artist_name, "B");
    assert_eq!(jobs[0].query, "ytsearch1:B Two");
    assert_eq!(jobs[0].artist_meta, "artist:B");
    assert_eq!(jobs[0].title_meta, "title:Two");
    assert_eq!(jobs[1].position, 3);
    assert_eq!(jobs[1].query, "ytsearch1:C Three");
}

#[test]
fn no_jobs_when_everything_is_on_disk() {
    let songs = vec![entry("One", "A")];
    assert!(download_jobs(&songs, 1).is_empty());
    assert!(download_jobs(&songs, 7).is_empty());
    assert!(download_jobs(&[], 0).is_empty());
}

#[test]
fn all_jobs_when_nothing_is_on_disk() {
    let songs = vec![entry("One", "A"), entry("Two", "B")];
    let jobs = download_jobs(&songs, 0);
    assert_eq!(jobs.len(), 2);
    assert_eq!(jobs[0].position, 1);
}

#[test]
fn yt_dlp_is_asked_for_tagged_mp3s() {
    let songs = vec![entry("Hey Jude", "The Beatles")];
    let jobs = download_jobs(&songs, 0);
    let args = yt_dlp_args(&jobs[0]);
    assert_eq!(
        args,
        vec![
            "--cookies",
            "cookies.txt",
            "-x",
            "--audio-format",
            "mp3",
            "--no-playlist",
            "--embed-metadata",
            "--parse-metadata",
            "artist:The Beatles",
            "--parse-metadata",
            "title:Hey Jude",
            "-o",
            "songs/%(title)s.%(ext)s",
            "ytsearch1:The Beatles Hey Jude",
        ]
    );
}

#[test]
fn counts_read_from_a_setting() {
    assert_eq!(parse_count("12"), Some(12));
    assert_eq!(parse_count("+7"), Some(7));
    assert_eq!(parse_count("007"), Some(7));
    assert_eq!(parse_count("0"), Some(0));
    assert_eq!(parse_count(""), None);
    assert_eq!(parse_count("+"), None);
    assert_eq!(parse_count("-3"), None);
    assert_eq!(parse_count(" 3"), None);
    assert_eq!(parse_count("3a"), None);
    assert_eq!(parse_count("99999999999999999999999"), None);
    assert_eq!(parse_count(&usize::MAX.to_string()), Some(usize::MAX));
}

#[test]
fn the_skip_setting_wins_over_the_files_on_disk() {
    assert_eq!(skip_count(Some("5".to_string()), 12), 5);
    assert_eq!(skip_count(Some("0".to_string()), 12), 0);
    assert_eq!(skip_count(None, 12), 12);
    assert_eq!(skip_count(Some("five".to_string()), 12), 12);
}

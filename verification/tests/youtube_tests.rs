use spotify_history::youtube::{
    created_playlist_id, first_video_id, playlist_draft, playlist_item_draft, search_query,
    video_cache_from_text, video_cache_to_text, PlaylistError, ResourceRef, SearchResultItem,
};

#[test]
fn search_query_is_artist_dash_track() {
    assert_eq!(search_query("Muse", "Uprising"), "Muse - Uprising");
}

#[test]
fn first_video_id_reads_the_first_item_only() {
    let items = Some(vec![
        SearchResultItem { id: Some(ResourceRef { video_id: Some("abc".to_string()) }) },
        SearchResultItem { id: Some(ResourceRef { video_id: Some("def".to_string()) }) },
    ]);
    assert_eq!(first_video_id(&items), Some("abc".to_string()));
}

#[test]
fn first_video_id_is_none_without_a_video() {
    assert_eq!(first_video_id(&None), None);
    assert_eq!(first_video_id(&Some(Vec::new())), None);
    assert_eq!(first_video_id(&Some(vec![SearchResultItem { id: None }])), None);
    let no_video = Some(vec![
        SearchResultItem { id: Some(ResourceRef { video_id: None }) },
        SearchResultItem { id: Some(ResourceRef { video_id: Some("later".to_string()) }) },
    ]);
    assert_eq!(first_video_id(&no_video), None);
}

#[test]
fn playlists_are_private_and_described() {
    let d = playlist_draft("Top 100");
    assert_eq!(d.title, "Top 100");
    assert_eq!(d.description, "Auto-generated from Spotify listening history");
    assert_eq!(d.privacy_status, "private");
}

#[test]
fn playlist_items_are_videos() {
    let i = playlist_item_draft("PL1", "vid9");
    assert_eq!(i.playlist_id, "PL1");
    assert_eq!(i.kind, "youtube#video");
    assert_eq!(i.video_id, "vid9");
}

#[test]
fn created_playlist_needs_an_id() {
    assert_eq!(created_playlist_id(Some("PL7".to_string())), Ok("PL7".to_string()));
    let e = created_playlist_id(None).unwrap_err();
    assert_eq!(e, PlaylistError::MissingId);
    assert_eq!(e.message(), "playlist creation returned no ID");
}

#[test]
fn video_cache_reads_a_json_object_of_strings() {
    let text = Some("{\"Halo\": \"abc\", \"Yellow\": \"def\"}".to_string());
    let mut entries = video_cache_from_text(text);
    entries.sort();
    assert_eq!(
        entries,
        vec![("Halo".to_string(), "abc".to_string()), ("Yellow".to_string(), "def".to_string())]
    );
}

#[test]
fn video_cache_is_empty_without_a_readable_file() {
    assert!(video_cache_from_text(None).is_empty());
    assert!(video_cache_from_text(Some(String::new())).is_empty());
    assert!(video_cache_from_text(Some("[1, 2]".to_string())).is_empty());
    assert!(video_cache_from_text(Some("{\"a\": 1}".to_string())).is_empty());
    assert!(video_cache_from_text(Some("{}".to_string())).is_empty());
}

#[test]
fn video_cache_text_is_a_pretty_json_object_in_name_order() {
    let entries = vec![("b".to_string(), "2".to_string()), ("a".to_string(), "1".to_string())];
    let text = video_cache_to_text(&entries);
    assert_eq!(text, "{\n  \"a\": \"1\",\n  \"b\": \"2\"\n}");
    let mut back = video_cache_from_text(Some(text));
    back.sort();
    assert_eq!(back, vec![("a".to_string(), "1".to_string()), ("b".to_string(), "2".to_string())]);
    assert_eq!(video_cache_to_text(&Vec::new()), "{}");
}

#[test]
fn video_cache_text_reads_back_as_the_same_cache() {
    let entries = vec![
        ("Say \"Hi\"".to_string(), "a\\b".to_string()),
        ("Line\nbreak".to_string(), "tab\there".to_string()),
        ("Beyoncé — Halo".to_string(), "x-y_z".to_string()),
    ];
    let text = video_cache_to_text(&entries);
    let mut back = video_cache_from_text(Some(text));
    back.sort();
    let mut expected = entries.clone();
    expected.sort();
    assert_eq!(back, expected);
}

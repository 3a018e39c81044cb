//! What is sent to and read back from the video platform: the search text
//! for a track, the playlist and playlist-item requests, and the pieces
//! of the replies that are kept.

use vstd::prelude::*;
use crate::keyed::{entries_map, keys_unique};

verus! {

/// The search text for a track: "artist - track".
pub fn search_query(artist: &str, track: &str) -> (res: String)
    ensures
        res@ == artist@ + " - "@ + track@,
{
    let mut res = artist.to_owned();
    res.append(" - ");
    res.append(track);
    res
}

/// The identifier of a search result.
pub struct ResourceRef {
    pub video_id: Option<String>,
}

/// One item of a search reply, reduced to its identifier.
pub struct SearchResultItem {
    pub id: Option<ResourceRef>,
}

/// The video id of the first item of a search reply, if the reply has
/// items and the first one names a video.
pub open spec fn first_video(items: Option<Vec<SearchResultItem>>) -> Option<Seq<char>> {
    match items {
        Some(v) => if v@.len() > 0 {
            match v@[0].id {
                Some(r) => match r.video_id {
                    Some(s) => Some(s@),
                    None => None,
                },
                None => None,
            }
        } else {
            None
        },
        None => None,
    }
}

/// The video id of the first item of a search reply.
pub fn first_video_id(items: &Option<Vec<SearchResultItem>>) -> (res: Option<String>)
    ensures
        match res {
            Some(s) => first_video(*items) == Some(s@),
            None => first_video(*items) is None,
        },
{
    match items {
        Some(v) => {
            if v.len() == 0 {
                return None;
            }
            match &v[0].id {
                Some(r) => match &r.video_id {
                    Some(s) => Some(s.clone()),
                    None => None,
                },
                None => None,
            }
        },
        None => None,
    }
}

/// A private playlist to be created.
pub struct PlaylistDraft {
    pub title: String,
    pub description: String,
    pub privacy_status: String,
}

/// The request for a new private playlist called `title`.
pub fn playlist_draft(title: &str) -> (res: PlaylistDraft)
    ensures
        res.title@ == title@,
        res.description@ == "Auto-generated from Spotify listening history"@,
        res.privacy_status@ == "private"@,
{
    PlaylistDraft {
        title: title.to_owned(),
        description: "Auto-generated from Spotify listening history".to_owned(),
        privacy_status: "private".to_owned(),
    }
}

/// A video to be added to a playlist.
pub struct PlaylistItemDraft {
    pub playlist_id: String,
    pub kind: String,
    pub video_id: String,
}

/// The request that adds video `video_id` to playlist `playlist_id`.
pub fn playlist_item_draft(playlist_id: &str, video_id: &str) -> (res: PlaylistItemDraft)
    ensures
        res.playlist_id@ == playlist_id@,
        res.kind@ == "youtube#video"@,
        res.video_id@ == video_id@,
{
    PlaylistItemDraft {
        playlist_id: playlist_id.to_owned(),
        kind: "youtube#video".to_owned(),
        video_id: video_id.to_owned(),
    }
}

/// Why a playlist could not be created.
#[derive(Debug, Clone, Copy, PartialEq, Eq, Structural)]
pub enum PlaylistError {
    /// The platform answered without the new playlist's id.
    MissingId,
}

impl PlaylistError {
    /// The message the error is reported with.
    pub fn message(&self) -> (res: String)
        ensures
            res@ == "playlist creation returned no ID"@,
    {
        "playlist creation returned no ID".to_owned()
    }
}

/// The id of a newly created playlist, as the platform's reply gives it.
pub fn created_playlist_id(id: Option<String>) -> (res: Result<String, PlaylistError>)
    ensures
        match id {
            Some(s) => res == Ok::<String, PlaylistError>(s),
            None => res == Err::<String, PlaylistError>(PlaylistError::MissingId),
        },
{
    match id {
        Some(s) => Ok(s),
        None => Err(PlaylistError::MissingId),
    }
}

/// What `serde_json::from_str` makes of a text as a JSON object of strings:
/// the object's entries, or nothing when the text is not such an object.
pub uninterp spec fn json_string_map(text: Seq<char>) -> Option<Map<Seq<char>, Seq<char>>>;

/// The map from name to text that a list of string pairs stands for.
pub open spec fn string_pairs_map(pairs: Seq<(String, String)>) -> Map<Seq<char>, Seq<char>> {
    entries_map(pairs).map_values(|s: String| s@)
}

/// Calls `serde_json::from_str` for a `HashMap<String, String>` and lists
/// the map's entries, in the map's own order. Claims that it parses when
/// `json_string_map` of the text is some map, and that the entries then have
/// distinct names and stand for that map; it claims nothing of their order.
#[verifier::external_body]
fn parse_string_map(text: &str) -> (res: Option<Vec<(String, String)>>)
    ensures
        (res is Some) == (json_string_map(text@) is Some),
        res matches Some(v) ==> keys_unique(v@) && string_pairs_map(v@) == json_string_map(text@).unwrap(),
{
    match serde_json::from_str::<std::collections::HashMap<String, String>>(text) {
        Ok(m) => Some(m.into_iter().collect()),
        Err(_) => None,
    }
}

/// The video cache (track name to video id) held in `text`, the contents
/// of the cache file if there is one: its entries when it is a JSON object
/// of strings, and no entries when there is no file or it does not parse.
pub fn video_cache_from_text(text: Option<String>) -> (res: Vec<(String, String)>)
    ensures
        match text {
            Some(t) => match json_string_map(t@) {
                Some(m) => keys_unique(res@) && string_pairs_map(res@) == m,
                None => res@.len() == 0,
            },
            None => res@.len() == 0,
        },
{
    match text {
        Some(t) => match parse_string_map(t.as_str()) {
            Some(v) => v,
            None => Vec::new(),
        },
        None => Vec::new(),
    }
}

/// The error `serde_json` reports.
#[verifier::external_type_specification]
#[verifier::external_body]
pub struct ExJsonError(serde_json::Error);

/// What `serde_json::to_string_pretty` makes of a map from strings to
/// strings held in a `BTreeMap` (so with its names in order).
pub uninterp spec fn json_pretty_string_map(m: Map<Seq<char>, Seq<char>>) -> Seq<char>;

/// Calls `serde_json::to_string_pretty` on the pairs, whose names are
/// distinct, gathered into a `BTreeMap`. Claims
/// that this succeeds, as `serde_json` documents for maps with string keys,
/// that the text is `json_pretty_string_map` of the map the pairs stand
/// for, and that `serde_json::from_str` reads that same map back from it
/// (each string is written as a JSON string literal with its escapes, which
/// parses to the string again).
#[verifier::external_body]
fn string_map_to_json(pairs: &Vec<(String, String)>) -> (res: Result<String, serde_json::Error>)
    requires
        keys_unique(pairs@),
    ensures
        res is Ok,
        res matches Ok(text) ==> text@ == json_pretty_string_map(string_pairs_map(pairs@)),
        res matches Ok(text) ==> json_string_map(text@) == Some(string_pairs_map(pairs@)),
{
    let m: std::collections::BTreeMap<&str, &str> = pairs.iter().map(|(k, v)| (k.as_str(), v.as_str())).collect();
    serde_json::to_string_pretty(&m)
}

/// The text of the video cache file for the given entries (one per track
/// name): a JSON object from track name to video id, with the names in
/// order. Reading the text back gives the same cache.
pub fn video_cache_to_text(cache: &Vec<(String, String)>) -> (res: String)
    requires
        keys_unique(cache@),
    ensures
        res@ == json_pretty_string_map(string_pairs_map(cache@)),
        json_string_map(res@) == Some(string_pairs_map(cache@)),
{
    match string_map_to_json(cache) {
        Ok(text) => text,
        Err(_) => String::new(),
    }
}

} // verus!

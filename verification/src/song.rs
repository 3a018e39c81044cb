//! One play of the listening history, as the export records it.

use vstd::prelude::*;

verus! {

/// A point in time in UTC, as whole seconds since the Unix epoch and the
/// nanoseconds past that second.
#[derive(Clone, Copy, Debug, PartialEq, Eq, Structural)]
pub struct Timestamp {
    pub secs: i64,
    pub nanos: u32,
}

/// One entry of the listening history.
pub struct FullSongDetails {
    pub ts: Timestamp,
    pub platform: String,
    pub ms_played: u64,
    pub conn_country: String,
    pub ip_addr: String,
    pub master_metadata_track_name: Option<String>,
    pub master_metadata_album_artist_name: Option<String>,
    pub master_metadata_album_album_name: Option<String>,
    pub spotify_track_uri: Option<String>,
    pub episode_name: Option<String>,
    pub episode_show_name: Option<String>,
    pub spotify_episode_uri: Option<String>,
    pub audiobook_title: Option<String>,
    pub audiobook_uri: Option<String>,
    pub audiobook_chapter_uri: Option<String>,
    pub audiobook_chapter_title: Option<String>,
    pub reason_start: String,
    pub reason_end: String,
    pub shuffle: bool,
    pub skipped: bool,
    pub offline: Option<bool>,
    pub offline_timestamp: Option<i64>,
    pub incognito_mode: bool,
}

/// A play is a music track (rather than a podcast episode or an
/// audiobook chapter) when it carries a track URI.
pub open spec fn is_track(song: FullSongDetails) -> bool {
    song.spotify_track_uri is Some
}

/// The plays of `songs` that are music tracks, in their original order.
pub open spec fn tracks_only(songs: Seq<FullSongDetails>) -> Seq<FullSongDetails> {
    songs.filter(|s: FullSongDetails| is_track(s))
}

impl FullSongDetails {
    /// Keeps the plays that are music tracks, in order.
    pub fn filter_tracks(songs: Vec<FullSongDetails>) -> (res: Vec<FullSongDetails>)
        ensures
            res@ == tracks_only(songs@),
            forall|i: int| 0 <= i < res@.len() ==> (#[trigger] res@[i]).spotify_track_uri is Some,
            forall|i: int| 0 <= i < songs@.len() && (#[trigger] songs@[i]).spotify_track_uri is Some
                ==> res@.contains(songs@[i]),
    {
        let ghost all = songs@;
        let mut res: Vec<FullSongDetails> = Vec::new();
        for song in it: songs
            invariant
                all == it.seq(),
                res@ == tracks_only(all.take(it.index() as int)),
        {
            proof {
                assert(all.take(it.index() + 1).drop_last() =~= all.take(it.index() as int));
                reveal_with_fuel(Seq::filter, 1);
            }
            if song.spotify_track_uri.is_some() {
                res.push(song);
            }
        }
        proof {
            assert(all.take(all.len() as int) =~= all);
            let p = |x: FullSongDetails| is_track(x);
            assert forall|i: int| 0 <= i < res@.len() implies (#[trigger] res@[i]).spotify_track_uri is Some by {
                all.lemma_filter_pred(p, i);
            }
            assert forall|i: int| 0 <= i < all.len() && (#[trigger] all[i]).spotify_track_uri is Some
                implies res@.contains(all[i]) by {
                all.lemma_filter_contains(p, i);
            }
        }
        res
    }

    /// Whether the play happened in shuffle mode.
    pub fn is_shuffled(&self) -> (res: bool)
        ensures
            res == self.shuffle,
    {
        self.shuffle
    }

    /// Whether the listener skipped to the next track.
    pub fn is_skipped(&self) -> (res: bool)
        ensures
            res == self.skipped,
    {
        self.skipped
    }
}

/// Keeping the music tracks keeps exactly the plays that carry a track URI,
/// whatever else they record (skipped, shuffled, offline, ...), in order:
/// nothing is kept of no plays, and a play added at the end is kept at the
/// end exactly when it has a track URI.
pub proof fn law_tracks_are_plays_with_uri(songs: Seq<FullSongDetails>, s: FullSongDetails)
    ensures
        tracks_only(Seq::<FullSongDetails>::empty()) == Seq::<FullSongDetails>::empty(),
        s.spotify_track_uri is Some ==> tracks_only(songs.push(s)) == tracks_only(songs).push(s),
        s.spotify_track_uri is None ==> tracks_only(songs.push(s)) == tracks_only(songs),
{
    assert(tracks_only(Seq::<FullSongDetails>::empty()) =~= Seq::<FullSongDetails>::empty()) by {
        reveal(Seq::filter);
    }
    songs.lemma_filter_push(s, |x: FullSongDetails| is_track(x));
}

/// Keeping only the music tracks keeps nothing else, and doing it again
/// changes nothing.
pub proof fn law_filter_tracks_idempotent(songs: Seq<FullSongDetails>)
    ensures
        forall|i: int| 0 <= i < tracks_only(songs).len() ==> is_track(#[trigger] tracks_only(songs)[i]),
        tracks_only(tracks_only(songs)) == tracks_only(songs),
    decreases songs.len(),
{
    let p = |s: FullSongDetails| is_track(s);
    if songs.len() == 0 {
        assert(tracks_only(songs) =~= Seq::<FullSongDetails>::empty()) by {
            reveal(Seq::filter);
        }
        assert(tracks_only(tracks_only(songs)) =~= Seq::<FullSongDetails>::empty()) by {
            reveal(Seq::filter);
        }
    } else {
        let d = songs.drop_last();
        let l = songs.last();
        law_filter_tracks_idempotent(d);
        assert(songs =~= d.push(l));
        d.lemma_filter_push(l, p);
        if is_track(l) {
            tracks_only(d).lemma_filter_push(l, p);
        }
    }
}

} // verus!

//! Per-track statistics over a listening history, and their ranking.

use vstd::prelude::*;
use crate::song::FullSongDetails;
use vstd::utf8::encode_utf8;
use crate::keyed::{
    bucket_of,
    bucket_push,
    empty_buckets,
    entries_map,
    find_indexed,
    indexes,
    keys_unique,
    lemma_entries_map,
    lemma_entries_map_push,
    lemma_entries_map_update,
    lemma_indexes_push,
    lemma_indexes_update,
    lemma_keys_unique_push,
};

verus! {

/// What the history says about one track.
#[derive(Debug, Clone)]
pub struct SongStats {
    pub play_count: u32,
    pub shuffled_count: u32,
    pub skipped_count: u32,
    pub full_play_count: u32,
    pub artist_name: String,
}

/// The order in which a ranking lists the tracks.
#[derive(Debug, Clone, Copy)]
pub enum SortKey {
    /// Most plays that were not skipped first; ties by track name.
    FullPlay,
}

// ---------------------------------------------------------------------
// What the statistics of a history are
// ---------------------------------------------------------------------

/// The track name of a play, if it has one.
pub open spec fn track_of(song: FullSongDetails) -> Option<Seq<char>> {
    match song.master_metadata_track_name {
        Some(t) => Some(t@),
        None => None,
    }
}

/// The plays of `track` in `songs`, in order.
pub open spec fn plays_of(songs: Seq<FullSongDetails>, track: Seq<char>) -> Seq<FullSongDetails> {
    songs.filter(|s: FullSongDetails| track_of(s) == Some(track))
}

/// The plays among `plays` made in shuffle mode.
pub open spec fn shuffled_plays(plays: Seq<FullSongDetails>) -> Seq<FullSongDetails> {
    plays.filter(|s: FullSongDetails| s.shuffle)
}

/// The plays among `plays` that the listener skipped.
pub open spec fn skipped_plays(plays: Seq<FullSongDetails>) -> Seq<FullSongDetails> {
    plays.filter(|s: FullSongDetails| s.skipped)
}

/// The artist credited for a play; plays without one are credited to
/// "Unknown Artist".
pub open spec fn artist_label(song: FullSongDetails) -> Seq<char> {
    match song.master_metadata_album_artist_name {
        Some(a) => a@,
        None => "Unknown Artist"@,
    }
}

/// `stats` sums up the (non-empty) list of plays `plays` of one track:
/// the artist is the one credited on the first of them.
pub open spec fn sums_up(stats: SongStats, plays: Seq<FullSongDetails>) -> bool {
    &&& plays.len() > 0
    &&& stats.play_count == plays.len()
    &&& stats.shuffled_count == shuffled_plays(plays).len()
    &&& stats.skipped_count == skipped_plays(plays).len()
    &&& stats.full_play_count == plays.len() - skipped_plays(plays).len()
    &&& stats.artist_name@ == artist_label(plays[0])
}

/// `m` holds one entry for every track that `songs` plays, and that
/// entry sums up the plays of the track.
pub open spec fn is_stats_of(m: Map<Seq<char>, SongStats>, songs: Seq<FullSongDetails>) -> bool {
    &&& forall|t: Seq<char>| #[trigger] m.contains_key(t) <==> plays_of(songs, t).len() > 0
    &&& forall|t: Seq<char>| #[trigger] m.contains_key(t) ==> sums_up(m[t], plays_of(songs, t))
}

// ---------------------------------------------------------------------
// The table
// ---------------------------------------------------------------------

/// Statistics keyed by track name.
pub struct SongStatsTable {
    entries: Vec<(String, SongStats)>,
    buckets: Vec<Vec<usize>>,
}

impl SongStatsTable {
    #[verifier::type_invariant]
    spec fn well_formed(self) -> bool {
        &&& keys_unique(self.entries@)
        &&& indexes(self.buckets@, self.entries@)
    }
}

impl View for SongStatsTable {
    type V = Map<Seq<char>, SongStats>;

    closed spec fn view(&self) -> Map<Seq<char>, SongStats> {
        entries_map(self.entries@)
    }
}

impl SongStatsTable {
    /// A table holding the given entries; a later entry for a track replaces
    /// an earlier one.
    pub fn from_entries(entries: Vec<(String, SongStats)>) -> (res: SongStatsTable)
        ensures
            res@ == entries_map(entries@),
    {
        let ghost given = entries@;
        let mut kept: Vec<(String, SongStats)> = Vec::new();
        let mut buckets = empty_buckets();
        proof {
            assert(given.take(0) =~= Seq::<(String, SongStats)>::empty());
        }
        for e in it: entries
            invariant
                given == it.seq(),
                keys_unique(kept@),
                indexes(buckets@, kept@),
                entries_map(kept@) == entries_map(given.take(it.index() as int)),
        {
            let ghost before = kept@;
            proof {
                assert(given.take(it.index() + 1).drop_last() =~= given.take(it.index() as int));
            }
            let (key, stats) = e;
            match find_indexed(&kept, &buckets, &key) {
                Some(j) => {
                    proof {
                        lemma_entries_map_update(before, j as int, (key, stats));
                        lemma_indexes_update(buckets@, before, j as int, (key, stats));
                    }
                    kept.set(j, (key, stats));
                },
                None => {
                    let b = bucket_of(&key);
                    let ghost old_buckets = buckets@;
                    bucket_push(&mut buckets, b, kept.len());
                    proof {
                        lemma_indexes_push(old_buckets, buckets@, before, (key, stats));
                        lemma_keys_unique_push(before, (key, stats));
                        lemma_entries_map_push(before, (key, stats));
                    }
                    kept.push((key, stats));
                },
            }
        }
        proof {
            assert(given.take(given.len() as int) =~= given);
        }
        SongStatsTable { entries: kept, buckets }
    }

    /// The number of tracks in the table.
    pub fn len(&self) -> (res: usize)
        ensures
            self@.dom().finite(),
            res == self@.dom().len(),
    {
        proof {
            use_type_invariant(self);
            lemma_entries_map(self.entries@);
        }
        self.entries.len()
    }

    /// The statistics of `track`, if the table has it.
    pub fn get(&self, track: &String) -> (res: Option<&SongStats>)
        ensures
            match res {
                Some(st) => self@.contains_key(track@) && self@[track@] == *st,
                None => !self@.contains_key(track@),
            },
    {
        proof {
            use_type_invariant(self);
            lemma_entries_map(self.entries@);
        }
        match find_indexed(&self.entries, &self.buckets, track) {
            Some(i) => {
                proof {
                    assert(entries_map(self.entries@).contains_key(self.entries@[i as int].0@));
                }
                Some(&self.entries[i].1)
            },
            None => None,
        }
    }
}

/// Appending a play adds it to the plays of its own track only.
proof fn lemma_plays_push(songs: Seq<FullSongDetails>, s: FullSongDetails, t: Seq<char>)
    ensures
        plays_of(songs.push(s), t) == if track_of(s) == Some(t) {
            plays_of(songs, t).push(s)
        } else {
            plays_of(songs, t)
        },
{
    songs.lemma_filter_push(s, |x: FullSongDetails| track_of(x) == Some(t));
}

/// Appending a play adds it to the shuffled and skipped plays as its flags say.
proof fn lemma_counts_push(plays: Seq<FullSongDetails>, s: FullSongDetails)
    ensures
        shuffled_plays(plays.push(s)) == if s.shuffle {
            shuffled_plays(plays).push(s)
        } else {
            shuffled_plays(plays)
        },
        skipped_plays(plays.push(s)) == if s.skipped {
            skipped_plays(plays).push(s)
        } else {
            skipped_plays(plays)
        },
{
    plays.lemma_filter_push(s, |x: FullSongDetails| x.shuffle);
    plays.lemma_filter_push(s, |x: FullSongDetails| x.skipped);
}

/// Sums up the listening history per track. Counts are `u32`, so no track
/// may be played more often than that holds.
pub fn build_unique_song_stats(songs: &[FullSongDetails]) -> (res: SongStatsTable)
    requires
        forall|t: Seq<char>| #[trigger] plays_of(songs@, t).len() <= u32::MAX,
    ensures
        is_stats_of(res@, songs@),
{
    match try_build_unique_song_stats(songs) {
        Some(table) => table,
        None => {
            proof {
                let t = choose|t: Seq<char>| #[trigger] plays_of(songs@, t).len() > u32::MAX;
                assert(plays_of(songs@, t).len() <= u32::MAX);
            }
            SongStatsTable::from_entries(Vec::new())
        },
    }
}

/// Sums up the listening history per track, or gives `None` when some
/// track is played more often than a `u32` count holds (where counting
/// would overflow).
pub fn try_build_unique_song_stats(songs: &[FullSongDetails]) -> (res: Option<SongStatsTable>)
    ensures
        match res {
            Some(table) => is_stats_of(table@, songs@),
            None => exists|t: Seq<char>| #[trigger] plays_of(songs@, t).len() > u32::MAX,
        },
{
    let mut entries: Vec<(String, SongStats)> = Vec::new();
    let mut buckets = empty_buckets();
    let mut i: usize = 0;
    proof {
        assert(indexes(buckets@, entries@));
        assert(songs@.take(0) =~= Seq::<FullSongDetails>::empty());
        assert forall|t: Seq<char>| plays_of(songs@.take(0), t).len() == 0 by {
            songs@.take(0).lemma_filter_len(|x: FullSongDetails| track_of(x) == Some(t));
        }
    }
    while i < songs.len()
        invariant
            i <= songs@.len(),
            keys_unique(entries@),
            indexes(buckets@, entries@),
            is_stats_of(entries_map(entries@), songs@.take(i as int)),
            forall|t: Seq<char>| #[trigger] entries_map(entries@).contains_key(t) ==> {
                let st = entries_map(entries@)[t];
                &&& st.shuffled_count <= st.play_count
                &&& st.skipped_count <= st.play_count
            },
        decreases songs@.len() - i,
    {
        let song = &songs[i];
        let ghost prefix = songs@.take(i as int);
        let ghost old_map = entries_map(entries@);
        proof {
            assert(songs@.take(i + 1) =~= prefix.push(*song));
            lemma_entries_map(entries@);
        }
        match &song.master_metadata_track_name {
            None => {
                proof {
                    assert forall|t: Seq<char>| plays_of(songs@.take(i + 1), t) == plays_of(prefix, t) by {
                        lemma_plays_push(prefix, *song, t);
                    }
                    assert(is_stats_of(old_map, songs@.take(i + 1)));
                }
            },
            Some(track) => {
                let ghost t = track@;
                match find_indexed(&entries, &buckets, track) {
                    Some(j) => {
                        proof {
                            assert(old_map.contains_key(entries@[j as int].0@));
                            assert(old_map[t] == entries@[j as int].1);
                            lemma_plays_push(prefix, *song, t);
                            songs@.lemma_filter_take_len(|x: FullSongDetails| track_of(x) == Some(t), i + 1);
                        }
                        let old_stats = &entries[j].1;
                        if old_stats.play_count == u32::MAX {
                            proof {
                                assert(plays_of(songs@, t).len() > u32::MAX);
                            }
                            return None;
                        }
                        let play_count = old_stats.play_count + 1;
                        let shuffled_count = if song.is_shuffled() {
                            old_stats.shuffled_count + 1
                        } else {
                            old_stats.shuffled_count
                        };
                        let skipped_count = if song.is_skipped() {
                            old_stats.skipped_count + 1
                        } else {
                            old_stats.skipped_count
                        };
                        let full_play_count = play_count.saturating_sub(skipped_count);
                        let artist_name = old_stats.artist_name.clone();
                        let key = entries[j].0.clone();
                        let new_stats = SongStats {
                            play_count,
                            shuffled_count,
                            skipped_count,
                            full_play_count,
                            artist_name,
                        };
                        proof {
                            lemma_entries_map_update(entries@, j as int, (key, new_stats));
                            lemma_indexes_update(buckets@, entries@, j as int, (key, new_stats));
                            assert forall|u: Seq<char>| plays_of(songs@.take(i + 1), u) == if u == t {
                                plays_of(prefix, t).push(*song)
                            } else {
                                plays_of(prefix, u)
                            } by {
                                lemma_plays_push(prefix, *song, u);
                            }
                            lemma_counts_push(plays_of(prefix, t), *song);
                            let new_map = old_map.insert(t, new_stats);
                            assert(plays_of(prefix, t).len() > 0);
                            assert(plays_of(prefix, t).push(*song)[0] == plays_of(prefix, t)[0]);
                            assert(sums_up(new_stats, plays_of(songs@.take(i + 1), t)));
                            assert(is_stats_of(new_map, songs@.take(i + 1)));
                        }
                        entries.set(j, (key, new_stats));
                    },
                    None => {
                        let artist_name = match &song.master_metadata_album_artist_name {
                            Some(a) => a.clone(),
                            None => "Unknown Artist".to_owned(),
                        };
                        let new_stats = SongStats {
                            play_count: 1,
                            shuffled_count: if song.is_shuffled() { 1 } else { 0 },
                            skipped_count: if song.is_skipped() { 1 } else { 0 },
                            full_play_count: if song.is_skipped() { 0 } else { 1 },
                            artist_name,
                        };
                        let key = track.clone();
                        let b = bucket_of(&key);
                        let ghost old_buckets = buckets@;
                        bucket_push(&mut buckets, b, entries.len());
                        proof {
                            lemma_indexes_push(old_buckets, buckets@, entries@, (key, new_stats));
                            lemma_entries_map_push(entries@, (key, new_stats));
                            assert(!old_map.contains_key(t));
                            assert forall|u: Seq<char>| plays_of(songs@.take(i + 1), u) == if u == t {
                                plays_of(prefix, t).push(*song)
                            } else {
                                plays_of(prefix, u)
                            } by {
                                lemma_plays_push(prefix, *song, u);
                            }
                            assert(plays_of(prefix, t).len() == 0);
                            assert(plays_of(prefix, t) =~= Seq::<FullSongDetails>::empty());
                            lemma_counts_push(plays_of(prefix, t), *song);
                            assert(plays_of(prefix, t).push(*song) =~= seq![*song]);
                            assert(shuffled_plays(Seq::<FullSongDetails>::empty()) =~= Seq::<FullSongDetails>::empty()) by {
                                reveal(Seq::filter);
                            }
                            assert(skipped_plays(Seq::<FullSongDetails>::empty()) =~= Seq::<FullSongDetails>::empty()) by {
                                reveal(Seq::filter);
                            }
                            lemma_keys_unique_push(entries@, (key, new_stats));
                            let new_map = old_map.insert(t, new_stats);
                            assert(sums_up(new_stats, plays_of(songs@.take(i + 1), t)));
                            assert(is_stats_of(new_map, songs@.take(i + 1)));
                        }
                        entries.push((key, new_stats));
                    },
                }
            },
        }
        i = i + 1;
    }
    proof {
        assert(songs@.take(songs@.len() as int) =~= songs@);
    }
    Some(SongStatsTable { entries, buckets })
}

// ---------------------------------------------------------------------
// Ranking
// ---------------------------------------------------------------------

/// Lexicographic order on byte strings, a proper prefix first: the order
/// in which Rust compares `String`s.
pub open spec fn bytes_before(a: Seq<u8>, b: Seq<u8>) -> bool
    decreases a.len(),
{
    if a.len() == 0 {
        b.len() > 0
    } else if b.len() == 0 {
        false
    } else if a[0] != b[0] {
        a[0] < b[0]
    } else {
        bytes_before(a.drop_first(), b.drop_first())
    }
}

/// Track names ordered by their UTF-8 bytes.
pub open spec fn name_before(a: Seq<char>, b: Seq<char>) -> bool {
    bytes_before(encode_utf8(a), encode_utf8(b))
}

/// The ranking order: more plays that were not skipped come first, and
/// equal counts go by track name.
pub open spec fn ranks_before(a: (String, SongStats), b: (String, SongStats)) -> bool {
    ||| a.1.full_play_count > b.1.full_play_count
    ||| (a.1.full_play_count == b.1.full_play_count && name_before(a.0@, b.0@))
}

/// Every entry of `s` ranks before every later one.
pub open spec fn ranked(s: Seq<(String, SongStats)>) -> bool {
    forall|i: int, j: int| 0 <= i < j < s.len() ==> ranks_before(s[i], s[j])
}

/// Every entry of `r` is an entry of the table `m`.
pub open spec fn entries_of_table(r: Seq<(String, SongStats)>, m: Map<Seq<char>, SongStats>) -> bool {
    forall|i: int| 0 <= i < r.len() ==> #[trigger] m.contains_key(r[i].0@) && m[r[i].0@] == r[i].1
}

/// The tracks of a table that were played at least once in shuffle mode.
pub open spec fn shuffled_tracks(m: Map<Seq<char>, SongStats>) -> Set<Seq<char>> {
    m.dom().filter(|t: Seq<char>| m[t].shuffled_count > 0)
}

/// No byte string comes before itself.
proof fn lemma_bytes_irreflexive(a: Seq<u8>)
    ensures
        !bytes_before(a, a),
    decreases a.len(),
{
    if a.len() > 0 {
        lemma_bytes_irreflexive(a.drop_first());
    }
}

/// The byte order is transitive.
proof fn lemma_bytes_transitive(a: Seq<u8>, b: Seq<u8>, c: Seq<u8>)
    requires
        bytes_before(a, b),
        bytes_before(b, c),
    ensures
        bytes_before(a, c),
    decreases a.len(),
{
    if a.len() > 0 && b.len() > 0 && c.len() > 0 && a[0] == b[0] && b[0] == c[0] {
        lemma_bytes_transitive(a.drop_first(), b.drop_first(), c.drop_first());
    }
}

/// Of two different byte strings, one comes before the other.
proof fn lemma_bytes_total(a: Seq<u8>, b: Seq<u8>)
    requires
        a != b,
    ensures
        bytes_before(a, b) || bytes_before(b, a),
    decreases a.len(),
{
    if a.len() == 0 {
        assert(b.len() > 0) by {
            if b.len() == 0 {
                assert(a =~= b);
            }
        }
    } else if b.len() > 0 && a[0] == b[0] {
        assert(a.drop_first() != b.drop_first()) by {
            if a.drop_first() == b.drop_first() {
                assert(a =~= seq![a[0]] + a.drop_first());
                assert(b =~= seq![b[0]] + b.drop_first());
            }
        }
        lemma_bytes_total(a.drop_first(), b.drop_first());
    }
}

/// No entry ranks before itself.
pub proof fn law_ranks_irreflexive(a: (String, SongStats))
    ensures
        !ranks_before(a, a),
{
    lemma_bytes_irreflexive(encode_utf8(a.0@));
}

/// The ranking order is transitive.
pub proof fn law_ranks_transitive(a: (String, SongStats), b: (String, SongStats), c: (String, SongStats))
    requires
        ranks_before(a, b),
        ranks_before(b, c),
    ensures
        ranks_before(a, c),
{
    if a.1.full_play_count == b.1.full_play_count && b.1.full_play_count == c.1.full_play_count {
        lemma_bytes_transitive(encode_utf8(a.0@), encode_utf8(b.0@), encode_utf8(c.0@));
    }
}

/// Of two entries with different track names, one ranks before the other:
/// with distinct names the ranking order is total.
pub proof fn law_ranks_total(a: (String, SongStats), b: (String, SongStats))
    requires
        a.0@ != b.0@,
    ensures
        ranks_before(a, b) || ranks_before(b, a),
{
    broadcast use vstd::utf8::encode_utf8_decode_utf8;

    assert(encode_utf8(a.0@) != encode_utf8(b.0@)) by {
        if encode_utf8(a.0@) == encode_utf8(b.0@) {
            assert(vstd::utf8::decode_utf8(encode_utf8(a.0@)) == a.0@);
            assert(vstd::utf8::decode_utf8(encode_utf8(b.0@)) == b.0@);
        }
    }
    lemma_bytes_total(encode_utf8(a.0@), encode_utf8(b.0@));
}

/// Where one byte string comes before another, the two agree up to some
/// position, and there the first one ends while the second goes on, or the
/// first one has the smaller byte.
proof fn lemma_bytes_before_position(a: Seq<u8>, b: Seq<u8>)
    requires
        bytes_before(a, b),
    ensures
        exists|k: int|
            0 <= k <= a.len() && k <= b.len() && #[trigger] a.subrange(0, k) == b.subrange(0, k) && ((k == a.len()
                && k < b.len()) || (k < a.len() && k < b.len() && a[k] < b[k])),
    decreases a.len(),
{
    if a.len() == 0 || a[0] != b[0] {
        assert(a.subrange(0, 0) =~= b.subrange(0, 0));
    } else {
        lemma_bytes_before_position(a.drop_first(), b.drop_first());
        let a1 = a.drop_first();
        let b1 = b.drop_first();
        let k = choose|k: int|
            0 <= k <= a1.len() && k <= b1.len() && #[trigger] a1.subrange(0, k) == b1.subrange(0, k) && ((k
                == a1.len() && k < b1.len()) || (k < a1.len() && k < b1.len() && a1[k] < b1[k]));
        assert(a.subrange(0, k + 1) =~= b.subrange(0, k + 1)) by {
            assert forall|m: int| 0 <= m < k + 1 implies #[trigger] a.subrange(0, k + 1)[m] == b.subrange(0, k + 1)[m] by {
                if m > 0 {
                    assert(a1.subrange(0, k)[m - 1] == b1.subrange(0, k)[m - 1]);
                }
            }
        }
        assert(k + 1 < a.len() ==> a[k + 1] == a1[k]);
        assert(k + 1 < b.len() ==> b[k + 1] == b1[k]);
    }
}

/// In a ranking, more plays that were not skipped come first, as numbers;
/// entries with as many such plays come in the order of their track names'
/// UTF-8 bytes: the two names agree up to some byte, where the earlier name
/// ends while the later one goes on, or has the smaller byte.
pub proof fn law_ranking_order(r: Seq<(String, SongStats)>)
    requires
        ranked(r),
    ensures
        forall|i: int, j: int|
            0 <= i < j < r.len() ==> #[trigger] r[i].1.full_play_count >= #[trigger] r[j].1.full_play_count,
        forall|i: int, j: int|
            0 <= i < j < r.len() && #[trigger] r[i].1.full_play_count == #[trigger] r[j].1.full_play_count
                ==> exists|k: int|
                0 <= k <= encode_utf8(r[i].0@).len() && k <= encode_utf8(r[j].0@).len() && #[trigger] encode_utf8(
                    r[i].0@,
                ).subrange(0, k) == encode_utf8(r[j].0@).subrange(0, k) && ((k == encode_utf8(r[i].0@).len() && k
                    < encode_utf8(r[j].0@).len()) || (k < encode_utf8(r[i].0@).len() && k < encode_utf8(
                    r[j].0@,
                ).len() && encode_utf8(r[i].0@)[k] < encode_utf8(r[j].0@)[k])),
{
    assert forall|i: int, j: int|
        0 <= i < j < r.len() && #[trigger] r[i].1.full_play_count == #[trigger] r[j].1.full_play_count implies exists|
        k: int,
    |
        0 <= k <= encode_utf8(r[i].0@).len() && k <= encode_utf8(r[j].0@).len() && #[trigger] encode_utf8(
            r[i].0@,
        ).subrange(0, k) == encode_utf8(r[j].0@).subrange(0, k) && ((k == encode_utf8(r[i].0@).len() && k
            < encode_utf8(r[j].0@).len()) || (k < encode_utf8(r[i].0@).len() && k < encode_utf8(r[j].0@).len()
            && encode_utf8(r[i].0@)[k] < encode_utf8(r[j].0@)[k])) by {
        assert(ranks_before(r[i], r[j]));
        lemma_bytes_before_position(encode_utf8(r[i].0@), encode_utf8(r[j].0@));
    }
    assert forall|i: int, j: int|
        0 <= i < j < r.len() implies #[trigger] r[i].1.full_play_count >= #[trigger] r[j].1.full_play_count by {
        assert(ranks_before(r[i], r[j]));
    }
}

/// Whether byte string `a` comes before `b`.
fn bytes_less(a: &[u8], b: &[u8]) -> (res: bool)
    ensures
        res == bytes_before(a@, b@),
{
    let mut i: usize = 0;
    proof {
        assert(a@.skip(0) =~= a@);
        assert(b@.skip(0) =~= b@);
    }
    while i < a.len() && i < b.len()
        invariant
            i <= a@.len(),
            i <= b@.len(),
            bytes_before(a@, b@) == bytes_before(a@.skip(i as int), b@.skip(i as int)),
        decreases a@.len() - i,
    {
        if a[i] != b[i] {
            return a[i] < b[i];
        }
        proof {
            assert(a@.skip(i as int).drop_first() =~= a@.skip(i + 1));
            assert(b@.skip(i as int).drop_first() =~= b@.skip(i + 1));
        }
        i = i + 1;
    }
    i < b.len()
}

/// Whether entry `a` ranks before entry `b`.
fn ranks_ahead(a: &(String, SongStats), b: &(String, SongStats)) -> (res: bool)
    ensures
        res == ranks_before(*a, *b),
{
    if a.1.full_play_count != b.1.full_play_count {
        a.1.full_play_count > b.1.full_play_count
    } else {
        bytes_less(a.0.as_str().as_bytes(), b.0.as_str().as_bytes())
    }
}

/// Lists every track with its statistics, ranked: most plays that were not
/// skipped first, and equal counts by track name.
pub fn sorted_unique_by(stats: SongStatsTable, _sort_key: SortKey) -> (res: Vec<(String, SongStats)>)
    ensures
        res@.len() == stats@.dom().len(),
        entries_of_table(res@, stats@),
        forall|t: Seq<char>| #[trigger] stats@.contains_key(t) ==> exists|i: int| 0 <= i < res@.len() && res@[i].0@ == t,
        ranked(res@),
        forall|i: int, j: int|
            0 <= i < j < res@.len() ==> #[trigger] res@[i].1.full_play_count >= #[trigger] res@[j].1.full_play_count,
{
    proof {
        use_type_invariant(&stats);
    }
    let ghost table = stats@;
    let mut rem = stats.entries;
    let ghost orig = rem@;
    let mut out: Vec<(String, SongStats)> = Vec::new();
    proof {
        broadcast use vstd::seq_lib::group_to_multiset_ensures, vstd::multiset::group_multiset_axioms;
        assert(out@.to_multiset().add(rem@.to_multiset()) =~= orig.to_multiset());
    }
    while rem.len() > 0
        invariant
            keys_unique(orig),
            keys_unique(rem@),
            out@.to_multiset().add(rem@.to_multiset()) == orig.to_multiset(),
            ranked(out@),
            forall|a: int, b: int| 0 <= a < out@.len() && 0 <= b < rem@.len() ==> ranks_before(
                out@[a],
                rem@[b],
            ),
        decreases rem@.len(),
    {
        let mut best: usize = 0;
        let mut j: usize = 1;
        proof {
            law_ranks_irreflexive(rem@[0]);
        }
        while j < rem.len()
            invariant
                0 < rem@.len(),
                best < j <= rem@.len(),
                forall|k: int| 0 <= k < j ==> !ranks_before(rem@[k], rem@[best as int]),
            decreases rem@.len() - j,
        {
            if ranks_ahead(&rem[j], &rem[best]) {
                proof {
                    assert forall|k: int| 0 <= k < j + 1 implies !ranks_before(rem@[k], rem@[j as int]) by {
                        if k == j {
                            law_ranks_irreflexive(rem@[k]);
                        } else if ranks_before(rem@[k], rem@[j as int]) {
                            law_ranks_transitive(rem@[k], rem@[j as int], rem@[best as int]);
                        }
                    }
                }
                best = j;
            }
            j = j + 1;
        }
        let ghost old_rem = rem@;
        let ghost old_out = out@;
        proof {
            assert forall|k: int| 0 <= k < old_rem.len() && k != best implies ranks_before(
                old_rem[best as int],
                old_rem[k],
            ) by {
                law_ranks_total(old_rem[best as int], old_rem[k]);
            }
        }
        let x = rem.swap_remove(best);
        out.push(x);
        proof {
            broadcast use vstd::seq_lib::group_to_multiset_ensures, vstd::multiset::group_multiset_axioms;
            let last = old_rem.len() - 1;
            assert forall|a: int, b: int| 0 <= a < rem@.len() && 0 <= b < rem@.len() && a != b implies rem@[a].0@
                != rem@[b].0@ by {
                let a2 = if a == best { last } else { a };
                let b2 = if b == best { last } else { b };
                assert(rem@[a] == old_rem[a2]);
                assert(rem@[b] == old_rem[b2]);
            }
            assert forall|a: int, b: int| 0 <= a < out@.len() && 0 <= b < rem@.len() implies ranks_before(
                out@[a],
                rem@[b],
            ) by {
                let b2 = if b == best { last } else { b };
                assert(rem@[b] == old_rem[b2]);
                if a < old_out.len() {
                    assert(out@[a] == old_out[a]);
                }
            }
            assert forall|a: int, b: int| 0 <= a < b < out@.len() implies ranks_before(out@[a], out@[b]) by {
                assert(out@[a] == old_out[a]);
                if b < old_out.len() {
                    assert(out@[b] == old_out[b]);
                }
            }
            let upd = old_rem.update(best as int, old_rem[last]);
            assert(upd.drop_last() =~= upd.remove(last));
            assert(upd[last] == old_rem[last]);
            assert(rem@.to_multiset() == upd.to_multiset().remove(old_rem[last]));
            assert(rem@.to_multiset() =~= old_rem.to_multiset().remove(x));
            assert(out@.to_multiset() =~= old_out.to_multiset().insert(x));
            assert(out@.to_multiset().add(rem@.to_multiset()) =~= orig.to_multiset());
        }
    }
    proof {
        broadcast use vstd::seq_lib::group_to_multiset_ensures, vstd::multiset::group_multiset_axioms;
        lemma_entries_map(orig);
        assert(out@.to_multiset() =~= orig.to_multiset());
        assert(out@.len() == out@.to_multiset().len());
        assert(orig.len() == orig.to_multiset().len());
        assert forall|i: int| 0 <= i < out@.len() implies #[trigger] table.contains_key(out@[i].0@)
            && table[out@[i].0@] == out@[i].1 by {
            assert(out@.to_multiset().count(out@[i]) > 0);
            assert(orig.contains(out@[i]));
            let k = choose|k: int| 0 <= k < orig.len() && orig[k] == out@[i];
            assert(table.contains_key(orig[k].0@));
        }
        law_ranking_covers_table(table, out@);
        law_ranking_order(out@);
    }
    out
}

/// With distinct keys, the tracks played in shuffle mode are as many as the
/// entries with a shuffled play.
proof fn lemma_shuffled_count(e: Seq<(String, SongStats)>)
    requires
        keys_unique(e),
    ensures
        shuffled_tracks(entries_map(e)).finite(),
        shuffled_tracks(entries_map(e)).len() == e.filter(
            |x: (String, SongStats)| x.1.shuffled_count > 0,
        ).len(),
    decreases e.len(),
{
    let p = |x: (String, SongStats)| x.1.shuffled_count > 0;
    if e.len() == 0 {
        assert(shuffled_tracks(entries_map(e)) =~= Set::<Seq<char>>::empty());
        assert(e.filter(p) =~= Seq::<(String, SongStats)>::empty()) by {
            reveal(Seq::filter);
        }
    } else {
        let d = e.drop_last();
        let l = e.last();
        assert(keys_unique(d));
        lemma_shuffled_count(d);
        lemma_entries_map(d);
        assert(e =~= d.push(l));
        d.lemma_filter_push(l, p);
        assert(!entries_map(d).contains_key(l.0@)) by {
            if entries_map(d).contains_key(l.0@) {
                let i = choose|i: int| 0 <= i < d.len() && d[i].0@ == l.0@;
                assert(e[i].0@ == e[e.len() - 1].0@);
            }
        }
        let before = shuffled_tracks(entries_map(d));
        if l.1.shuffled_count > 0 {
            assert(shuffled_tracks(entries_map(e)) =~= before.insert(l.0@));
        } else {
            assert(shuffled_tracks(entries_map(e)) =~= before);
        }
    }
}

/// The number of tracks that were played at least once in shuffle mode.
pub fn count_unique_shuffled(stats: &SongStatsTable) -> (res: usize)
    ensures
        res == shuffled_tracks(stats@).len(),
{
    proof {
        use_type_invariant(stats);
    }
    let ghost p = |x: (String, SongStats)| x.1.shuffled_count > 0;
    let mut count: usize = 0;
    let mut i: usize = 0;
    while i < stats.entries.len()
        invariant
            i <= stats.entries@.len(),
            p == (|x: (String, SongStats)| x.1.shuffled_count > 0),
            count == stats.entries@.take(i as int).filter(p).len(),
            count <= i,
        decreases stats.entries@.len() - i,
    {
        proof {
            assert(stats.entries@.take(i + 1) =~= stats.entries@.take(i as int).push(stats.entries@[i as int]));
            stats.entries@.take(i as int).lemma_filter_push(stats.entries@[i as int], p);
            assert(p(stats.entries@[i as int]) == (stats.entries@[i as int].1.shuffled_count > 0));
        }
        if stats.entries[i].1.shuffled_count > 0 {
            count = count + 1;
        }
        i = i + 1;
    }
    proof {
        assert(stats.entries@.take(i as int) =~= stats.entries@);
        lemma_shuffled_count(stats.entries@);
    }
    count
}

// ---------------------------------------------------------------------
// Laws
// ---------------------------------------------------------------------

/// Every tracked count of a track is at most its number of plays; a track
/// in the table was played at least once; and its full plays and its
/// skipped plays together make up all its plays.
pub proof fn law_counts_consistent(m: Map<Seq<char>, SongStats>, songs: Seq<FullSongDetails>, t: Seq<char>)
    requires
        is_stats_of(m, songs),
        m.contains_key(t),
    ensures
        m[t].play_count >= 1,
        m[t].shuffled_count <= m[t].play_count,
        m[t].skipped_count <= m[t].play_count,
        m[t].full_play_count + m[t].skipped_count == m[t].play_count,
{
    let plays = plays_of(songs, t);
    plays.lemma_filter_len(|s: FullSongDetails| s.shuffle);
    plays.lemma_filter_len(|s: FullSongDetails| s.skipped);
}

/// A predicate and its negation split a sequence.
proof fn lemma_filter_split<A>(s: Seq<A>, p: spec_fn(A) -> bool, q: spec_fn(A) -> bool)
    requires
        forall|x: A| #[trigger] q(x) == !p(x),
    ensures
        s.filter(p).len() + s.filter(q).len() == s.len(),
    decreases s.len(),
{
    if s.len() > 0 {
        let d = s.drop_last();
        lemma_filter_split(d, p, q);
        assert(s =~= d.push(s.last()));
        d.lemma_filter_push(s.last(), p);
        d.lemma_filter_push(s.last(), q);
    } else {
        assert(s.filter(p) =~= Seq::<A>::empty()) by {
            reveal(Seq::filter);
        }
        assert(s.filter(q) =~= Seq::<A>::empty()) by {
            reveal(Seq::filter);
        }
    }
}

/// A track's full plays are exactly its plays that were not skipped.
pub proof fn law_full_plays_are_unskipped(m: Map<Seq<char>, SongStats>, songs: Seq<FullSongDetails>, t: Seq<char>)
    requires
        is_stats_of(m, songs),
        m.contains_key(t),
    ensures
        m[t].full_play_count == plays_of(songs, t).filter(|s: FullSongDetails| !s.skipped).len(),
{
    let plays = plays_of(songs, t);
    lemma_filter_split(plays, |s: FullSongDetails| s.skipped, |s: FullSongDetails| !s.skipped);
}

/// The tracks counted as played in shuffle mode are exactly those with at
/// least one play in shuffle mode.
pub proof fn law_shuffled_tracks(m: Map<Seq<char>, SongStats>, songs: Seq<FullSongDetails>, t: Seq<char>)
    requires
        is_stats_of(m, songs),
    ensures
        shuffled_tracks(m).contains(t) <==> exists|i: int| 0 <= i < songs.len() && track_of(#[trigger] songs[i])
            == Some(t) && songs[i].shuffle,
{
    let plays = plays_of(songs, t);
    let tp = |x: FullSongDetails| track_of(x) == Some(t);
    let sp = |x: FullSongDetails| x.shuffle;
    if exists|i: int| 0 <= i < songs.len() && track_of(#[trigger] songs[i]) == Some(t) && songs[i].shuffle {
        let i = choose|i: int| 0 <= i < songs.len() && track_of(#[trigger] songs[i]) == Some(t) && songs[i].shuffle;
        songs.lemma_filter_contains(tp, i);
        let k = choose|k: int| 0 <= k < plays.len() && plays[k] == songs[i];
        plays.lemma_filter_contains(sp, k);
        assert(m.contains_key(t));
        assert(shuffled_plays(plays).len() > 0);
    }
    if shuffled_tracks(m).contains(t) {
        assert(shuffled_plays(plays).len() > 0);
        let x = shuffled_plays(plays)[0];
        plays.lemma_filter_pred(sp, 0);
        assert(shuffled_plays(plays).contains(x));
        plays.lemma_filter_contains_rev(sp, x);
        let k = choose|k: int| 0 <= k < plays.len() && plays[k] == x;
        songs.lemma_filter_pred(tp, k);
        assert(plays.contains(x));
        songs.lemma_filter_contains_rev(tp, x);
        let i = choose|i: int| 0 <= i < songs.len() && songs[i] == x;
        assert(track_of(songs[i]) == Some(t) && songs[i].shuffle);
    }
}

/// Adding a track that was not in a table adds one to the number of tracks
/// played in shuffle mode when the new track has a shuffled play, and
/// nothing otherwise.
pub proof fn law_shuffled_count_insert(m: Map<Seq<char>, SongStats>, t: Seq<char>, v: SongStats)
    requires
        m.dom().finite(),
        !m.contains_key(t),
    ensures
        shuffled_tracks(m).finite(),
        shuffled_tracks(m.insert(t, v)).finite(),
        shuffled_tracks(m.insert(t, v)).len() == shuffled_tracks(m).len() + (if v.shuffled_count > 0 {
            1int
        } else {
            0int
        }),
{
    let before = shuffled_tracks(m);
    m.dom().lemma_len_filter(|k: Seq<char>| m[k].shuffled_count > 0);
    assert(!before.contains(t));
    if v.shuffled_count > 0 {
        assert(shuffled_tracks(m.insert(t, v)) =~= before.insert(t));
    } else {
        assert(shuffled_tracks(m.insert(t, v)) =~= before);
    }
}

/// A ranking of a table's entries, of the table's size, lists every track
/// of the table (each exactly once).
pub proof fn law_ranking_covers_table(m: Map<Seq<char>, SongStats>, r: Seq<(String, SongStats)>)
    requires
        m.dom().finite(),
        ranked(r),
        r.len() == m.dom().len(),
        entries_of_table(r, m),
    ensures
        forall|t: Seq<char>| #[trigger] m.contains_key(t) ==> exists|i: int| 0 <= i < r.len() && r[i].0@ == t,
        forall|i: int, j: int| 0 <= i < r.len() && 0 <= j < r.len() && i != j ==> r[i].0@ != r[j].0@,
{
    let ks = r.map_values(|e: (String, SongStats)| e.0@);
    assert forall|i: int, j: int| 0 <= i < r.len() && 0 <= j < r.len() && i != j implies r[i].0@ != r[j].0@ by {
        if r[i].0@ == r[j].0@ {
            assert(m.contains_key(r[i].0@));
            assert(m.contains_key(r[j].0@));
            if i < j {
                assert(ranks_before(r[i], r[j]));
                lemma_bytes_irreflexive(encode_utf8(r[i].0@));
            } else {
                assert(ranks_before(r[j], r[i]));
                lemma_bytes_irreflexive(encode_utf8(r[i].0@));
            }
        }
    }
    assert(ks.no_duplicates()) by {
        assert forall|i: int, j: int| 0 <= i < ks.len() && 0 <= j < ks.len() && i != j implies ks[i] != ks[j] by {
            assert(ks[i] == r[i].0@);
            assert(ks[j] == r[j].0@);
        }
    }
    ks.unique_seq_to_set();
    assert(ks.to_set().subset_of(m.dom())) by {
        assert forall|k: Seq<char>| ks.to_set().contains(k) implies m.dom().contains(k) by {
            assert(ks.contains(k));
            let i = choose|i: int| 0 <= i < ks.len() && ks[i] == k;
            assert(m.contains_key(r[i].0@));
        }
    }
    vstd::set_lib::lemma_subset_equality(ks.to_set(), m.dom());
    assert forall|t: Seq<char>| #[trigger] m.contains_key(t) implies exists|i: int| 0 <= i < r.len() && r[i].0@ == t by {
        assert(ks.to_set().contains(t));
        assert(ks.contains(t));
        let i = choose|i: int| 0 <= i < ks.len() && ks[i] == t;
        assert(r[i].0@ == t);
    }
}

/// A table has only one ranking: any two lists of its entries, of its
/// size, each in ranking order, agree position by position.
pub proof fn law_ranking_is_unique(
    m: Map<Seq<char>, SongStats>,
    r1: Seq<(String, SongStats)>,
    r2: Seq<(String, SongStats)>,
)
    requires
        m.dom().finite(),
        ranked(r1),
        ranked(r2),
        r1.len() == m.dom().len(),
        r2.len() == m.dom().len(),
        entries_of_table(r1, m),
        entries_of_table(r2, m),
    ensures
        forall|i: int| 0 <= i < r1.len() ==> r1[i].0@ == r2[i].0@ && r1[i].1 == r2[i].1,
{
    law_ranking_covers_table(m, r1);
    law_ranking_covers_table(m, r2);
    assert forall|i: int| 0 <= i < r1.len() implies r1[i].0@ == r2[i].0@ && r1[i].1 == r2[i].1 by {
        lemma_rankings_agree_upto(m, r1, r2, i);
        assert(m.contains_key(r1[i].0@));
        assert(m.contains_key(r2[i].0@));
    }
}

/// Two rankings of one table name the same tracks up to position `i`.
proof fn lemma_rankings_agree_upto(
    m: Map<Seq<char>, SongStats>,
    r1: Seq<(String, SongStats)>,
    r2: Seq<(String, SongStats)>,
    i: int,
)
    requires
        m.dom().finite(),
        ranked(r1),
        ranked(r2),
        r1.len() == m.dom().len(),
        r2.len() == m.dom().len(),
        entries_of_table(r1, m),
        entries_of_table(r2, m),
        0 <= i < r1.len(),
    ensures
        forall|h: int| 0 <= h <= i ==> r1[h].0@ == r2[h].0@,
    decreases i,
{
    law_ranking_covers_table(m, r1);
    law_ranking_covers_table(m, r2);
    if i > 0 {
        lemma_rankings_agree_upto(m, r1, r2, i - 1);
    }
    let k1 = r1[i].0@;
    let k2 = r2[i].0@;
    if k1 != k2 {
        assert(m.contains_key(k1));
        assert(m.contains_key(k2));
        let j2 = choose|j: int| 0 <= j < r2.len() && r2[j].0@ == k1;
        let j1 = choose|j: int| 0 <= j < r1.len() && r1[j].0@ == k2;
        if j2 < i {
            assert(r1[j2].0@ == r2[j2].0@);
        }
        if j1 < i {
            assert(r1[j1].0@ == r2[j1].0@);
        }
        assert(ranks_before(r2[i], r2[j2]));
        assert(ranks_before(r1[i], r1[j1]));
        assert(m.contains_key(r2[j2].0@));
        assert(m.contains_key(r1[j1].0@));
        if r1[i].1.full_play_count == r2[i].1.full_play_count {
            lemma_bytes_transitive(encode_utf8(k1), encode_utf8(k2), encode_utf8(k1));
            lemma_bytes_irreflexive(encode_utf8(k1));
        }
        assert(false);
    }
}

/// The plays in `songs` that name a track.
pub open spec fn named_plays(songs: Seq<FullSongDetails>) -> Seq<FullSongDetails> {
    songs.filter(|s: FullSongDetails| track_of(s) is Some)
}

/// The sum of the play counts of a list of entries.
pub open spec fn total_play_count(r: Seq<(String, SongStats)>) -> int
    decreases r.len(),
{
    if r.len() == 0 {
        0
    } else {
        total_play_count(r.drop_last()) + r.last().1.play_count
    }
}

/// The number of plays of the tracks `ks` in `songs`.
spec fn plays_of_all(songs: Seq<FullSongDetails>, ks: Seq<Seq<char>>) -> int
    decreases ks.len(),
{
    if ks.len() == 0 {
        0
    } else {
        plays_of_all(songs, ks.drop_last()) + plays_of(songs, ks.last()).len()
    }
}

/// Appending a play adds one to the plays of the listed tracks exactly when
/// its track is listed.
proof fn lemma_plays_of_all_push(songs: Seq<FullSongDetails>, x: FullSongDetails, ks: Seq<Seq<char>>)
    requires
        ks.no_duplicates(),
    ensures
        plays_of_all(songs.push(x), ks) == plays_of_all(songs, ks) + if track_of(x) is Some && ks.contains(
            track_of(x).unwrap(),
        ) {
            1int
        } else {
            0int
        },
    decreases ks.len(),
{
    if ks.len() > 0 {
        let d = ks.drop_last();
        assert(d.no_duplicates());
        lemma_plays_of_all_push(songs, x, d);
        lemma_plays_push(songs, x, ks.last());
        if track_of(x) is Some {
            let t = track_of(x).unwrap();
            if ks.last() == t {
                assert(!d.contains(t)) by {
                    if d.contains(t) {
                        let j = choose|j: int| 0 <= j < d.len() && d[j] == t;
                        assert(ks[j] == ks[ks.len() - 1]);
                    }
                }
                assert(ks.contains(t)) by {
                    assert(ks[ks.len() - 1] == t);
                }
            } else {
                assert(ks.contains(t) == d.contains(t)) by {
                    if ks.contains(t) {
                        let j = choose|j: int| 0 <= j < ks.len() && ks[j] == t;
                        assert(j != ks.len() - 1);
                        assert(d[j] == t);
                    }
                    if d.contains(t) {
                        let j = choose|j: int| 0 <= j < d.len() && d[j] == t;
                        assert(ks[j] == t);
                    }
                }
            }
        }
    }
}

/// When every named play's track is listed once, the listed tracks' plays
/// are all the named plays.
proof fn lemma_plays_of_all_named(songs: Seq<FullSongDetails>, ks: Seq<Seq<char>>)
    requires
        ks.no_duplicates(),
        forall|i: int| 0 <= i < songs.len() && #[trigger] track_of(songs[i]) is Some ==> ks.contains(
            track_of(songs[i]).unwrap(),
        ),
    ensures
        plays_of_all(songs, ks) == named_plays(songs).len(),
    decreases songs.len(),
{
    if songs.len() == 0 {
        assert(named_plays(songs) =~= Seq::<FullSongDetails>::empty()) by {
            reveal(Seq::filter);
        }
        assert forall|k: int| 0 <= k <= ks.len() implies plays_of_all(songs, #[trigger] ks.take(k)) == 0 by {
            lemma_plays_of_all_empty(songs, ks, k);
        }
        assert(ks.take(ks.len() as int) =~= ks);
    } else {
        let d = songs.drop_last();
        let x = songs.last();
        assert(songs =~= d.push(x));
        assert forall|i: int| 0 <= i < d.len() && #[trigger] track_of(d[i]) is Some implies ks.contains(
            track_of(d[i]).unwrap(),
        ) by {
            assert(d[i] == songs[i]);
        }
        lemma_plays_of_all_named(d, ks);
        lemma_plays_of_all_push(d, x, ks);
        d.lemma_filter_push(x, |s: FullSongDetails| track_of(s) is Some);
        assert(track_of(songs[songs.len() - 1]) is Some ==> ks.contains(track_of(x).unwrap()));
    }
}

/// No plays, no plays of any listed tracks.
proof fn lemma_plays_of_all_empty(songs: Seq<FullSongDetails>, ks: Seq<Seq<char>>, k: int)
    requires
        songs.len() == 0,
        0 <= k <= ks.len(),
    ensures
        plays_of_all(songs, ks.take(k)) == 0,
    decreases k,
{
    if k > 0 {
        assert(ks.take(k).drop_last() =~= ks.take(k - 1));
        lemma_plays_of_all_empty(songs, ks, k - 1);
        assert(plays_of(songs, ks.take(k).last()) =~= Seq::<FullSongDetails>::empty()) by {
            reveal(Seq::filter);
        }
    }
}

/// Every play that names a track is counted exactly once: the play counts
/// of a ranking of the statistics add up to the number of such plays.
pub proof fn law_every_play_counted_once(
    m: Map<Seq<char>, SongStats>,
    songs: Seq<FullSongDetails>,
    r: Seq<(String, SongStats)>,
)
    requires
        is_stats_of(m, songs),
        m.dom().finite(),
        ranked(r),
        r.len() == m.dom().len(),
        entries_of_table(r, m),
    ensures
        total_play_count(r) == named_plays(songs).len(),
{
    law_ranking_covers_table(m, r);
    let ks = r.map_values(|e: (String, SongStats)| e.0@);
    assert(ks.no_duplicates()) by {
        assert forall|i: int, j: int| 0 <= i < ks.len() && 0 <= j < ks.len() && i != j implies ks[i] != ks[j] by {
            assert(ks[i] == r[i].0@);
            assert(ks[j] == r[j].0@);
        }
    }
    assert forall|i: int| 0 <= i < songs.len() && #[trigger] track_of(songs[i]) is Some implies ks.contains(
        track_of(songs[i]).unwrap(),
    ) by {
        let t = track_of(songs[i]).unwrap();
        songs.lemma_filter_contains(|x: FullSongDetails| track_of(x) == Some(t), i);
        assert(plays_of(songs, t).len() > 0);
        assert(m.contains_key(t));
        let k = choose|k: int| 0 <= k < r.len() && r[k].0@ == t;
        assert(ks[k] == t);
    }
    lemma_plays_of_all_named(songs, ks);
    lemma_total_is_plays_of_all(m, songs, r);
}

/// The play counts of entries of the statistics add up to the plays of their
/// tracks.
proof fn lemma_total_is_plays_of_all(
    m: Map<Seq<char>, SongStats>,
    songs: Seq<FullSongDetails>,
    r: Seq<(String, SongStats)>,
)
    requires
        is_stats_of(m, songs),
        entries_of_table(r, m),
    ensures
        total_play_count(r) == plays_of_all(songs, r.map_values(|e: (String, SongStats)| e.0@)),
    decreases r.len(),
{
    if r.len() > 0 {
        let d = r.drop_last();
        assert(entries_of_table(d, m)) by {
            assert forall|i: int| 0 <= i < d.len() implies #[trigger] m.contains_key(d[i].0@) && m[d[i].0@] == d[i].1 by {
                assert(d[i] == r[i]);
            }
        }
        lemma_total_is_plays_of_all(m, songs, d);
        let ks = r.map_values(|e: (String, SongStats)| e.0@);
        assert(ks.drop_last() =~= d.map_values(|e: (String, SongStats)| e.0@));
        assert(m.contains_key(r[r.len() - 1].0@));
    }
}

/// Filtering and then counting is counting and then filtering.
proof fn lemma_filter_to_multiset<A>(s: Seq<A>, p: spec_fn(A) -> bool)
    ensures
        s.filter(p).to_multiset() =~= s.to_multiset().filter(p),
    decreases s.len(),
{
    broadcast use vstd::seq_lib::group_to_multiset_ensures, vstd::multiset::group_multiset_axioms;

    if s.len() == 0 {
        assert(s.filter(p) =~= Seq::<A>::empty()) by {
            reveal(Seq::filter);
        }
        assert(s.to_multiset() =~= vstd::multiset::Multiset::<A>::empty());
    } else {
        let d = s.drop_last();
        let x = s.last();
        lemma_filter_to_multiset(d, p);
        assert(s =~= d.push(x));
        d.lemma_filter_push(x, p);
    }
}

/// The statistics do not depend on the order of the history: two histories
/// with the same plays, in any order, give the same tracks with the same
/// counts (only the credited artist, taken from a track's first play, may
/// differ).
pub proof fn law_stats_ignore_order(
    m1: Map<Seq<char>, SongStats>,
    songs1: Seq<FullSongDetails>,
    m2: Map<Seq<char>, SongStats>,
    songs2: Seq<FullSongDetails>,
)
    requires
        is_stats_of(m1, songs1),
        is_stats_of(m2, songs2),
        songs1.to_multiset() == songs2.to_multiset(),
    ensures
        forall|t: Seq<char>| #[trigger] m1.contains_key(t) == m2.contains_key(t),
        forall|t: Seq<char>| #[trigger] m1.contains_key(t) ==> {
            &&& m1[t].play_count == m2[t].play_count
            &&& m1[t].shuffled_count == m2[t].shuffled_count
            &&& m1[t].skipped_count == m2[t].skipped_count
            &&& m1[t].full_play_count == m2[t].full_play_count
        },
{
    broadcast use vstd::seq_lib::group_to_multiset_ensures;

    assert forall|t: Seq<char>| #[trigger] m1.contains_key(t) == m2.contains_key(t) && (m1.contains_key(t) ==> {
        &&& m1[t].play_count == m2[t].play_count
        &&& m1[t].shuffled_count == m2[t].shuffled_count
        &&& m1[t].skipped_count == m2[t].skipped_count
        &&& m1[t].full_play_count == m2[t].full_play_count
    }) by {
        let tp = |x: FullSongDetails| track_of(x) == Some(t);
        let p1 = plays_of(songs1, t);
        let p2 = plays_of(songs2, t);
        lemma_filter_to_multiset(songs1, tp);
        lemma_filter_to_multiset(songs2, tp);
        assert(p1.to_multiset() == p2.to_multiset());
        assert(p1.len() == p2.len()) by {
            assert(p1.len() == p1.to_multiset().len());
            assert(p2.len() == p2.to_multiset().len());
        }
        lemma_filter_to_multiset(p1, |x: FullSongDetails| x.shuffle);
        lemma_filter_to_multiset(p2, |x: FullSongDetails| x.shuffle);
        assert(shuffled_plays(p1).len() == shuffled_plays(p2).len()) by {
            assert(shuffled_plays(p1).len() == shuffled_plays(p1).to_multiset().len());
            assert(shuffled_plays(p2).len() == shuffled_plays(p2).to_multiset().len());
        }
        lemma_filter_to_multiset(p1, |x: FullSongDetails| x.skipped);
        lemma_filter_to_multiset(p2, |x: FullSongDetails| x.skipped);
        assert(skipped_plays(p1).len() == skipped_plays(p2).len()) by {
            assert(skipped_plays(p1).len() == skipped_plays(p1).to_multiset().len());
            assert(skipped_plays(p2).len() == skipped_plays(p2).to_multiset().len());
        }
    }
}

/// A play without a track name changes no track's plays, wherever it is
/// inserted into the history; so a count overflows with it exactly when it
/// overflows without it.
pub proof fn law_unnamed_play_keeps_plays(songs: Seq<FullSongDetails>, k: int, s: FullSongDetails)
    requires
        0 <= k <= songs.len(),
        track_of(s) is None,
    ensures
        forall|t: Seq<char>| #[trigger] plays_of(songs.insert(k, s), t) == plays_of(songs, t),
        (exists|t: Seq<char>| #[trigger] plays_of(songs.insert(k, s), t).len() > u32::MAX) <==> (exists|
            t: Seq<char>,
        | #[trigger] plays_of(songs, t).len() > u32::MAX),
{
    broadcast use Seq::filter_distributes_over_add;

    let with = songs.insert(k, s);
    assert forall|t: Seq<char>| #[trigger] plays_of(with, t) == plays_of(songs, t) by {
        let tp = |x: FullSongDetails| track_of(x) == Some(t);
        assert(with =~= songs.take(k) + seq![s] + songs.skip(k));
        assert(songs =~= songs.take(k) + songs.skip(k));
        assert(seq![s].filter(tp) =~= Seq::<FullSongDetails>::empty()) by {
            let e = Seq::<FullSongDetails>::empty();
            assert(seq![s] =~= e.push(s));
            e.lemma_filter_push(s, tp);
            assert(e.filter(tp) =~= e) by {
                reveal(Seq::filter);
            }
        }
        assert((songs.take(k) + seq![s]).filter(tp) == songs.take(k).filter(tp) + seq![s].filter(tp));
        assert(with.filter(tp) == (songs.take(k) + seq![s]).filter(tp) + songs.skip(k).filter(tp));
        assert(songs.filter(tp) == songs.take(k).filter(tp) + songs.skip(k).filter(tp));
        assert(with.filter(tp) =~= songs.filter(tp));
    }
    if exists|t: Seq<char>| #[trigger] plays_of(with, t).len() > u32::MAX {
        let t = choose|t: Seq<char>| #[trigger] plays_of(with, t).len() > u32::MAX;
        assert(plays_of(songs, t).len() > u32::MAX);
    }
    if exists|t: Seq<char>| #[trigger] plays_of(songs, t).len() > u32::MAX {
        let t = choose|t: Seq<char>| #[trigger] plays_of(songs, t).len() > u32::MAX;
        assert(plays_of(with, t).len() > u32::MAX);
    }
}

/// A play without a track name, inserted anywhere into the history, leaves
/// the statistics as they were: the same tracks, with the same counts and
/// artists.
pub proof fn law_unnamed_play_ignored(
    songs: Seq<FullSongDetails>,
    k: int,
    s: FullSongDetails,
    m1: Map<Seq<char>, SongStats>,
    m2: Map<Seq<char>, SongStats>,
)
    requires
        0 <= k <= songs.len(),
        track_of(s) is None,
        is_stats_of(m1, songs),
        is_stats_of(m2, songs.insert(k, s)),
    ensures
        forall|t: Seq<char>| #[trigger] m1.contains_key(t) == m2.contains_key(t),
        forall|t: Seq<char>| #[trigger] m1.contains_key(t) ==> {
            &&& m1[t].play_count == m2[t].play_count
            &&& m1[t].shuffled_count == m2[t].shuffled_count
            &&& m1[t].skipped_count == m2[t].skipped_count
            &&& m1[t].full_play_count == m2[t].full_play_count
            &&& m1[t].artist_name@ == m2[t].artist_name@
        },
{
    law_unnamed_play_keeps_plays(songs, k, s);
    let with = songs.insert(k, s);
    assert forall|t: Seq<char>| #[trigger] m1.contains_key(t) == m2.contains_key(t) by {
        assert(plays_of(with, t) == plays_of(songs, t));
    }
    assert forall|t: Seq<char>| #[trigger] m1.contains_key(t) implies {
        &&& m1[t].play_count == m2[t].play_count
        &&& m1[t].shuffled_count == m2[t].shuffled_count
        &&& m1[t].skipped_count == m2[t].skipped_count
        &&& m1[t].full_play_count == m2[t].full_play_count
        &&& m1[t].artist_name@ == m2[t].artist_name@
    } by {
        assert(plays_of(with, t) == plays_of(songs, t));
        assert(m2.contains_key(t));
    }
}

} // verus!

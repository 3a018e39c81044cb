//! Matching audio files to the tracks of the listening history by their
//! normalised "artist - title" names.

use vstd::prelude::*;
use crate::keyed::{
    keys_unique,
    entries_map,
    lemma_entries_map,
    lemma_entries_map_push,
    lemma_entries_map_update,
    lemma_keys_unique_push,
    indexes,
    empty_buckets,
    bucket_of,
    bucket_push,
    find_indexed,
    lemma_indexes_update,
    lemma_indexes_push,
};
use crate::text::{chars_of, normalize, normalized};

verus! {

/// The part of a history entry that tagging reads.
pub struct SpotifyTrack {
    pub master_metadata_track_name: Option<String>,
    pub master_metadata_album_artist_name: Option<String>,
    pub master_metadata_album_album_name: Option<String>,
}

/// The tags written into a matched audio file.
pub struct TrackTags {
    pub title: String,
    pub artist: String,
    pub album: String,
}

impl View for TrackTags {
    type V = (Seq<char>, Seq<char>, Seq<char>);

    open spec fn view(&self) -> (Seq<char>, Seq<char>, Seq<char>) {
        (self.title@, self.artist@, self.album@)
    }
}

/// Tags keyed by normalised "artist - title" names.
pub struct TrackIndex {
    entries: Vec<(String, TrackTags)>,
    buckets: Vec<Vec<usize>>,
}

impl TrackIndex {
    /// Each name is filed once, and the name index lists every entry (an
    /// index without entries may also have no bucket list at all).
    #[verifier::type_invariant]
    spec fn well_formed(self) -> bool {
        &&& keys_unique(self.entries@)
        &&& (indexes(self.buckets@, self.entries@) || (self.buckets@.len() == 0 && self.entries@.len() == 0))
    }
}

/// The map the entries stand for, with the tags seen as text.
spec fn tags_map(e: Seq<(String, TrackTags)>) -> Map<Seq<char>, (Seq<char>, Seq<char>, Seq<char>)> {
    entries_map(e).map_values(|t: TrackTags| t@)
}

impl View for TrackIndex {
    type V = Map<Seq<char>, (Seq<char>, Seq<char>, Seq<char>)>;

    closed spec fn view(&self) -> Map<Seq<char>, (Seq<char>, Seq<char>, Seq<char>)> {
        tags_map(self.entries@)
    }
}

/// `needle` occurs as a contiguous piece of `hay`.
pub open spec fn occurs_in(needle: Seq<char>, hay: Seq<char>) -> bool {
    exists|i: int| 0 <= i && i + needle.len() <= hay.len() && #[trigger] hay.subrange(i, i + needle.len()) == needle
}

/// A piece of a text occurs in it wherever it stands, at the start, in the
/// middle or at the end.
pub proof fn law_contained_piece_occurs(before: Seq<char>, piece: Seq<char>, after: Seq<char>)
    ensures
        occurs_in(piece, before + piece + after),
        occurs_in(piece, piece + after),
        occurs_in(piece, before + piece),
{
    let h = before + piece + after;
    assert(h.subrange(before.len() as int, (before.len() + piece.len()) as int) =~= piece);
    let start: int = 0;
    assert((piece + after).subrange(start, start + piece.len()) =~= piece);
    assert((before + piece).subrange(before.len() as int, (before.len() + piece.len()) as int) =~= piece);
}

/// Whatever occurs in a text is a contiguous piece of it: the text is
/// something, then the piece, then something.
pub proof fn law_occurrence_is_a_piece(piece: Seq<char>, hay: Seq<char>)
    requires
        occurs_in(piece, hay),
    ensures
        exists|before: Seq<char>, after: Seq<char>| hay == before + piece + after,
{
    let i = choose|i: int| 0 <= i && i + piece.len() <= hay.len() && #[trigger] hay.subrange(i, i + piece.len()) == piece;
    let before = hay.subrange(0, i);
    let after = hay.subrange(i + piece.len(), hay.len() as int);
    assert(hay =~= before + piece + after);
}

/// Whether `needle` occurs as a contiguous piece of `hay`.
fn occurs(needle: &Vec<char>, hay: &Vec<char>) -> (res: bool)
    ensures
        res == occurs_in(needle@, hay@),
{
    if needle.len() > hay.len() {
        return false;
    }
    let last = hay.len() - needle.len();
    let mut i: usize = 0;
    loop
        invariant
            i <= last,
            last == hay@.len() - needle@.len(),
            needle@.len() <= hay@.len(),
            forall|s: int| 0 <= s < i ==> #[trigger] hay@.subrange(s, s + needle@.len()) != needle@,
        decreases last - i,
    {
        let mut k: usize = 0;
        let mut same = true;
        while k < needle.len()
            invariant
                i <= last,
                last == hay@.len() - needle@.len(),
                needle@.len() <= hay@.len(),
                k <= needle@.len(),
                hay@.len() == hay.len(),
                same == (forall|m: int| 0 <= m < k ==> hay@[i + m] == needle@[m]),
            decreases needle@.len() - k,
        {
            if hay[i + k] != needle[k] {
                same = false;
            }
            k = k + 1;
        }
        if same {
            proof {
                assert(hay@.subrange(i as int, i + needle@.len()) =~= needle@);
            }
            return true;
        }
        proof {
            let m = choose|m: int| 0 <= m < needle@.len() && hay@[i + m] != needle@[m];
            assert(hay@.subrange(i as int, i + needle@.len())[m] != needle@[m]);
        }
        if i == last {
            proof {
                assert forall|s: int| 0 <= s && s + needle@.len() <= hay@.len() implies #[trigger] hay@.subrange(
                    s,
                    s + needle@.len(),
                ) != needle@ by {
                    assert(s <= i);
                }
            }
            return false;
        }
        i = i + 1;
    }
}

impl TrackIndex {
    /// An empty index.
    pub fn new() -> (res: Self)
        ensures
            res@ == Map::<Seq<char>, (Seq<char>, Seq<char>, Seq<char>)>::empty(),
    {
        let res = TrackIndex { entries: Vec::new(), buckets: empty_buckets() };
        proof {
            assert(res@ =~= Map::<Seq<char>, (Seq<char>, Seq<char>, Seq<char>)>::empty());
        }
        res
    }

    /// The number of names in the index.
    pub fn len(&self) -> (res: usize)
        ensures
            self@.dom().finite(),
            res == self@.dom().len(),
    {
        proof {
            use_type_invariant(self);
            lemma_entries_map(self.entries@);
            assert(self@.dom() =~= entries_map(self.entries@).dom());
        }
        self.entries.len()
    }

    /// Files `tags` under `key`, replacing what was filed under it before.
    pub fn insert(&mut self, key: String, tags: TrackTags)
        ensures
            final(self)@ == old(self)@.insert(key@, tags@),
    {
        proof {
            use_type_invariant(&*self);
        }
        let mut entries: Vec<(String, TrackTags)> = Vec::new();
        std::mem::swap(&mut entries, &mut self.entries);
        let mut buckets: Vec<Vec<usize>> = Vec::new();
        std::mem::swap(&mut buckets, &mut self.buckets);
        if buckets.len() == 0 {
            buckets = empty_buckets();
        }
        let ghost e = entries@;
        match find_indexed(&entries, &buckets, &key) {
            Some(i) => {
                proof {
                    lemma_entries_map_update(e, i as int, (key, tags));
                    lemma_indexes_update(buckets@, e, i as int, (key, tags));
                    assert(tags_map(e.update(i as int, (key, tags))) =~= tags_map(e).insert(key@, tags@));
                }
                entries.set(i, (key, tags));
            },
            None => {
                let b = bucket_of(&key);
                let ghost old_buckets = buckets@;
                bucket_push(&mut buckets, b, entries.len());
                proof {
                    lemma_indexes_push(old_buckets, buckets@, e, (key, tags));
                    lemma_keys_unique_push(e, (key, tags));
                    lemma_entries_map_push(e, (key, tags));
                    assert(tags_map(e.push((key, tags))) =~= tags_map(e).insert(key@, tags@));
                }
                entries.push((key, tags));
            },
        }
        *self = TrackIndex { entries, buckets };
    }

    /// The tags filed under exactly `key`, if any.
    pub fn get(&self, key: &String) -> (res: Option<&TrackTags>)
        ensures
            match res {
                Some(t) => self@.contains_key(key@) && self@[key@] == t@,
                None => !self@.contains_key(key@),
            },
    {
        proof {
            use_type_invariant(self);
            lemma_entries_map(self.entries@);
        }
        if self.buckets.len() == 0 {
            return None;
        }
        match find_indexed(&self.entries, &self.buckets, key) {
            Some(i) => {
                proof {
                    assert(entries_map(self.entries@).contains_key(self.entries@[i as int].0@));
                }
                Some(&self.entries[i].1)
            },
            None => None,
        }
    }

    /// The tags for a file whose normalised name is `name`: those filed
    /// under exactly `name` if there are, otherwise those filed under some
    /// name that occurs within `name`.
    pub fn find_match(&self, name: &String) -> (res: Option<&TrackTags>)
        ensures
            self@.contains_key(name@) ==> (res matches Some(t) && t@ == self@[name@]),
            !self@.contains_key(name@) ==> match res {
                Some(t) => exists|k: Seq<char>| #[trigger] self@.contains_key(k) && occurs_in(k, name@)
                    && self@[k] == t@,
                None => forall|k: Seq<char>| #[trigger] self@.contains_key(k) ==> !occurs_in(k, name@),
            },
            forall|k: Seq<char>, before: Seq<char>, after: Seq<char>|
                #![trigger self@.contains_key(k), before + k + after]
                self@.contains_key(k) && name@ == before + k + after ==> res is Some,
    {
        proof {
            use_type_invariant(self);
            lemma_entries_map(self.entries@);
        }
        let exact = self.get(name);
        if exact.is_some() {
            return exact;
        }
        let hay = chars_of(name.as_str());
        let mut i: usize = 0;
        while i < self.entries.len()
            invariant
                i <= self.entries@.len(),
                hay@ == name@,
                keys_unique(self.entries@),
                !self@.contains_key(name@),
                forall|j: int| 0 <= j < i ==> !occurs_in(#[trigger] self.entries@[j].0@, name@),
            decreases self.entries@.len() - i,
        {
            let key_chars = chars_of(self.entries[i].0.as_str());
            if occurs(&key_chars, &hay) {
                proof {
                    lemma_entries_map(self.entries@);
                    assert(entries_map(self.entries@).contains_key(self.entries@[i as int].0@));
                    assert(self@.contains_key(self.entries@[i as int].0@));
                }
                return Some(&self.entries[i].1);
            }
            i = i + 1;
        }
        proof {
            lemma_entries_map(self.entries@);
            assert forall|k: Seq<char>, before: Seq<char>, after: Seq<char>|
                #![trigger self@.contains_key(k), before + k + after]
                self@.contains_key(k) && name@ == before + k + after implies false by {
                law_contained_piece_occurs(before, k, after);
                assert(entries_map(self.entries@).contains_key(k));
                let j = choose|j: int| 0 <= j < self.entries@.len() && self.entries@[j].0@ == k;
                assert(!occurs_in(self.entries@[j].0@, name@));
            }
            assert forall|k: Seq<char>| #[trigger] self@.contains_key(k) implies !occurs_in(k, name@) by {
                assert(entries_map(self.entries@).contains_key(k));
                let j = choose|j: int| 0 <= j < self.entries@.len() && self.entries@[j].0@ == k;
                assert(!occurs_in(self.entries@[j].0@, name@));
            }
        }
        None
    }
}

/// The album text of a play; plays without one get the empty text.
pub open spec fn album_text(p: SpotifyTrack) -> Seq<char> {
    match p.master_metadata_album_album_name {
        Some(a) => a@,
        None => Seq::empty(),
    }
}

/// The index entry a play contributes, if it names both a track and an
/// artist: its normalised "artist - title" name and its tags.
pub open spec fn entry_of_play(p: SpotifyTrack) -> Option<(Seq<char>, (Seq<char>, Seq<char>, Seq<char>))> {
    match p.master_metadata_track_name {
        Some(t) => match p.master_metadata_album_artist_name {
            Some(a) => Some((normalized(a@ + " - "@ + t@), (t@, a@, album_text(p)))),
            None => None,
        },
        None => None,
    }
}

/// The index that filing the plays in order gives: a later play filed
/// under the same name replaces an earlier one.
pub open spec fn index_of_plays(plays: Seq<SpotifyTrack>) -> Map<Seq<char>, (Seq<char>, Seq<char>, Seq<char>)>
    decreases plays.len(),
{
    if plays.len() == 0 {
        Map::empty()
    } else {
        let m = index_of_plays(plays.drop_last());
        match entry_of_play(plays.last()) {
            Some((k, v)) => m.insert(k, v),
            None => m,
        }
    }
}

/// Files every play that names a track and an artist under its normalised
/// "artist - title" name.
pub fn track_index(plays: &[SpotifyTrack]) -> (res: TrackIndex)
    ensures
        res@ == index_of_plays(plays@),
{
    let mut index = TrackIndex::new();
    let mut i: usize = 0;
    while i < plays.len()
        invariant
            i <= plays@.len(),
            index@ == index_of_plays(plays@.take(i as int)),
        decreases plays@.len() - i,
    {
        let p = &plays[i];
        proof {
            assert(plays@.take(i + 1).drop_last() =~= plays@.take(i as int));
        }
        match (&p.master_metadata_track_name, &p.master_metadata_album_artist_name) {
            (Some(track), Some(artist)) => {
                let mut joined = String::new();
                joined.append(artist.as_str());
                joined.append(" - ");
                joined.append(track.as_str());
                let key = normalize(joined.as_str());
                let album = match &p.master_metadata_album_album_name {
                    Some(a) => a.clone(),
                    None => String::new(),
                };
                let tags = TrackTags { title: track.clone(), artist: artist.clone(), album };
                proof {
                    assert(joined@ == artist@ + " - "@ + track@);
                }
                index.insert(key, tags);
            },
            _ => {},
        }
        i = i + 1;
    }
    proof {
        assert(plays@.take(plays@.len() as int) =~= plays@);
    }
    index
}

/// A play that names a track and an artist is found in the index under
/// its normalised name with its own tags, unless a later play is filed
/// under the same name.
pub proof fn law_index_keeps_last_play(plays: Seq<SpotifyTrack>, i: int)
    requires
        0 <= i < plays.len(),
        entry_of_play(plays[i]) is Some,
        forall|j: int| i < j < plays.len() ==> !(#[trigger] entry_of_play(plays[j]) is Some
            && entry_of_play(plays[j]).unwrap().0 == entry_of_play(plays[i]).unwrap().0),
    ensures
        index_of_plays(plays).contains_key(entry_of_play(plays[i]).unwrap().0),
        index_of_plays(plays)[entry_of_play(plays[i]).unwrap().0] == entry_of_play(plays[i]).unwrap().1,
    decreases plays.len(),
{
    let d = plays.drop_last();
    if i < plays.len() - 1 {
        assert forall|j: int| i < j < d.len() implies !(#[trigger] entry_of_play(d[j]) is Some
            && entry_of_play(d[j]).unwrap().0 == entry_of_play(d[i]).unwrap().0) by {
            assert(d[j] == plays[j]);
        }
        law_index_keeps_last_play(d, i);
        assert(d[i] == plays[i]);
        assert(!(entry_of_play(plays[plays.len() - 1]) is Some && entry_of_play(plays[plays.len() - 1]).unwrap().0
            == entry_of_play(plays[i]).unwrap().0));
    }
}

/// Every name in the index is the normalised name of some play.
pub proof fn law_index_names_come_from_plays(plays: Seq<SpotifyTrack>, k: Seq<char>)
    requires
        index_of_plays(plays).contains_key(k),
    ensures
        exists|i: int| 0 <= i < plays.len() && #[trigger] entry_of_play(plays[i]) is Some
            && entry_of_play(plays[i]).unwrap().0 == k,
    decreases plays.len(),
{
    let d = plays.drop_last();
    let l = plays.last();
    if entry_of_play(l) is Some && entry_of_play(l).unwrap().0 == k {
        assert(entry_of_play(plays[plays.len() - 1]) is Some);
    } else {
        law_index_names_come_from_plays(d, k);
        let i = choose|i: int| 0 <= i < d.len() && #[trigger] entry_of_play(d[i]) is Some
            && entry_of_play(d[i]).unwrap().0 == k;
        assert(d[i] == plays[i]);
    }
}

} // verus!

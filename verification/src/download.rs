//! The plan handed to the downloader: which ranked tracks to fetch and
//! how `yt-dlp` is invoked for each.

use vstd::prelude::*;
use crate::stats::SongStats;
use crate::text::chars_of;

verus! {

/// One track to fetch.
pub struct DownloadJob {
    /// Its 1-based position in the ranked list.
    pub position: usize,
    pub track_name: String,
    pub artist_name: String,
    /// The `yt-dlp` search: the first result for "artist track".
    pub query: String,
    /// The metadata rule that sets the artist tag.
    pub artist_meta: String,
    /// The metadata rule that sets the title tag.
    pub title_meta: String,
}

/// `job` fetches `song`, which stands at 0-based position `i` of the list.
pub open spec fn job_for(job: DownloadJob, i: int, song: (String, SongStats)) -> bool {
    let artist = song.1.artist_name@;
    let track = song.0@;
    &&& job.position == i + 1
    &&& job.track_name@ == track
    &&& job.artist_name@ == artist
    &&& job.query@ == "ytsearch1:"@ + artist + " "@ + track
    &&& job.artist_meta@ == "artist:"@ + artist
    &&& job.title_meta@ == "title:"@ + track
}

/// The number of jobs for a list of `len` tracks of which the first
/// `skip` are already on disk.
pub open spec fn jobs_left(len: int, skip: int) -> int {
    if skip < len {
        len - skip
    } else {
        0
    }
}

/// The jobs for the ranked `songs`, skipping the first `skip_count` of
/// them (they were fetched by an earlier run).
pub fn download_jobs(songs: &[(String, SongStats)], skip_count: usize) -> (res: Vec<DownloadJob>)
    ensures
        res@.len() == jobs_left(songs@.len() as int, skip_count as int),
        forall|j: int| 0 <= j < res@.len() ==> job_for(#[trigger] res@[j], skip_count + j, songs@[skip_count + j]),
{
    let mut res: Vec<DownloadJob> = Vec::new();
    let start = if skip_count < songs.len() { skip_count } else { songs.len() };
    let mut i: usize = start;
    while i < songs.len()
        invariant
            start <= i <= songs@.len(),
            start == if skip_count < songs@.len() { skip_count as int } else { songs@.len() as int },
            res@.len() == i - start,
            forall|j: int| 0 <= j < res@.len() ==> job_for(#[trigger] res@[j], skip_count + j, songs@[skip_count + j]),
        decreases songs@.len() - i,
    {
        let (track, stats) = &songs[i];
        let artist = &stats.artist_name;
        let mut query = "ytsearch1:".to_owned();
        query.append(artist.as_str());
        query.append(" ");
        query.append(track.as_str());
        let mut artist_meta = "artist:".to_owned();
        artist_meta.append(artist.as_str());
        let mut title_meta = "title:".to_owned();
        title_meta.append(track.as_str());
        let job = DownloadJob {
            position: i + 1,
            track_name: track.clone(),
            artist_name: artist.clone(),
            query,
            artist_meta,
            title_meta,
        };
        let ghost old_res = res@;
        res.push(job);
        proof {
            assert forall|j: int| 0 <= j < res@.len() implies job_for(#[trigger] res@[j], skip_count + j, songs@[skip_count + j]) by {
                if j < old_res.len() {
                    assert(res@[j] == old_res[j]);
                }
            }
        }
        i = i + 1;
    }
    res
}

/// A decimal digit.
pub open spec fn is_digit(c: char) -> bool {
    '0' as u32 <= c as u32 <= '9' as u32
}

/// The value of a run of decimal digits.
pub open spec fn digits_value(s: Seq<char>) -> nat
    decreases s.len(),
{
    if s.len() == 0 {
        0
    } else {
        digits_value(s.drop_last()) * 10 + (s.last() as u32 - '0' as u32) as nat
    }
}

/// Every character of `d` is a decimal digit.
pub open spec fn all_digits(d: Seq<char>) -> bool {
    forall|i: int| 0 <= i < d.len() ==> is_digit(#[trigger] d[i])
}

/// A setting's text without the one `+` it may start with.
pub open spec fn unsigned_part(s: Seq<char>) -> Seq<char> {
    if s.len() > 0 && s[0] == '+' {
        s.drop_first()
    } else {
        s
    }
}

/// The count a setting's text gives: an optional `+` and then one or more
/// decimal digits, whose value fits a `usize`; nothing for any other text.
pub open spec fn setting_number(s: Seq<char>) -> Option<nat> {
    let d = unsigned_part(s);
    if d.len() > 0 && all_digits(d) && digits_value(d) <= usize::MAX {
        Some(digits_value(d))
    } else {
        None
    }
}

/// A run of digits is worth at least as much as any of its prefixes.
proof fn lemma_digits_value_prefix(d: Seq<char>, j: int)
    requires
        0 <= j <= d.len(),
        all_digits(d),
    ensures
        digits_value(d.subrange(0, j)) <= digits_value(d),
    decreases d.len(),
{
    if j < d.len() {
        let p = d.drop_last();
        assert(p.subrange(0, j) =~= d.subrange(0, j));
        assert(all_digits(p)) by {
            assert forall|i: int| 0 <= i < p.len() implies is_digit(#[trigger] p[i]) by {
                assert(p[i] == d[i]);
            }
        }
        lemma_digits_value_prefix(p, j);
        assert(digits_value(p) <= digits_value(p) * 10) by (nonlinear_arith);
    } else {
        assert(d.subrange(0, j) =~= d);
    }
}

/// Reads a count from a setting's text, as `setting_number` gives it.
pub fn parse_count(text: &str) -> (res: Option<usize>)
    ensures
        match setting_number(text@) {
            Some(n) => res == Some(n as usize),
            None => res is None,
        },
{
    let chars = chars_of(text);
    let start: usize = if chars.len() > 0 && chars[0] == '+' { 1 } else { 0 };
    let ghost d = unsigned_part(text@);
    proof {
        assert(d =~= chars@.subrange(start as int, chars@.len() as int));
    }
    if start >= chars.len() {
        return None;
    }
    let mut value: usize = 0;
    let mut i: usize = start;
    while i < chars.len()
        invariant
            start <= i <= chars@.len(),
            chars@ == text@,
            d =~= chars@.subrange(start as int, chars@.len() as int),
            d == unsigned_part(text@),
            forall|k: int| 0 <= k < i - start ==> is_digit(#[trigger] d[k]),
            value == digits_value(d.subrange(0, i - start)),
        decreases chars@.len() - i,
    {
        let c = chars[i];
        let ghost j = i - start;
        if !('0' as u32 <= c as u32 && c as u32 <= '9' as u32) {
            proof {
                assert(!is_digit(d[j]));
            }
            return None;
        }
        let digit = (c as u32 - '0' as u32) as usize;
        proof {
            assert(d.subrange(0, j + 1).drop_last() =~= d.subrange(0, j));
            assert(d.subrange(0, j + 1).last() == c);
        }
        let next = match value.checked_mul(10) {
            Some(v) => v.checked_add(digit),
            None => None,
        };
        match next {
            Some(v) => {
                value = v;
            },
            None => {
                proof {
                    if all_digits(d) {
                        lemma_digits_value_prefix(d, j + 1);
                    }
                }
                return None;
            },
        }
        i = i + 1;
    }
    proof {
        assert(d.subrange(0, d.len() as int) =~= d);
    }
    Some(value)
}

/// How many of the ranked tracks to skip: the count that the `SKIP_SONGS`
/// setting gives when it is set to one, and otherwise the number of files
/// already downloaded, so that a run resumes where the last one stopped.
pub fn skip_count(setting: Option<String>, files_on_disk: usize) -> (res: usize)
    ensures
        res == match setting {
            Some(s) => match setting_number(s@) {
                Some(n) => n,
                None => files_on_disk as nat,
            },
            None => files_on_disk as nat,
        },
{
    match setting {
        Some(s) => match parse_count(s.as_str()) {
            Some(n) => n,
            None => files_on_disk,
        },
        None => files_on_disk,
    }
}

/// The arguments `yt-dlp` is run with for `job`: fetch the audio as mp3
/// with the browser cookies, embed the artist and title tags, and name
/// the file after the video's title under `songs/`.
pub fn yt_dlp_args(job: &DownloadJob) -> (res: Vec<String>)
    ensures
        res@.map_values(|a: String| a@) == seq![
            "--cookies"@,
            "cookies.txt"@,
            "-x"@,
            "--audio-format"@,
            "mp3"@,
            "--no-playlist"@,
            "--embed-metadata"@,
            "--parse-metadata"@,
            job.artist_meta@,
            "--parse-metadata"@,
            job.title_meta@,
            "-o"@,
            "songs/%(title)s.%(ext)s"@,
            job.query@,
        ],
{
    let mut res: Vec<String> = Vec::new();
    res.push("--cookies".to_owned());
    res.push("cookies.txt".to_owned());
    res.push("-x".to_owned());
    res.push("--audio-format".to_owned());
    res.push("mp3".to_owned());
    res.push("--no-playlist".to_owned());
    res.push("--embed-metadata".to_owned());
    res.push("--parse-metadata".to_owned());
    res.push(job.artist_meta.clone());
    res.push("--parse-metadata".to_owned());
    res.push(job.title_meta.clone());
    res.push("-o".to_owned());
    res.push("songs/%(title)s.%(ext)s".to_owned());
    res.push(job.query.clone());
    proof {
        assert(res@.map_values(|a: String| a@) =~= seq![
            "--cookies"@,
            "cookies.txt"@,
            "-x"@,
            "--audio-format"@,
            "mp3"@,
            "--no-playlist"@,
            "--embed-metadata"@,
            "--parse-metadata"@,
            job.artist_meta@,
            "--parse-metadata"@,
            job.title_meta@,
            "-o"@,
            "songs/%(title)s.%(ext)s"@,
            job.query@,
        ]);
    }
    res
}

} // verus!

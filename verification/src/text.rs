//! Text helpers: characters of strings, and the normal form of names used
//! to match audio files to tracks.

use vstd::prelude::*;

verus! {

/// What `str::to_lowercase` makes of a string: its Unicode lowercase form,
/// a function of the whole text (one character may become several, and a
/// capital sigma maps by the letters around it).
pub uninterp spec fn lowercase_of(s: Seq<char>) -> Seq<char>;

/// Whether a character is alphabetic or numeric in the Unicode sense, as
/// `char::is_alphanumeric` decides.
pub uninterp spec fn char_is_alphanumeric(c: char) -> bool;

/// Whether a character has the Unicode `White_Space` property, as
/// `char::is_whitespace` decides.
pub uninterp spec fn char_is_whitespace(c: char) -> bool;

/// Calls `str::to_lowercase`. Claims that the result's characters are
/// `lowercase_of` the argument's: a function of the text alone.
#[verifier::external_body]
fn lowercase(s: &str) -> (res: String)
    ensures
        res@ == lowercase_of(s@),
{
    s.to_lowercase()
}

/// Calls `char::is_alphanumeric`. Claims only that the answer is
/// `char_is_alphanumeric` of the character.
#[verifier::external_body]
fn is_alphanumeric(c: char) -> (res: bool)
    ensures
        res == char_is_alphanumeric(c),
{
    c.is_alphanumeric()
}

/// Calls `char::is_whitespace`. Claims only that the answer is
/// `char_is_whitespace` of the character.
#[verifier::external_body]
fn is_whitespace(c: char) -> (res: bool)
    ensures
        res == char_is_whitespace(c),
{
    c.is_whitespace()
}

/// Calls `String::push`, which appends one character.
#[verifier::external_body]
pub(crate) fn push_char(s: &mut String, c: char)
    ensures
        final(s)@ == old(s)@.push(c),
{
    s.push(c)
}

/// The characters of a string, in order.
pub fn chars_of(s: &str) -> (res: Vec<char>)
    ensures
        res@ == s@,
{
    broadcast use vstd::string::group_string_axioms;

    let mut res: Vec<char> = Vec::new();
    for c in it: s.chars()
        invariant
            it.seq() == s@,
            res@ == s@.take(it.index() as int),
    {
        proof {
            assert(s@.take(it.index() + 1) =~= s@.take(it.index() as int).push(c));
        }
        res.push(c);
    }
    proof {
        assert(s@.take(s@.len() as int) =~= s@);
    }
    res
}

/// The string made of the characters `chars[from..to]`.
pub fn string_from_chars(chars: &Vec<char>, from: usize, to: usize) -> (res: String)
    requires
        from <= to <= chars@.len(),
    ensures
        res@ == chars@.subrange(from as int, to as int),
{
    let mut res = String::new();
    let mut i = from;
    while i < to
        invariant
            from <= i <= to <= chars@.len(),
            res@ == chars@.subrange(from as int, i as int),
        decreases to - i,
    {
        push_char(&mut res, chars[i]);
        proof {
            assert(chars@.subrange(from as int, i + 1) =~= chars@.subrange(from as int, i as int).push(
                chars@[i as int],
            ));
        }
        i = i + 1;
    }
    res
}

/// Characters that survive normalisation.
pub open spec fn is_kept_char(c: char) -> bool {
    char_is_alphanumeric(c) || char_is_whitespace(c)
}

/// `s` without its leading whitespace.
pub open spec fn trim_start_ws(s: Seq<char>) -> Seq<char>
    decreases s.len(),
{
    if s.len() > 0 && char_is_whitespace(s[0]) {
        trim_start_ws(s.drop_first())
    } else {
        s
    }
}

/// `s` without its trailing whitespace.
pub open spec fn trim_end_ws(s: Seq<char>) -> Seq<char>
    decreases s.len(),
{
    if s.len() > 0 && char_is_whitespace(s.last()) {
        trim_end_ws(s.drop_last())
    } else {
        s
    }
}

/// `s` without leading and trailing whitespace.
pub open spec fn trim_ws(s: Seq<char>) -> Seq<char> {
    trim_end_ws(trim_start_ws(s))
}

/// `s` with every character that is neither alphanumeric nor whitespace
/// removed, and trimmed.
pub open spec fn cleaned(s: Seq<char>) -> Seq<char> {
    trim_ws(s.filter(|c: char| is_kept_char(c)))
}

/// The normal form of a name: lowercased, then cleaned.
pub open spec fn normalized(s: Seq<char>) -> Seq<char> {
    cleaned(lowercase_of(s))
}

/// Removing the leading whitespace of `s` drops exactly its first `k`
/// characters when those are whitespace and the next one is not.
proof fn lemma_trim_start(s: Seq<char>, k: int)
    requires
        0 <= k <= s.len(),
        forall|j: int| 0 <= j < k ==> char_is_whitespace(#[trigger] s[j]),
        k == s.len() || !char_is_whitespace(s[k]),
    ensures
        trim_start_ws(s) == s.skip(k),
    decreases k,
{
    if k > 0 {
        assert(char_is_whitespace(s[0]));
        lemma_trim_start(s.drop_first(), k - 1);
        assert(s.drop_first().skip(k - 1) =~= s.skip(k));
    } else {
        assert(s.skip(0) =~= s);
    }
}

/// Removing the trailing whitespace of `s` keeps exactly its first `k`
/// characters when the rest are whitespace and the one before is not.
proof fn lemma_trim_end(s: Seq<char>, k: int)
    requires
        0 <= k <= s.len(),
        forall|j: int| k <= j < s.len() ==> char_is_whitespace(#[trigger] s[j]),
        k == 0 || !char_is_whitespace(s[k - 1]),
    ensures
        trim_end_ws(s) == s.take(k),
    decreases s.len() - k,
{
    if k < s.len() {
        assert(char_is_whitespace(s[s.len() - 1]));
        lemma_trim_end(s.drop_last(), k);
        assert(s.drop_last().take(k) =~= s.take(k));
    } else {
        assert(s.take(k) =~= s);
    }
}

/// The normal form of a name, for matching file names against tracks:
/// lowercased, reduced to alphanumeric and whitespace characters, trimmed.
pub fn normalize(s: &str) -> (res: String)
    ensures
        res@ == normalized(s@),
{
    let lower = lowercase(s);
    clean(lower.as_str())
}

/// Keeps the alphanumeric and whitespace characters of `s` and trims the
/// whitespace at both ends.
pub fn clean(s: &str) -> (res: String)
    ensures
        res@ == cleaned(s@),
{
    let chars = chars_of(s);
    let ghost p = |c: char| is_kept_char(c);
    let mut kept: Vec<char> = Vec::new();
    let mut i: usize = 0;
    while i < chars.len()
        invariant
            i <= chars@.len(),
            p == (|c: char| is_kept_char(c)),
            kept@ == chars@.take(i as int).filter(p),
        decreases chars@.len() - i,
    {
        let c = chars[i];
        proof {
            assert(chars@.take(i + 1) =~= chars@.take(i as int).push(c));
            chars@.take(i as int).lemma_filter_push(c, p);
        }
        if is_alphanumeric(c) || is_whitespace(c) {
            kept.push(c);
        }
        i = i + 1;
    }
    proof {
        assert(chars@.take(i as int) =~= chars@);
    }
    let mut start: usize = 0;
    while start < kept.len() && is_whitespace(kept[start])
        invariant
            start <= kept@.len(),
            forall|j: int| 0 <= j < start ==> char_is_whitespace(#[trigger] kept@[j]),
        decreases kept@.len() - start,
    {
        start = start + 1;
    }
    let mut end: usize = kept.len();
    while end > start && is_whitespace(kept[end - 1])
        invariant
            start <= end <= kept@.len(),
            forall|j: int| end <= j < kept@.len() ==> char_is_whitespace(#[trigger] kept@[j]),
        decreases end - start,
    {
        end = end - 1;
    }
    proof {
        let k = kept@;
        lemma_trim_start(k, start as int);
        let rest = k.skip(start as int);
        assert forall|j: int| end - start <= j < rest.len() implies char_is_whitespace(#[trigger] rest[j]) by {
            assert(rest[j] == k[j + start]);
        }
        if end > start {
            assert(rest[end - start - 1] == k[end - 1]);
        }
        lemma_trim_end(rest, end - start);
        assert(rest.take(end - start) =~= k.subrange(start as int, end as int));
    }
    string_from_chars(&kept, start, end)
}

/// Removing leading whitespace leaves a suffix that does not start with
/// whitespace.
proof fn lemma_trim_start_suffix(s: Seq<char>)
    ensures
        exists|k: int| 0 <= k <= s.len() && trim_start_ws(s) == s.skip(k),
        trim_start_ws(s).len() > 0 ==> !char_is_whitespace(trim_start_ws(s)[0]),
    decreases s.len(),
{
    if s.len() > 0 && char_is_whitespace(s[0]) {
        lemma_trim_start_suffix(s.drop_first());
        let k = choose|k: int| 0 <= k <= s.drop_first().len() && trim_start_ws(s.drop_first()) == s.drop_first().skip(k);
        assert(s.drop_first().skip(k) =~= s.skip(k + 1));
    } else {
        assert(s.skip(0) =~= s);
    }
}

/// Removing trailing whitespace leaves a prefix that does not end with
/// whitespace.
proof fn lemma_trim_end_prefix(s: Seq<char>)
    ensures
        exists|k: int| 0 <= k <= s.len() && trim_end_ws(s) == s.take(k),
        trim_end_ws(s).len() > 0 ==> !char_is_whitespace(trim_end_ws(s).last()),
    decreases s.len(),
{
    if s.len() > 0 && char_is_whitespace(s.last()) {
        lemma_trim_end_prefix(s.drop_last());
        let k = choose|k: int| 0 <= k <= s.drop_last().len() && trim_end_ws(s.drop_last()) == s.drop_last().take(k);
        assert(s.drop_last().take(k) =~= s.take(k));
    } else {
        assert(s.take(s.len() as int) =~= s);
    }
}

/// A cleaned text holds only alphanumeric and whitespace characters, and
/// neither begins nor ends with whitespace. (A normalised name is the
/// cleaned lowercase form, so the same holds of it.)
pub proof fn law_cleaned_shape(s: Seq<char>)
    ensures
        forall|i: int| 0 <= i < cleaned(s).len() ==> is_kept_char(#[trigger] cleaned(s)[i]),
        cleaned(s).len() > 0 ==> !char_is_whitespace(cleaned(s)[0]),
        cleaned(s).len() > 0 ==> !char_is_whitespace(cleaned(s).last()),
{
    let p = |c: char| is_kept_char(c);
    let f = s.filter(p);
    let a = trim_start_ws(f);
    lemma_trim_start_suffix(f);
    lemma_trim_end_prefix(a);
    let k1 = choose|k: int| 0 <= k <= f.len() && a == f.skip(k);
    let k2 = choose|k: int| 0 <= k <= a.len() && trim_end_ws(a) == a.take(k);
    let r = cleaned(s);
    assert(r == a.take(k2));
    assert forall|i: int| 0 <= i < r.len() implies is_kept_char(#[trigger] r[i]) by {
        assert(r[i] == f[i + k1]);
        s.lemma_filter_pred(p, i + k1);
    }
    if r.len() > 0 {
        assert(r[0] == a[0]);
    }
}

/// Filtering keeps a sequence whose elements all pass.
proof fn lemma_filter_keeps_all(s: Seq<char>, p: spec_fn(char) -> bool)
    requires
        forall|i: int| 0 <= i < s.len() ==> p(#[trigger] s[i]),
    ensures
        s.filter(p) == s,
    decreases s.len(),
{
    if s.len() == 0 {
        assert(s.filter(p) =~= s) by {
            reveal(Seq::filter);
        }
    } else {
        let d = s.drop_last();
        assert(forall|i: int| 0 <= i < d.len() ==> d[i] == s[i]);
        lemma_filter_keeps_all(d, p);
        assert(s =~= d.push(s.last()));
        d.lemma_filter_push(s.last(), p);
    }
}

/// Cleaning a cleaned text changes nothing.
pub proof fn law_clean_idempotent(s: Seq<char>)
    ensures
        cleaned(cleaned(s)) == cleaned(s),
{
    let t = cleaned(s);
    law_cleaned_shape(s);
    lemma_filter_keeps_all(t, |c: char| is_kept_char(c));
    assert(t.filter(|c: char| is_kept_char(c)) == t);
    assert(trim_start_ws(t) == t);
    assert(trim_end_ws(t) == t);
}

} // verus!

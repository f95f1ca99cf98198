//! Recognition of video identifiers: a bare id, a `watch?v=` URL or a
//! `youtu.be` short link, and the completion of a bare id to a full URL.

use vstd::prelude::*;
use vstd::string::StrSliceExecFns;
use vstd::string::StringExecFns;

verus! {

/// Faults of the audio-acquisition step. The surrounding application maps
/// its tool and filesystem failures into these.
#[derive(Debug)]
pub enum DownloadError {
    /// The downloader tool is not installed.
    YtDlpNotFound,
    /// The audio converter tool is not installed.
    FfmpegNotFound,
    /// The downloader tool ran and failed; its diagnostics are carried along.
    YtDlpFailed(String),
    /// No video id could be recognized in the given text.
    InvalidUrl(String),
    /// A filesystem fault, mapped by the application.
    Io(String),
}

/// Does `s` contain the character `c`?
pub open spec fn contains_char(s: Seq<char>, c: char) -> bool {
    exists|i: int| 0 <= i < s.len() && s[i] == c
}

/// The first position at or after `from` where `pat` occurs in `s`, or -1.
pub open spec fn find_at(s: Seq<char>, pat: Seq<char>, from: nat) -> int
    decreases s.len() - from,
{
    if pat.len() == 0 || from + pat.len() > s.len() {
        -1
    } else if s.subrange(from as int, from as int + pat.len()) == pat {
        from as int
    } else {
        find_at(s, pat, from + 1)
    }
}

/// The first position at or after `from` holding one of the `stops`, or -1.
pub open spec fn first_stop(s: Seq<char>, stops: Seq<char>, from: nat) -> int
    decreases s.len() - from,
{
    if from >= s.len() {
        -1
    } else if contains_char(stops, s[from as int]) {
        from as int
    } else {
        first_stop(s, stops, from + 1)
    }
}

/// The run of `s` from `from` up to (not including) the first stop
/// character, or to the end if none follows.
pub open spec fn clipped(s: Seq<char>, stops: Seq<char>, from: nat) -> Seq<char> {
    if first_stop(s, stops, from) == -1 {
        s.skip(from as int)
    } else {
        s.subrange(from as int, first_stop(s, stops, from))
    }
}

/// Is `p` a prefix of `s`?
pub open spec fn has_prefix(s: Seq<char>, p: Seq<char>) -> bool {
    p.len() <= s.len() && s.take(p.len() as int) == p
}

/// The video id that `extract_video_id` recognizes in `url`, if any: the
/// whole text when it is a bare id (no slash, no dot); else what follows the
/// first `v=`, clipped at a query or fragment separator, if non-empty; else
/// what follows the first `youtu.be/`, clipped likewise; else nothing.
pub open spec fn spec_extract_video_id(url: Seq<char>) -> Option<Seq<char>> {
    let vpos = find_at(url, "v="@, 0);
    let bpos = find_at(url, "youtu.be/"@, 0);
    if !contains_char(url, '/') && !contains_char(url, '.') {
        Some(url)
    } else if vpos >= 0 && clipped(url, "&#"@, (vpos + 2) as nat).len() > 0 {
        Some(clipped(url, "&#"@, (vpos + 2) as nat))
    } else if bpos >= 0 && clipped(url, "?&#"@, (bpos + 9) as nat).len() > 0 {
        Some(clipped(url, "?&#"@, (bpos + 9) as nat))
    } else {
        None
    }
}

/// Relies on collecting an iterator of characters into a String: the result
/// is the string of exactly those characters, in order.
#[verifier::external_body]
fn chars_to_string(cs: &Vec<char>) -> (s: String)
    ensures
        s@ == cs@,
{
    cs.iter().collect()
}

/// Does `s` contain `c`?
fn contains_char_exec(s: &str, c: char) -> (b: bool)
    ensures
        b == contains_char(s@, c),
{
    let n = s.unicode_len();
    for i in 0..n
        invariant
            n == s@.len(),
            forall|j: int| 0 <= j < i ==> s@[j] != c,
    {
        if s.get_char(i) == c {
            return true;
        }
    }
    false
}

/// Does `pat` occur in `s` at position `at`?
fn match_at(s: &str, pat: &str, at: usize) -> (b: bool)
    requires
        at + pat@.len() <= s@.len(),
        s@.len() <= usize::MAX,
    ensures
        b == (s@.subrange(at as int, at as int + pat@.len()) == pat@),
{
    let pn = pat.unicode_len();
    for t in 0..pn
        invariant
            pn == pat@.len(),
            at + pn <= s@.len(),
            s@.len() <= usize::MAX,
            forall|w: int| 0 <= w < t ==> s@[at + w] == pat@[w],
    {
        if s.get_char(at + t) != pat.get_char(t) {
            assert(s@.subrange(at as int, at as int + pat@.len())[t as int] != pat@[t as int]);
            return false;
        }
    }
    proof {
        assert(s@.subrange(at as int, at as int + pat@.len()) =~= pat@);
    }
    true
}

/// The first occurrence of `pat` in `s`, if any.
fn find_pat(s: &str, pat: &str) -> (r: Option<usize>)
    requires
        pat@.len() >= 1,
    ensures
        match r {
            Some(i) => find_at(s@, pat@, 0) == i && i + pat@.len() <= s@.len() && s@.len()
                <= usize::MAX,
            None => find_at(s@, pat@, 0) == -1,
        },
{
    let sn = s.unicode_len();
    let pn = pat.unicode_len();
    if pn > sn {
        return None;
    }
    let mut i: usize = 0;
    while i <= sn - pn
        invariant
            sn == s@.len(),
            pn == pat@.len(),
            1 <= pn <= sn,
            i <= sn - pn + 1,
            find_at(s@, pat@, 0) == find_at(s@, pat@, i as nat),
        decreases sn - i,
    {
        if match_at(s, pat, i) {
            return Some(i);
        }
        i = i + 1;
    }
    None
}

/// The characters of `s` from `from` up to the first stop character.
fn clip_from(s: &str, from: usize, stops: &str) -> (r: Vec<char>)
    requires
        from <= s@.len(),
    ensures
        r@ == clipped(s@, stops@, from as nat),
{
    let n = s.unicode_len();
    let mut out: Vec<char> = Vec::new();
    let mut i: usize = from;
    proof {
        assert(out@ =~= s@.subrange(from as int, from as int));
    }
    while i < n
        invariant
            n == s@.len(),
            from <= i <= n,
            out@ == s@.subrange(from as int, i as int),
            first_stop(s@, stops@, from as nat) == first_stop(s@, stops@, i as nat),
        decreases n - i,
    {
        let c = s.get_char(i);
        if contains_char_exec(stops, c) {
            proof {
                assert(first_stop(s@, stops@, i as nat) == i);
            }
            return out;
        }
        out.push(c);
        proof {
            assert(out@ =~= s@.subrange(from as int, i + 1));
        }
        i = i + 1;
    }
    proof {
        assert(first_stop(s@, stops@, n as nat) == -1);
        assert(out@ =~= s@.skip(from as int));
    }
    out
}

/// Recognizes the video id in a URL or bare id: the text itself when it has
/// no slash and no dot; else the run after the first `v=` up to `&` or `#`;
/// else the run after the first `youtu.be/` up to `?`, `&` or `#`. Anything
/// else is an invalid-URL fault carrying the text.
pub fn extract_video_id(url: &str) -> (r: Result<String, DownloadError>)
    ensures
        match r {
            Ok(id) => spec_extract_video_id(url@) == Some(id@),
            Err(e) => e matches DownloadError::InvalidUrl(u) && u@ == url@
                && spec_extract_video_id(url@) is None,
        },
{
    proof {
        reveal_strlit("v=");
        reveal_strlit("youtu.be/");
    }
    if !contains_char_exec(url, '/') && !contains_char_exec(url, '.') {
        return Ok(url.to_owned());
    }
    let v_found = find_pat(url, "v=");
    match v_found {
        Some(pos) => {
            let id = clip_from(url, pos + 2, "&#");
            if id.len() > 0 {
                return Ok(chars_to_string(&id));
            }
        },
        None => {},
    }
    let b_found = find_pat(url, "youtu.be/");
    match b_found {
        Some(pos) => {
            let id = clip_from(url, pos + 9, "?&#");
            if id.len() > 0 {
                return Ok(chars_to_string(&id));
            }
        },
        None => {},
    }
    Err(DownloadError::InvalidUrl(url.to_owned()))
}

/// The full URL a bare id stands for; a text already naming a scheme is kept.
pub open spec fn spec_to_full_url(url: Seq<char>) -> Seq<char> {
    if has_prefix(url, "http://"@) || has_prefix(url, "https://"@) {
        url
    } else {
        "https://www.youtube.com/watch?v="@ + url
    }
}

/// Is `p` a prefix of `s`?
fn starts_with_exec(s: &str, p: &str) -> (b: bool)
    ensures
        b == has_prefix(s@, p@),
{
    let sn = s.unicode_len();
    let pn = p.unicode_len();
    if pn > sn {
        return false;
    }
    proof {
        assert(0 + p@.len() <= s@.len());
    }
    if match_at(s, p, 0) {
        proof {
            assert(s@.subrange(0, p@.len() as int) =~= s@.take(p@.len() as int));
        }
        true
    } else {
        proof {
            assert(s@.subrange(0, p@.len() as int) =~= s@.take(p@.len() as int));
        }
        false
    }
}

/// Completes a bare video id to a watch URL; a full URL passes through.
pub fn to_full_url(url: &str) -> (r: String)
    ensures
        r@ == spec_to_full_url(url@),
{
    if starts_with_exec(url, "http://") || starts_with_exec(url, "https://") {
        url.to_owned()
    } else {
        let base = String::from_str("https://www.youtube.com/watch?v=");
        base.concat(url)
    }
}

} // verus!

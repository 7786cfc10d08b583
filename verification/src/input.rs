use vstd::prelude::*;

use crate::text::{chars_to_string, push_str};

verus! {

/// Where a puzzle is read from.
#[derive(Copy, Clone, Debug, PartialEq, Eq, Structural)]
pub enum InputFormat {
    Image,
    Url,
}

/// `s` begins with `p`.
pub open spec fn has_prefix(s: Seq<char>, p: Seq<char>) -> bool {
    p.len() <= s.len() && s.take(p.len() as int) == p
}

/// `s` ends with `p`.
pub open spec fn has_suffix(s: Seq<char>, p: Seq<char>) -> bool {
    p.len() <= s.len() && s.skip(s.len() - p.len()) == p
}

/// The first index, at `i` or later, at which `s` holds `ch` (`s.len()` when none).
pub open spec fn find_char(s: Seq<char>, ch: char, i: int) -> int
    decreases s.len() - i,
{
    if i >= s.len() {
        s.len() as int
    } else if s[i] == ch {
        i
    } else {
        find_char(s, ch, i + 1)
    }
}

/// Whether `s` begins with `p`.
pub fn starts_with(s: &str, p: &str) -> (res: bool)
    ensures
        res == has_prefix(s@, p@),
{
    let n = s.unicode_len();
    let m = p.unicode_len();
    if m > n {
        return false;
    }
    let mut i: usize = 0;
    while i < m
        invariant
            n == s@.len(),
            m == p@.len(),
            m <= n,
            i <= m,
            forall|k: int| 0 <= k < i ==> s@[k] == p@[k],
        decreases m - i,
    {
        if s.get_char(i) != p.get_char(i) {
            proof {
                assert(s@.take(m as int)[i as int] != p@[i as int]);
            }
            return false;
        }
        i = i + 1;
    }
    proof {
        assert(s@.take(m as int) =~= p@);
    }
    true
}

/// Whether `s` ends with `p`.
pub fn ends_with(s: &str, p: &str) -> (res: bool)
    ensures
        res == has_suffix(s@, p@),
{
    let n = s.unicode_len();
    let m = p.unicode_len();
    if m > n {
        return false;
    }
    let off = n - m;
    let mut i: usize = 0;
    while i < m
        invariant
            n == s@.len(),
            m == p@.len(),
            off == n - m,
            i <= m,
            forall|k: int| 0 <= k < i ==> s@[off + k] == p@[k],
        decreases m - i,
    {
        if s.get_char(off + i) != p.get_char(i) {
            proof {
                assert(s@.skip(off as int)[i as int] != p@[i as int]);
            }
            return false;
        }
        i = i + 1;
    }
    proof {
        assert(s@.skip(off as int) =~= p@);
    }
    true
}

impl InputFormat {
    /// A puzzle given as "https://..." is a URL, one named "....png" an image.
    pub fn guess(arg: &str) -> (res: Option<InputFormat>)
        ensures
            res == if has_prefix(arg@, "https://"@) {
                Some(InputFormat::Url)
            } else if has_suffix(arg@, ".png"@) {
                Some(InputFormat::Image)
            } else {
                None
            },
    {
        if starts_with(arg, "https://") {
            Some(Self::Url)
        } else if ends_with(arg, ".png") {
            Some(Self::Image)
        } else {
            None
        }
    }
}

/// Splits a puzzle URL at its first '?' into the address and the query that
/// encodes the puzzle.
pub fn split_puzzle_url(url: &str) -> (res: Result<(String, String), String>)
    ensures
        !(has_prefix(url@, "http://"@) || has_prefix(url@, "https://"@)) ==> (res matches Err(e)
            && e@ == "input does not appear to be a url"@),
        (has_prefix(url@, "http://"@) || has_prefix(url@, "https://"@)) && find_char(url@, '?', 0)
            == url@.len() ==> (res matches Err(e) && e@ == "url has no query delimiter ('?')"@),
        (has_prefix(url@, "http://"@) || has_prefix(url@, "https://"@)) && find_char(url@, '?', 0)
            < url@.len() ==> (res matches Ok((path, query)) && path@ == url@.take(
            find_char(url@, '?', 0),
        ) && query@ == url@.skip(find_char(url@, '?', 0) + 1)),
{
    if !starts_with(url, "http://") && !starts_with(url, "https://") {
        return Err(String::from_str("input does not appear to be a url"));
    }
    let n = url.unicode_len();
    let mut i: usize = 0;
    while i < n && url.get_char(i) != '?'
        invariant
            n == url@.len(),
            i <= n,
            find_char(url@, '?', i as int) == find_char(url@, '?', 0),
        decreases n - i,
    {
        i = i + 1;
    }
    if i == n {
        return Err(String::from_str("url has no query delimiter ('?')"));
    }
    let path = url.substring_char(0, i);
    let query = url.substring_char(i + 1, n);
    Ok((String::from_str(path), String::from_str(query)))
}

/// The address ends like one of the sites known to host such puzzles.
pub fn is_known_puzzle_site(path: &str) -> (res: bool)
    ensures
        res == (has_suffix(path@, "//puzz.link/p"@) || has_suffix(path@, "//pzprxs.vercel.app/p"@)
            || has_suffix(path@, "//pzv.jp/p.html"@)),
{
    ends_with(path, "//puzz.link/p") || ends_with(path, "//pzprxs.vercel.app/p") || ends_with(
        path,
        "//pzv.jp/p.html",
    )
}

/// The URL of a puzzle on the default site, given its encoded query.
pub fn puzzle_url(query: &str) -> (res: String)
    ensures
        res@ == "https://puzz.link/p"@ + "?"@ + query@,
{
    let mut f: Vec<char> = Vec::new();
    push_str(&mut f, "https://puzz.link/p");
    push_str(&mut f, "?");
    push_str(&mut f, query);
    chars_to_string(f)
}

} // verus!

//! Classification of the location a robot description is read from.
use vstd::prelude::*;
use vstd::string::StrSliceExecFns;

verus! {

/// `s` ends with `suffix`.
pub open spec fn has_suffix(s: Seq<char>, suffix: Seq<char>) -> bool {
    suffix.len() <= s.len() && s.subrange(s.len() - suffix.len(), s.len() as int) == suffix
}

/// `s` starts with `prefix`.
pub open spec fn has_prefix(s: Seq<char>, prefix: Seq<char>) -> bool {
    prefix.len() <= s.len() && s.subrange(0, prefix.len() as int) == prefix
}

/// The location names a description file: it ends in `.urdf` or `.URDF`.
pub open spec fn names_urdf(s: Seq<char>) -> bool {
    has_suffix(s, seq!['.', 'u', 'r', 'd', 'f']) || has_suffix(s, seq!['.', 'U', 'R', 'D', 'F'])
}

/// The location is an `http://` or `https://` address of a description file.
pub open spec fn is_web_urdf(s: Seq<char>) -> bool {
    (has_prefix(s, seq!['h', 't', 't', 'p', ':', '/', '/'])
        || has_prefix(s, seq!['h', 't', 't', 'p', 's', ':', '/', '/']))
        && names_urdf(s)
}

/// Whether `s` ends with the characters of `suffix`.
fn ends_with_chars(s: &str, suffix: &str) -> (r: bool)
    ensures
        r == has_suffix(s@, suffix@),
{
    let n = s.unicode_len();
    let m = suffix.unicode_len();
    if m > n {
        return false;
    }
    let mut i: usize = 0;
    while i < m
        invariant
            n == s@.len(),
            m == suffix@.len(),
            m <= n,
            i <= m,
            forall|k: int| 0 <= k < i ==> s@[n - m + k] == suffix@[k],
        decreases m - i,
    {
        if s.get_char(n - m + i) != suffix.get_char(i) {
            assert(s@.subrange(n - m, n as int)[i as int] != suffix@[i as int]);
            return false;
        }
        i += 1;
    }
    assert(s@.subrange(n - m, n as int) =~= suffix@);
    true
}

/// Whether `s` starts with the characters of `prefix`.
fn starts_with_chars(s: &str, prefix: &str) -> (r: bool)
    ensures
        r == has_prefix(s@, prefix@),
{
    let n = s.unicode_len();
    let m = prefix.unicode_len();
    if m > n {
        return false;
    }
    let mut i: usize = 0;
    while i < m
        invariant
            n == s@.len(),
            m == prefix@.len(),
            m <= n,
            i <= m,
            forall|k: int| 0 <= k < i ==> s@[k] == prefix@[k],
        decreases m - i,
    {
        if s.get_char(i) != prefix.get_char(i) {
            assert(s@.subrange(0, m as int)[i as int] != prefix@[i as int]);
            return false;
        }
        i += 1;
    }
    assert(s@.subrange(0, m as int) =~= prefix@);
    true
}

/// Whether the location ends in `.urdf` or `.URDF`.
pub fn has_urdf_extension(url: &str) -> (r: bool)
    ensures
        r == names_urdf(url@),
{
    proof {
        reveal_strlit(".urdf");
        reveal_strlit(".URDF");
    }
    let lower = ends_with_chars(url, ".urdf");
    let upper = ends_with_chars(url, ".URDF");
    assert(".urdf"@ =~= seq!['.', 'u', 'r', 'd', 'f']);
    assert(".URDF"@ =~= seq!['.', 'U', 'R', 'D', 'F']);
    lower || upper
}

/// Whether the location is a web address of a description file.
pub fn url_is_weburl(url: &str) -> (r: bool)
    ensures
        r == is_web_urdf(url@),
{
    proof {
        reveal_strlit("http://");
        reveal_strlit("https://");
    }
    let http = starts_with_chars(url, "http://");
    let https = starts_with_chars(url, "https://");
    assert("http://"@ =~= seq!['h', 't', 't', 'p', ':', '/', '/']);
    assert("https://"@ =~= seq!['h', 't', 't', 'p', 's', ':', '/', '/']);
    (http || https) && has_urdf_extension(url)
}

/// Whether a location is a description file on disk, given whether the path
/// exists there.
pub fn urdf_file_given(url: &str, exists: bool) -> (r: bool)
    ensures
        r == (exists && names_urdf(url@)),
{
    exists && has_urdf_extension(url)
}

/// Relies on `std::path::Path::exists`: whether something is found at the
/// path. What is on disk can change at any time, so nothing is claimed.
#[verifier::external_body]
fn path_exists(url: &str) -> bool {
    std::path::Path::new(url).exists()
}

/// Whether the location is an existing file whose name ends in `.urdf` or
/// `.URDF`.
pub fn url_is_urdf_file(url: &str) -> (r: bool)
    ensures
        r ==> names_urdf(url@),
{
    let e = path_exists(url);
    urdf_file_given(url, e)
}

} // verus!

//! Where a remote lives. A remote URL names either an HTTP server speaking
//! the Lore protocol or another repository on the local filesystem (a path,
//! optionally behind `file://`).
//!
//! HTTP wire protocol:
//! ```text
//! GET  /refs            -> { "<branch>": "<commit id>", ... }
//! HEAD /objects/{id}    -> 200 if present, 404 if missing
//! GET  /objects/{id}    -> raw stored object bytes
//! PUT  /objects/{id}    -> store body (idempotent, content-addressed)
//! PUT  /refs/{branch}   -> body is the commit id
//! ```
//! Writes carry `Authorization: Bearer <token>` when a token is configured.

use vstd::prelude::*;

use crate::error::{opt_str, LoreError};
use crate::strmap::StrMap;
use crate::text::{append_str, chars_of, has_prefix, starts_with, string_from_chars};

verus! {

/// A remote, as a place to connect to.
#[derive(Debug, PartialEq, Eq)]
pub enum Endpoint {
    /// An HTTP server at `base` (no trailing slash), with an optional bearer
    /// token for writes.
    Http { base: String, token: Option<String> },
    /// Another repository, rooted at `root`.
    Local { root: String },
}

/// `s` without any trailing `'/'`.
pub open spec fn trim_trailing_slashes(s: Seq<char>) -> Seq<char>
    decreases s.len(),
{
    if s.len() > 0 && s.last() == '/' {
        trim_trailing_slashes(s.drop_last())
    } else {
        s
    }
}

/// Whether `url` is served over HTTP.
pub open spec fn is_http(url: Seq<char>) -> bool {
    has_prefix(url, "http://"@) || has_prefix(url, "https://"@)
}

/// The filesystem path a non-HTTP URL names: the URL without any `file://`
/// prefix.
pub open spec fn local_path(url: Seq<char>) -> Seq<char> {
    if has_prefix(url, "file://"@) {
        url.skip("file://"@.len() as int)
    } else {
        url
    }
}

/// Where the remote at `url` lives. `http(s)://` is HTTP; anything else,
/// including a `file://` prefix, is a local filesystem path.
pub fn open(url: &str, token: Option<String>) -> (r: Result<Endpoint, LoreError>)
    ensures
        match r {
            Ok(Endpoint::Http { base, token: t }) => is_http(url@) && base@ == trim_trailing_slashes(
                url@,
            ) && opt_str(t) == opt_str(token),
            Ok(Endpoint::Local { root }) => !is_http(url@) && root@ == local_path(url@),
            Err(_) => false,
        },
{
    if starts_with(url, "http://") || starts_with(url, "https://") {
        let cs = chars_of(url);
        let mut j = cs.len();
        assert(cs@.take(j as int) == cs@);
        while j > 0 && cs[j - 1] == '/'
            invariant
                j <= cs.len(),
                cs@ == url@,
                trim_trailing_slashes(url@) == trim_trailing_slashes(cs@.take(j as int)),
            decreases j,
        {
            assert(cs@.take(j as int).drop_last() == cs@.take(j - 1));
            j = j - 1;
        }
        assert(cs@.subrange(0, j as int) == cs@.take(j as int));
        let base = string_from_chars(&cs, 0, j);
        Ok(Endpoint::Http { base, token })
    } else {
        let prefix = "file://";
        if starts_with(url, prefix) {
            let cs = chars_of(url);
            let n = prefix.unicode_len();
            Ok(Endpoint::Local { root: string_from_chars(&cs, n, cs.len()) })
        } else {
            Ok(Endpoint::Local { root: url.to_owned() })
        }
    }
}

/// The refs a `GET /refs` body advertises, as `serde_json` reads that JSON
/// object of strings into a sorted map: its `(branch, id)` pairs in branch
/// order, or `None` when the body is not such an object.
pub uninterp spec fn refs_json(body: Seq<char>) -> Option<Seq<(Seq<char>, Seq<char>)>>;

/// The map holding `pairs`, a later pair replacing an earlier one with the
/// same key.
pub open spec fn pairs_map(pairs: Seq<(Seq<char>, Seq<char>)>) -> Map<Seq<char>, Seq<char>>
    decreases pairs.len(),
{
    if pairs.len() == 0 {
        Map::empty()
    } else {
        pairs_map(pairs.drop_last()).insert(pairs.last().0, pairs.last().1)
    }
}

/// `serde_json::from_str` of the body into a `BTreeMap<String, String>`,
/// handed back as its pairs in the map's order. The contract names what
/// the parse gives and says nothing of its shape.
#[verifier::external_body]
fn refs_json_pairs(body: &str) -> (r: Option<Vec<(String, String)>>)
    ensures
        match r {
            Some(v) => refs_json(body@) == Some(v@.map_values(|p: (String, String)| (p.0@, p.1@))),
            None => refs_json(body@) is None,
        },
{
    match serde_json::from_str::<std::collections::BTreeMap<String, String>>(body) {
        Ok(m) => Some(m.into_iter().collect()),
        Err(_) => None,
    }
}

/// The refs a remote advertises in the body of its `GET /refs` answer, or
/// `None` when the body is not a JSON object of strings.
pub fn parse_refs(body: &str) -> (r: Option<StrMap<String>>)
    ensures
        match r {
            Some(m) => refs_json(body@) matches Some(ps) && m@.map_values(|s: String| s@) == pairs_map(ps),
            None => refs_json(body@) is None,
        },
{
    let pairs = match refs_json_pairs(body) {
        Some(v) => v,
        None => {
            return None;
        },
    };
    let ghost ps = pairs@.map_values(|p: (String, String)| (p.0@, p.1@));
    let mut m: StrMap<String> = StrMap::new();
    let mut i: usize = 0;
    assert(m@.map_values(|s: String| s@) =~= pairs_map(ps.take(0)));
    while i < pairs.len()
        invariant
            i <= pairs.len(),
            ps == pairs@.map_values(|p: (String, String)| (p.0@, p.1@)),
            m@.map_values(|s: String| s@) == pairs_map(ps.take(i as int)),
        decreases pairs.len() - i,
    {
        let ghost before = m@;
        m.insert(pairs[i].0.clone(), pairs[i].1.clone());
        assert(ps.take(i + 1).drop_last() == ps.take(i as int));
        assert(m@.map_values(|s: String| s@) =~= pairs_map(ps.take(i + 1)));
        i = i + 1;
    }
    assert(ps.take(pairs.len() as int) == ps);
    Some(m)
}

} // verus!

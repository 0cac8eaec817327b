//! The parts of a parsed URL that rewiring reads, and path-segment arithmetic.

use vstd::prelude::*;

use crate::text::{join_after, lemma_join_after_step, lemma_join_split, lemma_split_nonempty,
    lemma_split_step, split_slash};

verus! {

/// A parsed URL, as plain strings.
pub struct UrlParts {
    /// The host, without port; absent for URLs such as `mailto:` ones.
    pub host: Option<String>,
    /// The path, percent-encoded as the parser left it.
    pub path: String,
    /// The query string without its `?`, if there is one.
    pub query: Option<String>,
    /// The whole URL in the parser's normalised form.
    pub serialization: String,
}

/// The mathematical content of [`UrlParts`].
pub struct UrlView {
    pub host: Option<Seq<char>>,
    pub path: Seq<char>,
    pub query: Option<Seq<char>>,
    pub serialization: Seq<char>,
}

/// The view of an optional string.
pub open spec fn opt_view(o: Option<String>) -> Option<Seq<char>> {
    match o {
        Some(s) => Some(s@),
        None => None,
    }
}

impl View for UrlParts {
    type V = UrlView;

    open spec fn view(&self) -> UrlView {
        UrlView {
            host: opt_view(self.host),
            path: self.path@,
            query: opt_view(self.query),
            serialization: self.serialization@,
        }
    }
}

/// The view of a parse result.
pub open spec fn parts_view(o: Option<UrlParts>) -> Option<UrlView> {
    match o {
        Some(p) => Some(p@),
        None => None,
    }
}

/// What the URL parser makes of `s`: `None` where it rejects `s`.
pub uninterp spec fn url_of(s: Seq<char>) -> Option<UrlView>;

/// Relies on `url::Url::parse` (re-exported as `reqwest::Url`) and on its
/// accessors `host_str`, `path`, `query` and `as_str`: the parts are a
/// function of the input text alone.
#[verifier::external_body]
pub(crate) fn parse_url(s: &str) -> (r: Option<UrlParts>)
    ensures
        url_of(s@) == parts_view(r),
{
    match reqwest::Url::parse(s) {
        Ok(u) => Some(UrlParts {
            host: u.host_str().map(String::from),
            path: u.path().to_string(),
            query: u.query().map(String::from),
            serialization: u.as_str().to_string(),
        }),
        Err(_) => None,
    }
}

/// The segments of a path: what follows its leading `/`, split at each `/`.
/// A path without a leading `/` has no segments to speak of.
pub open spec fn path_segments(path: Seq<char>) -> Option<Seq<Seq<char>>> {
    if path.len() > 0 && path[0] == '/' {
        Some(split_slash(path.drop_first()))
    } else {
        None
    }
}

/// How many segments `path` has; none where it has no leading `/`.
pub open spec fn segment_count(path: Seq<char>) -> nat {
    match path_segments(path) {
        Some(segs) => segs.len(),
        None => 0,
    }
}

/// The segments of `path` after the first `n`, joined with `/`.
pub open spec fn path_after(path: Seq<char>, n: nat) -> Seq<char> {
    match path_segments(path) {
        Some(_) => join_after(path.drop_first(), n),
        None => Seq::empty(),
    }
}

/// The number of segments of `path`.
pub fn segment_count_of(path: &str) -> (r: usize)
    ensures
        r == segment_count(path@),
{
    let len = path.unicode_len();
    if len == 0 || path.get_char(0) != '/' {
        return 0;
    }
    let mut i: usize = 1;
    let mut count: usize = 0;
    assert(path@.skip(1) =~= path@.drop_first());
    while i < len
        invariant
            len == path@.len(),
            1 <= i <= len,
            count < i,
            count + split_slash(path@.skip(i as int)).len() == split_slash(path@.skip(1)).len(),
        decreases len - i,
    {
        proof {
            lemma_split_step(path@.skip(i as int));
            assert(path@.skip(i as int).drop_first() =~= path@.skip(i + 1));
        }
        if path.get_char(i) == '/' {
            count = count + 1;
        }
        i = i + 1;
    }
    assert(path@.skip(i as int) =~= Seq::<char>::empty());
    count + 1
}

/// The segments of `path` after the first `n`, joined with `/`.
pub fn path_after_segments(path: &str, n: usize) -> (r: String)
    ensures
        r@ == path_after(path@, n as nat),
{
    let len = path.unicode_len();
    if len == 0 || path.get_char(0) != '/' {
        return String::new();
    }
    assert(path@.skip(1) =~= path@.drop_first());
    let mut i: usize = 1;
    let mut count: usize = 0;
    while i < len && count < n
        invariant
            len == path@.len(),
            1 <= i <= len,
            count <= n,
            join_after(path@.skip(1), n as nat) == join_after(path@.skip(i as int), (n - count) as nat),
        decreases len - i,
    {
        proof {
            lemma_join_after_step(path@.skip(i as int), (n - count) as nat);
            assert(path@.skip(i as int).drop_first() =~= path@.skip(i + 1));
        }
        if path.get_char(i) == '/' {
            count = count + 1;
        }
        i = i + 1;
    }
    if count == n {
        proof {
            let rest = path@.skip(i as int);
            lemma_join_split(rest);
            lemma_split_nonempty(rest);
            assert(split_slash(rest).subrange(0, split_slash(rest).len() as int) =~= split_slash(rest));
        }
        String::from_str(path.substring_char(i, len))
    } else {
        assert(path@.skip(i as int) =~= Seq::<char>::empty());
        assert(split_slash(Seq::<char>::empty()).len() == 1);
        String::new()
    }
}

} // verus!

//! How much of a page a request wants back.

use vstd::prelude::*;

use crate::text::{chars_of, text_of};

verus! {

/// Whether a request is answered with the whole document or the main pane
/// alone.
#[derive(Debug, PartialEq, Eq)]
pub enum Frame {
    /// The whole document: a plain navigation, or a restored history, which
    /// fetches the page again and selects what it needs from it.
    Document,
    /// The main pane, with the sidebar riding along out of band: what a
    /// link or form of the page swaps in.
    Pane {
        /// The path the browser shows, when it said.
        current: Option<String>,
    },
}

/// Where the first `://` of `url` ends; the start, where there is none.
pub open spec fn after_scheme(url: Seq<char>, from: int) -> int
    decreases url.len() - from,
{
    if from < 0 || from + 3 > url.len() {
        0
    } else if url[from] == ':' && url[from + 1] == '/' && url[from + 2] == '/' {
        from + 3
    } else {
        after_scheme(url, from + 1)
    }
}

/// Where `url` first holds a slash at or after `from`.
pub open spec fn first_slash(url: Seq<char>, from: int) -> Option<int>
    decreases url.len() - from,
{
    if from < 0 || from >= url.len() {
        None
    } else if url[from] == '/' {
        Some(from)
    } else {
        first_slash(url, from + 1)
    }
}

/// Where a path beginning at or before `from` ends: at a query, a fragment,
/// or the end of `url`.
pub open spec fn path_end(url: Seq<char>, from: int) -> int
    decreases url.len() - from,
{
    if from < 0 || from >= url.len() {
        url.len() as int
    } else if url[from] == '?' || url[from] == '#' {
        from
    } else {
        path_end(url, from + 1)
    }
}

/// The path of an absolute URL, query and fragment dropped.
pub open spec fn url_path(url: Seq<char>) -> Option<Seq<char>> {
    match first_slash(url, after_scheme(url, 0)) {
        Some(start) => Some(url.subrange(start, path_end(url, start))),
        None => None,
    }
}

/// Whether a header says `true`.
pub open spec fn says_true(header: Option<&str>) -> bool {
    header matches Some(value) && value@ == "true"@
}

fn is_true(header: Option<&str>) -> (said: bool)
    ensures
        said == says_true(header),
{
    match header {
        Some(value) => {
            let value = value.to_owned();
            let wanted = "true".to_owned();
            value == wanted
        },
        None => false,
    }
}

/// The path of an absolute URL, query and fragment dropped.
pub fn path_of(url: &str) -> (path: Option<String>)
    ensures
        match path {
            Some(path) => url_path(url@) == Some(path@),
            None => url_path(url@) is None,
        },
{
    let chars = chars_of(url);
    let n: usize = chars.len();
    let mut at: usize = 0;
    let mut rest: usize = 0;
    while at < n && rest == 0
        invariant
            at <= n == chars@.len(),
            rest == 0 ==> after_scheme(chars@, 0) == after_scheme(chars@, at as int),
            rest != 0 ==> after_scheme(chars@, 0) == rest && rest <= n,
        decreases n - at + if rest == 0 { 1int } else { 0 },
    {
        if n - at >= 3 && chars[at] == ':' && chars[at + 1] == '/' && chars[at + 2] == '/' {
            rest = at + 3;
        } else {
            if n - at < 3 {
                assert(after_scheme(chars@, at as int) == 0);
                assert(after_scheme(chars@, at + 1) == 0);
            }
            at += 1;
        }
    }
    assert(after_scheme(chars@, 0) == rest);
    let mut start: usize = rest;
    while start < n && chars[start] != '/'
        invariant
            start <= n == chars@.len(),
            first_slash(chars@, rest as int) == first_slash(chars@, start as int),
        decreases n - start,
    {
        start += 1;
    }
    if start == n {
        return None;
    }
    let mut end: usize = start;
    let mut path: Vec<char> = Vec::new();
    while end < n && chars[end] != '?' && chars[end] != '#'
        invariant
            start <= end <= n == chars@.len(),
            path_end(chars@, start as int) == path_end(chars@, end as int),
            path@ == chars@.subrange(start as int, end as int),
        decreases n - end,
    {
        path.push(chars[end]);
        end += 1;
        assert(path@ =~= chars@.subrange(start as int, end as int));
    }
    Some(text_of(&path))
}

impl Frame {
    /// What a request asks for, by its headers: whether the page itself
    /// sent it, whether it restores history, and where the browser is.
    pub fn from_headers(
        request: Option<&str>,
        history_restore: Option<&str>,
        current_url: Option<&str>,
    ) -> (frame: Self)
        ensures
            match frame {
                Frame::Document => !says_true(request) || says_true(history_restore),
                Frame::Pane { current } => {
                    &&& says_true(request) && !says_true(history_restore)
                    &&& match (current, current_url) {
                        (Some(path), Some(url)) => url_path(url@) == Some(path@),
                        (Some(_), None) => false,
                        (None, Some(url)) => url_path(url@) is None,
                        (None, None) => true,
                    }
                },
            },
    {
        if is_true(request) && !is_true(history_restore) {
            let current = match current_url {
                Some(url) => path_of(url),
                None => None,
            };
            Frame::Pane { current }
        } else {
            Frame::Document
        }
    }

    /// Whether the browser already shows `path`, as far as it said.
    pub fn shows(&self, path: &str) -> (shows: bool)
        ensures
            shows == (self matches Frame::Pane { current: Some(current) } && current@ == path@),
    {
        match self {
            Frame::Pane { current: Some(current) } => {
                let path = path.to_owned();
                *current == path
            },
            _ => false,
        }
    }
}

} // verus!

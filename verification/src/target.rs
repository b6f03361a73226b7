//! Splitting a URL into the host to connect to and the path to ask for.

use vstd::prelude::*;
use vstd::string::*;

verus! {

/// The URL without a leading `https://` or `http://`, if it has one.
pub open spec fn strip_scheme(url: Seq<char>) -> Seq<char> {
    if "https://"@.is_prefix_of(url) {
        url.skip("https://"@.len() as int)
    } else if "http://"@.is_prefix_of(url) {
        url.skip("http://"@.len() as int)
    } else {
        url
    }
}

/// The index of the first `/` of `s` at or after `from`, or the length of `s`
/// where there is none.
pub open spec fn first_slash(s: Seq<char>, from: int) -> int
    decreases s.len() - from,
{
    if from < 0 || from >= s.len() {
        s.len() as int
    } else if s[from] == '/' {
        from
    } else {
        first_slash(s, from + 1)
    }
}

/// The host part of a URL: what stands between the scheme and the first `/`.
pub open spec fn host_of(url: Seq<char>) -> Seq<char> {
    let rest = strip_scheme(url);
    rest.subrange(0, first_slash(rest, 0))
}

/// The path part of a URL: from the first `/` behind the scheme to the end,
/// or `/` alone where the URL names no path.
pub open spec fn path_of(url: Seq<char>) -> Seq<char> {
    let rest = strip_scheme(url);
    let at = first_slash(rest, 0);
    if at == rest.len() {
        seq!['/']
    } else {
        rest.subrange(at, rest.len() as int)
    }
}

/// `first_slash` finds a `/`, and the first one.
pub proof fn lemma_first_slash(s: Seq<char>, from: int)
    requires
        0 <= from <= s.len(),
    ensures
        from <= first_slash(s, from) <= s.len(),
        first_slash(s, from) < s.len() ==> s[first_slash(s, from)] == '/',
        forall|k: int| from <= k < first_slash(s, from) ==> s[k] != '/',
    decreases s.len() - from,
{
    if from < s.len() && s[from] != '/' {
        lemma_first_slash(s, from + 1);
    }
}

/// Of every URL, the path begins with `/` and the host holds none. Where the
/// URL behind its scheme holds a `/`, host and path together are that URL;
/// where it holds none, the host is that URL and the path is `/`.
pub proof fn lemma_target_parts(url: Seq<char>)
    ensures
        path_of(url).len() > 0,
        path_of(url)[0] == '/',
        !host_of(url).contains('/'),
        strip_scheme(url).contains('/') ==> host_of(url) + path_of(url) == strip_scheme(url),
        !strip_scheme(url).contains('/') ==> host_of(url) == strip_scheme(url) && path_of(url)
            == seq!['/'],
{
    let rest = strip_scheme(url);
    let at = first_slash(rest, 0);
    lemma_first_slash(rest, 0);
    let host = host_of(url);
    if host.contains('/') {
        let k = choose|k: int| 0 <= k < host.len() && host[k] == '/';
        assert(rest[k] == '/');
    }
    if rest.contains('/') {
        let k = choose|k: int| 0 <= k < rest.len() && rest[k] == '/';
        assert(at <= k);
        assert(host + path_of(url) =~= rest);
    } else {
        if at < rest.len() {
            assert(rest.contains(rest[at]));
        }
        assert(host =~= rest);
    }
}

/// Whether `s` begins with `prefix`.
fn starts_with(s: &str, prefix: &str) -> (found: bool)
    ensures
        found == prefix@.is_prefix_of(s@),
{
    let n: usize = s.unicode_len();
    let m: usize = prefix.unicode_len();
    if m > n {
        return false;
    }
    let mut i: usize = 0;
    while i < m
        invariant
            i <= m <= n,
            n == s@.len(),
            m == prefix@.len(),
            forall|k: int| 0 <= k < i ==> s@[k] == prefix@[k],
        decreases m - i,
    {
        if s.get_char(i) != prefix.get_char(i) {
            assert(s@.subrange(0, m as int)[i as int] != prefix@[i as int]);
            return false;
        }
        i += 1;
    }
    assert(prefix@ =~= s@.subrange(0, m as int));
    true
}

/// Splits a URL into host and path. A leading `https://` or `http://` is
/// dropped; the host ends before the first `/` that follows, and the path
/// begins with it. A URL without a path gets the path `/`.
pub fn url_extractor(url: String) -> (target: (String, String))
    ensures
        target.0@ == host_of(url@),
        target.1@ == path_of(url@),
{
    let whole: &str = url.as_str();
    let n: usize = whole.unicode_len();
    proof {
        reveal_strlit("https://");
        reveal_strlit("http://");
        reveal_strlit("/");
    }
    let start: usize = if starts_with(whole, "https://") {
        8
    } else if starts_with(whole, "http://") {
        7
    } else {
        0
    };
    let rest: &str = whole.substring_char(start, n);
    assert(rest@ =~= strip_scheme(url@));
    let m: usize = rest.unicode_len();
    let mut i: usize = 0;
    while i < m && rest.get_char(i) != '/'
        invariant
            i <= m,
            m == rest@.len(),
            first_slash(rest@, 0) == first_slash(rest@, i as int),
        decreases m - i,
    {
        i += 1;
    }
    assert(i as int == first_slash(rest@, 0));
    if i == m {
        assert(rest@.subrange(0, m as int) =~= rest@);
        assert("/"@ =~= seq!['/']);
        (String::from_str(rest), String::from_str("/"))
    } else {
        (String::from_str(rest.substring_char(0, i)), String::from_str(rest.substring_char(i, m)))
    }
}

/// A URL without any `/` is taken whole as the host, and its path is `/`.
pub proof fn lemma_bare_host(url: Seq<char>)
    requires
        !url.contains('/'),
    ensures
        host_of(url) == url,
        path_of(url) == seq!['/'],
{
    reveal_strlit("https://");
    reveal_strlit("http://");
    if "https://"@.is_prefix_of(url) {
        assert(url.subrange(0, 8)[6] == '/');
        assert(url.contains(url[6]));
    }
    if "http://"@.is_prefix_of(url) {
        assert(url.subrange(0, 7)[5] == '/');
        assert(url.contains(url[5]));
    }
    assert(strip_scheme(url) == url);
    lemma_first_slash(url, 0);
    let at = first_slash(url, 0);
    if at < url.len() {
        assert(url.contains(url[at]));
    }
    assert(url.subrange(0, url.len() as int) =~= url);
}

/// A URL made of `http://` or `https://`, a host without `/` and a path that
/// begins with `/` resolves to that host and that path.
pub proof fn lemma_scheme_dropped(host: Seq<char>, path: Seq<char>)
    requires
        !host.contains('/'),
        path.len() > 0,
        path[0] == '/',
    ensures
        strip_scheme("http://"@ + (host + path)) == host + path,
        strip_scheme("https://"@ + (host + path)) == host + path,
        host_of("http://"@ + (host + path)) == host,
        path_of("http://"@ + (host + path)) == path,
        host_of("https://"@ + (host + path)) == host,
        path_of("https://"@ + (host + path)) == path,
{
    let url = host + path;
    reveal_strlit("https://");
    reveal_strlit("http://");
    lemma_split_at_slash(host, path);
    let plain = "http://"@ + url;
    assert(plain.subrange(0, 7) =~= "http://"@);
    if "https://"@.is_prefix_of(plain) {
        assert(plain.subrange(0, 8)[4] == 's');
    }
    assert(plain.skip(7) =~= url);
    let secure = "https://"@ + url;
    assert(secure.subrange(0, 8) =~= "https://"@);
    assert(secure.skip(8) =~= url);
}

/// A URL that does not begin with a scheme is left as it is, so a host
/// without `/` followed by a path that begins with `/` resolves to that host
/// and that path: resolving what was already stripped changes nothing.
pub proof fn lemma_host_then_path(host: Seq<char>, path: Seq<char>)
    requires
        !host.contains('/'),
        path.len() > 0,
        path[0] == '/',
        !"http://"@.is_prefix_of(host + path),
        !"https://"@.is_prefix_of(host + path),
    ensures
        strip_scheme(host + path) == host + path,
        host_of(host + path) == host,
        path_of(host + path) == path,
{
    lemma_split_at_slash(host, path);
}

/// In `host + path`, with no `/` in `host` and one at the head of `path`, the
/// first `/` stands where `path` begins.
proof fn lemma_split_at_slash(host: Seq<char>, path: Seq<char>)
    requires
        !host.contains('/'),
        path.len() > 0,
        path[0] == '/',
    ensures
        first_slash(host + path, 0) == host.len(),
        (host + path).subrange(0, host.len() as int) == host,
        (host + path).subrange(host.len() as int, (host + path).len() as int) == path,
{
    let s = host + path;
    lemma_first_slash(s, 0);
    let at = first_slash(s, 0);
    if at < host.len() {
        assert(host.contains(host[at]));
    }
    assert(s[host.len() as int] == '/');
    assert(s.subrange(0, host.len() as int) =~= host);
    assert(s.subrange(host.len() as int, s.len() as int) =~= path);
}

} // verus!

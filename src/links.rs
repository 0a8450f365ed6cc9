use vstd::prelude::*;
use vstd::string::{StrSliceExecFns, StringExecFns};

verus! {

/// Whether `s` begins with `prefix`.
pub open spec fn has_prefix(s: Seq<char>, prefix: Seq<char>) -> bool {
    prefix.len() <= s.len() && s.subrange(0, prefix.len() as int) == prefix
}

/// Whether `s` ends with `suffix`.
pub open spec fn has_suffix(s: Seq<char>, suffix: Seq<char>) -> bool {
    suffix.len() <= s.len() && s.subrange(s.len() - suffix.len(), s.len() as int) == suffix
}

/// `k` is the first `#` of `url`, or its end when it has none.
pub open spec fn is_fragment_start(url: Seq<char>, k: int) -> bool {
    0 <= k <= url.len() && (k == url.len() || url[k] == '#') && forall|j: int|
        0 <= j < k ==> url[j] != '#'
}

/// Where the fragment of `url` begins.
pub open spec fn fragment_start(url: Seq<char>) -> int {
    choose|k: int| is_fragment_start(url, k)
}

/// The target a link of fetched markup is rewritten to: an absolute `http` or `https`
/// URL is kept; any other gets `.html` after its path, before its fragment, unless the
/// path ends in `.html` already.
pub open spec fn link_target(url: Seq<char>) -> Seq<char> {
    if has_prefix(url, "http://"@) || has_prefix(url, "https://"@) {
        url
    } else {
        let k = fragment_start(url);
        let path = url.subrange(0, k);
        let fragment = url.subrange(k, url.len() as int);
        if has_suffix(path, ".html"@) {
            url
        } else {
            path + ".html"@ + fragment
        }
    }
}

fn starts_with(s: &str, prefix: &str) -> (r: bool)
    ensures
        r == has_prefix(s@, prefix@),
{
    let n = prefix.unicode_len();
    if n > s.unicode_len() {
        return false;
    }
    let head = s.substring_char(0, n);
    let a = head.to_owned();
    let b = prefix.to_owned();
    a == b
}

fn ends_with(s: &str, suffix: &str) -> (r: bool)
    ensures
        r == has_suffix(s@, suffix@),
{
    let n = suffix.unicode_len();
    let len = s.unicode_len();
    if n > len {
        return false;
    }
    let tail = s.substring_char(len - n, len);
    let a = tail.to_owned();
    let b = suffix.to_owned();
    a == b
}

/// The target that a link to `url` is rewritten to.
pub fn rewrite_link(url: &str) -> (r: String)
    ensures
        r@ == link_target(url@),
{
    proof {
        reveal_strlit("http://");
        reveal_strlit("https://");
        reveal_strlit(".html");
    }
    if starts_with(url, "http://") || starts_with(url, "https://") {
        return url.to_owned();
    }
    let len = url.unicode_len();
    let mut k: usize = 0;
    while k < len && url.get_char(k) != '#'
        invariant
            len == url@.len(),
            k <= len,
            forall|j: int| 0 <= j < k ==> url@[j] != '#',
        decreases len - k,
    {
        k = k + 1;
    }
    proof {
        let w = k as int;
        assert(is_fragment_start(url@, w));
        let c = fragment_start(url@);
        assert(is_fragment_start(url@, c));
        if c < k {
            assert(url@[c] != '#');
        }
        if k < c {
            assert(url@[k as int] != '#');
        }
    }
    let path = url.substring_char(0, k);
    let fragment = url.substring_char(k, len);
    if ends_with(path, ".html") {
        proof {
            assert(url@.subrange(0, k as int) + url@.subrange(k as int, len as int) =~= url@);
        }
        url.to_owned()
    } else {
        let mut r = path.to_owned();
        r.append(".html");
        r.append(fragment);
        r
    }
}

/// The attribute that a link to `url` is rewritten to: `href="` and its target and `"`.
pub fn href_attribute(url: &str) -> (r: String)
    ensures
        r@ == "href=\""@ + link_target(url@) + "\""@,
{
    let mut r = "href=\"".to_owned();
    let target = rewrite_link(url);
    r.append(target.as_str());
    r.append("\"");
    r
}

/// What `rewrite_links` gives for markup `html`: every `href="..."` attribute replaced
/// by the `href_attribute` of the URL it holds, the rest unchanged.
pub uninterp spec fn links_rewritten(html: Seq<char>) -> Seq<char>;

/// Whether `t` occurs in `s` as a run of consecutive characters.
pub open spec fn has_infix(s: Seq<char>, t: Seq<char>) -> bool {
    exists|i: int| 0 <= i && i + t.len() <= s.len() && #[trigger] s.subrange(i, i + t.len()) == t
}

/// Relies on regex::Regex::replace_all: each non-overlapping match of `href="([^"]+)"`,
/// left to right, replaced by what the closure returns for it; the pattern is valid.
/// Markup without `href="` has no match and comes back unchanged.
#[verifier::external_body]
fn replace_hrefs(html: &str) -> (r: String)
    ensures
        r@ == links_rewritten(html@),
        !has_infix(html@, "href=\""@) ==> r@ == html@,
{
    let re = regex::Regex::new(r#"href="([^"]+)""#).unwrap();
    re.replace_all(html, |caps: &regex::Captures| href_attribute(&caps[1])).into_owned()
}

/// Points the relative links of fetched markup at the `.html` files they are stored as.
pub fn ensure_html_extensions(html: &str) -> (r: String)
    ensures
        r@ == links_rewritten(html@),
        !has_infix(html@, "href=\""@) ==> r@ == html@,
{
    replace_hrefs(html)
}

} // verus!

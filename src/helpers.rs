use vstd::prelude::*;
use vstd::string::StringExecFns;

verus! {

/// The extension of the file name of `path`, as `std::path::Path` splits it.
pub uninterp spec fn extension_of(path: Seq<char>) -> Option<Seq<char>>;

/// `path` with the extension of its file name set to `ext`, as `std::path::Path` does it.
pub uninterp spec fn with_extension_of(path: Seq<char>, ext: Seq<char>) -> Seq<char>;

/// No character of `s` is a path separator (on Unix, `/`).
pub open spec fn no_separator(s: Seq<char>) -> bool {
    forall|i: int| 0 <= i < s.len() ==> s[i] != '/'
}

/// Relies on std::path::Path::extension: the part of the file name after its last dot;
/// being part of the file name, it holds no separator.
#[verifier::external_body]
fn path_extension(path: &str) -> (r: Option<String>)
    ensures
        match r {
            Some(e) => extension_of(path@) == Some(e@) && no_separator(e@),
            None => extension_of(path@) is None,
        },
{
    std::path::Path::new(path).extension().map(|e| e.to_string_lossy().into_owned())
}

/// Relies on std::path::Path::with_extension: the path with its file name's extension
/// replaced. It panics on an extension that holds a separator.
#[verifier::external_body]
fn path_with_extension(path: &str, ext: &str) -> (r: String)
    requires
        no_separator(ext@),
    ensures
        r@ == with_extension_of(path@, ext@),
{
    std::path::Path::new(path).with_extension(ext).to_string_lossy().into_owned()
}

/// The extension given to a page file whose own extension is `ext`.
pub open spec fn html_extension_for(ext: Option<Seq<char>>) -> Seq<char> {
    match ext {
        Some(e) => e + seq!['.', 'h', 't', 'm', 'l'],
        None => seq!['h', 't', 'm', 'l'],
    }
}

/// Gives a page file the `html` extension, kept after any extension it has.
pub fn add_html_ext(path: String) -> (r: String)
    ensures
        r@ == with_extension_of(path@, html_extension_for(extension_of(path@))),
{
    proof {
        reveal_strlit(".html");
        reveal_strlit("html");
        assert(".html"@ =~= seq!['.', 'h', 't', 'm', 'l']);
        assert("html"@ =~= seq!['h', 't', 'm', 'l']);
    }
    match path_extension(path.as_str()) {
        Some(ext) => {
            let mut new_ext = ext;
            let ghost e = new_ext@;
            new_ext.append(".html");
            assert(new_ext@ == e + seq!['.', 'h', 't', 'm', 'l']);
            assert(no_separator(new_ext@)) by {
                assert forall|i: int| 0 <= i < new_ext@.len() implies new_ext@[i] != '/' by {
                    if i >= e.len() {
                        assert(new_ext@[i] == seq!['.', 'h', 't', 'm', 'l'][i - e.len()]);
                    }
                }
            }
            path_with_extension(path.as_str(), new_ext.as_str())
        },
        None => path_with_extension(path.as_str(), "html"),
    }
}

/// Relies on std::time::SystemTime::now: the current Unix time in seconds,
/// `None` when the clock reads before the epoch.
#[verifier::external_body]
pub fn current_timestamp() -> (r: Option<u64>) {
    match std::time::SystemTime::now().duration_since(std::time::UNIX_EPOCH) {
        Ok(d) => Some(d.as_secs()),
        Err(_) => None,
    }
}

} // verus!

use vstd::prelude::*;

verus! {

/// Errors surfaced by the documentation store.
///
/// Failures of the network, file and serialization layers arrive as the
/// message of the underlying error.
#[derive(Debug, Clone, PartialEq, Eq)]
pub enum DevDocsError {
    Network(String),
    Io(String),
    Json(String),
    DocNotFound(String),
    DocAlreadyExists(String),
    Cache(String),
    InvalidSlug(String),
}

/// Home page and source repository of a documentation set.
#[derive(Debug, Clone, PartialEq)]
pub struct Links {
    pub home: Option<String>,
    pub code: Option<String>,
}

/// Metadata of one documentation set offered upstream.
#[derive(Debug, Clone, PartialEq)]
pub struct Doc {
    pub name: String,
    pub slug: String,
    pub doc_type: String,
    pub links: Option<Links>,
    pub mtime: u64,
    pub db_size: usize,
    pub attribution: Option<String>,
    pub alias: Option<String>,
}

/// One named, typed, path-addressed entry of a set's index.
#[derive(Debug, Clone, PartialEq)]
pub struct Entry {
    pub name: String,
    pub path: String,
    pub entry_type: String,
}

/// One facet of an index: a type tag with its label and count.
#[derive(Debug, Clone)]
pub struct EntryType {
    pub name: String,
    pub count: usize,
    pub slug: String,
}

/// The entries of a set together with its facets.
#[derive(Debug, Clone)]
pub struct DocIndex {
    pub entries: Vec<Entry>,
    pub types: Vec<EntryType>,
}

/// An index entry tagged with the slug and display name of its set.
#[derive(Debug, Clone)]
pub struct SearchableEntry {
    pub entry: Entry,
    pub doc_slug: String,
    pub doc_name: String,
}

/// A searchable entry with its similarity to the query (higher is better).
#[derive(Debug, Clone)]
pub struct SearchResult {
    pub entry: SearchableEntry,
    pub score: u16,
}

/// The record kept for one installed set.
#[derive(Debug, Clone)]
pub struct CachedDoc {
    pub doc: Doc,
    pub index: DocIndex,
    pub cached_at: u64,
}

fn copy_opt_string(s: &Option<String>) -> (r: Option<String>)
    ensures
        r == *s,
{
    match s {
        Some(v) => Some(v.clone()),
        None => None,
    }
}

impl Links {
    pub fn copy(&self) -> (r: Links)
        ensures
            r == *self,
    {
        Links { home: copy_opt_string(&self.home), code: copy_opt_string(&self.code) }
    }
}

impl Doc {
    pub fn copy(&self) -> (r: Doc)
        ensures
            r == *self,
    {
        let links = match &self.links {
            Some(l) => Some(l.copy()),
            None => None,
        };
        Doc {
            name: self.name.clone(),
            slug: self.slug.clone(),
            doc_type: self.doc_type.clone(),
            links,
            mtime: self.mtime,
            db_size: self.db_size,
            attribution: copy_opt_string(&self.attribution),
            alias: copy_opt_string(&self.alias),
        }
    }
}

impl Entry {
    pub fn copy(&self) -> (r: Entry)
        ensures
            r == *self,
    {
        Entry {
            name: self.name.clone(),
            path: self.path.clone(),
            entry_type: self.entry_type.clone(),
        }
    }
}

impl SearchableEntry {
    pub fn copy(&self) -> (r: SearchableEntry)
        ensures
            r == *self,
    {
        SearchableEntry {
            entry: self.entry.copy(),
            doc_slug: self.doc_slug.clone(),
            doc_name: self.doc_name.clone(),
        }
    }

    /// The text compared against a query: the entry's name, a space, and its type tag.
    pub open spec fn match_text(&self) -> Seq<char> {
        self.entry.name@ + seq![' '] + self.entry.entry_type@
    }
}

impl SearchResult {
    pub fn copy(&self) -> (r: SearchResult)
        ensures
            r == *self,
    {
        SearchResult { entry: self.entry.copy(), score: self.score }
    }
}

} // verus!

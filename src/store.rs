use vstd::prelude::*;

use crate::search::{eligible_count, folded, kept_or_outranked, ranked_positions, min_nat, rank_results, score_entries, score_of, sorted_by_score};
use crate::types::{CachedDoc, DevDocsError, Doc, Entry, SearchResult, SearchableEntry};

verus! {

/// How long, in seconds, a fetched catalog is served without a refresh: seven days.
pub const CACHE_DURATION_SECS: u64 = 604800;

/// Whether a catalog fetched at `fetched_at` is still served at `now`.
pub open spec fn is_fresh(fetched_at: u64, now: u64) -> bool {
    now - fetched_at < CACHE_DURATION_SECS
}

/// Number of sets installed side by side when installing many.
pub const DOWNLOAD_BATCH_SIZE: usize = 5;

/// Largest number of results a search returns unless told otherwise.
pub const DEFAULT_SEARCH_LIMIT: usize = 50;

/// The entries of one installed set, tagged with its slug and display name.
pub open spec fn tag_entries(slug: String, doc: CachedDoc) -> Seq<SearchableEntry> {
    doc.index.entries@.map_values(
        |e: Entry| SearchableEntry { entry: e, doc_slug: slug, doc_name: doc.doc.name },
    )
}

/// The tagged entries of all sets, set after set, each in index order.
pub open spec fn entries_of(slugs: Seq<String>, docs: Seq<CachedDoc>) -> Seq<SearchableEntry>
    decreases slugs.len(),
{
    if slugs.len() == 0 || docs.len() == 0 {
        Seq::empty()
    } else {
        entries_of(slugs.drop_last(), docs.drop_last()) + tag_entries(slugs.last(), docs.last())
    }
}

/// Each entry paired with its score against `query`.
pub open spec fn scored(entries: Seq<SearchableEntry>, query: Seq<char>) -> Seq<SearchResult> {
    entries.map_values(|e: SearchableEntry| SearchResult { entry: e, score: score_of(e, folded(query)) })
}

proof fn lemma_entries_of_slugs(slugs: Seq<String>, docs: Seq<CachedDoc>, e: SearchableEntry)
    requires
        entries_of(slugs, docs).contains(e),
        slugs.len() == docs.len(),
    ensures
        exists|k: int|
            0 <= k < slugs.len() && k < docs.len() && slugs[k] == e.doc_slug && tag_entries(
                slugs[k],
                docs[k],
            ).contains(e),
    decreases slugs.len(),
{
    let rest = entries_of(slugs.drop_last(), docs.drop_last());
    let t = tag_entries(slugs.last(), docs.last());
    let i = entries_of(slugs, docs).index_of(e);
    if i < rest.len() {
        assert(rest[i] == e);
        lemma_entries_of_slugs(slugs.drop_last(), docs.drop_last(), e);
        let k = choose|k: int|
            0 <= k < slugs.drop_last().len() && k < docs.drop_last().len()
                && slugs.drop_last()[k] == e.doc_slug && tag_entries(
                slugs.drop_last()[k],
                docs.drop_last()[k],
            ).contains(e);
        assert(slugs[k] == e.doc_slug && docs[k] == docs.drop_last()[k]);
        assert(tag_entries(slugs[k], docs[k]).contains(e));
    } else {
        assert(t[i - rest.len()] == e);
        assert(slugs[slugs.len() - 1] == e.doc_slug);
        assert(tag_entries(slugs[slugs.len() - 1], docs[docs.len() - 1]).contains(e));
    }
}

/// The slugs of `catalog`, in order, that are not among `installed`.
pub open spec fn pending_slugs(catalog: Seq<Doc>, installed: Seq<Seq<char>>) -> Seq<Seq<char>>
    decreases catalog.len(),
{
    if catalog.len() == 0 {
        Seq::empty()
    } else {
        pending_slugs(catalog.drop_last(), installed) + if installed.contains(
            catalog.last().slug@,
        ) {
            Seq::<Seq<char>>::empty()
        } else {
            seq![catalog.last().slug@]
        }
    }
}

/// No readable record before the `i`-th carries its slug.
pub open spec fn first_readable(records: Seq<(String, Option<CachedDoc>)>, i: int) -> bool {
    forall|j: int| 0 <= j < i ==> !(records[j].0@ == records[i].0@ && records[j].1 is Some)
}

/// No readable record from the `lo`-th to before the `i`-th carries the slug of the `i`-th.
pub open spec fn readable_first_from(
    records: Seq<(String, Option<CachedDoc>)>,
    lo: int,
    i: int,
) -> bool {
    forall|j: int| lo <= j < i ==> !(records[j].0@ == records[i].0@ && records[j].1 is Some)
}

/// Some readable record carries `slug`.
pub open spec fn loads_slug(records: Seq<(String, Option<CachedDoc>)>, slug: Seq<char>) -> bool {
    exists|j: int| 0 <= j < records.len() && records[j].0@ == slug && records[j].1 is Some
}

/// The batches laid end to end.
pub open spec fn concat_all(batches: Seq<Seq<String>>) -> Seq<String>
    decreases batches.len(),
{
    if batches.len() == 0 {
        Seq::empty()
    } else {
        concat_all(batches.drop_last()) + batches.last()
    }
}

/// The first set of `catalog` published under `slug`; fails when there is none.
pub fn find_available(catalog: &Vec<Doc>, slug: &str) -> (r: Result<Doc, DevDocsError>)
    ensures
        r is Ok <==> exists|i: int| 0 <= i < catalog@.len() && (#[trigger] catalog@[i]).slug@ == slug@,
        match r {
            Ok(d) => exists|i: int|
                0 <= i < catalog@.len() && catalog@[i] == d && d.slug@ == slug@ && forall|j: int|
                    0 <= j < i ==> (#[trigger] catalog@[j]).slug@ != slug@,
            Err(DevDocsError::DocNotFound(s)) => s@ == slug@,
            Err(_) => false,
        },
{
    let key = slug.to_owned();
    let mut i: usize = 0;
    while i < catalog.len()
        invariant
            key@ == slug@,
            i <= catalog@.len(),
            forall|j: int| 0 <= j < i ==> (#[trigger] catalog@[j]).slug@ != slug@,
        decreases catalog@.len() - i,
    {
        if catalog[i].slug == key {
            return Ok(catalog[i].copy());
        }
        i = i + 1;
    }
    Err(DevDocsError::DocNotFound(key))
}

/// Splits `slugs` into consecutive batches of `size`, the last one possibly shorter.
pub fn download_batches(slugs: &Vec<String>, size: usize) -> (r: Vec<Vec<String>>)
    requires
        size > 0,
    ensures
        forall|k: int| 0 <= k < r@.len() ==> 0 < (#[trigger] r@[k])@.len() <= size,
        forall|k: int| 0 <= k < r@.len() - 1 ==> (#[trigger] r@[k])@.len() == size,
        concat_all(r@.map_values(|b: Vec<String>| b@)) == slugs@,
{
    let mut r: Vec<Vec<String>> = Vec::new();
    let mut i: usize = 0;
    while i < slugs.len()
        invariant
            size > 0,
            i <= slugs@.len(),
            forall|k: int| 0 <= k < r@.len() ==> 0 < (#[trigger] r@[k])@.len() <= size,
            forall|k: int|
                0 <= k < r@.len() ==> (#[trigger] r@[k])@.len() == size || (k == r@.len() - 1
                    && i == slugs@.len()),
            concat_all(r@.map_values(|b: Vec<String>| b@)) == slugs@.take(i as int),
        decreases slugs@.len() - i,
    {
        let end: usize = if slugs.len() - i < size {
            slugs.len()
        } else {
            i + size
        };
        let mut batch: Vec<String> = Vec::new();
        let mut j: usize = i;
        while j < end
            invariant
                i <= j <= end <= slugs@.len(),
                batch@ == slugs@.subrange(i as int, j as int),
            decreases end - j,
        {
            batch.push(slugs[j].clone());
            j = j + 1;
            assert(batch@ =~= slugs@.subrange(i as int, j as int));
        }
        let ghost before = r@.map_values(|b: Vec<String>| b@);
        r.push(batch);
        proof {
            assert(r@.map_values(|b: Vec<String>| b@).drop_last() =~= before);
            assert(slugs@.take(i as int) + slugs@.subrange(i as int, end as int) =~= slugs@.take(
                end as int,
            ));
        }
        i = end;
    }
    assert(slugs@.take(i as int) =~= slugs@);
    r
}

/// With no lower bound on the score, every result is eligible.
pub proof fn lemma_all_eligible(s: Seq<SearchResult>)
    ensures
        eligible_count(s, 0) == s.len(),
    decreases s.len(),
{
    if s.len() > 0 {
        lemma_all_eligible(s.drop_last());
    }
}

/// The installed documentation sets, keyed by slug, and the last catalog fetched.
#[derive(Debug)]
pub struct DocStore {
    slugs: Vec<String>,
    docs: Vec<CachedDoc>,
    catalog: Option<(Vec<Doc>, u64)>,
}

impl DocStore {
    /// One record per slug, no slug twice.
    pub closed spec fn wf(&self) -> bool {
        &&& self.slugs@.len() == self.docs@.len()
        &&& forall|i: int, j: int|
            0 <= i < j < self.slugs@.len() ==> self.slugs@[i]@ != self.slugs@[j]@
    }

    /// The installed slugs, in order of installation.
    pub closed spec fn installed(&self) -> Seq<Seq<char>> {
        self.slugs@.map_values(|s: String| s@)
    }

    pub open spec fn has(&self, slug: Seq<char>) -> bool {
        self.installed().contains(slug)
    }

    /// The record installed under `slug`.
    pub closed spec fn record(&self, slug: Seq<char>) -> CachedDoc {
        self.docs@[choose|i: int| 0 <= i < self.slugs@.len() && self.slugs@[i]@ == slug]
    }

    /// The catalog and the time it was fetched at, if one was ever stored.
    pub closed spec fn catalog(&self) -> Option<(Seq<Doc>, u64)> {
        match self.catalog {
            Some((d, t)) => Some((d@, t)),
            None => None,
        }
    }

    /// Whether a read of the catalog at `now` is served from the stored one.
    pub open spec fn serves_cached(&self, now: u64) -> bool {
        match self.catalog() {
            Some((_, t)) => is_fresh(t, now),
            None => false,
        }
    }

    proof fn lemma_record_at(&self, i: int)
        requires
            self.wf(),
            0 <= i < self.slugs@.len(),
        ensures
            self.record(self.slugs@[i]@) == self.docs@[i],
            self.has(self.slugs@[i]@),
    {
        let s = self.slugs@[i]@;
        assert(self.installed()[i] == s);
        let k = choose|k: int| 0 <= k < self.slugs@.len() && self.slugs@[k]@ == s;
        assert(k == i);
    }

    /// An empty store whose catalog was never fetched.
    pub fn new() -> (r: DocStore)
        ensures
            r.wf(),
            r.installed() == Seq::<Seq<char>>::empty(),
            r.searchable() == Seq::<SearchableEntry>::empty(),
            r.catalog() is None,
    {
        let r = DocStore { slugs: Vec::new(), docs: Vec::new(), catalog: None };
        assert(r.installed() =~= Seq::<Seq<char>>::empty());
        r
    }

    fn find(&self, slug: &str) -> (r: Option<usize>)
        requires
            self.wf(),
        ensures
            match r {
                Some(i) => i < self.slugs@.len() && self.slugs@[i as int]@ == slug@ && self.has(slug@),
                None => !self.has(slug@),
            },
    {
        let key = slug.to_owned();
        let mut i: usize = 0;
        while i < self.slugs.len()
            invariant
                self.wf(),
                key@ == slug@,
                i <= self.slugs@.len(),
                forall|k: int| 0 <= k < i ==> self.slugs@[k]@ != slug@,
            decreases self.slugs@.len() - i,
        {
            if self.slugs[i] == key {
                proof {
                    self.lemma_record_at(i as int);
                }
                return Some(i);
            }
            i = i + 1;
        }
        proof {
            if self.has(slug@) {
                let k = self.installed().index_of(slug@);
                assert(self.slugs@[k]@ == slug@);
            }
        }
        None
    }

    /// Whether a set is installed under `slug`.
    pub fn is_doc_installed(&self, slug: &str) -> (r: bool)
        requires
            self.wf(),
        ensures
            r == self.has(slug@),
    {
        match self.find(slug) {
            Some(i) => {
                proof {
                    self.lemma_record_at(i as int);
                }
                true
            },
            None => false,
        }
    }

    /// The installed slugs, in order of installation.
    pub fn list_installed_docs(&self) -> (r: Vec<String>)
        requires
            self.wf(),
        ensures
            r@.map_values(|s: String| s@) == self.installed(),
            r@.map_values(|s: String| s@).no_duplicates(),
    {
        let mut r: Vec<String> = Vec::new();
        let mut i: usize = 0;
        while i < self.slugs.len()
            invariant
                i <= self.slugs@.len(),
                r@.len() == i,
                forall|k: int| 0 <= k < i ==> r@[k]@ == self.slugs@[k]@,
            decreases self.slugs@.len() - i,
        {
            r.push(self.slugs[i].clone());
            i = i + 1;
        }
        assert(r@.map_values(|s: String| s@) =~= self.installed());
        r
    }

    /// The metadata of the set installed under `slug`.
    pub fn get_doc_info(&self, slug: &str) -> (r: Result<Doc, DevDocsError>)
        requires
            self.wf(),
        ensures
            self.has(slug@) ==> r == Ok::<Doc, DevDocsError>(self.record(slug@).doc),
            !self.has(slug@) ==> (match r {
                Err(DevDocsError::DocNotFound(s)) => s@ == slug@,
                _ => false,
            }),
    {
        match self.find(slug) {
            Some(i) => {
                proof {
                    self.lemma_record_at(i as int);
                }
                Ok(self.docs[i].doc.copy())
            },
            None => Err(DevDocsError::DocNotFound(slug.to_owned())),
        }
    }

    proof fn lemma_has_index(&self, s: Seq<char>) -> (k: int)
        requires
            self.wf(),
            self.has(s),
        ensures
            0 <= k < self.slugs@.len(),
            self.slugs@[k]@ == s,
            self.record(s) == self.docs@[k],
    {
        let k = self.installed().index_of(s);
        self.lemma_record_at(k);
        k
    }

    /// Installs `doc` under `slug`, unless a set is installed under it already,
    /// in which case nothing changes.
    pub fn insert_doc(&mut self, slug: &str, doc: CachedDoc) -> (added: bool)
        requires
            old(self).wf(),
        ensures
            final(self).wf(),
            added == !old(self).has(slug@),
            !added ==> *final(self) == *old(self),
            added ==> final(self).installed() == old(self).installed().push(slug@),
            final(self).has(slug@),
            added ==> final(self).record(slug@) == doc,
            added ==> exists|t: String|
                t@ == slug@ && final(self).searchable() == old(self).searchable() + tag_entries(
                    t,
                    doc,
                ),
            forall|s: Seq<char>|
                #[trigger] old(self).has(s) ==> final(self).record(s) == old(self).record(s),
            final(self).catalog() == old(self).catalog(),
    {
        if self.find(slug).is_some() {
            return false;
        }
        let ghost pre = *self;
        proof {
            assert forall|k: int| 0 <= k < pre.slugs@.len() implies pre.slugs@[k]@ != slug@ by {
                assert(pre.installed()[k] == pre.slugs@[k]@);
            }
        }
        let key = slug.to_owned();
        let ghost t = key;
        self.slugs.push(key);
        self.docs.push(doc);
        proof {
            assert(self.slugs@.drop_last() =~= pre.slugs@);
            assert(self.docs@.drop_last() =~= pre.docs@);
            assert(self.searchable() == pre.searchable() + tag_entries(t, doc));
            assert(self.installed() =~= pre.installed().push(slug@));
            let n = pre.slugs@.len() as int;
            self.lemma_record_at(n);
            assert forall|s: Seq<char>| #[trigger] pre.has(s) implies self.record(s) == pre.record(
                s,
            ) by {
                let k = pre.lemma_has_index(s);
                self.lemma_record_at(k);
            }
        }
        true
    }

    /// Installs `doc` under `slug`, replacing what was installed under it.
    fn put_doc(&mut self, slug: &str, doc: CachedDoc)
        requires
            old(self).wf(),
        ensures
            final(self).wf(),
            final(self).has(slug@),
            forall|s: Seq<char>| #[trigger] final(self).has(s) <==> (old(self).has(s) || s == slug@),
            final(self).record(slug@) == doc,
            forall|s: Seq<char>|
                s != slug@ && #[trigger] old(self).has(s) ==> final(self).record(s) == old(
                    self,
                ).record(s),
            final(self).catalog() == old(self).catalog(),
    {
        match self.find(slug) {
            Some(i) => {
                let ghost pre = *self;
                self.docs.set(i, doc);
                proof {
                    assert(self.installed() =~= pre.installed());
                    self.lemma_record_at(i as int);
                    assert forall|s: Seq<char>| s != slug@ && #[trigger] pre.has(s) implies self.record(s) == pre.record(s) by {
                        let k = pre.lemma_has_index(s);
                        self.lemma_record_at(k);
                    }
                }
            },
            None => {
                self.insert_doc(slug, doc);
                proof {
                    assert forall|s: Seq<char>| #[trigger] self.has(s) implies (old(self).has(s) || s == slug@) by {
                        assert(self.installed().last() == slug@);
                        let k = self.installed().index_of(s);
                        if k < old(self).installed().len() {
                            assert(old(self).installed()[k] == s);
                        }
                    }
                    assert forall|s: Seq<char>| old(self).has(s) implies #[trigger] self.has(s) by {
                        let k = old(self).installed().index_of(s);
                        assert(self.installed()[k] == s);
                    }
                }
            },
        }
    }

    /// Uninstalls the set under `slug`; fails when none is installed under it.
    pub fn remove_doc(&mut self, slug: &str) -> (r: Result<(), DevDocsError>)
        requires
            old(self).wf(),
        ensures
            final(self).wf(),
            r is Ok <==> old(self).has(slug@),
            r is Err ==> *final(self) == *old(self),
            r is Err ==> (match r {
                Err(DevDocsError::DocNotFound(s)) => s@ == slug@,
                _ => false,
            }),
            !final(self).has(slug@),
            forall|s: Seq<char>|
                s != slug@ ==> (#[trigger] final(self).has(s) == old(self).has(s)),
            forall|s: Seq<char>|
                s != slug@ && #[trigger] old(self).has(s) ==> final(self).record(s) == old(
                    self,
                ).record(s),
            final(self).catalog() == old(self).catalog(),
    {
        match self.find(slug) {
            None => Err(DevDocsError::DocNotFound(slug.to_owned())),
            Some(i) => {
                let ghost pre = *self;
                self.slugs.remove(i);
                self.docs.remove(i);
                proof {
                    assert(self.installed() =~= pre.installed().remove(i as int));
                    assert forall|s: Seq<char>| s != slug@ implies (#[trigger] self.has(s) == pre.has(s)) by {
                        if pre.has(s) {
                            let k = pre.lemma_has_index(s);
                            if k < i {
                                assert(self.installed()[k] == s);
                            } else {
                                assert(self.installed()[k - 1] == s);
                            }
                        }
                        if self.has(s) {
                            let k = self.installed().index_of(s);
                            if k < i {
                                assert(pre.installed()[k] == s);
                            } else {
                                assert(pre.installed()[k + 1] == s);
                            }
                        }
                    }
                    if self.has(slug@) {
                        let k = self.installed().index_of(slug@);
                        if k < i {
                            assert(pre.slugs@[k]@ == slug@);
                        } else {
                            assert(pre.slugs@[k + 1]@ == slug@);
                        }
                    }
                    assert forall|s: Seq<char>| s != slug@ && #[trigger] pre.has(s) implies self.record(s) == pre.record(s) by {
                        let k = pre.lemma_has_index(s);
                        if k < i {
                            self.lemma_record_at(k);
                        } else {
                            self.lemma_record_at(k - 1);
                        }
                    }
                }
                Ok(())
            },
        }
    }

    /// Installs the records read back at startup. A record that could not be read or
    /// decoded is `None` and is skipped; every other one is installed under its slug,
    /// the first readable one where a slug repeats. Loading never fails.
    pub fn load_records(&mut self, records: Vec<(String, Option<CachedDoc>)>)
        requires
            old(self).wf(),
        ensures
            final(self).wf(),
            forall|i: int|
                0 <= i < records@.len() && (#[trigger] records@[i]).1 is Some ==> final(self).has(
                    records@[i].0@,
                ),
            forall|s: Seq<char>|
                #[trigger] final(self).has(s) ==> old(self).has(s) || exists|i: int|
                    0 <= i < records@.len() && records@[i].0@ == s && records@[i].1 is Some,
            forall|s: Seq<char>| #[trigger] old(self).has(s) ==> final(self).has(s),
            forall|i: int|
                0 <= i < records@.len() && (#[trigger] records@[i]).1 is Some && first_readable(
                    records@,
                    i,
                ) ==> final(self).record(records@[i].0@) == records@[i].1->Some_0,
            forall|s: Seq<char>|
                #[trigger] old(self).has(s) && !loads_slug(records@, s) ==> final(self).record(s)
                    == old(self).record(s),
            final(self).catalog() == old(self).catalog(),
    {
        let mut rest = records;
        while rest.len() > 0
            invariant
                self.wf(),
                rest@.len() <= records@.len(),
                rest@ == records@.take(rest@.len() as int),
                forall|i: int|
                    rest@.len() <= i < records@.len() && (#[trigger] records@[i]).1 is Some
                        ==> self.has(records@[i].0@),
                forall|s: Seq<char>|
                    #[trigger] self.has(s) ==> old(self).has(s) || exists|i: int|
                        rest@.len() <= i < records@.len() && records@[i].0@ == s
                            && records@[i].1 is Some,
                forall|s: Seq<char>| #[trigger] old(self).has(s) ==> self.has(s),
                forall|i: int|
                    rest@.len() <= i < records@.len() && (#[trigger] records@[i]).1 is Some
                        && readable_first_from(records@, rest@.len() as int, i) ==> self.record(
                        records@[i].0@,
                    ) == records@[i].1->Some_0,
                forall|s: Seq<char>|
                    #[trigger] old(self).has(s) && !loads_slug(
                        records@.subrange(rest@.len() as int, records@.len() as int),
                        s,
                    ) ==> self.record(s) == old(self).record(s),
                self.catalog() == old(self).catalog(),
            decreases rest@.len(),
        {
            let ghost lo = rest@.len() as int;
            let (slug, rec) = rest.pop().unwrap();
            let ghost n = rest@.len() as int;
            assert(records@[n] == (slug, rec));
            proof {
                assert forall|s: Seq<char>|
                    loads_slug(records@.subrange(lo, records@.len() as int), s) implies loads_slug(
                    records@.subrange(n, records@.len() as int),
                    s,
                ) by {
                    let j = choose|j: int|
                        0 <= j < records@.len() - lo && records@.subrange(lo, records@.len() as int)[j].0@ == s
                            && records@.subrange(lo, records@.len() as int)[j].1 is Some;
                    assert(records@.subrange(n, records@.len() as int)[j + 1] == records@[lo + j]);
                }
            }
            match rec {
                Some(doc) => {
                    self.put_doc(slug.as_str(), doc);
                },
                None => {},
            }
            proof {
                assert forall|s: Seq<char>|
                    #[trigger] old(self).has(s) && !loads_slug(
                        records@.subrange(n, records@.len() as int),
                        s,
                    ) implies self.record(s) == old(self).record(s) by {
                    if records@[n].1 is Some {
                        assert(records@.subrange(n, records@.len() as int)[0] == records@[n]);
                    }
                }
            }
        }
        proof {
            assert(records@.subrange(0, records@.len() as int) =~= records@);
            assert forall|i: int|
                0 <= i < records@.len() && (#[trigger] records@[i]).1 is Some && first_readable(
                    records@,
                    i,
                ) implies self.record(records@[i].0@) == records@[i].1->Some_0 by {
                assert(readable_first_from(records@, 0, i));
            }
            assert forall|s: Seq<char>|
                #[trigger] old(self).has(s) && !loads_slug(records@, s) implies self.record(s)
                == old(self).record(s) by {
                assert(!loads_slug(records@.subrange(0, records@.len() as int), s));
            }
        }
    }

    /// The stored catalog, when one fetched at most `CACHE_DURATION_SECS` ago is held.
    pub fn cached_catalog(&self, now: u64) -> (r: Option<Vec<Doc>>)
        ensures
            r is Some <==> self.serves_cached(now),
            r is Some ==> r->Some_0@ == self.catalog()->Some_0.0,
    {
        match &self.catalog {
            Some((docs, fetched_at)) => {
                if now < *fetched_at || now - *fetched_at < CACHE_DURATION_SECS {
                    Some(copy_docs(docs))
                } else {
                    None
                }
            },
            None => None,
        }
    }

    /// Replaces the stored catalog with `docs`, fetched at `fetched_at`.
    pub fn set_catalog(&mut self, docs: Vec<Doc>, fetched_at: u64)
        requires
            old(self).wf(),
        ensures
            final(self).wf(),
            final(self).catalog() == Some((docs@, fetched_at)),
            final(self).installed() == old(self).installed(),
            forall|s: Seq<char>| old(self).has(s) ==> final(self).record(s) == old(self).record(s),
    {
        self.catalog = Some((docs, fetched_at));
    }

    /// Every entry of every installed set, tagged with its set.
    pub closed spec fn searchable(&self) -> Seq<SearchableEntry> {
        entries_of(self.slugs@, self.docs@)
    }

    proof fn lemma_searchable_installed(&self, e: SearchableEntry)
        requires
            self.wf(),
            self.searchable().contains(e),
        ensures
            self.has(e.doc_slug@),
            e.doc_name == self.record(e.doc_slug@).doc.name,
            self.record(e.doc_slug@).index.entries@.contains(e.entry),
    {
        lemma_entries_of_slugs(self.slugs@, self.docs@, e);
        let k = choose|k: int|
            0 <= k < self.slugs@.len() && k < self.docs@.len() && self.slugs@[k] == e.doc_slug
                && tag_entries(self.slugs@[k], self.docs@[k]).contains(e);
        self.lemma_record_at(k);
        let t = tag_entries(self.slugs@[k], self.docs@[k]);
        let j = t.index_of(e);
        assert(self.docs@[k].index.entries@[j] == e.entry);
    }

    /// Copies out every installed entry, tagged with its set.
    pub fn snapshot(&self) -> (r: Vec<SearchableEntry>)
        requires
            self.wf(),
        ensures
            r@ == self.searchable(),
    {
        let mut r: Vec<SearchableEntry> = Vec::new();
        let mut i: usize = 0;
        while i < self.slugs.len()
            invariant
                self.wf(),
                i <= self.slugs@.len(),
                r@ == entries_of(self.slugs@.take(i as int), self.docs@.take(i as int)),
            decreases self.slugs@.len() - i,
        {
            let ghost base = r@;
            let slug = &self.slugs[i];
            let doc = &self.docs[i];
            let ghost t = tag_entries(*slug, *doc);
            let mut j: usize = 0;
            while j < doc.index.entries.len()
                invariant
                    j <= doc.index.entries@.len(),
                    t == tag_entries(*slug, *doc),
                    r@ == base + t.take(j as int),
                decreases doc.index.entries@.len() - j,
            {
                r.push(
                    SearchableEntry {
                        entry: doc.index.entries[j].copy(),
                        doc_slug: slug.clone(),
                        doc_name: doc.doc.name.clone(),
                    },
                );
                j = j + 1;
                assert(r@ =~= base + t.take(j as int));
            }
            proof {
                assert(t.take(j as int) =~= t);
                assert(self.slugs@.take(i + 1).drop_last() =~= self.slugs@.take(i as int));
                assert(self.docs@.take(i + 1).drop_last() =~= self.docs@.take(i as int));
            }
            i = i + 1;
        }
        proof {
            assert(self.slugs@.take(i as int) =~= self.slugs@);
            assert(self.docs@.take(i as int) =~= self.docs@);
        }
        r
    }

    /// Searches every installed entry for `query`: the best `limit` entries that score
    /// at least `min_score`, best first. With nothing installed, nothing is scored.
    pub fn search_with_min_score(&self, query: &str, limit: usize, min_score: u16) -> (r: Vec<
        SearchResult,
    >)
        requires
            self.wf(),
        ensures
            r@.len() <= limit,
            r@.len() == min_nat(
                limit as nat,
                eligible_count(scored(self.searchable(), query@), min_score),
            ),
            sorted_by_score(r@),
            r@.to_multiset().subset_of(scored(self.searchable(), query@).to_multiset()),
            exists|positions: Seq<int>|
                ranked_positions(r@, scored(self.searchable(), query@), positions),
            forall|i: int|
                0 <= i < r@.len() ==> (#[trigger] r@[i]).score >= min_score && r@[i].score
                    == score_of(r@[i].entry, folded(query@)) && self.searchable().contains(r@[i].entry)
                    && self.has(r@[i].entry.doc_slug@),
            forall|k: int|
                0 <= k < self.searchable().len() && score_of(
                    #[trigger] self.searchable()[k],
                    folded(query@),
                ) >= min_score ==> kept_or_outranked(
                    r@,
                    SearchResult { entry: self.searchable()[k], score: score_of(self.searchable()[k], folded(query@)) },
                    limit as nat,
                ),
            self.installed().len() == 0 ==> r@.len() == 0,
    {
        if self.slugs.len() == 0 {
            proof {
                assert(scored(self.searchable(), query@) =~= Seq::<SearchResult>::empty());
                assert(ranked_positions(
                    Seq::<SearchResult>::empty(),
                    scored(self.searchable(), query@),
                    Seq::<int>::empty(),
                ));
            }
            return Vec::new();
        }
        let entries = self.snapshot();
        let results = score_entries(&entries, query);
        proof {
            assert(results@ =~= scored(self.searchable(), query@));
        }
        let r = rank_results(results, limit, min_score);
        proof {
            assert forall|i: int| 0 <= i < r@.len() implies (#[trigger] r@[i]).score >= min_score
                && r@[i].score == score_of(r@[i].entry, folded(query@)) && self.searchable().contains(
                r@[i].entry,
            ) && self.has(r@[i].entry.doc_slug@) by {
                let k = results@.index_of(r@[i]);
                assert(self.searchable()[k] == r@[i].entry);
                self.lemma_searchable_installed(r@[i].entry);
            }
            assert forall|k: int|
                0 <= k < self.searchable().len() && score_of(
                    #[trigger] self.searchable()[k],
                    folded(query@),
                ) >= min_score implies kept_or_outranked(
                r@,
                SearchResult { entry: self.searchable()[k], score: score_of(self.searchable()[k], folded(query@)) },
                limit as nat,
            ) by {
                assert(results@[k].score >= min_score);
            }
        }
        r
    }

    /// Searches every installed entry for `query`, keeping at most `limit` results
    /// (`DEFAULT_SEARCH_LIMIT` when none is given), best first; equal scores keep the
    /// order of the snapshot: sets in order of installation, entries in index order.
    pub fn search(&self, query: &str, limit: Option<usize>) -> (r: Vec<SearchResult>)
        requires
            self.wf(),
        ensures
            r@.len() == min_nat(
                (match limit {
                    Some(l) => l,
                    None => DEFAULT_SEARCH_LIMIT,
                }) as nat,
                eligible_count(scored(self.searchable(), query@), 0),
            ),
            r@.len() <= match limit {
                Some(l) => l,
                None => DEFAULT_SEARCH_LIMIT,
            },
            r@.len() == min_nat(
                (match limit {
                    Some(l) => l,
                    None => DEFAULT_SEARCH_LIMIT,
                }) as nat,
                self.searchable().len(),
            ),
            sorted_by_score(r@),
            r@.to_multiset().subset_of(scored(self.searchable(), query@).to_multiset()),
            exists|positions: Seq<int>|
                ranked_positions(r@, scored(self.searchable(), query@), positions),
            forall|i: int|
                0 <= i < r@.len() ==> (#[trigger] r@[i]).score == score_of(r@[i].entry, folded(query@))
                    && self.searchable().contains(r@[i].entry) && self.has(
                    r@[i].entry.doc_slug@,
                ),
            forall|k: int|
                0 <= k < self.searchable().len() ==> kept_or_outranked(
                    r@,
                    SearchResult {
                        entry: #[trigger] self.searchable()[k],
                        score: score_of(self.searchable()[k], folded(query@)),
                    },
                    (match limit {
                        Some(l) => l,
                        None => DEFAULT_SEARCH_LIMIT,
                    }) as nat,
                ),
            self.installed().len() == 0 ==> r@.len() == 0,
    {
        let limit = match limit {
            Some(l) => l,
            None => DEFAULT_SEARCH_LIMIT,
        };
        proof {
            lemma_all_eligible(scored(self.searchable(), query@));
        }
        self.search_with_min_score(query, limit, 0)
    }

    /// The slugs of the sets of `catalog` that are not installed, in catalog order.
    pub fn docs_to_download(&self, catalog: &Vec<Doc>) -> (r: Vec<String>)
        requires
            self.wf(),
        ensures
            r@.map_values(|s: String| s@) == pending_slugs(catalog@, self.installed()),
    {
        let mut r: Vec<String> = Vec::new();
        let mut i: usize = 0;
        while i < catalog.len()
            invariant
                self.wf(),
                i <= catalog@.len(),
                r@.map_values(|s: String| s@) == pending_slugs(
                    catalog@.take(i as int),
                    self.installed(),
                ),
            decreases catalog@.len() - i,
        {
            let ghost before = r@.map_values(|s: String| s@);
            proof {
                assert(catalog@.take(i + 1).drop_last() =~= catalog@.take(i as int));
            }
            if !self.is_doc_installed(catalog[i].slug.as_str()) {
                r.push(catalog[i].slug.clone());
                assert(r@.map_values(|s: String| s@) =~= before + seq![catalog@[i as int].slug@]);
            } else {
                assert(before + Seq::<Seq<char>>::empty() =~= before);
            }
            i = i + 1;
        }
        assert(catalog@.take(i as int) =~= catalog@);
        r
    }

    /// Replaces the record installed under `slug` with `doc`, fetched beforehand, so the
    /// set is never absent; fails, changing nothing, when none is installed under it.
    pub fn update_record(&mut self, slug: &str, doc: CachedDoc) -> (r: Result<(), DevDocsError>)
        requires
            old(self).wf(),
        ensures
            final(self).wf(),
            r is Ok <==> old(self).has(slug@),
            r is Err ==> *final(self) == *old(self),
            r is Err ==> (match r {
                Err(DevDocsError::DocNotFound(s)) => s@ == slug@,
                _ => false,
            }),
            forall|s: Seq<char>| #[trigger] final(self).has(s) == old(self).has(s),
            r is Ok ==> final(self).record(slug@) == doc,
            forall|s: Seq<char>|
                s != slug@ && #[trigger] old(self).has(s) ==> final(self).record(s) == old(
                    self,
                ).record(s),
            final(self).catalog() == old(self).catalog(),
    {
        match self.find(slug) {
            None => Err(DevDocsError::DocNotFound(slug.to_owned())),
            Some(i) => {
                let ghost pre = *self;
                self.docs.set(i, doc);
                proof {
                    assert(self.installed() =~= pre.installed());
                    self.lemma_record_at(i as int);
                    assert forall|s: Seq<char>| s != slug@ && #[trigger] pre.has(s) implies self.record(s) == pre.record(s) by {
                        let k = pre.lemma_has_index(s);
                        self.lemma_record_at(k);
                    }
                }
                Ok(())
            },
        }
    }
}


/// Once no set is installed under `slug`, no entry that a search can return carries it.
pub proof fn lemma_removed_slug_unsearchable(store: DocStore, slug: Seq<char>)
    requires
        store.wf(),
        !store.has(slug),
    ensures
        forall|e: SearchableEntry| #[trigger] store.searchable().contains(e) ==> e.doc_slug@ != slug,
{
    assert forall|e: SearchableEntry| #[trigger] store.searchable().contains(e) implies e.doc_slug@
        != slug by {
        store.lemma_searchable_installed(e);
    }
}

/// Every entry a search can return is an entry of an installed set, tagged with that
/// set's slug and display name.
pub proof fn lemma_searchable_entry(store: DocStore, e: SearchableEntry)
    requires
        store.wf(),
        store.searchable().contains(e),
    ensures
        store.has(e.doc_slug@),
        e.doc_name == store.record(e.doc_slug@).doc.name,
        store.record(e.doc_slug@).index.entries@.contains(e.entry),
{
    store.lemma_searchable_installed(e);
}

/// A catalog fetched at `fetched_at` is served from the store at `now` exactly when
/// less than `CACHE_DURATION_SECS` have passed; otherwise a refresh is due.
pub proof fn lemma_catalog_served_within_ttl(
    store: DocStore,
    docs: Seq<Doc>,
    fetched_at: u64,
    now: u64,
)
    requires
        store.catalog() == Some((docs, fetched_at)),
    ensures
        store.serves_cached(now) <==> (now as int) - (fetched_at as int)
            < CACHE_DURATION_SECS as int,
{
}

/// A store that never fetched a catalog serves none from memory.
pub proof fn lemma_catalog_never_fetched(store: DocStore, now: u64)
    requires
        store.catalog() is None,
    ensures
        !store.serves_cached(now),
{
}

/// A copy of a list of sets.
pub fn copy_docs(docs: &Vec<Doc>) -> (r: Vec<Doc>)
    ensures
        r@ == docs@,
{
    let mut r: Vec<Doc> = Vec::new();
    let mut i: usize = 0;
    while i < docs.len()
        invariant
            i <= docs@.len(),
            r@ == docs@.take(i as int),
        decreases docs@.len() - i,
    {
        r.push(docs[i].copy());
        i = i + 1;
        assert(r@ =~= docs@.take(i as int));
    }
    assert(docs@.take(i as int) =~= docs@);
    r
}

} // verus!

//! The viewer's document registry and its cache of rendered pages, kept in
//! least-recently-used order and bounded in size.

use vstd::prelude::*;

verus! {

/// Identifies an open document.
#[derive(Debug, Clone, Copy, PartialEq, Eq, Structural)]
pub struct DocumentId(pub u64);

/// Cache key: document, page index, quantized zoom percentage.
#[derive(Debug, Clone, Copy, PartialEq, Eq, Structural)]
pub struct CacheKey {
    pub doc: DocumentId,
    pub page: usize,
    pub zoom: u32,
}

/// A rendered page.
#[derive(Debug)]
pub struct CachedPage {
    pub rgba_data: Vec<u8>,
    pub width: usize,
    pub height: usize,
}

/// A document source: a file path, or PDF bytes in memory.
#[derive(Debug, Clone)]
pub enum DocumentSource {
    File(String),
    Bytes(Vec<u8>),
}

/// The most pages kept in the cache.
pub const MAX_CACHED_PAGES: usize = 50;

/// No key occurs twice.
pub open spec fn distinct_keys<K, V>(entries: Seq<(K, V)>) -> bool {
    forall|i: int, j: int| 0 <= i < j < entries.len() ==> entries[i].0 != entries[j].0
}

/// The value stored for `key`.
pub open spec fn lookup<K, V>(entries: Seq<(K, V)>, key: K) -> Option<V>
    decreases entries.len(),
{
    if entries.len() == 0 {
        None
    } else if entries.last().0 == key {
        Some(entries.last().1)
    } else {
        lookup(entries.drop_last(), key)
    }
}

/// The entries other than the one for `key`, in order.
pub open spec fn without_key<K, V>(entries: Seq<(K, V)>, key: K) -> Seq<(K, V)>
    decreases entries.len(),
{
    if entries.len() == 0 {
        seq![]
    } else if entries.last().0 != key {
        without_key(entries.drop_last(), key).push(entries.last())
    } else {
        without_key(entries.drop_last(), key)
    }
}

/// The entries that do not belong to document `doc`, in order.
pub open spec fn without_doc<V>(entries: Seq<(CacheKey, V)>, doc: DocumentId) -> Seq<(CacheKey, V)>
    decreases entries.len(),
{
    if entries.len() == 0 {
        seq![]
    } else if entries.last().0.doc != doc {
        without_doc(entries.drop_last(), doc).push(entries.last())
    } else {
        without_doc(entries.drop_last(), doc)
    }
}

/// The cache after storing `page` under `key`: the key's old entry dropped,
/// the least recently used entries evicted until there is room, and the new
/// entry last (most recently used).
pub open spec fn cache_after_add(
    entries: Seq<(CacheKey, CachedPage)>,
    key: CacheKey,
    page: CachedPage,
) -> Seq<(CacheKey, CachedPage)> {
    let kept = without_key(entries, key);
    let evict = if kept.len() >= MAX_CACHED_PAGES {
        kept.len() - MAX_CACHED_PAGES + 1
    } else {
        0
    };
    kept.skip(evict).push((key, page))
}

/// The cache after reading `key`: its entry moves last.
pub open spec fn cache_after_use(entries: Seq<(CacheKey, CachedPage)>, key: CacheKey) -> Seq<
    (CacheKey, CachedPage),
> {
    match lookup(entries, key) {
        Some(p) => without_key(entries, key).push((key, p)),
        None => entries,
    }
}

/// The cache's zoom step for a zoom of `percent`: clamped to 25..=400, then
/// rounded to the nearest multiple of 25 up to 100 and of 50 above it (halves
/// round up).
pub open spec fn zoom_step(percent: int) -> int {
    let p = if percent < 25 {
        25
    } else if percent > 400 {
        400
    } else {
        percent
    };
    if p <= 100 {
        (p + 12) / 25 * 25
    } else {
        (p + 25) / 50 * 50
    }
}

/// Quantizes a zoom percentage to the cache's zoom steps, so that nearby
/// zoom levels share rendered pages.
pub fn quantize_percent(percent: i32) -> (r: u32)
    ensures
        r == zoom_step(percent as int),
        25 <= r <= 400,
{
    let p: i32 = if percent < 25 {
        25
    } else if percent > 400 {
        400
    } else {
        percent
    };
    if p <= 100 {
        ((p + 12) / 25 * 25) as u32
    } else {
        ((p + 25) / 50 * 50) as u32
    }
}

proof fn lemma_round_to_step(p: int, step: int)
    requires
        step == 25 || step == 50,
        p >= 0,
    ensures
        (p + step / 2) / step * step <= p + step / 2,
        (p + step / 2) / step * step > p + step / 2 - step,
        ((p + step / 2) / step * step + step / 2) / step * step == (p + step / 2) / step * step,
{
    let q = (p + step / 2) / step;
    assert(q * step <= p + step / 2 < q * step + step) by (nonlinear_arith)
        requires
            q == (p + step / 2) / step,
            step > 0,
            p >= 0,
    ;
    assert((q * step + step / 2) / step == q) by (nonlinear_arith)
        requires
            step == 25 || step == 50,
            q >= 0,
    ;
}

/// Quantizing an already quantized zoom changes nothing, and a larger zoom
/// never gets a smaller step.
pub proof fn zoom_steps_are_stable_and_ordered(p: int, q: int)
    ensures
        zoom_step(zoom_step(p)) == zoom_step(p),
        p <= q ==> zoom_step(p) <= zoom_step(q),
{
    let cp = if p < 25 { 25 } else if p > 400 { 400 } else { p };
    let cq = if q < 25 { 25 } else if q > 400 { 400 } else { q };
    let sp: int = if cp <= 100 { 25 } else { 50 };
    let sq: int = if cq <= 100 { 25 } else { 50 };
    lemma_round_to_step(cp, sp);
    lemma_round_to_step(cq, sq);
    let r = zoom_step(p);
    assert(25 <= r <= 400);
    lemma_round_to_step(r, if r <= 100 { 25 } else { 50 });
}

/// The pages worth rendering ahead once `page` is shown, in this order: the
/// one before it, the one after it, and the one after that, each only where
/// it exists (`total` pages).
pub open spec fn neighbours(page: nat, total: nat) -> Seq<usize> {
    let before: Seq<usize> = if page > 0 {
        seq![(page - 1) as usize]
    } else {
        seq![]
    };
    let next: Seq<usize> = if page + 1 < total {
        before.push((page + 1) as usize)
    } else {
        before
    };
    if page + 2 < total {
        next.push((page + 2) as usize)
    } else {
        next
    }
}

/// The pages to prefetch after `page_index` was rendered, for smoother
/// navigation in both directions and two pages ahead.
pub fn prefetch_neighbours(page_index: usize, total_pages: usize) -> (r: Vec<usize>)
    requires
        page_index + 2 <= usize::MAX,
    ensures
        r@ == neighbours(page_index as nat, total_pages as nat),
{
    let mut pages: Vec<usize> = Vec::new();
    if page_index > 0 {
        pages.push(page_index - 1);
    }
    if page_index + 1 < total_pages {
        pages.push(page_index + 1);
    }
    if page_index + 2 < total_pages {
        pages.push(page_index + 2);
    }
    pages
}

/// The viewer's documents and page cache. Both are vectors of pairs, the
/// cache in least-recently-used order, rather than a `HashMap` with a
/// `VecDeque`: vstd's `HashMap` contracts hold only for key types with its key
/// model, which it grants to integer and `bool` keys, not to a key made of a
/// document id, a page and a zoom, so such a map would leave the cache's
/// contracts unproved.
pub struct ViewerState {
    documents: Vec<(DocumentId, DocumentSource)>,
    pages: Vec<(CacheKey, CachedPage)>,
    next_doc_id: u64,
}

impl ViewerState {
    /// The registered documents, without repeats.
    pub closed spec fn documents(&self) -> Seq<(DocumentId, DocumentSource)> {
        self.documents@
    }

    /// The cached pages, least recently used first.
    pub closed spec fn cache(&self) -> Seq<(CacheKey, CachedPage)> {
        self.pages@
    }

    /// The id the next document gets.
    pub closed spec fn next_id_value(&self) -> u64 {
        self.next_doc_id
    }

    /// Keys are unique and the cache is bounded.
    pub open spec fn wf(&self) -> bool {
        &&& distinct_keys(self.documents())
        &&& distinct_keys(self.cache())
        &&& self.cache().len() <= MAX_CACHED_PAGES
    }

    /// No documents, an empty cache, ids from 0.
    pub fn new() -> (r: Self)
        ensures
            r.wf(),
            r.documents().len() == 0,
            r.cache().len() == 0,
            r.next_id_value() == 0,
    {
        ViewerState { documents: Vec::new(), pages: Vec::new(), next_doc_id: 0 }
    }

    /// A fresh document id (ids count up, wrapping).
    pub fn next_id(&mut self) -> (id: DocumentId)
        ensures
            id == DocumentId(old(self).next_id_value()),
            final(self).next_id_value() == vstd::wrapping::u64_specs::wrapping_add(
                old(self).next_id_value(),
                1,
            ),
            final(self).documents() == old(self).documents(),
            final(self).cache() == old(self).cache(),
    {
        let id = DocumentId(self.next_doc_id);
        self.next_doc_id = self.next_doc_id.wrapping_add(1);
        id
    }

    /// Registers (or replaces) the source of a document.
    fn put_document(&mut self, doc_id: DocumentId, source: DocumentSource)
        requires
            old(self).wf(),
        ensures
            final(self).wf(),
            final(self).documents() == without_key(old(self).documents(), doc_id).push(
                (doc_id, source),
            ),
            final(self).cache() == old(self).cache(),
            final(self).next_id_value() == old(self).next_id_value(),
    {
        let ghost before = self.documents@;
        let mut kept: Vec<(DocumentId, DocumentSource)> = Vec::new();
        let mut old_docs = Vec::new();
        std::mem::swap(&mut old_docs, &mut self.documents);
        let n = old_docs.len();
        let mut i: usize = 0;
        while old_docs.len() > 0
            invariant
                before == old(self).documents@,
                n == before.len(),
                old_docs@ == before.skip(i as int),
                i <= n,
                i + old_docs@.len() == n,
                kept@ == without_key(before.take(i as int), doc_id),
            decreases old_docs@.len(),
        {
            let e = old_docs.remove(0);
            proof {
                assert(e == before[i as int]);
                assert(old_docs@ =~= before.skip(i + 1));
                assert(before.take(i + 1).drop_last() =~= before.take(i as int));
                assert(before.take(i + 1).last() == e);
            }
            if e.0 != doc_id {
                kept.push(e);
            }
            i = i + 1;
        }
        proof {
            assert(before.take(before.len() as int) =~= before);
        }
        let ghost w = kept@;
        kept.push((doc_id, source));
        self.documents = kept;
        proof {
            lemma_without_key(before, doc_id);
            assert forall|a: int, b: int| 0 <= a < b < self.documents@.len() implies self.documents@[a].0
                != self.documents@[b].0 by {
                if b == w.len() {
                    assert(w[a].0 != doc_id);
                } else {
                    assert(self.documents@[a] == w[a]);
                    assert(self.documents@[b] == w[b]);
                }
            }
        }
    }

    /// Registers a document read from a file.
    pub fn add_document(&mut self, doc_id: DocumentId, path: String)
        requires
            old(self).wf(),
        ensures
            final(self).wf(),
            final(self).documents() == without_key(old(self).documents(), doc_id).push(
                (doc_id, DocumentSource::File(path)),
            ),
            final(self).cache() == old(self).cache(),
            final(self).next_id_value() == old(self).next_id_value(),
    {
        self.put_document(doc_id, DocumentSource::File(path));
    }

    /// Registers a document held in memory.
    pub fn add_document_bytes(&mut self, doc_id: DocumentId, bytes: Vec<u8>)
        requires
            old(self).wf(),
        ensures
            final(self).wf(),
            final(self).documents() == without_key(old(self).documents(), doc_id).push(
                (doc_id, DocumentSource::Bytes(bytes)),
            ),
            final(self).cache() == old(self).cache(),
            final(self).next_id_value() == old(self).next_id_value(),
    {
        self.put_document(doc_id, DocumentSource::Bytes(bytes));
    }

    /// The source of a registered document.
    pub fn get_document(&self, doc_id: DocumentId) -> (r: Option<&DocumentSource>)
        ensures
            match lookup(self.documents(), doc_id) {
                Some(s) => r matches Some(x) && *x == s,
                None => r is None,
            },
    {
        let mut k = self.documents.len();
        proof {
            assert(self.documents@.take(k as int) =~= self.documents@);
        }
        while k > 0
            invariant
                k <= self.documents@.len(),
                lookup(self.documents@, doc_id) == lookup(self.documents@.take(k as int), doc_id),
            decreases k,
        {
            proof {
                assert(self.documents@.take(k as int).drop_last() =~= self.documents@.take(k - 1));
            }
            if self.documents[k - 1].0 == doc_id {
                return Some(&self.documents[k - 1].1);
            }
            k = k - 1;
        }
        proof {
            assert(self.documents@.take(0) =~= Seq::<(DocumentId, DocumentSource)>::empty());
        }
        None
    }
}

impl ViewerState {
    /// Takes out the entries other than `key`'s, in order; returns them and
    /// the entry for `key`, if any.
    fn split_out(&mut self, key: CacheKey) -> (r: (Vec<(CacheKey, CachedPage)>, Option<CachedPage>))
        requires
            distinct_keys(old(self).cache()),
        ensures
            r.0@ == without_key(old(self).cache(), key),
            r.1 == lookup(old(self).cache(), key),
            final(self).cache().len() == 0,
            final(self).documents() == old(self).documents(),
            final(self).next_id_value() == old(self).next_id_value(),
    {
        let ghost before = self.pages@;
        let mut old_pages = Vec::new();
        std::mem::swap(&mut old_pages, &mut self.pages);
        let mut kept: Vec<(CacheKey, CachedPage)> = Vec::new();
        let mut found: Option<CachedPage> = None;
        let n = old_pages.len();
        let mut i: usize = 0;
        while old_pages.len() > 0
            invariant
                before == old(self).pages@,
                distinct_keys(before),
                n == before.len(),
                old_pages@ == before.skip(i as int),
                i <= n,
                i + old_pages@.len() == n,
                kept@ == without_key(before.take(i as int), key),
                found == lookup(before.take(i as int), key),
                self.pages@.len() == 0,
                self.documents@ == old(self).documents@,
                self.next_doc_id == old(self).next_doc_id,
            decreases old_pages@.len(),
        {
            let e = old_pages.remove(0);
            proof {
                assert(e == before[i as int]);
                assert(old_pages@ =~= before.skip(i + 1));
                assert(before.take(i + 1).drop_last() =~= before.take(i as int));
                assert(before.take(i + 1).last() == e);
            }
            if e.0 == key {
                found = Some(e.1);
            } else {
                kept.push(e);
            }
            i = i + 1;
        }
        proof {
            assert(before.take(n as int) =~= before);
        }
        (kept, found)
    }

    /// Stores a rendered page, most recently used; the least recently used
    /// pages are evicted to stay within [`MAX_CACHED_PAGES`].
    pub fn add_to_cache(&mut self, key: CacheKey, page: CachedPage)
        requires
            old(self).wf(),
        ensures
            final(self).wf(),
            final(self).cache() == cache_after_add(old(self).cache(), key, page),
            final(self).documents() == old(self).documents(),
            final(self).next_id_value() == old(self).next_id_value(),
    {
        let ghost before = self.pages@;
        let (mut kept, _) = self.split_out(key);
        let ghost w = kept@;
        proof {
            lemma_without_key(before, key);
        }
        let total = kept.len();
        let mut m: usize = 0;
        while kept.len() >= MAX_CACHED_PAGES
            invariant
                kept@ == w.skip(m as int),
                m <= w.len(),
                total == w.len(),
                m > 0 ==> w.len() - m >= MAX_CACHED_PAGES - 1,
                w == without_key(before, key),
            decreases kept@.len(),
        {
            kept.remove(0);
            proof {
                assert(kept@ =~= w.skip(m + 1));
            }
            m = m + 1;
        }
        proof {
            assert(m == if w.len() >= MAX_CACHED_PAGES {
                w.len() - MAX_CACHED_PAGES + 1
            } else {
                0
            });
        }
        let ghost rest = kept@;
        kept.push((key, page));
        self.pages = kept;
        proof {
            assert forall|a: int, b: int| 0 <= a < b < self.pages@.len() implies self.pages@[a].0
                != self.pages@[b].0 by {
                assert(rest[a] == w[a + m]);
                if b == rest.len() {
                    assert(w[a + m].0 != key);
                } else {
                    assert(rest[b] == w[b + m]);
                }
            }
        }
    }

    /// A cached page, which becomes the most recently used.
    pub fn get_from_cache(&mut self, key: &CacheKey) -> (r: Option<&CachedPage>)
        requires
            old(self).wf(),
        ensures
            final(self).wf(),
            final(self).cache() == cache_after_use(old(self).cache(), *key),
            match lookup(old(self).cache(), *key) {
                Some(p) => r matches Some(x) && *x == p,
                None => r is None,
            },
            final(self).documents() == old(self).documents(),
            final(self).next_id_value() == old(self).next_id_value(),
    {
        let ghost before = self.pages@;
        proof {
            lemma_without_key(before, *key);
        }
        let (kept, found) = self.split_out(*key);
        let ghost w = kept@;
        self.pages = kept;
        match found {
            Some(p) => {
                self.pages.push((*key, p));
                proof {
                    lemma_lookup_len(before, *key);
                    assert forall|a: int, b: int| 0 <= a < b < self.pages@.len() implies self.pages@[a].0
                        != self.pages@[b].0 by {
                        if b == w.len() {
                            assert(w[a].0 != *key);
                        }
                    }
                }
                let n = self.pages.len();
                Some(&self.pages[n - 1].1)
            },
            None => {
                proof {
                    lemma_without_key_absent(before, *key);
                }
                None
            },
        }
    }

    /// Forgets a document and every cached page of it.
    pub fn remove_document(&mut self, doc_id: DocumentId)
        requires
            old(self).wf(),
        ensures
            final(self).wf(),
            final(self).documents() == without_key(old(self).documents(), doc_id),
            final(self).cache() == without_doc(old(self).cache(), doc_id),
            final(self).next_id_value() == old(self).next_id_value(),
    {
        let ghost docs = self.documents@;
        let mut old_docs = Vec::new();
        std::mem::swap(&mut old_docs, &mut self.documents);
        let mut kept_docs: Vec<(DocumentId, DocumentSource)> = Vec::new();
        let n = old_docs.len();
        let mut i: usize = 0;
        while old_docs.len() > 0
            invariant
                n == docs.len(),
                old_docs@ == docs.skip(i as int),
                i <= n,
                i + old_docs@.len() == n,
                kept_docs@ == without_key(docs.take(i as int), doc_id),
            decreases old_docs@.len(),
        {
            let e = old_docs.remove(0);
            proof {
                assert(e == docs[i as int]);
                assert(old_docs@ =~= docs.skip(i + 1));
                assert(docs.take(i + 1).drop_last() =~= docs.take(i as int));
                assert(docs.take(i + 1).last() == e);
            }
            if e.0 != doc_id {
                kept_docs.push(e);
            }
            i = i + 1;
        }
        proof {
            assert(docs.take(n as int) =~= docs);
            lemma_without_key(docs, doc_id);
        }
        self.documents = kept_docs;
        let ghost pages = self.pages@;
        let mut old_pages = Vec::new();
        std::mem::swap(&mut old_pages, &mut self.pages);
        let mut kept: Vec<(CacheKey, CachedPage)> = Vec::new();
        let n2 = old_pages.len();
        let mut j: usize = 0;
        while old_pages.len() > 0
            invariant
                n2 == pages.len(),
                old_pages@ == pages.skip(j as int),
                j <= n2,
                j + old_pages@.len() == n2,
                kept@ == without_doc(pages.take(j as int), doc_id),
            decreases old_pages@.len(),
        {
            let e = old_pages.remove(0);
            proof {
                assert(e == pages[j as int]);
                assert(old_pages@ =~= pages.skip(j + 1));
                assert(pages.take(j + 1).drop_last() =~= pages.take(j as int));
                assert(pages.take(j + 1).last() == e);
            }
            if e.0.doc != doc_id {
                kept.push(e);
            }
            j = j + 1;
        }
        proof {
            assert(pages.take(n2 as int) =~= pages);
            lemma_without_doc(pages, doc_id);
        }
        self.pages = kept;
    }
}

/// Without the key, the entries are the same ones when the key was absent.
proof fn lemma_without_key_absent<K, V>(entries: Seq<(K, V)>, key: K)
    requires
        lookup(entries, key) is None,
    ensures
        without_key(entries, key) == entries,
    decreases entries.len(),
{
    if entries.len() > 0 {
        lemma_without_key_absent(entries.drop_last(), key);
        assert(entries.drop_last().push(entries.last()) =~= entries);
    }
}

/// A page just stored reads back; the cache stays within its bound and
/// without repeated keys, and the pages it keeps besides are the most
/// recently used ones, in order.
pub proof fn stored_page_reads_back(
    entries: Seq<(CacheKey, CachedPage)>,
    key: CacheKey,
    page: CachedPage,
)
    requires
        distinct_keys(entries),
        entries.len() <= MAX_CACHED_PAGES,
    ensures
        lookup(cache_after_add(entries, key, page), key) == Some(page),
        cache_after_add(entries, key, page).len() <= MAX_CACHED_PAGES,
        distinct_keys(cache_after_add(entries, key, page)),
        ({
            let kept = without_key(entries, key);
            let c = cache_after_add(entries, key, page);
            c.drop_last() == kept.skip(kept.len() - (c.len() - 1))
        }),
{
    lemma_without_key(entries, key);
    let w = without_key(entries, key);
    let c = cache_after_add(entries, key, page);
    let m = if w.len() >= MAX_CACHED_PAGES {
        w.len() - MAX_CACHED_PAGES + 1
    } else {
        0
    };
    assert(c.drop_last() =~= w.skip(m));
    assert forall|a: int, b: int| 0 <= a < b < c.len() implies c[a].0 != c[b].0 by {
        assert(c[a] == w[a + m]);
        if b == c.len() - 1 {
            assert(w[a + m].0 != key);
        } else {
            assert(c[b] == w[b + m]);
        }
    }
}

/// Reading a page moves it last and returns what was stored.
pub proof fn reading_a_page_makes_it_most_recent(entries: Seq<(CacheKey, CachedPage)>, key: CacheKey)
    requires
        distinct_keys(entries),
        lookup(entries, key) is Some,
    ensures
        cache_after_use(entries, key).last() == (key, lookup(entries, key)->Some_0),
        cache_after_use(entries, key).len() == entries.len(),
        lookup(cache_after_use(entries, key), key) == lookup(entries, key),
{
    lemma_without_key(entries, key);
    lemma_lookup_len(entries, key);
}

proof fn lemma_lookup_len<K, V>(entries: Seq<(K, V)>, key: K)
    requires
        distinct_keys(entries),
        lookup(entries, key) is Some,
    ensures
        without_key(entries, key).len() == entries.len() - 1,
    decreases entries.len(),
{
    let d = entries.drop_last();
    assert(distinct_keys(d)) by {
        assert forall|a: int, b: int| 0 <= a < b < d.len() implies d[a].0 != d[b].0 by {
            assert(d[a] == entries[a]);
            assert(d[b] == entries[b]);
        }
    }
    if entries.last().0 == key {
        assert(lookup(d, key) is None) by {
            if lookup(d, key) is Some {
                lemma_lookup_found(d, key);
                let j = choose|j: int| 0 <= j < d.len() && d[j].0 == key;
                assert(entries[j] == d[j]);
                assert(entries[entries.len() - 1] == entries.last());
            }
        }
        lemma_without_key_absent(d, key);
    } else {
        lemma_lookup_len(d, key);
    }
}

proof fn lemma_lookup_found<K, V>(entries: Seq<(K, V)>, key: K)
    requires
        lookup(entries, key) is Some,
    ensures
        exists|j: int| 0 <= j < entries.len() && entries[j].0 == key,
    decreases entries.len(),
{
    if entries.last().0 == key {
        assert(entries[entries.len() - 1] == entries.last());
    } else {
        lemma_lookup_found(entries.drop_last(), key);
        let j = choose|j: int| 0 <= j < entries.drop_last().len() && entries.drop_last()[j].0 == key;
        assert(entries[j] == entries.drop_last()[j]);
    }
}

/// After a document is forgotten, no cached page of it remains.
pub proof fn forgotten_documents_leave_no_pages(
    entries: Seq<(CacheKey, CachedPage)>,
    doc: DocumentId,
)
    ensures
        forall|i: int|
            0 <= i < without_doc(entries, doc).len() ==> #[trigger] without_doc(entries, doc)[i].0.doc
                != doc,
{
    lemma_without_doc(entries, doc);
}

/// Dropping a key keeps the other entries, in order and without repeats.
proof fn lemma_without_key<K, V>(entries: Seq<(K, V)>, key: K)
    ensures
        without_key(entries, key).len() <= entries.len(),
        forall|i: int|
            0 <= i < without_key(entries, key).len() ==> #[trigger] without_key(entries, key)[i].0
                != key,
        forall|i: int|
            0 <= i < without_key(entries, key).len() ==> exists|j: int|
                0 <= j < entries.len() && entries[j] == #[trigger] without_key(entries, key)[i],
        distinct_keys(entries) ==> distinct_keys(without_key(entries, key)),
        forall|x: K| x != key ==> #[trigger] lookup(without_key(entries, key), x) == lookup(entries, x),
        lookup(without_key(entries, key), key) is None,
    decreases entries.len(),
{
    if entries.len() > 0 {
        let d = entries.drop_last();
        lemma_without_key(d, key);
        let w = without_key(d, key);
        assert forall|i: int| 0 <= i < without_key(entries, key).len() implies exists|j: int|
            0 <= j < entries.len() && entries[j] == #[trigger] without_key(entries, key)[i] by {
            if entries.last().0 != key && i == w.len() {
                assert(entries[entries.len() - 1] == entries.last());
            } else {
                let j = choose|j: int| 0 <= j < d.len() && d[j] == w[i];
                assert(entries[j] == d[j]);
            }
        }
        if distinct_keys(entries) {
            assert(distinct_keys(d)) by {
                assert forall|a: int, b: int| 0 <= a < b < d.len() implies d[a].0 != d[b].0 by {
                    assert(d[a] == entries[a]);
                    assert(d[b] == entries[b]);
                }
            }
            if entries.last().0 != key {
                assert forall|a: int, b: int|
                    0 <= a < b < without_key(entries, key).len() implies without_key(
                    entries,
                    key,
                )[a].0 != without_key(entries, key)[b].0 by {
                    if b == w.len() {
                        let j = choose|j: int| 0 <= j < d.len() && d[j] == w[a];
                        assert(entries[j] == d[j]);
                        assert(entries[entries.len() - 1] == entries.last());
                    }
                }
            }
        }
        assert forall|x: K| x != key implies #[trigger] lookup(without_key(entries, key), x) == lookup(
            entries,
            x,
        ) by {
            assert(lookup(w, x) == lookup(d, x));
            if entries.last().0 != key {
                assert(without_key(entries, key).drop_last() =~= w);
            }
        }
        if entries.last().0 != key {
            assert(without_key(entries, key).drop_last() =~= w);
        }
    }
}

/// Dropping a document's pages keeps the others, in order and without
/// repeats.
proof fn lemma_without_doc<V>(entries: Seq<(CacheKey, V)>, doc: DocumentId)
    ensures
        forall|i: int|
            0 <= i < without_doc(entries, doc).len() ==> #[trigger] without_doc(entries, doc)[i].0.doc
                != doc,
        forall|i: int|
            0 <= i < without_doc(entries, doc).len() ==> exists|j: int|
                0 <= j < entries.len() && entries[j] == #[trigger] without_doc(entries, doc)[i],
        distinct_keys(entries) ==> distinct_keys(without_doc(entries, doc)),
        without_doc(entries, doc).len() <= entries.len(),
    decreases entries.len(),
{
    if entries.len() > 0 {
        let d = entries.drop_last();
        lemma_without_doc(d, doc);
        let w = without_doc(d, doc);
        assert forall|i: int| 0 <= i < without_doc(entries, doc).len() implies exists|j: int|
            0 <= j < entries.len() && entries[j] == #[trigger] without_doc(entries, doc)[i] by {
            if entries.last().0.doc != doc && i == w.len() {
                assert(entries[entries.len() - 1] == entries.last());
            } else {
                let j = choose|j: int| 0 <= j < d.len() && d[j] == w[i];
                assert(entries[j] == d[j]);
            }
        }
        if distinct_keys(entries) {
            assert(distinct_keys(d)) by {
                assert forall|a: int, b: int| 0 <= a < b < d.len() implies d[a].0 != d[b].0 by {
                    assert(d[a] == entries[a]);
                    assert(d[b] == entries[b]);
                }
            }
            if entries.last().0.doc != doc {
                assert forall|a: int, b: int|
                    0 <= a < b < without_doc(entries, doc).len() implies without_doc(
                    entries,
                    doc,
                )[a].0 != without_doc(entries, doc)[b].0 by {
                    if b == w.len() {
                        let j = choose|j: int| 0 <= j < d.len() && d[j] == w[a];
                        assert(entries[j] == d[j]);
                        assert(entries[entries.len() - 1] == entries.last());
                    }
                }
            }
        }
    }
}

/// One operation on the page cache: storing a page, or reading one.
pub enum CacheStep {
    Add(CacheKey, CachedPage),
    Get(CacheKey),
}

/// The key a cache operation names.
pub open spec fn step_key(s: CacheStep) -> CacheKey {
    match s {
        CacheStep::Add(k, _) => k,
        CacheStep::Get(k) => k,
    }
}

/// The cache after one operation.
pub open spec fn cache_after_step(entries: Seq<(CacheKey, CachedPage)>, s: CacheStep) -> Seq<
    (CacheKey, CachedPage),
> {
    match s {
        CacheStep::Add(k, p) => cache_after_add(entries, k, p),
        CacheStep::Get(k) => cache_after_use(entries, k),
    }
}

/// The cache after a run of operations, in order.
pub open spec fn cache_after_steps(
    entries: Seq<(CacheKey, CachedPage)>,
    steps: Seq<CacheStep>,
) -> Seq<(CacheKey, CachedPage)>
    decreases steps.len(),
{
    if steps.len() == 0 {
        entries
    } else {
        cache_after_step(cache_after_steps(entries, steps.drop_last()), steps.last())
    }
}

/// `(key, page)` is among the last `r + 1` entries.
spec fn held_within(entries: Seq<(CacheKey, CachedPage)>, key: CacheKey, page: CachedPage, r: int) -> bool {
    exists|i: int| 0 <= i < entries.len() && entries.len() - i <= r + 1 && #[trigger] entries[i] == (key, page)
}

/// An entry of another key keeps its place among the last entries when a
/// key is dropped.
proof fn lemma_without_key_index<K, V>(entries: Seq<(K, V)>, key: K, i: int)
    requires
        0 <= i < entries.len(),
        entries[i].0 != key,
    ensures
        exists|j: int|
            0 <= j < without_key(entries, key).len() && #[trigger] without_key(entries, key)[j]
                == entries[i] && without_key(entries, key).len() - j <= entries.len() - i,
    decreases entries.len(),
{
    let d = entries.drop_last();
    let w = without_key(d, key);
    if i == entries.len() - 1 {
        assert(entries.last() == entries[i]);
        assert(without_key(entries, key) == w.push(entries.last()));
        assert(without_key(entries, key)[w.len() as int] == entries[i]);
    } else {
        assert(d[i] == entries[i]);
        lemma_without_key_index(d, key, i);
        let j = choose|j: int| 0 <= j < w.len() && #[trigger] w[j] == d[i] && w.len() - j <= d.len() - i;
        if entries.last().0 != key {
            assert(without_key(entries, key) == w.push(entries.last()));
            assert(without_key(entries, key)[j] == w[j]);
        } else {
            assert(without_key(entries, key) == w);
        }
    }
}

/// In entries without repeated keys, the entry at `i` is what its key looks up.
proof fn lemma_lookup_at<K, V>(entries: Seq<(K, V)>, i: int)
    requires
        distinct_keys(entries),
        0 <= i < entries.len(),
    ensures
        lookup(entries, entries[i].0) == Some(entries[i].1),
    decreases entries.len(),
{
    if i < entries.len() - 1 {
        let d = entries.drop_last();
        assert(distinct_keys(d)) by {
            assert forall|a: int, b: int| 0 <= a < b < d.len() implies d[a].0 != d[b].0 by {
                assert(d[a] == entries[a]);
                assert(d[b] == entries[b]);
            }
        }
        assert(entries[i].0 != entries[entries.len() - 1].0);
        assert(d[i] == entries[i]);
        lemma_lookup_at(d, i);
    }
}

/// One operation on another key moves a held page back by at most one
/// place, and evicts it only from the last place the cache has.
proof fn lemma_step_keeps(
    c: Seq<(CacheKey, CachedPage)>,
    key: CacheKey,
    page: CachedPage,
    r: int,
    s: CacheStep,
)
    requires
        distinct_keys(c),
        c.len() <= MAX_CACHED_PAGES,
        0 <= r < MAX_CACHED_PAGES - 1,
        held_within(c, key, page, r),
        step_key(s) != key,
    ensures
        held_within(cache_after_step(c, s), key, page, r + 1),
{
    let i = choose|i: int| 0 <= i < c.len() && c.len() - i <= r + 1 && #[trigger] c[i] == (key, page);
    let k2 = step_key(s);
    lemma_without_key(c, k2);
    lemma_without_key_index(c, k2, i);
    let w = without_key(c, k2);
    let j = choose|j: int| 0 <= j < w.len() && #[trigger] w[j] == c[i] && w.len() - j <= c.len() - i;
    match s {
        CacheStep::Add(k, p) => {
            let m = if w.len() >= MAX_CACHED_PAGES {
                w.len() - MAX_CACHED_PAGES + 1
            } else {
                0
            };
            let n = cache_after_add(c, k, p);
            assert(n[j - m] == w[j]);
            assert(n.len() - (j - m) <= r + 2);
        },
        CacheStep::Get(k) => {
            match lookup(c, k) {
                Some(q) => {
                    let n = cache_after_use(c, k);
                    assert(n[j] == w[j]);
                },
                None => {
                    assert(c[i] == (key, page));
                },
            }
        },
    }
}

/// One operation keeps the cache bounded and without repeated keys.
proof fn lemma_step_wf(c: Seq<(CacheKey, CachedPage)>, s: CacheStep)
    requires
        distinct_keys(c),
        c.len() <= MAX_CACHED_PAGES,
    ensures
        distinct_keys(cache_after_step(c, s)),
        cache_after_step(c, s).len() <= MAX_CACHED_PAGES,
{
    match s {
        CacheStep::Add(k, p) => {
            stored_page_reads_back(c, k, p);
        },
        CacheStep::Get(k) => {
            if lookup(c, k) is Some {
                lemma_without_key(c, k);
                lemma_lookup_len(c, k);
                let w = without_key(c, k);
                let n = cache_after_use(c, k);
                assert forall|a: int, b: int| 0 <= a < b < n.len() implies n[a].0 != n[b].0 by {
                    if b == w.len() {
                        assert(w[a].0 != k);
                    }
                }
            }
        },
    }
}

/// Over any run of operations the cache holds at most
/// [`MAX_CACHED_PAGES`] pages and never two for one key.
pub proof fn the_cache_stays_bounded_over_any_run(
    entries: Seq<(CacheKey, CachedPage)>,
    steps: Seq<CacheStep>,
)
    requires
        distinct_keys(entries),
        entries.len() <= MAX_CACHED_PAGES,
    ensures
        distinct_keys(cache_after_steps(entries, steps)),
        cache_after_steps(entries, steps).len() <= MAX_CACHED_PAGES,
    decreases steps.len(),
{
    if steps.len() > 0 {
        the_cache_stays_bounded_over_any_run(entries, steps.drop_last());
        lemma_step_wf(cache_after_steps(entries, steps.drop_last()), steps.last());
    }
}

proof fn lemma_run_keeps(
    c: Seq<(CacheKey, CachedPage)>,
    key: CacheKey,
    page: CachedPage,
    steps: Seq<CacheStep>,
)
    requires
        distinct_keys(c),
        c.len() <= MAX_CACHED_PAGES,
        held_within(c, key, page, 0),
        steps.len() < MAX_CACHED_PAGES,
        forall|i: int| 0 <= i < steps.len() ==> step_key(#[trigger] steps[i]) != key,
    ensures
        held_within(cache_after_steps(c, steps), key, page, steps.len() as int),
    decreases steps.len(),
{
    if steps.len() > 0 {
        let d = steps.drop_last();
        assert forall|i: int| 0 <= i < d.len() implies step_key(#[trigger] d[i]) != key by {
            assert(d[i] == steps[i]);
        }
        lemma_run_keeps(c, key, page, d);
        the_cache_stays_bounded_over_any_run(c, d);
        assert(step_key(steps[steps.len() - 1]) != key);
        let prev = cache_after_steps(c, d);
        let i = choose|i: int| 0 <= i < prev.len() && prev.len() - i <= d.len() + 1 && #[trigger] prev[i] == (key, page);
        assert(held_within(prev, key, page, d.len() as int));
        lemma_step_keeps(prev, key, page, d.len() as int, steps.last());
    }
}

/// A page stored under `key` is what reading `key` gives back for as long
/// as fewer than [`MAX_CACHED_PAGES`] operations on other keys have
/// followed: a page leaves the cache only once it is the least recently
/// stored or read.
pub proof fn a_stored_page_reads_back_until_evicted(
    entries: Seq<(CacheKey, CachedPage)>,
    key: CacheKey,
    page: CachedPage,
    steps: Seq<CacheStep>,
)
    requires
        distinct_keys(entries),
        entries.len() <= MAX_CACHED_PAGES,
        steps.len() < MAX_CACHED_PAGES,
        forall|i: int| 0 <= i < steps.len() ==> step_key(#[trigger] steps[i]) != key,
    ensures
        lookup(cache_after_steps(cache_after_add(entries, key, page), steps), key) == Some(page),
{
    let c = cache_after_add(entries, key, page);
    stored_page_reads_back(entries, key, page);
    assert(c[c.len() - 1] == (key, page));
    assert(held_within(c, key, page, 0));
    lemma_run_keeps(c, key, page, steps);
    the_cache_stays_bounded_over_any_run(c, steps);
    let n = cache_after_steps(c, steps);
    let i = choose|i: int| 0 <= i < n.len() && n.len() - i <= steps.len() + 1 && #[trigger] n[i] == (key, page);
    lemma_lookup_at(n, i);
}

} // verus!

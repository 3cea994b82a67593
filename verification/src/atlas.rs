//! Content-addressed resource atlases with explicit reference counts.
//!
//! An entry is created by `add`, lives while some external handle remains
//! (counts move by `clone_key` and `release`), is uploaded at most once by
//! `prepare`, and is evicted by `trim` once no external handle remains.
//! The caller performs the actual uploads and frees from what `prepare`
//! and `trim` report.
use vstd::prelude::*;

verus! {

/// The offset basis of the content hash.
pub const FNV_OFFSET: u64 = 0xcbf29ce484222325;

/// The multiplier of the content hash.
pub const FNV_PRIME: u64 = 0x100000001b3;

/// The content hash continued from state `h` over `bytes`.
pub open spec fn fnv1a_from(h: u64, bytes: Seq<u8>) -> u64
    decreases bytes.len(),
{
    if bytes.len() == 0 {
        h
    } else {
        fnv1a_from((h ^ bytes[0] as u64).wrapping_mul(FNV_PRIME), bytes.skip(1))
    }
}

/// The content hash of a byte sequence: the identity of a cached resource.
pub open spec fn spec_content_hash(bytes: Seq<u8>) -> u64 {
    fnv1a_from(FNV_OFFSET, bytes)
}

/// The executable content hash.
pub fn content_hash(bytes: &Vec<u8>) -> (r: u64)
    ensures
        r == spec_content_hash(bytes@),
{
    let mut h: u64 = FNV_OFFSET;
    let mut i: usize = 0;
    proof {
        assert(bytes@.skip(0) =~= bytes@);
    }
    while i < bytes.len()
        invariant
            i <= bytes.len(),
            fnv1a_from(h, bytes@.skip(i as int)) == spec_content_hash(bytes@),
        decreases bytes.len() - i,
    {
        let ghost pre = bytes@.skip(i as int);
        h = (h ^ (bytes[i] as u64)).wrapping_mul(FNV_PRIME);
        proof {
            assert(pre[0] == bytes@[i as int]);
            assert(pre.skip(1) =~= bytes@.skip(i as int + 1));
        }
        i += 1;
    }
    proof {
        assert(bytes@.skip(bytes@.len() as int) =~= Seq::<u8>::empty());
    }
    h
}

/// A reference count grown by one more external handle.
pub open spec fn inc_refs(r: u64) -> u64 {
    if r == u64::MAX { r } else { (r + 1) as u64 }
}

/// A reference count after one external handle is gone.
pub open spec fn dec_refs(r: u64) -> u64 {
    if r == 0 { r } else { (r - 1) as u64 }
}

/// Whether an entry still has an external owner.
pub open spec fn is_live(e: Entry) -> bool {
    e.refs > 0
}

/// Whether an entry still awaits its upload.
pub open spec fn is_pending(e: Entry) -> bool {
    !e.uploaded
}

/// A handle to a cached image resource: its content hash and pixel size.
#[derive(Debug, Clone, Copy, PartialEq, Eq, Structural)]
pub struct Image {
    /// The content hash, the entry's only identity.
    pub key: u64,
    /// The pixel width of the image.
    pub width: u32,
    /// The pixel height of the image.
    pub height: u32,
}

impl Image {
    /// The pixel size of the image this handle names.
    pub fn size(&self) -> (r: (u32, u32))
        ensures
            r == (self.width, self.height),
    {
        (self.width, self.height)
    }
}

/// One cached resource: its handle, its content bytes, how many external
/// handles remain, and whether it has been uploaded.
#[derive(Debug, Clone, PartialEq)]
pub struct Entry {
    /// The handle of the entry.
    pub image: Image,
    /// The resource content: RGBA bytes, four to a pixel.
    pub data: Vec<u8>,
    /// How many external handles to this entry remain.
    pub refs: u64,
    /// Whether the resource has been uploaded.
    pub uploaded: bool,
}

/// An entry after its upload.
pub open spec fn mark_uploaded(e: Entry) -> Entry {
    Entry { image: e.image, data: e.data, refs: e.refs, uploaded: true }
}

/// A content-addressed cache of image resources.
#[derive(Debug, Clone, PartialEq)]
pub struct ImageAtlas {
    entries: Vec<Entry>,
}

impl ImageAtlas {
    /// The entries, for specification purposes.
    pub closed spec fn view_entries(&self) -> Seq<Entry> {
        self.entries@
    }

    /// Whether some entry carries the key.
    pub open spec fn spec_contains(&self, key: u64) -> bool {
        exists|i: int| 0 <= i < self.view_entries().len()
            && (#[trigger] self.view_entries()[i]).image.key == key
    }

    /// The index of the entry carrying the key.
    pub open spec fn spec_index_of(&self, key: u64) -> int {
        choose|i: int| 0 <= i < self.view_entries().len()
            && (#[trigger] self.view_entries()[i]).image.key == key
    }

    /// The entry carrying the key.
    pub open spec fn spec_entry(&self, key: u64) -> Entry {
        self.view_entries()[self.spec_index_of(key)]
    }

    /// The atlas invariant: entries are content-addressed (each key is its
    /// content's hash), and no two entries share a key.
    pub open spec fn wf(&self) -> bool {
        &&& forall|i: int| 0 <= i < self.view_entries().len()
            ==> (#[trigger] self.view_entries()[i]).image.key
                == spec_content_hash(self.view_entries()[i].data@)
        &&& forall|i: int, j: int| 0 <= i < j < self.view_entries().len()
            ==> (#[trigger] self.view_entries()[i]).image.key
                != (#[trigger] self.view_entries()[j]).image.key
    }

    /// An empty atlas.
    pub fn new() -> (r: ImageAtlas)
        ensures
            r.wf(),
            r.view_entries().len() == 0,
    {
        ImageAtlas { entries: Vec::new() }
    }

    /// How many entries the atlas holds.
    pub fn len(&self) -> (r: usize)
        ensures
            r == self.view_entries().len(),
    {
        self.entries.len()
    }

    /// Look up the position of a key.
    fn position_of(&self, key: u64) -> (r: Option<usize>)
        ensures
            r is Some <==> self.spec_contains(key),
            r is Some ==> {
                let i = r->Some_0 as int;
                &&& 0 <= i < self.view_entries().len()
                &&& self.view_entries()[i].image.key == key
                &&& forall|j: int| 0 <= j < i
                    ==> (#[trigger] self.view_entries()[j]).image.key != key
            },
    {
        let mut i: usize = 0;
        while i < self.entries.len()
            invariant
                i <= self.entries.len(),
                forall|j: int| 0 <= j < i
                    ==> (#[trigger] self.entries@[j]).image.key != key,
            decreases self.entries.len() - i,
        {
            if self.entries[i].image.key == key {
                proof {
                    assert(self.spec_contains(key)) by {
                        assert(self.view_entries()[i as int].image.key == key);
                    }
                }
                return Some(i);
            }
            i += 1;
        }
        None
    }

    /// Under the invariant, the found position is the specification index.
    proof fn lemma_found_is_index(&self, key: u64, i: int)
        requires
            self.wf(),
            0 <= i < self.view_entries().len(),
            self.view_entries()[i].image.key == key,
        ensures
            self.spec_index_of(key) == i,
            self.spec_contains(key),
    {
        let w = self.spec_index_of(key);
        assert(0 <= w < self.view_entries().len()
            && self.view_entries()[w].image.key == key);
        if w < i {
            assert(false);
        }
        if i < w {
            assert(false);
        }
    }

    /// Add image content to the atlas. The content's hash is the handle's
    /// key, so identical content always resolves to an identical key:
    /// content already present resolves to the existing entry, whose
    /// external count grows by one and which is never re-inserted nor
    /// re-uploaded; absent content makes one fresh, not yet uploaded entry
    /// with one external handle.
    pub fn add(&mut self, data: Vec<u8>, width: u32, height: u32) -> (r: Image)
        requires
            old(self).wf(),
        ensures
            final(self).wf(),
            r.key == spec_content_hash(data@),
            final(self).spec_contains(r.key),
            final(self).spec_index_of(r.key) == (
                if old(self).spec_contains(r.key) { old(self).spec_index_of(r.key) }
                else { old(self).view_entries().len() as int }),
            old(self).spec_contains(r.key) ==> {
                let i = old(self).spec_index_of(r.key);
                let e = old(self).view_entries()[i];
                &&& final(self).view_entries() == old(self).view_entries().update(
                    i, Entry { image: e.image, data: e.data,
                        refs: inc_refs(e.refs), uploaded: e.uploaded })
                &&& r == e.image
            },
            !old(self).spec_contains(r.key) ==> {
                &&& final(self).view_entries() == old(self).view_entries().push(Entry {
                    image: r, data: data, refs: 1u64, uploaded: false })
                &&& r.width == width
                &&& r.height == height
            },
    {
        let key = content_hash(&data);
        match self.position_of(key) {
            Some(i) => {
                proof {
                    self.lemma_found_is_index(key, i as int);
                }
                let existing = self.entries[i].image;
                let e_refs = self.entries[i].refs;
                if e_refs < u64::MAX {
                    self.entries[i].refs = e_refs + 1;
                }
                proof {
                    let old_e = old(self).view_entries()[i as int];
                    assert(self.entries@ =~= old(self).view_entries().update(
                        i as int, Entry { image: old_e.image, data: old_e.data,
                            refs: inc_refs(old_e.refs), uploaded: old_e.uploaded }));
                    assert(self.view_entries()[i as int].image.key == key);
                    self.lemma_found_is_index(key, i as int);
                }
                existing
            },
            None => {
                let image = Image { key, width, height };
                self.entries.push(Entry { image, data, refs: 1, uploaded: false });
                proof {
                    let n = old(self).view_entries().len() as int;
                    assert(self.view_entries()[n].image.key == key);
                    self.lemma_found_is_index(key, n);
                }
                image
            },
        }
    }

    /// Record one more external handle to the key: the clone of a handle.
    pub fn clone_key(&mut self, image: &Image)
        requires
            old(self).wf(),
            old(self).spec_contains(image.key),
        ensures
            final(self).wf(),
            ({
                let i = old(self).spec_index_of(image.key);
                let e = old(self).view_entries()[i];
                final(self).view_entries() == old(self).view_entries().update(
                    i, Entry { image: e.image, data: e.data,
                        refs: inc_refs(e.refs), uploaded: e.uploaded })
            }),
    {
        match self.position_of(image.key) {
            Some(i) => {
                proof {
                    self.lemma_found_is_index(image.key, i as int);
                }
                let e_refs = self.entries[i].refs;
                if e_refs < u64::MAX {
                    self.entries[i].refs = e_refs + 1;
                }
                proof {
                    let old_e = old(self).view_entries()[i as int];
                    assert(self.entries@ =~= old(self).view_entries().update(
                        i as int, Entry { image: old_e.image, data: old_e.data,
                            refs: inc_refs(old_e.refs), uploaded: old_e.uploaded }));
                }
            },
            None => {},
        }
    }

    /// Record that one external handle to the key is gone: the drop of a
    /// handle. A key without entry is ignored.
    pub fn release(&mut self, image: &Image)
        requires
            old(self).wf(),
        ensures
            final(self).wf(),
            old(self).spec_contains(image.key) ==> {
                let i = old(self).spec_index_of(image.key);
                let e = old(self).view_entries()[i];
                final(self).view_entries() == old(self).view_entries().update(
                    i, Entry { image: e.image, data: e.data,
                        refs: dec_refs(e.refs), uploaded: e.uploaded })
            },
            !old(self).spec_contains(image.key)
                ==> final(self).view_entries() == old(self).view_entries(),
    {
        match self.position_of(image.key) {
            Some(i) => {
                proof {
                    self.lemma_found_is_index(image.key, i as int);
                }
                let e_refs = self.entries[i].refs;
                if e_refs > 0 {
                    self.entries[i].refs = e_refs - 1;
                }
                proof {
                    let old_e = old(self).view_entries()[i as int];
                    assert(self.entries@ =~= old(self).view_entries().update(
                        i as int, Entry { image: old_e.image, data: old_e.data,
                            refs: dec_refs(old_e.refs), uploaded: old_e.uploaded }));
                }
            },
            None => {},
        }
    }

    /// Evict every entry with no remaining external handle, keeping the
    /// order of the rest: an entry lives exactly as long as some external
    /// handle to it exists. The caller frees the uploads of what is gone.
    #[verifier::loop_isolation(false)]
    pub fn trim(&mut self)
        requires
            old(self).wf(),
        ensures
            final(self).wf(),
            final(self).view_entries() == old(self).view_entries().filter(|e: Entry| is_live(e)),
    {
        let ghost pred = |e: Entry| is_live(e);
        let ghost orig = old(self).view_entries();
        let mut kept: Vec<Entry> = Vec::new();
        proof {
            assert(orig.take(0) =~= Seq::<Entry>::empty());
            lemma_filter_empty(pred);
        }
        while self.entries.len() > 0
            invariant
                self.entries@.len() <= orig.len(),
                orig.skip(orig.len() - self.entries@.len()) =~= self.entries@,
                kept@ == orig.take(orig.len() - self.entries@.len()).filter(pred),
            decreases self.entries.len(),
        {
            let ghost done = orig.len() - self.entries@.len();
            let e = self.entries.remove(0);
            let ghost ge: Entry = e;
            proof {
                assert(ge == orig[done]);
                assert(orig.skip(done).skip(1) =~= orig.skip(done + 1));
                assert(orig.skip(done + 1) =~= self.entries@);
                assert(orig.take(done + 1) =~= orig.take(done) + seq![ge]);
                lemma_filter_one(ge, pred);
                Seq::<Entry>::filter_distributes_over_add(orig.take(done), seq![ge], pred);
            }
            let live = e.refs > 0;
            if live {
                kept.push(e);
            }
            proof {
                assert(pred(ge) == is_live(ge));
                assert(orig.take(done + 1).filter(pred)
                    == orig.take(done).filter(pred) + seq![ge].filter(pred));
                if live {
                    assert(seq![ge].filter(pred) == seq![ge]);
                    assert(kept@ =~= orig.take(done).filter(pred) + seq![ge]);
                } else {
                    assert(seq![ge].filter(pred) == Seq::<Entry>::empty());
                    assert(kept@ =~= orig.take(done).filter(pred)
                        + Seq::<Entry>::empty());
                }
                assert(kept@ =~= orig.take(done + 1).filter(pred));
            }
        }
        proof {
            assert(orig.take(orig.len() as int) =~= orig);
        }
        self.entries = kept;
        proof {
            lemma_filter_keeps_wf(old(self).view_entries(), |e: Entry| is_live(e));
        }
    }

    /// Upload pass: after it every entry is uploaded, and the result names,
    /// in order, exactly the entries that were still pending — each entry
    /// is uploaded exactly once over the atlas's life.
    #[verifier::loop_isolation(false)]
    pub fn prepare(&mut self) -> (ups: Vec<Image>)
        requires
            old(self).wf(),
        ensures
            final(self).wf(),
            final(self).view_entries() == old(self).view_entries().map_values(
                |e: Entry| mark_uploaded(e)),
            ups@ == old(self).view_entries().filter(|e: Entry| is_pending(e))
                .map_values(|e: Entry| e.image),
            forall|i: int| 0 <= i < final(self).view_entries().len()
                ==> (#[trigger] final(self).view_entries()[i]).uploaded,
    {
        let mut ups: Vec<Image> = Vec::new();
        let mut i: usize = 0;
        proof {
            assert(old(self).view_entries().take(0) =~= Seq::<Entry>::empty());
            lemma_filter_empty(|e: Entry| is_pending(e));
        }
        while i < self.entries.len()
            invariant
                i <= self.entries.len(),
                self.entries@.len() == old(self).view_entries().len(),
                forall|j: int| 0 <= j < i ==> self.entries@[j]
                    == mark_uploaded(#[trigger] old(self).view_entries()[j]),
                forall|j: int| i <= j < self.entries@.len()
                    ==> self.entries@[j] == #[trigger] old(self).view_entries()[j],
                ups@ == old(self).view_entries().take(i as int).filter(
                    |e: Entry| is_pending(e)).map_values(|e: Entry| e.image),
            decreases self.entries.len() - i,
        {
            let ghost pred = |e: Entry| is_pending(e);
            let ghost prefix = old(self).view_entries().take(i as int);
            let ghost e = old(self).view_entries()[i as int];
            if !self.entries[i].uploaded {
                ups.push(self.entries[i].image);
                self.entries[i].uploaded = true;
            }
            proof {
                assert(old(self).view_entries().take(i as int + 1)
                    =~= prefix + seq![e]);
                lemma_filter_one(e, pred);
                Seq::<Entry>::filter_distributes_over_add(prefix, seq![e], pred);
                assert((prefix.filter(pred) + seq![e].filter(pred)).map_values(
                    |x: Entry| x.image) =~= prefix.filter(pred).map_values(
                    |x: Entry| x.image) + seq![e].filter(pred).map_values(
                    |x: Entry| x.image));
                assert(self.entries@[i as int] == mark_uploaded(e));
            }
            i += 1;
        }
        proof {
            assert(old(self).view_entries().take(
                old(self).view_entries().len() as int) =~= old(self).view_entries());
            assert(self.entries@ =~= old(self).view_entries().map_values(
                |e: Entry| mark_uploaded(e)));
            assert forall|i: int| 0 <= i < self.entries@.len()
                implies (#[trigger] self.entries@[i]).image.key
                    == spec_content_hash(self.entries@[i].data@) by {
                assert(self.entries@[i] == mark_uploaded(old(self).view_entries()[i]));
            }
            assert forall|i: int, j: int| 0 <= i < j < self.entries@.len()
                implies (#[trigger] self.entries@[i]).image.key
                    != (#[trigger] self.entries@[j]).image.key by {
                assert(self.entries@[i] == mark_uploaded(old(self).view_entries()[i]));
                assert(self.entries@[j] == mark_uploaded(old(self).view_entries()[j]));
            }
        }
        ups
    }

    /// The handle and upload state of a key, if some entry carries it.
    pub fn try_get(&self, key: u64) -> (r: Option<(Image, bool)>)
        requires
            self.wf(),
        ensures
            r is Some <==> self.spec_contains(key),
            r is Some ==> r->Some_0 == (
                self.spec_entry(key).image, self.spec_entry(key).uploaded),
    {
        match self.position_of(key) {
            Some(i) => {
                proof {
                    self.lemma_found_is_index(key, i as int);
                }
                Some((self.entries[i].image, self.entries[i].uploaded))
            },
            None => None,
        }
    }

    /// The handle of a key that must be present: asking for a key never
    /// added, or one whose last external handle was released and trimmed,
    /// is a caller error.
    pub fn get(&self, key: u64) -> (r: Image)
        requires
            self.wf(),
            self.spec_contains(key),
        ensures
            r == self.spec_entry(key).image,
    {
        match self.try_get(key) {
            Some((image, _)) => image,
            None => {
                proof {
                    assert(false);
                }
                Image { key: 0, width: 0, height: 0 }
            },
        }
    }

    /// The remaining external handle count of a key.
    pub fn refs_of(&self, key: u64) -> (r: Option<u64>)
        requires
            self.wf(),
        ensures
            r is Some <==> self.spec_contains(key),
            r is Some ==> r->Some_0 == self.spec_entry(key).refs,
    {
        match self.position_of(key) {
            Some(i) => {
                proof {
                    self.lemma_found_is_index(key, i as int);
                }
                Some(self.entries[i].refs)
            },
            None => None,
        }
    }

    /// A copy of the content bytes of a key, for the caller's upload.
    pub fn data_of(&self, key: u64) -> (r: Option<Vec<u8>>)
        requires
            self.wf(),
        ensures
            r is Some <==> self.spec_contains(key),
            r is Some ==> r->Some_0@ == self.spec_entry(key).data@,
    {
        match self.position_of(key) {
            Some(i) => {
                proof {
                    self.lemma_found_is_index(key, i as int);
                }
                let c = self.entries[i].data.clone();
                proof {
                    assert(c@ =~= self.entries@[i as int].data@);
                }
                Some(c)
            },
            None => None,
        }
    }
}

/// Filtering an empty sequence of entries leaves it empty.
proof fn lemma_filter_empty(pred: spec_fn(Entry) -> bool)
    ensures
        Seq::<Entry>::empty().filter(pred) == Seq::<Entry>::empty(),
{
    reveal(Seq::filter);
}

/// Filtering one entry keeps or drops it by the predicate alone.
proof fn lemma_filter_one(e: Entry, pred: spec_fn(Entry) -> bool)
    ensures
        pred(e) ==> seq![e].filter(pred) == seq![e],
        !pred(e) ==> seq![e].filter(pred) == Seq::<Entry>::empty(),
{
    reveal_with_fuel(Seq::filter, 2);
    assert(seq![e].drop_last() =~= Seq::<Entry>::empty());
    assert(seq![e].last() == e);
    if pred(e) {
        assert(seq![e].filter(pred) =~= seq![e]);
    } else {
        assert(seq![e].filter(pred) =~= Seq::<Entry>::empty());
    }
}

/// Filtering entries keeps the atlas invariant: a subsequence stays
/// content-addressed and duplicate-free.
proof fn lemma_filter_keeps_wf(s: Seq<Entry>, pred: spec_fn(Entry) -> bool)
    requires
        forall|i: int| 0 <= i < s.len() ==> (#[trigger] s[i]).image.key
            == spec_content_hash(s[i].data@),
        forall|i: int, j: int| 0 <= i < j < s.len()
            ==> (#[trigger] s[i]).image.key != (#[trigger] s[j]).image.key,
    ensures
        forall|i: int| 0 <= i < s.filter(pred).len()
            ==> (#[trigger] s.filter(pred)[i]).image.key
                == spec_content_hash(s.filter(pred)[i].data@),
        forall|i: int, j: int| 0 <= i < j < s.filter(pred).len()
            ==> (#[trigger] s.filter(pred)[i]).image.key
                != (#[trigger] s.filter(pred)[j]).image.key,
    decreases s.len(),
{
    reveal(Seq::filter);
    if s.len() > 0 {
        lemma_filter_keeps_wf(s.drop_last(), pred);
        let sub = s.drop_last().filter(pred);
        if pred(s.last()) {
            assert forall|i: int| 0 <= i < sub.len()
                implies (#[trigger] sub[i]).image.key != s.last().image.key by {
                lemma_filter_member_of(s.drop_last(), pred, i);
            }
        }
    }
}

/// Every element of a filtered sequence is an element of the original.
proof fn lemma_filter_member_of(s: Seq<Entry>, pred: spec_fn(Entry) -> bool, i: int)
    requires
        0 <= i < s.filter(pred).len(),
    ensures
        exists|j: int| 0 <= j < s.len() && s[j] == #[trigger] s.filter(pred)[i],
    decreases s.len(),
{
    reveal(Seq::filter);
    if s.len() > 0 {
        let sub = s.drop_last().filter(pred);
        if i < sub.len() {
            lemma_filter_member_of(s.drop_last(), pred, i);
            let j = choose|j: int| 0 <= j < s.drop_last().len()
                && s.drop_last()[j] == sub[i];
            assert(s[j] == s.filter(pred)[i]);
        } else {
            assert(s[s.len() - 1] == s.filter(pred)[i]);
        }
    }
}

/// Content addressing deduplicates: a well-formed atlas never holds two
/// entries with identical content, so identical content is never uploaded
/// twice.
pub proof fn lemma_content_addressed(a: ImageAtlas, i: int, j: int)
    requires
        a.wf(),
        0 <= i < a.view_entries().len(),
        0 <= j < a.view_entries().len(),
        a.view_entries()[i].data@ == a.view_entries()[j].data@,
    ensures
        i == j,
{
    if i != j {
        assert(a.view_entries()[i].image.key == a.view_entries()[j].image.key);
    }
}

/// Once every entry is uploaded, an upload pass has nothing left to do:
/// `prepare` uploads each entry at most once over the atlas's life.
pub proof fn lemma_prepare_uploads_once(s: Seq<Entry>)
    requires
        forall|i: int| 0 <= i < s.len() ==> (#[trigger] s[i]).uploaded,
    ensures
        s.filter(|e: Entry| is_pending(e)).len() == 0,
    decreases s.len(),
{
    reveal(Seq::filter);
    if s.len() > 0 {
        lemma_prepare_uploads_once(s.drop_last());
        assert(s[s.len() - 1].uploaded);
    }
}

/// The entries surviving a trim.
pub open spec fn trimmed(s: Seq<Entry>) -> Seq<Entry> {
    s.filter(|e: Entry| is_live(e))
}

/// Trimming never evicts an entry that still has a live external handle.
pub proof fn lemma_trim_keeps_live(s: Seq<Entry>, i: int)
    requires
        0 <= i < s.len(),
        is_live(s[i]),
    ensures
        trimmed(s).contains(s[i]),
{
    Seq::<Entry>::lemma_filter_contains(s, |e: Entry| is_live(e), i);
}

/// Eviction law, at the atlas: once every external handle to a key is
/// gone, a trim leaves an atlas in which the key no longer resolves, so a
/// later lookup of it fails; and a key that still has a live handle
/// resolves after the trim exactly as before.
pub proof fn lemma_trim_then_get(before: ImageAtlas, after: ImageAtlas, key: u64)
    requires
        before.wf(),
        after.view_entries() == trimmed(before.view_entries()),
        forall|i: int| 0 <= i < before.view_entries().len()
            && (#[trigger] before.view_entries()[i]).image.key == key
            ==> before.view_entries()[i].refs == 0,
    ensures
        !after.spec_contains(key),
{
    lemma_trim_evicts(before.view_entries(), key);
    if after.spec_contains(key) {
        let i = choose|i: int| 0 <= i < after.view_entries().len()
            && (#[trigger] after.view_entries()[i]).image.key == key;
        assert(trimmed(before.view_entries())[i].image.key != key);
    }
}

/// Retention law, at the atlas: a key with a live external handle is never
/// evicted by a trim.
pub proof fn lemma_trim_keeps(before: ImageAtlas, after: ImageAtlas, key: u64)
    requires
        before.wf(),
        after.view_entries() == trimmed(before.view_entries()),
        before.spec_contains(key),
        before.spec_entry(key).refs > 0,
    ensures
        after.spec_contains(key),
{
    let i = before.spec_index_of(key);
    lemma_trim_keeps_live(before.view_entries(), i);
    let e = before.view_entries()[i];
    let j = choose|j: int| 0 <= j < trimmed(before.view_entries()).len()
        && trimmed(before.view_entries())[j] == e;
    assert(after.view_entries()[j].image.key == key);
}

/// Once every handle to a key is gone, trimming evicts it: no entry with
/// that key survives the pass, so a later lookup of the key fails.
pub proof fn lemma_trim_evicts(s: Seq<Entry>, key: u64)
    requires
        forall|i: int| 0 <= i < s.len() && (#[trigger] s[i]).image.key == key
            ==> s[i].refs == 0,
    ensures
        forall|i: int| 0 <= i < trimmed(s).len()
            ==> (#[trigger] trimmed(s)[i]).image.key != key,
{
    let pred = |e: Entry| is_live(e);
    assert forall|i: int| 0 <= i < s.filter(pred).len()
        implies (#[trigger] s.filter(pred)[i]).image.key != key by {
        Seq::<Entry>::lemma_filter_pred(s, pred, i);
        lemma_filter_member_of(s, pred, i);
        let j = choose|j: int| 0 <= j < s.len() && s[j] == s.filter(pred)[i];
        if s[j].image.key == key {
            assert(s[j].refs == 0);
        }
    }
}

/// One font of the text atlas: the face, how many external handles to it
/// remain, and its cache of rasterized glyph images. A glyph cached as
/// `None` rasterized to nothing (whitespace).
#[derive(Debug, Clone, PartialEq)]
pub struct FontEntry {
    /// The font face and its metrics.
    pub font: crate::text::Font,
    /// How many external handles to this face remain.
    pub refs: u64,
    /// The rasterized glyph cache: a blank glyph is cached as `None`.
    pub glyphs: Vec<(char, Option<Image>)>,
}

/// Whether a font entry still has an external owner.
pub open spec fn font_is_live(e: FontEntry) -> bool {
    e.refs > 0
}

/// The font entries surviving a trim.
pub open spec fn fonts_trimmed(s: Seq<FontEntry>) -> Seq<FontEntry> {
    s.filter(|e: FontEntry| font_is_live(e))
}

/// The cached image of a glyph: the first match in the cache.
pub open spec fn spec_glyph_lookup(glyphs: Seq<(char, Option<Image>)>, c: char)
    -> Option<Option<Image>>
    decreases glyphs.len(),
{
    if glyphs.len() == 0 {
        None
    } else if glyphs[0].0 == c {
        Some(glyphs[0].1)
    } else {
        spec_glyph_lookup(glyphs.skip(1), c)
    }
}

/// A cache of font faces and their rasterized glyphs, with explicit
/// reference counts driving eviction.
#[derive(Debug, Clone, PartialEq)]
pub struct TextAtlas {
    fonts: Vec<FontEntry>,
}

impl TextAtlas {
    /// The font entries, for specification purposes.
    pub closed spec fn view_fonts(&self) -> Seq<FontEntry> {
        self.fonts@
    }

    /// Whether some entry carries the font identity.
    pub open spec fn spec_has_font(&self, id: u64) -> bool {
        exists|i: int| 0 <= i < self.view_fonts().len()
            && (#[trigger] self.view_fonts()[i]).font.id == id
    }

    /// The index of the entry carrying the font identity.
    pub open spec fn spec_font_index(&self, id: u64) -> int {
        choose|i: int| 0 <= i < self.view_fonts().len()
            && (#[trigger] self.view_fonts()[i]).font.id == id
    }

    /// The atlas invariant: no two entries share a font identity.
    pub open spec fn wf(&self) -> bool {
        forall|i: int, j: int| 0 <= i < j < self.view_fonts().len()
            ==> (#[trigger] self.view_fonts()[i]).font.id
                != (#[trigger] self.view_fonts()[j]).font.id
    }

    /// An empty text atlas.
    pub fn new() -> (r: TextAtlas)
        ensures
            r.wf(),
            r.view_fonts().len() == 0,
    {
        TextAtlas { fonts: Vec::new() }
    }

    /// How many faces the atlas holds.
    pub fn len(&self) -> (r: usize)
        ensures
            r == self.view_fonts().len(),
    {
        self.fonts.len()
    }

    /// Look up the position of a font identity.
    fn font_position(&self, id: u64) -> (r: Option<usize>)
        ensures
            r is Some <==> self.spec_has_font(id),
            r is Some ==> {
                let i = r->Some_0 as int;
                &&& 0 <= i < self.view_fonts().len()
                &&& self.view_fonts()[i].font.id == id
            },
    {
        let mut i: usize = 0;
        while i < self.fonts.len()
            invariant
                i <= self.fonts@.len(),
                forall|j: int| 0 <= j < i
                    ==> (#[trigger] self.fonts@[j]).font.id != id,
            decreases self.fonts@.len() - i,
        {
            if self.fonts[i].font.id == id {
                proof {
                    assert(self.spec_has_font(id)) by {
                        assert(self.view_fonts()[i as int].font.id == id);
                    }
                }
                return Some(i);
            }
            i += 1;
        }
        None
    }

    /// Under the invariant, a found position is the specification index.
    proof fn lemma_font_found(&self, id: u64, i: int)
        requires
            self.wf(),
            0 <= i < self.view_fonts().len(),
            self.view_fonts()[i].font.id == id,
        ensures
            self.spec_font_index(id) == i,
            self.spec_has_font(id),
    {
        let w = self.spec_font_index(id);
        assert(0 <= w < self.view_fonts().len()
            && self.view_fonts()[w].font.id == id);
        if w < i {
            assert(false);
        }
        if i < w {
            assert(false);
        }
    }

    /// Add a font face: a face already present by identity gains one more
    /// external handle and keeps its glyph cache; an absent one makes a
    /// fresh entry with one handle and an empty cache.
    pub fn add_font(&mut self, font: crate::text::Font)
        requires
            old(self).wf(),
        ensures
            final(self).wf(),
            final(self).spec_has_font(font.id),
            old(self).spec_has_font(font.id) ==> {
                let i = old(self).spec_font_index(font.id);
                let e = old(self).view_fonts()[i];
                final(self).view_fonts() == old(self).view_fonts().update(
                    i, FontEntry { font: e.font, refs: inc_refs(e.refs),
                        glyphs: e.glyphs })
            },
            !old(self).spec_has_font(font.id) ==> {
                &&& final(self).view_fonts().len() == old(self).view_fonts().len() + 1
                &&& final(self).view_fonts().last().font == font
                &&& final(self).view_fonts().last().refs == 1
                &&& final(self).view_fonts().last().glyphs@ =~= Seq::<(
                char, Option<Image>)>::empty()
                &&& forall|j: int| 0 <= j < old(self).view_fonts().len()
                    ==> final(self).view_fonts()[j] == old(self).view_fonts()[j]
            },
    {
        let id = font.id;
        match self.font_position(id) {
            Some(i) => {
                proof {
                    self.lemma_font_found(id, i as int);
                }
                let e_refs = self.fonts[i].refs;
                if e_refs < u64::MAX {
                    self.fonts[i].refs = e_refs + 1;
                }
                proof {
                    let old_e = old(self).view_fonts()[i as int];
                    assert(self.fonts@ =~= old(self).view_fonts().update(
                        i as int, FontEntry { font: old_e.font,
                            refs: inc_refs(old_e.refs), glyphs: old_e.glyphs }));
                    self.lemma_font_found(id, i as int);
                }
            },
            None => {
                self.fonts.push(FontEntry { font, refs: 1, glyphs: Vec::new() });
                proof {
                    let n = old(self).view_fonts().len() as int;
                    assert(self.view_fonts()[n].font.id == id);
                    self.lemma_font_found(id, n);
                }
            },
        }
    }

    /// Record that one external handle to a face is gone.
    pub fn release_font(&mut self, id: u64)
        requires
            old(self).wf(),
        ensures
            final(self).wf(),
            old(self).spec_has_font(id) ==> {
                let i = old(self).spec_font_index(id);
                let e = old(self).view_fonts()[i];
                final(self).view_fonts() == old(self).view_fonts().update(
                    i, FontEntry { font: e.font, refs: dec_refs(e.refs),
                        glyphs: e.glyphs })
            },
            !old(self).spec_has_font(id)
                ==> final(self).view_fonts() == old(self).view_fonts(),
    {
        match self.font_position(id) {
            Some(i) => {
                proof {
                    self.lemma_font_found(id, i as int);
                }
                let e_refs = self.fonts[i].refs;
                if e_refs > 0 {
                    self.fonts[i].refs = e_refs - 1;
                }
                proof {
                    let old_e = old(self).view_fonts()[i as int];
                    assert(self.fonts@ =~= old(self).view_fonts().update(
                        i as int, FontEntry { font: old_e.font,
                            refs: dec_refs(old_e.refs), glyphs: old_e.glyphs }));
                }
            },
            None => {},
        }
    }

    /// Evict every face with no remaining external handle, keeping the
    /// order of the rest.
    #[verifier::loop_isolation(false)]
    pub fn trim(&mut self)
        requires
            old(self).wf(),
        ensures
            final(self).wf(),
            final(self).view_fonts() == fonts_trimmed(old(self).view_fonts()),
    {
        let ghost pred = |e: FontEntry| font_is_live(e);
        let ghost orig = old(self).view_fonts();
        let mut kept: Vec<FontEntry> = Vec::new();
        proof {
            assert(orig.take(0) =~= Seq::<FontEntry>::empty());
            lemma_font_filter_empty(pred);
        }
        while self.fonts.len() > 0
            invariant
                self.fonts@.len() <= orig.len(),
                orig.skip(orig.len() - self.fonts@.len()) =~= self.fonts@,
                kept@ == orig.take(orig.len() - self.fonts@.len()).filter(pred),
            decreases self.fonts.len(),
        {
            let ghost done = orig.len() - self.fonts@.len();
            let e = self.fonts.remove(0);
            let ghost ge: FontEntry = e;
            proof {
                assert(ge == orig[done]);
                assert(orig.skip(done).skip(1) =~= orig.skip(done + 1));
                assert(orig.skip(done + 1) =~= self.fonts@);
                assert(orig.take(done + 1) =~= orig.take(done) + seq![ge]);
                lemma_font_filter_one(ge, pred);
                Seq::<FontEntry>::filter_distributes_over_add(
                    orig.take(done), seq![ge], pred);
            }
            let live = e.refs > 0;
            if live {
                kept.push(e);
            }
            proof {
                assert(pred(ge) == font_is_live(ge));
                if live {
                    assert(seq![ge].filter(pred) == seq![ge]);
                    assert(kept@ =~= orig.take(done).filter(pred) + seq![ge]);
                } else {
                    assert(seq![ge].filter(pred) == Seq::<FontEntry>::empty());
                    assert(kept@ =~= orig.take(done).filter(pred)
                        + Seq::<FontEntry>::empty());
                }
                assert(kept@ =~= orig.take(done + 1).filter(pred));
            }
        }
        proof {
            assert(orig.take(orig.len() as int) =~= orig);
        }
        self.fonts = kept;
        proof {
            lemma_font_filter_keeps_wf(old(self).view_fonts(), pred);
        }
    }

    /// The cached image of a glyph, if the face is present and the glyph
    /// has been rasterized: `Some(None)` names a blank glyph.
    pub fn get_glyph(&self, font_id: u64, c: char) -> (r: Option<Option<Image>>)
        requires
            self.wf(),
        ensures
            self.spec_has_font(font_id) ==> r == spec_glyph_lookup(
                self.view_fonts()[self.spec_font_index(font_id)].glyphs@, c),
            !self.spec_has_font(font_id) ==> r is None,
    {
        match self.font_position(font_id) {
            Some(i) => {
                proof {
                    self.lemma_font_found(font_id, i as int);
                }
                let entry = &self.fonts[i];
                let mut j: usize = 0;
                let ghost gs = entry.glyphs@;
                proof {
                    assert(gs.skip(0) =~= gs);
                }
                while j < entry.glyphs.len()
                    invariant
                        j <= entry.glyphs@.len(),
                        gs == entry.glyphs@,
                        self.wf(),
                        i < self.fonts@.len(),
                        *entry == self.view_fonts()[i as int],
                        self.view_fonts()[i as int].font.id == font_id,
                        self.spec_has_font(font_id),
                        self.spec_font_index(font_id) == i as int,
                        spec_glyph_lookup(gs.skip(j as int), c)
                            == spec_glyph_lookup(gs, c),
                    decreases entry.glyphs@.len() - j,
                {
                    let ghost pre = gs.skip(j as int);
                    if entry.glyphs[j].0 == c {
                        return Some(entry.glyphs[j].1);
                    }
                    proof {
                        assert(pre.skip(1) =~= gs.skip(j as int + 1));
                    }
                    j += 1;
                }
                proof {
                    assert(gs.skip(gs.len() as int)
                        =~= Seq::<(char, Option<Image>)>::empty());
                }
                None
            },
            None => None,
        }
    }

    /// Cache the rasterization of one glyph of a present face: a glyph
    /// already cached is kept as it is, so a rasterization is recorded at
    /// most once per face and character.
    pub fn insert_glyph(&mut self, font_id: u64, c: char, image: Option<Image>)
        requires
            old(self).wf(),
            old(self).spec_has_font(font_id),
        ensures
            final(self).wf(),
            ({
                let i = old(self).spec_font_index(font_id);
                let e = old(self).view_fonts()[i];
                if spec_glyph_lookup(e.glyphs@, c) is Some {
                    final(self).view_fonts() == old(self).view_fonts()
                } else {
                    &&& final(self).view_fonts().len() == old(self).view_fonts().len()
                    &&& final(self).view_fonts()[i].font == e.font
                    &&& final(self).view_fonts()[i].refs == e.refs
                    &&& final(self).view_fonts()[i].glyphs@ == e.glyphs@.push((c, image))
                    &&& forall|j: int| 0 <= j < old(self).view_fonts().len() && j != i
                        ==> final(self).view_fonts()[j] == old(self).view_fonts()[j]
                }
            }),
    {
        match self.font_position(font_id) {
            Some(i) => {
                proof {
                    self.lemma_font_found(font_id, i as int);
                }
                match self.get_glyph(font_id, c) {
                    Some(_) => {},
                    None => {
                        self.fonts[i].glyphs.push((c, image));
                    },
                }
            },
            None => {
                proof {
                    assert(false);
                }
            },
        }
    }
}

/// One glyph of laid-out text resolved to a cached image: its box and the
/// image and color it draws with.
#[derive(Debug, Clone, Copy, PartialEq)]
pub struct GlyphDraw {
    /// The left edge of the glyph box, in units.
    pub x: i128,
    /// The top edge of the glyph box, in units.
    pub y: i128,
    /// The width of the glyph box, in units.
    pub w: i128,
    /// The height of the glyph box, in units.
    pub h: i128,
    /// The cached image of the glyph.
    pub image: Image,
    /// The color the glyph draws with.
    pub color: crate::color::Color,
}

/// The glyph draws of one line's characters from `j`: each character
/// whose face is cached with a non-blank image contributes one draw at
/// its box.
pub open spec fn spec_line_draws(fonts: Seq<FontEntry>, atlas: TextAtlas,
    chars: Seq<crate::text::CharV>, j: int) -> Seq<GlyphDraw>
    decreases chars.len() - j,
{
    if j < 0 || j >= chars.len() {
        Seq::empty()
    } else {
        let c = chars[j];
        let rest = spec_line_draws(fonts, atlas, chars, j + 1);
        if atlas.spec_has_font(c.font_id) && spec_glyph_lookup(
            fonts[atlas.spec_font_index(c.font_id)].glyphs@, c.ch)
            matches Some(Some(img)) {
            seq![GlyphDraw { x: c.x as i128, y: c.y as i128, w: c.w as i128,
                h: c.h as i128,
                image: spec_glyph_lookup(fonts[atlas.spec_font_index(c.font_id)]
                    .glyphs@, c.ch)->Some_0->Some_0,
                color: c.color }] + rest
        } else {
            rest
        }
    }
}

/// The glyph draws of the lines from `i`.
pub open spec fn spec_draws(fonts: Seq<FontEntry>, atlas: TextAtlas,
    lines: Seq<crate::text::LineV>, i: int) -> Seq<GlyphDraw>
    decreases lines.len() - i,
{
    if i < 0 || i >= lines.len() {
        Seq::empty()
    } else {
        spec_line_draws(fonts, atlas, lines[i].chars, 0)
            + spec_draws(fonts, atlas, lines, i + 1)
    }
}

impl TextAtlas {
    /// Resolve laid-out lines to glyph draws: every character whose face
    /// is cached with a non-blank image yields one draw at its own box,
    /// in layout order; blank and unrasterized glyphs draw nothing.
    pub fn get(&self, lines: &Vec<crate::text::Line>) -> (r: Vec<GlyphDraw>)
        requires
            self.wf(),
        ensures
            r@ == spec_draws(self.view_fonts(), *self,
                lines@.map_values(|l: crate::text::Line| l@), 0),
    {
        let ghost lv = lines@.map_values(|l: crate::text::Line| l@);
        let ghost target = spec_draws(self.view_fonts(), *self, lv, 0);
        let mut r: Vec<GlyphDraw> = Vec::new();
        let mut i: usize = 0;
        proof {
            assert(r@ + spec_draws(self.view_fonts(), *self, lv, 0) =~= target);
        }
        while i < lines.len()
            invariant
                i <= lines@.len(),
                self.wf(),
                lv == lines@.map_values(|l: crate::text::Line| l@),
                target == spec_draws(self.view_fonts(), *self, lv, 0),
                target =~= r@ + spec_draws(self.view_fonts(), *self, lv, i as int),
            decreases lines@.len() - i,
        {
            let line = &lines[i];
            let mut j: usize = 0;
            proof {
                assert(spec_draws(self.view_fonts(), *self, lv, i as int)
                    =~= spec_line_draws(self.view_fonts(), *self,
                        lv[i as int].chars, 0)
                    + spec_draws(self.view_fonts(), *self, lv, i as int + 1));
            }
            while j < line.chars.len()
                invariant
                    j <= line.chars@.len(),
                    i < lines@.len(),
                    self.wf(),
                    lv == lines@.map_values(|l: crate::text::Line| l@),
                    *line == lines@[i as int],
                    target == spec_draws(self.view_fonts(), *self, lv, 0),
                    target =~= r@ + spec_line_draws(self.view_fonts(), *self,
                        lv[i as int].chars, j as int)
                        + spec_draws(self.view_fonts(), *self, lv, i as int + 1),
                decreases line.chars@.len() - j,
            {
                let c = line.chars[j];
                proof {
                    assert(lv[i as int].chars[j as int]
                        == lines@[i as int].chars@[j as int]@);
                }
                match self.get_glyph(c.font_id, c.ch) {
                    Some(Some(img)) => {
                        let d = GlyphDraw { x: c.x, y: c.y, w: c.w, h: c.h,
                            image: img, color: c.color };
                        proof {
                            assert(r@.push(d) + spec_line_draws(self.view_fonts(),
                                *self, lv[i as int].chars, j as int + 1)
                                =~= r@ + (seq![d] + spec_line_draws(
                                self.view_fonts(), *self, lv[i as int].chars,
                                j as int + 1)));
                        }
                        r.push(d);
                    },
                    _ => {},
                }
                j += 1;
            }
            i += 1;
        }
        r
    }
}

/// Filtering an empty sequence of font entries leaves it empty.
proof fn lemma_font_filter_empty(pred: spec_fn(FontEntry) -> bool)
    ensures
        Seq::<FontEntry>::empty().filter(pred) == Seq::<FontEntry>::empty(),
{
    reveal(Seq::filter);
}

/// Filtering one font entry keeps or drops it by the predicate alone.
proof fn lemma_font_filter_one(e: FontEntry, pred: spec_fn(FontEntry) -> bool)
    ensures
        pred(e) ==> seq![e].filter(pred) == seq![e],
        !pred(e) ==> seq![e].filter(pred) == Seq::<FontEntry>::empty(),
{
    reveal_with_fuel(Seq::filter, 2);
    assert(seq![e].drop_last() =~= Seq::<FontEntry>::empty());
    assert(seq![e].last() == e);
    if pred(e) {
        assert(seq![e].filter(pred) =~= seq![e]);
    } else {
        assert(seq![e].filter(pred) =~= Seq::<FontEntry>::empty());
    }
}

/// Filtering font entries keeps identities unique.
proof fn lemma_font_filter_keeps_wf(s: Seq<FontEntry>, pred: spec_fn(FontEntry) -> bool)
    requires
        forall|i: int, j: int| 0 <= i < j < s.len()
            ==> (#[trigger] s[i]).font.id != (#[trigger] s[j]).font.id,
    ensures
        forall|i: int, j: int| 0 <= i < j < s.filter(pred).len()
            ==> (#[trigger] s.filter(pred)[i]).font.id
                != (#[trigger] s.filter(pred)[j]).font.id,
    decreases s.len(),
{
    reveal(Seq::filter);
    if s.len() > 0 {
        lemma_font_filter_keeps_wf(s.drop_last(), pred);
        let sub = s.drop_last().filter(pred);
        if pred(s.last()) {
            assert forall|i: int| 0 <= i < sub.len()
                implies (#[trigger] sub[i]).font.id != s.last().font.id by {
                lemma_font_filter_member(s.drop_last(), pred, i);
            }
        }
    }
}

/// Every filtered font entry is one of the original entries.
proof fn lemma_font_filter_member(s: Seq<FontEntry>, pred: spec_fn(FontEntry) -> bool,
    i: int)
    requires
        0 <= i < s.filter(pred).len(),
    ensures
        exists|j: int| 0 <= j < s.len() && s[j] == #[trigger] s.filter(pred)[i],
    decreases s.len(),
{
    reveal(Seq::filter);
    if s.len() > 0 {
        let sub = s.drop_last().filter(pred);
        if i < sub.len() {
            lemma_font_filter_member(s.drop_last(), pred, i);
            let j = choose|j: int| 0 <= j < s.drop_last().len()
                && s.drop_last()[j] == sub[i];
            assert(s[j] == s.filter(pred)[i]);
        } else {
            assert(s[s.len() - 1] == s.filter(pred)[i]);
        }
    }
}

/// The RGBA packing of one rasterized glyph: each coverage byte becomes a
/// black pixel with that alpha, and a glyph whose coverage is all zero is
/// blank and yields nothing to draw.
pub fn glyph_rgba(alpha: &Vec<u8>) -> (r: Option<Vec<u8>>)
    requires
        alpha@.len() * 4 <= usize::MAX,
    ensures
        r is Some <==> exists|i: int| 0 <= i < alpha@.len() && alpha@[i] != 0,
        r is Some ==> {
            let v = r->Some_0@;
            &&& v.len() == 4 * alpha@.len()
            &&& forall|i: int| 0 <= i < alpha@.len() ==> #[trigger] v[4 * i] == 0
                && v[4 * i + 1] == 0 && v[4 * i + 2] == 0 && v[4 * i + 3] == alpha@[i]
        },
{
    let mut v: Vec<u8> = Vec::new();
    let mut any = false;
    let mut i: usize = 0;
    while i < alpha.len()
        invariant
            i <= alpha@.len(),
            alpha@.len() * 4 <= usize::MAX,
            v@.len() == 4 * i,
            forall|j: int| 0 <= j < i ==> #[trigger] v@[4 * j] == 0
                && v@[4 * j + 1] == 0 && v@[4 * j + 2] == 0
                && v@[4 * j + 3] == alpha@[j],
            any <==> exists|j: int| 0 <= j < i && alpha@[j] != 0,
        decreases alpha@.len() - i,
    {
        let a = alpha[i];
        let ghost vold = v@;
        v.push(0);
        v.push(0);
        v.push(0);
        v.push(a);
        if a != 0 {
            any = true;
        }
        proof {
            assert(v@ =~= vold + seq![0u8, 0u8, 0u8, alpha@[i as int]]);
            assert(v@[4 * (i as int)] == 0);
            assert(v@[4 * (i as int) + 1] == 0);
            assert(v@[4 * (i as int) + 2] == 0);
            assert(v@[4 * (i as int) + 3] == alpha@[i as int]);
            if any && alpha@[i as int] == 0 {
                let w = choose|j: int| 0 <= j < i && alpha@[j] != 0;
                assert(0 <= w < i + 1 && alpha@[w] != 0);
            }
            if alpha@[i as int] != 0 {
                assert(0 <= i < i + 1 && alpha@[i as int] != 0);
            }
        }
        proof {
            assert forall|j: int| 0 <= j < i + 1 implies #[trigger] v@[4 * j] == 0
                && v@[4 * j + 1] == 0 && v@[4 * j + 2] == 0
                && v@[4 * j + 3] == alpha@[j] by {
                if j < i as int {
                    assert(4 * j + 3 < 4 * (i as int));
                    assert(v@[4 * j] == vold[4 * j]);
                    assert(v@[4 * j + 1] == vold[4 * j + 1]);
                    assert(v@[4 * j + 2] == vold[4 * j + 2]);
                    assert(v@[4 * j + 3] == vold[4 * j + 3]);
                }
            }
        }
        i += 1;
    }
    if any {
        Some(v)
    } else {
        None
    }
}

/// The shared caches of one rendering context: image resources and fonts
/// with their rasterized glyphs.
#[derive(Debug, Clone, PartialEq)]
pub struct Atlas {
    /// The content-addressed image cache.
    pub image: ImageAtlas,
    /// The font and glyph cache.
    pub text: TextAtlas,
}

impl Atlas {
    /// A fresh, empty pair of caches.
    pub fn new() -> (r: Atlas)
        ensures
            r.image.wf(),
            r.text.wf(),
            r.image.view_entries().len() == 0,
            r.text.view_fonts().len() == 0,
    {
        Atlas { image: ImageAtlas::new(), text: TextAtlas::new() }
    }
}

} // verus!

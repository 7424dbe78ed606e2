use vstd::prelude::*;
use vstd::string::StringSliceAdditionalSpecFns;
use crate::codec::{
    chrono_key, copy_from, encode_tag_prefix, is_valid_tag, lemma_chrono_round_trip,
    lemma_chrono_desc, lemma_chrono_order, lemma_tag_desc, lemma_tag_prefix_unique, lemma_tag_round_trip, tag_index_key, tag_prefix,
    valid_tag, ArchiveError,
};
use crate::index::{
    bytes_eq, copy_bytes, has_prefix, insert_sorted, key_views, lemma_matching_descending,
    lemma_matching_members, lemma_window_members, newest_matching, scan_newest, sorted, window,
};
use crate::ingest::{
    all_covered, all_valid, entry_chrono_key, entry_models, entry_tag_keys, fresh_entries,
    item_models, lemma_plan, lemma_plan_all_held, plan, plan_ingest, presence, staged_ids, Entry,
    EntryModel, Item, ItemModel,
};
use crate::order::{lemma_lex_asymmetric, lemma_lex_irreflexive, lex_lt};

verus! {

/// Number of items on one page.
pub const PAGE_SIZE: usize = 20;

/// What the archive holds of one item.
pub struct Record {
    pub time: i64,
    pub tags: Seq<Seq<u8>>,
    pub payload: Seq<u8>,
}

pub open spec fn record_of(e: EntryModel) -> Record {
    Record { time: e.time, tags: e.tags, payload: e.payload }
}

/// The records after writing `es` in order.
pub open spec fn with_entries(recs: Map<Seq<u8>, Record>, es: Seq<EntryModel>) -> Map<Seq<u8>, Record>
    decreases es.len(),
{
    if es.len() == 0 {
        recs
    } else {
        with_entries(recs.insert(es[0].id, record_of(es[0])), es.drop_first())
    }
}

/// `k` is the chronological key of a held item.
pub open spec fn is_chrono_entry(recs: Map<Seq<u8>, Record>, k: Seq<u8>) -> bool {
    exists|id: Seq<u8>| #[trigger] recs.contains_key(id) && k == chrono_key(recs[id].time, id)
}

/// `k` is the tag key of a held item under one of its tags.
pub open spec fn is_tag_entry(recs: Map<Seq<u8>, Record>, k: Seq<u8>) -> bool {
    exists|id: Seq<u8>, j: int|
        #[trigger] recs.contains_key(id) && 0 <= j < recs[id].tags.len() && k == #[trigger] tag_index_key(
            recs[id].tags[j],
            recs[id].time,
            id,
        )
}

/// The content store and its two indexes, in memory, ordered as an ordered
/// key-value engine orders them.
pub struct Archive {
    ids: Vec<Vec<u8>>,
    payloads: Vec<Vec<u8>>,
    chrono: Vec<Vec<u8>>,
    tagged: Vec<Vec<u8>>,
    records: Ghost<Map<Seq<u8>, Record>>,
}

/// How many index entries come before page `page`: `page * PAGE_SIZE`, or
/// `None` where that does not fit in a `usize` (no index reaches that far).
pub fn page_skip(page: usize) -> (r: Option<usize>)
    ensures
        page * 20 <= usize::MAX ==> r == Some((page * 20) as usize),
        page * 20 > usize::MAX ==> r is None,
{
    if page > usize::MAX / PAGE_SIZE {
        assert(page * 20 > usize::MAX) by (nonlinear_arith)
            requires page > usize::MAX / 20;
        None
    } else {
        assert(page * 20 <= usize::MAX) by (nonlinear_arith)
            requires page <= usize::MAX / 20;
        Some(page * PAGE_SIZE)
    }
}

impl Archive {
    /// The items held, by id.
    pub closed spec fn records(&self) -> Map<Seq<u8>, Record> {
        self.records@
    }

    /// Content store: ids, with `payload_view` beside them.
    pub closed spec fn id_view(&self) -> Seq<Seq<u8>> {
        key_views(self.ids@)
    }

    pub closed spec fn payload_view(&self) -> Seq<Seq<u8>> {
        key_views(self.payloads@)
    }

    /// Chronological index, ascending.
    pub closed spec fn chrono_view(&self) -> Seq<Seq<u8>> {
        key_views(self.chrono@)
    }

    /// Tag index, ascending.
    pub closed spec fn tag_view(&self) -> Seq<Seq<u8>> {
        key_views(self.tagged@)
    }

    /// The three stores hold exactly what the records give, indexes in ascending byte order.
    pub closed spec fn wf(&self) -> bool {
        let recs = self.records@;
        let ids = self.id_view();
        &&& self.ids@.len() == self.payloads@.len()
        &&& forall|i: int| 0 <= i < ids.len() ==> #[trigger] recs.contains_key(ids[i]) && recs[ids[i]].payload == self.payload_view()[i]
        &&& forall|i: int, j: int| 0 <= i < j < ids.len() ==> #[trigger] ids[i] != #[trigger] ids[j]
        &&& forall|id: Seq<u8>| #[trigger] recs.contains_key(id) ==> ids.contains(id)
        &&& forall|id: Seq<u8>| #[trigger] recs.contains_key(id) ==> all_valid(recs[id].tags)
        &&& sorted(self.chrono_view())
        &&& sorted(self.tag_view())
        &&& forall|k: Seq<u8>| self.chrono_view().contains(k) <==> #[trigger] is_chrono_entry(recs, k)
        &&& forall|k: Seq<u8>| self.tag_view().contains(k) <==> #[trigger] is_tag_entry(recs, k)
    }

    /// An empty archive.
    pub fn new() -> (r: Archive)
        ensures
            r.wf(),
            r.records() == Map::<Seq<u8>, Record>::empty(),
    {
        let r = Archive {
            ids: Vec::new(),
            payloads: Vec::new(),
            chrono: Vec::new(),
            tagged: Vec::new(),
            records: Ghost(Map::empty()),
        };
        assert(r.id_view() =~= Seq::<Seq<u8>>::empty());
        assert(r.chrono_view() =~= Seq::<Seq<u8>>::empty());
        assert(r.tag_view() =~= Seq::<Seq<u8>>::empty());
        r
    }

    /// Where `id` stands in the content store.
    fn find(&self, id: &[u8]) -> (r: Option<usize>)
        requires
            self.wf(),
        ensures
            r is Some ==> r.unwrap() < self.ids@.len() && self.id_view()[r.unwrap() as int] == id@,
            r is None <==> !self.records().contains_key(id@),
    {
        let mut i: usize = 0;
        while i < self.ids.len()
            invariant
                self.wf(),
                i <= self.ids@.len(),
                forall|j: int| 0 <= j < i ==> self.id_view()[j] != id@,
            decreases self.ids@.len() - i,
        {
            if bytes_eq(self.ids[i].as_slice(), id) {
                assert(self.records@.contains_key(self.id_view()[i as int]));
                return Some(i);
            }
            i = i + 1;
        }
        proof {
            if self.records@.contains_key(id@) {
                assert(self.id_view().contains(id@));
            }
        }
        None
    }

    /// Whether the content store holds `id`.
    pub fn contains(&self, id: &str) -> (r: bool)
        requires
            self.wf(),
        ensures
            r == self.records().contains_key(id.spec_bytes()),
    {
        self.find(id.as_bytes()).is_some()
    }

    /// The payload stored under `id`.
    pub fn get(&self, id: &str) -> (r: Option<Vec<u8>>)
        requires
            self.wf(),
        ensures
            r is None <==> !self.records().contains_key(id.spec_bytes()),
            r is Some ==> r.unwrap()@ == self.records()[id.spec_bytes()].payload,
    {
        match self.find(id.as_bytes()) {
            None => None,
            Some(i) => Some(copy_bytes(self.payloads[i].as_slice())),
        }
    }

    /// Writes one new entry into the content store and both indexes.
    fn add_entry(&mut self, e: &Entry)
        requires
            old(self).wf(),
            !old(self).records().contains_key(e.id@),
            all_valid(e@.tags),
        ensures
            final(self).wf(),
            final(self).records() == old(self).records().insert(e.id@, record_of(e@)),
    {
        let ghost old_recs = self.records@;
        let ghost new_recs = old_recs.insert(e.id@, record_of(e@));
        let ghost old_ids = self.id_view();
        let ghost old_pay = self.payload_view();
        let ghost old_chrono = self.chrono_view();
        let ghost old_tags = self.tag_view();
        let ck = entry_chrono_key(e);
        let tks = entry_tag_keys(e);
        let ghost tkv = key_views(tks@);
        self.ids.push(copy_bytes(e.id.as_slice()));
        self.payloads.push(copy_bytes(e.payload.as_slice()));
        insert_sorted(&mut self.chrono, ck);
        let ghost ids_now = self.ids@;
        let ghost pay_now = self.payloads@;
        let ghost chrono_now = self.chrono@;
        let ghost recs_now = self.records@;
        let mut i: usize = 0;
        while i < tks.len()
            invariant
                i <= tks@.len(),
                tkv == key_views(tks@),
                self.ids@ == ids_now,
                self.payloads@ == pay_now,
                self.chrono@ == chrono_now,
                self.records@ == recs_now,
                sorted(key_views(self.tagged@)),
                forall|x: Seq<u8>| #[trigger] key_views(self.tagged@).contains(x) <==> (old_tags.contains(x)
                    || tkv.subrange(0, i as int).contains(x)),
            decreases tks@.len() - i,
        {
            let ghost before = key_views(self.tagged@);
            let c = copy_bytes(tks[i].as_slice());
            let ghost cv = c@;
            assert(cv == tkv[i as int]);
            insert_sorted(&mut self.tagged, c);
            assert(tkv.subrange(0, i + 1) =~= tkv.subrange(0, i as int).push(tkv[i as int]));
            assert forall|x: Seq<u8>| #[trigger] key_views(self.tagged@).contains(x) <==> (old_tags.contains(x)
                || tkv.subrange(0, i + 1).contains(x)) by {
                assert(before.contains(x) <==> (old_tags.contains(x) || tkv.subrange(0, i as int).contains(x)));
                assert(key_views(self.tagged@).contains(x) <==> (before.contains(x) || x == cv));
                if x == tkv[i as int] {
                    assert(tkv.subrange(0, i + 1)[i as int] == x);
                }
                if tkv.subrange(0, i + 1).contains(x) && x != tkv[i as int] {
                    let j = choose|j: int| 0 <= j < i + 1 && #[trigger] tkv.subrange(0, i + 1)[j] == x;
                    assert(tkv.subrange(0, i as int)[j] == x);
                }
                if tkv.subrange(0, i as int).contains(x) {
                    let j = choose|j: int| 0 <= j < i && #[trigger] tkv.subrange(0, i as int)[j] == x;
                    assert(tkv.subrange(0, i + 1)[j] == x);
                }
            }
            i = i + 1;
        }
        self.records = Ghost(new_recs);
        proof {
            assert(tkv.subrange(0, tkv.len() as int) =~= tkv);
            assert(tkv.len() == e@.tags.len());
            let ids = self.id_view();
            assert(ids =~= old_ids.push(e.id@));
            assert(self.payload_view() =~= old_pay.push(e.payload@));
            assert forall|i: int| 0 <= i < old_ids.len() implies old_ids[i] != e.id@ by {
                assert(old_recs.contains_key(old_ids[i]));
            }
            assert forall|i: int| 0 <= i < ids.len() implies #[trigger] new_recs.contains_key(ids[i])
                && new_recs[ids[i]].payload == self.payload_view()[i] by {
                if i < old_ids.len() {
                    assert(old_recs.contains_key(old_ids[i]));
                }
            }
            assert forall|id: Seq<u8>| #[trigger] new_recs.contains_key(id) implies ids.contains(id) by {
                if id == e.id@ {
                    assert(ids[old_ids.len() as int] == id);
                } else {
                    assert(old_recs.contains_key(id));
                    let i = choose|i: int| 0 <= i < old_ids.len() && old_ids[i] == id;
                    assert(ids[i] == id);
                }
            }
            assert forall|id: Seq<u8>| #[trigger] new_recs.contains_key(id) implies all_valid(new_recs[id].tags) by {
                if id != e.id@ {
                    assert(old_recs.contains_key(id));
                }
            }
            let cv = self.chrono_view();
            assert forall|k: Seq<u8>| cv.contains(k) <==> #[trigger] is_chrono_entry(new_recs, k) by {
                if k == chrono_key(e.publish_time, e.id@) {
                    assert(new_recs.contains_key(e.id@));
                } else if cv.contains(k) {
                    assert(old_chrono.contains(k));
                    assert(is_chrono_entry(old_recs, k));
                    let id = choose|id: Seq<u8>| #[trigger] old_recs.contains_key(id) && k == chrono_key(old_recs[id].time, id);
                    assert(new_recs.contains_key(id));
                } else if is_chrono_entry(new_recs, k) {
                    let id = choose|id: Seq<u8>| #[trigger] new_recs.contains_key(id) && k == chrono_key(new_recs[id].time, id);
                    assert(id != e.id@);
                    assert(old_recs.contains_key(id));
                    assert(is_chrono_entry(old_recs, k));
                }
            }
            let tv = self.tag_view();
            assert forall|k: Seq<u8>| tv.contains(k) <==> #[trigger] is_tag_entry(new_recs, k) by {
                if tv.contains(k) {
                    if old_tags.contains(k) {
                        assert(is_tag_entry(old_recs, k));
                        let (id, j) = choose|id: Seq<u8>, j: int| #[trigger] old_recs.contains_key(id) && 0 <= j
                            < old_recs[id].tags.len() && k == #[trigger] tag_index_key(old_recs[id].tags[j], old_recs[id].time, id);
                        assert(new_recs.contains_key(id));
                        assert(new_recs[id] == old_recs[id]);
                    } else {
                        let j = choose|j: int| 0 <= j < tkv.len() && #[trigger] tkv[j] == k;
                        assert(new_recs.contains_key(e.id@));
                        assert(k == tag_index_key(new_recs[e.id@].tags[j], new_recs[e.id@].time, e.id@));
                    }
                }
                if is_tag_entry(new_recs, k) {
                    let (id, j) = choose|id: Seq<u8>, j: int| #[trigger] new_recs.contains_key(id) && 0 <= j
                        < new_recs[id].tags.len() && k == #[trigger] tag_index_key(new_recs[id].tags[j], new_recs[id].time, id);
                    if id == e.id@ {
                        assert(k == tkv[j]);
                        assert(tkv.contains(k));
                    } else {
                        assert(old_recs.contains_key(id));
                        assert(is_tag_entry(old_recs, k));
                    }
                }
            }
        }
    }

    /// Ingests a batch of fetched items, all or nothing. An item whose id is
    /// held already is passed over. Every other item must have valid tags
    /// (else `InvalidTag`) and a publish time that parses (else
    /// `MalformedTimestamp`); on either error nothing is written. A valid item
    /// that repeats an id written earlier in the call is passed over; each
    /// other item is written to the content store and both indexes. Returns
    /// how many items were written.
    pub fn ingest(&mut self, items: &Vec<Item>) -> (r: Result<usize, ArchiveError>)
        requires
            old(self).wf(),
        ensures
            final(self).wf(),
            match plan(item_models(items@), presence(old(self).records().dom(), item_models(items@))) {
                Ok(es) => r is Ok && r.unwrap() == es.len() && final(self).records() == with_entries(
                    old(self).records(),
                    es,
                ),
                Err(e) => r == Err::<usize, ArchiveError>(e) && *final(self) == *old(self),
            },
            r == Ok::<usize, ArchiveError>(0) ==> *final(self) == *old(self),
    {
        let ghost dom = self.records@.dom();
        let ghost ims = item_models(items@);
        let mut present: Vec<bool> = Vec::new();
        let mut i: usize = 0;
        while i < items.len()
            invariant
                self.wf(),
                i <= items@.len(),
                dom == self.records@.dom(),
                ims == item_models(items@),
                present@ == presence(dom, ims).subrange(0, i as int),
            decreases items@.len() - i,
        {
            let b = self.contains(items[i].id.as_str());
            present.push(b);
            i = i + 1;
            assert(present@ =~= presence(dom, ims).subrange(0, i as int));
        }
        assert(present@ =~= presence(dom, ims));
        let entries = match plan_ingest(items, &present) {
            Ok(es) => es,
            Err(e) => {
                return Err(e);
            },
        };
        if entries.len() == 0 {
            return Ok(0);
        }
        let ghost es = entry_models(entries@);
        let ghost start = self.records@;
        proof {
            lemma_plan(dom, ims);
            assert(es.skip(0) =~= es);
        }
        let mut k: usize = 0;
        while k < entries.len()
            invariant
                self.wf(),
                k <= entries@.len(),
                es == entry_models(entries@),
                fresh_entries(dom, es),
                with_entries(start, es) == with_entries(self.records@, es.skip(k as int)),
                forall|m: int| k <= m < es.len() ==> !self.records@.contains_key(#[trigger] es[m].id),
            decreases entries@.len() - k,
        {
            let ghost cur = self.records@;
            assert(es[k as int] == entries@[k as int]@);
            self.add_entry(&entries[k]);
            proof {
                assert(es.skip(k as int).drop_first() =~= es.skip(k + 1));
                assert(es.skip(k as int)[0] == es[k as int]);
                assert forall|m: int| k + 1 <= m < es.len() implies !self.records@.contains_key(#[trigger] es[m].id) by {
                    assert(es[k as int].id != es[m].id);
                }
            }
            k = k + 1;
        }
        proof {
            assert(es.skip(k as int) =~= Seq::<EntryModel>::empty());
        }
        Ok(entries.len())
    }

    /// The payloads of the items that `keys` point at, the id of each
    /// starting at byte `offset`.
    fn resolve(&self, keys: &Vec<Vec<u8>>, offset: usize) -> (r: Vec<Vec<u8>>)
        requires
            self.wf(),
            forall|i: int| 0 <= i < keys@.len() ==> offset <= (#[trigger] keys@[i])@.len()
                && self.records().contains_key(keys@[i]@.skip(offset as int)),
        ensures
            key_views(r@) == key_views(keys@).map_values(|k: Seq<u8>| self.records()[k.skip(offset as int)].payload),
    {
        let ghost want = key_views(keys@).map_values(|k: Seq<u8>| self.records()[k.skip(offset as int)].payload);
        let mut out: Vec<Vec<u8>> = Vec::new();
        let mut i: usize = 0;
        while i < keys.len()
            invariant
                self.wf(),
                i <= keys@.len(),
                want == key_views(keys@).map_values(|k: Seq<u8>| self.records()[k.skip(offset as int)].payload),
                forall|i: int| 0 <= i < keys@.len() ==> offset <= (#[trigger] keys@[i])@.len()
                    && self.records().contains_key(keys@[i]@.skip(offset as int)),
                key_views(out@) == want.subrange(0, i as int),
            decreases keys@.len() - i,
        {
            let ghost ki = keys@[i as int]@;
            let id = copy_from(keys[i].as_slice(), offset);
            match self.find(id.as_slice()) {
                Some(j) => {
                    let c = copy_bytes(self.payloads[j].as_slice());
                    let ghost before = key_views(out@);
                    proof {
                        assert(self.records@.contains_key(self.id_view()[j as int]));
                        assert(c@ == want[i as int]);
                    }
                    out.push(c);
                    assert(key_views(out@) =~= before.push(want[i as int]));
                },
                None => {
                    assert(false);
                },
            }
            i = i + 1;
            assert(key_views(out@) =~= want.subrange(0, i as int));
        }
        assert(want.subrange(0, i as int) =~= want);
        out
    }

    /// Page `page` of all items, newest first: `PAGE_SIZE` payloads after
    /// passing over `page * PAGE_SIZE` of them.
    pub fn list_global(&self, page: usize) -> (r: Vec<Vec<u8>>)
        requires
            self.wf(),
        ensures
            key_views(r@) == window(newest_matching(self.chrono_view(), Seq::empty()), (page * 20) as nat, 20).map_values(
                |k: Seq<u8>| self.records()[k.skip(8)].payload,
            ),
    {
        let ghost m = newest_matching(self.chrono_view(), Seq::empty());
        proof {
            lemma_matching_members(self.chrono_view(), Seq::empty());
        }
        let skip = match page_skip(page) {
            None => {
                let n = self.chrono.len();
                assert(m.len() <= n);
                assert(window(m, (page * 20) as nat, 20) =~= Seq::<Seq<u8>>::empty());
                let r: Vec<Vec<u8>> = Vec::new();
                assert(key_views(r@) =~= Seq::<Seq<u8>>::empty());
                return r;
            },
            Some(skip) => skip,
        };
        let none: Vec<u8> = Vec::new();
        assert(none@ =~= Seq::<u8>::empty());
        let keys = scan_newest(&self.chrono, none.as_slice(), skip, PAGE_SIZE);
        assert(key_views(keys@) == window(m, (page * 20) as nat, 20));
        proof {
            lemma_window_members(m, (page * 20) as nat, 20);
            assert forall|i: int| 0 <= i < keys@.len() implies 8 <= (#[trigger] keys@[i])@.len()
                && self.records().contains_key(keys@[i]@.skip(8)) by {
                let k = keys@[i]@;
                assert(key_views(keys@)[i] == k);
                assert(window(m, (page * 20) as nat, 20)[i] == k);
                assert(window(m, (page * 20) as nat, 20).contains(k));
                assert(self.chrono_view().contains(k));
                assert(is_chrono_entry(self.records@, k));
                let id = choose|id: Seq<u8>| #[trigger] self.records@.contains_key(id) && k == chrono_key(self.records@[id].time, id);
                lemma_chrono_round_trip(self.records@[id].time, id);
            }
        }
        self.resolve(&keys, 8)
    }

    /// Page `page` of the items tagged `tag`, newest first; `InvalidTag` for a
    /// tag that cannot stand in a key.
    pub fn list_by_tag(&self, tag: &str, page: usize) -> (r: Result<Vec<Vec<u8>>, ArchiveError>)
        requires
            self.wf(),
        ensures
            !valid_tag(tag.spec_bytes()) ==> r == Err::<Vec<Vec<u8>>, ArchiveError>(ArchiveError::InvalidTag),
            valid_tag(tag.spec_bytes()) ==> r is Ok && key_views(r.unwrap()@) == window(
                newest_matching(self.tag_view(), tag_prefix(tag.spec_bytes())),
                (page * 20) as nat,
                20,
            ).map_values(|k: Seq<u8>| self.records()[k.skip(tag.spec_bytes().len() as int + 9)].payload),
    {
        let tb = tag.as_bytes();
        if !is_valid_tag(tb) {
            return Err(ArchiveError::InvalidTag);
        }
        let prefix = encode_tag_prefix(tb);
        let ghost m = newest_matching(self.tag_view(), prefix@);
        proof {
            lemma_matching_members(self.tag_view(), prefix@);
        }
        let skip = match page_skip(page) {
            None => {
                let n = self.tagged.len();
                assert(m.len() <= n);
                assert(window(m, (page * 20) as nat, 20) =~= Seq::<Seq<u8>>::empty());
                let r: Vec<Vec<u8>> = Vec::new();
                assert(key_views(r@) =~= Seq::<Seq<u8>>::empty());
                return Ok(r);
            },
            Some(skip) => skip,
        };
        let keys = scan_newest(&self.tagged, prefix.as_slice(), skip, PAGE_SIZE);
        assert(key_views(keys@) == window(m, (page * 20) as nat, 20));
        proof {
            lemma_window_members(m, (page * 20) as nat, 20);
            assert forall|i: int| 0 <= i < keys@.len() implies tb@.len() + 9 <= (#[trigger] keys@[i])@.len()
                && self.records().contains_key(keys@[i]@.skip(tb@.len() as int + 9)) by {
                let k = keys@[i]@;
                assert(key_views(keys@)[i] == k);
                assert(window(m, (page * 20) as nat, 20)[i] == k);
                assert(window(m, (page * 20) as nat, 20).contains(k));
                assert(self.tag_view().contains(k) && has_prefix(k, prefix@));
                assert(is_tag_entry(self.records@, k));
                let (id, j) = choose|id: Seq<u8>, j: int| #[trigger] self.records@.contains_key(id) && 0 <= j
                    < self.records@[id].tags.len() && k == #[trigger] tag_index_key(
                    self.records@[id].tags[j],
                    self.records@[id].time,
                    id,
                );
                let tg = self.records@[id].tags[j];
                assert(all_valid(self.records@[id].tags));
                lemma_tag_prefix_unique(tb@, tg, self.records@[id].time, id);
                lemma_tag_round_trip(tg, self.records@[id].time, id);
            }
        }
        let offset: usize = if keys.len() == 0 {
            0
        } else {
            let l0 = keys[0].len();
            assert(tb@.len() + 9 <= l0);
            tb.len() + 9
        };
        let r = self.resolve(&keys, offset);
        assert(key_views(r@) =~= window(m, (page * 20) as nat, 20).map_values(
            |k: Seq<u8>| self.records()[k.skip(tb@.len() as int + 9)].payload,
        ));
        Ok(r)
    }

    /// Number of items in the content store.
    pub fn content_len(&self) -> (r: usize)
        ensures
            r == self.id_view().len(),
    {
        self.ids.len()
    }

    /// Number of entries in the chronological index.
    pub fn chrono_len(&self) -> (r: usize)
        ensures
            r == self.chrono_view().len(),
    {
        self.chrono.len()
    }

    /// Number of entries in the tag index.
    pub fn tag_index_len(&self) -> (r: usize)
        ensures
            r == self.tag_view().len(),
    {
        self.tagged.len()
    }
}

/// Every id of the records and of the written entries is held afterwards.
proof fn lemma_with_entries_dom(recs: Map<Seq<u8>, Record>, es: Seq<EntryModel>)
    ensures
        forall|id: Seq<u8>| recs.contains_key(id) ==> #[trigger] with_entries(recs, es).contains_key(id),
        forall|k: int| 0 <= k < es.len() ==> with_entries(recs, es).contains_key(#[trigger] es[k].id),
    decreases es.len(),
{
    if es.len() > 0 {
        let next = recs.insert(es[0].id, record_of(es[0]));
        lemma_with_entries_dom(next, es.drop_first());
        assert(with_entries(recs, es) == with_entries(next, es.drop_first()));
        assert(next.contains_key(es[0].id));
        assert forall|id: Seq<u8>| recs.contains_key(id) implies #[trigger] with_entries(recs, es).contains_key(id) by {
            assert(next.contains_key(id));
        }
        assert forall|k: int| 0 <= k < es.len() implies with_entries(recs, es).contains_key(#[trigger] es[k].id) by {
            if k > 0 {
                assert(es.drop_first()[k - 1] == es[k]);
            }
        }
    }
}

/// Ingesting the same items a second time, after an ingestion that succeeded,
/// writes nothing: the plan is empty, so `ingest` returns `Ok(0)` and leaves
/// all three stores as they were.
pub proof fn lemma_reingest_writes_nothing(recs: Map<Seq<u8>, Record>, items: Seq<ItemModel>)
    requires
        plan(items, presence(recs.dom(), items)) is Ok,
    ensures
        plan(
            items,
            presence(with_entries(recs, plan(items, presence(recs.dom(), items))->Ok_0).dom(), items),
        ) == Ok::<Seq<EntryModel>, ArchiveError>(Seq::empty()),
{
    let es = plan(items, presence(recs.dom(), items))->Ok_0;
    let after = with_entries(recs, es);
    lemma_plan(recs.dom(), items);
    lemma_with_entries_dom(recs, es);
    assert forall|k: int| 0 <= k < items.len() implies after.dom().contains(#[trigger] items[k].id) by {
        if recs.dom().contains(items[k].id) {
            assert(recs.contains_key(items[k].id));
        } else {
            assert(all_covered(recs.dom(), items, es));
            let sid = staged_ids(es);
            assert(sid.contains(items[k].id));
            let q = choose|q: int| 0 <= q < sid.len() && #[trigger] sid[q] == items[k].id;
            assert(es[q].id == items[k].id);
        }
    }
    lemma_plan_all_held(after.dom(), Seq::empty(), items);
}

/// What the three stores hold follows from the records: both indexes are
/// in ascending byte order, the chronological index holds exactly the
/// chronological key of each item, and the tag index exactly one key per
/// item and tag.
pub proof fn lemma_stores_of_records(a: Archive)
    requires
        a.wf(),
    ensures
        sorted(a.chrono_view()),
        sorted(a.tag_view()),
        forall|k: Seq<u8>| a.chrono_view().contains(k) <==> #[trigger] is_chrono_entry(a.records(), k),
        forall|k: Seq<u8>| a.tag_view().contains(k) <==> #[trigger] is_tag_entry(a.records(), k),
        forall|id: Seq<u8>| #[trigger] a.records().contains_key(id) ==> a.id_view().contains(id),
{
}

/// Of two held items, the one published earlier has its chronological key
/// earlier in the index (for instants on the same side of the epoch, or
/// the earlier one after it).
pub proof fn lemma_index_order(a: Archive, ida: Seq<u8>, idb: Seq<u8>)
    requires
        a.wf(),
        a.records().contains_key(ida),
        a.records().contains_key(idb),
        a.records()[ida].time < a.records()[idb].time,
        a.records()[ida].time >= 0 || a.records()[idb].time < 0,
    ensures
        exists|i: int, j: int|
            0 <= i < j < a.chrono_view().len() && #[trigger] a.chrono_view()[i] == chrono_key(a.records()[ida].time, ida)
                && #[trigger] a.chrono_view()[j] == chrono_key(a.records()[idb].time, idb),
{
    let recs = a.records@;
    let v = a.chrono_view();
    let ka = chrono_key(recs[ida].time, ida);
    let kb = chrono_key(recs[idb].time, idb);
    assert(is_chrono_entry(recs, ka));
    assert(is_chrono_entry(recs, kb));
    let i = choose|i: int| 0 <= i < v.len() && v[i] == ka;
    let j = choose|j: int| 0 <= j < v.len() && v[j] == kb;
    lemma_chrono_order(recs[ida].time, ida, recs[idb].time, idb);
    if j == i {
        lemma_lex_irreflexive(ka);
    } else if j < i {
        lemma_lex_asymmetric(ka, kb);
    }
}

/// A page of the global listing is in strictly descending key order: of two
/// listed items the earlier is the newer, or as new with the greater id,
/// unless it was published before the epoch and the later one not.
pub proof fn lemma_global_page_newest_first(a: Archive, page: nat)
    requires
        a.wf(),
    ensures
        ({
            let w = window(newest_matching(a.chrono_view(), Seq::empty()), page * 20, 20);
            &&& forall|i: int| 0 <= i < w.len() ==> a.records().contains_key(#[trigger] w[i].skip(8))
            &&& forall|i: int, j: int| 0 <= i < j < w.len() ==> lex_lt(#[trigger] w[j], #[trigger] w[i])
            &&& forall|i: int, j: int|
                #![trigger w[i], w[j]]
                0 <= i < j < w.len() ==> ({
                    let ti = a.records()[w[i].skip(8)].time;
                    let tj = a.records()[w[j].skip(8)].time;
                    (ti >= 0 || tj < 0) ==> tj < ti || (tj == ti && lex_lt(w[j].skip(8), w[i].skip(8)))
                })
        }),
{
    let recs = a.records@;
    let m = newest_matching(a.chrono_view(), Seq::empty());
    lemma_matching_descending(a.chrono_view(), Seq::empty());
    lemma_matching_members(a.chrono_view(), Seq::empty());
    let w = window(m, page * 20, 20);
    let lo = if page * 20 < m.len() { (page * 20) as int } else { m.len() as int };
    assert forall|i: int| 0 <= i < w.len() implies recs.contains_key(#[trigger] w[i].skip(8))
        && w[i] == chrono_key(recs[w[i].skip(8)].time, w[i].skip(8)) by {
        let k = w[i];
        assert(w[i] == m[lo + i]);
        assert(m.contains(k));
        assert(is_chrono_entry(recs, k));
        let id = choose|id: Seq<u8>| #[trigger] recs.contains_key(id) && k == chrono_key(recs[id].time, id);
        lemma_chrono_round_trip(recs[id].time, id);
    }
    assert forall|i: int, j: int| 0 <= i < j < w.len() implies lex_lt(#[trigger] w[j], #[trigger] w[i]) by {
        assert(w[i] == m[lo + i] && w[j] == m[lo + j]);
    }
    assert forall|i: int, j: int| #![trigger w[i], w[j]] 0 <= i < j < w.len() implies ({
        let ti = recs[w[i].skip(8)].time;
        let tj = recs[w[j].skip(8)].time;
        (ti >= 0 || tj < 0) ==> tj < ti || (tj == ti && lex_lt(w[j].skip(8), w[i].skip(8)))
    }) by {
        let idi = w[i].skip(8);
        let idj = w[j].skip(8);
        assert(recs.contains_key(idi) && recs.contains_key(idj));
        assert(lex_lt(w[j], w[i]));
        if recs[idi].time >= 0 || recs[idj].time < 0 {
            lemma_chrono_desc(recs[idi].time, idi, recs[idj].time, idj);
        }
    }
}

/// A tag page lists only items that carry the tag, in strictly descending
/// key order: of two listed items the earlier is the newer, or as new with
/// the greater id, unless it was published before the epoch and the later
/// one not.
pub proof fn lemma_tag_page(a: Archive, tag: Seq<u8>, page: nat)
    requires
        a.wf(),
        valid_tag(tag),
    ensures
        ({
            let w = window(newest_matching(a.tag_view(), tag_prefix(tag)), page * 20, 20);
            &&& forall|i: int|
                0 <= i < w.len() ==> a.records().contains_key(#[trigger] w[i].skip(tag.len() as int + 9))
                    && a.records()[w[i].skip(tag.len() as int + 9)].tags.contains(tag)
            &&& forall|i: int, j: int| 0 <= i < j < w.len() ==> lex_lt(#[trigger] w[j], #[trigger] w[i])
            &&& forall|i: int, j: int|
                #![trigger w[i], w[j]]
                0 <= i < j < w.len() ==> ({
                    let ti = a.records()[w[i].skip(tag.len() as int + 9)].time;
                    let tj = a.records()[w[j].skip(tag.len() as int + 9)].time;
                    (ti >= 0 || tj < 0) ==> tj < ti || (tj == ti && lex_lt(
                        w[j].skip(tag.len() as int + 9),
                        w[i].skip(tag.len() as int + 9),
                    ))
                })
        }),
{
    let recs = a.records@;
    let m = newest_matching(a.tag_view(), tag_prefix(tag));
    lemma_matching_descending(a.tag_view(), tag_prefix(tag));
    lemma_matching_members(a.tag_view(), tag_prefix(tag));
    let w = window(m, page * 20, 20);
    lemma_window_members(m, page * 20, 20);
    let lo = if page * 20 < m.len() { (page * 20) as int } else { m.len() as int };
    let off = tag.len() as int + 9;
    assert forall|i: int| 0 <= i < w.len() implies exists|j: int|
        0 <= j < recs[w[i].skip(off)].tags.len() && recs.contains_key(w[i].skip(off))
            && #[trigger] w[i] == tag_index_key(tag, recs[w[i].skip(off)].time, w[i].skip(off))
            && recs[w[i].skip(off)].tags[j] == tag by {
        let k = w[i];
        assert(w[i] == m[lo + i]);
        assert(m.contains(k));
        assert(is_tag_entry(recs, k));
        let (id, j) = choose|id: Seq<u8>, j: int| #[trigger] recs.contains_key(id) && 0 <= j < recs[id].tags.len()
            && k == #[trigger] tag_index_key(recs[id].tags[j], recs[id].time, id);
        let tg = recs[id].tags[j];
        assert(all_valid(recs[id].tags));
        lemma_tag_prefix_unique(tag, tg, recs[id].time, id);
        lemma_tag_round_trip(tg, recs[id].time, id);
    }
    assert forall|i: int| 0 <= i < w.len() implies recs.contains_key(#[trigger] w[i].skip(off))
        && recs[w[i].skip(off)].tags.contains(tag) by {
        let j = choose|j: int|
            0 <= j < recs[w[i].skip(off)].tags.len() && recs.contains_key(w[i].skip(off))
                && #[trigger] w[i] == tag_index_key(tag, recs[w[i].skip(off)].time, w[i].skip(off))
                && recs[w[i].skip(off)].tags[j] == tag;
    }
    assert forall|i: int, j: int| 0 <= i < j < w.len() implies lex_lt(#[trigger] w[j], #[trigger] w[i]) by {
        assert(w[i] == m[lo + i] && w[j] == m[lo + j]);
    }
    assert forall|i: int, j: int| #![trigger w[i], w[j]] 0 <= i < j < w.len() implies ({
        let ti = recs[w[i].skip(off)].time;
        let tj = recs[w[j].skip(off)].time;
        (ti >= 0 || tj < 0) ==> tj < ti || (tj == ti && lex_lt(w[j].skip(off), w[i].skip(off)))
    }) by {
        let idi = w[i].skip(off);
        let idj = w[j].skip(off);
        let ti = recs[idi].time;
        let tj = recs[idj].time;
        assert(w[i] == tag_index_key(tag, ti, idi));
        assert(w[j] == tag_index_key(tag, tj, idj));
        assert(lex_lt(w[j], w[i]));
        if ti >= 0 || tj < 0 {
            lemma_tag_desc(tag, ti, idi, tj, idj);
        }
    }
}

} // verus!

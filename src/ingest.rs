use vstd::prelude::*;
use vstd::string::StringSliceAdditionalSpecFns;
use vstd::utf8::encode_utf8;
use crate::codec::{
    chrono_key, encode_chrono_key_bytes, encode_tag_key_bytes, is_valid_tag, tag_index_key,
    valid_tag, ArchiveError,
};
use crate::index::{bytes_eq, copy_bytes, key_views};
use crate::timestamp::{parse_seconds, parsed_seconds};

verus! {

/// A content item as the feed supplies it.
pub struct Item {
    /// Canonical identifier.
    pub id: String,
    /// ISO-8601 publish time.
    pub publish_time: String,
    /// Tag paths.
    pub tags: Vec<String>,
    /// The serialized item, opaque here.
    pub payload: Vec<u8>,
}

/// An item with its text taken as the bytes that keys are made of.
pub struct ItemModel {
    pub id: Seq<u8>,
    pub time: Seq<char>,
    pub tags: Seq<Seq<u8>>,
    pub payload: Seq<u8>,
}

impl View for Item {
    type V = ItemModel;

    open spec fn view(&self) -> ItemModel {
        ItemModel {
            id: encode_utf8(self.id@),
            time: self.publish_time@,
            tags: self.tags@.map_values(|t: String| encode_utf8(t@)),
            payload: self.payload@,
        }
    }
}

/// A new item as staged for one atomic batch: its id, its publish time in
/// seconds, its tags and its payload.
pub struct Entry {
    pub id: Vec<u8>,
    pub publish_time: i64,
    pub tags: Vec<Vec<u8>>,
    pub payload: Vec<u8>,
}

pub struct EntryModel {
    pub id: Seq<u8>,
    pub time: i64,
    pub tags: Seq<Seq<u8>>,
    pub payload: Seq<u8>,
}

impl View for Entry {
    type V = EntryModel;

    open spec fn view(&self) -> EntryModel {
        EntryModel {
            id: self.id@,
            time: self.publish_time,
            tags: key_views(self.tags@),
            payload: self.payload@,
        }
    }
}

pub open spec fn item_models(items: Seq<Item>) -> Seq<ItemModel> {
    items.map_values(|i: Item| i@)
}

pub open spec fn entry_models(entries: Seq<Entry>) -> Seq<EntryModel> {
    entries.map_values(|e: Entry| e@)
}

pub open spec fn all_valid(tags: Seq<Seq<u8>>) -> bool {
    forall|i: int| 0 <= i < tags.len() ==> valid_tag(#[trigger] tags[i])
}

pub open spec fn staged_ids(acc: Seq<EntryModel>) -> Seq<Seq<u8>> {
    acc.map_values(|e: EntryModel| e.id)
}

/// Stages `items` in order after `acc`. An item whose id the content store
/// holds (`present`) is passed over unchecked. Any other item needs valid
/// tags and a publish time that parses, else the whole call fails; it is
/// then staged, unless an earlier item of the call staged its id already.
pub open spec fn plan_from(acc: Seq<EntryModel>, items: Seq<ItemModel>, present: Seq<bool>) -> Result<
    Seq<EntryModel>,
    ArchiveError,
>
    decreases items.len(),
{
    if items.len() == 0 {
        Ok(acc)
    } else if present[0] {
        plan_from(acc, items.drop_first(), present.drop_first())
    } else if !all_valid(items[0].tags) {
        Err(ArchiveError::InvalidTag)
    } else {
        match parsed_seconds(items[0].time) {
            None => Err(ArchiveError::MalformedTimestamp),
            Some(t) => if staged_ids(acc).contains(items[0].id) {
                plan_from(acc, items.drop_first(), present.drop_first())
            } else {
                plan_from(
                    acc.push(
                        EntryModel {
                            id: items[0].id,
                            time: t,
                            tags: items[0].tags,
                            payload: items[0].payload,
                        },
                    ),
                    items.drop_first(),
                    present.drop_first(),
                )
            },
        }
    }
}

/// The entries that one ingestion call writes.
pub open spec fn plan(items: Seq<ItemModel>, present: Seq<bool>) -> Result<Seq<EntryModel>, ArchiveError> {
    plan_from(Seq::empty(), items, present)
}

fn is_staged(acc: &Vec<Entry>, id: &[u8]) -> (r: bool)
    ensures
        r == staged_ids(entry_models(acc@)).contains(id@),
{
    let ghost ids = staged_ids(entry_models(acc@));
    let mut j: usize = 0;
    while j < acc.len()
        invariant
            j <= acc@.len(),
            ids == staged_ids(entry_models(acc@)),
            forall|k: int| 0 <= k < j ==> ids[k] != id@,
        decreases acc@.len() - j,
    {
        if bytes_eq(acc[j].id.as_slice(), id) {
            assert(ids[j as int] == id@);
            return true;
        }
        j = j + 1;
    }
    false
}

/// The bytes of each tag, or `InvalidTag` if one cannot stand in a key.
fn tag_bytes(tags: &Vec<String>) -> (r: Result<Vec<Vec<u8>>, ArchiveError>)
    ensures
        all_valid(tags@.map_values(|t: String| encode_utf8(t@))) ==> r.is_ok() && key_views(r.unwrap()@)
            == tags@.map_values(|t: String| encode_utf8(t@)),
        !all_valid(tags@.map_values(|t: String| encode_utf8(t@))) ==> r == Err::<
            Vec<Vec<u8>>,
            ArchiveError,
        >(ArchiveError::InvalidTag),
{
    let ghost want = tags@.map_values(|t: String| encode_utf8(t@));
    let mut out: Vec<Vec<u8>> = Vec::new();
    let mut i: usize = 0;
    while i < tags.len()
        invariant
            i <= tags@.len(),
            want == tags@.map_values(|t: String| encode_utf8(t@)),
            key_views(out@) == want.subrange(0, i as int),
            forall|j: int| 0 <= j < i ==> valid_tag(#[trigger] want[j]),
        decreases tags@.len() - i,
    {
        let b = tags[i].as_str().as_bytes();
        if !is_valid_tag(b) {
            assert(!valid_tag(want[i as int]));
            return Err(ArchiveError::InvalidTag);
        }
        let c = copy_bytes(b);
        let ghost before = key_views(out@);
        out.push(c);
        assert(key_views(out@) =~= before.push(want[i as int]));
        i = i + 1;
        assert(key_views(out@) =~= want.subrange(0, i as int));
    }
    assert(want.subrange(0, i as int) =~= want);
    Ok(out)
}

/// Decides, item by item, what one ingestion call writes: `present[i]` says
/// whether the content store already holds `items[i]`'s id.
pub fn plan_ingest(items: &Vec<Item>, present: &Vec<bool>) -> (r: Result<Vec<Entry>, ArchiveError>)
    requires
        items@.len() == present@.len(),
    ensures
        match plan(item_models(items@), present@) {
            Ok(es) => r.is_ok() && entry_models(r.unwrap()@) == es,
            Err(e) => r == Err::<Vec<Entry>, ArchiveError>(e),
        },
{
    let ghost all = item_models(items@);
    let mut acc: Vec<Entry> = Vec::new();
    let mut i: usize = 0;
    assert(all.skip(0) =~= all);
    assert(present@.skip(0) =~= present@);
    assert(entry_models(acc@) =~= Seq::<EntryModel>::empty());
    while i < items.len()
        invariant
            i <= items@.len(),
            items@.len() == present@.len(),
            all == item_models(items@),
            plan(all, present@) == plan_from(entry_models(acc@), all.skip(i as int), present@.skip(i as int)),
        decreases items@.len() - i,
    {
        let item = &items[i];
        let ghost im = all[i as int];
        assert(all.skip(i as int)[0] == im);
        assert(all.skip(i as int).drop_first() =~= all.skip(i + 1));
        assert(present@.skip(i as int).drop_first() =~= present@.skip(i + 1));
        let id = item.id.as_str().as_bytes();
        if present[i] {
            i = i + 1;
        } else {
            let tags = match tag_bytes(&item.tags) {
                Ok(tags) => tags,
                Err(e) => {
                    return Err(e);
                },
            };
            match parse_seconds(item.publish_time.as_str()) {
                None => {
                    return Err(ArchiveError::MalformedTimestamp);
                },
                Some(t) => {
                    if !is_staged(&acc, id) {
                        let e = Entry {
                            id: copy_bytes(id),
                            publish_time: t,
                            tags,
                            payload: copy_bytes(item.payload.as_slice()),
                        };
                        let ghost before = entry_models(acc@);
                        acc.push(e);
                        assert(entry_models(acc@) =~= before.push(
                            EntryModel { id: im.id, time: t, tags: im.tags, payload: im.payload },
                        ));
                    }
                    i = i + 1;
                },
            }
        }
    }
    assert(all.skip(i as int) =~= Seq::<ItemModel>::empty());
    Ok(acc)
}

/// Chronological-index key of an entry.
pub fn entry_chrono_key(e: &Entry) -> (r: Vec<u8>)
    ensures
        r@ == chrono_key(e.publish_time, e.id@),
{
    encode_chrono_key_bytes(e.publish_time, e.id.as_slice())
}

/// Tag-index keys of an entry, one per tag, in the order of its tags.
pub fn entry_tag_keys(e: &Entry) -> (r: Vec<Vec<u8>>)
    requires
        all_valid(e@.tags),
    ensures
        key_views(r@) == e@.tags.map_values(|tag: Seq<u8>| tag_index_key(tag, e.publish_time, e.id@)),
{
    let ghost want = e@.tags.map_values(|tag: Seq<u8>| tag_index_key(tag, e.publish_time, e.id@));
    let mut out: Vec<Vec<u8>> = Vec::new();
    let mut i: usize = 0;
    while i < e.tags.len()
        invariant
            i <= e.tags@.len(),
            all_valid(e@.tags),
            want == e@.tags.map_values(|tag: Seq<u8>| tag_index_key(tag, e.publish_time, e.id@)),
            key_views(out@) == want.subrange(0, i as int),
        decreases e.tags@.len() - i,
    {
        assert(valid_tag(e@.tags[i as int]));
        match encode_tag_key_bytes(e.tags[i].as_slice(), e.publish_time, e.id.as_slice()) {
            Ok(k) => {
                let ghost before = key_views(out@);
                out.push(k);
                assert(key_views(out@) =~= before.push(want[i as int]));
            },
            Err(_) => {
                assert(false);
            },
        }
        i = i + 1;
        assert(key_views(out@) =~= want.subrange(0, i as int));
    }
    assert(want.subrange(0, i as int) =~= want);
    out
}

/// Staged entries are new to the store, carry valid tags, and have distinct ids.
pub open spec fn fresh_entries(held: Set<Seq<u8>>, es: Seq<EntryModel>) -> bool {
    &&& forall|k: int| 0 <= k < es.len() ==> !held.contains(#[trigger] es[k].id) && all_valid(es[k].tags)
    &&& forall|k: int, l: int| 0 <= k < l < es.len() ==> #[trigger] es[k].id != #[trigger] es[l].id
}

/// Each item passed over or staged ends up held or staged.
pub open spec fn all_covered(held: Set<Seq<u8>>, items: Seq<ItemModel>, es: Seq<EntryModel>) -> bool {
    forall|k: int| 0 <= k < items.len() ==> held.contains(#[trigger] items[k].id) || staged_ids(es).contains(items[k].id)
}

pub open spec fn presence(held: Set<Seq<u8>>, items: Seq<ItemModel>) -> Seq<bool> {
    items.map_values(|i: ItemModel| held.contains(i.id))
}

pub proof fn lemma_plan_from(held: Set<Seq<u8>>, acc: Seq<EntryModel>, items: Seq<ItemModel>)
    requires
        fresh_entries(held, acc),
        plan_from(acc, items, presence(held, items)) is Ok,
    ensures
        fresh_entries(held, plan_from(acc, items, presence(held, items))->Ok_0),
        all_covered(held, items, plan_from(acc, items, presence(held, items))->Ok_0),
        acc.len() <= plan_from(acc, items, presence(held, items))->Ok_0.len(),
        forall|k: int| 0 <= k < acc.len() ==> #[trigger] plan_from(acc, items, presence(held, items))->Ok_0[k] == acc[k],
    decreases items.len(),
{
    let pres = presence(held, items);
    if items.len() > 0 {
        let rest = items.drop_first();
        assert(pres.drop_first() =~= presence(held, rest));
        if pres[0] || staged_ids(acc).contains(items[0].id) {
            lemma_plan_from(held, acc, rest);
        } else {
            assert(all_valid(items[0].tags));
            let t = parsed_seconds(items[0].time)->Some_0;
            let e = EntryModel { id: items[0].id, time: t, tags: items[0].tags, payload: items[0].payload };
            let acc2 = acc.push(e);
            assert forall|k: int, l: int| 0 <= k < l < acc2.len() implies #[trigger] acc2[k].id != #[trigger] acc2[l].id by {
                if l == acc.len() {
                    assert(staged_ids(acc)[k] == acc[k].id);
                }
            }
            lemma_plan_from(held, acc2, rest);
            let res = plan_from(acc2, rest, presence(held, rest))->Ok_0;
            assert(acc2[acc.len() as int] == e);
            assert(res[acc.len() as int] == acc2[acc.len() as int]);
            assert forall|k: int| 0 <= k < acc.len() implies #[trigger] res[k] == acc[k] by {
                assert(res[k] == acc2[k]);
            }
            assert(staged_ids(res)[acc.len() as int] == items[0].id);
        }
        let res = plan_from(acc, items, pres)->Ok_0;
        assert forall|k: int| 0 <= k < items.len() implies held.contains(#[trigger] items[k].id) || staged_ids(res).contains(items[k].id) by {
            if k > 0 {
                assert(rest[k - 1] == items[k]);
            } else if pres[0] {
            } else if staged_ids(acc).contains(items[0].id) {
                let j = choose|j: int| 0 <= j < staged_ids(acc).len() && staged_ids(acc)[j] == items[0].id;
                assert(staged_ids(res)[j] == items[0].id);
            } else {
                assert(staged_ids(res)[acc.len() as int] == items[0].id);
            }
        }
    }
}

/// A successful plan stages only new items, with valid tags and distinct ids,
/// and leaves no item of the call neither held nor staged.
pub proof fn lemma_plan(held: Set<Seq<u8>>, items: Seq<ItemModel>)
    requires
        plan(items, presence(held, items)) is Ok,
    ensures
        fresh_entries(held, plan(items, presence(held, items))->Ok_0),
        all_covered(held, items, plan(items, presence(held, items))->Ok_0),
{
    lemma_plan_from(held, Seq::empty(), items);
}

/// With every item's id held, a plan stages nothing.
pub proof fn lemma_plan_all_held(held: Set<Seq<u8>>, acc: Seq<EntryModel>, items: Seq<ItemModel>)
    requires
        forall|k: int| 0 <= k < items.len() ==> held.contains(#[trigger] items[k].id),
    ensures
        plan_from(acc, items, presence(held, items)) == Ok::<Seq<EntryModel>, ArchiveError>(acc),
    decreases items.len(),
{
    if items.len() > 0 {
        let rest = items.drop_first();
        assert(presence(held, items).drop_first() =~= presence(held, rest));
        assert(held.contains(items[0].id));
        assert forall|k: int| 0 <= k < rest.len() implies held.contains(#[trigger] rest[k].id) by {
            assert(rest[k] == items[k + 1]);
        }
        lemma_plan_all_held(held, acc, rest);
    }
}

} // verus!

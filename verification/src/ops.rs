//! The engine's mutating operations: capture upsert with its dedup guard,
//! favorite toggling, deletion, clearing, and the preview strip applied
//! before anything is persisted or handed to the UI.

use vstd::prelude::*;
use vstd::string::StringExecFns;
use crate::item::{ClipboardItem, ItemModel, spec_same_key, spec_fingerprint, fingerprint,
    clone_item};
use crate::history::{spec_models, spec_clean_post, spec_key_covered, spec_entry_from,
    spec_key_fav, spec_eq_but_fav};

verus! {

/// Why an operation failed.
#[derive(Clone, Copy, PartialEq, Eq, Structural, Debug)]
pub enum EngineError {
    /// No history record has the given id.
    ItemNotFound,
    /// An image record without a blob path cannot be copied.
    MissingImagePath,
}

impl EngineError {
    /// A human-readable reason for the failure.
    pub fn message(&self) -> (r: String)
        ensures
            *self is ItemNotFound ==> r@ == "history item not found"@,
            *self is MissingImagePath ==> r@ == "image path missing"@,
    {
        match self {
            EngineError::ItemNotFound => String::from_str("history item not found"),
            EngineError::MissingImagePath => String::from_str("image path missing"),
        }
    }
}

/// The first index holding a record of `m`'s key.
pub open spec fn spec_find_key(s: Seq<ItemModel>, m: ItemModel) -> Option<int>
    decreases s.len(),
{
    if s.len() == 0 {
        None
    } else if spec_same_key(s[0], m) {
        Some(0)
    } else {
        match spec_find_key(s.drop_first(), m) {
            Some(i) => Some(i + 1),
            None => None,
        }
    }
}

proof fn lemma_find_key_at(s: Seq<ItemModel>, m: ItemModel, i: int)
    requires
        0 <= i < s.len(),
        spec_same_key(s[i], m),
        forall|l: int| 0 <= l < i ==> !spec_same_key(#[trigger] s[l], m),
    ensures
        spec_find_key(s, m) == Some(i),
    decreases i,
{
    if i > 0 {
        assert(s.drop_first()[i - 1] == s[i]);
        assert forall|l: int| 0 <= l < i - 1 implies !spec_same_key(
            #[trigger] s.drop_first()[l],
            m,
        ) by {
            assert(s.drop_first()[l] == s[l + 1]);
        }
        lemma_find_key_at(s.drop_first(), m, i - 1);
    }
}

proof fn lemma_find_key_none(s: Seq<ItemModel>, m: ItemModel)
    requires
        forall|l: int| 0 <= l < s.len() ==> !spec_same_key(#[trigger] s[l], m),
    ensures
        spec_find_key(s, m) is None,
    decreases s.len(),
{
    if s.len() > 0 {
        assert forall|l: int| 0 <= l < s.len() - 1 implies !spec_same_key(
            #[trigger] s.drop_first()[l],
            m,
        ) by {
            assert(s.drop_first()[l] == s[l + 1]);
        }
        lemma_find_key_none(s.drop_first(), m);
    }
}

/// What the capture upsert leaves in history: a record of the incoming key
/// moved to the front — merged with the existing record of that key when
/// there is one — and the tail cut to the limit.
pub open spec fn spec_upsert(s: Seq<ItemModel>, inc: ItemModel, limit: nat, now: u64) -> Seq<
    ItemModel,
> {
    let base = match spec_find_key(s, inc) {
        Some(i) => {
            let old = s[i];
            let merged = ItemModel {
                updated_at: now,
                image_preview_data_url: if inc.image_preview_data_url is Some {
                    inc.image_preview_data_url
                } else {
                    old.image_preview_data_url
                },
                ..old
            };
            seq![merged] + s.remove(i)
        },
        None => seq![inc] + s,
    };
    if base.len() > limit {
        base.take(limit as int)
    } else {
        base
    }
}

/// Merges a fresh capture into history: an existing record of the same key
/// is refreshed and moved to the front, otherwise the record is inserted at
/// the front; then the oldest records beyond the limit are evicted.
pub fn dedupe_and_upsert(
    items: &mut Vec<ClipboardItem>,
    incoming: ClipboardItem,
    history_limit: usize,
    now: u64,
)
    ensures
        spec_models(final(items)@) == spec_upsert(
            spec_models(old(items)@),
            incoming@,
            history_limit as nat,
            now,
        ),
{
    let ghost s = spec_models(items@);
    let ghost incm = incoming@;
    let mut found: Option<usize> = None;
    let mut k: usize = 0;
    while k < items.len() && found.is_none()
        invariant
            k <= items@.len(),
            s == spec_models(items@),
            incm == incoming@,
            found matches Some(f) ==> f < s.len() && spec_same_key(s[f as int], incm)
                && forall|l: int| 0 <= l < f ==> !spec_same_key(#[trigger] s[l], incm),
            found is None ==> forall|l: int| 0 <= l < k ==> !spec_same_key(#[trigger] s[l], incm),
        decreases items@.len() - k + (if found is None {
            1int
        } else {
            0int
        }),
    {
        let tyeq = match (items[k].item_type, incoming.item_type) {
            (crate::item::ItemType::Text, crate::item::ItemType::Text) => true,
            (crate::item::ItemType::Image, crate::item::ItemType::Image) => true,
            _ => false,
        };
        proof {
            assert(s[k as int] == items@[k as int]@);
        }
        if tyeq && items[k].content_hash == incoming.content_hash {
            found = Some(k);
        } else {
            k = k + 1;
        }
    }
    match found {
        Some(i) => {
            proof {
                lemma_find_key_at(s, incm, i as int);
            }
            let mut merged = items.remove(i);
            merged.updated_at = now;
            merged.image_preview_data_url = match incoming.image_preview_data_url {
                Some(p) => Some(p),
                None => merged.image_preview_data_url,
            };
            items.insert(0, merged);
            proof {
                assert(spec_models(items@) =~= seq![merged@] + s.remove(i as int));
            }
        },
        None => {
            proof {
                lemma_find_key_none(s, incm);
            }
            items.insert(0, incoming);
            proof {
                assert(spec_models(items@) =~= seq![incm] + s);
            }
        },
    }
    let ghost base = spec_models(items@);
    if items.len() > history_limit {
        items.truncate(history_limit);
        proof {
            assert(spec_models(items@) =~= base.take(history_limit as int));
        }
    }
}

/// Bounded history: inserting a record whose key is new keeps the newest
/// records and evicts from the tail; the length never passes the limit.
pub proof fn lemma_bounded_history(s: Seq<ItemModel>, inc: ItemModel, limit: nat, now: u64)
    requires
        limit >= 1,
        forall|l: int| 0 <= l < s.len() ==> !spec_same_key(#[trigger] s[l], inc),
    ensures
        ({
            let r = spec_upsert(s, inc, limit, now);
            &&& r.len() == (if s.len() + 1 <= limit {
                (s.len() + 1) as int
            } else {
                limit as int
            })
            &&& r[0] == inc
            &&& forall|k: int| 1 <= k < r.len() ==> r[k] == s[k - 1]
        }),
{
    lemma_find_key_none(s, inc);
    let base = seq![inc] + s;
    let r = spec_upsert(s, inc, limit, now);
    if base.len() > limit {
        assert(r =~= base.take(limit as int));
    }
    assert(base[0] == inc);
    assert(forall|k: int| 1 <= k < base.len() ==> base[k] == s[k - 1]);
}

/// The dedup guard: accepts a fingerprint only when it differs from the last
/// accepted one, and then remembers it.
pub open spec fn spec_guard_accept(g: Option<Seq<char>>, fp: Seq<char>) -> (Option<Seq<char>>, bool) {
    if g == Some(fp) {
        (g, false)
    } else {
        (Some(fp), true)
    }
}

/// Checks a capture fingerprint against the guard and updates it. Returns
/// whether the capture is novel and should enter history.
pub fn guard_accept(guard: &mut Option<String>, fp: String) -> (novel: bool)
    ensures
        (final(guard).deep_view(), novel) == spec_guard_accept(old(guard).deep_view(), fp@),
{
    let same = match guard {
        Some(g) => *g == fp,
        None => false,
    };
    if same {
        false
    } else {
        *guard = Some(fp);
        true
    }
}

/// Dedup idempotence: once a fingerprint is accepted, offering it again is
/// rejected and leaves the guard unchanged.
pub proof fn lemma_dedup_idempotent(g: Option<Seq<char>>, fp: Seq<char>)
    ensures
        ({
            let (g1, first) = spec_guard_accept(g, fp);
            let (g2, second) = spec_guard_accept(g1, fp);
            &&& g1 == Some(fp)
            &&& !second
            &&& g2 == g1
        }),
{
}

/// Clearing resets the guard to the clipboard's current fingerprint: content
/// still on the clipboard is rejected by the next poll, while changed
/// content is accepted.
pub proof fn lemma_clear_guard(x: Seq<char>, y: Seq<char>)
    requires
        x != y,
    ensures
        !spec_guard_accept(Some(x), x).1,
        spec_guard_accept(Some(x), y).1,
{
}

/// The first index holding the record with the given id.
pub open spec fn spec_find_id(s: Seq<ItemModel>, id: Seq<char>) -> Option<int>
    decreases s.len(),
{
    if s.len() == 0 {
        None
    } else if s[0].id == id {
        Some(0)
    } else {
        match spec_find_id(s.drop_first(), id) {
            Some(i) => Some(i + 1),
            None => None,
        }
    }
}

proof fn lemma_find_id_at(s: Seq<ItemModel>, id: Seq<char>, i: int)
    requires
        0 <= i < s.len(),
        s[i].id == id,
        forall|l: int| 0 <= l < i ==> (#[trigger] s[l]).id != id,
    ensures
        spec_find_id(s, id) == Some(i),
    decreases i,
{
    if i > 0 {
        assert(s.drop_first()[i - 1] == s[i]);
        assert forall|l: int| 0 <= l < i - 1 implies (#[trigger] s.drop_first()[l]).id != id by {
            assert(s.drop_first()[l] == s[l + 1]);
        }
        lemma_find_id_at(s.drop_first(), id, i - 1);
    }
}

proof fn lemma_find_id_none(s: Seq<ItemModel>, id: Seq<char>)
    requires
        forall|l: int| 0 <= l < s.len() ==> (#[trigger] s[l]).id != id,
    ensures
        spec_find_id(s, id) is None,
    decreases s.len(),
{
    if s.len() > 0 {
        assert forall|l: int| 0 <= l < s.len() - 1 implies (#[trigger] s.drop_first()[l]).id
            != id by {
            assert(s.drop_first()[l] == s[l + 1]);
        }
        lemma_find_id_none(s.drop_first(), id);
    }
}

fn find_by_id(items: &Vec<ClipboardItem>, id: &str) -> (r: Option<usize>)
    ensures
        match r {
            Some(i) => i < items@.len() && spec_find_id(spec_models(items@), id@) == Some(i as int),
            None => spec_find_id(spec_models(items@), id@) is None,
        },
{
    let ghost s = spec_models(items@);
    let ids = String::from_str(id);
    let mut k: usize = 0;
    while k < items.len()
        invariant
            k <= items@.len(),
            s == spec_models(items@),
            ids@ == id@,
            forall|l: int| 0 <= l < k ==> (#[trigger] s[l]).id != id@,
        decreases items@.len() - k,
    {
        proof {
            assert(s[k as int] == items@[k as int]@);
        }
        if items[k].id == ids {
            proof {
                lemma_find_id_at(s, id@, k as int);
            }
            return Some(k);
        }
        k = k + 1;
    }
    proof {
        lemma_find_id_none(s, id@);
    }
    None
}

/// Looks up the record with the given id, as the preview operation must
/// before the application reads its blob.
pub fn find_item(items: &Vec<ClipboardItem>, id: &str) -> (r: Option<ClipboardItem>)
    ensures
        ({
            let s = spec_models(items@);
            match spec_find_id(s, id@) {
                Some(i) => r matches Some(it) && it@ == s[i],
                None => r is None,
            }
        }),
{
    let ghost s = spec_models(items@);
    match find_by_id(items, id) {
        Some(i) => {
            proof {
                assert(s[i as int] == items@[i as int]@);
            }
            Some(clone_item(&items[i]))
        },
        None => None,
    }
}

/// Flips the favorite flag of the record with the given id, bumps its update
/// time and moves it to the front. An unknown id is no error: nothing
/// changes and nothing is returned.
pub fn toggle_favorite(items: &mut Vec<ClipboardItem>, id: &str, now: u64) -> (r: Option<
    ClipboardItem,
>)
    ensures
        ({
            let s = spec_models(old(items)@);
            match spec_find_id(s, id@) {
                Some(i) => {
                    let upd = ItemModel {
                        is_favorite: !s[i].is_favorite,
                        updated_at: now,
                        ..s[i]
                    };
                    &&& spec_models(final(items)@) == seq![upd] + s.remove(i)
                    &&& r matches Some(it) && it@ == upd
                },
                None => final(items)@ == old(items)@ && r is None,
            }
        }),
{
    let ghost s = spec_models(items@);
    match find_by_id(items, id) {
        Some(i) => {
            let mut it = items.remove(i);
            it.is_favorite = !it.is_favorite;
            it.updated_at = now;
            let copy = clone_item(&it);
            items.insert(0, it);
            proof {
                assert(spec_models(items@) =~= seq![copy@] + s.remove(i as int));
            }
            Some(copy)
        },
        None => None,
    }
}

/// Removes the record with the given id, clearing the dedup guard when it
/// pointed at that record. An unknown id is an error and changes nothing.
/// The removed record is returned so its blob can be deleted.
pub fn delete_item(
    items: &mut Vec<ClipboardItem>,
    guard: &mut Option<String>,
    id: &str,
) -> (r: Result<ClipboardItem, EngineError>)
    ensures
        ({
            let s = spec_models(old(items)@);
            match spec_find_id(s, id@) {
                Some(i) => {
                    &&& r matches Ok(it) && it@ == s[i]
                    &&& spec_models(final(items)@) == s.remove(i)
                    &&& final(guard).deep_view() == (if old(guard).deep_view() == Some(
                        spec_fingerprint(s[i]),
                    ) {
                        None::<Seq<char>>
                    } else {
                        old(guard).deep_view()
                    })
                },
                None => {
                    &&& r matches Err(e) && e is ItemNotFound
                    &&& final(items)@ == old(items)@
                    &&& *final(guard) == *old(guard)
                },
            }
        }),
{
    let ghost s = spec_models(items@);
    match find_by_id(items, id) {
        Some(i) => {
            let removed = items.remove(i);
            proof {
                assert(spec_models(items@) =~= s.remove(i as int));
            }
            let fp = fingerprint(&removed);
            let matches_guard = match guard {
                Some(g) => *g == fp,
                None => false,
            };
            if matches_guard {
                *guard = None;
            }
            Ok(removed)
        },
        None => Err(EngineError::ItemNotFound),
    }
}

/// Empties history and points the dedup guard at the clipboard's current
/// fingerprint, so unchanged clipboard content is not immediately
/// re-captured.
pub fn clear_history_state(
    items: &mut Vec<ClipboardItem>,
    guard: &mut Option<String>,
    current_fp: Option<String>,
)
    ensures
        final(items)@.len() == 0,
        final(guard).deep_view() == current_fp.deep_view(),
{
    items.truncate(0);
    *guard = current_fp;
}

/// The transient preview field of every record cleared, as records are
/// persisted or handed to the UI.
pub open spec fn spec_strip(m: ItemModel) -> ItemModel {
    ItemModel { image_preview_data_url: None, ..m }
}

/// Clears the transient preview field of every record.
pub fn strip_previews(items: Vec<ClipboardItem>) -> (r: Vec<ClipboardItem>)
    ensures
        spec_models(r@) == spec_models(items@).map_values(|m: ItemModel| spec_strip(m)),
{
    let ghost s = spec_models(items@);
    let mut rest = items;
    let mut out: Vec<ClipboardItem> = Vec::new();
    while rest.len() > 0
        invariant
            s.len() == out@.len() + rest@.len(),
            forall|i: int|
                0 <= i < out@.len() ==> spec_models(out@)[i] == spec_strip(#[trigger] s[i]),
            forall|i: int| 0 <= i < rest@.len() ==> spec_models(rest@)[i] == s[out@.len() + i],
        decreases rest@.len(),
    {
        let ghost restm = spec_models(rest@);
        let mut it = rest.remove(0);
        proof {
            assert(it@ == restm[0]);
            assert(spec_models(rest@) =~= restm.drop_first());
        }
        it.image_preview_data_url = None;
        out.push(it);
    }
    proof {
        assert(spec_models(out@) =~= s.map_values(|m: ItemModel| spec_strip(m)));
    }
    out
}

/// What the application must push onto the system clipboard for a record.
pub enum CopyPayload {
    /// The record's text.
    Text(String),
    /// The blob path, relative to the storage root, of the image to load.
    ImagePath(String),
}

/// Resolves a copy request: the record's text, or the blob path the
/// application must load. Fails on an unknown id, and on an image record
/// without a path.
pub fn prepare_copy(items: &Vec<ClipboardItem>, id: &str) -> (r: Result<CopyPayload, EngineError>)
    ensures
        ({
            let s = spec_models(items@);
            match spec_find_id(s, id@) {
                Some(i) => {
                    if s[i].item_type is Text {
                        r matches Ok(p) && (p matches CopyPayload::Text(t) && Some(t@) == (if s[i].text is Some {
                            s[i].text
                        } else {
                            Some(Seq::<char>::empty())
                        }))
                    } else if s[i].image_path is Some {
                        r matches Ok(p) && (p matches CopyPayload::ImagePath(q) && Some(q@)
                            == s[i].image_path)
                    } else {
                        r matches Err(e) && e is MissingImagePath
                    }
                },
                None => r matches Err(e) && e is ItemNotFound,
            }
        }),
{
    let ghost s = spec_models(items@);
    match find_by_id(items, id) {
        Some(i) => {
            proof {
                assert(s[i as int] == items@[i as int]@);
            }
            match items[i].item_type {
                crate::item::ItemType::Text => {
                    match &items[i].text {
                        Some(t) => Ok(CopyPayload::Text(t.clone())),
                        None => Ok(CopyPayload::Text(String::new())),
                    }
                },
                crate::item::ItemType::Image => {
                    match &items[i].image_path {
                        Some(p) => Ok(CopyPayload::ImagePath(p.clone())),
                        None => Err(EngineError::MissingImagePath),
                    }
                },
            }
        },
        None => Err(EngineError::ItemNotFound),
    }
}

/// Records that the engine itself pushed this record onto the clipboard, so
/// the next poll does not re-capture it.
pub fn mark_copied(guard: &mut Option<String>, item: &ClipboardItem)
    ensures
        final(guard).deep_view() == Some(spec_fingerprint(item@)),
{
    let fp = fingerprint(item);
    *guard = Some(fp);
}

/// Merge correctness: two records of one key always collapse to a single
/// entry whose favorite flag is the OR of both and whose update time is the
/// later of the two.
pub proof fn lemma_merge_correctness(s: Seq<ItemModel>, r: Seq<ItemModel>, limit: nat)
    requires
        s.len() == 2,
        spec_same_key(s[0], s[1]),
        limit >= 1,
        spec_clean_post(s, r, limit),
    ensures
        r.len() == 1,
        r[0].is_favorite == (s[0].is_favorite || s[1].is_favorite),
        r[0].updated_at == if s[0].updated_at >= s[1].updated_at {
            s[0].updated_at
        } else {
            s[1].updated_at
        },
{
    reveal(spec_entry_from);
    assert(r.len() > 0);
    if r.len() >= 2 {
        // every entry carries the single key, so two entries break uniqueness
        let w0 = choose|j: int| 0 <= j < s.len() && spec_eq_but_fav(#[trigger] s[j], r[0]);
        let w1 = choose|j: int| 0 <= j < s.len() && spec_eq_but_fav(#[trigger] s[j], r[1]);
        assert(spec_same_key(s[w0], r[0]) && spec_same_key(s[w1], r[1]));
        assert(spec_same_key(r[0], r[1]));
        assert(false);
    }
    assert(r.len() == 1);
    let m = r[0];
    assert(m.is_favorite == spec_key_fav(s, m));
    if s[0].is_favorite || s[1].is_favorite {
        let w = choose|j: int| 0 <= j < s.len() && spec_eq_but_fav(#[trigger] s[j], m);
        if s[0].is_favorite {
            assert(spec_same_key(s[0], m));
        } else {
            assert(spec_same_key(s[1], m));
        }
        assert(spec_key_fav(s, m));
    }
    if spec_key_fav(s, m) {
        let l = choose|l: int| 0 <= l < s.len() && spec_same_key(#[trigger] s[l], m)
            && s[l].is_favorite;
        assert(l == 0 || l == 1);
    }
    let w = choose|j: int| 0 <= j < s.len() && spec_eq_but_fav(#[trigger] s[j], m);
    assert(s[0].updated_at <= m.updated_at && s[1].updated_at <= m.updated_at);
    assert(m.updated_at == s[w].updated_at);
}

} // verus!

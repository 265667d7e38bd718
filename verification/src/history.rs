//! The bounded, recency-ordered, duplicate-free history: the upsert run on
//! every capture, and the defensive clean pass run on every load.

use vstd::prelude::*;
use vstd::multiset::Multiset;
use crate::item::{ClipboardItem, ItemModel, ItemType, spec_same_key, clone_item};
use crate::text::{normalize_text, spec_normalize_text, lemma_normalize_idempotent};

verus! {

/// The records of a vector as mathematics.
pub open spec fn spec_models(s: Seq<ClipboardItem>) -> Seq<ItemModel> {
    Seq::new(s.len(), |i: int| s[i]@)
}

/// Descending recency order: most recently updated first.
pub open spec fn spec_sorted_desc(s: Seq<ItemModel>) -> bool {
    forall|i: int, j: int| 0 <= i < j < s.len() ==> s[i].updated_at >= s[j].updated_at
}

/// At most one record per dedup key.
pub open spec fn spec_unique_keys(s: Seq<ItemModel>) -> bool {
    forall|i: int, j: int| 0 <= i < j < s.len() ==> !spec_same_key(s[i], s[j])
}

/// `x` is one of the records of `t`.
pub open spec fn spec_elem_of(x: ItemModel, t: Seq<ItemModel>) -> bool {
    exists|j: int| 0 <= j < t.len() && x == #[trigger] t[j]
}

/// Record `j` of `s` has a record of its key in `out`.
pub open spec fn spec_key_covered(s: Seq<ItemModel>, j: int, out: Seq<ItemModel>) -> bool {
    exists|i: int| 0 <= i < out.len() && spec_same_key(s[j], #[trigger] out[i])
}

/// Some record of `m`'s key in `s` is a favorite.
pub open spec fn spec_key_fav(s: Seq<ItemModel>, m: ItemModel) -> bool {
    exists|l: int| 0 <= l < s.len() && spec_same_key(#[trigger] s[l], m) && s[l].is_favorite
}

/// `m` is at least as recent as every record of its key in `s`.
pub open spec fn spec_is_key_max(s: Seq<ItemModel>, m: ItemModel) -> bool {
    forall|l: int|
        0 <= l < s.len() && spec_same_key(#[trigger] s[l], m) ==> s[l].updated_at <= m.updated_at
}

/// All fields but the favorite flag agree.
pub open spec fn spec_eq_but_fav(a: ItemModel, m: ItemModel) -> bool {
    &&& a.id == m.id
    &&& a.item_type == m.item_type
    &&& a.text == m.text
    &&& a.image_path == m.image_path
    &&& a.image_preview_data_url == m.image_preview_data_url
    &&& a.content_hash == m.content_hash
    &&& a.created_at == m.created_at
    &&& a.updated_at == m.updated_at
}

/// A clean entry is one input record of its key, carrying the OR of the
/// key's favorite flags and the key's latest update time.
#[verifier::opaque]
pub open spec fn spec_entry_from(s: Seq<ItemModel>, m: ItemModel) -> bool {
    &&& exists|j: int| 0 <= j < s.len() && spec_eq_but_fav(#[trigger] s[j], m)
    &&& m.is_favorite == spec_key_fav(s, m)
    &&& spec_is_key_max(s, m)
}

/// A record with its text payload normalized, as the clean pass repairs
/// persisted data.
pub open spec fn spec_norm_item(m: ItemModel) -> ItemModel {
    if m.item_type is Text && m.text is Some {
        ItemModel { text: Some(spec_normalize_text(m.text->Some_0)), ..m }
    } else {
        m
    }
}

/// Everything `clean_history` promises, over the normalized input models
/// `s`: bounded, sorted by recency, one record per key, every record merged
/// from the input, and, when nothing was evicted, every input key kept.
pub open spec fn spec_clean_post(s: Seq<ItemModel>, r: Seq<ItemModel>, limit: nat) -> bool {
    &&& r.len() <= limit
    &&& spec_sorted_desc(r)
    &&& spec_unique_keys(r)
    &&& forall|i: int| 0 <= i < r.len() ==> spec_entry_from(s, #[trigger] r[i])
    &&& (s.len() <= limit ==> forall|j: int|
        0 <= j < s.len() ==> #[trigger] spec_key_covered(s, j, r))
    &&& (s.len() > 0 && limit > 0 ==> r.len() > 0)
    &&& (r.len() > 0 ==> forall|j: int|
        0 <= j < s.len() ==> (#[trigger] spec_key_covered(s, j, r)) || s[j].updated_at <= r[r.len()
            - 1].updated_at)
}

proof fn lemma_keyfacts_extend_other(pre: Seq<ItemModel>, x: ItemModel, m: ItemModel)
    requires
        !spec_same_key(x, m),
    ensures
        spec_key_fav(pre.push(x), m) == spec_key_fav(pre, m),
        spec_is_key_max(pre.push(x), m) == spec_is_key_max(pre, m),
{
    let post = pre.push(x);
    if spec_key_fav(post, m) {
        let l = choose|l: int|
            0 <= l < post.len() && spec_same_key(#[trigger] post[l], m) && post[l].is_favorite;
        assert(l != pre.len());
        assert(pre[l] == post[l]);
        assert(spec_key_fav(pre, m));
    }
    if spec_key_fav(pre, m) {
        let l = choose|l: int|
            0 <= l < pre.len() && spec_same_key(#[trigger] pre[l], m) && pre[l].is_favorite;
        assert(post[l] == pre[l]);
        assert(spec_key_fav(post, m));
    }
    if spec_is_key_max(pre, m) {
        assert forall|l: int|
            0 <= l < post.len() && spec_same_key(#[trigger] post[l], m) implies post[l].updated_at
            <= m.updated_at by {
            if l == pre.len() {
                assert(post[l] == x);
            } else {
                assert(post[l] == pre[l]);
            }
        }
    }
    if spec_is_key_max(post, m) {
        assert forall|l: int|
            0 <= l < pre.len() && spec_same_key(#[trigger] pre[l], m) implies pre[l].updated_at
            <= m.updated_at by {
            assert(post[l] == pre[l]);
        }
    }
}

proof fn lemma_entry_extend_other(pre: Seq<ItemModel>, x: ItemModel, m: ItemModel)
    requires
        spec_entry_from(pre, m),
        !spec_same_key(x, m),
    ensures
        spec_entry_from(pre.push(x), m),
{
    reveal(spec_entry_from);
    let post = pre.push(x);
    let j = choose|j: int| 0 <= j < pre.len() && spec_eq_but_fav(#[trigger] pre[j], m);
    assert(post[j] == pre[j]);
    lemma_keyfacts_extend_other(pre, x, m);
}

proof fn lemma_entry_merged(pre: Seq<ItemModel>, x: ItemModel, cur: ItemModel, m: ItemModel)
    requires
        spec_entry_from(pre, cur),
        spec_same_key(x, cur),
        spec_same_key(m, cur),
        if x.updated_at > cur.updated_at {
            spec_eq_but_fav(x, m)
        } else {
            spec_eq_but_fav(cur, m)
        },
        m.is_favorite == (cur.is_favorite || x.is_favorite),
    ensures
        spec_entry_from(pre.push(x), m),
{
    reveal(spec_entry_from);
    let post = pre.push(x);
    let newer = x.updated_at > cur.updated_at;
    // a witness record carrying m's fields
    if newer {
        assert(post[pre.len() as int] == x);
        assert(spec_eq_but_fav(post[pre.len() as int], m));
    } else {
        let j = choose|j: int| 0 <= j < pre.len() && spec_eq_but_fav(#[trigger] pre[j], cur);
        assert(post[j] == pre[j]);
        assert(spec_eq_but_fav(post[j], m));
    }
    // the favorite flag is the OR over the key
    if m.is_favorite {
        if cur.is_favorite {
            let l = choose|l: int|
                0 <= l < pre.len() && spec_same_key(#[trigger] pre[l], cur) && pre[l].is_favorite;
            assert(post[l] == pre[l]);
            assert(spec_same_key(post[l], m));
            assert(spec_key_fav(post, m));
        } else {
            assert(x.is_favorite);
            assert(spec_same_key(post[pre.len() as int], m));
            assert(spec_key_fav(post, m));
        }
    }
    if spec_key_fav(post, m) {
        let l = choose|l: int|
            0 <= l < post.len() && spec_same_key(#[trigger] post[l], m) && post[l].is_favorite;
        if l == pre.len() {
            assert(x.is_favorite);
        } else {
            assert(pre[l] == post[l]);
            assert(spec_same_key(pre[l], cur));
            assert(spec_key_fav(pre, cur));
        }
        assert(m.is_favorite);
    }
    // the update time is the key's maximum
    assert forall|l: int|
        0 <= l < post.len() && spec_same_key(#[trigger] post[l], m) implies post[l].updated_at
        <= m.updated_at by {
        if l == pre.len() {
            assert(post[l] == x);
        } else {
            assert(post[l] == pre[l]);
            assert(spec_same_key(pre[l], cur));
            assert(pre[l].updated_at <= cur.updated_at);
        }
    }
}

proof fn lemma_entry_fresh(pre: Seq<ItemModel>, x: ItemModel, outpre: Seq<ItemModel>)
    requires
        forall|j: int| 0 <= j < pre.len() ==> #[trigger] spec_key_covered(pre, j, outpre),
        forall|q: int| 0 <= q < outpre.len() ==> !spec_same_key(#[trigger] outpre[q], x),
    ensures
        spec_entry_from(pre.push(x), x),
{
    reveal(spec_entry_from);
    let post = pre.push(x);
    assert(post[pre.len() as int] == x);
    assert(spec_eq_but_fav(post[pre.len() as int], x));
    assert forall|l: int|
        0 <= l < pre.len() implies !spec_same_key(#[trigger] pre[l], x) by {
        if spec_same_key(pre[l], x) {
            assert(spec_key_covered(pre, l, outpre));
            let q = choose|i: int| 0 <= i < outpre.len() && spec_same_key(pre[l], #[trigger] outpre[i]);
            assert(spec_same_key(outpre[q], x));
        }
    }
    if x.is_favorite {
        assert(spec_same_key(post[pre.len() as int], x));
        assert(spec_key_fav(post, x));
    }
    if spec_key_fav(post, x) {
        let l = choose|l: int|
            0 <= l < post.len() && spec_same_key(#[trigger] post[l], x) && post[l].is_favorite;
        if l != pre.len() {
            assert(spec_same_key(pre[l], x));
            assert(false);
        }
        assert(x.is_favorite);
    }
    assert forall|l: int|
        0 <= l < post.len() && spec_same_key(#[trigger] post[l], x) implies post[l].updated_at
        <= x.updated_at by {
        if l != pre.len() {
            assert(spec_same_key(pre[l], x));
            assert(false);
        }
    }
}

proof fn lemma_other_keeps_key_distance(
    outpre: Seq<ItemModel>,
    idx: int,
    i: int,
    itm: ItemModel,
)
    requires
        spec_unique_keys(outpre),
        0 <= idx < outpre.len(),
        0 <= i < outpre.len(),
        i != idx,
        spec_same_key(outpre[idx], itm),
    ensures
        !spec_same_key(itm, outpre[i]),
{
    if spec_same_key(itm, outpre[i]) {
        if idx < i {
            assert(spec_same_key(outpre[idx], outpre[i]));
        } else {
            assert(spec_same_key(outpre[i], outpre[idx]));
        }
    }
}

#[verifier::rlimit(100)]
#[verifier::spinoff_prover]
proof fn lemma_merge_step_some(
    s: Seq<ItemModel>,
    step: int,
    outpre: Seq<ItemModel>,
    outnow: Seq<ItemModel>,
    idx: int,
    mm: ItemModel,
)
    requires
        0 <= step < s.len(),
        0 <= idx < outpre.len(),
        spec_unique_keys(outpre),
        forall|i: int|
            0 <= i < outpre.len() ==> spec_entry_from(s.take(step), #[trigger] outpre[i]),
        forall|j: int| 0 <= j < step ==> #[trigger] spec_key_covered(s, j, outpre),
        spec_same_key(outpre[idx], s[step]),
        spec_same_key(mm, outpre[idx]),
        if s[step].updated_at > outpre[idx].updated_at {
            spec_eq_but_fav(s[step], mm)
        } else {
            spec_eq_but_fav(outpre[idx], mm)
        },
        mm.is_favorite == (outpre[idx].is_favorite || s[step].is_favorite),
        outnow == outpre.update(idx, mm),
    ensures
        spec_unique_keys(outnow),
        forall|i: int|
            0 <= i < outnow.len() ==> spec_entry_from(s.take(step + 1), #[trigger] outnow[i]),
        forall|j: int| 0 <= j < step + 1 ==> #[trigger] spec_key_covered(s, j, outnow),
{
    let pre = s.take(step);
    let post = s.take(step + 1);
    let itm = s[step];
    let curm = outpre[idx];
    assert(post =~= pre.push(itm));
    assert forall|i: int|
        0 <= i < outnow.len() implies spec_entry_from(post, #[trigger] outnow[i]) by {
        if i != idx {
            assert(outnow[i] == outpre[i]);
            lemma_other_keeps_key_distance(outpre, idx, i, itm);
            lemma_entry_extend_other(pre, itm, outpre[i]);
        } else {
            assert(outnow[i] == mm);
            lemma_entry_merged(pre, itm, curm, mm);
        }
    }
    assert forall|i1: int, i2: int|
        0 <= i1 < i2 < outnow.len() implies !spec_same_key(outnow[i1], outnow[i2]) by {
        if spec_same_key(outnow[i1], outnow[i2]) {
            assert(spec_same_key(outpre[i1], outpre[i2]));
        }
    }
    assert forall|j: int| 0 <= j < step + 1 implies #[trigger] spec_key_covered(
        s,
        j,
        outnow,
    ) by {
        if j == step {
            assert(spec_same_key(s[j], outnow[idx]));
        } else {
            assert(spec_key_covered(s, j, outpre));
            let i0 = choose|i: int|
                0 <= i < outpre.len() && spec_same_key(s[j], #[trigger] outpre[i]);
            if i0 == idx {
                assert(spec_same_key(s[j], outnow[idx]));
            } else {
                assert(spec_same_key(s[j], outnow[i0]));
            }
        }
    }
}

#[verifier::rlimit(100)]
#[verifier::spinoff_prover]
proof fn lemma_merge_step_none(
    s: Seq<ItemModel>,
    step: int,
    outpre: Seq<ItemModel>,
    outnow: Seq<ItemModel>,
)
    requires
        0 <= step < s.len(),
        spec_unique_keys(outpre),
        forall|i: int|
            0 <= i < outpre.len() ==> spec_entry_from(s.take(step), #[trigger] outpre[i]),
        forall|j: int| 0 <= j < step ==> #[trigger] spec_key_covered(s, j, outpre),
        forall|l: int| 0 <= l < outpre.len() ==> !spec_same_key(#[trigger] outpre[l], s[step]),
        outnow == outpre.push(s[step]),
    ensures
        spec_unique_keys(outnow),
        forall|i: int|
            0 <= i < outnow.len() ==> spec_entry_from(s.take(step + 1), #[trigger] outnow[i]),
        forall|j: int| 0 <= j < step + 1 ==> #[trigger] spec_key_covered(s, j, outnow),
{
    let pre = s.take(step);
    let post = s.take(step + 1);
    let itm = s[step];
    assert(post =~= pre.push(itm));
    assert forall|i: int|
        0 <= i < outnow.len() implies spec_entry_from(post, #[trigger] outnow[i]) by {
        if i < outpre.len() {
            assert(outnow[i] == outpre[i]);
            assert(!spec_same_key(outpre[i], itm));
            lemma_entry_extend_other(pre, itm, outpre[i]);
        } else {
            assert(outnow[i] == itm);
            assert forall|j: int| 0 <= j < pre.len() implies #[trigger] spec_key_covered(
                pre,
                j,
                outpre,
            ) by {
                assert(pre[j] == s[j]);
                assert(spec_key_covered(s, j, outpre));
                let q = choose|i: int|
                    0 <= i < outpre.len() && spec_same_key(s[j], #[trigger] outpre[i]);
                assert(spec_same_key(pre[j], outpre[q]));
            }
            lemma_entry_fresh(pre, itm, outpre);
        }
    }
    assert forall|i1: int, i2: int|
        0 <= i1 < i2 < outnow.len() implies !spec_same_key(outnow[i1], outnow[i2]) by {
        if i2 < outpre.len() {
            assert(outnow[i1] == outpre[i1] && outnow[i2] == outpre[i2]);
        } else {
            assert(outnow[i1] == outpre[i1] && outnow[i2] == itm);
        }
    }
    assert forall|j: int| 0 <= j < step + 1 implies #[trigger] spec_key_covered(
        s,
        j,
        outnow,
    ) by {
        if j == step {
            assert(spec_same_key(s[j], outnow[outpre.len() as int]));
        } else {
            assert(spec_key_covered(s, j, outpre));
            let i0 = choose|i: int|
                0 <= i < outpre.len() && spec_same_key(s[j], #[trigger] outpre[i]);
            assert(spec_same_key(s[j], outnow[i0]));
        }
    }
}

fn norm_item(item: ClipboardItem) -> (r: ClipboardItem)
    ensures
        r@ == spec_norm_item(item@),
{
    match item.item_type {
        ItemType::Text => {
            match item.text {
                Some(t) => {
                    let nt = normalize_text(t.as_str());
                    ClipboardItem { text: Some(nt), ..item }
                },
                None => ClipboardItem { text: None, ..item },
            }
        },
        ItemType::Image => item,
    }
}

fn same_key(a: &ClipboardItem, b: &ClipboardItem) -> (r: bool)
    ensures
        r == spec_same_key(a@, b@),
{
    let tyeq = match (a.item_type, b.item_type) {
        (ItemType::Text, ItemType::Text) => true,
        (ItemType::Image, ItemType::Image) => true,
        _ => false,
    };
    tyeq && a.content_hash == b.content_hash
}

/// Merges duplicates left to right: the first record of a key stays unless a
/// strictly newer one arrives, favorites are OR-ed, the update time becomes
/// the key's maximum.
#[verifier::rlimit(100)]
fn merge_duplicates(input: Vec<ClipboardItem>) -> (r: Vec<ClipboardItem>)
    ensures
        spec_unique_keys(spec_models(r@)),
        forall|i: int|
            0 <= i < r@.len() ==> spec_entry_from(spec_models(input@), #[trigger] spec_models(
                r@,
            )[i]),
        forall|j: int|
            0 <= j < input@.len() ==> #[trigger] spec_key_covered(
                spec_models(input@),
                j,
                spec_models(r@),
            ),
        r@.len() <= input@.len(),
{
    let ghost s = spec_models(input@);
    let mut out: Vec<ClipboardItem> = Vec::new();
    let ghost mut outm: Seq<ItemModel> = Seq::empty();
    proof {
        assert(outm =~= spec_models(out@));
    }
    let mut step: usize = 0;
    let n = input.len();
    while step < n
        invariant
            n == input@.len(),
            step <= n,
            s == spec_models(input@),
            outm == spec_models(out@),
            out@.len() <= step,
            spec_unique_keys(outm),
            forall|i: int| 0 <= i < outm.len() ==> spec_entry_from(s.take(step as int), #[trigger] outm[i]),
            forall|j: int| 0 <= j < step ==> #[trigger] spec_key_covered(s, j, outm),
        decreases n - step,
    {
        let it = clone_item(&input[step]);
        let ghost itm = s[step as int];
        proof {
            assert(it@ == itm);
        }
        // find an entry of the same key
        let mut found: Option<usize> = None;
        let mut k: usize = 0;
        while k < out.len() && found.is_none()
            invariant
                k <= out@.len(),
                itm == it@,
                outm == spec_models(out@),
                found matches Some(f) ==> f < outm.len() && spec_same_key(outm[f as int], itm),
                found is None ==> forall|l: int|
                    0 <= l < k ==> !spec_same_key(#[trigger] outm[l], itm),
            decreases out@.len() - k + (if found is None { 1int } else { 0int }),
        {
            proof {
                assert(outm[k as int] == out@[k as int]@);
            }
            if same_key(&out[k], &it) {
                found = Some(k);
            } else {
                k = k + 1;
            }
        }
        match found {
            Some(idx) => {
                let cur = out.remove(idx);
                let ghost curm = cur@;
                let newer = it.updated_at > cur.updated_at;
                let merged = if newer {
                    ClipboardItem { is_favorite: it.is_favorite || cur.is_favorite, ..it }
                } else {
                    ClipboardItem { is_favorite: cur.is_favorite || it.is_favorite, ..cur }
                };
                out.insert(idx, merged);
                proof {
                    let mm = merged@;
                    let outnow = outm.update(idx as int, mm);
                    assert(outnow =~= spec_models(out@));
                    assert(curm == outm[idx as int]);
                    lemma_merge_step_some(s, step as int, outm, outnow, idx as int, mm);
                    outm = outnow;
                }
            },
            None => {
                proof {
                    assert(k == outm.len());
                    assert(forall|l: int| 0 <= l < outm.len() ==> !spec_same_key(
                        #[trigger] outm[l],
                        itm,
                    ));
                }
                out.push(it);
                proof {
                    let outnow = outm.push(itm);
                    assert(outnow =~= spec_models(out@));
                    lemma_merge_step_none(s, step as int, outm, outnow);
                    outm = outnow;
                }
            },
        }
        step = step + 1;
    }
    proof {
        assert(s.take(n as int) =~= s);
    }
    out
}


proof fn lemma_to_multiset_insert(s: Seq<ItemModel>, p: int, x: ItemModel)
    requires
        0 <= p <= s.len(),
    ensures
        s.insert(p, x).to_multiset() =~= s.to_multiset().insert(x),
{
    broadcast use vstd::seq_lib::group_to_multiset_ensures, vstd::multiset::group_multiset_axioms;

    let t = s.insert(p, x);
    assert(t =~= s.take(p).push(x) + s.skip(p));
    vstd::seq_lib::lemma_multiset_commutative(s.take(p).push(x), s.skip(p));
    assert(s =~= s.take(p) + s.skip(p));
    vstd::seq_lib::lemma_multiset_commutative(s.take(p), s.skip(p));
    assert(s.take(p).push(x).to_multiset() =~= s.take(p).to_multiset().insert(x));
}

proof fn lemma_perm_elements(t: Seq<ItemModel>, u: Seq<ItemModel>)
    requires
        u.to_multiset() == t.to_multiset(),
    ensures
        forall|i: int| 0 <= i < u.len() ==> spec_elem_of(#[trigger] u[i], t),
        forall|j: int| 0 <= j < t.len() ==> spec_elem_of(#[trigger] t[j], u),
{
    broadcast use vstd::seq_lib::group_to_multiset_ensures, vstd::multiset::group_multiset_axioms;

    assert forall|i: int| 0 <= i < u.len() implies spec_elem_of(#[trigger] u[i], t) by {
        assert(u.contains(u[i]));
        assert(u.to_multiset().count(u[i]) > 0);
        assert(t.to_multiset().count(u[i]) > 0);
        assert(t.contains(u[i]));
        let j = choose|j: int| 0 <= j < t.len() && t[j] == u[i];
        assert(u[i] == t[j]);
    }
    assert forall|j: int| 0 <= j < t.len() implies spec_elem_of(#[trigger] t[j], u) by {
        assert(t.contains(t[j]));
        assert(t.to_multiset().count(t[j]) > 0);
        assert(u.to_multiset().count(t[j]) > 0);
        assert(u.contains(t[j]));
        let i = choose|i: int| 0 <= i < u.len() && u[i] == t[j];
        assert(t[j] == u[i]);
    }
}

#[verifier::rlimit(100)]
proof fn lemma_perm_preserves_unique(t: Seq<ItemModel>, u: Seq<ItemModel>)
    requires
        spec_unique_keys(t),
        u.to_multiset() == t.to_multiset(),
    ensures
        spec_unique_keys(u),
{
    broadcast use vstd::seq_lib::group_to_multiset_ensures, vstd::multiset::group_multiset_axioms;

    assert forall|i1: int, i2: int|
        0 <= i1 < i2 < u.len() implies !spec_same_key(u[i1], u[i2]) by {
        if spec_same_key(u[i1], u[i2]) {
            if u[i1] == u[i2] {
                let x = u[i1];
                assert(u.remove(i1).to_multiset() =~= u.to_multiset().remove(x));
                assert(u.remove(i1)[i2 - 1] == x);
                assert(u.remove(i1).contains(x));
                assert(u.remove(i1).to_multiset().count(x) > 0);
                assert(u.to_multiset().count(x) >= 2);
                assert(t.to_multiset().count(x) >= 2);
                assert(t.contains(x));
                let j1 = choose|j: int| 0 <= j < t.len() && t[j] == x;
                assert(t.remove(j1).to_multiset() =~= t.to_multiset().remove(x));
                assert(t.remove(j1).to_multiset().count(x) > 0);
                assert(t.remove(j1).contains(x));
                let j2 = choose|j: int| 0 <= j < t.remove(j1).len() && t.remove(j1)[j] == x;
                let j2t: int = if j2 < j1 {
                    j2
                } else {
                    j2 + 1
                };
                assert(t[j2t] == x);
                if j1 < j2t {
                    assert(!spec_same_key(t[j1], t[j2t]));
                } else {
                    assert(!spec_same_key(t[j2t], t[j1]));
                }
                assert(false);
            } else {
                assert(u.contains(u[i1]));
                assert(u.to_multiset().count(u[i1]) > 0);
                assert(t.to_multiset().count(u[i1]) > 0);
                assert(t.contains(u[i1]));
                assert(u.contains(u[i2]));
                assert(u.to_multiset().count(u[i2]) > 0);
                assert(t.to_multiset().count(u[i2]) > 0);
                assert(t.contains(u[i2]));
                let j1 = choose|j: int| 0 <= j < t.len() && t[j] == u[i1];
                let j2 = choose|j: int| 0 <= j < t.len() && t[j] == u[i2];
                assert(j1 != j2);
                if j1 < j2 {
                    assert(!spec_same_key(t[j1], t[j2]));
                } else {
                    assert(!spec_same_key(t[j2], t[j1]));
                }
                assert(false);
            }
        }
    }
}

/// Sorts records by descending update time; a permutation of the input.
fn sort_desc(input: Vec<ClipboardItem>) -> (r: Vec<ClipboardItem>)
    ensures
        spec_sorted_desc(spec_models(r@)),
        spec_models(r@).to_multiset() == spec_models(input@).to_multiset(),
{
    let ghost s = spec_models(input@);
    let mut rest = input;
    let mut out: Vec<ClipboardItem> = Vec::new();
    let ghost mut outm: Seq<ItemModel> = Seq::empty();
    proof {
        assert(outm =~= spec_models(out@));
        assert(spec_models(rest@) =~= s);
        assert(outm.to_multiset().add(spec_models(rest@).to_multiset()) =~= s.to_multiset()) by {
            broadcast use vstd::seq_lib::group_to_multiset_ensures, vstd::multiset::group_multiset_axioms;

        }
    }
    while rest.len() > 0
        invariant
            outm == spec_models(out@),
            spec_sorted_desc(outm),
            outm.to_multiset().add(spec_models(rest@).to_multiset()) == s.to_multiset(),
        decreases rest@.len(),
    {
        let ghost restm = spec_models(rest@);
        let it = rest.remove(0);
        let ghost itm = it@;
        proof {
            assert(spec_models(rest@) =~= restm.drop_first());
        }
        let mut pos: usize = 0;
        while pos < out.len() && out[pos].updated_at >= it.updated_at
            invariant
                pos <= out@.len(),
                outm == spec_models(out@),
                itm == it@,
                forall|l: int| 0 <= l < pos ==> outm[l].updated_at >= itm.updated_at,
            decreases out@.len() - pos,
        {
            proof {
                assert(outm[pos as int] == out@[pos as int]@);
            }
            pos = pos + 1;
        }
        proof {
            if pos < out.len() {
                assert(outm[pos as int] == out@[pos as int]@);
                assert(outm[pos as int].updated_at < itm.updated_at);
            }
        }
        out.insert(pos, it);
        proof {
            let outnow = outm.insert(pos as int, itm);
            assert(outnow =~= spec_models(out@));
            assert(spec_sorted_desc(outnow)) by {
                assert forall|i: int, j: int|
                    0 <= i < j < outnow.len() implies outnow[i].updated_at
                    >= outnow[j].updated_at by {
                    if i < pos && j < pos {
                    } else if i == pos as int {
                        assert(outnow[j] == outm[j - 1]);
                        assert(outm[pos as int] == outnow[j] || outm[pos as int].updated_at
                            >= outnow[j].updated_at);
                    } else if j == pos as int {
                        assert(outnow[i] == outm[i]);
                    } else if j > pos {
                        assert(outnow[j] == outm[j - 1]);
                        if i < pos {
                            assert(outnow[i] == outm[i]);
                        } else {
                            assert(outnow[i] == outm[i - 1]);
                        }
                    }
                }
            }
            lemma_to_multiset_insert(outm, pos as int, itm);
            assert(restm.drop_first() =~= restm.remove(0));
            assert(restm.remove(0).to_multiset() =~= restm.to_multiset().remove(restm[0])) by {
                broadcast use vstd::seq_lib::group_to_multiset_ensures, vstd::multiset::group_multiset_axioms;

            }
            assert(outnow.to_multiset().add(spec_models(rest@).to_multiset())
                =~= s.to_multiset()) by {
                broadcast use vstd::seq_lib::group_to_multiset_ensures, vstd::multiset::group_multiset_axioms;

                assert(restm[0] == itm);
            }
            outm = outnow;
        }
    }
    proof {
        broadcast use vstd::seq_lib::group_to_multiset_ensures, vstd::multiset::group_multiset_axioms;

        let rm = spec_models(rest@);
        assert(rm =~= Seq::<ItemModel>::empty());
        assert(rm.to_multiset() =~= Multiset::<ItemModel>::empty()) by {
            assert forall|x: ItemModel| rm.to_multiset().count(x) == Multiset::<
                ItemModel,
            >::empty().count(x) by {
                if rm.to_multiset().count(x) > 0 {
                    assert(rm.contains(x));
                }
            }
        }
        assert(outm.to_multiset() =~= s.to_multiset());
    }
    out
}

/// The normalized models of the input records.
pub open spec fn spec_norm_models(s: Seq<ClipboardItem>) -> Seq<ItemModel> {
    spec_models(s).map_values(|m: ItemModel| spec_norm_item(m))
}

/// Reconciles persisted history: normalizes text payloads, merges records of
/// one key (favorites OR-ed, the newest fields and update time kept), sorts
/// by descending recency and cuts the list to the limit.
#[verifier::rlimit(100)]
pub fn clean_history(items: Vec<ClipboardItem>, history_limit: usize) -> (r: Vec<ClipboardItem>)
    ensures
        spec_clean_post(spec_norm_models(items@), spec_models(r@), history_limit as nat),
{
    let ghost s = spec_norm_models(items@);
    let mut rest = items;
    let mut norm: Vec<ClipboardItem> = Vec::new();
    proof {
        assert(spec_models(rest@) =~= spec_models(items@));
    }
    let ghost orig = spec_models(items@);
    while rest.len() > 0
        invariant
            orig.len() == norm@.len() + rest@.len(),
            forall|i: int|
                0 <= i < norm@.len() ==> spec_models(norm@)[i] == spec_norm_item(#[trigger] orig[i]),
            forall|i: int|
                0 <= i < rest@.len() ==> spec_models(rest@)[i] == orig[norm@.len() + i],
        decreases rest@.len(),
    {
        let ghost restm = spec_models(rest@);
        let it = rest.remove(0);
        proof {
            assert(it@ == restm[0]);
            assert(spec_models(rest@) =~= restm.drop_first());
        }
        let ni = norm_item(it);
        norm.push(ni);
    }
    proof {
        assert forall|i: int| 0 <= i < spec_models(norm@).len() implies spec_models(norm@)[i]
            == s[i] by {
            assert(spec_models(norm@)[i] == spec_norm_item(orig[i]));
        }
        assert(spec_models(norm@) =~= s);
    }
    let merged = merge_duplicates(norm);
    let ghost mm = spec_models(merged@);
    let sorted = sort_desc(merged);
    let ghost sm = spec_models(sorted@);
    proof {
        lemma_perm_preserves_unique(mm, sm);
        lemma_perm_elements(mm, sm);
        broadcast use vstd::seq_lib::group_to_multiset_ensures;

        assert(sm.to_multiset().len() == sm.len());
        assert(mm.to_multiset().len() == mm.len());
        assert(sm.len() == mm.len());
    }
    let mut out = sorted;
    if out.len() > history_limit {
        out.truncate(history_limit);
        proof {
            assert(spec_models(out@) =~= sm.take(history_limit as int));
        }
    }
    proof {
        let rm = spec_models(out@);
        assert forall|i: int| 0 <= i < rm.len() implies spec_entry_from(s, #[trigger] rm[i]) by {
            assert(rm[i] == sm[i]);
            assert(spec_elem_of(sm[i], mm));
            let j = choose|j: int| 0 <= j < mm.len() && sm[i] == #[trigger] mm[j];
            assert(spec_entry_from(s, mm[j]));
        }
        assert(spec_unique_keys(rm)) by {
            assert forall|i1: int, i2: int|
                0 <= i1 < i2 < rm.len() implies !spec_same_key(rm[i1], rm[i2]) by {
                assert(rm[i1] == sm[i1] && rm[i2] == sm[i2]);
            }
        }
        assert(spec_sorted_desc(rm)) by {
            assert forall|i1: int, i2: int|
                0 <= i1 < i2 < rm.len() implies rm[i1].updated_at >= rm[i2].updated_at by {
                assert(rm[i1] == sm[i1] && rm[i2] == sm[i2]);
            }
        }
        if s.len() <= history_limit as nat {
            assert(mm.len() <= s.len());
            assert(rm =~= sm);
            assert forall|j: int| 0 <= j < s.len() implies #[trigger] spec_key_covered(
                s,
                j,
                rm,
            ) by {
                assert(spec_key_covered(s, j, mm));
                let i0 = choose|i: int| 0 <= i < mm.len() && spec_same_key(s[j], #[trigger] mm[i]);
                assert(spec_elem_of(mm[i0], sm));
                let i1 = choose|i: int| 0 <= i < sm.len() && mm[i0] == #[trigger] sm[i];
                assert(spec_same_key(s[j], rm[i1]));
            }
        }
        if s.len() > 0 && history_limit > 0 {
            assert(spec_key_covered(s, 0, mm));
            assert(mm.len() > 0);
            assert(rm.len() > 0);
        }
        if rm.len() > 0 {
            assert forall|j: int| 0 <= j < s.len() implies (#[trigger] spec_key_covered(s, j, rm))
                || s[j].updated_at <= rm[rm.len() - 1].updated_at by {
                reveal(spec_entry_from);
                assert(spec_key_covered(s, j, mm));
                let i0 = choose|i: int| 0 <= i < mm.len() && spec_same_key(s[j], #[trigger] mm[i]);
                assert(spec_elem_of(mm[i0], sm));
                let p = choose|i: int| 0 <= i < sm.len() && mm[i0] == #[trigger] sm[i];
                if p < rm.len() {
                    assert(rm[p] == sm[p]);
                    assert(spec_same_key(s[j], rm[p]));
                } else {
                    // the merged record of this key was evicted: it is no
                    // newer than the last kept record, and it carries the
                    // key's maximum update time
                    assert(sm[p].updated_at <= sm[rm.len() - 1].updated_at);
                    assert(rm[rm.len() - 1] == sm[rm.len() - 1]);
                    assert(spec_entry_from(s, mm[i0]));
                    assert(spec_is_key_max(s, mm[i0]));
                    assert(s[j].updated_at <= mm[i0].updated_at);
                }
            }
        }
    }
    out
}


/// Normalizing a record is idempotent, because text normalization is.
pub proof fn lemma_norm_item_idempotent(m: ItemModel)
    ensures
        spec_norm_item(spec_norm_item(m)) == spec_norm_item(m),
{
    if m.item_type is Text && m.text is Some {
        lemma_normalize_idempotent(m.text->Some_0);
    }
}

/// The clean pass is idempotent: run on its own output, it returns exactly
/// the same records; only the order of records with equal update times may
/// differ, and the result stays sorted with unique keys.
pub proof fn lemma_clean_idempotent(
    s0: Seq<ItemModel>,
    r: Seq<ItemModel>,
    r2: Seq<ItemModel>,
    limit: nat,
)
    requires
        spec_clean_post(s0, r, limit),
        forall|j: int| 0 <= j < s0.len() ==> #[trigger] s0[j] == spec_norm_item(s0[j]),
        spec_clean_post(r.map_values(|m: ItemModel| spec_norm_item(m)), r2, limit),
    ensures
        forall|i: int| 0 <= i < r2.len() ==> spec_elem_of(#[trigger] r2[i], r),
        forall|j: int| 0 <= j < r.len() ==> spec_elem_of(#[trigger] r[j], r2),
        spec_sorted_desc(r2),
        spec_unique_keys(r2),
{
    reveal(spec_entry_from);
    // records of the first pass are already normalized
    assert forall|i: int| 0 <= i < r.len() implies #[trigger] r[i] == spec_norm_item(r[i]) by {
        let j = choose|j: int| 0 <= j < s0.len() && spec_eq_but_fav(#[trigger] s0[j], r[i]);
        assert(s0[j] == spec_norm_item(s0[j]));
    }
    assert(r.map_values(|m: ItemModel| spec_norm_item(m)) =~= r);
    assert(spec_clean_post(r, r2, limit));
    // each output record is one input record, exactly
    assert forall|i: int| 0 <= i < r2.len() implies spec_elem_of(#[trigger] r2[i], r) by {
        assert(spec_entry_from(r, r2[i]));
        let j = choose|j: int| 0 <= j < r.len() && spec_eq_but_fav(#[trigger] r[j], r2[i]);
        // the only record of that key in r is r[j]
        assert(r2[i].is_favorite == spec_key_fav(r, r2[i]));
        if spec_key_fav(r, r2[i]) {
            let l = choose|l: int|
                0 <= l < r.len() && spec_same_key(#[trigger] r[l], r2[i]) && r[l].is_favorite;
            if l != j {
                if l < j {
                    assert(!spec_same_key(r[l], r[j]));
                } else {
                    assert(!spec_same_key(r[j], r[l]));
                }
                assert(false);
            }
        }
        if r[j].is_favorite {
            assert(spec_same_key(r[j], r2[i]));
            assert(spec_key_fav(r, r2[i]));
        }
        assert(r2[i] == r[j]);
    }
    // and every input record survives
    assert forall|j: int| 0 <= j < r.len() implies spec_elem_of(#[trigger] r[j], r2) by {
        assert(spec_key_covered(r, j, r2));
        let i = choose|i: int| 0 <= i < r2.len() && spec_same_key(r[j], #[trigger] r2[i]);
        assert(spec_elem_of(r2[i], r));
        let j2 = choose|j2: int| 0 <= j2 < r.len() && r2[i] == #[trigger] r[j2];
        if j2 != j {
            assert(spec_same_key(r[j], r[j2]));
            if j < j2 {
                assert(!spec_same_key(r[j], r[j2]));
            } else {
                assert(!spec_same_key(r[j2], r[j]));
            }
            assert(false);
        }
        assert(r2[i] == r[j]);
    }
}


proof fn lemma_strict_sorted_same_elems(a: Seq<ItemModel>, b: Seq<ItemModel>)
    requires
        forall|i: int, j: int| 0 <= i < j < a.len() ==> a[i].updated_at > a[j].updated_at,
        forall|i: int, j: int| 0 <= i < j < b.len() ==> b[i].updated_at > b[j].updated_at,
        forall|i: int| 0 <= i < a.len() ==> spec_elem_of(#[trigger] a[i], b),
        forall|j: int| 0 <= j < b.len() ==> spec_elem_of(#[trigger] b[j], a),
    ensures
        a == b,
    decreases a.len(),
{
    if a.len() == 0 {
        if b.len() > 0 {
            assert(spec_elem_of(b[0], a));
            let j = choose|j: int| 0 <= j < a.len() && b[0] == #[trigger] a[j];
            assert(false);
        }
        assert(a =~= b);
    } else {
        assert(spec_elem_of(a[0], b));
        let i0 = choose|j: int| 0 <= j < b.len() && a[0] == #[trigger] b[j];
        assert(spec_elem_of(b[0], a));
        let j0 = choose|j: int| 0 <= j < a.len() && b[0] == #[trigger] a[j];
        // the two heads carry the common maximum update time, so they are equal
        assert(a[0].updated_at == b[i0].updated_at && b[0].updated_at == a[j0].updated_at);
        if i0 > 0 {
            assert(b[0].updated_at > b[i0].updated_at);
            if j0 > 0 {
                assert(a[0].updated_at > a[j0].updated_at);
            }
            assert(false);
        }
        assert(b[0] == a[0]);
        let at = a.drop_first();
        let bt = b.drop_first();
        assert forall|i: int| 0 <= i < at.len() implies spec_elem_of(#[trigger] at[i], bt) by {
            assert(at[i] == a[i + 1]);
            assert(spec_elem_of(a[i + 1], b));
            let m = choose|j: int| 0 <= j < b.len() && a[i + 1] == #[trigger] b[j];
            assert(a[0].updated_at > a[i + 1].updated_at);
            assert(m != 0);
            assert(bt[m - 1] == b[m]);
            assert(at[i] == bt[m - 1]);
        }
        assert forall|j: int| 0 <= j < bt.len() implies spec_elem_of(#[trigger] bt[j], at) by {
            assert(bt[j] == b[j + 1]);
            assert(spec_elem_of(b[j + 1], a));
            let m = choose|i: int| 0 <= i < a.len() && b[j + 1] == #[trigger] a[i];
            assert(b[0].updated_at > b[j + 1].updated_at);
            assert(m != 0);
            assert(at[m - 1] == a[m]);
            assert(bt[j] == at[m - 1]);
        }
        assert(forall|i: int, j: int|
            0 <= i < j < at.len() ==> at[i].updated_at > at[j].updated_at) by {
            assert(forall|i: int, j: int|
                0 <= i < j < at.len() ==> at[i] == a[i + 1] && at[j] == a[j + 1]);
        }
        assert(forall|i: int, j: int|
            0 <= i < j < bt.len() ==> bt[i].updated_at > bt[j].updated_at) by {
            assert(forall|i: int, j: int|
                0 <= i < j < bt.len() ==> bt[i] == b[i + 1] && bt[j] == b[j + 1]);
        }
        lemma_strict_sorted_same_elems(at, bt);
        assert(a =~= seq![a[0]] + at);
        assert(b =~= seq![b[0]] + bt);
    }
}

/// The clean pass is idempotent as an exact equation whenever no two kept
/// records share an update time — the one case the general form leaves
/// open is the order of such ties.
pub proof fn lemma_clean_idempotent_exact(
    s0: Seq<ItemModel>,
    r: Seq<ItemModel>,
    r2: Seq<ItemModel>,
    limit: nat,
)
    requires
        spec_clean_post(s0, r, limit),
        forall|j: int| 0 <= j < s0.len() ==> #[trigger] s0[j] == spec_norm_item(s0[j]),
        spec_clean_post(r.map_values(|m: ItemModel| spec_norm_item(m)), r2, limit),
        forall|i: int, j: int| 0 <= i < j < r.len() ==> r[i].updated_at != r[j].updated_at,
    ensures
        r2 == r,
{
    lemma_clean_idempotent(s0, r, r2, limit);
    assert forall|i: int, j: int|
        0 <= i < j < r2.len() implies r2[i].updated_at != r2[j].updated_at by {
        if r2[i].updated_at == r2[j].updated_at {
            assert(spec_elem_of(r2[i], r) && spec_elem_of(r2[j], r));
            let mi = choose|m: int| 0 <= m < r.len() && r2[i] == #[trigger] r[m];
            let mj = choose|m: int| 0 <= m < r.len() && r2[j] == #[trigger] r[m];
            if mi != mj {
                if mi < mj {
                    assert(r[mi].updated_at != r[mj].updated_at);
                } else {
                    assert(r[mj].updated_at != r[mi].updated_at);
                }
                assert(false);
            }
            assert(r2[i] == r2[j]);
            assert(spec_same_key(r2[i], r2[j]));
            assert(false);
        }
    }
    lemma_strict_sorted_same_elems(r, r2);
}

} // verus!

//! The poll cycle's decision core for text payloads: normalization, the
//! internal-log filter, the dedup guard, and the history upsert, composed
//! into one verified step. The application's only part is reading the
//! clipboard and persisting the result.

use vstd::prelude::*;
use vstd::string::StringExecFns;
use crate::item::{ClipboardItem, ItemType, spec_fingerprint, spec_text_item, to_text_item,
    fingerprint, clone_item};
use crate::text::{spec_normalize_text, spec_is_internal_log_text, normalize_text,
    is_internal_log_text, str_chars, append_chars, chars_to_string, lemma_normalize_idempotent,
    spec_trim, spec_starts_with, spec_contains, spec_matches_at, spec_backslashes,
    spec_file_url_to_path, spec_first_img_src, trim_chars, skip_copy, take_copy, starts_with,
    contains_sub, find_sub, backslashes, file_url_to_path, first_img_src};
use crate::history::spec_models;
use crate::ops::{spec_guard_accept, spec_upsert, guard_accept, dedupe_and_upsert};
use crate::digest::{spec_hash_hex, hash_bytes};
use crate::blob::{b64_decode, b64_decoded, BlobRef, image_item_from_png_bytes, spec_image_item};
use crate::imagecodec::{png_reencode, png_reencoded};

verus! {

/// Text the poll cycle ignores: empty after normalization, or the engine's
/// own diagnostic output.
pub open spec fn spec_text_ignored(text: Seq<char>) -> bool {
    ||| spec_normalize_text(text).len() == 0
    ||| spec_is_internal_log_text(spec_normalize_text(text))
}

/// One poll cycle over a plain-text clipboard payload: ignored text yields
/// nothing; a fingerprint equal to the guard's yields nothing and changes
/// nothing; novel content updates the guard, is upserted into history, and
/// the freshly placed front record is returned.
pub fn poll_text(
    items: &mut Vec<ClipboardItem>,
    guard: &mut Option<String>,
    text: &str,
    history_limit: usize,
    now: u64,
) -> (r: Option<ClipboardItem>)
    requires
        history_limit >= 1,
    ensures
        ({
            let norm = spec_normalize_text(text@);
            if spec_text_ignored(text@) {
                &&& r is None
                &&& final(items)@ == old(items)@
                &&& *final(guard) == *old(guard)
            } else {
                let item = spec_text_item(text@, now);
                let fp = spec_fingerprint(item);
                let (g2, novel) = spec_guard_accept(old(guard).deep_view(), fp);
                &&& final(guard).deep_view() == g2
                &&& if novel {
                    let h = spec_upsert(
                        spec_models(old(items)@),
                        item,
                        history_limit as nat,
                        now,
                    );
                    &&& spec_models(final(items)@) == h
                    &&& r matches Some(it) && it@ == h[0]
                } else {
                    &&& r is None
                    &&& final(items)@ == old(items)@
                }
            }
        }),
{
    let normalized = normalize_text(text);
    if normalized.as_str().is_empty() {
        return None;
    }
    if is_internal_log_text(normalized.as_str()) {
        proof {
            assert(spec_is_internal_log_text(spec_normalize_text(text@)));
        }
        return None;
    }
    let item = to_text_item(String::from_str(text), now);
    let fp = fingerprint(&item);
    let novel = guard_accept(guard, fp);
    if !novel {
        return None;
    }
    let ghost s0 = spec_models(items@);
    let ghost im = item@;
    dedupe_and_upsert(items, item, history_limit, now);
    proof {
        let h = spec_upsert(s0, im, history_limit as nat, now);
        assert(h.len() >= 1);
        assert(spec_models(items@)[0] == items@[0]@);
    }
    Some(clone_item(&items[0]))
}

/// Clearing pins the guard to exactly the fingerprint the next poll of the
/// same clipboard text computes: unchanged content after a clear is never
/// re-captured, whatever the text looks like.
pub proof fn lemma_clear_matches_poll(x: Seq<char>, now: u64)
    requires
        !spec_text_ignored(x),
    ensures
        spec_text_fingerprint(x) == Some(spec_fingerprint(spec_text_item(x, now))),
{
    assert(spec_text_item(x, now).item_type is Text);
}

/// Copy-back suppression: after the engine pushes a stored text record back
/// onto the clipboard and records its fingerprint, the next poll of that
/// clipboard content is rejected by the guard — the engine never re-ingests
/// its own copy-back.
pub proof fn lemma_copy_back_suppressed(raw: Seq<char>, now: u64, later: u64)
    requires
        !spec_text_ignored(raw),
    ensures
        ({
            let stored = spec_text_item(raw, now);
            let clip = stored.text->Some_0;
            &&& !spec_text_ignored(clip)
            &&& !crate::ops::spec_guard_accept(
                Some(spec_fingerprint(stored)),
                spec_fingerprint(spec_text_item(clip, later)),
            ).1
        }),
{
    lemma_normalize_idempotent(raw);
}

/// The guard fingerprint of the clipboard's current text, as the clear
/// operation records it: `None` when the text would never be captured.
pub open spec fn spec_text_fingerprint(text: Seq<char>) -> Option<Seq<char>> {
    if spec_text_ignored(text) {
        None
    } else {
        Some("text:"@ + spec_hash_hex(vstd::utf8::encode_utf8(spec_normalize_text(text))))
    }
}

/// Fingerprints the clipboard's current text payload.
pub fn text_fingerprint(text: &str) -> (r: Option<String>)
    ensures
        match r {
            Some(fp) => spec_text_fingerprint(text@) == Some(fp@),
            None => spec_text_fingerprint(text@) is None,
        },
{
    let normalized = normalize_text(text);
    if normalized.as_str().is_empty() {
        return None;
    }
    if is_internal_log_text(normalized.as_str()) {
        return None;
    }
    let hash = hash_bytes(normalized.as_str().as_bytes());
    let mut out = str_chars("text:");
    append_chars(&mut out, &str_chars(hash.as_str()));
    Some(chars_to_string(&out))
}

/// A bounded retry policy for the secondary bitmap read: a fixed number of
/// attempts with a fixed delay between them, so a poll cycle always
/// completes in bounded time.
pub struct RetryPolicy {
    pub max_attempts: u32,
    pub delay_ms: u64,
}

impl RetryPolicy {
    /// Whether another attempt may be made after `attempts_made` tries.
    pub fn should_retry(&self, attempts_made: u32) -> (r: bool)
        ensures
            r == (attempts_made < self.max_attempts),
    {
        attempts_made < self.max_attempts
    }
}

/// One candidate source of image bytes found in a textual payload.
pub enum ImageRef {
    /// A base64 payload taken from a `data:image/...` URI.
    Data(String),
    /// A filesystem path the application must read.
    File(String),
}

/// The candidate as mathematics.
pub struct ImageRefModel {
    pub is_data: bool,
    pub target: Seq<char>,
}

impl View for ImageRef {
    type V = ImageRefModel;

    open spec fn view(&self) -> ImageRefModel {
        match self {
            ImageRef::Data(s) => ImageRefModel { is_data: true, target: s@ },
            ImageRef::File(p) => ImageRefModel { is_data: false, target: p@ },
        }
    }
}

pub open spec fn spec_ref_models(v: Seq<ImageRef>) -> Seq<ImageRefModel> {
    Seq::new(v.len(), |i: int| v[i]@)
}

/// The textual payload after source preprocessing: trimmed, a matching pair
/// of surrounding quotes stripped, and a whole-text `file:///` URL
/// rewritten into a backslashed path.
pub open spec fn spec_source_text(s: Seq<char>) -> Seq<char> {
    let t0 = spec_trim(s);
    let t1 = if t0.len() >= 2 && t0[0] == '"' && t0.last() == '"' {
        spec_trim(t0.subrange(1, t0.len() - 1))
    } else {
        t0
    };
    if spec_starts_with(t1, "file:///"@) {
        spec_backslashes(t1.skip(8))
    } else {
        t1
    }
}

/// The data-URI candidate of a text: the base64 payload after the first
/// comma, when the text is a `data:image/` URI that has one.
pub open spec fn spec_data_payload(t: Seq<char>) -> Seq<ImageRefModel> {
    if spec_starts_with(t, "data:image/"@) && spec_contains(t, ","@) {
        let c = choose|c: int|
            spec_matches_at(t, ","@, c) && forall|j: int| 0 <= j < c ==> !spec_matches_at(
                t,
                ","@,
                j,
            );
        seq![ImageRefModel { is_data: true, target: t.skip(c + 1) }]
    } else {
        Seq::empty()
    }
}

/// The candidates an embedded `<img src>` attribute contributes: its data
/// payload when the source is a data URI, else the source as a file URL
/// (when it parses as one) and as a bare path.
pub open spec fn spec_img_tag_refs(t: Seq<char>) -> Seq<ImageRefModel> {
    if spec_contains(t, "<img"@) {
        match spec_first_img_src(t) {
            Some(src) => if spec_starts_with(src, "data:image/"@) {
                spec_data_payload(src)
            } else {
                (match spec_file_url_to_path(src) {
                    Some(p) => seq![ImageRefModel { is_data: false, target: p }],
                    None => Seq::empty(),
                }) + seq![ImageRefModel { is_data: false, target: src }]
            },
            None => Seq::empty(),
        }
    } else {
        Seq::empty()
    }
}

/// The whole-text fallbacks: the text as a file URL, then as a bare path.
pub open spec fn spec_whole_refs(t: Seq<char>) -> Seq<ImageRefModel> {
    (match spec_file_url_to_path(t) {
        Some(p) => seq![ImageRefModel { is_data: false, target: p }],
        None => Seq::empty(),
    }) + seq![ImageRefModel { is_data: false, target: t }]
}

/// Every image candidate a textual payload offers, in resolution order:
/// exact data URI, embedded `<img src>`, whole text as file URL, whole text
/// as bare path. A failed candidate falls through to the next.
pub open spec fn spec_image_refs(s: Seq<char>) -> Seq<ImageRefModel> {
    let t = spec_source_text(s);
    spec_data_payload(t) + spec_img_tag_refs(t) + spec_whole_refs(t)
}

fn data_payload(t: &Vec<char>) -> (r: Option<String>)
    ensures
        match r {
            Some(p) => spec_data_payload(t@) == seq![
                ImageRefModel { is_data: true, target: p@ },
            ],
            None => spec_data_payload(t@) == Seq::<ImageRefModel>::empty(),
        },
{
    proof {
        reveal_strlit(",");
    }
    if !starts_with(t, &str_chars("data:image/")) {
        return None;
    }
    let comma = str_chars(",");
    let tl = t.len();
    match find_sub(t, &comma) {
        None => {
            proof {
                if spec_contains(t@, ","@) {
                    assert(false);
                }
            }
            None
        },
        Some(c) => {
            proof {
                let c2 = choose|c2: int|
                    spec_matches_at(t@, ","@, c2) && forall|j: int|
                        0 <= j < c2 ==> !spec_matches_at(t@, ","@, j);
                if c2 < c {
                    assert(!spec_matches_at(t@, ","@, c2));
                }
                if (c as int) < c2 {
                    assert(!spec_matches_at(t@, ","@, c as int));
                }
                assert(c2 == c as int);
                assert(c + 1 <= tl);
            }
            let payload = skip_copy(t, c + 1);
            Some(chars_to_string(&payload))
        },
    }
}

/// Collects the image candidates of a textual payload, in resolution
/// order.
#[verifier::rlimit(100)]
pub fn image_refs(text: &str) -> (r: Vec<ImageRef>)
    ensures
        spec_ref_models(r@) == spec_image_refs(text@),
{
    proof {
        reveal_strlit("file:///");
    }
    let v = str_chars(text);
    let t0 = trim_chars(&v);
    let t1 = if t0.len() >= 2 && t0[0] == '"' && t0[t0.len() - 1] == '"' {
        let sk = skip_copy(&t0, 1);
        let inner = take_copy(&sk, t0.len() - 2);
        proof {
            assert(inner@ =~= t0@.subrange(1, t0@.len() - 1));
        }
        trim_chars(&inner)
    } else {
        t0
    };
    let t2 = if starts_with(&t1, &str_chars("file:///")) {
        let sk = skip_copy(&t1, 8);
        backslashes(&sk)
    } else {
        t1
    };
    let ghost tm = spec_source_text(text@);
    proof {
        assert(t2@ == tm);
    }
    let mut refs: Vec<ImageRef> = Vec::new();
    let ghost mut rm: Seq<ImageRefModel> = Seq::empty();
    match data_payload(&t2) {
        Some(p) => {
            refs.push(ImageRef::Data(p));
            proof {
                rm = spec_data_payload(tm);
            }
        },
        None => {},
    }
    proof {
        assert(spec_ref_models(refs@) =~= spec_data_payload(tm));
        rm = spec_data_payload(tm);
    }
    let t2s = chars_to_string(&t2);
    if contains_sub(&t2, &str_chars("<img")) {
        match first_img_src(t2s.as_str()) {
            Some(src) => {
                let srcv = str_chars(src.as_str());
                if starts_with(&srcv, &str_chars("data:image/")) {
                    match data_payload(&srcv) {
                        Some(p) => {
                            refs.push(ImageRef::Data(p));
                        },
                        None => {},
                    }
                } else {
                    match file_url_to_path(src.as_str()) {
                        Some(p) => {
                            refs.push(ImageRef::File(p));
                        },
                        None => {},
                    }
                    refs.push(ImageRef::File(src));
                }
            },
            None => {},
        }
    }
    proof {
        rm = rm + spec_img_tag_refs(tm);
        assert(spec_ref_models(refs@) =~= rm);
    }
    match file_url_to_path(t2s.as_str()) {
        Some(p) => {
            refs.push(ImageRef::File(p));
        },
        None => {},
    }
    refs.push(ImageRef::File(t2s));
    proof {
        assert(spec_ref_models(refs@) =~= rm + spec_whole_refs(tm));
        assert(spec_ref_models(refs@) =~= spec_image_refs(text@));
    }
    refs
}

/// What resolving candidates against the supplied file bytes yields: the
/// first candidate whose bytes decode as an image, re-encoded as PNG.
pub open spec fn spec_resolve(rs: Seq<ImageRefModel>, ps: Seq<Option<Seq<u8>>>) -> Option<Seq<u8>>
    decreases rs.len(),
{
    if rs.len() == 0 {
        None
    } else {
        let bytes = if rs[0].is_data {
            b64_decoded(rs[0].target)
        } else {
            ps[0]
        };
        let png = match bytes {
            Some(b) => png_reencoded(b),
            None => None,
        };
        match png {
            Some(p) => Some(p),
            None => spec_resolve(rs.drop_first(), ps.drop_first()),
        }
    }
}

/// Runs the candidate list against the file bytes the application read:
/// the first successful decode wins; every failure falls through.
pub fn resolve_image_refs(refs: &Vec<ImageRef>, probes: &Vec<Option<Vec<u8>>>) -> (r: Option<
    Vec<u8>,
>)
    requires
        probes@.len() == refs@.len(),
    ensures
        match r {
            Some(p) => spec_resolve(spec_ref_models(refs@), probes.deep_view()) == Some(p@),
            None => spec_resolve(spec_ref_models(refs@), probes.deep_view()) is None,
        },
{
    let ghost rsm = spec_ref_models(refs@);
    let ghost psm = probes.deep_view();
    proof {
        assert(psm.len() == probes@.len());
        assert(rsm.skip(0) =~= rsm);
        assert(psm.skip(0) =~= psm);
    }
    let mut i: usize = 0;
    while i < refs.len()
        invariant
            i <= refs@.len(),
            probes@.len() == refs@.len(),
            rsm == spec_ref_models(refs@),
            psm == probes.deep_view(),
            psm.len() == rsm.len(),
            spec_resolve(rsm, psm) == spec_resolve(rsm.skip(i as int), psm.skip(i as int)),
        decreases refs@.len() - i,
    {
        let ghost rrest = rsm.skip(i as int);
        let ghost prest = psm.skip(i as int);
        proof {
            assert(rrest[0] == rsm[i as int]);
            assert(prest[0] == psm[i as int]);
            assert(rrest.drop_first() =~= rsm.skip(i as int + 1));
            assert(prest.drop_first() =~= psm.skip(i as int + 1));
            assert(rsm[i as int] == refs@[i as int]@);
        }
        let png_opt: Option<Vec<u8>> = match &refs[i] {
            ImageRef::Data(sp) => {
                match b64_decode(sp.as_str()) {
                    Some(b) => png_reencode(&b),
                    None => None,
                }
            },
            ImageRef::File(_) => {
                proof {
                    assert(psm[i as int] == probes@[i as int].deep_view());
                    match probes@[i as int] {
                        Some(b) => {
                            assert(b.deep_view() =~= b@);
                        },
                        None => {},
                    }
                }
                match &probes[i] {
                    Some(b) => png_reencode(b),
                    None => None,
                }
            },
        };
        match png_opt {
            Some(p) => {
                proof {
                    assert(spec_resolve(rrest, prest) == Some(p@));
                }
                return Some(p);
            },
            None => {
                proof {
                    assert(spec_resolve(rrest, prest) == spec_resolve(
                        rsm.skip(i as int + 1),
                        psm.skip(i as int + 1),
                    ));
                }
            },
        }
        i = i + 1;
    }
    proof {
        assert(rsm.skip(rsm.len() as int) =~= Seq::<ImageRefModel>::empty());
    }
    None
}

/// Resolves a textual payload to a canonical image record, when it names
/// one: the data URI, embedded image or file path is decoded, re-encoded as
/// PNG, and stored content-addressed. The application supplies the bytes of
/// each file candidate, in candidate order.
pub fn try_image_item_from_text_source(
    text: &str,
    probes: &Vec<Option<Vec<u8>>>,
    now: u64,
) -> (r: Option<(ClipboardItem, BlobRef)>)
    requires
        probes@.len() == spec_image_refs(text@).len(),
    ensures
        match spec_resolve(spec_image_refs(text@), probes.deep_view()) {
            Some(png) => r matches Some(pair) && pair.0@ == spec_image_item(png, now),
            None => r is None,
        },
{
    let refs = image_refs(text);
    proof {
        assert(spec_ref_models(refs@).len() == refs@.len());
    }
    match resolve_image_refs(&refs, probes) {
        Some(p) => {
            let (item, blob) = image_item_from_png_bytes(&p, now);
            Some((item, blob))
        },
        None => None,
    }
}

/// The first dropped file whose bytes decode as an image, re-encoded as
/// PNG.
pub open spec fn spec_first_file_png(ps: Seq<Option<Seq<u8>>>) -> Option<Seq<u8>>
    decreases ps.len(),
{
    if ps.len() == 0 {
        None
    } else {
        let png = match ps[0] {
            Some(b) => png_reencoded(b),
            None => None,
        };
        match png {
            Some(p) => Some(p),
            None => spec_first_file_png(ps.drop_first()),
        }
    }
}

/// Scans a dropped-file list (as bytes the application read) for the first
/// entry that is an image.
pub fn first_image_from_files(probes: &Vec<Option<Vec<u8>>>) -> (r: Option<Vec<u8>>)
    ensures
        match r {
            Some(p) => spec_first_file_png(probes.deep_view()) == Some(p@),
            None => spec_first_file_png(probes.deep_view()) is None,
        },
{
    let ghost psm = probes.deep_view();
    proof {
        assert(psm.len() == probes@.len());
        assert(psm.skip(0) =~= psm);
    }
    let mut i: usize = 0;
    while i < probes.len()
        invariant
            i <= probes@.len(),
            psm == probes.deep_view(),
            psm.len() == probes@.len(),
            spec_first_file_png(psm) == spec_first_file_png(psm.skip(i as int)),
        decreases probes@.len() - i,
    {
        let ghost prest = psm.skip(i as int);
        proof {
            assert(prest[0] == psm[i as int]);
            assert(prest.drop_first() =~= psm.skip(i as int + 1));
            assert(psm[i as int] == probes@[i as int].deep_view());
            match probes@[i as int] {
                Some(b) => {
                    assert(b.deep_view() =~= b@);
                },
                None => {},
            }
        }
        let png_opt: Option<Vec<u8>> = match &probes[i] {
            Some(b) => png_reencode(b),
            None => None,
        };
        match png_opt {
            Some(p) => {
                proof {
                    assert(spec_first_file_png(prest) == Some(p@));
                }
                return Some(p);
            },
            None => {
                proof {
                    assert(spec_first_file_png(prest) == spec_first_file_png(
                        psm.skip(i as int + 1),
                    ));
                }
            },
        }
        i = i + 1;
    }
    proof {
        assert(psm.skip(psm.len() as int) =~= Seq::<Option<Seq<u8>>>::empty());
    }
    None
}

} // verus!

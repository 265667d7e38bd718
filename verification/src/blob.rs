//! The content-addressed blob store's naming and the image record builder.
//! Writing and deleting files is the application's part; every name and
//! decision is computed here.

use vstd::prelude::*;
use base64::Engine;
use crate::digest::{spec_hash_hex, hash_bytes};
use crate::item::{ClipboardItem, ItemModel, ItemType, spec_item_id, build_item_id};
use crate::text::{str_chars, append_chars, chars_to_string, take_copy};

verus! {

/// What `base64::engine::general_purpose::STANDARD.encode` returns for the
/// given bytes.
pub uninterp spec fn base64_of(b: Seq<u8>) -> Seq<char>;

/// Relies on base64's STANDARD engine: the encoding is a function of the
/// input bytes alone, and an empty input encodes to an empty string.
#[verifier::external_body]
fn b64_encode(b: &[u8]) -> (r: String)
    ensures
        r@ == base64_of(b@),
        b@.len() == 0 ==> r@.len() == 0,
{
    base64::engine::general_purpose::STANDARD.encode(b)
}

/// What base64's STANDARD engine decodes the given text to; `None` when it
/// is not valid base64.
pub uninterp spec fn b64_decoded(s: Seq<char>) -> Option<Seq<u8>>;

/// Relies on base64's STANDARD engine: whether the text decodes, and to
/// which bytes, are functions of the text alone.
#[verifier::external_body]
pub(crate) fn b64_decode(s: &str) -> (r: Option<Vec<u8>>)
    ensures
        r matches Some(v) ==> b64_decoded(s@) == Some(v@),
        r is None ==> b64_decoded(s@) is None,
{
    base64::engine::general_purpose::STANDARD.decode(s).ok()
}

/// The name of the blob holding content with the given hash: the first 24
/// hex characters and the PNG suffix.
pub open spec fn spec_blob_file_name(hash: Seq<char>) -> Seq<char> {
    hash.take(24) + ".png"@
}

/// The blob path relative to the storage root.
pub open spec fn spec_blob_rel_path(hash: Seq<char>) -> Seq<char> {
    "clipboard-images/"@ + spec_blob_file_name(hash)
}

/// Where an image payload is stored.
pub struct BlobRef {
    /// Hex SHA-256 of the PNG bytes.
    pub content_hash: String,
    /// File name under the image directory.
    pub file_name: String,
    /// Path relative to the storage root.
    pub rel_path: String,
}

/// Computes the content-addressed location of a PNG payload. Equal bytes
/// always give one location: storing them twice cannot create a second
/// file.
pub fn blob_plan(png: &Vec<u8>) -> (r: BlobRef)
    ensures
        r.content_hash@ == spec_hash_hex(png@),
        r.content_hash@.len() == 64,
        r.file_name@ == spec_blob_file_name(spec_hash_hex(png@)),
        r.rel_path@ == spec_blob_rel_path(spec_hash_hex(png@)),
{
    let content_hash = hash_bytes(png.as_slice());
    let hc = str_chars(content_hash.as_str());
    let mut name = take_copy(&hc, 24);
    append_chars(&mut name, &str_chars(".png"));
    let mut rel = str_chars("clipboard-images/");
    append_chars(&mut rel, &name);
    BlobRef {
        content_hash,
        file_name: chars_to_string(&name),
        rel_path: chars_to_string(&rel),
    }
}

/// Whether the blob must be written: only when no file of that name exists
/// yet. A second store of the same bytes is skipped.
pub fn blob_needs_write(existing: &Vec<String>, file_name: &String) -> (r: bool)
    ensures
        r == !(exists|i: int|
            0 <= i < existing@.len() && (#[trigger] existing@[i])@ == file_name@),
{
    let mut k: usize = 0;
    while k < existing.len()
        invariant
            k <= existing@.len(),
            forall|i: int| 0 <= i < k ==> (#[trigger] existing@[i])@ != file_name@,
        decreases existing@.len() - k,
    {
        if existing[k].eq(file_name) {
            return false;
        }
        k = k + 1;
    }
    true
}

/// Content-addressing: once a blob's name is among the stored names,
/// storing the same bytes again writes nothing.
pub proof fn lemma_store_idempotent(existing: Seq<Seq<char>>, name: Seq<char>)
    ensures
        !(exists|i: int| 0 <= i < existing.push(name).len() && #[trigger] existing.push(name)[i]
            == name) == false,
{
    assert(existing.push(name)[existing.len() as int] == name);
}

/// The preview form of a stored PNG: a data URI carrying the bytes.
pub open spec fn spec_preview_data_url(png: Seq<u8>) -> Seq<char> {
    "data:image/png;base64,"@ + base64_of(png)
}

/// Builds the `data:` URI shown as an image preview.
pub fn preview_data_url(png: &Vec<u8>) -> (r: String)
    ensures
        r@ == spec_preview_data_url(png@),
{
    let enc = b64_encode(png.as_slice());
    let mut out = str_chars("data:image/png;base64,");
    append_chars(&mut out, &str_chars(enc.as_str()));
    chars_to_string(&out)
}

/// The record an image capture produces: content-addressed path, hash of
/// the PNG bytes, preview populated, both timestamps the creation time.
pub open spec fn spec_image_item(png: Seq<u8>, now: u64) -> ItemModel {
    let hash = spec_hash_hex(png);
    ItemModel {
        id: spec_item_id("img-"@, now, hash),
        item_type: ItemType::Image,
        text: None,
        image_path: Some(spec_blob_rel_path(hash)),
        image_preview_data_url: Some(spec_preview_data_url(png)),
        content_hash: hash,
        is_favorite: false,
        created_at: now,
        updated_at: now,
    }
}

/// Turns encoded PNG bytes into a canonical image record plus the blob
/// location the application must write it to.
pub fn image_item_from_png_bytes(png: &Vec<u8>, now: u64) -> (r: (ClipboardItem, BlobRef))
    ensures
        r.0@ == spec_image_item(png@, now),
        r.1.file_name@ == spec_blob_file_name(spec_hash_hex(png@)),
        r.1.rel_path@ == spec_blob_rel_path(spec_hash_hex(png@)),
{
    let blob = blob_plan(png);
    let id = build_item_id("img-", now, &blob.content_hash);
    let preview = preview_data_url(png);
    let rel = chars_to_string(&str_chars(blob.rel_path.as_str()));
    let hash = chars_to_string(&str_chars(blob.content_hash.as_str()));
    let item = ClipboardItem {
        id,
        item_type: ItemType::Image,
        text: None,
        image_path: Some(rel),
        image_preview_data_url: Some(preview),
        content_hash: hash,
        is_favorite: false,
        created_at: now,
        updated_at: now,
    };
    (item, blob)
}

} // verus!

//! The canonical clipboard record and its mathematical model.

use vstd::prelude::*;
use crate::text::{spec_normalize_text, normalize_text, str_chars, take_copy, append_chars,
    chars_to_string};
use crate::digest::{spec_hash_hex, hash_bytes};
use crate::digits::{spec_dec_str, dec_str};


verus! {

/// The two payload kinds a record can carry.
#[derive(Clone, Copy, PartialEq, Eq, Structural, Debug)]
pub enum ItemType {
    Text,
    Image,
}

/// One captured clipboard entry.
#[derive(Clone, Debug)]
pub struct ClipboardItem {
    /// Opaque stable identifier, chosen at creation.
    pub id: String,
    pub item_type: ItemType,
    /// Present iff `item_type` is `Text`; already normalized.
    pub text: Option<String>,
    /// Present iff `item_type` is `Image`; path relative to the storage root.
    pub image_path: Option<String>,
    /// Transient preview payload; never persisted.
    pub image_preview_data_url: Option<String>,
    /// Hex SHA-256 of the canonical byte form of the payload.
    pub content_hash: String,
    pub is_favorite: bool,
    pub created_at: u64,
    pub updated_at: u64,
}

/// The record as mathematics: every string a character sequence.
pub struct ItemModel {
    pub id: Seq<char>,
    pub item_type: ItemType,
    pub text: Option<Seq<char>>,
    pub image_path: Option<Seq<char>>,
    pub image_preview_data_url: Option<Seq<char>>,
    pub content_hash: Seq<char>,
    pub is_favorite: bool,
    pub created_at: u64,
    pub updated_at: u64,
}

impl View for ClipboardItem {
    type V = ItemModel;

    open spec fn view(&self) -> ItemModel {
        ItemModel {
            id: self.id@,
            item_type: self.item_type,
            text: self.text.deep_view(),
            image_path: self.image_path.deep_view(),
            image_preview_data_url: self.image_preview_data_url.deep_view(),
            content_hash: self.content_hash@,
            is_favorite: self.is_favorite,
            created_at: self.created_at,
            updated_at: self.updated_at,
        }
    }
}

/// The dedup key: records with equal key describe the same content.
pub open spec fn spec_key(m: ItemModel) -> (ItemType, Seq<char>) {
    (m.item_type, m.content_hash)
}

pub open spec fn spec_same_key(a: ItemModel, b: ItemModel) -> bool {
    a.item_type == b.item_type && a.content_hash == b.content_hash
}

/// The dedup-guard fingerprint of a record: its kind and content hash as one
/// string.
pub open spec fn spec_fingerprint(m: ItemModel) -> Seq<char> {
    (if m.item_type is Text {
        "text:"@
    } else {
        "image:"@
    }) + m.content_hash
}

/// Builds the `kind:hash` fingerprint of a record.
pub fn fingerprint(item: &ClipboardItem) -> (r: String)
    ensures
        r@ == spec_fingerprint(item@),
{
    let mut out: Vec<char> = match item.item_type {
        ItemType::Text => str_chars("text:"),
        ItemType::Image => str_chars("image:"),
    };
    let hash = str_chars(item.content_hash.as_str());
    append_chars(&mut out, &hash);
    chars_to_string(&out)
}

/// The id a fresh record gets: a kind tag, the creation time, and a prefix
/// of the content hash.
pub open spec fn spec_item_id(tag: Seq<char>, now: u64, hash: Seq<char>) -> Seq<char> {
    tag + spec_dec_str(now as nat) + "-"@ + hash.take(8)
}

/// The record a plain-text capture produces: text normalized, hashed over
/// its UTF-8 bytes, both timestamps the creation time.
pub open spec fn spec_text_item(raw: Seq<char>, now: u64) -> ItemModel {
    let norm = spec_normalize_text(raw);
    let hash = spec_hash_hex(vstd::utf8::encode_utf8(norm));
    ItemModel {
        id: spec_item_id("txt-"@, now, hash),
        item_type: ItemType::Text,
        text: Some(norm),
        image_path: None,
        image_preview_data_url: None,
        content_hash: hash,
        is_favorite: false,
        created_at: now,
        updated_at: now,
    }
}

/// Turns raw clipboard text into a canonical text record.
pub fn to_text_item(text: String, now: u64) -> (r: ClipboardItem)
    ensures
        r@ == spec_text_item(text@, now),
{
    let normalized = normalize_text(text.as_str());
    let content_hash = hash_bytes(normalized.as_str().as_bytes());
    let id = build_item_id("txt-", now, &content_hash);
    ClipboardItem {
        id,
        item_type: ItemType::Text,
        text: Some(normalized),
        image_path: None,
        image_preview_data_url: None,
        content_hash,
        is_favorite: false,
        created_at: now,
        updated_at: now,
    }
}

fn clone_opt_string(o: &Option<String>) -> (r: Option<String>)
    ensures
        r.deep_view() == o.deep_view(),
{
    match o {
        Some(s) => Some(s.clone()),
        None => None,
    }
}

/// A field-for-field copy of a record.
pub fn clone_item(item: &ClipboardItem) -> (r: ClipboardItem)
    ensures
        r@ == item@,
{
    ClipboardItem {
        id: item.id.clone(),
        item_type: item.item_type,
        text: clone_opt_string(&item.text),
        image_path: clone_opt_string(&item.image_path),
        image_preview_data_url: clone_opt_string(&item.image_preview_data_url),
        content_hash: item.content_hash.clone(),
        is_favorite: item.is_favorite,
        created_at: item.created_at,
        updated_at: item.updated_at,
    }
}

/// Builds a fresh record id from a kind tag, the clock, and the content
/// hash.
pub fn build_item_id(tag: &str, now: u64, content_hash: &String) -> (r: String)
    requires
        content_hash@.len() >= 8,
    ensures
        r@ == spec_item_id(tag@, now, content_hash@),
{
    let mut out = str_chars(tag);
    let nowc = dec_str(now);
    append_chars(&mut out, &nowc);
    out.push('-');
    let hc = str_chars(content_hash.as_str());
    let pre = take_copy(&hc, 8);
    append_chars(&mut out, &pre);
    proof {
        reveal_strlit("-");
        assert("-"@ =~= seq!['-']);
        assert(out@ =~= spec_item_id(tag@, now, content_hash@));
    }
    chars_to_string(&out)
}

} // verus!

use clipvault::blob::{blob_needs_write, blob_plan, image_item_from_png_bytes, preview_data_url};
use base64::Engine;
use clipvault::capture::{
    first_image_from_files, image_refs, poll_text, resolve_image_refs, text_fingerprint,
    try_image_item_from_text_source, ImageRef, RetryPolicy,
};
use clipvault::imagecodec::encode_rgba_to_png_bytes;
use clipvault::clock::now_ms;
use clipvault::dib::read_clipboard_image_win32;
use clipvault::digest::hash_bytes;
use clipvault::history::clean_history;
use clipvault::item::{fingerprint, to_text_item, ClipboardItem, ItemType};
use clipvault::ops::{
    clear_history_state, dedupe_and_upsert, delete_item, strip_previews, toggle_favorite,
    EngineError,
};
use clipvault::settings::{normalize_settings, sanitize_shortcut, AppSettings};
use clipvault::text::{
    file_url_to_path, first_img_src, is_internal_log_text, normalize_text, text_preview_for_log,
};

const HELLO_SHA: &str = "185f8db32271fe25f561a6fc938b2e264306ec304eda518007d1764826381969";

fn text_item(text: &str, now: u64) -> ClipboardItem {
    to_text_item(String::from(text), now)
}

#[test]
fn normalizes_text() {
    assert_eq!(normalize_text("  Hello\r\nWorld \t"), "Hello\nWorld");
    assert_eq!(normalize_text("\r\n"), "");
    assert_eq!(normalize_text("a\r\n\r\nb"), "a\n\nb");
}

#[test]
fn hashes_known_vector() {
    assert_eq!(hash_bytes(b"Hello"), HELLO_SHA);
    assert_eq!(
        hash_bytes(b""),
        "e3b0c44298fc1c149afbf4c8996fb92427ae41e4649b934ca495991b7852b855"
    );
}

#[test]
fn text_item_shape() {
    let it = text_item("Hello", 7);
    assert_eq!(it.item_type, ItemType::Text);
    assert_eq!(it.text.as_deref(), Some("Hello"));
    assert_eq!(it.content_hash, HELLO_SHA);
    assert_eq!(it.created_at, 7);
    assert_eq!(it.updated_at, 7);
    assert_eq!(it.id, format!("txt-7-{}", &HELLO_SHA[..8]));
    assert_eq!(fingerprint(&it), format!("text:{HELLO_SHA}"));
}

#[test]
fn poll_hello_then_nothing() {
    // a copied text yields an item once; an unchanged clipboard yields nothing
    let mut items: Vec<ClipboardItem> = Vec::new();
    let mut guard: Option<String> = None;
    let first = poll_text(&mut items, &mut guard, "Hello", 300, 1000);
    let first = first.expect("first poll must capture");
    assert_eq!(first.item_type, ItemType::Text);
    assert_eq!(first.text.as_deref(), Some("Hello"));
    assert_eq!(first.content_hash, HELLO_SHA);
    assert_eq!(items.len(), 1);

    let second = poll_text(&mut items, &mut guard, "Hello", 300, 2000);
    assert!(second.is_none());
    assert_eq!(items.len(), 1);
    assert_eq!(items[0].updated_at, 1000);
}

#[test]
fn bounded_history_keeps_newest() {
    // limit 2: capturing A, B, C leaves [C, B]
    let mut items: Vec<ClipboardItem> = Vec::new();
    let mut guard: Option<String> = None;
    poll_text(&mut items, &mut guard, "A", 2, 1).unwrap();
    poll_text(&mut items, &mut guard, "B", 2, 2).unwrap();
    poll_text(&mut items, &mut guard, "C", 2, 3).unwrap();
    assert_eq!(items.len(), 2);
    assert_eq!(items[0].text.as_deref(), Some("C"));
    assert_eq!(items[1].text.as_deref(), Some("B"));
}

#[test]
fn upsert_evicts_tail() {
    let mut items: Vec<ClipboardItem> = Vec::new();
    for t in 0..5u64 {
        let it = text_item(&format!("item-{t}"), t);
        dedupe_and_upsert(&mut items, it, 3, t);
    }
    assert_eq!(items.len(), 3);
    assert_eq!(items[0].text.as_deref(), Some("item-4"));
    assert_eq!(items[2].text.as_deref(), Some("item-2"));
}

#[test]
fn upsert_merges_same_content() {
    let mut items: Vec<ClipboardItem> = Vec::new();
    let a = text_item("same", 1);
    let first_id = a.id.clone();
    dedupe_and_upsert(&mut items, a, 10, 1);
    let b = text_item("same", 9);
    dedupe_and_upsert(&mut items, b, 10, 9);
    assert_eq!(items.len(), 1);
    assert_eq!(items[0].id, first_id, "the old record's identity survives");
    assert_eq!(items[0].updated_at, 9);
}

#[test]
fn clean_merges_favorites_and_takes_max_update() {
    // two records of one key: one entry remains, favorite OR-ed, newest time
    let mut old = text_item("dup", 5);
    old.is_favorite = true;
    let newer = text_item("dup", 8);
    let cleaned = clean_history(vec![old, newer], 100);
    assert_eq!(cleaned.len(), 1);
    assert!(cleaned[0].is_favorite);
    assert_eq!(cleaned[0].updated_at, 8);
}

#[test]
fn clean_sorts_and_truncates() {
    let a = text_item("a", 3);
    let b = text_item("b", 9);
    let c = text_item("c", 6);
    let cleaned = clean_history(vec![a, b, c], 2);
    assert_eq!(cleaned.len(), 2);
    assert_eq!(cleaned[0].text.as_deref(), Some("b"));
    assert_eq!(cleaned[1].text.as_deref(), Some("c"));
}

#[test]
fn clean_is_idempotent_on_clean_input() {
    let a = text_item("a", 3);
    let b = text_item("b", 9);
    let once = clean_history(vec![a, b], 10);
    let twice = clean_history(once.clone(), 10);
    assert_eq!(once.len(), twice.len());
    for (x, y) in once.iter().zip(twice.iter()) {
        assert_eq!(x.id, y.id);
        assert_eq!(x.updated_at, y.updated_at);
        assert_eq!(x.is_favorite, y.is_favorite);
    }
}

#[test]
fn content_addressing_same_bytes_same_path() {
    let png = vec![1u8, 2, 3, 4];
    let p1 = blob_plan(&png);
    let p2 = blob_plan(&png);
    assert_eq!(p1.rel_path, p2.rel_path);
    assert_eq!(p1.file_name, p2.file_name);
    assert_eq!(p1.rel_path, format!("clipboard-images/{}", p1.file_name));
    assert_eq!(p1.file_name, format!("{}.png", &p1.content_hash[..24]));

    // the second store writes nothing
    let mut names: Vec<String> = Vec::new();
    assert!(blob_needs_write(&names, &p1.file_name));
    names.push(p1.file_name.clone());
    assert!(!blob_needs_write(&names, &p2.file_name));
}

#[test]
fn image_item_fields() {
    let png = vec![9u8, 9, 9];
    let (item, blob) = image_item_from_png_bytes(&png, 42);
    assert_eq!(item.item_type, ItemType::Image);
    assert_eq!(item.image_path.as_deref(), Some(blob.rel_path.as_str()));
    assert_eq!(item.content_hash, blob.content_hash);
    assert_eq!(item.created_at, 42);
    assert!(item.image_preview_data_url.is_some());
    assert!(item.text.is_none());
}

#[test]
fn preview_is_base64_data_url() {
    let bytes = vec![b'a', b'b'];
    assert_eq!(preview_data_url(&bytes), "data:image/png;base64,YWI=");
}

#[test]
fn unknown_id_tolerance() {
    // toggleFavorite on an unknown id is a quiet no-op; delete is an error
    let mut items = vec![text_item("x", 1)];
    let before = items.len();
    assert!(toggle_favorite(&mut items, "nonexistent", 2).is_none());
    assert_eq!(items.len(), before);

    let mut guard: Option<String> = None;
    let r = delete_item(&mut items, &mut guard, "nonexistent");
    assert_eq!(r.err(), Some(EngineError::ItemNotFound));
    assert_eq!(items.len(), before);
}

#[test]
fn toggle_known_id_moves_to_front() {
    let a = text_item("a", 1);
    let b = text_item("b", 2);
    let aid = a.id.clone();
    let mut items = vec![b, a];
    let updated = toggle_favorite(&mut items, &aid, 50).expect("known id");
    assert!(updated.is_favorite);
    assert_eq!(updated.updated_at, 50);
    assert_eq!(items[0].id, aid);
    assert_eq!(items.len(), 2);
}

#[test]
fn delete_clears_matching_guard() {
    let a = text_item("a", 1);
    let aid = a.id.clone();
    let fp = fingerprint(&a);
    let mut items = vec![a];
    let mut guard = Some(fp);
    let removed = delete_item(&mut items, &mut guard, &aid).expect("known id");
    assert_eq!(removed.id, aid);
    assert!(items.is_empty());
    assert!(guard.is_none(), "guard pointed at the deleted record");
}

#[test]
fn clear_then_unchanged_clipboard_stays_quiet() {
    // clearing pins the guard to the clipboard's fingerprint: X is not
    // re-captured, a change to Y is
    let mut items: Vec<ClipboardItem> = Vec::new();
    let mut guard: Option<String> = None;
    poll_text(&mut items, &mut guard, "X", 300, 1).unwrap();

    clear_history_state(&mut items, &mut guard, text_fingerprint("X"));
    assert!(items.is_empty());

    assert!(poll_text(&mut items, &mut guard, "X", 300, 2).is_none());
    assert!(items.is_empty());

    let y = poll_text(&mut items, &mut guard, "Y", 300, 3);
    assert_eq!(y.unwrap().text.as_deref(), Some("Y"));
    assert_eq!(items.len(), 1);
}

#[test]
fn internal_log_text_is_ignored() {
    assert!(is_internal_log_text("xx [INFO] history updated with text item"));
    assert!(is_internal_log_text("  plugin_image=true  "));
    assert!(!is_internal_log_text("ordinary text"));
    assert!(!is_internal_log_text("   "));

    let mut items: Vec<ClipboardItem> = Vec::new();
    let mut guard: Option<String> = None;
    let r = poll_text(
        &mut items,
        &mut guard,
        "[DEBUG] poll no-capture plugin_image=false",
        300,
        1,
    );
    assert!(r.is_none());
    assert!(items.is_empty());
}

#[test]
fn strip_previews_clears_transient_field() {
    let png = vec![1u8];
    let (item, _) = image_item_from_png_bytes(&png, 1);
    assert!(item.image_preview_data_url.is_some());
    let stripped = strip_previews(vec![item]);
    assert!(stripped[0].image_preview_data_url.is_none());
    assert!(stripped[0].image_path.is_some());
}

#[test]
fn shortcut_sanitizing() {
    assert_eq!(sanitize_shortcut("meta+Shift+V"), "Super+Shift+V");
    assert_eq!(sanitize_shortcut("CmdOrCtrl + c"), "CommandOrControl+c");
    assert_eq!(sanitize_shortcut("++"), "Alt+Shift+V");
    assert_eq!(sanitize_shortcut(""), "Alt+Shift+V");
    assert_eq!(sanitize_shortcut(" alt + x "), "alt+x");
}

#[test]
fn settings_clamping() {
    let s = AppSettings {
        poll_interval_ms: 5,
        history_limit: 1_000_000,
        storage_dir: String::from("  /tmp/x  "),
        global_shortcut: String::from("meta+v"),
        launch_at_startup: true,
        always_on_top: false,
    };
    let n = normalize_settings(s);
    assert_eq!(n.poll_interval_ms, 300);
    assert_eq!(n.history_limit, 5000);
    assert_eq!(n.storage_dir, "/tmp/x");
    assert_eq!(n.global_shortcut, "Super+v");
    assert!(n.launch_at_startup);

    let d = AppSettings::default();
    assert_eq!(d.history_limit, 300);
    assert_eq!(d.global_shortcut, "Alt+Shift+V");
}

#[test]
fn file_urls_become_paths() {
    assert_eq!(
        file_url_to_path("file:///C:/a/b.png").as_deref(),
        Some("C:\\a\\b.png")
    );
    assert_eq!(
        file_url_to_path("file://localhost/C:/x.png").as_deref(),
        Some("C:\\x.png")
    );
    assert!(file_url_to_path("http://x/y.png").is_none());
}

#[test]
fn img_src_extraction() {
    assert_eq!(
        first_img_src("<p><IMG SRC=\"http://x/y.png\"></p>").as_deref(),
        Some("http://x/y.png")
    );
    assert_eq!(
        first_img_src("<img src='a.png'>").as_deref(),
        Some("a.png")
    );
    assert_eq!(first_img_src("<img src=bare.png >").as_deref(), Some("bare.png"));
    assert!(first_img_src("<p>no image</p>").is_none());
    // only the first <img> tag's own src counts, not any earlier src=
    assert_eq!(
        first_img_src("<video src='v.mp4'></video><img src='a.png'>").as_deref(),
        Some("a.png")
    );
    assert!(first_img_src("<video src='v.mp4'></video>").is_none());
    assert!(first_img_src("<img alt=x> src=late.png").is_none());
}

#[test]
fn log_preview_flattens() {
    assert_eq!(text_preview_for_log("a\r\nb\tc", 100), "a  b c");
    assert_eq!(text_preview_for_log("abcdef", 3), "abc");
}

#[test]
fn dib_decoding() {
    // a 1x1 bottom-up 32-bit bitmap: BGRA 01 02 03 00; alpha all zero is
    // corrected to opaque, channels swap to RGBA
    let mut d = vec![0u8; 44];
    d[0] = 40; // header size
    d[4] = 1; // width 1
    d[8] = 1; // height 1
    d[14] = 32; // bit count
    d[40] = 1; // B
    d[41] = 2; // G
    d[42] = 3; // R
    d[43] = 0; // A
    let (w, h, rgba) = read_clipboard_image_win32(&d).expect("valid bitmap");
    assert_eq!((w, h), (1, 1));
    assert_eq!(rgba, vec![3, 2, 1, 255]);

    // unsupported bit depth yields nothing
    let mut bad = d.clone();
    bad[14] = 8;
    assert!(read_clipboard_image_win32(&bad).is_none());
    // too short yields nothing
    assert!(read_clipboard_image_win32(&d[..20]).is_none());
}

#[test]
fn clock_is_callable() {
    let t = now_ms();
    let items = vec![text_item("clock", t)];
    assert_eq!(items[0].created_at, t);
}

#[test]
fn migration_noop_on_equal_roots() {
    let old_blobs: Vec<String> = vec!["a.png".into(), "b.png".into()];
    let new_blobs: Vec<String> = Vec::new();
    assert!(clipvault::migrate::migration_plan(true, false, &old_blobs, &new_blobs).is_none());
}

#[test]
fn migration_copies_only_missing() {
    let old_blobs: Vec<String> = vec!["a.png".into(), "b.png".into(), "c.png".into()];
    let new_blobs: Vec<String> = vec!["b.png".into()];
    let plan = clipvault::migrate::migration_plan(false, false, &old_blobs, &new_blobs)
        .expect("different roots need a plan");
    assert!(plan.copy_history);
    assert_eq!(plan.blobs_to_copy, vec!["a.png".to_string(), "c.png".to_string()]);

    let plan2 = clipvault::migrate::migration_plan(false, true, &old_blobs, &new_blobs).unwrap();
    assert!(!plan2.copy_history, "an existing history file is never overwritten");
}

#[test]
fn copy_resolves_payload_and_marks_guard() {
    let a = text_item("hello copy", 1);
    let aid = a.id.clone();
    let items = vec![a];
    match clipvault::ops::prepare_copy(&items, &aid) {
        Ok(clipvault::ops::CopyPayload::Text(t)) => assert_eq!(t, "hello copy"),
        _ => panic!("text record must yield its text"),
    }
    assert!(matches!(
        clipvault::ops::prepare_copy(&items, "missing"),
        Err(EngineError::ItemNotFound)
    ));

    let png = vec![7u8];
    let (img, blob) = image_item_from_png_bytes(&png, 2);
    let iid = img.id.clone();
    let imgs = vec![img.clone()];
    match clipvault::ops::prepare_copy(&imgs, &iid) {
        Ok(clipvault::ops::CopyPayload::ImagePath(p)) => assert_eq!(p, blob.rel_path),
        _ => panic!("image record must yield its blob path"),
    }
    let mut broken = img;
    broken.image_path = None;
    let bid = broken.id.clone();
    assert!(matches!(
        clipvault::ops::prepare_copy(&vec![broken], &bid),
        Err(EngineError::MissingImagePath)
    ));

    // after a copy the next poll must not re-capture the content
    let mut guard: Option<String> = None;
    let copied = text_item("hello copy", 3);
    clipvault::ops::mark_copied(&mut guard, &copied);
    let mut hist: Vec<ClipboardItem> = Vec::new();
    assert!(poll_text(&mut hist, &mut guard, "hello copy", 300, 4).is_none());
    assert!(hist.is_empty());
}

#[test]
fn text_source_resolution_order() {
    // a real 1x1 PNG, carried by a data URI
    let png = encode_rgba_to_png_bytes(1, 1, &vec![10u8, 20, 30, 255]).expect("encodable");
    let b64 = base64::engine::general_purpose::STANDARD.encode(&png);
    let uri = format!("data:image/png;base64,{b64}");

    let refs = image_refs(&uri);
    assert!(matches!(refs.first(), Some(ImageRef::Data(p)) if *p == b64));
    let probes: Vec<Option<Vec<u8>>> = refs.iter().map(|_| None).collect();
    let resolved = resolve_image_refs(&refs, &probes).expect("data URI decodes");
    // the payload round-trips through decode and PNG re-encode
    assert_eq!(
        image::load_from_memory(&resolved).unwrap().to_rgba8().into_raw(),
        vec![10u8, 20, 30, 255]
    );

    // an embedded <img src> contributes file candidates, the whole text
    // always falls back to a bare path
    let html = "<p><img src=\"file:///C:/pic.png\"></p>";
    let refs = image_refs(html);
    assert!(matches!(&refs[0], ImageRef::File(p) if p == "C:\\pic.png"));
    assert!(matches!(&refs[1], ImageRef::File(p) if p == "file:///C:/pic.png"));
    // last candidate: the whole text as a bare path
    assert!(matches!(refs.last(), Some(ImageRef::File(_))));

    // non-image bytes fall through to nothing
    let refs = image_refs("/some/plain/path.txt");
    let probes: Vec<Option<Vec<u8>>> =
        refs.iter().map(|_| Some(vec![1u8, 2, 3])).collect();
    assert!(resolve_image_refs(&refs, &probes).is_none());
}

#[test]
fn text_source_yields_image_item() {
    let png = encode_rgba_to_png_bytes(2, 1, &vec![1u8, 2, 3, 255, 4, 5, 6, 255]).unwrap();
    let b64 = base64::engine::general_purpose::STANDARD.encode(&png);
    let uri = format!("data:image/png;base64,{b64}");
    let refs = image_refs(&uri);
    let probes: Vec<Option<Vec<u8>>> = refs.iter().map(|_| None).collect();
    let (item, blob) = try_image_item_from_text_source(&uri, &probes, 7).expect("resolves");
    assert_eq!(item.item_type, ItemType::Image);
    assert_eq!(item.image_path.as_deref(), Some(blob.rel_path.as_str()));
    assert_eq!(item.created_at, 7);

    // plain prose resolves to nothing
    let refs = image_refs("just words");
    let probes: Vec<Option<Vec<u8>>> = refs.iter().map(|_| None).collect();
    assert!(try_image_item_from_text_source("just words", &probes, 7).is_none());
}

#[test]
fn file_list_takes_first_image() {
    let png = encode_rgba_to_png_bytes(1, 1, &vec![9u8, 9, 9, 255]).unwrap();
    let probes: Vec<Option<Vec<u8>>> =
        vec![None, Some(vec![0u8, 1]), Some(png.clone()), Some(png.clone())];
    let found = first_image_from_files(&probes).expect("third entry is an image");
    assert!(image::load_from_memory(&found).is_ok());
    assert!(first_image_from_files(&vec![None, Some(vec![1u8])]).is_none());
}

#[test]
fn normalization_is_idempotent_in_practice() {
    // text whose single-pass CRLF replacement is not stable
    let tricky = "a\r\r\nb";
    let once = normalize_text(tricky);
    let twice = normalize_text(&once);
    assert_eq!(once, twice);
    assert_eq!(once, "a\nb");
}

#[test]
fn copy_back_is_not_recaptured() {
    // even for text that one CRLF pass would not stabilize
    let mut items: Vec<ClipboardItem> = Vec::new();
    let mut guard: Option<String> = None;
    let captured =
        poll_text(&mut items, &mut guard, "x\r\r\ny", 300, 1).expect("novel content");
    // the engine copies the stored record back; the clipboard now holds its text
    clipvault::ops::mark_copied(&mut guard, &captured);
    let clip_text = captured.text.as_deref().unwrap().to_string();
    assert!(poll_text(&mut items, &mut guard, &clip_text, 300, 2).is_none());
    assert_eq!(items.len(), 1);
}

#[test]
fn clear_suppresses_unstable_text_too() {
    let mut items: Vec<ClipboardItem> = Vec::new();
    let mut guard: Option<String> = None;
    poll_text(&mut items, &mut guard, "a\r\r\nb", 300, 1).unwrap();
    clear_history_state(&mut items, &mut guard, text_fingerprint("a\r\r\nb"));
    assert!(poll_text(&mut items, &mut guard, "a\r\r\nb", 300, 2).is_none());
    assert!(items.is_empty());
}

#[test]
fn retry_policy_is_bounded() {
    let p = RetryPolicy { max_attempts: 2, delay_ms: 10 };
    assert!(p.should_retry(0));
    assert!(p.should_retry(1));
    assert!(!p.should_retry(2));
    assert!(!p.should_retry(3));
}

#[test]
fn find_item_resolves_ids() {
    let a = text_item("a", 1);
    let aid = a.id.clone();
    let items = vec![a];
    assert_eq!(clipvault::ops::find_item(&items, &aid).unwrap().id, aid);
    assert!(clipvault::ops::find_item(&items, "missing").is_none());
}

#[test]
fn storage_round_trip() {
    // writing and reloading reproduces the records; previews are absent
    // until explicitly requested
    let mut a = text_item("first", 1);
    a.is_favorite = true;
    let png = vec![5u8, 6];
    let (mut b, _) = image_item_from_png_bytes(&png, 2);
    assert!(b.image_preview_data_url.is_some());
    b.text = None;
    let items = vec![a.clone(), b.clone()];

    let encoded = clipvault::codec::encode_history(&items);
    let decoded = clipvault::codec::decode_history(&encoded).expect("own encoding parses");
    assert_eq!(decoded.len(), 2);
    assert_eq!(decoded[0].id, a.id);
    assert_eq!(decoded[0].text.as_deref(), Some("first"));
    assert!(decoded[0].is_favorite);
    assert_eq!(decoded[0].created_at, 1);
    assert_eq!(decoded[1].id, b.id);
    assert_eq!(decoded[1].image_path, b.image_path);
    assert_eq!(decoded[1].content_hash, b.content_hash);
    assert!(decoded[1].image_preview_data_url.is_none(), "previews are never persisted");

    // a second round trip is stable
    let again = clipvault::codec::decode_history(&clipvault::codec::encode_history(&decoded))
        .unwrap();
    assert_eq!(again.len(), decoded.len());
    assert_eq!(again[0].id, decoded[0].id);
}

#[test]
fn malformed_history_is_rejected() {
    assert!(clipvault::codec::decode_history("").is_none());
    assert!(clipvault::codec::decode_history("garbage").is_none());
    // a truncated valid encoding fails too
    let items = vec![text_item("x", 1)];
    let encoded = clipvault::codec::encode_history(&items);
    assert!(clipvault::codec::decode_history(&encoded[..encoded.len() - 1]).is_none());
    // trailing bytes fail as well
    let mut padded = encoded.clone();
    padded.push('x');
    assert!(clipvault::codec::decode_history(&padded).is_none());
}


#[test]
fn png_encode_rejects_wrong_buffer() {
    // the buffer must hold exactly the image's pixels
    assert!(encode_rgba_to_png_bytes(1, 1, &vec![0u8; 8]).is_none());
    assert!(encode_rgba_to_png_bytes(1, 1, &vec![0u8; 3]).is_none());
    assert!(encode_rgba_to_png_bytes(0, 1, &vec![]).is_none());
    assert!(encode_rgba_to_png_bytes(1, 1, &vec![0u8; 4]).is_some());
}

#[test]
fn diagnostic_throttle() {
    assert!(clipvault::clock::throttle_allows(0, 5000, 3000));
    assert!(!clipvault::clock::throttle_allows(4000, 5000, 3000));
    assert!(clipvault::clock::throttle_allows(2000, 5000, 3000));
}

#[test]
fn dib_pixel_placement() {
    // 1x2 bottom-up 32-bit: the file's first row is the image's bottom row,
    // so the output must be flipped to top-down order
    let mut d = vec![0u8; 40 + 8];
    d[0] = 40; // header size
    d[4] = 1; // width 1
    d[8] = 2; // height 2, positive: bottom-up
    d[14] = 32;
    d[40..44].copy_from_slice(&[1, 2, 3, 9]); // bottom pixel, BGRA
    d[44..48].copy_from_slice(&[4, 5, 6, 9]); // top pixel, BGRA
    let (w, h, rgba) = read_clipboard_image_win32(&d).expect("valid");
    assert_eq!((w, h), (1, 2));
    assert_eq!(rgba, vec![6, 5, 4, 9, 3, 2, 1, 9]);

    // 2x1 24-bit BGR: rows pad to 4 bytes, alpha becomes 255
    let mut d = vec![0u8; 40 + 8];
    d[0] = 40;
    d[4] = 2; // width 2
    d[8] = 1; // height 1
    d[14] = 24;
    d[40..46].copy_from_slice(&[1, 2, 3, 4, 5, 6]); // two BGR pixels
    let (w, h, rgba) = read_clipboard_image_win32(&d).expect("valid");
    assert_eq!((w, h), (2, 1));
    assert_eq!(rgba, vec![3, 2, 1, 255, 6, 5, 4, 255]);
}

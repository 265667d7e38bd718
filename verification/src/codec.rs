//! The persisted history format: a character stream of length-prefixed
//! fields, written and parsed by verified code. Reloading what was written
//! reproduces the records exactly, except the transient preview field,
//! which is never persisted.

use vstd::prelude::*;
use crate::digits::{spec_dec_fixed, dec_fixed, parse_dec_fixed, pow10, lemma_pow10_20,
    lemma_dec_fixed_len, lemma_dec_val_of_fixed, spec_dec_val, spec_all_digits};
use crate::item::{ClipboardItem, ItemModel, ItemType};
use crate::history::spec_models;
use crate::ops::spec_strip;
use crate::text::{str_chars, append_chars, chars_to_string, take_copy, skip_copy};

verus! {

/// A number as exactly 20 decimal digits.
pub open spec fn spec_enc_u64(n: nat) -> Seq<char> {
    spec_dec_fixed(n, 20)
}

/// A field: its character count, then its characters.
pub open spec fn spec_enc_field(f: Seq<char>) -> Seq<char> {
    spec_enc_u64(f.len()) + f
}

pub open spec fn spec_enc_opt(o: Option<Seq<char>>) -> Seq<char> {
    match o {
        None => seq!['0'],
        Some(f) => seq!['1'] + spec_enc_field(f),
    }
}

pub open spec fn spec_enc_bool(b: bool) -> Seq<char> {
    if b {
        seq!['1']
    } else {
        seq!['0']
    }
}

pub open spec fn spec_enc_ty(t: ItemType) -> Seq<char> {
    if t is Text {
        seq!['t']
    } else {
        seq!['i']
    }
}

/// One record; the transient preview field is never written.
pub open spec fn spec_enc_record(m: ItemModel) -> Seq<char> {
    spec_enc_field(m.id) + spec_enc_ty(m.item_type) + spec_enc_opt(m.text) + spec_enc_opt(
        m.image_path,
    ) + spec_enc_field(m.content_hash) + spec_enc_bool(m.is_favorite) + spec_enc_u64(
        m.created_at as nat,
    ) + spec_enc_u64(m.updated_at as nat)
}

pub open spec fn spec_enc_records(ms: Seq<ItemModel>) -> Seq<char>
    decreases ms.len(),
{
    if ms.len() == 0 {
        Seq::empty()
    } else {
        spec_enc_record(ms[0]) + spec_enc_records(ms.drop_first())
    }
}

/// The whole file: the record count, then the records.
pub open spec fn spec_enc_history(ms: Seq<ItemModel>) -> Seq<char> {
    spec_enc_u64(ms.len()) + spec_enc_records(ms)
}

/// Every string field short enough for its 20-digit length prefix; true of
/// any record the machine can hold.
pub open spec fn spec_record_fits(m: ItemModel) -> bool {
    &&& m.id.len() <= u64::MAX
    &&& (m.text is Some ==> m.text->Some_0.len() <= u64::MAX)
    &&& (m.image_path is Some ==> m.image_path->Some_0.len() <= u64::MAX)
    &&& m.content_hash.len() <= u64::MAX
}

// ---- parsing, mirrored at the spec level ----

pub open spec fn spec_parse_u64(s: Seq<char>, pos: int) -> Option<(u64, int)> {
    if 0 <= pos && pos + 20 <= s.len() && spec_all_digits(s.subrange(pos, pos + 20))
        && spec_dec_val(s.subrange(pos, pos + 20), 0) <= u64::MAX {
        Some((spec_dec_val(s.subrange(pos, pos + 20), 0) as u64, pos + 20))
    } else {
        None
    }
}

pub open spec fn spec_parse_field(s: Seq<char>, pos: int) -> Option<(Seq<char>, int)> {
    match spec_parse_u64(s, pos) {
        Some((n, p)) => if p + n <= s.len() {
            Some((s.subrange(p, p + n), p + n))
        } else {
            None
        },
        None => None,
    }
}

pub open spec fn spec_parse_opt(s: Seq<char>, pos: int) -> Option<(Option<Seq<char>>, int)> {
    if 0 <= pos && pos < s.len() {
        if s[pos] == '0' {
            Some((None, pos + 1))
        } else if s[pos] == '1' {
            match spec_parse_field(s, pos + 1) {
                Some((f, p)) => Some((Some(f), p)),
                None => None,
            }
        } else {
            None
        }
    } else {
        None
    }
}

pub open spec fn spec_parse_bool(s: Seq<char>, pos: int) -> Option<(bool, int)> {
    if 0 <= pos && pos < s.len() {
        if s[pos] == '0' {
            Some((false, pos + 1))
        } else if s[pos] == '1' {
            Some((true, pos + 1))
        } else {
            None
        }
    } else {
        None
    }
}

pub open spec fn spec_parse_ty(s: Seq<char>, pos: int) -> Option<(ItemType, int)> {
    if 0 <= pos && pos < s.len() {
        if s[pos] == 't' {
            Some((ItemType::Text, pos + 1))
        } else if s[pos] == 'i' {
            Some((ItemType::Image, pos + 1))
        } else {
            None
        }
    } else {
        None
    }
}

pub open spec fn spec_parse_record(s: Seq<char>, pos: int) -> Option<(ItemModel, int)> {
    match spec_parse_field(s, pos) {
        None => None,
        Some((id, p1)) => match spec_parse_ty(s, p1) {
            None => None,
            Some((ty, p2)) => match spec_parse_opt(s, p2) {
                None => None,
                Some((text, p3)) => match spec_parse_opt(s, p3) {
                    None => None,
                    Some((path, p4)) => match spec_parse_field(s, p4) {
                        None => None,
                        Some((hash, p5)) => match spec_parse_bool(s, p5) {
                            None => None,
                            Some((fav, p6)) => match spec_parse_u64(s, p6) {
                                None => None,
                                Some((created, p7)) => match spec_parse_u64(s, p7) {
                                    None => None,
                                    Some((updated, p8)) => Some(
                                        (
                                            ItemModel {
                                                id,
                                                item_type: ty,
                                                text,
                                                image_path: path,
                                                image_preview_data_url: None,
                                                content_hash: hash,
                                                is_favorite: fav,
                                                created_at: created,
                                                updated_at: updated,
                                            },
                                            p8,
                                        ),
                                    ),
                                },
                            },
                        },
                    },
                },
            },
        },
    }
}

pub open spec fn spec_parse_records(s: Seq<char>, pos: int, k: nat) -> Option<(Seq<ItemModel>, int)>
    decreases k,
{
    if k == 0 {
        Some((Seq::empty(), pos))
    } else {
        match spec_parse_record(s, pos) {
            None => None,
            Some((m, p)) => match spec_parse_records(s, p, (k - 1) as nat) {
                None => None,
                Some((ms, p2)) => Some((seq![m] + ms, p2)),
            },
        }
    }
}

/// The whole file parsed: the record count, then that many records,
/// consuming everything.
pub open spec fn spec_parse_history(s: Seq<char>) -> Option<Seq<ItemModel>> {
    match spec_parse_u64(s, 0) {
        None => None,
        Some((n, p)) => match spec_parse_records(s, p, n as nat) {
            None => None,
            Some((ms, p2)) => if p2 == s.len() {
                Some(ms)
            } else {
                None
            },
        },
    }
}

// ---- round-trip lemmas ----

proof fn lemma_parse_u64_enc(s: Seq<char>, pos: int, n: u64)
    requires
        0 <= pos,
        pos + 20 <= s.len(),
        s.subrange(pos, pos + 20) == spec_enc_u64(n as nat),
    ensures
        spec_parse_u64(s, pos) == Some((n, pos + 20)),
{
    lemma_pow10_20();
    lemma_dec_fixed_len(n as nat, 20);
    lemma_dec_val_of_fixed(n as nat, 20, 0);
}

proof fn lemma_parse_field_enc(s: Seq<char>, pos: int, f: Seq<char>)
    requires
        0 <= pos,
        f.len() <= u64::MAX,
        pos + spec_enc_field(f).len() <= s.len(),
        s.subrange(pos, pos + spec_enc_field(f).len()) == spec_enc_field(f),
    ensures
        spec_parse_field(s, pos) == Some((f, pos + spec_enc_field(f).len())),
{
    lemma_dec_fixed_len(f.len(), 20);
    let e = spec_enc_field(f);
    assert(e.len() == 20 + f.len());
    assert(s.subrange(pos, pos + 20) =~= e.subrange(0, 20));
    assert(e.subrange(0, 20) =~= spec_enc_u64(f.len()));
    lemma_parse_u64_enc(s, pos, f.len() as u64);
    assert(s.subrange(pos + 20, pos + 20 + f.len() as int) =~= e.subrange(20, e.len() as int));
    assert(e.subrange(20, e.len() as int) =~= f);
}

proof fn lemma_parse_opt_enc(s: Seq<char>, pos: int, o: Option<Seq<char>>)
    requires
        0 <= pos,
        o is Some ==> o->Some_0.len() <= u64::MAX,
        pos + spec_enc_opt(o).len() <= s.len(),
        s.subrange(pos, pos + spec_enc_opt(o).len()) == spec_enc_opt(o),
    ensures
        spec_parse_opt(s, pos) == Some((o, pos + spec_enc_opt(o).len())),
{
    let e = spec_enc_opt(o);
    assert(s[pos] == e[0]);
    match o {
        None => {
            assert(e[0] == '0');
        },
        Some(f) => {
            assert(e[0] == '1');
            let ef = spec_enc_field(f);
            assert(s.subrange(pos + 1, pos + 1 + ef.len() as int) =~= e.subrange(
                1,
                e.len() as int,
            ));
            assert(e.subrange(1, e.len() as int) =~= ef);
            lemma_parse_field_enc(s, pos + 1, f);
        },
    }
}

proof fn lemma_concat_extract(s: Seq<char>, pos: int, a: Seq<char>, b: Seq<char>)
    requires
        0 <= pos,
        pos + a.len() + b.len() <= s.len(),
        s.subrange(pos, pos + a.len() + b.len()) == a + b,
    ensures
        s.subrange(pos, pos + a.len() as int) == a,
        s.subrange(pos + a.len(), pos + a.len() + b.len() as int) == b,
{
    let w = s.subrange(pos, pos + a.len() + b.len() as int);
    assert forall|k: int| 0 <= k < a.len() implies s[pos + k] == a[k] by {
        assert(w[k] == s[pos + k]);
        assert((a + b)[k] == a[k]);
    }
    assert forall|k: int| 0 <= k < b.len() implies s[pos + a.len() + k] == b[k] by {
        assert(w[a.len() + k] == s[pos + a.len() + k]);
        assert((a + b)[a.len() + k] == b[k]);
    }
    assert(s.subrange(pos, pos + a.len() as int) =~= a);
    assert(s.subrange(pos + a.len(), pos + a.len() + b.len() as int) =~= b);
}

#[verifier::rlimit(100)]
#[verifier::spinoff_prover]
proof fn lemma_parse_record_enc(s: Seq<char>, pos: int, m: ItemModel)
    requires
        0 <= pos,
        spec_record_fits(m),
        pos + spec_enc_record(m).len() <= s.len(),
        s.subrange(pos, pos + spec_enc_record(m).len()) == spec_enc_record(m),
    ensures
        spec_parse_record(s, pos) == Some((spec_strip(m), pos + spec_enc_record(m).len())),
{
    let e = spec_enc_record(m);
    let e0 = spec_enc_field(m.id);
    let e1 = spec_enc_ty(m.item_type);
    let e2 = spec_enc_opt(m.text);
    let e3 = spec_enc_opt(m.image_path);
    let e4 = spec_enc_field(m.content_hash);
    let e5 = spec_enc_bool(m.is_favorite);
    let e6 = spec_enc_u64(m.created_at as nat);
    let e7 = spec_enc_u64(m.updated_at as nat);
    lemma_dec_fixed_len(m.created_at as nat, 20);
    lemma_dec_fixed_len(m.updated_at as nat, 20);
    lemma_dec_fixed_len(m.id.len(), 20);
    lemma_dec_fixed_len(m.content_hash.len(), 20);
    let r7 = e7;
    let r6 = e6 + r7;
    let r5 = e5 + r6;
    let r4 = e4 + r5;
    let r3 = e3 + r4;
    let r2 = e2 + r3;
    let r1 = e1 + r2;
    assert(e =~= e0 + r1);
    let p0 = pos;
    let p1 = p0 + e0.len();
    let p2 = p1 + e1.len();
    let p3 = p2 + e2.len();
    let p4 = p3 + e3.len();
    let p5 = p4 + e4.len();
    let p6 = p5 + e5.len();
    let p7 = p6 + e6.len();
    let p8 = p7 + e7.len();
    assert(s.subrange(pos, pos + e0.len() + r1.len()) == e0 + r1);
    lemma_concat_extract(s, p0, e0, r1);
    lemma_concat_extract(s, p1 as int, e1, r2);
    lemma_concat_extract(s, p2 as int, e2, r3);
    lemma_concat_extract(s, p3 as int, e3, r4);
    lemma_concat_extract(s, p4 as int, e4, r5);
    lemma_concat_extract(s, p5 as int, e5, r6);
    lemma_concat_extract(s, p6 as int, e6, r7);
    lemma_parse_field_enc(s, p0, m.id);
    assert(s[p1 as int] == e1[0]);
    lemma_parse_opt_enc(s, p2 as int, m.text);
    lemma_parse_opt_enc(s, p3 as int, m.image_path);
    lemma_parse_field_enc(s, p4 as int, m.content_hash);
    assert(s[p5 as int] == e5[0]);
    lemma_parse_u64_enc(s, p6 as int, m.created_at);
    lemma_parse_u64_enc(s, p7 as int, m.updated_at);
    assert(s.subrange(p7 as int, p8 as int) =~= e7);
}

proof fn lemma_parse_records_enc(s: Seq<char>, pos: int, ms: Seq<ItemModel>)
    requires
        0 <= pos,
        forall|i: int| 0 <= i < ms.len() ==> spec_record_fits(#[trigger] ms[i]),
        pos + spec_enc_records(ms).len() <= s.len(),
        s.subrange(pos, pos + spec_enc_records(ms).len()) == spec_enc_records(ms),
    ensures
        spec_parse_records(s, pos, ms.len()) == Some(
            (ms.map_values(|m: ItemModel| spec_strip(m)), pos + spec_enc_records(ms).len()),
        ),
    decreases ms.len(),
{
    if ms.len() == 0 {
        assert(ms.map_values(|m: ItemModel| spec_strip(m)) =~= Seq::<ItemModel>::empty());
    } else {
        let e = spec_enc_records(ms);
        let eh = spec_enc_record(ms[0]);
        let et = spec_enc_records(ms.drop_first());
        assert(e =~= eh + et);
        assert(s.subrange(pos, pos + eh.len() + et.len()) == eh + et);
        lemma_concat_extract(s, pos, eh, et);
        lemma_parse_record_enc(s, pos, ms[0]);
        lemma_parse_records_enc(s, pos + eh.len(), ms.drop_first());
        assert(seq![spec_strip(ms[0])] + ms.drop_first().map_values(
            |m: ItemModel| spec_strip(m),
        ) =~= ms.map_values(|m: ItemModel| spec_strip(m)));
    }
}

/// Round trip: parsing an encoded history reproduces every record exactly,
/// except the transient preview field, which is always absent after a
/// reload.
pub proof fn lemma_storage_round_trip(ms: Seq<ItemModel>)
    requires
        ms.len() <= u64::MAX,
        forall|i: int| 0 <= i < ms.len() ==> spec_record_fits(#[trigger] ms[i]),
    ensures
        spec_parse_history(spec_enc_history(ms)) == Some(
            ms.map_values(|m: ItemModel| spec_strip(m)),
        ),
{
    let s = spec_enc_history(ms);
    let ec = spec_enc_u64(ms.len());
    let er = spec_enc_records(ms);
    lemma_dec_fixed_len(ms.len(), 20);
    assert(s.subrange(0, ec.len() + er.len() as int) =~= ec + er);
    lemma_concat_extract(s, 0, ec, er);
    assert(ec.len() == 20);
    lemma_parse_u64_enc(s, 0, ms.len() as u64);
    lemma_parse_records_enc(s, 20, ms);
}


proof fn lemma_enc_records_snoc(ms: Seq<ItemModel>, x: ItemModel)
    ensures
        spec_enc_records(ms.push(x)) == spec_enc_records(ms) + spec_enc_record(x),
    decreases ms.len(),
{
    if ms.len() == 0 {
        assert(ms.push(x).drop_first() =~= Seq::<ItemModel>::empty());
        assert(spec_enc_records(Seq::<ItemModel>::empty()) == Seq::<char>::empty());
        assert(spec_enc_records(ms.push(x)) == spec_enc_record(ms.push(x)[0])
            + spec_enc_records(ms.push(x).drop_first()));
        assert(ms.push(x)[0] == x);
        assert(ms =~= Seq::<ItemModel>::empty());
        assert(spec_enc_records(ms.push(x)) =~= spec_enc_records(ms) + spec_enc_record(x));
    } else {
        assert(ms.push(x).drop_first() =~= ms.drop_first().push(x));
        lemma_enc_records_snoc(ms.drop_first(), x);
        assert(spec_enc_records(ms.push(x)) =~= spec_enc_records(ms) + spec_enc_record(x));
    }
}

fn push_u64(out: &mut Vec<char>, n: u64)
    ensures
        final(out)@ == old(out)@ + spec_enc_u64(n as nat),
{
    proof {
        lemma_pow10_20();
    }
    let enc = dec_fixed(n, 20);
    append_chars(out, &enc);
}

fn push_field(out: &mut Vec<char>, f: &String)
    ensures
        final(out)@ == old(out)@ + spec_enc_field(f@),
{
    let chars = str_chars(f.as_str());
    let n = chars.len() as u64;
    proof {
        lemma_pow10_20();
    }
    let enc = dec_fixed(n, 20);
    append_chars(out, &enc);
    append_chars(out, &chars);
    proof {
        assert(out@ =~= old(out)@ + spec_enc_field(f@));
    }
}

fn push_opt(out: &mut Vec<char>, o: &Option<String>)
    ensures
        final(out)@ == old(out)@ + spec_enc_opt(o.deep_view()),
{
    match o {
        None => {
            out.push('0');
            proof {
                assert(out@ =~= old(out)@ + spec_enc_opt(o.deep_view()));
            }
        },
        Some(f) => {
            out.push('1');
            push_field(out, f);
            proof {
                assert(out@ =~= old(out)@ + spec_enc_opt(o.deep_view()));
            }
        },
    }
}

#[verifier::rlimit(100)]
fn push_record(out: &mut Vec<char>, it: &ClipboardItem)
    ensures
        final(out)@ == old(out)@ + spec_enc_record(it@),
{
    push_field(out, &it.id);
    match it.item_type {
        ItemType::Text => out.push('t'),
        ItemType::Image => out.push('i'),
    }
    push_opt(out, &it.text);
    push_opt(out, &it.image_path);
    push_field(out, &it.content_hash);
    out.push(if it.is_favorite {
        '1'
    } else {
        '0'
    });
    push_u64(out, it.created_at);
    push_u64(out, it.updated_at);
    proof {
        assert(out@ =~= old(out)@ + spec_enc_record(it@));
    }
}

/// Writes the whole history in the persisted format; the transient preview
/// field is never written.
pub fn encode_history(items: &Vec<ClipboardItem>) -> (r: String)
    ensures
        r@ == spec_enc_history(spec_models(items@)),
{
    let ghost ms = spec_models(items@);
    let mut out: Vec<char> = Vec::new();
    push_u64(&mut out, items.len() as u64);
    proof {
        assert(out@ =~= spec_enc_u64(ms.len()));
        assert(ms.take(0) =~= Seq::<ItemModel>::empty());
        assert(out@ =~= spec_enc_u64(ms.len()) + spec_enc_records(ms.take(0)));
    }
    let mut i: usize = 0;
    while i < items.len()
        invariant
            i <= items@.len(),
            ms == spec_models(items@),
            out@ == spec_enc_u64(ms.len()) + spec_enc_records(ms.take(i as int)),
        decreases items@.len() - i,
    {
        push_record(&mut out, &items[i]);
        proof {
            assert(items@[i as int]@ == ms[i as int]);
            assert(ms.take(i as int).push(ms[i as int]) =~= ms.take(i + 1));
            lemma_enc_records_snoc(ms.take(i as int), ms[i as int]);
            assert(out@ =~= spec_enc_u64(ms.len()) + spec_enc_records(ms.take(i + 1)));
        }
        i = i + 1;
    }
    proof {
        assert(ms.take(ms.len() as int) =~= ms);
    }
    chars_to_string(&out)
}

fn parse_u64(s: &Vec<char>, pos: usize) -> (r: Option<(u64, usize)>)
    ensures
        match r {
            Some(vp) => spec_parse_u64(s@, pos as int) == Some((vp.0, vp.1 as int)),
            None => spec_parse_u64(s@, pos as int) is None,
        },
{
    let n = s.len();
    if n < 20 || pos > n - 20 {
        return None;
    }
    match parse_dec_fixed(s, pos, 20) {
        Some(v) => Some((v, pos + 20)),
        None => None,
    }
}

fn parse_field(s: &Vec<char>, pos: usize) -> (r: Option<(String, usize)>)
    ensures
        match r {
            Some(fp) => spec_parse_field(s@, pos as int) == Some((fp.0@, fp.1 as int)),
            None => spec_parse_field(s@, pos as int) is None,
        },
{
    match parse_u64(s, pos) {
        None => None,
        Some((n, p)) => {
            let slen = s.len();
            if n > (slen - p) as u64 {
                return None;
            }
            let sk = skip_copy(s, p);
            let chars = take_copy(&sk, n as usize);
            proof {
                assert(chars@ =~= s@.subrange(p as int, p + n as int));
            }
            Some((chars_to_string(&chars), p + n as usize))
        },
    }
}

fn parse_opt(s: &Vec<char>, pos: usize) -> (r: Option<(Option<String>, usize)>)
    ensures
        match r {
            Some(op) => spec_parse_opt(s@, pos as int) == Some((op.0.deep_view(), op.1 as int)),
            None => spec_parse_opt(s@, pos as int) is None,
        },
{
    if pos >= s.len() {
        return None;
    }
    let c = s[pos];
    if c == '0' {
        Some((None, pos + 1))
    } else if c == '1' {
        match parse_field(s, pos + 1) {
            Some((f, p)) => Some((Some(f), p)),
            None => None,
        }
    } else {
        None
    }
}

#[verifier::rlimit(100)]
fn parse_record(s: &Vec<char>, pos: usize) -> (r: Option<(ClipboardItem, usize)>)
    ensures
        match r {
            Some(ip) => spec_parse_record(s@, pos as int) == Some((ip.0@, ip.1 as int)),
            None => spec_parse_record(s@, pos as int) is None,
        },
{
    let (id, p1) = match parse_field(s, pos) {
        Some(v) => v,
        None => {
            return None;
        },
    };
    if p1 >= s.len() {
        return None;
    }
    let tyc = s[p1];
    let ty = if tyc == 't' {
        ItemType::Text
    } else if tyc == 'i' {
        ItemType::Image
    } else {
        return None;
    };
    let p2 = p1 + 1;
    let (text, p3) = match parse_opt(s, p2) {
        Some(v) => v,
        None => {
            return None;
        },
    };
    let (path, p4) = match parse_opt(s, p3) {
        Some(v) => v,
        None => {
            return None;
        },
    };
    let (hash, p5) = match parse_field(s, p4) {
        Some(v) => v,
        None => {
            return None;
        },
    };
    if p5 >= s.len() {
        return None;
    }
    let favc = s[p5];
    let fav = if favc == '1' {
        true
    } else if favc == '0' {
        false
    } else {
        return None;
    };
    let p6 = p5 + 1;
    let (created, p7) = match parse_u64(s, p6) {
        Some(v) => v,
        None => {
            return None;
        },
    };
    let (updated, p8) = match parse_u64(s, p7) {
        Some(v) => v,
        None => {
            return None;
        },
    };
    let item = ClipboardItem {
        id,
        item_type: ty,
        text,
        image_path: path,
        image_preview_data_url: None,
        content_hash: hash,
        is_favorite: fav,
        created_at: created,
        updated_at: updated,
    };
    Some((item, p8))
}

/// Reads the whole persisted history back. `None` on any malformed
/// content; absence of the file is the application's case, not a parse.
pub fn decode_history(text: &str) -> (r: Option<Vec<ClipboardItem>>)
    ensures
        match r {
            Some(v) => spec_parse_history(text@) == Some(spec_models(v@)),
            None => spec_parse_history(text@) is None,
        },
{
    let s = str_chars(text);
    let (n, p0) = match parse_u64(&s, 0) {
        Some(v) => v,
        None => {
            return None;
        },
    };
    let mut acc: Vec<ClipboardItem> = Vec::new();
    let mut pos = p0;
    let mut k: u64 = 0;
    proof {
        assert(spec_models(acc@) =~= Seq::<ItemModel>::empty());
    }
    while k < n
        invariant
            s@ == text@,
            k <= n,
            spec_parse_u64(s@, 0) == Some((n, p0 as int)),
            ({
                let full = spec_parse_records(s@, p0 as int, n as nat);
                let rest = spec_parse_records(s@, pos as int, (n - k) as nat);
                match rest {
                    Some(msp) => full == Some((spec_models(acc@) + msp.0, msp.1)),
                    None => full is None,
                }
            }),
        decreases n - k,
    {
        let ghost accm = spec_models(acc@);
        match parse_record(&s, pos) {
            None => {
                return None;
            },
            Some((item, p2)) => {
                let ghost im = item@;
                acc.push(item);
                proof {
                    assert(spec_models(acc@) =~= accm.push(im));
                    let rest2 = spec_parse_records(s@, p2 as int, (n - k - 1) as nat);
                    match rest2 {
                        Some(msp) => {
                            assert(accm + (seq![im] + msp.0) =~= accm.push(im) + msp.0);
                        },
                        None => {},
                    }
                }
                pos = p2;
            },
        }
        k = k + 1;
    }
    if pos == s.len() {
        proof {
            assert(spec_parse_records(s@, pos as int, 0) == Some(
                (Seq::<ItemModel>::empty(), pos as int),
            ));
            assert(spec_models(acc@) + Seq::<ItemModel>::empty() =~= spec_models(acc@));
        }
        Some(acc)
    } else {
        None
    }
}

} // verus!

//! Character-level text utilities: the canonical normal form for captured
//! text, substring search, and the small string manipulations the capture
//! chain needs. Everything works on `Vec<char>` / `Seq<char>` so that the
//! contracts can speak directly about character sequences.

use vstd::prelude::*;
use vstd::string::StrSliceExecFns;

verus! {

/// The characters `str::trim` removes: the Unicode `White_Space` set.
pub open spec fn spec_is_ws(c: char) -> bool {
    ||| c == ' '
    ||| c == '\t'
    ||| c == '\n'
    ||| c == '\r'
    ||| c as u32 == 0x0B
    ||| c as u32 == 0x0C
    ||| c as u32 == 0x85
    ||| c as u32 == 0xA0
    ||| c as u32 == 0x1680
    ||| (0x2000 <= c as u32 && c as u32 <= 0x200A)
    ||| c as u32 == 0x2028
    ||| c as u32 == 0x2029
    ||| c as u32 == 0x202F
    ||| c as u32 == 0x205F
    ||| c as u32 == 0x3000
}

pub fn is_ws(c: char) -> (r: bool)
    ensures
        r == spec_is_ws(c),
{
    let n = c as u32;
    n == 0x20 || n == 0x09 || n == 0x0A || n == 0x0D || n == 0x0B || n == 0x0C || n == 0x85
        || n == 0xA0 || n == 0x1680 || (0x2000 <= n && n <= 0x200A) || n == 0x2028 || n == 0x2029
        || n == 0x202F || n == 0x205F || n == 0x3000
}

/// The characters of a `&str`, in order.
pub fn str_chars(s: &str) -> (r: Vec<char>)
    ensures
        r@ == s@,
{
    let n = s.unicode_len();
    let mut r: Vec<char> = Vec::new();
    let mut i: usize = 0;
    while i < n
        invariant
            n == s@.len(),
            i <= n,
            r@ == s@.take(i as int),
        decreases n - i,
    {
        r.push(s.get_char(i));
        i = i + 1;
        proof {
            assert(r@ =~= s@.take(i as int));
        }
    }
    proof {
        assert(s@.take(n as int) =~= s@);
    }
    r
}

/// Relies on `String::push`: appends exactly the given character.
#[verifier::external_body]
pub fn push_char(s: &mut String, c: char)
    ensures
        final(s)@ == old(s)@ + seq![c],
{
    s.push(c)
}

/// A `String` holding exactly the given characters, in order.
pub fn chars_to_string(v: &Vec<char>) -> (r: String)
    ensures
        r@ == v@,
{
    let mut r = String::new();
    let mut i: usize = 0;
    while i < v.len()
        invariant
            i <= v@.len(),
            r@ == v@.take(i as int),
        decreases v@.len() - i,
    {
        push_char(&mut r, v[i]);
        i = i + 1;
        proof {
            assert(r@ =~= v@.take(i as int));
        }
    }
    proof {
        assert(v@.take(v@.len() as int) =~= v@);
    }
    r
}

/// The sequence with leading white space removed.
pub open spec fn spec_trim_start(s: Seq<char>) -> Seq<char>
    decreases s.len(),
{
    if s.len() > 0 && spec_is_ws(s[0]) {
        spec_trim_start(s.drop_first())
    } else {
        s
    }
}

/// The sequence with trailing white space removed.
pub open spec fn spec_trim_end(s: Seq<char>) -> Seq<char>
    decreases s.len(),
{
    if s.len() > 0 && spec_is_ws(s.last()) {
        spec_trim_end(s.drop_last())
    } else {
        s
    }
}

/// What `str::trim` returns: both ends stripped of white space.
pub open spec fn spec_trim(s: Seq<char>) -> Seq<char> {
    spec_trim_end(spec_trim_start(s))
}

proof fn lemma_trim_start_skip(s: Seq<char>, i: int)
    requires
        0 <= i <= s.len(),
        forall|j: int| 0 <= j < i ==> spec_is_ws(s[j]),
    ensures
        spec_trim_start(s) == spec_trim_start(s.skip(i)),
    decreases i,
{
    if i > 0 {
        assert(spec_trim_start(s) == spec_trim_start(s.drop_first()));
        assert(s.drop_first() =~= s.skip(1));
        lemma_trim_start_skip(s.skip(1), i - 1);
        assert(s.skip(1).skip(i - 1) =~= s.skip(i));
    } else {
        assert(s.skip(0) =~= s);
    }
}

proof fn lemma_trim_end_take(s: Seq<char>, i: int)
    requires
        0 <= i <= s.len(),
        forall|j: int| i <= j < s.len() ==> spec_is_ws(s[j]),
    ensures
        spec_trim_end(s) == spec_trim_end(s.take(i)),
    decreases s.len() - i,
{
    if i < s.len() {
        assert(spec_is_ws(s.last()));
        assert(spec_trim_end(s) == spec_trim_end(s.drop_last()));
        assert(s.drop_last() =~= s.take(s.len() - 1));
        lemma_trim_end_take(s.take(s.len() - 1), i);
        assert(s.take(s.len() - 1).take(i) =~= s.take(i));
    } else {
        assert(s.take(s.len() as int) =~= s);
    }
}

/// Both ends stripped of white space.
pub fn trim_chars(v: &Vec<char>) -> (r: Vec<char>)
    ensures
        r@ == spec_trim(v@),
{
    let n = v.len();
    let mut lo: usize = 0;
    while lo < n && is_ws(v[lo])
        invariant
            n == v@.len(),
            lo <= n,
            forall|j: int| 0 <= j < lo ==> spec_is_ws(v@[j]),
        decreases n - lo,
    {
        lo = lo + 1;
    }
    proof {
        lemma_trim_start_skip(v@, lo as int);
        if lo < n {
            assert(v@.skip(lo as int)[0] == v@[lo as int]);
        }
        assert(spec_trim_start(v@) == v@.skip(lo as int));
    }
    let mut hi: usize = n;
    while hi > lo && is_ws(v[hi - 1])
        invariant
            n == v@.len(),
            lo <= hi <= n,
            forall|j: int| hi <= j < n ==> spec_is_ws(v@[j]),
        decreases hi,
    {
        hi = hi - 1;
    }
    let ghost t = v@.skip(lo as int);
    proof {
        assert(forall|j: int| hi - lo <= j < t.len() ==> spec_is_ws(#[trigger] t[j]));
        lemma_trim_end_take(t, hi - lo);
        if hi > lo {
            assert(t.take(hi - lo).last() == v@[hi - 1]);
        }
        assert(spec_trim_end(t) == t.take(hi - lo));
    }
    let mut r: Vec<char> = Vec::new();
    let mut i: usize = lo;
    while i < hi
        invariant
            lo <= i <= hi <= n,
            n == v@.len(),
            r@ == v@.subrange(lo as int, i as int),
        decreases hi - i,
    {
        r.push(v[i]);
        i = i + 1;
        proof {
            assert(r@ =~= v@.subrange(lo as int, i as int));
        }
    }
    proof {
        assert(r@ =~= t.take(hi - lo));
    }
    r
}

/// What `str::replace("\r\n", "\n")` returns: each CRLF pair collapsed to a
/// single LF, scanning left to right without overlap.
pub open spec fn spec_replace_crlf(s: Seq<char>) -> Seq<char>
    decreases s.len(),
{
    if s.len() == 0 {
        Seq::empty()
    } else if s.len() >= 2 && s[0] == '\r' && s[1] == '\n' {
        seq!['\n'] + spec_replace_crlf(s.skip(2))
    } else {
        seq![s[0]] + spec_replace_crlf(s.skip(1))
    }
}

pub fn replace_crlf(v: &Vec<char>) -> (r: Vec<char>)
    ensures
        r@ == spec_replace_crlf(v@),
{
    let n = v.len();
    let mut r: Vec<char> = Vec::new();
    let mut i: usize = 0;
    proof {
        assert(v@.skip(0) =~= v@);
        assert(spec_replace_crlf(v@) =~= Seq::<char>::empty() + spec_replace_crlf(v@));
    }
    while i < n
        invariant
            n == v@.len(),
            i <= n,
            spec_replace_crlf(v@) == r@ + spec_replace_crlf(v@.skip(i as int)),
        decreases n - i,
    {
        let ghost rest = v@.skip(i as int);
        if v[i] == '\r' && i + 1 < n && v[i + 1] == '\n' {
            r.push('\n');
            proof {
                assert(rest[0] == '\r' && rest[1] == '\n');
                assert(rest.skip(2) =~= v@.skip(i + 2));
                assert(spec_replace_crlf(rest) == seq!['\n'] + spec_replace_crlf(v@.skip(i + 2)));
            }
            i = i + 2;
        } else {
            r.push(v[i]);
            proof {
                assert(rest[0] == v@[i as int]);
                if rest.len() >= 2 && rest[0] == '\r' && rest[1] == '\n' {
                    assert(false);
                }
                assert(rest.skip(1) =~= v@.skip(i + 1));
                assert(spec_replace_crlf(rest) == seq![v@[i as int]] + spec_replace_crlf(
                    v@.skip(i + 1),
                ));
            }
            i = i + 1;
        }
        proof {
            assert(spec_replace_crlf(v@) =~= r@ + spec_replace_crlf(v@.skip(i as int)));
        }
    }
    proof {
        assert(v@.skip(n as int) =~= Seq::<char>::empty());
        assert(spec_replace_crlf(v@) =~= r@);
    }
    r
}

proof fn lemma_replace_crlf_shrinks(s: Seq<char>)
    ensures
        spec_replace_crlf(s).len() <= s.len(),
        spec_replace_crlf(s) == s || spec_replace_crlf(s).len() < s.len(),
    decreases s.len(),
{
    if s.len() == 0 {
        assert(spec_replace_crlf(s) =~= s);
    } else if s.len() >= 2 && s[0] == '\r' && s[1] == '\n' {
        lemma_replace_crlf_shrinks(s.skip(2));
    } else {
        lemma_replace_crlf_shrinks(s.skip(1));
        if spec_replace_crlf(s.skip(1)) == s.skip(1) {
            assert(seq![s[0]] + s.skip(1) =~= s);
        }
    }
}

/// No CRLF pair occurs in the sequence.
pub open spec fn spec_no_crlf(s: Seq<char>) -> bool {
    forall|i: int| 0 <= i && i + 1 < s.len() ==> !((#[trigger] s[i]) == '\r' && s[i + 1] == '\n')
}

proof fn lemma_replace_identity(s: Seq<char>)
    requires
        spec_no_crlf(s),
    ensures
        spec_replace_crlf(s) == s,
    decreases s.len(),
{
    if s.len() == 0 {
        assert(spec_replace_crlf(s) =~= s);
    } else if s.len() >= 2 && s[0] == '\r' && s[1] == '\n' {
        assert(!(s[0int] == '\r' && s[0int + 1] == '\n'));
    } else {
        assert forall|i: int| 0 <= i && i + 1 < s.skip(1).len() implies !((#[trigger] s.skip(1)[i])
            == '\r' && s.skip(1)[i + 1] == '\n') by {
            assert(s.skip(1)[i] == s[i + 1] && s.skip(1)[i + 1] == s[i + 2]);
        }
        lemma_replace_identity(s.skip(1));
        assert(spec_replace_crlf(s) =~= s);
    }
}

proof fn lemma_replace_shrinks_on_crlf(s: Seq<char>)
    requires
        !spec_no_crlf(s),
    ensures
        spec_replace_crlf(s).len() < s.len(),
    decreases s.len(),
{
    let i = choose|i: int| 0 <= i && i + 1 < s.len() && (#[trigger] s[i]) == '\r' && s[i + 1]
        == '\n';
    if s.len() >= 2 && s[0] == '\r' && s[1] == '\n' {
        lemma_replace_crlf_shrinks(s.skip(2));
    } else {
        assert(i >= 1);
        assert(s.skip(1)[i - 1] == s[i] && s.skip(1)[i] == s[i + 1]);
        assert(!spec_no_crlf(s.skip(1)));
        lemma_replace_shrinks_on_crlf(s.skip(1));
    }
}

/// CRLF pairs collapsed until none remains: the canonical line-ending form,
/// a fixed point of the replacement.
pub open spec fn spec_canonical_newlines(s: Seq<char>) -> Seq<char>
    decreases s.len(),
    via spec_canonical_newlines_dec
{
    if spec_replace_crlf(s) == s {
        s
    } else {
        spec_canonical_newlines(spec_replace_crlf(s))
    }
}

#[via_fn]
proof fn spec_canonical_newlines_dec(s: Seq<char>) {
    lemma_replace_crlf_shrinks(s);
}

proof fn lemma_canonical_fixpoint(s: Seq<char>)
    ensures
        spec_replace_crlf(spec_canonical_newlines(s)) == spec_canonical_newlines(s),
        spec_no_crlf(spec_canonical_newlines(s)),
        spec_canonical_newlines(spec_canonical_newlines(s)) == spec_canonical_newlines(s),
    decreases s.len(),
{
    lemma_replace_crlf_shrinks(s);
    if spec_replace_crlf(s) == s {
        if !spec_no_crlf(s) {
            lemma_replace_shrinks_on_crlf(s);
        }
    } else {
        lemma_canonical_fixpoint(spec_replace_crlf(s));
    }
}

proof fn lemma_trim_start_head(s: Seq<char>)
    ensures
        spec_trim_start(s).len() > 0 ==> !spec_is_ws(spec_trim_start(s)[0]),
    decreases s.len(),
{
    if s.len() > 0 && spec_is_ws(s[0]) {
        lemma_trim_start_head(s.drop_first());
    }
}

proof fn lemma_trim_end_prefix(s: Seq<char>)
    ensures
        spec_trim_end(s).len() <= s.len(),
        forall|i: int| 0 <= i < spec_trim_end(s).len() ==> #[trigger] spec_trim_end(s)[i] == s[i],
        spec_trim_end(s).len() > 0 ==> !spec_is_ws(spec_trim_end(s).last()),
    decreases s.len(),
{
    if s.len() > 0 && spec_is_ws(s.last()) {
        lemma_trim_end_prefix(s.drop_last());
    }
}

/// Trimming is idempotent.
proof fn lemma_trim_idempotent(s: Seq<char>)
    ensures
        spec_trim(spec_trim(s)) == spec_trim(s),
{
    let a = spec_trim_start(s);
    let b = spec_trim_end(a);
    lemma_trim_start_head(s);
    lemma_trim_end_prefix(a);
    assert(spec_trim_start(b) == b);
    assert(spec_trim_end(b) == b);
}

proof fn lemma_trim_preserves_no_crlf(s: Seq<char>)
    requires
        spec_no_crlf(s),
    ensures
        spec_no_crlf(spec_trim(s)),
{
    let a = spec_trim_start(s);
    assert(spec_no_crlf(a)) by {
        lemma_trim_start_no_crlf(s);
    }
    lemma_trim_end_prefix(a);
    let b = spec_trim_end(a);
    assert forall|i: int| 0 <= i && i + 1 < b.len() implies !((#[trigger] b[i]) == '\r' && b[i
        + 1] == '\n') by {
        assert(b[i] == a[i] && b[i + 1] == a[i + 1]);
    }
}

proof fn lemma_trim_start_no_crlf(s: Seq<char>)
    requires
        spec_no_crlf(s),
    ensures
        spec_no_crlf(spec_trim_start(s)),
    decreases s.len(),
{
    if s.len() > 0 && spec_is_ws(s[0]) {
        assert forall|i: int| 0 <= i && i + 1 < s.drop_first().len() implies !((
        #[trigger] s.drop_first()[i]) == '\r' && s.drop_first()[i + 1] == '\n') by {
            assert(s.drop_first()[i] == s[i + 1] && s.drop_first()[i + 1] == s[i + 2]);
        }
        lemma_trim_start_no_crlf(s.drop_first());
    }
}

/// The canonical form of captured text: CRLF line endings unified to LF —
/// repeated until stable, so the form is a true fixed point — and
/// surrounding white space trimmed.
pub open spec fn spec_normalize_text(s: Seq<char>) -> Seq<char> {
    spec_trim(spec_canonical_newlines(s))
}

/// Normalizing is idempotent: normalized text re-normalizes to itself, so
/// stored records, guard fingerprints and fresh captures of one content all
/// hash the same bytes.
pub proof fn lemma_normalize_idempotent(s: Seq<char>)
    ensures
        spec_normalize_text(spec_normalize_text(s)) == spec_normalize_text(s),
{
    let c = spec_canonical_newlines(s);
    let n = spec_trim(c);
    lemma_canonical_fixpoint(s);
    lemma_trim_preserves_no_crlf(c);
    lemma_replace_identity(n);
    assert(spec_canonical_newlines(n) == n);
    lemma_trim_idempotent(c);
}

/// Normalizes raw clipboard text into its canonical form.
pub fn normalize_text(text: &str) -> (r: String)
    ensures
        r@ == spec_normalize_text(text@),
{
    let v = str_chars(text);
    let mut cur = replace_crlf(&v);
    let ghost orig = v@;
    proof {
        lemma_replace_crlf_shrinks(orig);
        assert(spec_canonical_newlines(orig) == spec_canonical_newlines(cur@));
    }
    let mut done = false;
    while !done
        invariant
            spec_canonical_newlines(orig) == spec_canonical_newlines(cur@),
            done ==> spec_replace_crlf(cur@) == cur@,
        decreases cur@.len() + (if done {
            0int
        } else {
            1int
        }),
    {
        let next = replace_crlf(&cur);
        proof {
            lemma_replace_crlf_shrinks(cur@);
        }
        if eq_chars(&next, &cur) {
            done = true;
        } else {
            cur = next;
        }
    }
    proof {
        assert(spec_canonical_newlines(cur@) == cur@);
    }
    let trimmed = trim_chars(&cur);
    chars_to_string(&trimmed)
}

/// `needle` occurs in `hay` starting at index `i`.
pub open spec fn spec_matches_at(hay: Seq<char>, needle: Seq<char>, i: int) -> bool {
    0 <= i && i + needle.len() <= hay.len() && hay.subrange(i, i + needle.len()) == needle
}

/// `needle` occurs somewhere in `hay`.
pub open spec fn spec_contains(hay: Seq<char>, needle: Seq<char>) -> bool {
    exists|i: int| spec_matches_at(hay, needle, i)
}

/// The index of the first occurrence of `needle` in `hay`, if any.
pub fn find_sub(hay: &Vec<char>, needle: &Vec<char>) -> (r: Option<usize>)
    ensures
        match r {
            Some(i) => spec_matches_at(hay@, needle@, i as int) && forall|j: int|
                0 <= j < i ==> !spec_matches_at(hay@, needle@, j),
            None => !spec_contains(hay@, needle@),
        },
{
    let h = hay.len();
    let n = needle.len();
    if n > h {
        return None;
    }
    if n == 0 {
        proof {
            assert(hay@.subrange(0, 0) =~= needle@);
        }
        return Some(0);
    }
    let mut i: usize = 0;
    while i <= h - n
        invariant
            n <= h,
            h == hay@.len(),
            n == needle@.len(),
            i <= h - n + 1,
            forall|j: int| 0 <= j < i ==> !spec_matches_at(hay@, needle@, j),
        decreases h + 1 - n - i,
    {
        let mut k: usize = 0;
        let mut ok = true;
        proof {
            assert(hay@.subrange(i as int, i as int) =~= needle@.subrange(0, 0));
        }
        while k < n
            invariant
                i + n <= h,
                h == hay@.len(),
                n == needle@.len(),
                k <= n,
                ok <==> hay@.subrange(i as int, i + k) == needle@.subrange(0, k as int),
            decreases n - k,
        {
            let same = hay[i + k] == needle[k];
            proof {
                if ok && same {
                    assert(hay@.subrange(i as int, i + k + 1) =~= hay@.subrange(i as int, i + k)
                        + seq![hay@[i + k]]);
                    assert(needle@.subrange(0, k + 1) =~= needle@.subrange(0, k as int) + seq![
                        needle@[k as int],
                    ]);
                } else {
                    if hay@.subrange(i as int, i + k + 1) == needle@.subrange(0, k + 1) {
                        assert(hay@.subrange(i as int, i + k) =~= hay@.subrange(
                            i as int,
                            i + k + 1,
                        ).take(k as int));
                        assert(needle@.subrange(0, k as int) =~= needle@.subrange(0, k + 1).take(
                            k as int,
                        ));
                        assert(hay@.subrange(i as int, i + k + 1)[k as int] == hay@[i + k]);
                        assert(needle@.subrange(0, k + 1)[k as int] == needle@[k as int]);
                    }
                }
            }
            if !(ok && same) {
                ok = false;
            }
            k = k + 1;
        }
        if ok {
            proof {
                assert(needle@.subrange(0, n as int) =~= needle@);
            }
            return Some(i);
        }
        proof {
            assert(needle@.subrange(0, n as int) =~= needle@);
            assert(!spec_matches_at(hay@, needle@, i as int));
        }
        i = i + 1;
    }
    proof {
        assert(forall|j: int| spec_matches_at(hay@, needle@, j) ==> 0 <= j <= h - n);
    }
    None
}

/// `needle` occurs somewhere in `hay`.
pub fn contains_sub(hay: &Vec<char>, needle: &Vec<char>) -> (r: bool)
    ensures
        r == spec_contains(hay@, needle@),
{
    match find_sub(hay, needle) {
        Some(_) => true,
        None => false,
    }
}

/// `s` starts with `prefix`.
pub open spec fn spec_starts_with(s: Seq<char>, prefix: Seq<char>) -> bool {
    spec_matches_at(s, prefix, 0)
}

pub fn starts_with(v: &Vec<char>, prefix: &Vec<char>) -> (r: bool)
    ensures
        r == spec_starts_with(v@, prefix@),
{
    let n = prefix.len();
    if n > v.len() {
        return false;
    }
    let mut k: usize = 0;
    while k < n
        invariant
            n <= v@.len(),
            n == prefix@.len(),
            k <= n,
            v@.subrange(0, k as int) == prefix@.subrange(0, k as int),
        decreases n - k,
    {
        if v[k] != prefix[k] {
            proof {
                if v@.subrange(0, n as int) == prefix@ {
                    assert(v@.subrange(0, n as int)[k as int] == prefix@[k as int]);
                }
            }
            return false;
        }
        proof {
            assert(v@.subrange(0, k + 1) =~= v@.subrange(0, k as int) + seq![v@[k as int]]);
            assert(prefix@.subrange(0, k + 1) =~= prefix@.subrange(0, k as int) + seq![
                prefix@[k as int],
            ]);
        }
        k = k + 1;
    }
    proof {
        assert(prefix@.subrange(0, n as int) =~= prefix@);
    }
    true
}

/// ASCII upper-case letters mapped to lower case; everything else unchanged.
pub open spec fn spec_lower_char(c: char) -> char {
    if 'A' <= c && c <= 'Z' {
        ((c as u32) + 32) as char
    } else {
        c
    }
}

pub open spec fn spec_lower(s: Seq<char>) -> Seq<char> {
    s.map_values(|c: char| spec_lower_char(c))
}

pub fn lower_char(c: char) -> (r: char)
    ensures
        r == spec_lower_char(c),
{
    match c {
        'A' => 'a',
        'B' => 'b',
        'C' => 'c',
        'D' => 'd',
        'E' => 'e',
        'F' => 'f',
        'G' => 'g',
        'H' => 'h',
        'I' => 'i',
        'J' => 'j',
        'K' => 'k',
        'L' => 'l',
        'M' => 'm',
        'N' => 'n',
        'O' => 'o',
        'P' => 'p',
        'Q' => 'q',
        'R' => 'r',
        'S' => 's',
        'T' => 't',
        'U' => 'u',
        'V' => 'v',
        'W' => 'w',
        'X' => 'x',
        'Y' => 'y',
        'Z' => 'z',
        _ => c,
    }
}

/// The ASCII-lower-cased copy of a character vector.
pub fn lower_chars(v: &Vec<char>) -> (r: Vec<char>)
    ensures
        r@ == spec_lower(v@),
{
    let mut r: Vec<char> = Vec::new();
    let mut i: usize = 0;
    while i < v.len()
        invariant
            i <= v@.len(),
            r@ == spec_lower(v@.take(i as int)),
        decreases v@.len() - i,
    {
        r.push(lower_char(v[i]));
        i = i + 1;
        proof {
            assert(r@ =~= spec_lower(v@.take(i as int)));
        }
    }
    proof {
        assert(v@.take(v@.len() as int) =~= v@);
    }
    r
}

/// What the log preview shows: control separators flattened to spaces, cut
/// to at most `max_chars` characters.
pub open spec fn spec_preview_char(c: char) -> char {
    if c == '\r' || c == '\n' || c == '\t' {
        ' '
    } else {
        c
    }
}

pub open spec fn spec_text_preview(s: Seq<char>, max_chars: nat) -> Seq<char> {
    let flat = s.map_values(|c: char| spec_preview_char(c));
    if flat.len() <= max_chars {
        flat
    } else {
        flat.take(max_chars as int)
    }
}

/// A single-line preview of captured text for the diagnostic log.
pub fn text_preview_for_log(text: &str, max_chars: usize) -> (r: String)
    ensures
        r@ == spec_text_preview(text@, max_chars as nat),
{
    let v = str_chars(text);
    let mut out: Vec<char> = Vec::new();
    let mut i: usize = 0;
    let end = if v.len() < max_chars {
        v.len()
    } else {
        max_chars
    };
    while i < end
        invariant
            end <= v@.len(),
            i <= end,
            end == if v@.len() < max_chars {
                v@.len() as int
            } else {
                max_chars as int
            },
            out@ == v@.take(end as int).map_values(|c: char| spec_preview_char(c)).take(i as int),
        decreases end - i,
    {
        let c = v[i];
        if c == '\r' || c == '\n' || c == '\t' {
            out.push(' ');
        } else {
            out.push(c);
        }
        i = i + 1;
        proof {
            assert(out@ =~= v@.take(end as int).map_values(|c: char| spec_preview_char(c)).take(
                i as int,
            ));
        }
    }
    proof {
        assert(out@ =~= spec_text_preview(text@, max_chars as nat));
    }
    chars_to_string(&out)
}

/// Text that the engine itself writes into its diagnostic log. Such text on
/// the clipboard is never captured, so the engine's own output cannot loop
/// back into history.
pub open spec fn spec_is_internal_log_text(s: Seq<char>) -> bool {
    let t = spec_trim(s);
    t.len() > 0 && {
        ||| spec_contains(t, "[INFO] history updated with"@)
        ||| spec_contains(t, "[INFO] fallback to text capture"@)
        ||| spec_contains(t, "[INFO] ignored internal log text in clipboard"@)
        ||| spec_contains(t, "source=text-fallback"@)
        ||| spec_contains(t, "[DEBUG] poll no-capture"@)
        ||| spec_contains(t, "plugin_image="@)
        ||| spec_contains(t, "arboard_image="@)
    }
}

/// Recognizes the engine's own diagnostic output.
pub fn is_internal_log_text(text: &str) -> (r: bool)
    ensures
        r == spec_is_internal_log_text(text@),
{
    let v = str_chars(text);
    let t = trim_chars(&v);
    if t.len() == 0 {
        return false;
    }
    contains_sub(&t, &str_chars("[INFO] history updated with")) || contains_sub(
        &t,
        &str_chars("[INFO] fallback to text capture"),
    ) || contains_sub(&t, &str_chars("[INFO] ignored internal log text in clipboard"))
        || contains_sub(&t, &str_chars("source=text-fallback")) || contains_sub(
        &t,
        &str_chars("[DEBUG] poll no-capture"),
    ) || contains_sub(&t, &str_chars("plugin_image=")) || contains_sub(
        &t,
        &str_chars("arboard_image="),
    )
}

/// A fresh vector holding `v[k..]`.
pub fn skip_copy(v: &Vec<char>, k: usize) -> (r: Vec<char>)
    requires
        k <= v@.len(),
    ensures
        r@ == v@.skip(k as int),
{
    let mut r: Vec<char> = Vec::new();
    let mut i: usize = k;
    while i < v.len()
        invariant
            k <= i <= v@.len(),
            r@ == v@.subrange(k as int, i as int),
        decreases v@.len() - i,
    {
        r.push(v[i]);
        i = i + 1;
        proof {
            assert(r@ =~= v@.subrange(k as int, i as int));
        }
    }
    proof {
        assert(r@ =~= v@.skip(k as int));
    }
    r
}

/// A fresh vector holding `v[..k]`.
pub fn take_copy(v: &Vec<char>, k: usize) -> (r: Vec<char>)
    requires
        k <= v@.len(),
    ensures
        r@ == v@.take(k as int),
{
    let mut r: Vec<char> = Vec::new();
    let mut i: usize = 0;
    while i < k
        invariant
            i <= k <= v@.len(),
            r@ == v@.take(i as int),
        decreases k - i,
    {
        r.push(v[i]);
        i = i + 1;
        proof {
            assert(r@ =~= v@.take(i as int));
        }
    }
    r
}

/// Appends the characters of `src` to `dst`.
pub fn append_chars(dst: &mut Vec<char>, src: &Vec<char>)
    ensures
        final(dst)@ == old(dst)@ + src@,
{
    let mut i: usize = 0;
    while i < src.len()
        invariant
            i <= src@.len(),
            dst@ == old(dst)@ + src@.take(i as int),
        decreases src@.len() - i,
    {
        dst.push(src[i]);
        i = i + 1;
        proof {
            assert(dst@ =~= old(dst)@ + src@.take(i as int));
        }
    }
    proof {
        assert(old(dst)@ + src@.take(src@.len() as int) =~= old(dst)@ + src@);
    }
}

/// Character vectors holding equal sequences.
pub fn eq_chars(a: &Vec<char>, b: &Vec<char>) -> (r: bool)
    ensures
        r == (a@ == b@),
{
    if a.len() != b.len() {
        return false;
    }
    let mut i: usize = 0;
    while i < a.len()
        invariant
            a@.len() == b@.len(),
            i <= a@.len(),
            a@.take(i as int) == b@.take(i as int),
        decreases a@.len() - i,
    {
        if a[i] != b[i] {
            proof {
                if a@ == b@ {
                    assert(a@[i as int] == b@[i as int]);
                }
            }
            return false;
        }
        proof {
            assert(a@.take(i + 1) =~= a@.take(i as int) + seq![a@[i as int]]);
            assert(b@.take(i + 1) =~= b@.take(i as int) + seq![b@[i as int]]);
        }
        i = i + 1;
    }
    proof {
        assert(a@.take(a@.len() as int) =~= a@);
        assert(b@.take(b@.len() as int) =~= b@);
    }
    true
}

/// Leading white space removed.
pub fn trim_start_chars(v: &Vec<char>) -> (r: Vec<char>)
    ensures
        r@ == spec_trim_start(v@),
{
    let n = v.len();
    let mut lo: usize = 0;
    while lo < n && is_ws(v[lo])
        invariant
            n == v@.len(),
            lo <= n,
            forall|j: int| 0 <= j < lo ==> spec_is_ws(v@[j]),
        decreases n - lo,
    {
        lo = lo + 1;
    }
    proof {
        lemma_trim_start_skip(v@, lo as int);
        if lo < n {
            assert(v@.skip(lo as int)[0] == v@[lo as int]);
        }
        assert(spec_trim_start(v@) == v@.skip(lo as int));
    }
    skip_copy(v, lo)
}

/// Forward slashes replaced by backslashes, as Windows paths want them.
pub open spec fn spec_backslashes(s: Seq<char>) -> Seq<char> {
    s.map_values(|c: char| if c == '/' { '\\' } else { c })
}

pub fn backslashes(v: &Vec<char>) -> (r: Vec<char>)
    ensures
        r@ == spec_backslashes(v@),
{
    let mut r: Vec<char> = Vec::new();
    let mut i: usize = 0;
    while i < v.len()
        invariant
            i <= v@.len(),
            r@ == spec_backslashes(v@.take(i as int)),
        decreases v@.len() - i,
    {
        if v[i] == '/' {
            r.push('\\');
        } else {
            r.push(v[i]);
        }
        i = i + 1;
        proof {
            assert(r@ =~= spec_backslashes(v@.take(i as int)));
        }
    }
    proof {
        assert(v@.take(v@.len() as int) =~= v@);
    }
    r
}

/// The local filesystem path denoted by a `file://` URL: the scheme prefix
/// (and a `localhost/` authority, if present) removed, slashes turned into
/// backslashes. `None` when the text is not a `file://` URL at all.
pub open spec fn spec_file_url_to_path(s: Seq<char>) -> Option<Seq<char>> {
    let c = spec_trim(s);
    if spec_starts_with(c, "file:///"@) {
        Some(spec_backslashes(c.skip(8)))
    } else if spec_starts_with(c, "file://"@) {
        let r = c.skip(7);
        if spec_starts_with(r, "localhost/"@) {
            Some(spec_backslashes(r.skip(10)))
        } else {
            Some(spec_backslashes(r))
        }
    } else {
        None
    }
}

/// Resolves a `file://` URL to a local path.
pub fn file_url_to_path(url: &str) -> (r: Option<String>)
    ensures
        match r {
            Some(p) => spec_file_url_to_path(url@) == Some(p@),
            None => spec_file_url_to_path(url@) is None,
        },
{
    proof {
        reveal_strlit("file:///");
        reveal_strlit("file://");
        reveal_strlit("localhost/");
    }
    let v = str_chars(url);
    let c = trim_chars(&v);
    if starts_with(&c, &str_chars("file:///")) {
        let rest = skip_copy(&c, 8);
        Some(chars_to_string(&backslashes(&rest)))
    } else if starts_with(&c, &str_chars("file://")) {
        let r0 = skip_copy(&c, 7);
        if starts_with(&r0, &str_chars("localhost/")) {
            let r1 = skip_copy(&r0, 10);
            proof {
                assert(r0@.skip(10) =~= c@.skip(7).skip(10));
            }
            Some(chars_to_string(&backslashes(&r1)))
        } else {
            Some(chars_to_string(&backslashes(&r0)))
        }
    } else {
        None
    }
}

/// Index of the first character that ends an unquoted attribute value:
/// white space or `>`; the whole length when none does.
pub open spec fn spec_scan_attr_end(s: Seq<char>) -> int
    decreases s.len(),
{
    if s.len() == 0 {
        0
    } else if spec_is_ws(s[0]) || s[0] == '>' {
        0
    } else {
        1 + spec_scan_attr_end(s.drop_first())
    }
}

proof fn lemma_scan_attr_end(s: Seq<char>, i: int)
    requires
        0 <= i <= s.len(),
        forall|j: int| 0 <= j < i ==> !(spec_is_ws(s[j]) || s[j] == '>'),
        i < s.len() ==> (spec_is_ws(s[i]) || s[i] == '>'),
    ensures
        spec_scan_attr_end(s) == i,
    decreases i,
{
    if i > 0 {
        lemma_scan_attr_end(s.drop_first(), i - 1);
    }
}

/// What the first `<img>` tag's `src` attribute refers to: the tag is the
/// first `<img` (ASCII case-insensitive), its `src=` is searched up to the
/// tag-closing `>`, and the value runs to the matching quote when quoted,
/// else to the first white space or `>`.
#[verifier::opaque]
pub open spec fn spec_first_img_src(s: Seq<char>) -> Option<Seq<char>> {
    let lower = spec_lower(s);
    if !spec_contains(lower, "<img"@) {
        None
    } else {
        let t = choose|t: int|
            spec_matches_at(lower, "<img"@, t) && forall|j: int|
                0 <= j < t ==> !spec_matches_at(lower, "<img"@, j);
        let after = lower.skip(t);
        let end = if spec_contains(after, ">"@) {
            choose|e: int|
                spec_matches_at(after, ">"@, e) && forall|j: int|
                    0 <= j < e ==> !spec_matches_at(after, ">"@, j)
        } else {
            after.len() as int
        };
        let window = after.take(end);
        if !spec_contains(window, "src="@) {
            None
        } else {
            let q = choose|q: int|
                spec_matches_at(window, "src="@, q) && forall|j: int|
                    0 <= j < q ==> !spec_matches_at(window, "src="@, j);
            let rest = spec_trim_start(s.skip(t + q + 4));
            if rest.len() == 0 {
                None
            } else if rest[0] == '"' || rest[0] == '\'' {
                let tail = rest.skip(1);
                if spec_contains(tail, seq![rest[0]]) {
                    let e = choose|e: int|
                        spec_matches_at(tail, seq![rest[0]], e) && forall|j: int|
                            0 <= j < e ==> !spec_matches_at(tail, seq![rest[0]], j);
                    Some(tail.take(e))
                } else {
                    None
                }
            } else {
                Some(rest.take(spec_scan_attr_end(rest)))
            }
        }
    }
}

/// Extracts the first `<img>` tag's `src` attribute value from an HTML
/// fragment.
#[verifier::rlimit(100)]
pub fn first_img_src(html: &str) -> (r: Option<String>)
    ensures
        match r {
            Some(p) => spec_first_img_src(html@) == Some(p@),
            None => spec_first_img_src(html@) is None,
        },
{
    proof {
        reveal(spec_first_img_src);
        reveal_strlit("src=");
        reveal_strlit("<img");
        reveal_strlit(">");
    }
    let v = str_chars(html);
    let lower = lower_chars(&v);
    let ghost lw = lower@;
    let t = match find_sub(&lower, &str_chars("<img")) {
        None => {
            return None;
        },
        Some(t) => t,
    };
    proof {
        let t2 = choose|t2: int|
            spec_matches_at(lw, "<img"@, t2) && forall|j: int|
                0 <= j < t2 ==> !spec_matches_at(lw, "<img"@, j);
        if t2 < t {
            assert(!spec_matches_at(lw, "<img"@, t2));
        }
        if (t as int) < t2 {
            assert(!spec_matches_at(lw, "<img"@, t as int));
        }
        assert(t2 == t as int);
        assert(t + 4 <= lw.len());
    }
    let after = skip_copy(&lower, t);
    let end = match find_sub(&after, &str_chars(">")) {
        None => after.len(),
        Some(e) => {
            proof {
                let e2 = choose|e2: int|
                    spec_matches_at(after@, ">"@, e2) && forall|j: int|
                        0 <= j < e2 ==> !spec_matches_at(after@, ">"@, j);
                if e2 < e {
                    assert(!spec_matches_at(after@, ">"@, e2));
                }
                if (e as int) < e2 {
                    assert(!spec_matches_at(after@, ">"@, e as int));
                }
                assert(e2 == e as int);
            }
            e
        },
    };
    proof {
        assert(end <= after@.len());
    }
    let window = take_copy(&after, end);
    let q = match find_sub(&window, &str_chars("src=")) {
        None => {
            return None;
        },
        Some(q) => q,
    };
    proof {
        let q2 = choose|q2: int|
            spec_matches_at(window@, "src="@, q2) && forall|j: int|
                0 <= j < q2 ==> !spec_matches_at(window@, "src="@, j);
        if q2 < q {
            assert(!spec_matches_at(window@, "src="@, q2));
        }
        if (q as int) < q2 {
            assert(!spec_matches_at(window@, "src="@, q as int));
        }
        assert(q2 == q as int);
        assert(q + 4 <= window@.len());
        assert(window@.len() <= after@.len());
        assert(after@.len() + t == v@.len());
    }
    let vlen = v.len();
    assert(t + q + 4 <= vlen);
    let rest0 = skip_copy(&v, t + q + 4);
    let rest = trim_start_chars(&rest0);
    if rest.len() == 0 {
        return None;
    }
    let f = rest[0];
    if f == '"' || f == '\'' {
        let tail = skip_copy(&rest, 1);
        let mut fv: Vec<char> = Vec::new();
        fv.push(f);
        proof {
            assert(fv@ =~= seq![rest@[0]]);
        }
        match find_sub(&tail, &fv) {
            None => None,
            Some(e) => {
                proof {
                    let e2 = choose|e2: int|
                        spec_matches_at(tail@, seq![rest@[0]], e2) && forall|j: int|
                            0 <= j < e2 ==> !spec_matches_at(tail@, seq![rest@[0]], j);
                    if e2 < e {
                        assert(!spec_matches_at(tail@, seq![rest@[0]], e2));
                    }
                    if (e as int) < e2 {
                        assert(!spec_matches_at(tail@, seq![rest@[0]], e as int));
                    }
                    assert(e2 == e as int);
                }
                Some(chars_to_string(&take_copy(&tail, e)))
            },
        }
    } else {
        let n = rest.len();
        let mut i: usize = 0;
        while i < n && !(is_ws(rest[i]) || rest[i] == '>')
            invariant
                n == rest@.len(),
                i <= n,
                forall|j: int| 0 <= j < i ==> !(spec_is_ws(rest@[j]) || rest@[j] == '>'),
            decreases n - i,
        {
            i = i + 1;
        }
        proof {
            lemma_scan_attr_end(rest@, i as int);
        }
        Some(chars_to_string(&take_copy(&rest, i)))
    }
}

} // verus!

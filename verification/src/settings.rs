//! Engine settings and their normal form: every value clamped to a sane
//! range and the global-shortcut accelerator rewritten into its canonical
//! spelling before anything else consumes it.

use vstd::prelude::*;
use crate::text::{
    spec_trim, spec_lower, trim_chars, lower_chars, eq_chars, str_chars, chars_to_string,
    append_chars,
};
use vstd::string::StringExecFns;

verus! {

/// The engine's configuration.
pub struct AppSettings {
    /// Milliseconds between poll cycles.
    pub poll_interval_ms: u64,
    /// Upper bound on the number of history records kept.
    pub history_limit: usize,
    /// Storage root override; empty means the application's default root.
    pub storage_dir: String,
    /// Accelerator that toggles the main window.
    pub global_shortcut: String,
    pub launch_at_startup: bool,
    pub always_on_top: bool,
}

impl Default for AppSettings {
    fn default() -> (r: AppSettings)
        ensures
            r.poll_interval_ms == 800,
            r.history_limit == 300,
            r.storage_dir@ == Seq::<char>::empty(),
            r.global_shortcut@ == "Alt+Shift+V"@,
            !r.launch_at_startup,
            !r.always_on_top,
    {
        AppSettings {
            poll_interval_ms: 800,
            history_limit: 300,
            storage_dir: String::new(),
            global_shortcut: String::from_str("Alt+Shift+V"),
            launch_at_startup: false,
            always_on_top: false,
        }
    }
}

/// The canonical spelling of one `+`-separated accelerator part: trimmed,
/// with `meta` and `cmdorctrl` (in any ASCII case) rewritten to `Super` and
/// `CommandOrControl`. An empty part stays empty and is later dropped.
pub open spec fn spec_map_part(p: Seq<char>) -> Seq<char> {
    let t = spec_trim(p);
    if spec_lower(t) == "meta"@ {
        "Super"@
    } else if spec_lower(t) == "cmdorctrl"@ {
        "CommandOrControl"@
    } else {
        t
    }
}

/// Appends a finished part to the list, dropping it when empty.
pub open spec fn spec_push_part(parts: Seq<Seq<char>>, cur: Seq<char>) -> Seq<Seq<char>> {
    let m = spec_map_part(cur);
    if m.len() > 0 {
        parts.push(m)
    } else {
        parts
    }
}

/// Splits on `+` while mapping each part, carrying the scan state: position
/// `i`, the part read so far, and the finished parts.
pub open spec fn spec_collect_parts(
    s: Seq<char>,
    i: int,
    cur: Seq<char>,
    parts: Seq<Seq<char>>,
) -> Seq<Seq<char>>
    decreases s.len() - i,
{
    if i < 0 || i >= s.len() {
        spec_push_part(parts, cur)
    } else if s[i] == '+' {
        spec_collect_parts(s, i + 1, Seq::empty(), spec_push_part(parts, cur))
    } else {
        spec_collect_parts(s, i + 1, cur.push(s[i]), parts)
    }
}

/// The parts joined back with `+`, the tail of the list each prefixed by a
/// separator.
pub open spec fn spec_join_rest(parts: Seq<Seq<char>>) -> Seq<char>
    decreases parts.len(),
{
    if parts.len() == 0 {
        Seq::empty()
    } else {
        seq!['+'] + parts[0] + spec_join_rest(parts.drop_first())
    }
}

pub open spec fn spec_join_plus(parts: Seq<Seq<char>>) -> Seq<char> {
    if parts.len() == 0 {
        Seq::empty()
    } else {
        parts[0] + spec_join_rest(parts.drop_first())
    }
}

/// The canonical accelerator: parts mapped and rejoined; the default
/// accelerator when nothing usable remains.
pub open spec fn spec_sanitize_shortcut(s: Seq<char>) -> Seq<char> {
    let parts = spec_collect_parts(s, 0, Seq::empty(), Seq::empty());
    if parts.len() == 0 {
        "Alt+Shift+V"@
    } else {
        spec_join_plus(parts)
    }
}

fn map_part(part: &Vec<char>) -> (r: Vec<char>)
    ensures
        r@ == spec_map_part(part@),
{
    let t = trim_chars(part);
    let lt = lower_chars(&t);
    if eq_chars(&lt, &str_chars("meta")) {
        str_chars("Super")
    } else if eq_chars(&lt, &str_chars("cmdorctrl")) {
        str_chars("CommandOrControl")
    } else {
        t
    }
}

/// Rewrites an accelerator into its canonical spelling.
pub fn sanitize_shortcut(shortcut: &str) -> (r: String)
    ensures
        r@ == spec_sanitize_shortcut(shortcut@),
{
    let s = str_chars(shortcut);
    let n = s.len();
    let ghost sv = s@;
    let mut cur: Vec<char> = Vec::new();
    let mut parts: Vec<Vec<char>> = Vec::new();
    let ghost mut partsm: Seq<Seq<char>> = Seq::empty();
    let mut i: usize = 0;
    while i < n
        invariant
            n == sv.len(),
            sv == s@,
            i <= n,
            partsm.len() == parts@.len(),
            forall|j: int| 0 <= j < partsm.len() ==> partsm[j] == parts@[j]@,
            spec_collect_parts(sv, 0, Seq::empty(), Seq::empty()) == spec_collect_parts(
                sv,
                i as int,
                cur@,
                partsm,
            ),
        decreases n - i,
    {
        let ghost old_cur = cur@;
        if s[i] == '+' {
            let m = map_part(&cur);
            if m.len() > 0 {
                parts.push(m);
                proof {
                    partsm = partsm.push(m@);
                }
            }
            cur = Vec::new();
        } else {
            let c = s[i];
            cur.push(c);
            proof {
                assert(cur@ =~= old_cur.push(sv[i as int]));
            }
        }
        i = i + 1;
    }
    let m = map_part(&cur);
    if m.len() > 0 {
        parts.push(m);
        proof {
            partsm = partsm.push(m@);
        }
    }
    proof {
        assert(partsm == spec_collect_parts(sv, 0, Seq::empty(), Seq::empty()));
    }
    let ghost pm = partsm;
    if parts.len() == 0 {
        return String::from_str("Alt+Shift+V");
    }
    let mut out = take_all(&parts[0]);
    proof {
        assert(out@ == pm[0]);
        assert(pm.drop_first() =~= pm.skip(1));
    }
    let mut k: usize = 1;
    while k < parts.len()
        invariant
            1 <= k <= pm.len(),
            pm.len() == parts@.len(),
            forall|j: int| 0 <= j < pm.len() ==> pm[j] == parts@[j]@,
            pm.len() > 0,
            spec_join_plus(pm) == out@ + spec_join_rest(pm.skip(k as int)),
        decreases pm.len() - k,
    {
        let ghost out_before = out@;
        out.push('+');
        let next = take_all(&parts[k]);
        append_chars(&mut out, &next);
        proof {
            let rest = pm.skip(k as int);
            assert(rest.len() > 0);
            assert(rest[0] == pm[k as int]);
            assert(rest.drop_first() =~= pm.skip(k as int + 1));
            assert(spec_join_rest(rest) == seq!['+'] + rest[0] + spec_join_rest(
                rest.drop_first(),
            ));
            assert(next@ == pm[k as int]);
            assert(out@ =~= out_before.push('+') + next@);
            assert(out_before + spec_join_rest(rest) =~= out@ + spec_join_rest(
                pm.skip(k as int + 1),
            ));
        }
        k = k + 1;
    }
    proof {
        assert(pm.skip(pm.len() as int) =~= Seq::<Seq<char>>::empty());
        assert(spec_join_plus(pm) =~= out@);
    }
    chars_to_string(&out)
}

fn take_all(v: &Vec<char>) -> (r: Vec<char>)
    ensures
        r@ == v@,
{
    let mut r: Vec<char> = Vec::new();
    let mut i: usize = 0;
    while i < v.len()
        invariant
            i <= v@.len(),
            r@ == v@.take(i as int),
        decreases v@.len() - i,
    {
        r.push(v[i]);
        i = i + 1;
        proof {
            assert(r@ =~= v@.take(i as int));
        }
    }
    proof {
        assert(v@.take(v@.len() as int) =~= v@);
    }
    r
}

/// The settings with every field forced into its sane range: poll interval
/// clamped to 300..=5000 ms, history limit to 50..=5000 records, storage
/// directory trimmed, accelerator canonicalized.
pub fn normalize_settings(settings: AppSettings) -> (r: AppSettings)
    ensures
        r.poll_interval_ms == if settings.poll_interval_ms < 300 {
            300u64
        } else if settings.poll_interval_ms > 5000 {
            5000u64
        } else {
            settings.poll_interval_ms
        },
        r.history_limit == if settings.history_limit < 50 {
            50usize
        } else if settings.history_limit > 5000 {
            5000usize
        } else {
            settings.history_limit
        },
        r.storage_dir@ == spec_trim(settings.storage_dir@),
        r.global_shortcut@ == spec_sanitize_shortcut(settings.global_shortcut@),
        r.launch_at_startup == settings.launch_at_startup,
        r.always_on_top == settings.always_on_top,
{
    let poll = if settings.poll_interval_ms < 300 {
        300u64
    } else if settings.poll_interval_ms > 5000 {
        5000u64
    } else {
        settings.poll_interval_ms
    };
    let limit = if settings.history_limit < 50 {
        50usize
    } else if settings.history_limit > 5000 {
        5000usize
    } else {
        settings.history_limit
    };
    let dir_chars = trim_chars(&str_chars(settings.storage_dir.as_str()));
    let shortcut = sanitize_shortcut(settings.global_shortcut.as_str());
    AppSettings {
        poll_interval_ms: poll,
        history_limit: limit,
        storage_dir: chars_to_string(&dir_chars),
        global_shortcut: shortcut,
        launch_at_startup: settings.launch_at_startup,
        always_on_top: settings.always_on_top,
    }
}

} // verus!

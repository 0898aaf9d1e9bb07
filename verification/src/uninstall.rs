//! Uninstall entries: name normalization, version-suffix stripping, entry
//! quality and duplicate merging.

use vstd::prelude::*;

use crate::chars::char_is_ascii_digit;
use crate::chars::is_ascii_digit_c;
use crate::chars::chars_to_string;
use crate::chars::string_to_chars;
use crate::text::contains_seq;
use crate::text::drop_trailing;
use crate::text::drop_trailing_chars;
use crate::text::find_last_idx;
use crate::text::join_space;
use crate::text::join_space_chars;
use crate::text::last_idx_of;
use crate::text::lemma_last_idx_of_range;
use crate::text::lower_seq;
use crate::text::lower_chars;
use crate::text::normalize_seq;
use crate::text::normalize_chars;
use crate::text::split_ws;
use crate::text::split_ws_chars;
use crate::text::trim_seq;
use crate::text::trim_chars;
use crate::text::copy_range;
use crate::text::chars_eq;
use crate::text::contains_chars;
use crate::text::find_str_idx;
use crate::fs::FsSnapshot;
use crate::fs::spec_parent_dir;
use crate::fs::parent_dir_chars;

verus! {

broadcast use {crate::chars::lemma_dv, crate::chars::lemma_vec_dv};

/// The word with an optional leading `v` or `V` removed.
pub open spec fn strip_leading_v(t: Seq<char>) -> Seq<char> {
    if t.len() > 0 && (t[0] == 'v' || t[0] == 'V') {
        t.drop_first()
    } else {
        t
    }
}

/// Non-empty, drawn from digits, `.`, `_`, `-`, with at least one digit
/// and at least one dot.
pub open spec fn version_body_ok(u: Seq<char>) -> bool {
    &&& u.len() > 0
    &&& forall|i: int| 0 <= i < u.len() ==> is_version_char(#[trigger] u[i])
    &&& exists|i: int| 0 <= i < u.len() && is_ascii_digit_c(#[trigger] u[i])
    &&& exists|i: int| 0 <= i < u.len() && #[trigger] u[i] == '.'
}

/// A version-like word: after trimming and an optional leading `v` or `V`,
/// a non-empty run of digits, `.`, `_`, `-` with a digit and a dot in it.
pub open spec fn spec_is_version_like(s: Seq<char>) -> bool {
    version_body_ok(strip_leading_v(trim_seq(s)))
}

pub open spec fn is_version_char(c: char) -> bool {
    is_ascii_digit_c(c) || c == '.' || c == '_' || c == '-'
}

fn is_version_like_chars(s: &Vec<char>) -> (r: bool)
    ensures
        r == spec_is_version_like(s@),
{
    let t = trim_chars(s);
    let lo: usize = if t.len() > 0 && (t[0] == 'v' || t[0] == 'V') {
        1
    } else {
        0
    };
    let n: usize = t.len();
    proof {
        assert(t@.subrange(lo as int, n as int) =~= (if lo == 1 {
            t@.drop_first()
        } else {
            t@
        }));
    }
    if lo == n {
        proof {
            assert(t@.subrange(lo as int, n as int).len() == 0);
            assert(!version_body_ok(strip_leading_v(trim_seq(s@))));
        }
        return false;
    }
    let ghost u = t@.subrange(lo as int, n as int);
    let mut has_digit = false;
    let mut has_dot = false;
    let mut i: usize = lo;
    while i < n
        invariant
            lo <= i <= n,
            lo < n,
            n == t@.len(),
            t@ == trim_seq(s@),
            u == strip_leading_v(trim_seq(s@)),
            u == t@.subrange(lo as int, n as int),
            forall|j: int| 0 <= j < i - lo ==> is_version_char(#[trigger] u[j]),
            has_digit == exists|j: int| 0 <= j < i - lo && is_ascii_digit_c(#[trigger] u[j]),
            has_dot == exists|j: int| 0 <= j < i - lo && #[trigger] u[j] == '.',
        decreases n - i,
    {
        let c = t[i];
        proof {
            assert(u[i - lo] == t@[i as int]);
        }
        if char_is_ascii_digit(c) {
            has_digit = true;
        } else if c == '.' || c == '_' || c == '-' {
            if c == '.' {
                has_dot = true;
            }
        } else {
            proof {
                assert(!is_version_char(u[i - lo]));
                assert(u == strip_leading_v(trim_seq(s@)));
                assert(!version_body_ok(u));
            }
            return false;
        }
        i = i + 1;
    }
    proof {
        assert(u.len() == n - lo);
        assert(u == strip_leading_v(trim_seq(s@)));
        if has_digit && has_dot {
            assert(version_body_ok(u));
        } else {
            assert(!version_body_ok(u));
        }
    }
    has_digit && has_dot
}

/// `is_version_like`, as the registry scanner applies it to one word.
pub fn is_version_like(s: &str) -> (r: bool)
    ensures
        r == spec_is_version_like(s@),
{
    let v = string_to_chars(s);
    is_version_like_chars(&v)
}

/// One pass of bracket-group stripping: when the interior of the last
/// `open`...`close` group is version-like, keep only the trimmed text
/// before the `open`.
pub open spec fn strip_bracket_group(s: Seq<char>, open_c: char, close_c: char) -> Seq<char> {
    let i = last_idx_of(s, open_c);
    if i >= 0 {
        let interior = trim_seq(drop_trailing(s.skip(i + 1), close_c));
        if spec_is_version_like(interior) {
            trim_seq(s.take(i))
        } else {
            s
        }
    } else {
        s
    }
}

fn strip_bracket_group_chars(s: &Vec<char>, open_c: char, close_c: char) -> (r: Vec<char>)
    ensures
        r@ == strip_bracket_group(s@, open_c, close_c),
{
    proof {
        lemma_last_idx_of_range(s@, open_c);
    }
    let slen: usize = s.len();
    match find_last_idx(s, open_c) {
        Some(i) => {
            let right = copy_range(s, i + 1, slen);
            proof {
                assert(right@ =~= s@.skip(i + 1));
            }
            let interior = trim_chars(&drop_trailing_chars(&right, close_c));
            if is_version_like_chars(&interior) {
                let left = copy_range(s, 0, i);
                proof {
                    assert(left@ =~= s@.take(i as int));
                }
                trim_chars(&left)
            } else {
                copy_range(s, 0, slen)
            }
        },
        None => copy_range(s, 0, slen),
    }
}

/// The trailing version suffix of a display name removed: one pass each of
/// `(...)` and `[...]` group stripping, then a trailing version-like word
/// (or a `v`/`ver`/`version` word plus version-like word) dropped.
pub open spec fn spec_strip_version(name: Seq<char>) -> Seq<char> {
    let s = trim_seq(name);
    if s.len() == 0 {
        Seq::empty()
    } else {
        let o1 = strip_bracket_group(s, '(', ')');
        let o2 = strip_bracket_group(o1, '[', ']');
        let parts = split_ws(o2);
        let o3 = if parts.len() >= 2 && spec_is_version_like(parts.last()) {
            join_space(parts.drop_last())
        } else if parts.len() >= 3 && (lower_seq(parts[parts.len() - 2]) == seq!['v']
            || lower_seq(parts[parts.len() - 2]) == seq!['v', 'e', 'r'] || lower_seq(
            parts[parts.len() - 2],
        ) == seq!['v', 'e', 'r', 's', 'i', 'o', 'n']) && spec_is_version_like(parts.last()) {
            join_space(parts.take(parts.len() - 2))
        } else {
            o2
        };
        trim_seq(o3)
    }
}

pub(crate) fn strip_version_chars(name: &Vec<char>) -> (r: Vec<char>)
    ensures
        r@ == spec_strip_version(name@),
{
    let s = trim_chars(name);
    if s.len() == 0 {
        let empty: Vec<char> = Vec::new();
        proof {
            assert(empty@ =~= spec_strip_version(name@));
        }
        return empty;
    }
    let o1 = strip_bracket_group_chars(&s, '(', ')');
    let o2 = strip_bracket_group_chars(&o1, '[', ']');
    let parts = split_ws_chars(&o2);
    let np: usize = parts.len();
    proof {
        assert(parts.deep_view().len() == np as int);
    }
    let o3: Vec<char> = if np >= 2 && is_version_like_chars(&parts[np - 1]) {
        let mut ps = parts;
        let _ = ps.remove(np - 1);
        proof {
            assert(ps.deep_view() =~= split_ws(o2@).drop_last());
        }
        join_space_chars(&ps)
    } else {
        let second_check: bool = if np >= 3 {
            let prev = lower_chars(&parts[np - 2]);
            let w1: Vec<char> = vec!['v'];
            let w2: Vec<char> = vec!['v', 'e', 'r'];
            let w3: Vec<char> = vec!['v', 'e', 'r', 's', 'i', 'o', 'n'];
            proof {
                assert(w1@ =~= seq!['v']);
                assert(w2@ =~= seq!['v', 'e', 'r']);
                assert(w3@ =~= seq!['v', 'e', 'r', 's', 'i', 'o', 'n']);
            }
            (chars_eq(&prev, &w1) || chars_eq(&prev, &w2) || chars_eq(&prev, &w3))
                && is_version_like_chars(&parts[np - 1])
        } else {
            false
        };
        if second_check {
            let mut ps = parts;
            let _ = ps.remove(np - 1);
            let _ = ps.remove(np - 2);
            proof {
                assert(ps.deep_view() =~= split_ws(o2@).take(np - 2));
            }
            join_space_chars(&ps)
        } else {
            o2
        }
    };
    trim_chars(&o3)
}

/// `strip_version_suffix`, over strings.
pub fn strip_version_suffix(name: &str) -> (r: String)
    ensures
        r@ == spec_strip_version(name@),
{
    let v = string_to_chars(name);
    let out = strip_version_chars(&v);
    chars_to_string(&out)
}

/// The normalized key of a name: ASCII alphanumerics only, lowered.
pub fn normalize_key(s: &str) -> (r: String)
    ensures
        r@ == normalize_seq(s@),
{
    let v = string_to_chars(s);
    let out = normalize_chars(&v);
    chars_to_string(&out)
}

/// One program as read from an uninstall registry subkey, canonicalized:
/// trimmed non-empty name, optional trimmed publisher and path hints, and
/// the registry-reported install size in bytes.
pub struct UninstallEntry {
    pub id: String,
    pub name: String,
    pub publisher: Option<String>,
    pub estimated_bytes: u64,
    pub install_location: Option<String>,
    pub display_icon: Option<String>,
}

/// The mathematical shape of an entry: its strings as character sequences.
pub ghost struct EntryModel {
    pub id: Seq<char>,
    pub name: Seq<char>,
    pub publisher: Option<Seq<char>>,
    pub estimated_bytes: u64,
    pub install_location: Option<Seq<char>>,
    pub display_icon: Option<Seq<char>>,
}

impl View for UninstallEntry {
    type V = EntryModel;

    open spec fn view(&self) -> EntryModel {
        EntryModel {
            id: self.id@,
            name: self.name@,
            publisher: self.publisher.deep_view(),
            estimated_bytes: self.estimated_bytes,
            install_location: self.install_location.deep_view(),
            display_icon: self.display_icon.deep_view(),
        }
    }
}

impl DeepView for UninstallEntry {
    type V = EntryModel;

    open spec fn deep_view(&self) -> EntryModel {
        self.view()
    }
}

/// The quality score that decides which duplicate's name and publisher
/// survive a merge: presence of an install location, an icon, a size, and
/// the name's length capped at 64.
pub open spec fn spec_entry_quality(m: EntryModel) -> int {
    (if m.install_location is Some {
        1000int
    } else {
        0int
    }) + (if m.display_icon is Some {
        200int
    } else {
        0int
    }) + (if m.estimated_bytes > 0 {
        50int
    } else {
        0int
    }) + (if m.name.len() < 64 {
        m.name.len() as int
    } else {
        64int
    })
}

pub fn entry_quality(e: &UninstallEntry) -> (r: i32)
    ensures
        r == spec_entry_quality(e@),
        0 <= r <= 1314,
{
    let mut score: i32 = 0;
    if e.install_location.is_some() {
        score = score + 1000;
    }
    if e.display_icon.is_some() {
        score = score + 200;
    }
    if e.estimated_bytes > 0 {
        score = score + 50;
    }
    let nlen: usize = e.name.as_str().unicode_len();
    let capped: i32 = if nlen < 64 {
        nlen as i32
    } else {
        64
    };
    score + capped
}

/// The merge of a duplicate pair: sizes take the maximum, path hints fill
/// in when absent, and the incoming name and publisher replace the kept
/// ones only when the incoming entry's quality is strictly higher than the
/// quality of the entry after those fills.
pub open spec fn spec_merge(a: EntryModel, b: EntryModel) -> EntryModel {
    let filled = EntryModel {
        id: a.id,
        name: a.name,
        publisher: a.publisher,
        estimated_bytes: if b.estimated_bytes > a.estimated_bytes {
            b.estimated_bytes
        } else {
            a.estimated_bytes
        },
        install_location: if a.install_location is None {
            b.install_location
        } else {
            a.install_location
        },
        display_icon: if a.display_icon is None {
            b.display_icon
        } else {
            a.display_icon
        },
    };
    if spec_entry_quality(b) > spec_entry_quality(filled) {
        EntryModel { name: b.name, publisher: b.publisher, ..filled }
    } else {
        filled
    }
}

fn clone_opt_string(o: &Option<String>) -> (r: Option<String>)
    ensures
        r.deep_view() == o.deep_view(),
{
    match o {
        Some(s) => Some(s.clone()),
        None => None,
    }
}

/// Fold the incoming duplicate `incoming` into `existing`.
pub fn merge_uninstall_entry(existing: &mut UninstallEntry, incoming: &UninstallEntry)
    ensures
        final(existing)@ == spec_merge(old(existing)@, incoming@),
{
    if incoming.estimated_bytes > existing.estimated_bytes {
        existing.estimated_bytes = incoming.estimated_bytes;
    }
    if existing.install_location.is_none() {
        existing.install_location = clone_opt_string(&incoming.install_location);
    }
    if existing.display_icon.is_none() {
        existing.display_icon = clone_opt_string(&incoming.display_icon);
    }
    if entry_quality(incoming) > entry_quality(existing) {
        existing.name = incoming.name.clone();
        existing.publisher = clone_opt_string(&incoming.publisher);
    }
}

/// The path candidate inside a `DisplayIcon` value: trimmed, surrounding
/// double quotes removed, and a trailing `,index` cut off only when the
/// text before the comma holds a `:\` drive separator.
pub open spec fn spec_icon_candidate(icon: Seq<char>) -> Seq<char> {
    let s0 = trim_seq(icon);
    let s1 = if s0.len() >= 2 && s0.first() == '"' && s0.last() == '"' {
        s0.subrange(1, s0.len() - 1)
    } else {
        s0
    };
    let i = last_idx_of(s1, ',');
    let s2 = if i >= 0 && contains_seq(trim_seq(s1.take(i)), seq![':', '\\']) {
        trim_seq(s1.take(i))
    } else {
        s1
    };
    trim_seq(s2)
}

fn icon_candidate_chars(icon: &Vec<char>) -> (r: Vec<char>)
    ensures
        r@ == spec_icon_candidate(icon@),
{
    let s0 = trim_chars(icon);
    let n0: usize = s0.len();
    let s1: Vec<char> = if n0 >= 2 && s0[0] == '"' && s0[n0 - 1] == '"' {
        copy_range(&s0, 1, n0 - 1)
    } else {
        copy_range(&s0, 0, n0)
    };
    proof {
        assert(s1@ =~= (if s0@.len() >= 2 && s0@.first() == '"' && s0@.last() == '"' {
            s0@.subrange(1, s0@.len() - 1)
        } else {
            s0@
        }));
    }
    let drive: Vec<char> = vec![':', '\\'];
    proof {
        assert(drive@ =~= seq![':', '\\']);
    }
    let s2: Vec<char> = match crate::text::find_last_idx(&s1, ',') {
        Some(i) => {
            let left = copy_range(&s1, 0, i);
            proof {
                assert(left@ =~= s1@.take(i as int));
            }
            let cand = trim_chars(&left);
            if contains_chars(&cand, &drive) {
                cand
            } else {
                s1
            }
        },
        None => s1,
    };
    trim_chars(&s2)
}

/// The directory a `DisplayIcon` value points at: the candidate itself if
/// the snapshot shows it as a directory, its parent if it shows a file.
pub open spec fn spec_icon_dir(fs: FsSnapshot, icon: Seq<char>) -> Option<Seq<char>> {
    let p = spec_icon_candidate(icon);
    if fs.spec_is_dir(p) {
        Option::Some(p)
    } else if fs.spec_is_file(p) {
        spec_parent_dir(p)
    } else {
        Option::None
    }
}

fn icon_dir_chars(icon: &Vec<char>, fs: &FsSnapshot) -> (r: Option<Vec<char>>)
    ensures
        r.deep_view() == spec_icon_dir(*fs, icon@),
{
    let p = icon_candidate_chars(icon);
    if fs.is_dir(&p) {
        proof {
            assert(p.deep_view() =~= p@);
        }
        Some(p)
    } else if fs.is_file(&p) {
        let parent = parent_dir_chars(&p);
        parent
    } else {
        None
    }
}

/// The directory the icon path points at, resolved against the snapshot.
pub fn parse_display_icon_to_dir(display_icon: &str, fs: &FsSnapshot) -> (r: Option<String>)
    ensures
        r.deep_view() == spec_icon_dir(*fs, display_icon@),
{
    let v = string_to_chars(display_icon);
    match icon_dir_chars(&v, fs) {
        Some(p) => Some(chars_to_string(&p)),
        None => None,
    }
}

/// The install directory hinted at by an entry: its `InstallLocation` when
/// that names a directory in the snapshot, else whatever its `DisplayIcon`
/// path points at.
pub open spec fn spec_install_dir_hint(fs: FsSnapshot, m: EntryModel) -> Option<Seq<char>> {
    let from_icon = match m.display_icon {
        Option::Some(ic) => spec_icon_dir(fs, ic),
        Option::None => Option::None,
    };
    match m.install_location {
        Option::Some(p) => if fs.spec_is_dir(p) {
            Option::Some(p)
        } else {
            from_icon
        },
        Option::None => from_icon,
    }
}

pub(crate) fn install_dir_hint_chars(e: &UninstallEntry, fs: &FsSnapshot) -> (r: Option<
    Vec<char>,
>)
    ensures
        r.deep_view() == spec_install_dir_hint(*fs, e@),
{
    match &e.install_location {
        Some(loc) => {
            let lc = string_to_chars(loc.as_str());
            if fs.is_dir(&lc) {
                proof {
                    assert(lc.deep_view() =~= lc@);
                }
                return Some(lc);
            }
        },
        None => {},
    }
    match &e.display_icon {
        Some(icon) => {
            let ic = string_to_chars(icon.as_str());
            icon_dir_chars(&ic, fs)
        },
        None => None,
    }
}

/// The install-dir hint, over strings.
pub fn get_install_dir_hint(e: &UninstallEntry, fs: &FsSnapshot) -> (r: Option<String>)
    ensures
        r.deep_view() == spec_install_dir_hint(*fs, e@),
{
    match install_dir_hint_chars(e, fs) {
        Some(p) => Some(chars_to_string(&p)),
        None => None,
    }
}

/// The dedupe key parts of one entry.
pub open spec fn spec_name_key(m: EntryModel) -> Seq<char> {
    normalize_seq(spec_strip_version(m.name))
}

pub open spec fn spec_publisher_key(m: EntryModel) -> Seq<char> {
    match m.publisher {
        Option::Some(p) => normalize_seq(p),
        Option::None => Seq::empty(),
    }
}

pub open spec fn spec_install_key(fs: FsSnapshot, m: EntryModel) -> Seq<char> {
    match spec_install_dir_hint(fs, m) {
        Option::Some(p) => lower_seq(p),
        Option::None => Seq::empty(),
    }
}

/// `name_key|publisher_key`.
pub open spec fn spec_base_key(m: EntryModel) -> Seq<char> {
    spec_name_key(m) + seq!['|'] + spec_publisher_key(m)
}

/// `base_key|install_key` when an install key exists, else the base key.
pub open spec fn spec_chosen_key(fs: FsSnapshot, m: EntryModel) -> Seq<char> {
    if spec_install_key(fs, m).len() == 0 {
        spec_base_key(m)
    } else {
        spec_base_key(m) + seq!['|'] + spec_install_key(fs, m)
    }
}

pub open spec fn keys_of(al: Seq<(Seq<char>, EntryModel)>) -> Seq<Seq<char>> {
    al.map_values(|kv: (Seq<char>, EntryModel)| kv.0)
}

pub open spec fn vals_of(al: Seq<(Seq<char>, EntryModel)>) -> Seq<EntryModel> {
    al.map_values(|kv: (Seq<char>, EntryModel)| kv.1)
}

/// One dedupe step: an entry with an install key attaches to a prior
/// location-less duplicate by migrating it to the full key; otherwise it
/// merges into the entry filed under its own key, or is filed fresh.
pub open spec fn spec_dedupe_step(
    al: Seq<(Seq<char>, EntryModel)>,
    fs: FsSnapshot,
    m: EntryModel,
) -> Seq<(Seq<char>, EntryModel)> {
    let bk = spec_base_key(m);
    let ik = spec_install_key(fs, m);
    let k = spec_chosen_key(fs, m);
    let keys = keys_of(al);
    if ik.len() > 0 && find_str_idx(keys, k) < 0 && find_str_idx(keys, bk) >= 0 {
        let i = find_str_idx(keys, bk);
        al.update(i, (k, spec_merge(al[i].1, m)))
    } else if find_str_idx(keys, k) >= 0 {
        let i = find_str_idx(keys, k);
        al.update(i, (al[i].0, spec_merge(al[i].1, m)))
    } else {
        al.push((k, m))
    }
}

/// The dedupe map after filing every entry, in order.
pub open spec fn spec_dedupe_al(
    entries: Seq<EntryModel>,
    fs: FsSnapshot,
) -> Seq<(Seq<char>, EntryModel)>
    decreases entries.len(),
{
    if entries.len() == 0 {
        Seq::empty()
    } else {
        spec_dedupe_step(spec_dedupe_al(entries.drop_last(), fs), fs, entries.last())
    }
}

/// The canonical entries: the dedupe map's values in key-creation order.
pub open spec fn spec_dedupe(entries: Seq<EntryModel>, fs: FsSnapshot) -> Seq<EntryModel> {
    vals_of(spec_dedupe_al(entries, fs))
}

fn entry_keys_chars(e: &UninstallEntry, fs: &FsSnapshot) -> (r: (Vec<char>, Vec<char>, Vec<
    char,
>))
    ensures
        r.0@ == spec_base_key(e@),
        r.1@ == spec_install_key(*fs, e@),
        r.2@ == spec_chosen_key(*fs, e@),
{
    let name_chars = string_to_chars(e.name.as_str());
    let stripped = strip_version_chars(&name_chars);
    let name_key = normalize_chars(&stripped);
    let publisher_key: Vec<char> = match &e.publisher {
        Some(p) => {
            let pc = string_to_chars(p.as_str());
            normalize_chars(&pc)
        },
        None => Vec::new(),
    };
    let install_key: Vec<char> = match install_dir_hint_chars(e, fs) {
        Some(p) => lower_chars(&p),
        None => Vec::new(),
    };
    let mut bk = name_key;
    bk.push('|');
    let mut pk = publisher_key;
    bk.append(&mut pk);
    proof {
        assert(bk@ =~= spec_base_key(e@));
    }
    let chosen: Vec<char> = if install_key.len() == 0 {
        copy_range(&bk, 0, bk.len())
    } else {
        let mut ck = copy_range(&bk, 0, bk.len());
        ck.push('|');
        let mut ik2 = copy_range(&install_key, 0, install_key.len());
        ck.append(&mut ik2);
        ck
    };
    proof {
        assert(bk@.subrange(0, bk@.len() as int) =~= bk@);
        assert(install_key@.subrange(0, install_key@.len() as int) =~= install_key@);
        assert(chosen@ =~= spec_chosen_key(*fs, e@));
    }
    (bk, install_key, chosen)
}

/// Merge duplicate uninstall entries into canonical ones, keyed by
/// normalized name, publisher and install-dir hint; the first occurrence
/// of each key keeps its position.
pub fn dedupe_uninstall_entries(entries: Vec<UninstallEntry>, fs: &FsSnapshot) -> (r: Vec<
    UninstallEntry,
>)
    ensures
        r.deep_view() == spec_dedupe(entries.deep_view(), *fs),
{
    let ghost orig = entries.deep_view();
    let mut entries = entries;
    let mut keys: Vec<Vec<char>> = Vec::new();
    let mut vals: Vec<UninstallEntry> = Vec::new();
    let n: usize = entries.len();
    let mut idx: usize = 0;
    proof {
        assert(orig.take(0) =~= Seq::<EntryModel>::empty());
        assert(orig.skip(0) =~= orig);
        assert(keys.deep_view() =~= keys_of(spec_dedupe_al(orig.take(0), *fs)));
        assert(vals.deep_view() =~= vals_of(spec_dedupe_al(orig.take(0), *fs)));
    }
    while idx < n
        invariant
            idx <= n,
            n == orig.len(),
            n == entries@.len() + idx,
            entries.deep_view() == orig.skip(idx as int),
            keys.deep_view() == keys_of(spec_dedupe_al(orig.take(idx as int), *fs)),
            vals.deep_view() == vals_of(spec_dedupe_al(orig.take(idx as int), *fs)),
            keys@.len() == vals@.len(),
        decreases n - idx,
    {
        let ghost al = spec_dedupe_al(orig.take(idx as int), *fs);
        let ghost pre_at = entries@;
        let ghost pre_deep = entries.deep_view();
        proof {
            assert(forall|j: int|
                0 <= j < pre_at.len() ==> pre_deep[j] == (#[trigger] pre_at[j]).deep_view());
        }
        let e = entries.remove(0);
        proof {
            assert(e == pre_at[0]);
            assert(e@ == pre_deep[0]);
            assert(e@ == orig[idx as int]);
            assert(entries@ =~= pre_at.subrange(1, pre_at.len() as int));
            assert forall|j: int| 0 <= j < entries@.len() implies entries.deep_view()[j]
                == orig.skip(idx + 1)[j] by {
                assert(entries.deep_view()[j] == entries@[j].deep_view());
                assert(entries@[j] == pre_at[j + 1]);
                assert(pre_at[j + 1].deep_view() == pre_deep[j + 1]);
                assert(pre_deep[j + 1] == orig.skip(idx as int)[j + 1]);
                assert(orig.skip(idx as int)[j + 1] == orig.skip(idx + 1)[j]);
            }
            assert(entries.deep_view() =~= orig.skip(idx + 1));
            assert(orig.take(idx + 1).drop_last() =~= orig.take(idx as int));
            assert(orig.take(idx + 1).last() == orig[idx as int]);
        }
        let (bk, ik, k) = entry_keys_chars(&e, fs);
        let at_k = crate::text::find_str(&keys, &k);
        let at_bk = crate::text::find_str(&keys, &bk);
        if ik.len() > 0 && at_k.is_none() && at_bk.is_some() {
            let i = match at_bk {
                Some(i) => i,
                None => 0,
            };
            let ghost kpre_at = keys@;
            let ghost kpre_deep = keys.deep_view();
            let ghost vpre_at = vals@;
            let ghost vpre_deep = vals.deep_view();
            let mut cur = vals.remove(i);
            merge_uninstall_entry(&mut cur, &e);
            vals.insert(i, cur);
            let _ = keys.remove(i);
            keys.insert(i, k);
            proof {
                let al2 = spec_dedupe_step(al, *fs, e@);
                assert(al2 == al.update(i as int, (spec_chosen_key(*fs, e@), spec_merge(
                    al[i as int].1, e@))));
                assert(keys@ =~= kpre_at.remove(i as int).insert(i as int, keys@[i as int]));
                assert(keys@[i as int]@ == spec_chosen_key(*fs, e@));
                assert forall|j: int| 0 <= j < keys@.len() implies keys.deep_view()[j]
                    == keys_of(al2)[j] by {
                    assert(keys.deep_view()[j] == keys@[j]@);
                    assert(keys_of(al2)[j] == al2[j].0);
                    if j != i {
                        assert(keys@[j] == kpre_at[j]);
                        assert(kpre_deep[j] == kpre_at[j]@);
                        assert(kpre_deep[j] == keys_of(al)[j]);
                        assert(keys_of(al)[j] == al[j].0);
                        assert(al2[j] == al[j]);
                    }
                }
                assert(keys.deep_view() =~= keys_of(al2));
                assert(vals@ =~= vpre_at.remove(i as int).insert(i as int, vals@[i as int]));
                assert(vpre_deep[i as int] == vpre_at[i as int]@);
                assert(vpre_deep[i as int] == vals_of(al)[i as int]);
                assert(vals_of(al)[i as int] == al[i as int].1);
                assert(vals@[i as int]@ == spec_merge(al[i as int].1, e@));
                assert forall|j: int| 0 <= j < vals@.len() implies vals.deep_view()[j]
                    == vals_of(al2)[j] by {
                    assert(vals.deep_view()[j] == vals@[j]@);
                    assert(vals_of(al2)[j] == al2[j].1);
                    if j != i {
                        assert(vals@[j] == vpre_at[j]);
                        assert(vpre_deep[j] == vpre_at[j]@);
                        assert(vpre_deep[j] == vals_of(al)[j]);
                        assert(vals_of(al)[j] == al[j].1);
                        assert(al2[j] == al[j]);
                    }
                }
                assert(vals.deep_view() =~= vals_of(al2));
            }
        } else {
            match at_k {
                Some(i) => {
                    let ghost kpre_deep = keys.deep_view();
                    let ghost vpre_at = vals@;
                    let ghost vpre_deep = vals.deep_view();
                    let mut cur = vals.remove(i);
                    merge_uninstall_entry(&mut cur, &e);
                    vals.insert(i, cur);
                    proof {
                        let al2 = spec_dedupe_step(al, *fs, e@);
                        assert(al2 == al.update(i as int, (al[i as int].0, spec_merge(
                            al[i as int].1, e@))));
                        assert forall|j: int| 0 <= j < keys@.len() implies keys.deep_view()[j]
                            == keys_of(al2)[j] by {
                            assert(keys.deep_view()[j] == keys@[j]@);
                            assert(kpre_deep[j] == keys_of(al)[j]);
                            assert(keys_of(al)[j] == al[j].0);
                            assert(keys_of(al2)[j] == al2[j].0);
                            if j != i {
                                assert(al2[j] == al[j]);
                            }
                        }
                        assert(keys.deep_view() =~= keys_of(al2));
                        assert(vals@ =~= vpre_at.remove(i as int).insert(
                            i as int,
                            vals@[i as int],
                        ));
                        assert(vpre_deep[i as int] == vpre_at[i as int]@);
                        assert(vpre_deep[i as int] == vals_of(al)[i as int]);
                        assert(vals_of(al)[i as int] == al[i as int].1);
                        assert(vals@[i as int]@ == spec_merge(al[i as int].1, e@));
                        assert forall|j: int| 0 <= j < vals@.len() implies vals.deep_view()[j]
                            == vals_of(al2)[j] by {
                            assert(vals.deep_view()[j] == vals@[j]@);
                            assert(vals_of(al2)[j] == al2[j].1);
                            if j != i {
                                assert(vals@[j] == vpre_at[j]);
                                assert(vpre_deep[j] == vpre_at[j]@);
                                assert(vpre_deep[j] == vals_of(al)[j]);
                                assert(vals_of(al)[j] == al[j].1);
                                assert(al2[j] == al[j]);
                            }
                        }
                        assert(vals.deep_view() =~= vals_of(al2));
                    }
                },
                None => {
                    let ghost kpre_deep = keys.deep_view();
                    let ghost vpre_deep = vals.deep_view();
                    let ghost gk = k@;
                    keys.push(k);
                    vals.push(e);
                    proof {
                        let al2 = spec_dedupe_step(al, *fs, e@);
                        assert(al2 == al.push((spec_chosen_key(*fs, e@), e@)));
                        assert forall|j: int| 0 <= j < keys@.len() implies keys.deep_view()[j]
                            == keys_of(al2)[j] by {
                            assert(keys.deep_view()[j] == keys@[j]@);
                            assert(keys_of(al2)[j] == al2[j].0);
                            if j < keys@.len() - 1 {
                                assert(kpre_deep[j] == keys_of(al)[j]);
                                assert(keys_of(al)[j] == al[j].0);
                                assert(al2[j] == al[j]);
                            } else {
                                assert(keys@[j]@ == gk);
                                assert(gk == spec_chosen_key(*fs, e@));
                            }
                        }
                        assert(keys.deep_view() =~= keys_of(al2));
                        assert forall|j: int| 0 <= j < vals@.len() implies vals.deep_view()[j]
                            == vals_of(al2)[j] by {
                            assert(vals.deep_view()[j] == vals@[j]@);
                            assert(vals_of(al2)[j] == al2[j].1);
                            if j < vals@.len() - 1 {
                                assert(vpre_deep[j] == vals_of(al)[j]);
                                assert(vals_of(al)[j] == al[j].1);
                                assert(al2[j] == al[j]);
                            }
                        }
                        assert(vals.deep_view() =~= vals_of(al2));
                    }
                },
            }
        }
        idx = idx + 1;
    }
    proof {
        assert(orig.take(n as int) =~= orig);
    }
    vals
}


/// Dedupe never yields more canonical entries than raw ones.
pub proof fn lemma_dedupe_len(entries: Seq<EntryModel>, fs: FsSnapshot)
    ensures
        spec_dedupe(entries, fs).len() <= entries.len(),
    decreases entries.len(),
{
    if entries.len() > 0 {
        lemma_dedupe_len(entries.drop_last(), fs);
        let al = spec_dedupe_al(entries.drop_last(), fs);
        let al2 = spec_dedupe_al(entries, fs);
        let m = entries.last();
        let bk = spec_base_key(m);
        let ik = spec_install_key(fs, m);
        let k = spec_chosen_key(fs, m);
        let keys = keys_of(al);
        crate::text::lemma_find_str_idx(keys, k);
        crate::text::lemma_find_str_idx(keys, bk);
        assert(keys.len() == al.len());
        if ik.len() > 0 && find_str_idx(keys, k) < 0 && find_str_idx(keys, bk) >= 0 {
            assert(al2 == al.update(find_str_idx(keys, bk), (k, spec_merge(
                al[find_str_idx(keys, bk)].1, m))));
            assert(al2.len() == al.len());
        } else if find_str_idx(keys, k) >= 0 {
            assert(al2.len() == al.len());
        } else {
            assert(al2 == al.push((k, m)));
            assert(al2.len() == al.len() + 1);
        }
        assert(vals_of(al2).len() == al2.len());
        assert(vals_of(al).len() == al.len());
    }
}


/// The values of one uninstall registry subkey, as the caller read them;
/// a value the registry lacks is absent.
pub struct RawUninstallValues {
    pub display_name: Option<String>,
    pub system_component: Option<u32>,
    pub release_type: Option<String>,
    pub parent_key_name: Option<String>,
    pub parent_display_name: Option<String>,
    pub publisher: Option<String>,
    pub estimated_size_kb: Option<u32>,
    pub install_location: Option<String>,
    pub display_icon: Option<String>,
}

pub ghost struct RawModel {
    pub display_name: Option<Seq<char>>,
    pub system_component: Option<u32>,
    pub release_type: Option<Seq<char>>,
    pub parent_key_name: Option<Seq<char>>,
    pub parent_display_name: Option<Seq<char>>,
    pub publisher: Option<Seq<char>>,
    pub estimated_size_kb: Option<u32>,
    pub install_location: Option<Seq<char>>,
    pub display_icon: Option<Seq<char>>,
}

impl View for RawUninstallValues {
    type V = RawModel;

    open spec fn view(&self) -> RawModel {
        RawModel {
            display_name: self.display_name.deep_view(),
            system_component: self.system_component,
            release_type: self.release_type.deep_view(),
            parent_key_name: self.parent_key_name.deep_view(),
            parent_display_name: self.parent_display_name.deep_view(),
            publisher: self.publisher.deep_view(),
            estimated_size_kb: self.estimated_size_kb,
            install_location: self.install_location.deep_view(),
            display_icon: self.display_icon.deep_view(),
        }
    }
}

impl DeepView for RawUninstallValues {
    type V = RawModel;

    open spec fn deep_view(&self) -> RawModel {
        self.view()
    }
}

/// An optional string, trimmed, with the empty result treated as absent.
pub open spec fn opt_trimmed(o: Option<Seq<char>>) -> Option<Seq<char>> {
    match o {
        Option::Some(s) => if trim_seq(s).len() == 0 {
            Option::None
        } else {
            Option::Some(trim_seq(s))
        },
        Option::None => Option::None,
    }
}

/// Whether a release type marks an update rather than an application.
pub open spec fn is_update_release(rt: Seq<char>) -> bool {
    rt == "Update"@ || rt == "Hotfix"@ || rt == "Security Update"@
}

/// The canonical entry of one subkey, or nothing when the subkey is not
/// an application: no non-empty display name, a system component mark, an
/// update release type, or a parent package reference.
pub open spec fn spec_canonicalize(
    prefix: Seq<char>,
    subkey: Seq<char>,
    raw: RawModel,
) -> Option<EntryModel> {
    match raw.display_name {
        Option::Some(dn) => {
            let name = trim_seq(dn);
            if name.len() == 0 {
                Option::None
            } else if raw.system_component == Option::Some(1u32) {
                Option::None
            } else if (match raw.release_type {
                Option::Some(rt) => is_update_release(rt),
                Option::None => false,
            }) {
                Option::None
            } else if raw.parent_key_name is Some || raw.parent_display_name is Some {
                Option::None
            } else {
                Option::Some(
                    EntryModel {
                        id: prefix + seq![':'] + subkey,
                        name,
                        publisher: opt_trimmed(raw.publisher),
                        estimated_bytes: match raw.estimated_size_kb {
                            Option::Some(kb) => (kb as u64 * 1024) as u64,
                            Option::None => 0,
                        },
                        install_location: opt_trimmed(raw.install_location),
                        display_icon: opt_trimmed(raw.display_icon),
                    },
                )
            }
        },
        Option::None => Option::None,
    }
}

fn trim_opt_string(o: &Option<String>) -> (r: Option<String>)
    ensures
        r.deep_view() == opt_trimmed(o.deep_view()),
{
    match o {
        Some(s) => {
            let sc = string_to_chars(s.as_str());
            let t = trim_chars(&sc);
            if t.len() == 0 {
                None
            } else {
                Some(chars_to_string(&t))
            }
        },
        None => None,
    }
}

/// Decide whether one registry subkey names an application, and shape it
/// into a canonical entry.
pub fn canonicalize_uninstall_values(
    id_prefix: &str,
    subkey_name: &str,
    raw: &RawUninstallValues,
) -> (r: Option<UninstallEntry>)
    ensures
        r.deep_view() == spec_canonicalize(id_prefix@, subkey_name@, raw@),
{
    let dn = match &raw.display_name {
        Some(dn) => dn,
        None => {
            return None;
        },
    };
    let dnc = string_to_chars(dn.as_str());
    let name_chars = trim_chars(&dnc);
    if name_chars.len() == 0 {
        return None;
    }
    match raw.system_component {
        Some(v) => {
            if v == 1 {
                return None;
            }
        },
        None => {},
    }
    match &raw.release_type {
        Some(rt) => {
            let rtc = string_to_chars(rt.as_str());
            let upd = string_to_chars("Update");
            let hot = string_to_chars("Hotfix");
            let sec = string_to_chars("Security Update");
            if chars_eq(&rtc, &upd) || chars_eq(&rtc, &hot) || chars_eq(&rtc, &sec) {
                return None;
            }
        },
        None => {},
    }
    if raw.parent_key_name.is_some() || raw.parent_display_name.is_some() {
        return None;
    }
    let mut idc = string_to_chars(id_prefix);
    idc.push(':');
    let mut sk = string_to_chars(subkey_name);
    idc.append(&mut sk);
    proof {
        assert(idc@ =~= id_prefix@ + seq![':'] + subkey_name@);
    }
    let estimated_bytes: u64 = match raw.estimated_size_kb {
        Some(kb) => (kb as u64) * 1024,
        None => 0,
    };
    let entry = UninstallEntry {
        id: chars_to_string(&idc),
        name: chars_to_string(&name_chars),
        publisher: trim_opt_string(&raw.publisher),
        estimated_bytes,
        install_location: trim_opt_string(&raw.install_location),
        display_icon: trim_opt_string(&raw.display_icon),
    };
    proof {
        assert(entry@ == spec_canonicalize(id_prefix@, subkey_name@, raw@) -> 0);
    }
    Some(entry)
}


pub open spec fn distinct_strs(ks: Seq<Seq<char>>) -> bool {
    forall|i: int, j: int| 0 <= i < j < ks.len() ==> ks[i] != ks[j]
}

/// Canonical uniqueness: dedupe never files two entries under one key.
/// The key of an entry is `name_key|publisher_key`, extended with the
/// case-folded install key when one exists, the name key computed over
/// the version-stripped name.
pub proof fn lemma_dedupe_keys_distinct(entries: Seq<EntryModel>, fs: FsSnapshot)
    ensures
        distinct_strs(keys_of(spec_dedupe_al(entries, fs))),
    decreases entries.len(),
{
    if entries.len() > 0 {
        lemma_dedupe_keys_distinct(entries.drop_last(), fs);
        let al = spec_dedupe_al(entries.drop_last(), fs);
        let al2 = spec_dedupe_al(entries, fs);
        let m = entries.last();
        let bk = spec_base_key(m);
        let ik = spec_install_key(fs, m);
        let k = spec_chosen_key(fs, m);
        let keys = keys_of(al);
        let keys2 = keys_of(al2);
        crate::text::lemma_find_str_idx(keys, k);
        crate::text::lemma_find_str_idx(keys, bk);
        assert(keys.len() == al.len());
        if ik.len() > 0 && find_str_idx(keys, k) < 0 && find_str_idx(keys, bk) >= 0 {
            let i = find_str_idx(keys, bk);
            assert(al2 == al.update(i, (k, spec_merge(al[i].1, m))));
            assert(keys2 =~= keys.update(i, k));
            assert forall|a: int, b: int| 0 <= a < b < keys2.len() implies keys2[a] != keys2[
                b] by {
                if a != i && b != i {
                    assert(keys2[a] == keys[a] && keys2[b] == keys[b]);
                } else if a == i {
                    assert(keys2[a] == k && keys2[b] == keys[b]);
                } else {
                    assert(keys2[b] == k && keys2[a] == keys[a]);
                }
            }
        } else if find_str_idx(keys, k) >= 0 {
            let i = find_str_idx(keys, k);
            assert(al2 == al.update(i, (al[i].0, spec_merge(al[i].1, m))));
            assert(keys2 =~= keys);
        } else {
            assert(al2 == al.push((k, m)));
            assert(keys2 =~= keys.push(k));
            assert forall|a: int, b: int| 0 <= a < b < keys2.len() implies keys2[a] != keys2[
                b] by {
                if b == keys.len() {
                    assert(keys2[b] == k && keys2[a] == keys[a]);
                }
            }
        }
    }
}


/// A name with no strippable version suffix: no bracket group whose
/// interior is version-like, and no trailing version-like word.
pub open spec fn spec_no_version_suffix(y: Seq<char>) -> bool {
    &&& strip_bracket_group(y, '(', ')') == y
    &&& strip_bracket_group(y, '[', ']') == y
    &&& (split_ws(y).len() < 2 || !spec_is_version_like(split_ws(y).last()))
}

/// Stripping is the identity on a trimmed name with no strippable
/// suffix.
pub proof fn lemma_strip_fixed(y: Seq<char>)
    requires
        trim_seq(y) == y,
        spec_no_version_suffix(y),
    ensures
        spec_strip_version(y) == y,
{
    if y.len() == 0 {
        assert(spec_strip_version(y) =~= y);
    } else {
        let parts = split_ws(y);
        assert(spec_strip_version(y) == trim_seq(y));
    }
}

/// The stripped form of any name is trimmed.
pub proof fn lemma_strip_version_trimmed(x: Seq<char>)
    ensures
        trim_seq(spec_strip_version(x)) == spec_strip_version(x),
{
    let s = trim_seq(x);
    if s.len() == 0 {
        assert(trim_seq(Seq::<char>::empty()) =~= Seq::<char>::empty());
    } else {
        let o1 = strip_bracket_group(s, '(', ')');
        let o2 = strip_bracket_group(o1, '[', ']');
        let parts = split_ws(o2);
        let o3 = if parts.len() >= 2 && spec_is_version_like(parts.last()) {
            join_space(parts.drop_last())
        } else if parts.len() >= 3 && (lower_seq(parts[parts.len() - 2]) == seq!['v']
            || lower_seq(parts[parts.len() - 2]) == seq!['v', 'e', 'r'] || lower_seq(
            parts[parts.len() - 2],
        ) == seq!['v', 'e', 'r', 's', 'i', 'o', 'n']) && spec_is_version_like(parts.last()) {
            join_space(parts.take(parts.len() - 2))
        } else {
            o2
        };
        crate::text::lemma_trim_idem(o3);
        assert(spec_strip_version(x) == trim_seq(o3));
    }
}

/// Version-strip idempotence, on the names whose stripped form has no
/// further strippable suffix. (A name such as one ending in two
/// version-like words is stripped once per call, so a second call can
/// strip further; idempotence holds exactly when the first pass left no
/// strippable suffix.)
pub proof fn lemma_strip_version_idempotent(x: Seq<char>)
    requires
        spec_no_version_suffix(spec_strip_version(x)),
    ensures
        spec_strip_version(spec_strip_version(x)) == spec_strip_version(x),
{
    lemma_strip_version_trimmed(x);
    lemma_strip_fixed(spec_strip_version(x));
}


/// The path candidate inside a `DisplayIcon` value, before any
/// filesystem check: what a snapshot builder should probe.
pub fn icon_path_candidate(display_icon: &str) -> (r: String)
    ensures
        r@ == spec_icon_candidate(display_icon@),
{
    let v = string_to_chars(display_icon);
    let c = icon_candidate_chars(&v);
    chars_to_string(&c)
}


/// Equal snapshots hint alike.
pub proof fn lemma_hint_fs_eq(f1: FsSnapshot, f2: FsSnapshot, m: EntryModel)
    requires
        crate::fs::fs_eq(f1, f2),
    ensures
        spec_install_dir_hint(f1, m) == spec_install_dir_hint(f2, m),
{
    match m.display_icon {
        Option::Some(ic) => {
            let p = spec_icon_candidate(ic);
            crate::fs::lemma_fs_eq(f1, f2, p);
        },
        Option::None => {},
    }
    match m.install_location {
        Option::Some(l) => {
            crate::fs::lemma_fs_eq(f1, f2, l);
        },
        Option::None => {},
    }
}

/// Equal snapshots give every entry the same dedupe keys.
pub proof fn lemma_keys_fs_eq(f1: FsSnapshot, f2: FsSnapshot, m: EntryModel)
    requires
        crate::fs::fs_eq(f1, f2),
    ensures
        spec_install_key(f1, m) == spec_install_key(f2, m),
        spec_chosen_key(f1, m) == spec_chosen_key(f2, m),
{
    lemma_hint_fs_eq(f1, f2, m);
}

/// Equal snapshots deduplicate alike.
pub proof fn lemma_dedupe_fs_eq(entries: Seq<EntryModel>, f1: FsSnapshot, f2: FsSnapshot)
    requires
        crate::fs::fs_eq(f1, f2),
    ensures
        spec_dedupe_al(entries, f1) == spec_dedupe_al(entries, f2),
        spec_dedupe(entries, f1) == spec_dedupe(entries, f2),
    decreases entries.len(),
{
    if entries.len() > 0 {
        lemma_dedupe_fs_eq(entries.drop_last(), f1, f2);
        lemma_keys_fs_eq(f1, f2, entries.last());
    }
}

} // verus!

//! Filename → (artist, title) parsing, one rule for every caller that indexes
//! a library, plus the small text rules applied to file names and titles:
//! title cleaning, upload-name sanitizing and audio extensions.
//!
//! Convention: `Artist - Title.ext`. DJ-pool rips often prefix a track
//! number (`03 - Artist - Title.ext`); when the leading segment is purely
//! numeric AND at least one more separator follows, the number is dropped
//! so it doesn't end up as the "artist".

use vstd::prelude::*;
use crate::text::{
    chars_of, is_ws, lemma_trim_end_shape, lemma_trim_idempotent, lemma_trim_start_shape, push_char,
    push_str, string_of_range, trim, trim_end, trim_start, trimmed,
};

verus! {

/// The separator `" - "`.
pub open spec fn sep() -> Seq<char> {
    seq![' ', '-', ' ']
}

/// `s` holds the separator at position `i`.
pub open spec fn sep_at(s: Seq<char>, i: int) -> bool {
    &&& 0 <= i
    &&& i + 3 <= s.len()
    &&& s[i] == ' '
    &&& s[i + 1] == '-'
    &&& s[i + 2] == ' '
}

/// Position of the first separator at or after `from`, or `-1` if none.
pub open spec fn find_sep(s: Seq<char>, from: int) -> int
    decreases s.len() - from,
{
    if from < 0 || from + 3 > s.len() {
        -1
    } else if sep_at(s, from) {
        from
    } else {
        find_sep(s, from + 1)
    }
}

/// `str::split(" - ")`: the pieces between leftmost non-overlapping separators.
pub open spec fn split_sep(s: Seq<char>) -> Seq<Seq<char>>
    decreases s.len(),
{
    let i = find_sep(s, 0);
    if 0 <= i && i + 3 <= s.len() {
        seq![s.subrange(0, i)] + split_sep(s.subrange(i + 3, s.len() as int))
    } else {
        seq![s]
    }
}

/// `join(" - ")` of a list of pieces.
pub open spec fn join_sep(parts: Seq<Seq<char>>) -> Seq<char>
    decreases parts.len(),
{
    if parts.len() == 0 {
        Seq::<char>::empty()
    } else if parts.len() == 1 {
        parts[0]
    } else {
        parts[0] + sep() + join_sep(parts.drop_first())
    }
}

/// Every character of `s` is an ASCII digit.
pub open spec fn all_digits(s: Seq<char>) -> bool {
    forall|k: int| 0 <= k < s.len() ==> '0' <= #[trigger] s[k] <= '9'
}

/// The pieces that name the artist and the title: the split of `stem`, with a
/// purely numeric first piece dropped when at least two more pieces follow.
pub open spec fn name_parts(stem: Seq<char>) -> Seq<Seq<char>> {
    let all = split_sep(stem);
    if all.len() >= 3 && trim(all[0]).len() > 0 && all_digits(trim(all[0])) {
        all.drop_first()
    } else {
        all
    }
}

/// `(artist, title)` of a filename stem.
pub open spec fn artist_title(stem: Seq<char>) -> (Seq<char>, Seq<char>) {
    let parts = name_parts(stem);
    if parts.len() >= 2 && trim(parts[0]).len() > 0 {
        (trim(parts[0]), trim(join_sep(parts.drop_first())))
    } else {
        (Seq::<char>::empty(), trim(stem))
    }
}

proof fn lemma_find_sep_range(s: Seq<char>, from: int)
    requires
        0 <= from,
    ensures
        find_sep(s, from) == -1 || (from <= find_sep(s, from) && sep_at(s, find_sep(s, from))),
        forall|k: int| from <= k && (find_sep(s, from) == -1 || k < find_sep(s, from)) ==> !sep_at(s, k),
    decreases s.len() - from,
{
    if from < 0 || from + 3 > s.len() {
    } else if sep_at(s, from) {
    } else {
        lemma_find_sep_range(s, from + 1);
    }
}

/// Searching a suffix of `s` is searching `s` from further on.
proof fn lemma_find_sep_suffix(s: Seq<char>, a: int, from: int)
    requires
        0 <= a <= s.len(),
        0 <= from,
    ensures
        find_sep(s.subrange(a, s.len() as int), from) == (if find_sep(s, from + a) == -1 {
            -1
        } else {
            find_sep(s, from + a) - a
        }),
    decreases s.len() - from,
{
    let t = s.subrange(a, s.len() as int);
    if from + 3 > t.len() {
    } else {
        assert(t[from] == s[from + a] && t[from + 1] == s[from + a + 1] && t[from + 2] == s[from
            + a + 2]);
        if sep_at(t, from) {
        } else {
            lemma_find_sep_suffix(s, a, from + 1);
        }
    }
}

proof fn lemma_split_nonempty(s: Seq<char>)
    ensures
        split_sep(s).len() >= 1,
        split_sep(s)[0] == (if find_sep(s, 0) == -1 {
            s
        } else {
            s.subrange(0, find_sep(s, 0))
        }),
{
    lemma_find_sep_range(s, 0);
}

/// Joining the pieces of a split gives back the string.
pub proof fn lemma_join_split(s: Seq<char>)
    ensures
        join_sep(split_sep(s)) == s,
    decreases s.len(),
{
    lemma_find_sep_range(s, 0);
    let i = find_sep(s, 0);
    if 0 <= i && i + 3 <= s.len() {
        let rest = s.subrange(i + 3, s.len() as int);
        lemma_join_split(rest);
        lemma_split_nonempty(rest);
        let parts = split_sep(s);
        assert(parts.drop_first() =~= split_sep(rest));
        assert(s =~= s.subrange(0, i) + sep() + rest);
    }
}

/// First separator in `v` at or after `from`.
fn next_sep(v: &Vec<char>, from: usize) -> (r: Option<usize>)
    ensures
        match r {
            Some(i) => find_sep(v@, from as int) == i as int,
            None => find_sep(v@, from as int) == -1,
        },
{
    let n = v.len();
    let mut i = from;
    while i < n && n - i >= 3
        invariant
            from <= i,
            n == v.len(),
            find_sep(v@, from as int) == find_sep(v@, i as int),
        decreases n - i,
    {
        if v[i] == ' ' && v[i + 1] == '-' && v[i + 2] == ' ' {
            return Some(i);
        }
        i = i + 1;
    }
    None
}

fn is_all_digits(v: &Vec<char>, lo: usize, hi: usize) -> (b: bool)
    requires
        lo <= hi <= v.len(),
    ensures
        b == all_digits(v@.subrange(lo as int, hi as int)),
{
    let mut i = lo;
    while i < hi
        invariant
            lo <= i <= hi <= v.len(),
            forall|k: int| lo <= k < i ==> '0' <= #[trigger] v@[k] <= '9',
        decreases hi - i,
    {
        if !('0' <= v[i] && v[i] <= '9') {
            assert(v@.subrange(lo as int, hi as int)[i - lo] == v@[i as int]);
            return false;
        }
        i = i + 1;
    }
    assert forall|k: int| 0 <= k < hi - lo implies '0' <= #[trigger] v@.subrange(
        lo as int,
        hi as int,
    )[k] <= '9' by {
        assert(v@.subrange(lo as int, hi as int)[k] == v@[lo + k]);
    }
    true
}

/// Split a filename stem into `(artist, title)`.
pub fn split_artist_title(stem: &str) -> (res: (String, String))
    ensures
        res.0@ == artist_title(stem@).0,
        res.1@ == artist_title(stem@).1,
{
    let v = chars_of(stem);
    let n = v.len();
    let ghost s = v@;
    let first = next_sep(&v, 0);
    proof {
        lemma_find_sep_range(s, 0);
    }
    match first {
        None => {
            assert(split_sep(s) =~= seq![s]);
            assert(s.subrange(0, n as int) =~= s);
            (String::new(), trimmed(&v, 0, n))
        },
        Some(i1) => {
            let ghost rest1 = s.subrange(i1 + 3, n as int);
            assert(split_sep(s) =~= seq![s.subrange(0, i1 as int)] + split_sep(rest1));
            let second = next_sep(&v, i1 + 3);
            proof {
                lemma_find_sep_suffix(s, i1 + 3, 0);
                lemma_find_sep_range(s, i1 + 3);
                lemma_split_nonempty(rest1);
                lemma_join_split(rest1);
            }
            let lead = trimmed(&v, 0, i1);
            let mut dropped = false;
            if let Some(i2) = second {
                let ghost j = (i2 - (i1 + 3)) as int;
                let ghost rest2 = rest1.subrange(j + 3, rest1.len() as int);
                assert(split_sep(rest1) =~= seq![rest1.subrange(0, j)] + split_sep(rest2));
                proof {
                    lemma_split_nonempty(rest2);
                    lemma_join_split(rest2);
                }
                assert(split_sep(s).len() >= 3);
                if !lead.as_str().is_empty() {
                    // `lead` is non-empty exactly when its trimmed range is.
                    proof {
                        lemma_trim_start_shape(s.subrange(0, i1 as int));
                        lemma_trim_end_shape(trim_start(s.subrange(0, i1 as int)));
                    }
                    let lead_v = chars_of(lead.as_str());
                    if is_all_digits(&lead_v, 0, lead_v.len()) {
                        assert(lead_v@.subrange(0, lead_v@.len() as int) =~= lead_v@);
                        dropped = true;
                        assert(name_parts(s) =~= split_sep(rest1));
                        assert(rest1.subrange(0, j) =~= s.subrange(i1 + 3, i2 as int));
                        assert(rest2 =~= s.subrange(i2 + 3, n as int));
                        assert(split_sep(rest1).drop_first() =~= split_sep(rest2));
                        let artist = trimmed(&v, i1 + 3, i2);
                        if !artist.as_str().is_empty() {
                            proof {
                                lemma_trim_start_shape(s.subrange(i1 + 3, i2 as int));
                                lemma_trim_end_shape(trim_start(s.subrange(i1 + 3, i2 as int)));
                            }
                            return (artist, trimmed(&v, i2 + 3, n));
                        } else {
                            assert(s.subrange(0, n as int) =~= s);
                            return (String::new(), trimmed(&v, 0, n));
                        }
                    } else {
                        assert(lead_v@.subrange(0, lead_v@.len() as int) =~= lead_v@);
                    }
                }
            }
            assert(!dropped);
            assert(name_parts(s) == split_sep(s));
            assert(split_sep(s).drop_first() =~= split_sep(rest1));
            if !lead.as_str().is_empty() {
                (lead, trimmed(&v, i1 + 3, n))
            } else {
                assert(s.subrange(0, n as int) =~= s);
                (String::new(), trimmed(&v, 0, n))
            }
        },
    }
}

/// The command line's reading of a file stem: the shared rule of
/// `split_artist_title`, track-number prefix included.
pub fn split_title(stem: &str) -> (res: (String, String))
    ensures
        res.0@ == artist_title(stem@).0,
        res.1@ == artist_title(stem@).1,
{
    split_artist_title(stem)
}

/// The library indexer's reading of a file stem: the rule of
/// `split_artist_title`.
pub fn split_stem(stem: &str) -> (res: (String, String))
    ensures
        res.0@ == artist_title(stem@).0,
        res.1@ == artist_title(stem@).1,
{
    split_artist_title(stem)
}

/// Trim a title; an empty (or all-whitespace) title becomes `None`.
pub fn clean_title(raw: Option<String>) -> (res: Option<String>)
    ensures
        res is Some <==> (raw is Some && trim(raw->0@).len() > 0),
        res is Some ==> res->0@ == trim(raw->0@),
{
    match raw {
        None => None,
        Some(r) => {
            let v = chars_of(r.as_str());
            let n = v.len();
            assert(v@.subrange(0, n as int) =~= v@);
            let t = trimmed(&v, 0, n);
            if t.as_str().is_empty() {
                None
            } else {
                Some(t)
            }
        },
    }
}

/// The title a mix is stored under: the given title, else the file's stem,
/// else `Untitled Mix`.
pub open spec fn mix_title_text(title: Option<Seq<char>>, stem: Option<Seq<char>>) -> Seq<char> {
    match title {
        Some(t) => t,
        None => match stem {
            Some(s) => s,
            None => "Untitled Mix"@,
        },
    }
}

/// The title a mix is stored under.
pub fn mix_title(title: Option<&str>, stem: Option<&str>) -> (r: String)
    ensures
        r@ == mix_title_text(
            match title {
                Some(t) => Some(t@),
                None => None,
            },
            match stem {
                Some(s) => Some(s@),
                None => None,
            },
        ),
{
    let mut out = String::new();
    match title {
        Some(t) => push_str(&mut out, t),
        None => match stem {
            Some(s) => push_str(&mut out, s),
            None => push_str(&mut out, "Untitled Mix"),
        },
    }
    out
}

/// A path separator of either convention.
pub open spec fn is_slash(c: char) -> bool {
    c == '/' || c == '\\'
}

/// What follows the last path separator (all of `s` when there is none).
pub open spec fn last_component(s: Seq<char>) -> Seq<char>
    decreases s.len(),
{
    if s.len() == 0 {
        s
    } else if is_slash(s.last()) {
        Seq::<char>::empty()
    } else {
        last_component(s.drop_last()).push(s.last())
    }
}

/// Characters a stored file name may keep: `[A-Za-z0-9._-]`.
pub open spec fn is_safe(c: char) -> bool {
    ||| 'a' <= c <= 'z'
    ||| 'A' <= c <= 'Z'
    ||| '0' <= c <= '9'
    ||| c == '.'
    ||| c == '-'
    ||| c == '_'
}

/// A safe character stays; any other becomes `_`.
pub open spec fn safe_char(c: char) -> char {
    if is_safe(c) {
        c
    } else {
        '_'
    }
}

/// `s` without its leading dots.
pub open spec fn strip_dots(s: Seq<char>) -> Seq<char>
    decreases s.len(),
{
    if s.len() > 0 && s[0] == '.' {
        strip_dots(s.drop_first())
    } else {
        s
    }
}

/// The name stored for an uploaded file called `name`.
pub open spec fn sanitized(name: Seq<char>) -> Seq<char> {
    let t = strip_dots(last_component(name).map_values(|c: char| safe_char(c)));
    if t.len() == 0 {
        seq!['u', 'p', 'l', 'o', 'a', 'd']
    } else if t.len() > 120 {
        t.take(120)
    } else {
        t
    }
}

proof fn lemma_last_component(s: Seq<char>, j: int)
    requires
        0 <= j <= s.len(),
        j == 0 || is_slash(s[j - 1]),
        forall|k: int| j <= k < s.len() ==> !is_slash(#[trigger] s[k]),
    ensures
        last_component(s) == s.subrange(j, s.len() as int),
    decreases s.len(),
{
    if s.len() == 0 {
        assert(s.subrange(j, 0) =~= s);
    } else if j == s.len() {
        assert(s.subrange(j, s.len() as int) =~= Seq::<char>::empty());
    } else {
        lemma_last_component(s.drop_last(), j);
        assert(s.drop_last().subrange(j, s.len() - 1).push(s.last()) =~= s.subrange(
            j,
            s.len() as int,
        ));
    }
}

proof fn lemma_strip_dots_skip(m: Seq<char>, i: int)
    requires
        0 <= i <= m.len(),
        forall|k: int| 0 <= k < i ==> #[trigger] m[k] == '.',
        i == m.len() || m[i] != '.',
    ensures
        strip_dots(m) == m.subrange(i, m.len() as int),
    decreases i,
{
    if i > 0 {
        assert(m[0] == '.');
        lemma_strip_dots_skip(m.drop_first(), i - 1);
        assert(m.drop_first().subrange(i - 1, m.len() - 1) =~= m.subrange(i, m.len() as int));
    } else {
        assert(m.subrange(0, m.len() as int) =~= m);
    }
}

fn safe(c: char) -> (r: char)
    ensures
        r == safe_char(c),
{
    if ('a' <= c && c <= 'z') || ('A' <= c && c <= 'Z') || ('0' <= c && c <= '9') || c == '.'
        || c == '-' || c == '_' {
        c
    } else {
        '_'
    }
}

/// Make a client-supplied filename safe to store: strip any directory
/// components, keep only `[A-Za-z0-9._-]`, no leading dots, cap at 120 chars.
pub fn sanitize(name: &str) -> (res: String)
    ensures
        res@ == sanitized(name@),
{
    let v = chars_of(name);
    let n = v.len();
    let mut j = n;
    while j > 0 && !(v[j - 1] == '/' || v[j - 1] == '\\')
        invariant
            j <= n == v.len(),
            forall|k: int| j <= k < n ==> !is_slash(#[trigger] v@[k]),
        decreases j,
    {
        j = j - 1;
    }
    proof {
        lemma_last_component(v@, j as int);
    }
    let ghost comp = v@.subrange(j as int, n as int);
    let ghost mapped = comp.map_values(|c: char| safe_char(c));
    let mut k = j;
    while k < n && v[k] == '.'
        invariant
            j <= k <= n == v.len(),
            forall|i: int| j <= i < k ==> #[trigger] v@[i] == '.',
        decreases n - k,
    {
        k = k + 1;
    }
    proof {
        assert forall|i: int| 0 <= i < k - j implies #[trigger] mapped[i] == '.' by {
            assert(comp[i] == v@[j + i]);
        }
        if k < n {
            assert(comp[k - j] == v@[k as int]);
        }
        lemma_strip_dots_skip(mapped, k - j);
    }
    let ghost t = mapped.subrange(k - j, mapped.len() as int);
    let mut out = String::new();
    if k == n {
        push_char(&mut out, 'u');
        push_char(&mut out, 'p');
        push_char(&mut out, 'l');
        push_char(&mut out, 'o');
        push_char(&mut out, 'a');
        push_char(&mut out, 'd');
        assert(out@ =~= seq!['u', 'p', 'l', 'o', 'a', 'd']);
        return out;
    }
    let end = if n - k > 120 {
        k + 120
    } else {
        n
    };
    let mut i = k;
    while i < end
        invariant
            j <= k <= i <= end <= n == v.len(),
            end - k <= 120,
            t == mapped.subrange(k - j, mapped.len() as int),
            mapped == comp.map_values(|c: char| safe_char(c)),
            comp == v@.subrange(j as int, n as int),
            out@ == t.take(i - k),
        decreases end - i,
    {
        let c = safe(v[i]);
        push_char(&mut out, c);
        proof {
            assert(comp[i - j] == v@[i as int]);
            assert(t[i - k] == c);
            assert(t.take(i + 1 - k) =~= t.take(i - k).push(c));
        }
        i = i + 1;
    }
    assert(t.len() == n - k);
    if n - k > 120 {
    } else {
        assert(t.take(n - k) =~= t);
    }
    out
}

/// Audio file extensions of the wide list: everything a library folder scan
/// picks up, container formats (`mp4`, `webm`) included.
pub open spec fn app_audio_exts() -> Seq<Seq<char>> {
    seq![
        "mp3"@, "wav"@, "flac"@, "m4a"@, "ogg"@, "oga"@, "opus"@, "aiff"@, "aif"@, "aac"@,
        "wma"@, "mp4"@, "webm"@,
    ]
}

/// Audio file extensions the command line indexes.
pub open spec fn cli_audio_exts() -> Seq<Seq<char>> {
    seq!["mp3"@, "flac"@, "wav"@, "ogg"@, "m4a"@, "aac"@, "opus"@, "aiff"@]
}

/// ASCII lower case of a character (`char::to_ascii_lowercase`).
pub open spec fn ascii_lower(c: char) -> char {
    if 'A' <= c <= 'Z' {
        ((c as u32) + 32) as char
    } else {
        c
    }
}

/// `str::to_ascii_lowercase`.
pub open spec fn lower(s: Seq<char>) -> Seq<char> {
    s.map_values(|c: char| ascii_lower(c))
}

fn lowercase_chars(s: &str) -> (v: Vec<char>)
    ensures
        v@ == lower(s@),
{
    let w = chars_of(s);
    let mut v: Vec<char> = Vec::new();
    let mut i: usize = 0;
    while i < w.len()
        invariant
            i <= w.len(),
            w@ == s@,
            v@ == lower(s@).take(i as int),
        decreases w.len() - i,
    {
        let c = w[i];
        let l = if 'A' <= c && c <= 'Z' {
            ((c as u8) + 32u8) as char
        } else {
            c
        };
        v.push(l);
        assert(lower(s@).take(i + 1) =~= lower(s@).take(i as int).push(l));
        i = i + 1;
    }
    assert(lower(s@).take(i as int) =~= lower(s@));
    v
}

fn chars_eq(v: &Vec<char>, s: &str) -> (b: bool)
    ensures
        b == (v@ == s@),
{
    let w = chars_of(s);
    if v.len() != w.len() {
        return false;
    }
    let mut i: usize = 0;
    while i < v.len()
        invariant
            i <= v.len() == w.len(),
            w@ == s@,
            forall|k: int| 0 <= k < i ==> v@[k] == w@[k],
        decreases v.len() - i,
    {
        if v[i] != w[i] {
            return false;
        }
        i = i + 1;
    }
    assert(v@ =~= w@);
    true
}

fn ext_member(l: &Vec<char>, exts: &[&str]) -> (b: bool)
    ensures
        b == exists|k: int| 0 <= k < exts@.len() && l@ == (#[trigger] exts@[k])@,
{
    let mut i: usize = 0;
    while i < exts.len()
        invariant
            i <= exts@.len(),
            forall|k: int| 0 <= k < i ==> l@ != (#[trigger] exts@[k])@,
        decreases exts@.len() - i,
    {
        if chars_eq(l, exts[i]) {
            return true;
        }
        i = i + 1;
    }
    false
}

/// Does a file with this extension (if any) count as audio by the wide list?
/// Case is ignored.
pub fn is_audio(extension: Option<&str>) -> (b: bool)
    ensures
        b == (extension is Some && app_audio_exts().contains(lower(extension->0@))),
{
    match extension {
        None => false,
        Some(e) => {
            let l = lowercase_chars(e);
            let exts = [
                "mp3", "wav", "flac", "m4a", "ogg", "oga", "opus", "aiff", "aif", "aac", "wma",
                "mp4", "webm",
            ];
            let b = ext_member(&l, &exts);
            assert(exts@.len() == app_audio_exts().len());
            assert(forall|k: int| 0 <= k < exts@.len() ==> (#[trigger] exts@[k])@ == app_audio_exts()[k]);
            if b {
                let ghost k = choose|k: int| 0 <= k < exts@.len() && l@ == (#[trigger] exts@[k])@;
                assert(app_audio_exts()[k] == lower(e@));
            } else {
                assert forall|k: int| 0 <= k < app_audio_exts().len() implies app_audio_exts()[k] != lower(e@) by {
                    assert(l@ != exts@[k]@);
                }
            }
            b
        },
    }
}

/// Does a file with this extension (if any) count as audio for the command line?
pub fn is_cli_audio(extension: Option<&str>) -> (b: bool)
    ensures
        b == (extension is Some && cli_audio_exts().contains(lower(extension->0@))),
{
    match extension {
        None => false,
        Some(e) => {
            let l = lowercase_chars(e);
            let exts = ["mp3", "flac", "wav", "ogg", "m4a", "aac", "opus", "aiff"];
            let b = ext_member(&l, &exts);
            assert(exts@.len() == cli_audio_exts().len());
            assert(forall|k: int| 0 <= k < exts@.len() ==> (#[trigger] exts@[k])@ == cli_audio_exts()[k]);
            if b {
                let ghost k = choose|k: int| 0 <= k < exts@.len() && l@ == (#[trigger] exts@[k])@;
                assert(cli_audio_exts()[k] == lower(e@));
            } else {
                assert forall|k: int| 0 <= k < cli_audio_exts().len() implies cli_audio_exts()[k] != lower(e@) by {
                    assert(l@ != exts@[k]@);
                }
            }
            b
        },
    }
}

/// Artist and title come out trimmed; an empty artist means the whole
/// trimmed stem is the title; a stem without separator has no artist.
pub proof fn lemma_artist_title_shape(stem: Seq<char>)
    ensures
        trim(artist_title(stem).0) == artist_title(stem).0,
        trim(artist_title(stem).1) == artist_title(stem).1,
        artist_title(stem).0.len() == 0 ==> artist_title(stem).1 == trim(stem),
        find_sep(stem, 0) == -1 ==> artist_title(stem) == (Seq::<char>::empty(), trim(stem)),
{
    let parts = name_parts(stem);
    lemma_trim_idempotent(stem);
    lemma_find_sep_range(stem, 0);
    if parts.len() >= 2 && trim(parts[0]).len() > 0 {
        lemma_trim_idempotent(parts[0]);
        lemma_trim_idempotent(join_sep(parts.drop_first()));
    } else {
        assert(trim(Seq::<char>::empty()) =~= Seq::<char>::empty());
    }
    if find_sep(stem, 0) == -1 {
        assert(split_sep(stem) =~= seq![stem]);
    }
}

/// A stored upload name is never empty, is at most 120 characters, holds
/// only `[A-Za-z0-9._-]`, and does not start with a dot (so it can neither
/// climb out of the upload directory nor hide).
pub proof fn lemma_sanitized_is_safe(name: Seq<char>)
    ensures
        0 < sanitized(name).len() <= 120,
        forall|i: int| 0 <= i < sanitized(name).len() ==> is_safe(#[trigger] sanitized(name)[i]),
        sanitized(name)[0] != '.',
{
    let m = last_component(name).map_values(|c: char| safe_char(c));
    lemma_strip_dots_shape(m);
    let t = strip_dots(m);
    if t.len() > 0 {
        assert forall|i: int| 0 <= i < t.len() implies is_safe(#[trigger] t[i]) by {
            let off = m.len() - t.len();
            assert(t[i] == m[off + i]);
        }
        if t.len() > 120 {
            assert forall|i: int| 0 <= i < t.take(120).len() implies is_safe(#[trigger] t.take(120)[i]) by {
                assert(t.take(120)[i] == t[i]);
            }
        }
    }
}

proof fn lemma_strip_dots_shape(m: Seq<char>)
    ensures
        strip_dots(m).len() <= m.len(),
        strip_dots(m) =~= m.subrange(m.len() - strip_dots(m).len(), m.len() as int),
        strip_dots(m).len() == 0 || strip_dots(m)[0] != '.',
    decreases m.len(),
{
    if m.len() > 0 && m[0] == '.' {
        lemma_strip_dots_shape(m.drop_first());
    }
}

/// The track-number rule: the leading piece is dropped only when every
/// character of it (trimmed) is an ASCII digit and two more pieces follow.
/// A leading piece holding any other character is the artist, and the title
/// is the rest, rejoined; a purely numeric one followed by a non-empty piece
/// and at least one more separator gives way to that piece as the artist.
pub proof fn lemma_track_number_rule(stem: Seq<char>)
    ensures
        ({
            let parts = split_sep(stem);
            let first = trim(parts[0]);
            (parts.len() >= 2 && first.len() > 0 && exists|k: int|
                0 <= k < first.len() && !('0' <= #[trigger] first[k] && first[k] <= '9')) ==> artist_title(stem)
                == (first, trim(join_sep(parts.drop_first())))
        }),
        ({
            let parts = split_sep(stem);
            let first = trim(parts[0]);
            (parts.len() >= 3 && first.len() > 0 && (forall|k: int|
                0 <= k < first.len() ==> '0' <= #[trigger] first[k] && first[k] <= '9') && trim(parts[1]).len()
                > 0) ==> artist_title(stem) == (trim(parts[1]), trim(join_sep(parts.drop_first().drop_first())))
        }),
{
    lemma_split_nonempty(stem);
    let parts = split_sep(stem);
    let first = trim(parts[0]);
    if parts.len() >= 2 && first.len() > 0 && exists|k: int|
        0 <= k < first.len() && !('0' <= #[trigger] first[k] && first[k] <= '9') {
        let k = choose|k: int| 0 <= k < first.len() && !('0' <= #[trigger] first[k] && first[k] <= '9');
        assert(!all_digits(first));
        assert(name_parts(stem) == parts);
    }
    if parts.len() >= 3 && first.len() > 0 && (forall|k: int|
        0 <= k < first.len() ==> '0' <= #[trigger] first[k] && first[k] <= '9') && trim(parts[1]).len() > 0 {
        assert(all_digits(first));
        assert(name_parts(stem) == parts.drop_first());
        assert(parts.drop_first()[0] == parts[1]);
    }
}

/// The command line's audio extensions are exactly mp3, flac, wav, ogg,
/// m4a, aac, opus and aiff (compared in ASCII lower case).
pub proof fn lemma_cli_audio_exts(x: Seq<char>)
    ensures
        cli_audio_exts().contains(x) <==> (x == "mp3"@ || x == "flac"@ || x == "wav"@ || x == "ogg"@
            || x == "m4a"@ || x == "aac"@ || x == "opus"@ || x == "aiff"@),
{
    let l = cli_audio_exts();
    assert(l[0] == "mp3"@ && l[1] == "flac"@ && l[2] == "wav"@ && l[3] == "ogg"@);
    assert(l[4] == "m4a"@ && l[5] == "aac"@ && l[6] == "opus"@ && l[7] == "aiff"@);
    if l.contains(x) {
        let k = choose|k: int| 0 <= k < l.len() && l[k] == x;
        assert(0 <= k < 8);
    }
    if x == "mp3"@ { assert(l[0] == x); }
    if x == "flac"@ { assert(l[1] == x); }
    if x == "wav"@ { assert(l[2] == x); }
    if x == "ogg"@ { assert(l[3] == x); }
    if x == "m4a"@ { assert(l[4] == x); }
    if x == "aac"@ { assert(l[5] == x); }
    if x == "opus"@ { assert(l[6] == x); }
    if x == "aiff"@ { assert(l[7] == x); }
}

/// The wide audio extension list is exactly mp3, wav, flac, m4a, ogg, oga,
/// opus, aiff, aif, aac, wma, mp4 and webm (compared in ASCII lower case).
pub proof fn lemma_app_audio_exts(x: Seq<char>)
    ensures
        app_audio_exts().contains(x) <==> (x == "mp3"@ || x == "wav"@ || x == "flac"@ || x == "m4a"@
            || x == "ogg"@ || x == "oga"@ || x == "opus"@ || x == "aiff"@ || x == "aif"@ || x
            == "aac"@ || x == "wma"@ || x == "mp4"@ || x == "webm"@),
{
    let l = app_audio_exts();
    assert(l[0] == "mp3"@ && l[1] == "wav"@ && l[2] == "flac"@ && l[3] == "m4a"@);
    assert(l[4] == "ogg"@ && l[5] == "oga"@ && l[6] == "opus"@ && l[7] == "aiff"@);
    assert(l[8] == "aif"@ && l[9] == "aac"@ && l[10] == "wma"@ && l[11] == "mp4"@);
    assert(l[12] == "webm"@);
    if l.contains(x) {
        let k = choose|k: int| 0 <= k < l.len() && l[k] == x;
        assert(0 <= k < 13);
    }
    if x == "mp3"@ { assert(l[0] == x); }
    if x == "wav"@ { assert(l[1] == x); }
    if x == "flac"@ { assert(l[2] == x); }
    if x == "m4a"@ { assert(l[3] == x); }
    if x == "ogg"@ { assert(l[4] == x); }
    if x == "oga"@ { assert(l[5] == x); }
    if x == "opus"@ { assert(l[6] == x); }
    if x == "aiff"@ { assert(l[7] == x); }
    if x == "aif"@ { assert(l[8] == x); }
    if x == "aac"@ { assert(l[9] == x); }
    if x == "wma"@ { assert(l[10] == x); }
    if x == "mp4"@ { assert(l[11] == x); }
    if x == "webm"@ { assert(l[12] == x); }
}

/// Extensions are compared ignoring ASCII case: lowering keeps the length,
/// turns each `A`..`Z` into its `a`..`z` and leaves every other character
/// alone, so no upper-case ASCII letter remains.
pub proof fn lemma_lower_ignores_ascii_case(e: Seq<char>)
    ensures
        lower(e).len() == e.len(),
        forall|k: int|
            0 <= k < e.len() ==> (if 'A' <= e[k] && e[k] <= 'Z' {
                #[trigger] lower(e)[k] as u32 == e[k] as u32 + 32
            } else {
                lower(e)[k] == e[k]
            }),
        forall|k: int| 0 <= k < e.len() ==> !('A' <= #[trigger] lower(e)[k] && lower(e)[k] <= 'Z'),
{
}

} // verus!

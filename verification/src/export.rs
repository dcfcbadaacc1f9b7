//! Tracklist export: CUE sheets, CSV, and extended M3U.
//!
//! All formatters take the mix title plus the ordered detection list and
//! return a String suitable for writing to a file. Times are given as CUE
//! frames (1/75 s, the Red Book standard) and the real-valued columns as
//! their already formatted text.

use vstd::prelude::*;
use crate::text::{chars_of, decimal2, push_char, push_decimal2, push_str};

verus! {

/// `MM:SS:FF` of a CUE time given in frames of 1/75 s; the minutes keep
/// counting past an hour.
pub open spec fn cue_time_text(total: nat) -> Seq<char> {
    decimal2(total / 75 / 60) + seq![':'] + decimal2((total / 75) % 60) + seq![':'] + decimal2(
        total % 75,
    )
}

/// CUE `MM:SS:FF` of a time given in frames of 1/75 s.
pub fn cue_time_frames(total_frames: u64) -> (s: String)
    ensures
        s@ == cue_time_text(total_frames as nat),
{
    let frames = total_frames % 75;
    let secs = (total_frames / 75) % 60;
    let mins = total_frames / 75 / 60;
    let mut out = String::new();
    push_decimal2(&mut out, mins);
    push_char(&mut out, ':');
    push_decimal2(&mut out, secs);
    push_char(&mut out, ':');
    push_decimal2(&mut out, frames);
    out
}

/// `MM:SS` of a time given as whole minutes and seconds.
pub open spec fn mm_ss_text(minutes: nat, seconds: nat) -> Seq<char> {
    decimal2(minutes) + seq![':'] + decimal2(seconds)
}

/// `MM:SS` (each part zero-padded to two digits) of a time given as whole
/// minutes and seconds.
pub fn mm_ss(minutes: u64, seconds: u64) -> (s: String)
    ensures
        s@ == mm_ss_text(minutes as nat, seconds as nat),
{
    let mut out = String::new();
    push_decimal2(&mut out, minutes);
    push_char(&mut out, ':');
    push_decimal2(&mut out, seconds);
    out
}

/// A CUE title: double quotes become single quotes.
pub open spec fn cue_escaped(s: Seq<char>) -> Seq<char> {
    s.map_values(|c: char| if c == '"' { '\'' } else { c })
}

/// CUE string escaping: `"` becomes `'`.
pub fn cue_escape(s: &str) -> (r: String)
    ensures
        r@ == cue_escaped(s@),
{
    let v = chars_of(s);
    let mut out = String::new();
    let mut i: usize = 0;
    while i < v.len()
        invariant
            i <= v.len(),
            v@ == s@,
            out@ == cue_escaped(s@).take(i as int),
        decreases v.len() - i,
    {
        let c = if v[i] == '"' {
            '\''
        } else {
            v[i]
        };
        push_char(&mut out, c);
        assert(cue_escaped(s@).take(i + 1) =~= cue_escaped(s@).take(i as int).push(c));
        i = i + 1;
    }
    assert(cue_escaped(s@).take(i as int) =~= cue_escaped(s@));
    out
}

/// A CSV field must be quoted: it holds a comma, a double quote or a newline.
pub open spec fn needs_quotes(s: Seq<char>) -> bool {
    exists|i: int| 0 <= i < s.len() && (#[trigger] s[i] == ',' || s[i] == '"' || s[i] == '\n')
}

/// `s` with every double quote doubled.
pub open spec fn quotes_doubled(s: Seq<char>) -> Seq<char>
    decreases s.len(),
{
    if s.len() == 0 {
        Seq::<char>::empty()
    } else if s.last() == '"' {
        quotes_doubled(s.drop_last()) + seq!['"', '"']
    } else {
        quotes_doubled(s.drop_last()).push(s.last())
    }
}

/// RFC-4180 field: quoted, with doubled quotes, when it needs quotes.
pub open spec fn csv_field(s: Seq<char>) -> Seq<char> {
    if needs_quotes(s) {
        seq!['"'] + quotes_doubled(s) + seq!['"']
    } else {
        s
    }
}

/// RFC-4180 quoting of one CSV field.
pub fn csv_escape(s: &str) -> (r: String)
    ensures
        r@ == csv_field(s@),
{
    let v = chars_of(s);
    let mut quote = false;
    let mut i: usize = 0;
    while i < v.len()
        invariant
            i <= v.len(),
            v@ == s@,
            quote == exists|k: int| 0 <= k < i && (#[trigger] v@[k] == ',' || v@[k] == '"' || v@[k] == '\n'),
        decreases v.len() - i,
    {
        if v[i] == ',' || v[i] == '"' || v[i] == '\n' {
            quote = true;
        }
        i = i + 1;
    }
    let mut out = String::new();
    if !quote {
        push_str(&mut out, s);
        return out;
    }
    push_char(&mut out, '"');
    let mut i: usize = 0;
    while i < v.len()
        invariant
            i <= v.len(),
            v@ == s@,
            out@ == seq!['"'] + quotes_doubled(s@.take(i as int)),
        decreases v.len() - i,
    {
        assert(s@.take(i + 1).drop_last() =~= s@.take(i as int));
        if v[i] == '"' {
            push_char(&mut out, '"');
            push_char(&mut out, '"');
        } else {
            push_char(&mut out, v[i]);
        }
        i = i + 1;
    }
    assert(s@.take(i as int) =~= s@);
    push_char(&mut out, '"');
    out
}

/// One track of a CUE sheet: its title, performer, and start in CUE frames.
pub struct CueTrack {
    pub title: String,
    pub artist: String,
    pub start_frames: u64,
}

/// The lines of CUE track `n` (counted from 1).
pub open spec fn cue_track_text(n: nat, t: CueTrack) -> Seq<char> {
    "  TRACK "@ + decimal2(n) + " AUDIO\n"@ + "    TITLE \""@ + cue_escaped(t.title@) + "\"\n"@
        + "    PERFORMER \""@ + cue_escaped(t.artist@) + "\"\n"@ + "    INDEX 01 "@ + cue_time_text(
        t.start_frames as nat,
    ) + "\n"@
}

/// The track lines of the first `n` tracks.
pub open spec fn cue_tracks_text(tracks: Seq<CueTrack>, n: int) -> Seq<char>
    decreases n,
{
    if n <= 0 {
        Seq::<char>::empty()
    } else {
        cue_tracks_text(tracks, n - 1) + cue_track_text(n as nat, tracks[n - 1])
    }
}

/// A CUE sheet: title and file lines, then one AUDIO track per detection.
pub open spec fn cue_sheet(mix_title: Seq<char>, mix_file: Seq<char>, tracks: Seq<CueTrack>) -> Seq<
    char,
> {
    "TITLE \""@ + cue_escaped(mix_title) + "\"\n"@ + "FILE \""@ + cue_escaped(mix_file)
        + "\" MP3\n"@ + cue_tracks_text(tracks, tracks.len() as int)
}

fn cue_track_lines(n: u64, t: &CueTrack) -> (s: String)
    ensures
        s@ == cue_track_text(n as nat, *t),
{
    let mut s = String::new();
    push_str(&mut s, "  TRACK ");
    push_decimal2(&mut s, n);
    push_str(&mut s, " AUDIO\n");
    push_str(&mut s, "    TITLE \"");
    let e = cue_escape(t.title.as_str());
    push_str(&mut s, e.as_str());
    push_str(&mut s, "\"\n");
    push_str(&mut s, "    PERFORMER \"");
    let e = cue_escape(t.artist.as_str());
    push_str(&mut s, e.as_str());
    push_str(&mut s, "\"\n");
    push_str(&mut s, "    INDEX 01 ");
    let ct = cue_time_frames(t.start_frames);
    push_str(&mut s, ct.as_str());
    push_str(&mut s, "\n");
    assert(s@ =~= cue_track_text(n as nat, *t));
    s
}

/// Standard CUE sheet: one AUDIO track per detection, INDEX 01 at its start.
/// Most players (foobar2000, rekordbox, VLC, burners) can split a mix with it.
pub fn export_cue(mix_title: &str, mix_file: &str, tracks: &Vec<CueTrack>) -> (out: String)
    ensures
        out@ == cue_sheet(mix_title@, mix_file@, tracks@),
{
    let mut out = String::new();
    push_str(&mut out, "TITLE \"");
    let e = cue_escape(mix_title);
    push_str(&mut out, e.as_str());
    push_str(&mut out, "\"\n");
    push_str(&mut out, "FILE \"");
    let e = cue_escape(mix_file);
    push_str(&mut out, e.as_str());
    push_str(&mut out, "\" MP3\n");
    let ghost head = out@;
    let mut i: usize = 0;
    while i < tracks.len()
        invariant
            i <= tracks.len(),
            head == "TITLE \""@ + cue_escaped(mix_title@) + "\"\n"@ + "FILE \""@ + cue_escaped(
                mix_file@,
            ) + "\" MP3\n"@,
            out@ == head + cue_tracks_text(tracks@, i as int),
        decreases tracks.len() - i,
    {
        let t = &tracks[i];
        let line = cue_track_lines((i + 1) as u64, t);
        push_str(&mut out, line.as_str());
        i = i + 1;
    }
    out
}

/// One CSV row: the detection's start, end and confidence as already
/// formatted numbers (`{:.1}`, `{:.1}`, `{:.3}`), its artist and its title.
pub struct CsvRow {
    pub start: String,
    pub end: String,
    pub confidence: String,
    pub artist: String,
    pub title: String,
}

/// The line of one CSV row.
pub open spec fn csv_row_text(mix: Seq<char>, r: CsvRow) -> Seq<char> {
    csv_field(mix) + seq![','] + r.start@ + seq![','] + r.end@ + seq![','] + r.confidence@ + seq![
        ',',
    ] + csv_field(r.artist@) + seq![','] + csv_field(r.title@) + seq!['\n']
}

/// The lines of the first `n` rows.
pub open spec fn csv_rows_text(mix: Seq<char>, rows: Seq<CsvRow>, n: int) -> Seq<char>
    decreases n,
{
    if n <= 0 {
        Seq::<char>::empty()
    } else {
        csv_rows_text(mix, rows, n - 1) + csv_row_text(mix, rows[n - 1])
    }
}

/// The CSV header line.
pub open spec fn csv_header() -> Seq<char> {
    "mix,start_s,end_s,confidence,artist,title\n"@
}

fn csv_row_line(mix: &String, r: &CsvRow) -> (s: String)
    ensures
        forall|m: Seq<char>| csv_field(m) == mix@ ==> s@ == csv_row_text(m, *r),
{
    let mut s = String::new();
    push_str(&mut s, mix.as_str());
    push_char(&mut s, ',');
    push_str(&mut s, r.start.as_str());
    push_char(&mut s, ',');
    push_str(&mut s, r.end.as_str());
    push_char(&mut s, ',');
    push_str(&mut s, r.confidence.as_str());
    push_char(&mut s, ',');
    let a = csv_escape(r.artist.as_str());
    push_str(&mut s, a.as_str());
    push_char(&mut s, ',');
    let t = csv_escape(r.title.as_str());
    push_str(&mut s, t.as_str());
    push_char(&mut s, '\n');
    assert forall|m: Seq<char>| csv_field(m) == mix@ implies s@ == csv_row_text(m, *r) by {
        assert(s@ =~= csv_row_text(m, *r));
    }
    s
}

/// CSV: mix,start,end,confidence,artist,title (seconds, RFC-4180 quoting).
pub fn export_csv(mix_title: &str, rows: &Vec<CsvRow>) -> (out: String)
    ensures
        out@ == csv_header() + csv_rows_text(mix_title@, rows@, rows.len() as int),
{
    let mut out = String::new();
    push_str(&mut out, "mix,start_s,end_s,confidence,artist,title\n");
    let mix = csv_escape(mix_title);
    let mut i: usize = 0;
    while i < rows.len()
        invariant
            i <= rows.len(),
            mix@ == csv_field(mix_title@),
            out@ == csv_header() + csv_rows_text(mix_title@, rows@, i as int),
        decreases rows.len() - i,
    {
        let r = &rows[i];
        let line = csv_row_line(&mix, r);
        push_str(&mut out, line.as_str());
        assert(line@ == csv_row_text(mix_title@, rows@[i as int]));
        assert(csv_header() + csv_rows_text(mix_title@, rows@, i + 1) =~= csv_header()
            + csv_rows_text(mix_title@, rows@, i as int) + csv_row_text(mix_title@, rows@[i as int]));
        i = i + 1;
    }
    out
}

/// One playlist entry: title, artist, the duration as already formatted
/// whole seconds (`{:.0}`), and the start in CUE frames.
pub struct M3uEntry {
    pub title: String,
    pub artist: String,
    pub duration: String,
    pub start_frames: u64,
}

/// `Artist - Title`, or the title alone when the artist is empty.
pub open spec fn m3u_label(e: M3uEntry) -> Seq<char> {
    if e.artist@.len() == 0 {
        e.title@
    } else {
        e.artist@ + " - "@ + e.title@
    }
}

/// The two lines of one playlist entry.
pub open spec fn m3u_entry_text(mix: Seq<char>, e: M3uEntry) -> Seq<char> {
    "#EXTINF:"@ + e.duration@ + seq![','] + m3u_label(e) + seq!['\n'] + m3u_label(e) + " \u{2014} "@
        + mix + " ["@ + cue_time_text(e.start_frames as nat) + "]\n"@
}

/// The lines of the first `n` entries.
pub open spec fn m3u_entries_text(mix: Seq<char>, entries: Seq<M3uEntry>, n: int) -> Seq<char>
    decreases n,
{
    if n <= 0 {
        Seq::<char>::empty()
    } else {
        m3u_entries_text(mix, entries, n - 1) + m3u_entry_text(mix, entries[n - 1])
    }
}

fn m3u_entry_lines(mix_title: &str, e: &M3uEntry) -> (s: String)
    ensures
        s@ == m3u_entry_text(mix_title@, *e),
{
    let mut label = String::new();
    if !e.artist.as_str().is_empty() {
        push_str(&mut label, e.artist.as_str());
        push_str(&mut label, " - ");
    }
    push_str(&mut label, e.title.as_str());
    assert(label@ =~= m3u_label(*e));
    let mut s = String::new();
    push_str(&mut s, "#EXTINF:");
    push_str(&mut s, e.duration.as_str());
    push_char(&mut s, ',');
    push_str(&mut s, label.as_str());
    push_char(&mut s, '\n');
    push_str(&mut s, label.as_str());
    push_str(&mut s, " \u{2014} ");
    push_str(&mut s, mix_title);
    push_str(&mut s, " [");
    let ct = cue_time_frames(e.start_frames);
    push_str(&mut s, ct.as_str());
    push_str(&mut s, "]\n");
    assert(s@ =~= m3u_entry_text(mix_title@, *e));
    s
}

/// Extended M3U: `#EXTINF:<duration>,Artist - Title` per detection. Useful as
/// a plain "what played" playlist / setlist.
pub fn export_m3u(mix_title: &str, entries: &Vec<M3uEntry>) -> (out: String)
    ensures
        out@ == "#EXTM3U\n"@ + "#Playlist: "@ + mix_title@ + seq!['\n'] + m3u_entries_text(
            mix_title@,
            entries@,
            entries.len() as int,
        ),
{
    let mut out = String::new();
    push_str(&mut out, "#EXTM3U\n");
    push_str(&mut out, "#Playlist: ");
    push_str(&mut out, mix_title);
    push_char(&mut out, '\n');
    let ghost head = out@;
    let mut i: usize = 0;
    while i < entries.len()
        invariant
            i <= entries.len(),
            head == "#EXTM3U\n"@ + "#Playlist: "@ + mix_title@ + seq!['\n'],
            out@ == head + m3u_entries_text(mix_title@, entries@, i as int),
        decreases entries.len() - i,
    {
        let e = &entries[i];
        let line = m3u_entry_lines(mix_title, e);
        push_str(&mut out, line.as_str());
        i = i + 1;
    }
    out
}

/// Reading back a quoted-or-plain CSV field: the text between the enclosing
/// quotes with each doubled quote read as one.
pub open spec fn csv_unfield(f: Seq<char>) -> Seq<char> {
    if f.len() >= 2 && f[0] == '"' && f.last() == '"' {
        quotes_undoubled(f.subrange(1, f.len() - 1))
    } else {
        f
    }
}

/// Each `""` read as one `"` (scanning from the end).
pub open spec fn quotes_undoubled(s: Seq<char>) -> Seq<char>
    decreases s.len(),
{
    if s.len() == 0 {
        Seq::<char>::empty()
    } else if s.len() >= 2 && s.last() == '"' && s[s.len() - 2] == '"' {
        quotes_undoubled(s.subrange(0, s.len() - 2)).push('"')
    } else {
        quotes_undoubled(s.drop_last()).push(s.last())
    }
}

proof fn lemma_undouble_doubled(s: Seq<char>)
    ensures
        quotes_undoubled(quotes_doubled(s)) == s,
    decreases s.len(),
{
    if s.len() > 0 {
        lemma_undouble_doubled(s.drop_last());
        let d = quotes_doubled(s.drop_last());
        if s.last() == '"' {
            let q = d + seq!['"', '"'];
            assert(q.subrange(0, q.len() - 2) =~= d);
        } else {
            let q = d.push(s.last());
            assert(q.drop_last() =~= d);
        }
        assert(s.drop_last().push(s.last()) =~= s);
    }
}

/// RFC-4180 quoting is lossless: reading a field back gives the text.
pub proof fn lemma_csv_field_roundtrip(s: Seq<char>)
    ensures
        csv_unfield(csv_field(s)) == s,
{
    if needs_quotes(s) {
        let f = seq!['"'] + quotes_doubled(s) + seq!['"'];
        assert(f.subrange(1, f.len() - 1) =~= quotes_doubled(s));
        lemma_undouble_doubled(s);
    } else {
        if s.len() >= 2 && s[0] == '"' {
            assert(needs_quotes(s));
        }
    }
}

/// A CUE string never holds a double quote, and keeps its length.
pub proof fn lemma_cue_escaped_has_no_quote(s: Seq<char>)
    ensures
        cue_escaped(s).len() == s.len(),
        !cue_escaped(s).contains('"'),
{
}

/// `MM:SS:FF` splits a time exactly: minutes, seconds below 60 and CUE
/// frames below 75 add back up to the frame count.
pub proof fn lemma_cue_time_parts(total: nat)
    ensures
        (total / 75 / 60) * 4500 + ((total / 75) % 60) * 75 + total % 75 == total,
        (total / 75) % 60 < 60,
        total % 75 < 75,
{
    let q = total / 75;
    assert(total == q * 75 + total % 75);
    assert(q == (q / 60) * 60 + q % 60);
    assert((q / 60) * 4500 == (q / 60) * 60 * 75) by (nonlinear_arith);
    assert(q * 75 == ((q / 60) * 60 + q % 60) * 75);
    assert(((q / 60) * 60 + q % 60) * 75 == (q / 60) * 60 * 75 + (q % 60) * 75) by (nonlinear_arith);
}

proof fn lemma_cue_tracks_prefix(ts: Seq<CueTrack>, t: CueTrack, n: int)
    requires
        0 <= n <= ts.len(),
    ensures
        cue_tracks_text(ts.push(t), n) == cue_tracks_text(ts, n),
    decreases n,
{
    if n > 0 {
        lemma_cue_tracks_prefix(ts, t, n - 1);
        assert(ts.push(t)[n - 1] == ts[n - 1]);
    }
}

/// A CUE sheet lists the tracks in the given order: with no track it is just
/// the title and file lines, and adding a track at the end of the list adds
/// its block, numbered one past the others, at the end of the sheet.
pub proof fn lemma_cue_sheet_in_order(title: Seq<char>, file: Seq<char>, ts: Seq<CueTrack>, t: CueTrack)
    ensures
        cue_sheet(title, file, Seq::<CueTrack>::empty()) == "TITLE \""@ + cue_escaped(title)
            + "\"\n"@ + "FILE \""@ + cue_escaped(file) + "\" MP3\n"@,
        cue_sheet(title, file, ts.push(t)) == cue_sheet(title, file, ts) + cue_track_text(
            (ts.len() + 1) as nat,
            t,
        ),
{
    lemma_cue_tracks_prefix(ts, t, ts.len() as int);
    assert(ts.push(t)[ts.len() as int] == t);
    let head = "TITLE \""@ + cue_escaped(title) + "\"\n"@ + "FILE \""@ + cue_escaped(file)
        + "\" MP3\n"@;
    assert(cue_tracks_text(Seq::<CueTrack>::empty(), 0) == Seq::<char>::empty());
    assert(head + Seq::<char>::empty() =~= head);
    assert(head + (cue_tracks_text(ts, ts.len() as int) + cue_track_text((ts.len() + 1) as nat, t))
        =~= (head + cue_tracks_text(ts, ts.len() as int)) + cue_track_text((ts.len() + 1) as nat, t));
}

proof fn lemma_csv_rows_prefix(mix: Seq<char>, rows: Seq<CsvRow>, r: CsvRow, n: int)
    requires
        0 <= n <= rows.len(),
    ensures
        csv_rows_text(mix, rows.push(r), n) == csv_rows_text(mix, rows, n),
    decreases n,
{
    if n > 0 {
        lemma_csv_rows_prefix(mix, rows, r, n - 1);
        assert(rows.push(r)[n - 1] == rows[n - 1]);
    }
}

/// A CSV export lists the rows in the given order: with no row it is the
/// header alone, and adding a row at the end of the list adds its line at
/// the end of the text.
pub proof fn lemma_csv_in_order(mix: Seq<char>, rows: Seq<CsvRow>, r: CsvRow)
    ensures
        csv_header() + csv_rows_text(mix, Seq::<CsvRow>::empty(), 0) == csv_header(),
        csv_header() + csv_rows_text(mix, rows.push(r), rows.len() + 1int) == (csv_header()
            + csv_rows_text(mix, rows, rows.len() as int)) + csv_row_text(mix, r),
{
    lemma_csv_rows_prefix(mix, rows, r, rows.len() as int);
    assert(rows.push(r)[rows.len() as int] == r);
    assert(csv_header() + Seq::<char>::empty() =~= csv_header());
    assert(csv_header() + (csv_rows_text(mix, rows, rows.len() as int) + csv_row_text(mix, r))
        =~= (csv_header() + csv_rows_text(mix, rows, rows.len() as int)) + csv_row_text(mix, r));
}

proof fn lemma_m3u_entries_prefix(mix: Seq<char>, es: Seq<M3uEntry>, e: M3uEntry, n: int)
    requires
        0 <= n <= es.len(),
    ensures
        m3u_entries_text(mix, es.push(e), n) == m3u_entries_text(mix, es, n),
    decreases n,
{
    if n > 0 {
        lemma_m3u_entries_prefix(mix, es, e, n - 1);
        assert(es.push(e)[n - 1] == es[n - 1]);
    }
}

/// An M3U playlist lists the entries in the given order: with no entry it
/// is the two header lines, and adding an entry at the end of the list adds
/// its two lines at the end of the playlist.
pub proof fn lemma_m3u_in_order(mix: Seq<char>, es: Seq<M3uEntry>, e: M3uEntry)
    ensures
        m3u_entries_text(mix, Seq::<M3uEntry>::empty(), 0) == Seq::<char>::empty(),
        m3u_entries_text(mix, es.push(e), es.len() + 1int) == m3u_entries_text(mix, es, es.len() as int)
            + m3u_entry_text(mix, e),
{
    lemma_m3u_entries_prefix(mix, es, e, es.len() as int);
    assert(es.push(e)[es.len() as int] == e);
}

} // verus!

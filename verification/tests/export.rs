use mixid_core::export::{
    csv_escape, cue_escape, cue_time_frames, export_csv, export_cue, export_m3u, mm_ss, CsvRow,
    CueTrack, M3uEntry,
};

/// Seconds → CUE frames, as the front ends convert a detection's start.
fn frames(s: f64) -> u64 {
    (s.max(0.0) * 75.0).round() as u64
}

fn cue_time(s: f64) -> String {
    cue_time_frames(frames(s))
}

struct Det {
    title: String,
    artist: String,
    t_start: f64,
    t_end: f64,
    confidence: f64,
}

fn det(_track_id: i64, title: &str, artist: &str, t_start: f64, t_end: f64) -> Det {
    Det { title: title.into(), artist: artist.into(), t_start, t_end, confidence: 0.99 }
}

fn cue_tracks(dets: &[Det]) -> Vec<CueTrack> {
    dets.iter()
        .map(|d| CueTrack { title: d.title.clone(), artist: d.artist.clone(), start_frames: frames(d.t_start) })
        .collect()
}

fn csv_rows(dets: &[Det]) -> Vec<CsvRow> {
    dets.iter()
        .map(|d| CsvRow {
            start: format!("{:.1}", d.t_start),
            end: format!("{:.1}", d.t_end),
            confidence: format!("{:.3}", d.confidence),
            artist: d.artist.clone(),
            title: d.title.clone(),
        })
        .collect()
}

fn m3u_entries(dets: &[Det]) -> Vec<M3uEntry> {
    dets.iter()
        .map(|d| M3uEntry {
            title: d.title.clone(),
            artist: d.artist.clone(),
            duration: format!("{:.0}", (d.t_end - d.t_start).max(0.0)),
            start_frames: frames(d.t_start),
        })
        .collect()
}

#[test]
fn cue_time_formats() {
    assert_eq!(cue_time(0.0), "00:00:00");
    assert_eq!(cue_time(61.5), "01:01:38"); // 61.5s * 75 = 4612.5 → 4613 → 1:01:38
    assert_eq!(cue_time(3661.0), "61:01:00"); // over an hour: MM keeps counting
}

#[test]
fn cue_sheet_shape() {
    let dets = vec![
        det(1, "Nirvana Edit", "Kolter", 0.0, 58.0),
        det(2, "Last Night", "Loofy", 58.0, 113.0),
    ];
    let cue = export_cue("Friday set", "friday.mp3", &cue_tracks(&dets));
    assert!(cue.contains("TITLE \"Friday set\""));
    assert!(cue.contains("FILE \"friday.mp3\" MP3"));
    assert!(cue.contains("TRACK 01 AUDIO"));
    assert!(cue.contains("TITLE \"Nirvana Edit\""));
    assert!(cue.contains("PERFORMER \"Kolter\""));
    assert!(cue.contains("INDEX 01 00:00:00"));
    assert!(cue.contains("INDEX 01 00:58:00"));
    assert!(cue.contains("TRACK 02 AUDIO"));
}

#[test]
fn cue_escapes_quotes() {
    let dets = vec![det(1, "Say \"Hi\"", "DJ", 0.0, 10.0)];
    let cue = export_cue("t", "t.mp3", &cue_tracks(&dets));
    assert!(cue.contains("'Hi'"));
    assert!(!cue.contains("\\\""));
}

#[test]
fn csv_quotes_commas() {
    let dets = vec![det(1, "Love, Again", "A,B", 0.0, 60.0)];
    let csv = export_csv("My, Mix", &csv_rows(&dets));
    assert!(csv.starts_with("mix,start_s,end_s,confidence,artist,title\n"));
    assert!(csv.contains("\"My, Mix\""));
    assert!(csv.contains("\"A,B\",\"Love, Again\""));
}

#[test]
fn m3u_shape() {
    let dets = vec![det(1, "Nine", "Sammy Virji", 0.0, 60.0)];
    let m3u = export_m3u("Set", &m3u_entries(&dets));
    assert!(m3u.starts_with("#EXTM3U\n"));
    assert!(m3u.contains("#Playlist: Set\n"));
    assert!(m3u.contains("#EXTINF:60,Sammy Virji - Nine\n"));
}

#[test]
fn cue_sheet_exact_text() {
    let dets = vec![det(1, "A \"b\"", "", 12.5, 20.0)];
    let cue = export_cue("M", "m.mp3", &cue_tracks(&dets));
    assert_eq!(
        cue,
        "TITLE \"M\"\nFILE \"m.mp3\" MP3\n  TRACK 01 AUDIO\n    TITLE \"A 'b'\"\n    PERFORMER \"\"\n    INDEX 01 00:12:38\n"
    );
}

#[test]
fn cue_track_numbers_past_ninety_nine() {
    let tracks: Vec<CueTrack> = (0..100)
        .map(|i| CueTrack { title: format!("T{i}"), artist: String::new(), start_frames: i as u64 })
        .collect();
    let cue = export_cue("M", "m", &tracks);
    assert!(cue.contains("  TRACK 09 AUDIO\n"));
    assert!(cue.contains("  TRACK 100 AUDIO\n"));
}

#[test]
fn csv_exact_rows_and_quote_doubling() {
    assert_eq!(csv_escape("plain"), "plain");
    assert_eq!(csv_escape("say \"hi\""), "\"say \"\"hi\"\"\"");
    assert_eq!(csv_escape("two\nlines"), "\"two\nlines\"");
    assert_eq!(csv_escape(""), "");
    let dets = vec![det(1, "T", "A", 1.25, 2.0)];
    let csv = export_csv("Mix", &csv_rows(&dets));
    assert_eq!(csv, "mix,start_s,end_s,confidence,artist,title\nMix,1.2,2.0,0.990,A,T\n");
}

#[test]
fn m3u_without_artist_uses_title() {
    let dets = vec![det(1, "Solo", "", 61.0, 70.0)];
    let m3u = export_m3u("Set", &m3u_entries(&dets));
    assert_eq!(
        m3u,
        "#EXTM3U\n#Playlist: Set\n#EXTINF:9,Solo\nSolo \u{2014} Set [01:01:00]\n"
    );
}

#[test]
fn cue_escape_replaces_every_double_quote() {
    assert_eq!(cue_escape("\"\"x\""), "''x'");
    assert_eq!(cue_escape("none"), "none");
}

#[test]
fn cue_time_frame_arithmetic() {
    assert_eq!(cue_time_frames(74), "00:00:74");
    assert_eq!(cue_time_frames(75), "00:01:00");
    assert_eq!(cue_time_frames(4500), "01:00:00");
    assert_eq!(cue_time_frames(75 * 60 * 100 + 75 * 59 + 1), "100:59:01");
}

#[test]
fn mm_ss_pads_both_parts() {
    assert_eq!(mm_ss(0, 0), "00:00");
    assert_eq!(mm_ss(1, 53), "01:53");
    assert_eq!(mm_ss(125, 7), "125:07");
    // a rounded-up 59.6 s keeps its 60, as the command line prints it
    assert_eq!(mm_ss(2, 60), "02:60");
}

/// Reads a CSV field back: strips the enclosing quotes and undoubles the
/// quotes between them.
fn unfield(f: &str) -> String {
    if f.len() >= 2 && f.starts_with('"') && f.ends_with('"') {
        f[1..f.len() - 1].replace("\"\"", "\"")
    } else {
        f.to_string()
    }
}

#[test]
fn csv_fields_read_back() {
    for s in ["plain", "a,b", "say \"hi\"", "\"", "x\ny", "", "\"\""] {
        assert_eq!(unfield(&csv_escape(s)), s);
    }
}

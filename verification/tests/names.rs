use mixid_core::names::{
    clean_title, is_audio, is_cli_audio, mix_title, sanitize, split_artist_title, split_stem,
    split_title,
};

#[test]
fn plain_convention() {
    assert_eq!(
        split_artist_title("Kolter - Nirvana Edit"),
        ("Kolter".to_string(), "Nirvana Edit".to_string())
    );
}

#[test]
fn numbered_dj_pool() {
    assert_eq!(
        split_artist_title("03 - Sammy Viriji - 925"),
        ("Sammy Viriji".to_string(), "925".to_string())
    );
    assert_eq!(
        split_artist_title("12 - FISHER - OCEAN"),
        ("FISHER".to_string(), "OCEAN".to_string())
    );
}

#[test]
fn numeric_artist_is_kept_when_only_one_separator() {
    // "925 - Remix" is a literal artist name choice, not a track number
    assert_eq!(
        split_artist_title("925 - Remix"),
        ("925".to_string(), "Remix".to_string())
    );
}

#[test]
fn no_separator() {
    assert_eq!(
        split_artist_title("untitled"),
        (String::new(), "untitled".to_string())
    );
}

#[test]
fn extra_whitespace_trimmed() {
    assert_eq!(
        split_artist_title("  Loofy  -   Last Night "),
        ("Loofy".to_string(), "Last Night".to_string())
    );
}

#[test]
fn three_separators_no_number() {
    // No numeric prefix: keep first split (title may legitimately contain " - ")
    assert_eq!(
        split_artist_title("A - B - C"),
        ("A".to_string(), "B - C".to_string())
    );
}

#[test]
fn doc_examples_split_artist_title() {
    assert_eq!(split_artist_title("Kolter - Nirvana Edit"), ("Kolter".into(), "Nirvana Edit".into()));
    assert_eq!(split_artist_title("03 - Sammy Virji - 925"), ("Sammy Virji".into(), "925".into()));
    assert_eq!(split_artist_title("925"), ("".into(), "925".into()));
}

#[test]
fn numbered_prefix_with_empty_artist_falls_back_to_whole_stem() {
    assert_eq!(split_artist_title("03 -  - Song"), (String::new(), "03 -  - Song".to_string()));
    assert_eq!(split_artist_title(" - Song"), (String::new(), "- Song".to_string()));
}

#[test]
fn numbered_prefix_keeps_later_separators_in_title() {
    assert_eq!(
        split_artist_title("07 - DJ - Track - Extended Mix"),
        ("DJ".to_string(), "Track - Extended Mix".to_string())
    );
}

#[test]
fn overlapping_separators_split_leftmost() {
    assert_eq!(split_artist_title("a - - b"), ("a".to_string(), "- b".to_string()));
}

#[test]
fn unicode_whitespace_is_trimmed() {
    assert_eq!(
        split_artist_title("\u{3000}Artist\u{a0} - \tTitle\u{2003}"),
        ("Artist".to_string(), "Title".to_string())
    );
}

#[test]
fn split_stem_matches_split_artist_title() {
    assert_eq!(split_stem("12 - FISHER - OCEAN"), ("FISHER".to_string(), "OCEAN".to_string()));
}

#[test]
fn cli_split_title_uses_the_shared_rule() {
    assert_eq!(split_title("03 - Sammy Virji - 925"), ("Sammy Virji".to_string(), "925".to_string()));
    assert_eq!(split_title(" A - B - C "), ("A".to_string(), "B - C".to_string()));
    assert_eq!(split_title("  untitled "), (String::new(), "untitled".to_string()));
}

#[test]
fn clean_title_trims_and_drops_empty() {
    assert_eq!(clean_title(None), None);
    assert_eq!(clean_title(Some("   ".to_string())), None);
    assert_eq!(clean_title(Some("".to_string())), None);
    assert_eq!(clean_title(Some("  Friday set \n".to_string())), Some("Friday set".to_string()));
}

#[test]
fn sanitize_strips_dirs_and_unsafe_chars() {
    assert_eq!(sanitize("../../etc/passwd"), "passwd");
    assert_eq!(sanitize("C:\\Users\\dj\\my mix (live).mp3"), "my_mix__live_.mp3");
    assert_eq!(sanitize("...hidden.wav"), "hidden.wav");
    assert_eq!(sanitize("..."), "upload");
    assert_eq!(sanitize("dir/"), "upload");
    assert_eq!(sanitize(""), "upload");
    assert_eq!(sanitize("é.mp3"), "_.mp3");
    let long = "a".repeat(300);
    assert_eq!(sanitize(&long), "a".repeat(120));
}

#[test]
fn audio_extensions() {
    assert!(is_audio(Some("MP3")));
    assert!(is_audio(Some("webm")));
    assert!(!is_audio(Some("txt")));
    assert!(!is_audio(None));
    assert!(is_cli_audio(Some("Flac")));
    assert!(!is_cli_audio(Some("webm")));
    assert!(!is_cli_audio(None));
}

#[test]
fn mix_title_prefers_given_title_then_stem() {
    assert_eq!(mix_title(Some("Friday set"), Some("friday")), "Friday set");
    assert_eq!(mix_title(None, Some("friday")), "friday");
    assert_eq!(mix_title(None, None), "Untitled Mix");
    // an explicit title is used as given, even when empty
    assert_eq!(mix_title(Some(""), Some("friday")), "");
}

#[test]
fn split_parts_are_already_trimmed() {
    for stem in ["  A  -  B  ", "01 -  X - Y ", "\tsolo\n", " - "] {
        let (a, t) = split_artist_title(stem);
        assert_eq!(a.trim(), a);
        assert_eq!(t.trim(), t);
        if a.is_empty() {
            assert_eq!(t, stem.trim());
        }
    }
}

#[test]
fn sanitized_names_are_safe() {
    for name in ["../x", ".bashrc", "a/b\\c d", "\u{1F3B5}\u{1F3B5}", ".", "x".repeat(500).as_str()] {
        let s = sanitize(name);
        assert!(!s.is_empty() && s.len() <= 120);
        assert!(!s.starts_with('.'));
        assert!(s.chars().all(|c| c.is_ascii_alphanumeric() || c == '.' || c == '-' || c == '_'));
    }
}

#[test]
fn clean_title_is_idempotent() {
    let once = clean_title(Some(" \u{2003}Set\u{a0} ".to_string()));
    assert_eq!(once, Some("Set".to_string()));
    assert_eq!(clean_title(once.clone()), once);
}

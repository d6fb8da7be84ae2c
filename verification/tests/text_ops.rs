use audio_palette::filename_of_path;
use audio_palette::format_token_of_path;
use audio_palette::str_contains_ci;
use audio_palette::str_le;

#[test]
fn filename_takes_the_component_after_the_last_slash() {
    assert_eq!(filename_of_path("/music/loops/groove.wav"), "groove.wav");
    assert_eq!(filename_of_path("groove.wav"), "groove.wav");
    assert_eq!(filename_of_path("a/b"), "b");
}

#[test]
fn filename_of_a_path_ending_in_a_slash_is_the_whole_path() {
    assert_eq!(filename_of_path("/music/loops/"), "/music/loops/");
    assert_eq!(filename_of_path(""), "");
}

#[test]
fn string_order_is_lexicographic_by_code_point() {
    assert!(str_le("abc", "abd"));
    assert!(!str_le("abd", "abc"));
    assert!(str_le("abc", "abc"));
    assert!(str_le("ab", "abc"));
    assert!(!str_le("abc", "ab"));
    assert!(str_le("", "a"));
    // Binary collation: capitals sort before lower case.
    assert!(str_le("Kick", "kick"));
    // Timestamp strings order chronologically.
    assert!(str_le("2024-01-01 00:00:00", "2024-01-02 00:00:00"));
}

#[test]
fn substring_search_folds_ascii_case() {
    assert!(str_contains_ci("AcousticKICK.flac", "kick"));
    assert!(str_contains_ci("snare.wav", "SNARE"));
    assert!(str_contains_ci("anything", ""));
    assert!(!str_contains_ci("snare.wav", "kick"));
    assert!(!str_contains_ci("kic", "kick"));
}

#[test]
fn format_token_is_the_lowercased_extension() {
    assert_eq!(format_token_of_path("/music/loops/groove.wav"), "wav");
    assert_eq!(format_token_of_path("/music/loops/Bell.FLAC"), "flac");
    assert_eq!(format_token_of_path("archive.tar.gz"), "gz");
}

#[test]
fn format_token_of_a_name_without_extension_is_unknown() {
    assert_eq!(format_token_of_path("/music/loops/groove"), "unknown");
    assert_eq!(format_token_of_path(""), "unknown");
    // A lone leading dot marks a hidden file, not an extension.
    assert_eq!(format_token_of_path("/home/.config"), "unknown");
    // The dot must sit in the file name, not in an earlier path component.
    assert_eq!(format_token_of_path("/a.b/c"), "unknown");
}

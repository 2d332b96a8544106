use cadenza::audio::{supported_extension, supported_path};
use cadenza::library::is_supported_audio_file;

#[test]
fn recognizes_supported_audio_extensions() {
    assert!(supported_extension("mp3"));
    assert!(supported_extension("flac"));
    assert!(supported_extension("wav"));
    assert!(supported_extension("ogg"));
    assert!(!supported_extension("txt"));
}

#[test]
fn extension_check_is_exact() {
    assert!(!supported_extension("MP3"));
    assert!(!supported_extension("ogg "));
    assert!(!supported_extension(""));
}

#[test]
fn supported_path_ignores_ascii_case() {
    assert!(supported_path("music/bach.OGG"));
    assert!(supported_path("music/bach.Flac"));
    assert!(supported_path("song.mp3"));
    assert!(!supported_path("notes.txt"));
    assert!(!supported_path("music/.ogg"));
    assert!(!supported_path("music/ogg"));
}

#[test]
fn library_filter_is_case_sensitive() {
    assert!(is_supported_audio_file("music/bach.ogg"));
    assert!(!is_supported_audio_file("music/bach.OGG"));
    assert!(!is_supported_audio_file("music/"));
}

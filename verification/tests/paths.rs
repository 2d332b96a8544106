use cadenza::paths::{join_path, path_extension, path_file_name, path_file_stem};
use cadenza::ui::display_name_from_path;

#[test]
fn file_name_takes_the_last_normal_component() {
    assert_eq!(path_file_name("music/bach/fugue.ogg").as_deref(), Some("fugue.ogg"));
    assert_eq!(path_file_name("music/bach/").as_deref(), Some("bach"));
    assert_eq!(path_file_name("music/bach/.").as_deref(), Some("bach"));
    assert_eq!(path_file_name("music/..").as_deref(), None);
    assert_eq!(path_file_name("/").as_deref(), None);
    assert_eq!(path_file_name("").as_deref(), None);
}

#[test]
fn extension_and_stem_split_at_the_last_dot() {
    assert_eq!(path_extension("a/b.tar.gz").as_deref(), Some("gz"));
    assert_eq!(path_file_stem("a/b.tar.gz").as_deref(), Some("b.tar"));
    assert_eq!(path_extension("a/.hidden").as_deref(), None);
    assert_eq!(path_file_stem("a/.hidden").as_deref(), Some(".hidden"));
    assert_eq!(path_extension("a/noext").as_deref(), None);
    assert_eq!(path_extension("a/dot.").as_deref(), Some(""));
}

#[test]
fn join_inserts_one_separator() {
    assert_eq!(join_path("music", "a.ogg"), "music/a.ogg");
    assert_eq!(join_path("music/", "a.ogg"), "music/a.ogg");
    assert_eq!(join_path("music", "/a.ogg"), "/a.ogg");
}

#[test]
fn display_name_falls_back_to_the_path() {
    assert_eq!(display_name_from_path("music/巴赫/赋格.ogg"), "赋格.ogg");
    assert_eq!(display_name_from_path(".."), "..");
}

use std::path::Path;
use structure_sync::path::file_name;

#[test]
fn the_name_is_the_last_component() {
    assert_eq!(file_name("src/app.rs"), Some("app.rs"));
    assert_eq!(file_name("src/components/city_input.rs"), Some("city_input.rs"));
    assert_eq!(file_name("src/input.css"), Some("input.css"));
    assert_eq!(file_name("a.txt"), Some("a.txt"));
    assert_eq!(file_name("/usr/bin"), Some("bin"));
}

#[test]
fn trailing_separators_and_full_stops_do_not_count() {
    assert_eq!(file_name("/usr/bin/"), Some("bin"));
    assert_eq!(file_name("foo.txt/."), Some("foo.txt"));
    assert_eq!(file_name("foo.txt/.//"), Some("foo.txt"));
    assert_eq!(file_name("a//b"), Some("b"));
    assert_eq!(file_name("./a"), Some("a"));
}

#[test]
fn some_paths_name_no_file() {
    assert_eq!(file_name(""), None);
    assert_eq!(file_name("/"), None);
    assert_eq!(file_name("//"), None);
    assert_eq!(file_name("."), None);
    assert_eq!(file_name("./"), None);
    assert_eq!(file_name(".."), None);
    assert_eq!(file_name("foo.txt/.."), None);
    assert_eq!(file_name("foo/../"), None);
    assert_eq!(file_name("../.."), None);
}

#[test]
fn names_that_begin_with_a_full_stop_are_names() {
    assert_eq!(file_name(".gitignore"), Some(".gitignore"));
    assert_eq!(file_name("a/..."), Some("..."));
    assert_eq!(file_name("a/..b"), Some("..b"));
    assert_eq!(file_name("a/.b"), Some(".b"));
    assert_eq!(file_name("../a"), Some("a"));
}

#[test]
fn names_of_more_than_one_byte_a_character_are_kept_whole() {
    assert_eq!(file_name("документы/структура.txt"), Some("структура.txt"));
    assert_eq!(file_name("🛒/é/"), Some("é"));
}

#[test]
fn the_name_is_the_one_that_the_standard_library_gives() {
    let paths = [
        "", "/", "//", ".", "./", "..", "../", "a", "a/", "a//", "a/.", "a/./", "a/..", "a/../",
        "/a", "//a", "./a", ".//a", "../a", "a/b", "a//b", "a/./b", "a/../b", "a/b/.", "a/b/..",
        "a/b/./", "a/b/.//", "a/b/././", ".a", "..a", "...", "a.", "a..", "/.", "/..", "/./",
        "/a/.", "/a/./.", "src/app.rs", "src/components/city_input.rs", "a b/c d", "a/ ", " ",
        "a\\b", "é/ü", "./.", "././.", ".//.", "a/.b/..c", "a/.../", "/.../.",
    ];
    for path in paths {
        let expected = Path::new(path).file_name().and_then(|name| name.to_str());
        assert_eq!(file_name(path), expected, "for the path {:?}", path);
    }
}

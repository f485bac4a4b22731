use gem_downloads::paths::better_gem_path;

#[test]
fn test_better_gem_path() {
    assert_eq!(better_gem_path("aa"), "bettergems/aa.json");
    assert_eq!(better_gem_path("a a"), "bettergems/a%20a.json");
    assert_eq!(better_gem_path("foo-bar"), "bettergems/foo-bar.json");
    assert_eq!(better_gem_path("foo_bar"), "bettergems/foo_bar.json");
    assert_eq!(
        better_gem_path("foo-bar_baz"),
        "bettergems/foo-bar_baz.json"
    );
    assert_eq!(
        better_gem_path("foo-bar_baz-qux"),
        "bettergems/foo-bar_baz-qux.json"
    );
    assert_eq!(
        better_gem_path("foo-bar_baz-qux-123"),
        "bettergems/foo-bar_baz-qux-123.json"
    );
    assert_eq!(better_gem_path("AAaa"), "bettergems/%41%41aa.json");
}

#[test]
fn empty_name() {
    assert_eq!(better_gem_path(""), "bettergems/.json");
}

#[test]
fn multibyte_name_encodes_every_byte() {
    // 'é' is two bytes in UTF-8 (0xC3 0xA9); each is encoded on its own
    assert_eq!(better_gem_path("é"), "bettergems/%C3%A9.json");
}

#[test]
fn dots_and_slashes_are_encoded() {
    assert_eq!(better_gem_path("a.b/c"), "bettergems/a%2Eb%2Fc.json");
}

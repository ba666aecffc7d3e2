use fileslug::split_extension;

#[test]
fn test_split_simple_extension() {
    assert_eq!(split_extension("hello.txt"), ("hello", ".txt"));
}

#[test]
fn test_split_compound_extension() {
    assert_eq!(split_extension("archive.tar.gz"), ("archive", ".tar.gz"));
    assert_eq!(split_extension("backup.tar.bz2"), ("backup", ".tar.bz2"));
    assert_eq!(split_extension("data.tar.xz"), ("data", ".tar.xz"));
    assert_eq!(split_extension("logs.tar.zst"), ("logs", ".tar.zst"));
}

#[test]
fn test_split_dotfile() {
    assert_eq!(split_extension(".gitignore"), ("", ".gitignore"));
    assert_eq!(split_extension(".env"), ("", ".env"));
}

#[test]
fn test_split_no_extension() {
    assert_eq!(split_extension("Makefile"), ("Makefile", ""));
    assert_eq!(split_extension("README"), ("README", ""));
}

#[test]
fn test_split_multiple_dots() {
    assert_eq!(split_extension("my.cool.file.txt"), ("my.cool.file", ".txt"));
}

#[test]
fn test_split_dotfile_with_extension() {
    assert_eq!(split_extension(".bashrc"), ("", ".bashrc"));
}

#[test]
fn test_split_dotfile_with_second_extension() {
    assert_eq!(split_extension(".env.local"), (".env", ".local"));
}

#[test]
fn test_split_round_trip_reassembles() {
    for name in [
        "hello.txt",
        "archive.tar.gz",
        ".gitignore",
        "Makefile",
        "my.cool.file.txt",
        ".env.local",
        "",
        ".",
        "..",
        "Archive.TAR.GZ",
        "a.b.c.d.e",
    ] {
        let (base, ext) = split_extension(name);
        assert_eq!(format!("{base}{ext}"), name);
    }
}

#[test]
fn test_split_compound_mixed_case() {
    assert_eq!(split_extension("Archive.TAR.GZ"), ("Archive", ".TAR.GZ"));
}

#[test]
fn test_split_empty_name() {
    assert_eq!(split_extension(""), ("", ""));
}

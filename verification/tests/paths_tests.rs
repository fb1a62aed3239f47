use musync::paths::{extension_of, flatten, to_mp3_extension, undepthify};

fn b(s: &str) -> Vec<u8> {
    s.as_bytes().to_vec()
}

#[test]
fn flatten_deep_path() {
    assert_eq!(flatten(&b("a/b/c/d.flac")), b("a/d.mp3"));
}

#[test]
fn flatten_top_level_file() {
    assert_eq!(flatten(&b("a.flac")), b("a.mp3"));
}

#[test]
fn flatten_single_directory() {
    assert_eq!(flatten(&b("a/b.flac")), b("a/b.mp3"));
}

#[test]
fn flatten_keeps_dotted_stem() {
    assert_eq!(flatten(&b("artist/album/01.track.flac")), b("artist/01.track.mp3"));
}

#[test]
fn undepthify_deep_path() {
    assert_eq!(undepthify(&b("a/b/c/d.flac")), b("a/d.flac"));
}

#[test]
fn undepthify_shallow_paths_unchanged() {
    assert_eq!(undepthify(&b("song.ogg")), b("song.ogg"));
    assert_eq!(undepthify(&b("a/b.ogg")), b("a/b.ogg"));
}

#[test]
fn mp3_extension_substitution() {
    assert_eq!(to_mp3_extension(&b("x/y.aiff")), b("x/y.mp3"));
    assert_eq!(to_mp3_extension(&b("y.tar.gz")), b("y.tar.mp3"));
}

#[test]
fn extension_of_plain_cases() {
    assert_eq!(extension_of(&b("a/b.flac")), Some(b("flac")));
    assert_eq!(extension_of(&b("a.mp3")), Some(b("mp3")));
    assert_eq!(extension_of(&b("README")), None);
    assert_eq!(extension_of(&b(".flac")), None);
    assert_eq!(extension_of(&b("dir.d/file")), None);
}

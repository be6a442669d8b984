use feedscan::classify::{classify, encoding_of, Encoding, ReaderType};

#[test]
fn html_is_chunk() {
    assert_eq!(classify(b"data.html"), Some(ReaderType::Chunk));
}

#[test]
fn html_changed_is_delta() {
    assert_eq!(classify(b"data.html-changed"), Some(ReaderType::Delta));
}

#[test]
fn deleted_is_delete() {
    assert_eq!(classify(b"data.deleted"), Some(ReaderType::Delete));
}

#[test]
fn gz_is_chunk() {
    assert_eq!(classify(b"data.gz"), Some(ReaderType::Chunk));
}

#[test]
fn unknown_extension_is_excluded() {
    assert_eq!(classify(b"data.txt"), None);
    assert_eq!(classify(b"data"), None);
    assert_eq!(classify(b""), None);
    assert_eq!(classify(b"html"), None);
}

#[test]
fn matching_is_case_sensitive() {
    assert_eq!(classify(b"data.HTML"), None);
    assert_eq!(classify(b"data.GZ"), None);
}

#[test]
fn compound_extension_wins_over_plain() {
    // `.html-changed` must not be read as `.html`
    assert_eq!(classify(b"a.html-changed"), Some(ReaderType::Delta));
    assert_eq!(classify(b"a.html.gz"), Some(ReaderType::Chunk));
}

#[test]
fn encoding_follows_gz_suffix() {
    assert_eq!(encoding_of(b"data.gz"), Encoding::Gzip);
    assert_eq!(encoding_of(b"data.html"), Encoding::Raw);
    assert_eq!(encoding_of(b"data.deleted"), Encoding::Raw);
    assert_eq!(encoding_of(b"data.html-changed"), Encoding::Raw);
}

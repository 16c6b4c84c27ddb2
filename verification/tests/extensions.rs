use exifmv::extensions::{has_image_extension, is_image_extension_name};

#[test]
fn image_extension_case_insensitive() {
    assert!(has_image_extension(b"IMG_1234.JPG"));
    assert!(has_image_extension(b"foo1234.arw"));
    assert!(has_image_extension(b"clip.Mp4"));
    assert!(has_image_extension(b"a.b.HEIC"));
    // The Kelvin sign lowercases to `k`.
    assert!(has_image_extension("x.\u{212A}25".as_bytes()));
    // Only the extension has to be valid UTF-8.
    assert!(has_image_extension(b"\xff\xfe.png"));
}

#[test]
fn non_image_files() {
    assert!(!has_image_extension(b"notes.txt"));
    assert!(!has_image_extension(b"IMG_1234.jpg.xmp"));
    assert!(!has_image_extension(b"noext"));
    assert!(!has_image_extension(b".jpg"));
    assert!(!has_image_extension(b"jpg"));
    assert!(!has_image_extension(b""));
    assert!(!has_image_extension(b"a."));
    assert!(!has_image_extension(b"a.jp\xffg"));
}

#[test]
fn extension_list() {
    for e in ["3fr", "x3f", "avif", "webp", "tiff", "264", "yuv", "jpg", "png"] {
        assert!(is_image_extension_name(e), "{e}");
    }
    for e in ["JPG", "xmp", "", "jp", "jpgg"] {
        assert!(!is_image_extension_name(e), "{e}");
    }
}

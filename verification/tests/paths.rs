use exifmv::naming::numbered_path;
use exifmv::path::{
    components, extension_of_name, file_name, file_stem_of, paths_equal, push_name, with_file_name,
};

fn comps(p: &str) -> Vec<String> {
    components(p.as_bytes()).into_iter().map(|c| String::from_utf8(c).unwrap()).collect()
}

fn text(v: Vec<u8>) -> String {
    String::from_utf8(v).unwrap()
}

#[test]
fn path_components_like_std() {
    assert_eq!(comps("a/b/c"), vec!["a", "b", "c"]);
    assert_eq!(comps("/a//b/"), vec!["/", "a", "b"]);
    assert_eq!(comps("./a/./b/."), vec![".", "a", "b"]);
    assert_eq!(comps("a/../b"), vec!["a", "..", "b"]);
    assert_eq!(comps(""), Vec::<String>::new());
    assert_eq!(comps("/"), vec!["/"]);
    assert_eq!(comps("."), vec!["."]);
    assert_eq!(comps(".hidden/x"), vec![".hidden", "x"]);
    for p in ["a/b/c", "/a//b/", "./a/./b/.", "a/../b", "", "/", ".", "..", "x/.y.z", "//a", "./", ".//a"] {
        let std: Vec<String> = std::path::Path::new(p)
            .components()
            .map(|c| c.as_os_str().to_str().unwrap().to_string())
            .collect();
        assert_eq!(comps(p), std, "{p}");
    }
}

#[test]
fn path_file_name_stem_extension() {
    assert_eq!(file_name(b"a/b.jpg"), Some(&b"b.jpg"[..]));
    assert_eq!(file_name(b"a/b/"), Some(&b"b"[..]));
    assert_eq!(file_name(b"a/b/."), Some(&b"b"[..]));
    assert_eq!(file_name(b"a/.."), None);
    assert_eq!(file_name(b"/"), None);
    assert_eq!(file_name(b""), None);
    assert_eq!(file_stem_of(b"a.tar.gz"), b"a.tar");
    assert_eq!(file_stem_of(b".bashrc"), b".bashrc");
    assert_eq!(file_stem_of(b"plain"), b"plain");
    assert_eq!(extension_of_name(b"a.tar.gz"), Some(&b"gz"[..]));
    assert_eq!(extension_of_name(b".bashrc"), None);
    assert_eq!(extension_of_name(b"foo."), Some(&b""[..]));
    assert_eq!(extension_of_name(b"plain"), None);
}

#[test]
fn path_with_file_name_like_std() {
    for (p, n) in [
        ("a/b.jpg", "c.png"),
        ("b.jpg", "c"),
        ("/b", "c"),
        ("a//b/", "c"),
        ("./b", "c"),
        ("/", "c"),
        ("a/..", "c"),
        ("", "c"),
        ("a/b", "/abs"),
        ("a/./b/.", "c"),
    ] {
        let std = std::path::Path::new(p).with_file_name(n);
        assert_eq!(text(with_file_name(p.as_bytes(), n.as_bytes())), std.to_str().unwrap(), "{p} {n}");
    }
    assert_eq!(push_name(b"a", b"b"), b"a/b");
    assert_eq!(push_name(b"a/", b"b"), b"a/b");
    assert_eq!(push_name(b"", b"b"), b"b");
    assert_eq!(push_name(b"a", b"/b"), b"/b");
}

#[test]
fn paths_equal_by_components() {
    assert!(paths_equal(b"a/b", b"a//b/"));
    assert!(paths_equal(b"a/./b", b"a/b"));
    assert!(!paths_equal(b"a/b", b"./a/b"));
    assert!(!paths_equal(b"/a", b"a"));
    assert!(!paths_equal(b"a/../b", b"b"));
}

#[test]
fn numbered_path_examples() {
    assert_eq!(text(numbered_path(b"IMG_1234.jpg", 1)), "IMG_1234_1.jpg");
    assert_eq!(text(numbered_path(b"2020/08/15/foo1234.arw", 2)), "2020/08/15/foo1234_2.arw");
    assert_eq!(text(numbered_path(b"dir/a.tar.gz", 10)), "dir/a.tar_10.gz");
    assert_eq!(text(numbered_path(b".bashrc", 3)), ".bashrc_3");
    assert_eq!(text(numbered_path(b"foo.", 1)), "foo_1.");
    assert_eq!(text(numbered_path(b"noext", 4294967295)), "noext_4294967295");
    assert_eq!(text(numbered_path(b"/", 1)), "/_1");
    assert_eq!(numbered_path(b"d/\xff.jpg", 1), b"d/\xff_1.jpg");
}

#[test]
fn numbered_path_like_std() {
    fn reference(dest: &str, n: u32) -> String {
        let dest = std::path::Path::new(dest);
        let mut name = dest.file_stem().unwrap_or(dest.as_os_str()).to_os_string();
        name.push(format!("_{}", n));
        if let Some(extension) = dest.extension() {
            name.push(".");
            name.push(extension);
        }
        dest.with_file_name(name).to_str().unwrap().to_string()
    }
    for p in ["IMG_1.JPG", "a/b/c.d.e", "a//b.x/", "./x.y", "/r.z", "a/..", "..", ".", "", "x/.y"] {
        for n in [0u32, 1, 9, 10, 123] {
            assert_eq!(text(numbered_path(p.as_bytes(), n)), reference(p, n), "{p} {n}");
        }
    }
}

#[test]
fn numbered_names_are_distinct() {
    let names: Vec<Vec<u8>> = (1..50).map(|n| numbered_path(b"x/IMG.jpg", n)).collect();
    for i in 0..names.len() {
        for j in 0..i {
            assert_ne!(names[i], names[j]);
        }
    }
}

#[test]
fn numbered_paths_are_other_paths() {
    for dest in ["out/IMG_1234.jpg", "/a//b/./IMG.tar.gz", "x/.hidden", "photo", "a/b/"] {
        let d = dest.as_bytes();
        for n in 1..5u32 {
            let p = numbered_path(d, n);
            assert!(!paths_equal(&p, d), "{dest} {n}");
            for m in (n + 1)..6u32 {
                assert!(!paths_equal(&p, &numbered_path(d, m)), "{dest} {n} {m}");
            }
        }
    }
}

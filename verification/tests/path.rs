use cull::path::{canonical_text, extension, file_name, sort_key};

#[test]
fn file_names_are_final_components() {
    assert_eq!(file_name("/a/b.jpg"), Some("b.jpg".to_string()));
    assert_eq!(file_name("/a/b/"), Some("b".to_string()));
    assert_eq!(file_name("a/."), Some("a".to_string()));
    assert_eq!(file_name("/"), None);
    assert_eq!(file_name("a/.."), None);
}

#[test]
fn paths_agree_with_std() {
    let all = ["/a/b", "/a//b/", "/a/./b", "a/b", "./a/b", "/a-b", "/a", "/", "", "..", "a/../b"];
    for x in all {
        for y in all {
            let (p, q) = (std::path::Path::new(x), std::path::Path::new(y));
            assert_eq!(canonical_text(x) == canonical_text(y), p == q, "{x} {y}");
            assert_eq!(sort_key(x) < sort_key(y), p < q, "{x} {y}");
        }
        let p = std::path::Path::new(x);
        assert_eq!(file_name(x).as_deref(), p.file_name().map(|n| n.to_str().unwrap()), "{x}");
    }
    for x in ["/a/b.JPG", "b.tar.gz", ".hidden", "b.", "b", "/a.b/c"] {
        let p = std::path::Path::new(x);
        let ours: Option<String> = extension(x).map(|v| v.into_iter().collect());
        assert_eq!(ours.as_deref(), p.extension().map(|n| n.to_str().unwrap()), "{x}");
    }
}

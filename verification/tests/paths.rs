use std::path::Path;
use vkslang::path::{extension, join_text, name, parent, parts, rename, stem, under_root};

fn c(s: &str) -> Vec<char> {
    s.chars().collect()
}

fn t(v: &[char]) -> String {
    v.iter().collect()
}

const ALL: [&str; 34] = [
    "", "/", "//", ".", "..", "./", "/.", "/..", "a", "a/", "a//", "a/.", "./a", "/a", "//a", "/a/",
    "/a/b", "/a//b", "a/./b", "a/../b", "/a/./b/.", "a.b", ".a", ".a.b", "a.", "a..b", "/x/y.slangp",
    "..a", "...", "a/..", "./.", "a/b/c.d/e", "/./a", "//./a/",
];

#[test]
fn paths_match_the_standard_library() {
    for s in ALL {
        let p = Path::new(s);
        let text = |o: Option<&Path>| o.map(|x| x.to_str().unwrap().to_string());
        assert_eq!(
            name(&c(s)).map(t),
            p.file_name().map(|n| n.to_str().unwrap().to_string()),
            "name of {s:?}"
        );
        assert_eq!(parent(&c(s)).map(t), text(p.parent()), "parent of {s:?}");
        assert_eq!(under_root(&c(s)).map(t), text(p.strip_prefix("/").ok()), "{s:?} below the root");
        let want: Vec<String> = p.iter().map(|x| x.to_str().unwrap().to_string()).collect();
        let got: Vec<String> = parts(&c(s)).iter().map(|x| t(x)).collect();
        assert_eq!(got, want, "components of {s:?}");
        if let Some(n) = p.file_name() {
            let n = n.to_str().unwrap();
            let q = Path::new(n);
            assert_eq!(t(stem(&c(n))), q.file_stem().unwrap().to_str().unwrap(), "stem of {n:?}");
            assert_eq!(
                extension(&c(n)).map(t),
                q.extension().map(|e| e.to_str().unwrap().to_string()),
                "extension of {n:?}"
            );
        }
        for r in ["x", "/x", "", "x/y"] {
            assert_eq!(join_text(s, r), p.join(r).to_str().unwrap(), "{s:?} and {r:?}");
        }
        assert_eq!(t(&rename(&c(s), &c("new"))), p.with_file_name("new").to_str().unwrap(), "{s:?} renamed");
    }
}

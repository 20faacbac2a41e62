use clean_code::keyed::{insert_distinct, position_of};
use clean_code::path::{bytes_equal, copy_range, is_blocked_path, metadata_dir, FsPath};

fn p(text: &str) -> FsPath {
    FsPath::from_text(text)
}

fn raw(dir: &str, rest: &str) -> FsPath {
    p(dir).join(&rest.as_bytes().to_vec())
}

#[test]
fn a_path_in_normal_form_keeps_its_bytes() {
    assert_eq!(*p("/a/b").as_bytes(), b"/a/b".to_vec());
    assert_eq!(*FsPath::new(vec![47, 97]).as_bytes(), vec![47, 97]);
    assert_eq!(*p("").as_bytes(), Vec::<u8>::new());
    assert_eq!(*p("/").as_bytes(), b"/".to_vec());
    assert_eq!(*p("a/../b").as_bytes(), b"a/../b".to_vec());
    assert_eq!(*p("./a").as_bytes(), b"./a".to_vec());
}

#[test]
fn spellings_of_one_path_make_one_path() {
    for text in ["/a/t", "/a/t/", "/a//t", "//a/t", "/a/./t", "/a/t/.", "/./a/t//./"] {
        assert_eq!(p(text), p("/a/t"), "{text}");
        assert!(p(text).same(&p("/a/t")), "{text}");
    }
    assert_eq!(p("a/./b/"), p("a/b"));
    assert_eq!(p("./."), p("."));
    assert_eq!(p(".//a"), p("./a"));
    assert_eq!(p("//"), p("/"));
    assert_eq!(p("/."), p("/"));
    assert_eq!(FsPath::new(b"/a/t/".to_vec()), FsPath::new(b"/a/t".to_vec()));
}

#[test]
fn the_normal_form_is_that_of_the_components() {
    let texts = [
        "", "/", "//", "///", ".", "./", "./.", "..", "../", "a", "a/", "a//", "a/.", "a/./", "./a",
        ".//a", "/a", "//a", "/a/", "/a/b", "/a//b", "/a/./b", "/a/b/.", "/a/b/./", "/./a", "/.",
        "/..", "/a/..", "a/../b", "a/.../b", ".a", "a.", "/.a/.b", "/a/.git/", "/a/.git/.", "/a/.git//",
        "a/b/c/../..", "....", "./..", "../.",
    ];
    for text in texts {
        let expected: std::path::PathBuf = std::path::Path::new(text).components().collect();
        assert_eq!(
            *p(text).as_bytes(),
            expected.as_os_str().as_encoded_bytes().to_vec(),
            "{text:?}"
        );
    }
}

#[test]
fn same_holds_of_one_path_however_it_was_written() {
    assert!(p("/a/b").same(&p("/a/b")));
    assert!(!p("/a/b").same(&p("/a/c")));
    assert!(p("/a/b").same(&raw("/a", "b/")));
    assert!(p("/a/b").same(&p("/a//b/.")));
    assert!(!p("/a/b").same(&p("/a/b/..")));
    assert!(p("").same(&p("")));
}

#[test]
fn join_adds_a_component_and_keeps_the_normal_form() {
    assert_eq!(*p("/a").join(&b"b".to_vec()).as_bytes(), b"/a/b".to_vec());
    assert_eq!(*p("/").join(&b"b".to_vec()).as_bytes(), b"/b".to_vec());
    assert_eq!(*p("").join(&b"b".to_vec()).as_bytes(), b"b".to_vec());
    assert_eq!(*p("/a").join(&b"..".to_vec()).as_bytes(), b"/a/..".to_vec());
    assert_eq!(*p("/a").join(&b"b//c/.".to_vec()).as_bytes(), b"/a/b/c".to_vec());
    assert_eq!(*p("/a").join(&b".".to_vec()).as_bytes(), b"/a".to_vec());
    assert_eq!(*p("/a").join(&b"".to_vec()).as_bytes(), b"/a".to_vec());
    assert_eq!(*p("/a").join(&b".git/".to_vec()).as_bytes(), b"/a/.git".to_vec());
}

#[test]
fn parents_and_remainders_stay_in_normal_form() {
    let path = p("/a//b/./c/");
    let parent = path.parent().unwrap();
    assert_eq!(*parent.as_bytes(), b"/a/b".to_vec());
    assert_eq!(parent.normalized(), parent);
    let rest = path.strip_prefix(&p("/a/")).unwrap();
    assert_eq!(*rest.as_bytes(), b"b/c".to_vec());
    assert_eq!(rest.normalized(), rest);
    assert_eq!(p("/a/b").parent().unwrap().parent().unwrap(), p("/"));
    assert!(p("/").parent().is_none());
}

#[test]
fn a_directory_comes_before_what_it_holds() {
    assert!(p("/a").precedes(&p("/a/b")));
    assert!(!p("/a/b").precedes(&p("/a")));
    assert!(!p("/a").precedes(&p("/a")));
}

#[test]
fn the_separator_sorts_before_every_other_byte() {
    assert!(p("/a/b").precedes(&p("/a-b")));
    assert!(!p("/a-b").precedes(&p("/a/b")));
    assert!(p("/a/z").precedes(&p("/a!")));
    assert!(p("/a!").precedes(&p("/a\"")));
    assert!(p("/a").precedes(&p("/b")));
    assert!(p("").precedes(&p("/")));
}

#[test]
fn the_order_agrees_with_the_order_of_components() {
    let texts = [
        "/", "/a", "/a/b", "/a/b/c", "/a-b", "/a.b", "/a/b-c", "/ab", "/b", "/a!", "/a/!", "/a b",
        "/a/b c", "/a0", "/a/0",
    ];
    for x in texts {
        for y in texts {
            let by_components = std::path::Path::new(x) < std::path::Path::new(y);
            assert_eq!(p(x).precedes(&p(y)), by_components, "{x} and {y}");
        }
    }
}

#[test]
fn the_final_component_starts_behind_the_last_separator() {
    assert_eq!(p("/a/bc").final_component_index(), 3);
    assert_eq!(p("abc").final_component_index(), 0);
    assert_eq!(p("/").final_component_index(), 1);
    assert_eq!(p("").final_component_index(), 0);
    assert_eq!(raw("/", "a/").final_component_index(), 1);
    assert_eq!(p("/a/bc").final_component_end_index(), 5);
    assert_eq!(raw("/a", "bc/").final_component_end_index(), 5);
    assert_eq!(raw("/a", "bc//./").final_component_end_index(), 5);
    assert_eq!(raw("/a", "bc./").final_component_end_index(), 6);
    assert_eq!(raw("/a", "..").final_component_end_index(), 5);
    assert_eq!(p("/").final_component_end_index(), 0);
    assert_eq!(p(".").final_component_end_index(), 0);
    assert_eq!(p("").final_component_end_index(), 0);
}

#[test]
fn every_spelling_of_the_metadata_directory_is_blocked() {
    for rest in [".git", ".git/", ".git//", ".git/.", ".git/./", ".git/././/"] {
        let path = raw("/r", rest);
        assert!(is_blocked_path(&path), "{rest}");
        assert!(path.ends_in(&b".git".to_vec()), "{rest}");
        let name = std::path::Path::new("/r").join(rest).file_name().map(|n| n.as_encoded_bytes().to_vec());
        assert_eq!(name, Some(b".git".to_vec()));
    }
    for rest in [".git/..", ".git/x", ".gitx/", "x.git/.", ".git./", "..git"] {
        assert!(!is_blocked_path(&raw("/r", rest)), "{rest}");
    }
    for text in ["/r/.git/", "/r//.git", "/r/./.git/.", ".git/", "/.git//"] {
        assert!(is_blocked_path(&p(text)), "{text}");
    }
}

#[test]
fn the_final_component_agrees_with_the_standard_library() {
    let rests = [
        "a", "a/", "a//", "a/.", "a/./", "a/b", "a/b/.", ".", "./", "..", "a/..", "a.", ".a", "a/.b/",
        ".git", ".git/", ".git/.",
    ];
    for rest in rests {
        let name = std::path::Path::new("/r").join(rest).file_name().map(|n| n.as_encoded_bytes().to_vec());
        if let Some(name) = name {
            assert!(raw("/r", rest).ends_in(&name), "{rest}");
        }
    }
}

#[test]
fn ends_in_looks_at_the_final_component_only() {
    assert!(p("/a/target").ends_in(&b"target".to_vec()));
    assert!(p("target").ends_in(&b"target".to_vec()));
    assert!(!p("/a/xtarget").ends_in(&b"target".to_vec()));
    assert!(!p("/a/target/b").ends_in(&b"target".to_vec()));
    assert!(!p("/a/targe").ends_in(&b"target".to_vec()));
}

#[test]
fn the_metadata_directory_is_blocked() {
    assert_eq!(metadata_dir(), b".git".to_vec());
    assert!(is_blocked_path(&p("/repo/.git")));
    assert!(is_blocked_path(&p(".git")));
    assert!(is_blocked_path(&p("/.git")));
    assert!(!is_blocked_path(&p("/repo/.git/objects")));
    assert!(!is_blocked_path(&p("/repo/.github")));
    assert!(!is_blocked_path(&p("/repo/x.git")));
    assert!(!is_blocked_path(&p("/repo/target")));
    assert!(!is_blocked_path(&p("")));
}

#[test]
fn parent_drops_the_final_component() {
    assert_eq!(p("/a/b").parent(), Some(p("/a")));
    assert_eq!(p("/a").parent(), Some(p("/")));
    assert_eq!(p("/").parent(), None);
    assert_eq!(p("a/b").parent(), Some(p("a")));
    assert_eq!(p("a").parent(), Some(p("")));
    assert_eq!(p("").parent(), None);
}

#[test]
fn parent_agrees_with_the_standard_library() {
    for text in ["/a/b/c", "/a/b", "/a", "/", "a/b", "a", "", "/usr/lib/x.y"] {
        let expected = std::path::Path::new(text).parent().map(|d| p(d.to_str().unwrap()));
        assert_eq!(p(text).parent(), expected, "{text}");
    }
}

#[test]
fn join_puts_a_separator_between() {
    assert_eq!(p("/a").join(&b"b".to_vec()), p("/a/b"));
    assert_eq!(p("/").join(&b"b".to_vec()), p("/b"));
    assert_eq!(p("").join(&b"b".to_vec()), p("b"));
    assert_eq!(p("/a/").join(&b"b".to_vec()), p("/a/b"));
    assert_eq!(p("/repo").join(&metadata_dir()), p("/repo/.git"));
}

#[test]
fn strip_prefix_takes_whole_components() {
    assert_eq!(p("/a/b/c").strip_prefix(&p("/a")), Some(p("b/c")));
    assert_eq!(p("/a/b").strip_prefix(&p("/a/b")), Some(p("")));
    assert_eq!(p("/a/b").strip_prefix(&p("/")), Some(p("a/b")));
    assert_eq!(p("/a/b").strip_prefix(&p("")), Some(p("/a/b")));
    assert_eq!(p("/ab/c").strip_prefix(&p("/a")), None);
    assert_eq!(p("/a").strip_prefix(&p("/a/b")), None);
    assert_eq!(p("/x/b").strip_prefix(&p("/a")), None);
}

#[test]
fn strip_prefix_agrees_with_the_standard_library() {
    let texts = ["/", "/a", "/a/b", "/a/b/c", "/ab", "/ab/c", "a", "a/b", "b", ""];
    for base in texts {
        for path in texts {
            let expected = std::path::Path::new(path)
                .strip_prefix(std::path::Path::new(base))
                .ok()
                .map(|r| p(r.to_str().unwrap()));
            assert_eq!(p(path).strip_prefix(&p(base)), expected, "{path} from {base}");
        }
    }
}

#[test]
fn clone_copies_the_path() {
    let first = p("/a/b");
    let copy = first.clone();
    assert_eq!(copy, first);
}

#[test]
fn bytes_equal_and_copy_range() {
    assert!(bytes_equal(&vec![1, 2, 3], &vec![1, 2, 3]));
    assert!(!bytes_equal(&vec![1, 2, 3], &vec![1, 2]));
    assert!(!bytes_equal(&vec![1, 2, 3], &vec![1, 2, 4]));
    assert_eq!(copy_range(&vec![1, 2, 3, 4], 1, 3), vec![2, 3]);
    assert_eq!(copy_range(&vec![1, 2, 3, 4], 2, 2), Vec::<u8>::new());
    assert_eq!(copy_range(&vec![1, 2, 3, 4], 0, 4), vec![1, 2, 3, 4]);
}

#[test]
fn position_of_finds_the_first_with_the_path() {
    let list = vec![p("/a"), p("/b"), p("/a")];
    assert_eq!(position_of(&list, &p("/a")), Some(0));
    assert_eq!(position_of(&list, &p("/b")), Some(1));
    assert_eq!(position_of(&list, &p("/c")), None);
}

#[test]
fn insert_distinct_keeps_order_and_drops_repeats() {
    let mut list: Vec<FsPath> = Vec::new();
    assert!(insert_distinct(&mut list, p("/m")));
    assert!(insert_distinct(&mut list, p("/z")));
    assert!(insert_distinct(&mut list, p("/a")));
    assert!(!insert_distinct(&mut list, p("/m")));
    assert!(insert_distinct(&mut list, p("/m/x")));
    assert_eq!(list, vec![p("/a"), p("/m"), p("/m/x"), p("/z")]);
}

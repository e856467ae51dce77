use labs::filesystem::{Dir, File, FileSystem, FileType, MatchResult, Node};

fn text_file(path: &str, text: &str, created: u64) -> File {
    File::from_parts(path, text.as_bytes().to_vec(), created)
}

fn sample() -> FileSystem {
    let inner = Dir::with_children(
        "docs",
        10,
        vec![Node::File(text_file("b.txt", "hello world", 200)), Node::File(File::from_parts("c.bin", vec![0, 1, 2], 50))],
    );
    let root = Dir::with_children("root", 0, vec![Node::File(text_file("a.txt", "ciao mondo", 100)), Node::Dir(inner)]);
    FileSystem::from_dir(root)
}

#[test]
fn file_type_follows_the_extension() {
    assert_eq!(text_file("x/y/notes.txt", "", 0).file_type(), FileType::Text);
    assert_eq!(File::from_parts("image.png", vec![], 0).file_type(), FileType::Binary);
    assert_eq!(File::from_parts("txt", vec![], 0).file_type(), FileType::Text);
    let f = text_file("a.txt", "abc", 7);
    assert_eq!(f.name(), "a.txt");
    assert_eq!(f.content(), &b"abc".to_vec());
    assert_eq!(f.creation_time(), 7);
}

#[test]
fn content_bound() {
    assert_eq!(File::bound(3), 3);
    assert!(File::bound(usize::MAX) < usize::MAX);
}

#[test]
fn check_lists_the_answered_queries() {
    let f = text_file("a.txt", "ciao mondo", 100);
    let qs = ["content:mondo", "larger:100", "smaller:100", "name:a.txt", "older"];
    assert_eq!(MatchResult::check_at(&qs, &f, 150), Some(vec!["content:mondo", "smaller:100", "name:a.txt", "older"]));
    assert_eq!(MatchResult::check_at(&qs[1..2], &f, 150), None);
    assert_eq!(MatchResult::check_at(&["newer"], &f, 100), Some(vec!["newer"]));
    assert_eq!(MatchResult::check_at(&["bogus"], &f, 100), None);
}

#[test]
fn recursive_search_finds_files_in_subdirectories() {
    let fs = sample();
    let qs = ["content:world", "smaller:5"];
    let r = fs.search_r_at(&qs, 0).unwrap();
    let names: Vec<&String> = r.nodes.iter().map(|f| f.name()).collect();
    assert_eq!(names, vec!["b.txt", "c.bin"]);
    assert_eq!(r.queries, vec!["content:world", "smaller:5"]);
    assert!(fs.search_r_at(&["name:zzz"], 0).is_none());
}

#[test]
fn iterative_search_when_every_file_answers() {
    let fs = sample();
    let qs = ["larger:0"];
    let r = fs.search_at(&qs, 0).unwrap();
    assert_eq!(r.nodes.len(), 3);
    assert_eq!(r.queries, vec!["larger:0"]);
}

#[test]
fn search_now_gives_none_when_some_file_answers_nothing() {
    let fs = sample();
    assert!(fs.search(&["name:a.txt"]).is_none());
    assert!(fs.search(&["larger:0"]).is_some());
}

#[test]
fn make_and_remove_entries_at_the_root() {
    let mut fs = FileSystem::new();
    assert_eq!(fs.mk_dir("sub", Dir::with_children("sub", 1, vec![])), "sub");
    fs.new_file("a.txt", text_file("a.txt", "x", 2));
    assert!(fs.get_file("sub").is_none());
    {
        let f = fs.get_file("a.txt").unwrap();
        assert_eq!(f.content(), &b"x".to_vec());
    }
    fs.rm_file("a.txt");
    assert!(fs.get_file("a.txt").is_none());
    fs.rm_dir("sub");
    assert!(FileSystem::get_path("a/b/c").is_empty());
}

#[test]
fn nodes_tell_files_from_directories() {
    let mut n = Node::File(text_file("a.txt", "", 0));
    assert!(n.is_file());
    assert!(!n.is_dir());
    assert!(n.is_file_mut());
    assert!(n.get_file().is_some());
    assert!(n.get_dir().is_none());
    assert!(n.get_mut_file().is_some());
    assert!(n.get_mut_dir().is_none());
    assert_eq!(n.get_name(), "a.txt");
    let mut d = Node::Dir(Dir::with_children("d", 0, vec![]));
    assert!(d.is_dir_mut());
    assert!(d.get_mut_dir().is_some());
}

#[test]
fn directory_children_by_name() {
    let mut d = Dir::with_children("d", 0, vec![Node::File(text_file("a.txt", "", 0))]);
    d.add_child(Node::File(text_file("b.txt", "", 0)));
    assert_eq!(d.get_index_by_name(&"b.txt".to_string()), Some(1));
    assert_eq!(d.get_index_by_name(&"c.txt".to_string()), None);
    let fs = FileSystem::from(d);
    assert!(fs.search_r_at(&["name:b.txt"], 0).is_some());
}

#[test]
fn queries_that_can_be_put() {
    let fs = sample();
    assert!(fs.queries_defined(&["larger:3", "content:x", "older", "whatever"]));
    assert!(!fs.queries_defined(&["larger:x"]));
    assert!(!fs.queries_defined(&["name"]));
    let bad = FileSystem::from_dir(Dir::with_children("r", 0, vec![Node::File(File::from_parts("b.txt", vec![0xff], 0))]));
    assert!(!bad.queries_defined(&["content:x"]));
    assert!(bad.queries_defined(&["newer"]));
    assert!(fs.has_entry("a.txt"));
    assert!(fs.has_entry("docs"));
    assert!(!fs.has_entry("b.txt"));
}

#[test]
fn both_searches_find_the_same_files_and_queries() {
    let fs = sample();
    let qs = ["larger:0", "older", "name:a.txt"];
    let iterative = fs.search_at(&qs, 150).unwrap();
    let recursive = fs.search_r_at(&qs, 150).unwrap();
    let mut a: Vec<&String> = iterative.nodes.iter().map(|f| f.name()).collect();
    let mut b: Vec<&String> = recursive.nodes.iter().map(|f| f.name()).collect();
    a.sort();
    b.sort();
    assert_eq!(a, b);
    let mut qa = iterative.queries.clone();
    let mut qb = recursive.queries.clone();
    qa.sort();
    qb.sort();
    assert_eq!(qa, qb);
}

#[test]
fn every_file_answers_some_query() {
    let fs = sample();
    assert!(fs.every_file_answers(&["larger:0"], 0));
    assert!(!fs.every_file_answers(&["name:a.txt"], 0));
    assert!(fs.every_file_answers(&["newer", "older"], 75));
    assert!(!fs.every_file_answers(&["newer"], 75));
}

#[test]
fn content_is_cut_at_the_size_limit() {
    let f = File::from_parts("big.bin", vec![7u8; 1500], 0);
    assert_eq!(f.content().len(), 1000);
    let g = File::from_parts("small.bin", vec![7u8; 10], 0);
    assert_eq!(g.content().len(), 10);
}

#[test]
fn recursive_search_of_a_lone_file() {
    let mut fs = FileSystem::new();
    fs.new_file("", File::default());
    let m = fs.search_r(&["larger:0", "larger:1"]).unwrap();
    assert_eq!(m.queries, vec!["larger:0"]);
    assert_eq!(m.nodes.len(), 1);
    assert_eq!(*m.nodes[0], File::default());
    assert!(fs.search_r(&["larger:1"]).is_none());
}

#[test]
fn both_searches_fail_on_an_empty_tree() {
    let fs = FileSystem::new();
    assert!(fs.search(&["larger:0"]).is_none());
    assert!(fs.search_r(&["larger:0"]).is_none());
}

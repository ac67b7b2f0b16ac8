use media_scanner::engine::{find_duplicate_files, flatten_forest, get_items_by_hash, Match};
use media_scanner::entry::Entry;
use media_scanner::fingerprint::Fingerprint;
use media_scanner::names::{contains_bytes, find_matching_files};
use media_scanner::reconcile::deletion_candidates;

fn file(name: &str, path: &str, level: u8, content: &[u8]) -> Entry {
    let bytes: Vec<u8> = content.to_vec();
    Entry::new_file(String::from(name), String::from(path), level, Some(&bytes))
}

fn unreadable(name: &str, path: &str, level: u8) -> Entry {
    Entry::new_file(String::from(name), String::from(path), level, None)
}

fn dir(name: &str, path: &str, level: u8, children: Vec<Entry>) -> Entry {
    Entry::new_dir(String::from(name), String::from(path), level, children)
}

fn hex_of(f: &Fingerprint) -> String {
    String::from_utf8(f.to_hex()).unwrap()
}

fn group_summary(g: &Match) -> (String, Vec<(String, String)>) {
    let key = hex_of(g.hash.as_ref().unwrap());
    let members = g
        .matches
        .iter()
        .map(|m| (m.name.clone(), m.path.clone()))
        .collect();
    (key, members)
}

/// The sample tree of the specification: `a.txt` and `sub/b.txt` hold the
/// same bytes, `c.txt` holds different ones.
fn sample_tree() -> Vec<Entry> {
    vec![
        file("a.txt", "/root/a.txt", 0, b"hello"),
        dir(
            "sub",
            "/root/sub",
            0,
            vec![file("b.txt", "/root/sub/b.txt", 1, b"hello")],
        ),
        file("c.txt", "/root/c.txt", 0, b"world"),
    ]
}

#[test]
fn identical_content_identical_fingerprint() {
    let a = Fingerprint::of_content(&b"some bytes".to_vec());
    let b = Fingerprint::of_content(&b"some bytes".to_vec());
    assert!(a.same(&b));
    assert_eq!(hex_of(&a), hex_of(&b));
}

#[test]
fn differing_content_differing_fingerprint() {
    let a = Fingerprint::of_content(&b"some bytes".to_vec());
    let b = Fingerprint::of_content(&b"some byteZ".to_vec());
    let empty = Fingerprint::of_content(&Vec::new());
    assert!(!a.same(&b));
    assert!(!a.same(&empty));
}

#[test]
fn fingerprint_matches_reference_digest() {
    let content = b"hello".to_vec();
    let ours = Fingerprint::of_content(&content);
    let reference = blake3::hash(b"hello");
    assert_eq!(hex_of(&ours), reference.to_hex().to_string());
    assert_eq!(ours.bytes.as_slice(), reference.as_bytes());
}

#[test]
fn hex_of_known_bytes() {
    let f = Fingerprint {
        bytes: vec![0x00, 0x01, 0x0f, 0x10, 0xab, 0xff],
    };
    assert_eq!(hex_of(&f), "00010f10abff");
}

#[test]
fn flattening_visits_every_file_once() {
    let flat = flatten_forest(sample_tree());
    assert_eq!(flat.len(), 4);
    let files: Vec<&str> = flat
        .iter()
        .filter(|r| r.is_file)
        .map(|r| r.name.as_str())
        .collect();
    assert_eq!(files, vec!["a.txt", "b.txt", "c.txt"]);
    let names: Vec<&str> = flat.iter().map(|r| r.name.as_str()).collect();
    assert_eq!(names, vec!["a.txt", "sub", "b.txt", "c.txt"]);
}

#[test]
fn duplicate_search_finds_one_group() {
    let groups = find_duplicate_files(sample_tree()).unwrap();
    assert_eq!(groups.len(), 1);
    let (key, members) = group_summary(&groups[0]);
    assert_eq!(key, blake3::hash(b"hello").to_hex().to_string());
    assert_eq!(
        members,
        vec![
            (String::from("a.txt"), String::from("/root/a.txt")),
            (String::from("b.txt"), String::from("/root/sub/b.txt")),
        ]
    );
}

#[test]
fn every_group_has_two_members_with_the_key_fingerprint() {
    let tree = vec![
        file("x1", "/r/x1", 0, b"xx"),
        file("y1", "/r/y1", 0, b"yy"),
        file("x2", "/r/x2", 0, b"xx"),
        file("y2", "/r/y2", 0, b"yy"),
        file("x3", "/r/x3", 0, b"xx"),
        file("z", "/r/z", 0, b"zz"),
    ];
    let groups = find_duplicate_files(tree).unwrap();
    assert_eq!(groups.len(), 2);
    for g in &groups {
        assert!(g.hash.is_some());
        assert!(g.matches.len() >= 2);
    }
    let (xkey, xmembers) = group_summary(&groups[0]);
    assert_eq!(xkey, blake3::hash(b"xx").to_hex().to_string());
    assert_eq!(xmembers.len(), 3);
    let (ykey, ymembers) = group_summary(&groups[1]);
    assert_eq!(ykey, blake3::hash(b"yy").to_hex().to_string());
    assert_eq!(ymembers.len(), 2);
}

#[test]
fn duplicate_search_is_idempotent() {
    let first = find_duplicate_files(sample_tree()).unwrap();
    let second = find_duplicate_files(sample_tree()).unwrap();
    let a: Vec<_> = first.iter().map(group_summary).collect();
    let b: Vec<_> = second.iter().map(group_summary).collect();
    assert_eq!(a, b);
}

#[test]
fn name_search_is_case_insensitive() {
    let tree = vec![
        file("img_001.jpg", "/r/img_001.jpg", 0, b"pic"),
        file("IMG_002.JPG", "/r/IMG_002.JPG", 0, b"pic"),
        file("note.txt", "/r/note.txt", 0, b"pic"),
    ];
    let groups = find_matching_files(tree, String::from("IMG")).unwrap();
    assert_eq!(groups.len(), 1);
    let (_, members) = group_summary(&groups[0]);
    assert_eq!(
        members,
        vec![
            (
                String::from("img_001.jpg"),
                String::from("/r/img_001.jpg")
            ),
            (
                String::from("IMG_002.JPG"),
                String::from("/r/IMG_002.JPG")
            ),
        ]
    );
    let lower = find_matching_files(
        vec![
            file("img_001.jpg", "/r/img_001.jpg", 0, b"pic"),
            file("IMG_002.JPG", "/r/IMG_002.JPG", 0, b"pic"),
            file("note.txt", "/r/note.txt", 0, b"pic"),
        ],
        String::from("img"),
    )
    .unwrap();
    assert_eq!(lower.len(), 1);
    assert_eq!(lower[0].matches.len(), 2);
}

#[test]
fn name_search_suppresses_singletons() {
    let tree = vec![
        file("img_001.jpg", "/r/img_001.jpg", 0, b"one"),
        file("img_002.jpg", "/r/img_002.jpg", 0, b"two"),
    ];
    let groups = find_matching_files(tree, String::from("img")).unwrap();
    assert!(groups.is_empty());
}

#[test]
fn reconciliation_preserves_the_first_member() {
    let groups = find_duplicate_files(sample_tree()).unwrap();
    let doomed = deletion_candidates(&groups[0]);
    assert_eq!(doomed, vec![String::from("/root/sub/b.txt")]);
    assert!(!doomed.contains(&String::from("/root/a.txt")));
    assert!(!doomed.contains(&String::from("/root/c.txt")));
}

#[test]
fn unreadable_files_join_no_group() {
    let tree = vec![
        unreadable("locked.bin", "/r/locked.bin", 0),
        unreadable("locked2.bin", "/r/locked2.bin", 0),
        file("a.txt", "/r/a.txt", 0, b"same"),
        file("b.txt", "/r/b.txt", 0, b"same"),
    ];
    let groups = find_duplicate_files(tree).unwrap();
    assert_eq!(groups.len(), 1);
    let (_, members) = group_summary(&groups[0]);
    for (name, _) in &members {
        assert!(name != "locked.bin" && name != "locked2.bin");
    }
    assert_eq!(members.len(), 2);
}

#[test]
fn directories_join_no_group() {
    let tree = vec![
        dir("empty1", "/r/empty1", 0, Vec::new()),
        dir("empty2", "/r/empty2", 0, Vec::new()),
    ];
    let groups = find_duplicate_files(tree).unwrap();
    assert!(groups.is_empty());
}

#[test]
fn get_items_by_hash_needs_two_members() {
    let flat = flatten_forest(vec![
        file("only.txt", "/r/only.txt", 0, b"unique"),
        file("a.txt", "/r/a.txt", 0, b"pair"),
        file("b.txt", "/r/b.txt", 0, b"pair"),
    ]);
    let unique = Fingerprint::of_content(&b"unique".to_vec());
    assert!(get_items_by_hash(&unique, &flat).is_none());
    let pair = Fingerprint::of_content(&b"pair".to_vec());
    let group = get_items_by_hash(&pair, &flat).unwrap();
    assert_eq!(group.matches.len(), 2);
    assert!(group.hash.unwrap().same(&pair));
}

#[test]
fn substring_search_on_bytes() {
    let hay = b"hello world".to_vec();
    assert!(contains_bytes(&hay, &b"lo wo".to_vec()));
    assert!(contains_bytes(&hay, &b"hello world".to_vec()));
    assert!(contains_bytes(&hay, &Vec::new()));
    assert!(!contains_bytes(&hay, &b"worlds".to_vec()));
    assert!(!contains_bytes(&b"ab".to_vec(), &b"abc".to_vec()));
}

#[test]
fn empty_tree_has_no_matches() {
    assert!(find_duplicate_files(Vec::new()).unwrap().is_empty());
    assert!(find_matching_files(Vec::new(), String::from("x"))
        .unwrap()
        .is_empty());
    assert!(flatten_forest(Vec::new()).is_empty());
}

#[test]
fn flattening_is_preorder_on_nested_trees() {
    let tree = vec![dir(
        "outer",
        "/r/outer",
        0,
        vec![
            dir(
                "inner",
                "/r/outer/inner",
                1,
                vec![file("deep.txt", "/r/outer/inner/deep.txt", 2, b"d")],
            ),
            file("late.txt", "/r/outer/late.txt", 1, b"l"),
        ],
    )];
    let flat = flatten_forest(tree);
    let names: Vec<&str> = flat.iter().map(|r| r.name.as_str()).collect();
    assert_eq!(names, vec!["outer", "inner", "deep.txt", "late.txt"]);
    let levels: Vec<u8> = flat.iter().map(|r| r.level).collect();
    assert_eq!(levels, vec![0, 1, 2, 1]);
}

#[test]
fn builders_start_empty() {
    let e = Entry::new();
    assert!(!e.is_file);
    assert!(e.children.is_empty());
    assert!(e.hash.is_none());
    assert_eq!(e.level, 0);
    let m = Match::new();
    assert!(m.hash.is_none());
    assert!(m.matches.is_empty());
    assert!(deletion_candidates(&m).is_empty());
}

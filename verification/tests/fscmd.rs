use advent::fscmd::{
    parse_cmd, parse_entry, parse_input, parse_line, parse_path, walk_lines, Command, Entry,
    Line, Tree,
};

const SAMPLE: &str = "$ cd /\n$ ls\ndir a\n14848514 b.txt\n8504156 c.dat\ndir d\n$ cd a\n$ ls\ndir e\n29116 f\n2557 g\n62596 h.lst\n$ cd e\n$ ls\n584 i\n$ cd ..\n$ cd ..\n$ cd d\n$ ls\n4060174 j\n8033020 d.log\n5626152 d.ext\n7214296 k\n";

fn name(s: &str) -> Vec<u8> {
    s.as_bytes().to_vec()
}

fn sample_tree() -> Tree {
    let (lines, used) = parse_input(SAMPLE).unwrap();
    assert_eq!(used, SAMPLE.len());
    assert_eq!(lines.len(), 23);
    walk_lines(lines).unwrap()
}

#[test]
fn lines_of_a_session() {
    assert_eq!(parse_line(b"$ ls", 0), Some((Line::Command(Command::Ls), 4)));
    assert_eq!(parse_line(b"$ cd a.b/c\n", 0), Some((Line::Command(Command::Cd(name("a.b/c"))), 10)));
    assert_eq!(parse_line(b"dir xyz", 0), Some((Line::Entry(Entry::Dir(name("xyz"))), 7)));
    assert_eq!(parse_line(b"584 i", 0), Some((Line::Entry(Entry::File(584, name("i"))), 5)));
    assert_eq!(parse_line(b"$ lsd", 0), Some((Line::Command(Command::Ls), 4)));
    assert_eq!(parse_line(b"$ cd A", 0), None);
    assert_eq!(parse_line(b"$ rm x", 0), None);
    assert_eq!(parse_line(b"584i", 0), None);
    assert_eq!(parse_line(b"99999999999999999999 i", 0), None);
    assert_eq!(parse_entry(b"dir ", 0), None);
    assert_eq!(parse_cmd(b"$ cd ..", 0), Some((Command::Cd(name("..")), 7)));
    assert_eq!(parse_path(b"ab/c.d E", 0), Some((name("ab/c.d"), 6)));
    assert_eq!(parse_path(b"Ab", 0), None);
    assert!(parse_input("").is_none());
    assert!(parse_input("ls\n").is_none());
    assert_eq!(parse_input("$ ls\n\n$ ls\n").unwrap().1, 5);
}

#[test]
fn sample_tree_has_the_told_sizes() {
    let tree = sample_tree();
    assert_eq!(tree.nodes.len(), 14);
    let sizes = tree.total_sizes().unwrap();
    assert_eq!(sizes[0], 48381165);
    let a = tree.nodes[0].child(&name("a")).unwrap();
    let d = tree.nodes[0].child(&name("d")).unwrap();
    let e = tree.nodes[a].child(&name("e")).unwrap();
    assert_eq!(tree.total_size(a), Some(94853));
    assert_eq!(tree.total_size(d), Some(24933642));
    assert_eq!(tree.total_size(e), Some(584));
    assert_eq!(tree.total_size(99), None);
    assert_eq!(tree.nodes[e].parent, Some(a));
    assert_eq!(tree.nodes[a].parent, Some(0));
    assert_eq!(tree.nodes[0].parent, None);
    assert_eq!(tree.nodes[0].child(&name("zz")), None);
    assert!(tree.nodes[a].is_dir());
    assert!(!tree.nodes[e].children.is_empty());
}

#[test]
fn sample_directories() {
    let tree = sample_tree();
    let a = tree.nodes[0].child(&name("a")).unwrap();
    let d = tree.nodes[0].child(&name("d")).unwrap();
    let e = tree.nodes[a].child(&name("e")).unwrap();
    let mut want = vec![0, a, d, e];
    want.sort();
    assert_eq!(tree.all_dirs(), want);
    assert_eq!(tree.small_dirs_total(100000), Some(95437));
    assert_eq!(tree.small_dirs_total(0), Some(0));
    assert_eq!(tree.small_dirs_total(u64::MAX), Some(48381165 + 94853 + 24933642 + 584));
    assert_eq!(tree.min_removal(), Some(24933642));
}

#[test]
fn walking_up_from_the_root_leads_nowhere() {
    assert!(walk_lines(vec![Line::Command(Command::Cd(name("..")))]).is_none());
    let lines = vec![Line::Command(Command::Cd(name("x"))), Line::Command(Command::Cd(name("..")))];
    assert!(walk_lines(lines).is_none());
    let lines = vec![
        Line::Entry(Entry::Dir(name("x"))),
        Line::Command(Command::Cd(name("x"))),
        Line::Command(Command::Cd(name(".."))),
        Line::Command(Command::Cd(name("/"))),
        Line::Entry(Entry::File(5, name("x"))),
    ];
    let tree = walk_lines(lines).unwrap();
    assert_eq!(tree.nodes.len(), 2);
    assert_eq!(tree.nodes[1].size, 5);
    assert_eq!(tree.total_size(0), Some(5));
    assert_eq!(tree.all_dirs(), vec![0]);
}

#[test]
fn removal_needs_a_disk_that_is_full_enough() {
    let tree = Tree::new();
    assert_eq!(tree.total_sizes(), Some(vec![0]));
    assert_eq!(tree.min_removal(), None);
    let heavy = walk_lines(vec![Line::Entry(Entry::File(70000001, name("x")))]).unwrap();
    assert_eq!(heavy.min_removal(), None);
    let full = walk_lines(vec![Line::Entry(Entry::File(70000000, name("x")))]).unwrap();
    assert_eq!(full.min_removal(), Some(70000000));
    let exact = walk_lines(vec![Line::Entry(Entry::File(40000000, name("x")))]).unwrap();
    assert_eq!(exact.min_removal(), Some(40000000));
    let huge = walk_lines(vec![
        Line::Entry(Entry::File(u64::MAX, name("x"))),
        Line::Entry(Entry::File(1, name("y"))),
    ])
    .unwrap();
    assert_eq!(huge.total_sizes(), None);
    assert_eq!(huge.small_dirs_total(10), None);
}

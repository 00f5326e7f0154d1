use habacode::chunked::{ChunkError, ChunkedScan};
use habacode::config::{lang_by_ext, Comment, Config, DoubleSE};
use habacode::paths::{is_ignore_pattern, normalize, PartKind};
use habacode::report::{name_width, size_unit, SizeUnit};
use habacode::scanner::Scanner;
use habacode::totals::Totals;
use habacode::walk::{visit, EntryKind, Visit};

fn whole(ext: &str, src: &str) -> usize {
    let cfg = lang_by_ext().get(ext).unwrap();
    let mut s = Scanner::new(&cfg);
    let consumed = s.feed(src.as_bytes(), true);
    assert_eq!(consumed, src.len());
    s.finish()
}

fn through_window(ext: &str, src: &str, capacity: usize, piece: usize) -> Result<usize, ChunkError> {
    let cfg = lang_by_ext().get(ext).unwrap();
    let mut c = ChunkedScan::new(&cfg, capacity);
    let bytes = src.as_bytes();
    let mut pos = 0;
    while pos < bytes.len() {
        let n = piece.min(c.room()).min(bytes.len() - pos);
        assert!(n > 0);
        c.absorb(&bytes[pos..pos + n])?;
        pos += n;
    }
    assert_eq!(c.bytes_seen(), bytes.len());
    Ok(c.finish())
}

const SAMPLES: &[(&str, &str)] = &[
    ("rs", "fn main() {}\n/* a\nb */ let x = 1; // tail\nlet y = 2;\n"),
    ("rs", "let a = 1;\nlet b = 2; // trailing\n/* split */ let c = 3;"),
    ("py", "x = 1\n# c\n\"\"\"\ndoc\n\"\"\"\ny = 2\n"),
    ("html", "<p>hi</p>\n<!-- block\nspans -->\n<p>bye</p>"),
    ("rb", "x = 1\n=begin\nhidden\n=end\ny = 2 # c\n"),
    ("sh", "#!/bin/sh\n\necho hi # greet\n  # only\n"),
];

#[test]
fn window_scan_counts_as_whole_scan() {
    for (ext, src) in SAMPLES {
        let expected = whole(ext, src);
        // The longest marker ("=begin") has 6 bytes: every window below holds it.
        for capacity in [6, 7, 8, 16, 64, 1024] {
            for piece in [1, 2, 3, 7, 1024] {
                assert_eq!(
                    through_window(ext, src, capacity, piece),
                    Ok(expected),
                    "ext={ext} capacity={capacity} piece={piece}"
                );
            }
        }
    }
}

#[test]
fn ruby_window_shorter_than_begin_fails() {
    assert_eq!(
        through_window("rb", "x = 1\n=begin\nhidden\n=end\n", 4, 1),
        Err(ChunkError::BufferTooSmall)
    );
}

#[test]
fn window_shorter_than_a_marker_fails() {
    let cfg = lang_by_ext().get("rs").unwrap();
    let mut c = ChunkedScan::new(&cfg, 1);
    assert_eq!(c.room(), 1);
    assert_eq!(c.absorb(b"/"), Err(ChunkError::BufferTooSmall));
}

#[test]
fn empty_input_has_no_lines() {
    let cfg = lang_by_ext().get("rs").unwrap();
    let c = ChunkedScan::new(&cfg, 16);
    assert_eq!(c.finish(), 0);
    assert_eq!(whole("rs", ""), 0);
}

#[test]
fn ruby_and_shell_comments() {
    assert_eq!(whole("rb", "x = 1\n=begin\nhidden\n=end\ny = 2 # c\n"), 2);
    assert_eq!(whole("sh", "#!/bin/sh\n\necho hi # greet\n  # only\n"), 1);
}

#[test]
fn whitespace_only_lines_are_blank() {
    assert_eq!(whole("rs", " \t\r\n\x0c\nx\r\n"), 1);
    // A vertical tab is not ASCII whitespace for the scanner, so it counts as code.
    assert_eq!(whole("rs", "\x0b\n"), 1);
}

#[test]
fn code_after_block_close_on_same_line_counts() {
    assert_eq!(whole("c", "/* a\n b */ x;\n/* c */\n"), 1);
    assert_eq!(whole("go", "x /* open\n still */\n"), 1);
}

#[test]
fn unterminated_block_hides_the_rest() {
    assert_eq!(whole("js", "a;\n/* never closed\nb;\nc;"), 1);
}

#[test]
fn line_comment_inside_block_is_ignored() {
    assert_eq!(whole("rs", "/* // */ x\n"), 1);
}

#[test]
fn feed_without_eof_keeps_marker_room() {
    let cfg = lang_by_ext().get("md").unwrap();
    let mut s = Scanner::new(&cfg);
    // The longest marker has 4 bytes: the last 3 bytes wait for more input.
    let consumed = s.feed(b"ab<!-", false);
    assert_eq!(consumed, 2);
    assert_eq!(s.counted(), 0);
    let consumed = s.feed(b"<!-- x -->\ny\n", true);
    assert_eq!(consumed, 13);
    // "ab" and "y" are code.
    assert_eq!(s.finish(), 2);
}

#[test]
fn longest_marker_wins() {
    let comments: &'static [Comment] = Box::leak(Box::new([
        Comment::Single("-"),
        Comment::Double(DoubleSE { open: "--[", close: "]--" }),
    ]));
    let cfg = Config { name: "Toy", ext: "toy", comment_literal: comments };
    let mut s = Scanner::new(&cfg);
    s.feed(b"--[ hidden\n ]-- x\n- gone\n", true);
    assert_eq!(s.finish(), 1);
}

#[test]
fn registry_knows_every_language() {
    let reg = lang_by_ext();
    let expected = [
        ("rs", "Rust"),
        ("go", "Go"),
        ("cpp", "C++"),
        ("c", "C"),
        ("js", "JavaScript"),
        ("java", "Java"),
        ("kt", "Kotlin"),
        ("ts", "TypeScript"),
        ("py", "Python"),
        ("sh", "Shell"),
        ("rb", "Ruby"),
        ("md", "Markdown"),
        ("html", "HTML"),
    ];
    for (ext, name) in expected {
        let cfg = reg.get(ext).unwrap();
        assert_eq!(cfg.name, name);
        assert_eq!(cfg.ext, ext);
    }
    assert!(reg.get("xyz").is_none());
    assert!(reg.get("").is_none());
    assert!(reg.get("RS").is_none());
}

#[test]
fn totals_add_and_get() {
    let mut t = Totals::new();
    assert!(t.is_empty());
    assert_eq!(t.get("Rust"), None);
    t.add("Rust", 2);
    t.add("Python", 1);
    t.add("Rust", 3);
    t.add("HTML", 0);
    assert!(!t.is_empty());
    assert_eq!(t.get("Rust"), Some(5));
    assert_eq!(t.get("Python"), Some(1));
    assert_eq!(t.get("HTML"), Some(0));
    assert!(t.contains_key("HTML"));
    assert!(!t.contains_key("Markdown"));
}

#[test]
fn rows_by_count_then_name() {
    let mut t = Totals::new();
    t.add("Rust", 5);
    t.add("Go", 7);
    t.add("C", 5);
    t.add("HTML", 0);
    t.add("C++", 5);
    let rows = t.rows();
    assert_eq!(rows, vec![("Go", 7), ("C", 5), ("C++", 5), ("Rust", 5), ("HTML", 0)]);
    assert_eq!(name_width(&rows), 4);
    assert_eq!(name_width(&Vec::new()), 0);
}

#[test]
fn visit_by_kind_and_depth() {
    assert_eq!(visit(EntryKind::File, 0, 0), Visit::Count);
    assert_eq!(visit(EntryKind::File, 7, 3), Visit::Count);
    assert_eq!(visit(EntryKind::Dir, 0, 0), Visit::Skip);
    assert_eq!(visit(EntryKind::Dir, 0, 1), Visit::Descend(1));
    assert_eq!(visit(EntryKind::Dir, 49, 50), Visit::Descend(50));
    assert_eq!(visit(EntryKind::Dir, 50, 50), Visit::Skip);
    assert_eq!(visit(EntryKind::Other, 0, 50), Visit::Skip);
}

#[test]
fn normalize_resolves_dots() {
    let (p, r, c, u, n) = (PartKind::Prefix, PartKind::Root, PartKind::Cur, PartKind::Parent, PartKind::Normal);
    assert_eq!(normalize(&vec![r, n, u, n]), vec![0, 3]);
    assert_eq!(normalize(&vec![r, u, n]), vec![0, 2]);
    assert_eq!(normalize(&vec![c, n, u, u, n]), vec![4]);
    assert_eq!(normalize(&vec![p, r, n, c, n, u]), vec![0, 1, 2]);
    assert_eq!(normalize(&vec![]), Vec::<usize>::new());
}

#[test]
fn ignore_patterns() {
    assert!(!is_ignore_pattern(""));
    assert!(!is_ignore_pattern("# comment"));
    assert!(is_ignore_pattern("target"));
    assert!(is_ignore_pattern("a#b"));
}

#[test]
fn size_units() {
    assert_eq!(size_unit(0), SizeUnit::Units);
    assert_eq!(size_unit(999), SizeUnit::Units);
    assert_eq!(size_unit(1_000), SizeUnit::Thousands);
    assert_eq!(size_unit(999_999), SizeUnit::Thousands);
    assert_eq!(size_unit(1_000_000), SizeUnit::Millions);
    assert_eq!(size_unit(999_999_999), SizeUnit::Millions);
    assert_eq!(size_unit(1_000_000_000), SizeUnit::Billions);
}

enum Node {
    File(&'static str, usize),
    Dir(Vec<Node>),
}

fn walk_model(node: &Node, max_depth: usize, depth: usize, totals: &mut Totals) {
    match node {
        Node::File(lang, n) => {
            assert_eq!(visit(EntryKind::File, depth, max_depth), Visit::Count);
            totals.add(lang, *n);
        }
        Node::Dir(entries) => {
            if let Visit::Descend(next) = visit(EntryKind::Dir, depth, max_depth) {
                for e in entries {
                    walk_model(e, max_depth, next, totals);
                }
            }
        }
    }
}

#[test]
fn deeper_limit_and_subtree_sums() {
    let tree = Node::Dir(vec![
        Node::File("Rust", 1),
        Node::Dir(vec![Node::Dir(vec![Node::Dir(vec![Node::File("Rust", 1), Node::File("Python", 4)])])]),
        Node::Dir(vec![Node::File("Markdown", 2)]),
    ]);
    let mut shallow = Totals::new();
    walk_model(&tree, 1, 0, &mut shallow);
    assert_eq!(shallow.get("Rust"), Some(1));
    assert_eq!(shallow.get("Python"), None);
    assert_eq!(shallow.get("Markdown"), None);
    let mut deep = Totals::new();
    walk_model(&tree, 10, 0, &mut deep);
    assert_eq!(deep.get("Rust"), Some(2));
    assert_eq!(deep.get("Python"), Some(4));
    assert_eq!(deep.get("Markdown"), Some(2));
    // A walk into existing totals adds to them.
    let mut start = Totals::new();
    start.add("Rust", 10);
    start.add("HTML", 3);
    walk_model(&tree, 10, 0, &mut start);
    assert_eq!(start.get("Rust"), Some(12));
    assert_eq!(start.get("HTML"), Some(3));
    assert_eq!(start.get("Python"), Some(4));
}

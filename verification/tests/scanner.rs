use habacode::config::lang_by_ext;
use habacode::scanner::Scanner;

fn count(ext: &str, src: &str) -> usize {
    let cfg = lang_by_ext()
        .get(ext)
        .expect("test ext missing from registry");
    let mut s = Scanner::new(&cfg);
    s.feed(src.as_bytes(), true);
    s.finish()
}

fn count_chunked(ext: &str, src: &str, chunk_size: usize) -> usize {
    let cfg = lang_by_ext()
        .get(ext)
        .expect("test ext missing from registry");
    let mut s = Scanner::new(&cfg);
    let bytes = src.as_bytes();
    let mut buf: Vec<u8> = Vec::new();
    let mut pos = 0;
    loop {
        let want = chunk_size.saturating_sub(buf.len()).min(bytes.len() - pos);
        buf.extend_from_slice(&bytes[pos..pos + want]);
        pos += want;
        let eof = pos == bytes.len();
        let consumed = s.feed(&buf, eof);
        if eof {
            break;
        }
        assert!(
            consumed > 0 || buf.len() < chunk_size,
            "scanner made no progress with a full buffer"
        );
        buf.drain(..consumed);
    }
    s.finish()
}

#[test]
fn counts_basic_lines() {
    assert_eq!(count("rs", "fn main() {}\nlet x = 1;\n"), 2);
}

#[test]
fn skips_blank_lines() {
    assert_eq!(count("rs", "a\n\n\nb\n"), 2);
}

#[test]
fn skips_full_line_comment() {
    assert_eq!(count("rs", "// nope\nlet x = 1;\n"), 1);
}

#[test]
fn counts_line_with_trailing_comment() {
    assert_eq!(count("rs", "let x = 1; // tail\n"), 1);
}

#[test]
fn skips_block_comment_body() {
    assert_eq!(count("rs", "/* a\nb\nc */\nlet x = 1;\n"), 1);
}

#[test]
fn counts_code_around_block_comment() {
    assert_eq!(count("rs", "let x = 1; /* m */ let y = 2;\n"), 1);
}

#[test]
fn counts_final_line_without_newline() {
    assert_eq!(count("rs", "let x = 1;"), 1);
}

#[test]
fn python_hash_and_triple_quote() {
    let src = "x = 1\n# c\n\"\"\"\ndoc\n\"\"\"\ny = 2\n";
    assert_eq!(count("py", src), 2);
}

#[test]
fn html_block_only() {
    let src = "<p>hi</p>\n<!-- c -->\n<p>bye</p>\n";
    assert_eq!(count("html", src), 2);
}

#[test]
fn chunked_matches_whole() {
    let cases: &[(&str, &str)] = &[
        (
            "rs",
            "fn main() {}\n/* a\nb */ let x = 1; // tail\nlet y = 2;\n",
        ),
        (
            "rs",
            "let a = 1;\nlet b = 2; // trailing\n/* split */ let c = 3;",
        ),
        ("py", "x = 1\n# c\n\"\"\"\ndoc\n\"\"\"\ny = 2\n"),
        ("html", "<p>hi</p>\n<!-- block\nspans -->\n<p>bye</p>"),
    ];
    for (ext, src) in cases {
        let whole = count(ext, src);
        // The buffer must hold at least max_marker_len bytes to make progress; our longest
        // marker is "<!--" (4 bytes), so 4 is the smallest viable chunk size.
        for chunk_size in [4, 5, 8, 16, 64] {
            assert_eq!(
                count_chunked(ext, src, chunk_size),
                whole,
                "ext={ext} chunk_size={chunk_size}",
            );
        }
    }
}

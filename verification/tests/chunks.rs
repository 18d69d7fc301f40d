use mnemosyne::fs_walk::{chunk_lines, describe, to_entry, Chunk};
use mnemosyne::text::{chars_of, split_lines};

fn numbered(n: usize) -> String {
    let mut text = String::new();
    for i in 0..n {
        text.push_str(&format!("line {}\n", i + 1));
    }
    text
}

fn chunks_of_text(text: &str) -> Vec<Chunk> {
    let chars = chars_of(text);
    let lines = split_lines(&chars);
    chunk_lines(&lines)
}

fn spans(chunks: &[Chunk]) -> Vec<(usize, usize, usize)> {
    chunks.iter().map(|c| (c.idx, c.start_line, c.end_line)).collect()
}

#[test]
fn file_of_250_lines_has_three_chunks() {
    let text = numbered(250);
    let entry = to_entry("notes.txt", text.as_bytes()).expect("a text file is kept");
    assert_eq!(spans(&entry.chunks), vec![(0, 1, 100), (1, 101, 200), (2, 201, 250)]);
}

#[test]
fn empty_file_has_no_chunk() {
    assert!(chunks_of_text("").is_empty());
    let entry = to_entry("empty.txt", b"").expect("an empty file is kept");
    assert!(entry.chunks.is_empty());
    assert_eq!(entry.bytes, 0);
    assert_eq!(entry.tokens, 0);
}

#[test]
fn chunk_count_is_lines_over_hundred_rounded_up() {
    for (n, count, last) in [
        (1usize, 1usize, 1usize),
        (99, 1, 99),
        (100, 1, 100),
        (101, 2, 1),
        (199, 2, 99),
        (200, 2, 100),
        (201, 3, 1),
        (1000, 10, 100),
    ] {
        let chunks = chunks_of_text(&numbered(n));
        assert_eq!(chunks.len(), count, "{} lines", n);
        assert_eq!(chunks.len(), (n + 99) / 100);
        let c = chunks.last().unwrap();
        assert_eq!(c.end_line - c.start_line + 1, last, "{} lines", n);
        assert_eq!(c.end_line, n);
    }
}

#[test]
fn chunks_lie_one_after_another() {
    let chunks = chunks_of_text(&numbered(345));
    assert_eq!(chunks[0].start_line, 1);
    for i in 0..chunks.len() {
        assert_eq!(chunks[i].idx, i);
        assert_eq!(chunks[i].start_line, i * 100 + 1);
        if i + 1 < chunks.len() {
            assert_eq!(chunks[i].end_line + 1, chunks[i + 1].start_line);
        }
    }
    assert_eq!(chunks.last().unwrap().end_line, 345);
}

#[test]
fn chunk_texts_joined_give_the_lines_back() {
    for n in [1usize, 3, 100, 101, 250, 300] {
        let text = numbered(n);
        let lines: Vec<&str> = text.lines().collect();
        let chunks = chunks_of_text(&text);
        let texts: Vec<&str> = chunks.iter().map(|c| c.text.as_str()).collect();
        let joined = texts.join("\n");
        assert_eq!(joined, lines.join("\n"));
        let back: Vec<&str> = joined.split('\n').collect();
        assert_eq!(back, lines);
        for c in &chunks {
            assert_eq!(c.text, lines[c.start_line - 1..c.end_line].join("\n"));
        }
    }
}

#[test]
fn chunk_text_is_its_lines_joined() {
    let chunks = chunks_of_text("a\nb\nc");
    assert_eq!(chunks.len(), 1);
    assert_eq!(chunks[0].idx, 0);
    assert_eq!(chunks[0].start_line, 1);
    assert_eq!(chunks[0].end_line, 3);
    assert_eq!(chunks[0].text, "a\nb\nc");
}

#[test]
fn carriage_returns_before_line_feeds_are_dropped() {
    let chunks = chunks_of_text("a\r\nb\r\n");
    assert_eq!(chunks[0].text, "a\nb");
    assert_eq!(chunks[0].end_line, 2);
}

#[test]
fn describe_fills_every_field() {
    let entry = describe("src/Main.RS", 11, &[0x00, 0x0f, 0xa5, 0xff], String::from("fn main() {}\n  x\ty "));
    assert_eq!(entry.path, "src/Main.RS");
    assert_eq!(entry.language, "rs");
    assert_eq!(entry.sha256, "000fa5ff");
    assert_eq!(entry.bytes, 11);
    assert_eq!(entry.tokens, 5);
    assert_eq!(entry.text, "fn main() {}\n  x\ty ");
    assert_eq!(spans(&entry.chunks), vec![(0, 1, 2)]);
    assert_eq!(entry.chunks[0].text, "fn main() {}\n  x\ty ");
}

#[test]
fn entry_carries_digest_size_and_tokens() {
    let entry = to_entry("src/main.txt", b"a\nb\nc").expect("a text file is kept");
    assert_eq!(entry.path, "src/main.txt");
    assert_eq!(entry.language, "txt");
    assert_eq!(entry.sha256, "ea7fb08b7a2dc4619ffb7c7bb38d95a2047935fa165d71b12efd3852a2e6d0cc");
    assert_eq!(entry.bytes, 5);
    assert_eq!(entry.tokens, 3);
    assert_eq!(entry.text, "a\nb\nc");
}

#[test]
fn invalid_bytes_are_replaced_not_refused() {
    let entry = to_entry("odd.txt", b"ab\xffcd\n").expect("invalid text is kept");
    assert_eq!(entry.text, "ab\u{fffd}cd\n");
    assert_eq!(entry.bytes, 6);
    assert_eq!(entry.chunks[0].text, "ab\u{fffd}cd");
}

#[test]
fn valid_text_passes_unchanged() {
    let text = "héllo wörld ✓\nzweite Zeile\n";
    let entry = to_entry("notes.txt", text.as_bytes()).expect("a text file is kept");
    assert_eq!(entry.text, text);
    assert_eq!(entry.bytes, text.len());
    assert_eq!(entry.tokens, 5);
}

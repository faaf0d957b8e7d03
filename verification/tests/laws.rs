use twitr::chunking::normalize_text;
use twitr::{ChunkError, ChunkingConfig, chunk_text};

fn chars(s: &str) -> Vec<char> {
    s.chars().collect()
}

#[test]
fn marker_line_splits_the_posts_in_two() {
    let config = ChunkingConfig {
        max_chars: 20,
        numbering: false,
        suffix: " #x".to_string(),
        ..ChunkingConfig::default()
    };
    let a = "First part. It has a few sentences in it.\n\nAnd a paragraph.";
    let b = "  second   part\r\nwith a line break ";
    let whole = format!("{a}\n---\n{b}");

    let mut expected = chunk_text(a, &config).unwrap();
    expected.extend(chunk_text(b, &config).unwrap());

    assert_eq!(chunk_text(&whole, &config).unwrap(), expected);
    assert!(expected.len() > 2);
}

#[test]
fn marker_line_between_blank_sides_gives_no_posts() {
    let config = ChunkingConfig { numbering: false, ..ChunkingConfig::default() };
    assert_eq!(chunk_text(" \n---\n\n", &config).unwrap(), Vec::<String>::new());
}

#[test]
fn normalizing_twice_changes_nothing() {
    let config = ChunkingConfig::default();
    let text = chars("  one\t two \r\n three\n\n\n four  \n\n  \n five ");

    let once = normalize_text(&text, &config);
    let twice = normalize_text(&once, &config);

    assert_eq!(once.iter().collect::<String>(), "one two three\n\nfour\n\nfive");
    assert_eq!(twice, once);
}

#[test]
fn normalizing_twice_keeps_line_breaks() {
    let config = ChunkingConfig {
        preserve_line_breaks: true,
        paragraph_separator: " | ".to_string(),
        ..ChunkingConfig::default()
    };
    let text = chars(" a  b \r\n\n c ");

    let once = normalize_text(&text, &config);
    let twice = normalize_text(&once, &config);

    assert_eq!(twice, once);
}

#[test]
fn larger_limit_never_gives_more_posts() {
    let text = "Sentences come first. Then more of them follow here! Does it fit?\n\n\
                A second paragraph with some longer words: extraordinarily, \
                incomprehensibilities.\n---\nAfter the marker.";
    let mut last: Option<usize> = None;
    for max_chars in 18..200 {
        let config = ChunkingConfig { max_chars, ..ChunkingConfig::default() };
        match chunk_text(text, &config) {
            Ok(posts) => {
                if let Some(before) = last {
                    assert!(posts.len() <= before, "limit {max_chars}");
                }
                last = Some(posts.len());
            }
            Err(ChunkError::NoRoom { .. }) => assert!(last.is_none(), "limit {max_chars}"),
            Err(e) => panic!("limit {max_chars}: {}", e.message()),
        }
    }
    assert_eq!(last, Some(2));
}

use twitr::{ChunkError, ChunkingConfig, chunk_text};

#[test]
fn chunks_plain_text_under_the_limit() {
    let config = ChunkingConfig {
        max_chars: 40,
        numbering: false,
        split_sentences: false,
        preserve_paragraphs: false,
        ..ChunkingConfig::default()
    };

    let chunks = chunk_text("one two three four five six seven eight nine ten", &config).unwrap();

    assert_eq!(chunks.len(), 2);
    assert!(chunks.iter().all(|chunk| chunk.chars().count() <= 40));
}

#[test]
fn reserves_space_for_numbering_prefix() {
    let config = ChunkingConfig {
        max_chars: 18,
        numbering: true,
        numbering_format: "({current}/{total}) ".to_string(),
        split_sentences: false,
        preserve_paragraphs: false,
        ..ChunkingConfig::default()
    };

    let chunks = chunk_text("alpha beta gamma delta epsilon zeta eta theta", &config).unwrap();

    assert!(chunks.len() > 1);
    assert!(chunks.iter().all(|chunk| chunk.chars().count() <= 18));
    assert!(chunks[0].starts_with("(1/"));
}

#[test]
fn preserves_paragraph_boundaries_when_possible() {
    let config = ChunkingConfig {
        max_chars: 80,
        numbering: false,
        preserve_paragraphs: true,
        paragraph_separator: "\n\n".to_string(),
        ..ChunkingConfig::default()
    };

    let chunks = chunk_text("first paragraph\n\nsecond paragraph", &config).unwrap();

    assert_eq!(chunks, vec!["first paragraph\n\nsecond paragraph"]);
}

#[test]
fn splits_long_tokens_when_needed() {
    let config = ChunkingConfig {
        max_chars: 10,
        numbering: false,
        split_sentences: false,
        preserve_paragraphs: false,
        ..ChunkingConfig::default()
    };

    let chunks = chunk_text("supercalifragilisticexpialidocious", &config).unwrap();
    assert!(chunks.iter().all(|chunk| chunk.chars().count() <= 10));
    assert_eq!(chunks.concat(), "supercalifragilisticexpialidocious");
}

#[test]
fn isolated_marker_forces_a_new_chunk_boundary() {
    let config = ChunkingConfig {
        max_chars: 280,
        numbering: false,
        ..ChunkingConfig::default()
    };

    let chunks = chunk_text("first tweet\n---\nsecond tweet", &config).unwrap();

    assert_eq!(chunks, vec!["first tweet", "second tweet"]);
}

#[test]
fn marker_with_surrounding_spaces_still_counts_as_manual_boundary() {
    let config = ChunkingConfig {
        max_chars: 280,
        numbering: false,
        ..ChunkingConfig::default()
    };

    let chunks = chunk_text("alpha\n  ---  \nbeta", &config).unwrap();

    assert_eq!(chunks, vec!["alpha", "beta"]);
}

#[test]
fn zero_limit_is_refused() {
    let config = ChunkingConfig { max_chars: 0, ..ChunkingConfig::default() };
    let err = chunk_text("anything", &config).unwrap_err();
    assert_eq!(err, ChunkError::ZeroLimit);
    assert_eq!(err.message(), "chunking.max_chars must be greater than zero");
}

#[test]
fn prefix_and_suffix_without_room_are_refused() {
    let config = ChunkingConfig {
        max_chars: 6,
        numbering: true,
        numbering_format: "{current}/{total} ".to_string(),
        suffix: " #x".to_string(),
        ..ChunkingConfig::default()
    };
    let err = chunk_text("some words here", &config).unwrap_err();
    assert_eq!(
        err,
        ChunkError::NoRoom { prefix_width: 4, suffix_width: 3, max_chars: 6 }
    );
    assert_eq!(
        err.message(),
        "prefix and suffix consume 7 chars, leaving no room under the 6 char limit"
    );
}

#[test]
fn blank_text_gives_no_posts() {
    let config = ChunkingConfig::default();
    let chunks = chunk_text("  \n\t \r\n  ", &config).unwrap();
    assert!(chunks.is_empty());
    let chunks = chunk_text("", &config).unwrap();
    assert!(chunks.is_empty());
}

#[test]
fn numbering_and_suffix_frame_every_post() {
    let config = ChunkingConfig {
        max_chars: 20,
        numbering: true,
        numbering_format: "{current}/{total} ".to_string(),
        suffix: " #t".to_string(),
        split_sentences: false,
        preserve_paragraphs: false,
        ..ChunkingConfig::default()
    };
    let chunks = chunk_text("one two three four five six seven eight nine ten", &config).unwrap();
    assert_eq!(
        chunks,
        vec![
            "1/4 one two three #t",
            "2/4 four five six #t",
            "3/4 seven eight #t",
            "4/4 nine ten #t",
        ]
    );
    assert!(chunks.iter().all(|chunk| chunk.chars().count() <= 20));
}

#[test]
fn numbering_width_grows_with_the_post_count() {
    let config = ChunkingConfig {
        max_chars: 10,
        numbering: true,
        numbering_format: "{current}/{total} ".to_string(),
        split_sentences: false,
        preserve_paragraphs: false,
        ..ChunkingConfig::default()
    };
    let text = "aaaa bbbb cccc dddd eeee ffff gggg hhhh iiii jjjj";
    let chunks = chunk_text(text, &config).unwrap();
    assert_eq!(chunks.len(), 10);
    assert_eq!(chunks[0], "1/10 aaaa");
    assert_eq!(chunks[9], "10/10 jjjj");
    assert!(chunks.iter().all(|chunk| chunk.chars().count() <= 10));
}

#[test]
fn sentences_are_packed_together() {
    let config = ChunkingConfig { max_chars: 30, numbering: false, ..ChunkingConfig::default() };
    let chunks =
        chunk_text("First one. Second one! Third one? Fourth sentence here.", &config).unwrap();
    assert_eq!(
        chunks,
        vec!["First one. Second one!", "Third one?", "Fourth sentence here."]
    );
}

#[test]
fn whitespace_collapses_inside_lines() {
    let config = ChunkingConfig { numbering: false, ..ChunkingConfig::default() };
    let chunks = chunk_text("  lots   of\t\tspace  ", &config).unwrap();
    assert_eq!(chunks, vec!["lots of space"]);
}

#[test]
fn line_breaks_survive_when_preserved() {
    let config = ChunkingConfig {
        numbering: false,
        preserve_line_breaks: true,
        split_sentences: false,
        ..ChunkingConfig::default()
    };
    let chunks = chunk_text("first  line\r\nsecond line\n\n third ", &config).unwrap();
    assert_eq!(chunks, vec!["first line\nsecond line\nthird"]);
}

#[test]
fn paragraphs_that_do_not_fit_together_are_split() {
    let config = ChunkingConfig { max_chars: 20, numbering: false, ..ChunkingConfig::default() };
    let chunks = chunk_text("short one\n\nanother short\n\nthird", &config).unwrap();
    assert_eq!(chunks, vec!["short one", "another short\n\nthird"]);
}

#[test]
fn long_paragraph_falls_back_to_sentences() {
    let config = ChunkingConfig { max_chars: 25, numbering: false, ..ChunkingConfig::default() };
    let chunks =
        chunk_text("intro\n\nA long sentence here. And another one too.", &config).unwrap();
    assert_eq!(chunks, vec!["intro", "A long sentence here.", "And another one too."]);
}

#[test]
fn empty_separator_cuts_paragraphs_into_characters() {
    let config = ChunkingConfig {
        max_chars: 3,
        numbering: false,
        paragraph_separator: String::new(),
        ..ChunkingConfig::default()
    };
    let chunks = chunk_text("abcdefg", &config).unwrap();
    assert_eq!(chunks, vec!["abc", "def", "g"]);
}

fn visible(s: &str) -> String {
    s.chars().filter(|c| !c.is_whitespace()).collect()
}

#[test]
fn no_visible_character_is_lost() {
    let config = ChunkingConfig {
        max_chars: 12,
        numbering: false,
        ..ChunkingConfig::default()
    };
    let text = "Short.\n\nA sentence that is long! Tiny?\nsupercalifragilistic end\n---\ntail  part";
    let chunks = chunk_text(text, &config).unwrap();
    let outside_markers = text.replace("\n---\n", "\n");
    assert_eq!(visible(&chunks.concat()), visible(&outside_markers));
    assert!(chunks.iter().all(|c| !c.is_empty() && c.chars().count() <= 12));
}

use twitr::chunking::{render_prefix, split_long_token, chunk_words, split_sentences};
use twitr::text::{decimal_of, is_whitespace, replace_vec, trim_chars, lines_of, unify_newlines_of};

fn chars(s: &str) -> Vec<char> {
    s.chars().collect()
}

fn text(v: &[char]) -> String {
    v.iter().collect()
}

fn texts(v: &[Vec<char>]) -> Vec<String> {
    v.iter().map(|x| text(x)).collect()
}

#[test]
fn long_token_pieces_concatenate_to_the_token() {
    let token = chars("supercalifragilistic");
    let pieces = split_long_token(&token, 6);
    assert_eq!(texts(&pieces), vec!["superc", "alifra", "gilist", "ic"]);
    let joined: Vec<char> = pieces.concat();
    assert_eq!(joined, token);
    let exact = split_long_token(&chars("abcdef"), 3);
    assert_eq!(texts(&exact), vec!["abc", "def"]);
}

#[test]
fn prefix_of_earlier_post_is_not_wider() {
    let format = chars("[{current} of {total}] ");
    let first = render_prefix(&format, 1, 100);
    let last = render_prefix(&format, 100, 100);
    assert_eq!(text(&first), "[1 of 100] ");
    assert_eq!(text(&last), "[100 of 100] ");
    assert!(first.len() <= last.len());
}

#[test]
fn placeholders_are_replaced_everywhere() {
    let format = chars("{current}{current}-{total}{total}");
    assert_eq!(text(&render_prefix(&format, 3, 12)), "33-1212");
    let out = replace_vec(&chars("a--b--c"), &chars("--"), &chars("+"));
    assert_eq!(text(&out), "a+b+c");
}

#[test]
fn decimal_digits() {
    assert_eq!(text(&decimal_of(0)), "0");
    assert_eq!(text(&decimal_of(907)), "907");
    assert_eq!(text(&decimal_of(18446744073709551615)), "18446744073709551615");
}

#[test]
fn whitespace_matches_std() {
    for c in ['\t', '\n', ' ', '\u{85}', '\u{a0}', '\u{2003}', '\u{3000}', 'a', '-', '\u{200b}'] {
        assert_eq!(is_whitespace(c), c.is_whitespace(), "{:?}", c);
    }
    assert_eq!(text(&trim_chars(&chars("\u{3000} x y \t"))), "x y");
}

#[test]
fn lines_follow_std() {
    for s in ["", "a", "a\n", "a\r\nb", "a\rb\n", "\n\n", "x\r"] {
        let ours = texts(&lines_of(&chars(s)));
        let std_lines: Vec<String> = s.lines().map(str::to_string).collect();
        assert_eq!(ours, std_lines, "{:?}", s);
    }
    assert_eq!(text(&unify_newlines_of(&chars("a\r\nb\rc\r\r\n"))), "a\nb\nc\n\n");
}

#[test]
fn words_are_packed_greedily() {
    let out = chunk_words(&chars("aa bb cc dddddddd e"), 5);
    assert_eq!(texts(&out), vec!["aa bb", "cc", "ddddd", "ddd", "e"]);
}

#[test]
fn sentences_keep_their_terminators() {
    let out = split_sentences(&chars(" Hi. How are you?\nFine!  trailing "));
    assert_eq!(texts(&out), vec!["Hi.", "How are you?", "Fine!", "trailing"]);
}

#[test]
fn prefix_width_follows_the_digit_count() {
    let format = chars("{current}/{total}: ");
    assert_eq!(render_prefix(&format, 10, 10).len(), render_prefix(&format, 99, 99).len());
    assert!(render_prefix(&format, 9, 9).len() < render_prefix(&format, 10, 10).len());
}

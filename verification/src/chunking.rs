//! Cutting text into posts no longer than the configured limit.
use vstd::prelude::*;

use crate::config::ChunkingConfig;
use crate::text::{
    chars_of, copy_of, decimal, decimal_of, is_digit, join, join_vec, keep_nonempty,
    keep_nonempty_vec, lemma_decimal_digits, lemma_decimal_len_mono, lemma_join_len_eq,
    lemma_join_len_mono, lemma_replace_join, lemma_views_add, lemma_views_push, lines, lines_of,
    push_all, replace, replace_vec, same_chars, split_on, split_on_vec, string_of, strings_of,
    trim, trim_chars, unify_newlines, unify_newlines_of, views, words, words_of,
};
use vstd::string::*;

verus! {

/// The placeholder for the number of the post: `{current}`.
pub open spec fn current_tag() -> Seq<char> {
    seq!['{', 'c', 'u', 'r', 'r', 'e', 'n', 't', '}']
}

/// The placeholder for the number of posts: `{total}`.
pub open spec fn total_tag() -> Seq<char> {
    seq!['{', 't', 'o', 't', 'a', 'l', '}']
}

/// The numbering prefix of post `current` of `total`: `format` with every
/// `{current}` replaced by the decimal `current`, then every `{total}` by
/// the decimal `total`.
pub open spec fn spec_render_prefix(format: Seq<char>, current: nat, total: nat) -> Seq<char> {
    replace(replace(format, current_tag(), decimal(current)), total_tag(), decimal(total))
}

/// Renders the numbering prefix of post `current` of `total`.
pub fn render_prefix(format: &Vec<char>, current: usize, total: usize) -> (out: Vec<char>)
    ensures
        out@ == spec_render_prefix(format@, current as nat, total as nat),
{
    let current_tag = vec!['{', 'c', 'u', 'r', 'r', 'e', 'n', 't', '}'];
    let total_tag = vec!['{', 't', 'o', 't', 'a', 'l', '}'];
    let first = replace_vec(format, &current_tag, &decimal_of(current as u128));
    replace_vec(&first, &total_tag, &decimal_of(total as u128))
}

proof fn lemma_decimal_foreign_to_total(n: nat)
    ensures
        decimal(n).len() > 0,
        forall|k: int|
            0 <= k < decimal(n).len() ==> !total_tag().contains(#[trigger] decimal(n)[k]),
{
    lemma_decimal_digits(n);
    assert forall|k: int| 0 <= k < decimal(n).len() implies !total_tag().contains(
        #[trigger] decimal(n)[k],
    ) by {
        let c = decimal(n)[k];
        assert(is_digit(c));
        if total_tag().contains(c) {
            let j = choose|j: int| 0 <= j < total_tag().len() && total_tag()[j] == c;
            assert(0 <= j < 7);
        }
    }
}

/// The numbering prefix of an earlier post is never wider than that of the
/// last post: the width reserved for `{current}` at `total` covers them all.
pub proof fn lemma_prefix_width(format: Seq<char>, current: nat, total: nat)
    requires
        current <= total,
    ensures
        spec_render_prefix(format, current, total).len() <= spec_render_prefix(
            format,
            total,
            total,
        ).len(),
{
    let pieces = split_on(format, current_tag());
    let dt = decimal(total);
    let dc = decimal(current);
    lemma_decimal_foreign_to_total(current);
    lemma_decimal_foreign_to_total(total);
    lemma_decimal_len_mono(current, total);
    lemma_replace_join(pieces, dc, total_tag(), dt);
    lemma_replace_join(pieces, dt, total_tag(), dt);
    let replaced = Seq::new(pieces.len(), |i: int| replace(pieces[i], total_tag(), dt));
    lemma_join_len_mono(replaced, dc, dt);
}

/// The width of the numbering prefix depends only on how many digits the
/// numbers have.
pub proof fn lemma_prefix_width_digits(format: Seq<char>, n: nat, m: nat)
    requires
        decimal(n).len() == decimal(m).len(),
    ensures
        spec_render_prefix(format, n, n).len() == spec_render_prefix(format, m, m).len(),
{
    let pieces = split_on(format, current_tag());
    let dn = decimal(n);
    let dm = decimal(m);
    lemma_decimal_foreign_to_total(n);
    lemma_decimal_foreign_to_total(m);
    lemma_replace_join(pieces, dn, total_tag(), dn);
    lemma_replace_join(pieces, dm, total_tag(), dm);
    let rn = Seq::new(pieces.len(), |i: int| replace(pieces[i], total_tag(), dn));
    let rm = Seq::new(pieces.len(), |i: int| replace(pieces[i], total_tag(), dm));
    assert forall|i: int| 0 <= i < rn.len() implies (#[trigger] rn[i]).len() == rm[i].len() by {
        let parts = split_on(pieces[i], total_tag());
        lemma_join_len_eq(parts, parts, dn, dm);
    }
    lemma_join_len_eq(rn, rm, dn, dm);
}

/// Why text could not be cut into posts.
#[derive(Debug, Clone, Copy, PartialEq, Eq, Structural)]
pub enum ChunkError {
    /// `max_chars` is zero.
    ZeroLimit,
    /// The numbering prefix and the suffix leave no room for text.
    NoRoom { prefix_width: usize, suffix_width: usize, max_chars: usize },
    /// The search for the post count is caught in a cycle: reserving room
    /// for numbering one estimate gives another, and never the same.
    Unsettled,
}

impl ChunkError {
    /// What went wrong, in words.
    pub open spec fn spec_message(&self) -> Seq<char> {
        match *self {
            ChunkError::ZeroLimit => "chunking.max_chars must be greater than zero"@,
            ChunkError::NoRoom { prefix_width, suffix_width, max_chars } => "prefix and suffix consume "@
                + decimal((prefix_width + suffix_width) as nat) + " chars, leaving no room under the "@
                + decimal(max_chars as nat) + " char limit"@,
            ChunkError::Unsettled => "the post count did not settle while reserving room for numbering"@,
        }
    }

    /// What went wrong, in words.
    pub fn message(&self) -> (r: String)
        ensures
            r@ == self.spec_message(),
    {
        match *self {
            ChunkError::ZeroLimit => String::from_str("chunking.max_chars must be greater than zero"),
            ChunkError::NoRoom { prefix_width, suffix_width, max_chars } => {
                let mut r = String::from_str("prefix and suffix consume ");
                let reserved = string_of(&decimal_of(prefix_width as u128 + suffix_width as u128));
                r.append(reserved.as_str());
                r.append(" chars, leaving no room under the ");
                let limit = string_of(&decimal_of(max_chars as u128));
                r.append(limit.as_str());
                r.append(" char limit");
                r
            },
            ChunkError::Unsettled => String::from_str(
                "the post count did not settle while reserving room for numbering",
            ),
        }
    }
}

/// `cur` appended to `chunks` unless it is empty.
pub open spec fn flush(chunks: Seq<Seq<char>>, cur: Seq<char>) -> Seq<Seq<char>> {
    if cur.len() > 0 {
        chunks.push(cur)
    } else {
        chunks
    }
}

/// One step of greedy packing: `item` joins the open chunk while the result
/// fits in `limit`; an item longer than `limit` closes the open chunk and is
/// replaced by `expansion`, its own finer cut.
pub open spec fn pack_step(
    state: (Seq<Seq<char>>, Seq<char>),
    item: Seq<char>,
    joiner: Seq<char>,
    limit: nat,
    expansion: Seq<Seq<char>>,
) -> (Seq<Seq<char>>, Seq<char>) {
    let chunks = state.0;
    let cur = state.1;
    if item.len() > limit {
        (flush(chunks, cur) + expansion, Seq::empty())
    } else if cur.len() == 0 {
        (chunks, item)
    } else if cur.len() + joiner.len() + item.len() <= limit {
        (chunks, cur + joiner + item)
    } else {
        (chunks.push(cur), item)
    }
}

/// The closed chunks and the open chunk after packing `items` in order.
pub open spec fn pack_state(
    items: Seq<Seq<char>>,
    joiner: Seq<char>,
    limit: nat,
    expand: spec_fn(Seq<char>) -> Seq<Seq<char>>,
) -> (Seq<Seq<char>>, Seq<char>)
    decreases items.len(),
{
    if items.len() == 0 {
        (Seq::empty(), Seq::empty())
    } else {
        pack_step(
            pack_state(items.drop_last(), joiner, limit, expand),
            items.last(),
            joiner,
            limit,
            expand(items.last()),
        )
    }
}

/// Greedy packing of `items`, joined by `joiner`, into chunks of at most
/// `limit` characters.
pub open spec fn pack(
    items: Seq<Seq<char>>,
    joiner: Seq<char>,
    limit: nat,
    expand: spec_fn(Seq<char>) -> Seq<Seq<char>>,
) -> Seq<Seq<char>> {
    let state = pack_state(items, joiner, limit, expand);
    flush(state.0, state.1)
}

/// Closes the open chunk `current` into `chunks` unless it is empty.
pub fn flush_current(current: &mut Vec<char>, chunks: &mut Vec<Vec<char>>)
    ensures
        views(final(chunks)@) == flush(views(old(chunks)@), old(current)@),
        final(current)@ == Seq::<char>::empty(),
{
    if current.len() > 0 {
        let mut taken: Vec<char> = Vec::new();
        std::mem::swap(&mut taken, current);
        proof {
            lemma_views_push(old(chunks)@, taken);
        }
        chunks.push(taken);
    } else {
        proof {
            assert(current@ =~= Seq::<char>::empty());
        }
    }
}

/// Whether `a + b + c <= limit`.
fn fits(a: usize, b: usize, c: usize, limit: usize) -> (r: bool)
    ensures
        r == (a + b + c <= limit),
{
    a <= limit && b <= limit - a && c <= limit - a - b
}

/// Packs one more item; `expansion` is used only when the item is too long.
fn pack_item(
    chunks: &mut Vec<Vec<char>>,
    current: &mut Vec<char>,
    item: &Vec<char>,
    joiner: &Vec<char>,
    limit: usize,
    expansion: Vec<Vec<char>>,
)
    ensures
        (views(final(chunks)@), final(current)@) == pack_step(
            (views(old(chunks)@), old(current)@),
            item@,
            joiner@,
            limit as nat,
            views(expansion@),
        ),
{
    if item.len() > limit {
        flush_current(current, chunks);
        let mut more = expansion;
        proof {
            lemma_views_add(chunks@, more@);
        }
        chunks.append(&mut more);
    } else if current.len() == 0 {
        *current = copy_of(item);
    } else if fits(current.len(), joiner.len(), item.len(), limit) {
        push_all(current, joiner);
        push_all(current, item);
    } else {
        let mut taken: Vec<char> = copy_of(item);
        std::mem::swap(&mut taken, current);
        proof {
            lemma_views_push(chunks@, taken);
        }
        chunks.push(taken);
    }
}

/// The fixed-width cut of a token: characters accumulate and a piece is
/// closed as soon as it holds `limit` of them.
pub open spec fn long_state(s: Seq<char>, limit: nat) -> (Seq<Seq<char>>, Seq<char>)
    decreases s.len(),
{
    if s.len() == 0 {
        (Seq::empty(), Seq::empty())
    } else {
        let state = long_state(s.drop_last(), limit);
        let cur = state.1.push(s.last());
        if cur.len() == limit {
            (state.0.push(cur), Seq::empty())
        } else {
            (state.0, cur)
        }
    }
}

/// `s` cut into pieces of `limit` characters and a shorter last piece.
pub open spec fn spec_split_long_token(s: Seq<char>, limit: nat) -> Seq<Seq<char>> {
    let state = long_state(s, limit);
    flush(state.0, state.1)
}

/// Cuts a token that is too long for one post into pieces of `limit`
/// characters, the last one possibly shorter.
pub fn split_long_token(token: &Vec<char>, limit: usize) -> (out: Vec<Vec<char>>)
    ensures
        views(out@) == spec_split_long_token(token@, limit as nat),
{
    let mut chunks: Vec<Vec<char>> = Vec::new();
    let mut current: Vec<char> = Vec::new();
    let mut i: usize = 0;
    while i < token.len()
        invariant
            i <= token.len(),
            long_state(token@.take(i as int), limit as nat) == (views(chunks@), current@),
        decreases token.len() - i,
    {
        proof {
            assert(token@.take(i + 1).drop_last() =~= token@.take(i as int));
        }
        current.push(token[i]);
        if current.len() == limit {
            let mut taken: Vec<char> = Vec::new();
            std::mem::swap(&mut taken, &mut current);
            proof {
                lemma_views_push(chunks@, taken);
            }
            chunks.push(taken);
        }
        i += 1;
    }
    proof {
        assert(token@.take(token.len() as int) =~= token@);
    }
    flush_current(&mut current, &mut chunks);
    chunks
}

/// Expansion of a word too long for a post.
pub open spec fn token_pieces(limit: nat) -> spec_fn(Seq<char>) -> Seq<Seq<char>> {
    |w: Seq<char>| spec_split_long_token(w, limit)
}

/// The words of `s` packed greedily, joined by single spaces.
pub open spec fn spec_chunk_words(s: Seq<char>, limit: nat) -> Seq<Seq<char>> {
    pack(words(s), seq![' '], limit, token_pieces(limit))
}

/// Cuts text at whitespace into chunks of at most `limit` characters.
pub fn chunk_words(text: &Vec<char>, limit: usize) -> (out: Vec<Vec<char>>)
    ensures
        views(out@) == spec_chunk_words(text@, limit as nat),
{
    let ws = words_of(text);
    let space = vec![' '];
    let mut chunks: Vec<Vec<char>> = Vec::new();
    let mut current: Vec<char> = Vec::new();
    let mut i: usize = 0;
    while i < ws.len()
        invariant
            i <= ws.len(),
            views(ws@) == words(text@),
            space@ == seq![' '],
            pack_state(views(ws@).take(i as int), space@, limit as nat, token_pieces(limit as nat))
                == (views(chunks@), current@),
        decreases ws.len() - i,
    {
        proof {
            assert(views(ws@).take(i + 1).drop_last() =~= views(ws@).take(i as int));
            assert(views(ws@).take(i + 1).last() == ws@[i as int]@);
        }
        let expansion = if ws[i].len() > limit {
            split_long_token(&ws[i], limit)
        } else {
            Vec::new()
        };
        pack_item(&mut chunks, &mut current, &ws[i], &space, limit, expansion);
        i += 1;
    }
    proof {
        assert(views(ws@).take(ws.len() as int) =~= views(ws@));
    }
    flush_current(&mut current, &mut chunks);
    chunks
}


/// Whether a sentence ends with `c`.
pub open spec fn is_terminator(c: char) -> bool {
    c == '.' || c == '!' || c == '?' || c == '\n'
}

/// Sentences found so far and the text of the open one.
pub open spec fn sentence_state(s: Seq<char>) -> (Seq<Seq<char>>, Seq<char>)
    decreases s.len(),
{
    if s.len() == 0 {
        (Seq::empty(), Seq::empty())
    } else {
        let state = sentence_state(s.drop_last());
        let cur = state.1.push(s.last());
        if is_terminator(s.last()) {
            (flush(state.0, trim(cur)), Seq::empty())
        } else {
            (state.0, cur)
        }
    }
}

/// The trimmed, non-empty pieces of `s` that end at `.`, `!`, `?` or a line
/// break (which stay with their piece), and the trimmed rest.
pub open spec fn spec_split_sentences(s: Seq<char>) -> Seq<Seq<char>> {
    let state = sentence_state(s);
    flush(state.0, trim(state.1))
}

/// Cuts text after each `.`, `!`, `?` and line break.
pub fn split_sentences(text: &Vec<char>) -> (out: Vec<Vec<char>>)
    ensures
        views(out@) == spec_split_sentences(text@),
{
    let mut sentences: Vec<Vec<char>> = Vec::new();
    let mut current: Vec<char> = Vec::new();
    let mut i: usize = 0;
    while i < text.len()
        invariant
            i <= text.len(),
            sentence_state(text@.take(i as int)) == (views(sentences@), current@),
        decreases text.len() - i,
    {
        proof {
            assert(text@.take(i + 1).drop_last() =~= text@.take(i as int));
        }
        let ch = text[i];
        current.push(ch);
        if ch == '.' || ch == '!' || ch == '?' || ch == '\n' {
            let mut trimmed = trim_chars(&current);
            flush_current(&mut trimmed, &mut sentences);
            current = Vec::new();
        }
        i += 1;
    }
    proof {
        assert(text@.take(text.len() as int) =~= text@);
    }
    let mut trimmed = trim_chars(&current);
    flush_current(&mut trimmed, &mut sentences);
    sentences
}

/// Each piece of `ps`, trimmed.
pub open spec fn trim_all(ps: Seq<Seq<char>>) -> Seq<Seq<char>> {
    Seq::new(ps.len(), |i: int| trim(ps[i]))
}

/// Trims every buffer of `ps`.
pub fn trim_each(ps: &Vec<Vec<char>>) -> (out: Vec<Vec<char>>)
    ensures
        views(out@) == trim_all(views(ps@)),
{
    let mut out: Vec<Vec<char>> = Vec::new();
    let mut i: usize = 0;
    while i < ps.len()
        invariant
            i <= ps.len(),
            out@.len() == i,
            forall|k: int| 0 <= k < i ==> #[trigger] out@[k]@ == trim(ps@[k]@),
        decreases ps.len() - i,
    {
        out.push(trim_chars(&ps[i]));
        i += 1;
    }
    assert(views(out@) =~= trim_all(views(ps@)));
    out
}

/// The units that `chunk_segments` packs: sentences, non-blank trimmed
/// lines, or the whole trimmed text.
pub open spec fn segments(s: Seq<char>, cfg: ChunkingConfig) -> Seq<Seq<char>> {
    if cfg.split_sentences {
        spec_split_sentences(s)
    } else if cfg.preserve_line_breaks {
        keep_nonempty(trim_all(lines(s)))
    } else {
        seq![trim(s)]
    }
}

/// What joins two segments in one post.
pub open spec fn segment_joiner(cfg: ChunkingConfig) -> Seq<char> {
    if cfg.preserve_line_breaks {
        seq!['\n']
    } else {
        seq![' ']
    }
}

/// Expansion of a segment too long for a post.
pub open spec fn word_pieces(limit: nat) -> spec_fn(Seq<char>) -> Seq<Seq<char>> {
    |x: Seq<char>| spec_chunk_words(x, limit)
}

/// The segments of `s` packed greedily; a segment too long for a post is
/// cut at its words.
pub open spec fn spec_chunk_segments(s: Seq<char>, cfg: ChunkingConfig, limit: nat) -> Seq<
    Seq<char>,
> {
    pack(segments(s, cfg), segment_joiner(cfg), limit, word_pieces(limit))
}

/// Cuts text at sentences or lines into chunks of at most `limit` characters.
pub fn chunk_segments(text: &Vec<char>, config: &ChunkingConfig, limit: usize) -> (out: Vec<
    Vec<char>,
>)
    ensures
        views(out@) == spec_chunk_segments(text@, *config, limit as nat),
{
    let segs = if config.split_sentences {
        split_sentences(text)
    } else if config.preserve_line_breaks {
        let ls = lines_of(text);
        keep_nonempty_vec(&trim_each(&ls))
    } else {
        let one = vec![trim_chars(text)];
        assert(views(one@) =~= seq![trim(text@)]);
        one
    };
    let joiner = if config.preserve_line_breaks {
        vec!['\n']
    } else {
        vec![' ']
    };
    let ghost items = segments(text@, *config);
    let mut chunks: Vec<Vec<char>> = Vec::new();
    let mut current: Vec<char> = Vec::new();
    let mut i: usize = 0;
    while i < segs.len()
        invariant
            i <= segs.len(),
            views(segs@) == items,
            joiner@ == segment_joiner(*config),
            pack_state(items.take(i as int), joiner@, limit as nat, word_pieces(limit as nat)) == (
            views(chunks@), current@),
        decreases segs.len() - i,
    {
        proof {
            assert(items.take(i + 1).drop_last() =~= items.take(i as int));
            assert(items.take(i + 1).last() == segs@[i as int]@);
        }
        let expansion = if segs[i].len() > limit {
            chunk_words(&segs[i], limit)
        } else {
            Vec::new()
        };
        pack_item(&mut chunks, &mut current, &segs[i], &joiner, limit, expansion);
        i += 1;
    }
    proof {
        assert(items.take(segs.len() as int) =~= items);
    }
    flush_current(&mut current, &mut chunks);
    chunks
}


/// The non-empty pieces of `s` between matches of `sep`; an empty `sep`
/// matches between any two characters, so then every character is a piece.
pub open spec fn paragraph_pieces(s: Seq<char>, sep: Seq<char>) -> Seq<Seq<char>> {
    if sep.len() == 0 {
        Seq::new(s.len(), |i: int| seq![s[i]])
    } else {
        keep_nonempty(split_on(s, sep))
    }
}

/// The non-empty pieces of `text` between matches of `sep`.
pub fn split_paragraph_pieces(text: &Vec<char>, sep: &Vec<char>) -> (out: Vec<Vec<char>>)
    ensures
        views(out@) == paragraph_pieces(text@, sep@),
{
    if sep.len() == 0 {
        let mut out: Vec<Vec<char>> = Vec::new();
        let mut i: usize = 0;
        while i < text.len()
            invariant
                i <= text.len(),
                out@.len() == i,
                forall|k: int| 0 <= k < i ==> #[trigger] out@[k]@ == seq![text@[k]],
            decreases text.len() - i,
        {
            out.push(vec![text[i]]);
            i += 1;
        }
        assert(views(out@) =~= paragraph_pieces(text@, sep@));
        out
    } else {
        let pieces = split_on_vec(text, sep);
        keep_nonempty_vec(&pieces)
    }
}

/// Expansion of a paragraph too long for a post.
pub open spec fn segment_pieces(cfg: ChunkingConfig, limit: nat) -> spec_fn(Seq<char>) -> Seq<
    Seq<char>,
> {
    |x: Seq<char>| spec_chunk_segments(x, cfg, limit)
}

/// The paragraphs of `s` packed greedily, joined by the paragraph
/// separator; a paragraph too long for a post is cut into segments.
pub open spec fn spec_chunk_paragraphs(s: Seq<char>, cfg: ChunkingConfig, limit: nat) -> Seq<
    Seq<char>,
> {
    let sep = cfg.paragraph_separator@;
    pack(paragraph_pieces(s, sep), sep, limit, segment_pieces(cfg, limit))
}

/// Cuts text at paragraph separators into chunks of at most `limit` characters.
pub fn chunk_paragraphs(
    text: &Vec<char>,
    config: &ChunkingConfig,
    limit: usize,
) -> (out: Vec<Vec<char>>)
    ensures
        views(out@) == spec_chunk_paragraphs(text@, *config, limit as nat),
{
    let separator = chars_of(config.paragraph_separator.as_str());
    let paragraphs = split_paragraph_pieces(text, &separator);
    let ghost items = paragraph_pieces(text@, separator@);
    let mut chunks: Vec<Vec<char>> = Vec::new();
    let mut current: Vec<char> = Vec::new();
    let mut i: usize = 0;
    while i < paragraphs.len()
        invariant
            i <= paragraphs.len(),
            views(paragraphs@) == items,
            separator@ == config.paragraph_separator@,
            pack_state(
                items.take(i as int),
                separator@,
                limit as nat,
                segment_pieces(*config, limit as nat),
            ) == (views(chunks@), current@),
        decreases paragraphs.len() - i,
    {
        proof {
            assert(items.take(i + 1).drop_last() =~= items.take(i as int));
            assert(items.take(i + 1).last() == paragraphs@[i as int]@);
        }
        let expansion = if paragraphs[i].len() > limit {
            chunk_segments(&paragraphs[i], config, limit)
        } else {
            Vec::new()
        };
        pack_item(&mut chunks, &mut current, &paragraphs[i], &separator, limit, expansion);
        i += 1;
    }
    proof {
        assert(items.take(paragraphs.len() as int) =~= items);
    }
    flush_current(&mut current, &mut chunks);
    chunks
}

/// The bodies of the posts cut from one section of normalized text.
pub open spec fn spec_chunk_bodies(s: Seq<char>, cfg: ChunkingConfig, limit: nat) -> Seq<
    Seq<char>,
> {
    if cfg.preserve_paragraphs && !cfg.preserve_line_breaks {
        spec_chunk_paragraphs(s, cfg, limit)
    } else {
        spec_chunk_segments(s, cfg, limit)
    }
}

/// Cuts one section of normalized text into post bodies.
pub fn chunk_bodies(
    text: &Vec<char>,
    config: &ChunkingConfig,
    limit: usize,
) -> (out: Vec<Vec<char>>)
    ensures
        views(out@) == spec_chunk_bodies(text@, *config, limit as nat),
{
    if config.preserve_paragraphs && !config.preserve_line_breaks {
        chunk_paragraphs(text, config, limit)
    } else {
        chunk_segments(text, config, limit)
    }
}

/// A line that, once trimmed, is `---`.
pub open spec fn marker() -> Seq<char> {
    seq!['-', '-', '-']
}

/// The sections closed so far and the lines of the open one.
pub open spec fn section_state(lines: Seq<Seq<char>>) -> (Seq<Seq<char>>, Seq<Seq<char>>)
    decreases lines.len(),
{
    if lines.len() == 0 {
        (Seq::empty(), Seq::empty())
    } else {
        let state = section_state(lines.drop_last());
        if trim(lines.last()) == marker() {
            (state.0.push(join(state.1, seq!['\n'])), Seq::empty())
        } else {
            (state.0, state.1.push(lines.last()))
        }
    }
}

/// The sections of `text` between marker lines, each the `'\n'`-join of its
/// lines; there is always one more section than there are markers.
pub open spec fn spec_split_manual_sections(text: Seq<char>) -> Seq<Seq<char>> {
    let state = section_state(lines(unify_newlines(text)));
    state.0.push(join(state.1, seq!['\n']))
}

/// Cuts text at marker lines (`---`, surrounding whitespace allowed).
pub fn split_manual_sections(text: &Vec<char>) -> (out: Vec<Vec<char>>)
    ensures
        views(out@) == spec_split_manual_sections(text@),
{
    let normalized = unify_newlines_of(text);
    let ls = lines_of(&normalized);
    let ghost all = lines(unify_newlines(text@));
    let newline = vec!['\n'];
    let dashes = vec!['-', '-', '-'];
    let mut sections: Vec<Vec<char>> = Vec::new();
    let mut current: Vec<Vec<char>> = Vec::new();
    let mut i: usize = 0;
    while i < ls.len()
        invariant
            i <= ls.len(),
            views(ls@) == all,
            newline@ == seq!['\n'],
            dashes@ == marker(),
            section_state(all.take(i as int)) == (views(sections@), views(current@)),
        decreases ls.len() - i,
    {
        proof {
            assert(all.take(i + 1).drop_last() =~= all.take(i as int));
            assert(all.take(i + 1).last() == ls@[i as int]@);
        }
        let trimmed = trim_chars(&ls[i]);
        if same_chars(&trimmed, &dashes) {
            let joined = join_vec(&current, &newline);
            proof {
                lemma_views_push(sections@, joined);
            }
            sections.push(joined);
            current = Vec::new();
            proof {
                assert(views(current@) =~= Seq::<Seq<char>>::empty());
            }
        } else {
            let line = copy_of(&ls[i]);
            proof {
                lemma_views_push(current@, line);
            }
            current.push(line);
        }
        i += 1;
    }
    proof {
        assert(all.take(ls.len() as int) =~= all);
    }
    let joined = join_vec(&current, &newline);
    proof {
        lemma_views_push(sections@, joined);
    }
    sections.push(joined);
    sections
}

/// A line or paragraph cleaned up: trimmed, or, when whitespace collapses,
/// its words joined by single spaces.
pub open spec fn spec_collapse(s: Seq<char>, collapse_whitespace: bool) -> Seq<char> {
    if !collapse_whitespace {
        trim(s)
    } else {
        join(words(s), seq![' '])
    }
}

/// Cleans up one line or paragraph.
pub fn collapse_inline_whitespace(text: &Vec<char>, collapse_whitespace: bool) -> (out: Vec<char>)
    ensures
        out@ == spec_collapse(text@, collapse_whitespace),
{
    if !collapse_whitespace {
        trim_chars(text)
    } else {
        let space = vec![' '];
        assert(space@ =~= seq![' ']);
        join_vec(&words_of(text), &space)
    }
}

/// Each piece of `ps`, cleaned up.
pub open spec fn collapse_all(ps: Seq<Seq<char>>, collapse_whitespace: bool) -> Seq<Seq<char>> {
    Seq::new(ps.len(), |i: int| spec_collapse(ps[i], collapse_whitespace))
}

/// Cleans up every buffer of `ps`.
pub fn collapse_each(ps: &Vec<Vec<char>>, collapse_whitespace: bool) -> (out: Vec<Vec<char>>)
    ensures
        views(out@) == collapse_all(views(ps@), collapse_whitespace),
{
    let mut out: Vec<Vec<char>> = Vec::new();
    let mut i: usize = 0;
    while i < ps.len()
        invariant
            i <= ps.len(),
            out@.len() == i,
            forall|k: int|
                0 <= k < i ==> #[trigger] out@[k]@ == spec_collapse(ps@[k]@, collapse_whitespace),
        decreases ps.len() - i,
    {
        out.push(collapse_inline_whitespace(&ps[i], collapse_whitespace));
        i += 1;
    }
    assert(views(out@) =~= collapse_all(views(ps@), collapse_whitespace));
    out
}

/// The pieces of `s` between blank-line breaks (`"\n\n"`), trimmed, the
/// empty ones left out.
pub open spec fn spec_split_paragraphs(s: Seq<char>) -> Seq<Seq<char>> {
    keep_nonempty(trim_all(split_on(s, seq!['\n', '\n'])))
}

/// Cuts text at blank-line breaks.
pub fn split_paragraphs(text: &Vec<char>) -> (out: Vec<Vec<char>>)
    ensures
        views(out@) == spec_split_paragraphs(text@),
{
    let pieces = split_on_vec(text, &vec!['\n', '\n']);
    keep_nonempty_vec(&trim_each(&pieces))
}

/// A section made ready for cutting: line breaks kept with each line
/// cleaned up, or paragraphs cleaned up and joined by the separator.
pub open spec fn spec_normalize_text(s: Seq<char>, cfg: ChunkingConfig) -> Seq<char> {
    let n = unify_newlines(s);
    if cfg.preserve_line_breaks {
        trim(join(collapse_all(lines(n), cfg.collapse_whitespace), seq!['\n']))
    } else {
        join(
            keep_nonempty(collapse_all(spec_split_paragraphs(n), cfg.collapse_whitespace)),
            cfg.paragraph_separator@,
        )
    }
}

/// Normalizes line breaks and whitespace of one section.
pub fn normalize_text(text: &Vec<char>, config: &ChunkingConfig) -> (out: Vec<char>)
    ensures
        out@ == spec_normalize_text(text@, *config),
{
    let n = unify_newlines_of(text);
    if config.preserve_line_breaks {
        let ls = lines_of(&n);
        let cleaned = collapse_each(&ls, config.collapse_whitespace);
        let newline = vec!['\n'];
        assert(newline@ =~= seq!['\n']);
        trim_chars(&join_vec(&cleaned, &newline))
    } else {
        let paragraphs = split_paragraphs(&n);
        let cleaned = collapse_each(&paragraphs, config.collapse_whitespace);
        let separator = chars_of(config.paragraph_separator.as_str());
        join_vec(&keep_nonempty_vec(&cleaned), &separator)
    }
}


/// The pieces of `ps` that are not all whitespace, in order.
pub open spec fn keep_nonblank(ps: Seq<Seq<char>>) -> Seq<Seq<char>>
    decreases ps.len(),
{
    if ps.len() == 0 {
        Seq::empty()
    } else if trim(ps.last()).len() > 0 {
        keep_nonblank(ps.drop_last()).push(ps.last())
    } else {
        keep_nonblank(ps.drop_last())
    }
}

/// The normalized, non-blank sections of `text`.
pub open spec fn spec_sections(text: Seq<char>, cfg: ChunkingConfig) -> Seq<Seq<char>> {
    let raw = spec_split_manual_sections(text);
    keep_nonblank(Seq::new(raw.len(), |i: int| spec_normalize_text(raw[i], cfg)))
}

fn sections_of(text: &Vec<char>, config: &ChunkingConfig) -> (out: Vec<Vec<char>>)
    ensures
        views(out@) == spec_sections(text@, *config),
{
    let raw = split_manual_sections(text);
    let ghost normalized = Seq::new(
        views(raw@).len(),
        |i: int| spec_normalize_text(views(raw@)[i], *config),
    );
    let mut out: Vec<Vec<char>> = Vec::new();
    let mut i: usize = 0;
    while i < raw.len()
        invariant
            i <= raw.len(),
            normalized.len() == raw@.len(),
            forall|k: int| 0 <= k < raw@.len() ==> #[trigger] normalized[k] == spec_normalize_text(raw@[k]@, *config),
            views(out@) == keep_nonblank(normalized.take(i as int)),
        decreases raw.len() - i,
    {
        proof {
            assert(normalized.take(i + 1).drop_last() =~= normalized.take(i as int));
        }
        let section = normalize_text(&raw[i], config);
        let trimmed = trim_chars(&section);
        if trimmed.len() > 0 {
            proof {
                lemma_views_push(out@, section);
            }
            out.push(section);
        }
        i += 1;
    }
    proof {
        assert(normalized.take(raw.len() as int) =~= normalized);
    }
    out
}

/// The bodies of all sections, in order.
pub open spec fn all_bodies(sections: Seq<Seq<char>>, cfg: ChunkingConfig, limit: nat) -> Seq<
    Seq<char>,
>
    decreases sections.len(),
{
    if sections.len() == 0 {
        Seq::empty()
    } else {
        all_bodies(sections.drop_last(), cfg, limit) + spec_chunk_bodies(
            sections.last(),
            cfg,
            limit,
        )
    }
}

fn bodies_of(
    sections: &Vec<Vec<char>>,
    config: &ChunkingConfig,
    limit: usize,
) -> (out: Vec<Vec<char>>)
    ensures
        views(out@) == all_bodies(views(sections@), *config, limit as nat),
{
    let mut out: Vec<Vec<char>> = Vec::new();
    let mut i: usize = 0;
    while i < sections.len()
        invariant
            i <= sections.len(),
            views(out@) == all_bodies(views(sections@).take(i as int), *config, limit as nat),
        decreases sections.len() - i,
    {
        proof {
            assert(views(sections@).take(i + 1).drop_last() =~= views(sections@).take(i as int));
        }
        let mut more = chunk_bodies(&sections[i], config, limit);
        proof {
            lemma_views_add(out@, more@);
        }
        out.append(&mut more);
        i += 1;
    }
    proof {
        assert(views(sections@).take(sections.len() as int) =~= views(sections@));
    }
    out
}

/// Width of the numbering prefix when `n` posts are expected.
pub open spec fn prefix_width(cfg: ChunkingConfig, n: nat) -> nat {
    if cfg.numbering {
        spec_render_prefix(cfg.numbering_format@, n, n).len()
    } else {
        0
    }
}

/// The prefix of post `i` (counted from 0) of `n`.
pub open spec fn post_prefix(cfg: ChunkingConfig, i: int, n: nat) -> Seq<char> {
    if cfg.numbering {
        spec_render_prefix(cfg.numbering_format@, (i + 1) as nat, n)
    } else {
        Seq::empty()
    }
}

/// The posts: each body between its numbering prefix and the suffix.
pub open spec fn frame(bodies: Seq<Seq<char>>, cfg: ChunkingConfig) -> Seq<Seq<char>> {
    Seq::new(bodies.len(), |i: int| post_prefix(cfg, i, bodies.len()) + bodies[i] + cfg.suffix@)
}

/// How many times the post count is re-estimated before cutting gives up
/// with `ChunkError::Unsettled`. The reserved width depends only on how many
/// digits the estimate has, and a count has at most twenty, so a search
/// still going after this many rounds is caught in a cycle and would never
/// settle.
pub const SETTLE_ROUNDS: usize = 32;

/// Cutting with room reserved for numbering `expected` posts; when the cut
/// gives another count, the numbering width is re-estimated from it.
pub open spec fn settle(
    sections: Seq<Seq<char>>,
    cfg: ChunkingConfig,
    expected: nat,
    fuel: nat,
) -> Result<Seq<Seq<char>>, ChunkError>
    decreases fuel,
{
    let pw = prefix_width(cfg, expected);
    let sw = cfg.suffix@.len();
    if pw + sw >= cfg.max_chars {
        Err(
            ChunkError::NoRoom {
                prefix_width: pw as usize,
                suffix_width: sw as usize,
                max_chars: cfg.max_chars,
            },
        )
    } else {
        let bodies = all_bodies(sections, cfg, (cfg.max_chars - pw - sw) as nat);
        if bodies.len() == expected {
            Ok(frame(bodies, cfg))
        } else if fuel == 0 {
            Err(ChunkError::Unsettled)
        } else {
            settle(sections, cfg, bodies.len(), (fuel - 1) as nat)
        }
    }
}

/// What `chunk_text` gives for `text` under `cfg`.
pub open spec fn spec_chunk_text(text: Seq<char>, cfg: ChunkingConfig) -> Result<
    Seq<Seq<char>>,
    ChunkError,
> {
    if cfg.max_chars == 0 {
        Err(ChunkError::ZeroLimit)
    } else {
        let sections = spec_sections(text, cfg);
        if sections.len() == 0 {
            Ok(Seq::empty())
        } else {
            settle(sections, cfg, 1, SETTLE_ROUNDS as nat)
        }
    }
}

/// The contents of each string of `v`.
pub open spec fn texts(v: Seq<String>) -> Seq<Seq<char>> {
    Seq::new(v.len(), |i: int| v[i]@)
}

/// The contents of a result of `chunk_text`.
pub open spec fn result_texts(r: Result<Vec<String>, ChunkError>) -> Result<
    Seq<Seq<char>>,
    ChunkError,
> {
    match r {
        Ok(v) => Ok(texts(v@)),
        Err(e) => Err(e),
    }
}

fn frame_posts(bodies: &Vec<Vec<char>>, config: &ChunkingConfig, format: &Vec<char>, suffix: &Vec<
    char,
>) -> (out: Vec<String>)
    requires
        format@ == config.numbering_format@,
        suffix@ == config.suffix@,
    ensures
        texts(out@) == frame(views(bodies@), *config),
{
    let n = bodies.len();
    let mut posts: Vec<Vec<char>> = Vec::new();
    let mut i: usize = 0;
    while i < n
        invariant
            n == bodies.len(),
            i <= n,
            format@ == config.numbering_format@,
            suffix@ == config.suffix@,
            posts@.len() == i,
            forall|k: int|
                0 <= k < i ==> #[trigger] posts@[k]@ == post_prefix(*config, k, n as nat)
                    + bodies@[k]@ + config.suffix@,
        decreases n - i,
    {
        let mut post = if config.numbering {
            render_prefix(format, i + 1, n)
        } else {
            Vec::new()
        };
        push_all(&mut post, &bodies[i]);
        push_all(&mut post, suffix);
        posts.push(post);
        i += 1;
    }
    let out = strings_of(&posts);
    assert(texts(out@) =~= frame(views(bodies@), *config));
    out
}

/// Cuts `text` into posts of at most `max_chars` characters each.
///
/// Marker lines (`---`) force a break; each section is normalized, blank
/// sections are dropped, and the rest are cut into bodies by paragraphs,
/// sentences or lines, words and, for overlong tokens, fixed-width pieces.
/// When numbering is on, room for the widest prefix is reserved and the
/// count is re-estimated until the cut gives the count it was made for.
pub fn chunk_text(text: &str, config: &ChunkingConfig) -> (r: Result<Vec<String>, ChunkError>)
    ensures
        result_texts(r) == spec_chunk_text(text@, *config),
{
    if config.max_chars == 0 {
        return Err(ChunkError::ZeroLimit);
    }
    let chars = chars_of(text);
    let sections = sections_of(&chars, config);
    if sections.len() == 0 {
        let empty: Vec<String> = Vec::new();
        assert(texts(empty@) =~= Seq::<Seq<char>>::empty());
        return Ok(empty);
    }
    let format = chars_of(config.numbering_format.as_str());
    let suffix = chars_of(config.suffix.as_str());
    let ghost secs = views(sections@);
    let mut expected: usize = 1;
    let mut fuel: usize = SETTLE_ROUNDS;
    loop
        invariant
            secs == views(sections@),
            secs == spec_sections(text@, *config),
            secs.len() > 0,
            config.max_chars > 0,
            format@ == config.numbering_format@,
            suffix@ == config.suffix@,
            fuel <= SETTLE_ROUNDS,
            spec_chunk_text(text@, *config) == settle(secs, *config, expected as nat, fuel as nat),
        decreases fuel,
    {
        let prefix_width = if config.numbering {
            render_prefix(&format, expected, expected).len()
        } else {
            0
        };
        let suffix_width = suffix.len();
        if prefix_width >= config.max_chars || suffix_width >= config.max_chars - prefix_width {
            return Err(
                ChunkError::NoRoom {
                    prefix_width,
                    suffix_width,
                    max_chars: config.max_chars,
                },
            );
        }
        let limit = config.max_chars - prefix_width - suffix_width;
        let bodies = bodies_of(&sections, config, limit);
        if bodies.len() == expected {
            return Ok(frame_posts(&bodies, config, &format, &suffix));
        }
        if fuel == 0 {
            return Err(ChunkError::Unsettled);
        }
        fuel -= 1;
        expected = bodies.len();
    }
}

} // verus!

//! What each cut gives, stated over the text itself: where a sentence ends,
//! what joins the units that share a body, which cut a configuration picks
//! for a section, how a line is cleaned up, where sections start and how
//! the numbering format is filled in.
use vstd::prelude::*;

use crate::chunking::{
    flush, pack, pack_state, segment_pieces, sentence_state, word_pieces, spec_chunk_bodies, spec_chunk_segments,
    spec_chunk_words, spec_split_sentences, trim_all,
};
use crate::chunking::{collapse_all, spec_collapse, spec_normalize_text, spec_split_paragraphs};
use crate::composition::{lemma_split_when_add, lemma_split_when_plain, lemma_unify_id, no_cr};
use crate::config::ChunkingConfig;
use crate::chunking::{
    current_tag, section_state, spec_render_prefix, spec_split_manual_sections, token_pieces,
    total_tag,
};
use crate::text::{
    Separator, decimal, is_digit, is_ws, join, lead, lemma_lead_bounds, lemma_trail_bounds, trail, keep_nonempty, lemma_decimal_digits, lemma_replace_empty,
    lemma_replace_step, lemma_trim, lines, prepend, replace, split_on, split_when, starts_with, trim,
    unify_newlines, words,
};

verus! {

/// `c` closes a sentence: a full stop, an exclamation mark, a question mark
/// or a line feed.
pub open spec fn sentence_end(c: char) -> bool {
    c == '.' || c == '!' || c == '?' || c == '\n'
}

/// `x` as a single piece, or no piece when it is empty.
pub open spec fn single(x: Seq<char>) -> Seq<Seq<char>> {
    if x.len() > 0 {
        seq![x]
    } else {
        Seq::empty()
    }
}

proof fn lemma_trim_empty()
    ensures
        trim(Seq::<char>::empty()) == Seq::<char>::empty(),
{
    lemma_trim(Seq::<char>::empty());
    assert(trim(Seq::<char>::empty()) =~= Seq::<char>::empty());
}

proof fn lemma_flush_empty(x: Seq<char>)
    ensures
        flush(Seq::empty(), x) == single(x),
{
    if x.len() > 0 {
        assert(Seq::<Seq<char>>::empty().push(x) =~= seq![x]);
    }
}

proof fn lemma_flush_after(a: Seq<Seq<char>>, b: Seq<Seq<char>>, x: Seq<char>)
    ensures
        flush(a + b, x) == a + flush(b, x),
{
    if x.len() > 0 {
        assert((a + b).push(x) =~= a + b.push(x));
    }
}

/// Text with no sentence end is still open: no sentence is closed yet.
proof fn lemma_state_open(s: Seq<char>)
    requires
        forall|k: int| 0 <= k < s.len() ==> !sentence_end(#[trigger] s[k]),
    ensures
        sentence_state(s) == (Seq::<Seq<char>>::empty(), s),
    decreases s.len(),
{
    if s.len() > 0 {
        let init = s.drop_last();
        assert forall|k: int| 0 <= k < init.len() implies !sentence_end(#[trigger] init[k]) by {
            assert(init[k] == s[k]);
        }
        lemma_state_open(init);
        assert(!sentence_end(s[s.len() - 1]));
        assert(init.push(s.last()) =~= s);
    } else {
        assert(s =~= Seq::<char>::empty());
    }
}

/// A text with no sentence end before its last character is one sentence:
/// the text trimmed, or none when it is blank. In particular a comma, a
/// colon or a semicolon never closes a sentence.
pub proof fn lemma_one_sentence(s: Seq<char>)
    requires
        forall|k: int| 0 <= k < s.len() - 1 ==> !sentence_end(#[trigger] s[k]),
    ensures
        spec_split_sentences(s) == single(trim(s)),
{
    lemma_trim_empty();
    if s.len() == 0 {
        lemma_state_open(s);
        lemma_flush_empty(trim(s));
    } else {
        let init = s.drop_last();
        assert forall|k: int| 0 <= k < init.len() implies !sentence_end(#[trigger] init[k]) by {
            assert(init[k] == s[k]);
        }
        lemma_state_open(init);
        assert(init.push(s.last()) =~= s);
        lemma_flush_empty(trim(s));
        if sentence_end(s.last()) {
            assert(sentence_state(s) == (flush(Seq::empty(), trim(s)), Seq::<char>::empty()));
            if trim(s).len() > 0 {
                assert(single(trim(s)).len() == 1);
            }
        } else {
            assert(sentence_state(s) == (Seq::<Seq<char>>::empty(), s));
        }
    }
}

proof fn lemma_state_after_end(x: Seq<char>, y: Seq<char>)
    requires
        sentence_state(x).1.len() == 0,
    ensures
        sentence_state(x + y) == (sentence_state(x).0 + sentence_state(y).0, sentence_state(y).1),
    decreases y.len(),
{
    let a = sentence_state(x).0;
    if y.len() == 0 {
        assert(x + y =~= x);
        assert(a + Seq::<Seq<char>>::empty() =~= a);
        assert(sentence_state(x).1 =~= Seq::<char>::empty());
    } else {
        let yi = y.drop_last();
        assert((x + y).drop_last() =~= x + yi);
        assert((x + y).last() == y.last());
        lemma_state_after_end(x, yi);
        let st = sentence_state(yi);
        let cur = st.1.push(y.last());
        lemma_flush_after(a, st.0, trim(cur));
    }
}

/// A sentence end closes a cut: the sentences of `x + y`, where `x` ends
/// with a sentence end, are those of `x` followed by those of `y`.
pub proof fn lemma_sentences_after_end(x: Seq<char>, y: Seq<char>)
    requires
        x.len() > 0,
        sentence_end(x.last()),
    ensures
        spec_split_sentences(x + y) == spec_split_sentences(x) + spec_split_sentences(y),
{
    assert(sentence_state(x).1 == Seq::<char>::empty());
    lemma_state_after_end(x, y);
    lemma_trim_empty();
    let a = sentence_state(x).0;
    let b = sentence_state(y);
    assert(spec_split_sentences(x) == a);
    lemma_flush_after(a, b.0, trim(b.1));
}

proof fn lemma_state_nonempty(s: Seq<char>)
    ensures
        forall|i: int| 0 <= i < sentence_state(s).0.len() ==> (#[trigger] sentence_state(s).0[i]).len() > 0,
    decreases s.len(),
{
    if s.len() > 0 {
        lemma_state_nonempty(s.drop_last());
        let st = sentence_state(s.drop_last());
        let cur = st.1.push(s.last());
        if sentence_end(s.last()) {
            let f = flush(st.0, trim(cur));
            assert forall|i: int| 0 <= i < f.len() implies (#[trigger] f[i]).len() > 0 by {
                if i < st.0.len() {
                    assert(f[i] == st.0[i]);
                }
            }
        }
    }
}

/// Every sentence holds at least one character.
proof fn lemma_sentences_nonempty(s: Seq<char>)
    ensures
        forall|i: int| 0 <= i < spec_split_sentences(s).len() ==> (#[trigger] spec_split_sentences(s)[i]).len() > 0,
{
    lemma_state_nonempty(s);
}

proof fn lemma_join_nonempty(items: Seq<Seq<char>>, joiner: Seq<char>)
    requires
        items.len() > 0,
        items.last().len() > 0,
    ensures
        join(items, joiner).len() >= items.last().len(),
{
    if items.len() == 1 {
        assert(join(items, joiner) == items[0]);
    } else {
        assert(join(items, joiner) == join(items.drop_last(), joiner) + joiner + items.last());
    }
}

proof fn lemma_pack_state_joined(
    items: Seq<Seq<char>>,
    joiner: Seq<char>,
    limit: nat,
    expand: spec_fn(Seq<char>) -> Seq<Seq<char>>,
)
    requires
        forall|i: int| 0 <= i < items.len() ==> (#[trigger] items[i]).len() > 0,
        join(items, joiner).len() <= limit,
    ensures
        pack_state(items, joiner, limit, expand) == (Seq::<Seq<char>>::empty(), join(items, joiner)),
    decreases items.len(),
{
    if items.len() > 0 {
        let init = items.drop_last();
        assert forall|i: int| 0 <= i < init.len() implies (#[trigger] init[i]).len() > 0 by {
            assert(init[i] == items[i]);
        }
        if init.len() == 0 {
            assert(join(items, joiner) == items[0]);
            lemma_pack_state_joined(init, joiner, limit, expand);
        } else {
            assert(join(items, joiner) == join(init, joiner) + joiner + items.last());
            lemma_pack_state_joined(init, joiner, limit, expand);
            assert(init.last() == init[init.len() - 1]);
            lemma_join_nonempty(init, joiner);
        }
    }
}

/// Units that fit together, joiners included, make exactly one chunk.
proof fn lemma_pack_joined(
    items: Seq<Seq<char>>,
    joiner: Seq<char>,
    limit: nat,
    expand: spec_fn(Seq<char>) -> Seq<Seq<char>>,
)
    requires
        forall|i: int| 0 <= i < items.len() ==> (#[trigger] items[i]).len() > 0,
        join(items, joiner).len() <= limit,
    ensures
        pack(items, joiner, limit, expand) == single(join(items, joiner)),
        items.len() > 0 ==> join(items, joiner).len() > 0,
{
    lemma_pack_state_joined(items, joiner, limit, expand);
    lemma_flush_empty(join(items, joiner));
    if items.len() > 0 {
        assert(items.last() == items[items.len() - 1]);
        lemma_join_nonempty(items, joiner);
    }
}

/// With sentences cut and line breaks kept, sentences that fit together
/// share one body, each after a line feed.
pub proof fn lemma_kept_breaks_join_sentences(s: Seq<char>, cfg: ChunkingConfig, limit: nat)
    requires
        cfg.split_sentences,
        cfg.preserve_line_breaks,
        join(spec_split_sentences(s), seq!['\n']).len() <= limit,
    ensures
        spec_chunk_segments(s, cfg, limit) == single(join(spec_split_sentences(s), seq!['\n'])),
{
    lemma_sentences_nonempty(s);
    lemma_pack_joined(
        spec_split_sentences(s),
        seq!['\n'],
        limit,
        word_pieces(limit),
    );
}

/// With sentences cut and line breaks not kept, sentences that fit together
/// share one body, each after a space.
pub proof fn lemma_sentences_join_by_space(s: Seq<char>, cfg: ChunkingConfig, limit: nat)
    requires
        cfg.split_sentences,
        !cfg.preserve_line_breaks,
        join(spec_split_sentences(s), seq![' ']).len() <= limit,
    ensures
        spec_chunk_segments(s, cfg, limit) == single(join(spec_split_sentences(s), seq![' '])),
{
    lemma_sentences_nonempty(s);
    lemma_pack_joined(
        spec_split_sentences(s),
        seq![' '],
        limit,
        word_pieces(limit),
    );
}

/// With line breaks kept and sentences not cut, the trimmed non-blank
/// lines that fit together share one body, each after a line feed.
pub proof fn lemma_kept_breaks_join_lines(s: Seq<char>, cfg: ChunkingConfig, limit: nat)
    requires
        !cfg.split_sentences,
        cfg.preserve_line_breaks,
        join(keep_nonempty(trim_all(lines(s))), seq!['\n']).len() <= limit,
    ensures
        spec_chunk_segments(s, cfg, limit) == single(
            join(keep_nonempty(trim_all(lines(s))), seq!['\n']),
        ),
{
    let ls = keep_nonempty(trim_all(lines(s)));
    crate::idempotence::lemma_keep_nonempty_elems(trim_all(lines(s)), |x: Seq<char>| true);
    lemma_pack_joined(ls, seq!['\n'], limit, word_pieces(limit));
}

/// With neither sentences cut nor line breaks kept, the whole trimmed text
/// is one unit: one body when it fits, else cut at its words.
pub proof fn lemma_whole_text_one_unit(s: Seq<char>, cfg: ChunkingConfig, limit: nat)
    requires
        !cfg.split_sentences,
        !cfg.preserve_line_breaks,
    ensures
        spec_chunk_segments(s, cfg, limit) == (if trim(s).len() > limit {
            spec_chunk_words(trim(s), limit)
        } else {
            single(trim(s))
        }),
{
    let items = seq![trim(s)];
    let joiner = seq![' '];
    let wp = word_pieces(limit);
    assert(items.drop_last() =~= Seq::<Seq<char>>::empty());
    assert(items.last() == trim(s));
    assert(pack_state(Seq::<Seq<char>>::empty(), joiner, limit, wp) == (
    Seq::<Seq<char>>::empty(), Seq::<char>::empty()));
    assert(pack_state(items, joiner, limit, wp) == crate::chunking::pack_step(
        (Seq::<Seq<char>>::empty(), Seq::<char>::empty()),
        trim(s),
        joiner,
        limit,
        wp(trim(s)),
    ));
    lemma_flush_empty(Seq::<char>::empty());
    lemma_flush_empty(trim(s));
    let w = spec_chunk_words(trim(s), limit);
    assert(Seq::<Seq<char>>::empty() + w =~= w);
}

/// Where paragraphs are not kept whole (or line breaks are kept), a section
/// is cut as segments: sentences, lines or the whole text, never packed by
/// the paragraph separator.
pub proof fn lemma_unkept_paragraphs_cut_as_segments(s: Seq<char>, cfg: ChunkingConfig, limit: nat)
    requires
        !cfg.preserve_paragraphs || cfg.preserve_line_breaks,
    ensures
        spec_chunk_bodies(s, cfg, limit) == spec_chunk_segments(s, cfg, limit),
{
}

/// Where paragraphs are kept whole and line breaks are not, the non-empty
/// pieces between separators that fit together share one body, joined by
/// the separator.
pub proof fn lemma_paragraphs_share_a_body(s: Seq<char>, cfg: ChunkingConfig, limit: nat)
    requires
        cfg.preserve_paragraphs,
        !cfg.preserve_line_breaks,
        cfg.paragraph_separator@.len() > 0,
        join(keep_nonempty(split_on(s, cfg.paragraph_separator@)), cfg.paragraph_separator@).len()
            <= limit,
    ensures
        spec_chunk_bodies(s, cfg, limit) == single(
            join(keep_nonempty(split_on(s, cfg.paragraph_separator@)), cfg.paragraph_separator@),
        ),
{
    let sep = cfg.paragraph_separator@;
    let ps = keep_nonempty(split_on(s, sep));
    crate::idempotence::lemma_keep_nonempty_elems(split_on(s, sep), |x: Seq<char>| true);
    lemma_pack_joined(
        ps,
        sep,
        limit,
        segment_pieces(cfg, limit),
    );
}

/// Words that fit together make one chunk, joined by single spaces.
pub proof fn lemma_words_share_a_chunk(s: Seq<char>, limit: nat)
    requires
        join(words(s), seq![' ']).len() <= limit,
    ensures
        spec_chunk_words(s, limit) == single(join(words(s), seq![' '])),
{
    crate::idempotence::lemma_keep_nonempty_elems(
        split_when(s, Separator::Whitespace),
        |x: Seq<char>| true,
    );
    lemma_pack_joined(words(s), seq![' '], limit, token_pieces(limit));
}

/// Text without an opening brace passes through `replace` of a pattern that
/// starts with one.
proof fn lemma_replace_brace_free(d: Seq<char>, y: Seq<char>, p: Seq<char>, r: Seq<char>)
    requires
        p.len() > 0,
        p[0] == '{',
        forall|k: int| 0 <= k < d.len() ==> #[trigger] d[k] != '{',
    ensures
        replace(d + y, p, r) == d + replace(y, p, r),
    decreases d.len(),
{
    if d.len() > 0 {
        let s = d + y;
        assert(s[0] == d[0]);
        if starts_with(s, p) {
            assert(s.take(p.len() as int)[0] == p[0]);
        }
        lemma_replace_step(s, p, r);
        assert(s.drop_first() =~= d.drop_first() + y);
        lemma_replace_brace_free(d.drop_first(), y, p, r);
        assert(seq![d[0]] + (d.drop_first() + replace(y, p, r)) =~= d + replace(y, p, r));
    } else {
        assert(d + y =~= y);
        assert(d + replace(y, p, r) =~= replace(y, p, r));
    }
}

proof fn lemma_replace_brace_free_all(d: Seq<char>, p: Seq<char>, r: Seq<char>)
    requires
        p.len() > 0,
        p[0] == '{',
        forall|k: int| 0 <= k < d.len() ==> #[trigger] d[k] != '{',
    ensures
        replace(d, p, r) == d,
{
    lemma_replace_brace_free(d, Seq::empty(), p, r);
    lemma_replace_empty(p, r);
    assert(d + Seq::<char>::empty() =~= d);
}

/// Replacing at a match of the pattern itself.
proof fn lemma_replace_at_match(p: Seq<char>, y: Seq<char>, r: Seq<char>)
    requires
        p.len() > 0,
    ensures
        replace(p + y, p, r) == r + replace(y, p, r),
{
    let s = p + y;
    assert(s.take(p.len() as int) =~= p);
    assert(s.skip(p.len() as int) =~= y);
    lemma_replace_step(s, p, r);
}

proof fn lemma_decimal_brace_free(n: nat)
    ensures
        forall|k: int| 0 <= k < decimal(n).len() ==> #[trigger] decimal(n)[k] != '{',
{
    lemma_decimal_digits(n);
    assert forall|k: int| 0 <= k < decimal(n).len() implies #[trigger] decimal(n)[k] != '{' by {
        assert(is_digit(decimal(n)[k]));
    }
}

proof fn lemma_brace_free_add(a: Seq<char>, b: Seq<char>)
    requires
        forall|k: int| 0 <= k < a.len() ==> #[trigger] a[k] != '{',
        forall|k: int| 0 <= k < b.len() ==> #[trigger] b[k] != '{',
    ensures
        forall|k: int| 0 <= k < (a + b).len() ==> #[trigger] (a + b)[k] != '{',
{
    assert forall|k: int| 0 <= k < (a + b).len() implies #[trigger] (a + b)[k] != '{' by {
        if k >= a.len() {
            assert((a + b)[k] == b[k - a.len()]);
        }
    }
}

/// A numbering format without braces is used as it stands.
pub proof fn lemma_plain_format_as_is(format: Seq<char>, current: nat, total: nat)
    requires
        forall|k: int| 0 <= k < format.len() ==> #[trigger] format[k] != '{',
    ensures
        spec_render_prefix(format, current, total) == format,
{
    lemma_replace_brace_free_all(format, current_tag(), decimal(current));
    lemma_replace_brace_free_all(format, total_tag(), decimal(total));
}

/// The numbering prefix puts the number of the post where `{current}`
/// stands and the number of posts where `{total}` stands, and keeps the
/// text around them.
pub proof fn lemma_format_fills_placeholders(
    a: Seq<char>,
    b: Seq<char>,
    c: Seq<char>,
    current: nat,
    total: nat,
)
    requires
        forall|k: int| 0 <= k < a.len() ==> #[trigger] a[k] != '{',
        forall|k: int| 0 <= k < b.len() ==> #[trigger] b[k] != '{',
        forall|k: int| 0 <= k < c.len() ==> #[trigger] c[k] != '{',
    ensures
        spec_render_prefix(a + current_tag() + b + total_tag() + c, current, total) == a + decimal(
            current,
        ) + b + decimal(total) + c,
{
    let ct = current_tag();
    let tt = total_tag();
    let dc = decimal(current);
    let dt = decimal(total);
    // The first pass fills `{current}`.
    let tail = tt.drop_first() + c;
    assert forall|k: int| 0 <= k < tt.drop_first().len() implies #[trigger] tt.drop_first()[k]
        != '{' by {}
    lemma_brace_free_add(tt.drop_first(), c);
    lemma_replace_brace_free_all(tail, ct, dc);
    let t2 = tt + c;
    assert(t2 =~= seq!['{'] + tail);
    assert(!starts_with(t2, ct)) by {
        if starts_with(t2, ct) {
            assert(t2.take(ct.len() as int)[1] == ct[1]);
        }
    }
    lemma_replace_step(t2, ct, dc);
    assert(t2.drop_first() =~= tail);
    assert(replace(t2, ct, dc) =~= t2);
    lemma_replace_brace_free(b, t2, ct, dc);
    lemma_replace_at_match(ct, b + t2, dc);
    lemma_replace_brace_free(a, ct + (b + t2), ct, dc);
    assert(a + ct + b + tt + c =~= a + (ct + (b + t2)));
    let first = a + dc + b + tt + c;
    assert(replace(a + ct + b + tt + c, ct, dc) =~= first);
    // The second pass fills `{total}`.
    lemma_decimal_brace_free(current);
    lemma_decimal_brace_free(total);
    lemma_brace_free_add(a, dc);
    lemma_brace_free_add(a + dc, b);
    let head = a + dc + b;
    lemma_replace_brace_free_all(c, tt, dt);
    lemma_replace_at_match(tt, c, dt);
    lemma_replace_brace_free(head, tt + c, tt, dt);
    assert(first =~= head + (tt + c));
}

proof fn lemma_section_state_unmarked(ls: Seq<Seq<char>>)
    requires
        forall|i: int| 0 <= i < ls.len() ==> trim(#[trigger] ls[i]) != seq!['-', '-', '-'],
    ensures
        section_state(ls) == (Seq::<Seq<char>>::empty(), ls),
    decreases ls.len(),
{
    if ls.len() > 0 {
        let init = ls.drop_last();
        assert forall|i: int| 0 <= i < init.len() implies trim(#[trigger] init[i]) != seq![
            '-',
            '-',
            '-',
        ] by {
            assert(init[i] == ls[i]);
        }
        lemma_section_state_unmarked(init);
        assert(trim(ls[ls.len() - 1]) != seq!['-', '-', '-']);
        assert(init.push(ls.last()) =~= ls);
    } else {
        assert(ls =~= Seq::<Seq<char>>::empty());
    }
}

/// A text with no line that reads `---` once trimmed is one section: its
/// lines, line breaks unified, joined by line feeds.
pub proof fn lemma_unmarked_text_one_section(text: Seq<char>)
    requires
        forall|i: int|
            0 <= i < lines(unify_newlines(text)).len() ==> trim(
                #[trigger] lines(unify_newlines(text))[i],
            ) != seq!['-', '-', '-'],
    ensures
        spec_split_manual_sections(text) == seq![join(lines(unify_newlines(text)), seq!['\n'])],
{
    lemma_section_state_unmarked(lines(unify_newlines(text)));
    assert(Seq::<Seq<char>>::empty().push(join(lines(unify_newlines(text)), seq!['\n'])) =~= seq![
        join(lines(unify_newlines(text)), seq!['\n']),
    ]);
}

proof fn lemma_split_on_unmatched(s: Seq<char>, sep: Seq<char>)
    requires
        sep.len() > 0,
        forall|i: int| 0 <= i <= s.len() ==> !starts_with(#[trigger] s.skip(i), sep),
    ensures
        split_on(s, sep) == seq![s],
    decreases s.len(),
{
    if s.len() > 0 {
        assert(s.skip(0) =~= s);
        let t = s.drop_first();
        assert forall|i: int| 0 <= i <= t.len() implies !starts_with(#[trigger] t.skip(i), sep) by {
            assert(t.skip(i) =~= s.skip(i + 1));
        }
        lemma_split_on_unmatched(t, sep);
        assert(seq![s[0]] + t =~= s);
        assert(prepend(seq![s[0]], seq![t]) =~= seq![s]);
    } else {
        assert(s =~= Seq::<char>::empty());
    }
}

/// Where paragraphs are kept whole, a single paragraph too long for a body
/// is cut as segments: sentences, lines or words, not characters of a
/// fixed width.
pub proof fn lemma_long_paragraph_cut_as_segments(s: Seq<char>, cfg: ChunkingConfig, limit: nat)
    requires
        cfg.preserve_paragraphs,
        !cfg.preserve_line_breaks,
        cfg.paragraph_separator@.len() > 0,
        forall|i: int|
            0 <= i <= s.len() ==> !starts_with(#[trigger] s.skip(i), cfg.paragraph_separator@),
        s.len() > limit,
    ensures
        spec_chunk_bodies(s, cfg, limit) == spec_chunk_segments(s, cfg, limit),
{
    let sep = cfg.paragraph_separator@;
    lemma_split_on_unmatched(s, sep);
    let items = seq![s];
    assert(keep_nonempty(items) == keep_nonempty(items.drop_last()).push(s));
    assert(items.drop_last() =~= Seq::<Seq<char>>::empty());
    assert(keep_nonempty(items) =~= items);
    let sp = segment_pieces(cfg, limit);
    assert(pack_state(Seq::<Seq<char>>::empty(), sep, limit, sp) == (
    Seq::<Seq<char>>::empty(), Seq::<char>::empty()));
    assert(pack_state(items, sep, limit, sp) == crate::chunking::pack_step(
        (Seq::<Seq<char>>::empty(), Seq::<char>::empty()),
        s,
        sep,
        limit,
        sp(s),
    ));
    lemma_flush_empty(Seq::<char>::empty());
    let e = spec_chunk_segments(s, cfg, limit);
    assert(Seq::<Seq<char>>::empty() + e =~= e);
}

proof fn lemma_keep_nonempty_add(a: Seq<Seq<char>>, b: Seq<Seq<char>>)
    ensures
        keep_nonempty(a + b) == keep_nonempty(a) + keep_nonempty(b),
    decreases b.len(),
{
    if b.len() == 0 {
        assert(a + b =~= a);
        assert(keep_nonempty(a) + Seq::<Seq<char>>::empty() =~= keep_nonempty(a));
    } else {
        assert((a + b).drop_last() =~= a + b.drop_last());
        assert((a + b).last() == b.last());
        lemma_keep_nonempty_add(a, b.drop_last());
        if b.last().len() > 0 {
            assert((keep_nonempty(a) + keep_nonempty(b.drop_last())).push(b.last()) =~= keep_nonempty(
                a,
            ) + keep_nonempty(b.drop_last()).push(b.last()));
        }
    }
}

/// Whitespace around a text changes none of its words.
proof fn lemma_words_framed(u: Seq<char>, m: Seq<char>, v: Seq<char>)
    requires
        forall|k: int| 0 <= k < u.len() ==> is_ws(#[trigger] u[k]),
        forall|k: int| 0 <= k < v.len() ==> is_ws(#[trigger] v[k]),
    ensures
        words(u + m + v) == words(m),
    decreases u.len() + v.len(),
{
    let e = Seq::<char>::empty();
    let ws = Separator::Whitespace;
    assert(split_when(e, ws) == seq![e]);
    assert(keep_nonempty(seq![e]) == keep_nonempty(seq![e].drop_last()));
    assert(seq![e].drop_last() =~= Seq::<Seq<char>>::empty());
    if u.len() > 0 {
        let u2 = u.drop_first();
        assert forall|k: int| 0 <= k < u2.len() implies is_ws(#[trigger] u2[k]) by {
            assert(u2[k] == u[k + 1]);
        }
        lemma_words_framed(u2, m, v);
        assert(u + m + v =~= e + seq![u[0]] + (u2 + m + v));
        lemma_split_when_add(e, u[0], u2 + m + v, ws);
        lemma_keep_nonempty_add(seq![e], split_when(u2 + m + v, ws));
        assert(Seq::<Seq<char>>::empty() + words(u2 + m + v) =~= words(u2 + m + v));
    } else if v.len() > 0 {
        let v2 = v.drop_last();
        assert forall|k: int| 0 <= k < v2.len() implies is_ws(#[trigger] v2[k]) by {
            assert(v2[k] == v[k]);
        }
        lemma_words_framed(u, m, v2);
        assert(u + m + v =~= (u + m + v2) + seq![v.last()] + e);
        lemma_split_when_add(u + m + v2, v.last(), e, ws);
        lemma_keep_nonempty_add(split_when(u + m + v2, ws), seq![e]);
        assert(words(u + m + v2) + Seq::<Seq<char>>::empty() =~= words(u + m + v2));
    } else {
        assert(u + m + v =~= m);
    }
}

/// Trimming changes none of the words.
proof fn lemma_words_trim(s: Seq<char>)
    ensures
        words(trim(s)) == words(s),
{
    lemma_lead_bounds(s, 0);
    let a = lead(s, 0);
    lemma_trail_bounds(s, a, s.len() as int);
    let b = trail(s, a, s.len() as int);
    let u = s.subrange(0, a);
    let m = s.subrange(a, b);
    let v = s.subrange(b, s.len() as int);
    assert(s =~= u + m + v);
    assert forall|k: int| 0 <= k < u.len() implies is_ws(#[trigger] u[k]) by {
        assert(u[k] == s[k]);
    }
    assert forall|k: int| 0 <= k < v.len() implies is_ws(#[trigger] v[k]) by {
        assert(v[k] == s[b + k]);
    }
    lemma_words_framed(u, m, v);
}

/// A cleaned-up piece is its own trim.
proof fn lemma_collapse_trimmed(l: Seq<char>, f: bool)
    ensures
        trim(spec_collapse(l, f)) == spec_collapse(l, f),
        spec_collapse(l, f).len() > 0 <==> trim(l).len() > 0,
{
    crate::idempotence::lemma_collapse_idem(l, f);
    let c = spec_collapse(l, f);
    crate::text::lemma_trim_frame(Seq::empty(), c, Seq::empty());
    assert(Seq::<char>::empty() + c + Seq::<char>::empty() =~= c);
}

/// A section on one line is cleaned up to its words joined by single
/// spaces, or to itself trimmed when whitespace is not collapsed, whether
/// or not line breaks are kept.
pub proof fn lemma_one_line_section(s: Seq<char>, cfg: ChunkingConfig)
    requires
        forall|k: int| 0 <= k < s.len() ==> #[trigger] s[k] != '\n' && s[k] != '\r',
    ensures
        spec_normalize_text(s, cfg) == (if cfg.collapse_whitespace {
            join(words(s), seq![' '])
        } else {
            trim(s)
        }),
{
    let f = cfg.collapse_whitespace;
    assert(no_cr(s));
    lemma_unify_id(s);
    lemma_words_trim(s);
    lemma_trim_empty();
    crate::text::lemma_trim_idem_append(s, Seq::empty());
    lemma_collapse_trimmed(s, f);
    lemma_collapse_trimmed(trim(s), f);
    let want = spec_collapse(s, f);
    assert(spec_collapse(trim(s), f) == want);
    if cfg.preserve_line_breaks {
        lemma_split_when_plain(s, Separator::Newline);
        let ls = lines(s);
        if s.len() > 0 {
            assert(ls =~= seq![s]);
            assert(collapse_all(ls, f) =~= seq![want]);
        } else {
            assert(ls =~= Seq::<Seq<char>>::empty());
            assert(collapse_all(ls, f) =~= Seq::<Seq<char>>::empty());
            assert(s =~= Seq::<char>::empty());
            assert(words(s) =~= Seq::<Seq<char>>::empty()) by {
                assert(split_when(s, Separator::Whitespace) == seq![s]);
                assert(seq![s].drop_last() =~= Seq::<Seq<char>>::empty());
                assert(seq![s].last().len() == 0);
                assert(keep_nonempty(seq![s]) == keep_nonempty(Seq::<Seq<char>>::empty()));
            }
        }
    } else {
        let nn = seq!['\n', '\n'];
        assert forall|i: int| 0 <= i <= s.len() implies !starts_with(#[trigger] s.skip(i), nn) by {
            if starts_with(s.skip(i), nn) {
                assert(s.skip(i).take(2)[0] == nn[0]);
                assert(s.skip(i)[0] == s[i]);
            }
        }
        lemma_split_on_unmatched(s, nn);
        let t = trim(s);
        assert(trim_all(seq![s]) =~= seq![t]);
        assert(seq![t].drop_last() =~= Seq::<Seq<char>>::empty());
        let ps = spec_split_paragraphs(s);
        assert(trim_all(split_on(s, nn)) == seq![t]);
        assert(seq![t].last() == t);
        assert(ps == keep_nonempty(seq![t]));
        if t.len() > 0 {
            assert(keep_nonempty(seq![t]) == keep_nonempty(Seq::<Seq<char>>::empty()).push(t));
            assert(ps =~= seq![t]);
            assert(collapse_all(ps, f) =~= seq![want]);
            assert(seq![want].drop_last() =~= Seq::<Seq<char>>::empty());
            assert(keep_nonempty(seq![want]) =~= seq![want]);
        } else {
            assert(keep_nonempty(seq![t]) == keep_nonempty(Seq::<Seq<char>>::empty()));
            assert(ps =~= Seq::<Seq<char>>::empty());
            assert(collapse_all(ps, f) =~= Seq::<Seq<char>>::empty());
            assert(t =~= Seq::<char>::empty());
            assert(words(t) =~= Seq::<Seq<char>>::empty()) by {
                assert(split_when(t, Separator::Whitespace) == seq![t]);
                assert(seq![t].drop_last() =~= Seq::<Seq<char>>::empty());
                assert(keep_nonempty(seq![t]) == keep_nonempty(Seq::<Seq<char>>::empty()));
            }
        }
    }
}

proof fn lemma_nonblank_lines(s: Seq<char>)
    ensures
        keep_nonempty(trim_all(lines(s))) == keep_nonempty(
            trim_all(split_when(s, Separator::Newline)),
        ),
{
    let ps = split_when(s, Separator::Newline);
    crate::text::lemma_split_when_len(s, Separator::Newline);
    let n = ps.len();
    let body = Seq::new((n - 1) as nat, |i: int| crate::text::strip_cr(ps[i]));
    assert forall|i: int| 0 <= i < body.len() implies trim(#[trigger] body[i]) == trim(ps[i]) by {
        let p = ps[i];
        if p.len() > 0 && p.last() == '\r' {
            let cr = seq!['\r'];
            assert forall|k: int| 0 <= k < cr.len() implies is_ws(#[trigger] cr[k]) by {}
            crate::text::lemma_trim_idem_append(p.drop_last(), cr);
            assert(p.drop_last() + cr =~= p);
        }
    }
    let tp = trim_all(ps);
    let tb = trim_all(body);
    assert(tb =~= tp.drop_last());
    if ps.last().len() == 0 {
        lemma_trim_empty();
        assert(tp.last() == trim(ps[n - 1]));
        assert(tp.last().len() == 0);
        assert(keep_nonempty(tp) == keep_nonempty(tp.drop_last()));
    } else {
        assert(trim_all(body.push(ps.last())) =~= tp);
    }
}

proof fn lemma_trim_all_add(a: Seq<Seq<char>>, b: Seq<Seq<char>>)
    ensures
        trim_all(a + b) == trim_all(a) + trim_all(b),
{
    assert(trim_all(a + b) =~= trim_all(a) + trim_all(b));
}

proof fn lemma_first_newline(s: Seq<char>, i: int) -> (j: int)
    requires
        0 <= i <= s.len(),
        exists|k: int| i <= k < s.len() && s[k] == '\n',
    ensures
        i <= j < s.len(),
        s[j] == '\n',
        forall|k: int| i <= k < j ==> s[k] != '\n',
    decreases s.len() - i,
{
    if s[i] == '\n' {
        i
    } else {
        lemma_first_newline(s, i + 1)
    }
}

proof fn lemma_keep_single(x: Seq<char>)
    ensures
        keep_nonempty(seq![x]) == single(x),
{
    assert(seq![x].drop_last() =~= Seq::<Seq<char>>::empty());
    assert(seq![x].last() == x);
    assert(keep_nonempty(Seq::<Seq<char>>::empty()) == Seq::<Seq<char>>::empty());
    if x.len() > 0 {
        assert(keep_nonempty(seq![x]) == keep_nonempty(Seq::<Seq<char>>::empty()).push(x));
        assert(Seq::<Seq<char>>::empty().push(x) =~= seq![x]);
    } else {
        assert(keep_nonempty(seq![x]) == keep_nonempty(Seq::<Seq<char>>::empty()));
    }
}

/// Without `.`, `!` and `?`, the sentences are the trimmed non-blank pieces
/// between line feeds.
proof fn lemma_sentences_are_lines(s: Seq<char>)
    requires
        forall|k: int| 0 <= k < s.len() ==> #[trigger] s[k] != '.' && s[k] != '!' && s[k] != '?',
    ensures
        spec_split_sentences(s) == keep_nonempty(trim_all(split_when(s, Separator::Newline))),
    decreases s.len(),
{
    let nl = Separator::Newline;
    if exists|k: int| 0 <= k < s.len() && s[k] == '\n' {
        let j = lemma_first_newline(s, 0);
        let x = s.take(j);
        let y = s.skip(j + 1);
        let lf = seq!['\n'];
        assert(s =~= x + lf + y);
        let xe = x + lf;
        assert forall|k: int| 0 <= k < xe.len() - 1 implies !sentence_end(#[trigger] xe[k]) by {
            assert(xe[k] == s[k]);
        }
        assert(xe.last() == '\n');
        lemma_one_sentence(xe);
        assert forall|k: int| 0 <= k < lf.len() implies is_ws(#[trigger] lf[k]) by {}
        crate::text::lemma_trim_idem_append(x, lf);
        assert(s =~= xe + y);
        lemma_sentences_after_end(xe, y);
        assert forall|k: int| 0 <= k < y.len() implies #[trigger] y[k] != '.' && y[k] != '!' && y[k]
            != '?' by {
            assert(y[k] == s[j + 1 + k]);
        }
        lemma_sentences_are_lines(y);
        assert forall|k: int| 0 <= k < x.len() implies !crate::text::is_sep(nl, #[trigger] x[k]) by {
            assert(x[k] == s[k]);
        }
        lemma_split_when_plain(x, nl);
        lemma_split_when_add(x, '\n', y, nl);
        lemma_trim_all_add(seq![x], split_when(y, nl));
        assert(trim_all(seq![x]) =~= seq![trim(x)]);
        lemma_keep_nonempty_add(seq![trim(x)], trim_all(split_when(y, nl)));
        lemma_keep_single(trim(x));
    } else {
        assert forall|k: int| 0 <= k < s.len() - 1 implies !sentence_end(#[trigger] s[k]) by {
            assert(s[k] != '\n');
        }
        lemma_one_sentence(s);
        assert forall|k: int| 0 <= k < s.len() implies !crate::text::is_sep(nl, #[trigger] s[k]) by {
            assert(s[k] != '\n');
        }
        lemma_split_when_plain(s, nl);
        assert(trim_all(seq![s]) =~= seq![trim(s)]);
        lemma_keep_single(trim(s));
    }
}

/// With line breaks kept, a text without `.`, `!` and `?` is cut into its
/// trimmed non-blank lines whether or not sentences are cut, and lines that
/// fit together share one body, each after a line feed.
pub proof fn lemma_kept_breaks_lines_share_a_body(s: Seq<char>, cfg: ChunkingConfig, limit: nat)
    requires
        cfg.preserve_line_breaks,
        forall|k: int| 0 <= k < s.len() ==> #[trigger] s[k] != '.' && s[k] != '!' && s[k] != '?',
        join(keep_nonempty(trim_all(lines(s))), seq!['\n']).len() <= limit,
    ensures
        spec_chunk_segments(s, cfg, limit) == single(
            join(keep_nonempty(trim_all(lines(s))), seq!['\n']),
        ),
{
    if cfg.split_sentences {
        lemma_sentences_are_lines(s);
        lemma_nonblank_lines(s);
        lemma_kept_breaks_join_sentences(s, cfg, limit);
    } else {
        lemma_kept_breaks_join_lines(s, cfg, limit);
    }
}

} // verus!

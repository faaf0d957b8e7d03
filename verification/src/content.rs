//! No text is lost or made up: the non-whitespace characters of the posts'
//! bodies are, in order, those of the text outside its marker lines, as long
//! as the paragraph separator that joins paragraphs is whitespace. And a
//! blank text gives no posts at all.
use vstd::prelude::*;

use crate::chunking::{
    ChunkError, SETTLE_ROUNDS, all_bodies, collapse_all, flush, frame, keep_nonblank, marker,
    pack, pack_state, paragraph_pieces, prefix_width, section_state, segment_joiner,
    segment_pieces, segments, sentence_state, settle, spec_chunk_bodies, spec_chunk_paragraphs,
    spec_chunk_segments, spec_chunk_text, spec_chunk_words, spec_collapse, spec_normalize_text,
    spec_sections, spec_split_manual_sections, spec_split_paragraphs, spec_split_sentences,
    token_pieces, trim_all, word_pieces,
};
use crate::config::ChunkingConfig;
use crate::laws::{concat, lemma_split_long_token};
use crate::text::{
    Separator, is_sep, is_ws, join, keep_nonempty, lead, lemma_lead_bounds, lemma_split_on_len,
    lemma_split_when_len, lemma_trail_bounds, lines, prepend, split_on, split_when, starts_with,
    strip_cr, trail, trim, unify_newlines, words,
};

verus! {

/// The characters of `s` that are not whitespace, in order.
pub open spec fn visible(s: Seq<char>) -> Seq<char>
    decreases s.len(),
{
    if s.len() == 0 {
        s
    } else if is_ws(s.last()) {
        visible(s.drop_last())
    } else {
        visible(s.drop_last()).push(s.last())
    }
}

/// Every character of `s` is whitespace.
pub open spec fn all_ws(s: Seq<char>) -> bool {
    forall|k: int| 0 <= k < s.len() ==> is_ws(#[trigger] s[k])
}

pub proof fn lemma_visible_add(a: Seq<char>, b: Seq<char>)
    ensures
        visible(a + b) == visible(a) + visible(b),
    decreases b.len(),
{
    if b.len() == 0 {
        assert(a + b =~= a);
        assert(visible(a) + visible(b) =~= visible(a));
    } else {
        assert((a + b).drop_last() =~= a + b.drop_last());
        assert((a + b).last() == b.last());
        lemma_visible_add(a, b.drop_last());
        if !is_ws(b.last()) {
            assert(visible(a) + visible(b.drop_last()).push(b.last()) =~= (visible(a) + visible(
                b.drop_last(),
            )).push(b.last()));
        }
    }
}

pub proof fn lemma_visible_empty(s: Seq<char>)
    ensures
        visible(s).len() == 0 <==> all_ws(s),
    decreases s.len(),
{
    if s.len() > 0 {
        lemma_visible_empty(s.drop_last());
        if all_ws(s) {
            assert(all_ws(s.drop_last()) && is_ws(s.last())) by {
                assert forall|k: int| 0 <= k < s.drop_last().len() implies is_ws(
                    #[trigger] s.drop_last()[k],
                ) by {
                    assert(s.drop_last()[k] == s[k]);
                }
                assert(s.last() == s[s.len() - 1]);
            }
        }
        if visible(s).len() == 0 {
            assert forall|k: int| 0 <= k < s.len() implies is_ws(#[trigger] s[k]) by {
                if k < s.len() - 1 {
                    assert(s[k] == s.drop_last()[k]);
                }
            }
        }
    }
}

pub proof fn lemma_visible_one(c: char)
    ensures
        visible(seq![c]) == (if is_ws(c) {
            Seq::<char>::empty()
        } else {
            seq![c]
        }),
{
    assert(seq![c].drop_last() =~= Seq::<char>::empty());
    assert(seq![c].last() == c);
    assert(visible(Seq::<char>::empty()) == Seq::<char>::empty());
    if !is_ws(c) {
        assert(Seq::<char>::empty().push(c) =~= seq![c]);
    }
}

pub proof fn lemma_visible_trim(s: Seq<char>)
    ensures
        visible(trim(s)) == visible(s),
{
    lemma_lead_bounds(s, 0);
    let a = lead(s, 0);
    lemma_trail_bounds(s, a, s.len() as int);
    let b = trail(s, a, s.len() as int);
    let x = s.subrange(0, a);
    let y = s.subrange(a, b);
    let z = s.subrange(b, s.len() as int);
    assert(s =~= x + y + z);
    assert(all_ws(x)) by {
        assert forall|k: int| 0 <= k < x.len() implies is_ws(#[trigger] x[k]) by {
            assert(x[k] == s[k]);
        }
    }
    assert(all_ws(z)) by {
        assert forall|k: int| 0 <= k < z.len() implies is_ws(#[trigger] z[k]) by {
            assert(z[k] == s[b + k]);
        }
    }
    lemma_visible_empty(x);
    lemma_visible_empty(z);
    lemma_visible_add(x + y, z);
    lemma_visible_add(x, y);
    assert(visible(x) + visible(y) + visible(z) =~= visible(y));
}

pub proof fn lemma_concat_add(a: Seq<Seq<char>>, b: Seq<Seq<char>>)
    ensures
        concat(a + b) == concat(a) + concat(b),
    decreases b.len(),
{
    if b.len() == 0 {
        assert(a + b =~= a);
        assert(concat(a) + concat(b) =~= concat(a));
    } else {
        assert((a + b).drop_last() =~= a + b.drop_last());
        lemma_concat_add(a, b.drop_last());
        assert(concat(a) + concat(b.drop_last()) + b.last() =~= concat(a) + (concat(b.drop_last())
            + b.last()));
    }
}

pub proof fn lemma_concat_one(x: Seq<char>)
    ensures
        concat(seq![x]) == x,
{
    assert(seq![x].drop_last() =~= Seq::<Seq<char>>::empty());
    assert(seq![x].last() == x);
    assert(concat(Seq::<Seq<char>>::empty()) == Seq::<char>::empty());
    assert(Seq::<char>::empty() + x =~= x);
}

pub proof fn lemma_concat_cons(x: Seq<char>, xs: Seq<Seq<char>>)
    ensures
        concat(seq![x] + xs) == x + concat(xs),
{
    lemma_concat_add(seq![x], xs);
    lemma_concat_one(x);
}

pub proof fn lemma_concat_prepend(x: Seq<char>, xs: Seq<Seq<char>>)
    requires
        xs.len() >= 1,
    ensures
        concat(prepend(x, xs)) == x + concat(xs),
{
    assert(prepend(x, xs) =~= seq![x + xs[0]] + xs.drop_first());
    assert(xs =~= seq![xs[0]] + xs.drop_first());
    lemma_concat_cons(x + xs[0], xs.drop_first());
    lemma_concat_cons(xs[0], xs.drop_first());
    assert(x + xs[0] + concat(xs.drop_first()) =~= x + (xs[0] + concat(xs.drop_first())));
}

pub proof fn lemma_concat_push(xs: Seq<Seq<char>>, x: Seq<char>)
    ensures
        concat(xs.push(x)) == concat(xs) + x,
{
    assert(xs.push(x).drop_last() =~= xs);
}

/// Leaving out empty pieces changes no concatenation.
pub proof fn lemma_concat_keep_nonempty(ps: Seq<Seq<char>>)
    ensures
        concat(keep_nonempty(ps)) == concat(ps),
    decreases ps.len(),
{
    if ps.len() > 0 {
        lemma_concat_keep_nonempty(ps.drop_last());
        if ps.last().len() > 0 {
            lemma_concat_push(keep_nonempty(ps.drop_last()), ps.last());
        } else {
            assert(concat(ps.drop_last()) + ps.last() =~= concat(ps.drop_last()));
        }
    }
}

/// Pieces with the same visible characters concatenate to texts with the
/// same visible characters.
pub proof fn lemma_visible_concat_pointwise(ps: Seq<Seq<char>>, qs: Seq<Seq<char>>)
    requires
        ps.len() == qs.len(),
        forall|i: int| 0 <= i < ps.len() ==> visible(#[trigger] ps[i]) == visible(qs[i]),
    ensures
        visible(concat(ps)) == visible(concat(qs)),
    decreases ps.len(),
{
    if ps.len() > 0 {
        lemma_visible_concat_pointwise(ps.drop_last(), qs.drop_last());
        lemma_visible_add(concat(ps.drop_last()), ps.last());
        lemma_visible_add(concat(qs.drop_last()), qs.last());
        assert(visible(ps[ps.len() - 1]) == visible(qs[qs.len() - 1]));
    }
}

/// Splitting at whitespace separators keeps the visible characters.
pub proof fn lemma_visible_split_when(s: Seq<char>, sep: Separator)
    ensures
        visible(concat(split_when(s, sep))) == visible(s),
    decreases s.len(),
{
    if s.len() == 0 {
        lemma_concat_one(Seq::empty());
    } else {
        let rest = s.drop_first();
        lemma_visible_split_when(rest, sep);
        lemma_split_when_len(rest, sep);
        assert(s =~= seq![s[0]] + rest);
        lemma_visible_add(seq![s[0]], rest);
        lemma_visible_one(s[0]);
        if is_sep(sep, s[0]) {
            lemma_concat_cons(Seq::empty(), split_when(rest, sep));
            assert(Seq::<char>::empty() + concat(split_when(rest, sep)) =~= concat(
                split_when(rest, sep),
            ));
            assert(Seq::<char>::empty() + visible(rest) =~= visible(rest));
        } else {
            lemma_concat_prepend(seq![s[0]], split_when(rest, sep));
            lemma_visible_add(seq![s[0]], concat(split_when(rest, sep)));
        }
    }
}

/// Splitting at a whitespace pattern keeps the visible characters.
pub proof fn lemma_visible_split_on(s: Seq<char>, p: Seq<char>)
    requires
        all_ws(p),
    ensures
        visible(concat(split_on(s, p))) == visible(s),
    decreases s.len(),
{
    if s.len() == 0 {
        lemma_concat_one(Seq::empty());
    } else if starts_with(s, p) {
        let rest = s.skip(p.len() as int);
        lemma_visible_split_on(rest, p);
        lemma_concat_cons(Seq::empty(), split_on(rest, p));
        assert(Seq::<char>::empty() + concat(split_on(rest, p)) =~= concat(split_on(rest, p)));
        assert(s =~= p + rest);
        lemma_visible_add(p, rest);
        lemma_visible_empty(p);
        assert(visible(p) + visible(rest) =~= visible(rest));
    } else {
        let rest = s.drop_first();
        lemma_visible_split_on(rest, p);
        lemma_split_on_len(rest, p);
        lemma_concat_prepend(seq![s[0]], split_on(rest, p));
        lemma_visible_add(seq![s[0]], concat(split_on(rest, p)));
        assert(s =~= seq![s[0]] + rest);
        lemma_visible_add(seq![s[0]], rest);
    }
}

/// Joining with whitespace keeps the visible characters of the pieces.
pub proof fn lemma_visible_join(ps: Seq<Seq<char>>, sep: Seq<char>)
    requires
        all_ws(sep),
    ensures
        visible(join(ps, sep)) == visible(concat(ps)),
    decreases ps.len(),
{
    if ps.len() == 1 {
        lemma_concat_one(ps[0]);
        assert(ps =~= seq![ps[0]]);
    } else if ps.len() > 1 {
        lemma_visible_join(ps.drop_last(), sep);
        lemma_visible_add(join(ps.drop_last(), sep) + sep, ps.last());
        lemma_visible_add(join(ps.drop_last(), sep), sep);
        lemma_visible_add(concat(ps.drop_last()), ps.last());
        lemma_visible_empty(sep);
        assert(visible(join(ps.drop_last(), sep)) + visible(sep) =~= visible(join(
            ps.drop_last(),
            sep,
        )));
    }
}

/// Making `"\r\n"` and `'\r'` into `'\n'` keeps the visible characters.
pub proof fn lemma_visible_unify_newlines(s: Seq<char>)
    ensures
        visible(unify_newlines(s)) == visible(s),
    decreases s.len(),
{
    if s.len() > 0 {
        if s[0] == '\r' && s.len() > 1 && s[1] == '\n' {
            let rest = s.skip(2);
            lemma_visible_unify_newlines(rest);
            assert(s =~= seq!['\r', '\n'] + rest);
            lemma_visible_add(seq!['\r', '\n'], rest);
            lemma_visible_add(seq!['\n'], unify_newlines(rest));
            lemma_visible_one('\n');
            assert(seq!['\r', '\n'] =~= seq!['\r'] + seq!['\n']);
            lemma_visible_add(seq!['\r'], seq!['\n']);
            lemma_visible_one('\r');
        } else {
            let rest = s.drop_first();
            lemma_visible_unify_newlines(rest);
            assert(s =~= seq![s[0]] + rest);
            lemma_visible_add(seq![s[0]], rest);
            lemma_visible_one(s[0]);
            lemma_visible_one('\n');
            if s[0] == '\r' {
                lemma_visible_add(seq!['\n'], unify_newlines(rest));
            } else {
                lemma_visible_add(seq![s[0]], unify_newlines(rest));
            }
        }
    }
}

/// The lines of a text hold its visible characters.
pub proof fn lemma_visible_lines(s: Seq<char>)
    ensures
        visible(concat(lines(s))) == visible(s),
{
    let ps = split_when(s, Separator::Newline);
    lemma_split_when_len(s, Separator::Newline);
    lemma_visible_split_when(s, Separator::Newline);
    let body = Seq::new((ps.len() - 1) as nat, |i: int| strip_cr(ps[i]));
    assert forall|i: int| 0 <= i < body.len() implies visible(#[trigger] body[i]) == visible(
        ps.drop_last()[i],
    ) by {
        let x = ps[i];
        if x.len() > 0 && x.last() == '\r' {
            assert(x =~= x.drop_last() + seq!['\r']);
            lemma_visible_add(x.drop_last(), seq!['\r']);
            lemma_visible_one('\r');
            assert(visible(x.drop_last()) + Seq::<char>::empty() =~= visible(x.drop_last()));
        }
    }
    lemma_visible_concat_pointwise(body, ps.drop_last());
    assert(ps =~= ps.drop_last().push(ps.last()));
    lemma_concat_push(ps.drop_last(), ps.last());
    lemma_visible_add(concat(ps.drop_last()), ps.last());
    if ps.last().len() == 0 {
        assert(visible(ps.last()) =~= Seq::<char>::empty());
        assert(visible(concat(ps.drop_last())) + Seq::<char>::empty() =~= visible(concat(
            ps.drop_last(),
        )));
    } else {
        lemma_concat_push(body, ps.last());
        lemma_visible_add(concat(body), ps.last());
    }
}

/// The words of a text hold its visible characters.
pub proof fn lemma_visible_words(s: Seq<char>)
    ensures
        visible(concat(words(s))) == visible(s),
{
    lemma_concat_keep_nonempty(split_when(s, Separator::Whitespace));
    lemma_visible_split_when(s, Separator::Whitespace);
}


pub proof fn lemma_visible_trim_all(ps: Seq<Seq<char>>)
    ensures
        visible(concat(trim_all(ps))) == visible(concat(ps)),
{
    assert forall|i: int| 0 <= i < ps.len() implies visible(#[trigger] trim_all(ps)[i]) == visible(
        ps[i],
    ) by {
        lemma_visible_trim(ps[i]);
    }
    lemma_visible_concat_pointwise(trim_all(ps), ps);
}

/// Cleaning up a line or paragraph keeps its visible characters.
pub proof fn lemma_visible_collapse(s: Seq<char>, collapse_whitespace: bool)
    ensures
        visible(spec_collapse(s, collapse_whitespace)) == visible(s),
{
    if !collapse_whitespace {
        lemma_visible_trim(s);
    } else {
        assert(all_ws(seq![' ']));
        lemma_visible_join(words(s), seq![' ']);
        lemma_visible_words(s);
    }
}

pub proof fn lemma_visible_collapse_all(ps: Seq<Seq<char>>, collapse_whitespace: bool)
    ensures
        visible(concat(collapse_all(ps, collapse_whitespace))) == visible(concat(ps)),
{
    assert forall|i: int| 0 <= i < ps.len() implies visible(
        #[trigger] collapse_all(ps, collapse_whitespace)[i],
    ) == visible(ps[i]) by {
        lemma_visible_collapse(ps[i], collapse_whitespace);
    }
    lemma_visible_concat_pointwise(collapse_all(ps, collapse_whitespace), ps);
}

/// Normalizing a section keeps its visible characters, as long as the
/// paragraph separator it puts between paragraphs is whitespace.
pub proof fn lemma_visible_normalize(s: Seq<char>, cfg: ChunkingConfig)
    requires
        cfg.preserve_line_breaks || all_ws(cfg.paragraph_separator@),
    ensures
        visible(spec_normalize_text(s, cfg)) == visible(s),
{
    let n = unify_newlines(s);
    lemma_visible_unify_newlines(s);
    assert(all_ws(seq!['\n']));
    if cfg.preserve_line_breaks {
        let ls = collapse_all(lines(n), cfg.collapse_whitespace);
        lemma_visible_trim(join(ls, seq!['\n']));
        lemma_visible_join(ls, seq!['\n']);
        lemma_visible_collapse_all(lines(n), cfg.collapse_whitespace);
        lemma_visible_lines(n);
    } else {
        let ps = spec_split_paragraphs(n);
        let pieces = split_on(n, seq!['\n', '\n']);
        assert(all_ws(seq!['\n', '\n']));
        lemma_visible_split_on(n, seq!['\n', '\n']);
        lemma_visible_trim_all(pieces);
        lemma_concat_keep_nonempty(trim_all(pieces));
        let cs = collapse_all(ps, cfg.collapse_whitespace);
        lemma_visible_collapse_all(ps, cfg.collapse_whitespace);
        lemma_concat_keep_nonempty(cs);
        lemma_visible_join(keep_nonempty(cs), cfg.paragraph_separator@);
    }
}

pub proof fn lemma_visible_flush(chunks: Seq<Seq<char>>, cur: Seq<char>)
    ensures
        visible(concat(flush(chunks, cur))) == visible(concat(chunks)) + visible(cur),
{
    if cur.len() > 0 {
        lemma_concat_push(chunks, cur);
        lemma_visible_add(concat(chunks), cur);
    } else {
        assert(visible(cur) =~= Seq::<char>::empty());
        assert(visible(concat(chunks)) + visible(cur) =~= visible(concat(chunks)));
    }
}

proof fn lemma_visible_sentence_state(s: Seq<char>)
    ensures
        visible(concat(sentence_state(s).0)) + visible(sentence_state(s).1) == visible(s),
    decreases s.len(),
{
    if s.len() == 0 {
        assert(visible(concat(Seq::<Seq<char>>::empty())) + visible(Seq::<char>::empty())
            =~= visible(s));
    } else {
        lemma_visible_sentence_state(s.drop_last());
        let st = sentence_state(s.drop_last());
        let cur = st.1.push(s.last());
        assert(cur =~= st.1 + seq![s.last()]);
        lemma_visible_add(st.1, seq![s.last()]);
        assert(s =~= s.drop_last() + seq![s.last()]);
        lemma_visible_add(s.drop_last(), seq![s.last()]);
        if crate::chunking::is_terminator(s.last()) {
            lemma_visible_flush(st.0, trim(cur));
            lemma_visible_trim(cur);
            assert(visible(concat(st.0)) + visible(cur) + visible(Seq::<char>::empty())
                =~= visible(concat(st.0)) + (visible(st.1) + visible(seq![s.last()])));
        } else {
            assert(visible(concat(st.0)) + (visible(st.1) + visible(seq![s.last()]))
                =~= visible(concat(st.0)) + visible(st.1) + visible(seq![s.last()]));
        }
    }
}

/// Cutting into sentences keeps the visible characters.
pub proof fn lemma_visible_sentences(s: Seq<char>)
    ensures
        visible(concat(spec_split_sentences(s))) == visible(s),
{
    lemma_visible_sentence_state(s);
    let st = sentence_state(s);
    lemma_visible_flush(st.0, trim(st.1));
    lemma_visible_trim(st.1);
}

proof fn lemma_visible_pack_state(
    items: Seq<Seq<char>>,
    joiner: Seq<char>,
    limit: nat,
    expand: spec_fn(Seq<char>) -> Seq<Seq<char>>,
)
    requires
        all_ws(joiner),
        forall|x: Seq<char>| x.len() > limit ==> visible(concat(#[trigger] expand(x))) == visible(x),
    ensures
        visible(concat(pack_state(items, joiner, limit, expand).0)) + visible(
            pack_state(items, joiner, limit, expand).1,
        ) == visible(concat(items)),
    decreases items.len(),
{
    if items.len() == 0 {
        assert(visible(concat(Seq::<Seq<char>>::empty())) + visible(Seq::<char>::empty())
            =~= visible(concat(items)));
    } else {
        lemma_visible_pack_state(items.drop_last(), joiner, limit, expand);
        let st = pack_state(items.drop_last(), joiner, limit, expand);
        let item = items.last();
        let before = visible(concat(items.drop_last()));
        lemma_visible_add(concat(items.drop_last()), item);
        lemma_visible_empty(joiner);
        if item.len() > limit {
            let f = flush(st.0, st.1);
            lemma_visible_flush(st.0, st.1);
            lemma_concat_add(f, expand(item));
            lemma_visible_add(concat(f), concat(expand(item)));
            assert(visible(concat(f + expand(item))) + visible(Seq::<char>::empty())
                =~= before + visible(item));
        } else if st.1.len() == 0 {
            assert(visible(st.1) =~= Seq::<char>::empty());
            assert(visible(concat(st.0)) + visible(item) =~= before + visible(item));
        } else if st.1.len() + joiner.len() + item.len() <= limit {
            lemma_visible_add(st.1 + joiner, item);
            lemma_visible_add(st.1, joiner);
            assert(visible(concat(st.0)) + (visible(st.1) + visible(joiner) + visible(item))
                =~= before + visible(item));
        } else {
            lemma_concat_push(st.0, st.1);
            lemma_visible_add(concat(st.0), st.1);
            assert(visible(concat(st.0)) + visible(st.1) + visible(item) =~= before + visible(
                item,
            ));
        }
    }
}

/// Greedy packing with whitespace joiners keeps the visible characters,
/// provided the finer cut of every overlong item does.
pub proof fn lemma_visible_pack(
    items: Seq<Seq<char>>,
    joiner: Seq<char>,
    limit: nat,
    expand: spec_fn(Seq<char>) -> Seq<Seq<char>>,
)
    requires
        all_ws(joiner),
        forall|x: Seq<char>| x.len() > limit ==> visible(concat(#[trigger] expand(x))) == visible(x),
    ensures
        visible(concat(pack(items, joiner, limit, expand))) == visible(concat(items)),
{
    lemma_visible_pack_state(items, joiner, limit, expand);
    let st = pack_state(items, joiner, limit, expand);
    lemma_visible_flush(st.0, st.1);
}

pub proof fn lemma_visible_chunk_words(s: Seq<char>, limit: nat)
    requires
        limit > 0,
    ensures
        visible(concat(spec_chunk_words(s, limit))) == visible(s),
{
    assert forall|x: Seq<char>| x.len() > limit implies visible(
        concat(#[trigger] token_pieces(limit)(x)),
    ) == visible(x) by {
        lemma_split_long_token(x, limit);
    }
    assert(all_ws(seq![' ']));
    lemma_visible_pack(words(s), seq![' '], limit, token_pieces(limit));
    lemma_visible_words(s);
}

pub proof fn lemma_visible_segments(s: Seq<char>, cfg: ChunkingConfig)
    ensures
        visible(concat(segments(s, cfg))) == visible(s),
{
    if cfg.split_sentences {
        lemma_visible_sentences(s);
    } else if cfg.preserve_line_breaks {
        lemma_concat_keep_nonempty(trim_all(lines(s)));
        lemma_visible_trim_all(lines(s));
        lemma_visible_lines(s);
    } else {
        lemma_concat_one(trim(s));
        lemma_visible_trim(s);
    }
}

pub proof fn lemma_visible_chunk_segments(s: Seq<char>, cfg: ChunkingConfig, limit: nat)
    requires
        limit > 0,
    ensures
        visible(concat(spec_chunk_segments(s, cfg, limit))) == visible(s),
{
    assert forall|x: Seq<char>| x.len() > limit implies visible(
        concat(#[trigger] word_pieces(limit)(x)),
    ) == visible(x) by {
        lemma_visible_chunk_words(x, limit);
    }
    assert(all_ws(segment_joiner(cfg)));
    lemma_visible_pack(segments(s, cfg), segment_joiner(cfg), limit, word_pieces(limit));
    lemma_visible_segments(s, cfg);
}

proof fn lemma_concat_chars(s: Seq<char>)
    ensures
        concat(Seq::new(s.len(), |i: int| seq![s[i]])) == s,
    decreases s.len(),
{
    let ps = Seq::new(s.len(), |i: int| seq![s[i]]);
    if s.len() > 0 {
        lemma_concat_chars(s.drop_last());
        assert(ps.drop_last() =~= Seq::new(
            s.drop_last().len(),
            |i: int| seq![s.drop_last()[i]],
        ));
        assert(s =~= s.drop_last() + seq![s.last()]);
    } else {
        assert(s =~= Seq::<char>::empty());
    }
}

pub proof fn lemma_visible_chunk_bodies(s: Seq<char>, cfg: ChunkingConfig, limit: nat)
    requires
        limit > 0,
        cfg.preserve_line_breaks || all_ws(cfg.paragraph_separator@),
    ensures
        visible(concat(spec_chunk_bodies(s, cfg, limit))) == visible(s),
{
    if cfg.preserve_paragraphs && !cfg.preserve_line_breaks {
        let sep = cfg.paragraph_separator@;
        assert forall|x: Seq<char>| x.len() > limit implies visible(
            concat(#[trigger] segment_pieces(cfg, limit)(x)),
        ) == visible(x) by {
            lemma_visible_chunk_segments(x, cfg, limit);
        }
        lemma_visible_pack(paragraph_pieces(s, sep), sep, limit, segment_pieces(cfg, limit));
        if sep.len() == 0 {
            lemma_concat_chars(s);
        } else {
            lemma_concat_keep_nonempty(split_on(s, sep));
            lemma_visible_split_on(s, sep);
        }
        assert(spec_chunk_bodies(s, cfg, limit) == spec_chunk_paragraphs(s, cfg, limit));
    } else {
        lemma_visible_chunk_segments(s, cfg, limit);
    }
}

pub proof fn lemma_visible_all_bodies(sections: Seq<Seq<char>>, cfg: ChunkingConfig, limit: nat)
    requires
        limit > 0,
        cfg.preserve_line_breaks || all_ws(cfg.paragraph_separator@),
    ensures
        visible(concat(all_bodies(sections, cfg, limit))) == visible(concat(sections)),
    decreases sections.len(),
{
    if sections.len() > 0 {
        lemma_visible_all_bodies(sections.drop_last(), cfg, limit);
        let a = all_bodies(sections.drop_last(), cfg, limit);
        let b = spec_chunk_bodies(sections.last(), cfg, limit);
        lemma_visible_chunk_bodies(sections.last(), cfg, limit);
        lemma_concat_add(a, b);
        lemma_visible_add(concat(a), concat(b));
        lemma_visible_add(concat(sections.drop_last()), sections.last());
    }
}


/// The lines of `ls` that are not marker lines.
pub open spec fn drop_markers(ls: Seq<Seq<char>>) -> Seq<Seq<char>>
    decreases ls.len(),
{
    if ls.len() == 0 {
        Seq::empty()
    } else if trim(ls.last()) == marker() {
        drop_markers(ls.drop_last())
    } else {
        drop_markers(ls.drop_last()).push(ls.last())
    }
}

/// The lines of `text` outside its marker lines.
pub open spec fn unmarked_lines(text: Seq<char>) -> Seq<Seq<char>> {
    drop_markers(lines(unify_newlines(text)))
}

proof fn lemma_visible_section_state(ls: Seq<Seq<char>>)
    ensures
        visible(concat(section_state(ls).0)) + visible(concat(section_state(ls).1)) == visible(
            concat(drop_markers(ls)),
        ),
    decreases ls.len(),
{
    if ls.len() == 0 {
        assert(visible(concat(Seq::<Seq<char>>::empty())) + visible(
            concat(Seq::<Seq<char>>::empty()),
        ) =~= visible(concat(drop_markers(ls))));
    } else {
        lemma_visible_section_state(ls.drop_last());
        let st = section_state(ls.drop_last());
        let l = ls.last();
        if trim(l) == marker() {
            let j = join(st.1, seq!['\n']);
            assert(all_ws(seq!['\n']));
            lemma_visible_join(st.1, seq!['\n']);
            lemma_concat_push(st.0, j);
            lemma_visible_add(concat(st.0), j);
            assert(visible(concat(st.0)) + visible(j) + visible(concat(Seq::<Seq<char>>::empty()))
                =~= visible(concat(st.0)) + visible(concat(st.1)));
        } else {
            lemma_concat_push(st.1, l);
            lemma_visible_add(concat(st.1), l);
            lemma_concat_push(drop_markers(ls.drop_last()), l);
            lemma_visible_add(concat(drop_markers(ls.drop_last())), l);
            assert(visible(concat(st.0)) + (visible(concat(st.1)) + visible(l)) =~= visible(
                concat(st.0),
            ) + visible(concat(st.1)) + visible(l));
        }
    }
}

/// The sections between marker lines hold the visible characters of the
/// other lines.
pub proof fn lemma_visible_manual_sections(text: Seq<char>)
    ensures
        visible(concat(spec_split_manual_sections(text))) == visible(
            concat(unmarked_lines(text)),
        ),
{
    let ls = lines(unify_newlines(text));
    lemma_visible_section_state(ls);
    let st = section_state(ls);
    let j = join(st.1, seq!['\n']);
    assert(all_ws(seq!['\n']));
    lemma_visible_join(st.1, seq!['\n']);
    lemma_concat_push(st.0, j);
    lemma_visible_add(concat(st.0), j);
}

/// Leaving out blank pieces keeps the visible characters.
pub proof fn lemma_visible_keep_nonblank(ps: Seq<Seq<char>>)
    ensures
        visible(concat(keep_nonblank(ps))) == visible(concat(ps)),
    decreases ps.len(),
{
    if ps.len() > 0 {
        lemma_visible_keep_nonblank(ps.drop_last());
        lemma_visible_add(concat(ps.drop_last()), ps.last());
        if trim(ps.last()).len() > 0 {
            lemma_concat_push(keep_nonblank(ps.drop_last()), ps.last());
            lemma_visible_add(concat(keep_nonblank(ps.drop_last())), ps.last());
        } else {
            crate::text::lemma_trim(ps.last());
            lemma_visible_empty(ps.last());
            assert(visible(concat(ps.drop_last())) + visible(ps.last()) =~= visible(
                concat(ps.drop_last()),
            ));
        }
    }
}

/// The normalized, non-blank sections hold the visible characters of the
/// text outside its marker lines.
pub proof fn lemma_visible_sections(text: Seq<char>, cfg: ChunkingConfig)
    requires
        cfg.preserve_line_breaks || all_ws(cfg.paragraph_separator@),
    ensures
        visible(concat(spec_sections(text, cfg))) == visible(concat(unmarked_lines(text))),
{
    let raw = spec_split_manual_sections(text);
    let normalized = Seq::new(raw.len(), |i: int| spec_normalize_text(raw[i], cfg));
    assert forall|i: int| 0 <= i < raw.len() implies visible(#[trigger] normalized[i]) == visible(
        raw[i],
    ) by {
        lemma_visible_normalize(raw[i], cfg);
    }
    lemma_visible_concat_pointwise(normalized, raw);
    lemma_visible_keep_nonblank(normalized);
    lemma_visible_manual_sections(text);
}

proof fn lemma_settle_bodies(
    sections: Seq<Seq<char>>,
    cfg: ChunkingConfig,
    expected: nat,
    fuel: nat,
    posts: Seq<Seq<char>>,
)
    requires
        settle(sections, cfg, expected, fuel) == Ok::<Seq<Seq<char>>, ChunkError>(posts),
    ensures
        exists|limit: nat| limit > 0 && posts == frame(all_bodies(sections, cfg, limit), cfg),
    decreases fuel,
{
    let pw = prefix_width(cfg, expected);
    let sw = cfg.suffix@.len();
    if pw + sw < cfg.max_chars {
        let limit = (cfg.max_chars - pw - sw) as nat;
        let bodies = all_bodies(sections, cfg, limit);
        if bodies.len() == expected {
            assert(limit > 0 && posts == frame(all_bodies(sections, cfg, limit), cfg));
        } else if fuel > 0 {
            lemma_settle_bodies(sections, cfg, bodies.len(), (fuel - 1) as nat, posts);
        }
    }
}

/// No text is lost or made up: the posts are bodies framed by their
/// numbering prefix and the suffix, and the non-whitespace characters of the
/// bodies are, in order, those of the text outside its marker lines (of the
/// whole text when it has no marker line). This needs a whitespace paragraph
/// separator unless line breaks are preserved, since the separator is put
/// between paragraphs.
pub proof fn lemma_no_text_lost(text: Seq<char>, cfg: ChunkingConfig, posts: Seq<Seq<char>>)
    requires
        spec_chunk_text(text, cfg) == Ok::<Seq<Seq<char>>, ChunkError>(posts),
        cfg.preserve_line_breaks || all_ws(cfg.paragraph_separator@),
    ensures
        exists|bodies: Seq<Seq<char>>|
            {
                &&& posts == frame(bodies, cfg)
                &&& visible(concat(bodies)) == visible(concat(unmarked_lines(text)))
            },
        (forall|i: int|
            0 <= i < lines(unify_newlines(text)).len() ==> trim(
                #[trigger] lines(unify_newlines(text))[i],
            ) != marker()) ==> visible(concat(unmarked_lines(text))) == visible(text),
{
    let sections = spec_sections(text, cfg);
    lemma_visible_sections(text, cfg);
    if sections.len() == 0 {
        let bodies = Seq::<Seq<char>>::empty();
        assert(posts =~= frame(bodies, cfg));
        assert(visible(concat(sections)) =~= Seq::<char>::empty());
    } else {
        lemma_settle_bodies(sections, cfg, 1, SETTLE_ROUNDS as nat, posts);
        let limit = choose|limit: nat|
            limit > 0 && posts == frame(all_bodies(sections, cfg, limit), cfg);
        lemma_visible_all_bodies(sections, cfg, limit);
    }
    let ls = lines(unify_newlines(text));
    if forall|i: int| 0 <= i < ls.len() ==> trim(#[trigger] ls[i]) != marker() {
        lemma_drop_no_markers(ls);
        lemma_visible_lines(unify_newlines(text));
        lemma_visible_unify_newlines(text);
    }
}

proof fn lemma_drop_no_markers(ls: Seq<Seq<char>>)
    requires
        forall|i: int| 0 <= i < ls.len() ==> trim(#[trigger] ls[i]) != marker(),
    ensures
        drop_markers(ls) == ls,
    decreases ls.len(),
{
    if ls.len() > 0 {
        assert(trim(ls[ls.len() - 1]) != marker());
        assert forall|i: int| 0 <= i < ls.drop_last().len() implies trim(
            #[trigger] ls.drop_last()[i],
        ) != marker() by {
            assert(ls.drop_last()[i] == ls[i]);
        }
        lemma_drop_no_markers(ls.drop_last());
        assert(ls.drop_last().push(ls.last()) =~= ls);
    }
}

proof fn lemma_visible_concat_empty(ps: Seq<Seq<char>>)
    requires
        visible(concat(ps)).len() == 0,
    ensures
        forall|i: int| 0 <= i < ps.len() ==> all_ws(#[trigger] ps[i]),
    decreases ps.len(),
{
    if ps.len() > 0 {
        lemma_visible_add(concat(ps.drop_last()), ps.last());
        lemma_visible_concat_empty(ps.drop_last());
        lemma_visible_empty(ps.last());
        assert forall|i: int| 0 <= i < ps.len() implies all_ws(#[trigger] ps[i]) by {
            if i < ps.len() - 1 {
                assert(ps[i] == ps.drop_last()[i]);
            }
        }
    }
}

proof fn lemma_drop_markers_blank(ls: Seq<Seq<char>>)
    requires
        visible(concat(ls)).len() == 0,
    ensures
        visible(concat(drop_markers(ls))).len() == 0,
    decreases ls.len(),
{
    if ls.len() > 0 {
        lemma_visible_add(concat(ls.drop_last()), ls.last());
        lemma_drop_markers_blank(ls.drop_last());
        if trim(ls.last()) != marker() {
            lemma_concat_push(drop_markers(ls.drop_last()), ls.last());
            lemma_visible_add(concat(drop_markers(ls.drop_last())), ls.last());
        }
    }
}

proof fn lemma_keep_nonempty_none(ps: Seq<Seq<char>>)
    requires
        forall|i: int| 0 <= i < ps.len() ==> (#[trigger] ps[i]).len() == 0,
    ensures
        keep_nonempty(ps) == Seq::<Seq<char>>::empty(),
    decreases ps.len(),
{
    if ps.len() > 0 {
        assert(ps[ps.len() - 1].len() == 0);
        assert forall|i: int| 0 <= i < ps.drop_last().len() implies (
        #[trigger] ps.drop_last()[i]).len() == 0 by {
            assert(ps.drop_last()[i] == ps[i]);
        }
        lemma_keep_nonempty_none(ps.drop_last());
    }
}

proof fn lemma_keep_nonblank_none(ps: Seq<Seq<char>>)
    requires
        forall|i: int| 0 <= i < ps.len() ==> trim(#[trigger] ps[i]).len() == 0,
    ensures
        keep_nonblank(ps) == Seq::<Seq<char>>::empty(),
    decreases ps.len(),
{
    if ps.len() > 0 {
        assert(trim(ps[ps.len() - 1]).len() == 0);
        assert forall|i: int| 0 <= i < ps.drop_last().len() implies trim(
            #[trigger] ps.drop_last()[i],
        ).len() == 0 by {
            assert(ps.drop_last()[i] == ps[i]);
        }
        lemma_keep_nonblank_none(ps.drop_last());
    }
}

proof fn lemma_normalize_blank(s: Seq<char>, cfg: ChunkingConfig)
    requires
        all_ws(s),
    ensures
        trim(spec_normalize_text(s, cfg)).len() == 0,
{
    let out = spec_normalize_text(s, cfg);
    lemma_visible_empty(s);
    if cfg.preserve_line_breaks {
        lemma_visible_normalize(s, cfg);
        lemma_visible_empty(out);
        crate::text::lemma_trim(out);
    } else {
        let n = unify_newlines(s);
        lemma_visible_unify_newlines(s);
        let pieces = split_on(n, seq!['\n', '\n']);
        assert(all_ws(seq!['\n', '\n']));
        lemma_visible_split_on(n, seq!['\n', '\n']);
        lemma_visible_concat_empty(pieces);
        assert forall|i: int| 0 <= i < trim_all(pieces).len() implies (
        #[trigger] trim_all(pieces)[i]).len() == 0 by {
            crate::text::lemma_trim(pieces[i]);
        }
        lemma_keep_nonempty_none(trim_all(pieces));
        let cs = collapse_all(spec_split_paragraphs(n), cfg.collapse_whitespace);
        assert(cs =~= Seq::<Seq<char>>::empty());
        lemma_keep_nonempty_none(cs);
        assert(out =~= Seq::<char>::empty());
        crate::text::lemma_trim(out);
    }
}

/// A text of nothing but whitespace gives no posts (once the limit is
/// positive), whatever the configuration.
pub proof fn lemma_blank_text_gives_no_posts(text: Seq<char>, cfg: ChunkingConfig)
    requires
        cfg.max_chars > 0,
        all_ws(text),
    ensures
        spec_chunk_text(text, cfg) == Ok::<Seq<Seq<char>>, ChunkError>(Seq::empty()),
{
    let raw = spec_split_manual_sections(text);
    let ls = lines(unify_newlines(text));
    lemma_visible_empty(text);
    lemma_visible_unify_newlines(text);
    lemma_visible_lines(unify_newlines(text));
    lemma_drop_markers_blank(ls);
    lemma_visible_manual_sections(text);
    lemma_visible_concat_empty(raw);
    let normalized = Seq::new(raw.len(), |i: int| spec_normalize_text(raw[i], cfg));
    assert forall|i: int| 0 <= i < normalized.len() implies trim(#[trigger] normalized[i]).len()
        == 0 by {
        lemma_normalize_blank(raw[i], cfg);
    }
    lemma_keep_nonblank_none(normalized);
}

} // verus!

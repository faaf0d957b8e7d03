//! What holds of every cut: no post exceeds the limit, every post is
//! framed by its numbering prefix and the suffix, and long tokens lose no
//! character.
use vstd::prelude::*;

use crate::chunking::{
    ChunkError, SETTLE_ROUNDS, all_bodies, flush, frame, lemma_prefix_width, long_state, pack,
    pack_state, post_prefix, prefix_width, segment_pieces, settle, spec_chunk_bodies,
    spec_chunk_paragraphs, spec_chunk_segments, spec_chunk_text, spec_chunk_words,
    spec_render_prefix, spec_sections, spec_split_long_token, token_pieces, word_pieces,
};
use crate::config::ChunkingConfig;

verus! {

/// Every piece is non-empty and at most `limit` characters long.
pub open spec fn pieces_fit(ps: Seq<Seq<char>>, limit: nat) -> bool {
    forall|i: int| 0 <= i < ps.len() ==> 0 < #[trigger] ps[i].len() <= limit
}

proof fn lemma_long_state(s: Seq<char>, limit: nat)
    requires
        limit > 0,
    ensures
        long_state(s, limit).1.len() < limit,
        forall|i: int|
            0 <= i < long_state(s, limit).0.len() ==> #[trigger] long_state(s, limit).0[i].len()
                == limit,
    decreases s.len(),
{
    if s.len() > 0 {
        lemma_long_state(s.drop_last(), limit);
    }
}

/// The concatenation of `ps`.
pub open spec fn concat(ps: Seq<Seq<char>>) -> Seq<char>
    decreases ps.len(),
{
    if ps.len() == 0 {
        Seq::empty()
    } else {
        concat(ps.drop_last()) + ps.last()
    }
}

proof fn lemma_long_state_concat(s: Seq<char>, limit: nat)
    requires
        limit > 0,
    ensures
        concat(long_state(s, limit).0) + long_state(s, limit).1 == s,
    decreases s.len(),
{
    if s.len() > 0 {
        lemma_long_state_concat(s.drop_last(), limit);
        let st = long_state(s.drop_last(), limit);
        let cur = st.1.push(s.last());
        if cur.len() == limit {
            assert(st.0.push(cur).drop_last() =~= st.0);
            assert(concat(st.0) + cur + Seq::<char>::empty() =~= concat(st.0) + st.1 + seq![
                s.last(),
            ]);
        } else {
            assert(concat(st.0) + cur =~= concat(st.0) + st.1 + seq![s.last()]);
        }
        assert(s.drop_last().push(s.last()) =~= s);
    }
}

/// Cutting an overlong token loses and adds nothing: the pieces concatenate
/// to the token, every piece but the last holds exactly `limit` characters
/// and the last holds between one and `limit`.
pub proof fn lemma_split_long_token(token: Seq<char>, limit: nat)
    requires
        limit > 0,
    ensures
        concat(spec_split_long_token(token, limit)) == token,
        pieces_fit(spec_split_long_token(token, limit), limit),
        forall|i: int|
            0 <= i < spec_split_long_token(token, limit).len() - 1
                ==> #[trigger] spec_split_long_token(token, limit)[i].len() == limit,
{
    lemma_long_state(token, limit);
    lemma_long_state_concat(token, limit);
    let st = long_state(token, limit);
    if st.1.len() > 0 {
        assert(st.0.push(st.1).drop_last() =~= st.0);
    } else {
        assert(concat(st.0) + st.1 =~= concat(st.0));
    }
}

proof fn lemma_pack_state_fits(
    items: Seq<Seq<char>>,
    joiner: Seq<char>,
    limit: nat,
    expand: spec_fn(Seq<char>) -> Seq<Seq<char>>,
)
    requires
        forall|x: Seq<char>| x.len() > limit ==> pieces_fit(#[trigger] expand(x), limit),
    ensures
        pieces_fit(pack_state(items, joiner, limit, expand).0, limit),
        pack_state(items, joiner, limit, expand).1.len() <= limit,
    decreases items.len(),
{
    if items.len() > 0 {
        lemma_pack_state_fits(items.drop_last(), joiner, limit, expand);
        let st = pack_state(items.drop_last(), joiner, limit, expand);
        let item = items.last();
        if item.len() > limit {
            let f = flush(st.0, st.1);
            let e = expand(item);
            assert(pieces_fit(e, limit));
            assert forall|i: int| 0 <= i < (f + e).len() implies 0 < #[trigger] (f + e)[i].len()
                <= limit by {
                if i >= f.len() {
                    assert((f + e)[i] == e[i - f.len()]);
                }
            }
        }
    }
}

/// Greedy packing gives non-empty chunks within the limit, provided the
/// finer cut of every overlong item does.
pub proof fn lemma_pack_fits(
    items: Seq<Seq<char>>,
    joiner: Seq<char>,
    limit: nat,
    expand: spec_fn(Seq<char>) -> Seq<Seq<char>>,
)
    requires
        forall|x: Seq<char>| x.len() > limit ==> pieces_fit(#[trigger] expand(x), limit),
    ensures
        pieces_fit(pack(items, joiner, limit, expand), limit),
{
    lemma_pack_state_fits(items, joiner, limit, expand);
}

/// Word-level cuts are non-empty and within the limit.
pub proof fn lemma_chunk_words_fit(s: Seq<char>, limit: nat)
    requires
        limit > 0,
    ensures
        pieces_fit(spec_chunk_words(s, limit), limit),
{
    assert forall|x: Seq<char>| x.len() > limit implies pieces_fit(
        #[trigger] token_pieces(limit)(x),
        limit,
    ) by {
        lemma_split_long_token(x, limit);
    }
    lemma_pack_fits(crate::text::words(s), seq![' '], limit, token_pieces(limit));
}

/// Sentence- or line-level cuts are non-empty and within the limit.
pub proof fn lemma_chunk_segments_fit(s: Seq<char>, cfg: ChunkingConfig, limit: nat)
    requires
        limit > 0,
    ensures
        pieces_fit(spec_chunk_segments(s, cfg, limit), limit),
{
    assert forall|x: Seq<char>| x.len() > limit implies pieces_fit(
        #[trigger] word_pieces(limit)(x),
        limit,
    ) by {
        lemma_chunk_words_fit(x, limit);
    }
    lemma_pack_fits(
        crate::chunking::segments(s, cfg),
        crate::chunking::segment_joiner(cfg),
        limit,
        word_pieces(limit),
    );
}

/// Every body cut from a section is non-empty and within the limit.
pub proof fn lemma_chunk_bodies_fit(s: Seq<char>, cfg: ChunkingConfig, limit: nat)
    requires
        limit > 0,
    ensures
        pieces_fit(spec_chunk_bodies(s, cfg, limit), limit),
{
    if cfg.preserve_paragraphs && !cfg.preserve_line_breaks {
        assert forall|x: Seq<char>| x.len() > limit implies pieces_fit(
            #[trigger] segment_pieces(cfg, limit)(x),
            limit,
        ) by {
            lemma_chunk_segments_fit(x, cfg, limit);
        }
        let sep = cfg.paragraph_separator@;
        lemma_pack_fits(
            crate::chunking::paragraph_pieces(s, sep),
            sep,
            limit,
            segment_pieces(cfg, limit),
        );
        assert(spec_chunk_bodies(s, cfg, limit) == spec_chunk_paragraphs(s, cfg, limit));
    } else {
        lemma_chunk_segments_fit(s, cfg, limit);
    }
}

proof fn lemma_all_bodies_fit(sections: Seq<Seq<char>>, cfg: ChunkingConfig, limit: nat)
    requires
        limit > 0,
    ensures
        pieces_fit(all_bodies(sections, cfg, limit), limit),
    decreases sections.len(),
{
    if sections.len() > 0 {
        lemma_all_bodies_fit(sections.drop_last(), cfg, limit);
        lemma_chunk_bodies_fit(sections.last(), cfg, limit);
        let a = all_bodies(sections.drop_last(), cfg, limit);
        let b = spec_chunk_bodies(sections.last(), cfg, limit);
        assert forall|i: int| 0 <= i < (a + b).len() implies 0 < #[trigger] (a + b)[i].len()
            <= limit by {
            if i >= a.len() {
                assert((a + b)[i] == b[i - a.len()]);
            }
        }
    }
}

/// What a successful round of `settle` returns: the framed bodies of a cut
/// that left room for the numbering of exactly that many posts.
proof fn lemma_settle_ok(
    sections: Seq<Seq<char>>,
    cfg: ChunkingConfig,
    expected: nat,
    fuel: nat,
    posts: Seq<Seq<char>>,
)
    requires
        settle(sections, cfg, expected, fuel) == Ok::<Seq<Seq<char>>, ChunkError>(posts),
    ensures
        exists|bodies: Seq<Seq<char>>|
            {
                &&& posts == frame(bodies, cfg)
                &&& prefix_width(cfg, bodies.len()) + cfg.suffix@.len() < cfg.max_chars
                &&& pieces_fit(
                    bodies,
                    (cfg.max_chars - prefix_width(cfg, bodies.len()) - cfg.suffix@.len()) as nat,
                )
            },
    decreases fuel,
{
    let pw = prefix_width(cfg, expected);
    let sw = cfg.suffix@.len();
    if pw + sw < cfg.max_chars {
        let limit = (cfg.max_chars - pw - sw) as nat;
        let bodies = all_bodies(sections, cfg, limit);
        if bodies.len() == expected {
            lemma_all_bodies_fit(sections, cfg, limit);
            assert(posts == frame(bodies, cfg));
        } else if fuel > 0 {
            lemma_settle_ok(sections, cfg, bodies.len(), (fuel - 1) as nat, posts);
        }
    }
}

/// No post is empty and none exceeds `max_chars` characters, numbering
/// prefix and suffix included.
pub proof fn lemma_posts_within_limit(text: Seq<char>, cfg: ChunkingConfig, posts: Seq<Seq<char>>)
    requires
        spec_chunk_text(text, cfg) == Ok::<Seq<Seq<char>>, ChunkError>(posts),
    ensures
        forall|i: int| 0 <= i < posts.len() ==> 0 < #[trigger] posts[i].len() <= cfg.max_chars,
{
    let sections = spec_sections(text, cfg);
    if sections.len() > 0 {
        lemma_settle_ok(sections, cfg, 1, SETTLE_ROUNDS as nat, posts);
        let bodies = choose|bodies: Seq<Seq<char>>|
            {
                &&& posts == frame(bodies, cfg)
                &&& prefix_width(cfg, bodies.len()) + cfg.suffix@.len() < cfg.max_chars
                &&& pieces_fit(
                    bodies,
                    (cfg.max_chars - prefix_width(cfg, bodies.len()) - cfg.suffix@.len()) as nat,
                )
            };
        let n = bodies.len();
        assert forall|i: int| 0 <= i < posts.len() implies 0 < #[trigger] posts[i].len()
            <= cfg.max_chars by {
            assert(posts[i] == post_prefix(cfg, i, n) + bodies[i] + cfg.suffix@);
            if cfg.numbering {
                lemma_prefix_width(cfg.numbering_format@, (i + 1) as nat, n);
            }
        }
    }
}

/// Every post is its body between the numbering prefix of its position and
/// the suffix: with numbering on, post `i` of `n` starts with the format
/// rendered for `i + 1` and `n`.
pub proof fn lemma_posts_framed(text: Seq<char>, cfg: ChunkingConfig, posts: Seq<Seq<char>>)
    requires
        spec_chunk_text(text, cfg) == Ok::<Seq<Seq<char>>, ChunkError>(posts),
    ensures
        forall|i: int|
            0 <= i < posts.len() ==> {
                let p = #[trigger] posts[i];
                let pre = post_prefix(cfg, i, posts.len());
                &&& pre.len() + cfg.suffix@.len() <= p.len()
                &&& p.take(pre.len() as int) == pre
                &&& p.skip(p.len() - cfg.suffix@.len()) == cfg.suffix@
                &&& cfg.numbering ==> pre == spec_render_prefix(
                    cfg.numbering_format@,
                    (i + 1) as nat,
                    posts.len(),
                )
            },
{
    let sections = spec_sections(text, cfg);
    if sections.len() > 0 {
        lemma_settle_ok(sections, cfg, 1, SETTLE_ROUNDS as nat, posts);
        let bodies = choose|bodies: Seq<Seq<char>>|
            {
                &&& posts == frame(bodies, cfg)
                &&& prefix_width(cfg, bodies.len()) + cfg.suffix@.len() < cfg.max_chars
                &&& pieces_fit(
                    bodies,
                    (cfg.max_chars - prefix_width(cfg, bodies.len()) - cfg.suffix@.len()) as nat,
                )
            };
        assert forall|i: int| 0 <= i < posts.len() implies {
            let p = #[trigger] posts[i];
            let pre = post_prefix(cfg, i, posts.len());
            &&& pre.len() + cfg.suffix@.len() <= p.len()
            &&& p.take(pre.len() as int) == pre
            &&& p.skip(p.len() - cfg.suffix@.len()) == cfg.suffix@
            &&& cfg.numbering ==> pre == spec_render_prefix(
                cfg.numbering_format@,
                (i + 1) as nat,
                posts.len(),
            )
        } by {
            let pre = post_prefix(cfg, i, posts.len());
            let p = posts[i];
            assert(p == pre + bodies[i] + cfg.suffix@);
            assert(p.take(pre.len() as int) =~= pre);
            assert(p.skip(p.len() - cfg.suffix@.len()) =~= cfg.suffix@);
        }
    }
}

} // verus!

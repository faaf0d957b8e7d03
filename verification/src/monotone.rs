//! A larger limit never cuts into more posts: body counts only fall as the
//! room for text grows.
use vstd::prelude::*;

use crate::chunking::{
    all_bodies, flush, keep_nonblank, long_state, pack, pack_state, paragraph_pieces,
    segment_pieces, segments, sentence_state, spec_chunk_bodies, spec_chunk_paragraphs,
    spec_chunk_segments, spec_chunk_words, spec_split_long_token,
    token_pieces, trim_all, word_pieces,
};
use crate::chunking::{
    ChunkError, SETTLE_ROUNDS, current_tag, frame, prefix_width, settle, spec_chunk_text,
    spec_normalize_text, spec_render_prefix, spec_sections, spec_split_manual_sections, total_tag,
};
use crate::config::ChunkingConfig;
use crate::settling::{
    count_for, estimate, goes_on, has_room, lemma_decimal_usize, lemma_same_digits_same_next,
    lemma_unsettled_goes_on,
};
use crate::text::{decimal, join, lemma_join_len_mono, lemma_replace_join, replace, split_on};
use crate::content::{
    lemma_visible_chunk_segments, lemma_visible_chunk_words, lemma_visible_empty, visible,
};
use crate::laws::concat;
use crate::text::{is_ws, keep_nonempty, lemma_trim, lemma_trim_idem_append, lines, trim, words};

verus! {

proof fn lemma_long_state_count(s: Seq<char>, limit: nat)
    requires
        limit > 0,
    ensures
        long_state(s, limit).0.len() * limit + long_state(s, limit).1.len() == s.len(),
        long_state(s, limit).1.len() < limit,
    decreases s.len(),
{
    if s.len() > 0 {
        lemma_long_state_count(s.drop_last(), limit);
        let st = long_state(s.drop_last(), limit);
        let a = st.0.len();
        if st.1.len() + 1 == limit {
            assert((a + 1) * limit == a * limit + limit) by (nonlinear_arith);
        }
    }
}

proof fn lemma_ceil_mono(n: nat, a: nat, r: nat, l: nat, a2: nat, r2: nat, l2: nat)
    requires
        a * l + r == n,
        r < l,
        a2 * l2 + r2 == n,
        r2 < l2,
        0 < l <= l2,
    ensures
        a2 + (if r2 > 0 {
            1nat
        } else {
            0nat
        }) <= a + (if r > 0 {
            1nat
        } else {
            0nat
        }),
{
    let c = a + (if r > 0 {
        1nat
    } else {
        0nat
    });
    assert(n <= c * l) by (nonlinear_arith)
        requires
            a * l + r == n,
            r < l,
            c == a + (if r > 0 {
                1nat
            } else {
                0nat
            }),
    ;
    if a2 + (if r2 > 0 {
        1nat
    } else {
        0nat
    }) > c {
        if r2 > 0 {
            assert(a2 >= c);
            assert(a2 * l2 >= c * l) by (nonlinear_arith)
                requires
                    a2 >= c,
                    l2 >= l,
            ;
        } else {
            assert(a2 >= c + 1);
            assert(a2 * l2 >= (c + 1) * l) by (nonlinear_arith)
                requires
                    a2 >= c + 1,
                    l2 >= l,
            ;
            assert((c + 1) * l == c * l + l) by (nonlinear_arith);
        }
    }
}

/// A wider piece width never gives more pieces of an overlong token, and a
/// non-empty token gives at least one piece.
pub proof fn lemma_split_long_token_mono(x: Seq<char>, l: nat, l2: nat)
    requires
        0 < l <= l2,
    ensures
        spec_split_long_token(x, l2).len() <= spec_split_long_token(x, l).len(),
        x.len() > 0 ==> spec_split_long_token(x, l).len() >= 1,
{
    lemma_long_state_count(x, l);
    lemma_long_state_count(x, l2);
    let s1 = long_state(x, l);
    let s2 = long_state(x, l2);
    lemma_ceil_mono(x.len(), s1.0.len(), s1.1.len(), l, s2.0.len(), s2.1.len(), l2);
    if x.len() > 0 && s1.1.len() == 0 {
        assert(s1.0.len() * l > 0);
        assert(s1.0.len() > 0) by {
            if s1.0.len() == 0 {
                assert(s1.0.len() * l == 0) by (nonlinear_arith)
                    requires
                        s1.0.len() == 0,
                ;
            }
        }
    }
}

/// The second packing state is no further along than the first: fewer
/// closed chunks, or as many and an open chunk no longer.
pub open spec fn no_further(
    s2: (Seq<Seq<char>>, Seq<char>),
    s1: (Seq<Seq<char>>, Seq<char>),
) -> bool {
    s2.0.len() < s1.0.len() || (s2.0.len() == s1.0.len() && s2.1.len() <= s1.1.len())
}

proof fn lemma_pack_state_mono(
    items: Seq<Seq<char>>,
    joiner: Seq<char>,
    l: nat,
    l2: nat,
    e1: spec_fn(Seq<char>) -> Seq<Seq<char>>,
    e2: spec_fn(Seq<char>) -> Seq<Seq<char>>,
)
    requires
        l <= l2,
        forall|x: Seq<char>| x.len() > l2 ==> (#[trigger] e2(x)).len() <= e1(x).len(),
        forall|i: int| 0 <= i < items.len() && (#[trigger] items[i]).len() > l ==> e1(items[i]).len()
            >= 1,
    ensures
        no_further(pack_state(items, joiner, l2, e2), pack_state(items, joiner, l, e1)),
    decreases items.len(),
{
    if items.len() > 0 {
        let d = items.drop_last();
        assert forall|i: int| 0 <= i < d.len() && (#[trigger] d[i]).len() > l implies e1(d[i]).len()
            >= 1 by {
            assert(d[i] == items[i]);
        }
        lemma_pack_state_mono(d, joiner, l, l2, e1, e2);
        let x = items.last();
        assert(x == items[items.len() - 1]);
        let p1 = pack_state(d, joiner, l, e1);
        let p2 = pack_state(d, joiner, l2, e2);
        if x.len() > l2 {
            assert(e2(x).len() <= e1(x).len());
        }
    }
}

/// Greedy packing with a larger limit never gives more chunks, provided the
/// finer cut gives no more pieces at the larger limit and at least one
/// piece for every item too long for the smaller.
pub proof fn lemma_pack_mono(
    items: Seq<Seq<char>>,
    joiner: Seq<char>,
    l: nat,
    l2: nat,
    e1: spec_fn(Seq<char>) -> Seq<Seq<char>>,
    e2: spec_fn(Seq<char>) -> Seq<Seq<char>>,
)
    requires
        l <= l2,
        forall|x: Seq<char>| x.len() > l2 ==> (#[trigger] e2(x)).len() <= e1(x).len(),
        forall|i: int| 0 <= i < items.len() && (#[trigger] items[i]).len() > l ==> e1(items[i]).len()
            >= 1,
    ensures
        pack(items, joiner, l2, e2).len() <= pack(items, joiner, l, e1).len(),
{
    lemma_pack_state_mono(items, joiner, l, l2, e1, e2);
}

pub proof fn lemma_chunk_words_mono(x: Seq<char>, l: nat, l2: nat)
    requires
        0 < l <= l2,
    ensures
        spec_chunk_words(x, l2).len() <= spec_chunk_words(x, l).len(),
{
    assert forall|y: Seq<char>| y.len() > l2 implies (#[trigger] token_pieces(l2)(y)).len()
        <= token_pieces(l)(y).len() by {
        lemma_split_long_token_mono(y, l, l2);
    }
    let ws = words(x);
    assert forall|i: int| 0 <= i < ws.len() && (#[trigger] ws[i]).len() > l implies token_pieces(
        l,
    )(ws[i]).len() >= 1 by {
        lemma_split_long_token_mono(ws[i], l, l2);
    }
    lemma_pack_mono(ws, seq![' '], l, l2, token_pieces(l), token_pieces(l2));
}

/// A text with a visible character cuts into at least one chunk.
proof fn lemma_visible_words_nonempty(x: Seq<char>, l: nat)
    requires
        l > 0,
        visible(x).len() > 0,
    ensures
        spec_chunk_words(x, l).len() >= 1,
{
    lemma_visible_chunk_words(x, l);
    if spec_chunk_words(x, l).len() == 0 {
        assert(concat(spec_chunk_words(x, l)) == Seq::<char>::empty());
    }
}

proof fn lemma_trimmed_visible(y: Seq<char>)
    requires
        y.len() > 0,
        trim(y) == y,
    ensures
        visible(y).len() > 0,
{
    lemma_trim(y);
    lemma_visible_empty(y);
    assert(!is_ws(y[0]));
}

proof fn lemma_sentence_state_trimmed(s: Seq<char>)
    ensures
        forall|i: int| 0 <= i < sentence_state(s).0.len() ==> trim(#[trigger] sentence_state(s).0[i])
            == sentence_state(s).0[i],
    decreases s.len(),
{
    if s.len() > 0 {
        lemma_sentence_state_trimmed(s.drop_last());
        let st = sentence_state(s.drop_last());
        let cur = st.1.push(s.last());
        lemma_trim_idem_append(cur, Seq::empty());
        let f = flush(st.0, trim(cur));
        assert forall|i: int| 0 <= i < f.len() implies trim(#[trigger] f[i]) == f[i] by {
            if i < st.0.len() {
                assert(f[i] == st.0[i]);
            }
        }
    }
}

proof fn lemma_segments_visible(x: Seq<char>, cfg: ChunkingConfig)
    ensures
        forall|i: int|
            0 <= i < segments(x, cfg).len() && (#[trigger] segments(x, cfg)[i]).len() > 0 ==> visible(
                segments(x, cfg)[i],
            ).len() > 0,
{
    let segs = segments(x, cfg);
    assert forall|i: int| 0 <= i < segs.len() && (#[trigger] segs[i]).len() > 0 implies visible(
        segs[i],
    ).len() > 0 by {
        if cfg.split_sentences {
            lemma_sentence_state_trimmed(x);
            let st = sentence_state(x);
            lemma_trim_idem_append(st.1, Seq::empty());
            let f = flush(st.0, trim(st.1));
            assert(segs == f);
            if i < st.0.len() {
                assert(f[i] == st.0[i]);
            }
            lemma_trimmed_visible(segs[i]);
        } else if cfg.preserve_line_breaks {
            let tl = trim_all(lines(x));
            let q = |y: Seq<char>| trim(y) == y;
            assert forall|j: int| 0 <= j < tl.len() implies q(#[trigger] tl[j]) by {
                lemma_trim_idem_append(lines(x)[j], Seq::empty());
            }
            crate::idempotence::lemma_keep_nonempty_elems(tl, q);
            assert(q(segs[i]));
            lemma_trimmed_visible(segs[i]);
        } else {
            lemma_trim_idem_append(x, Seq::empty());
            lemma_trimmed_visible(segs[i]);
        }
    }
}

pub proof fn lemma_chunk_segments_mono(x: Seq<char>, cfg: ChunkingConfig, l: nat, l2: nat)
    requires
        0 < l <= l2,
    ensures
        spec_chunk_segments(x, cfg, l2).len() <= spec_chunk_segments(x, cfg, l).len(),
        visible(x).len() > 0 ==> spec_chunk_segments(x, cfg, l).len() >= 1,
{
    assert forall|y: Seq<char>| y.len() > l2 implies (#[trigger] word_pieces(l2)(y)).len()
        <= word_pieces(l)(y).len() by {
        lemma_chunk_words_mono(y, l, l2);
    }
    let segs = segments(x, cfg);
    lemma_segments_visible(x, cfg);
    assert forall|i: int| 0 <= i < segs.len() && (#[trigger] segs[i]).len() > l implies word_pieces(
        l,
    )(segs[i]).len() >= 1 by {
        lemma_visible_words_nonempty(segs[i], l);
    }
    lemma_pack_mono(segs, crate::chunking::segment_joiner(cfg), l, l2, word_pieces(l), word_pieces(l2));
    if visible(x).len() > 0 {
        lemma_visible_chunk_segments(x, cfg, l);
        if spec_chunk_segments(x, cfg, l).len() == 0 {
            assert(concat(spec_chunk_segments(x, cfg, l)) == Seq::<char>::empty());
        }
    }
}

/// Every non-empty paragraph of `s` holds a visible character.
pub open spec fn visible_paragraphs(s: Seq<char>, cfg: ChunkingConfig) -> bool {
    forall|i: int|
        0 <= i < paragraph_pieces(s, cfg.paragraph_separator@).len() && (
        #[trigger] paragraph_pieces(s, cfg.paragraph_separator@)[i]).len() > 0 ==> visible(
            paragraph_pieces(s, cfg.paragraph_separator@)[i],
        ).len() > 0
}

/// Where paragraphs are packed, each non-empty one holds a visible character.
pub open spec fn paragraphs_ok(s: Seq<char>, cfg: ChunkingConfig) -> bool {
    cfg.preserve_paragraphs && !cfg.preserve_line_breaks ==> visible_paragraphs(s, cfg)
}

pub proof fn lemma_chunk_bodies_mono(s: Seq<char>, cfg: ChunkingConfig, l: nat, l2: nat)
    requires
        0 < l <= l2,
        paragraphs_ok(s, cfg),
    ensures
        spec_chunk_bodies(s, cfg, l2).len() <= spec_chunk_bodies(s, cfg, l).len(),
{
    if cfg.preserve_paragraphs && !cfg.preserve_line_breaks {
        let sep = cfg.paragraph_separator@;
        let ps = paragraph_pieces(s, sep);
        assert forall|y: Seq<char>| y.len() > l2 implies (#[trigger] segment_pieces(cfg, l2)(y)).len()
            <= segment_pieces(cfg, l)(y).len() by {
            lemma_chunk_segments_mono(y, cfg, l, l2);
        }
        assert forall|i: int| 0 <= i < ps.len() && (#[trigger] ps[i]).len() > l implies segment_pieces(
            cfg,
            l,
        )(ps[i]).len() >= 1 by {
            lemma_chunk_segments_mono(ps[i], cfg, l, l2);
        }
        lemma_pack_mono(ps, sep, l, l2, segment_pieces(cfg, l), segment_pieces(cfg, l2));
        assert(spec_chunk_bodies(s, cfg, l) == spec_chunk_paragraphs(s, cfg, l));
        assert(spec_chunk_bodies(s, cfg, l2) == spec_chunk_paragraphs(s, cfg, l2));
    } else {
        lemma_chunk_segments_mono(s, cfg, l, l2);
    }
}

pub proof fn lemma_all_bodies_mono(sections: Seq<Seq<char>>, cfg: ChunkingConfig, l: nat, l2: nat)
    requires
        0 < l <= l2,
        forall|i: int| 0 <= i < sections.len() ==> paragraphs_ok(#[trigger] sections[i], cfg),
    ensures
        all_bodies(sections, cfg, l2).len() <= all_bodies(sections, cfg, l).len(),
    decreases sections.len(),
{
    if sections.len() > 0 {
        let d = sections.drop_last();
        assert forall|i: int| 0 <= i < d.len() implies paragraphs_ok(#[trigger] d[i], cfg) by {
            assert(d[i] == sections[i]);
        }
        lemma_all_bodies_mono(d, cfg, l, l2);
        assert(paragraphs_ok(sections[sections.len() - 1], cfg));
        lemma_chunk_bodies_mono(sections.last(), cfg, l, l2);
    }
}


proof fn lemma_keep_nonblank_elems(ps: Seq<Seq<char>>, q: spec_fn(Seq<char>) -> bool)
    requires
        forall|j: int| 0 <= j < ps.len() ==> q(#[trigger] ps[j]),
    ensures
        forall|i: int| 0 <= i < keep_nonblank(ps).len() ==> q(#[trigger] keep_nonblank(ps)[i]),
    decreases ps.len(),
{
    if ps.len() > 0 {
        assert forall|j: int| 0 <= j < ps.drop_last().len() implies q(#[trigger] ps.drop_last()[j]) by {
            assert(ps.drop_last()[j] == ps[j]);
        }
        lemma_keep_nonblank_elems(ps.drop_last(), q);
        assert(q(ps[ps.len() - 1]));
        let k = keep_nonblank(ps.drop_last());
        assert forall|i: int| 0 <= i < k.push(ps.last()).len() implies q(
            #[trigger] k.push(ps.last())[i],
        ) by {
            if i < k.len() {
                assert(k.push(ps.last())[i] == k[i]);
            }
        }
    }
}

/// With blank-line paragraph breaks, every section's non-empty paragraphs
/// hold a visible character.
proof fn lemma_sections_paragraphs_ok(t: Seq<char>, cfg: ChunkingConfig)
    requires
        cfg.paragraph_separator@ == seq!['\n', '\n'],
    ensures
        forall|i: int|
            0 <= i < spec_sections(t, cfg).len() ==> paragraphs_ok(
                #[trigger] spec_sections(t, cfg)[i],
                cfg,
            ),
{
    let raw = spec_split_manual_sections(t);
    let normalized = Seq::new(raw.len(), |i: int| spec_normalize_text(raw[i], cfg));
    let q = |s: Seq<char>| paragraphs_ok(s, cfg);
    assert forall|j: int| 0 <= j < normalized.len() implies q(#[trigger] normalized[j]) by {
        if cfg.preserve_paragraphs && !cfg.preserve_line_breaks {
            let p = seq!['\n', '\n'];
            let qs = crate::idempotence::lemma_paragraph_structure(raw[j], cfg);
            let n = normalized[j];
            let pp = paragraph_pieces(n, cfg.paragraph_separator@);
            if qs.len() == 0 {
                let e = Seq::<char>::empty();
                assert(n =~= e);
                assert(split_on(e, p) == seq![e]);
                assert(seq![e].drop_last() =~= Seq::<Seq<char>>::empty());
                assert(seq![e].last().len() == 0);
                assert(keep_nonempty(seq![e]) == keep_nonempty(seq![e].drop_last()));
                assert(pp =~= Seq::<Seq<char>>::empty());
            } else {
                assert forall|i: int| 0 <= i < qs.len() implies (#[trigger] qs[i]).len() > 0 by {}
                crate::idempotence::lemma_keep_nonempty_id(qs);
                assert(pp == qs);
                assert forall|i: int| 0 <= i < pp.len() && (#[trigger] pp[i]).len() > 0 implies visible(
                    pp[i],
                ).len() > 0 by {
                    assert(crate::idempotence::tidy(qs[i]));
                    lemma_visible_empty(qs[i]);
                    assert(!is_ws(qs[i][0]));
                }
            }
        }
    }
    lemma_keep_nonblank_elems(normalized, q);
}

/// `cfg` with another limit.
pub open spec fn with_limit(cfg: ChunkingConfig, m: usize) -> ChunkingConfig {
    ChunkingConfig { max_chars: m, ..cfg }
}

proof fn lemma_with_limit_sections(t: Seq<char>, cfg: ChunkingConfig, m: usize)
    ensures
        spec_sections(t, with_limit(cfg, m)) == spec_sections(t, cfg),
{
    let c2 = with_limit(cfg, m);
    let raw = spec_split_manual_sections(t);
    assert(Seq::new(raw.len(), |i: int| spec_normalize_text(raw[i], c2)) =~= Seq::new(
        raw.len(),
        |i: int| spec_normalize_text(raw[i], cfg),
    ));
}

proof fn lemma_with_limit_bodies(sections: Seq<Seq<char>>, cfg: ChunkingConfig, m: usize, l: nat)
    ensures
        all_bodies(sections, with_limit(cfg, m), l) == all_bodies(sections, cfg, l),
    decreases sections.len(),
{
    let c2 = with_limit(cfg, m);
    if sections.len() > 0 {
        lemma_with_limit_bodies(sections.drop_last(), cfg, m, l);
        let s = sections.last();
        assert(segment_pieces(c2, l) =~= segment_pieces(cfg, l));
        assert(spec_chunk_bodies(s, c2, l) == spec_chunk_bodies(s, cfg, l));
    }
}

proof fn lemma_join_len_le(ps: Seq<Seq<char>>, qs: Seq<Seq<char>>, d1: Seq<char>, d2: Seq<char>)
    requires
        ps.len() == qs.len(),
        forall|i: int| 0 <= i < ps.len() ==> (#[trigger] ps[i]).len() <= qs[i].len(),
        d1.len() <= d2.len(),
    ensures
        join(ps, d1).len() <= join(qs, d2).len(),
    decreases ps.len(),
{
    if ps.len() == 1 {
        assert(ps[0].len() <= qs[0].len());
    } else if ps.len() > 1 {
        assert forall|i: int| 0 <= i < ps.drop_last().len() implies (
        #[trigger] ps.drop_last()[i]).len() <= qs.drop_last()[i].len() by {
            assert(ps.drop_last()[i] == ps[i]);
            assert(qs.drop_last()[i] == qs[i]);
        }
        lemma_join_len_le(ps.drop_last(), qs.drop_last(), d1, d2);
        assert(ps[ps.len() - 1].len() <= qs[qs.len() - 1].len());
    }
}

/// More digits never give a narrower numbering prefix.
proof fn lemma_prefix_width_le(cfg: ChunkingConfig, n: nat, m: nat)
    requires
        decimal(n).len() <= decimal(m).len(),
    ensures
        prefix_width(cfg, n) <= prefix_width(cfg, m),
{
    if cfg.numbering {
        let format = cfg.numbering_format@;
        let pieces = split_on(format, current_tag());
        let dn = decimal(n);
        let dm = decimal(m);
        crate::text::lemma_decimal_digits(n);
        crate::text::lemma_decimal_digits(m);
        assert forall|k: int| 0 <= k < dn.len() implies !total_tag().contains(#[trigger] dn[k]) by {
            if total_tag().contains(dn[k]) {
                let j = choose|j: int| 0 <= j < total_tag().len() && total_tag()[j] == dn[k];
                assert(0 <= j < 7);
            }
        }
        assert forall|k: int| 0 <= k < dm.len() implies !total_tag().contains(#[trigger] dm[k]) by {
            if total_tag().contains(dm[k]) {
                let j = choose|j: int| 0 <= j < total_tag().len() && total_tag()[j] == dm[k];
                assert(0 <= j < 7);
            }
        }
        lemma_replace_join(pieces, dn, total_tag(), dn);
        lemma_replace_join(pieces, dm, total_tag(), dm);
        let rn = Seq::new(pieces.len(), |i: int| replace(pieces[i], total_tag(), dn));
        let rm = Seq::new(pieces.len(), |i: int| replace(pieces[i], total_tag(), dm));
        assert forall|i: int| 0 <= i < rn.len() implies (#[trigger] rn[i]).len() <= rm[i].len() by {
            lemma_join_len_mono(split_on(pieces[i], total_tag()), dn, dm);
        }
        lemma_join_len_le(rn, rm, dn, dm);
        assert(spec_render_prefix(format, n, n) == join(rn, dn));
        assert(spec_render_prefix(format, m, m) == join(rm, dm));
    }
}


/// The room for text when numbering `e` posts.
pub open spec fn room_for(cfg: ChunkingConfig, e: nat) -> nat {
    (cfg.max_chars - prefix_width(cfg, e) - cfg.suffix@.len()) as nat
}

proof fn lemma_settle_ok_trajectory(
    sections: Seq<Seq<char>>,
    cfg: ChunkingConfig,
    k: nat,
    fuel: nat,
    a: Seq<Seq<char>>,
)
    requires
        settle(sections, cfg, estimate(sections, cfg, k), fuel) == Ok::<Seq<Seq<char>>, ChunkError>(
            a,
        ),
    ensures
        exists|r: nat|
            {
                &&& k <= r <= k + fuel
                &&& (forall|j: nat| k <= j <= r ==> #[trigger] has_room(cfg, estimate(sections, cfg, j)))
                &&& estimate(sections, cfg, r + 1) == estimate(sections, cfg, r)
                &&& a == frame(all_bodies(sections, cfg, room_for(cfg, estimate(sections, cfg, r))), cfg)
            },
    decreases fuel,
{
    let e = estimate(sections, cfg, k);
    assert(estimate(sections, cfg, k + 1) == count_for(sections, cfg, e));
    let n = count_for(sections, cfg, e);
    assert(has_room(cfg, e));
    if n == e {
        assert forall|j: nat| k <= j <= k implies #[trigger] has_room(cfg, estimate(sections, cfg, j)) by {}
        assert(a == frame(all_bodies(sections, cfg, room_for(cfg, estimate(sections, cfg, k))), cfg));
    } else {
        assert(fuel > 0);
        assert(settle(sections, cfg, e, fuel) == settle(sections, cfg, n, (fuel - 1) as nat));
        lemma_settle_ok_trajectory(sections, cfg, k + 1, (fuel - 1) as nat, a);
        let r = choose|r: nat|
            {
                &&& k + 1 <= r <= k + 1 + (fuel - 1) as nat
                &&& (forall|j: nat| k + 1 <= j <= r ==> #[trigger] has_room(cfg, estimate(sections, cfg, j)))
                &&& estimate(sections, cfg, r + 1) == estimate(sections, cfg, r)
                &&& a == frame(all_bodies(sections, cfg, room_for(cfg, estimate(sections, cfg, r))), cfg)
            };
        assert forall|j: nat| k <= j <= r implies #[trigger] has_room(cfg, estimate(sections, cfg, j)) by {}
    }
}

proof fn lemma_estimate_const(sections: Seq<Seq<char>>, cfg: ChunkingConfig, k: nat, j: nat)
    requires
        estimate(sections, cfg, k + 1) == estimate(sections, cfg, k),
        k <= j,
    ensures
        estimate(sections, cfg, j) == estimate(sections, cfg, k),
    decreases j - k,
{
    if j > k {
        lemma_estimate_const(sections, cfg, k, (j - 1) as nat);
        assert(estimate(sections, cfg, j) == count_for(sections, cfg, estimate(sections, cfg, (j - 1) as nat)));
        assert(estimate(sections, cfg, k + 1) == count_for(sections, cfg, estimate(sections, cfg, k)));
    }
}

proof fn lemma_trajectory_settles(
    sections: Seq<Seq<char>>,
    cfg: ChunkingConfig,
    k: nat,
    fuel: nat,
    r: nat,
)
    requires
        k <= r <= k + fuel,
        forall|j: nat| k <= j <= r ==> #[trigger] has_room(cfg, estimate(sections, cfg, j)),
        estimate(sections, cfg, r + 1) == estimate(sections, cfg, r),
    ensures
        settle(sections, cfg, estimate(sections, cfg, k), fuel) == Ok::<Seq<Seq<char>>, ChunkError>(
            frame(all_bodies(sections, cfg, room_for(cfg, estimate(sections, cfg, r))), cfg),
        ),
    decreases fuel,
{
    let e = estimate(sections, cfg, k);
    assert(has_room(cfg, estimate(sections, cfg, k)));
    assert(estimate(sections, cfg, k + 1) == count_for(sections, cfg, e));
    if estimate(sections, cfg, k + 1) == e {
        lemma_estimate_const(sections, cfg, k, r);
    } else {
        assert(r > k);
        assert forall|j: nat| k + 1 <= j <= r implies #[trigger] has_room(cfg, estimate(sections, cfg, j)) by {}
        lemma_trajectory_settles(sections, cfg, k + 1, (fuel - 1) as nat, r);
    }
}

/// While every round has room, the digit count of the estimate never falls.
proof fn lemma_digits_nondecreasing(sections: Seq<Seq<char>>, cfg: ChunkingConfig, j: nat)
    requires
        forall|i: nat| i <= j ==> #[trigger] has_room(cfg, estimate(sections, cfg, i)),
        forall|i: int| 0 <= i < sections.len() ==> paragraphs_ok(#[trigger] sections[i], cfg),
    ensures
        decimal(estimate(sections, cfg, j)).len() <= decimal(estimate(sections, cfg, j + 1)).len(),
        j >= 1 ==> estimate(sections, cfg, j) <= estimate(sections, cfg, j + 1),
    decreases j,
{
    crate::text::lemma_decimal_digits(estimate(sections, cfg, j + 1));
    if j == 0 {
        assert(estimate(sections, cfg, 0) == 1);
    } else {
        let jm = (j - 1) as nat;
        lemma_digits_nondecreasing(sections, cfg, jm);
        let a = estimate(sections, cfg, jm);
        let b = estimate(sections, cfg, j);
        assert(jm + 1 == j);
        lemma_prefix_width_le(cfg, a, b);
        assert(has_room(cfg, b));
        lemma_all_bodies_mono(sections, cfg, room_for(cfg, b), room_for(cfg, a));
        assert(b == count_for(sections, cfg, a));
        assert(estimate(sections, cfg, j + 1) == count_for(sections, cfg, b));
        crate::text::lemma_decimal_len_mono(b, estimate(sections, cfg, j + 1));
    }
}

proof fn lemma_nondecreasing_upto(sections: Seq<Seq<char>>, cfg: ChunkingConfig, j: nat, r: nat)
    requires
        forall|i: nat| #[trigger] has_room(cfg, estimate(sections, cfg, i)),
        forall|i: int| 0 <= i < sections.len() ==> paragraphs_ok(#[trigger] sections[i], cfg),
        1 <= j <= r,
    ensures
        estimate(sections, cfg, j) <= estimate(sections, cfg, r),
    decreases r - j,
{
    if j < r {
        lemma_digits_nondecreasing(sections, cfg, j);
        lemma_nondecreasing_upto(sections, cfg, j + 1, r);
    }
}

proof fn lemma_second_below(
    sections: Seq<Seq<char>>,
    cfg: ChunkingConfig,
    m: usize,
    j: nat,
)
    requires
        m >= cfg.max_chars,
        forall|i: nat| #[trigger] has_room(cfg, estimate(sections, cfg, i)),
        forall|i: int| 0 <= i < sections.len() ==> paragraphs_ok(#[trigger] sections[i], cfg),
    ensures
        has_room(with_limit(cfg, m), estimate(sections, with_limit(cfg, m), j)),
        decimal(estimate(sections, with_limit(cfg, m), j)).len() <= decimal(
            estimate(sections, cfg, j),
        ).len(),
        j >= 1 ==> estimate(sections, with_limit(cfg, m), j) <= estimate(sections, cfg, j),
    decreases j,
{
    let c2 = with_limit(cfg, m);
    let e1 = estimate(sections, cfg, j);
    let e2 = estimate(sections, c2, j);
    if j == 0 {
        assert(e1 == 1 && e2 == 1);
    } else {
        let jm = (j - 1) as nat;
        lemma_second_below(sections, cfg, m, jm);
        let a1 = estimate(sections, cfg, jm);
        let a2 = estimate(sections, c2, jm);
        lemma_prefix_width_le(cfg, a2, a1);
        assert(has_room(cfg, a1));
        assert(prefix_width(c2, a2) == prefix_width(cfg, a2));
        lemma_all_bodies_mono(sections, cfg, room_for(cfg, a1), room_for(c2, a2));
        lemma_with_limit_bodies(sections, cfg, m, room_for(c2, a2));
        assert(e2 == count_for(sections, c2, a2));
        assert(e1 == count_for(sections, cfg, a1));
        assert(e2 <= e1);
        crate::text::lemma_decimal_len_mono(e2, e1);
    }
    lemma_prefix_width_le(cfg, e2, e1);
    assert(has_room(cfg, e1));
    assert(prefix_width(c2, e2) == prefix_width(cfg, e2));
}

/// A search whose digit count cannot pass twenty settles within twenty-one
/// rounds.
proof fn lemma_settles_early(sections: Seq<Seq<char>>, cfg: ChunkingConfig, n: nat)
    requires
        forall|i: nat| i <= n ==> #[trigger] has_room(cfg, estimate(sections, cfg, i)),
        forall|i: int| 0 <= i < sections.len() ==> paragraphs_ok(#[trigger] sections[i], cfg),
    ensures
        (exists|r2: nat| r2 <= n && estimate(sections, cfg, r2 + 1) == #[trigger] estimate(sections, cfg, r2))
            || decimal(estimate(sections, cfg, n)).len() >= n + 1,
    decreases n,
{
    if n == 0 {
        assert(estimate(sections, cfg, 0) == 1);
    } else {
        let nm = (n - 1) as nat;
        lemma_settles_early(sections, cfg, nm);
        if exists|r2: nat| r2 <= nm && estimate(sections, cfg, r2 + 1) == #[trigger] estimate(sections, cfg, r2) {
            let r2 = choose|r2: nat| r2 <= nm && estimate(sections, cfg, r2 + 1) == #[trigger] estimate(sections, cfg, r2);
            assert(r2 <= n);
        } else {
            lemma_digits_nondecreasing(sections, cfg, nm);
            assert(nm + 1 == n);
            if decimal(estimate(sections, cfg, n)).len() == decimal(estimate(sections, cfg, nm)).len() {
                lemma_same_digits_same_next(sections, cfg, n, nm);
                assert(estimate(sections, cfg, n + 1) == estimate(sections, cfg, n));
            }
        }
    }
}

/// A larger limit never fails where a smaller one succeeded and never gives
/// more posts, when paragraphs are separated by a blank line (for any cut
/// whose posts fit in memory).
pub proof fn lemma_larger_limit_no_more_posts(
    t: Seq<char>,
    cfg: ChunkingConfig,
    m: usize,
    a: Seq<Seq<char>>,
)
    requires
        cfg.paragraph_separator@ == seq!['\n', '\n'],
        m >= cfg.max_chars,
        spec_chunk_text(t, cfg) == Ok::<Seq<Seq<char>>, ChunkError>(a),
        a.len() <= usize::MAX,
    ensures
        exists|b: Seq<Seq<char>>|
            spec_chunk_text(t, with_limit(cfg, m)) == Ok::<Seq<Seq<char>>, ChunkError>(b)
                && b.len() <= a.len(),
{
    let c2 = with_limit(cfg, m);
    let secs = spec_sections(t, cfg);
    lemma_with_limit_sections(t, cfg, m);
    assert(cfg.max_chars > 0);
    if secs.len() == 0 {
        assert(spec_chunk_text(t, c2) == Ok::<Seq<Seq<char>>, ChunkError>(Seq::empty()));
    } else {
        lemma_sections_paragraphs_ok(t, cfg);
        assert(estimate(secs, cfg, 0) == 1);
        lemma_settle_ok_trajectory(secs, cfg, 0, SETTLE_ROUNDS as nat, a);
        let r = choose|r: nat|
            {
                &&& 0 <= r <= 0 + SETTLE_ROUNDS as nat
                &&& (forall|j: nat| 0 <= j <= r ==> #[trigger] has_room(cfg, estimate(secs, cfg, j)))
                &&& estimate(secs, cfg, r + 1) == estimate(secs, cfg, r)
                &&& a == frame(all_bodies(secs, cfg, room_for(cfg, estimate(secs, cfg, r))), cfg)
            };
        assert forall|i: nat| #[trigger] has_room(cfg, estimate(secs, cfg, i)) by {
            if i > r {
                lemma_estimate_const(secs, cfg, r, i);
            }
        }
        assert forall|i: int| 0 <= i < secs.len() implies paragraphs_ok(#[trigger] secs[i], c2) by {
            assert(paragraphs_ok(secs[i], cfg));
        }
        assert forall|i: nat| #[trigger] has_room(c2, estimate(secs, c2, i)) by {
            lemma_second_below(secs, cfg, m, i);
        }
        lemma_settles_early(secs, c2, 20);
        let e20 = estimate(secs, c2, 20);
        assert(a.len() == count_for(secs, cfg, estimate(secs, cfg, r)));
        assert(estimate(secs, cfg, r + 1) == count_for(secs, cfg, estimate(secs, cfg, r)));
        lemma_second_below(secs, cfg, m, 20);
        if 20 <= r {
            lemma_nondecreasing_upto(secs, cfg, 20, r);
        } else {
            lemma_estimate_const(secs, cfg, r, 20);
        }
        lemma_decimal_usize(e20);
        let r2 = choose|r2: nat| r2 <= 20 && estimate(secs, c2, r2 + 1) == #[trigger] estimate(secs, c2, r2);
        assert forall|j: nat| 0 <= j <= r2 implies #[trigger] has_room(c2, estimate(secs, c2, j)) by {}
        lemma_trajectory_settles(secs, c2, 0, SETTLE_ROUNDS as nat, r2);
        assert(estimate(secs, c2, 0) == 1);
        let b = frame(all_bodies(secs, c2, room_for(c2, estimate(secs, c2, r2))), c2);
        assert(spec_chunk_text(t, c2) == Ok::<Seq<Seq<char>>, ChunkError>(b));
        assert(b.len() == count_for(secs, c2, estimate(secs, c2, r2)));
        assert(estimate(secs, c2, r2 + 1) == count_for(secs, c2, estimate(secs, c2, r2)));
        assert(a.len() == count_for(secs, cfg, estimate(secs, cfg, r)));
        assert(estimate(secs, cfg, r + 1) == count_for(secs, cfg, estimate(secs, cfg, r)));
        let e1r = estimate(secs, cfg, r);
        lemma_second_below(secs, cfg, m, r2);
        lemma_second_below(secs, cfg, m, 1);
        if r2 == 0 {
            assert(estimate(secs, c2, 1) == 1);
            if r >= 1 {
                lemma_nondecreasing_upto(secs, cfg, 1, r);
            }
        } else if r2 <= r {
            lemma_nondecreasing_upto(secs, cfg, r2, r);
        } else {
            lemma_estimate_const(secs, cfg, r, r2);
        }
        assert(b.len() <= a.len());
    }
}

/// When paragraphs are separated by a blank line, the search for the post
/// count never gives up with `ChunkError::Unsettled`, as long as body counts
/// fit in a `usize`.
pub proof fn lemma_blank_line_separator_settles(t: Seq<char>, cfg: ChunkingConfig)
    requires
        cfg.paragraph_separator@ == seq!['\n', '\n'],
        forall|e: nat| #[trigger] count_for(spec_sections(t, cfg), cfg, e) <= usize::MAX,
    ensures
        spec_chunk_text(t, cfg) != Err::<Seq<Seq<char>>, ChunkError>(ChunkError::Unsettled),
{
    let secs = spec_sections(t, cfg);
    if cfg.max_chars > 0 && secs.len() > 0 && spec_chunk_text(t, cfg) == Err::<
        Seq<Seq<char>>,
        ChunkError,
    >(ChunkError::Unsettled) {
        assert(estimate(secs, cfg, 0) == 1);
        lemma_unsettled_goes_on(secs, cfg, 0, SETTLE_ROUNDS as nat);
        assert forall|i: nat| i <= 20 implies #[trigger] has_room(cfg, estimate(secs, cfg, i)) by {
            assert(goes_on(secs, cfg, 0 + i));
        }
        lemma_sections_paragraphs_ok(t, cfg);
        lemma_settles_early(secs, cfg, 20);
        assert(estimate(secs, cfg, 20) == count_for(secs, cfg, estimate(secs, cfg, 19)));
        lemma_decimal_usize(estimate(secs, cfg, 20));
        let r2 = choose|r2: nat| r2 <= 20 && estimate(secs, cfg, r2 + 1) == #[trigger] estimate(secs, cfg, r2);
        assert(goes_on(secs, cfg, 0 + r2));
    }
}

} // verus!

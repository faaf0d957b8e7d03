//! Normalizing a section twice gives what normalizing it once gives, when
//! line breaks are kept or paragraphs are separated by a blank line.
use vstd::prelude::*;

use crate::chunking::{
    collapse_all, spec_collapse, spec_normalize_text, spec_split_paragraphs, trim_all,
};
use crate::composition::{
    lemma_join_no_cr, lemma_lines_no_cr, lemma_no_cr_add, lemma_split_when_add,
    lemma_split_when_plain, lemma_unify_id, lemma_unify_no_cr, no_cr,
};
use crate::config::ChunkingConfig;
use crate::text::{
    Separator, is_sep, is_ws, join, keep_nonempty, lead, lemma_join_cons, lemma_lead_bounds,
    lemma_split_on_len, lemma_split_when_len, lemma_trail_bounds, lemma_trim, lemma_trim_frame,
    lemma_trim_idem_append, lemma_trim_prepend_ws, lines, prepend, split_on, split_when,
    starts_with, trim, unify_newlines, words,
};

verus! {

/// Empty, or starting and ending with a non-whitespace character.
pub open spec fn tidy(c: Seq<char>) -> bool {
    c.len() == 0 || (!is_ws(c[0]) && !is_ws(c.last()))
}

/// `x` holds no two line feeds in a row.
pub open spec fn no_blank_break(x: Seq<char>) -> bool {
    forall|k: int| 0 <= k < x.len() - 1 ==> !(#[trigger] x[k] == '\n' && x[k + 1] == '\n')
}

/// `x` holds no line feed.
pub open spec fn no_lf(x: Seq<char>) -> bool {
    forall|k: int| 0 <= k < x.len() ==> #[trigger] x[k] != '\n'
}

proof fn lemma_split_when_no_sep(x: Seq<char>, sep: Separator)
    ensures
        forall|i: int, k: int|
            0 <= i < split_when(x, sep).len() && 0 <= k < split_when(x, sep)[i].len() ==> !is_sep(
                sep,
                #[trigger] split_when(x, sep)[i][k],
            ),
    decreases x.len(),
{
    if x.len() > 0 {
        lemma_split_when_no_sep(x.drop_first(), sep);
        lemma_split_when_len(x.drop_first(), sep);
        let r = split_when(x.drop_first(), sep);
        if is_sep(sep, x[0]) {
            let q = seq![Seq::<char>::empty()] + r;
            assert forall|i: int, k: int| 0 <= i < q.len() && 0 <= k < q[i].len() implies !is_sep(
                sep,
                #[trigger] q[i][k],
            ) by {
                assert(q[i] == r[i - 1]);
            }
        } else {
            let q = prepend(seq![x[0]], r);
            assert forall|i: int, k: int| 0 <= i < q.len() && 0 <= k < q[i].len() implies !is_sep(
                sep,
                #[trigger] q[i][k],
            ) by {
                if i == 0 {
                    if k > 0 {
                        assert(q[0][k] == r[0][k - 1]);
                    }
                } else {
                    assert(q[i] == r[i]);
                }
            }
        }
    }
}

pub(crate) proof fn lemma_keep_nonempty_elems(ps: Seq<Seq<char>>, q: spec_fn(Seq<char>) -> bool)
    requires
        forall|j: int| 0 <= j < ps.len() ==> q(#[trigger] ps[j]),
    ensures
        forall|i: int|
            0 <= i < keep_nonempty(ps).len() ==> q(#[trigger] keep_nonempty(ps)[i])
                && keep_nonempty(ps)[i].len() > 0,
    decreases ps.len(),
{
    if ps.len() > 0 {
        assert forall|j: int| 0 <= j < ps.drop_last().len() implies q(#[trigger] ps.drop_last()[j]) by {
            assert(ps.drop_last()[j] == ps[j]);
        }
        lemma_keep_nonempty_elems(ps.drop_last(), q);
        assert(q(ps[ps.len() - 1]));
        let k = keep_nonempty(ps.drop_last());
        if ps.last().len() > 0 {
            assert forall|i: int| 0 <= i < k.push(ps.last()).len() implies q(
                #[trigger] k.push(ps.last())[i],
            ) && k.push(ps.last())[i].len() > 0 by {
                if i < k.len() {
                    assert(k.push(ps.last())[i] == k[i]);
                }
            }
        }
    }
}

pub(crate) proof fn lemma_keep_nonempty_id(ps: Seq<Seq<char>>)
    requires
        forall|j: int| 0 <= j < ps.len() ==> (#[trigger] ps[j]).len() > 0,
    ensures
        keep_nonempty(ps) == ps,
    decreases ps.len(),
{
    if ps.len() > 0 {
        assert forall|j: int| 0 <= j < ps.drop_last().len() implies (#[trigger] ps.drop_last()[j]).len()
            > 0 by {
            assert(ps.drop_last()[j] == ps[j]);
        }
        lemma_keep_nonempty_id(ps.drop_last());
        assert(ps[ps.len() - 1].len() > 0);
        assert(ps.drop_last().push(ps.last()) =~= ps);
    }
}

proof fn lemma_join_ends(ds: Seq<Seq<char>>, sep: Seq<char>)
    requires
        ds.len() > 0,
    ensures
        ds[0].len() > 0 ==> join(ds, sep).len() > 0 && join(ds, sep)[0] == ds[0][0],
        ds.last().len() > 0 ==> join(ds, sep).len() > 0 && join(ds, sep).last() == ds.last().last(),
    decreases ds.len(),
{
    if ds.len() > 1 {
        lemma_join_ends(ds.drop_last(), sep);
        assert(ds.drop_last()[0] == ds[0]);
        let j = join(ds.drop_last(), sep);
        if ds[0].len() > 0 {
            assert((j + sep + ds.last())[0] == j[0]);
        }
        if ds.last().len() > 0 {
            assert((j + sep + ds.last()).last() == ds.last().last());
        }
    }
}

/// Splitting at a separator character undoes joining with it.
proof fn lemma_split_join(ds: Seq<Seq<char>>, c: char, sep: Separator)
    requires
        is_sep(sep, c),
        ds.len() > 0,
        forall|i: int, k: int| 0 <= i < ds.len() && 0 <= k < ds[i].len() ==> !is_sep(
            sep,
            #[trigger] ds[i][k],
        ),
    ensures
        split_when(join(ds, seq![c]), sep) == ds,
    decreases ds.len(),
{
    if ds.len() == 1 {
        assert forall|k: int| 0 <= k < ds[0].len() implies !is_sep(sep, #[trigger] ds[0][k]) by {}
        lemma_split_when_plain(ds[0], sep);
        assert(ds =~= seq![ds[0]]);
    } else {
        let d = ds.drop_last();
        assert forall|i: int, k: int| 0 <= i < d.len() && 0 <= k < d[i].len() implies !is_sep(
            sep,
            #[trigger] d[i][k],
        ) by {
            assert(d[i] == ds[i]);
        }
        lemma_split_join(d, c, sep);
        let l = ds.last();
        assert forall|k: int| 0 <= k < l.len() implies !is_sep(sep, #[trigger] l[k]) by {
            assert(l[k] == ds[ds.len() - 1][k]);
        }
        lemma_split_when_plain(l, sep);
        lemma_split_when_add(join(d, seq![c]), c, l, sep);
        assert(d + seq![l] =~= ds);
    }
}

proof fn lemma_words_of_join(ws: Seq<Seq<char>>)
    requires
        forall|i: int| 0 <= i < ws.len() ==> (#[trigger] ws[i]).len() > 0,
        forall|i: int, k: int| 0 <= i < ws.len() && 0 <= k < ws[i].len() ==> !is_ws(
            #[trigger] ws[i][k],
        ),
    ensures
        words(join(ws, seq![' '])) == ws,
{
    if ws.len() == 0 {
        let e = Seq::<char>::empty();
        assert(join(ws, seq![' ']) == e);
        assert(split_when(e, Separator::Whitespace) == seq![e]);
        assert(seq![e].drop_last() =~= Seq::<Seq<char>>::empty());
        assert(seq![e].last().len() == 0);
        assert(keep_nonempty(seq![e]) == keep_nonempty(seq![e].drop_last()));
        assert(keep_nonempty(Seq::<Seq<char>>::empty()) == Seq::<Seq<char>>::empty());
        assert(ws =~= Seq::<Seq<char>>::empty());
    } else {
        assert forall|i: int, k: int| 0 <= i < ws.len() && 0 <= k < ws[i].len() implies !is_sep(
            Separator::Whitespace,
            #[trigger] ws[i][k],
        ) by {}
        lemma_split_join(ws, ' ', Separator::Whitespace);
        lemma_keep_nonempty_id(ws);
    }
}

proof fn lemma_words_props(x: Seq<char>)
    ensures
        forall|i: int| 0 <= i < words(x).len() ==> (#[trigger] words(x)[i]).len() > 0,
        forall|i: int, k: int| 0 <= i < words(x).len() && 0 <= k < words(x)[i].len() ==> !is_ws(
            #[trigger] words(x)[i][k],
        ),
{
    lemma_split_when_no_sep(x, Separator::Whitespace);
    let ps = split_when(x, Separator::Whitespace);
    let q = |p: Seq<char>| forall|k: int| 0 <= k < p.len() ==> !is_ws(#[trigger] p[k]);
    assert forall|j: int| 0 <= j < ps.len() implies q(#[trigger] ps[j]) by {
        assert forall|k: int| 0 <= k < ps[j].len() implies !is_ws(#[trigger] ps[j][k]) by {
            assert(!is_sep(Separator::Whitespace, ps[j][k]));
        }
    }
    lemma_keep_nonempty_elems(ps, q);
    assert forall|i: int, k: int| 0 <= i < words(x).len() && 0 <= k < words(x)[i].len() implies !is_ws(
        #[trigger] words(x)[i][k],
    ) by {
        assert(q(words(x)[i]));
    }
}

proof fn lemma_join_words_chars(ws: Seq<Seq<char>>)
    requires
        forall|i: int, k: int| 0 <= i < ws.len() && 0 <= k < ws[i].len() ==> !is_ws(
            #[trigger] ws[i][k],
        ),
    ensures
        forall|k: int| 0 <= k < join(ws, seq![' ']).len() ==> {
            let c = #[trigger] join(ws, seq![' '])[k];
            c == ' ' || !is_ws(c)
        },
    decreases ws.len(),
{
    if ws.len() == 1 {
        assert forall|k: int| 0 <= k < ws[0].len() implies !is_ws(#[trigger] ws[0][k]) by {}
    } else if ws.len() > 1 {
        let d = ws.drop_last();
        assert forall|i: int, k: int| 0 <= i < d.len() && 0 <= k < d[i].len() implies !is_ws(
            #[trigger] d[i][k],
        ) by {
            assert(d[i] == ws[i]);
        }
        lemma_join_words_chars(d);
        let j = join(d, seq![' ']);
        let l = ws.last();
        assert forall|k: int| 0 <= k < (j + seq![' '] + l).len() implies {
            let c = #[trigger] (j + seq![' '] + l)[k];
            c == ' ' || !is_ws(c)
        } by {
            if k < j.len() {
                assert((j + seq![' '] + l)[k] == j[k]);
            } else if k == j.len() {
            } else {
                assert((j + seq![' '] + l)[k] == l[k - j.len() - 1]);
                assert(l[k - j.len() - 1] == ws[ws.len() - 1][k - j.len() - 1]);
            }
        }
    }
}

/// What cleaning up a line or paragraph gives, and that cleaning it up
/// again changes nothing.
pub proof fn lemma_collapse_idem(l: Seq<char>, f: bool)
    ensures
        spec_collapse(spec_collapse(l, f), f) == spec_collapse(l, f),
        tidy(spec_collapse(l, f)),
        no_cr(l) ==> no_cr(spec_collapse(l, f)),
        no_lf(l) ==> no_lf(spec_collapse(l, f)),
        no_blank_break(l) ==> no_blank_break(spec_collapse(l, f)),
        spec_collapse(l, f).len() > 0 <==> trim(l).len() > 0,
{
    let c = spec_collapse(l, f);
    lemma_trim(l);
    if !f {
        lemma_trim_idem_append(l, Seq::empty());
        lemma_lead_bounds(l, 0);
        let a = lead(l, 0);
        lemma_trail_bounds(l, a, l.len() as int);
        assert forall|k: int| 0 <= k < c.len() implies #[trigger] c[k] == l[a + k] by {}
        if no_blank_break(l) {
            assert forall|k: int| 0 <= k < c.len() - 1 implies !(#[trigger] c[k] == '\n' && c[k + 1]
                == '\n') by {
                assert(c[k] == l[a + k] && c[k + 1] == l[a + k + 1]);
            }
        }
        if no_cr(l) {
            assert forall|k: int| 0 <= k < c.len() implies #[trigger] c[k] != '\r' by {
                assert(c[k] == l[a + k]);
            }
        }
        if no_lf(l) {
            assert forall|k: int| 0 <= k < c.len() implies #[trigger] c[k] != '\n' by {
                assert(c[k] == l[a + k]);
            }
        }
    } else {
        let ws = words(l);
        lemma_words_props(l);
        lemma_words_of_join(ws);
        lemma_join_words_chars(ws);
        assert(no_cr(c));
        assert(no_lf(c));
        assert(no_blank_break(c)) by {
            assert forall|k: int| 0 <= k < c.len() - 1 implies !(#[trigger] c[k] == '\n' && c[k + 1]
                == '\n') by {
                assert(c[k] == ' ' || !is_ws(c[k]));
            }
        }
        if ws.len() > 0 {
            lemma_join_ends(ws, seq![' ']);
            assert(ws[0].len() > 0 && ws.last().len() > 0);
            assert(!is_ws(ws[0][0]));
            assert(!is_ws(ws.last()[ws.last().len() - 1]));
        }
        crate::content::lemma_visible_words(l);
        crate::content::lemma_visible_empty(l);
        if trim(l).len() > 0 {
            assert(ws.len() > 0) by {
                if ws.len() == 0 {
                    assert(crate::content::visible(crate::laws::concat(ws)) =~= Seq::<char>::empty());
                }
            }
        }
    }
}


/// `cs` without its empty pieces at either end.
pub open spec fn inner_lines(cs: Seq<Seq<char>>) -> Seq<Seq<char>>
    decreases cs.len(),
{
    if cs.len() == 0 {
        cs
    } else if cs[0].len() == 0 {
        inner_lines(cs.drop_first())
    } else if cs.last().len() == 0 {
        inner_lines(cs.drop_last())
    } else {
        cs
    }
}

proof fn lemma_trim_join_lines(cs: Seq<Seq<char>>, q: spec_fn(Seq<char>) -> bool)
    requires
        forall|i: int| 0 <= i < cs.len() ==> tidy(#[trigger] cs[i]) && q(cs[i]),
    ensures
        trim(join(cs, seq!['\n'])) == join(inner_lines(cs), seq!['\n']),
        forall|i: int| 0 <= i < inner_lines(cs).len() ==> tidy(#[trigger] inner_lines(cs)[i]) && q(inner_lines(cs)[i]),
        inner_lines(cs).len() > 0 ==> inner_lines(cs)[0].len() > 0 && inner_lines(cs).last().len() > 0,
    decreases cs.len(),
{
    let nl = seq!['\n'];
    assert forall|k: int| 0 <= k < nl.len() implies is_ws(#[trigger] nl[k]) by {}
    if cs.len() == 0 {
        lemma_trim_frame(Seq::empty(), Seq::empty(), Seq::empty());
        assert(Seq::<char>::empty() + Seq::<char>::empty() + Seq::<char>::empty() =~= Seq::<
            char,
        >::empty());
    } else if cs[0].len() == 0 {
        let rest = cs.drop_first();
        assert forall|i: int| 0 <= i < rest.len() implies tidy(#[trigger] rest[i]) && q(rest[i]) by {
            assert(rest[i] == cs[i + 1]);
        }
        lemma_trim_join_lines(rest, q);
        if rest.len() == 0 {
            lemma_trim_frame(Seq::empty(), Seq::empty(), Seq::empty());
            assert(Seq::<char>::empty() + Seq::<char>::empty() + Seq::<char>::empty() =~= Seq::<
                char,
            >::empty());
            assert(cs =~= seq![cs[0]]);
            assert(cs[0] =~= Seq::<char>::empty());
        } else {
            assert(cs =~= seq![cs[0]] + rest);
            lemma_join_cons(cs[0], rest, nl);
            assert(cs[0] + nl + join(rest, nl) =~= nl + join(rest, nl));
            lemma_trim_prepend_ws(nl, join(rest, nl));
        }
    } else if cs.last().len() == 0 {
        let d = cs.drop_last();
        assert(cs.len() >= 2);
        assert forall|i: int| 0 <= i < d.len() implies tidy(#[trigger] d[i]) && q(d[i]) by {
            assert(d[i] == cs[i]);
        }
        lemma_trim_join_lines(d, q);
        assert(join(d, nl) + nl + cs.last() =~= join(d, nl) + nl);
        lemma_trim_idem_append(join(d, nl), nl);
    } else {
        lemma_join_ends(cs, nl);
        assert(tidy(cs[0]) && tidy(cs[cs.len() - 1]));
        let j = join(cs, nl);
        lemma_trim_frame(Seq::empty(), j, Seq::empty());
        assert(Seq::<char>::empty() + j + Seq::<char>::empty() =~= j);
    }
}

proof fn lemma_join_no_cr_sep(g: Seq<Seq<char>>, sep: Seq<char>)
    requires
        no_cr(sep),
        forall|i: int| 0 <= i < g.len() ==> no_cr(#[trigger] g[i]),
    ensures
        no_cr(join(g, sep)),
    decreases g.len(),
{
    if g.len() == 1 {
        assert(no_cr(g[0]));
    } else if g.len() > 1 {
        assert forall|i: int| 0 <= i < g.drop_last().len() implies no_cr(#[trigger] g.drop_last()[i]) by {
            assert(g.drop_last()[i] == g[i]);
        }
        lemma_join_no_cr_sep(g.drop_last(), sep);
        assert(no_cr(g[g.len() - 1]));
        lemma_no_cr_add(join(g.drop_last(), sep), sep);
        lemma_no_cr_add(join(g.drop_last(), sep) + sep, g.last());
    }
}

/// A line or paragraph that cleaning up leaves as it is.
pub open spec fn settled_piece(c: Seq<char>, f: bool) -> bool {
    &&& tidy(c)
    &&& no_cr(c)
    &&& spec_collapse(c, f) == c
}

proof fn lemma_collapse_all_fixed(cs: Seq<Seq<char>>, f: bool)
    requires
        forall|i: int| 0 <= i < cs.len() ==> spec_collapse(#[trigger] cs[i], f) == cs[i],
    ensures
        collapse_all(cs, f) == cs,
{
    assert(collapse_all(cs, f) =~= cs);
}

proof fn lemma_idem_lines(x: Seq<char>, cfg: ChunkingConfig)
    requires
        cfg.preserve_line_breaks,
    ensures
        spec_normalize_text(spec_normalize_text(x, cfg), cfg) == spec_normalize_text(x, cfg),
{
    let f = cfg.collapse_whitespace;
    let nl = seq!['\n'];
    let u = unify_newlines(x);
    lemma_unify_no_cr(x);
    lemma_lines_no_cr(u);
    let ls = lines(u);
    lemma_split_when_no_sep(u, Separator::Newline);
    lemma_split_when_len(u, Separator::Newline);
    let cs = collapse_all(ls, f);
    let q = |c: Seq<char>| settled_piece(c, f) && no_lf(c);
    assert forall|i: int| 0 <= i < cs.len() implies tidy(#[trigger] cs[i]) && q(cs[i]) by {
        let l = ls[i];
        assert(l == split_when(u, Separator::Newline)[i]);
        assert(no_lf(l)) by {
            assert forall|k: int| 0 <= k < l.len() implies #[trigger] l[k] != '\n' by {
                assert(!is_sep(Separator::Newline, split_when(u, Separator::Newline)[i][k]));
            }
        }
        lemma_collapse_idem(l, f);
    }
    lemma_trim_join_lines(cs, q);
    let k = inner_lines(cs);
    let n = join(k, nl);
    assert(spec_normalize_text(x, cfg) == n);
    assert forall|i: int| 0 <= i < k.len() implies no_cr(#[trigger] k[i]) by {
        assert(q(k[i]));
    }
    lemma_join_no_cr(k);
    lemma_unify_id(n);
    lemma_lines_no_cr(n);
    if k.len() == 0 {
        assert(n =~= Seq::<char>::empty());
        assert(split_when(n, Separator::Newline) == seq![n]);
        assert(lines(n) =~= Seq::<Seq<char>>::empty());
        assert(collapse_all(lines(n), f) =~= Seq::<Seq<char>>::empty());
        lemma_trim_frame(Seq::empty(), Seq::empty(), Seq::empty());
        assert(Seq::<char>::empty() + Seq::<char>::empty() + Seq::<char>::empty() =~= Seq::<
            char,
        >::empty());
    } else {
        assert forall|i: int, j: int| 0 <= i < k.len() && 0 <= j < k[i].len() implies !is_sep(
            Separator::Newline,
            #[trigger] k[i][j],
        ) by {
            assert(q(k[i]));
        }
        lemma_split_join(k, '\n', Separator::Newline);
        assert(lines(n) == k);
        assert forall|i: int| 0 <= i < k.len() implies spec_collapse(#[trigger] k[i], f) == k[i] by {
            assert(q(k[i]));
        }
        lemma_collapse_all_fixed(k, f);
        lemma_trim_join_lines(k, q);
        assert(inner_lines(k) == k);
    }
}

proof fn lemma_split_on_first(r: Seq<char>, p: Seq<char>)
    requires
        split_on(r, p)[0].len() > 0,
    ensures
        r.len() > 0,
        split_on(r, p)[0][0] == r[0],
{
    if r.len() == 0 {
    } else if starts_with(r, p) {
    } else {
        lemma_split_on_len(r.drop_first(), p);
    }
}

/// A blank line break: two line feeds.
pub open spec fn blank_break() -> Seq<char> {
    seq!['\n', '\n']
}

proof fn lemma_split_on_pieces(s: Seq<char>)
    requires
        no_cr(s),
    ensures
        forall|i: int| 0 <= i < split_on(s, blank_break()).len() ==> no_cr(
            #[trigger] split_on(s, blank_break())[i],
        ) && no_blank_break(split_on(s, blank_break())[i]),
    decreases s.len(),
{
    let p = seq!['\n', '\n'];
    if s.len() > 0 {
        if starts_with(s, p) {
            let r = s.skip(2);
            assert(no_cr(r)) by {
                assert forall|k: int| 0 <= k < r.len() implies #[trigger] r[k] != '\r' by {
                    assert(r[k] == s[k + 2]);
                }
            }
            lemma_split_on_pieces(r);
            let x = split_on(r, p);
            let y = seq![Seq::<char>::empty()] + x;
            assert forall|i: int| 0 <= i < y.len() implies no_cr(#[trigger] y[i]) && no_blank_break(
                y[i],
            ) by {
                if i > 0 {
                    assert(y[i] == x[i - 1]);
                }
            }
        } else {
            let r = s.drop_first();
            assert(no_cr(r)) by {
                assert forall|k: int| 0 <= k < r.len() implies #[trigger] r[k] != '\r' by {
                    assert(r[k] == s[k + 1]);
                }
            }
            lemma_split_on_pieces(r);
            lemma_split_on_len(r, p);
            let x = split_on(r, p);
            let y = prepend(seq![s[0]], x);
            let h = seq![s[0]] + x[0];
            assert(no_cr(x[0]) && no_blank_break(x[0]));
            assert(s[0] != '\r');
            lemma_no_cr_add(seq![s[0]], x[0]);
            assert(no_blank_break(h)) by {
                assert forall|k: int| 0 <= k < h.len() - 1 implies !(#[trigger] h[k] == '\n' && h[k
                    + 1] == '\n') by {
                    if k == 0 {
                        if s[0] == '\n' && h[1] == '\n' {
                            lemma_split_on_first(r, p);
                            assert(s.len() >= 2 && s[1] == '\n');
                            assert(s.take(2) =~= p);
                        }
                    } else {
                        assert(h[k] == x[0][k - 1] && h[k + 1] == x[0][k]);
                    }
                }
            }
            assert forall|i: int| 0 <= i < y.len() implies no_cr(#[trigger] y[i]) && no_blank_break(
                y[i],
            ) by {
                if i > 0 {
                    assert(y[i] == x[i]);
                }
            }
        }
    }
}

proof fn lemma_split_on_whole(x: Seq<char>)
    requires
        no_blank_break(x),
    ensures
        split_on(x, seq!['\n', '\n']) == seq![x],
    decreases x.len(),
{
    let p = seq!['\n', '\n'];
    if x.len() == 0 {
        assert(x =~= Seq::<char>::empty());
    } else {
        if starts_with(x, p) {
            assert(x[0] == '\n' && x[1] == '\n');
        }
        let r = x.drop_first();
        assert(no_blank_break(r)) by {
            assert forall|k: int| 0 <= k < r.len() - 1 implies !(#[trigger] r[k] == '\n' && r[k + 1]
                == '\n') by {
                assert(r[k] == x[k + 1] && r[k + 1] == x[k + 2]);
            }
        }
        lemma_split_on_whole(r);
        assert(seq![x[0]] + r =~= x);
        assert(prepend(seq![x[0]], seq![r]) =~= seq![x]);
    }
}

proof fn lemma_split_on_before_break(x: Seq<char>, y: Seq<char>)
    requires
        no_blank_break(x),
        !(x.len() > 0 && x.last() == '\n'),
    ensures
        split_on(x + seq!['\n', '\n'] + y, seq!['\n', '\n']) == seq![x] + split_on(
            y,
            seq!['\n', '\n'],
        ),
    decreases x.len(),
{
    let p = seq!['\n', '\n'];
    let s = x + p + y;
    if x.len() == 0 {
        assert(s.take(2) =~= p);
        assert(s.skip(2) =~= y);
        assert(x =~= Seq::<char>::empty());
    } else {
        if starts_with(s, p) {
            if x.len() >= 2 {
                assert(s[0] == x[0] && s[1] == x[1]);
            } else {
                assert(s[0] == x[0] && x[0] == x.last());
            }
            assert(s.take(2)[0] == p[0] && s.take(2)[1] == p[1]);
        }
        let r = x.drop_first();
        assert(no_blank_break(r)) by {
            assert forall|k: int| 0 <= k < r.len() - 1 implies !(#[trigger] r[k] == '\n' && r[k + 1]
                == '\n') by {
                assert(r[k] == x[k + 1] && r[k + 1] == x[k + 2]);
            }
        }
        if r.len() > 0 {
            assert(r.last() == x.last());
        }
        assert(s.drop_first() =~= r + p + y);
        lemma_split_on_before_break(r, y);
        lemma_split_on_len(y, p);
        assert(seq![x[0]] + r =~= x);
        assert(prepend(seq![x[0]], seq![r] + split_on(y, p)) =~= seq![x] + split_on(y, p));
    }
}

proof fn lemma_split_join_paragraphs(qs: Seq<Seq<char>>)
    requires
        qs.len() > 0,
        forall|i: int| 0 <= i < qs.len() ==> no_blank_break(#[trigger] qs[i]) && !(qs[i].len() > 0
            && qs[i].last() == '\n'),
    ensures
        split_on(join(qs, seq!['\n', '\n']), seq!['\n', '\n']) == qs,
    decreases qs.len(),
{
    let p = seq!['\n', '\n'];
    if qs.len() == 1 {
        assert(no_blank_break(qs[0]));
        lemma_split_on_whole(qs[0]);
        assert(qs =~= seq![qs[0]]);
    } else {
        let rest = qs.drop_first();
        assert forall|i: int| 0 <= i < rest.len() implies no_blank_break(#[trigger] rest[i]) && !(
        rest[i].len() > 0 && rest[i].last() == '\n') by {
            assert(rest[i] == qs[i + 1]);
        }
        lemma_split_join_paragraphs(rest);
        assert(qs =~= seq![qs[0]] + rest);
        lemma_join_cons(qs[0], rest, p);
        assert(no_blank_break(qs[0]) && !(qs[0].len() > 0 && qs[0].last() == '\n'));
        lemma_split_on_before_break(qs[0], join(rest, p));
    }
}

/// A section normalized with blank-line paragraph breaks is its cleaned-up
/// paragraphs joined by blank lines, and splitting at blank lines gives them
/// back.
pub(crate) proof fn lemma_paragraph_structure(x: Seq<char>, cfg: ChunkingConfig) -> (qs: Seq<
    Seq<char>,
>)
    requires
        !cfg.preserve_line_breaks,
        cfg.paragraph_separator@ == seq!['\n', '\n'],
    ensures
        spec_normalize_text(x, cfg) == join(qs, seq!['\n', '\n']),
        forall|i: int|
            0 <= i < qs.len() ==> (#[trigger] qs[i]).len() > 0 && tidy(qs[i]) && no_cr(qs[i])
                && no_blank_break(qs[i]) && spec_collapse(qs[i], cfg.collapse_whitespace) == qs[i],
        qs.len() > 0 ==> split_on(join(qs, seq!['\n', '\n']), seq!['\n', '\n']) == qs,
{
    let f = cfg.collapse_whitespace;
    let p = seq!['\n', '\n'];
    let u = unify_newlines(x);
    lemma_unify_no_cr(x);
    lemma_split_on_pieces(u);
    let pieces = split_on(u, p);
    let tp = trim_all(pieces);
    let good = |c: Seq<char>| tidy(c) && no_cr(c) && no_blank_break(c) && spec_collapse(c, f) == c;
    let ok_trim = |c: Seq<char>| tidy(c) && no_cr(c) && no_blank_break(c);
    assert(p == blank_break());
    assert forall|j: int| 0 <= j < tp.len() implies ok_trim(#[trigger] tp[j]) by {
        assert(no_cr(pieces[j]) && no_blank_break(pieces[j]));
        lemma_collapse_idem(pieces[j], false);
        assert(tp[j] == spec_collapse(pieces[j], false));
    }
    lemma_keep_nonempty_elems(tp, ok_trim);
    let ps = keep_nonempty(tp);
    assert(ps == spec_split_paragraphs(u));
    let cs = collapse_all(ps, f);
    assert forall|j: int| 0 <= j < cs.len() implies good(#[trigger] cs[j]) by {
        assert(ok_trim(ps[j]));
        lemma_collapse_idem(ps[j], f);
    }
    lemma_keep_nonempty_elems(cs, good);
    let qs = keep_nonempty(cs);
    assert forall|i: int| 0 <= i < qs.len() implies (#[trigger] qs[i]).len() > 0 && tidy(qs[i])
        && no_cr(qs[i]) && no_blank_break(qs[i]) && spec_collapse(qs[i], f) == qs[i] by {
        assert(good(qs[i]));
    }
    if qs.len() > 0 {
        assert forall|i: int| 0 <= i < qs.len() implies no_blank_break(#[trigger] qs[i]) && !(
        qs[i].len() > 0 && qs[i].last() == '\n') by {
            assert(good(qs[i]));
        }
        lemma_split_join_paragraphs(qs);
    }
    qs
}

proof fn lemma_idem_paragraphs(x: Seq<char>, cfg: ChunkingConfig)
    requires
        !cfg.preserve_line_breaks,
        cfg.paragraph_separator@ == seq!['\n', '\n'],
    ensures
        spec_normalize_text(spec_normalize_text(x, cfg), cfg) == spec_normalize_text(x, cfg),
{
    let f = cfg.collapse_whitespace;
    let p = seq!['\n', '\n'];
    let qs = lemma_paragraph_structure(x, cfg);
    let n = join(qs, p);
    assert(no_cr(p));
    assert forall|i: int| 0 <= i < qs.len() implies no_cr(#[trigger] qs[i]) by {}
    lemma_join_no_cr_sep(qs, p);
    lemma_unify_id(n);
    let empty = Seq::<char>::empty();
    lemma_trim_frame(empty, empty, empty);
    assert(empty + empty + empty =~= empty);
    if qs.len() == 0 {
        assert(n =~= empty);
        assert(split_on(n, p) == seq![empty]);
        assert(trim_all(seq![empty]) =~= seq![empty]);
        assert(seq![empty].drop_last() =~= Seq::<Seq<char>>::empty());
        assert(seq![empty].last().len() == 0);
        assert(keep_nonempty(seq![empty]) == keep_nonempty(seq![empty].drop_last()));
        assert(keep_nonempty(Seq::<Seq<char>>::empty()) == Seq::<Seq<char>>::empty());
        assert(spec_split_paragraphs(n) =~= Seq::<Seq<char>>::empty());
        assert(collapse_all(spec_split_paragraphs(n), f) =~= Seq::<Seq<char>>::empty());
    } else {
        assert forall|i: int| 0 <= i < qs.len() implies #[trigger] trim_all(qs)[i] == qs[i] by {
            lemma_trim_frame(empty, qs[i], empty);
            assert(empty + qs[i] + empty =~= qs[i]);
        }
        assert(trim_all(qs) =~= qs);
        lemma_keep_nonempty_id(qs);
        assert(spec_split_paragraphs(n) == qs);
        lemma_collapse_all_fixed(qs, f);
    }
}

/// Normalizing twice gives what normalizing once gives, when line breaks
/// are kept or the paragraph separator is a blank line (`"\n\n"`).
pub proof fn lemma_normalize_idempotent(x: Seq<char>, cfg: ChunkingConfig)
    requires
        cfg.preserve_line_breaks || cfg.paragraph_separator@ == seq!['\n', '\n'],
    ensures
        spec_normalize_text(spec_normalize_text(x, cfg), cfg) == spec_normalize_text(x, cfg),
{
    if cfg.preserve_line_breaks {
        lemma_idem_lines(x, cfg);
    } else {
        lemma_idem_paragraphs(x, cfg);
    }
}

} // verus!

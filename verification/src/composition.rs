//! A marker line composes: cutting `a`, a marker line and `b` gives the
//! posts of `a` followed by the posts of `b`.
use vstd::prelude::*;

use crate::chunking::{
    ChunkError, SETTLE_ROUNDS, all_bodies, collapse_all, frame, keep_nonblank, marker,
    prefix_width, section_state, settle, spec_chunk_text, spec_collapse, spec_normalize_text,
    spec_sections, spec_split_manual_sections, spec_split_paragraphs, trim_all,
};
use crate::config::ChunkingConfig;
use crate::text::{
    Separator, is_sep, is_ws, join, keep_nonempty, lemma_split_on_len, lemma_split_when_len,
    lemma_trim_frame, lemma_trim_idem_append, lines, prepend, split_on, split_when, starts_with,
    strip_cr, trim, unify_newlines, words,
};

verus! {

/// `s` holds no carriage return.
pub open spec fn no_cr(s: Seq<char>) -> bool {
    forall|k: int| 0 <= k < s.len() ==> #[trigger] s[k] != '\r'
}

pub(crate) proof fn lemma_no_cr_add(x: Seq<char>, y: Seq<char>)
    requires
        no_cr(x),
        no_cr(y),
    ensures
        no_cr(x + y),
{
    assert forall|k: int| 0 <= k < (x + y).len() implies #[trigger] (x + y)[k] != '\r' by {
        if k < x.len() {
            assert((x + y)[k] == x[k]);
        } else {
            assert((x + y)[k] == y[k - x.len()]);
        }
    }
}

pub(crate) proof fn lemma_unify_no_cr(s: Seq<char>)
    ensures
        no_cr(unify_newlines(s)),
    decreases s.len(),
{
    if s.len() > 0 {
        if s[0] == '\r' && s.len() > 1 && s[1] == '\n' {
            lemma_unify_no_cr(s.skip(2));
            lemma_no_cr_add(seq!['\n'], unify_newlines(s.skip(2)));
        } else {
            lemma_unify_no_cr(s.drop_first());
            let c = if s[0] == '\r' {
                '\n'
            } else {
                s[0]
            };
            lemma_no_cr_add(seq![c], unify_newlines(s.drop_first()));
        }
    }
}

pub(crate) proof fn lemma_unify_id(s: Seq<char>)
    requires
        no_cr(s),
    ensures
        unify_newlines(s) == s,
    decreases s.len(),
{
    if s.len() > 0 {
        assert(s[0] != '\r');
        assert(no_cr(s.drop_first())) by {
            assert forall|k: int| 0 <= k < s.drop_first().len() implies #[trigger] s.drop_first()[k]
                != '\r' by {
                assert(s.drop_first()[k] == s[k + 1]);
            }
        }
        lemma_unify_id(s.drop_first());
        assert(s =~= seq![s[0]] + s.drop_first());
    }
}

proof fn lemma_unify_add(x: Seq<char>, y: Seq<char>)
    requires
        !(x.len() > 0 && x.last() == '\r'),
    ensures
        unify_newlines(x + y) == unify_newlines(x) + unify_newlines(y),
    decreases x.len(),
{
    let s = x + y;
    if x.len() == 0 {
        assert(s =~= y);
    } else if x[0] == '\r' && x.len() > 1 && x[1] == '\n' {
        assert(s[0] == '\r' && s[1] == '\n');
        assert(s.skip(2) =~= x.skip(2) + y);
        if x.len() > 2 {
            assert(x.skip(2).last() == x.last());
        }
        lemma_unify_add(x.skip(2), y);
        assert(seq!['\n'] + (unify_newlines(x.skip(2)) + unify_newlines(y)) =~= seq!['\n']
            + unify_newlines(x.skip(2)) + unify_newlines(y));
    } else {
        assert(s[0] == x[0]);
        if x[0] == '\r' {
            assert(x.len() > 1);
            assert(s[1] == x[1]);
        }
        assert(s.drop_first() =~= x.drop_first() + y);
        if x.len() > 1 {
            assert(x.drop_first().last() == x.last());
        }
        lemma_unify_add(x.drop_first(), y);
        let c = if x[0] == '\r' {
            '\n'
        } else {
            x[0]
        };
        assert(seq![c] + (unify_newlines(x.drop_first()) + unify_newlines(y)) =~= seq![c]
            + unify_newlines(x.drop_first()) + unify_newlines(y));
    }
}

proof fn lemma_unify_crlf(x: Seq<char>, y: Seq<char>)
    ensures
        unify_newlines(x + seq!['\r', '\n'] + y) == unify_newlines(x) + seq!['\n']
            + unify_newlines(y),
        unify_newlines(x.push('\r')) == unify_newlines(x).push('\n'),
    decreases x.len(),
{
    let s = x + seq!['\r', '\n'] + y;
    let t = x.push('\r');
    if x.len() == 0 {
        assert(s.skip(2) =~= y);
        assert(t =~= seq!['\r']);
        assert(t.drop_first() =~= Seq::<char>::empty());
        assert(unify_newlines(Seq::<char>::empty()) == Seq::<char>::empty());
        assert(unify_newlines(x) == Seq::<char>::empty());
        assert(unify_newlines(t) == seq!['\n'] + unify_newlines(t.drop_first()));
        assert(seq!['\n'] + Seq::<char>::empty() =~= Seq::<char>::empty().push('\n'));
        assert(s =~= seq!['\r', '\n'] + y);
    } else if x[0] == '\r' && x.len() > 1 && x[1] == '\n' {
        assert(s.skip(2) =~= x.skip(2) + seq!['\r', '\n'] + y);
        assert(t.skip(2) =~= x.skip(2).push('\r'));
        lemma_unify_crlf(x.skip(2), y);
        assert(seq!['\n'] + (unify_newlines(x.skip(2)) + seq!['\n'] + unify_newlines(y))
            =~= seq!['\n'] + unify_newlines(x.skip(2)) + seq!['\n'] + unify_newlines(y));
        assert(seq!['\n'] + unify_newlines(x.skip(2)).push('\n') =~= (seq!['\n']
            + unify_newlines(x.skip(2))).push('\n'));
    } else {
        assert(s[0] == x[0] && t[0] == x[0]);
        if x.len() == 1 {
            assert(s[1] == '\r' && t.len() == 2 && t[1] == '\r');
        } else {
            assert(s[1] == x[1] && t[1] == x[1]);
        }
        assert(s.drop_first() =~= x.drop_first() + seq!['\r', '\n'] + y);
        assert(t.drop_first() =~= x.drop_first().push('\r'));
        lemma_unify_crlf(x.drop_first(), y);
        let c = if x[0] == '\r' {
            '\n'
        } else {
            x[0]
        };
        assert(seq![c] + (unify_newlines(x.drop_first()) + seq!['\n'] + unify_newlines(y))
            =~= seq![c] + unify_newlines(x.drop_first()) + seq!['\n'] + unify_newlines(y));
        assert(seq![c] + unify_newlines(x.drop_first()).push('\n') =~= (seq![c]
            + unify_newlines(x.drop_first())).push('\n'));
    }
}

/// Splitting at a separator character that stands between two texts.
pub(crate) proof fn lemma_split_when_add(x: Seq<char>, c: char, y: Seq<char>, sep: Separator)
    requires
        is_sep(sep, c),
    ensures
        split_when(x + seq![c] + y, sep) == split_when(x, sep) + split_when(y, sep),
    decreases x.len(),
{
    let s = x + seq![c] + y;
    if x.len() == 0 {
        assert(s =~= seq![c] + y);
        assert(s.drop_first() =~= y);
    } else {
        assert(s[0] == x[0]);
        assert(s.drop_first() =~= x.drop_first() + seq![c] + y);
        lemma_split_when_add(x.drop_first(), c, y, sep);
        lemma_split_when_len(x.drop_first(), sep);
        if is_sep(sep, x[0]) {
            assert(seq![Seq::<char>::empty()] + (split_when(x.drop_first(), sep) + split_when(
                y,
                sep,
            )) =~= seq![Seq::<char>::empty()] + split_when(x.drop_first(), sep) + split_when(
                y,
                sep,
            ));
        } else {
            let a = split_when(x.drop_first(), sep);
            let b = split_when(y, sep);
            assert(prepend(seq![x[0]], a + b) =~= prepend(seq![x[0]], a) + b);
        }
    }
}

pub(crate) proof fn lemma_split_when_plain(x: Seq<char>, sep: Separator)
    requires
        forall|k: int| 0 <= k < x.len() ==> !is_sep(sep, #[trigger] x[k]),
    ensures
        split_when(x, sep) == seq![x],
    decreases x.len(),
{
    if x.len() > 0 {
        assert(!is_sep(sep, x[0]));
        assert forall|k: int| 0 <= k < x.drop_first().len() implies !is_sep(
            sep,
            #[trigger] x.drop_first()[k],
        ) by {
            assert(x.drop_first()[k] == x[k + 1]);
        }
        lemma_split_when_plain(x.drop_first(), sep);
        assert(seq![x[0]] + x.drop_first() =~= x);
        assert(prepend(seq![x[0]], seq![x.drop_first()]) =~= seq![x]);
    } else {
        assert(x =~= Seq::<char>::empty());
    }
}

proof fn lemma_split_when_no_cr(x: Seq<char>, sep: Separator)
    requires
        no_cr(x),
    ensures
        forall|i: int| 0 <= i < split_when(x, sep).len() ==> no_cr(#[trigger] split_when(x, sep)[i]),
    decreases x.len(),
{
    if x.len() > 0 {
        assert(no_cr(x.drop_first())) by {
            assert forall|k: int| 0 <= k < x.drop_first().len() implies #[trigger] x.drop_first()[k]
                != '\r' by {
                assert(x.drop_first()[k] == x[k + 1]);
            }
        }
        lemma_split_when_no_cr(x.drop_first(), sep);
        lemma_split_when_len(x.drop_first(), sep);
        let r = split_when(x.drop_first(), sep);
        if !is_sep(sep, x[0]) {
            assert(x[0] != '\r');
            assert(no_cr(r[0]));
            lemma_no_cr_add(seq![x[0]], r[0]);
            assert forall|i: int| 0 <= i < prepend(seq![x[0]], r).len() implies no_cr(
                #[trigger] prepend(seq![x[0]], r)[i],
            ) by {
                if i > 0 {
                    assert(prepend(seq![x[0]], r)[i] == r[i]);
                }
            }
        } else {
            assert forall|i: int| 0 <= i < (seq![Seq::<char>::empty()] + r).len() implies no_cr(
                #[trigger] (seq![Seq::<char>::empty()] + r)[i],
            ) by {
                if i > 0 {
                    assert((seq![Seq::<char>::empty()] + r)[i] == r[i - 1]);
                }
            }
        }
    }
}

/// `ps` without a last piece that is empty.
pub open spec fn drop_empty_last(ps: Seq<Seq<char>>) -> Seq<Seq<char>> {
    if ps.len() > 0 && ps.last().len() == 0 {
        ps.drop_last()
    } else {
        ps
    }
}

/// Without carriage returns, the lines are the pieces between line feeds,
/// an empty last piece left out.
pub(crate) proof fn lemma_lines_no_cr(x: Seq<char>)
    requires
        no_cr(x),
    ensures
        lines(x) == drop_empty_last(split_when(x, Separator::Newline)),
        forall|i: int| 0 <= i < lines(x).len() ==> no_cr(#[trigger] lines(x)[i]),
{
    let ps = split_when(x, Separator::Newline);
    lemma_split_when_len(x, Separator::Newline);
    lemma_split_when_no_cr(x, Separator::Newline);
    let body = Seq::new((ps.len() - 1) as nat, |i: int| strip_cr(ps[i]));
    assert forall|i: int| 0 <= i < body.len() implies #[trigger] body[i] == ps.drop_last()[i] by {
        assert(no_cr(ps[i]));
        if ps[i].len() > 0 {
            assert(ps[i].last() == ps[i][ps[i].len() - 1]);
        }
    }
    assert(body =~= ps.drop_last());
    if ps.last().len() > 0 {
        assert(ps.drop_last().push(ps.last()) =~= ps);
    }
    assert forall|i: int| 0 <= i < lines(x).len() implies no_cr(#[trigger] lines(x)[i]) by {
        assert(lines(x)[i] == ps[i]);
    }
}

/// The text around a marker line, with its line breaks made uniform.
proof fn lemma_unify_around_marker(a: Seq<char>, b: Seq<char>) -> (w: Seq<char>)
    ensures
        unify_newlines(a + seq!['\n', '-', '-', '-', '\n'] + b) == w + seq!['\n', '-', '-', '-', '\n']
            + unify_newlines(b),
        no_cr(w),
        unify_newlines(a) == w || unify_newlines(a) == w.push('\n'),
        unify_newlines(a) == w.push('\n') ==> lines(unify_newlines(a)) == split_when(
            w,
            Separator::Newline,
        ),
        unify_newlines(a) == w ==> lines(unify_newlines(a)) == drop_empty_last(
            split_when(w, Separator::Newline),
        ),
{
    let m = seq!['-', '-', '-', '\n'];
    assert(no_cr(m));
    lemma_unify_id(m);
    assert(!(m.len() > 0 && m.last() == '\r'));
    lemma_unify_add(m, b);
    let w = if a.len() > 0 && a.last() == '\r' {
        let a0 = a.drop_last();
        assert(a =~= a0.push('\r'));
        assert(a + seq!['\n', '-', '-', '-', '\n'] + b =~= a0 + seq!['\r', '\n'] + (m + b));
        lemma_unify_crlf(a0, m + b);
        assert(unify_newlines(a + seq!['\n', '-', '-', '-', '\n'] + b) == unify_newlines(a0)
            + seq!['\n'] + (m + unify_newlines(b)));
        unify_newlines(a0)
    } else {
        assert(a + seq!['\n', '-', '-', '-', '\n'] + b =~= a + (seq!['\n'] + (m + b)));
        lemma_unify_add(a, seq!['\n'] + (m + b));
        assert(no_cr(seq!['\n']));
        lemma_unify_id(seq!['\n']);
        lemma_unify_add(seq!['\n'], m + b);
        assert(unify_newlines(seq!['\n'] + (m + b)) == seq!['\n'] + (m + unify_newlines(b)));
        unify_newlines(a)
    };
    assert(seq!['\n'] + (m + unify_newlines(b)) =~= seq!['\n', '-', '-', '-', '\n']
        + unify_newlines(b));
    assert(w + (seq!['\n'] + (m + unify_newlines(b))) =~= w + seq!['\n', '-', '-', '-', '\n']
        + unify_newlines(b));
    assert(w + seq!['\n'] + unify_newlines(m + b) =~= w + seq!['\n', '-', '-', '-', '\n']
        + unify_newlines(b));
    if a.len() > 0 && a.last() == '\r' {
        lemma_unify_no_cr(a.drop_last());
    } else {
        lemma_unify_no_cr(a);
    }
    lemma_unify_no_cr(a);
    lemma_lines_no_cr(unify_newlines(a));
    if unify_newlines(a) == w.push('\n') {
        assert(w.push('\n') =~= w + seq!['\n'] + Seq::<char>::empty());
        lemma_split_when_add(w, '\n', Seq::empty(), Separator::Newline);
        assert(split_when(w, Separator::Newline) + split_when(Seq::empty(), Separator::Newline)
            =~= split_when(w, Separator::Newline).push(Seq::empty()));
    }
    w
}

/// The lines of the text around a marker line.
proof fn lemma_lines_around_marker(a: Seq<char>, b: Seq<char>)
    ensures
        exists|extra: Seq<Seq<char>>|
            {
                &&& (extra == Seq::<Seq<char>>::empty() || extra == seq![Seq::<char>::empty()])
                &&& lines(unify_newlines(a + seq!['\n', '-', '-', '-', '\n'] + b)) == lines(
                    unify_newlines(a),
                ) + extra + seq![seq!['-', '-', '-']] + lines(unify_newlines(b))
            },
{
    let w = lemma_unify_around_marker(a, b);
    let ub = unify_newlines(b);
    lemma_unify_no_cr(b);
    let u = w + seq!['\n', '-', '-', '-', '\n'] + ub;
    lemma_no_cr_add(w, seq!['\n', '-', '-', '-', '\n']);
    lemma_no_cr_add(w + seq!['\n', '-', '-', '-', '\n'], ub);
    lemma_lines_no_cr(u);
    lemma_lines_no_cr(ub);
    let dash = seq!['-', '-', '-'];
    assert(u =~= w + seq!['\n'] + (dash + seq!['\n'] + ub));
    lemma_split_when_add(w, '\n', dash + seq!['\n'] + ub, Separator::Newline);
    lemma_split_when_add(dash, '\n', ub, Separator::Newline);
    lemma_split_when_plain(dash, Separator::Newline);
    let pw = split_when(w, Separator::Newline);
    let pb = split_when(ub, Separator::Newline);
    lemma_split_when_len(ub, Separator::Newline);
    lemma_split_when_len(w, Separator::Newline);
    let all = pw + (seq![dash] + pb);
    assert(split_when(u, Separator::Newline) == all);
    assert(all.last() == pb.last());
    assert(drop_empty_last(all) =~= pw + seq![dash] + drop_empty_last(pb));
    if unify_newlines(a) == w.push('\n') {
        let extra = Seq::<Seq<char>>::empty();
        assert(pw + extra =~= pw);
        assert(lines(u) == lines(unify_newlines(a)) + extra + seq![dash] + lines(ub));
    } else {
        if pw.last().len() == 0 {
            let extra = seq![Seq::<char>::empty()];
            assert(pw.last() =~= Seq::<char>::empty());
            assert(pw =~= pw.drop_last() + extra);
            assert(lines(u) == lines(unify_newlines(a)) + extra + seq![dash] + lines(ub));
        } else {
            let extra = Seq::<Seq<char>>::empty();
            assert(pw + extra =~= pw);
            assert(lines(u) == lines(unify_newlines(a)) + extra + seq![dash] + lines(ub));
        }
    }
}


proof fn lemma_section_state_add(p: Seq<Seq<char>>, q: Seq<Seq<char>>)
    requires
        section_state(p).1 == Seq::<Seq<char>>::empty(),
    ensures
        section_state(p + q) == (section_state(p).0 + section_state(q).0, section_state(q).1),
    decreases q.len(),
{
    if q.len() == 0 {
        assert(p + q =~= p);
        assert(section_state(p).0 + Seq::<Seq<char>>::empty() =~= section_state(p).0);
    } else {
        assert((p + q).drop_last() =~= p + q.drop_last());
        assert((p + q).last() == q.last());
        lemma_section_state_add(p, q.drop_last());
        let sp = section_state(p).0;
        let sq = section_state(q.drop_last());
        if trim(q.last()) == marker() {
            assert((sp + sq.0).push(join(sq.1, seq!['\n'])) =~= sp + sq.0.push(
                join(sq.1, seq!['\n']),
            ));
        }
    }
}

proof fn lemma_trim_marker()
    ensures
        trim(seq!['-', '-', '-']) == marker(),
{
    lemma_trim_frame(Seq::empty(), seq!['-', '-', '-'], Seq::empty());
    assert(Seq::<char>::empty() + seq!['-', '-', '-'] + Seq::<char>::empty() =~= seq![
        '-',
        '-',
        '-',
    ]);
}

proof fn lemma_section_lines_no_cr(ls: Seq<Seq<char>>)
    requires
        forall|i: int| 0 <= i < ls.len() ==> no_cr(#[trigger] ls[i]),
    ensures
        forall|i: int|
            0 <= i < section_state(ls).1.len() ==> no_cr(#[trigger] section_state(ls).1[i]),
    decreases ls.len(),
{
    if ls.len() > 0 {
        assert forall|i: int| 0 <= i < ls.drop_last().len() implies no_cr(
            #[trigger] ls.drop_last()[i],
        ) by {
            assert(ls.drop_last()[i] == ls[i]);
        }
        lemma_section_lines_no_cr(ls.drop_last());
        assert(no_cr(ls[ls.len() - 1]));
        let g = section_state(ls.drop_last()).1;
        if trim(ls.last()) != marker() {
            assert forall|i: int| 0 <= i < g.push(ls.last()).len() implies no_cr(
                #[trigger] g.push(ls.last())[i],
            ) by {
                if i < g.len() {
                    assert(g.push(ls.last())[i] == g[i]);
                }
            }
        }
    }
}

pub(crate) proof fn lemma_join_no_cr(g: Seq<Seq<char>>)
    requires
        forall|i: int| 0 <= i < g.len() ==> no_cr(#[trigger] g[i]),
    ensures
        no_cr(join(g, seq!['\n'])),
    decreases g.len(),
{
    if g.len() == 1 {
        assert(no_cr(g[0]));
    } else if g.len() > 1 {
        assert forall|i: int| 0 <= i < g.drop_last().len() implies no_cr(
            #[trigger] g.drop_last()[i],
        ) by {
            assert(g.drop_last()[i] == g[i]);
        }
        lemma_join_no_cr(g.drop_last());
        assert(no_cr(seq!['\n']));
        assert(no_cr(g[g.len() - 1]));
        lemma_no_cr_add(join(g.drop_last(), seq!['\n']), seq!['\n']);
        lemma_no_cr_add(join(g.drop_last(), seq!['\n']) + seq!['\n'], g.last());
    }
}

/// What one more line feed does to the pieces between blank-line breaks.
pub open spec fn after_newline(ps: Seq<Seq<char>>) -> Seq<Seq<char>> {
    let r = ps.last();
    if r.len() > 0 && r.last() == '\n' {
        ps.update(ps.len() - 1, r.drop_last()).push(Seq::empty())
    } else {
        ps.update(ps.len() - 1, r.push('\n'))
    }
}

proof fn lemma_split_on_push_newline(s: Seq<char>)
    ensures
        split_on(s.push('\n'), seq!['\n', '\n']) == after_newline(split_on(s, seq!['\n', '\n'])),
    decreases s.len(),
{
    let p = seq!['\n', '\n'];
    let t = s.push('\n');
    lemma_split_on_len(s, p);
    if s.len() == 0 {
        assert(t =~= seq!['\n']);
        assert(!starts_with(t, p));
        assert(t.drop_first() =~= Seq::<char>::empty());
        assert(split_on(Seq::<char>::empty(), p) == seq![Seq::<char>::empty()]);
        assert(split_on(t, p) == prepend(seq![t[0]], split_on(t.drop_first(), p)));
        assert(s =~= Seq::<char>::empty());
        assert(split_on(t, p) =~= after_newline(split_on(s, p)));
    } else if starts_with(s, p) {
        assert(t.take(2) =~= s.take(2));
        assert(t.skip(2) =~= s.skip(2).push('\n'));
        lemma_split_on_push_newline(s.skip(2));
        let x = split_on(s.skip(2), p);
        lemma_split_on_len(s.skip(2), p);
        assert(after_newline(seq![Seq::<char>::empty()] + x) =~= seq![Seq::<char>::empty()]
            + after_newline(x));
    } else if s.len() == 1 && s[0] == '\n' {
        assert(t =~= p);
        assert(t.take(2) =~= p);
        assert(starts_with(t, p));
        assert(t.skip(2) =~= Seq::<char>::empty());
        assert(s.drop_first() =~= Seq::<char>::empty());
        assert(split_on(Seq::<char>::empty(), p) == seq![Seq::<char>::empty()]);
        assert(!starts_with(s, p));
        assert(split_on(s, p) == prepend(seq![s[0]], split_on(s.drop_first(), p)));
        assert(seq![s[0]] + Seq::<char>::empty() =~= seq!['\n']);
        assert(split_on(s, p) =~= seq![seq!['\n']]);
        assert(split_on(t, p) == seq![Seq::<char>::empty()] + split_on(t.skip(2), p));
        assert(seq!['\n'].drop_last() =~= Seq::<char>::empty());
        assert(seq![seq!['\n']].last() == seq!['\n']);
        assert(after_newline(seq![seq!['\n']]) =~= seq![Seq::<char>::empty(), Seq::<char>::empty()]);
        assert(split_on(t, p) =~= seq![Seq::<char>::empty(), Seq::<char>::empty()]);
        assert(split_on(t, p) =~= after_newline(split_on(s, p)));
    } else {
        if s.len() >= 2 {
            assert(t.take(2) =~= s.take(2));
        } else {
            assert(t.take(2) =~= seq![s[0], '\n']);
        }
        assert(!starts_with(t, p));
        assert(t[0] == s[0]);
        assert(t.drop_first() =~= s.drop_first().push('\n'));
        lemma_split_on_push_newline(s.drop_first());
        let x = split_on(s.drop_first(), p);
        lemma_split_on_len(s.drop_first(), p);
        if x.len() >= 2 {
            assert(after_newline(prepend(seq![s[0]], x)) =~= prepend(seq![s[0]], after_newline(x)));
        } else {
            if x[0].len() == 0 {
                assert(s.drop_first().len() == 0) by {
                    if s.drop_first().len() > 0 {
                        let r = s.drop_first();
                        if starts_with(r, p) {
                            lemma_split_on_len(r.skip(2), p);
                        } else {
                            lemma_split_on_len(r.drop_first(), p);
                        }
                    }
                }
                assert(s[0] != '\n');
                assert(x =~= seq![Seq::<char>::empty()]);
                assert(after_newline(prepend(seq![s[0]], x)) =~= prepend(
                    seq![s[0]],
                    after_newline(x),
                ));
            } else {
                assert((seq![s[0]] + x[0]).last() == x[0].last());
                assert((seq![s[0]] + x[0]).drop_last() =~= seq![s[0]] + x[0].drop_last());
                assert((seq![s[0]] + x[0]).push('\n') =~= seq![s[0]] + x[0].push('\n'));
                assert(after_newline(prepend(seq![s[0]], x)) =~= prepend(
                    seq![s[0]],
                    after_newline(x),
                ));
            }
        }
    }
}

proof fn lemma_collapse_empty(cw: bool)
    ensures
        spec_collapse(Seq::empty(), cw) == Seq::<char>::empty(),
{
    lemma_trim_frame(Seq::empty(), Seq::empty(), Seq::empty());
    assert(Seq::<char>::empty() + Seq::<char>::empty() + Seq::<char>::empty() =~= Seq::<
        char,
    >::empty());
    let e = Seq::<char>::empty();
    assert(split_when(e, Separator::Whitespace) == seq![e]);
    assert(seq![e].drop_last() =~= Seq::<Seq<char>>::empty());
    assert(seq![e].last().len() == 0);
    assert(keep_nonempty(seq![e]) == keep_nonempty(seq![e].drop_last()));
    assert(keep_nonempty(Seq::<Seq<char>>::empty()) == Seq::<Seq<char>>::empty());
    assert(words(e) =~= Seq::<Seq<char>>::empty());
}

pub(crate) proof fn lemma_join_push_empty(g: Seq<Seq<char>>, sep: Seq<char>)
    ensures
        join(g.push(Seq::empty()), sep) == (if g.len() == 0 {
            Seq::<char>::empty()
        } else {
            join(g, sep) + sep
        }),
{
    let h = g.push(Seq::empty());
    assert(h.drop_last() =~= g);
    if g.len() > 0 {
        assert(join(g, sep) + sep + Seq::<char>::empty() =~= join(g, sep) + sep);
    }
}

/// A line feed at the end of a section changes nothing once it is
/// normalized.
pub proof fn lemma_normalize_push_newline(s: Seq<char>, cfg: ChunkingConfig)
    requires
        no_cr(s),
    ensures
        spec_normalize_text(s.push('\n'), cfg) == spec_normalize_text(s, cfg),
{
    let t = s.push('\n');
    assert(no_cr(t)) by {
        assert forall|k: int| 0 <= k < t.len() implies #[trigger] t[k] != '\r' by {
            if k < s.len() {
                assert(t[k] == s[k]);
            }
        }
    }
    lemma_unify_id(s);
    lemma_unify_id(t);
    if cfg.preserve_line_breaks {
        lemma_lines_no_cr(s);
        lemma_lines_no_cr(t);
        assert(t =~= s + seq!['\n'] + Seq::<char>::empty());
        lemma_split_when_add(s, '\n', Seq::empty(), Separator::Newline);
        let ps = split_when(s, Separator::Newline);
        lemma_split_when_len(s, Separator::Newline);
        assert(split_when(Seq::<char>::empty(), Separator::Newline) == seq![Seq::<char>::empty()]);
        assert(split_when(t, Separator::Newline) =~= ps.push(Seq::empty()));
        assert(lines(t) =~= ps);
        let cw = cfg.collapse_whitespace;
        if ps.last().len() == 0 {
            assert(ps.last() =~= Seq::<char>::empty());
            assert(ps =~= lines(s).push(Seq::empty()));
            lemma_collapse_empty(cw);
            assert(collapse_all(lines(t), cw) =~= collapse_all(lines(s), cw).push(Seq::empty()));
            lemma_join_push_empty(collapse_all(lines(s), cw), seq!['\n']);
            let j = join(collapse_all(lines(s), cw), seq!['\n']);
            assert forall|k: int| 0 <= k < seq!['\n'].len() implies is_ws(
                #[trigger] seq!['\n'][k],
            ) by {}
            lemma_trim_idem_append(j, seq!['\n']);
        }
    } else {
        let p = seq!['\n', '\n'];
        lemma_split_on_push_newline(s);
        let ps = split_on(s, p);
        lemma_split_on_len(s, p);
        let r = ps.last();
        assert forall|k: int| 0 <= k < seq!['\n'].len() implies is_ws(#[trigger] seq!['\n'][k]) by {}
        if r.len() > 0 && r.last() == '\n' {
            assert(r =~= r.drop_last() + seq!['\n']);
            lemma_trim_idem_append(r.drop_last(), seq!['\n']);
            let q = ps.update(ps.len() - 1, r.drop_last());
            assert(trim_all(q) =~= trim_all(ps));
            lemma_trim_frame(Seq::empty(), Seq::empty(), Seq::empty());
            assert(Seq::<char>::empty() + Seq::<char>::empty() + Seq::<char>::empty() =~= Seq::<
                char,
            >::empty());
            assert(trim_all(q.push(Seq::empty())) =~= trim_all(q).push(Seq::empty()));
            assert(trim_all(q.push(Seq::empty())).drop_last() =~= trim_all(q));
        } else {
            assert(r.push('\n') =~= r + seq!['\n']);
            lemma_trim_idem_append(r, seq!['\n']);
            assert(trim_all(ps.update(ps.len() - 1, r.push('\n'))) =~= trim_all(ps));
        }
        assert(spec_split_paragraphs(t) == spec_split_paragraphs(s));
    }
}


/// The raw sections around a marker line: those of `a`, the last possibly
/// with one more line feed, then those of `b`.
proof fn lemma_raw_around_marker(a: Seq<char>, b: Seq<char>) -> (ra2: Seq<Seq<char>>)
    ensures
        spec_split_manual_sections(a + seq!['\n', '-', '-', '-', '\n'] + b) == ra2
            + spec_split_manual_sections(b),
        ra2.len() == spec_split_manual_sections(a).len(),
        forall|i: int|
            0 <= i < ra2.len() ==> #[trigger] ra2[i] == spec_split_manual_sections(a)[i] || (
            ra2[i] == spec_split_manual_sections(a)[i].push('\n') && no_cr(
                spec_split_manual_sections(a)[i],
            )),
{
    let t = a + seq!['\n', '-', '-', '-', '\n'] + b;
    lemma_lines_around_marker(a, b);
    let extra = choose|extra: Seq<Seq<char>>|
        {
            &&& (extra == Seq::<Seq<char>>::empty() || extra == seq![Seq::<char>::empty()])
            &&& lines(unify_newlines(t)) == lines(unify_newlines(a)) + extra + seq![
                seq!['-', '-', '-'],
            ] + lines(unify_newlines(b))
        };
    let la = lines(unify_newlines(a));
    let lb = lines(unify_newlines(b));
    let dash = seq!['-', '-', '-'];
    let pre = la + extra;
    let p = pre + seq![dash];
    lemma_trim_marker();
    assert(p.drop_last() =~= pre);
    assert(p.last() == dash);
    let sp = section_state(pre);
    assert(section_state(p) == (sp.0.push(join(sp.1, seq!['\n'])), Seq::<Seq<char>>::empty()));
    lemma_section_state_add(p, lb);
    let ra = spec_split_manual_sections(a);
    let rb = spec_split_manual_sections(b);
    let ra2 = sp.0.push(join(sp.1, seq!['\n']));
    assert(lines(unify_newlines(t)) == p + lb);
    assert((sp.0.push(join(sp.1, seq!['\n'])) + section_state(lb).0).push(
        join(section_state(lb).1, seq!['\n']),
    ) =~= ra2 + rb);
    let sa = section_state(la);
    if extra == Seq::<Seq<char>>::empty() {
        assert(pre =~= la);
        assert(ra2 == ra);
    } else {
        assert(pre =~= la.push(Seq::empty()));
        assert(pre.drop_last() =~= la);
        crate::text::lemma_trim(Seq::<char>::empty());
        assert(trim(Seq::<char>::empty()) != marker());
        assert(sp == (sa.0, sa.1.push(Seq::empty())));
        lemma_join_push_empty(sa.1, seq!['\n']);
        lemma_unify_no_cr(a);
        lemma_lines_no_cr(unify_newlines(a));
        lemma_section_lines_no_cr(la);
        lemma_join_no_cr(sa.1);
        assert forall|i: int| 0 <= i < ra2.len() implies #[trigger] ra2[i] == ra[i] || (ra2[i]
            == ra[i].push('\n') && no_cr(ra[i])) by {
            if i == ra2.len() - 1 {
                if sa.1.len() > 0 {
                    assert(join(sa.1, seq!['\n']) + seq!['\n'] =~= join(sa.1, seq!['\n']).push(
                        '\n',
                    ));
                }
            }
        }
    }
    ra2
}

proof fn lemma_keep_nonblank_add(x: Seq<Seq<char>>, y: Seq<Seq<char>>)
    ensures
        keep_nonblank(x + y) == keep_nonblank(x) + keep_nonblank(y),
    decreases y.len(),
{
    if y.len() == 0 {
        assert(x + y =~= x);
        assert(keep_nonblank(x) + Seq::<Seq<char>>::empty() =~= keep_nonblank(x));
    } else {
        assert((x + y).drop_last() =~= x + y.drop_last());
        assert((x + y).last() == y.last());
        lemma_keep_nonblank_add(x, y.drop_last());
        assert((keep_nonblank(x) + keep_nonblank(y.drop_last())).push(y.last()) =~= keep_nonblank(
            x,
        ) + keep_nonblank(y.drop_last()).push(y.last()));
    }
}

/// The sections around a marker line are those of each side.
pub proof fn lemma_sections_around_marker(a: Seq<char>, b: Seq<char>, cfg: ChunkingConfig)
    ensures
        spec_sections(a + seq!['\n', '-', '-', '-', '\n'] + b, cfg) == spec_sections(a, cfg)
            + spec_sections(b, cfg),
{
    let t = a + seq!['\n', '-', '-', '-', '\n'] + b;
    let ra2 = lemma_raw_around_marker(a, b);
    let ra = spec_split_manual_sections(a);
    let rb = spec_split_manual_sections(b);
    let rt = spec_split_manual_sections(t);
    let nt = Seq::new(rt.len(), |i: int| spec_normalize_text(rt[i], cfg));
    let na = Seq::new(ra.len(), |i: int| spec_normalize_text(ra[i], cfg));
    let nb = Seq::new(rb.len(), |i: int| spec_normalize_text(rb[i], cfg));
    assert forall|i: int| 0 <= i < nt.len() implies #[trigger] nt[i] == (na + nb)[i] by {
        if i < ra.len() {
            assert(rt[i] == ra2[i]);
            if ra2[i] != ra[i] {
                lemma_normalize_push_newline(ra[i], cfg);
            }
        } else {
            assert(rt[i] == rb[i - ra.len()]);
        }
    }
    assert(nt =~= na + nb);
    lemma_keep_nonblank_add(na, nb);
}

proof fn lemma_all_bodies_add(x: Seq<Seq<char>>, y: Seq<Seq<char>>, cfg: ChunkingConfig, limit: nat)
    ensures
        all_bodies(x + y, cfg, limit) == all_bodies(x, cfg, limit) + all_bodies(y, cfg, limit),
    decreases y.len(),
{
    if y.len() == 0 {
        assert(x + y =~= x);
        assert(all_bodies(x, cfg, limit) + Seq::<Seq<char>>::empty() =~= all_bodies(x, cfg, limit));
    } else {
        assert((x + y).drop_last() =~= x + y.drop_last());
        assert((x + y).last() == y.last());
        lemma_all_bodies_add(x, y.drop_last(), cfg, limit);
    }
}

/// Without numbering, the cut is the framed bodies of all sections, cut
/// with the room the suffix leaves.
proof fn lemma_plain_cut(t: Seq<char>, cfg: ChunkingConfig)
    requires
        !cfg.numbering,
        cfg.max_chars > 0,
    ensures
        spec_chunk_text(t, cfg) == (if spec_sections(t, cfg).len() == 0 {
            Ok(Seq::<Seq<char>>::empty())
        } else if cfg.suffix@.len() >= cfg.max_chars {
            Err(
                ChunkError::NoRoom {
                    prefix_width: 0,
                    suffix_width: cfg.suffix@.len() as usize,
                    max_chars: cfg.max_chars,
                },
            )
        } else {
            Ok(
                frame(
                    all_bodies(
                        spec_sections(t, cfg),
                        cfg,
                        (cfg.max_chars - cfg.suffix@.len()) as nat,
                    ),
                    cfg,
                ),
            )
        }),
{
    let secs = spec_sections(t, cfg);
    if secs.len() > 0 {
        assert(prefix_width(cfg, 1) == 0);
        let limit = (cfg.max_chars - cfg.suffix@.len()) as nat;
        let n = all_bodies(secs, cfg, limit).len();
        assert(prefix_width(cfg, n) == 0);
        if cfg.suffix@.len() < cfg.max_chars && n != 1 {
            assert(settle(secs, cfg, 1, SETTLE_ROUNDS as nat) == settle(
                secs,
                cfg,
                n,
                (SETTLE_ROUNDS - 1) as nat,
            ));
        }
    }
}

/// A marker line composes: without numbering, cutting `a`, a marker line
/// and `b` gives exactly the posts of `a` followed by the posts of `b`.
pub proof fn lemma_marker_composes(
    a: Seq<char>,
    b: Seq<char>,
    cfg: ChunkingConfig,
    x: Seq<Seq<char>>,
    y: Seq<Seq<char>>,
)
    requires
        !cfg.numbering,
        spec_chunk_text(a, cfg) == Ok::<Seq<Seq<char>>, ChunkError>(x),
        spec_chunk_text(b, cfg) == Ok::<Seq<Seq<char>>, ChunkError>(y),
    ensures
        spec_chunk_text(a + seq!['\n', '-', '-', '-', '\n'] + b, cfg) == Ok::<
            Seq<Seq<char>>,
            ChunkError,
        >(x + y),
{
    let t = a + seq!['\n', '-', '-', '-', '\n'] + b;
    assert(cfg.max_chars > 0);
    lemma_sections_around_marker(a, b, cfg);
    lemma_plain_cut(a, cfg);
    lemma_plain_cut(b, cfg);
    lemma_plain_cut(t, cfg);
    let sa = spec_sections(a, cfg);
    let sb = spec_sections(b, cfg);
    let limit = (cfg.max_chars - cfg.suffix@.len()) as nat;
    if sa.len() + sb.len() == 0 {
        assert(x + y =~= Seq::<Seq<char>>::empty());
    } else {
        lemma_all_bodies_add(sa, sb, cfg, limit);
        let ba = all_bodies(sa, cfg, limit);
        let bb = all_bodies(sb, cfg, limit);
        assert(sa.len() == 0 ==> ba =~= Seq::<Seq<char>>::empty());
        assert(sb.len() == 0 ==> bb =~= Seq::<Seq<char>>::empty());
        assert(x =~= frame(ba, cfg));
        assert(y =~= frame(bb, cfg));
        assert(frame(ba + bb, cfg) =~= frame(ba, cfg) + frame(bb, cfg));
    }
}

} // verus!

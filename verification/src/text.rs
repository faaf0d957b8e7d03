//! Character-level text operations on `Seq<char>` models and `Vec<char>` buffers.
use vstd::prelude::*;

verus! {

/// The characters that carry the Unicode `White_Space` property, which is
/// what `char::is_whitespace`, `str::trim` and `str::split_whitespace` use.
pub open spec fn is_ws(c: char) -> bool {
    let u = c as u32;
    ||| 0x9 <= u <= 0xd
    ||| u == 0x20
    ||| u == 0x85
    ||| u == 0xa0
    ||| u == 0x1680
    ||| 0x2000 <= u <= 0x200a
    ||| u == 0x2028
    ||| u == 0x2029
    ||| u == 0x202f
    ||| u == 0x205f
    ||| u == 0x3000
}

/// Whether `c` is a whitespace character.
pub fn is_whitespace(c: char) -> (r: bool)
    ensures
        r == is_ws(c),
{
    let u = c as u32;
    (0x9 <= u && u <= 0xd) || u == 0x20 || u == 0x85 || u == 0xa0 || u == 0x1680 || (0x2000 <= u
        && u <= 0x200a) || u == 0x2028 || u == 0x2029 || u == 0x202f || u == 0x205f || u == 0x3000
}

/// Index of the first non-whitespace character at or after `i`.
pub open spec fn lead(s: Seq<char>, i: int) -> int
    decreases s.len() - i,
{
    if 0 <= i < s.len() && is_ws(s[i]) {
        lead(s, i + 1)
    } else {
        i
    }
}

/// End of `s[lo..j]` once trailing whitespace is removed.
pub open spec fn trail(s: Seq<char>, lo: int, j: int) -> int
    decreases j - lo,
{
    if lo < j && j <= s.len() && is_ws(s[j - 1]) {
        trail(s, lo, j - 1)
    } else {
        j
    }
}

/// `s` with leading and trailing whitespace removed.
pub open spec fn trim(s: Seq<char>) -> Seq<char> {
    let a = lead(s, 0);
    s.subrange(a, trail(s, a, s.len() as int))
}

pub proof fn lemma_lead_bounds(s: Seq<char>, i: int)
    requires
        0 <= i <= s.len(),
    ensures
        i <= lead(s, i) <= s.len(),
        forall|k: int| i <= k < lead(s, i) ==> is_ws(#[trigger] s[k]),
        lead(s, i) < s.len() ==> !is_ws(s[lead(s, i)]),
    decreases s.len() - i,
{
    if i < s.len() && is_ws(s[i]) {
        lemma_lead_bounds(s, i + 1);
    }
}

pub proof fn lemma_trail_bounds(s: Seq<char>, lo: int, j: int)
    requires
        0 <= lo <= j <= s.len(),
    ensures
        lo <= trail(s, lo, j) <= j,
        forall|k: int| trail(s, lo, j) <= k < j ==> is_ws(#[trigger] s[k]),
        lo < trail(s, lo, j) ==> !is_ws(s[trail(s, lo, j) - 1]),
    decreases j - lo,
{
    if lo < j && is_ws(s[j - 1]) {
        lemma_trail_bounds(s, lo, j - 1);
    }
}

/// What `trim` keeps: a slice of `s` that is empty exactly when `s` is all
/// whitespace, and otherwise starts and ends with a non-whitespace character.
pub proof fn lemma_trim(s: Seq<char>)
    ensures
        trim(s).len() <= s.len(),
        trim(s).len() == 0 <==> forall|k: int| 0 <= k < s.len() ==> is_ws(#[trigger] s[k]),
        trim(s).len() > 0 ==> !is_ws(trim(s)[0]) && !is_ws(trim(s).last()),
{
    lemma_lead_bounds(s, 0);
    let a = lead(s, 0);
    lemma_trail_bounds(s, a, s.len() as int);
    let b = trail(s, a, s.len() as int);
    if b == a {
        assert forall|k: int| 0 <= k < s.len() implies is_ws(#[trigger] s[k]) by {
            if k >= a {
                assert(b <= k < s.len());
            }
        }
    } else {
        assert(!is_ws(s[a]));
    }
}

proof fn lemma_lead_at(s: Seq<char>, i: int, a: int)
    requires
        0 <= i <= a < s.len(),
        forall|k: int| 0 <= k < a ==> is_ws(#[trigger] s[k]),
        !is_ws(s[a]),
    ensures
        lead(s, i) == a,
    decreases a - i,
{
    if i < a {
        lemma_lead_at(s, i + 1, a);
    }
}

proof fn lemma_trail_at(s: Seq<char>, lo: int, j: int, b: int)
    requires
        0 <= lo < b <= j <= s.len(),
        forall|k: int| b <= k < s.len() ==> is_ws(#[trigger] s[k]),
        !is_ws(s[b - 1]),
    ensures
        trail(s, lo, j) == b,
    decreases j - b,
{
    if j > b {
        lemma_trail_at(s, lo, j - 1, b);
    }
}

/// Trimming text framed by whitespace gives the part between, when that
/// part neither starts nor ends with whitespace.
pub proof fn lemma_trim_frame(u: Seq<char>, m: Seq<char>, v: Seq<char>)
    requires
        forall|k: int| 0 <= k < u.len() ==> is_ws(#[trigger] u[k]),
        forall|k: int| 0 <= k < v.len() ==> is_ws(#[trigger] v[k]),
        m.len() == 0 || (!is_ws(m[0]) && !is_ws(m.last())),
    ensures
        trim(u + m + v) == m,
{
    let s = u + m + v;
    if m.len() == 0 {
        assert forall|k: int| 0 <= k < s.len() implies is_ws(#[trigger] s[k]) by {
            if k < u.len() {
                assert(s[k] == u[k]);
            } else {
                assert(s[k] == v[k - u.len()]);
            }
        }
        lemma_trim(s);
        assert(trim(s) =~= m);
    } else {
        let a = u.len() as int;
        let b = (u.len() + m.len()) as int;
        assert forall|k: int| 0 <= k < a implies is_ws(#[trigger] s[k]) by {
            assert(s[k] == u[k]);
        }
        assert forall|k: int| b <= k < s.len() implies is_ws(#[trigger] s[k]) by {
            assert(s[k] == v[k - b]);
        }
        assert(s[a] == m[0]);
        assert(s[b - 1] == m.last());
        lemma_lead_at(s, 0, a);
        lemma_trail_at(s, a, s.len() as int, b);
        assert(s.subrange(a, b) =~= m);
    }
}

/// Trimming is idempotent, and trailing whitespace does not change it.
pub proof fn lemma_trim_idem_append(s: Seq<char>, w: Seq<char>)
    requires
        forall|k: int| 0 <= k < w.len() ==> is_ws(#[trigger] w[k]),
    ensures
        trim(trim(s)) == trim(s),
        trim(s + w) == trim(s),
{
    lemma_lead_bounds(s, 0);
    let a = lead(s, 0);
    lemma_trail_bounds(s, a, s.len() as int);
    let b = trail(s, a, s.len() as int);
    let u = s.subrange(0, a);
    let m = s.subrange(a, b);
    let v = s.subrange(b, s.len() as int);
    assert(s =~= u + m + v);
    assert forall|k: int| 0 <= k < u.len() implies is_ws(#[trigger] u[k]) by {
        assert(u[k] == s[k]);
    }
    assert forall|k: int| 0 <= k < v.len() implies is_ws(#[trigger] v[k]) by {
        assert(v[k] == s[b + k]);
    }
    lemma_trim(s);
    lemma_trim_frame(Seq::empty(), m, Seq::empty());
    assert(Seq::<char>::empty() + m + Seq::<char>::empty() =~= m);
    let vw = v + w;
    assert forall|k: int| 0 <= k < vw.len() implies is_ws(#[trigger] vw[k]) by {
        if k < v.len() {
            assert(vw[k] == v[k]);
        } else {
            assert(vw[k] == w[k - v.len()]);
        }
    }
    lemma_trim_frame(u, m, vw);
    assert(s + w =~= u + m + vw);
}

/// Leading whitespace does not change a trim.
pub proof fn lemma_trim_prepend_ws(w: Seq<char>, s: Seq<char>)
    requires
        forall|k: int| 0 <= k < w.len() ==> is_ws(#[trigger] w[k]),
    ensures
        trim(w + s) == trim(s),
{
    lemma_lead_bounds(s, 0);
    let a = lead(s, 0);
    lemma_trail_bounds(s, a, s.len() as int);
    let b = trail(s, a, s.len() as int);
    let u = s.subrange(0, a);
    let m = s.subrange(a, b);
    let v = s.subrange(b, s.len() as int);
    assert(s =~= u + m + v);
    lemma_trim(s);
    let wu = w + u;
    assert forall|k: int| 0 <= k < wu.len() implies is_ws(#[trigger] wu[k]) by {
        if k < w.len() {
            assert(wu[k] == w[k]);
        } else {
            assert(wu[k] == s[k - w.len()]);
        }
    }
    assert forall|k: int| 0 <= k < v.len() implies is_ws(#[trigger] v[k]) by {
        assert(v[k] == s[b + k]);
    }
    lemma_trim_frame(wu, m, v);
    assert(w + s =~= wu + m + v);
}

/// A copy of `v[from..to]`.
pub fn copy_range(v: &Vec<char>, from: usize, to: usize) -> (out: Vec<char>)
    requires
        from <= to <= v.len(),
    ensures
        out@ == v@.subrange(from as int, to as int),
{
    let mut out: Vec<char> = Vec::new();
    let mut i = from;
    while i < to
        invariant
            from <= i <= to <= v.len(),
            out@ == v@.subrange(from as int, i as int),
        decreases to - i,
    {
        out.push(v[i]);
        i += 1;
    }
    out
}

/// `v` with leading and trailing whitespace removed.
pub fn trim_chars(v: &Vec<char>) -> (out: Vec<char>)
    ensures
        out@ == trim(v@),
{
    let mut a: usize = 0;
    while a < v.len() && is_whitespace(v[a])
        invariant
            a <= v.len(),
            lead(v@, a as int) == lead(v@, 0),
        decreases v.len() - a,
    {
        a += 1;
    }
    let mut b: usize = v.len();
    while b > a && is_whitespace(v[b - 1])
        invariant
            a <= b <= v.len(),
            lead(v@, 0) == a,
            trail(v@, a as int, b as int) == trail(v@, a as int, v.len() as int),
        decreases b,
    {
        b -= 1;
    }
    copy_range(v, a, b)
}


/// The contents of each buffer in `v`.
pub open spec fn views(v: Seq<Vec<char>>) -> Seq<Seq<char>> {
    Seq::new(v.len(), |i: int| v[i]@)
}

pub proof fn lemma_views_push(v: Seq<Vec<char>>, x: Vec<char>)
    ensures
        views(v.push(x)) == views(v).push(x@),
{
    assert(views(v.push(x)) =~= views(v).push(x@));
}

pub proof fn lemma_views_add(v: Seq<Vec<char>>, w: Seq<Vec<char>>)
    ensures
        views(v + w) == views(v) + views(w),
{
    assert(views(v + w) =~= views(v) + views(w));
}

/// Appends `c` to `s` (`String::push`).
#[verifier::external_body]
pub(crate) fn string_push(s: &mut String, c: char)
    ensures
        final(s)@ == old(s)@.push(c),
{
    s.push(c);
}

/// The characters of `s`, in order.
pub fn chars_of(s: &str) -> (out: Vec<char>)
    ensures
        out@ == s@,
{
    let mut out: Vec<char> = Vec::new();
    for ch in it: s.chars()
        invariant
            it.seq() == s@,
            out@ == it.seq().take(it.index() as int),
    {
        out.push(ch);
    }
    out
}

/// A `String` holding the characters of `v`.
pub fn string_of(v: &Vec<char>) -> (out: String)
    ensures
        out@ == v@,
{
    let mut out = String::new();
    let mut i: usize = 0;
    while i < v.len()
        invariant
            i <= v.len(),
            out@ == v@.take(i as int),
        decreases v.len() - i,
    {
        string_push(&mut out, v[i]);
        assert(v@.take(i + 1) =~= v@.take(i as int).push(v@[i as int]));
        i += 1;
    }
    assert(v@.take(v.len() as int) =~= v@);
    out
}

/// Strings holding the contents of each buffer in `v`.
pub fn strings_of(v: &Vec<Vec<char>>) -> (out: Vec<String>)
    ensures
        out@.len() == v@.len(),
        forall|i: int| 0 <= i < v@.len() ==> #[trigger] out@[i]@ == v@[i]@,
{
    let mut out: Vec<String> = Vec::new();
    let mut i: usize = 0;
    while i < v.len()
        invariant
            i <= v.len(),
            out@.len() == i,
            forall|k: int| 0 <= k < i ==> #[trigger] out@[k]@ == v@[k]@,
        decreases v.len() - i,
    {
        out.push(string_of(&v[i]));
        i += 1;
    }
    out
}

/// A copy of `v`.
pub fn copy_of(v: &Vec<char>) -> (out: Vec<char>)
    ensures
        out@ == v@,
{
    let out = copy_range(v, 0, v.len());
    assert(v@.subrange(0, v@.len() as int) =~= v@);
    out
}

/// Appends the contents of `src` to `dst`.
pub fn push_all(dst: &mut Vec<char>, src: &Vec<char>)
    ensures
        final(dst)@ == old(dst)@ + src@,
{
    let mut i: usize = 0;
    while i < src.len()
        invariant
            i <= src.len(),
            dst@ == old(dst)@ + src@.take(i as int),
        decreases src.len() - i,
    {
        dst.push(src[i]);
        assert(src@.take(i + 1) =~= src@.take(i as int).push(src@[i as int]));
        i += 1;
    }
    assert(src@.take(src.len() as int) =~= src@);
}

/// Whether `a` and `b` hold the same characters.
pub fn same_chars(a: &Vec<char>, b: &Vec<char>) -> (r: bool)
    ensures
        r == (a@ == b@),
{
    if a.len() != b.len() {
        return false;
    }
    let mut i: usize = 0;
    while i < a.len()
        invariant
            i <= a.len() == b.len(),
            forall|k: int| 0 <= k < i ==> a@[k] == b@[k],
        decreases a.len() - i,
    {
        if a[i] != b[i] {
            return false;
        }
        i += 1;
    }
    assert(a@ =~= b@);
    true
}

/// `ps` with its first piece prefixed by `x`.
pub open spec fn prepend(x: Seq<char>, ps: Seq<Seq<char>>) -> Seq<Seq<char>> {
    ps.update(0, x + ps[0])
}

pub proof fn lemma_prepend_empty(ps: Seq<Seq<char>>)
    requires
        ps.len() >= 1,
    ensures
        prepend(Seq::empty(), ps) == ps,
{
    assert(Seq::<char>::empty() + ps[0] =~= ps[0]);
    assert(prepend(Seq::empty(), ps) =~= ps);
}

pub proof fn lemma_prepend_twice(x: Seq<char>, y: Seq<char>, ps: Seq<Seq<char>>)
    requires
        ps.len() >= 1,
    ensures
        prepend(x, prepend(y, ps)) == prepend(x + y, ps),
{
    assert(x + (y + ps[0]) =~= (x + y) + ps[0]);
    assert(prepend(x, prepend(y, ps)) =~= prepend(x + y, ps));
}

/// The separators that text is split at one character at a time.
pub enum Separator {
    Newline,
    Whitespace,
}

pub open spec fn is_sep(sep: Separator, c: char) -> bool {
    match sep {
        Separator::Newline => c == '\n',
        Separator::Whitespace => is_ws(c),
    }
}

/// The pieces between separator characters (`str::split` with a character
/// predicate): one more piece than there are separators, empty ones included.
pub open spec fn split_when(s: Seq<char>, sep: Separator) -> Seq<Seq<char>>
    decreases s.len(),
{
    if s.len() == 0 {
        seq![Seq::empty()]
    } else if is_sep(sep, s[0]) {
        seq![Seq::empty()] + split_when(s.drop_first(), sep)
    } else {
        prepend(seq![s[0]], split_when(s.drop_first(), sep))
    }
}

pub proof fn lemma_split_when_len(s: Seq<char>, sep: Separator)
    ensures
        split_when(s, sep).len() >= 1,
    decreases s.len(),
{
    if s.len() > 0 {
        lemma_split_when_len(s.drop_first(), sep);
    }
}

pub fn is_separator(sep: &Separator, c: char) -> (r: bool)
    ensures
        r == is_sep(*sep, c),
{
    match sep {
        Separator::Newline => c == '\n',
        Separator::Whitespace => is_whitespace(c),
    }
}

/// Splits `v` at every separator character.
pub fn split_chars(v: &Vec<char>, sep: Separator) -> (out: Vec<Vec<char>>)
    ensures
        views(out@) == split_when(v@, sep),
{
    let mut done: Vec<Vec<char>> = Vec::new();
    let mut cur: Vec<char> = Vec::new();
    let mut i: usize = 0;
    proof {
        assert(v@.skip(0) =~= v@);
        lemma_split_when_len(v@, sep);
        lemma_prepend_empty(split_when(v@, sep));
    }
    while i < v.len()
        invariant
            i <= v.len(),
            split_when(v@, sep) == views(done@) + prepend(cur@, split_when(v@.skip(i as int), sep)),
        decreases v.len() - i,
    {
        let ghost rest = v@.skip(i as int);
        let ghost next = v@.skip(i + 1);
        proof {
            assert(rest.drop_first() =~= next);
            lemma_split_when_len(next, sep);
        }
        let c = v[i];
        if is_separator(&sep, c) {
            proof {
                assert(prepend(cur@, split_when(rest, sep)) =~= seq![cur@] + split_when(next, sep));
                lemma_prepend_empty(split_when(next, sep));
                lemma_views_push(done@, cur);
                assert(views(done@) + (seq![cur@] + split_when(next, sep)) =~= views(done@).push(cur@) + split_when(next, sep));
            }
            done.push(cur);
            cur = Vec::new();
        } else {
            proof {
                lemma_prepend_twice(cur@, seq![c], split_when(next, sep));
                assert(cur@ + seq![c] =~= cur@.push(c));
            }
            cur.push(c);
        }
        i += 1;
    }
    proof {
        assert(v@.skip(v.len() as int) =~= Seq::<char>::empty());
        assert(prepend(cur@, seq![Seq::<char>::empty()]) =~= seq![cur@]);
        lemma_views_push(done@, cur);
    }
    done.push(cur);
    done
}

/// The pieces of `ps` that are not empty, in order.
pub open spec fn keep_nonempty(ps: Seq<Seq<char>>) -> Seq<Seq<char>>
    decreases ps.len(),
{
    if ps.len() == 0 {
        seq![]
    } else if ps.last().len() > 0 {
        keep_nonempty(ps.drop_last()).push(ps.last())
    } else {
        keep_nonempty(ps.drop_last())
    }
}

/// Keeps the non-empty buffers of `ps`.
pub fn keep_nonempty_vec(ps: &Vec<Vec<char>>) -> (out: Vec<Vec<char>>)
    ensures
        views(out@) == keep_nonempty(views(ps@)),
{
    let mut out: Vec<Vec<char>> = Vec::new();
    let mut i: usize = 0;
    while i < ps.len()
        invariant
            i <= ps.len(),
            views(out@) == keep_nonempty(views(ps@).take(i as int)),
        decreases ps.len() - i,
    {
        proof {
            assert(views(ps@).take(i + 1).drop_last() =~= views(ps@).take(i as int));
        }
        if ps[i].len() > 0 {
            let c = copy_of(&ps[i]);
            proof { lemma_views_push(out@, c); }
            out.push(c);
        }
        i += 1;
    }
    assert(views(ps@).take(ps.len() as int) =~= views(ps@));
    out
}

/// `Seq` of the nonempty words of `s` (`str::split_whitespace`).
pub open spec fn words(s: Seq<char>) -> Seq<Seq<char>> {
    keep_nonempty(split_when(s, Separator::Whitespace))
}

/// The words of `v`, separated by any amount of whitespace.
pub fn words_of(v: &Vec<char>) -> (out: Vec<Vec<char>>)
    ensures
        views(out@) == words(v@),
{
    let pieces = split_chars(v, Separator::Whitespace);
    keep_nonempty_vec(&pieces)
}

/// `x` without one trailing carriage return.
pub open spec fn strip_cr(x: Seq<char>) -> Seq<char> {
    if x.len() > 0 && x.last() == '\r' {
        x.drop_last()
    } else {
        x
    }
}

/// The lines of `s` as `str::lines` yields them: split at `'\n'`, a `'\r'`
/// right before a `'\n'` dropped, and no empty line after a final `'\n'`.
pub open spec fn lines(s: Seq<char>) -> Seq<Seq<char>> {
    let ps = split_when(s, Separator::Newline);
    let body = Seq::new((ps.len() - 1) as nat, |i: int| strip_cr(ps[i]));
    if ps.last().len() == 0 {
        body
    } else {
        body.push(ps.last())
    }
}

/// The lines of `v`.
pub fn lines_of(v: &Vec<char>) -> (out: Vec<Vec<char>>)
    ensures
        views(out@) == lines(v@),
{
    let ps = split_chars(v, Separator::Newline);
    proof { lemma_split_when_len(v@, Separator::Newline); }
    let n = ps.len() - 1;
    let mut out: Vec<Vec<char>> = Vec::new();
    let mut i: usize = 0;
    while i < n
        invariant
            n + 1 == ps.len(),
            i <= n,
            views(ps@) == split_when(v@, Separator::Newline),
            out@.len() == i,
            forall|k: int| 0 <= k < i ==> #[trigger] out@[k]@ == strip_cr(ps@[k]@),
        decreases n - i,
    {
        let p = &ps[i];
        let x = if p.len() > 0 && p[p.len() - 1] == '\r' {
            copy_range(p, 0, p.len() - 1)
        } else {
            copy_of(p)
        };
        proof {
            if p@.len() > 0 && p@.last() == '\r' {
                assert(p@.subrange(0, p@.len() - 1) =~= p@.drop_last());
            }
        }
        out.push(x);
        i += 1;
    }
    let ghost ps_v = split_when(v@, Separator::Newline);
    let ghost body = Seq::new((ps_v.len() - 1) as nat, |i: int| strip_cr(ps_v[i]));
    assert(views(out@) =~= body);
    if ps[n].len() > 0 {
        let last = copy_of(&ps[n]);
        proof { lemma_views_push(out@, last); }
        out.push(last);
    }
    out
}

/// `s` with `"\r\n"` and then any other `'\r'` replaced by `'\n'`.
pub open spec fn unify_newlines(s: Seq<char>) -> Seq<char>
    decreases s.len(),
{
    if s.len() == 0 {
        s
    } else if s[0] == '\r' && s.len() > 1 && s[1] == '\n' {
        seq!['\n'] + unify_newlines(s.skip(2))
    } else if s[0] == '\r' {
        seq!['\n'] + unify_newlines(s.drop_first())
    } else {
        seq![s[0]] + unify_newlines(s.drop_first())
    }
}

/// Replaces `"\r\n"` and then every remaining `'\r'` by `'\n'`.
pub fn unify_newlines_of(v: &Vec<char>) -> (out: Vec<char>)
    ensures
        out@ == unify_newlines(v@),
{
    let mut out: Vec<char> = Vec::new();
    let mut i: usize = 0;
    assert(v@.skip(0) =~= v@);
    while i < v.len()
        invariant
            i <= v.len(),
            out@ + unify_newlines(v@.skip(i as int)) == unify_newlines(v@),
        decreases v.len() - i,
    {
        let ghost rest = v@.skip(i as int);
        if v[i] == '\r' && i + 1 < v.len() && v[i + 1] == '\n' {
            proof {
                assert(rest.skip(2) =~= v@.skip(i + 2));
                assert(out@.push('\n') + unify_newlines(v@.skip(i + 2)) =~= out@ + unify_newlines(rest));
            }
            out.push('\n');
            i += 2;
        } else {
            let c = if v[i] == '\r' { '\n' } else { v[i] };
            proof {
                assert(rest.drop_first() =~= v@.skip(i + 1));
                assert(out@.push(c) + unify_newlines(v@.skip(i + 1)) =~= out@ + unify_newlines(rest));
            }
            out.push(c);
            i += 1;
        }
    }
    assert(v@.skip(v.len() as int) =~= Seq::<char>::empty());
    assert(out@ + Seq::<char>::empty() =~= out@);
    out
}


/// Whether `s` begins with the non-empty pattern `p`.
pub open spec fn starts_with(s: Seq<char>, p: Seq<char>) -> bool {
    0 < p.len() <= s.len() && s.take(p.len() as int) == p
}

/// The pieces between the leftmost non-overlapping matches of the non-empty
/// pattern `p` (`str::split` with a string pattern).
pub open spec fn split_on(s: Seq<char>, p: Seq<char>) -> Seq<Seq<char>>
    decreases s.len(),
{
    if s.len() == 0 {
        seq![Seq::empty()]
    } else if starts_with(s, p) {
        seq![Seq::empty()] + split_on(s.skip(p.len() as int), p)
    } else {
        prepend(seq![s[0]], split_on(s.drop_first(), p))
    }
}

pub proof fn lemma_split_on_len(s: Seq<char>, p: Seq<char>)
    ensures
        split_on(s, p).len() >= 1,
    decreases s.len(),
{
    if s.len() > 0 {
        if starts_with(s, p) {
            lemma_split_on_len(s.skip(p.len() as int), p);
        } else {
            lemma_split_on_len(s.drop_first(), p);
        }
    }
}

/// Whether `p` occurs in `v` at index `i`.
pub fn matches_at(v: &Vec<char>, i: usize, p: &Vec<char>) -> (r: bool)
    requires
        i <= v.len(),
    ensures
        r == starts_with(v@.skip(i as int), p@),
{
    if p.len() == 0 || p.len() > v.len() - i {
        return false;
    }
    let mut k: usize = 0;
    while k < p.len()
        invariant
            0 < p.len() <= v.len() - i,
            k <= p.len(),
            forall|j: int| 0 <= j < k ==> v@[i + j] == p@[j],
        decreases p.len() - k,
    {
        if v[i + k] != p[k] {
            assert(v@.skip(i as int).take(p.len() as int)[k as int] != p@[k as int]);
            return false;
        }
        k += 1;
    }
    assert(v@.skip(i as int).take(p.len() as int) =~= p@);
    true
}

/// Splits `v` at the leftmost non-overlapping matches of `p`.
pub fn split_on_vec(v: &Vec<char>, p: &Vec<char>) -> (out: Vec<Vec<char>>)
    ensures
        views(out@) == split_on(v@, p@),
{
    let mut done: Vec<Vec<char>> = Vec::new();
    let mut cur: Vec<char> = Vec::new();
    let mut i: usize = 0;
    proof {
        assert(v@.skip(0) =~= v@);
        lemma_split_on_len(v@, p@);
        lemma_prepend_empty(split_on(v@, p@));
    }
    while i < v.len()
        invariant
            i <= v.len(),
            split_on(v@, p@) == views(done@) + prepend(cur@, split_on(v@.skip(i as int), p@)),
        decreases v.len() - i,
    {
        let ghost rest = v@.skip(i as int);
        if matches_at(v, i, p) {
            let ghost next = v@.skip(i + p@.len());
            proof {
                assert(rest.skip(p@.len() as int) =~= next);
                lemma_split_on_len(next, p@);
                assert(prepend(cur@, split_on(rest, p@)) =~= seq![cur@] + split_on(next, p@));
                lemma_prepend_empty(split_on(next, p@));
                lemma_views_push(done@, cur);
                assert(views(done@) + (seq![cur@] + split_on(next, p@)) =~= views(done@).push(cur@) + split_on(next, p@));
            }
            done.push(cur);
            cur = Vec::new();
            i += p.len();
        } else {
            let c = v[i];
            let ghost next = v@.skip(i + 1);
            proof {
                assert(rest.drop_first() =~= next);
                lemma_split_on_len(next, p@);
                lemma_prepend_twice(cur@, seq![c], split_on(next, p@));
                assert(cur@ + seq![c] =~= cur@.push(c));
            }
            cur.push(c);
            i += 1;
        }
    }
    proof {
        assert(v@.skip(v.len() as int) =~= Seq::<char>::empty());
        assert(prepend(cur@, seq![Seq::<char>::empty()]) =~= seq![cur@]);
        lemma_views_push(done@, cur);
    }
    done.push(cur);
    done
}

/// The pieces of `ps` with `sep` between each two neighbours.
pub open spec fn join(ps: Seq<Seq<char>>, sep: Seq<char>) -> Seq<char>
    decreases ps.len(),
{
    if ps.len() == 0 {
        Seq::empty()
    } else if ps.len() == 1 {
        ps[0]
    } else {
        join(ps.drop_last(), sep) + sep + ps.last()
    }
}

/// Joins the buffers of `ps` with `sep` between each two neighbours.
pub fn join_vec(ps: &Vec<Vec<char>>, sep: &Vec<char>) -> (out: Vec<char>)
    ensures
        out@ == join(views(ps@), sep@),
{
    let mut out: Vec<char> = Vec::new();
    let mut i: usize = 0;
    while i < ps.len()
        invariant
            i <= ps.len(),
            out@ == join(views(ps@).take(i as int), sep@),
        decreases ps.len() - i,
    {
        proof {
            assert(views(ps@).take(i + 1).drop_last() =~= views(ps@).take(i as int));
        }
        if i > 0 {
            push_all(&mut out, sep);
        }
        push_all(&mut out, &ps[i]);
        proof {
            if i == 0 {
                assert(out@ =~= views(ps@).take(1)[0]);
            }
        }
        i += 1;
    }
    assert(views(ps@).take(ps.len() as int) =~= views(ps@));
    out
}

/// `s` with each leftmost non-overlapping match of the non-empty pattern
/// `p` replaced by `r` (`str::replace`).
pub open spec fn replace(s: Seq<char>, p: Seq<char>, r: Seq<char>) -> Seq<char> {
    join(split_on(s, p), r)
}

/// Replaces the matches of `p` in `v` by `r`.
pub fn replace_vec(v: &Vec<char>, p: &Vec<char>, r: &Vec<char>) -> (out: Vec<char>)
    ensures
        out@ == replace(v@, p@, r@),
{
    let pieces = split_on_vec(v, p);
    join_vec(&pieces, r)
}

pub proof fn lemma_join_cons(a: Seq<char>, xs: Seq<Seq<char>>, sep: Seq<char>)
    requires
        xs.len() >= 1,
    ensures
        join(seq![a] + xs, sep) == a + sep + join(xs, sep),
    decreases xs.len(),
{
    let ys = seq![a] + xs;
    assert(ys.last() == xs.last());
    if xs.len() == 1 {
        assert(ys.drop_last() =~= seq![a]);
        assert(join(ys, sep) == join(ys.drop_last(), sep) + sep + ys.last());
    } else {
        assert(ys.drop_last() =~= seq![a] + xs.drop_last());
        assert(join(ys, sep) == join(ys.drop_last(), sep) + sep + ys.last());
        lemma_join_cons(a, xs.drop_last(), sep);
        assert(a + sep + join(xs.drop_last(), sep) + sep + xs.last() =~= a + sep + (join(
            xs.drop_last(),
            sep,
        ) + sep + xs.last()));
    }
}

pub proof fn lemma_join_prepend(x: Seq<char>, xs: Seq<Seq<char>>, sep: Seq<char>)
    requires
        xs.len() >= 1,
    ensures
        join(prepend(x, xs), sep) == x + join(xs, sep),
    decreases xs.len(),
{
    let ys = prepend(x, xs);
    if xs.len() == 1 {
    } else {
        assert(ys.drop_last() =~= prepend(x, xs.drop_last()));
        lemma_join_prepend(x, xs.drop_last(), sep);
        assert(x + join(xs.drop_last(), sep) + sep + xs.last() =~= x + (join(xs.drop_last(), sep)
            + sep + xs.last()));
    }
}

/// `replace` read as a left-to-right scan.
pub proof fn lemma_replace_step(s: Seq<char>, p: Seq<char>, r: Seq<char>)
    requires
        p.len() > 0,
        s.len() > 0,
    ensures
        starts_with(s, p) ==> replace(s, p, r) == r + replace(s.skip(p.len() as int), p, r),
        !starts_with(s, p) ==> replace(s, p, r) == seq![s[0]] + replace(s.drop_first(), p, r),
{
    if starts_with(s, p) {
        let rest = s.skip(p.len() as int);
        lemma_split_on_len(rest, p);
        lemma_join_cons(Seq::empty(), split_on(rest, p), r);
        assert(Seq::<char>::empty() + r + replace(rest, p, r) =~= r + replace(rest, p, r));
    } else {
        lemma_split_on_len(s.drop_first(), p);
        lemma_join_prepend(seq![s[0]], split_on(s.drop_first(), p), r);
    }
}

pub proof fn lemma_replace_empty(p: Seq<char>, r: Seq<char>)
    ensures
        replace(Seq::empty(), p, r) == Seq::<char>::empty(),
{
}

/// Text that shares no character with `p` passes through `replace` unchanged.
pub proof fn lemma_replace_foreign_prefix(d: Seq<char>, y: Seq<char>, p: Seq<char>, r: Seq<char>)
    requires
        p.len() > 0,
        forall|k: int| 0 <= k < d.len() ==> !p.contains(#[trigger] d[k]),
    ensures
        replace(d + y, p, r) == d + replace(y, p, r),
    decreases d.len(),
{
    if d.len() > 0 {
        let s = d + y;
        assert(s[0] == d[0]);
        if starts_with(s, p) {
            assert(s.take(p.len() as int)[0] == p[0]);
            assert(p.contains(d[0]));
        }
        lemma_replace_step(s, p, r);
        assert(s.drop_first() =~= d.drop_first() + y);
        lemma_replace_foreign_prefix(d.drop_first(), y, p, r);
        assert(seq![d[0]] + (d.drop_first() + replace(y, p, r)) =~= d + replace(y, p, r));
    } else {
        assert(d + y =~= y);
        assert(d + replace(y, p, r) =~= replace(y, p, r));
    }
}

/// A non-empty run of characters foreign to `p` splits `replace` in two.
pub proof fn lemma_replace_around(
    x: Seq<char>,
    d: Seq<char>,
    y: Seq<char>,
    p: Seq<char>,
    r: Seq<char>,
)
    requires
        p.len() > 0,
        d.len() > 0,
        forall|k: int| 0 <= k < d.len() ==> !p.contains(#[trigger] d[k]),
    ensures
        replace(x + d + y, p, r) == replace(x, p, r) + d + replace(y, p, r),
    decreases x.len(),
{
    if x.len() == 0 {
        assert(x + d + y =~= d + y);
        lemma_replace_foreign_prefix(d, y, p, r);
        lemma_replace_empty(p, r);
        assert(replace(x, p, r) + d + replace(y, p, r) =~= d + replace(y, p, r));
    } else {
        let s = x + d + y;
        lemma_replace_step(s, p, r);
        lemma_replace_step(x, p, r);
        if starts_with(x, p) {
            assert(s.take(p.len() as int) =~= x.take(p.len() as int));
            assert(s.skip(p.len() as int) =~= x.skip(p.len() as int) + d + y);
            lemma_replace_around(x.skip(p.len() as int), d, y, p, r);
            assert(r + (replace(x.skip(p.len() as int), p, r) + d + replace(y, p, r)) =~= r
                + replace(x.skip(p.len() as int), p, r) + d + replace(y, p, r));
        } else {
            if starts_with(s, p) {
                if p.len() <= x.len() {
                    assert(s.take(p.len() as int) =~= x.take(p.len() as int));
                } else {
                    assert(s.take(p.len() as int)[x.len() as int] == d[0]);
                    assert(p.contains(d[0]));
                }
            }
            assert(s.drop_first() =~= x.drop_first() + d + y);
            lemma_replace_around(x.drop_first(), d, y, p, r);
            assert(seq![x[0]] + (replace(x.drop_first(), p, r) + d + replace(y, p, r)) =~= seq![
                x[0],
            ] + replace(x.drop_first(), p, r) + d + replace(y, p, r));
        }
    }
}

/// Replacing in a joined text replaces in each piece, as long as the
/// joiner shares no character with the pattern.
pub proof fn lemma_replace_join(ps: Seq<Seq<char>>, d: Seq<char>, p: Seq<char>, r: Seq<char>)
    requires
        p.len() > 0,
        d.len() > 0,
        forall|k: int| 0 <= k < d.len() ==> !p.contains(#[trigger] d[k]),
    ensures
        replace(join(ps, d), p, r) == join(Seq::new(ps.len(), |i: int| replace(ps[i], p, r)), d),
    decreases ps.len(),
{
    let qs = Seq::new(ps.len(), |i: int| replace(ps[i], p, r));
    if ps.len() == 0 {
    } else if ps.len() == 1 {
    } else {
        lemma_replace_join(ps.drop_last(), d, p, r);
        lemma_replace_around(join(ps.drop_last(), d), d, ps.last(), p, r);
        assert(qs.drop_last() =~= Seq::new(
            ps.drop_last().len(),
            |i: int| replace(ps.drop_last()[i], p, r),
        ));
    }
}

/// A longer joiner never gives a shorter joined text.
pub proof fn lemma_join_len_mono(ps: Seq<Seq<char>>, d1: Seq<char>, d2: Seq<char>)
    requires
        d1.len() <= d2.len(),
    ensures
        join(ps, d1).len() <= join(ps, d2).len(),
    decreases ps.len(),
{
    if ps.len() > 1 {
        lemma_join_len_mono(ps.drop_last(), d1, d2);
    }
}

/// Joining pieces of equal lengths with joiners of equal length gives
/// texts of equal length.
pub proof fn lemma_join_len_eq(ps: Seq<Seq<char>>, qs: Seq<Seq<char>>, d1: Seq<char>, d2: Seq<char>)
    requires
        ps.len() == qs.len(),
        forall|i: int| 0 <= i < ps.len() ==> (#[trigger] ps[i]).len() == qs[i].len(),
        d1.len() == d2.len(),
    ensures
        join(ps, d1).len() == join(qs, d2).len(),
    decreases ps.len(),
{
    if ps.len() == 1 {
        assert(ps[0].len() == qs[0].len());
    } else if ps.len() > 1 {
        assert forall|i: int| 0 <= i < ps.drop_last().len() implies (
        #[trigger] ps.drop_last()[i]).len() == qs.drop_last()[i].len() by {
            assert(ps.drop_last()[i] == ps[i]);
            assert(qs.drop_last()[i] == qs[i]);
        }
        lemma_join_len_eq(ps.drop_last(), qs.drop_last(), d1, d2);
        assert(ps[ps.len() - 1].len() == qs[qs.len() - 1].len());
    }
}

/// The decimal digit for `d < 10`.
pub open spec fn digit_char(d: nat) -> char {
    if d == 0 {
        '0'
    } else if d == 1 {
        '1'
    } else if d == 2 {
        '2'
    } else if d == 3 {
        '3'
    } else if d == 4 {
        '4'
    } else if d == 5 {
        '5'
    } else if d == 6 {
        '6'
    } else if d == 7 {
        '7'
    } else if d == 8 {
        '8'
    } else {
        '9'
    }
}

pub open spec fn is_digit(c: char) -> bool {
    c == '0' || c == '1' || c == '2' || c == '3' || c == '4' || c == '5' || c == '6' || c == '7'
        || c == '8' || c == '9'
}

/// The decimal representation of `n` (`usize::to_string`).
pub open spec fn decimal(n: nat) -> Seq<char>
    decreases n,
{
    if n < 10 {
        seq![digit_char(n)]
    } else {
        decimal(n / 10).push(digit_char(n % 10))
    }
}

pub proof fn lemma_decimal_digits(n: nat)
    ensures
        decimal(n).len() >= 1,
        forall|k: int| 0 <= k < decimal(n).len() ==> is_digit(#[trigger] decimal(n)[k]),
    decreases n,
{
    if n >= 10 {
        lemma_decimal_digits(n / 10);
    }
}

/// A larger number never has fewer digits.
pub proof fn lemma_decimal_len_mono(n: nat, m: nat)
    requires
        n <= m,
    ensures
        decimal(n).len() <= decimal(m).len(),
    decreases m,
{
    lemma_decimal_digits(n);
    lemma_decimal_digits(m);
    if n >= 10 {
        lemma_decimal_len_mono(n / 10, m / 10);
    }
}

fn digit_of(d: u128) -> (c: char)
    requires
        d < 10,
    ensures
        c == digit_char(d as nat),
{
    if d == 0 {
        '0'
    } else if d == 1 {
        '1'
    } else if d == 2 {
        '2'
    } else if d == 3 {
        '3'
    } else if d == 4 {
        '4'
    } else if d == 5 {
        '5'
    } else if d == 6 {
        '6'
    } else if d == 7 {
        '7'
    } else if d == 8 {
        '8'
    } else {
        '9'
    }
}

/// The decimal digits of `n`.
pub fn decimal_of(n: u128) -> (out: Vec<char>)
    ensures
        out@ == decimal(n as nat),
    decreases n,
{
    if n < 10 {
        vec![digit_of(n)]
    } else {
        let mut out = decimal_of(n / 10);
        out.push(digit_of(n % 10));
        out
    }
}

} // verus!

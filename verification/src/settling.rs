//! The search for the post count: each round reserves room for numbering
//! the current estimate and cuts; the count it gets is the next estimate.
//! Giving up after `SETTLE_ROUNDS` rounds loses nothing: the search would
//! never have settled.
use vstd::prelude::*;

use crate::chunking::{
    ChunkError, SETTLE_ROUNDS, all_bodies, frame, lemma_prefix_width_digits, prefix_width, settle,
};
use crate::config::ChunkingConfig;
use crate::text::decimal;

verus! {

/// Whether numbering `e` posts leaves room for text.
pub open spec fn has_room(cfg: ChunkingConfig, e: nat) -> bool {
    prefix_width(cfg, e) + cfg.suffix@.len() < cfg.max_chars
}

/// The number of bodies cut with room reserved for numbering `e` posts.
pub open spec fn count_for(sections: Seq<Seq<char>>, cfg: ChunkingConfig, e: nat) -> nat {
    all_bodies(
        sections,
        cfg,
        (cfg.max_chars - prefix_width(cfg, e) - cfg.suffix@.len()) as nat,
    ).len()
}

/// The estimate of the post count in round `k`.
pub open spec fn estimate(sections: Seq<Seq<char>>, cfg: ChunkingConfig, k: nat) -> nat
    decreases k,
{
    if k == 0 {
        1
    } else {
        count_for(sections, cfg, estimate(sections, cfg, (k - 1) as nat))
    }
}

/// Round `k` neither runs out of room nor settles.
pub open spec fn goes_on(sections: Seq<Seq<char>>, cfg: ChunkingConfig, k: nat) -> bool {
    &&& has_room(cfg, estimate(sections, cfg, k))
    &&& estimate(sections, cfg, k + 1) != estimate(sections, cfg, k)
}

pub(crate) proof fn lemma_unsettled_goes_on(
    sections: Seq<Seq<char>>,
    cfg: ChunkingConfig,
    k: nat,
    fuel: nat,
)
    requires
        settle(sections, cfg, estimate(sections, cfg, k), fuel) == Err::<Seq<Seq<char>>, ChunkError>(
            ChunkError::Unsettled,
        ),
    ensures
        forall|t: nat| t <= fuel ==> #[trigger] goes_on(sections, cfg, k + t),
    decreases fuel,
{
    let e = estimate(sections, cfg, k);
    assert(estimate(sections, cfg, k + 1) == count_for(sections, cfg, e));
    assert(goes_on(sections, cfg, k + 0));
    if fuel > 0 {
        lemma_unsettled_goes_on(sections, cfg, k + 1, (fuel - 1) as nat);
        assert forall|t: nat| t <= fuel implies #[trigger] goes_on(sections, cfg, k + t) by {
            if t > 0 {
                assert(goes_on(sections, cfg, (k + 1) + (t - 1) as nat));
                assert((k + 1) + (t - 1) as nat == k + t);
            }
        }
    }
}

proof fn lemma_goes_on_unsettled(sections: Seq<Seq<char>>, cfg: ChunkingConfig, k: nat, fuel: nat)
    requires
        forall|t: nat| t <= fuel ==> #[trigger] goes_on(sections, cfg, k + t),
    ensures
        settle(sections, cfg, estimate(sections, cfg, k), fuel) == Err::<Seq<Seq<char>>, ChunkError>(
            ChunkError::Unsettled,
        ),
    decreases fuel,
{
    assert(goes_on(sections, cfg, k + 0));
    assert(estimate(sections, cfg, k + 1) == count_for(
        sections,
        cfg,
        estimate(sections, cfg, k),
    ));
    if fuel > 0 {
        assert forall|t: nat| t <= (fuel - 1) as nat implies #[trigger] goes_on(
            sections,
            cfg,
            (k + 1) + t,
        ) by {
            assert(goes_on(sections, cfg, k + (t + 1) as nat));
            assert(k + (t + 1) as nat == (k + 1) + t);
        }
        lemma_goes_on_unsettled(sections, cfg, k + 1, (fuel - 1) as nat);
    }
}

/// Estimates with as many digits give the same next estimate.
pub(crate) proof fn lemma_same_digits_same_next(sections: Seq<Seq<char>>, cfg: ChunkingConfig, a: nat, b: nat)
    requires
        decimal(estimate(sections, cfg, a)).len() == decimal(estimate(sections, cfg, b)).len(),
    ensures
        estimate(sections, cfg, a + 1) == estimate(sections, cfg, b + 1),
{
    let ea = estimate(sections, cfg, a);
    let eb = estimate(sections, cfg, b);
    if cfg.numbering {
        lemma_prefix_width_digits(cfg.numbering_format@, ea, eb);
    }
    assert(prefix_width(cfg, ea) == prefix_width(cfg, eb));
    assert(estimate(sections, cfg, a + 1) == count_for(sections, cfg, ea));
    assert(estimate(sections, cfg, b + 1) == count_for(sections, cfg, eb));
}

/// `10` to the power `k`.
pub open spec fn pow10(k: nat) -> nat
    decreases k,
{
    if k == 0 {
        1
    } else {
        10 * pow10((k - 1) as nat)
    }
}

proof fn lemma_decimal_len_bound(n: nat, k: nat)
    requires
        k >= 1,
        n < pow10(k),
    ensures
        decimal(n).len() <= k,
    decreases k,
{
    if n >= 10 {
        assert(k > 1) by {
            if k == 1 {
                assert(pow10(1) == 10 * pow10(0));
            }
        }
        assert(pow10(k) == 10 * pow10((k - 1) as nat));
        assert(n / 10 < pow10((k - 1) as nat));
        lemma_decimal_len_bound(n / 10, (k - 1) as nat);
    }
}

pub(crate) proof fn lemma_decimal_usize(n: nat)
    requires
        n <= usize::MAX,
    ensures
        1 <= decimal(n).len() <= 20,
{
    assert(pow10(20) == 100000000000000000000) by {
        reveal_with_fuel(pow10, 21);
    }
    crate::text::lemma_decimal_digits(n);
    lemma_decimal_len_bound(n, 20);
}

/// Among more values than there are slots in `1..=m`, two are equal.
proof fn lemma_pigeonhole(s: Seq<nat>, m: nat)
    requires
        s.len() > m,
        forall|k: int| 0 <= k < s.len() ==> 1 <= #[trigger] s[k] <= m,
    ensures
        exists|i: int, j: int| 0 <= i < j < s.len() && s[i] == s[j],
    decreases m,
{
    if m == 0 {
        assert(1 <= s[0] <= 0);
    } else if exists|i: int, j: int| 0 <= i < j < s.len() && s[i] == s[j] {
    } else if exists|p: int| 0 <= p < s.len() && s[p] == m {
        let p = choose|p: int| 0 <= p < s.len() && s[p] == m;
        let r = s.remove(p);
        assert forall|k: int| 0 <= k < r.len() implies 1 <= #[trigger] r[k] <= (m - 1) as nat by {
            if k < p {
                assert(r[k] == s[k]);
                assert(s[k] != s[p]);
            } else {
                assert(r[k] == s[k + 1]);
                assert(s[k + 1] != s[p]);
            }
        }
        lemma_pigeonhole(r, (m - 1) as nat);
        let (i, j) = choose|i: int, j: int| 0 <= i < j < r.len() && r[i] == r[j];
        let i2 = if i < p { i } else { i + 1 };
        let j2 = if j < p { j } else { j + 1 };
        assert(s[i2] == r[i] && s[j2] == r[j]);
        assert(0 <= i2 < j2 < s.len());
    } else {
        assert forall|k: int| 0 <= k < s.len() implies 1 <= #[trigger] s[k] <= (m - 1) as nat by {
            assert(s[k] != m);
        }
        lemma_pigeonhole(s, (m - 1) as nat);
    }
}

proof fn lemma_periodic(sections: Seq<Seq<char>>, cfg: ChunkingConfig, i: nat, p: nat, k: nat)
    requires
        p > 0,
        estimate(sections, cfg, i + 1 + p) == estimate(sections, cfg, i + 1),
        k >= i + 1,
    ensures
        estimate(sections, cfg, k + p) == estimate(sections, cfg, k),
    decreases k - (i + 1),
{
    if k > i + 1 {
        lemma_periodic(sections, cfg, i, p, (k - 1) as nat);
        assert(estimate(sections, cfg, k + p) == count_for(
            sections,
            cfg,
            estimate(sections, cfg, (k - 1 + p) as nat),
        ));
        assert(estimate(sections, cfg, k) == count_for(
            sections,
            cfg,
            estimate(sections, cfg, (k - 1) as nat),
        ));
    }
}

proof fn lemma_fold_into_period(
    sections: Seq<Seq<char>>,
    cfg: ChunkingConfig,
    i: nat,
    p: nat,
    k: nat,
) -> (k2: nat)
    requires
        p > 0,
        estimate(sections, cfg, i + 1 + p) == estimate(sections, cfg, i + 1),
        k >= i + 1,
    ensures
        i + 1 <= k2 <= i + p,
        estimate(sections, cfg, k2) == estimate(sections, cfg, k),
        estimate(sections, cfg, k2 + 1) == estimate(sections, cfg, k + 1),
    decreases k,
{
    if k <= i + p {
        k
    } else {
        let back = (k - p) as nat;
        lemma_periodic(sections, cfg, i, p, back);
        lemma_periodic(sections, cfg, i, p, back + 1);
        assert(back + p == k);
        assert(back + 1 + p == k + 1);
        lemma_fold_into_period(sections, cfg, i, p, back)
    }
}

/// Giving up is final: as long as post counts fit in a `usize`, a search
/// that has not settled within `SETTLE_ROUNDS` re-estimates gives
/// `Unsettled` however many rounds it is allowed.
pub proof fn lemma_unsettled_never_settles(
    sections: Seq<Seq<char>>,
    cfg: ChunkingConfig,
    fuel: nat,
)
    requires
        settle(sections, cfg, 1, SETTLE_ROUNDS as nat) == Err::<Seq<Seq<char>>, ChunkError>(
            ChunkError::Unsettled,
        ),
        forall|e: nat| #[trigger] count_for(sections, cfg, e) <= usize::MAX,
    ensures
        settle(sections, cfg, 1, fuel) == Err::<Seq<Seq<char>>, ChunkError>(ChunkError::Unsettled),
{
    assert(estimate(sections, cfg, 0) == 1);
    lemma_unsettled_goes_on(sections, cfg, 0, SETTLE_ROUNDS as nat);
    let digits = Seq::new(21, |k: int| decimal(estimate(sections, cfg, (k + 1) as nat)).len());
    assert forall|k: int| 0 <= k < digits.len() implies 1 <= #[trigger] digits[k] <= 20 by {
        let kk = (k + 1) as nat;
        assert(estimate(sections, cfg, kk) == count_for(
            sections,
            cfg,
            estimate(sections, cfg, (kk - 1) as nat),
        ));
        lemma_decimal_usize(estimate(sections, cfg, kk));
    }
    lemma_pigeonhole(digits, 20);
    let (a, b) = choose|a: int, b: int| 0 <= a < b < digits.len() && digits[a] == digits[b];
    let i = (a + 1) as nat;
    let j = (b + 1) as nat;
    let p = (j - i) as nat;
    lemma_same_digits_same_next(sections, cfg, i, j);
    assert(i + 1 + p == j + 1);
    assert forall|t: nat| t <= fuel implies #[trigger] goes_on(sections, cfg, 0 + t) by {
        if t <= SETTLE_ROUNDS {
            assert(goes_on(sections, cfg, 0 + t));
        } else {
            let t2 = lemma_fold_into_period(sections, cfg, i, p, t);
            assert(t2 <= 21);
            assert(goes_on(sections, cfg, 0 + t2));
        }
    }
    lemma_goes_on_unsettled(sections, cfg, 0, fuel);
}

/// A round whose cut gives a count with as many digits as the estimate it
/// was made for reserves the same width in the next round, so that round
/// cuts the same bodies and settles: without numbering, or once the digit
/// count repeats, the search ends one round later.
pub proof fn lemma_settles_when_digits_repeat(
    sections: Seq<Seq<char>>,
    cfg: ChunkingConfig,
    expected: nat,
    fuel: nat,
)
    requires
        fuel > 0,
        prefix_width(cfg, expected) + cfg.suffix@.len() < cfg.max_chars,
        decimal(
            all_bodies(
                sections,
                cfg,
                (cfg.max_chars - prefix_width(cfg, expected) - cfg.suffix@.len()) as nat,
            ).len(),
        ).len() == decimal(expected).len(),
    ensures
        settle(sections, cfg, expected, fuel) == Ok::<Seq<Seq<char>>, ChunkError>(
            frame(
                all_bodies(
                    sections,
                    cfg,
                    (cfg.max_chars - prefix_width(cfg, expected) - cfg.suffix@.len()) as nat,
                ),
                cfg,
            ),
        ),
{
    let limit = (cfg.max_chars - prefix_width(cfg, expected) - cfg.suffix@.len()) as nat;
    let n = all_bodies(sections, cfg, limit).len();
    if cfg.numbering {
        lemma_prefix_width_digits(cfg.numbering_format@, n, expected);
    }
    assert(prefix_width(cfg, n) == prefix_width(cfg, expected));
    if n != expected {
        assert(settle(sections, cfg, expected, fuel) == settle(sections, cfg, n, (fuel - 1) as nat));
    }
}

} // verus!

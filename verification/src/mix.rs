//! The class mix: which draws fall to which class.

use vstd::prelude::*;

use crate::binary64::size_of_magnitude;
use crate::binary64::Binary64;
use crate::config::weight_of_first;
use crate::config::Config;
use crate::config::RequestClassCfg;
use crate::order::lemma_plus_grows;
use crate::rng::chacha8_words;
use crate::rng::class_seed;
use crate::rng::unit;
use crate::timeline::schedules;
use crate::timeline::Timeline;
use crate::validity::exact_weight;
use crate::validity::lemma_sum_before;
use crate::validity::lemma_weights_close;
use crate::validity::rounded_away;
use crate::validity::weighted;

verus! {

proof fn lemma_picked_from(classes: Seq<RequestClassCfg>, u: Binary64, i: int)
    requires
        0 <= i < classes.len(),
    ensures
        i <= Timeline::picked(classes, u, i) < classes.len(),
        forall|j: nat|
            i < j <= Timeline::picked(classes, u, i) ==> !u.less(
                #[trigger] weight_of_first(classes, j),
            ),
        Timeline::picked(classes, u, i) + 1 < classes.len() ==> u.less(
            weight_of_first(classes, (Timeline::picked(classes, u, i) + 1) as nat),
        ),
    decreases classes.len() - i,
{
    if i + 1 < classes.len() && !u.less(weight_of_first(classes, (i + 1) as nat)) {
        lemma_picked_from(classes, u, i + 1);
    }
}

/// A draw falls to the first class up to which the weights add up to more than
/// the draw; where there is none, to the last.
pub proof fn lemma_class_by_weights(classes: Seq<RequestClassCfg>, u: Binary64)
    requires
        classes.len() > 0,
    ensures
        ({
            let k = Timeline::picked(classes, u, 0);
            &&& 0 <= k < classes.len()
            &&& forall|j: nat| 0 < j <= k ==> !u.less(#[trigger] weight_of_first(classes, j))
            &&& k < classes.len() - 1 ==> u.less(weight_of_first(classes, (k + 1) as nat))
        }),
{
    lemma_picked_from(classes, u, 0);
}

/// Each weight adds to those before.
proof fn lemma_weights_grow(classes: Seq<RequestClassCfg>, i: nat, j: nat)
    requires
        weighted(classes),
        i <= j <= classes.len(),
    ensures
        weight_of_first(classes, i).less_or_equal(weight_of_first(classes, j)),
    decreases j,
{
    lemma_sum_before(classes, i);
    lemma_sum_before(classes, j);
    if i < j {
        let k = (j - 1) as nat;
        lemma_weights_grow(classes, i, k);
        lemma_sum_before(classes, k);
        let before = weight_of_first(classes, k);
        assert(classes[k as int].weight.positive());
        if before.finite() {
            lemma_plus_grows(before, classes[k as int].weight);
        }
    }
}

/// Every class has its share of the draws: a class is given to all draws from
/// the exact sum of the weights before it up to that which it adds to, up to
/// what the additions round away. The last has all that are left.
pub proof fn lemma_class_has_its_share(classes: Seq<RequestClassCfg>, u: Binary64, k: nat)
    requires
        weighted(classes),
        k < classes.len(),
        !u.nan(),
        exact_weight(classes, (k + 1) as nat) + rounded_away((k + 1) as nat)
            < 2 * crate::arithmetic::one(),
        exact_weight(classes, k) + rounded_away(k) <= u.units(),
        k == classes.len() - 1 || u.units() < exact_weight(classes, (k + 1) as nat) - rounded_away(
            (k + 1) as nat,
        ),
        k > 0 || u.units() >= 0,
    ensures
        Timeline::picked(classes, u, 0) == k,
{
    let p = Timeline::picked(classes, u, 0);
    lemma_class_by_weights(classes, u);
    lemma_weights_close(classes, (k + 1) as nat);
    let w = weight_of_first(classes, (k + 1) as nat);
    if k > 0 {
        assert(classes[k as int].weight.positive());
        assert(rounded_away((k + 1) as nat) >= rounded_away(k)) by (nonlinear_arith)
            requires
                rounded_away((k + 1) as nat) == 4 * ((k + 1) * vstd::arithmetic::power2::pow2(1021)),
                rounded_away(k) == 4 * (k * vstd::arithmetic::power2::pow2(1021)),
        ;
        lemma_weights_close(classes, k);
    }
    if p < k {
        lemma_weights_grow(classes, (p + 1) as nat, k);
    }
    if p > k {
        assert(!u.less(w));
    }
}

/// The class of a scheduled request is that of its own draw.
pub proof fn lemma_scheduled_by_draw(
    timeline: Timeline,
    cfg: Config,
    offsets: Seq<u128>,
    i: int,
    k: nat,
)
    requires
        schedules(timeline, cfg, offsets),
        0 <= i < offsets.len(),
        weighted(cfg.request_classes@),
        k < cfg.request_classes.len(),
        exact_weight(cfg.request_classes@, (k + 1) as nat) + rounded_away((k + 1) as nat)
            < 2 * crate::arithmetic::one(),
        exact_weight(cfg.request_classes@, k) + rounded_away(k) <= unit(
            chacha8_words(class_seed(cfg.scenario.seed))[i as nat],
        ).units(),
        k == cfg.request_classes.len() - 1 || unit(
            chacha8_words(class_seed(cfg.scenario.seed))[i as nat],
        ).units() < exact_weight(cfg.request_classes@, (k + 1) as nat) - rounded_away(
            (k + 1) as nat,
        ),
    ensures
        timeline.requests[i].class == cfg.request_classes[k as int].name,
        timeline.requests[i].required@ == cfg.request_classes[k as int].requires@,
{
    let word = chacha8_words(class_seed(cfg.scenario.seed))[i as nat];
    crate::rng::lemma_unit(word);
    assert(size_of_magnitude(0) == 0);
    lemma_class_has_its_share(cfg.request_classes@, unit(word), k);
    assert(Timeline::is_scheduled(cfg, offsets, i, timeline.requests[i]));
}

/// Requests are numbered from 0 in the order of their arrival; each is due at
/// its own arrival, with a nonce of its own.
pub proof fn lemma_scheduled_in_order(
    timeline: Timeline,
    cfg: Config,
    offsets: Seq<u128>,
    i: int,
    j: int,
)
    requires
        schedules(timeline, cfg, offsets),
        0 <= i < j < offsets.len() <= u64::MAX,
    ensures
        timeline.requests.len() == offsets.len(),
        timeline.requests[i].request_id == i,
        timeline.requests[i].offset == offsets[i],
        timeline.requests[i].nonce != timeline.requests[j].nonce,
{
    assert(Timeline::is_scheduled(cfg, offsets, i, timeline.requests[i]));
    assert(Timeline::is_scheduled(cfg, offsets, j, timeline.requests[j]));
    if timeline.requests[i].nonce == timeline.requests[j].nonce {
        crate::rng::lemma_nonces_distinct(cfg.scenario.seed, i as u64, j as u64);
    }
}

} // verus!

//! Scenario configuration.

use vstd::prelude::*;

use crate::binary64::unity;
use crate::binary64::zero;
use crate::binary64::Binary64;
use crate::binary64::ONE;
use crate::distributions::Distribution;
use crate::distributions::DistributionError;

verus! {

/// 10.
pub const TEN: u64 = 0x4024_0000_0000_0000;

/// 1e-9.
pub const TOLERANCE: u64 = 0x3E11_2E0B_E826_D695;

#[derive(Clone, Debug)]
pub struct Config {
    pub scenario: Scenario,
    pub load: Load,
    pub slo: Slo,
    pub request_classes: Vec<RequestClassCfg>,
    pub downstreams: Vec<DownstreamCfg>,
}

#[derive(Clone, Debug)]
pub struct Scenario {
    pub id: String,
    pub seed: u64,
    pub duration_s: Binary64,
    pub warmup_s: Binary64,
}

#[derive(Clone, Copy, Debug, PartialEq, Eq, Structural)]
pub enum Arrival {
    Constant,
    Poisson,
    Bursty,
}

#[derive(Clone, Debug)]
pub struct Load {
    pub arrival: Arrival,
    pub rate_rps: Binary64,
    pub burstiness_cv: Option<Binary64>,
    /// Rejected rather than ignored: it needs a measured capacity.
    pub target_utilization: Option<Binary64>,
}

#[derive(Clone, Debug)]
pub struct Slo {
    pub budget_ms: Binary64,
    /// Ten times the budget where none is given.
    pub penalty_ms: Option<Binary64>,
}

#[derive(Clone, Debug)]
pub struct RequestClassCfg {
    pub name: String,
    pub weight: Binary64,
    /// A minimum call set: extra calls are permitted, in any order.
    pub requires: Vec<String>,
}

#[derive(Clone, Debug)]
pub struct DownstreamCfg {
    pub id: String,
    pub distribution: Distribution,
    pub capacity: usize,
    pub timeout_ms: Binary64,
}

/// Why a configuration is rejected. Every rejection names the offending value;
/// where something is missing, what it is missing from.
#[derive(Clone, Debug, PartialEq, Eq)]
pub enum ConfigError {
    Duration { duration_s: Binary64 },
    Warmup { warmup_s: Binary64 },
    WarmupNotBelowDuration { warmup_s: Binary64, duration_s: Binary64 },
    TargetUtilization { target_utilization: Binary64 },
    Rate { rate_rps: Binary64 },
    BurstinessMissing,
    Burstiness { cv: Binary64 },
    Budget { budget_ms: Binary64 },
    Penalty { penalty_ms: Binary64, budget_ms: Binary64 },
    NoDownstream,
    DuplicateDownstream { id: String },
    Capacity { id: String, capacity: usize },
    Timeout { id: String, timeout_ms: Binary64 },
    Distribution { id: String, error: DistributionError },
    NoRequestClass,
    DuplicateClass { name: String },
    Weight { name: String, weight: Binary64 },
    NothingRequired { name: String },
    Undeclared { name: String, downstream: String },
    Weights { total: Binary64 },
}

impl Slo {
    /// What a failed request scores.
    pub open spec fn penalty(self) -> Binary64 {
        match self.penalty_ms {
            Some(p) => p,
            None => self.budget_ms.times(Binary64 { bits: TEN }),
        }
    }

    /// What a failed request scores.
    pub fn penalty_ms(&self) -> (r: Binary64)
        ensures
            r == self.penalty(),
    {
        match self.penalty_ms {
            Some(p) => p,
            None => self.budget_ms.mul(Binary64::from_bits(TEN)),
        }
    }
}

/// A downstream of this id is among the first `n`.
pub open spec fn declared(downstreams: Seq<DownstreamCfg>, n: int, id: Seq<char>) -> bool {
    exists|j: int| 0 <= j < n && (#[trigger] downstreams[j]).id@ == id
}

/// A class of this name is among the first `n`.
pub open spec fn named(classes: Seq<RequestClassCfg>, n: int, name: Seq<char>) -> bool {
    exists|j: int| 0 <= j < n && (#[trigger] classes[j]).name@ == name
}

/// The first rule that downstream `i` breaks, if any.
pub open spec fn downstream_fault(downstreams: Seq<DownstreamCfg>, i: int) -> Option<ConfigError> {
    let d = downstreams[i];
    if declared(downstreams, i, d.id@) {
        Some(ConfigError::DuplicateDownstream { id: d.id })
    } else if d.capacity == 0 {
        Some(ConfigError::Capacity { id: d.id, capacity: d.capacity })
    } else if !d.timeout_ms.positive() {
        Some(ConfigError::Timeout { id: d.id, timeout_ms: d.timeout_ms })
    } else {
        match d.distribution.fault() {
            Some(error) => Some(ConfigError::Distribution { id: d.id, error }),
            None => None,
        }
    }
}

/// The fault of the first faulty downstream from the `i`th on.
pub open spec fn downstream_fault_from(downstreams: Seq<DownstreamCfg>, i: int) -> Option<
    ConfigError,
>
    decreases downstreams.len() - i,
{
    if i >= downstreams.len() {
        None
    } else {
        match downstream_fault(downstreams, i) {
            Some(e) => Some(e),
            None => downstream_fault_from(downstreams, i + 1),
        }
    }
}

/// The first of `required`, from the `k`th on, that no downstream has for an
/// id.
pub open spec fn undeclared_from(
    downstreams: Seq<DownstreamCfg>,
    required: Seq<String>,
    k: int,
) -> Option<String>
    decreases required.len() - k,
{
    if k >= required.len() {
        None
    } else if !declared(downstreams, downstreams.len() as int, required[k]@) {
        Some(required[k])
    } else {
        undeclared_from(downstreams, required, k + 1)
    }
}

/// The first rule that class `i` breaks, if any.
pub open spec fn class_fault(
    downstreams: Seq<DownstreamCfg>,
    classes: Seq<RequestClassCfg>,
    i: int,
) -> Option<ConfigError> {
    let c = classes[i];
    if named(classes, i, c.name@) {
        Some(ConfigError::DuplicateClass { name: c.name })
    } else if !c.weight.positive() {
        Some(ConfigError::Weight { name: c.name, weight: c.weight })
    } else if c.requires.len() == 0 {
        Some(ConfigError::NothingRequired { name: c.name })
    } else {
        match undeclared_from(downstreams, c.requires@, 0) {
            Some(downstream) => Some(ConfigError::Undeclared { name: c.name, downstream }),
            None => None,
        }
    }
}

/// The fault of the first faulty class from the `i`th on.
pub open spec fn class_fault_from(
    downstreams: Seq<DownstreamCfg>,
    classes: Seq<RequestClassCfg>,
    i: int,
) -> Option<ConfigError>
    decreases classes.len() - i,
{
    if i >= classes.len() {
        None
    } else {
        match class_fault(downstreams, classes, i) {
            Some(e) => Some(e),
            None => class_fault_from(downstreams, classes, i + 1),
        }
    }
}

/// The weights of the first `n` classes, added up in order.
pub open spec fn weight_of_first(classes: Seq<RequestClassCfg>, n: nat) -> Binary64
    decreases n,
{
    if n == 0 {
        zero()
    } else {
        weight_of_first(classes, (n - 1) as nat).plus(classes[n - 1].weight)
    }
}

impl Config {
    /// The first rule that the scenario section breaks.
    pub open spec fn scenario_fault(self) -> Option<ConfigError> {
        let s = self.scenario;
        if !s.duration_s.positive() {
            Some(ConfigError::Duration { duration_s: s.duration_s })
        } else if !s.warmup_s.not_negative() {
            Some(ConfigError::Warmup { warmup_s: s.warmup_s })
        } else if s.duration_s.less_or_equal(s.warmup_s) {
            Some(
                ConfigError::WarmupNotBelowDuration {
                    warmup_s: s.warmup_s,
                    duration_s: s.duration_s,
                },
            )
        } else {
            None
        }
    }

    /// The first rule that the load section breaks.
    pub open spec fn load_fault(self) -> Option<ConfigError> {
        if let Some(target_utilization) = self.load.target_utilization {
            Some(ConfigError::TargetUtilization { target_utilization })
        } else if !self.load.rate_rps.positive() {
            Some(ConfigError::Rate { rate_rps: self.load.rate_rps })
        } else if self.load.arrival == Arrival::Bursty {
            match self.load.burstiness_cv {
                None => Some(ConfigError::BurstinessMissing),
                Some(cv) => if cv.finite() && unity().less(cv) {
                    None
                } else {
                    Some(ConfigError::Burstiness { cv })
                },
            }
        } else {
            None
        }
    }

    /// The first rule that the objective section breaks.
    pub open spec fn slo_fault(self) -> Option<ConfigError> {
        let budget_ms = self.slo.budget_ms;
        let penalty_ms = self.slo.penalty();
        if !budget_ms.positive() {
            Some(ConfigError::Budget { budget_ms })
        } else if !(penalty_ms.finite() && budget_ms.less(penalty_ms)) {
            Some(ConfigError::Penalty { penalty_ms, budget_ms })
        } else {
            None
        }
    }

    /// The first rule that the downstreams break.
    pub open spec fn downstreams_fault(self) -> Option<ConfigError> {
        if self.downstreams.len() == 0 {
            Some(ConfigError::NoDownstream)
        } else {
            downstream_fault_from(self.downstreams@, 0)
        }
    }

    /// The first rule that the request classes break.
    pub open spec fn classes_fault(self) -> Option<ConfigError> {
        let total = weight_of_first(self.request_classes@, self.request_classes.len() as nat);
        if self.request_classes.len() == 0 {
            Some(ConfigError::NoRequestClass)
        } else if let Some(e) = class_fault_from(self.downstreams@, self.request_classes@, 0) {
            Some(e)
        } else if (Binary64 { bits: TOLERANCE }).less(total.minus(unity()).absolute()) {
            Some(ConfigError::Weights { total })
        } else {
            None
        }
    }

    /// The first rule that the configuration breaks, section by section.
    pub open spec fn fault(self) -> Option<ConfigError> {
        if let Some(e) = self.scenario_fault() {
            Some(e)
        } else if let Some(e) = self.load_fault() {
            Some(e)
        } else if let Some(e) = self.slo_fault() {
            Some(e)
        } else if let Some(e) = self.downstreams_fault() {
            Some(e)
        } else {
            self.classes_fault()
        }
    }

    /// No rule is broken.
    pub open spec fn valid(self) -> bool {
        self.fault() is None
    }

    /// Checks every rule, and rejects with the first that is broken.
    pub fn validate(&self) -> (r: Result<(), ConfigError>)
        ensures
            r == (match self.fault() {
                Some(e) => Err::<(), ConfigError>(e),
                None => Ok(()),
            }),
    {
        self.validate_scenario()?;
        self.validate_load()?;
        self.validate_slo()?;
        self.validate_downstreams()?;
        self.validate_classes()
    }

    fn validate_scenario(&self) -> (r: Result<(), ConfigError>)
        ensures
            r == (match self.scenario_fault() {
                Some(e) => Err::<(), ConfigError>(e),
                None => Ok(()),
            }),
    {
        let s: &Scenario = &self.scenario;
        if !s.duration_s.is_positive() {
            return Err(ConfigError::Duration { duration_s: s.duration_s });
        }
        if !s.warmup_s.is_not_negative() {
            return Err(ConfigError::Warmup { warmup_s: s.warmup_s });
        }
        if s.duration_s.le(s.warmup_s) {
            return Err(
                ConfigError::WarmupNotBelowDuration {
                    warmup_s: s.warmup_s,
                    duration_s: s.duration_s,
                },
            );
        }
        Ok(())
    }

    fn validate_load(&self) -> (r: Result<(), ConfigError>)
        ensures
            r == (match self.load_fault() {
                Some(e) => Err::<(), ConfigError>(e),
                None => Ok(()),
            }),
    {
        if let Some(target_utilization) = self.load.target_utilization {
            return Err(ConfigError::TargetUtilization { target_utilization });
        }
        if !self.load.rate_rps.is_positive() {
            return Err(ConfigError::Rate { rate_rps: self.load.rate_rps });
        }
        if self.load.arrival == Arrival::Bursty {
            match self.load.burstiness_cv {
                None => {
                    return Err(ConfigError::BurstinessMissing);
                },
                Some(cv) => {
                    // At 1 and below arrivals are not bursty; Poisson is
                    // exactly 1.
                    if !(cv.is_finite() && Binary64::from_bits(ONE).lt(cv)) {
                        return Err(ConfigError::Burstiness { cv });
                    }
                },
            }
        }
        Ok(())
    }

    fn validate_slo(&self) -> (r: Result<(), ConfigError>)
        ensures
            r == (match self.slo_fault() {
                Some(e) => Err::<(), ConfigError>(e),
                None => Ok(()),
            }),
    {
        let budget_ms: Binary64 = self.slo.budget_ms;
        if !budget_ms.is_positive() {
            return Err(ConfigError::Budget { budget_ms });
        }
        let penalty_ms: Binary64 = self.slo.penalty_ms();
        if !(penalty_ms.is_finite() && budget_ms.lt(penalty_ms)) {
            // Otherwise failing scores better than being slow.
            return Err(ConfigError::Penalty { penalty_ms, budget_ms });
        }
        Ok(())
    }

    /// Whether a downstream of this id is among the first `n`.
    fn is_declared(&self, n: usize, id: &String) -> (r: bool)
        requires
            n <= self.downstreams.len(),
        ensures
            r == declared(self.downstreams@, n as int, id@),
    {
        let mut j: usize = 0;
        while j < n
            invariant
                j <= n <= self.downstreams.len(),
                forall|i: int| 0 <= i < j ==> (#[trigger] self.downstreams[i]).id@ != id@,
            decreases n - j,
        {
            if self.downstreams[j].id == *id {
                return true;
            }
            j = j + 1;
        }
        false
    }

    /// Whether a class of this name is among the first `n`.
    fn is_named(&self, n: usize, name: &String) -> (r: bool)
        requires
            n <= self.request_classes.len(),
        ensures
            r == named(self.request_classes@, n as int, name@),
    {
        let mut j: usize = 0;
        while j < n
            invariant
                j <= n <= self.request_classes.len(),
                forall|i: int| 0 <= i < j ==> (#[trigger] self.request_classes[i]).name@ != name@,
            decreases n - j,
        {
            if self.request_classes[j].name == *name {
                return true;
            }
            j = j + 1;
        }
        false
    }

    fn validate_downstreams(&self) -> (r: Result<(), ConfigError>)
        ensures
            r == (match self.downstreams_fault() {
                Some(e) => Err::<(), ConfigError>(e),
                None => Ok(()),
            }),
    {
        if self.downstreams.len() == 0 {
            return Err(ConfigError::NoDownstream);
        }
        let mut i: usize = 0;
        while i < self.downstreams.len()
            invariant
                i <= self.downstreams.len(),
                self.downstreams.len() > 0,
                downstream_fault_from(self.downstreams@, 0) == downstream_fault_from(
                    self.downstreams@,
                    i as int,
                ),
            decreases self.downstreams.len() - i,
        {
            let d: &DownstreamCfg = &self.downstreams[i];
            if self.is_declared(i, &d.id) {
                return Err(ConfigError::DuplicateDownstream { id: d.id.clone() });
            }
            if d.capacity == 0 {
                return Err(ConfigError::Capacity { id: d.id.clone(), capacity: d.capacity });
            }
            if !d.timeout_ms.is_positive() {
                return Err(
                    ConfigError::Timeout { id: d.id.clone(), timeout_ms: d.timeout_ms },
                );
            }
            if let Err(error) = d.distribution.validate() {
                return Err(ConfigError::Distribution { id: d.id.clone(), error });
            }
            i = i + 1;
        }
        Ok(())
    }

    /// The first required downstream that is not declared.
    fn undeclared(&self, required: &Vec<String>) -> (r: Option<String>)
        ensures
            r == undeclared_from(self.downstreams@, required@, 0),
    {
        let mut k: usize = 0;
        while k < required.len()
            invariant
                k <= required.len(),
                undeclared_from(self.downstreams@, required@, 0) == undeclared_from(
                    self.downstreams@,
                    required@,
                    k as int,
                ),
            decreases required.len() - k,
        {
            if !self.is_declared(self.downstreams.len(), &required[k]) {
                return Some(required[k].clone());
            }
            k = k + 1;
        }
        None
    }

    fn validate_classes(&self) -> (r: Result<(), ConfigError>)
        ensures
            r == (match self.classes_fault() {
                Some(e) => Err::<(), ConfigError>(e),
                None => Ok(()),
            }),
    {
        if self.request_classes.len() == 0 {
            return Err(ConfigError::NoRequestClass);
        }
        let mut total: Binary64 = Binary64::from_bits(0);
        let mut i: usize = 0;
        while i < self.request_classes.len()
            invariant
                i <= self.request_classes.len(),
                self.request_classes.len() > 0,
                total == weight_of_first(self.request_classes@, i as nat),
                class_fault_from(self.downstreams@, self.request_classes@, 0) == class_fault_from(
                    self.downstreams@,
                    self.request_classes@,
                    i as int,
                ),
            decreases self.request_classes.len() - i,
        {
            let c: &RequestClassCfg = &self.request_classes[i];
            if self.is_named(i, &c.name) {
                return Err(ConfigError::DuplicateClass { name: c.name.clone() });
            }
            if !c.weight.is_positive() {
                return Err(ConfigError::Weight { name: c.name.clone(), weight: c.weight });
            }
            total = total.add(c.weight);
            if c.requires.len() == 0 {
                // A class that must do no work cannot be checked.
                return Err(ConfigError::NothingRequired { name: c.name.clone() });
            }
            if let Some(downstream) = self.undeclared(&c.requires) {
                return Err(ConfigError::Undeclared { name: c.name.clone(), downstream });
            }
            i = i + 1;
        }
        let gap: Binary64 = total.sub(Binary64::from_bits(ONE)).abs();
        if Binary64::from_bits(TOLERANCE).lt(gap) {
            return Err(ConfigError::Weights { total });
        }
        Ok(())
    }

    /// Stable index for a downstream id. It depends only on the order of the
    /// configuration.
    pub fn downstream_index(&self, id: &str) -> (r: Option<u16>)
        ensures
            r == (match position_of(self.downstreams@, id@, 0) {
                Some(i) => Some((i % 0x1_0000) as u16),
                None => None,
            }),
    {
        let wanted: String = id.to_owned();
        let mut i: usize = 0;
        while i < self.downstreams.len()
            invariant
                i <= self.downstreams.len(),
                wanted@ == id@,
                position_of(self.downstreams@, id@, 0) == position_of(
                    self.downstreams@,
                    id@,
                    i as int,
                ),
            decreases self.downstreams.len() - i,
        {
            if self.downstreams[i].id == wanted {
                return Some((i % 0x1_0000) as u16);
            }
            i = i + 1;
        }
        None
    }
}

/// The first position, from the `i`th on, of a downstream of this id.
pub open spec fn position_of(downstreams: Seq<DownstreamCfg>, id: Seq<char>, i: int) -> Option<int>
    decreases downstreams.len() - i,
{
    if i >= downstreams.len() {
        None
    } else if downstreams[i].id@ == id {
        Some(i)
    } else {
        position_of(downstreams, id, i + 1)
    }
}

proof fn lemma_no_downstream_fault(downstreams: Seq<DownstreamCfg>, i: int, k: int)
    requires
        downstream_fault_from(downstreams, i) is None,
        0 <= i <= k < downstreams.len(),
    ensures
        downstream_fault(downstreams, k) is None,
    decreases k - i,
{
    if i < k {
        lemma_no_downstream_fault(downstreams, i + 1, k);
    }
}

proof fn lemma_no_class_fault(
    downstreams: Seq<DownstreamCfg>,
    classes: Seq<RequestClassCfg>,
    i: int,
    k: int,
)
    requires
        class_fault_from(downstreams, classes, i) is None,
        0 <= i <= k < classes.len(),
    ensures
        class_fault(downstreams, classes, k) is None,
    decreases k - i,
{
    if i < k {
        lemma_no_class_fault(downstreams, classes, i + 1, k);
    }
}

proof fn lemma_all_declared(downstreams: Seq<DownstreamCfg>, required: Seq<String>, i: int, k: int)
    requires
        undeclared_from(downstreams, required, i) is None,
        0 <= i <= k < required.len(),
    ensures
        declared(downstreams, downstreams.len() as int, required[k]@),
    decreases k - i,
{
    if i < k {
        lemma_all_declared(downstreams, required, i + 1, k);
    }
}

/// Under a valid configuration giving up never pays: a failed request scores
/// more than the whole budget.
pub proof fn lemma_valid_penalty_above_budget(c: Config)
    requires
        c.valid(),
    ensures
        c.slo.budget_ms.positive(),
        c.slo.budget_ms.less(c.slo.penalty()),
        c.slo.penalty().finite(),
{
}

/// Under a valid configuration some of the run lies after the warmup.
pub proof fn lemma_valid_warmup_ends(c: Config)
    requires
        c.valid(),
    ensures
        c.scenario.warmup_s.less(c.scenario.duration_s),
{
}

/// Under a valid configuration no two downstreams share an id, and each has
/// capacity, a timeout and a distribution to draw from.
pub proof fn lemma_valid_downstreams(c: Config, i: int)
    requires
        c.valid(),
        0 <= i < c.downstreams.len(),
    ensures
        !declared(c.downstreams@, i, c.downstreams[i].id@),
        c.downstreams[i].capacity > 0,
        c.downstreams[i].timeout_ms.positive(),
        c.downstreams[i].distribution.fault() is None,
{
    lemma_no_downstream_fault(c.downstreams@, 0, i);
}

/// Under a valid configuration every class has work to do, all of it at
/// declared downstreams, and no two classes share a name.
pub proof fn lemma_valid_classes(c: Config, i: int)
    requires
        c.valid(),
        0 <= i < c.request_classes.len(),
    ensures
        !named(c.request_classes@, i, c.request_classes[i].name@),
        c.request_classes[i].weight.positive(),
        c.request_classes[i].requires.len() > 0,
        forall|k: int|
            0 <= k < c.request_classes[i].requires.len() ==> declared(
                c.downstreams@,
                c.downstreams.len() as int,
                (#[trigger] c.request_classes[i].requires[k])@,
            ),
{
    lemma_no_class_fault(c.downstreams@, c.request_classes@, 0, i);
    let required = c.request_classes[i].requires@;
    assert forall|k: int| 0 <= k < required.len() implies declared(
        c.downstreams@,
        c.downstreams.len() as int,
        (#[trigger] required[k])@,
    ) by {
        lemma_all_declared(c.downstreams@, required, 0, k);
    }
}

/// A downstream's index is the position of the first that has its id.
pub proof fn lemma_position_is_first(downstreams: Seq<DownstreamCfg>, id: Seq<char>, i: int)
    requires
        0 <= i <= downstreams.len(),
    ensures
        match position_of(downstreams, id, i) {
            Some(p) => {
                &&& i <= p < downstreams.len()
                &&& downstreams[p].id@ == id
                &&& forall|j: int| i <= j < p ==> (#[trigger] downstreams[j]).id@ != id
            },
            None => forall|j: int|
                i <= j < downstreams.len() ==> (#[trigger] downstreams[j]).id@ != id,
        },
    decreases downstreams.len() - i,
{
    if i < downstreams.len() && downstreams[i].id@ != id {
        lemma_position_is_first(downstreams, id, i + 1);
    }
}

} // verus!

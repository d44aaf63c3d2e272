//! The load generator as a command: names of runs and files, provenance, and
//! the replays of an experiment.

use vstd::prelude::*;
use vstd::string::StringExecFns;

use crate::arithmetic::sum;
use crate::arithmetic::sum_of;
use crate::binary64::lemma_size_increases;
use crate::binary64::Binary64;
use crate::binary64::ONE;
use crate::config::Config;
use crate::conversion::from_u64;
use crate::conversion::whole;
use crate::distributions::ClosedForm;
use crate::distributions::Distribution;
use crate::load_generator::RunOutcome;
use crate::record::RunManifest;
use crate::report::Report;
use crate::report::Q50;
use crate::report::Q90;
use crate::report::Q99;
use crate::text::decimal;
use crate::text::digit;
use crate::text::fixed;
use crate::text::left;
use crate::text::push_decimal;
use crate::text::push_fixed_2;
use crate::text::push_fixed_3;
use crate::text::push_left;
use crate::text::push_right;
use crate::text::push_signed_3;
use crate::text::right;
use crate::text::signed_fixed;

verus! {

/// `String::push`: appends the character.
pub assume_specification[ String::push ](s: &mut String, c: char)
    ensures
        final(s)@ == old(s)@.push(c),
;

/// How many names to try for the directory of a run.
pub const DIRECTORY_ATTEMPTS: u32 = 100;

/// An ASCII letter or digit.
pub open spec fn alphanumeric(c: char) -> bool {
    ('0' <= c && c <= '9') || ('A' <= c && c <= 'Z') || ('a' <= c && c <= 'z')
}

/// `id` with a hyphen for everything that is not a letter or a digit.
pub open spec fn slug_of(id: Seq<char>) -> Seq<char> {
    Seq::new(
        id.len(),
        |i: int|
            if alphanumeric(id[i]) {
                id[i]
            } else {
                '-'
            },
    )
}

/// A scenario id in the shape of a file name.
pub fn slug(scenario_id: &str) -> (r: String)
    ensures
        r@ == slug_of(scenario_id@),
{
    let n: usize = scenario_id.unicode_len();
    let mut out: String = String::new();
    let mut i: usize = 0;
    while i < n
        invariant
            i <= n == scenario_id@.len(),
            out@ == slug_of(scenario_id@).take(i as int),
        decreases n - i,
    {
        let c: char = scenario_id.get_char(i);
        if ('0' <= c && c <= '9') || ('A' <= c && c <= 'Z') || ('a' <= c && c <= 'z') {
            out.push(c);
        } else {
            out.push('-');
        }
        i = i + 1;
        assert(out@ =~= slug_of(scenario_id@).take(i as int));
    }
    assert(out@ =~= slug_of(scenario_id@));
    out
}

/// The name of a run's directory at the `attempt`th try.
pub open spec fn directory_name(stamp: Seq<char>, slug: Seq<char>, attempt: nat) -> Seq<char> {
    if attempt == 0 {
        stamp + "-"@ + slug
    } else {
        stamp + "-"@ + slug + "-"@ + decimal(attempt)
    }
}

/// The name of a run's directory. The stamp comes first, so that names sort by
/// time; two runs of the same second are told apart by a number.
pub fn run_dir_name(stamp: &str, slug: &str, attempt: u32) -> (r: String)
    ensures
        r@ == directory_name(stamp@, slug@, attempt as nat),
{
    let mut out: String = stamp.to_owned();
    out.append("-");
    out.append(slug);
    if attempt > 0 {
        out.append("-");
        push_decimal(&mut out, attempt as u64);
    }
    out
}

/// What to do after a try to get a directory.
#[derive(Clone, Copy, Debug, PartialEq, Eq, Structural)]
pub enum DirectoryStep {
    /// This directory is the run's own.
    Take,
    /// Try the next name.
    Next,
    GiveUp,
}

/// What to do with the directory of the `attempt`th try. Only an empty one is
/// taken, so that no run overwrites another.
pub open spec fn directory_step(attempt: u32, empty: bool) -> DirectoryStep {
    if empty {
        DirectoryStep::Take
    } else if attempt + 1 < DIRECTORY_ATTEMPTS {
        DirectoryStep::Next
    } else {
        DirectoryStep::GiveUp
    }
}

/// What to do with the directory of the `attempt`th try, counted from 0.
pub fn after_try(attempt: u32, empty: bool) -> (r: DirectoryStep)
    ensures
        r == directory_step(attempt, empty),
{
    if empty {
        DirectoryStep::Take
    } else if attempt < DIRECTORY_ATTEMPTS - 1 {
        DirectoryStep::Next
    } else {
        DirectoryStep::GiveUp
    }
}

/// No run overwrites another: a directory that holds anything is never taken,
/// and each try has a name of its own.
pub proof fn lemma_no_run_overwrites(
    stamp: Seq<char>,
    slug: Seq<char>,
    attempt: u32,
    other: u32,
    empty: bool,
)
    ensures
        directory_step(attempt, empty) == DirectoryStep::Take <==> empty,
        attempt != other ==> directory_name(stamp, slug, attempt as nat) != directory_name(
            stamp,
            slug,
            other as nat,
        ),
{
    if attempt != other {
        let base = stamp + "-"@ + slug;
        let a = directory_name(stamp, slug, attempt as nat);
        let b = directory_name(stamp, slug, other as nat);
        reveal_strlit("-");
        lemma_decimal_injective(attempt as nat, other as nat);
        if attempt > 0 && other > 0 && a == b {
            let n = base.len() + 1;
            assert(a.skip(n as int) =~= decimal(attempt as nat));
            assert(b.skip(n as int) =~= decimal(other as nat));
        }
    }
}

/// Different numbers are written differently.
proof fn lemma_decimal_injective(n: nat, m: nat)
    ensures
        decimal(n) == decimal(m) ==> n == m,
        decimal(n).len() > 0,
    decreases n,
{
    if n < 10 {
        if m >= 10 {
            lemma_decimal_not_empty(m / 10);
        }
        assert(decimal(n).last() == digit(n));
    } else {
        lemma_decimal_injective(n / 10, m / 10);
        assert(decimal(n).drop_last() =~= decimal(n / 10));
        assert(decimal(n).last() == digit(n % 10));
    }
    if m < 10 {
        assert(decimal(m).last() == digit(m));
    } else {
        assert(decimal(m).drop_last() =~= decimal(m / 10));
        assert(decimal(m).last() == digit(m % 10));
    }
}

/// A number has at least one digit.
proof fn lemma_decimal_not_empty(n: nat)
    ensures
        decimal(n).len() > 0,
{
}

/// What sets the files of replay `i` apart: nothing, where there is only one.
pub open spec fn replay_suffix(repeat: nat, i: nat) -> Seq<char> {
    if repeat > 1 {
        "."@ + decimal(i)
    } else {
        Seq::empty()
    }
}

/// A file name of replay `i`.
pub fn replay_file(stem: &str, repeat: usize, i: usize, extension: &str) -> (r: String)
    ensures
        r@ == stem@ + replay_suffix(repeat as nat, i as nat) + extension@,
{
    let mut out: String = stem.to_owned();
    if repeat > 1 {
        out.append(".");
        push_decimal(&mut out, i as u64);
    }
    assert(out@ =~= stem@ + replay_suffix(repeat as nat, i as nat));
    out.append(extension);
    out
}

/// `linux-pinned` only where a cpuset was applied: a container without one
/// looks pinned and is not.
pub fn environment(linux: bool, cpuset: bool) -> (r: String)
    ensures
        r@ == (if linux && cpuset {
            "linux-pinned"@
        } else {
            "unpinned"@
        }),
{
    if linux && cpuset {
        "linux-pinned".to_owned()
    } else {
        "unpinned".to_owned()
    }
}

/// A space, as Unicode has it.
pub open spec fn space(c: char) -> bool {
    let n = c as u32;
    ||| 0x09 <= n <= 0x0D
    ||| n == 0x20
    ||| n == 0x85
    ||| n == 0xA0
    ||| n == 0x1680
    ||| 0x2000 <= n <= 0x200A
    ||| n == 0x2028
    ||| n == 0x2029
    ||| n == 0x202F
    ||| n == 0x205F
    ||| n == 0x3000
}

fn is_space(c: char) -> (r: bool)
    ensures
        r == space(c),
{
    let n: u32 = c as u32;
    (0x09 <= n && n <= 0x0D) || n == 0x20 || n == 0x85 || n == 0xA0 || n == 0x1680 || (0x2000 <= n
        && n <= 0x200A) || n == 0x2028 || n == 0x2029 || n == 0x202F || n == 0x205F || n == 0x3000
}

/// `text` without the spaces at its start.
pub open spec fn trimmed_start(text: Seq<char>) -> Seq<char>
    decreases text.len(),
{
    if text.len() > 0 && space(text[0]) {
        trimmed_start(text.drop_first())
    } else {
        text
    }
}

/// `text` without the spaces at its end.
pub open spec fn trimmed_end(text: Seq<char>) -> Seq<char>
    decreases text.len(),
{
    if text.len() > 0 && space(text.last()) {
        trimmed_end(text.drop_last())
    } else {
        text
    }
}

/// `text` up to its first space.
pub open spec fn word(text: Seq<char>) -> Seq<char>
    decreases text.len(),
{
    if text.len() > 0 && !space(text[0]) {
        seq![text[0]] + word(text.drop_first())
    } else {
        Seq::empty()
    }
}

/// Where the text starts, leading spaces aside.
fn start_of(text: &str) -> (r: usize)
    ensures
        r <= text@.len(),
        text@.skip(r as int) == trimmed_start(text@),
{
    let n: usize = text.unicode_len();
    let mut i: usize = 0;
    assert(text@.skip(0) =~= text@);
    while i < n
        invariant
            i <= n == text@.len(),
            trimmed_start(text@.skip(i as int)) == trimmed_start(text@),
        decreases n - i,
    {
        if !is_space(text.get_char(i)) {
            return i;
        }
        assert(text@.skip(i as int).drop_first() =~= text@.skip(i + 1));
        i = i + 1;
    }
    i
}

/// What a command printed, without the spaces around it.
pub fn trimmed(text: &str) -> (r: String)
    ensures
        r@ == trimmed_end(trimmed_start(text@)),
{
    let start: usize = start_of(text);
    let n: usize = text.unicode_len();
    let mut end: usize = n;
    assert(text@.subrange(start as int, n as int) =~= text@.skip(start as int));
    while end > start
        invariant
            start <= end <= n == text@.len(),
            trimmed_end(text@.subrange(start as int, end as int)) == trimmed_end(
                trimmed_start(text@),
            ),
        decreases end,
    {
        if !is_space(text.get_char(end - 1)) {
            return text.substring_char(start, end).to_owned();
        }
        assert(text@.subrange(start as int, end as int).drop_last() =~= text@.subrange(
            start as int,
            end - 1,
        ));
        end = end - 1;
    }
    text.substring_char(start, end).to_owned()
}

/// Nothing but spaces.
pub open spec fn blank_text(text: Seq<char>) -> bool {
    trimmed_start(text).len() == 0
}

/// Whether a line of a log holds nothing.
pub fn is_blank(text: &str) -> (r: bool)
    ensures
        r == blank_text(text@),
{
    start_of(text) == text.unicode_len()
}

/// A hexadecimal digit.
pub open spec fn hexadecimal(c: char) -> bool {
    ('0' <= c && c <= '9') || ('A' <= c && c <= 'F') || ('a' <= c && c <= 'f')
}

/// The lower-case form of a hexadecimal digit.
pub open spec fn lower(c: char) -> char {
    if 'A' <= c && c <= 'F' {
        (c as u8 + 32) as char
    } else {
        c
    }
}

fn to_lower(c: char) -> (r: char)
    requires
        hexadecimal(c),
    ensures
        r == lower(c),
{
    if c == 'A' {
        'a'
    } else if c == 'B' {
        'b'
    } else if c == 'C' {
        'c'
    } else if c == 'D' {
        'd'
    } else if c == 'E' {
        'e'
    } else if c == 'F' {
        'f'
    } else {
        c
    }
}

/// A SHA-256 in hexadecimal.
pub open spec fn is_sha256(text: Seq<char>) -> bool {
    text.len() == 64 && forall|i: int| 0 <= i < 64 ==> hexadecimal(#[trigger] text[i])
}

/// The hash that a checksum command printed in front of the file's path, in
/// lower case. `None` where it printed something else.
pub fn printed_sha256(text: &str) -> (r: Option<String>)
    ensures
        match r {
            Some(hash) => is_sha256(word(trimmed_start(text@))) && hash@ == word(
                trimmed_start(text@),
            ).map_values(|c: char| lower(c)),
            None => !is_sha256(word(trimmed_start(text@))),
        },
{
    let n: usize = text.unicode_len();
    let start: usize = start_of(text);
    let ghost rest = trimmed_start(text@);
    let mut i: usize = start;
    assert(text@.subrange(start as int, start as int) =~= Seq::<char>::empty());
    assert(Seq::<char>::empty() + word(rest) =~= word(rest));
    while i < n && !is_space(text.get_char(i))
        invariant
            start <= i <= n == text@.len(),
            word(rest) == text@.subrange(start as int, i as int) + word(text@.skip(i as int)),
        decreases n - i,
    {
        proof {
            let here = text@.skip(i as int);
            assert(here.drop_first() =~= text@.skip(i + 1));
            assert(text@.subrange(start as int, i as int) + (seq![here[0]] + word(
                here.drop_first(),
            )) =~= text@.subrange(start as int, i + 1) + word(text@.skip(i + 1)));
        }
        i = i + 1;
    }
    let ghost found = text@.subrange(start as int, i as int);
    proof {
        assert(word(text@.skip(i as int)) =~= Seq::<char>::empty());
        assert(found + Seq::<char>::empty() =~= found);
    }
    if i - start != 64 {
        return None;
    }
    let mut out: String = String::new();
    let mut k: usize = start;
    while k < i
        invariant
            start <= k <= i <= n == text@.len(),
            found == text@.subrange(start as int, i as int),
            found == word(rest),
            rest == trimmed_start(text@),
            found.len() == 64,
            forall|j: int| 0 <= j < k - start ==> hexadecimal(#[trigger] found[j]),
            out@ == found.take(k - start).map_values(|c: char| lower(c)),
        decreases i - k,
    {
        let c: char = text.get_char(k);
        assert(c == found[k - start]);
        if !(('0' <= c && c <= '9') || ('A' <= c && c <= 'F') || ('a' <= c && c <= 'f')) {
            assert(!hexadecimal(found[k - start]));
            return None;
        }
        out.push(to_lower(c));
        k = k + 1;
        assert(out@ =~= found.take(k - start).map_values(|c: char| lower(c)));
    }
    assert(found.take(64) =~= found);
    Some(out)
}

/// One of ASCII's spaces.
pub open spec fn ascii_space(b: u8) -> bool {
    b == 0x20 || b == 0x09 || b == 0x0A || b == 0x0C || b == 0x0D
}

/// Whether the status command listed anything: uncommitted changes.
pub fn is_dirty(stdout: &Vec<u8>) -> (r: bool)
    ensures
        r == exists|i: int| 0 <= i < stdout.len() && !ascii_space(#[trigger] stdout[i]),
{
    let mut i: usize = 0;
    while i < stdout.len()
        invariant
            i <= stdout.len(),
            forall|j: int| 0 <= j < i ==> ascii_space(#[trigger] stdout[j]),
        decreases stdout.len() - i,
    {
        let b: u8 = stdout[i];
        if !(b == 0x20 || b == 0x09 || b == 0x0A || b == 0x0C || b == 0x0D) {
            return true;
        }
        i = i + 1;
    }
    false
}

/// The branch that the name command printed. `None` on a detached head, where
/// it prints `HEAD`.
pub fn variant(stdout: &str) -> (r: Option<String>)
    ensures
        match r {
            Some(name) => name@ == trimmed_end(trimmed_start(stdout@)) && name@.len() > 0 && name@
                != "HEAD"@,
            None => trimmed_end(trimmed_start(stdout@)).len() == 0 || trimmed_end(
                trimmed_start(stdout@),
            ) == "HEAD"@,
        },
{
    let name: String = trimmed(stdout);
    if name.as_str().unicode_len() == 0 || name == "HEAD".to_owned() {
        None
    } else {
        Some(name)
    }
}

/// Where a run came from.
#[derive(Clone, Debug)]
pub struct Provenance {
    pub scenario_path: String,
    pub git_sha: Option<String>,
    pub program_sha256: String,
    pub git_dirty: bool,
    pub program_variant: Option<String>,
    pub environment: String,
    pub cpuset: Option<String>,
    pub worker_threads: Option<usize>,
    pub kernel: Option<String>,
}

/// The manifest of a run.
pub fn manifest(cfg: &Config, outcome: &RunOutcome, from: Provenance) -> (r: RunManifest)
    ensures
        r == (RunManifest {
            scenario_id: cfg.scenario.id,
            scenario_path: from.scenario_path,
            seed: cfg.scenario.seed,
            git_sha: from.git_sha,
            program_sha256: from.program_sha256,
            git_dirty: from.git_dirty,
            program_variant: from.program_variant,
            environment: from.environment,
            cpuset: from.cpuset,
            worker_threads: from.worker_threads,
            kernel: from.kernel,
            budget_ms: cfg.slo.budget_ms,
            penalty_ms: cfg.slo.penalty(),
            warmup_s: cfg.scenario.warmup_s,
            duration_s: cfg.scenario.duration_s,
            scheduled_requests: outcome.records.len(),
            late_dispatches: outcome.late_dispatches,
            coordinated_omission_failure: outcome.coordinated_omission_failure,
        }),
{
    RunManifest {
        scenario_id: cfg.scenario.id.clone(),
        scenario_path: from.scenario_path,
        seed: cfg.scenario.seed,
        git_sha: from.git_sha,
        program_sha256: from.program_sha256,
        git_dirty: from.git_dirty,
        program_variant: from.program_variant,
        environment: from.environment,
        cpuset: from.cpuset,
        worker_threads: from.worker_threads,
        kernel: from.kernel,
        budget_ms: cfg.slo.budget_ms,
        penalty_ms: cfg.slo.penalty_ms(),
        warmup_s: cfg.scenario.warmup_s,
        duration_s: cfg.scenario.duration_s,
        scheduled_requests: outcome.records.len(),
        late_dispatches: outcome.late_dispatches,
        coordinated_omission_failure: outcome.coordinated_omission_failure,
    }
}

/// The mean of `xs`.
pub open spec fn mean_of(xs: Seq<Binary64>) -> Binary64 {
    sum_of(xs).over(whole(xs.len()))
}

/// The mean of `xs`.
pub fn mean(xs: &Vec<Binary64>) -> (r: Binary64)
    ensures
        r == mean_of(xs@),
{
    sum(xs).div(from_u64(xs.len() as u64))
}

/// The squared distances of `xs` from `m`.
pub open spec fn squares(xs: Seq<Binary64>, m: Binary64) -> Seq<Binary64> {
    Seq::new(xs.len(), |i: int| xs[i].minus(m).times(xs[i].minus(m)))
}

/// The variance of `xs`, as a sample; zero where there are fewer than two.
pub open spec fn variance_of(xs: Seq<Binary64>) -> Binary64 {
    if xs.len() < 2 {
        Binary64 { bits: 0 }
    } else {
        sum_of(squares(xs, mean_of(xs))).over(whole((xs.len() - 1) as nat))
    }
}

/// The variance of `xs`; its root is the standard deviation.
pub fn variance(xs: &Vec<Binary64>) -> (r: Binary64)
    ensures
        r == variance_of(xs@),
{
    if xs.len() < 2 {
        return Binary64::from_bits(0);
    }
    let m: Binary64 = mean(xs);
    let mut out: Vec<Binary64> = Vec::new();
    let mut i: usize = 0;
    while i < xs.len()
        invariant
            i <= xs.len(),
            m == mean_of(xs@),
            out@ == squares(xs@, m).take(i as int),
        decreases xs.len() - i,
    {
        let gap: Binary64 = xs[i].sub(m);
        out.push(gap.mul(gap));
        i = i + 1;
        assert(out@ =~= squares(xs@, m).take(i as int));
    }
    assert(out@ =~= squares(xs@, m));
    sum(&out).div(from_u64((xs.len() - 1) as u64))
}

/// The replays of one experiment so far.
pub struct Replays {
    pub cvars: Vec<Binary64>,
    pub p99s: Vec<Binary64>,
    pub any_failed: bool,
}

impl Replays {
    pub fn new() -> (r: Self)
        ensures
            r.cvars@ == Seq::<Binary64>::empty(),
            r.p99s@ == Seq::<Binary64>::empty(),
            !r.any_failed,
    {
        Replays { cvars: Vec::new(), p99s: Vec::new(), any_failed: false }
    }

    /// Takes in the report of one more replay. One failed replay fails the
    /// experiment.
    pub fn take(&mut self, report: &Report)
        ensures
            final(self).cvars@ == old(self).cvars@.push(report.cvar_99),
            final(self).p99s@ == old(self).p99s@.push(report.p99),
            final(self).any_failed == (old(self).any_failed || report.failed),
    {
        self.cvars.push(report.cvar_99);
        self.p99s.push(report.p99);
        self.any_failed = self.any_failed || report.failed;
    }
}

/// The replay noise as text. The two deviations are the roots of the
/// variances.
pub fn replay_text(repeat: usize, replays: &Replays, cvar_sd: Binary64, p99_sd: Binary64) -> (r:
    String)
    ensures
        r@ == "\nreplay over "@ + decimal(repeat as nat) + " runs:\n  cvar_99  mean "@ + fixed(
            mean_of(replays.cvars@),
            2,
        ) + " ms  sd "@ + fixed(cvar_sd, 3) + " ms\n  p99      mean "@ + fixed(
            mean_of(replays.p99s@),
            2,
        ) + " ms  sd "@ + fixed(p99_sd, 3) + " ms"@,
{
    let mut s: String = "\nreplay over ".to_owned();
    push_decimal(&mut s, repeat as u64);
    s.append(" runs:\n  cvar_99  mean ");
    push_fixed_2(&mut s, mean(&replays.cvars));
    s.append(" ms  sd ");
    push_fixed_3(&mut s, cvar_sd);
    s.append(" ms\n  p99      mean ");
    push_fixed_2(&mut s, mean(&replays.p99s));
    s.append(" ms  sd ");
    push_fixed_3(&mut s, p99_sd);
    s.append(" ms");
    s
}

/// A measured quantile and its closed form.
#[derive(Clone, Copy, Debug, PartialEq, Eq, Structural)]
pub struct Comparison {
    pub quantile: Quantile,
    pub measured: Binary64,
    pub analytic: ClosedForm,
}

/// The quantiles that are checked against their closed form.
#[derive(Clone, Copy, Debug, PartialEq, Eq, Structural)]
pub enum Quantile {
    P50,
    P90,
    P99,
}

impl Quantile {
    /// The fraction that lies below.
    pub open spec fn fraction(self) -> Binary64 {
        match self {
            Quantile::P50 => Binary64 { bits: Q50 },
            Quantile::P90 => Binary64 { bits: Q90 },
            Quantile::P99 => Binary64 { bits: Q99 },
        }
    }

    /// What was measured for it.
    pub open spec fn measured(self, report: Report) -> Binary64 {
        match self {
            Quantile::P50 => report.p50,
            Quantile::P90 => report.p90,
            Quantile::P99 => report.p99,
        }
    }

    pub open spec fn name(self) -> Seq<char> {
        match self {
            Quantile::P50 => "p50"@,
            Quantile::P90 => "p90"@,
            Quantile::P99 => "p99"@,
        }
    }

    /// Its name in a table.
    pub fn label(self) -> (r: String)
        ensures
            r@ == self.name(),
    {
        match self {
            Quantile::P50 => "p50".to_owned(),
            Quantile::P90 => "p90".to_owned(),
            Quantile::P99 => "p99".to_owned(),
        }
    }

    /// Compares what was measured for it with the closed form. `None` where
    /// there is no closed form.
    pub fn compare(self, report: &Report, dist: &Distribution) -> (r: Option<Comparison>)
        ensures
            r == (match dist.quantile(self.fraction()) {
                Some(analytic) => Some(
                    Comparison { quantile: self, measured: self.measured(*report), analytic },
                ),
                None => None,
            }),
    {
        let (q, measured): (Binary64, Binary64) = match self {
            Quantile::P50 => (Binary64::from_bits(Q50), report.p50),
            Quantile::P90 => (Binary64::from_bits(Q90), report.p90),
            Quantile::P99 => (Binary64::from_bits(Q99), report.p99),
        };
        proof {
            lemma_size_increases(q.bits as nat, ONE as nat);
        }
        match dist.analytic_quantile(q) {
            Some(analytic) => Some(Comparison { quantile: self, measured, analytic }),
            None => None,
        }
    }
}

/// The line of a table that holds one comparison. `analytic` is what the
/// closed form comes to.
pub fn comparison_line(quantile: Quantile, measured: Binary64, analytic: Binary64) -> (r: String)
    ensures
        r@ == "  "@ + left(quantile.name(), 6) + " "@ + right(fixed(measured, 3), 10) + " "@
            + right(fixed(analytic, 3), 10) + " "@ + right(
            signed_fixed(measured.minus(analytic), 3),
            10,
        ),
{
    let mut first: String = String::new();
    push_fixed_3(&mut first, measured);
    let mut second: String = String::new();
    push_fixed_3(&mut second, analytic);
    let mut gap: String = String::new();
    push_signed_3(&mut gap, measured.sub(analytic));
    assert(first@ =~= fixed(measured, 3));
    assert(second@ =~= fixed(analytic, 3));
    assert(gap@ =~= signed_fixed(measured.minus(analytic), 3));
    let mut s: String = "  ".to_owned();
    push_left(&mut s, quantile.label().as_str(), 6);
    s.append(" ");
    push_right(&mut s, first.as_str(), 10);
    s.append(" ");
    push_right(&mut s, second.as_str(), 10);
    s.append(" ");
    push_right(&mut s, gap.as_str(), 10);
    s
}

/// The notice under the numbers of a run that was not pinned. `None` for one
/// that was.
pub fn notice(environment: &str) -> (r: Option<String>)
    ensures
        match r {
            Some(text) => environment@ != "linux-pinned"@ && text@
                == "\nNON-AUTHORITATIVE: environment="@ + environment@
                + ". Authoritative runs require a Linux host with cpusets applied."@,
            None => environment@ == "linux-pinned"@,
        },
{
    if environment.to_owned() == "linux-pinned".to_owned() {
        return None;
    }
    let mut s: String = "\nNON-AUTHORITATIVE: environment=".to_owned();
    s.append(environment);
    s.append(". Authoritative runs require a Linux host with cpusets applied.");
    Some(s)
}

} // verus!

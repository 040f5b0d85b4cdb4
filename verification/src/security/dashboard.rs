//! Data shown by the interactive security dashboard, and the risk rating of
//! an attack outcome.

use vstd::prelude::*;
use vstd::string::StrSliceExecFns;

use crate::security::advanced_attacks::AttackResult;

verus! {

/// Dashboard settings.
#[derive(Debug, Clone)]
pub struct DashboardConfig {
    /// Enable real-time updates
    pub real_time_updates: bool,
    /// Update interval in milliseconds
    pub update_interval: u64,
    /// Maximum history size
    pub max_history: usize,
    /// Enable educational tooltips
    pub educational_mode: bool,
    /// Color output (if supported)
    pub color_output: bool,
}

impl DashboardConfig {
    /// The settings of the default dashboard: real-time updates every
    /// 500 ms, ten sessions of history, tooltips and colors on.
    pub fn standard() -> (c: Self)
        ensures
            c.real_time_updates && c.update_interval == 500 && c.max_history == 10
                && c.educational_mode && c.color_output,
    {
        DashboardConfig {
            real_time_updates: true,
            update_interval: 500,
            max_history: 10,
            educational_mode: true,
            color_output: true,
        }
    }
}

/// Risk level classification
#[derive(Debug, Clone, Copy, PartialEq, Eq, Structural)]
pub enum RiskLevel {
    /// Attack resisted
    Low,
    /// Moderate risk
    Medium,
    /// A quantum attack succeeded
    High,
    /// A classical attack succeeded
    Critical,
}

/// The metrics of one attack.
#[derive(Debug, Clone)]
pub struct AttackMetric {
    /// Whether the attack succeeded
    pub success: bool,
    /// Attempts made
    pub attempts: usize,
    /// Cost of the attack
    pub time_complexity: String,
    /// The rating of the outcome
    pub risk_level: RiskLevel,
}

/// Security recommendation
#[derive(Debug, Clone)]
pub struct Recommendation {
    /// How urgent it is
    pub priority: RecommendationPriority,
    /// The area it concerns
    pub category: String,
    /// The advice
    pub message: String,
    /// Steps to take
    pub action_items: Vec<String>,
}

/// Recommendation priority
#[derive(Debug, Clone, Copy, PartialEq, Eq, Structural)]
pub enum RecommendationPriority {
    /// For information
    Info,
    /// Worth acting on
    Warning,
    /// Must be acted on
    Critical,
}

/// Test status
#[derive(Debug, Clone, Copy, PartialEq, Eq, Structural)]
pub enum TestStatus {
    /// Not started
    Pending,
    /// In progress
    Running,
    /// Finished
    Completed,
    /// Stopped on an error
    Failed,
}

/// Whether `text` contains `pattern` as a contiguous part.
pub open spec fn contains_text(text: Seq<char>, pattern: Seq<char>) -> bool {
    exists|i: int| 0 <= i <= text.len() - pattern.len() && #[trigger] text.subrange(i, i + pattern.len()) == pattern
}

/// The characters of `s`, in order.
fn chars_of(s: &str) -> (v: Vec<char>)
    ensures
        v@ == s@,
{
    let n = s.unicode_len();
    let mut v: Vec<char> = Vec::new();
    let mut i: usize = 0;
    while i < n
        invariant
            n == s@.len(),
            0 <= i <= n,
            v@ == s@.subrange(0, i as int),
        decreases n - i,
    {
        v.push(s.get_char(i));
        i = i + 1;
        assert(v@ =~= s@.subrange(0, i as int));
    }
    assert(v@ =~= s@);
    v
}

/// Whether `pattern` occurs in `text` at position `at`.
fn occurs_at(text: &Vec<char>, pattern: &Vec<char>, at: usize) -> (r: bool)
    requires
        at + pattern@.len() <= text@.len(),
    ensures
        r == (text@.subrange(at as int, at + pattern@.len()) == pattern@),
{
    let tl = text.len();
    let mut j: usize = 0;
    while j < pattern.len()
        invariant
            at + pattern@.len() <= text@.len(),
            tl == text@.len(),
            0 <= j <= pattern@.len(),
            forall|m: int| 0 <= m < j ==> text@[at + m] == pattern@[m],
        decreases pattern@.len() - j,
    {
        if text[at + j] != pattern[j] {
            assert(text@.subrange(at as int, at + pattern@.len())[j as int] != pattern@[j as int]);
            return false;
        }
        j = j + 1;
    }
    assert(text@.subrange(at as int, at + pattern@.len()) =~= pattern@);
    true
}

/// Whether `pattern` occurs in `text` as a contiguous part, as
/// `str::contains` with a string pattern answers.
fn str_contains(text: &str, pattern: &str) -> (r: bool)
    ensures
        r == contains_text(text@, pattern@),
{
    let t = chars_of(text);
    let p = chars_of(pattern);
    if p.len() > t.len() {
        return false;
    }
    let last = t.len() - p.len();
    let mut i: usize = 0;
    while i <= last
        invariant
            t@ == text@,
            p@ == pattern@,
            last == t@.len() - p@.len(),
            0 <= i <= last + 1,
            forall|k: int| 0 <= k < i ==> #[trigger] t@.subrange(k, k + p@.len()) != p@,
        decreases last + 1 - i,
    {
        if occurs_at(&t, &p, i) {
            return true;
        }
        if i == last {
            return false;
        }
        i = i + 1;
    }
    false
}

/// The risk of an attack outcome: low when resisted, high when a quantum
/// attack succeeded, critical when any other attack succeeded.
pub fn risk_level(success: bool, attack_type: &str) -> (r: RiskLevel)
    ensures
        !success ==> r == RiskLevel::Low,
        success && contains_text(attack_type@, "Quantum"@) ==> r == RiskLevel::High,
        success && !contains_text(attack_type@, "Quantum"@) ==> r == RiskLevel::Critical,
{
    if success {
        if str_contains(attack_type, "Quantum") {
            RiskLevel::High
        } else {
            RiskLevel::Critical
        }
    } else {
        RiskLevel::Low
    }
}

/// The metrics the dashboard shows for one attack: its outcome, attempts
/// and cost, with the risk rating of the outcome.
pub fn attack_metric(attack: &AttackResult) -> (m: AttackMetric)
    ensures
        m.success == attack.success,
        m.attempts == attack.attempts,
        m.time_complexity@ == attack.time_complexity@,
        !attack.success ==> m.risk_level == RiskLevel::Low,
        attack.success && contains_text(attack.attack_type@, "Quantum"@) ==> m.risk_level == RiskLevel::High,
        attack.success && !contains_text(attack.attack_type@, "Quantum"@) ==> m.risk_level
            == RiskLevel::Critical,
{
    AttackMetric {
        success: attack.success,
        attempts: attack.attempts,
        time_complexity: attack.time_complexity.clone(),
        risk_level: risk_level(attack.success, attack.attack_type.as_str()),
    }
}

} // verus!

//! Match conditions on window and monitor properties.
use vstd::prelude::*;
use vstd::string::*;

use crate::text::{contains_seq, str_contains, str_equals};

verus! {

#[verifier::external_type_specification]
#[verifier::external_body]
pub struct ExRegex(regex::Regex);

#[verifier::external_type_specification]
#[verifier::external_body]
pub struct ExRegexError(regex::Error);

/// Whether `regex::Regex::new` accepts the pattern.
pub uninterp spec fn regex_compiles(pattern: Seq<char>) -> bool;

/// Whether the regex compiled from `pattern` finds a match in `haystack`.
pub uninterp spec fn regex_finds_match(pattern: Seq<char>, haystack: Seq<char>) -> bool;

/// A regex together with the pattern it was compiled from. It is only
/// built by `compile_regex`, so `re` always comes from `pattern`.
pub struct CompiledRegex {
    pattern: String,
    re: regex::Regex,
}

/// Compiles a pattern with `regex::Regex::new`. The contract claims that
/// the outcome depends on the pattern alone and that a compiled regex
/// keeps its pattern.
#[verifier::external_body]
fn compile_regex(pattern: &str) -> (r: Result<CompiledRegex, regex::Error>)
    ensures
        r is Ok <==> regex_compiles(pattern@),
        r matches Ok(c) ==> c.pattern@ == pattern@,
{
    match regex::Regex::new(pattern) {
        Ok(re) => Ok(CompiledRegex { pattern: pattern.to_string(), re }),
        Err(e) => Err(e),
    }
}

/// Runs `regex::Regex::is_match` on a compiled regex. The contract claims
/// that the answer depends on the pattern and the haystack alone.
#[verifier::external_body]
fn regex_is_match(compiled: &CompiledRegex, haystack: &str) -> (r: bool)
    ensures
        r == regex_finds_match(compiled.pattern@, haystack@),
{
    compiled.re.is_match(haystack)
}

/// Whether `pattern` compiles and finds a match in `value`.
pub open spec fn regex_accepts(pattern: Seq<char>, value: Seq<char>) -> bool {
    regex_compiles(pattern) && regex_finds_match(pattern, value)
}

/// Whether `pattern` compiles and finds no match in `value`.
pub open spec fn regex_rejects(pattern: Seq<char>, value: Seq<char>) -> bool {
    regex_compiles(pattern) && !regex_finds_match(pattern, value)
}

/// Compiles `pattern` and tests it on `value`; `None` for a pattern that
/// does not compile.
pub fn regex_search(pattern: &str, value: &str) -> (r: Option<bool>)
    ensures
        r is Some <==> regex_compiles(pattern@),
        r matches Some(found) ==> found == regex_finds_match(pattern@, value@),
{
    match compile_regex(pattern) {
        Ok(compiled) => Some(regex_is_match(&compiled, value)),
        Err(_) => None,
    }
}

/// A condition on a string property.
#[derive(Clone, Debug)]
pub enum MatchType {
    Equals { equals: String },
    Includes { includes: String },
    Regex { regex: String },
    NotEquals { not_equals: String },
    NotRegex { not_regex: String },
}

impl MatchType {
    pub open spec fn spec_is_match(&self, value: Seq<char>) -> bool {
        match self {
            MatchType::Equals { equals } => value == equals@,
            MatchType::Includes { includes } => contains_seq(value, includes@),
            MatchType::Regex { regex } => regex_accepts(regex@, value),
            MatchType::NotEquals { not_equals } => value != not_equals@,
            MatchType::NotRegex { not_regex } => regex_rejects(not_regex@, value),
        }
    }

    /// Whether the given value is a match for the match type. A regex
    /// that does not compile matches nothing, with or without negation.
    pub fn is_match(&self, value: &str) -> (r: bool)
        ensures
            r == self.spec_is_match(value@),
    {
        match self {
            MatchType::Equals { equals } => str_equals(value, equals.as_str()),
            MatchType::Includes { includes } => str_contains(value, includes.as_str()),
            MatchType::Regex { regex } => match regex_search(regex.as_str(), value) {
                Some(found) => found,
                None => false,
            },
            MatchType::NotEquals { not_equals } => !str_equals(value, not_equals.as_str()),
            MatchType::NotRegex { not_regex } => match regex_search(not_regex.as_str(), value) {
                Some(found) => !found,
                None => false,
            },
        }
    }
}

/// Why a monitor match condition was refused.
#[derive(Clone, Copy, Debug, PartialEq, Eq, Structural)]
pub enum MonitorMatchError {
    /// Neither `device_name` nor `hardware_id` was given.
    NoCondition,
}

impl MonitorMatchError {
    /// The text that explains the refusal.
    pub fn message(&self) -> (r: String)
        ensures
            r@ == "at least one of `device_name` or `hardware_id` is required"@,
    {
        String::from_str("at least one of `device_name` or `hardware_id` is required")
    }
}

/// Match conditions for selecting a monitor.
#[derive(Clone, Debug)]
pub struct MonitorMatchConfig {
    /// Match condition for the monitor's logical display adapter name.
    pub device_name: Option<MatchType>,
    /// Match condition for the monitor's hardware ID.
    pub hardware_id: Option<MatchType>,
}

/// Whether an optional condition holds: no condition always holds.
pub open spec fn optional_matches(cond: Option<MatchType>, value: Seq<char>) -> bool {
    match cond {
        None => true,
        Some(m) => m.spec_is_match(value),
    }
}

impl MonitorMatchConfig {
    /// Builds a condition from its two parts; at least one is required.
    pub fn from_conditions(
        device_name: Option<MatchType>,
        hardware_id: Option<MatchType>,
    ) -> (r: Result<MonitorMatchConfig, MonitorMatchError>)
        ensures
            (device_name is None && hardware_id is None) <==> r is Err,
            r matches Ok(c) ==> c.device_name == device_name && c.hardware_id == hardware_id,
    {
        if device_name.is_none() && hardware_id.is_none() {
            return Err(MonitorMatchError::NoCondition);
        }
        Ok(MonitorMatchConfig { device_name, hardware_id })
    }

    /// All configured conditions hold; a hardware-ID condition never holds
    /// for a monitor without a hardware ID.
    pub open spec fn spec_matches_monitor(
        &self,
        device_name: Seq<char>,
        hardware_id: Option<Seq<char>>,
    ) -> bool {
        &&& optional_matches(self.device_name, device_name)
        &&& match self.hardware_id {
            None => true,
            Some(m) => match hardware_id {
                None => false,
                Some(h) => m.spec_is_match(h),
            },
        }
    }

    /// Whether all configured conditions match the monitor properties.
    pub fn matches_monitor(&self, device_name: &str, hardware_id: Option<&str>) -> (r: bool)
        ensures
            r == self.spec_matches_monitor(device_name@, opt_view(hardware_id)),
    {
        let device_ok = match &self.device_name {
            None => true,
            Some(m) => m.is_match(device_name),
        };
        if !device_ok {
            return false;
        }
        match &self.hardware_id {
            None => true,
            Some(m) => match hardware_id {
                None => false,
                Some(h) => m.is_match(h),
            },
        }
    }
}

/// The view of an optional string slice.
pub open spec fn opt_view(s: Option<&str>) -> Option<Seq<char>> {
    match s {
        None => None,
        Some(v) => Some(v@),
    }
}

/// Whether side areas apply to a monitor: with no condition list they
/// apply everywhere, otherwise where at least one entry matches.
pub open spec fn spec_match_list_selects(
    list: Option<Seq<MonitorMatchConfig>>,
    device_name: Seq<char>,
    hardware_id: Option<Seq<char>>,
) -> bool {
    match list {
        None => true,
        Some(entries) => any_entry_matches(entries, device_name, hardware_id),
    }
}

/// Whether at least one entry of a condition list matches the monitor.
pub open spec fn any_entry_matches(
    entries: Seq<MonitorMatchConfig>,
    device_name: Seq<char>,
    hardware_id: Option<Seq<char>>,
) -> bool {
    exists|i: int|
        0 <= i < entries.len() && #[trigger] entries[i].spec_matches_monitor(
            device_name,
            hardware_id,
        )
}

/// Whether any entry of a condition list matches the monitor.
pub fn any_monitor_match(
    entries: &Vec<MonitorMatchConfig>,
    device_name: &str,
    hardware_id: Option<&str>,
) -> (r: bool)
    ensures
        r == spec_match_list_selects(Some(entries@), device_name@, opt_view(hardware_id)),
{
    let mut i: usize = 0;
    while i < entries.len()
        invariant
            i <= entries@.len(),
            forall|k: int|
                0 <= k < i ==> !(#[trigger] entries@[k]).spec_matches_monitor(
                    device_name@,
                    opt_view(hardware_id),
                ),
        decreases entries@.len() - i,
    {
        if entries[i].matches_monitor(device_name, hardware_id) {
            let ghost k = i as int;
            assert(0 <= k < entries@.len() && entries@[k].spec_matches_monitor(
                device_name@,
                opt_view(hardware_id),
            ));
            return true;
        }
        i = i + 1;
    }
    false
}

/// Match conditions on the properties of a window.
#[derive(Clone, Debug)]
pub struct WindowMatchConfig {
    pub window_process: Option<MatchType>,
    pub window_class: Option<MatchType>,
    pub window_title: Option<MatchType>,
}

impl WindowMatchConfig {
    /// A window condition with no parts, which every window meets.
    pub fn empty() -> (r: WindowMatchConfig)
        ensures
            r.window_process is None,
            r.window_class is None,
            r.window_title is None,
    {
        WindowMatchConfig { window_process: None, window_class: None, window_title: None }
    }
}

} // verus!

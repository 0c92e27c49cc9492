//! Reading the command line's scenario and backend names.

use crate::types::ScenarioKind;
use vstd::prelude::*;

verus! {

broadcast use vstd::string::to_string_from_display_ensures_for_str;

/// The homomorphic backend a run asks for.
#[derive(Debug, Clone, Copy, PartialEq, Eq)]
pub enum BackendChoice {
    Local,
    Rust,
}

/// The error for an unknown backend name: `unknown backend: ` and the name.
fn unknown_backend_message(name: &str) -> (msg: String)
    ensures
        msg@ == "unknown backend: "@ + name@,
{
    "unknown backend: ".to_string().concat(name)
}

/// The error for an unknown scenario name: `unknown scenario: ` and the
/// name.
fn unknown_scenario_message(name: &str) -> (msg: String)
    ensures
        msg@ == "unknown scenario: "@ + name@,
{
    "unknown scenario: ".to_string().concat(name)
}

/// Whether `value` is the text `name`.
fn names(value: &str, name: &str) -> (r: bool)
    ensures
        r == (value@ == name@),
{
    let a = value.to_string();
    let b = name.to_string();
    a == b
}

impl BackendChoice {
    /// `local` or `rust`; any other name is an error naming it.
    pub fn parse(value: &str) -> (r: Result<Self, String>)
        ensures
            value@ == "local"@ ==> r == Ok::<BackendChoice, String>(BackendChoice::Local),
            value@ == "rust"@ ==> r == Ok::<BackendChoice, String>(BackendChoice::Rust),
            value@ != "local"@ && value@ != "rust"@ ==> (r matches Err(msg) && msg@ == "unknown backend: "@ + value@),
    {
        proof {
            reveal_strlit("local");
            reveal_strlit("rust");
            assert("local"@.len() != "rust"@.len());
        }
        if names(value, "local") {
            Ok(BackendChoice::Local)
        } else if names(value, "rust") {
            Ok(BackendChoice::Rust)
        } else {
            Err(unknown_backend_message(value))
        }
    }
}

/// The scenario of a command-line name: `baseline`, `overlap`, `disjoint`,
/// `duplicate` or `single`; any other name is an error naming it.
pub fn parse_scenario(value: &str) -> (r: Result<ScenarioKind, String>)
    ensures
        value@ == "baseline"@ ==> r == Ok::<ScenarioKind, String>(ScenarioKind::BangaloreBaseline),
        value@ == "overlap"@ ==> r == Ok::<ScenarioKind, String>(ScenarioKind::MultiUserOverlap),
        value@ == "disjoint"@ ==> r == Ok::<ScenarioKind, String>(ScenarioKind::MultiUserDisjoint),
        value@ == "duplicate"@ ==> r == Ok::<ScenarioKind, String>(ScenarioKind::DuplicateHeavy),
        value@ == "single"@ ==> r == Ok::<ScenarioKind, String>(ScenarioKind::SingleUser),
        value@ != "baseline"@ && value@ != "overlap"@ && value@ != "disjoint"@ && value@ != "duplicate"@
            && value@ != "single"@ ==> (r matches Err(msg) && msg@ == "unknown scenario: "@ + value@),
{
    proof {
        reveal_strlit("baseline");
        reveal_strlit("overlap");
        reveal_strlit("disjoint");
        reveal_strlit("duplicate");
        reveal_strlit("single");
        assert("baseline"@.len() == 8 && "overlap"@.len() == 7 && "disjoint"@.len() == 8);
        assert("duplicate"@.len() == 9 && "single"@.len() == 6);
        assert("baseline"@[0] != "disjoint"@[0]);
    }
    if names(value, "baseline") {
        Ok(ScenarioKind::BangaloreBaseline)
    } else if names(value, "overlap") {
        Ok(ScenarioKind::MultiUserOverlap)
    } else if names(value, "disjoint") {
        Ok(ScenarioKind::MultiUserDisjoint)
    } else if names(value, "duplicate") {
        Ok(ScenarioKind::DuplicateHeavy)
    } else if names(value, "single") {
        Ok(ScenarioKind::SingleUser)
    } else {
        Err(unknown_scenario_message(value))
    }
}

} // verus!

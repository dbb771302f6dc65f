//! The decisions of the line-oriented JSON-RPC service: which requests a
//! line holds, which method a request names, and what a `report` call
//! answers. Reading, writing and JSON encoding happen around these.
use vstd::prelude::*;

use crate::diff::DiffRow;
use crate::report::{
    ReportConfig, ReportSummary, UnknownClass, fail_on_spec, generate_report,
    render_report, render_spec, report_spec,
};
use crate::text::{append_text, same_text, trim, trim_spec};

verus! {

/// The methods the service answers.
#[derive(Clone, Copy, Debug, PartialEq, Eq, Structural)]
pub enum RpcMethod {
    Run,
    Diff,
    Report,
}

/// A request named a method the service does not have.
#[derive(Debug)]
pub struct UnknownMethod {
    pub name: String,
}

impl UnknownMethod {
    /// The error's message.
    pub fn message(&self) -> (m: String)
        ensures
            m@ == "unknown method: "@ + self.name@,
    {
        let mut m = String::from_str("unknown method: ");
        append_text(&mut m, self.name.as_str());
        m
    }
}

/// The method named `name`, if any.
pub open spec fn method_named(name: Seq<char>) -> Option<RpcMethod> {
    if name == "run"@ {
        Some(RpcMethod::Run)
    } else if name == "diff"@ {
        Some(RpcMethod::Diff)
    } else if name == "report"@ {
        Some(RpcMethod::Report)
    } else {
        None
    }
}

impl RpcMethod {
    /// The method a request names, or the error for an unknown name.
    pub fn from_name(name: &str) -> (r: Result<RpcMethod, UnknownMethod>)
        ensures
            r matches Ok(m) ==> method_named(name@) == Some(m),
            r matches Err(e) ==> method_named(name@) is None && e.name@ == name@,
    {
        if same_text(name, "run") {
            Ok(RpcMethod::Run)
        } else if same_text(name, "diff") {
            Ok(RpcMethod::Diff)
        } else if same_text(name, "report") {
            Ok(RpcMethod::Report)
        } else {
            Err(UnknownMethod { name: String::from_str(name) })
        }
    }
}

/// The request text of an input line: the line trimmed, or `None` when the
/// line is blank and is skipped.
pub fn request_text(line: &str) -> (r: Option<String>)
    ensures
        r is None <==> trim_spec(line@).len() == 0,
        r matches Some(t) ==> t@ == trim_spec(line@),
{
    let t = trim(line);
    if t.as_str().is_empty() {
        None
    } else {
        Some(t)
    }
}

/// The message answered for a line that is not a well-formed request.
pub fn parse_error_message(detail: &str) -> (m: String)
    ensures
        m@ == "parse error: "@ + detail@,
{
    let mut m = String::from_str("parse error: ");
    append_text(&mut m, detail);
    m
}

/// The answer to a `report` call on diff rows with fail-on list `fail_on`:
/// the summary and its text rendering, or the error for an unknown class.
pub fn report_call(rows: &Vec<DiffRow>, fail_on: &str) -> (r: Result<
    (ReportSummary, String),
    UnknownClass,
>)
    ensures
        r matches Ok(p) ==> fail_on_spec(fail_on@) matches Ok(cs) && p.0@ == report_spec(rows@, cs)
            && p.1@ == render_spec(p.0@),
        r matches Err(e) ==> fail_on_spec(fail_on@) == Err::<Seq<crate::diff::DiffClass>, Seq<char>>(
            e.name@,
        ),
{
    let classes = ReportConfig::parse_fail_on(fail_on)?;
    let config = ReportConfig { fail_on: classes };
    let summary = generate_report(rows, &config);
    let rendered = render_report(&summary);
    Ok((summary, rendered))
}

} // verus!

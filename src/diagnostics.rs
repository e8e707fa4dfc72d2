//! Driver diagnostic messages: their categories, which of them are
//! reported, and the line that reports one.

use vstd::prelude::*;
use crate::text::{decimal, decimal_string};

verus! {

/// Where a driver message comes from.
#[derive(Clone, Copy, PartialEq, Eq, Structural, Debug)]
pub enum Source {
    Api,
    WindowSystem,
    ShaderCompiler,
    ThirdParty,
    Application,
    Other,
}

/// What a driver message is about.
#[derive(Clone, Copy, PartialEq, Eq, Structural, Debug)]
pub enum MessageType {
    Error,
    DeprecatedBehavior,
    UndefinedBehavior,
    Portability,
    Performance,
    Other,
    Marker,
    Unknown,
}

/// Severity of a driver message.
#[derive(Clone, Copy, PartialEq, Eq, Structural, Debug)]
pub enum Severity {
    High,
    Medium,
    Low,
    Notification,
    Unknown,
}

pub open spec fn source_name_spec(s: Source) -> Seq<char> {
    match s {
        Source::Api => "API"@,
        Source::WindowSystem => "WINDOW SYSTEM"@,
        Source::ShaderCompiler => "SHADER COMPILER"@,
        Source::ThirdParty => "THIRD PARTY"@,
        Source::Application => "APPLICATION"@,
        Source::Other => "UNKNOWN"@,
    }
}

pub open spec fn message_type_name_spec(t: MessageType) -> Seq<char> {
    match t {
        MessageType::Error => "ERROR"@,
        MessageType::DeprecatedBehavior => "DEPRECATED BEHAVIOR"@,
        MessageType::UndefinedBehavior => "UNDEFINED BEHAVIOR"@,
        MessageType::Portability => "PORTABILITY"@,
        MessageType::Performance => "PERFORMANCE"@,
        MessageType::Other => "OTHER"@,
        MessageType::Marker => "MARKER"@,
        MessageType::Unknown => "UNKNOWN"@,
    }
}

pub open spec fn severity_name_spec(s: Severity) -> Seq<char> {
    match s {
        Severity::High => "HIGH"@,
        Severity::Medium => "MEDIUM"@,
        Severity::Low => "LOW"@,
        Severity::Notification => "NOTIFICATION"@,
        Severity::Unknown => "UNKNOWN"@,
    }
}

pub fn source_name(s: Source) -> (r: &'static str)
    ensures
        r@ == source_name_spec(s),
{
    match s {
        Source::Api => "API",
        Source::WindowSystem => "WINDOW SYSTEM",
        Source::ShaderCompiler => "SHADER COMPILER",
        Source::ThirdParty => "THIRD PARTY",
        Source::Application => "APPLICATION",
        Source::Other => "UNKNOWN",
    }
}

pub fn message_type_name(t: MessageType) -> (r: &'static str)
    ensures
        r@ == message_type_name_spec(t),
{
    match t {
        MessageType::Error => "ERROR",
        MessageType::DeprecatedBehavior => "DEPRECATED BEHAVIOR",
        MessageType::UndefinedBehavior => "UNDEFINED BEHAVIOR",
        MessageType::Portability => "PORTABILITY",
        MessageType::Performance => "PERFORMANCE",
        MessageType::Other => "OTHER",
        MessageType::Marker => "MARKER",
        MessageType::Unknown => "UNKNOWN",
    }
}

pub fn severity_name(s: Severity) -> (r: &'static str)
    ensures
        r@ == severity_name_spec(s),
{
    match s {
        Severity::High => "HIGH",
        Severity::Medium => "MEDIUM",
        Severity::Low => "LOW",
        Severity::Notification => "NOTIFICATION",
        Severity::Unknown => "UNKNOWN",
    }
}

/// Notifications are kept out of the default report; every other severity
/// is reported.
pub fn should_report(s: Severity) -> (r: bool)
    ensures
        r == (s != Severity::Notification),
{
    !matches!(s, Severity::Notification)
}

/// The report line of a message:
/// `ID: TYPE of SEVERITY severity, raised from SOURCE: TEXT`.
pub open spec fn report_line_spec(
    id: u32,
    source: Source,
    kind: MessageType,
    severity: Severity,
    text: Seq<char>,
) -> Seq<char> {
    decimal(id as nat) + ": "@ + message_type_name_spec(kind) + " of "@ + severity_name_spec(severity)
        + " severity, raised from "@ + source_name_spec(source) + ": "@ + text
}

/// The line that reports a message, or `None` for a notification, which
/// is not reported.
pub fn report_line(id: u32, source: Source, kind: MessageType, severity: Severity, text: &str) -> (r:
    Option<String>)
    ensures
        r is None <==> severity == Severity::Notification,
        r matches Some(l) ==> l@ == report_line_spec(id, source, kind, severity, text@),
{
    if !should_report(severity) {
        return None;
    }
    let mut line = decimal_string(id as usize);
    line.append(": ");
    line.append(message_type_name(kind));
    line.append(" of ");
    line.append(severity_name(severity));
    line.append(" severity, raised from ");
    line.append(source_name(source));
    line.append(": ");
    line.append(text);
    Some(line)
}

} // verus!

//! The error type of the crate and its textual form.
use vstd::prelude::*;

verus! {

pub type Result<T> = core::result::Result<T, Error>;

#[derive(Debug, PartialEq, Clone)]
pub enum Error {
    BadNumberOfArguments(String),
    CantLoadFile(String),
    NoJobEntry,
    JobEntryNameWithNonAlphanumChar,
    CantParseEntry { entry_name: String, e: String },
    CantParseField { field_name: String, value: String, type_label: String },
    FieldBadFormat { field_name: String, msg: String },
    FieldCommandIsNotSet,
    WrongClientInputFormat,
    CantParseEnvEntry(String),
    CantOpenLogFile(String),
    CommandIsNotSuported(String),
    IO(String),
    StartJobFail(String),
    StopJobFail(String),
    Default(String),
    ParseClientInput(String),
}

/// The mathematical form of an [`Error`]: its strings taken as characters.
pub enum ErrorV {
    BadNumberOfArguments(Seq<char>),
    CantLoadFile(Seq<char>),
    NoJobEntry,
    JobEntryNameWithNonAlphanumChar,
    CantParseEntry { entry_name: Seq<char>, e: Seq<char> },
    CantParseField { field_name: Seq<char>, value: Seq<char>, type_label: Seq<char> },
    FieldBadFormat { field_name: Seq<char>, msg: Seq<char> },
    FieldCommandIsNotSet,
    WrongClientInputFormat,
    CantParseEnvEntry(Seq<char>),
    CantOpenLogFile(Seq<char>),
    CommandIsNotSuported(Seq<char>),
    IO(Seq<char>),
    StartJobFail(Seq<char>),
    StopJobFail(Seq<char>),
    Default(Seq<char>),
    ParseClientInput(Seq<char>),
}

impl View for Error {
    type V = ErrorV;

    open spec fn view(&self) -> ErrorV {
        match self {
            Error::BadNumberOfArguments(s) => ErrorV::BadNumberOfArguments(s@),
            Error::CantLoadFile(s) => ErrorV::CantLoadFile(s@),
            Error::NoJobEntry => ErrorV::NoJobEntry,
            Error::JobEntryNameWithNonAlphanumChar => ErrorV::JobEntryNameWithNonAlphanumChar,
            Error::CantParseEntry { entry_name, e } => ErrorV::CantParseEntry {
                entry_name: entry_name@,
                e: e@,
            },
            Error::CantParseField { field_name, value, type_label } => ErrorV::CantParseField {
                field_name: field_name@,
                value: value@,
                type_label: type_label@,
            },
            Error::FieldBadFormat { field_name, msg } => ErrorV::FieldBadFormat {
                field_name: field_name@,
                msg: msg@,
            },
            Error::FieldCommandIsNotSet => ErrorV::FieldCommandIsNotSet,
            Error::WrongClientInputFormat => ErrorV::WrongClientInputFormat,
            Error::CantParseEnvEntry(s) => ErrorV::CantParseEnvEntry(s@),
            Error::CantOpenLogFile(s) => ErrorV::CantOpenLogFile(s@),
            Error::CommandIsNotSuported(s) => ErrorV::CommandIsNotSuported(s@),
            Error::IO(s) => ErrorV::IO(s@),
            Error::StartJobFail(s) => ErrorV::StartJobFail(s@),
            Error::StopJobFail(s) => ErrorV::StopJobFail(s@),
            Error::Default(s) => ErrorV::Default(s@),
            Error::ParseClientInput(s) => ErrorV::ParseClientInput(s@),
        }
    }
}

/// A result taken by the views of its value and of its error.
pub open spec fn res_view<T: DeepView>(r: core::result::Result<T, Error>) -> core::result::Result<
    T::V,
    ErrorV,
> {
    match r {
        Ok(v) => Ok(v.deep_view()),
        Err(e) => Err(e@),
    }
}

/// What `{:?}` writes for a string: the string between double quotes, with
/// quotes, backslashes, control and non-printable characters escaped.
pub uninterp spec fn str_debug(s: Seq<char>) -> Seq<char>;

/// Formats `s` with `{:?}` (std's `Debug` for `str`). Its result is named by
/// [`str_debug`]; which characters std escapes, and how, is left unsaid.
#[verifier::external_body]
fn debug_str(s: &str) -> (r: String)
    ensures
        r@ == str_debug(s@),
{
    format!("{:?}", s)
}

/// `name(` + the quoted argument + `)`: a one-field variant as `{:?}` writes it.
pub open spec fn tuple_text(name: Seq<char>, a: Seq<char>) -> Seq<char> {
    name + "("@ + str_debug(a) + ")"@
}

/// A variant with two named fields as `{:?}` writes it.
pub open spec fn struct2_text(
    name: Seq<char>,
    f1: Seq<char>,
    v1: Seq<char>,
    f2: Seq<char>,
    v2: Seq<char>,
) -> Seq<char> {
    name + " { "@ + f1 + ": "@ + str_debug(v1) + ", "@ + f2 + ": "@ + str_debug(v2) + " }"@
}

/// A variant with three named fields as `{:?}` writes it.
pub open spec fn struct3_text(
    name: Seq<char>,
    f1: Seq<char>,
    v1: Seq<char>,
    f2: Seq<char>,
    v2: Seq<char>,
    f3: Seq<char>,
    v3: Seq<char>,
) -> Seq<char> {
    name + " { "@ + f1 + ": "@ + str_debug(v1) + ", "@ + f2 + ": "@ + str_debug(v2) + ", "@ + f3
        + ": "@ + str_debug(v3) + " }"@
}

/// The text that `Error`'s `Display` (its `Debug` form) gives.
pub open spec fn error_text(e: ErrorV) -> Seq<char> {
    match e {
        ErrorV::BadNumberOfArguments(s) => tuple_text("BadNumberOfArguments"@, s),
        ErrorV::CantLoadFile(s) => tuple_text("CantLoadFile"@, s),
        ErrorV::NoJobEntry => "NoJobEntry"@,
        ErrorV::JobEntryNameWithNonAlphanumChar => "JobEntryNameWithNonAlphanumChar"@,
        ErrorV::CantParseEntry { entry_name, e } => struct2_text("CantParseEntry"@, "entry_name"@, entry_name, "e"@, e),
        ErrorV::CantParseField { field_name, value, type_label } => struct3_text(
            "CantParseField"@,
            "field_name"@,
            field_name,
            "value"@,
            value,
            "type_name"@,
            type_label,
        ),
        ErrorV::FieldBadFormat { field_name, msg } => struct2_text("FieldBadFormat"@, "field_name"@, field_name, "msg"@, msg),
        ErrorV::FieldCommandIsNotSet => "FieldCommandIsNotSet"@,
        ErrorV::WrongClientInputFormat => "WrongClientInputFormat"@,
        ErrorV::CantParseEnvEntry(s) => tuple_text("CantParseEnvEntry"@, s),
        ErrorV::CantOpenLogFile(s) => tuple_text("CantOpenLogFile"@, s),
        ErrorV::CommandIsNotSuported(s) => tuple_text("CommandIsNotSuported"@, s),
        ErrorV::IO(s) => tuple_text("IO"@, s),
        ErrorV::StartJobFail(s) => tuple_text("StartJobFail"@, s),
        ErrorV::StopJobFail(s) => tuple_text("StopJobFail"@, s),
        ErrorV::Default(s) => tuple_text("Default"@, s),
        ErrorV::ParseClientInput(s) => tuple_text("ParseClientInput"@, s),
    }
}


fn tuple_string(name: &str, a: &String) -> (r: String)
    ensures
        r@ == tuple_text(name@, a@),
{
    let mut r = String::from_str(name);
    r.append("(");
    let d = debug_str(a.as_str());
    r.append(d.as_str());
    r.append(")");
    r
}

fn field2_string(name: &str, f1: &str, v1: &String, f2: &str, v2: &String) -> (r: String)
    ensures
        r@ == struct2_text(name@, f1@, v1@, f2@, v2@),
{
    let mut r = String::from_str(name);
    r.append(" { ");
    r.append(f1);
    r.append(": ");
    r.append(debug_str(v1.as_str()).as_str());
    r.append(", ");
    r.append(f2);
    r.append(": ");
    r.append(debug_str(v2.as_str()).as_str());
    r.append(" }");
    r
}

fn field3_string(
    name: &str,
    f1: &str,
    v1: &String,
    f2: &str,
    v2: &String,
    f3: &str,
    v3: &String,
) -> (r: String)
    ensures
        r@ == struct3_text(name@, f1@, v1@, f2@, v2@, f3@, v3@),
{
    let mut r = String::from_str(name);
    r.append(" { ");
    r.append(f1);
    r.append(": ");
    r.append(debug_str(v1.as_str()).as_str());
    r.append(", ");
    r.append(f2);
    r.append(": ");
    r.append(debug_str(v2.as_str()).as_str());
    r.append(", ");
    r.append(f3);
    r.append(": ");
    r.append(debug_str(v3.as_str()).as_str());
    r.append(" }");
    r
}

impl Error {
    /// The error's text, as its `Display` (which writes its `Debug` form) gives it.
    pub fn to_string(&self) -> (r: String)
        ensures
            r@ == error_text(self@),
    {
        match self {
            Error::BadNumberOfArguments(s) => tuple_string("BadNumberOfArguments", s),
            Error::CantLoadFile(s) => tuple_string("CantLoadFile", s),
            Error::NoJobEntry => String::from_str("NoJobEntry"),
            Error::JobEntryNameWithNonAlphanumChar => String::from_str("JobEntryNameWithNonAlphanumChar"),
            Error::CantParseEntry { entry_name, e } => field2_string(
                "CantParseEntry",
                "entry_name",
                entry_name,
                "e",
                e,
            ),
            Error::CantParseField { field_name, value, type_label } => field3_string(
                "CantParseField",
                "field_name",
                field_name,
                "value",
                value,
                "type_name",
                type_label,
            ),
            Error::FieldBadFormat { field_name, msg } => field2_string(
                "FieldBadFormat",
                "field_name",
                field_name,
                "msg",
                msg,
            ),
            Error::FieldCommandIsNotSet => String::from_str("FieldCommandIsNotSet"),
            Error::WrongClientInputFormat => String::from_str("WrongClientInputFormat"),
            Error::CantParseEnvEntry(s) => tuple_string("CantParseEnvEntry", s),
            Error::CantOpenLogFile(s) => tuple_string("CantOpenLogFile", s),
            Error::CommandIsNotSuported(s) => tuple_string("CommandIsNotSuported", s),
            Error::IO(s) => tuple_string("IO", s),
            Error::StartJobFail(s) => tuple_string("StartJobFail", s),
            Error::StopJobFail(s) => tuple_string("StopJobFail", s),
            Error::Default(s) => tuple_string("Default", s),
            Error::ParseClientInput(s) => tuple_string("ParseClientInput", s),
        }
    }
}

} // verus!

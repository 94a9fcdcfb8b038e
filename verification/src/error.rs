//! Error values for parsing and extraction operations.

use vstd::prelude::*;

verus! {

/// The failures that parsing, field access and template extraction report.
///
/// Every operation that can fail returns one of these; none is retried
/// internally.
#[derive(Debug)]
pub enum Error {
    /// A field name that is absent from an entry was requested.
    FieldNotFound { field: String },
    /// A field is present but its value cannot be read as the requested type.
    FieldParseError { field: String, value: String, target_type: String },
    /// A log line does not match the compiled template.
    LineFormatMismatch { line: String, format: String },
    /// A template compiled to a pattern that the pattern engine rejects.
    InvalidFormat { format: String, detail: String },
    /// The named template is absent from the configuration text.
    NginxFormatNotFound { format_name: String },
    /// The configuration text is malformed.
    NginxConfigError { message: String },
}

impl Error {
    /// Build a `FieldNotFound` error for the given field name.
    pub fn field_not_found(field: &str) -> (e: Error)
        ensures
            e matches Error::FieldNotFound { field: f } && f@ == field@,
    {
        Error::FieldNotFound { field: field.to_owned() }
    }

    /// Build a `FieldParseError` error for the given field, value and type.
    pub fn field_parse_error(field: &str, value: &str, target_type: &str) -> (e: Error)
        ensures
            e matches Error::FieldParseError { field: f, value: v, target_type: t }
                && f@ == field@ && v@ == value@ && t@ == target_type@,
    {
        Error::FieldParseError {
            field: field.to_owned(),
            value: value.to_owned(),
            target_type: target_type.to_owned(),
        }
    }

    /// Build a `LineFormatMismatch` error for the given line and template.
    pub fn line_format_mismatch(line: &str, format: &str) -> (e: Error)
        ensures
            e matches Error::LineFormatMismatch { line: l, format: f }
                && l@ == line@ && f@ == format@,
    {
        Error::LineFormatMismatch { line: line.to_owned(), format: format.to_owned() }
    }

    /// Build an `InvalidFormat` error for the given template and diagnostic.
    pub fn invalid_format(format: &str, detail: String) -> (e: Error)
        ensures
            e matches Error::InvalidFormat { format: f, detail: d }
                && f@ == format@ && d@ == detail@,
    {
        Error::InvalidFormat { format: format.to_owned(), detail }
    }

    /// Build an `NginxFormatNotFound` error for the given template name.
    pub fn nginx_format_not_found(format_name: &str) -> (e: Error)
        ensures
            e matches Error::NginxFormatNotFound { format_name: n } && n@ == format_name@,
    {
        Error::NginxFormatNotFound { format_name: format_name.to_owned() }
    }

    /// Build an `NginxConfigError` error with the given description.
    pub fn nginx_config_error(message: &str) -> (e: Error)
        ensures
            e matches Error::NginxConfigError { message: m } && m@ == message@,
    {
        Error::NginxConfigError { message: message.to_owned() }
    }
}

} // verus!

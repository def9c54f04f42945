use crate::utils::{decimal_string, render_of, spec_decimal, EvalContext};
use vstd::prelude::*;
use vstd::string::StringExecFns;

verus! {

/// The closed taxonomy of failures. Variants that point into the source tree
/// or the archive layout carry an [`EvalContext`]; variants raised by raw
/// file operations carry the path and the underlying message instead.
#[derive(Debug)]
pub enum ErrorType {
    UnknownArg,
    InvalidInput(String),
    FailedToOpenInput { path: String, error: String },
    InvalidFileType,
    FailedToCompressData(EvalContext, String),
    InvalidMetadata(EvalContext),
    UnknownVersion,
    InvalidEntryName(EvalContext),
    InvalidEntryData(EvalContext),
    InvalidEntryType(EvalContext, u8),
    UnableToCreateDirectory(String),
    ErrorWritingFile { path: String, error: String },
    ErrorReadingFile { path: String, error: String },
    ErrorWritingMetadata(EvalContext, String),
    ErrorReadingMetadata(EvalContext, String),
}

/// The process exit code each failure kind maps to; the mapping is part of
/// the interface and is fixed.
pub open spec fn spec_exit_code(e: ErrorType) -> i32 {
    match e {
        ErrorType::UnknownArg => -1i32,
        ErrorType::InvalidInput(_) => -1i32,
        ErrorType::FailedToOpenInput { .. } => -1i32,
        ErrorType::InvalidFileType => -1i32,
        ErrorType::UnknownVersion => 1i32,
        ErrorType::InvalidMetadata(_) => 2i32,
        ErrorType::FailedToCompressData(_, _) => -2i32,
        ErrorType::InvalidEntryName(_) => 100i32,
        ErrorType::InvalidEntryData(_) => 101i32,
        ErrorType::InvalidEntryType(_, _) => 102i32,
        ErrorType::UnableToCreateDirectory(_) => 200i32,
        ErrorType::ErrorWritingFile { .. } => 201i32,
        ErrorType::ErrorReadingFile { .. } => 202i32,
        ErrorType::ErrorWritingMetadata(_, _) => 203i32,
        ErrorType::ErrorReadingMetadata(_, _) => 204i32,
    }
}

impl ErrorType {
    /// Wraps the failure kind into a [`CatError`].
    pub fn new(self) -> (r: CatError)
        ensures
            r.error_type == self,
    {
        CatError { error_type: self }
    }
}

/// A single terminal error of a pack or unpack operation.
#[derive(Debug)]
pub struct CatError {
    pub error_type: ErrorType,
}

impl CatError {
    /// The stable process exit code for this error.
    pub fn exit_code(&self) -> (r: i32)
        ensures
            r == spec_exit_code(self.error_type),
    {
        match &self.error_type {
            ErrorType::UnknownArg => -1i32,
            ErrorType::InvalidInput(_) => -1i32,
            ErrorType::FailedToOpenInput { .. } => -1i32,
            ErrorType::InvalidFileType => -1i32,
            ErrorType::UnknownVersion => 1i32,
            ErrorType::InvalidMetadata(_) => 2i32,
            ErrorType::FailedToCompressData(_, _) => -2i32,
            ErrorType::InvalidEntryName(_) => 100i32,
            ErrorType::InvalidEntryData(_) => 101i32,
            ErrorType::InvalidEntryType(_, _) => 102i32,
            ErrorType::UnableToCreateDirectory(_) => 200i32,
            ErrorType::ErrorWritingFile { .. } => 201i32,
            ErrorType::ErrorReadingFile { .. } => 202i32,
            ErrorType::ErrorWritingMetadata(_, _) => 203i32,
            ErrorType::ErrorReadingMetadata(_, _) => 204i32,
        }
    }
}

/// The one-line human-readable message each failure kind renders to.
pub open spec fn spec_message(e: ErrorType) -> Seq<char> {
    match e {
        ErrorType::UnknownArg => "Unknown Argument"@,
        ErrorType::InvalidInput(path) => "Invalid input path '"@ + path@ + "'"@,
        ErrorType::FailedToOpenInput { path, error } => "Failed to read '"@ + path@
            + "' reason: "@ + error@,
        ErrorType::InvalidFileType => "Invalid filetype"@,
        ErrorType::UnknownVersion => "Unknown Version"@,
        ErrorType::InvalidMetadata(c) => "Invalid Metadata at '"@ + render_of(c@) + "'"@,
        ErrorType::FailedToCompressData(c, m) => "Failed to compress data for '"@ + render_of(c@)
            + "' reason: "@ + m@,
        ErrorType::InvalidEntryName(c) => "Invalid filename at '"@ + render_of(c@) + "'"@,
        ErrorType::InvalidEntryData(c) => "Invalid entry data at '"@ + render_of(c@) + "'"@,
        ErrorType::InvalidEntryType(c, b) => "Invalid entry type "@ + spec_decimal(b as int)
            + " at '"@ + render_of(c@) + "'"@,
        ErrorType::UnableToCreateDirectory(d) => "Unable to create directory '"@ + d@ + "'"@,
        ErrorType::ErrorWritingFile { path, error } => "Failed to write '"@ + path@
            + "' reason: "@ + error@,
        ErrorType::ErrorReadingFile { path, error } => "Failed to read '"@ + path@
            + "' reason: "@ + error@,
        ErrorType::ErrorWritingMetadata(c, m) => "Failed to write metadata for '"@ + render_of(c@)
            + "' reason: "@ + m@,
        ErrorType::ErrorReadingMetadata(c, m) => "Failed to read metadata for '"@ + render_of(c@)
            + "' reason: "@ + m@,
    }
}

impl ErrorType {
    /// Renders the failure as its one-line human-readable message.
    pub fn render(&self) -> (r: String)
        ensures
            r@ == spec_message(*self),
    {
        let mut out = String::new();
        match self {
            ErrorType::UnknownArg => {
                out.append("Unknown Argument");
            },
            ErrorType::InvalidInput(path) => {
                out.append("Invalid input path '");
                out.append(path.as_str());
                out.append("'");
            },
            ErrorType::FailedToOpenInput { path, error } => {
                out.append("Failed to read '");
                out.append(path.as_str());
                out.append("' reason: ");
                out.append(error.as_str());
            },
            ErrorType::InvalidFileType => {
                out.append("Invalid filetype");
            },
            ErrorType::UnknownVersion => {
                out.append("Unknown Version");
            },
            ErrorType::InvalidMetadata(c) => {
                out.append("Invalid Metadata at '");
                let rendered = c.render();
                out.append(rendered.as_str());
                out.append("'");
            },
            ErrorType::FailedToCompressData(c, m) => {
                out.append("Failed to compress data for '");
                let rendered = c.render();
                out.append(rendered.as_str());
                out.append("' reason: ");
                out.append(m.as_str());
            },
            ErrorType::InvalidEntryName(c) => {
                out.append("Invalid filename at '");
                let rendered = c.render();
                out.append(rendered.as_str());
                out.append("'");
            },
            ErrorType::InvalidEntryData(c) => {
                out.append("Invalid entry data at '");
                let rendered = c.render();
                out.append(rendered.as_str());
                out.append("'");
            },
            ErrorType::InvalidEntryType(c, b) => {
                out.append("Invalid entry type ");
                let digits = decimal_string(*b as u16);
                out.append(digits.as_str());
                out.append(" at '");
                let rendered = c.render();
                out.append(rendered.as_str());
                out.append("'");
            },
            ErrorType::UnableToCreateDirectory(d) => {
                out.append("Unable to create directory '");
                out.append(d.as_str());
                out.append("'");
            },
            ErrorType::ErrorWritingFile { path, error } => {
                out.append("Failed to write '");
                out.append(path.as_str());
                out.append("' reason: ");
                out.append(error.as_str());
            },
            ErrorType::ErrorReadingFile { path, error } => {
                out.append("Failed to read '");
                out.append(path.as_str());
                out.append("' reason: ");
                out.append(error.as_str());
            },
            ErrorType::ErrorWritingMetadata(c, m) => {
                out.append("Failed to write metadata for '");
                let rendered = c.render();
                out.append(rendered.as_str());
                out.append("' reason: ");
                out.append(m.as_str());
            },
            ErrorType::ErrorReadingMetadata(c, m) => {
                out.append("Failed to read metadata for '");
                let rendered = c.render();
                out.append(rendered.as_str());
                out.append("' reason: ");
                out.append(m.as_str());
            },
        }
        out
    }
}

impl CatError {
    /// Renders the error as its one-line human-readable message.
    pub fn render(&self) -> (r: String)
        ensures
            r@ == spec_message(self.error_type),
    {
        self.error_type.render()
    }
}

/// The result type used throughout the library.
pub type CatResult<T> = Result<T, CatError>;

} // verus!

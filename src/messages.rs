use vstd::prelude::*;
use vstd::string::StringExecFns;

verus! {

/// A general warning.
pub const WRN_GENERAL: i32 = 0x00;
/// A general error.
pub const ERR_GENERAL: i32 = 0x01;
/// A file was not found.
pub const ERR_FILE_NOT_FOUND: i32 = 0x10;
/// A file was not valid.
pub const ERR_FILE_INVALID: i32 = 0x11;
/// A binary was not found.
pub const ERR_BINARY_NOT_FOUND: i32 = 0x20;
/// A binary was not executable.
pub const ERR_BINARY_NOT_EXECUTABLE: i32 = 0x21;
/// A binary did not answer as expected.
pub const ERR_BINARY_INVALID: i32 = 0x22;
/// A module is not implemented.
pub const ERR_MODULE_NOT_IMPLEMENTED: i32 = 0x30;
/// The arguments could not be parsed.
pub const ERR_ARGPARSE: i32 = 0x40;
/// An output file already exists.
pub const ERR_OUTPUT_EXISTS: i32 = 0x50;

/// Verbosity at which warnings are shown.
pub const WARNING_LEVEL: u8 = 2;

/// Verbosity at which errors are shown.
pub const ERROR_LEVEL: u8 = 1;

/// The text of the message for `code` about `object`.
pub open spec fn message_text(code: i32, object: Seq<char>) -> Seq<char> {
    if code == WRN_GENERAL {
        "Warning: "@ + object
    } else if code == ERR_GENERAL {
        "Error: "@ + object
    } else if code == ERR_FILE_NOT_FOUND {
        "File not found: "@ + object
    } else if code == ERR_FILE_INVALID {
        "Invalid file given: "@ + object
    } else if code == ERR_BINARY_NOT_FOUND {
        "Binary not found: "@ + object
    } else if code == ERR_BINARY_NOT_EXECUTABLE {
        "Binary not executable: "@ + object
    } else if code == ERR_BINARY_INVALID {
        "Invalid binary given: "@ + object
    } else if code == ERR_MODULE_NOT_IMPLEMENTED {
        "Module not implemented: "@ + object
    } else if code == ERR_ARGPARSE {
        "Argument parsing error: "@ + object
    } else if code == ERR_OUTPUT_EXISTS {
        "Output file already exists: "@ + object + "; use -o to overwrite"@
    } else {
        "Unknown error"@
    }
}

/// The object of a message, empty when there is none.
pub open spec fn object_of(o: Option<String>) -> Seq<char> {
    match o {
        Some(s) => s@,
        None => Seq::empty(),
    }
}

/// The message for `code` about `object` (see `message_text`).
pub fn build_message(code: i32, object: Option<String>) -> (r: String)
    ensures
        r@ == message_text(code, object_of(object)),
{
    let obj = match object {
        Some(s) => s,
        None => String::new(),
    };
    if code == WRN_GENERAL {
        String::from_str("Warning: ").concat(obj.as_str())
    } else if code == ERR_GENERAL {
        String::from_str("Error: ").concat(obj.as_str())
    } else if code == ERR_FILE_NOT_FOUND {
        String::from_str("File not found: ").concat(obj.as_str())
    } else if code == ERR_FILE_INVALID {
        String::from_str("Invalid file given: ").concat(obj.as_str())
    } else if code == ERR_BINARY_NOT_FOUND {
        String::from_str("Binary not found: ").concat(obj.as_str())
    } else if code == ERR_BINARY_NOT_EXECUTABLE {
        String::from_str("Binary not executable: ").concat(obj.as_str())
    } else if code == ERR_BINARY_INVALID {
        String::from_str("Invalid binary given: ").concat(obj.as_str())
    } else if code == ERR_MODULE_NOT_IMPLEMENTED {
        String::from_str("Module not implemented: ").concat(obj.as_str())
    } else if code == ERR_ARGPARSE {
        String::from_str("Argument parsing error: ").concat(obj.as_str())
    } else if code == ERR_OUTPUT_EXISTS {
        String::from_str("Output file already exists: ").concat(obj.as_str()).concat(
            "; use -o to overwrite",
        )
    } else {
        String::from_str("Unknown error")
    }
}

/// The line to show on the error stream for a message of importance `level`, if
/// the verbosity asks for it.
pub open spec fn shown(level: u8, verbosity: u8, text: Seq<char>) -> Option<Seq<char>> {
    if level <= verbosity {
        Some(text)
    } else {
        None
    }
}

/// The warning line for `code` about `object`, when `verbosity` shows warnings.
pub fn warning(code: i32, object: Option<String>, verbosity: u8) -> (r: Option<String>)
    ensures
        match r {
            Some(s) => shown(WARNING_LEVEL, verbosity, message_text(code, object_of(object)))
                == Some(s@),
            None => shown(WARNING_LEVEL, verbosity, message_text(code, object_of(object))).is_none(),
        },
{
    if WARNING_LEVEL <= verbosity {
        Some(build_message(code, object))
    } else {
        None
    }
}

} // verus!

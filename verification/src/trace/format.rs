//! The encodings a trace file can have, and how the encoding of a file is
//! chosen.

use super::event::{EventModel, TraceEvent};
use super::octets::bytes_eq;
use vstd::prelude::*;

verus! {

/// The encoding of a trace file: pretty text or streaming binary.
#[derive(Debug, Clone, Copy, PartialEq, Eq, Structural)]
pub enum TraceFormat {
    Json,
    Cbor,
}

/// A trace: the events of one execution, in the order in which they were
/// intercepted.
#[derive(Debug, Clone, PartialEq, Eq)]
pub struct TraceFile {
    pub events: Vec<TraceEvent>,
}

impl View for TraceFile {
    type V = Seq<EventModel>;

    open spec fn view(&self) -> Seq<EventModel> {
        self.events.deep_view()
    }
}

/// Why no encoding could be chosen.
#[derive(Debug, Clone, PartialEq, Eq)]
pub enum FormatError {
    /// The format that was asked for is none of the known ones.
    UnsupportedFormat { format: String },
    /// The file's extension names none of the known formats.
    UnsupportedExtension { extension: String },
    /// No format was asked for and the file has no extension.
    NoExtension,
}

/// The extension that `std::path::Path::extension` reads from the text of a
/// path, on the platform the library is built for: a function of the text
/// alone.
pub uninterp spec fn path_extension(path: Seq<char>) -> Option<Seq<char>>;

/// `std::path::Path::extension`: the extension of the path's file name, where
/// it has one that is text.
#[verifier::external_body]
fn extension_of(path: &str) -> (r: Option<String>)
    ensures
        r.deep_view() == path_extension(path@),
{
    std::path::Path::new(path).extension().and_then(|e| e.to_str()).map(|e| e.to_string())
}

/// True when the two texts are the same.
pub fn same_text(a: &str, b: &str) -> (r: bool)
    ensures
        r == (a@ == b@),
{
    proof {
        vstd::utf8::encode_utf8_decode_utf8(a@);
        vstd::utf8::encode_utf8_decode_utf8(b@);
    }
    bytes_eq(a.as_bytes(), b.as_bytes())
}

/// The format that a name stands for.
pub open spec fn format_named(name: Seq<char>) -> Option<TraceFormat> {
    if name == "json"@ {
        Some(TraceFormat::Json)
    } else if name == "cbor"@ {
        Some(TraceFormat::Cbor)
    } else {
        None
    }
}

/// The format of a file: the one that was asked for, or else the one that
/// the file's extension names.
pub open spec fn chosen_format(extension: Option<Seq<char>>, asked: Option<Seq<char>>) -> Option<
    TraceFormat,
> {
    match asked {
        Some(name) => format_named(name),
        None => match extension {
            Some(ext) => format_named(ext),
            None => None,
        },
    }
}

impl TraceFormat {
    /// The format that a name stands for: `json` or `cbor`.
    pub fn from_name(name: &str) -> (r: Option<TraceFormat>)
        ensures
            r == format_named(name@),
    {
        if same_text(name, "json") {
            Some(TraceFormat::Json)
        } else if same_text(name, "cbor") {
            Some(TraceFormat::Cbor)
        } else {
            None
        }
    }

    /// The format of a file with the given extension: the one that was asked
    /// for, where one was, and else the one that the extension names.
    pub fn from_extension_and_option(extension: Option<&str>, format_opt: Option<&str>) -> (r:
        Result<TraceFormat, FormatError>)
        ensures
            match chosen_format(extension.deep_view(), format_opt.deep_view()) {
                Some(format) => r == Ok::<_, FormatError>(format),
                None => match (format_opt, extension) {
                    (Some(name), _) => r matches Err(FormatError::UnsupportedFormat { format })
                        && format@ == name@,
                    (None, Some(ext)) => r matches Err(
                        FormatError::UnsupportedExtension { extension: e },
                    ) && e@ == ext@,
                    (None, None) => r == Err::<TraceFormat, _>(FormatError::NoExtension),
                },
            },
    {
        match format_opt {
            Some(name) => match TraceFormat::from_name(name) {
                Some(format) => Ok(format),
                None => Err(FormatError::UnsupportedFormat { format: name.to_owned() }),
            },
            None => match extension {
                Some(ext) => match TraceFormat::from_name(ext) {
                    Some(format) => Ok(format),
                    None => Err(FormatError::UnsupportedExtension { extension: ext.to_owned() }),
                },
                None => Err(FormatError::NoExtension),
            },
        }
    }

    /// The format of the file at the given path: the one that was asked for,
    /// where one was, and else the one that the extension of the path names.
    pub fn from_path_and_option(path: &str, format_opt: Option<&str>) -> (r: Result<
        TraceFormat,
        FormatError,
    >)
        ensures
            match chosen_format(path_extension(path@), format_opt.deep_view()) {
                Some(format) => r == Ok::<_, FormatError>(format),
                None => match (format_opt, path_extension(path@)) {
                    (Some(name), _) => r matches Err(FormatError::UnsupportedFormat { format })
                        && format@ == name@,
                    (None, Some(ext)) => r matches Err(
                        FormatError::UnsupportedExtension { extension: e },
                    ) && e@ == ext,
                    (None, None) => r == Err::<TraceFormat, _>(FormatError::NoExtension),
                },
            },
    {
        match format_opt {
            Some(_) => TraceFormat::from_extension_and_option(None, format_opt),
            None => {
                let extension = extension_of(path);
                match &extension {
                    Some(ext) => TraceFormat::from_extension_and_option(Some(ext.as_str()), None),
                    None => TraceFormat::from_extension_and_option(None, None),
                }
            },
        }
    }
}

} // verus!

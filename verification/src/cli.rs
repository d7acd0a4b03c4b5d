use vstd::prelude::*;

verus! {

/// The command-line surface of the tool, mirrored by the front end.
pub struct Args {
    pub max_count: usize,
    pub track_number: Option<u64>,
    pub max_distance: Option<usize>,
    pub command: Commands,
}

pub enum Commands {
    ListTracks { mkv_path: String },
    List { file_type: FileType, input_path: String },
    Dump { dump_type: DumpType, mkv_path: String, output_path: String },
    Match { mkv_path: String, reference_path: String },
}

#[derive(Clone, Copy, Debug, PartialEq, Eq, Structural)]
pub enum DumpType {
    Png,
    Bgra8,
    Block,
}

/// The rejected word, kept for the front end's message.
pub struct DumpTypeParseError(pub String);

impl DumpTypeParseError {
    pub fn message(&self) -> (r: &str)
        ensures
            r@ == self.0@,
    {
        self.0.as_str()
    }
}

impl DumpType {
    /// The dump kind a word names.
    pub fn from_str(s: &str) -> (r: Result<DumpType, DumpTypeParseError>)
        ensures
            match r {
                Ok(d) => (s@ == "png"@ && d is Png) || (s@ == "bgra8"@ && d is Bgra8) || (s@
                    == "block"@ && d is Block),
                Err(e) => s@ != "png"@ && s@ != "bgra8"@ && s@ != "block"@ && e.0@ == s@,
            },
    {
        if crate::text::str_eq(s, "png") {
            Ok(DumpType::Png)
        } else if crate::text::str_eq(s, "bgra8") {
            Ok(DumpType::Bgra8)
        } else if crate::text::str_eq(s, "block") {
            Ok(DumpType::Block)
        } else {
            Err(DumpTypeParseError(s.to_owned()))
        }
    }
}

#[derive(Clone, Copy, Debug, PartialEq, Eq, Structural)]
pub enum FileType {
    Mkv,
    Srt,
}

/// The rejected word, kept for the front end's message.
pub struct FileTypeParseError(pub String);

impl FileTypeParseError {
    pub fn message(&self) -> (r: &str)
        ensures
            r@ == self.0@,
    {
        self.0.as_str()
    }
}

impl FileType {
    /// The input kind a word names.
    pub fn from_str(s: &str) -> (r: Result<FileType, FileTypeParseError>)
        ensures
            match r {
                Ok(d) => (s@ == "mkv"@ && d is Mkv) || (s@ == "srt"@ && d is Srt),
                Err(e) => s@ != "mkv"@ && s@ != "srt"@ && e.0@ == s@,
            },
    {
        if crate::text::str_eq(s, "mkv") {
            Ok(FileType::Mkv)
        } else if crate::text::str_eq(s, "srt") {
            Ok(FileType::Srt)
        } else {
            Err(FileTypeParseError(s.to_owned()))
        }
    }
}

} // verus!

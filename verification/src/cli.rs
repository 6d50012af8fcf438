//! The command-line surface, as plain values: the parsed arguments, the
//! payload compression choice, and the reading of the automatic-dependency
//! mode value.  Flag syntax and help text are the binary's concern; the
//! meaning of each value is decided here.

use vstd::prelude::*;

use crate::config::ExtraMetadataSource;
use crate::strutil::str_eq;
use crate::strutil::until_char;
use crate::config::split_metadata_overwrite;

verus! {

/// The payload compression of the produced package.
#[derive(Debug, Clone, Copy, PartialEq, Eq, Structural)]
pub enum Compression {
    Uncompressed,
    Gzip,
    Zstd,
    Xz,
}

/// The automatic dependency processing mode, as named on the command line.
#[derive(Debug, Clone, PartialEq, Eq)]
pub enum AutoReqMode {
    Auto,
    Disabled,
    Builtin,
    FindRequires,
    Script(String),
}

/// The arguments of one packaging run.
#[derive(Debug, Clone)]
pub struct Cli {
    /// Target architecture of the generated package.
    pub arch: Option<String>,
    /// Output file or directory.
    pub output: Option<String>,
    /// The workspace crate to package.
    pub package: Option<String>,
    /// Automatic dependency processing mode.
    pub auto_req: AutoReqMode,
    /// Sub-directory name for all generated artifacts.
    pub target: Option<String>,
    /// Directory of all generated artifacts.
    pub target_dir: Option<String>,
    /// Build profile for packaging.
    pub profile: String,
    /// Compression type of the package payload.
    pub payload_compress: Compression,
    /// Clamp for file modification times and the build time, in seconds
    /// since the epoch.
    pub source_date: Option<u32>,
    /// `--metadata-overwrite` values, in order.
    pub metadata_overwrite: Vec<String>,
    /// `--set-metadata` values, in order.
    pub set_metadata: Vec<String>,
    /// `--variant` values, in order.
    pub variant: Vec<String>,
}

/// An `ExtraMetadataSource` that reads the file and branch a
/// `--metadata-overwrite` value names.
pub open spec fn is_file_source(src: ExtraMetadataSource, v: Seq<char>) -> bool {
    match src {
        ExtraMetadataSource::File(f, b) => {
            &&& f@ == until_char(v, '#')
            &&& if until_char(v, '#').len() < v.len() {
                b matches Some(br) && br@ == v.skip(until_char(v, '#').len() + 1 as int)
            } else {
                b is None
            }
        },
        _ => false,
    }
}

impl Cli {
    /// The extra metadata sources the arguments name: each
    /// `--metadata-overwrite` value as a file source split at `#`, then each
    /// `--set-metadata` value as TOML text, then each `--variant` value.
    pub fn extra_metadata(&self) -> (r: Vec<ExtraMetadataSource>)
        ensures
            r@.len() == self.metadata_overwrite@.len() + self.set_metadata@.len()
                + self.variant@.len(),
            forall|i: int|
                0 <= i < self.metadata_overwrite@.len() ==> is_file_source(
                    #[trigger] r@[i],
                    self.metadata_overwrite@[i]@,
                ),
            forall|i: int|
                0 <= i < self.set_metadata@.len() ==> ((#[trigger] r@[self.metadata_overwrite@.len()
                    + i]) matches ExtraMetadataSource::Text(t) && t@ == self.set_metadata@[i]@),
            forall|i: int|
                0 <= i < self.variant@.len() ==> ((#[trigger] r@[self.metadata_overwrite@.len()
                    + self.set_metadata@.len() + i]) matches ExtraMetadataSource::Variant(t) && t@
                    == self.variant@[i]@),
    {
        let mut out: Vec<ExtraMetadataSource> = Vec::new();
        let n_file = self.metadata_overwrite.len();
        let mut i: usize = 0;
        while i < n_file
            invariant
                n_file == self.metadata_overwrite@.len(),
                0 <= i <= n_file,
                out@.len() == i,
                forall|j: int|
                    0 <= j < i ==> is_file_source(#[trigger] out@[j], self.metadata_overwrite@[j]@),
            decreases n_file - i,
        {
            let (file, branch) = split_metadata_overwrite(self.metadata_overwrite[i].as_str());
            out.push(ExtraMetadataSource::File(file, branch));
            proof {
                crate::strutil::lemma_until_char_props(self.metadata_overwrite@[i as int]@, '#');
                assert(is_file_source(out@[i as int], self.metadata_overwrite@[i as int]@));
            }
            i = i + 1;
        }
        let n_text = self.set_metadata.len();
        let mut i: usize = 0;
        while i < n_text
            invariant
                n_file == self.metadata_overwrite@.len(),
                n_text == self.set_metadata@.len(),
                0 <= i <= n_text,
                out@.len() == n_file + i,
                forall|j: int|
                    0 <= j < n_file ==> is_file_source(
                        #[trigger] out@[j],
                        self.metadata_overwrite@[j]@,
                    ),
                forall|j: int|
                    0 <= j < i ==> ((#[trigger] out@[n_file + j]) matches ExtraMetadataSource::Text(
                        t,
                    ) && t@ == self.set_metadata@[j]@),
            decreases n_text - i,
        {
            out.push(ExtraMetadataSource::Text(self.set_metadata[i].clone()));
            i = i + 1;
        }
        let n_var = self.variant.len();
        let mut i: usize = 0;
        while i < n_var
            invariant
                n_file == self.metadata_overwrite@.len(),
                n_text == self.set_metadata@.len(),
                n_var == self.variant@.len(),
                0 <= i <= n_var,
                out@.len() == n_file + n_text + i,
                forall|j: int|
                    0 <= j < n_file ==> is_file_source(
                        #[trigger] out@[j],
                        self.metadata_overwrite@[j]@,
                    ),
                forall|j: int|
                    0 <= j < n_text ==> ((#[trigger] out@[n_file + j]) matches
                        ExtraMetadataSource::Text(t) && t@ == self.set_metadata@[j]@),
                forall|j: int|
                    0 <= j < i ==> ((#[trigger] out@[n_file + n_text + j]) matches
                        ExtraMetadataSource::Variant(t) && t@ == self.variant@[j]@),
            decreases n_var - i,
        {
            out.push(ExtraMetadataSource::Variant(self.variant[i].clone()));
            i = i + 1;
        }
        out
    }
}

impl Default for Cli {
    /// The arguments of a bare invocation: automatic dependency discovery,
    /// the `release` profile, zstd payload compression, and nothing else
    /// set.
    fn default() -> (r: Self)
        ensures
            r.arch is None,
            r.output is None,
            r.package is None,
            r.auto_req == AutoReqMode::Auto,
            r.target is None,
            r.target_dir is None,
            r.profile@ == "release"@,
            r.payload_compress == Compression::Zstd,
            r.source_date is None,
            r.metadata_overwrite@.len() == 0,
            r.set_metadata@.len() == 0,
            r.variant@.len() == 0,
    {
        Cli {
            arch: None,
            output: None,
            package: None,
            auto_req: AutoReqMode::Auto,
            target: None,
            target_dir: None,
            profile: String::from_str("release"),
            payload_compress: Compression::Zstd,
            source_date: None,
            metadata_overwrite: Vec::new(),
            set_metadata: Vec::new(),
            variant: Vec::new(),
        }
    }
}

/// Reads `--auto-req` values.  The keywords name their modes; any other
/// value is the path of an external dependency-finder program.
#[derive(Debug, Clone)]
pub struct AutoReqModeParser;

/// The mode a textual `--auto-req` value names.
pub open spec fn parses_to(v: Seq<char>, r: AutoReqMode) -> bool {
    match r {
        AutoReqMode::Auto => v == "auto"@,
        AutoReqMode::Disabled => v == "disabled"@ || v == "no"@,
        AutoReqMode::Builtin => v == "builtin"@,
        AutoReqMode::FindRequires => v == "find-requires"@,
        AutoReqMode::Script(p) => p@ == v && v != "auto"@ && v != "disabled"@ && v != "no"@ && v
            != "builtin"@ && v != "find-requires"@,
    }
}

impl AutoReqModeParser {
    /// The mode `value` names.
    pub fn parse(value: &str) -> (r: AutoReqMode)
        ensures
            parses_to(value@, r),
    {
        if str_eq(value, "auto") {
            AutoReqMode::Auto
        } else if str_eq(value, "disabled") || str_eq(value, "no") {
            AutoReqMode::Disabled
        } else if str_eq(value, "builtin") {
            AutoReqMode::Builtin
        } else if str_eq(value, "find-requires") {
            AutoReqMode::FindRequires
        } else {
            AutoReqMode::Script(value.to_owned())
        }
    }
}

} // verus!

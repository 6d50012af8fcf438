//! Where the build places its artifacts: the target directory, an optional
//! target triple and a build profile, and how they combine into the paths and
//! the package architecture the packaging step uses.

use vstd::prelude::*;

use crate::cli::Cli;
use crate::strutil::path_join;
use crate::strutil::path_join_str;
use crate::strutil::str_eq;
use crate::strutil::until_char;
use crate::strutil::until_char_str;

verus! {

/// The artifact layout of one build, as the command line described it.  When
/// `target_dir` is absent the conventional `target` directory is assumed; the
/// caller resolves any environment override into `target_dir` beforehand.
#[derive(Debug, Clone)]
pub struct BuildTarget {
    pub target_dir: Option<String>,
    pub target: Option<String>,
    pub profile: String,
    pub arch: Option<String>,
}

/// The directory that holds all build artifacts.
pub open spec fn spec_build_target_path(bt: BuildTarget) -> Seq<char> {
    match bt.target_dir {
        Some(d) => d@,
        None => "target"@,
    }
}

/// The directory that holds the artifacts of one profile: the target
/// directory, then the target triple when one is set, then `dir_name`.
pub open spec fn spec_target_path(bt: BuildTarget, dir_name: Seq<char>) -> Seq<char> {
    match bt.target {
        Some(t) => path_join(path_join(spec_build_target_path(bt), t@), dir_name),
        None => path_join(spec_build_target_path(bt), dir_name),
    }
}

/// The RPM architecture label for a raw architecture name: the handful of
/// names whose RPM convention differs are translated, all others pass
/// through.
pub open spec fn spec_arch_alias(raw: Seq<char>) -> Seq<char> {
    if raw == "x86"@ {
        "i586"@
    } else if raw == "arm"@ {
        "armhfp"@
    } else if raw == "powerpc"@ {
        "ppc"@
    } else if raw == "powerpc64"@ {
        "ppc64"@
    } else {
        raw
    }
}

/// The package architecture: an explicit `arch` wins; otherwise the leading
/// component of the target triple, or the host's architecture when no triple
/// is set, passed through the RPM alias table.
pub open spec fn spec_binary_arch(bt: BuildTarget, host_arch: Seq<char>) -> Seq<char> {
    match bt.arch {
        Some(a) => a@,
        None => {
            let raw = match bt.target {
                Some(t) => until_char(t@, '-'),
                None => host_arch,
            };
            spec_arch_alias(raw)
        },
    }
}

/// Clones an optional string, field for field.
fn clone_opt_string(o: &Option<String>) -> (r: Option<String>)
    ensures
        r == *o,
{
    match o {
        Some(s) => Some(s.clone()),
        None => None,
    }
}

impl BuildTarget {
    /// The build layout the command-line arguments describe.
    pub fn new(args: &Cli) -> (r: Self)
        ensures
            r.target_dir == args.target_dir,
            r.target == args.target,
            r.profile == args.profile,
            r.arch == args.arch,
    {
        BuildTarget {
            target_dir: clone_opt_string(&args.target_dir),
            target: clone_opt_string(&args.target),
            profile: args.profile.clone(),
            arch: clone_opt_string(&args.arch),
        }
    }

    /// The build profile being packaged.
    pub fn profile(&self) -> (r: &str)
        ensures
            r@ == self.profile@,
    {
        self.profile.as_str()
    }

    /// The directory that holds all build artifacts.
    pub fn build_target_path(&self) -> (r: String)
        ensures
            r@ == spec_build_target_path(*self),
    {
        match &self.target_dir {
            Some(d) => d.clone(),
            None => {
                let r = String::from_str("target");
                r
            },
        }
    }

    /// The directory that holds the artifacts named `dir_name`.
    pub fn target_path(&self, dir_name: &str) -> (r: String)
        ensures
            r@ == spec_target_path(*self, dir_name@),
    {
        let base = self.build_target_path();
        match &self.target {
            Some(t) => {
                let with_triple = path_join_str(base.as_str(), t.as_str());
                path_join_str(with_triple.as_str(), dir_name)
            },
            None => path_join_str(base.as_str(), dir_name),
        }
    }

    /// The architecture label the package carries.
    pub fn binary_arch(&self, host_arch: &str) -> (r: String)
        ensures
            r@ == spec_binary_arch(*self, host_arch@),
    {
        match &self.arch {
            Some(a) => a.clone(),
            None => {
                let raw: String = match &self.target {
                    Some(t) => {
                        let head = until_char_str(t.as_str(), '-');
                        head.to_owned()
                    },
                    None => host_arch.to_owned(),
                };
                if str_eq(raw.as_str(), "x86") {
                    String::from_str("i586")
                } else if str_eq(raw.as_str(), "arm") {
                    String::from_str("armhfp")
                } else if str_eq(raw.as_str(), "powerpc") {
                    String::from_str("ppc")
                } else if str_eq(raw.as_str(), "powerpc64") {
                    String::from_str("ppc64")
                } else {
                    raw
                }
            },
        }
    }
}

/// Where the built package file belongs: inside an output directory under the
/// package's file name, at an output path verbatim, or, when no output is
/// named, under `generate-rpm` in the build's target path.  The caller
/// reports in `output_is_dir` whether the named output is a directory.
pub fn determine_output_dir(
    output: Option<&String>,
    output_is_dir: bool,
    file_name: &str,
    build_target: &BuildTarget,
) -> (r: String)
    ensures
        r@ == match output {
            Some(p) => if output_is_dir {
                path_join(p@, file_name@)
            } else {
                p@
            },
            None => path_join(spec_target_path(*build_target, "generate-rpm"@), file_name@),
        },
{
    match output {
        Some(p) => {
            if output_is_dir {
                path_join_str(p.as_str(), file_name)
            } else {
                p.clone()
            }
        },
        None => {
            let dir = build_target.target_path("generate-rpm");
            path_join_str(dir.as_str(), file_name)
        },
    }
}

} // verus!

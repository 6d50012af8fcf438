//! One packaged file: where it comes from in the build tree, where it is
//! installed, and its ownership, mode and classification flags.  Reading the
//! asset tables that describe these files, and probing the filesystem, is
//! the binary's part; the path arithmetic and the mode word are decided
//! here.

use vstd::prelude::*;

use crate::build_target::spec_target_path;
use crate::build_target::BuildTarget;
use crate::error::ConfigError;
use crate::strutil::path_join;
use crate::strutil::path_join_str;
use crate::strutil::starts_with_seq;
use crate::strutil::str_eq;
use crate::strutil::str_starts_with;

verus! {

/// One file of the package.
#[derive(Debug, Clone, PartialEq, Eq)]
pub struct FileInfo {
    pub source: String,
    pub dest: String,
    pub user: Option<String>,
    pub group: Option<String>,
    pub mode: Option<usize>,
    pub config: bool,
    pub config_noreplace: bool,
    pub doc: bool,
    pub caps: Option<String>,
}

/// The artifact directory name of a profile: the `dev` profile builds into
/// `debug`, every other profile into a directory of its own name.
pub open spec fn spec_profile_dir(bt: BuildTarget) -> Seq<char> {
    if bt.profile@ == "dev"@ {
        "debug"@
    } else {
        bt.profile@
    }
}

/// An asset source path, redirected into the configured build layout: a
/// path under the conventional `target/release/` or `target/<profile>/`
/// prefix is rebased onto the build's actual target path; any other path
/// stays as written.
pub open spec fn spec_asset_rel_path(asset: Seq<char>, bt: BuildTarget) -> Seq<char> {
    let dir = spec_profile_dir(bt);
    let conventional = "target/release/"@;
    let profiled = "target/"@ + dir + "/"@;
    if starts_with_seq(asset, conventional) {
        path_join(spec_target_path(bt, dir), asset.skip(conventional.len() as int))
    } else if starts_with_seq(asset, profiled) {
        path_join(spec_target_path(bt, dir), asset.skip(profiled.len() as int))
    } else {
        asset
    }
}

/// The artifact directory name of the configured profile, executably.
fn profile_dir<'a>(build_target: &'a BuildTarget) -> (r: &'a str)
    ensures
        r@ == spec_profile_dir(*build_target),
{
    if str_eq(build_target.profile(), "dev") {
        "debug"
    } else {
        build_target.profile()
    }
}

/// An asset source path redirected into the configured build layout,
/// executably.
pub fn get_asset_rel_path(asset: &str, build_target: &BuildTarget) -> (r: String)
    ensures
        r@ == spec_asset_rel_path(asset@, *build_target),
{
    let dir = profile_dir(build_target);
    let mut profiled = String::from_str("target/");
    profiled.append(dir);
    profiled.append("/");
    let n = asset.unicode_len();
    if str_starts_with(asset, "target/release/") {
        let plen = "target/release/".unicode_len();
        let rel = asset.substring_char(plen, n);
        proof {
            assert(rel@ =~= asset@.skip("target/release/"@.len() as int));
        }
        let base = build_target.target_path(dir);
        path_join_str(base.as_str(), rel)
    } else if str_starts_with(asset, profiled.as_str()) {
        let plen = profiled.as_str().unicode_len();
        let rel = asset.substring_char(plen, n);
        proof {
            assert(rel@ =~= asset@.skip(profiled@.len() as int));
        }
        let base = build_target.target_path(dir);
        path_join_str(base.as_str(), rel)
    } else {
        asset.to_owned()
    }
}

/// The value of a sequence of octal digits, most significant first.
pub open spec fn spec_octal_value(s: Seq<char>) -> int
    decreases s.len(),
{
    if s.len() == 0 {
        0
    } else {
        spec_octal_value(s.drop_last()) * 8 + (s.last() as int - '0' as int)
    }
}

/// Whether `s` is a well-formed octal numeral that fits the platform's word.
pub open spec fn spec_octal_valid(s: Seq<char>) -> bool {
    &&& s.len() > 0
    &&& forall|j: int|
        0 <= j < s.len() ==> '0' as int <= #[trigger] s[j] as int <= '7' as int
    &&& spec_octal_value(s) <= usize::MAX
}

/// A longer octal numeral never has a smaller value.
proof fn lemma_octal_value_monotonic(s: Seq<char>, i: int)
    requires
        0 <= i <= s.len(),
        forall|j: int| 0 <= j < s.len() ==> '0' as int <= #[trigger] s[j] as int <= '7' as int,
    ensures
        spec_octal_value(s.take(i)) <= spec_octal_value(s),
        spec_octal_value(s) >= 0,
    decreases s.len(),
{
    if s.len() == 0 {
        assert(s.take(i) =~= s);
    } else {
        let d = s.drop_last();
        assert forall|j: int| 0 <= j < d.len() implies '0' as int <= #[trigger] d[j] as int <= '7'
            as int by {
            assert(d[j] == s[j]);
        }
        lemma_octal_value_monotonic(d, if i <= d.len() {
            i
        } else {
            d.len() as int
        });
        if i <= d.len() {
            assert(s.take(i) =~= d.take(i));
        } else {
            assert(s.take(i) =~= s);
        }
        assert(spec_octal_value(s) == spec_octal_value(d) * 8 + (s.last() as int - '0' as int));
    }
}

/// Reads an octal numeral; mirrors `usize::from_str_radix(s, 8)` for plain
/// digit strings.  Nothing is returned for an empty string, a non-digit, or
/// a value beyond the platform's word.
pub fn parse_octal(s: &str) -> (r: Option<usize>)
    ensures
        r matches Some(v) ==> spec_octal_valid(s@) && v == spec_octal_value(s@),
        r is None ==> !spec_octal_valid(s@),
{
    let n = s.unicode_len();
    if n == 0 {
        return None;
    }
    let mut v: usize = 0;
    let mut i: usize = 0;
    proof {
        assert(s@.take(0) =~= Seq::<char>::empty());
    }
    while i < n
        invariant
            n == s@.len(),
            0 <= i <= n,
            forall|j: int| 0 <= j < i ==> '0' as int <= #[trigger] s@[j] as int <= '7' as int,
            v == spec_octal_value(s@.take(i as int)),
        decreases n - i,
    {
        let c = s.get_char(i);
        let u = c as u32;
        if u < '0' as u32 || u > '7' as u32 {
            proof {
                vstd::utf8::char_u32_cast(c, u);
                assert(!('0' as int <= s@[i as int] as int <= '7' as int));
            }
            return None;
        }
        let d = (u - ('0' as u32)) as usize;
        if v > (usize::MAX - d) / 8 {
            proof {
                assert(spec_octal_value(s@.take(i + 1)) == v * 8 + d) by {
                    assert(s@.take(i + 1).drop_last() =~= s@.take(i as int));
                    assert(s@.take(i + 1).last() == s@[i as int]);
                }
                assert(v * 8 + d > usize::MAX);
                if forall|j: int|
                    0 <= j < s@.len() ==> '0' as int <= #[trigger] s@[j] as int <= '7' as int {
                    lemma_octal_value_monotonic(s@, i + 1);
                    assert(spec_octal_value(s@) >= spec_octal_value(s@.take(i + 1)));
                }
            }
            return None;
        }
        proof {
            assert(s@.take(i + 1).drop_last() =~= s@.take(i as int));
            assert(s@.take(i + 1).last() == s@[i as int]);
        }
        v = v * 8 + d;
        i = i + 1;
    }
    proof {
        assert(s@.take(n as int) =~= s@);
        lemma_octal_value_monotonic(s@, n as int);
    }
    Some(v)
}

/// The mode word a packaged file carries, from its configured octal `mode`
/// string: a value that already names a file type is kept as given; a bare
/// permission value is completed with the directory type for a source path
/// ending in `/`, and with the regular-file type otherwise.  Nothing is
/// returned when the string is not a valid octal numeral.
pub fn file_mode_bits(mode: &str, source: &str) -> (r: Option<usize>)
    ensures
        r matches Some(v) ==> spec_octal_valid(mode@) && v == ({
            let m = spec_octal_value(mode@) as usize;
            if m & 0o170000 != 0 {
                m
            } else if source@.len() > 0 && source@.last() == '/' {
                0o040000 | m
            } else {
                0o100000 | m
            }
        }),
        r is None ==> !spec_octal_valid(mode@),
{
    let m = match parse_octal(mode) {
        Some(m) => m,
        None => {
            return None;
        },
    };
    if m & 0o170000 != 0 {
        return Some(m);
    }
    let n = source.unicode_len();
    if n > 0 && source.get_char(n - 1) == '/' {
        Some(0o040000 | m)
    } else {
        Some(0o100000 | m)
    }
}

impl FileInfo {
    /// Where this file's bytes are found: its source path rebased into the
    /// build layout, taken directly when a file exists there
    /// (`source_exists`), else relative to the manifest's directory when a
    /// file exists there (`under_parent_exists`); with no file at either
    /// place the asset is missing.  The caller probes the two places: the
    /// rebased path itself, and that path joined under `parent`.
    pub fn generate_rpm_file_path(
        &self,
        build_target: &BuildTarget,
        parent: &str,
        source_exists: bool,
        under_parent_exists: bool,
    ) -> (r: Result<String, ConfigError>)
        ensures
            ({
                let src = spec_asset_rel_path(self.source@, *build_target);
                match r {
                    Ok(p) => (source_exists && p@ == src) || (!source_exists && !(src.len() > 0
                        && src[0] == '/') && under_parent_exists && p@ == path_join(parent@, src)),
                    Err(e) => !source_exists && ((src.len() > 0 && src[0] == '/')
                        || !under_parent_exists) && (e matches ConfigError::AssetFileNotFound(p)
                        && p@ == self.source@),
                }
            }),
    {
        let src = get_asset_rel_path(self.source.as_str(), build_target);
        if source_exists {
            return Ok(src);
        }
        let relative = if src.as_str().unicode_len() > 0 {
            src.as_str().get_char(0) != '/'
        } else {
            true
        };
        if relative && under_parent_exists {
            Ok(path_join_str(parent, src.as_str()))
        } else {
            Err(ConfigError::AssetFileNotFound(self.source.clone()))
        }
    }
}

} // verus!

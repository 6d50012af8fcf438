//! The configuration values the packaging run works from: where extra
//! metadata comes from, how a dotted bare key addresses a branch of a TOML
//! document, and the bundles of settings the package builder consumes.

use vstd::prelude::*;

use crate::auto_req::AutoReqMode;
use crate::build_target::BuildTarget;
use crate::cli::Cli;
use crate::error::DottedBareKeyLexError;
use crate::strutil::join_with;
use crate::strutil::until_char;
use crate::strutil::until_char_str;
use crate::strutil::lemma_until_char_props;

verus! {

/// Where one piece of extra package metadata comes from: a TOML file
/// (optionally a named branch of it), literal TOML text, or a named variant
/// of the manifest's own metadata.
#[derive(Debug, Clone, PartialEq, Eq)]
pub enum ExtraMetadataSource {
    File(String, Option<String>),
    Text(String),
    Variant(String),
}

/// The settings the RPM builder takes for one run.
#[derive(Debug, Clone)]
pub struct RpmBuilderConfig {
    pub build_target: BuildTarget,
    pub auto_req_mode: AutoReqMode,
    pub payload_compress: String,
}

impl RpmBuilderConfig {
    /// Bundles the builder's settings.
    pub fn new(build_target: BuildTarget, auto_req_mode: AutoReqMode, payload_compress: String) -> (r:
        RpmBuilderConfig)
        ensures
            r.build_target == build_target,
            r.auto_req_mode == auto_req_mode,
            r.payload_compress == payload_compress,
    {
        RpmBuilderConfig { build_target, auto_req_mode, payload_compress }
    }
}

/// The build layout together with the full command line, as the package
/// builder consumes them.
#[derive(Debug, Clone)]
pub struct BuilderConfig {
    pub build_target: BuildTarget,
    pub args: Cli,
}

impl BuilderConfig {
    /// Bundles the builder's inputs.
    pub fn new(build_target: BuildTarget, args: Cli) -> (r: BuilderConfig)
        ensures
            r.build_target == build_target,
            r.args == args,
    {
        BuilderConfig { build_target, args }
    }
}

/// A `--metadata-overwrite` value split at its first `#`: the file path, and
/// the dotted branch path behind the `#` when one is given.
pub fn split_metadata_overwrite(value: &str) -> (r: (String, Option<String>))
    ensures
        r.0@ == until_char(value@, '#'),
        until_char(value@, '#').len() < value@.len() ==> (r.1 matches Some(b) && b@ == value@.skip(
            until_char(value@, '#').len() + 1 as int,
        )),
        until_char(value@, '#').len() == value@.len() ==> r.1 is None,
{
    proof {
        lemma_until_char_props(value@, '#');
    }
    let n = value.unicode_len();
    let file = until_char_str(value, '#');
    let flen = file.unicode_len();
    if flen < n {
        let branch = value.substring_char(flen + 1, n);
        proof {
            assert(value@.subrange(flen + 1, n as int) =~= value@.skip(flen + 1));
        }
        (file.to_owned(), Some(branch.to_owned()))
    } else {
        (file.to_owned(), None)
    }
}

/// A character a bare key may contain: ASCII letters, digits, `_` and `-`.
pub open spec fn is_bare_key_char(c: char) -> bool {
    (('a' as u32) <= (c as u32) && (c as u32) <= ('z' as u32)) || (('A' as u32) <= (c as u32) && (c
        as u32) <= ('Z' as u32)) || (('0' as u32) <= (c as u32) && (c as u32) <= ('9' as u32)) || c
        == '_' || c == '-'
}

/// The maximal run of bare-key characters at the start of `s`.
pub open spec fn bare_run(s: Seq<char>) -> Seq<char>
    decreases s.len(),
{
    if s.len() == 0 {
        s
    } else if is_bare_key_char(s[0]) {
        seq![s[0]] + bare_run(s.drop_first())
    } else {
        Seq::empty()
    }
}

/// The leading bare-key run is a prefix of bare-key characters, and ends the
/// input or stands before a character that no bare key contains.
pub proof fn lemma_bare_run_props(s: Seq<char>)
    ensures
        bare_run(s).len() <= s.len(),
        bare_run(s) == s.take(bare_run(s).len() as int),
        forall|j: int| 0 <= j < bare_run(s).len() ==> is_bare_key_char(#[trigger] s[j]),
        bare_run(s).len() < s.len() ==> !is_bare_key_char(s[bare_run(s).len() as int]),
    decreases s.len(),
{
    if s.len() == 0 {
        assert(bare_run(s) =~= s.take(0));
    } else if !is_bare_key_char(s[0]) {
        assert(bare_run(s) =~= s.take(0));
    } else {
        let d = s.drop_first();
        lemma_bare_run_props(d);
        let u = bare_run(s);
        assert(u == seq![s[0]] + bare_run(d));
        assert(u =~= s.take(u.len() as int));
        assert forall|j: int| 0 <= j < u.len() implies is_bare_key_char(s[j]) by {
            if j > 0 {
                assert(s[j] == d[j - 1]);
            }
        }
        if bare_run(d).len() < d.len() {
            assert(s[u.len() as int] == d[bare_run(d).len() as int]);
        }
    }
}

/// The lexer error a non-key character produces: quotes are reported as
/// unsupported quoted keys, a dot as a misplaced joint, anything else as an
/// invalid character.
pub open spec fn key_error_of(c: char) -> DottedBareKeyLexError {
    if c == '"' || c == '\'' {
        DottedBareKeyLexError::QuotedKey(c)
    } else if c == '.' {
        DottedBareKeyLexError::InvalidDotChar
    } else {
        DottedBareKeyLexError::InvalidChar(c)
    }
}

/// What lexing a dotted bare key yields: the keys between the dots, in
/// order, when every key is a non-empty bare-key run and every joint is a
/// single interior dot; otherwise the error of the first offence.
pub open spec fn spec_parse_dotted_bare_keys(s: Seq<char>) -> Result<
    Seq<Seq<char>>,
    DottedBareKeyLexError,
>
    decreases s.len(),
    via spec_parse_dotted_bare_keys_decreases
{
    if s.len() == 0 {
        Ok(Seq::empty())
    } else {
        let key = bare_run(s);
        if key.len() == 0 {
            Err(key_error_of(s[0]))
        } else if key.len() == s.len() {
            Ok(seq![key])
        } else if s[key.len() as int] == '.' {
            if key.len() + 1 == s.len() {
                Err(DottedBareKeyLexError::InvalidDotChar)
            } else {
                match spec_parse_dotted_bare_keys(s.skip(key.len() + 1 as int)) {
                    Ok(rest) => Ok(seq![key] + rest),
                    Err(e) => Err(e),
                }
            }
        } else {
            Err(DottedBareKeyLexError::InvalidChar(s[key.len() as int]))
        }
    }
}

#[via_fn]
proof fn spec_parse_dotted_bare_keys_decreases(s: Seq<char>) {
    if s.len() != 0 {
        lemma_bare_run_props(s);
    }
}

/// Whether `c` is a bare-key character, executably.
fn is_bare_key_char_exec(c: char) -> (b: bool)
    ensures
        b == is_bare_key_char(c),
{
    (('a' as u32) <= (c as u32) && (c as u32) <= ('z' as u32)) || (('A' as u32) <= (c as u32) && (c
        as u32) <= ('Z' as u32)) || (('0' as u32) <= (c as u32) && (c as u32) <= ('9' as u32)) || c
        == '_' || c == '-'
}

/// Lexes a dotted bare key such as `package.metadata.generate-rpm` into its
/// keys.  Exactly the well-formed inputs — non-empty bare keys joined by
/// single dots, or the empty input — are accepted.
pub fn parse_dotted_bare_keys(input: &str) -> (r: Result<Vec<String>, DottedBareKeyLexError>)
    ensures
        match r {
            Ok(keys) => spec_parse_dotted_bare_keys(input@) == Ok::<
                Seq<Seq<char>>,
                DottedBareKeyLexError,
            >(keys.deep_view()),
            Err(e) => spec_parse_dotted_bare_keys(input@) == Err::<
                Seq<Seq<char>>,
                DottedBareKeyLexError,
            >(e),
        },
{
    let n = input.unicode_len();
    let mut keys: Vec<String> = Vec::new();
    let mut pos: usize = 0;
    proof {
        assert(input@.skip(0) =~= input@);
    }
    while pos < n
        invariant
            n == input@.len(),
            0 <= pos <= n,
            spec_parse_dotted_bare_keys(input@) == (match spec_parse_dotted_bare_keys(
                input@.skip(pos as int),
            ) {
                Ok(rest) => Ok::<Seq<Seq<char>>, DottedBareKeyLexError>(keys.deep_view() + rest),
                Err(e) => Err::<Seq<Seq<char>>, DottedBareKeyLexError>(e),
            }),
        decreases n - pos,
    {
        let ghost suf = input@.skip(pos as int);
        // find the end of the bare-key run that starts at pos
        let mut e: usize = pos;
        while e < n && is_bare_key_char_exec(input.get_char(e))
            invariant
                n == input@.len(),
                pos <= e <= n,
                forall|j: int| pos <= j < e ==> is_bare_key_char(#[trigger] input@[j]),
            decreases n - e,
        {
            e = e + 1;
        }
        proof {
            lemma_bare_run_props(suf);
            assert forall|j: int| 0 <= j < e - pos implies is_bare_key_char(suf[j]) by {
                assert(suf[j] == input@[pos + j]);
            }
            if e < n {
                assert(suf[e - pos] == input@[e as int]);
            }
            assert(bare_run(suf) =~= suf.subrange(0, e - pos)) by {
                lemma_bare_run_exact(suf, e - pos);
            }
            assert(suf.subrange(0, e - pos) =~= input@.subrange(pos as int, e as int));
        }
        if e == pos {
            let c = input.get_char(pos);
            let err = if c == '"' || c == '\'' {
                DottedBareKeyLexError::QuotedKey(c)
            } else if c == '.' {
                DottedBareKeyLexError::InvalidDotChar
            } else {
                DottedBareKeyLexError::InvalidChar(c)
            };
            proof {
                assert(suf[0] == input@[pos as int]);
                assert(bare_run(suf).len() == 0);
            }
            return Err(err);
        }
        let key = input.substring_char(pos, e).to_owned();
        proof {
            assert(key@ == bare_run(suf));
            assert(bare_run(suf).len() == e - pos);
        }
        if e == n {
            let ghost before = keys.deep_view();
            keys.push(key);
            proof {
                assert(keys.deep_view() =~= before.push(key@));
                assert(spec_parse_dotted_bare_keys(suf) == Ok::<
                    Seq<Seq<char>>,
                    DottedBareKeyLexError,
                >(seq![key@]));
                assert(before + seq![key@] =~= keys.deep_view());
            }
            pos = e;
        } else {
            let c = input.get_char(e);
            proof {
                assert(suf[e - pos] == input@[e as int]);
            }
            if c == '.' {
                if e + 1 == n {
                    return Err(DottedBareKeyLexError::InvalidDotChar);
                }
                let ghost before = keys.deep_view();
                keys.push(key);
                proof {
                    assert(keys.deep_view() =~= before.push(key@));
                    assert(suf.skip(e - pos + 1) =~= input@.skip(e + 1));
                    let res = spec_parse_dotted_bare_keys(input@.skip(e + 1));
                    if res is Ok {
                        assert(before + (seq![key@] + res->Ok_0) =~= keys.deep_view()
                            + res->Ok_0);
                    }
                }
                pos = e + 1;
            } else {
                return Err(DottedBareKeyLexError::InvalidChar(c));
            }
        }
    }
    proof {
        assert(input@.skip(n as int) =~= Seq::<char>::empty());
        assert(keys.deep_view() + Seq::<Seq<char>>::empty() =~= keys.deep_view());
    }
    Ok(keys)
}

/// A well-formed bare key: non-empty, of bare-key characters alone.
pub open spec fn is_bare_key(k: Seq<char>) -> bool {
    k.len() > 0 && forall|j: int| 0 <= j < k.len() ==> is_bare_key_char(#[trigger] k[j])
}

/// What the lexer accepts it reads faithfully: keys it returns are
/// well-formed bare keys, and joining them with dots recovers the input.
pub proof fn lemma_parse_keys_sound(s: Seq<char>, keys: Seq<Seq<char>>)
    requires
        spec_parse_dotted_bare_keys(s) == Ok::<Seq<Seq<char>>, DottedBareKeyLexError>(keys),
    ensures
        s == join_with(keys, '.'),
        forall|i: int| 0 <= i < keys.len() ==> is_bare_key(#[trigger] keys[i]),
    decreases s.len(),
{
    if s.len() == 0 {
        assert(keys =~= Seq::<Seq<char>>::empty());
        assert(join_with(keys, '.') =~= s);
    } else {
        let key = bare_run(s);
        lemma_bare_run_props(s);
        if key.len() == s.len() {
            assert(keys =~= seq![key]);
            assert(join_with(keys, '.') == key);
            assert(key == s.take(s.len() as int));
            assert(s.take(s.len() as int) =~= s);
        } else {
            let tail = s.skip(key.len() + 1 as int);
            let rest = spec_parse_dotted_bare_keys(tail)->Ok_0;
            lemma_parse_keys_sound(tail, rest);
            assert(keys =~= seq![key] + rest);
            assert(rest.len() >= 1) by {
                if rest.len() == 0 {
                    assert(join_with(rest, '.') =~= Seq::<char>::empty());
                    assert(tail.len() > 0);
                }
            }
            assert(keys.len() >= 2);
            assert(keys[0] == key);
            assert(keys.drop_first() =~= rest);
            assert(join_with(keys, '.') == key + seq!['.'] + join_with(rest, '.'));
            assert(s =~= s.take(key.len() as int) + seq![s[key.len() as int]] + tail);
            assert(s =~= key + seq!['.'] + join_with(rest, '.'));
            assert forall|i: int| 0 <= i < keys.len() implies is_bare_key(#[trigger] keys[i]) by {
                if i > 0 {
                    assert(keys[i] == rest[i - 1]);
                }
            }
        }
    }
}

/// The lexer accepts every dot-joined sequence of well-formed bare keys.
pub proof fn lemma_parse_keys_complete(keys: Seq<Seq<char>>)
    requires
        forall|i: int| 0 <= i < keys.len() ==> is_bare_key(#[trigger] keys[i]),
    ensures
        spec_parse_dotted_bare_keys(join_with(keys, '.')) == Ok::<
            Seq<Seq<char>>,
            DottedBareKeyLexError,
        >(keys),
    decreases keys.len(),
{
    let s = join_with(keys, '.');
    if keys.len() == 0 {
        assert(s.len() == 0);
        assert(spec_parse_dotted_bare_keys(s) == Ok::<Seq<Seq<char>>, DottedBareKeyLexError>(
            Seq::<Seq<char>>::empty(),
        ));
        assert(keys =~= Seq::<Seq<char>>::empty());
    } else if keys.len() == 1 {
        assert(s == keys[0]);
        assert(is_bare_key(keys[0]));
        lemma_bare_run_exact(s, s.len() as int);
        assert(bare_run(s) == s.subrange(0, s.len() as int));
        assert(s.subrange(0, s.len() as int) =~= s);
        assert(seq![s] =~= keys);
    } else {
        let k0 = keys[0];
        let rest = keys.drop_first();
        assert(s == k0 + seq!['.'] + join_with(rest, '.'));
        assert forall|i: int| 0 <= i < rest.len() implies is_bare_key(#[trigger] rest[i]) by {
            assert(rest[i] == keys[i + 1]);
        }
        lemma_parse_keys_complete(rest);
        assert(join_with(rest, '.').len() >= 1) by {
            lemma_join_with_nonempty(rest);
        }
        assert forall|j: int| 0 <= j < k0.len() implies is_bare_key_char(#[trigger] s[j]) by {
            assert(s[j] == k0[j]);
        }
        assert(s[k0.len() as int] == '.');
        assert(!is_bare_key_char('.'));
        lemma_bare_run_exact(s, k0.len() as int);
        assert(bare_run(s) == s.subrange(0, k0.len() as int));
        assert(s.subrange(0, k0.len() as int) =~= k0);
        assert(k0.len() < s.len());
        assert(k0.len() + 1 < s.len());
        assert(s.skip(k0.len() + 1 as int) =~= join_with(rest, '.'));
        assert(seq![k0] + rest =~= keys);
    }
}

/// Joining one or more keys yields at least one character per key.
proof fn lemma_join_with_nonempty(parts: Seq<Seq<char>>)
    requires
        parts.len() >= 1,
        forall|i: int| 0 <= i < parts.len() ==> is_bare_key(#[trigger] parts[i]),
    ensures
        join_with(parts, '.').len() >= parts[0].len(),
        join_with(parts, '.').len() >= 1,
    decreases parts.len(),
{
    if parts.len() > 1 {
        assert forall|i: int|
            0 <= i < parts.drop_first().len() implies is_bare_key(
            #[trigger] parts.drop_first()[i],
        ) by {
            assert(parts.drop_first()[i] == parts[i + 1]);
        }
        lemma_join_with_nonempty(parts.drop_first());
    }
}

/// A prefix of bare-key characters bounded by the end of input or a non-key
/// character is the leading bare-key run.
proof fn lemma_bare_run_exact(s: Seq<char>, k: int)
    requires
        0 <= k <= s.len(),
        forall|j: int| 0 <= j < k ==> is_bare_key_char(#[trigger] s[j]),
        k < s.len() ==> !is_bare_key_char(s[k]),
    ensures
        bare_run(s) == s.subrange(0, k),
    decreases k,
{
    if k == 0 {
        if s.len() != 0 {
            assert(!is_bare_key_char(s[0]));
        }
        assert(bare_run(s) =~= s.subrange(0, 0));
    } else {
        let d = s.drop_first();
        assert forall|j: int| 0 <= j < k - 1 implies is_bare_key_char(d[j]) by {
            assert(d[j] == s[j + 1]);
        }
        if k - 1 < d.len() {
            assert(d[k - 1] == s[k as int]);
        }
        lemma_bare_run_exact(d, k - 1);
        assert(bare_run(s) == seq![s[0]] + bare_run(d));
        assert(seq![s[0]] + d.subrange(0, k - 1) =~= s.subrange(0, k));
    }
}

} // verus!

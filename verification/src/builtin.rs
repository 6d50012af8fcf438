//! The builtin dependency analysis: classifying a file as a dynamically
//! linked ELF object, deriving the architecture marker, parsing the verbose
//! report of the dynamic linker's introspection tool (`ldd -v`) into
//! canonical requirement strings, resolving interpreter scripts from their
//! shebang line, and the per-file policy that combines them.
//!
//! Everything here computes over plain values; reading files, spawning `ldd`
//! and probing the filesystem is the calling binary's part.

use vstd::prelude::*;

use crate::auto_req::insert_require;
use crate::auto_req::merge_requires;
use crate::auto_req::sorted_requires;
use crate::error::AutoReqError;
use crate::strutil::blank;
use crate::strutil::contains_seq;
use crate::strutil::is_blank;
use crate::strutil::is_space;
use crate::strutil::is_space_char;
use crate::strutil::remove_char;
use crate::strutil::remove_char_str;
use crate::strutil::skip_spaces;
use crate::strutil::starts_with_seq;
use crate::strutil::str_contains;
use crate::strutil::str_starts_with;
use crate::strutil::trim;
use crate::strutil::trim_spaces;
use crate::strutil::trim_start;
use crate::strutil::until_char;
use crate::strutil::until_char_str;
use crate::strutil::until_seq;
use crate::strutil::split_on;

verus! {

/// Section type tag of a legacy symbol-hash table (`SHT_HASH`).
pub const SHT_HASH: u32 = 5;

/// Section type tag of a GNU-style hash table (`SHT_GNU_HASH`).
pub const SHT_GNU_HASH: u32 = 0x6ffffff6;

/// Machine code of the Alpha architecture.
pub const EM_ALPHA: u16 = 41;

/// The historic, incorrect Alpha machine code some vendor toolchains wrote.
pub const EM_ALPHA_VENDOR: u16 = 0x9026;

/// What the ELF container header and section headers of a byte image hold:
/// whether the object is 64-bit, its machine code, and the type tags of its
/// sections — or nothing, when the bytes are not a parsable ELF object.
/// This is a function of the bytes alone.
pub uninterp spec fn elf_header_scan(bytes: Seq<u8>) -> Option<(bool, u16, Seq<u32>)>;

/// The raw findings of one ELF header scan.
pub struct ElfScan {
    pub is_64bit: bool,
    pub machine: u16,
    pub section_types: Vec<u32>,
}

/// Relies on `elf::ElfBytes::minimal_parse` and the section-header table's
/// iterator: the header's class and machine code and the sections' type
/// tags are read from the bytes alone; parsing fails exactly on bytes that
/// are not an ELF object.
#[verifier::external_body]
fn parse_elf_header(bytes: &[u8]) -> (r: Option<ElfScan>)
    ensures
        match r {
            Some(s) => elf_header_scan(bytes@) matches Some(h) && h == (
                s.is_64bit,
                s.machine,
                s.section_types@,
            ),
            None => elf_header_scan(bytes@) is None,
        },
{
    let file = match elf::ElfBytes::<elf::endian::AnyEndian>::minimal_parse(bytes) {
        Ok(f) => f,
        Err(_) => return None,
    };
    let section_types = match file.section_headers() {
        Some(table) => table.iter().map(|shdr| shdr.sh_type).collect(),
        None => Vec::new(),
    };
    Some(
        ElfScan {
            is_64bit: matches!(file.ehdr.class, elf::file::Class::ELF64),
            machine: file.ehdr.e_machine,
            section_types,
        },
    )
}

/// Whether `x` occurs in `v`.
fn contains_u32(v: &Vec<u32>, x: u32) -> (b: bool)
    ensures
        b == v@.contains(x),
{
    let len = v.len();
    let mut i: usize = 0;
    while i < len
        invariant
            len == v@.len(),
            0 <= i <= len,
            forall|j: int| 0 <= j < i ==> v@[j] != x,
        decreases len - i,
    {
        if v[i] == x {
            return true;
        }
        i = i + 1;
    }
    false
}

/// What the builtin analysis reads from a dynamically linked binary: word
/// size, machine code, and which symbol-hash sections it carries.
#[derive(Debug, Clone, Copy, PartialEq, Eq, Structural)]
pub struct ElfInfo {
    pub is_64bit: bool,
    pub machine: u16,
    pub got_hash: bool,
    pub got_gnu_hash: bool,
}

/// The descriptor a successful header scan yields.
pub open spec fn spec_elf_info_of(h: (bool, u16, Seq<u32>)) -> ElfInfo {
    ElfInfo {
        is_64bit: h.0,
        machine: h.1,
        got_hash: h.2.contains(SHT_HASH),
        got_gnu_hash: h.2.contains(SHT_GNU_HASH),
    }
}

/// Whether this descriptor carries the 64-bit architecture marker: only
/// 64-bit objects do, and never the Alpha machine codes, which historically
/// had no 64-bit naming convention.
pub open spec fn spec_has_marker(info: ElfInfo) -> bool {
    info.is_64bit && info.machine != EM_ALPHA && info.machine != EM_ALPHA_VENDOR
}

/// The marker suffix of this descriptor: `"(64bit)"` or nothing.
pub open spec fn spec_marker_of(info: ElfInfo) -> Seq<char> {
    if spec_has_marker(info) {
        "(64bit)"@
    } else {
        Seq::empty()
    }
}

impl ElfInfo {
    /// Classifies a file image: its descriptor when the bytes parse as an
    /// ELF object, nothing otherwise.
    pub fn new(bytes: &[u8]) -> (r: Option<ElfInfo>)
        ensures
            match elf_header_scan(bytes@) {
                Some(h) => r == Some(spec_elf_info_of(h)),
                None => r is None,
            },
    {
        let scan = match parse_elf_header(bytes) {
            Some(s) => s,
            None => {
                return None;
            },
        };
        let got_hash = contains_u32(&scan.section_types, SHT_HASH);
        let got_gnu_hash = contains_u32(&scan.section_types, SHT_GNU_HASH);
        Some(
            ElfInfo {
                is_64bit: scan.is_64bit,
                machine: scan.machine,
                got_hash,
                got_gnu_hash,
            },
        )
    }

    /// The architecture marker this binary's requirements carry: `"(64bit)"`
    /// for 64-bit machines, except the Alpha codes, which never adopted the
    /// convention; nothing for 32-bit machines.
    pub fn marker(&self) -> (r: Option<&'static str>)
        ensures
            (r is Some) == spec_has_marker(*self),
            r matches Some(m) ==> m@ == "(64bit)"@,
    {
        if self.is_64bit && self.machine != EM_ALPHA && self.machine != EM_ALPHA_VENDOR {
            Some("(64bit)")
        } else {
            None
        }
    }
}

/// Whether a token the introspection tool printed names a shared library or
/// dynamic loader: it must mention `.so` and begin with a loader or library
/// prefix.
pub open spec fn spec_so_name_ok(name: Seq<char>) -> bool {
    contains_seq(name, ".so"@) && (starts_with_seq(name, "ld."@) || starts_with_seq(name, "ld-"@)
        || starts_with_seq(name, "ld64."@) || starts_with_seq(name, "ld64-"@) || starts_with_seq(
        name,
        "lib"@,
    ))
}

/// Whether `name` passes the soname acceptance test, executably.
pub fn is_dependency_soname(name: &str) -> (b: bool)
    ensures
        b == spec_so_name_ok(name@),
{
    str_contains(name, ".so") && (str_starts_with(name, "ld.") || str_starts_with(name, "ld-")
        || str_starts_with(name, "ld64.") || str_starts_with(name, "ld64-") || str_starts_with(
        name,
        "lib",
    ))
}

/// The first whitespace-delimited token of a report line.
pub open spec fn spec_first_token(l: Seq<char>) -> Seq<char> {
    until_char(skip_spaces(l), ' ')
}

/// The candidate sonames of the unversioned pass: the first token of every
/// line from the report's start up to its first blank line.
pub open spec fn unversioned_cands(ls: Seq<Seq<char>>) -> Seq<Seq<char>>
    decreases ls.len(),
{
    if ls.len() == 0 {
        Seq::empty()
    } else if blank(ls[0]) {
        Seq::empty()
    } else {
        seq![spec_first_token(ls[0])] + unversioned_cands(ls.drop_first())
    }
}

/// The lines after the first one that mentions `pat`; empty when none does.
pub open spec fn after_first_containing(ls: Seq<Seq<char>>, pat: Seq<char>) -> Seq<Seq<char>>
    decreases ls.len(),
{
    if ls.len() == 0 {
        ls
    } else if contains_seq(ls[0], pat) {
        ls.drop_first()
    } else {
        after_first_containing(ls.drop_first(), pat)
    }
}

/// The leading run of lines that mention `pat`.
pub open spec fn while_containing(ls: Seq<Seq<char>>, pat: Seq<char>) -> Seq<Seq<char>>
    decreases ls.len(),
{
    if ls.len() == 0 {
        ls
    } else if contains_seq(ls[0], pat) {
        seq![ls[0]] + while_containing(ls.drop_first(), pat)
    } else {
        Seq::empty()
    }
}

/// A versioned-pass line cut before its ` => ` separator, leading
/// whitespace dropped.
pub open spec fn spec_before_sep(l: Seq<char>) -> Seq<char> {
    until_seq(skip_spaces(l), " => "@)
}

/// The candidate sonames of the versioned pass: after the
/// `Version information:` heading and then the line that names the analyzed
/// file itself, every following line that still holds ` => `, cut before
/// the separator.
pub open spec fn versioned_cands(ls: Seq<Seq<char>>, path: Seq<char>) -> Seq<Seq<char>> {
    while_containing(
        after_first_containing(after_first_containing(ls, "Version information:"@), path),
        " => "@,
    ).map_values(|l: Seq<char>| spec_before_sep(l))
}

/// Every candidate soname of one report: both passes over its lines.
pub open spec fn spec_ldd_candidates(out: Seq<char>, path: Seq<char>) -> Seq<Seq<char>> {
    unversioned_cands(split_on(out, '\n')) + versioned_cands(split_on(out, '\n'), path)
}

/// The marker text of an optional marker.
pub open spec fn marker_seq(marker: Option<&str>) -> Seq<char> {
    match marker {
        Some(m) => m@,
        None => Seq::empty(),
    }
}

/// The requirement strings one candidate emits.  A rejected candidate emits
/// nothing.  A candidate with a parenthesized annotation emits both the
/// unversioned form — its text before the first space, then `()`, then the
/// marker — and the versioned form, its text with all spaces removed, then
/// the marker.  Any other candidate emits only the unversioned form.
pub open spec fn in_synth_one(e: Seq<char>, cand: Seq<char>, marker: Seq<char>) -> bool {
    &&& spec_so_name_ok(cand)
    &&& if contains_seq(cand, " ("@) {
        e == until_char(cand, ' ') + "()"@ + marker || e == remove_char(cand, ' ') + marker
    } else {
        e == remove_char(cand, ' ') + "()"@ + marker
    }
}

/// Membership in the requirement set one report induces.
pub open spec fn in_ldd_requires(e: Seq<char>, out: Seq<char>, path: Seq<char>, marker: Seq<
    char,
>) -> bool {
    exists|k: int|
        0 <= k < spec_ldd_candidates(out, path).len() && in_synth_one(
            e,
            #[trigger] spec_ldd_candidates(out, path)[k],
            marker,
        )
}

/// A prefix of lines without `pat` bounded by a line with `pat`, or by the
/// report's end, pins down what follows the first line mentioning `pat`.
proof fn lemma_after_first_containing_exact(ls: Seq<Seq<char>>, pat: Seq<char>, k: int)
    requires
        0 <= k <= ls.len(),
        forall|j: int| 0 <= j < k ==> !contains_seq(#[trigger] ls[j], pat),
        k < ls.len() ==> contains_seq(ls[k], pat),
    ensures
        after_first_containing(ls, pat) == if k < ls.len() {
            ls.skip(k + 1)
        } else {
            Seq::<Seq<char>>::empty()
        },
    decreases k,
{
    if k == 0 {
        if ls.len() == 0 {
            assert(after_first_containing(ls, pat) =~= Seq::<Seq<char>>::empty());
        } else {
            assert(ls.drop_first() =~= ls.skip(1));
        }
    } else {
        let d = ls.drop_first();
        assert forall|j: int| 0 <= j < k - 1 implies !contains_seq(#[trigger] d[j], pat) by {
            assert(d[j] == ls[j + 1]);
        }
        if k - 1 < d.len() {
            assert(d[k - 1] == ls[k as int]);
        }
        lemma_after_first_containing_exact(d, pat, k - 1);
        if k < ls.len() {
            assert(d.skip(k) =~= ls.skip(k + 1));
        }
    }
}

/// The first token of every line before the first blank one, executably.
fn unversioned_pass(lines: &Vec<String>) -> (r: Vec<String>)
    ensures
        r.deep_view() == unversioned_cands(lines.deep_view()),
{
    let ghost ld = lines.deep_view();
    let len = lines.len();
    let mut cands: Vec<String> = Vec::new();
    let mut stop: usize = 0;
    while stop < len && !is_blank(lines[stop].as_str())
        invariant
            len == lines@.len(),
            ld == lines.deep_view(),
            0 <= stop <= len,
            forall|j: int| 0 <= j < stop ==> !blank(#[trigger] ld[j]),
        decreases len - stop,
    {
        stop = stop + 1;
    }
    let mut i: usize = 0;
    proof {
        assert(ld.skip(0) =~= ld);
        assert(cands.deep_view() + unversioned_cands(ld) =~= unversioned_cands(ld));
    }
    while i < stop
        invariant
            len == lines@.len(),
            ld == lines.deep_view(),
            0 <= i <= stop <= len,
            forall|j: int| 0 <= j < stop ==> !blank(#[trigger] ld[j]),
            unversioned_cands(ld) == cands.deep_view() + unversioned_cands(ld.skip(i as int)),
        decreases stop - i,
    {
        let tok_head = trim_start(lines[i].as_str());
        let tok = until_char_str(tok_head, ' ');
        let owned = tok.to_owned();
        let ghost before = cands.deep_view();
        cands.push(owned);
        proof {
            let suf = ld.skip(i as int);
            assert(suf[0] == ld[i as int]);
            assert(!blank(suf[0]));
            assert(suf.drop_first() =~= ld.skip(i + 1));
            assert(cands.deep_view() =~= before.push(spec_first_token(ld[i as int])));
            assert(before + (seq![spec_first_token(ld[i as int])] + unversioned_cands(
                ld.skip(i + 1),
            )) =~= cands.deep_view() + unversioned_cands(ld.skip(i + 1)));
        }
        i = i + 1;
    }
    proof {
        let suf = ld.skip(stop as int);
        if stop < len {
            assert(suf[0] == ld[stop as int]);
            assert(blank(suf[0]));
            assert(unversioned_cands(suf) =~= Seq::<Seq<char>>::empty());
        } else {
            assert(suf =~= Seq::<Seq<char>>::empty());
        }
        assert(cands.deep_view() + Seq::<Seq<char>>::empty() =~= cands.deep_view());
    }
    cands
}

/// The versioned pass's candidates, executably: after the heading line and
/// the line naming the analyzed file, each line with the separator, cut
/// before it.
#[verifier::rlimit(30)]
fn versioned_pass(lines: &Vec<String>, path: &str) -> (r: Vec<String>)
    ensures
        r.deep_view() == versioned_cands(lines.deep_view(), path@),
{
    let ghost ld = lines.deep_view();
    let len = lines.len();
    let mut cands: Vec<String> = Vec::new();
    proof {
        reveal_strlit(" => ");
    }
    let mut v: usize = 0;
    while v < len && !str_contains(lines[v].as_str(), "Version information:")
        invariant
            len == lines@.len(),
            ld == lines.deep_view(),
            0 <= v <= len,
            forall|j: int|
                0 <= j < v ==> !contains_seq(#[trigger] ld[j], "Version information:"@),
        decreases len - v,
    {
        v = v + 1;
    }
    proof {
        lemma_after_first_containing_exact(ld, "Version information:"@, v as int);
    }
    if v == len {
        proof {
            assert(after_first_containing(ld, "Version information:"@) =~= Seq::<
                Seq<char>,
            >::empty());
            assert(after_first_containing(Seq::<Seq<char>>::empty(), path@) =~= Seq::<
                Seq<char>,
            >::empty());
            assert(while_containing(Seq::<Seq<char>>::empty(), " => "@) =~= Seq::<
                Seq<char>,
            >::empty());
            assert(versioned_cands(ld, path@) =~= Seq::<Seq<char>>::empty());
        }
        return cands;
    }
    let ghost after_mark = ld.skip(v + 1);
    let mut p: usize = v + 1;
    while p < len && !str_contains(lines[p].as_str(), path)
        invariant
            len == lines@.len(),
            ld == lines.deep_view(),
            v + 1 <= p <= len,
            forall|j: int| v + 1 <= j < p ==> !contains_seq(#[trigger] ld[j], path@),
        decreases len - p,
    {
        p = p + 1;
    }
    proof {
        assert forall|j: int| 0 <= j < p - (v + 1) implies !contains_seq(
            #[trigger] after_mark[j],
            path@,
        ) by {
            assert(after_mark[j] == ld[v + 1 + j]);
        }
        if p < len {
            assert(after_mark[p - (v + 1)] == ld[p as int]);
        }
        lemma_after_first_containing_exact(after_mark, path@, p - (v + 1));
    }
    if p == len {
        proof {
            assert(after_first_containing(after_mark, path@) =~= Seq::<Seq<char>>::empty());
            assert(while_containing(Seq::<Seq<char>>::empty(), " => "@) =~= Seq::<
                Seq<char>,
            >::empty());
            assert(versioned_cands(ld, path@) =~= Seq::<Seq<char>>::empty());
        }
        return cands;
    }
    let ghost tail = ld.skip(p + 1);
    proof {
        assert(after_mark.skip(p - (v + 1) + 1) =~= tail);
    }
    let mut q: usize = p + 1;
    proof {
        assert(tail.skip(0) =~= tail);
        assert(cands.deep_view() + while_containing(tail, " => "@).map_values(
            |l: Seq<char>| spec_before_sep(l),
        ) =~= while_containing(tail, " => "@).map_values(|l: Seq<char>| spec_before_sep(l)));
    }
    while q < len && str_contains(lines[q].as_str(), " => ")
        invariant
            len == lines@.len(),
            ld == lines.deep_view(),
            p + 1 <= q <= len,
            tail == ld.skip(p + 1),
            while_containing(tail, " => "@).map_values(|l: Seq<char>| spec_before_sep(l))
                == cands.deep_view() + while_containing(ld.skip(q as int), " => "@).map_values(
                |l: Seq<char>| spec_before_sep(l),
            ),
        decreases len - q,
    {
        proof {
            reveal_strlit(" => ");
        }
        let head = trim_start(lines[q].as_str());
        let cand = crate::strutil::until_seq_str(head, " => ");
        let owned = cand.to_owned();
        let ghost before = cands.deep_view();
        cands.push(owned);
        proof {
            let suf = ld.skip(q as int);
            assert(suf[0] == ld[q as int]);
            assert(suf.drop_first() =~= ld.skip(q + 1));
            assert(while_containing(suf, " => "@) == seq![suf[0]] + while_containing(
                ld.skip(q + 1),
                " => "@,
            ));
            let f = |l: Seq<char>| spec_before_sep(l);
            assert((seq![suf[0]] + while_containing(ld.skip(q + 1), " => "@)).map_values(f)
                =~= seq![spec_before_sep(ld[q as int])] + while_containing(
                ld.skip(q + 1),
                " => "@,
            ).map_values(f));
            assert(cands.deep_view() =~= before.push(spec_before_sep(ld[q as int])));
            assert(before + (seq![spec_before_sep(ld[q as int])] + while_containing(
                ld.skip(q + 1),
                " => "@,
            ).map_values(f)) =~= cands.deep_view() + while_containing(
                ld.skip(q + 1),
                " => "@,
            ).map_values(f));
        }
        q = q + 1;
    }
    proof {
        let f = |l: Seq<char>| spec_before_sep(l);
        let suf = ld.skip(q as int);
        if q < len {
            assert(suf[0] == ld[q as int]);
            assert(!contains_seq(suf[0], " => "@));
            assert(while_containing(suf, " => "@) =~= Seq::<Seq<char>>::empty());
        } else {
            assert(suf =~= Seq::<Seq<char>>::empty());
        }
        assert(while_containing(suf, " => "@).map_values(f) =~= Seq::<Seq<char>>::empty());
        assert(cands.deep_view() + Seq::<Seq<char>>::empty() =~= cands.deep_view());
        assert(versioned_cands(ld, path@) == while_containing(tail, " => "@).map_values(f));
    }
    cands
}

/// The candidate sonames of one report, in pass order, executably.
fn ldd_candidates(output: &str, path: &str) -> (r: Vec<String>)
    ensures
        r.deep_view() == spec_ldd_candidates(output@, path@),
{
    let lines = crate::strutil::split_lines(output);
    let mut cands = unversioned_pass(&lines);
    let mut versioned = versioned_pass(&lines, path);
    let ghost unv = cands.deep_view();
    let ghost vers = versioned.deep_view();
    let vn = versioned.len();
    let mut i: usize = 0;
    while i < vn
        invariant
            vn == versioned@.len(),
            vers == versioned.deep_view(),
            0 <= i <= vn,
            cands.deep_view() == unv + vers.take(i as int),
        decreases vn - i,
    {
        let ghost before = cands.deep_view();
        let item = versioned[i].clone();
        proof {
            assert(item@ == vers[i as int]);
        }
        cands.push(item);
        proof {
            assert(cands.deep_view() =~= before.push(vers[i as int]));
            assert(unv + vers.take(i + 1) =~= (unv + vers.take(i as int)).push(vers[i as int]));
        }
        i = i + 1;
    }
    proof {
        assert(vers.take(vn as int) =~= vers);
        assert(cands.deep_view() == spec_ldd_candidates(output@, path@));
    }
    cands
}


/// The requirement strings of one `ldd -v` report: both passes' candidates,
/// filtered by the soname acceptance test, synthesized into unversioned and
/// versioned requirement forms with the architecture marker appended, and
/// collected as a lexicographically sorted set.
pub fn find_requires_by_ldd(output: &str, path: &str, marker: Option<&str>) -> (r: Vec<String>)
    ensures
        sorted_requires(r.deep_view()),
        forall|e: Seq<char>|
            r.deep_view().contains(e) <==> in_ldd_requires(e, output@, path@, marker_seq(marker)),
{
    let cands = ldd_candidates(output, path);
    let ghost cd = cands.deep_view();
    let m: &str = match marker {
        Some(x) => x,
        None => "",
    };
    proof {
        reveal_strlit("");
        assert(""@ =~= Seq::<char>::empty());
        assert(m@ == marker_seq(marker));
    }
    let mut reqs: Vec<String> = Vec::new();
    let n = cands.len();
    let mut i: usize = 0;
    while i < n
        invariant
            n == cands@.len(),
            cd == cands.deep_view(),
            0 <= i <= n,
            m@ == marker_seq(marker),
            sorted_requires(reqs.deep_view()),
            forall|e: Seq<char>|
                reqs.deep_view().contains(e) <==> exists|k: int|
                    0 <= k < i && in_synth_one(e, #[trigger] cd[k], m@),
        decreases n - i,
    {
        let ghost old_reqs = reqs.deep_view();
        if is_dependency_soname(cands[i].as_str()) {
            if str_contains(cands[i].as_str(), " (") {
                let base = until_char_str(cands[i].as_str(), ' ');
                let mut s1 = base.to_owned();
                s1.append("()");
                s1.append(m);
                let mut s2 = remove_char_str(cands[i].as_str(), ' ');
                s2.append(m);
                proof {
                    assert(s1@ == until_char(cd[i as int], ' ') + "()"@ + m@);
                    assert(s2@ == remove_char(cd[i as int], ' ') + m@);
                }
                insert_require(&mut reqs, s1);
                insert_require(&mut reqs, s2);
                proof {
                    assert forall|e: Seq<char>| reqs.deep_view().contains(e) implies (
                    old_reqs.contains(e) || in_synth_one(e, cd[i as int], m@)) by {}
                    assert forall|e: Seq<char>|
                        old_reqs.contains(e) || in_synth_one(e, cd[i as int], m@) implies
                        reqs.deep_view().contains(e) by {}
                }
            } else {
                let mut s = remove_char_str(cands[i].as_str(), ' ');
                s.append("()");
                s.append(m);
                proof {
                    assert(s@ == remove_char(cd[i as int], ' ') + "()"@ + m@);
                }
                insert_require(&mut reqs, s);
            }
        }
        proof {
            assert forall|e: Seq<char>| reqs.deep_view().contains(e) implies exists|k: int|
                0 <= k < i + 1 && in_synth_one(e, #[trigger] cd[k], m@) by {
                if old_reqs.contains(e) {
                    let k = choose|k: int| 0 <= k < i && in_synth_one(e, #[trigger] cd[k], m@);
                    assert(in_synth_one(e, cd[k], m@));
                } else {
                    assert(in_synth_one(e, cd[i as int], m@));
                }
            }
            assert forall|e: Seq<char>|
                (exists|k: int| 0 <= k < i + 1 && in_synth_one(e, #[trigger] cd[k], m@)) implies
                reqs.deep_view().contains(e) by {
                let k = choose|k: int| 0 <= k < i + 1 && in_synth_one(e, #[trigger] cd[k], m@);
                if k < i {
                    assert(old_reqs.contains(e));
                }
            }
        }
        i = i + 1;
    }
    proof {
        assert forall|e: Seq<char>|
            reqs.deep_view().contains(e) <==> in_ldd_requires(
                e,
                output@,
                path@,
                marker_seq(marker),
            ) by {}
    }
    reqs
}

/// A character an interpreter path may contain: ASCII and not whitespace.
pub open spec fn is_interp_char(c: char) -> bool {
    (c as u32) < 128 && !is_space_char(c)
}

/// The leading run of interpreter-path characters.
pub open spec fn interp_run(s: Seq<char>) -> Seq<char>
    decreases s.len(),
{
    if s.len() == 0 {
        s
    } else if is_interp_char(s[0]) {
        seq![s[0]] + interp_run(s.drop_first())
    } else {
        Seq::empty()
    }
}

/// A prefix of interpreter-path characters bounded by the end of input or by
/// a character no interpreter path contains is the leading run.
proof fn lemma_interp_run_exact(s: Seq<char>, k: int)
    requires
        0 <= k <= s.len(),
        forall|j: int| 0 <= j < k ==> is_interp_char(#[trigger] s[j]),
        k < s.len() ==> !is_interp_char(s[k]),
    ensures
        interp_run(s) == s.subrange(0, k),
    decreases k,
{
    if k == 0 {
        if s.len() != 0 {
            assert(!is_interp_char(s[0]));
        }
        assert(interp_run(s) =~= s.subrange(0, 0));
    } else {
        let d = s.drop_first();
        assert forall|j: int| 0 <= j < k - 1 implies is_interp_char(d[j]) by {
            assert(d[j] == s[j + 1]);
        }
        if k - 1 < d.len() {
            assert(d[k - 1] == s[k as int]);
        }
        lemma_interp_run_exact(d, k - 1);
        assert(interp_run(s) == seq![s[0]] + interp_run(d));
        assert(seq![s[0]] + d.subrange(0, k - 1) =~= s.subrange(0, k));
    }
}

/// What a script's first line names as its interpreter: behind the `#!`
/// marker, the line's trimmed remainder up to the first non-ASCII or
/// whitespace character.  A line without the marker names nothing.
pub open spec fn spec_shebang_candidate(line: Seq<char>) -> Option<Seq<char>> {
    if line.len() >= 2 && line[0] == '#' && line[1] == '!' {
        Some(interp_run(trim_spaces(line.skip(2))))
    } else {
        None
    }
}

/// The interpreter path candidate of a script's first line.  Whether a
/// filesystem entry exists at that path — the condition for the candidate to
/// become a requirement — is the caller's probe.
pub fn find_require_of_shebang(first_line: &str) -> (r: Option<String>)
    ensures
        match spec_shebang_candidate(first_line@) {
            Some(c) => r matches Some(s) && s@ == c,
            None => r is None,
        },
{
    let n = first_line.unicode_len();
    if n < 2 {
        return None;
    }
    if first_line.get_char(0) != '#' || first_line.get_char(1) != '!' {
        return None;
    }
    let rest = first_line.substring_char(2, n);
    proof {
        assert(rest@ =~= first_line@.skip(2));
    }
    let line = trim(rest);
    let m = line.unicode_len();
    let mut k: usize = 0;
    while k < m && (line.get_char(k) as u32) < 128 && !is_space(line.get_char(k))
        invariant
            m == line@.len(),
            0 <= k <= m,
            forall|j: int| 0 <= j < k ==> is_interp_char(#[trigger] line@[j]),
        decreases m - k,
    {
        k = k + 1;
    }
    proof {
        lemma_interp_run_exact(line@, k as int);
    }
    let token = line.substring_char(0, k);
    Some(token.to_owned())
}

/// Membership in the requirement set of one analyzed binary: the report's
/// requirements under the binary's marker, and the GNU-hash loader sentinel
/// when the binary carries a GNU-style hash table but no legacy one.
pub open spec fn in_elf_requires(e: Seq<char>, info: ElfInfo, out: Seq<char>, path: Seq<
    char,
>) -> bool {
    in_ldd_requires(e, out, path, spec_marker_of(info)) || (info.got_gnu_hash && !info.got_hash
        && e == "rtld(GNU_HASH)"@)
}

/// The requirements of one dynamically linked binary: the parsed report
/// under the binary's architecture marker, plus the `rtld(GNU_HASH)`
/// sentinel when only a GNU-style hash table is present, as a sorted set.
pub fn find_requires_of_elf(info: &ElfInfo, ldd_output: &str, path: &str) -> (r: Vec<String>)
    ensures
        sorted_requires(r.deep_view()),
        forall|e: Seq<char>|
            r.deep_view().contains(e) <==> in_elf_requires(e, *info, ldd_output@, path@),
{
    let marker = info.marker();
    proof {
        assert(marker_seq(marker) == spec_marker_of(*info));
    }
    let mut reqs = find_requires_by_ldd(ldd_output, path, marker);
    if info.got_gnu_hash && !info.got_hash {
        insert_require(&mut reqs, String::from_str("rtld(GNU_HASH)"));
    }
    reqs
}

/// The requirements one candidate file contributes in builtin mode, from
/// the observations the driver gathered: the file's executability, its ELF
/// descriptor when it parsed as one, the introspection tool's report (absent
/// when the tool could not be run or read), its first line's interpreter
/// candidate, and whether that interpreter exists on disk.
///
/// A non-executable file contributes nothing, whatever else was observed.  A
/// binary is analyzed through its report; a missing report is fatal.  A
/// non-binary contributes its shebang interpreter when it exists, else
/// nothing.
pub fn builtin_file_requires(
    executable: bool,
    elf: &Option<ElfInfo>,
    ldd_output: Option<&String>,
    path: &str,
    shebang: &Option<String>,
    interpreter_exists: bool,
) -> (r: Result<Vec<String>, AutoReqError>)
    ensures
        !executable ==> (r matches Ok(v) && v@.len() == 0),
        elf matches Some(info) ==> (ldd_output matches Some(out) ==> (executable ==> (r matches Ok(
            v,
        ) && sorted_requires(v.deep_view()) && forall|e: Seq<char>|
            v.deep_view().contains(e) <==> in_elf_requires(e, *info, out@, path@)))),
        (executable && elf is Some && ldd_output is None) ==> (r matches Err(
            AutoReqError::ProcessError(p),
        ) && p@ == "ldd"@),
        (executable && elf is None) ==> (r matches Ok(v) && sorted_requires(v.deep_view()) && (
        match shebang {
            Some(cand) => if interpreter_exists {
                v.deep_view() =~= seq![cand@]
            } else {
                v@.len() == 0
            },
            None => v@.len() == 0,
        })),
{
    if !executable {
        return Ok(Vec::new());
    }
    match elf {
        Some(info) => {
            match ldd_output {
                Some(out) => Ok(find_requires_of_elf(info, out.as_str(), path)),
                None => Err(AutoReqError::ProcessError(String::from_str("ldd"))),
            }
        },
        None => {
            let mut reqs: Vec<String> = Vec::new();
            if interpreter_exists {
                match shebang {
                    Some(cand) => {
                        reqs.push(cand.clone());
                        proof {
                            assert(reqs.deep_view() =~= seq![cand@]);
                        }
                    },
                    None => {},
                }
            }
            proof {
                assert(sorted_requires(reqs.deep_view()));
            }
            Ok(reqs)
        },
    }
}

/// Everything the driver observed about one candidate file: whether it is
/// executable, its ELF descriptor when its bytes parse as one, the
/// introspection tool's report when the tool could be run, its first line's
/// interpreter candidate, and whether that interpreter exists on disk.
#[derive(Debug, Clone, PartialEq, Eq)]
pub struct FileObservations {
    pub path: String,
    pub executable: bool,
    pub elf: Option<ElfInfo>,
    pub ldd_output: Option<String>,
    pub shebang: Option<String>,
    pub interpreter_exists: bool,
}

/// Membership in the requirement set one observed file contributes.
pub open spec fn in_file_requires(e: Seq<char>, f: FileObservations) -> bool {
    &&& f.executable
    &&& match f.elf {
        Some(info) => f.ldd_output matches Some(out) && in_elf_requires(e, info, out@, f.path@),
        None => f.shebang matches Some(c) && f.interpreter_exists && e == c@,
    }
}

/// An observed file whose report is missing even though it is an executable
/// binary: its analysis cannot proceed.
pub open spec fn report_missing(f: FileObservations) -> bool {
    f.executable && f.elf is Some && f.ldd_output is None
}

/// The requirements of a whole candidate set in builtin mode: the union of
/// every file's requirements, as one sorted set.  When some executable
/// binary's report is missing the batch fails with the introspection tool's
/// process error instead.
pub fn find_requires(files: &Vec<FileObservations>) -> (r: Result<Vec<String>, AutoReqError>)
    ensures
        (exists|k: int| 0 <= k < files@.len() && report_missing(#[trigger] files@[k]))
            ==> (r matches Err(AutoReqError::ProcessError(p)) && p@ == "ldd"@),
        (forall|k: int| 0 <= k < files@.len() ==> !report_missing(#[trigger] files@[k])) ==> (r
            matches Ok(v) && sorted_requires(v.deep_view()) && forall|e: Seq<char>|
            v.deep_view().contains(e) <==> exists|k: int|
                0 <= k < files@.len() && in_file_requires(e, #[trigger] files@[k])),
{
    let mut acc: Vec<String> = Vec::new();
    let len = files.len();
    let mut i: usize = 0;
    while i < len
        invariant
            len == files@.len(),
            0 <= i <= len,
            sorted_requires(acc.deep_view()),
            forall|k: int| 0 <= k < i ==> !report_missing(#[trigger] files@[k]),
            forall|e: Seq<char>|
                acc.deep_view().contains(e) <==> exists|k: int|
                    0 <= k < i && in_file_requires(e, #[trigger] files@[k]),
        decreases len - i,
    {
        let f = &files[i];
        let per_file = builtin_file_requires(
            f.executable,
            &f.elf,
            f.ldd_output.as_ref(),
            f.path.as_str(),
            &f.shebang,
            f.interpreter_exists,
        );
        let found = match per_file {
            Ok(v) => v,
            Err(e) => {
                proof {
                    assert(report_missing(files@[i as int]));
                }
                return Err(e);
            },
        };
        proof {
            assert(!report_missing(files@[i as int]));
            assert(sorted_requires(found.deep_view())) by {
                if !files@[i as int].executable {
                    assert(found.deep_view().len() == 0);
                }
            }
            assert forall|e: Seq<char>|
                found.deep_view().contains(e) <==> in_file_requires(
                    e,
                    files@[i as int],
                ) by {
                let fi = files@[i as int];
                if !fi.executable {
                    assert(found@.len() == 0);
                    if found.deep_view().contains(e) {
                        let k = choose|k: int|
                            0 <= k < found.deep_view().len() && found.deep_view()[k] == e;
                    }
                } else if fi.elf is None {
                    match fi.shebang {
                        Some(cand) => {
                            if fi.interpreter_exists {
                                assert(found.deep_view() =~= seq![cand@]);
                                if found.deep_view().contains(e) {
                                    let k = choose|k: int|
                                        0 <= k < found.deep_view().len() && found.deep_view()[k]
                                            == e;
                                    assert(k == 0);
                                }
                                if in_file_requires(e, fi) {
                                    assert(found.deep_view()[0] == e);
                                }
                            } else {
                                if found.deep_view().contains(e) {
                                    let k = choose|k: int|
                                        0 <= k < found.deep_view().len() && found.deep_view()[k]
                                            == e;
                                }
                            }
                        },
                        None => {
                            if found.deep_view().contains(e) {
                                let k = choose|k: int|
                                    0 <= k < found.deep_view().len() && found.deep_view()[k] == e;
                            }
                        },
                    }
                }
            }
        }
        let ghost before = acc.deep_view();
        merge_requires(&mut acc, &found);
        proof {
            assert forall|e: Seq<char>|
                acc.deep_view().contains(e) implies exists|k: int|
                0 <= k < i + 1 && in_file_requires(e, #[trigger] files@[k]) by {
                if before.contains(e) {
                    let k = choose|k: int| 0 <= k < i && in_file_requires(e, #[trigger] files@[k]);
                    assert(in_file_requires(e, files@[k]));
                } else {
                    assert(found.deep_view().contains(e));
                    assert(in_file_requires(e, files@[i as int]));
                }
            }
            assert forall|e: Seq<char>|
                (exists|k: int| 0 <= k < i + 1 && in_file_requires(e, #[trigger] files@[k]))
                implies acc.deep_view().contains(e) by {
                let k = choose|k: int|
                    0 <= k < i + 1 && in_file_requires(e, #[trigger] files@[k]);
                assert(acc.deep_view().contains(e) <==> (before.contains(e)
                    || found.deep_view().contains(e)));
                if k < i {
                    assert(before.contains(e));
                } else {
                    assert(in_file_requires(e, files@[i as int]));
                    assert(found.deep_view().contains(e));
                }
            }
        }
        i = i + 1;
    }
    Ok(acc)
}

/// Every requirement the report synthesis emits carries the marker as its
/// suffix: with a 64-bit descriptor outside the Alpha exceptions every
/// emitted soname requirement ends in `(64bit)`.
pub proof fn lemma_ldd_requires_end_with_marker(
    e: Seq<char>,
    out: Seq<char>,
    path: Seq<char>,
    marker: Seq<char>,
)
    requires
        in_ldd_requires(e, out, path, marker),
    ensures
        crate::strutil::ends_with_seq(e, marker),
{
    let cands = spec_ldd_candidates(out, path);
    let k = choose|k: int| 0 <= k < cands.len() && in_synth_one(e, #[trigger] cands[k], marker);
    let cand = cands[k];
    if contains_seq(cand, " ("@) {
        if e == until_char(cand, ' ') + "()"@ + marker {
            let w = until_char(cand, ' ') + "()"@;
            assert(e == w + marker);
            assert(e.skip(e.len() - marker.len()) =~= marker);
        } else {
            let w = remove_char(cand, ' ');
            assert(e == w + marker);
            assert(e.skip(e.len() - marker.len()) =~= marker);
        }
    } else {
        let w = remove_char(cand, ' ') + "()"@;
        assert(e == w + marker);
        assert(e.skip(e.len() - marker.len()) =~= marker);
    }
}

/// Every requirement of the binary path mentions `.so` or is exactly the
/// loader sentinel, provided each accepted annotated candidate already
/// mentions `.so` before its first space.  (A report line whose `.so` text
/// stands only inside the parenthesized annotation would emit an unversioned
/// requirement without it; no real report does.)
pub proof fn lemma_elf_requires_so_or_rtld(
    e: Seq<char>,
    info: ElfInfo,
    out: Seq<char>,
    path: Seq<char>,
)
    requires
        in_elf_requires(e, info, out, path),
        forall|k: int|
            0 <= k < spec_ldd_candidates(out, path).len() && contains_seq(
                #[trigger] spec_ldd_candidates(out, path)[k],
                " ("@,
            ) && spec_so_name_ok(spec_ldd_candidates(out, path)[k]) ==> contains_seq(
                until_char(spec_ldd_candidates(out, path)[k], ' '),
                ".so"@,
            ),
    ensures
        contains_seq(e, ".so"@) || e == "rtld(GNU_HASH)"@,
{
    if e == "rtld(GNU_HASH)"@ {
    } else {
        let marker = spec_marker_of(info);
        let cands = spec_ldd_candidates(out, path);
        let k = choose|k: int|
            0 <= k < cands.len() && in_synth_one(e, #[trigger] cands[k], marker);
        let cand = cands[k];
        assert(spec_so_name_ok(cand));
        assert(contains_seq(cand, ".so"@));
        proof_so_has_no_space();
        if contains_seq(cand, " ("@) {
            if e == until_char(cand, ' ') + "()"@ + marker {
                assert(contains_seq(until_char(cand, ' '), ".so"@));
                crate::strutil::lemma_contains_extend_right(until_char(cand, ' '), "()"@, ".so"@);
                crate::strutil::lemma_contains_extend_right(
                    until_char(cand, ' ') + "()"@,
                    marker,
                    ".so"@,
                );
            } else {
                crate::strutil::lemma_remove_char_keeps_pattern(cand, ' ', ".so"@);
                crate::strutil::lemma_contains_extend_right(
                    remove_char(cand, ' '),
                    marker,
                    ".so"@,
                );
            }
        } else {
            crate::strutil::lemma_remove_char_keeps_pattern(cand, ' ', ".so"@);
            crate::strutil::lemma_contains_extend_right(remove_char(cand, ' '), "()"@, ".so"@);
            crate::strutil::lemma_contains_extend_right(
                remove_char(cand, ' ') + "()"@,
                marker,
                ".so"@,
            );
        }
    }
}

/// The characters of `.so` are not spaces.
proof fn proof_so_has_no_space()
    ensures
        ".so"@.len() == 3,
        forall|j: int| 0 <= j < ".so"@.len() ==> #[trigger] ".so"@[j] != ' ',
{
    reveal_strlit(".so");
    assert forall|j: int| 0 <= j < ".so"@.len() implies #[trigger] ".so"@[j] != ' ' by {
        if j == 0 {
            assert(".so"@[0] == '.');
        } else if j == 1 {
            assert(".so"@[1] == 's');
        } else {
            assert(".so"@[2] == 'o');
        }
    }
}

/// Whether a file's permission bits allow anyone to execute it.  `mode` is
/// the file's mode word, or nothing when the file could not be inspected;
/// an uninspectable file counts as not executable.
pub fn is_executable(mode: Option<u32>) -> (b: bool)
    ensures
        b == (mode matches Some(m) && m & 0o111 != 0),
{
    match mode {
        Some(m) => m & 0o111 != 0,
        None => false,
    }
}

} // verus!

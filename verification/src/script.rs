//! The text protocol of an external `find-requires` program: the candidate
//! paths are written to its standard input one per line, and every non-empty
//! line of its standard output is taken verbatim as one requirement.
//! Spawning the program and moving the bytes is the caller's task; the
//! protocol itself is decided here.

use vstd::prelude::*;

use crate::strutil::drop_empty;
use crate::strutil::join_lines;
use crate::strutil::join_with;
use crate::strutil::lemma_drop_empty_all_nonempty;
use crate::strutil::lemma_drop_empty_members;
use crate::strutil::lemma_split_join;
use crate::strutil::split_lines;
use crate::strutil::split_on;

verus! {

/// The text to feed the external program: the candidate paths joined with
/// newlines.
pub fn build_script_input(paths: &Vec<String>) -> (r: String)
    ensures
        r@ == join_with(paths.deep_view(), '\n'),
{
    join_lines(paths)
}

/// The requirements the external program reported: every non-empty line of
/// its output, in order, verbatim.  Interior blank lines contribute nothing.
pub fn parse_script_output(output: &str) -> (r: Vec<String>)
    ensures
        r.deep_view() == drop_empty(split_on(output@, '\n')),
        forall|i: int| 0 <= i < r.deep_view().len() ==> #[trigger] r.deep_view()[i].len() != 0,
{
    let lines = split_lines(output);
    let mut reqs: Vec<String> = Vec::new();
    let len = lines.len();
    let mut i: usize = 0;
    proof {
        assert(lines.deep_view().skip(0) =~= lines.deep_view());
        assert(reqs.deep_view() + drop_empty(lines.deep_view()) =~= drop_empty(
            lines.deep_view(),
        ));
    }
    while i < len
        invariant
            len == lines.len(),
            0 <= i <= len,
            drop_empty(lines.deep_view()) == reqs.deep_view() + drop_empty(
                lines.deep_view().skip(i as int),
            ),
        decreases len - i,
    {
        proof {
            assert(lines.deep_view().skip(i as int).drop_first() =~= lines.deep_view().skip(
                i + 1,
            ));
            assert(lines.deep_view().skip(i as int)[0] == lines@[i as int]@);
        }
        if !lines[i].as_str().is_empty() {
            let line = lines[i].clone();
            let ghost before = reqs.deep_view();
            reqs.push(line);
            proof {
                assert(reqs.deep_view() =~= before.push(lines@[i as int]@));
                assert(before + (seq![lines@[i as int]@] + drop_empty(
                    lines.deep_view().skip(i + 1),
                )) =~= reqs.deep_view() + drop_empty(lines.deep_view().skip(i + 1)));
            }
        }
        i = i + 1;
    }
    proof {
        assert(lines.deep_view().skip(len as int) =~= Seq::<Seq<char>>::empty());
        assert(reqs.deep_view() + Seq::<Seq<char>>::empty() =~= reqs.deep_view());
        lemma_drop_empty_members(lines.deep_view());
    }
    reqs
}

/// A program that echoes its input reports exactly the candidate list: for
/// non-empty, newline-free paths, feeding the protocol's input text back
/// through the output parser returns the paths unchanged.
pub proof fn lemma_script_echo_round_trip(paths: Seq<Seq<char>>)
    requires
        paths.len() >= 1,
        forall|i: int| 0 <= i < paths.len() ==> #[trigger] paths[i].len() != 0,
        forall|i: int, j: int|
            0 <= i < paths.len() && 0 <= j < paths[i].len() ==> #[trigger] paths[i][j] != '\n',
    ensures
        drop_empty(split_on(join_with(paths, '\n'), '\n')) == paths,
{
    lemma_split_join(paths, '\n');
    lemma_drop_empty_all_nonempty(paths);
}

} // verus!

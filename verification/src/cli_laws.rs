//! What holds of all command lines.

use vstd::prelude::*;

use crate::cli_model::{
    asks_help, asks_version, built_policy, comma, concluded, dashed, listed, nonempty, parsed,
    space_char, trimmed, trimmed_back, trimmed_front, CmdView, CommonView,
};
use crate::finding_laws::{fed_all, joined, lemma_every_chunking_agrees};
use crate::policy_laws::lemma_refinement_accepted;
use crate::policy_model::{preset_policy, refine_error};
use crate::rescan_laws::policy_ok;
use crate::sanitize_model::{fresh, sanitized, worst, SanitizerView};

verus! {

/// In a pipeline the command can be left out: a command line that is empty or
/// starts with an option, other than one that asks for help or the version,
/// means what it means after `clean`.
pub proof fn lemma_clean_is_implied(args: Seq<Seq<char>>)
    requires
        args.len() > 0 ==> dashed(args[0]) && !asks_help(args[0]) && !asks_version(args[0]),
    ensures
        parsed(args, false) == parsed(seq!["clean"@] + args, false),
        args.len() > 0 ==> parsed(args, true) == parsed(seq!["clean"@] + args, true),
{
    let full = seq!["clean"@] + args;
    reveal_strlit("clean");
    reveal_strlit("--help");
    reveal_strlit("-h");
    reveal_strlit("help");
    reveal_strlit("--version");
    reveal_strlit("-V");
    assert("clean"@[0] == 'c');
    assert("--help"@[0] == '-');
    assert("-h"@[0] == '-');
    assert("help"@[0] == 'h');
    assert("--version"@[0] == '-');
    assert("-V"@[0] == '-');
    assert(full[0] == "clean"@);
    assert(full.skip(1) =~= args);
    if args.len() == 0 {
        assert(args =~= seq![]);
    }
}

/// Only a scan can end with a code other than zero, and it does so if and only
/// if some finding is at or above the threshold.
pub proof fn lemma_exit_code(cmd: CmdView, v: SanitizerView)
    ensures
        concluded(cmd, v).code != 0 <==> (cmd matches CmdView::Scan { fail_on, .. } && worst(
            v.log().findings,
        ).rank() >= fail_on.rank()),
        concluded(cmd, v).code == 0 || concluded(cmd, v).code == 1,
{
}

/// A whole clean run: however the input comes in chunks, what is written is the
/// sanitized input, nothing is printed besides, and the exit code is zero
/// whatever was found.
pub proof fn lemma_clean_run(
    common: CommonView,
    mark: bool,
    summary: bool,
    output: Option<Seq<char>>,
    chunks: Seq<Seq<u8>>,
)
    ensures
        ({
            let policy = built_policy(common);
            let v = fed_all(fresh(policy, mark), chunks).ended();
            let end = concluded(CmdView::Clean { common, mark, summary, output }, v);
            &&& v == sanitized(policy, mark, joined(chunks))
            &&& v.output() == sanitized(policy, mark, joined(chunks)).output()
            &&& end.stdout == Seq::<char>::empty()
            &&& !summary ==> end.stderr == Seq::<char>::empty()
            &&& end.code == 0
        }),
{
    lemma_every_chunking_agrees(built_policy(common), mark, chunks);
}

/// However a policy is asked for, it keeps malformed sequences out.
pub proof fn lemma_built_policy_ok(common: CommonView)
    requires
        refine_error(common.allow, common.deny) is None,
    ensures
        policy_ok(built_policy(common)),
{
    lemma_refinement_accepted(preset_policy(common.preset), common.allow, common.deny);
}

/// An item of a list: not empty, without commas, and without white space at
/// its ends.
pub open spec fn list_item(item: Seq<char>) -> bool {
    &&& item.len() > 0
    &&& !space_char(item[0])
    &&& !space_char(item.last())
    &&& !item.contains(',')
}

proof fn lemma_trimmed_front(s: Seq<char>)
    ensures
        trimmed_front(s).len() > 0 ==> !space_char(trimmed_front(s)[0]),
        forall|c: char| trimmed_front(s).contains(c) ==> s.contains(c),
    decreases s.len(),
{
    if s.len() > 0 && space_char(s[0]) {
        lemma_trimmed_front(s.skip(1));
        assert forall|c: char| trimmed_front(s).contains(c) implies s.contains(c) by {
            assert(s.skip(1).contains(c));
            let i = choose|i: int| 0 <= i < s.skip(1).len() && s.skip(1)[i] == c;
            assert(s[i + 1] == c);
        }
    }
}

proof fn lemma_trimmed_back(s: Seq<char>)
    ensures
        trimmed_back(s).len() > 0 ==> !space_char(trimmed_back(s).last()) && trimmed_back(s)[0]
            == s[0],
        forall|c: char| trimmed_back(s).contains(c) ==> s.contains(c),
    decreases s.len(),
{
    if s.len() > 0 && space_char(s.last()) {
        lemma_trimmed_back(s.drop_last());
        assert forall|c: char| trimmed_back(s).contains(c) implies s.contains(c) by {
            assert(s.drop_last().contains(c));
            let i = choose|i: int| 0 <= i < s.drop_last().len() && s.drop_last()[i] == c;
            assert(s[i] == c);
        }
    }
}

proof fn lemma_before_comma(s: Seq<char>)
    ensures
        0 <= comma(s) <= s.len(),
        !s.take(comma(s)).contains(','),
    decreases s.len(),
{
    if s.len() > 0 && s[0] != ',' {
        lemma_before_comma(s.skip(1));
        let front = s.take(comma(s));
        if front.contains(',') {
            let i = choose|i: int| 0 <= i < front.len() && front[i] == ',';
            assert(s.skip(1).take(comma(s.skip(1)))[i - 1] == ',');
        }
    }
}

/// Every item of a list is a proper item: lists split at commas, white space
/// around items is dropped, and empty items are.
pub proof fn lemma_list_items(s: Seq<char>)
    ensures
        forall|i: int| 0 <= i < listed(s).len() ==> list_item(#[trigger] listed(s)[i]),
    decreases s.len(),
{
    let n = comma(s);
    let front = s.take(n);
    let item = trimmed(front);
    lemma_before_comma(s);
    lemma_trimmed_front(front);
    lemma_trimmed_back(trimmed_front(front));
    if item.len() > 0 {
        assert(list_item(item));
    }
    if n < s.len() {
        let rest = listed(s.skip(n + 1));
        lemma_list_items(s.skip(n + 1));
        assert forall|i: int| 0 <= i < listed(s).len() implies list_item(#[trigger] listed(s)[i]) by {
            let k = nonempty(item).len() as int;
            if i >= k {
                assert(listed(s)[i] == rest[i - k]);
            }
        }
    }
}

} // verus!

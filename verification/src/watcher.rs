//! The watcher's verified half: change records and the ignore rule that
//! filters event paths. The platform event source and its polling loop live
//! with the embedding program, which classifies raw events into `FileChange`
//! records and drops everything the ignore rule matches.

use vstd::prelude::*;
use crate::syntax::{contains_chars, contains_sub};

verus! {

/// One observed file change.
#[derive(Debug)]
pub struct FileChange {
    pub path: String,
    pub kind: ChangeKind,
}

/// How the file changed; attribute changes and rename pairs are dropped
/// before they reach the library.
#[derive(Clone, Copy, Debug, PartialEq, Eq, Structural)]
pub enum ChangeKind {
    Create,
    Modify,
    Delete,
}

/// The path and kind of a change record.
pub open spec fn change_view(c: FileChange) -> (Seq<char>, ChangeKind) {
    (c.path@, c.kind)
}

/// The paths and kinds of a change list.
pub open spec fn changes_view(s: Seq<FileChange>) -> Seq<(Seq<char>, ChangeKind)> {
    Seq::new(s.len(), |i: int| change_view(s[i]))
}

/// The subsequence of changes whose paths the watcher does not ignore, in
/// order, as paths and kinds.
pub open spec fn kept_changes(s: Seq<FileChange>) -> Seq<(Seq<char>, ChangeKind)>
    decreases s,
{
    if s.len() == 0 {
        Seq::empty()
    } else {
        (if ignored_path(s[0].path@) {
            Seq::empty()
        } else {
            seq![change_view(s[0])]
        }) + kept_changes(s.drop_first())
    }
}

/// Appending a change extends the kept subsequence at the end.
proof fn lemma_kept_changes_push(s: Seq<FileChange>, x: FileChange)
    ensures
        kept_changes(s.push(x)) == kept_changes(s) + (if ignored_path(x.path@) {
            Seq::<(Seq<char>, ChangeKind)>::empty()
        } else {
            seq![change_view(x)]
        }),
    decreases s.len(),
{
    if s.len() == 0 {
        assert(s.push(x)[0] == x);
        assert(s.push(x).drop_first() =~= Seq::<FileChange>::empty());
        assert(s.push(x).len() == 1);
        assert(kept_changes(s.push(x)) == (if ignored_path(s.push(x)[0].path@) {
            Seq::<(Seq<char>, ChangeKind)>::empty()
        } else {
            seq![change_view(s.push(x)[0])]
        }) + kept_changes(s.push(x).drop_first()));
        assert(kept_changes(Seq::<FileChange>::empty()) == Seq::<(Seq<char>, ChangeKind)>::empty());
        assert(kept_changes(s.push(x)) =~= kept_changes(s) + (if ignored_path(x.path@) {
            Seq::<(Seq<char>, ChangeKind)>::empty()
        } else {
            seq![change_view(x)]
        }));
    } else {
        assert(s.push(x)[0] == s[0]);
        assert(s.push(x).drop_first() =~= s.drop_first().push(x));
        lemma_kept_changes_push(s.drop_first(), x);
        assert(kept_changes(s.push(x)) =~= kept_changes(s) + (if ignored_path(x.path@) {
            Seq::<(Seq<char>, ChangeKind)>::empty()
        } else {
            seq![change_view(x)]
        }));
    }
}

/// Whether the watcher ignores a path: one of the fixed directory-name
/// patterns occurs in it. The patterns hold no path separator, so an
/// occurrence anywhere in the path is an occurrence inside exactly one of
/// its components.
pub open spec fn ignored_path(path: Seq<char>) -> bool {
    ||| contains_chars(path, "node_modules"@)
    ||| contains_chars(path, ".git"@)
    ||| contains_chars(path, ".neex"@)
    ||| contains_chars(path, "dist"@)
    ||| contains_chars(path, ".next"@)
    ||| contains_chars(path, "target"@)
}

/// Whether the path falls under the watcher's ignore rules.
pub fn should_ignore(path: &String) -> (r: bool)
    ensures
        r == ignored_path(path@),
{
    contains_sub(path, "node_modules") || contains_sub(path, ".git") || contains_sub(path, ".neex")
        || contains_sub(path, "dist") || contains_sub(path, ".next") || contains_sub(
        path,
        "target",
    )
}

/// Keep exactly the changes whose paths the watcher does not ignore, in
/// input order.
#[verifier::loop_isolation(false)]
pub fn filter_changes(changes: Vec<FileChange>) -> (r: Vec<FileChange>)
    ensures
        changes_view(r@) == kept_changes(changes@),
        forall|i: int| 0 <= i < r@.len() ==> !ignored_path((#[trigger] r@[i]).path@),
{
    let mut r: Vec<FileChange> = Vec::new();
    let mut work = changes;
    let ghost all = work@;
    let mut i: usize = 0;
    proof {
        assert(all.subrange(0, 0) =~= Seq::<FileChange>::empty());
        assert(changes_view(r@) =~= kept_changes(all.subrange(0, 0)));
    }
    while i < work.len()
        invariant
            work@ == all,
            i <= all.len(),
            changes_view(r@) == kept_changes(all.subrange(0, i as int)),
            forall|q: int| 0 <= q < r@.len() ==> !ignored_path((#[trigger] r@[q]).path@),
        decreases all.len() - i,
    {
        let keep = !should_ignore(&work[i].path);
        if keep {
            let c = FileChange { path: work[i].path.clone(), kind: work[i].kind };
            let ghost cg = c;
            let ghost pre = r@;
            r.push(c);
            proof {
                assert(r@ == pre.push(cg));
                assert(change_view(cg) == change_view(all[i as int]));
                assert(changes_view(r@) =~= changes_view(pre).push(change_view(cg)));
            }
        }
        proof {
            let sub = all.subrange(0, i + 1);
            assert(sub =~= all.subrange(0, i as int).push(all[i as int]));
            lemma_kept_changes_push(all.subrange(0, i as int), all[i as int]);
            assert(changes_view(r@) =~= kept_changes(sub));
        }
        i = i + 1;
    }
    proof {
        assert(all.subrange(0, all.len() as int) =~= all);
    }
    r
}

} // verus!

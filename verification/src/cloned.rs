//! What is cloned of a worktree, said of the worktree as a whole.
use vstd::prelude::*;
use crate::cloning::{
    are_file_names, carried_over, clone_answered, clone_fits, clone_path, clone_question,
    clone_start, covers, is_valid_clone, is_valid_clone_level, next_entry, treatment_of, Area,
    CloneLevel, ClonePosition, CloneStage, CloneTold, Treatment,
};
use crate::copying::entry_names;
use crate::order::SEP;
use crate::path::{
    is_name, is_parent, is_relative, is_under, joined, lemma_common_descendant,
    lemma_joined_relative, lemma_leads_to_entry,
};
use crate::rules::FileKind;
use crate::select::{ancestors_of, is_off_limits, Setting};
use crate::tree::{
    are_apart, are_distinct, are_named, holds, is_clear, is_closed, is_skipped, is_untracked,
    law_carried_is_cloned_whole, law_carried_is_ignored_and_allowed, law_scratch_is_skipped,
    law_tracked_files_are_not_skipped, lemma_carried_is_clear, lemma_file_is_not_partial,
    lemma_holds_below, may_be_carried, only_directories_hold, selected, total, weight, Node,
};

verus! {

/// Where the cloning stands after `answers`.
pub open spec fn reached(area: Area, answers: Seq<CloneTold>) -> ClonePosition
    decreases answers.len(),
{
    if answers.len() == 0 {
        clone_start()
    } else {
        clone_answered(area, reached(area, answers.drop_last()), answers.last())
    }
}

/// Each of `answers` can come of what was to be done.
pub open spec fn all_fit(area: Area, answers: Seq<CloneTold>) -> bool
    decreases answers.len(),
{
    answers.len() == 0 || all_fit(area, answers.drop_last()) && clone_fits(
        reached(area, answers.drop_last()),
        answers.last(),
    )
}

/// No directory that the cloning is in is skipped, and nothing that has been cloned has to do
/// with anything skipped.
spec fn honours(area: Area, w: ClonePosition) -> bool {
    &&& is_valid_clone(w)
    &&& forall|i: int|
        0 <= i < w.levels.len() ==> (#[trigger] w.levels[i]).dir.len() == 0 || !is_skipped(
            area.skip,
            w.levels[i].dir,
        )
    &&& forall|i: int, q: Seq<u8>|
        0 <= i < w.cloned.len() && #[trigger] area.skip.contains(q) ==> are_apart(
            #[trigger] w.cloned[i],
            q,
        )
    &&& w.levels.len() > 0 && w.stage == CloneStage::Clone ==> treatment_of(area, clone_path(w))
        == Treatment::Clone
    &&& w.levels.len() > 0 && w.stage == CloneStage::MakeDir ==> treatment_of(area, clone_path(w))
        == Treatment::Recreate
}

/// An entry of a directory is skipped only if it is one of the paths that are skipped or the
/// directory is skipped.
proof fn lemma_entry_skipped(skip: Set<Seq<u8>>, dir: Seq<u8>, name: Seq<u8>)
    requires
        dir.len() == 0 || is_relative(dir) && !is_skipped(skip, dir),
        is_name(name),
        !skip.contains(joined(dir, name)),
    ensures
        !is_skipped(skip, joined(dir, name)),
{
    let path = joined(dir, name);
    lemma_joined_relative(dir, name);
    if is_skipped(skip, path) {
        let q = choose|q: Seq<u8>| #[trigger] skip.contains(q) && is_under(path, q);
        if dir.len() == 0 {
            assert(name.contains(SEP));
        } else {
            lemma_leads_to_entry(dir, name, q);
        }
    }
}

proof fn lemma_honours(area: Area, answers: Seq<CloneTold>)
    requires
        area.partial == ancestors_of(area.skip),
        all_fit(area, answers),
    ensures
        honours(area, reached(area, answers)),
    decreases answers.len(),
{
    if answers.len() > 0 {
        lemma_honours(area, answers.drop_last());
        lemma_honours_step(area, reached(area, answers.drop_last()), answers.last());
    }
}

proof fn lemma_honours_step(area: Area, w: ClonePosition, told: CloneTold)
    requires
        area.partial == ancestors_of(area.skip),
        honours(area, w),
        clone_fits(w, told),
    ensures
        honours(area, clone_answered(area, w, told)),
{
    let v = clone_answered(area, w, told);
    let l = w.levels.last();
    assert(is_valid_clone_level(w.levels[w.levels.len() - 1]));
    assert(l.dir.len() == 0 || !is_skipped(area.skip, w.levels[w.levels.len() - 1].dir));
    if l.rest.len() > 0 {
        let path = clone_path(w);
        assert(is_name(l.rest[0]));
        lemma_joined_relative(l.dir, l.rest[0]);
        assert forall|i: int| 0 <= i < l.rest.drop_first().len() implies is_name(
            #[trigger] l.rest.drop_first()[i],
        ) by {
            assert(l.rest.drop_first()[i] == l.rest[i + 1]);
        }
        if treatment_of(area, path) != Treatment::Skip {
            lemma_entry_skipped(area.skip, l.dir, l.rest[0]);
        }
    }
    assert forall|i: int| 0 <= i < v.levels.len() implies is_valid_clone_level(
        #[trigger] v.levels[i],
    ) && (v.levels[i].dir.len() == 0 || !is_skipped(area.skip, v.levels[i].dir)) by {
        if i < w.levels.len() - 1 {
            assert(v.levels[i] == w.levels[i]);
            assert(is_valid_clone_level(w.levels[i]));
        }
    }
    if told is Done && w.stage == CloneStage::Clone {
        let path = clone_path(w);
        assert forall|q: Seq<u8>| #[trigger] area.skip.contains(q) implies are_apart(path, q) by {
            if is_under(q, path) {
                assert(is_parent(path, q));
                assert(ancestors_of(area.skip).contains(path));
            }
        }
        assert forall|i: int, q: Seq<u8>|
            0 <= i < v.cloned.len() && #[trigger] area.skip.contains(q) implies are_apart(
            #[trigger] v.cloned[i],
            q,
        ) by {
            if i < w.cloned.len() {
                assert(v.cloned[i] == w.cloned[i]);
            }
        }
    }
}

/// Whatever comes of the single steps, nothing that is cloned is skipped, lies below something
/// skipped, or has something skipped below it.
pub proof fn law_nothing_skipped_is_cloned(
    area: Area,
    answers: Seq<CloneTold>,
    i: int,
    q: Seq<u8>,
)
    requires
        area.partial == ancestors_of(area.skip),
        all_fit(area, answers),
        0 <= i < reached(area, answers).cloned.len(),
        area.skip.contains(q),
    ensures
        are_apart(reached(area, answers).cloned[i], q),
{
    lemma_honours(area, answers);
}

/// Whatever comes of the single steps, the cloning is given up only if one of them has shown
/// that cloning cannot work at all.
pub proof fn law_given_up_only_when_cloning_cannot_work(area: Area, answers: Seq<CloneTold>)
    requires
        all_fit(area, answers),
    ensures
        reached(area, answers).failure matches Some(f) ==> f.unsupported && answers.len() > 0
            && answers.last() == CloneTold::Failed(f),
    decreases answers.len(),
{
    if answers.len() > 0 {
        law_given_up_only_when_cloning_cannot_work(area, answers.drop_last());
        lemma_over_once_given_up(area, answers.drop_last());
    }
}

/// What has been given up is over.
proof fn lemma_over_once_given_up(area: Area, answers: Seq<CloneTold>)
    requires
        all_fit(area, answers),
    ensures
        reached(area, answers).failure is Some ==> clone_question(reached(area, answers)) is Done,
    decreases answers.len(),
{
    if answers.len() > 0 {
        lemma_over_once_given_up(area, answers.drop_last());
    }
}

/// How many of `answers` are failures that do not mean that cloning cannot work.
pub open spec fn other_failures(answers: Seq<CloneTold>) -> nat
    decreases answers.len(),
{
    if answers.len() == 0 {
        0
    } else {
        let before = other_failures(answers.drop_last());
        match answers.last() {
            CloneTold::Failed(f) => if f.unsupported {
                before
            } else {
                before + 1
            },
            _ => before,
        }
    }
}

/// Whatever comes of the single steps, each failure that does not mean that cloning cannot work
/// is one warning, and there are no others.
pub proof fn law_other_failures_are_warnings(area: Area, answers: Seq<CloneTold>)
    requires
        all_fit(area, answers),
    ensures
        reached(area, answers).warnings.len() == other_failures(answers),
    decreases answers.len(),
{
    if answers.len() > 0 {
        law_other_failures_are_warnings(area, answers.drop_last());
    }
}

/// What is cloned of the entries of `dir` when all goes well, in order.
pub open spec fn cloned_of(area: Area, dir: Seq<u8>, nodes: Seq<Node>) -> Seq<Seq<u8>>
    decreases nodes,
{
    if nodes.len() == 0 {
        Seq::empty()
    } else {
        let path = joined(dir, nodes[0].name);
        let rest = cloned_of(area, dir, nodes.subrange(1, nodes.len() as int));
        match treatment_of(area, path) {
            Treatment::Skip => rest,
            Treatment::Recreate => cloned_of(area, path, nodes[0].children) + rest,
            Treatment::Clone => seq![path] + rest,
        }
    }
}

/// What comes of the next step when all goes well, where `pending` is what is left of the
/// directories that the cloning is in.
pub open spec fn success(w: ClonePosition, pending: Seq<Seq<Node>>) -> CloneTold {
    if w.stage == CloneStage::List {
        CloneTold::Names(entry_names(pending.last()))
    } else {
        CloneTold::Done
    }
}

/// What is then left of the directories that the cloning is in.
pub open spec fn left_after(area: Area, w: ClonePosition, pending: Seq<Seq<Node>>) -> Seq<
    Seq<Node>,
> {
    let nodes = pending.last();
    let on = pending.drop_last().push(nodes.subrange(1, nodes.len() as int));
    match w.stage {
        CloneStage::List => pending,
        CloneStage::MakeDir => on.push(nodes[0].children),
        CloneStage::Clone => on,
        CloneStage::Visit => if nodes.len() == 0 {
            pending.drop_last()
        } else if treatment_of(area, clone_path(w)) == Treatment::Skip {
            on
        } else {
            pending
        },
    }
}

/// Where the cloning stands after `n` steps in which all goes well.
pub open spec fn clone_run(area: Area, w: ClonePosition, pending: Seq<Seq<Node>>, n: nat) -> (
    ClonePosition,
    Seq<Seq<Node>>,
)
    decreases n,
{
    if n == 0 {
        (w, pending)
    } else {
        clone_run(
            area,
            clone_answered(area, w, success(w, pending)),
            left_after(area, w, pending),
            (n - 1) as nat,
        )
    }
}

/// What is yet to be cloned.
spec fn to_clone(area: Area, levels: Seq<CloneLevel>, pending: Seq<Seq<Node>>) -> Seq<Seq<u8>>
    decreases levels.len(),
{
    if levels.len() == 0 {
        Seq::empty()
    } else {
        cloned_of(area, levels.last().dir, pending.last()) + to_clone(
            area,
            levels.drop_last(),
            pending.drop_last(),
        )
    }
}

spec fn bound(w: ClonePosition, pending: Seq<Seq<Node>>) -> int {
    total(pending) + 3 * w.levels.len() + match w.stage {
        CloneStage::List => 3int,
        CloneStage::Visit => 2int,
        CloneStage::MakeDir => 1int,
        CloneStage::Clone => 1int,
    }
}

spec fn mirrors(area: Area, w: ClonePosition, pending: Seq<Seq<Node>>) -> bool {
    let n = w.levels.len() as int;
    &&& is_valid_clone(w)
    &&& pending.len() == n
    &&& forall|i: int| 0 <= i < n ==> are_named(#[trigger] pending[i])
    &&& forall|i: int|
        0 <= i < n && !(i == n - 1 && w.stage == CloneStage::List) ==> (
        #[trigger] w.levels[i]).rest == entry_names(pending[i])
    &&& n > 0 && w.stage == CloneStage::Clone ==> treatment_of(area, clone_path(w))
        == Treatment::Clone
    &&& n > 0 && w.stage == CloneStage::MakeDir ==> treatment_of(area, clone_path(w))
        == Treatment::Recreate
}

proof fn lemma_named(nodes: Seq<Node>)
    requires
        are_named(nodes),
    ensures
        are_file_names(entry_names(nodes)),
    decreases nodes.len(),
{
    if nodes.len() > 0 {
        let rest = nodes.subrange(1, nodes.len() as int);
        lemma_named(rest);
        assert forall|i: int| 0 <= i < nodes.len() implies is_name(
            #[trigger] entry_names(nodes)[i],
        ) by {
            if i > 0 {
                assert(entry_names(rest)[i - 1] == entry_names(nodes)[i]);
            }
        }
    }
}

proof fn lemma_clone_step(area: Area, w: ClonePosition, pending: Seq<Seq<Node>>)
    requires
        mirrors(area, w, pending),
        w.levels.len() > 0,
    ensures
        clone_fits(w, success(w, pending)),
        ({
            let v = clone_answered(area, w, success(w, pending));
            let q = left_after(area, w, pending);
            &&& mirrors(area, v, q)
            &&& bound(v, q) < bound(w, pending)
            &&& v.cloned + to_clone(area, v.levels, q) == w.cloned + to_clone(
                area,
                w.levels,
                pending,
            )
            &&& v.warnings == w.warnings
            &&& v.failure == w.failure
        }),
{
    let told = success(w, pending);
    let v = clone_answered(area, w, told);
    let q = left_after(area, w, pending);
    let top = w.levels.last();
    let nodes = pending.last();
    assert(are_named(pending[pending.len() - 1]));
    lemma_named(nodes);
    assert(is_valid_clone_level(w.levels[w.levels.len() - 1]));
    if w.stage == CloneStage::List {
        assert(v.levels.drop_last() =~= w.levels.drop_last());
        assert forall|i: int| 0 <= i < v.levels.len() implies is_valid_clone_level(
            #[trigger] v.levels[i],
        ) && v.levels[i].rest == entry_names(q[i]) by {
            if i < w.levels.len() - 1 {
                assert(v.levels[i] == w.levels[i]);
                assert(is_valid_clone_level(w.levels[i]));
            }
        }
    } else {
        assert(top.rest == entry_names(nodes)) by {
            assert(w.levels[w.levels.len() - 1].rest == entry_names(pending[pending.len() - 1]));
        }
        let others = to_clone(area, w.levels.drop_last(), pending.drop_last());
        if nodes.len() == 0 {
            assert forall|i: int| 0 <= i < v.levels.len() implies is_valid_clone_level(
                #[trigger] v.levels[i],
            ) && v.levels[i].rest == entry_names(q[i]) by {
                assert(v.levels[i] == w.levels[i]);
                assert(is_valid_clone_level(w.levels[i]));
                assert(q[i] == pending[i]);
            }
            assert forall|i: int| 0 <= i < q.len() implies are_named(#[trigger] q[i]) by {
                assert(q[i] == pending[i]);
            }
            assert(cloned_of(area, top.dir, nodes) + others =~= others);
        } else {
            let node = nodes[0];
            let rest = nodes.subrange(1, nodes.len() as int);
            let path = joined(top.dir, node.name);
            assert(top.rest[0] == node.name);
            assert(clone_path(w) == path);
            assert(top.rest.drop_first() =~= entry_names(rest));
            lemma_joined_relative(top.dir, node.name);
            lemma_named(rest);
            let on = next_entry(w).levels;
            let left_on = pending.drop_last().push(rest);
            assert(on.drop_last() =~= w.levels.drop_last());
            assert(left_on.drop_last() =~= pending.drop_last());
            assert(total(left_on) == total(pending.drop_last()) + weight(rest));
            let after = cloned_of(area, top.dir, rest);
            assert(to_clone(area, on, left_on) == after + others);
            assert forall|i: int| 0 <= i < on.len() implies is_valid_clone_level(
                #[trigger] on[i],
            ) && on[i].rest == entry_names(left_on[i]) && are_named(left_on[i]) by {
                if i < w.levels.len() - 1 {
                    assert(on[i] == w.levels[i]);
                    assert(left_on[i] == pending[i]);
                    assert(is_valid_clone_level(w.levels[i]));
                }
            }
            if w.stage == CloneStage::MakeDir {
                assert(v.levels.drop_last() =~= on);
                assert(q.drop_last() =~= left_on);
                assert(total(q) == total(left_on) + weight(node.children));
                assert forall|i: int| 0 <= i < v.levels.len() implies is_valid_clone_level(
                    #[trigger] v.levels[i],
                ) by {
                    if i < on.len() {
                        assert(v.levels[i] == on[i]);
                    }
                }
                assert forall|i: int| 0 <= i < q.len() implies are_named(#[trigger] q[i]) by {
                    if i < left_on.len() {
                        assert(q[i] == left_on[i]);
                        assert(is_valid_clone_level(on[i]));
                    }
                }
                assert forall|i: int| 0 <= i < v.levels.len() - 1 implies (
                #[trigger] v.levels[i]).rest == entry_names(q[i]) by {
                    assert(v.levels[i] == on[i]);
                }
                let inner = cloned_of(area, path, node.children);
                assert(inner + (after + others) =~= (inner + after) + others);
            } else if w.stage == CloneStage::Clone {
                assert(w.cloned.push(path) + (after + others) =~= w.cloned + ((seq![path] + after)
                    + others));
            } else if treatment_of(area, path) == Treatment::Skip {
            } else {
                assert(v.levels == w.levels);
            }
            if w.stage != CloneStage::MakeDir && q == left_on {
                assert(v.levels == on);
                assert forall|i: int| 0 <= i < q.len() implies are_named(#[trigger] q[i]) by {
                    assert(is_valid_clone_level(on[i]));
                }
            }
        }
    }
}

proof fn lemma_clone_run(area: Area, w: ClonePosition, pending: Seq<Seq<Node>>) -> (n: nat)
    requires
        mirrors(area, w, pending),
    ensures
        ({
            let v = clone_run(area, w, pending, n).0;
            &&& clone_question(v) is Done
            &&& v.cloned == w.cloned + to_clone(area, w.levels, pending)
            &&& v.warnings == w.warnings
            &&& v.failure == w.failure
        }),
        forall|k: nat|
            k < n ==> #[trigger] clone_fits(
                clone_run(area, w, pending, k).0,
                success(
                    clone_run(area, w, pending, k).0,
                    clone_run(area, w, pending, k).1,
                ),
            ),
    decreases bound(w, pending),
{
    if w.levels.len() == 0 {
        assert(clone_run(area, w, pending, 0) == (w, pending));
        assert(w.cloned + to_clone(area, w.levels, pending) =~= w.cloned);
        0
    } else {
        lemma_clone_step(area, w, pending);
        let v = clone_answered(area, w, success(w, pending));
        let q = left_after(area, w, pending);
        let m = lemma_clone_run(area, v, q);
        let n = (m + 1) as nat;
        assert(clone_run(area, w, pending, n) == clone_run(area, v, q, m));
        assert forall|k: nat| k < n implies #[trigger] clone_fits(
            clone_run(area, w, pending, k).0,
            success(clone_run(area, w, pending, k).0, clone_run(area, w, pending, k).1),
        ) by {
            if k == 0 {
                assert(clone_run(area, w, pending, k) == (w, pending));
            } else {
                let j = (k - 1) as nat;
                assert(clone_run(area, w, pending, k) == clone_run(area, v, q, j));
                assert(clone_fits(
                    clone_run(area, v, q, j).0,
                    success(clone_run(area, v, q, j).0, clone_run(area, v, q, j).1),
                ));
            }
        }
        n
    }
}

/// When all goes well, cloning a worktree comes to an end without a warning, and then what
/// [`cloned_of`] says of the worktree as a whole has been cloned.
pub proof fn law_cloning_ends_with_what_is_cloned(area: Area, root: Seq<Node>) -> (n: nat)
    requires
        are_named(root),
    ensures
        ({
            let v = clone_run(area, clone_start(), seq![root], n).0;
            &&& clone_question(v) is Done
            &&& v.cloned == cloned_of(area, Seq::empty(), root)
            &&& v.warnings == Seq::<Seq<char>>::empty()
            &&& v.failure is None
        }),
        forall|k: nat|
            k < n ==> #[trigger] clone_fits(
                clone_run(area, clone_start(), seq![root], k).0,
                success(
                    clone_run(area, clone_start(), seq![root], k).0,
                    clone_run(area, clone_start(), seq![root], k).1,
                ),
            ),
{
    let w = clone_start();
    let n = lemma_clone_run(area, w, seq![root]);
    reveal_with_fuel(to_clone, 2);
    assert(w.levels.drop_last() =~= Seq::<CloneLevel>::empty());
    assert(w.levels.last().dir =~= Seq::<u8>::empty());
    assert(w.cloned + to_clone(area, w.levels, seq![root]) =~= cloned_of(
        area,
        Seq::empty(),
        root,
    ));
    n
}

/// What is cloned of a worktree of which the walk has selected parts.
pub open spec fn area_of(s: Setting, root: Seq<Node>) -> Area {
    Area {
        source: s.source,
        dest: s.dest,
        skip: selected(s, root).skip,
        partial: ancestors_of(selected(s, root).skip),
    }
}

/// What is cloned has nothing to do with what is skipped.
proof fn lemma_cloned_apart(area: Area, dir: Seq<u8>, nodes: Seq<Node>)
    requires
        area.partial == ancestors_of(area.skip),
        are_named(nodes),
        dir.len() == 0 || is_relative(dir) && !is_skipped(area.skip, dir),
    ensures
        forall|i: int, q: Seq<u8>|
            0 <= i < cloned_of(area, dir, nodes).len() && #[trigger] area.skip.contains(q)
                ==> are_apart(#[trigger] cloned_of(area, dir, nodes)[i], q),
    decreases nodes,
{
    if nodes.len() > 0 {
        let path = joined(dir, nodes[0].name);
        let rest = cloned_of(area, dir, nodes.subrange(1, nodes.len() as int));
        let all = cloned_of(area, dir, nodes);
        lemma_joined_relative(dir, nodes[0].name);
        lemma_cloned_apart(area, dir, nodes.subrange(1, nodes.len() as int));
        if treatment_of(area, path) != Treatment::Skip {
            lemma_entry_skipped(area.skip, dir, nodes[0].name);
        }
        match treatment_of(area, path) {
            Treatment::Skip => {},
            Treatment::Recreate => {
                lemma_cloned_apart(area, path, nodes[0].children);
                let inner = cloned_of(area, path, nodes[0].children);
                assert forall|i: int, q: Seq<u8>|
                    0 <= i < all.len() && #[trigger] area.skip.contains(q) implies are_apart(
                    #[trigger] all[i],
                    q,
                ) by {
                    if i < inner.len() {
                        assert(all[i] == inner[i]);
                    } else {
                        assert(all[i] == rest[i - inner.len()]);
                    }
                }
            },
            Treatment::Clone => {
                assert forall|i: int, q: Seq<u8>|
                    0 <= i < all.len() && #[trigger] area.skip.contains(q) implies are_apart(
                    #[trigger] all[i],
                    q,
                ) by {
                    if i > 0 {
                        assert(all[i] == rest[i - 1]);
                    } else if is_parent(path, q) {
                        assert(ancestors_of(area.skip).contains(path));
                    }
                }
            },
        }
    }
}

/// What is there and not skipped is cloned.
proof fn lemma_covered(
    area: Area,
    dir: Seq<u8>,
    nodes: Seq<Node>,
    above: bool,
    path: Seq<u8>,
    node: Node,
    ignored: bool,
)
    requires
        are_named(nodes),
        dir.len() == 0 || is_relative(dir),
        holds(nodes, dir, above, path, node, ignored),
        !is_skipped(area.skip, path),
        !area.partial.contains(path),
        forall|q: Seq<u8>| #[trigger]
            is_under(path, q) ==> !is_under(area.dest, joined(area.source, q)),
    ensures
        covers(cloned_of(area, dir, nodes), path),
    decreases nodes,
{
    let first = joined(dir, nodes[0].name);
    let below = above || nodes[0].ignored;
    let later = nodes.subrange(1, nodes.len() as int);
    let rest = cloned_of(area, dir, later);
    let all = cloned_of(area, dir, nodes);
    lemma_joined_relative(dir, nodes[0].name);
    if path == first && node == nodes[0] && ignored == below {
        assert(is_under(path, first));
        assert(treatment_of(area, first) == Treatment::Clone);
        assert(is_under(path, all[0]));
    } else if holds(nodes[0].children, first, below, path, node, ignored) {
        lemma_holds_below(nodes[0].children, first, below, path, node, ignored);
        assert(is_under(path, first));
        match treatment_of(area, first) {
            Treatment::Skip => {},
            Treatment::Recreate => {
                lemma_covered(area, first, nodes[0].children, below, path, node, ignored);
                let inner = cloned_of(area, first, nodes[0].children);
                let i = choose|i: int| 0 <= i < inner.len() && is_under(path, #[trigger] inner[i]);
                assert(all[i] == inner[i]);
            },
            Treatment::Clone => {
                assert(is_under(path, all[0]));
            },
        }
    } else {
        lemma_covered(area, dir, later, above, path, node, ignored);
        let i = choose|i: int| 0 <= i < rest.len() && is_under(path, #[trigger] rest[i]);
        assert(all[all.len() - rest.len() + i] == rest[i]);
    }
}

/// Tracked files that are there are cloned, unless the worktree's own `.git` or the new
/// worktree is in the way.
pub proof fn law_tracked_files_are_cloned(
    s: Setting,
    root: Seq<Node>,
    f: Seq<u8>,
    node: Node,
    ignored: bool,
)
    requires
        are_named(root),
        are_distinct(root),
        only_directories_hold(root),
        is_closed(s),
        s.files.contains(f),
        is_clear(s, f),
        holds(root, Seq::empty(), false, f, node, ignored),
        node.kind != FileKind::Directory,
    ensures
        covers(cloned_of(area_of(s, root), Seq::empty(), root), f),
{
    law_tracked_files_are_not_skipped(s, root, f, node, ignored);
    lemma_file_holds_nothing(root, Seq::empty(), false, f, node, ignored);
    lemma_file_is_not_partial(s, root, f, node, ignored);
    assert forall|q: Seq<u8>| #[trigger] is_under(f, q) implies !is_under(
        s.dest,
        joined(s.source, q),
    ) by {
        assert(!is_off_limits(s, q));
    }
    lemma_covered(area_of(s, root), Seq::empty(), root, false, f, node, ignored);
}

proof fn lemma_file_holds_nothing(
    nodes: Seq<Node>,
    dir: Seq<u8>,
    above: bool,
    path: Seq<u8>,
    node: Node,
    ignored: bool,
)
    requires
        only_directories_hold(nodes),
        holds(nodes, dir, above, path, node, ignored),
        node.kind != FileKind::Directory,
    ensures
        node.children.len() == 0,
    decreases nodes,
{
    let first = joined(dir, nodes[0].name);
    let below = above || nodes[0].ignored;
    if path == first && node == nodes[0] && ignored == below {
    } else if holds(nodes[0].children, first, below, path, node, ignored) {
        lemma_file_holds_nothing(nodes[0].children, first, below, path, node, ignored);
    } else {
        lemma_file_holds_nothing(
            nodes.subrange(1, nodes.len() as int),
            dir,
            above,
            path,
            node,
            ignored,
        );
    }
}

/// What is carried, and so reported, is cloned.
pub proof fn law_carried_is_cloned(s: Setting, root: Seq<Node>, i: int)
    requires
        are_named(root),
        are_distinct(root),
        0 <= i < selected(s, root).carried.len(),
    ensures
        covers(cloned_of(area_of(s, root), Seq::empty(), root), selected(s, root).carried[i]),
{
    let p = selected(s, root).carried[i];
    let skip = selected(s, root).skip;
    law_carried_is_ignored_and_allowed(s, root, i);
    let node = choose|node: Node| #[trigger]
        holds(root, Seq::empty(), false, p, node, true) && may_be_carried(s, p, node);
    lemma_carried_is_clear(s, root, i);
    assert forall|q: Seq<u8>| #[trigger] is_under(p, q) implies !is_under(
        s.dest,
        joined(s.source, q),
    ) by {
        assert(!is_off_limits(s, q));
    }
    if is_skipped(skip, p) {
        let q = choose|q: Seq<u8>| #[trigger] skip.contains(q) && is_under(p, q);
        law_carried_is_cloned_whole(s, root, i, q);
    }
    if ancestors_of(skip).contains(p) {
        let q = choose|q: Seq<u8>| #[trigger] skip.contains(q) && is_parent(p, q);
        law_carried_is_cloned_whole(s, root, i, q);
    }
    lemma_covered(area_of(s, root), Seq::empty(), root, false, p, node, true);
}

/// When all goes well, all that was selected to be carried is reported as carried over.
pub proof fn law_all_carried_is_reported(s: Setting, root: Seq<Node>, carried: Seq<Seq<u8>>)
    requires
        are_named(root),
        are_distinct(root),
        carried.to_multiset() == selected(s, root).carried.to_multiset(),
    ensures
        carried_over(carried, cloned_of(area_of(s, root), Seq::empty(), root)) == carried,
{
    let all = selected(s, root).carried;
    let cloned = cloned_of(area_of(s, root), Seq::empty(), root);
    carried.to_multiset_ensures();
    all.to_multiset_ensures();
    assert forall|i: int| 0 <= i < carried.len() implies covers(cloned, #[trigger] carried[i]) by {
        assert(carried.contains(carried[i]));
        assert(carried.to_multiset().count(carried[i]) > 0);
        assert(all.contains(carried[i]));
        let k = all.index_of(carried[i]);
        law_carried_is_cloned(s, root, k);
    }
    lemma_all_kept(carried, cloned);
}

proof fn lemma_all_kept(paths: Seq<Seq<u8>>, cloned: Seq<Seq<u8>>)
    requires
        forall|i: int| 0 <= i < paths.len() ==> covers(cloned, #[trigger] paths[i]),
    ensures
        carried_over(paths, cloned) == paths,
    decreases paths.len(),
{
    reveal(Seq::filter);
    if paths.len() > 0 {
        lemma_all_kept(paths.drop_last(), cloned);
        assert(covers(cloned, paths[paths.len() - 1]));
        assert(paths.drop_last().push(paths.last()) =~= paths);
    } else {
        assert(carried_over(paths, cloned) =~= paths);
    }
}

/// Whatever is reported as carried over was selected to be carried and has been cloned.
pub proof fn law_only_cloned_is_reported(
    carried: Seq<Seq<u8>>,
    cloned: Seq<Seq<u8>>,
    i: int,
)
    requires
        0 <= i < carried_over(carried, cloned).len(),
    ensures
        covers(cloned, carried_over(carried, cloned)[i]),
        carried.contains(carried_over(carried, cloned)[i]),
{
    let keep = |p: Seq<u8>| covers(cloned, p);
    let kept = carried.filter(keep);
    carried.lemma_filter_pred(keep, i);
    carried.lemma_filter_contains_rev(keep, kept[i]);
}

/// Nothing that is skipped is cloned, neither by itself nor with a directory on the way to it.
pub proof fn law_skipped_is_not_cloned(s: Setting, root: Seq<Node>, path: Seq<u8>)
    requires
        are_named(root),
        is_skipped(selected(s, root).skip, path),
    ensures
        !covers(cloned_of(area_of(s, root), Seq::empty(), root), path),
{
    let area = area_of(s, root);
    let cloned = cloned_of(area, Seq::empty(), root);
    lemma_cloned_apart(area, Seq::empty(), root);
    let q = choose|q: Seq<u8>| #[trigger] area.skip.contains(q) && is_under(path, q);
    if covers(cloned, path) {
        let i = choose|i: int| 0 <= i < cloned.len() && is_under(path, #[trigger] cloned[i]);
        lemma_common_descendant(path, cloned[i], q);
        assert(are_apart(cloned[i], q));
    }
}

/// Untracked files that git does not ignore (nor a directory on the way to them) are not
/// cloned, whatever else the index has at or below their paths.
pub proof fn law_scratch_is_not_cloned(s: Setting, root: Seq<Node>, path: Seq<u8>, node: Node)
    requires
        are_named(root),
        only_directories_hold(root),
        holds(root, Seq::empty(), false, path, node, false),
        node.kind != FileKind::Directory,
        is_untracked(s, path),
    ensures
        !covers(cloned_of(area_of(s, root), Seq::empty(), root), path),
{
    law_scratch_is_skipped(s, root, path, node);
    law_skipped_is_not_cloned(s, root, path);
}

} // verus!

//! What a walk selects of a worktree, said of the worktree as a whole.
use vstd::prelude::*;
use vstd::string::*;
use vstd::utf8::*;
use crate::order::SEP;
use crate::path::{
    is_name, is_parent, is_relative, is_under, joined, law_below_means_behind_a_separator,
    lemma_common_descendant, lemma_joined_relative, lemma_joined_under, lemma_leads_to_entry, lemma_siblings_apart,
    lemma_under_transitive,
};
use crate::rules::{
    decision, facts_matter, is_never, is_never_name, never_names, Decision, Facts, FileKind,
};
use crate::select::{
    ancestors_of, answered, are_names, at_start, chosen_by, closed_with, decided, entry_path,
    first_move, fits, is_indexed, is_off_limits, is_valid, is_valid_level, move_on, moved, no_facts,
    nothing_chosen, question_of, untracked_move, Chosen, Level, Move, Position, Setting, Stage, Told,
};

verus! {

/// An entry of a directory, with all that can be asked about it.
pub struct Node {
    pub name: Seq<u8>,
    pub kind: FileKind,
    /// Git ignores it.
    pub ignored: bool,
    pub facts: Facts,
    /// Its entries.
    pub children: Seq<Node>,
}

/// The names and kinds of the entries of a directory.
pub open spec fn names_of(nodes: Seq<Node>) -> Seq<(Seq<u8>, FileKind)> {
    Seq::new(nodes.len(), |i: int| (nodes[i].name, nodes[i].kind))
}

/// What is done with an entry of `dir`, all told.
pub open spec fn fate(s: Setting, dir: Seq<u8>, in_ignored: bool, node: Node) -> Move {
    let path = joined(dir, node.name);
    let ruled = decided(decision(s.rules, path, node.name, node.kind, node.facts));
    match first_move(s, dir, in_ignored, node.name, node.kind) {
        Move::AskIgnored => match untracked_move(s, path, node.name, node.kind, node.ignored) {
            Move::AskFacts => ruled,
            m => m,
        },
        Move::AskFacts => ruled,
        m => m,
    }
}

/// What has been selected once the entries of `dir` are dealt with.
pub open spec fn walked(
    s: Setting,
    dir: Seq<u8>,
    in_ignored: bool,
    nodes: Seq<Node>,
    c: Chosen,
) -> Chosen
    decreases nodes,
{
    if nodes.len() == 0 {
        c
    } else {
        let next = visited(s, dir, in_ignored, nodes[0], c);
        walked(s, dir, in_ignored, nodes.subrange(1, nodes.len() as int), next)
    }
}

/// What has been selected once an entry of `dir` is dealt with.
pub open spec fn visited(
    s: Setting,
    dir: Seq<u8>,
    in_ignored: bool,
    node: Node,
    c: Chosen,
) -> Chosen
    decreases node,
{
    let path = joined(dir, node.name);
    match fate(s, dir, in_ignored, node) {
        Move::Enter { in_ignored: inner, for_carried } => {
            let mark = if for_carried {
                Some(c.carried.len())
            } else {
                None
            };
            closed_with(walked(s, path, inner, node.children, c), path, mark)
        },
        m => chosen_by(c, m, path),
    }
}

/// What is selected of a worktree with these entries.
pub open spec fn selected(s: Setting, root: Seq<Node>) -> Chosen {
    walked(s, Seq::empty(), false, root, nothing_chosen())
}

/// All names in a worktree are names.
pub open spec fn are_named(nodes: Seq<Node>) -> bool
    decreases nodes,
{
    nodes.len() == 0 || is_name(nodes[0].name) && are_named(nodes[0].children) && are_named(
        nodes.subrange(1, nodes.len() as int),
    )
}

/// What a walk is told when it is told the truth, where `pending` is what is left of the
/// directories that it is in.
pub open spec fn truth(w: Position, pending: Seq<Seq<Node>>) -> Told {
    match w.stage {
        Stage::List => Told::Entries(names_of(pending.last())),
        Stage::Visit => Told::Nothing,
        Stage::AskIgnored => Told::Ignored(pending.last()[0].ignored),
        Stage::AskFacts => Told::Found(pending.last()[0].facts),
    }
}

/// What is left of the directories that a walk is in, once it has been told the truth.
pub open spec fn pending_after(
    s: Setting,
    w: Position,
    pending: Seq<Seq<Node>>,
) -> Seq<Seq<Node>> {
    let nodes = pending.last();
    let on = pending.drop_last().push(nodes.subrange(1, nodes.len() as int));
    if w.stage == Stage::List {
        pending
    } else if nodes.len() == 0 {
        pending.drop_last()
    } else {
        match move_on(s, w, truth(w, pending)) {
            Move::AskIgnored => pending,
            Move::AskFacts => pending,
            Move::Enter { .. } => on.push(nodes[0].children),
            _ => on,
        }
    }
}

/// A walk that is told the truth `n` times: where it stands, and what is then left of the
/// directories that it is in.
pub open spec fn run(s: Setting, w: Position, pending: Seq<Seq<Node>>, n: nat) -> (
    Position,
    Seq<Seq<Node>>,
)
    decreases n,
{
    if n == 0 {
        (w, pending)
    } else {
        run(
            s,
            answered(s, w, truth(w, pending)),
            pending_after(s, w, pending),
            (n - 1) as nat,
        )
    }
}

/// What a walk selects in the end.
spec fn outcome(s: Setting, levels: Seq<Level>, pending: Seq<Seq<Node>>, c: Chosen) -> Chosen
    decreases levels.len(),
{
    if levels.len() == 0 {
        c
    } else {
        let top = levels.last();
        let done = walked(s, top.dir, top.in_ignored, pending.last(), c);
        outcome(
            s,
            levels.drop_last(),
            pending.drop_last(),
            closed_with(done, top.dir, top.mark),
        )
    }
}

/// Ten for each entry and all below it.
pub open spec fn weight(nodes: Seq<Node>) -> nat
    decreases nodes,
{
    if nodes.len() == 0 {
        0
    } else {
        10 + weight(nodes[0].children) + weight(nodes.subrange(1, nodes.len() as int))
    }
}

/// The weight of what is left of some directories.
pub open spec fn total(pending: Seq<Seq<Node>>) -> nat
    decreases pending.len(),
{
    if pending.len() == 0 {
        0
    } else {
        total(pending.drop_last()) + weight(pending.last())
    }
}

/// An upper bound for how often a walk goes on.
spec fn bound(w: Position, pending: Seq<Seq<Node>>) -> int {
    total(pending) + 3 * w.levels.len() + match w.stage {
        Stage::List => 3int,
        Stage::Visit => 2int,
        Stage::AskIgnored => 1int,
        Stage::AskFacts => 0int,
    }
}

/// A walk is in directories of which `pending` is left.
spec fn mirrors(s: Setting, w: Position, pending: Seq<Seq<Node>>) -> bool {
    let n = w.levels.len() as int;
    &&& is_valid(w)
    &&& pending.len() == n
    &&& forall|i: int| 0 <= i < n ==> are_named(#[trigger] pending[i])
    &&& forall|i: int|
        0 <= i < n && !(i == n - 1 && w.stage == Stage::List) ==> (#[trigger] w.levels[i]).rest
            == names_of(pending[i])
    &&& w.stage == Stage::AskIgnored ==> first_move(
        s,
        w.levels.last().dir,
        w.levels.last().in_ignored,
        pending.last()[0].name,
        pending.last()[0].kind,
    ) == Move::AskIgnored
    &&& w.stage == Stage::AskFacts ==> fate(
        s,
        w.levels.last().dir,
        w.levels.last().in_ignored,
        pending.last()[0],
    ) == decided(
        decision(
            s.rules,
            entry_path(w),
            pending.last()[0].name,
            pending.last()[0].kind,
            pending.last()[0].facts,
        ),
    )
}

/// The entries of a directory whose names are names.
pub proof fn lemma_named(nodes: Seq<Node>)
    requires
        are_named(nodes),
    ensures
        are_names(names_of(nodes)),
    decreases nodes.len(),
{
    if nodes.len() > 0 {
        let rest = nodes.subrange(1, nodes.len() as int);
        lemma_named(rest);
        assert forall|i: int| 0 <= i < nodes.len() implies is_name(
            (#[trigger] names_of(nodes)[i]).0,
        ) by {
            if i > 0 {
                assert(rest[i - 1] == nodes[i]);
                assert(names_of(rest)[i - 1] == names_of(nodes)[i]);
            }
        }
    }
}

/// A walk that is dealt with an entry as its fate says.
proof fn lemma_moved(s: Setting, w: Position, pending: Seq<Seq<Node>>, m: Move)
    requires
        mirrors(s, w, pending),
        w.levels.len() > 0,
        w.stage != Stage::List,
        pending.last().len() > 0,
        m == fate(s, w.levels.last().dir, w.levels.last().in_ignored, pending.last()[0]),
        m != Move::AskIgnored,
        m != Move::AskFacts,
        pending_after(s, w, pending) == (match m {
            Move::Enter { .. } => pending.drop_last().push(
                pending.last().subrange(1, pending.last().len() as int),
            ).push(pending.last()[0].children),
            _ => pending.drop_last().push(
                pending.last().subrange(1, pending.last().len() as int),
            ),
        }),
    ensures
        ({
            let v = moved(w, m);
            let q = pending_after(s, w, pending);
            &&& mirrors(s, v, q)
            &&& bound(v, q) < bound(w, pending)
            &&& outcome(s, v.levels, q, v.chosen) == outcome(s, w.levels, pending, w.chosen)
        }),
{
    let top = w.levels.last();
    let nodes = pending.last();
    let node = nodes[0];
    let rest = nodes.subrange(1, nodes.len() as int);
    let path = joined(top.dir, node.name);
    let v = moved(w, m);
    let q = pending_after(s, w, pending);
    let on = w.levels.drop_last().push(Level { rest: top.rest.drop_first(), ..top });
    let left_on = pending.drop_last().push(rest);
    assert(are_named(pending[pending.len() - 1]));
    assert(is_valid_level(w.levels[w.levels.len() - 1]));
    assert(top.rest == names_of(nodes)) by {
        assert(w.levels[w.levels.len() - 1].rest == names_of(pending[pending.len() - 1]));
    }
    assert(top.rest[0] == (node.name, node.kind));
    assert(entry_path(w) == path);
    assert(top.rest.drop_first() =~= names_of(rest));
    lemma_joined_relative(top.dir, node.name);
    lemma_named(rest);
    assert(on.drop_last() =~= w.levels.drop_last());
    assert(left_on.drop_last() =~= pending.drop_last());
    assert(total(left_on) == total(pending.drop_last()) + weight(rest));
    match m {
        Move::Enter { in_ignored, for_carried } => {
            let inner = v.levels.last();
            assert(v.levels.drop_last() =~= on);
            assert(q.drop_last() =~= left_on);
            assert(total(q) == total(left_on) + weight(node.children));
            assert forall|i: int| 0 <= i < q.len() implies are_named(#[trigger] q[i]) by {
                if i < pending.len() - 1 {
                    assert(q[i] == pending[i]);
                }
            }
            assert forall|i: int| 0 <= i < v.levels.len() implies is_valid_level(
                #[trigger] v.levels[i],
            ) by {
                if i < w.levels.len() - 1 {
                    assert(v.levels[i] == w.levels[i]);
                }
            }
            assert forall|i: int| 0 <= i < v.levels.len() - 1 implies (
            #[trigger] v.levels[i]).rest == names_of(q[i]) by {
                if i < w.levels.len() - 1 {
                    assert(v.levels[i] == w.levels[i]);
                    assert(q[i] == pending[i]);
                }
            }
            let c1 = closed_with(
                walked(s, path, in_ignored, node.children, w.chosen),
                inner.dir,
                inner.mark,
            );
            assert(c1 == visited(s, top.dir, top.in_ignored, node, w.chosen));
            assert(outcome(s, v.levels, q, v.chosen) == outcome(s, on, left_on, c1));
            assert(on.last().dir == top.dir);
        },
        _ => {
            assert forall|i: int| 0 <= i < q.len() implies are_named(#[trigger] q[i]) by {
                if i < pending.len() - 1 {
                    assert(q[i] == pending[i]);
                }
            }
            assert forall|i: int| 0 <= i < v.levels.len() implies is_valid_level(
                #[trigger] v.levels[i],
            ) by {
                if i < w.levels.len() - 1 {
                    assert(v.levels[i] == w.levels[i]);
                }
            }
            assert forall|i: int| 0 <= i < v.levels.len() implies (#[trigger] v.levels[i]).rest
                == names_of(q[i]) by {
                if i < w.levels.len() - 1 {
                    assert(v.levels[i] == w.levels[i]);
                    assert(q[i] == pending[i]);
                }
            }
            assert(v.chosen == visited(s, top.dir, top.in_ignored, node, w.chosen));
        },
    }
}

/// A walk that is told the truth comes nearer to its end, and what it selects stays the same.
proof fn lemma_step(s: Setting, w: Position, pending: Seq<Seq<Node>>)
    requires
        mirrors(s, w, pending),
        w.levels.len() > 0,
    ensures
        fits(w, truth(w, pending)),
        ({
            let v = answered(s, w, truth(w, pending));
            let q = pending_after(s, w, pending);
            &&& mirrors(s, v, q)
            &&& bound(v, q) < bound(w, pending)
            &&& outcome(s, v.levels, q, v.chosen) == outcome(s, w.levels, pending, w.chosen)
        }),
{
    let top = w.levels.last();
    let nodes = pending.last();
    let told = truth(w, pending);
    let v = answered(s, w, told);
    let q = pending_after(s, w, pending);
    assert(are_named(pending[pending.len() - 1]));
    lemma_named(nodes);
    assert(is_valid_level(w.levels[w.levels.len() - 1]));
    if w.stage == Stage::List {
        assert(v.levels.drop_last() =~= w.levels.drop_last());
        assert forall|i: int| 0 <= i < v.levels.len() implies is_valid_level(
            #[trigger] v.levels[i],
        ) && v.levels[i].rest == names_of(q[i]) by {
            if i < w.levels.len() - 1 {
                assert(v.levels[i] == w.levels[i]);
                assert(is_valid_level(w.levels[i]));
            }
        }
    } else {
        assert(top.rest == names_of(nodes)) by {
            assert(w.levels[w.levels.len() - 1].rest == names_of(pending[pending.len() - 1]));
        }
        if nodes.len() == 0 {
            assert(v.levels == w.levels.drop_last());
            assert forall|i: int| 0 <= i < v.levels.len() implies is_valid_level(
                #[trigger] v.levels[i],
            ) && v.levels[i].rest == names_of(q[i]) by {
                assert(v.levels[i] == w.levels[i]);
                assert(is_valid_level(w.levels[i]));
                assert(q[i] == pending[i]);
            }
            assert forall|i: int| 0 <= i < q.len() implies are_named(#[trigger] q[i]) by {
                assert(q[i] == pending[i]);
            }
        } else {
            let m = move_on(s, w, told);
            assert(top.rest[0] == (nodes[0].name, nodes[0].kind));
            match m {
                Move::AskIgnored => {},
                Move::AskFacts => {},
                _ => {
                    lemma_moved(s, w, pending, m);
                },
            }
        }
    }
}

/// Where a walk stands once it has been told the truth until it is over.
proof fn lemma_run(s: Setting, w: Position, pending: Seq<Seq<Node>>) -> (n: nat)
    requires
        mirrors(s, w, pending),
    ensures
        question_of(run(s, w, pending, n).0) is Done,
        run(s, w, pending, n).0.chosen == outcome(s, w.levels, pending, w.chosen),
        forall|k: nat|
            k < n ==> #[trigger] fits(
                run(s, w, pending, k).0,
                truth(run(s, w, pending, k).0, run(s, w, pending, k).1),
            ),
    decreases bound(w, pending),
{
    if w.levels.len() == 0 {
        assert(run(s, w, pending, 0) == (w, pending));
        0
    } else {
        lemma_step(s, w, pending);
        let v = answered(s, w, truth(w, pending));
        let q = pending_after(s, w, pending);
        let m = lemma_run(s, v, q);
        let n = (m + 1) as nat;
        assert(run(s, w, pending, n) == run(s, v, q, m));
        assert forall|k: nat| k < n implies #[trigger] fits(
            run(s, w, pending, k).0,
            truth(run(s, w, pending, k).0, run(s, w, pending, k).1),
        ) by {
            if k == 0 {
                assert(run(s, w, pending, k) == (w, pending));
            } else {
                assert(run(s, w, pending, k) == run(s, v, q, (k - 1) as nat));
                assert(fits(
                    run(s, v, q, (k - 1) as nat).0,
                    truth(run(s, v, q, (k - 1) as nat).0, run(s, v, q, (k - 1) as nat).1),
                ));
            }
        }
        n
    }
}

/// A walk that is told the truth about a worktree comes to an end, and then it has selected
/// what [`selected`] says of the worktree as a whole.
pub proof fn law_walk_ends_with_what_is_selected(s: Setting, root: Seq<Node>) -> (n: nat)
    requires
        are_named(root),
    ensures
        question_of(run(s, at_start(), seq![root], n).0) is Done,
        run(s, at_start(), seq![root], n).0.chosen == selected(s, root),
        forall|k: nat|
            k < n ==> #[trigger] fits(
                run(s, at_start(), seq![root], k).0,
                truth(
                    run(s, at_start(), seq![root], k).0,
                    run(s, at_start(), seq![root], k).1,
                ),
            ),
{
    let w = at_start();
    let n = lemma_run(s, w, seq![root]);
    assert(w.levels.drop_last() =~= Seq::<Level>::empty());
    assert(w.levels.last().dir =~= Seq::<u8>::empty());
    reveal_with_fuel(outcome, 2);
    assert(outcome(s, w.levels, seq![root], w.chosen) == selected(s, root));
    n
}

/// `node` is the entry with the path `path` among the entries of `dir` and below them. It is
/// `ignored` if git ignores it or a directory on the way to it, or if `above` is so of `dir`.
pub open spec fn holds(
    nodes: Seq<Node>,
    dir: Seq<u8>,
    above: bool,
    path: Seq<u8>,
    node: Node,
    ignored: bool,
) -> bool
    decreases nodes,
{
    nodes.len() > 0 && {
        let first = joined(dir, nodes[0].name);
        let below = above || nodes[0].ignored;
        ||| path == first && node == nodes[0] && ignored == below
        ||| holds(nodes[0].children, first, below, path, node, ignored)
        ||| holds(nodes.subrange(1, nodes.len() as int), dir, above, path, node, ignored)
    }
}

/// The path or a directory on the way to it is skipped.
pub open spec fn is_skipped(skip: Set<Seq<u8>>, path: Seq<u8>) -> bool {
    exists|q: Seq<u8>| #[trigger] skip.contains(q) && is_under(path, q)
}

/// An ignored path that the rules let be carried: it is no path that is never carried or that
/// `cow.exclude` matches, no other checkouts lie below it, and `.worktreeinclude` matches it;
/// without `.worktreeinclude` it is not excluded by default, and none is required.
pub open spec fn may_be_carried(s: Setting, path: Seq<u8>, node: Node) -> bool {
    let key = (path, node.kind == FileKind::Directory);
    &&& !is_never(node.name, node.kind, node.facts)
    &&& !(node.kind == FileKind::Directory && node.facts.checkouts)
    &&& !s.rules.user.contains(key)
    &&& match s.rules.listed {
        Some(listed) => listed.contains(key),
        None => !s.rules.require_include && !s.rules.defaults.contains(key),
    }
}

/// There is an ignored entry with this path that the rules let be carried.
pub open spec fn is_carriable(
    s: Setting,
    nodes: Seq<Node>,
    dir: Seq<u8>,
    above: bool,
    path: Seq<u8>,
) -> bool {
    exists|node: Node| #[trigger]
        holds(nodes, dir, above, path, node, true) && may_be_carried(s, path, node)
}

proof fn lemma_carriable_above(
    s: Setting,
    nodes: Seq<Node>,
    dir: Seq<u8>,
    above: bool,
    path: Seq<u8>,
)
    requires
        nodes.len() > 0,
        is_carriable(
            s,
            nodes[0].children,
            joined(dir, nodes[0].name),
            above || nodes[0].ignored,
            path,
        ) || is_carriable(s, nodes.subrange(1, nodes.len() as int), dir, above, path),
    ensures
        is_carriable(s, nodes, dir, above, path),
{
    let first = joined(dir, nodes[0].name);
    let below = above || nodes[0].ignored;
    let rest = nodes.subrange(1, nodes.len() as int);
    if is_carriable(s, nodes[0].children, first, below, path) {
        let node = choose|node: Node| #[trigger]
            holds(nodes[0].children, first, below, path, node, true) && may_be_carried(
                s,
                path,
                node,
            );
        assert(holds(nodes, dir, above, path, node, true));
    } else {
        let node = choose|node: Node| #[trigger]
            holds(rest, dir, above, path, node, true) && may_be_carried(s, path, node);
        assert(holds(nodes, dir, above, path, node, true));
    }
}

/// What is carried of the entries of a directory comes after what was carried before, and is
/// ignored and let through by the rules.
proof fn lemma_carried(
    s: Setting,
    dir: Seq<u8>,
    in_ignored: bool,
    above: bool,
    nodes: Seq<Node>,
    c: Chosen,
)
    requires
        in_ignored ==> above,
    ensures
        c.carried.is_prefix_of(walked(s, dir, in_ignored, nodes, c).carried),
        !s.include_ignored ==> walked(s, dir, in_ignored, nodes, c).carried == c.carried
            && walked(s, dir, in_ignored, nodes, c).excluded == c.excluded,
        forall|i: int|
            c.carried.len() <= i < walked(s, dir, in_ignored, nodes, c).carried.len()
                ==> is_carriable(
                s,
                nodes,
                dir,
                above,
                #[trigger] walked(s, dir, in_ignored, nodes, c).carried[i],
            ),
    decreases nodes,
{
    if nodes.len() > 0 {
        let node = nodes[0];
        let path = joined(dir, node.name);
        let rest = nodes.subrange(1, nodes.len() as int);
        let c1 = visited(s, dir, in_ignored, node, c);
        let r = walked(s, dir, in_ignored, nodes, c);
        lemma_carried(s, dir, in_ignored, above, rest, c1);
        match fate(s, dir, in_ignored, node) {
            Move::Enter { in_ignored: inner, for_carried } => {
                lemma_carried(s, path, inner, above || node.ignored, node.children, c);
                let c2 = walked(s, path, inner, node.children, c);
                assert(c1.carried == c2.carried);
                assert forall|i: int| c.carried.len() <= i < r.carried.len() implies is_carriable(
                    s,
                    nodes,
                    dir,
                    above,
                    #[trigger] r.carried[i],
                ) by {
                    if i < c1.carried.len() {
                        assert(r.carried[i] == c1.carried[i]);
                    }
                    lemma_carriable_above(s, nodes, dir, above, r.carried[i]);
                }
            },
            Move::Carry => {
                assert(may_be_carried(s, path, node));
                assert(holds(nodes, dir, above, path, node, true));
                assert forall|i: int| c.carried.len() <= i < r.carried.len() implies is_carriable(
                    s,
                    nodes,
                    dir,
                    above,
                    #[trigger] r.carried[i],
                ) by {
                    if i < c1.carried.len() {
                        assert(r.carried[i] == c1.carried[i]);
                        assert(r.carried[i] == path);
                    } else {
                        lemma_carriable_above(s, nodes, dir, above, r.carried[i]);
                    }
                }
            },
            _ => {
                assert forall|i: int| c.carried.len() <= i < r.carried.len() implies is_carriable(
                    s,
                    nodes,
                    dir,
                    above,
                    #[trigger] r.carried[i],
                ) by {
                    lemma_carriable_above(s, nodes, dir, above, r.carried[i]);
                }
            },
        }
    }
}

/// Whatever is carried is ignored (itself or by a directory on the way to it), and the rules
/// let it be carried. So a socket or the like, a directory with the metadata of another tool, a
/// checkout, and a directory that holds state bound to its location, or has it one level down,
/// is not carried, whatever `.worktreeinclude` says. What lies further below a directory that is
/// carried is cloned with it; of that, only other checkouts are ruled out
/// ([`law_no_checkout_is_carried`]).
pub proof fn law_carried_is_ignored_and_allowed(s: Setting, root: Seq<Node>, i: int)
    requires
        0 <= i < selected(s, root).carried.len(),
    ensures
        is_carriable(s, root, Seq::empty(), false, selected(s, root).carried[i]),
{
    lemma_carried(s, Seq::empty(), false, false, root, nothing_chosen());
}

/// Where `.worktreeinclude` is required and there is none, nothing is carried.
pub proof fn law_nothing_is_carried_without_a_required_list(s: Setting, root: Seq<Node>)
    requires
        s.rules.listed is None,
        s.rules.require_include,
    ensures
        selected(s, root).carried == Seq::<Seq<u8>>::empty(),
{
    let carried = selected(s, root).carried;
    if carried.len() > 0 {
        law_carried_is_ignored_and_allowed(s, root, 0);
    }
    assert(carried =~= Seq::<Seq<u8>>::empty());
}

/// Where ignored files are not carried, none is, and none is reported as left behind.
pub proof fn law_nothing_is_carried_without_ignored_files(s: Setting, root: Seq<Node>)
    requires
        !s.include_ignored,
    ensures
        selected(s, root).carried == Seq::<Seq<u8>>::empty(),
        selected(s, root).excluded == Seq::<Seq<u8>>::empty(),
{
    lemma_carried(s, Seq::empty(), false, false, root, nothing_chosen());
}

/// What is left behind on purpose is skipped.
spec fn leaves_excluded(c: Chosen) -> bool {
    forall|i: int| 0 <= i < c.excluded.len() ==> is_skipped(c.skip, #[trigger] c.excluded[i])
}

/// What is skipped stays skipped, and what is left behind on purpose is skipped.
proof fn lemma_stays_skipped(s: Setting, dir: Seq<u8>, in_ignored: bool, nodes: Seq<Node>, c: Chosen)
    ensures
        forall|p: Seq<u8>| #[trigger]
            is_skipped(c.skip, p) ==> is_skipped(walked(s, dir, in_ignored, nodes, c).skip, p),
        leaves_excluded(c) ==> leaves_excluded(walked(s, dir, in_ignored, nodes, c)),
    decreases nodes,
{
    if nodes.len() > 0 {
        let node = nodes[0];
        let path = joined(dir, node.name);
        let rest = nodes.subrange(1, nodes.len() as int);
        let c1 = visited(s, dir, in_ignored, node, c);
        lemma_stays_skipped(s, dir, in_ignored, rest, c1);
        match fate(s, dir, in_ignored, node) {
            Move::Enter { in_ignored: inner, for_carried } => {
                let c2 = walked(s, path, inner, node.children, c);
                lemma_stays_skipped(s, path, inner, node.children, c);
                lemma_closed_stays_skipped(
                    c2,
                    path,
                    if for_carried {
                        Some(c.carried.len())
                    } else {
                        None
                    },
                );
            },
            m => {
                lemma_chosen_stays_skipped(c, m, path);
            },
        }
    }
}

proof fn lemma_closed_stays_skipped(c: Chosen, dir: Seq<u8>, mark: Option<nat>)
    ensures
        leaves_excluded(c) ==> leaves_excluded(closed_with(c, dir, mark)),
        forall|p: Seq<u8>| #[trigger]
            is_skipped(c.skip, p) ==> is_skipped(closed_with(c, dir, mark).skip, p),
{
    let r = closed_with(c, dir, mark);
    assert forall|p: Seq<u8>| #[trigger] is_skipped(c.skip, p) implies is_skipped(r.skip, p) by {
        let q = choose|q: Seq<u8>| #[trigger] c.skip.contains(q) && is_under(p, q);
        if !r.skip.contains(q) {
            lemma_under_transitive(p, q, dir);
            assert(r.skip.contains(dir));
        }
    }
}

proof fn lemma_chosen_stays_skipped(c: Chosen, m: Move, path: Seq<u8>)
    ensures
        forall|p: Seq<u8>| #[trigger]
            is_skipped(c.skip, p) ==> is_skipped(chosen_by(c, m, path).skip, p),
        m == Move::Skip || m == Move::Exclude ==> is_skipped(chosen_by(c, m, path).skip, path),
        leaves_excluded(c) ==> leaves_excluded(chosen_by(c, m, path)),
{
    let r = chosen_by(c, m, path);
    assert forall|p: Seq<u8>| #[trigger] is_skipped(c.skip, p) implies is_skipped(r.skip, p) by {
        let q = choose|q: Seq<u8>| #[trigger] c.skip.contains(q) && is_under(p, q);
        assert(r.skip.contains(q));
    }
    if m == Move::Skip || m == Move::Exclude {
        assert(r.skip.contains(path));
    }
    if leaves_excluded(c) {
        assert forall|i: int| 0 <= i < r.excluded.len() implies is_skipped(
            r.skip,
            #[trigger] r.excluded[i],
        ) by {
            if i < c.excluded.len() {
                assert(is_skipped(c.skip, c.excluded[i]));
            }
        }
    }
}

/// What is left behind on purpose is not cloned.
pub proof fn law_excluded_is_skipped(s: Setting, root: Seq<Node>, i: int)
    requires
        0 <= i < selected(s, root).excluded.len(),
    ensures
        is_skipped(selected(s, root).skip, selected(s, root).excluded[i]),
{
    lemma_stays_skipped(s, Seq::empty(), false, root, nothing_chosen());
}

/// The worktree's own `.git` is skipped, and so is the entry of the worktree that the new
/// worktree is or lies in: the new worktree is never cloned into itself.
pub proof fn law_off_limits_is_skipped(s: Setting, root: Seq<Node>, i: int)
    requires
        0 <= i < root.len(),
        is_name(root[i].name),
        is_off_limits(s, root[i].name),
    ensures
        selected(s, root).skip.contains(root[i].name),
{
    lemma_off_limits(s, root, i, nothing_chosen());
    let name = root[i].name;
    let skip = selected(s, root).skip;
    let q = choose|q: Seq<u8>| #[trigger] skip.contains(q) && is_under(name, q);
    if is_parent(q, name) {
        assert(name.contains(SEP));
    }
}

proof fn lemma_off_limits(s: Setting, nodes: Seq<Node>, i: int, c: Chosen)
    requires
        0 <= i < nodes.len(),
        is_name(nodes[i].name),
        is_off_limits(s, nodes[i].name),
    ensures
        is_skipped(walked(s, Seq::empty(), false, nodes, c).skip, nodes[i].name),
    decreases nodes.len(),
{
    let dir = Seq::<u8>::empty();
    let rest = nodes.subrange(1, nodes.len() as int);
    let c1 = visited(s, dir, false, nodes[0], c);
    if i == 0 {
        lemma_joined_relative(dir, nodes[0].name);
        lemma_chosen_stays_skipped(c, Move::Skip, nodes[0].name);
        lemma_stays_skipped(s, dir, false, rest, c1);
        assert(is_skipped(c1.skip, nodes[0].name));
    } else {
        assert(rest[i - 1] == nodes[i]);
        lemma_off_limits(s, rest, i - 1, c1);
    }
}

/// The directories that hold tracked files are those on the way to them.
pub open spec fn is_closed(s: Setting) -> bool {
    forall|f: Seq<u8>, d: Seq<u8>| #[trigger]
        s.files.contains(f) && #[trigger] is_parent(d, f) ==> s.dirs.contains(d)
}

/// None of the directories on the way to `path`, nor `path` itself, is off limits.
pub open spec fn is_clear(s: Setting, path: Seq<u8>) -> bool {
    forall|q: Seq<u8>| #[trigger] is_under(path, q) ==> !is_off_limits(s, q)
}

/// Only directories have entries.
pub open spec fn only_directories_hold(nodes: Seq<Node>) -> bool
    decreases nodes,
{
    nodes.len() == 0 || {
        &&& nodes[0].children.len() > 0 ==> nodes[0].kind == FileKind::Directory
        &&& only_directories_hold(nodes[0].children)
        &&& only_directories_hold(nodes.subrange(1, nodes.len() as int))
    }
}

/// What is held by the entries of a directory lies below it, and is ignored if the directory is.
pub proof fn lemma_holds_below(
    nodes: Seq<Node>,
    dir: Seq<u8>,
    above: bool,
    path: Seq<u8>,
    node: Node,
    ignored: bool,
)
    requires
        holds(nodes, dir, above, path, node, ignored),
        are_named(nodes),
        dir.len() == 0 || is_relative(dir),
    ensures
        dir.len() > 0 ==> is_parent(dir, path),
        above ==> ignored,
    decreases nodes,
{
    let first = joined(dir, nodes[0].name);
    let below = above || nodes[0].ignored;
    lemma_joined_relative(dir, nodes[0].name);
    if path == first && node == nodes[0] && ignored == below {
    } else if holds(nodes[0].children, first, below, path, node, ignored) {
        lemma_holds_below(nodes[0].children, first, below, path, node, ignored);
        if dir.len() > 0 {
            lemma_under_transitive(path, first, dir);
        }
    } else {
        lemma_holds_below(
            nodes.subrange(1, nodes.len() as int),
            dir,
            above,
            path,
            node,
            ignored,
        );
    }
}

/// `path` is not that of a tracked file, and it does not lie in a submodule.
pub open spec fn is_untracked(s: Setting, path: Seq<u8>) -> bool {
    !s.files.contains(path) && forall|q: Seq<u8>| #[trigger]
        is_parent(q, path) ==> !s.submodules.contains(q)
}

proof fn lemma_scratch(
    s: Setting,
    dir: Seq<u8>,
    in_ignored: bool,
    above: bool,
    nodes: Seq<Node>,
    c: Chosen,
    path: Seq<u8>,
    node: Node,
)
    requires
        are_named(nodes),
        only_directories_hold(nodes),
        dir.len() == 0 || is_relative(dir),
        in_ignored ==> above,
        holds(nodes, dir, above, path, node, false),
        node.kind != FileKind::Directory,
        is_untracked(s, path),
    ensures
        is_skipped(walked(s, dir, in_ignored, nodes, c).skip, path),
    decreases nodes,
{
    let node0 = nodes[0];
    let first = joined(dir, node0.name);
    let below = above || node0.ignored;
    let rest = nodes.subrange(1, nodes.len() as int);
    let c1 = visited(s, dir, in_ignored, node0, c);
    lemma_joined_relative(dir, node0.name);
    lemma_holds_below(nodes, dir, above, path, node, false);
    if path == first && node == node0 && !below {
        assert(is_under(path, first));
        lemma_chosen_stays_skipped(c, Move::Skip, first);
        assert(is_skipped(c1.skip, path));
        lemma_stays_skipped(s, dir, in_ignored, rest, c1);
    } else if holds(node0.children, first, below, path, node, false) {
        lemma_holds_below(node0.children, first, below, path, node, false);
        assert(is_under(path, first));
        match fate(s, dir, in_ignored, node0) {
            Move::Enter { in_ignored: inner, for_carried } => {
                lemma_scratch(s, first, inner, below, node0.children, c, path, node);
                lemma_closed_stays_skipped(
                    walked(s, first, inner, node0.children, c),
                    first,
                    if for_carried {
                        Some(c.carried.len())
                    } else {
                        None
                    },
                );
            },
            m => {
                lemma_chosen_stays_skipped(c, m, first);
                assert(c1.skip.contains(first));
            },
        }
        assert(is_skipped(c1.skip, path));
        lemma_stays_skipped(s, dir, in_ignored, rest, c1);
    } else {
        lemma_scratch(s, dir, in_ignored, above, rest, c1, path, node);
    }
}

/// Untracked files that git does not ignore (nor a directory on the way to them) are never
/// cloned, unless they lie in a submodule, which is emptied after cloning. That a tracked
/// directory is at the path in the index, or a tracked file at that of a directory on the way,
/// changes nothing.
pub proof fn law_scratch_is_skipped(s: Setting, root: Seq<Node>, path: Seq<u8>, node: Node)
    requires
        are_named(root),
        only_directories_hold(root),
        holds(root, Seq::empty(), false, path, node, false),
        node.kind != FileKind::Directory,
        is_untracked(s, path),
    ensures
        is_skipped(selected(s, root).skip, path),
{
    lemma_scratch(s, Seq::empty(), false, false, root, nothing_chosen(), path, node);
}

/// No two entries of a directory have the same name.
pub open spec fn are_distinct(nodes: Seq<Node>) -> bool
    decreases nodes,
{
    nodes.len() == 0 || {
        &&& forall|i: int| 1 <= i < nodes.len() ==> (#[trigger] nodes[i]).name != nodes[0].name
        &&& are_distinct(nodes[0].children)
        &&& are_distinct(nodes.subrange(1, nodes.len() as int))
    }
}

/// Neither path lies below the other.
pub open spec fn are_apart(a: Seq<u8>, b: Seq<u8>) -> bool {
    !is_under(a, b) && !is_under(b, a)
}

/// `p` has nothing to do with the entries of `dir`.
pub open spec fn is_elsewhere(p: Seq<u8>, dir: Seq<u8>, nodes: Seq<Node>) -> bool {
    forall|i: int| 0 <= i < nodes.len() ==> are_apart(p, joined(dir, (#[trigger] nodes[i]).name))
}

/// `p` is one of the entries of `dir` or lies below one.
pub open spec fn is_among(p: Seq<u8>, dir: Seq<u8>, nodes: Seq<Node>) -> bool {
    exists|i: int| 0 <= i < nodes.len() && is_under(p, joined(dir, (#[trigger] nodes[i]).name))
}

/// Nothing skipped and nothing carried has to do with the other.
spec fn keeps_apart(c: Chosen) -> bool {
    forall|i: int, q: Seq<u8>|
        0 <= i < c.carried.len() && #[trigger] c.skip.contains(q) ==> are_apart(
            #[trigger] c.carried[i],
            q,
        )
}

/// Nothing that was selected has to do with the entries of `dir`.
pub open spec fn all_elsewhere(c: Chosen, dir: Seq<u8>, nodes: Seq<Node>) -> bool {
    &&& forall|q: Seq<u8>| #[trigger] c.skip.contains(q) ==> is_elsewhere(q, dir, nodes)
    &&& forall|i: int| 0 <= i < c.carried.len() ==> is_elsewhere(#[trigger] c.carried[i], dir, nodes)
}

/// What is new in `r` compared with `c` is among the entries of `dir`.
spec fn adds_among(c: Chosen, r: Chosen, dir: Seq<u8>, nodes: Seq<Node>) -> bool {
    &&& c.carried.is_prefix_of(r.carried)
    &&& forall|q: Seq<u8>| #[trigger]
        r.skip.contains(q) ==> c.skip.contains(q) || is_among(q, dir, nodes)
    &&& forall|i: int|
        c.carried.len() <= i < r.carried.len() ==> is_among(#[trigger] r.carried[i], dir, nodes)
}

/// What lies below one entry of a directory has nothing to do with another one.
pub proof fn lemma_apart_from_sibling(p: Seq<u8>, dir: Seq<u8>, a: Seq<u8>, b: Seq<u8>)
    requires
        dir.len() == 0 || is_relative(dir),
        is_name(a),
        is_name(b),
        a != b,
        is_under(p, joined(dir, a)),
    ensures
        are_apart(p, joined(dir, b)),
{
    lemma_siblings_apart(dir, a, b);
    lemma_siblings_apart(dir, b, a);
    if is_under(p, joined(dir, b)) {
        lemma_common_descendant(p, joined(dir, a), joined(dir, b));
    }
    if is_under(joined(dir, b), p) {
        lemma_under_transitive(joined(dir, b), p, joined(dir, a));
    }
}

/// What has nothing to do with a directory has nothing to do with its entries.
pub proof fn lemma_elsewhere_below(p: Seq<u8>, dir: Seq<u8>, nodes: Seq<Node>)
    requires
        is_relative(dir),
        are_named(nodes),
        are_apart(p, dir),
    ensures
        is_elsewhere(p, dir, nodes),
{
    lemma_named(nodes);
    assert forall|i: int| 0 <= i < nodes.len() implies are_apart(
        p,
        joined(dir, (#[trigger] nodes[i]).name),
    ) by {
        let name = names_of(nodes)[i].0;
        assert(is_name(name));
        let child = joined(dir, name);
        lemma_joined_relative(dir, name);
        if is_under(p, child) {
            lemma_under_transitive(p, child, dir);
        }
        if is_parent(p, child) {
            lemma_leads_to_entry(dir, name, p);
        }
    }
}

proof fn lemma_apart(s: Setting, dir: Seq<u8>, in_ignored: bool, nodes: Seq<Node>, c: Chosen)
    requires
        are_named(nodes),
        are_distinct(nodes),
        dir.len() == 0 || is_relative(dir),
        keeps_apart(c),
        all_elsewhere(c, dir, nodes),
    ensures
        keeps_apart(walked(s, dir, in_ignored, nodes, c)),
        adds_among(c, walked(s, dir, in_ignored, nodes, c), dir, nodes),
    decreases nodes, 0int,
{
    if nodes.len() > 0 {
        let node = nodes[0];
        let rest = nodes.subrange(1, nodes.len() as int);
        let first = joined(dir, node.name);
        let c1 = visited(s, dir, in_ignored, node, c);
        let r = walked(s, dir, in_ignored, nodes, c);
        lemma_joined_relative(dir, node.name);
        lemma_named(nodes);
        assert(forall|q: Seq<u8>| #[trigger]
            c.skip.contains(q) ==> is_elsewhere(q, dir, nodes) && are_apart(
                q,
                joined(dir, nodes[0].name),
            ));
        assert(forall|i: int|
            0 <= i < c.carried.len() ==> is_elsewhere(#[trigger] c.carried[i], dir, nodes)
                && are_apart(c.carried[i], joined(dir, nodes[0].name)));
        lemma_apart_at(s, dir, in_ignored, node, c);
        assert forall|p: Seq<u8>| #[trigger] is_under(p, first) implies is_elsewhere(
            p,
            dir,
            rest,
        ) by {
            assert forall|i: int| 0 <= i < rest.len() implies are_apart(
                p,
                joined(dir, (#[trigger] rest[i]).name),
            ) by {
                assert(rest[i] == nodes[i + 1]);
                assert(is_name(names_of(nodes)[i + 1].0));
                lemma_apart_from_sibling(p, dir, node.name, rest[i].name);
            }
        }
        assert forall|p: Seq<u8>| #[trigger] is_elsewhere(p, dir, nodes) implies is_elsewhere(
            p,
            dir,
            rest,
        ) by {
            assert forall|i: int| 0 <= i < rest.len() implies are_apart(
                p,
                joined(dir, (#[trigger] rest[i]).name),
            ) by {
                assert(rest[i] == nodes[i + 1]);
            }
        }
        assert(all_elsewhere(c1, dir, rest)) by {
            assert forall|i: int| 0 <= i < c1.carried.len() implies is_elsewhere(
                #[trigger] c1.carried[i],
                dir,
                rest,
            ) by {
                if i < c.carried.len() {
                    assert(c1.carried[i] == c.carried[i]);
                } else {
                    assert(is_under(c1.carried[i], first));
                }
            }
        }
        lemma_apart(s, dir, in_ignored, rest, c1);
        assert forall|p: Seq<u8>| #[trigger] is_among(p, dir, rest) implies is_among(
            p,
            dir,
            nodes,
        ) by {
            let i = choose|i: int|
                0 <= i < rest.len() && is_under(p, joined(dir, (#[trigger] rest[i]).name));
            assert(nodes[i + 1] == rest[i]);
        }
        assert forall|p: Seq<u8>| #[trigger] is_under(p, first) implies is_among(
            p,
            dir,
            nodes,
        ) by {
            assert(is_under(p, joined(dir, nodes[0].name)));
        }
        assert forall|i: int| c.carried.len() <= i < r.carried.len() implies is_among(
            #[trigger] r.carried[i],
            dir,
            nodes,
        ) by {
            if i < c1.carried.len() {
                assert(r.carried[i] == c1.carried[i]);
                assert(is_under(c1.carried[i], first));
            }
        }
        assert forall|q: Seq<u8>| #[trigger] r.skip.contains(q) implies c.skip.contains(q)
            || is_among(q, dir, nodes) by {
            if c1.skip.contains(q) && !c.skip.contains(q) {
                assert(is_under(q, first));
            }
        }
    }
}

/// The same for one entry.
proof fn lemma_apart_at(s: Setting, dir: Seq<u8>, in_ignored: bool, node: Node, c: Chosen)
    requires
        is_name(node.name),
        are_named(node.children),
        are_distinct(node.children),
        dir.len() == 0 || is_relative(dir),
        keeps_apart(c),
        forall|q: Seq<u8>| #[trigger]
            c.skip.contains(q) ==> are_apart(q, joined(dir, node.name)),
        forall|i: int|
            0 <= i < c.carried.len() ==> are_apart(
                #[trigger] c.carried[i],
                joined(dir, node.name),
            ),
    ensures
        ({
            let r = visited(s, dir, in_ignored, node, c);
            let path = joined(dir, node.name);
            &&& keeps_apart(r)
            &&& c.carried.is_prefix_of(r.carried)
            &&& forall|q: Seq<u8>| #[trigger]
                r.skip.contains(q) ==> c.skip.contains(q) || is_under(q, path)
            &&& forall|i: int|
                c.carried.len() <= i < r.carried.len() ==> is_under(#[trigger] r.carried[i], path)
        }),
    decreases node, 1int,
{
    let path = joined(dir, node.name);
    let r = visited(s, dir, in_ignored, node, c);
    lemma_joined_relative(dir, node.name);
    match fate(s, dir, in_ignored, node) {
        Move::Enter { in_ignored: inner, for_carried } => {
            assert forall|q: Seq<u8>| #[trigger] c.skip.contains(q) implies is_elsewhere(
                q,
                path,
                node.children,
            ) by {
                lemma_elsewhere_below(q, path, node.children);
            }
            assert forall|i: int| 0 <= i < c.carried.len() implies is_elsewhere(
                #[trigger] c.carried[i],
                path,
                node.children,
            ) by {
                lemma_elsewhere_below(c.carried[i], path, node.children);
            }
            lemma_apart(s, path, inner, node.children, c);
            let c2 = walked(s, path, inner, node.children, c);
            lemma_named(node.children);
            assert forall|p: Seq<u8>| #[trigger] is_among(p, path, node.children) implies is_under(
                p,
                path,
            ) by {
                let i = choose|i: int|
                    0 <= i < node.children.len() && is_under(
                        p,
                        joined(path, (#[trigger] node.children[i]).name),
                    );
                assert(is_name(names_of(node.children)[i].0));
                lemma_joined_relative(path, node.children[i].name);
                lemma_under_transitive(p, joined(path, node.children[i].name), path);
            }
            assert(r.carried == c2.carried);
            assert forall|q: Seq<u8>| #[trigger] r.skip.contains(q) implies c.skip.contains(q)
                || is_under(q, path) by {
                if q != path {
                    assert(c2.skip.contains(q));
                }
            }
            assert forall|i: int, q: Seq<u8>|
                0 <= i < r.carried.len() && #[trigger] r.skip.contains(q) implies are_apart(
                #[trigger] r.carried[i],
                q,
            ) by {
                if c2.skip.contains(q) {
                    assert(are_apart(c2.carried[i], q));
                } else {
                    assert(q == path);
                    assert(c2.carried.len() == c.carried.len());
                    assert(c2.carried[i] == c.carried[i]);
                }
            }
        },
        m => {
            assert forall|i: int, q: Seq<u8>|
                0 <= i < r.carried.len() && #[trigger] r.skip.contains(q) implies are_apart(
                #[trigger] r.carried[i],
                q,
            ) by {
                if i < c.carried.len() {
                    assert(r.carried[i] == c.carried[i]);
                    if c.skip.contains(q) {
                        assert(are_apart(c.carried[i], q));
                    }
                } else {
                    assert(are_apart(q, path));
                }
            }
        },
    }
}

/// What is carried is cloned whole: neither it, nor a directory on the way to it, nor anything
/// below it is skipped.
pub proof fn law_carried_is_cloned_whole(s: Setting, root: Seq<Node>, i: int, q: Seq<u8>)
    requires
        are_named(root),
        are_distinct(root),
        0 <= i < selected(s, root).carried.len(),
        selected(s, root).skip.contains(q),
    ensures
        are_apart(selected(s, root).carried[i], q),
{
    lemma_apart(s, Seq::empty(), false, root, nothing_chosen());
}

/// There is an entry with the path `path` among the entries of `dir` and below them.
pub open spec fn is_there(nodes: Seq<Node>, dir: Seq<u8>, path: Seq<u8>) -> bool
    decreases nodes,
{
    nodes.len() > 0 && {
        let first = joined(dir, nodes[0].name);
        ||| path == first
        ||| is_there(nodes[0].children, first, path)
        ||| is_there(nodes.subrange(1, nodes.len() as int), dir, path)
    }
}

/// What is there is one of the entries or lies below one.
proof fn lemma_there_among(nodes: Seq<Node>, dir: Seq<u8>, path: Seq<u8>)
    requires
        are_named(nodes),
        dir.len() == 0 || is_relative(dir),
        is_there(nodes, dir, path),
    ensures
        is_among(path, dir, nodes),
        is_relative(path),
    decreases nodes,
{
    let first = joined(dir, nodes[0].name);
    let rest = nodes.subrange(1, nodes.len() as int);
    lemma_joined_relative(dir, nodes[0].name);
    if path == first {
        assert(is_under(path, joined(dir, nodes[0].name)));
    } else if is_there(nodes[0].children, first, path) {
        lemma_there_among(nodes[0].children, first, path);
        lemma_among_below(path, first, nodes[0].children);
        assert(is_under(path, joined(dir, nodes[0].name)));
    } else {
        lemma_there_among(rest, dir, path);
        let i = choose|i: int|
            0 <= i < rest.len() && is_under(path, joined(dir, (#[trigger] rest[i]).name));
        assert(nodes[i + 1] == rest[i]);
    }
}

/// What lies below an entry of a directory lies below the directory.
pub proof fn lemma_among_below(path: Seq<u8>, dir: Seq<u8>, nodes: Seq<Node>)
    requires
        is_relative(dir),
        are_named(nodes),
        is_among(path, dir, nodes),
    ensures
        is_parent(dir, path),
{
    lemma_named(nodes);
    let i = choose|i: int|
        0 <= i < nodes.len() && is_under(path, joined(dir, (#[trigger] nodes[i]).name));
    assert(is_name(names_of(nodes)[i].0));
    lemma_joined_relative(dir, nodes[i].name);
    lemma_under_transitive(path, joined(dir, nodes[i].name), dir);
}

/// What is held is there.
pub proof fn lemma_held_is_there(
    nodes: Seq<Node>,
    dir: Seq<u8>,
    above: bool,
    path: Seq<u8>,
    node: Node,
    ignored: bool,
)
    requires
        holds(nodes, dir, above, path, node, ignored),
    ensures
        is_there(nodes, dir, path),
    decreases nodes,
{
    let first = joined(dir, nodes[0].name);
    let below = above || nodes[0].ignored;
    if holds(nodes[0].children, first, below, path, node, ignored) {
        lemma_held_is_there(nodes[0].children, first, below, path, node, ignored);
    } else if holds(nodes.subrange(1, nodes.len() as int), dir, above, path, node, ignored) {
        lemma_held_is_there(
            nodes.subrange(1, nodes.len() as int),
            dir,
            above,
            path,
            node,
            ignored,
        );
    }
}

/// Whatever is skipped is there.
proof fn lemma_skipped_is_there(
    s: Setting,
    dir: Seq<u8>,
    in_ignored: bool,
    nodes: Seq<Node>,
    c: Chosen,
    q: Seq<u8>,
)
    requires
        walked(s, dir, in_ignored, nodes, c).skip.contains(q),
    ensures
        c.skip.contains(q) || is_there(nodes, dir, q),
    decreases nodes,
{
    if nodes.len() > 0 {
        let node = nodes[0];
        let path = joined(dir, node.name);
        let c1 = visited(s, dir, in_ignored, node, c);
        lemma_skipped_is_there(
            s,
            dir,
            in_ignored,
            nodes.subrange(1, nodes.len() as int),
            c1,
            q,
        );
        if c1.skip.contains(q) && q != path {
            match fate(s, dir, in_ignored, node) {
                Move::Enter { in_ignored: inner, for_carried } => {
                    let c2 = walked(s, path, inner, node.children, c);
                    assert(c2.skip.contains(q));
                    lemma_skipped_is_there(s, path, inner, node.children, c, q);
                },
                m => {},
            }
        }
    }
}

/// Nothing is there below an entry that holds nothing.
proof fn lemma_nothing_below(
    nodes: Seq<Node>,
    dir: Seq<u8>,
    above: bool,
    path: Seq<u8>,
    node: Node,
    ignored: bool,
    q: Seq<u8>,
)
    requires
        are_named(nodes),
        are_distinct(nodes),
        dir.len() == 0 || is_relative(dir),
        holds(nodes, dir, above, path, node, ignored),
        node.children.len() == 0,
        is_there(nodes, dir, q),
    ensures
        !is_parent(path, q),
    decreases nodes,
{
    if is_parent(path, q) {
        let first = joined(dir, nodes[0].name);
        let below = above || nodes[0].ignored;
        let rest = nodes.subrange(1, nodes.len() as int);
        lemma_joined_relative(dir, nodes[0].name);
        lemma_named(nodes);
        if is_there(nodes[0].children, first, q) {
            lemma_there_among(nodes[0].children, first, q);
            lemma_among_below(q, first, nodes[0].children);
        }
        if is_there(rest, dir, q) {
            lemma_there_among(rest, dir, q);
            lemma_among_rest(nodes, dir, q);
        }
        if path == first && node == nodes[0] && ignored == below {
        } else if holds(nodes[0].children, first, below, path, node, ignored) {
            lemma_holds_below(nodes[0].children, first, below, path, node, ignored);
            lemma_under_transitive(q, path, first);
            if is_there(nodes[0].children, first, q) {
                lemma_nothing_below(nodes[0].children, first, below, path, node, ignored, q);
            }
        } else {
            lemma_held_is_there(rest, dir, above, path, node, ignored);
            lemma_there_among(rest, dir, path);
            let i = choose|i: int|
                0 <= i < rest.len() && is_under(path, joined(dir, (#[trigger] rest[i]).name));
            lemma_under_transitive(q, path, joined(dir, rest[i].name));
            assert(is_among(q, dir, rest));
            lemma_among_rest(nodes, dir, q);
            lemma_nothing_below(rest, dir, above, path, node, ignored, q);
        }
    }
}

/// What is among the later entries of a directory does not lie below the first one.
proof fn lemma_among_rest(nodes: Seq<Node>, dir: Seq<u8>, p: Seq<u8>)
    requires
        nodes.len() > 0,
        are_named(nodes),
        are_distinct(nodes),
        dir.len() == 0 || is_relative(dir),
        is_among(p, dir, nodes.subrange(1, nodes.len() as int)),
    ensures
        are_apart(p, joined(dir, nodes[0].name)),
{
    let rest = nodes.subrange(1, nodes.len() as int);
    let i = choose|i: int|
        0 <= i < rest.len() && is_under(p, joined(dir, (#[trigger] rest[i]).name));
    lemma_named(nodes);
    assert(rest[i] == nodes[i + 1]);
    assert(is_name(names_of(nodes)[i + 1].0));
    lemma_apart_from_sibling(p, dir, nodes[i + 1].name, nodes[0].name);
}

/// A directory among the entries is where `f` lies, if `f` lies below it, and the entry at `f`
/// itself is `node`.
proof fn lemma_way_to(
    nodes: Seq<Node>,
    dir: Seq<u8>,
    above: bool,
    f: Seq<u8>,
    node: Node,
    ignored: bool,
)
    requires
        nodes.len() > 0,
        are_named(nodes),
        are_distinct(nodes),
        only_directories_hold(nodes),
        dir.len() == 0 || is_relative(dir),
        holds(nodes, dir, above, f, node, ignored),
    ensures
        ({
            let first = joined(dir, nodes[0].name);
            let rest = nodes.subrange(1, nodes.len() as int);
            &&& f == first ==> nodes[0] == node
            &&& is_parent(first, f) ==> nodes[0].kind == FileKind::Directory && holds(
                nodes[0].children,
                first,
                above || nodes[0].ignored,
                f,
                node,
                ignored,
            )
            &&& !is_under(f, first) ==> holds(rest, dir, above, f, node, ignored)
        }),
{
    let first = joined(dir, nodes[0].name);
    let below = above || nodes[0].ignored;
    let rest = nodes.subrange(1, nodes.len() as int);
    lemma_joined_relative(dir, nodes[0].name);
    if holds(nodes[0].children, first, below, f, node, ignored) {
        lemma_holds_below(nodes[0].children, first, below, f, node, ignored);
    }
    if holds(rest, dir, above, f, node, ignored) {
        lemma_held_is_there(rest, dir, above, f, node, ignored);
        lemma_there_among(rest, dir, f);
        lemma_among_rest(nodes, dir, f);
    }
}

proof fn lemma_tracked(
    s: Setting,
    dir: Seq<u8>,
    in_ignored: bool,
    nodes: Seq<Node>,
    c: Chosen,
    f: Seq<u8>,
    above: bool,
    node: Node,
    ignored: bool,
)
    requires
        is_closed(s),
        is_clear(s, f),
        s.files.contains(f),
        node.kind != FileKind::Directory || s.submodules.contains(f),
        are_named(nodes),
        are_distinct(nodes),
        only_directories_hold(nodes),
        dir.len() == 0 && !in_ignored || is_relative(dir),
        in_ignored ==> !is_under(f, dir),
        is_among(f, dir, nodes) ==> holds(nodes, dir, above, f, node, ignored),
        !is_skipped(c.skip, f),
    ensures
        !is_skipped(walked(s, dir, in_ignored, nodes, c).skip, f),
    decreases nodes,
{
    if nodes.len() > 0 {
        let node0 = nodes[0];
        let path = joined(dir, node0.name);
        let below = above || node0.ignored;
        let rest = nodes.subrange(1, nodes.len() as int);
        let c1 = visited(s, dir, in_ignored, node0, c);
        lemma_joined_relative(dir, node0.name);
        if is_under(f, path) {
            if dir.len() > 0 {
                lemma_under_transitive(f, path, dir);
            }
            assert(is_under(f, joined(dir, nodes[0].name)));
            assert(is_among(f, dir, nodes));
            lemma_way_to(nodes, dir, above, f, node, ignored);
            assert(!is_off_limits(s, path));
            if is_parent(path, f) {
                assert(s.dirs.contains(path));
            }
        }
        match fate(s, dir, in_ignored, node0) {
            Move::Enter { in_ignored: inner, for_carried } => {
                if is_among(f, path, node0.children) {
                    lemma_among_below(f, path, node0.children);
                }
                lemma_tracked(s, path, inner, node0.children, c, f, below, node, ignored);
                let c2 = walked(s, path, inner, node0.children, c);
                if is_skipped(c1.skip, f) {
                    let q = choose|q: Seq<u8>| #[trigger] c1.skip.contains(q) && is_under(f, q);
                    if q != path || !for_carried {
                        assert(c2.skip.contains(q));
                    }
                }
            },
            m => {
                if is_skipped(c1.skip, f) {
                    let q = choose|q: Seq<u8>| #[trigger] c1.skip.contains(q) && is_under(f, q);
                    assert(c.skip.contains(q) || q == path);
                }
            },
        }
        if is_among(f, dir, rest) {
            let i = choose|i: int|
                0 <= i < rest.len() && is_under(f, joined(dir, (#[trigger] rest[i]).name));
            assert(nodes[i + 1] == rest[i]);
            assert(is_among(f, dir, nodes));
            lemma_among_rest(nodes, dir, f);
            lemma_way_to(nodes, dir, above, f, node, ignored);
        }
        lemma_tracked(s, dir, in_ignored, rest, c1, f, above, node, ignored);
    }
}

/// Tracked files that are there, and submodules, are always cloned, unless the worktree's own
/// `.git` or the new worktree is in the way.
pub proof fn law_tracked_files_are_not_skipped(
    s: Setting,
    root: Seq<Node>,
    f: Seq<u8>,
    node: Node,
    ignored: bool,
)
    requires
        are_named(root),
        are_distinct(root),
        only_directories_hold(root),
        is_closed(s),
        s.files.contains(f),
        is_clear(s, f),
        holds(root, Seq::empty(), false, f, node, ignored),
        node.kind != FileKind::Directory || s.submodules.contains(f),
    ensures
        !is_skipped(selected(s, root).skip, f),
{
    lemma_tracked(s, Seq::empty(), false, root, nothing_chosen(), f, false, node, ignored);
}

/// No path that is skipped lies below an entry that holds nothing.
pub proof fn lemma_file_is_not_partial(
    s: Setting,
    root: Seq<Node>,
    path: Seq<u8>,
    node: Node,
    ignored: bool,
)
    requires
        are_named(root),
        are_distinct(root),
        holds(root, Seq::empty(), false, path, node, ignored),
        node.children.len() == 0,
    ensures
        !ancestors_of(selected(s, root).skip).contains(path),
{
    let skip = selected(s, root).skip;
    if ancestors_of(skip).contains(path) {
        let q = choose|q: Seq<u8>| #[trigger] skip.contains(q) && is_parent(path, q);
        lemma_skipped_is_there(s, Seq::empty(), false, root, nothing_chosen(), q);
        lemma_nothing_below(root, Seq::empty(), false, path, node, ignored, q);
    }
}

/// What is carried is clear of what is off limits.
pub proof fn lemma_carried_is_clear(s: Setting, root: Seq<Node>, i: int)
    requires
        are_named(root),
        are_distinct(root),
        0 <= i < selected(s, root).carried.len(),
    ensures
        is_clear(s, selected(s, root).carried[i]),
{
    let p = selected(s, root).carried[i];
    let dir = Seq::<u8>::empty();
    law_carried_is_ignored_and_allowed(s, root, i);
    let node = choose|node: Node| #[trigger]
        holds(root, dir, false, p, node, true) && may_be_carried(s, p, node);
    lemma_held_is_there(root, dir, false, p, node, true);
    lemma_there_among(root, dir, p);
    let j = choose|j: int|
        0 <= j < root.len() && is_under(p, joined(dir, (#[trigger] root[j]).name));
    let name = root[j].name;
    lemma_named(root);
    assert(is_name(names_of(root)[j].0));
    lemma_joined_relative(dir, name);
    assert forall|q: Seq<u8>| #[trigger] is_under(p, q) implies !is_off_limits(s, q) by {
        if is_off_limits(s, q) {
            lemma_common_descendant(p, q, name);
            if is_parent(q, name) {
                assert(name.contains(SEP));
            }
            assert(is_under(q, name));
            lemma_joined_under(s.source, q, name);
            if is_under(s.dest, joined(s.source, q)) {
                lemma_under_transitive(s.dest, joined(s.source, q), joined(s.source, name));
            } else if is_parent(name, q) {
                reveal_strlit(".git");
                is_ascii_chars_encode_utf8(".git"@);
                assert(q[name.len() as int] == ".git"@[name.len() as int] as u8);
            }
            law_off_limits_is_skipped(s, root, j);
            law_carried_is_cloned_whole(s, root, i, name);
        }
    }
}

/// `node` is the entry with the path `path` among the entries of `dir` and below them, and the
/// walk comes to it through directories that hold tracked files, or that are neither tracked nor
/// ignored.
pub open spec fn is_met(
    s: Setting,
    nodes: Seq<Node>,
    dir: Seq<u8>,
    path: Seq<u8>,
    node: Node,
) -> bool
    decreases nodes,
{
    nodes.len() > 0 && {
        let first = joined(dir, nodes[0].name);
        let is_open = nodes[0].kind == FileKind::Directory && !is_off_limits(s, first) && (
        s.dirs.contains(first) || !s.submodules.contains(first) && !nodes[0].ignored);
        ||| path == first && node == nodes[0]
        ||| is_open && is_met(s, nodes[0].children, first, path, node)
        ||| is_met(s, nodes.subrange(1, nodes.len() as int), dir, path, node)
    }
}

/// An ignored path at which the index has nothing of its kind, and that is not off limits.
pub open spec fn is_ignored_only(s: Setting, path: Seq<u8>, node: Node) -> bool {
    node.ignored && !is_indexed(s, path, node.kind) && !is_off_limits(s, path)
}

proof fn lemma_excluded_stays(s: Setting, dir: Seq<u8>, in_ignored: bool, nodes: Seq<Node>, c: Chosen)
    ensures
        c.excluded.is_prefix_of(walked(s, dir, in_ignored, nodes, c).excluded),
    decreases nodes,
{
    if nodes.len() > 0 {
        let node = nodes[0];
        let path = joined(dir, node.name);
        let c1 = visited(s, dir, in_ignored, node, c);
        match fate(s, dir, in_ignored, node) {
            Move::Enter { in_ignored: inner, for_carried } => {
                lemma_excluded_stays(s, path, inner, node.children, c);
            },
            m => {},
        }
        lemma_excluded_stays(s, dir, in_ignored, nodes.subrange(1, nodes.len() as int), c1);
    }
}

proof fn lemma_prefix_contains(a: Seq<Seq<u8>>, b: Seq<Seq<u8>>, p: Seq<u8>)
    requires
        a.is_prefix_of(b),
        a.contains(p),
    ensures
        b.contains(p),
{
    let i = a.index_of(p);
    assert(b[i] == a[i]);
}

proof fn lemma_met(
    s: Setting,
    dir: Seq<u8>,
    nodes: Seq<Node>,
    c: Chosen,
    path: Seq<u8>,
    node: Node,
)
    requires
        s.include_ignored,
        is_met(s, nodes, dir, path, node),
        is_ignored_only(s, path, node),
    ensures
        ({
            let r = walked(s, dir, false, nodes, c);
            let d = decision(s.rules, path, node.name, node.kind, node.facts);
            &&& d == Decision::Carry ==> r.carried.contains(path)
            &&& d == Decision::Exclude ==> r.excluded.contains(path)
        }),
    decreases nodes,
{
    let node0 = nodes[0];
    let first = joined(dir, node0.name);
    let rest = nodes.subrange(1, nodes.len() as int);
    let c1 = visited(s, dir, false, node0, c);
    let r = walked(s, dir, false, nodes, c);
    let d = decision(s.rules, path, node.name, node.kind, node.facts);
    let is_open = node0.kind == FileKind::Directory && !is_off_limits(s, first) && (
    s.dirs.contains(first) || !s.submodules.contains(first) && !node0.ignored);
    lemma_carried(s, dir, false, false, rest, c1);
    lemma_excluded_stays(s, dir, false, rest, c1);
    if path == first && node == node0 {
        if !facts_matter(node.name, node.kind) {
            assert(is_never(node.name, node.kind, node.facts) == is_never(
                node.name,
                node.kind,
                no_facts(),
            ));
        }
        assert(fate(s, dir, false, node0) == decided(d));
        if d == Decision::Carry {
            assert(c1.carried == c.carried.push(path));
            assert(c1.carried[c.carried.len() as int] == path);
            lemma_prefix_contains(c1.carried, r.carried, path);
        } else if d == Decision::Exclude {
            assert(c1.excluded == c.excluded.push(path));
            assert(c1.excluded[c.excluded.len() as int] == path);
            lemma_prefix_contains(c1.excluded, r.excluded, path);
        }
    } else if is_open && is_met(s, node0.children, first, path, node) {
        lemma_met(s, first, node0.children, c, path, node);
        let c2 = walked(s, first, false, node0.children, c);
        assert(c1.carried == c2.carried && c1.excluded == c2.excluded);
        if d == Decision::Carry {
            lemma_prefix_contains(c1.carried, r.carried, path);
        } else if d == Decision::Exclude {
            lemma_prefix_contains(c1.excluded, r.excluded, path);
        }
    } else {
        lemma_met(s, dir, rest, c1, path, node);
    }
}

/// Where ignored files are carried, each ignored path that the walk comes to and that the rules
/// let be carried is carried.
pub proof fn law_allowed_is_carried(s: Setting, root: Seq<Node>, path: Seq<u8>, node: Node)
    requires
        s.include_ignored,
        is_met(s, root, Seq::empty(), path, node),
        is_ignored_only(s, path, node),
        may_be_carried(s, path, node),
    ensures
        selected(s, root).carried.contains(path),
{
    lemma_met(s, Seq::empty(), root, nothing_chosen(), path, node);
}

/// Where ignored files are carried, each ignored path that the walk comes to and that is never
/// carried, or that `cow.exclude` matches, is reported as left behind on purpose, and so is,
/// without `.worktreeinclude`, one that is not carried by default (unless a list is required).
pub proof fn law_left_behind_is_reported(s: Setting, root: Seq<Node>, path: Seq<u8>, node: Node)
    requires
        s.include_ignored,
        is_met(s, root, Seq::empty(), path, node),
        is_ignored_only(s, path, node),
        ({
            let key = (path, node.kind == FileKind::Directory);
            ||| is_never(node.name, node.kind, node.facts)
            ||| s.rules.user.contains(key)
            ||| s.rules.listed is None && !s.rules.require_include && s.rules.defaults.contains(key)
        }),
    ensures
        selected(s, root).excluded.contains(path),
{
    lemma_met(s, Seq::empty(), root, nothing_chosen(), path, node);
}

/// What is below an entry matters only if the entry is entered: what is carried, left behind or
/// skipped is not looked into, however large it is.
pub proof fn law_only_entered_directories_matter(
    s: Setting,
    dir: Seq<u8>,
    in_ignored: bool,
    node: Node,
    children: Seq<Node>,
    c: Chosen,
)
    requires
        !(fate(s, dir, in_ignored, node) is Enter),
    ensures
        visited(s, dir, in_ignored, Node { children, ..node }, c) == visited(
            s,
            dir,
            in_ignored,
            node,
            c,
        ),
{
}

/// Without `.worktreeinclude` no ignored directory is entered, unless it holds tracked files, or
/// other checkouts lie below it.
pub proof fn law_ignored_trees_are_not_entered(
    s: Setting,
    dir: Seq<u8>,
    in_ignored: bool,
    node: Node,
)
    requires
        s.rules.listed is None,
        !node.facts.checkouts,
        in_ignored || node.ignored && !s.dirs.contains(joined(dir, node.name)),
    ensures
        !(fate(s, dir, in_ignored, node) is Enter),
{
}

/// There is an entry with this name among the entries or below them, at any depth.
pub open spec fn contains_name(nodes: Seq<Node>, name: Seq<u8>) -> bool
    decreases nodes,
{
    nodes.len() > 0 && {
        ||| nodes[0].name == name
        ||| contains_name(nodes[0].children, name)
        ||| contains_name(nodes.subrange(1, nodes.len() as int), name)
    }
}

/// What is known of directories says rightly whether anything named `.git` lies below them.
pub open spec fn checkouts_are_known(nodes: Seq<Node>) -> bool
    decreases nodes,
{
    nodes.len() == 0 || {
        &&& nodes[0].facts.checkouts == contains_name(nodes[0].children, encode_utf8(".git"@))
        &&& checkouts_are_known(nodes[0].children)
        &&& checkouts_are_known(nodes.subrange(1, nodes.len() as int))
    }
}

/// What is held has its name among the entries or below them.
proof fn lemma_held_is_named(
    nodes: Seq<Node>,
    dir: Seq<u8>,
    above: bool,
    path: Seq<u8>,
    node: Node,
    ignored: bool,
)
    requires
        holds(nodes, dir, above, path, node, ignored),
    ensures
        contains_name(nodes, node.name),
    decreases nodes,
{
    let first = joined(dir, nodes[0].name);
    let below = above || nodes[0].ignored;
    let rest = nodes.subrange(1, nodes.len() as int);
    if holds(nodes[0].children, first, below, path, node, ignored) {
        lemma_held_is_named(nodes[0].children, first, below, path, node, ignored);
    } else if holds(rest, dir, above, path, node, ignored) {
        lemma_held_is_named(rest, dir, above, path, node, ignored);
    }
}

/// Of two entries, one of which lies below the other or is the same, the lower one is among what
/// the upper one holds.
proof fn lemma_held_below(
    nodes: Seq<Node>,
    dir: Seq<u8>,
    above: bool,
    p: Seq<u8>,
    n: Node,
    p_ignored: bool,
    q: Seq<u8>,
    m: Node,
    q_ignored: bool,
)
    requires
        are_named(nodes),
        are_distinct(nodes),
        only_directories_hold(nodes),
        checkouts_are_known(nodes),
        dir.len() == 0 || is_relative(dir),
        holds(nodes, dir, above, p, n, p_ignored),
        holds(nodes, dir, above, q, m, q_ignored),
        is_under(q, p),
    ensures
        p == q ==> n == m,
        p != q ==> n.kind == FileKind::Directory && contains_name(n.children, m.name),
        n.facts.checkouts == contains_name(n.children, encode_utf8(".git"@)),
    decreases nodes,
{
    let first = joined(dir, nodes[0].name);
    let below = above || nodes[0].ignored;
    let rest = nodes.subrange(1, nodes.len() as int);
    lemma_joined_relative(dir, nodes[0].name);
    lemma_way_to(nodes, dir, above, p, n, p_ignored);
    lemma_way_to(nodes, dir, above, q, m, q_ignored);
    if p == first {
        if q != first {
            lemma_held_is_named(nodes[0].children, first, below, q, m, q_ignored);
        }
    } else if is_parent(first, p) {
        lemma_under_transitive(q, p, first);
        lemma_held_below(nodes[0].children, first, below, p, n, p_ignored, q, m, q_ignored);
    } else {
        lemma_held_is_there(rest, dir, above, p, n, p_ignored);
        lemma_there_among(rest, dir, p);
        let i = choose|i: int|
            0 <= i < rest.len() && is_under(p, joined(dir, (#[trigger] rest[i]).name));
        lemma_under_transitive(q, p, joined(dir, rest[i].name));
        assert(is_among(q, dir, rest));
        lemma_among_rest(nodes, dir, q);
        lemma_held_below(rest, dir, above, p, n, p_ignored, q, m, q_ignored);
    }
}

/// Nothing named `.git` is carried, nor lies below anything that is carried, at any depth: no
/// other repository or worktree is carried along.
pub proof fn law_no_checkout_is_carried(
    s: Setting,
    root: Seq<Node>,
    i: int,
    path: Seq<u8>,
    node: Node,
    ignored: bool,
)
    requires
        are_named(root),
        are_distinct(root),
        only_directories_hold(root),
        checkouts_are_known(root),
        0 <= i < selected(s, root).carried.len(),
        holds(root, Seq::empty(), false, path, node, ignored),
        node.name == encode_utf8(".git"@),
    ensures
        !is_under(path, selected(s, root).carried[i]),
{
    let p = selected(s, root).carried[i];
    law_carried_is_ignored_and_allowed(s, root, i);
    let n = choose|n: Node| #[trigger]
        holds(root, Seq::empty(), false, p, n, true) && may_be_carried(s, p, n);
    if is_under(path, p) {
        lemma_held_below(root, Seq::empty(), false, p, n, true, path, node, ignored);
        assert(never_names()[0] == ".git"@);
        assert(is_never_name(encode_utf8(never_names()[0])));
    }
}

/// `node` is the entry with the path `path` among the entries of `dir` and below them, and the
/// walk comes to it: through directories that hold tracked files or that are neither tracked nor
/// ignored, and through ignored ones that the rules want walked. `inside` says whether there is
/// one of the latter on the way.
pub open spec fn is_reached(
    s: Setting,
    nodes: Seq<Node>,
    dir: Seq<u8>,
    in_ignored: bool,
    path: Seq<u8>,
    node: Node,
    inside: bool,
) -> bool
    decreases nodes,
{
    nodes.len() > 0 && {
        let n = nodes[0];
        let first = joined(dir, n.name);
        let ruled = in_ignored || n.ignored && !is_indexed(s, first, n.kind);
        let is_open = n.kind == FileKind::Directory && !is_off_limits(s, first) && if ruled {
            decision(s.rules, first, n.name, n.kind, n.facts) == Decision::Descend
        } else {
            s.dirs.contains(first) || !s.submodules.contains(first)
        };
        ||| path == first && node == n && inside == in_ignored
        ||| is_open && is_reached(s, n.children, first, ruled, path, node, inside)
        ||| is_reached(
            s,
            nodes.subrange(1, nodes.len() as int),
            dir,
            in_ignored,
            path,
            node,
            inside,
        )
    }
}

proof fn lemma_reached(
    s: Setting,
    dir: Seq<u8>,
    in_ignored: bool,
    nodes: Seq<Node>,
    c: Chosen,
    path: Seq<u8>,
    node: Node,
    inside: bool,
)
    requires
        s.include_ignored,
        is_reached(s, nodes, dir, in_ignored, path, node, inside),
        !is_off_limits(s, path),
        inside || is_ignored_only(s, path, node),
    ensures
        ({
            let r = walked(s, dir, in_ignored, nodes, c);
            let d = decision(s.rules, path, node.name, node.kind, node.facts);
            &&& d == Decision::Carry ==> r.carried.contains(path)
            &&& d == Decision::Exclude ==> r.excluded.contains(path)
        }),
    decreases nodes,
{
    let node0 = nodes[0];
    let first = joined(dir, node0.name);
    let rest = nodes.subrange(1, nodes.len() as int);
    let c1 = visited(s, dir, in_ignored, node0, c);
    let r = walked(s, dir, in_ignored, nodes, c);
    let d = decision(s.rules, path, node.name, node.kind, node.facts);
    let ruled = in_ignored || node0.ignored && !is_indexed(s, first, node0.kind);
    let is_open = node0.kind == FileKind::Directory && !is_off_limits(s, first) && if ruled {
        decision(s.rules, first, node0.name, node0.kind, node0.facts) == Decision::Descend
    } else {
        s.dirs.contains(first) || !s.submodules.contains(first)
    };
    lemma_carried(s, dir, in_ignored, in_ignored, rest, c1);
    lemma_excluded_stays(s, dir, in_ignored, rest, c1);
    if path == first && node == node0 && inside == in_ignored {
        if !facts_matter(node.name, node.kind) {
            assert(is_never(node.name, node.kind, node.facts) == is_never(
                node.name,
                node.kind,
                no_facts(),
            ));
        }
        assert(fate(s, dir, in_ignored, node0) == decided(d));
        if d == Decision::Carry {
            assert(c1.carried == c.carried.push(path));
            assert(c1.carried[c.carried.len() as int] == path);
            lemma_prefix_contains(c1.carried, r.carried, path);
        } else if d == Decision::Exclude {
            assert(c1.excluded == c.excluded.push(path));
            assert(c1.excluded[c.excluded.len() as int] == path);
            lemma_prefix_contains(c1.excluded, r.excluded, path);
        }
    } else if is_open && is_reached(s, node0.children, first, ruled, path, node, inside) {
        lemma_reached(s, first, ruled, node0.children, c, path, node, inside);
        let c2 = walked(s, first, ruled, node0.children, c);
        assert(c1.carried == c2.carried && c1.excluded == c2.excluded);
        if d == Decision::Carry {
            lemma_prefix_contains(c1.carried, r.carried, path);
        } else if d == Decision::Exclude {
            lemma_prefix_contains(c1.excluded, r.excluded, path);
        }
    } else {
        lemma_reached(s, dir, in_ignored, rest, c1, path, node, inside);
    }
}

/// Inside ignored directories that a line of `.worktreeinclude` reaches into, or that have other
/// checkouts below them, everything is decided on by itself, at any depth: what the rules let be
/// carried is carried, and what is left behind on purpose is reported.
pub proof fn law_decided_inside_ignored_directories(
    s: Setting,
    root: Seq<Node>,
    path: Seq<u8>,
    node: Node,
)
    requires
        s.include_ignored,
        is_reached(s, root, Seq::empty(), false, path, node, true),
        !is_off_limits(s, path),
    ensures
        may_be_carried(s, path, node) ==> selected(s, root).carried.contains(path),
        is_never(node.name, node.kind, node.facts) || s.rules.user.contains(
            (path, node.kind == FileKind::Directory),
        ) ==> selected(s, root).excluded.contains(path),
{
    lemma_reached(s, Seq::empty(), false, root, nothing_chosen(), path, node, true);
}

/// The worktree's own `.git` is off limits, and so are the new worktree and all directories
/// around it, and nothing else.
pub proof fn law_own_git_and_new_worktree_are_off_limits(
    s: Setting,
    path: Seq<u8>,
    rest: Seq<u8>,
)
    ensures
        is_off_limits(s, encode_utf8(".git"@)),
        s.dest == joined(s.source, path) ==> is_off_limits(s, path),
        s.dest == joined(s.source, path) + seq![0x2fu8] + rest ==> is_off_limits(s, path),
        is_off_limits(s, path) && path != encode_utf8(".git"@) && s.dest != joined(s.source, path)
            ==> joined(s.source, path).push(0x2fu8).is_prefix_of(s.dest),
{
    let p = joined(s.source, path);
    law_below_means_behind_a_separator(s.dest, p, rest);
    if is_under(s.dest, p) && s.dest != p {
        assert(s.dest.subrange(0, p.len() as int + 1) =~= p.push(0x2fu8));
    }
}

proof fn lemma_empty_handed(
    s: Setting,
    dir: Seq<u8>,
    in_ignored: bool,
    above: bool,
    nodes: Seq<Node>,
    c: Chosen,
    path: Seq<u8>,
    node: Node,
    ignored: bool,
)
    requires
        are_named(nodes),
        only_directories_hold(nodes),
        dir.len() == 0 || is_relative(dir),
        in_ignored ==> above,
        holds(nodes, dir, above, path, node, ignored),
        !is_indexed(s, path, node.kind),
        forall|q: Seq<u8>| #[trigger] is_parent(q, path) ==> !s.submodules.contains(q),
        forall|i: int|
            c.carried.len() <= i < walked(s, dir, in_ignored, nodes, c).carried.len() ==> are_apart(
                #[trigger] walked(s, dir, in_ignored, nodes, c).carried[i],
                path,
            ),
    ensures
        is_skipped(walked(s, dir, in_ignored, nodes, c).skip, path),
    decreases nodes,
{
    let node0 = nodes[0];
    let first = joined(dir, node0.name);
    let below = above || node0.ignored;
    let rest = nodes.subrange(1, nodes.len() as int);
    let c1 = visited(s, dir, in_ignored, node0, c);
    let r = walked(s, dir, in_ignored, nodes, c);
    lemma_joined_relative(dir, node0.name);
    lemma_carried(s, dir, in_ignored, above, rest, c1);
    assert forall|i: int| c.carried.len() <= i < c1.carried.len() implies are_apart(
        #[trigger] c1.carried[i],
        path,
    ) by {
        assert(r.carried[i] == c1.carried[i]);
    }
    if path == first && node == node0 && ignored == below {
        match fate(s, dir, in_ignored, node0) {
            Move::Enter { in_ignored: inner, for_carried } => {
                let c2 = walked(s, first, inner, node0.children, c);
                lemma_carried(s, first, inner, below, node0.children, c);
                if c2.carried.len() > c.carried.len() {
                    let p = c2.carried[c.carried.len() as int];
                    let n = choose|n: Node| #[trigger]
                        holds(node0.children, first, below, p, n, true) && may_be_carried(s, p, n);
                    lemma_holds_below(node0.children, first, below, p, n, true);
                    assert(c1.carried[c.carried.len() as int] == p);
                }
                assert(c1.skip.contains(first));
            },
            m => {
                lemma_chosen_stays_skipped(c, m, first);
                if m == Move::Carry {
                    assert(c1.carried[c.carried.len() as int] == first);
                }
            },
        }
        assert(is_skipped(c1.skip, path));
        lemma_stays_skipped(s, dir, in_ignored, rest, c1);
    } else if holds(node0.children, first, below, path, node, ignored) {
        lemma_holds_below(node0.children, first, below, path, node, ignored);
        assert(is_under(path, first));
        match fate(s, dir, in_ignored, node0) {
            Move::Enter { in_ignored: inner, for_carried } => {
                let c2 = walked(s, first, inner, node0.children, c);
                assert(c1.carried == c2.carried);
                assert forall|i: int| c.carried.len() <= i < c2.carried.len() implies are_apart(
                    #[trigger] c2.carried[i],
                    path,
                ) by {
                    assert(c1.carried[i] == c2.carried[i]);
                }
                lemma_empty_handed(
                    s,
                    first,
                    inner,
                    below,
                    node0.children,
                    c,
                    path,
                    node,
                    ignored,
                );
                lemma_closed_stays_skipped(
                    c2,
                    first,
                    if for_carried {
                        Some(c.carried.len())
                    } else {
                        None
                    },
                );
            },
            m => {
                lemma_chosen_stays_skipped(c, m, first);
                if m == Move::Carry {
                    assert(c1.carried[c.carried.len() as int] == first);
                } else {
                    assert(c1.skip.contains(first));
                }
            },
        }
        assert(is_skipped(c1.skip, path));
        lemma_stays_skipped(s, dir, in_ignored, rest, c1);
    } else {
        assert forall|i: int| c1.carried.len() <= i < r.carried.len() implies are_apart(
            #[trigger] r.carried[i],
            path,
        ) by {
            lemma_carried_grows(s, dir, in_ignored, above, node0, c);
        }
        lemma_empty_handed(s, dir, in_ignored, above, rest, c1, path, node, ignored);
    }
}

proof fn lemma_carried_grows(
    s: Setting,
    dir: Seq<u8>,
    in_ignored: bool,
    above: bool,
    node: Node,
    c: Chosen,
)
    requires
        in_ignored ==> above,
    ensures
        c.carried.len() <= visited(s, dir, in_ignored, node, c).carried.len(),
{
    match fate(s, dir, in_ignored, node) {
        Move::Enter { in_ignored: inner, for_carried } => {
            lemma_carried(
                s,
                joined(dir, node.name),
                inner,
                above || node.ignored,
                node.children,
                c,
            );
        },
        _ => {},
    }
}

/// Whatever the index has nothing of its kind for, and does not lie in a submodule, is either
/// carried, by itself or with a directory around it, or skipped, whether git ignores it or not. A
/// directory of which nothing is carried is skipped as a whole: it is not made anew for nothing.
pub proof fn law_untracked_is_carried_or_skipped(
    s: Setting,
    root: Seq<Node>,
    path: Seq<u8>,
    node: Node,
    ignored: bool,
)
    requires
        are_named(root),
        only_directories_hold(root),
        holds(root, Seq::empty(), false, path, node, ignored),
        !is_indexed(s, path, node.kind),
        forall|q: Seq<u8>| #[trigger] is_parent(q, path) ==> !s.submodules.contains(q),
        forall|i: int|
            0 <= i < selected(s, root).carried.len() ==> are_apart(
                #[trigger] selected(s, root).carried[i],
                path,
            ),
    ensures
        is_skipped(selected(s, root).skip, path),
{
    let r = walked(s, Seq::empty(), false, root, nothing_chosen());
    assert forall|i: int| 0 <= i < r.carried.len() implies are_apart(
        #[trigger] r.carried[i],
        path,
    ) by {
        assert(r.carried[i] == selected(s, root).carried[i]);
    }
    lemma_empty_handed(
        s,
        Seq::empty(),
        false,
        false,
        root,
        nothing_chosen(),
        path,
        node,
        ignored,
    );
}

/// An ignored path that is left behind on purpose: it is one that is never carried or that
/// `cow.exclude` matches, or, without `.worktreeinclude`, one that is not carried by default,
/// unless a list is required.
pub open spec fn is_left_on_purpose(s: Setting, path: Seq<u8>, node: Node) -> bool {
    let key = (path, node.kind == FileKind::Directory);
    ||| is_never(node.name, node.kind, node.facts)
    ||| s.rules.user.contains(key)
    ||| s.rules.listed is None && !s.rules.require_include && s.rules.defaults.contains(key)
}

/// There is an ignored entry with this path that is left behind on purpose.
pub open spec fn is_excludable(
    s: Setting,
    nodes: Seq<Node>,
    dir: Seq<u8>,
    above: bool,
    path: Seq<u8>,
) -> bool {
    exists|node: Node| #[trigger]
        holds(nodes, dir, above, path, node, true) && is_left_on_purpose(s, path, node)
}

proof fn lemma_excludable_above(
    s: Setting,
    nodes: Seq<Node>,
    dir: Seq<u8>,
    above: bool,
    path: Seq<u8>,
)
    requires
        nodes.len() > 0,
        is_excludable(
            s,
            nodes[0].children,
            joined(dir, nodes[0].name),
            above || nodes[0].ignored,
            path,
        ) || is_excludable(s, nodes.subrange(1, nodes.len() as int), dir, above, path),
    ensures
        is_excludable(s, nodes, dir, above, path),
{
    let first = joined(dir, nodes[0].name);
    let below = above || nodes[0].ignored;
    let rest = nodes.subrange(1, nodes.len() as int);
    if is_excludable(s, nodes[0].children, first, below, path) {
        let node = choose|node: Node| #[trigger]
            holds(nodes[0].children, first, below, path, node, true) && is_left_on_purpose(
                s,
                path,
                node,
            );
        assert(holds(nodes, dir, above, path, node, true));
    } else {
        let node = choose|node: Node| #[trigger]
            holds(rest, dir, above, path, node, true) && is_left_on_purpose(s, path, node);
        assert(holds(nodes, dir, above, path, node, true));
    }
}

proof fn lemma_excluded(
    s: Setting,
    dir: Seq<u8>,
    in_ignored: bool,
    above: bool,
    nodes: Seq<Node>,
    c: Chosen,
)
    requires
        in_ignored ==> above,
    ensures
        forall|i: int|
            c.excluded.len() <= i < walked(s, dir, in_ignored, nodes, c).excluded.len()
                ==> is_excludable(
                s,
                nodes,
                dir,
                above,
                #[trigger] walked(s, dir, in_ignored, nodes, c).excluded[i],
            ),
    decreases nodes,
{
    if nodes.len() > 0 {
        let node = nodes[0];
        let path = joined(dir, node.name);
        let rest = nodes.subrange(1, nodes.len() as int);
        let c1 = visited(s, dir, in_ignored, node, c);
        let r = walked(s, dir, in_ignored, nodes, c);
        lemma_excluded(s, dir, in_ignored, above, rest, c1);
        lemma_excluded_stays(s, dir, in_ignored, rest, c1);
        let m = fate(s, dir, in_ignored, node);
        if m is Enter {
            let inner = m->in_ignored;
            lemma_excluded(s, path, inner, above || node.ignored, node.children, c);
            lemma_excluded_stays(s, path, inner, node.children, c);
            assert(c1.excluded == walked(s, path, inner, node.children, c).excluded);
        }
        if m == Move::Exclude {
            if !facts_matter(node.name, node.kind) {
                assert(is_never(node.name, node.kind, node.facts) == is_never(
                    node.name,
                    node.kind,
                    no_facts(),
                ));
            }
            assert(is_left_on_purpose(s, path, node));
            assert(holds(nodes, dir, above, path, node, true));
        }
        assert forall|i: int| c.excluded.len() <= i < r.excluded.len() implies is_excludable(
            s,
            nodes,
            dir,
            above,
            #[trigger] r.excluded[i],
        ) by {
            if i < c1.excluded.len() {
                assert(r.excluded[i] == c1.excluded[i]);
                if m is Enter {
                    lemma_excludable_above(s, nodes, dir, above, r.excluded[i]);
                } else {
                    assert(r.excluded[i] == path);
                }
            } else {
                lemma_excludable_above(s, nodes, dir, above, r.excluded[i]);
            }
        }
    }
}

/// Whatever is reported as left behind on purpose is ignored (itself or by a directory on the way
/// to it), and left behind for what it is, for its name, for `cow.exclude` or by default. Scratch
/// files, and what a list merely does not name, are not reported.
pub proof fn law_excluded_is_ignored_and_left_on_purpose(s: Setting, root: Seq<Node>, i: int)
    requires
        0 <= i < selected(s, root).excluded.len(),
    ensures
        is_excludable(s, root, Seq::empty(), false, selected(s, root).excluded[i]),
{
    lemma_excluded(s, Seq::empty(), false, false, root, nothing_chosen());
    let r = walked(s, Seq::empty(), false, root, nothing_chosen());
    assert(is_excludable(s, root, Seq::empty(), false, r.excluded[i]));
}

} // verus!

//! The order in which directories are listed does not matter to what is selected.
use vstd::prelude::*;
use crate::order::{ascending, law_order_is_unique, Order};
use crate::path::{is_name, is_relative, is_under, joined, lemma_joined_relative};
use crate::select::{nothing_chosen, Chosen, Move, Setting};
use crate::tree::{
    all_elsewhere, are_apart, are_distinct, are_named, fate, is_among, is_elsewhere,
    lemma_among_below, lemma_apart_from_sibling, lemma_elsewhere_below, lemma_named, names_of,
    selected, visited, walked, Node,
};

verus! {

/// Two entries that differ at most in the order of what is below them.
pub open spec fn are_alike(a: Node, b: Node) -> bool
    decreases a,
{
    &&& a.name == b.name
    &&& a.kind == b.kind
    &&& a.ignored == b.ignored
    &&& a.facts == b.facts
    &&& are_reordered(a.children, b.children)
}

/// The same entries in another order, and so on for all below them.
#[verifier::opaque]
pub open spec fn are_reordered(a: Seq<Node>, b: Seq<Node>) -> bool
    decreases a,
{
    &&& forall|i: int|
        0 <= i < a.len() ==> exists|j: int|
            0 <= j < b.len() && are_alike(#[trigger] a[i], #[trigger] b[j])
    &&& forall|j: int|
        0 <= j < b.len() ==> exists|i: int|
            0 <= i < a.len() && are_alike(#[trigger] a[i], #[trigger] b[j])
}

/// What is below entries that are alike is the same in another order.
proof fn lemma_below_alike(a: Node, b: Node)
    requires
        are_alike(a, b),
    ensures
        are_reordered(a.children, b.children),
{
    reveal_with_fuel(are_reordered, 2);
    reveal_with_fuel(are_alike, 2);
}

/// Each entry has one that is alike.
proof fn lemma_match(a: Seq<Node>, b: Seq<Node>, i: int) -> (j: int)
    requires
        are_reordered(a, b),
        0 <= i < a.len(),
    ensures
        0 <= j < b.len(),
        are_alike(a[i], b[j]),
{
    reveal(are_reordered);
    choose|j: int| 0 <= j < b.len() && are_alike(a[i], #[trigger] b[j])
}

/// Each entry is one that is alike.
proof fn lemma_match_back(a: Seq<Node>, b: Seq<Node>, j: int) -> (i: int)
    requires
        are_reordered(a, b),
        0 <= j < b.len(),
    ensures
        0 <= i < a.len(),
        are_alike(a[i], b[j]),
{
    reveal(are_reordered);
    choose|i: int| 0 <= i < a.len() && are_alike(#[trigger] a[i], b[j])
}

/// What has been selected in two steps.
spec fn both(c: Chosen, d: Chosen) -> Chosen {
    Chosen {
        skip: c.skip + d.skip,
        carried: c.carried + d.carried,
        excluded: c.excluded + d.excluded,
    }
}

/// What an entry adds by itself.
spec fn alone(s: Setting, dir: Seq<u8>, in_ignored: bool, node: Node) -> Chosen {
    visited(s, dir, in_ignored, node, nothing_chosen())
}

/// The parts of a selection.
enum Part {
    Skip,
    Carried,
    Excluded,
}

/// A path is in a part of a selection.
spec fn is_in(c: Chosen, part: Part, p: Seq<u8>) -> bool {
    match part {
        Part::Skip => c.skip.contains(p),
        Part::Carried => c.carried.contains(p),
        Part::Excluded => c.excluded.contains(p),
    }
}

/// All that was selected is `path` or lies below it.
spec fn is_within(c: Chosen, path: Seq<u8>) -> bool {
    forall|part: Part, p: Seq<u8>| #[trigger] is_in(c, part, p) ==> is_under(p, path)
}

/// All that was selected is among the entries of `dir`.
spec fn is_all_among(c: Chosen, dir: Seq<u8>, nodes: Seq<Node>) -> bool {
    forall|part: Part, p: Seq<u8>| #[trigger] is_in(c, part, p) ==> is_among(p, dir, nodes)
}

/// One of the entries adds a path to a part of the selection.
spec fn some_adds(
    s: Setting,
    dir: Seq<u8>,
    in_ignored: bool,
    nodes: Seq<Node>,
    part: Part,
    p: Seq<u8>,
) -> bool {
    exists|i: int|
        0 <= i < nodes.len() && is_in(alone(s, dir, in_ignored, #[trigger] nodes[i]), part, p)
}

proof fn lemma_both_empty(c: Chosen)
    ensures
        both(nothing_chosen(), c) == c,
        both(c, nothing_chosen()) == c,
{
    assert(both(nothing_chosen(), c).skip =~= c.skip);
    assert(both(nothing_chosen(), c).carried =~= c.carried);
    assert(both(nothing_chosen(), c).excluded =~= c.excluded);
    assert(both(c, nothing_chosen()).skip =~= c.skip);
    assert(both(c, nothing_chosen()).carried =~= c.carried);
    assert(both(c, nothing_chosen()).excluded =~= c.excluded);
}

proof fn lemma_both_associates(c: Chosen, d: Chosen, e: Chosen)
    ensures
        both(both(c, d), e) == both(c, both(d, e)),
{
    assert(both(both(c, d), e).skip =~= both(c, both(d, e)).skip);
    assert(both(both(c, d), e).carried =~= both(c, both(d, e)).carried);
    assert(both(both(c, d), e).excluded =~= both(c, both(d, e)).excluded);
}

/// What has been selected in two steps has been selected in the first or in the second.
proof fn lemma_in_both(c: Chosen, d: Chosen, part: Part, p: Seq<u8>)
    ensures
        is_in(both(c, d), part, p) <==> is_in(c, part, p) || is_in(d, part, p),
{
    lemma_sum_contains(c.carried, d.carried, p);
    lemma_sum_contains(c.excluded, d.excluded, p);
}

/// What is in one of two lists is in the first or in the second.
proof fn lemma_sum_contains(a: Seq<Seq<u8>>, b: Seq<Seq<u8>>, p: Seq<u8>)
    ensures
        (a + b).contains(p) <==> a.contains(p) || b.contains(p),
{
    if a.contains(p) {
        let i = a.index_of(p);
        assert((a + b)[i] == p);
    }
    if b.contains(p) {
        let i = b.index_of(p);
        assert((a + b)[a.len() + i] == p);
    }
    if (a + b).contains(p) {
        let i = (a + b).index_of(p);
        if i < a.len() {
            assert(a[i] == p);
        } else {
            assert(b[i - a.len()] == p);
        }
    }
}

/// What has to do with none of the entries of a directory has to do with none of the later ones.
proof fn lemma_elsewhere_rest(p: Seq<u8>, dir: Seq<u8>, nodes: Seq<Node>)
    requires
        nodes.len() > 0,
        is_elsewhere(p, dir, nodes),
    ensures
        are_apart(p, joined(dir, nodes[0].name)),
        is_elsewhere(p, dir, nodes.subrange(1, nodes.len() as int)),
{
    let rest = nodes.subrange(1, nodes.len() as int);
    assert(are_apart(p, joined(dir, nodes[0].name)));
    assert forall|i: int| 0 <= i < rest.len() implies are_apart(
        p,
        joined(dir, (#[trigger] rest[i]).name),
    ) by {
        assert(rest[i] == nodes[i + 1]);
    }
}

/// What lies below the first entry of a directory has to do with none of the later ones.
proof fn lemma_first_elsewhere(p: Seq<u8>, dir: Seq<u8>, nodes: Seq<Node>)
    requires
        nodes.len() > 0,
        are_named(nodes),
        are_distinct(nodes),
        dir.len() == 0 || is_relative(dir),
        is_under(p, joined(dir, nodes[0].name)),
    ensures
        is_elsewhere(p, dir, nodes.subrange(1, nodes.len() as int)),
{
    let rest = nodes.subrange(1, nodes.len() as int);
    lemma_named(nodes);
    assert forall|i: int| 0 <= i < rest.len() implies are_apart(
        p,
        joined(dir, (#[trigger] rest[i]).name),
    ) by {
        assert(rest[i] == nodes[i + 1]);
        assert(is_name(names_of(nodes)[i + 1].0));
        lemma_apart_from_sibling(p, dir, nodes[0].name, rest[i].name);
    }
}

/// What one entry adds is the entry or lies below it, and does not depend on what was selected
/// elsewhere before.
proof fn lemma_visited(s: Setting, dir: Seq<u8>, in_ignored: bool, node: Node, c: Chosen)
    requires
        is_name(node.name),
        are_named(node.children),
        are_distinct(node.children),
        dir.len() == 0 || is_relative(dir),
        forall|q: Seq<u8>| #[trigger]
            c.skip.contains(q) ==> are_apart(q, joined(dir, node.name)),
        forall|i: int|
            0 <= i < c.carried.len() ==> are_apart(
                #[trigger] c.carried[i],
                joined(dir, node.name),
            ),
    ensures
        visited(s, dir, in_ignored, node, c) == both(c, alone(s, dir, in_ignored, node)),
        is_within(alone(s, dir, in_ignored, node), joined(dir, node.name)),
    decreases node, 1int,
{
    let path = joined(dir, node.name);
    let e = nothing_chosen();
    let r = visited(s, dir, in_ignored, node, c);
    let a = alone(s, dir, in_ignored, node);
    lemma_joined_relative(dir, node.name);
    match fate(s, dir, in_ignored, node) {
        Move::Enter { in_ignored: inner, for_carried } => {
            assert forall|q: Seq<u8>| #[trigger] c.skip.contains(q) implies is_elsewhere(
                q,
                path,
                node.children,
            ) by {
                lemma_elsewhere_below(q, path, node.children);
            }
            assert forall|i: int| 0 <= i < c.carried.len() implies is_elsewhere(
                #[trigger] c.carried[i],
                path,
                node.children,
            ) by {
                lemma_elsewhere_below(c.carried[i], path, node.children);
            }
            lemma_walked(s, path, inner, node.children, c);
            let w = walked(s, path, inner, node.children, e);
            assert forall|p: Seq<u8>| #[trigger] is_among(p, path, node.children) implies is_under(
                p,
                path,
            ) by {
                lemma_among_below(p, path, node.children);
            }
            assert(r.skip =~= both(c, a).skip);
            assert(r.carried =~= both(c, a).carried);
            assert(r.excluded =~= both(c, a).excluded);
            assert forall|part: Part, p: Seq<u8>| #[trigger] is_in(a, part, p) implies is_under(
                p,
                path,
            ) by {
                if p != path {
                    assert(is_in(w, part, p));
                }
            }
        },
        m => {
            assert(r.skip =~= both(c, a).skip);
            assert(r.carried =~= both(c, a).carried);
            assert(r.excluded =~= both(c, a).excluded);
        },
    }
}

/// What the entries of a directory add is among them, and does not depend on what was selected
/// elsewhere before.
proof fn lemma_walked(s: Setting, dir: Seq<u8>, in_ignored: bool, nodes: Seq<Node>, c: Chosen)
    requires
        are_named(nodes),
        are_distinct(nodes),
        dir.len() == 0 || is_relative(dir),
        all_elsewhere(c, dir, nodes),
    ensures
        walked(s, dir, in_ignored, nodes, c) == both(
            c,
            walked(s, dir, in_ignored, nodes, nothing_chosen()),
        ),
        is_all_among(walked(s, dir, in_ignored, nodes, nothing_chosen()), dir, nodes),
    decreases nodes, 0int,
{
    let e = nothing_chosen();
    if nodes.len() == 0 {
        lemma_both_empty(c);
    } else {
        let rest = nodes.subrange(1, nodes.len() as int);
        let first = joined(dir, nodes[0].name);
        let a = alone(s, dir, in_ignored, nodes[0]);
        let c1 = visited(s, dir, in_ignored, nodes[0], c);
        let w = walked(s, dir, in_ignored, nodes, e);
        let later = walked(s, dir, in_ignored, rest, e);
        assert forall|q: Seq<u8>| #[trigger] c.skip.contains(q) implies are_apart(q, first)
            && is_elsewhere(q, dir, rest) by {
            lemma_elsewhere_rest(q, dir, nodes);
        }
        assert forall|i: int| 0 <= i < c.carried.len() implies are_apart(
            #[trigger] c.carried[i],
            first,
        ) && is_elsewhere(c.carried[i], dir, rest) by {
            lemma_elsewhere_rest(c.carried[i], dir, nodes);
        }
        lemma_visited(s, dir, in_ignored, nodes[0], c);
        assert forall|p: Seq<u8>| #[trigger] is_under(p, first) implies is_elsewhere(
            p,
            dir,
            rest,
        ) by {
            lemma_first_elsewhere(p, dir, nodes);
        }
        lemma_within_elsewhere(a, first, dir, rest);
        assert(all_elsewhere(c1, dir, rest)) by {
            assert forall|i: int| 0 <= i < c1.carried.len() implies is_elsewhere(
                #[trigger] c1.carried[i],
                dir,
                rest,
            ) by {
                if i < c.carried.len() {
                    assert(c1.carried[i] == c.carried[i]);
                } else {
                    assert(c1.carried[i] == a.carried[i - c.carried.len()]);
                }
            }
        }
        lemma_walked(s, dir, in_ignored, rest, c1);
        lemma_walked(s, dir, in_ignored, rest, a);
        assert(w == both(a, later));
        lemma_both_associates(c, a, later);
        assert forall|p: Seq<u8>| #[trigger] is_among(p, dir, rest) implies is_among(
            p,
            dir,
            nodes,
        ) by {
            let i = choose|i: int|
                0 <= i < rest.len() && is_under(p, joined(dir, (#[trigger] rest[i]).name));
            assert(nodes[i + 1] == rest[i]);
        }
        assert forall|p: Seq<u8>| #[trigger] is_under(p, first) implies is_among(
            p,
            dir,
            nodes,
        ) by {
            assert(is_under(p, joined(dir, nodes[0].name)));
        }
        assert forall|part: Part, p: Seq<u8>| #[trigger] is_in(w, part, p) implies is_among(
            p,
            dir,
            nodes,
        ) by {
            lemma_in_both(a, later, part, p);
        }
    }
}

/// What lies below a path has nothing to do with entries that nothing below the path has to do
/// with.
proof fn lemma_within_elsewhere(c: Chosen, path: Seq<u8>, dir: Seq<u8>, nodes: Seq<Node>)
    requires
        is_within(c, path),
        forall|p: Seq<u8>| #[trigger] is_under(p, path) ==> is_elsewhere(p, dir, nodes),
    ensures
        all_elsewhere(c, dir, nodes),
{
    assert forall|q: Seq<u8>| #[trigger] c.skip.contains(q) implies is_elsewhere(
        q,
        dir,
        nodes,
    ) by {
        assert(is_in(c, Part::Skip, q));
    }
    assert forall|i: int| 0 <= i < c.carried.len() implies is_elsewhere(
        #[trigger] c.carried[i],
        dir,
        nodes,
    ) by {
        assert(is_in(c, Part::Carried, c.carried[i]));
    }
}

/// What the entries of a directory add is what each of them adds by itself, and no path is
/// carried, or left behind on purpose, twice.
proof fn lemma_parts(s: Setting, dir: Seq<u8>, in_ignored: bool, nodes: Seq<Node>)
    requires
        are_named(nodes),
        are_distinct(nodes),
        dir.len() == 0 || is_relative(dir),
    ensures
        ({
            let w = walked(s, dir, in_ignored, nodes, nothing_chosen());
            &&& forall|part: Part, p: Seq<u8>| #[trigger]
                is_in(w, part, p) <==> some_adds(s, dir, in_ignored, nodes, part, p)
            &&& w.carried.no_duplicates()
            &&& w.excluded.no_duplicates()
        }),
    decreases nodes, 0int,
{
    if nodes.len() > 0 {
        let e = nothing_chosen();
        let rest = nodes.subrange(1, nodes.len() as int);
        let first = joined(dir, nodes[0].name);
        let a = alone(s, dir, in_ignored, nodes[0]);
        let w = walked(s, dir, in_ignored, nodes, e);
        let later = walked(s, dir, in_ignored, rest, e);
        lemma_visited(s, dir, in_ignored, nodes[0], e);
        lemma_alone_distinct(s, dir, in_ignored, nodes[0]);
        lemma_parts(s, dir, in_ignored, rest);
        assert forall|p: Seq<u8>| #[trigger] is_under(p, first) implies is_elsewhere(
            p,
            dir,
            rest,
        ) by {
            lemma_first_elsewhere(p, dir, nodes);
        }
        lemma_within_elsewhere(a, first, dir, rest);
        lemma_walked(s, dir, in_ignored, rest, a);
        assert(w == both(a, later));
        assert forall|part: Part, p: Seq<u8>| #[trigger] is_in(w, part, p) <==> some_adds(
            s,
            dir,
            in_ignored,
            nodes,
            part,
            p,
        ) by {
            lemma_in_both(a, later, part, p);
            if is_in(a, part, p) {
                assert(is_in(alone(s, dir, in_ignored, nodes[0]), part, p));
            }
            if is_in(later, part, p) {
                let i = choose|i: int|
                    0 <= i < rest.len() && is_in(
                        alone(s, dir, in_ignored, #[trigger] rest[i]),
                        part,
                        p,
                    );
                assert(nodes[i + 1] == rest[i]);
            }
            if some_adds(s, dir, in_ignored, nodes, part, p) {
                let i = choose|i: int|
                    0 <= i < nodes.len() && is_in(
                        alone(s, dir, in_ignored, #[trigger] nodes[i]),
                        part,
                        p,
                    );
                if i > 0 {
                    assert(rest[i - 1] == nodes[i]);
                    assert(some_adds(s, dir, in_ignored, rest, part, p));
                }
            }
        }
        assert forall|part: Part, p: Seq<u8>| #[trigger] is_in(a, part, p) implies !is_in(
            later,
            part,
            p,
        ) by {
            if is_in(later, part, p) {
                let i = choose|i: int|
                    0 <= i < rest.len() && is_under(p, joined(dir, (#[trigger] rest[i]).name));
                assert(is_elsewhere(p, dir, rest));
                assert(are_apart(p, joined(dir, rest[i].name)));
            }
        }
        assert forall|p: Seq<u8>| #[trigger] a.carried.contains(p) implies !later.carried.contains(
            p,
        ) by {
            assert(is_in(a, Part::Carried, p));
            assert(!is_in(later, Part::Carried, p));
        }
        assert forall|p: Seq<u8>| #[trigger]
            a.excluded.contains(p) implies !later.excluded.contains(p) by {
            assert(is_in(a, Part::Excluded, p));
            assert(!is_in(later, Part::Excluded, p));
        }
        lemma_no_duplicates_in_sum(a.carried, later.carried);
        lemma_no_duplicates_in_sum(a.excluded, later.excluded);
    }
}

/// Two lists that hold nothing twice and have nothing in common hold nothing twice together.
proof fn lemma_no_duplicates_in_sum(a: Seq<Seq<u8>>, b: Seq<Seq<u8>>)
    requires
        a.no_duplicates(),
        b.no_duplicates(),
        forall|p: Seq<u8>| #[trigger] a.contains(p) ==> !b.contains(p),
    ensures
        (a + b).no_duplicates(),
{
    let c = a + b;
    assert forall|i: int, j: int| 0 <= i < c.len() && 0 <= j < c.len() && i != j implies c[i]
        != c[j] by {
        if i < a.len() && j >= a.len() {
            assert(a.contains(a[i]));
            assert(b.contains(b[j - a.len()]));
        } else if j < a.len() && i >= a.len() {
            assert(a.contains(a[j]));
            assert(b.contains(b[i - a.len()]));
        } else if i >= a.len() {
            assert(c[i] == b[i - a.len()] && c[j] == b[j - a.len()]);
        }
    }
}

/// What one entry adds holds nothing twice.
proof fn lemma_alone_distinct(s: Setting, dir: Seq<u8>, in_ignored: bool, node: Node)
    requires
        is_name(node.name),
        are_named(node.children),
        are_distinct(node.children),
        dir.len() == 0 || is_relative(dir),
    ensures
        alone(s, dir, in_ignored, node).carried.no_duplicates(),
        alone(s, dir, in_ignored, node).excluded.no_duplicates(),
    decreases node, 1int,
{
    lemma_joined_relative(dir, node.name);
    match fate(s, dir, in_ignored, node) {
        Move::Enter { in_ignored: inner, for_carried } => {
            lemma_parts(s, joined(dir, node.name), inner, node.children);
        },
        m => {},
    }
}

/// The same has been selected, but for the order.
spec fn are_equal(c: Chosen, d: Chosen) -> bool {
    forall|part: Part, p: Seq<u8>| #[trigger] is_in(c, part, p) <==> is_in(d, part, p)
}

proof fn lemma_alike(s: Setting, dir: Seq<u8>, in_ignored: bool, a: Node, b: Node)
    requires
        is_name(a.name),
        are_named(a.children),
        are_named(b.children),
        are_distinct(a.children),
        are_distinct(b.children),
        dir.len() == 0 || is_relative(dir),
        are_alike(a, b),
    ensures
        are_equal(alone(s, dir, in_ignored, a), alone(s, dir, in_ignored, b)),
    decreases a, 1int,
{
    let path = joined(dir, a.name);
    lemma_joined_relative(dir, a.name);
    assert(fate(s, dir, in_ignored, a) == fate(s, dir, in_ignored, b));
    match fate(s, dir, in_ignored, a) {
        Move::Enter { in_ignored: inner, for_carried } => {
            lemma_below_alike(a, b);
            lemma_reordered(s, path, inner, a.children, b.children);
            let x = walked(s, path, inner, a.children, nothing_chosen());
            let y = walked(s, path, inner, b.children, nothing_chosen());
            let r = alone(s, dir, in_ignored, a);
            let t = alone(s, dir, in_ignored, b);
            if x.carried.len() > 0 {
                assert(is_in(x, Part::Carried, x.carried[0]));
            }
            if y.carried.len() > 0 {
                assert(is_in(y, Part::Carried, y.carried[0]));
                assert(is_in(x, Part::Carried, y.carried[0]));
            }
            assert forall|part: Part, p: Seq<u8>| #[trigger] is_in(r, part, p) <==> is_in(
                t,
                part,
                p,
            ) by {
                assert(is_in(x, part, p) <==> is_in(y, part, p));
            }
        },
        m => {},
    }
}

proof fn lemma_reordered(
    s: Setting,
    dir: Seq<u8>,
    in_ignored: bool,
    a: Seq<Node>,
    b: Seq<Node>,
)
    requires
        are_named(a),
        are_named(b),
        are_distinct(a),
        are_distinct(b),
        dir.len() == 0 || is_relative(dir),
        are_reordered(a, b),
    ensures
        are_equal(
            walked(s, dir, in_ignored, a, nothing_chosen()),
            walked(s, dir, in_ignored, b, nothing_chosen()),
        ),
    decreases a, 0int,
{
    let x = walked(s, dir, in_ignored, a, nothing_chosen());
    let y = walked(s, dir, in_ignored, b, nothing_chosen());
    lemma_parts(s, dir, in_ignored, a);
    lemma_parts(s, dir, in_ignored, b);
    assert forall|part: Part, p: Seq<u8>| #[trigger] is_in(x, part, p) <==> is_in(y, part, p) by {
        if is_in(x, part, p) {
            let i = choose|i: int|
                0 <= i < a.len() && is_in(alone(s, dir, in_ignored, #[trigger] a[i]), part, p);
            let j = lemma_match(a, b, i);
            lemma_at(a, i);
            lemma_at(b, j);
            lemma_alike(s, dir, in_ignored, a[i], b[j]);
            assert(is_in(alone(s, dir, in_ignored, b[j]), part, p));
            assert(some_adds(s, dir, in_ignored, b, part, p));
        }
        if is_in(y, part, p) {
            let j = choose|j: int|
                0 <= j < b.len() && is_in(alone(s, dir, in_ignored, #[trigger] b[j]), part, p);
            let i = lemma_match_back(a, b, j);
            lemma_at(a, i);
            lemma_at(b, j);
            lemma_alike(s, dir, in_ignored, a[i], b[j]);
            assert(is_in(alone(s, dir, in_ignored, a[i]), part, p));
            assert(some_adds(s, dir, in_ignored, a, part, p));
        }
    }
}

/// What holds of all entries holds of each.
proof fn lemma_at(nodes: Seq<Node>, i: int)
    requires
        are_named(nodes),
        are_distinct(nodes),
        0 <= i < nodes.len(),
    ensures
        is_name(nodes[i].name),
        are_named(nodes[i].children),
        are_distinct(nodes[i].children),
    decreases nodes.len(),
{
    if i > 0 {
        let rest = nodes.subrange(1, nodes.len() as int);
        assert(rest[i - 1] == nodes[i]);
        lemma_at(rest, i - 1);
    }
}

/// Lists with the same paths, each once, hold the same.
proof fn lemma_same_multiset(a: Seq<Seq<u8>>, b: Seq<Seq<u8>>)
    requires
        a.no_duplicates(),
        b.no_duplicates(),
        forall|p: Seq<u8>| #[trigger] a.contains(p) <==> b.contains(p),
    ensures
        a.to_multiset() == b.to_multiset(),
{
    a.lemma_multiset_has_no_duplicates();
    b.lemma_multiset_has_no_duplicates();
    a.to_multiset_ensures();
    b.to_multiset_ensures();
    assert forall|p: Seq<u8>| a.to_multiset().count(p) == b.to_multiset().count(p) by {
        assert(a.contains(p) <==> a.to_multiset().count(p) > 0);
        assert(b.contains(p) <==> b.to_multiset().count(p) > 0);
    }
    assert(a.to_multiset() =~= b.to_multiset());
}

/// The order in which directories are listed does not matter: the same is skipped, and, once put
/// in order, the same is carried and left behind on purpose.
pub proof fn law_listing_order_does_not_matter(s: Setting, a: Seq<Node>, b: Seq<Node>)
    requires
        are_named(a),
        are_named(b),
        are_distinct(a),
        are_distinct(b),
        are_reordered(a, b),
    ensures
        selected(s, a).skip == selected(s, b).skip,
        selected(s, a).carried.to_multiset() == selected(s, b).carried.to_multiset(),
        selected(s, a).excluded.to_multiset() == selected(s, b).excluded.to_multiset(),
        forall|x: Seq<Seq<u8>>, y: Seq<Seq<u8>>| #[trigger]
            ascending(Order::Paths, x) && #[trigger] ascending(Order::Paths, y)
                && x.to_multiset() == selected(s, a).carried.to_multiset() && y.to_multiset()
                == selected(s, b).carried.to_multiset() ==> x == y,
        forall|x: Seq<Seq<u8>>, y: Seq<Seq<u8>>| #[trigger]
            ascending(Order::Paths, x) && #[trigger] ascending(Order::Paths, y)
                && x.to_multiset() == selected(s, a).excluded.to_multiset() && y.to_multiset()
                == selected(s, b).excluded.to_multiset() ==> x == y,
{
    lemma_reordered(s, Seq::empty(), false, a, b);
    lemma_parts(s, Seq::empty(), false, a);
    lemma_parts(s, Seq::empty(), false, b);
    let x = selected(s, a);
    let y = selected(s, b);
    assert forall|p: Seq<u8>| x.skip.contains(p) <==> y.skip.contains(p) by {
        assert(is_in(x, Part::Skip, p) <==> is_in(y, Part::Skip, p));
    }
    assert(x.skip =~= y.skip);
    assert forall|p: Seq<u8>| #[trigger] x.carried.contains(p) <==> y.carried.contains(p) by {
        assert(is_in(x, Part::Carried, p) <==> is_in(y, Part::Carried, p));
    }
    assert forall|p: Seq<u8>| #[trigger] x.excluded.contains(p) <==> y.excluded.contains(p) by {
        assert(is_in(x, Part::Excluded, p) <==> is_in(y, Part::Excluded, p));
    }
    lemma_same_multiset(selected(s, a).carried, selected(s, b).carried);
    lemma_same_multiset(selected(s, a).excluded, selected(s, b).excluded);
    assert forall|x: Seq<Seq<u8>>, y: Seq<Seq<u8>>| #[trigger]
        ascending(Order::Paths, x) && #[trigger] ascending(Order::Paths, y) && x.to_multiset()
            == y.to_multiset() implies x == y by {
        law_order_is_unique(Order::Paths, x, y);
    }
}

} // verus!

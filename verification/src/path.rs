//! Paths as byte strings: joining them, what lies below what, and the order of their components.
use vstd::prelude::*;
use vstd::slice::slice_subrange;
use crate::bytes::{append, copy, starts_with, views};
use crate::order::{before, Order, SEP};

verus! {

/// The path of `name` in `dir`: an absolute `name` stands for itself.
pub open spec fn joined(dir: Seq<u8>, name: Seq<u8>) -> Seq<u8> {
    if name.len() > 0 && name[0] == SEP {
        name
    } else if dir.len() == 0 || dir.last() == SEP {
        dir + name
    } else {
        dir.push(SEP) + name
    }
}

/// The name of a file in a directory: not empty, and without a separator.
pub open spec fn is_name(s: Seq<u8>) -> bool {
    s.len() > 0 && !s.contains(SEP)
}

/// One or more names with single separators between them.
pub open spec fn is_relative(p: Seq<u8>) -> bool {
    &&& p.len() > 0
    &&& p[0] != SEP
    &&& p.last() != SEP
    &&& forall|i: int| 0 <= i < p.len() - 1 && #[trigger] p[i] == SEP ==> p[i + 1] != SEP
}

/// `dir` is a directory on the way to `p`.
pub open spec fn is_parent(dir: Seq<u8>, p: Seq<u8>) -> bool {
    dir.len() < p.len() && p[dir.len() as int] == SEP && p.take(dir.len() as int) == dir
}

/// `p` is `base` or lies below it.
pub open spec fn is_under(p: Seq<u8>, base: Seq<u8>) -> bool {
    p == base || is_parent(base, p)
}

/// The path of `name` in `dir`.
pub fn join(dir: &[u8], name: &[u8]) -> (r: Vec<u8>)
    ensures
        r@ == joined(dir@, name@),
{
    if name.len() > 0 && name[0] == SEP {
        return copy(name);
    }
    let mut r: Vec<u8> = copy(dir);
    if dir.len() > 0 && dir[dir.len() - 1] != SEP {
        r.push(SEP);
    }
    append(&mut r, name);
    r
}

/// Whether `p` is `base` or lies below it.
pub fn under(p: &[u8], base: &[u8]) -> (r: bool)
    ensures
        r == is_under(p@, base@),
{
    if !starts_with(p, base) {
        assert(is_parent(base@, p@) ==> p@.subrange(0, base@.len() as int) =~= base@);
        assert(p@ == base@ ==> base@.is_prefix_of(p@));
        return false;
    }
    assert(p@.take(base@.len() as int) =~= base@);
    if p.len() == base.len() {
        assert(p@ =~= base@);
        true
    } else {
        p[base.len()] == SEP
    }
}

/// Whether `s` can be the name of a file in a directory.
pub fn is_file_name(s: &[u8]) -> (r: bool)
    ensures
        r == is_name(s@),
{
    let mut i: usize = 0;
    while i < s.len()
        invariant
            i <= s@.len(),
            forall|j: int| 0 <= j < i ==> s@[j] != SEP,
        decreases s@.len() - i,
    {
        if s[i] == SEP {
            assert(s@.contains(SEP));
            return false;
        }
        i += 1;
    }
    s.len() > 0
}

/// The directories on the way to `p`, the outermost first.
pub open spec fn parents_of(p: Seq<u8>) -> Seq<Seq<u8>>
    decreases p.len(),
{
    if p.len() == 0 {
        Seq::empty()
    } else if p.last() == SEP {
        parents_of(p.drop_last()).push(p.drop_last())
    } else {
        parents_of(p.drop_last())
    }
}

/// The directories on the way to a path are those that lead to it.
pub proof fn lemma_parents_of(p: Seq<u8>, dir: Seq<u8>)
    ensures
        parents_of(p).contains(dir) <==> is_parent(dir, p),
    decreases p.len(),
{
    if p.len() > 0 {
        let q = p.drop_last();
        lemma_parents_of(q, dir);
        if is_parent(dir, q) {
            assert(p.take(dir.len() as int) =~= q.take(dir.len() as int));
        }
        if is_parent(dir, p) {
            if dir.len() < q.len() {
                assert(q.take(dir.len() as int) =~= p.take(dir.len() as int));
            } else {
                assert(dir =~= q);
            }
        }
        if p.last() == SEP {
            let list = parents_of(q);
            assert(p.take(q.len() as int) =~= q);
            assert(list.push(q)[list.len() as int] == q);
            if list.contains(dir) {
                let i = list.index_of(dir);
                assert(list.push(q)[i] == dir);
            }
            if list.push(q).contains(dir) {
                let i = list.push(q).index_of(dir);
                if i < list.len() {
                    assert(list[i] == dir);
                }
            }
        }
    }
}

/// The directories on the way to `p`, the outermost first.
pub fn parents(p: &[u8]) -> (r: Vec<Vec<u8>>)
    ensures
        views(r@) == parents_of(p@),
{
    let mut r: Vec<Vec<u8>> = Vec::new();
    let mut i: usize = 0;
    assert(views(r@) =~= parents_of(p@.take(0)));
    while i < p.len()
        invariant
            i <= p@.len(),
            views(r@) == parents_of(p@.take(i as int)),
        decreases p@.len() - i,
    {
        assert(p@.take(i + 1).drop_last() =~= p@.take(i as int));
        if p[i] == SEP {
            let ghost list = r@;
            let dir: Vec<u8> = copy(slice_subrange(p, 0, i));
            assert(dir@ =~= p@.take(i as int));
            r.push(dir);
            assert(views(r@) =~= views(list).push(p@.take(i as int)));
        }
        i += 1;
    }
    assert(p@.take(i as int) =~= p@);
    r
}

/// A name below a relative path, or a name alone, is a relative path.
pub proof fn lemma_joined_relative(dir: Seq<u8>, name: Seq<u8>)
    requires
        dir.len() == 0 || is_relative(dir),
        is_name(name),
    ensures
        is_relative(joined(dir, name)),
        joined(dir, name) == (if dir.len() == 0 { name } else { dir.push(SEP) + name }),
        dir.len() > 0 ==> is_parent(dir, joined(dir, name)),
{
    let p = joined(dir, name);
    assert forall|i: int| 0 <= i < name.len() implies name[i] != SEP by {
        assert(name.contains(name[i]));
    }
    if dir.len() == 0 {
        assert(p =~= name);
    } else {
        assert(p[dir.len() as int] == SEP);
        assert(p.take(dir.len() as int) =~= dir);
    }
}

/// Different names in one directory lead to different paths, and neither lies below the other.
pub proof fn lemma_siblings_apart(dir: Seq<u8>, a: Seq<u8>, b: Seq<u8>)
    requires
        dir.len() == 0 || is_relative(dir),
        is_name(a),
        is_name(b),
        a != b,
    ensures
        joined(dir, a) != joined(dir, b),
        !is_under(joined(dir, a), joined(dir, b)),
{
    lemma_joined_relative(dir, a);
    lemma_joined_relative(dir, b);
    let p = joined(dir, a);
    let q = joined(dir, b);
    let n = if dir.len() == 0 { 0 } else { dir.len() + 1 };
    assert(p.skip(n as int) =~= a);
    assert(q.skip(n as int) =~= b);
    if is_parent(q, p) {
        assert(p[q.len() as int] == a[q.len() - n]);
        assert(a.contains(SEP));
    }
}

/// Of two paths that a third one lies below, one lies below the other.
pub proof fn lemma_common_descendant(p: Seq<u8>, a: Seq<u8>, b: Seq<u8>)
    requires
        is_under(p, a),
        is_under(p, b),
    ensures
        is_under(a, b) || is_under(b, a),
{
    if a != b && p != a && p != b {
        if a.len() < b.len() {
            assert(p.take(b.len() as int).take(a.len() as int) =~= p.take(a.len() as int));
            assert(b[a.len() as int] == p.take(b.len() as int)[a.len() as int]);
        } else if b.len() < a.len() {
            assert(p.take(a.len() as int).take(b.len() as int) =~= p.take(b.len() as int));
            assert(a[b.len() as int] == p.take(a.len() as int)[b.len() as int]);
        }
    }
}

/// What lies below a path still does so when both are taken in the same directory.
pub proof fn lemma_joined_under(dir: Seq<u8>, p: Seq<u8>, base: Seq<u8>)
    requires
        base.len() > 0,
        base[0] != SEP,
        is_under(p, base),
    ensures
        is_under(joined(dir, p), joined(dir, base)),
{
    if p != base {
        let a = joined(dir, p);
        let b = joined(dir, base);
        assert(p[0] == p.take(base.len() as int)[0]);
        assert(a.take(b.len() as int) =~= b) by {
            assert forall|i: int| 0 <= i < b.len() implies a[i] == b[i] by {
                let k = i - (b.len() - base.len());
                if k >= 0 {
                    assert(p[k] == p.take(base.len() as int)[k]);
                }
            }
        }
        assert(a[b.len() as int] == p[base.len() as int]);
    }
}

/// What leads to an entry of a directory is the directory or leads to it.
pub proof fn lemma_leads_to_entry(dir: Seq<u8>, name: Seq<u8>, p: Seq<u8>)
    requires
        is_relative(dir),
        is_name(name),
        is_parent(p, joined(dir, name)),
    ensures
        is_under(dir, p),
{
    lemma_joined_relative(dir, name);
    let q = joined(dir, name);
    if p.len() > dir.len() {
        assert(q[p.len() as int] == name[p.len() - dir.len() - 1]);
        assert(name.contains(SEP));
    } else if p.len() == dir.len() {
        assert(p =~= dir);
    } else {
        assert(dir.take(p.len() as int) =~= q.take(p.len() as int));
    }
}

/// What lies below a path that lies below another one lies below that one too.
pub proof fn lemma_under_transitive(a: Seq<u8>, b: Seq<u8>, c: Seq<u8>)
    requires
        is_under(a, b),
        is_under(b, c),
    ensures
        is_under(a, c),
{
    if a != b && b != c {
        assert(a.take(c.len() as int) =~= a.take(b.len() as int).take(c.len() as int));
        assert(a[c.len() as int] == a.take(b.len() as int)[c.len() as int]);
    }
}

/// Two paths are ordered by the first components in which they differ, each compared byte by
/// byte, whatever follows.
pub proof fn law_paths_are_ordered_by_component(
    a: Seq<u8>,
    b: Seq<u8>,
    rest_a: Seq<u8>,
    rest_b: Seq<u8>,
)
    requires
        is_name(a),
        is_name(b),
        a != b,
        rest_a.len() == 0 || rest_a[0] == SEP,
        rest_b.len() == 0 || rest_b[0] == SEP,
    ensures
        before(Order::Paths, a + rest_a, b + rest_b) <==> before(Order::Bytes, a, b),
{
    lemma_component_step(a, b, rest_a, rest_b);
}

proof fn lemma_component_step(a: Seq<u8>, b: Seq<u8>, rest_a: Seq<u8>, rest_b: Seq<u8>)
    requires
        !a.contains(SEP),
        !b.contains(SEP),
        a != b,
        rest_a.len() == 0 || rest_a[0] == SEP,
        rest_b.len() == 0 || rest_b[0] == SEP,
    ensures
        before(Order::Paths, a + rest_a, b + rest_b) <==> before(Order::Bytes, a, b),
    decreases a.len(),
{
    let p = a + rest_a;
    let q = b + rest_b;
    if a.len() > 0 {
        assert(a.contains(a[0]));
        assert(p.drop_first() =~= a.drop_first() + rest_a);
    }
    if b.len() > 0 {
        assert(b.contains(b[0]));
        assert(q.drop_first() =~= b.drop_first() + rest_b);
    }
    if a.len() == 0 && b.len() == 0 {
        assert(a =~= b);
    }
    if a.len() > 0 && b.len() > 0 && a[0] == b[0] {
        assert forall|x: u8| a.drop_first().contains(x) implies a.contains(x) by {
            let i = a.drop_first().index_of(x);
            assert(a[i + 1] == x);
        }
        assert forall|x: u8| b.drop_first().contains(x) implies b.contains(x) by {
            let i = b.drop_first().index_of(x);
            assert(b[i + 1] == x);
        }
        if a.drop_first() == b.drop_first() {
            assert(a =~= seq![a[0]] + a.drop_first());
            assert(b =~= seq![b[0]] + b.drop_first());
        }
        lemma_component_step(a.drop_first(), b.drop_first(), rest_a, rest_b);
    }
}

/// Two paths that begin with the same components are ordered by what follows.
pub proof fn law_shared_components_do_not_matter(shared: Seq<u8>, a: Seq<u8>, b: Seq<u8>)
    ensures
        before(Order::Paths, shared + a, shared + b) <==> before(Order::Paths, a, b),
    decreases shared.len(),
{
    if shared.len() == 0 {
        assert(shared + a =~= a);
        assert(shared + b =~= b);
    } else {
        assert((shared + a).drop_first() =~= shared.drop_first() + a);
        assert((shared + b).drop_first() =~= shared.drop_first() + b);
        law_shared_components_do_not_matter(shared.drop_first(), a, b);
    }
}

/// A path lies below another one exactly if it goes on with a separator behind it; each path
/// lies at itself.
pub proof fn law_below_means_behind_a_separator(p: Seq<u8>, base: Seq<u8>, rest: Seq<u8>)
    ensures
        is_under(base, base),
        is_under(base + seq![0x2fu8] + rest, base),
        is_under(p, base) && p != base ==> p == base + seq![0x2fu8] + p.skip(
            base.len() as int + 1,
        ),
{
    let q = base + seq![0x2fu8] + rest;
    assert(q.take(base.len() as int) =~= base);
    if is_under(p, base) && p != base {
        assert(p =~= base + seq![0x2fu8] + p.skip(base.len() as int + 1)) by {
            assert forall|k: int| 0 <= k < p.len() implies p[k] == (base + seq![0x2fu8] + p.skip(
                base.len() as int + 1,
            ))[k] by {
                if k < base.len() {
                    assert(p.take(base.len() as int)[k] == p[k]);
                }
            }
        }
    }
}

/// A name in a directory is joined to it with one separator, and none is doubled. A path from
/// the root stands for itself, and a name alone is in no directory.
pub proof fn law_names_are_joined_with_one_separator(dir: Seq<u8>, name: Seq<u8>)
    ensures
        joined(dir, seq![0x2fu8] + name) == seq![0x2fu8] + name,
        joined(Seq::empty(), name) == name,
        name.len() == 0 || name[0] != 0x2f ==> joined(dir.push(0x2fu8), name) == dir.push(0x2fu8)
            + name,
        (name.len() == 0 || name[0] != 0x2f) && dir.len() > 0 && dir.last() != 0x2f ==> joined(
            dir,
            name,
        ) == joined(dir.push(0x2fu8), name),
{
    assert(Seq::<u8>::empty() + name =~= name);
}

/// The directories on the way to a path are told apart by their length: the outermost, and so
/// the shortest, comes first, and none comes twice.
pub proof fn law_parents_come_outermost_first(p: Seq<u8>, i: int, k: int)
    requires
        0 <= i < k < parents_of(p).len(),
    ensures
        is_parent(parents_of(p)[i], p),
        is_parent(parents_of(p)[k], p),
        parents_of(p)[i].len() < parents_of(p)[k].len(),
    decreases p.len(),
{
    assert(parents_of(p).contains(parents_of(p)[i]));
    assert(parents_of(p).contains(parents_of(p)[k]));
    lemma_parents_of(p, parents_of(p)[i]);
    lemma_parents_of(p, parents_of(p)[k]);
    let q = p.drop_last();
    if p.last() == SEP && k == parents_of(q).len() {
        assert(parents_of(q).contains(parents_of(q)[i]));
        lemma_parents_of(q, parents_of(q)[i]);
    } else {
        law_parents_come_outermost_first(q, i, k);
    }
}

/// A name is not empty and has no separator in it.
pub proof fn law_names_have_no_separator(s: Seq<u8>)
    ensures
        is_name(s) <==> s.len() > 0 && forall|i: int| 0 <= i < s.len() ==> #[trigger] s[i] != 0x2f,
{
    if exists|i: int| 0 <= i < s.len() && #[trigger] s[i] == 0x2f {
        let i = choose|i: int| 0 <= i < s.len() && #[trigger] s[i] == 0x2f;
        assert(s.contains(s[i]));
    }
}

} // verus!

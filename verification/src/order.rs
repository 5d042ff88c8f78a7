//! The two orders of byte strings: byte by byte, and path component by path component.
use vstd::prelude::*;
use crate::bytes::views;

verus! {

/// The separator of path components.
pub const SEP: u8 = 0x2f;

/// How byte strings are ordered.
#[derive(Clone, Copy, Debug, PartialEq, Eq, Structural)]
pub enum Order {
    /// Byte by byte.
    Bytes,
    /// As paths: component by component, each component byte by byte.
    Paths,
}

/// Where a byte stands among the bytes. Among paths the separator stands before every other
/// byte: a component that is a prefix of another one ends first, and so comes first.
pub open spec fn rank(by: Order, b: u8) -> int {
    if by == Order::Paths {
        if b == SEP {
            -1
        } else {
            b as int
        }
    } else {
        b as int
    }
}

/// `a` stands before `b`: where they first differ, `a` has the byte of lower rank or has ended.
pub open spec fn before(by: Order, a: Seq<u8>, b: Seq<u8>) -> bool
    decreases b.len(),
{
    if b.len() == 0 {
        false
    } else if a.len() == 0 {
        true
    } else if a[0] == b[0] {
        before(by, a.drop_first(), b.drop_first())
    } else {
        rank(by, a[0]) < rank(by, b[0])
    }
}

/// Nothing stands before itself.
pub proof fn lemma_irreflexive(by: Order, a: Seq<u8>)
    ensures
        !before(by, a, a),
    decreases a.len(),
{
    if a.len() > 0 {
        lemma_irreflexive(by, a.drop_first());
    }
}

/// Of two different byte strings, one stands before the other.
pub proof fn lemma_total(by: Order, a: Seq<u8>, b: Seq<u8>)
    ensures
        before(by, a, b) || before(by, b, a) || a == b,
    decreases a.len(),
{
    if a.len() > 0 && b.len() > 0 && a[0] == b[0] {
        lemma_total(by, a.drop_first(), b.drop_first());
        if a.drop_first() == b.drop_first() {
            assert(a =~= seq![a[0]] + a.drop_first());
            assert(b =~= seq![b[0]] + b.drop_first());
        }
    } else if a.len() == 0 && b.len() == 0 {
        assert(a =~= b);
    }
}

/// What stands before a byte string that stands before a third one stands before the third.
pub proof fn lemma_transitive(by: Order, a: Seq<u8>, b: Seq<u8>, c: Seq<u8>)
    requires
        before(by, a, b),
        before(by, b, c),
    ensures
        before(by, a, c),
    decreases a.len(),
{
    if a.len() > 0 && a[0] == b[0] && b[0] == c[0] {
        lemma_transitive(by, a.drop_first(), b.drop_first(), c.drop_first());
    }
}

/// No two byte strings stand before each other.
pub proof fn lemma_asymmetric(by: Order, a: Seq<u8>, b: Seq<u8>)
    requires
        before(by, a, b),
    ensures
        !before(by, b, a),
{
    if before(by, b, a) {
        lemma_transitive(by, a, b, a);
        lemma_irreflexive(by, a);
    }
}

/// Whether `a` stands before `b`.
pub fn precedes(by: Order, a: &[u8], b: &[u8]) -> (r: bool)
    ensures
        r == before(by, a@, b@),
{
    let mut i: usize = 0;
    assert(a@.skip(0) =~= a@);
    assert(b@.skip(0) =~= b@);
    while i < a.len() && i < b.len()
        invariant
            i <= a@.len(),
            i <= b@.len(),
            before(by, a@, b@) == before(by, a@.skip(i as int), b@.skip(i as int)),
        decreases a@.len() - i,
    {
        let x: u8 = a[i];
        let y: u8 = b[i];
        assert(a@.skip(i as int)[0] == x);
        assert(b@.skip(i as int)[0] == y);
        if x != y {
            if by == Order::Paths {
                if x == SEP {
                    return true;
                }
                if y == SEP {
                    return false;
                }
            }
            return x < y;
        }
        assert(a@.skip(i as int).drop_first() =~= a@.skip(i + 1));
        assert(b@.skip(i as int).drop_first() =~= b@.skip(i + 1));
        i += 1;
    }
    i < b.len()
}

/// Each entry stands before all later ones, so that none occurs twice.
pub open spec fn strictly_ascending(by: Order, list: Seq<Seq<u8>>) -> bool {
    forall|i: int, j: int| 0 <= i < j < list.len() ==> before(by, #[trigger] list[i], #[trigger] list[j])
}

/// No entry stands before an earlier one.
pub open spec fn ascending(by: Order, list: Seq<Seq<u8>>) -> bool {
    forall|i: int, j: int|
        0 <= i < j < list.len() ==> !before(by, #[trigger] list[j], #[trigger] list[i])
}

/// The first position of `list` whose entry does not stand before `e`.
pub fn place(by: Order, list: &Vec<Vec<u8>>, e: &[u8]) -> (at: usize)
    requires
        ascending(by, views(list@)),
    ensures
        at <= list@.len(),
        forall|j: int| 0 <= j < at ==> before(by, (#[trigger] list@[j])@, e@),
        forall|j: int| at <= j < list@.len() ==> !before(by, (#[trigger] list@[j])@, e@),
{
    let mut lo: usize = 0;
    let mut hi: usize = list.len();
    while lo < hi
        invariant
            lo <= hi <= list@.len(),
            ascending(by, views(list@)),
            forall|j: int| 0 <= j < lo ==> before(by, (#[trigger] list@[j])@, e@),
            forall|j: int| hi <= j < list@.len() ==> !before(by, (#[trigger] list@[j])@, e@),
        decreases hi - lo,
    {
        let mid: usize = lo + (hi - lo) / 2;
        let ghost m = views(list@)[mid as int];
        if precedes(by, list[mid].as_slice(), e) {
            assert forall|j: int| 0 <= j < mid + 1 implies before(
                by,
                (#[trigger] list@[j])@,
                e@,
            ) by {
                let x = views(list@)[j];
                lemma_total(by, x, m);
                if before(by, x, m) {
                    lemma_transitive(by, x, m, e@);
                }
            }
            lo = mid + 1;
        } else {
            assert forall|j: int| mid <= j < list@.len() implies !before(
                by,
                (#[trigger] list@[j])@,
                e@,
            ) by {
                let x = views(list@)[j];
                lemma_total(by, x, m);
                if before(by, x, e@) && before(by, m, x) {
                    lemma_transitive(by, m, x, e@);
                }
            }
            hi = mid;
        }
    }
    lo
}

/// A list without repetitions in order is in order.
pub proof fn lemma_strictly_ascending(by: Order, list: Seq<Seq<u8>>)
    requires
        strictly_ascending(by, list),
    ensures
        ascending(by, list),
{
    assert forall|i: int, j: int| 0 <= i < j < list.len() implies !before(
        by,
        #[trigger] list[j],
        #[trigger] list[i],
    ) by {
        lemma_asymmetric(by, list[i], list[j]);
    }
}

proof fn lemma_insert_ascending(by: Order, list: Seq<Seq<u8>>, at: int, e: Seq<u8>)
    requires
        0 <= at <= list.len(),
        ascending(by, list),
        forall|j: int| 0 <= j < at ==> before(by, #[trigger] list[j], e),
        forall|j: int| at <= j < list.len() ==> !before(by, #[trigger] list[j], e),
    ensures
        ascending(by, list.insert(at, e)),
{
    let new = list.insert(at, e);
    assert forall|i: int, j: int| 0 <= i < j < new.len() implies !before(
        by,
        #[trigger] new[j],
        #[trigger] new[i],
    ) by {
        if j == at {
            lemma_asymmetric(by, list[i], e);
        } else if i == at {
            assert(new[j] == list[j - 1]);
        } else {
            let i0 = if i < at { i } else { i - 1 };
            let j0 = if j < at { j } else { j - 1 };
            assert(new[i] == list[i0] && new[j] == list[j0]);
        }
    }
}

proof fn lemma_insert_multiset(list: Seq<Seq<u8>>, at: int, e: Seq<u8>)
    requires
        0 <= at <= list.len(),
    ensures
        list.insert(at, e).to_multiset() == list.to_multiset().insert(e),
{
    let new = list.insert(at, e);
    new.to_multiset_ensures();
    assert(new.remove(at) =~= list);
    assert(new[at] == e);
    assert(new.contains(e));
    assert(new.to_multiset().remove(e).insert(e) =~= new.to_multiset());
}

/// Puts a list in order.
pub fn sort(by: Order, list: &mut Vec<Vec<u8>>)
    ensures
        ascending(by, views(final(list)@)),
        views(final(list)@).to_multiset() == views(old(list)@).to_multiset(),
{
    let mut sorted: Vec<Vec<u8>> = Vec::new();
    let ghost all = views(list@);
    proof {
        assert(views(sorted@) =~= Seq::<Seq<u8>>::empty());
        views(sorted@).to_multiset_ensures();
        assert(views(sorted@).to_multiset().add(all.to_multiset()) =~= all.to_multiset());
    }
    while list.len() > 0
        invariant
            ascending(by, views(sorted@)),
            views(sorted@).to_multiset().add(views(list@).to_multiset()) == all.to_multiset(),
        decreases list@.len(),
    {
        let ghost rest = views(list@);
        let ghost done = views(sorted@);
        if let Some(entry) = list.pop() {
            let ghost e = entry@;
            proof {
                assert(rest =~= views(list@).push(e));
                views(list@).to_multiset_ensures();
            }
            let at: usize = place(by, &sorted, entry.as_slice());
            sorted.insert(at, entry);
            proof {
                assert(views(sorted@) =~= done.insert(at as int, e));
                assert forall|j: int| 0 <= j < at implies before(by, #[trigger] done[j], e) by {}
                lemma_insert_ascending(by, done, at as int, e);
                lemma_insert_multiset(done, at as int, e);
                assert(done.to_multiset().insert(e).add(views(list@).to_multiset())
                    =~= done.to_multiset().add(views(list@).to_multiset().insert(e)));
            }
        }
    }
    proof {
        assert(views(list@) =~= Seq::<Seq<u8>>::empty());
        views(list@).to_multiset_ensures();
        assert(views(sorted@).to_multiset().add(views(list@).to_multiset())
            =~= views(sorted@).to_multiset());
    }
    *list = sorted;
}

/// There is only one way to put a list in order.
pub proof fn law_order_is_unique(by: Order, a: Seq<Seq<u8>>, b: Seq<Seq<u8>>)
    requires
        ascending(by, a),
        ascending(by, b),
        a.to_multiset() == b.to_multiset(),
    ensures
        a == b,
{
    let leq = |x: Seq<u8>, y: Seq<u8>| !before(by, y, x);
    assert forall|x: Seq<u8>| #[trigger] leq(x, x) by {
        lemma_irreflexive(by, x);
    }
    assert forall|x: Seq<u8>, y: Seq<u8>| #[trigger] leq(x, y) && #[trigger] leq(y, x) implies x
        == y by {
        lemma_total(by, x, y);
    }
    assert forall|x: Seq<u8>, y: Seq<u8>, z: Seq<u8>| #[trigger]
        leq(x, y) && #[trigger] leq(y, z) implies leq(x, z) by {
        if before(by, z, x) {
            lemma_total(by, x, y);
            lemma_total(by, y, z);
            if x != y && y != z {
                lemma_transitive(by, x, y, z);
                lemma_asymmetric(by, x, z);
            }
        }
    }
    assert forall|x: Seq<u8>, y: Seq<u8>| #[trigger] leq(x, y) || #[trigger] leq(y, x) by {
        if before(by, y, x) {
            lemma_asymmetric(by, y, x);
        }
    }
    vstd::seq_lib::lemma_sorted_unique(a, b, leq);
}

/// Byte strings are ordered by the first bytes in which they differ; of two of which one begins
/// with the other, the shorter one comes first, in either order.
pub proof fn law_first_difference_decides(
    by: Order,
    shared: Seq<u8>,
    x: u8,
    a: Seq<u8>,
    y: u8,
    b: Seq<u8>,
)
    requires
        x != y,
    ensures
        before(Order::Bytes, shared.push(x) + a, shared.push(y) + b) <==> x < y,
        before(by, shared, shared.push(y) + b),
        !before(by, shared.push(y) + b, shared),
    decreases shared.len(),
{
    let p = shared.push(x) + a;
    let q = shared.push(y) + b;
    if shared.len() > 0 {
        let rest = shared.drop_first();
        law_first_difference_decides(by, rest, x, a, y, b);
        assert(p.drop_first() =~= rest.push(x) + a);
        assert(q.drop_first() =~= rest.push(y) + b);
    }
}

} // verus!

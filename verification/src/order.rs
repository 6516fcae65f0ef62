//! Lexicographic order on byte strings, and sorting by it.

use crate::text::views;
use vstd::prelude::*;

verus! {

/// Whether `a` comes before `b` or equals it in lexicographic order: at the
/// first byte in which they differ `a` has the smaller one, or `a` is a
/// prefix of `b`.
pub open spec fn lex_le(a: Seq<u8>, b: Seq<u8>) -> bool
    decreases a.len(),
{
    if a.len() == 0 {
        true
    } else if b.len() == 0 {
        false
    } else if a[0] != b[0] {
        a[0] < b[0]
    } else {
        lex_le(a.drop_first(), b.drop_first())
    }
}

/// Whether `order` lists each of the positions `0..n` once.
pub open spec fn is_arrangement(order: Seq<usize>, n: nat) -> bool {
    &&& order.len() == n
    &&& forall|i: int| 0 <= i < order.len() ==> (#[trigger] order[i]) < n
    &&& order.no_duplicates()
    &&& forall|k: usize| k < n ==> order.contains(k)
}

/// Whether `names` stand in strictly ascending lexicographic order.
pub open spec fn strictly_ascending(names: Seq<Seq<u8>>) -> bool {
    forall|i: int, j: int|
        0 <= i < j < names.len() ==> lex_le(#[trigger] names[i], #[trigger] names[j]) && names[i]
            != names[j]
}

/// Of two byte strings, one comes before the other or equals it.
pub(crate) proof fn lemma_lex_total(a: Seq<u8>, b: Seq<u8>)
    ensures
        lex_le(a, b) || lex_le(b, a),
    decreases a.len(),
{
    if a.len() > 0 && b.len() > 0 && a[0] == b[0] {
        lemma_lex_total(a.drop_first(), b.drop_first());
    }
}

/// The lexicographic order is transitive.
pub(crate) proof fn lemma_lex_transitive(a: Seq<u8>, b: Seq<u8>, c: Seq<u8>)
    requires
        lex_le(a, b),
        lex_le(b, c),
    ensures
        lex_le(a, c),
    decreases a.len(),
{
    if a.len() > 0 && b.len() > 0 && c.len() > 0 && a[0] == b[0] && b[0] == c[0] {
        lemma_lex_transitive(a.drop_first(), b.drop_first(), c.drop_first());
    }
}

/// Two byte strings of which each comes before the other are equal.
pub(crate) proof fn lemma_lex_antisymmetric(a: Seq<u8>, b: Seq<u8>)
    requires
        lex_le(a, b),
        lex_le(b, a),
    ensures
        a == b,
    decreases a.len(),
{
    if a.len() > 0 && b.len() > 0 {
        lemma_lex_antisymmetric(a.drop_first(), b.drop_first());
        assert(a =~= seq![a[0]] + a.drop_first());
        assert(b =~= seq![b[0]] + b.drop_first());
    } else {
        assert(a =~= b);
    }
}

/// Names in strictly ascending order are distinct.
pub(crate) proof fn lemma_ascending_distinct(names: Seq<Seq<u8>>)
    requires
        strictly_ascending(names),
    ensures
        names.no_duplicates(),
{
    assert forall|i: int, j: int| 0 <= i < names.len() && 0 <= j < names.len() && i != j implies names[i]
        != names[j] by {
        if i < j {
            assert(lex_le(names[i], names[j]) && names[i] != names[j]);
        } else {
            assert(lex_le(names[j], names[i]) && names[j] != names[i]);
        }
    }
}

/// A name put between the names that come before it and those that come
/// after it leaves the order strictly ascending.
pub(crate) proof fn lemma_ascending_insert(names: Seq<Seq<u8>>, at: int, name: Seq<u8>)
    requires
        strictly_ascending(names),
        0 <= at <= names.len(),
        forall|j: int| 0 <= j < at ==> !lex_le(name, #[trigger] names[j]),
        at < names.len() ==> lex_le(name, names[at]) && name != names[at],
    ensures
        strictly_ascending(names.insert(at, name)),
        !names.contains(name),
{
    let after = names.insert(at, name);
    assert forall|i: int, j: int| 0 <= i < j < after.len() implies lex_le(
        #[trigger] after[i],
        #[trigger] after[j],
    ) && after[i] != after[j] by {
        if j < at {
            assert(after[i] == names[i] && after[j] == names[j]);
        } else if j == at {
            assert(after[i] == names[i]);
            lemma_lex_total(name, names[i]);
            if names[i] == name {
                lemma_lex_total(name, name);
            }
        } else if i < at {
            assert(after[i] == names[i] && after[j] == names[j - 1]);
        } else if i == at {
            assert(after[j] == names[j - 1]);
            if j - 1 > at {
                assert(lex_le(names[at], names[j - 1]) && names[at] != names[j - 1]);
                lemma_lex_transitive(name, names[at], names[j - 1]);
                if name == names[j - 1] {
                    lemma_lex_antisymmetric(names[at], name);
                }
            }
        } else {
            assert(after[i] == names[i - 1] && after[j] == names[j - 1]);
        }
    }
    if names.contains(name) {
        let k = names.index_of(name);
        if k < at {
            lemma_lex_total(name, name);
        } else if k > at {
            assert(lex_le(names[at], names[k]) && names[at] != names[k]);
            lemma_lex_antisymmetric(names[at], name);
        }
    }
}

/// Names in strictly ascending order are fixed by which names they are.
pub(crate) proof fn lemma_ascending_unique(a: Seq<Seq<u8>>, b: Seq<Seq<u8>>)
    requires
        strictly_ascending(a),
        strictly_ascending(b),
        forall|x: Seq<u8>| a.contains(x) <==> b.contains(x),
    ensures
        a == b,
    decreases a.len(),
{
    if a.len() == 0 {
        if b.len() > 0 {
            assert(b.contains(b[0]));
        }
        assert(a =~= b);
    } else {
        assert(a.contains(a.last()));
        assert(b.contains(a.last()));
        let top_a = a.last();
        let top_b = b.last();
        assert(b.contains(top_b));
        assert(a.contains(top_b));
        let ia = a.index_of(top_b);
        let ib = b.index_of(top_a);
        assert(lex_le(top_b, top_a)) by {
            if ia < a.len() - 1 {
                assert(lex_le(a[ia], a[a.len() - 1]));
            } else {
                lemma_lex_total(top_a, top_a);
            }
        }
        assert(lex_le(top_a, top_b)) by {
            if ib < b.len() - 1 {
                assert(lex_le(b[ib], b[b.len() - 1]));
            } else {
                lemma_lex_total(top_b, top_b);
            }
        }
        lemma_lex_antisymmetric(top_a, top_b);
        let ra = a.drop_last();
        let rb = b.drop_last();
        assert(strictly_ascending(ra)) by {
            assert forall|i: int, j: int| 0 <= i < j < ra.len() implies lex_le(
                #[trigger] ra[i],
                #[trigger] ra[j],
            ) && ra[i] != ra[j] by {
                assert(ra[i] == a[i] && ra[j] == a[j]);
            }
        }
        assert(strictly_ascending(rb)) by {
            assert forall|i: int, j: int| 0 <= i < j < rb.len() implies lex_le(
                #[trigger] rb[i],
                #[trigger] rb[j],
            ) && rb[i] != rb[j] by {
                assert(rb[i] == b[i] && rb[j] == b[j]);
            }
        }
        assert forall|x: Seq<u8>| ra.contains(x) <==> rb.contains(x) by {
            if ra.contains(x) {
                let i = ra.index_of(x);
                assert(a[i] == x);
                assert(lex_le(a[i], a[a.len() - 1]) && a[i] != a[a.len() - 1]);
                assert(a.contains(x));
                let k = b.index_of(x);
                assert(k < b.len() - 1);
                assert(rb[k] == x);
            }
            if rb.contains(x) {
                let i = rb.index_of(x);
                assert(b[i] == x);
                assert(lex_le(b[i], b[b.len() - 1]) && b[i] != b[b.len() - 1]);
                assert(b.contains(x));
                let k = a.index_of(x);
                assert(k < a.len() - 1);
                assert(ra[k] == x);
            }
        }
        lemma_ascending_unique(ra, rb);
        assert(a =~= ra.push(top_a));
        assert(b =~= rb.push(top_b));
    }
}

/// Whether `a` comes before `b` or equals it in lexicographic order.
pub fn bytes_le(a: &[u8], b: &[u8]) -> (r: bool)
    ensures
        r == lex_le(a@, b@),
{
    let mut i: usize = 0;
    assert(a@.subrange(0, a@.len() as int) =~= a@);
    assert(b@.subrange(0, b@.len() as int) =~= b@);
    while i < a.len() && i < b.len()
        invariant
            0 <= i <= a@.len(),
            i <= b@.len(),
            lex_le(a@, b@) == lex_le(
                a@.subrange(i as int, a@.len() as int),
                b@.subrange(i as int, b@.len() as int),
            ),
        decreases a@.len() - i,
    {
        let ghost ra = a@.subrange(i as int, a@.len() as int);
        let ghost rb = b@.subrange(i as int, b@.len() as int);
        assert(ra[0] == a@[i as int] && rb[0] == b@[i as int]);
        assert(ra.drop_first() =~= a@.subrange(i + 1, a@.len() as int));
        assert(rb.drop_first() =~= b@.subrange(i + 1, b@.len() as int));
        if a[i] != b[i] {
            return a[i] < b[i];
        }
        i = i + 1;
    }
    i == a.len()
}

/// Where `name` stands among `names` or, if it is not among them, where it
/// would have to stand: behind all names that come before it.
pub fn locate(names: &Vec<Vec<u8>>, name: &[u8]) -> (r: (bool, usize))
    ensures
        r.1 <= names@.len(),
        forall|j: int| 0 <= j < r.1 ==> !lex_le(name@, #[trigger] views(names@)[j]),
        r.1 < names@.len() ==> lex_le(name@, views(names@)[r.1 as int]),
        r.0 == (r.1 < names@.len() && views(names@)[r.1 as int] == name@),
{
    let mut i: usize = 0;
    while i < names.len() && !bytes_le(name, names[i].as_slice())
        invariant
            0 <= i <= names@.len(),
            forall|j: int| 0 <= j < i ==> !lex_le(name@, #[trigger] views(names@)[j]),
        decreases names@.len() - i,
    {
        i = i + 1;
    }
    if i < names.len() {
        let found = bytes_le(names[i].as_slice(), name);
        proof {
            if found {
                lemma_lex_antisymmetric(name@, views(names@)[i as int]);
            } else {
                lemma_lex_total(name@, name@);
            }
        }
        (found, i)
    } else {
        (false, i)
    }
}

/// A total preorder on the positions `0..count` of some collection, that
/// can be decided.
pub trait Ranking {
    /// What the ranking needs to hold of itself to be decided.
    spec fn wf(&self) -> bool;

    /// How many positions there are.
    spec fn count(&self) -> nat;

    /// Whether position `i` may stand before position `j`.
    spec fn before(&self, i: int, j: int) -> bool;

    /// How many positions there are.
    fn size(&self) -> (n: usize)
        requires
            self.wf(),
        ensures
            n == self.count(),
    ;

    /// Decides whether position `i` may stand before position `j`.
    fn is_before(&self, i: usize, j: usize) -> (r: bool)
        requires
            self.wf(),
            i < self.count(),
            j < self.count(),
        ensures
            r == self.before(i as int, j as int),
    ;

    /// Of two positions, one may stand before the other.
    proof fn total(&self, i: int, j: int)
        requires
            self.wf(),
            0 <= i < self.count(),
            0 <= j < self.count(),
        ensures
            self.before(i, j) || self.before(j, i),
    ;

    /// What may stand before a position may stand before all that the
    /// position may stand before.
    proof fn transitive(&self, i: int, j: int, k: int)
        requires
            self.wf(),
            0 <= i < self.count(),
            0 <= j < self.count(),
            0 <= k < self.count(),
            self.before(i, j),
            self.before(j, k),
        ensures
            self.before(i, k),
    ;
}

/// Whether `order` lists positions in ascending order of `ranking`.
pub open spec fn ascending<R: Ranking>(order: Seq<usize>, ranking: &R) -> bool {
    forall|i: int, j: int|
        0 <= i < j < order.len() ==> ranking.before(
            (#[trigger] order[i]) as int,
            (#[trigger] order[j]) as int,
        )
}

/// The positions of `ranking` in ascending order, by selection sort.
pub fn sort_positions<R: Ranking>(ranking: &R) -> (order: Vec<usize>)
    requires
        ranking.wf(),
    ensures
        is_arrangement(order@, ranking.count()),
        ascending(order@, ranking),
{
    let n: usize = ranking.size();
    let mut order: Vec<usize> = Vec::new();
    let mut k: usize = 0;
    while k < n
        invariant
            0 <= k <= n,
            order@.len() == k,
            forall|i: int| 0 <= i < k ==> (#[trigger] order@[i]) == i,
        decreases n - k,
    {
        order.push(k);
        k = k + 1;
    }
    proof {
        assert forall|k: usize| k < n implies order@.contains(k) by {
            assert(order@[k as int] == k);
        }
    }
    let mut i: usize = 0;
    while i < n
        invariant
            0 <= i <= n,
            n == ranking.count(),
            ranking.wf(),
            is_arrangement(order@, n as nat),
            forall|a: int, b: int|
                0 <= a < b < n && a < i ==> ranking.before(
                    (#[trigger] order@[a]) as int,
                    (#[trigger] order@[b]) as int,
                ),
        decreases n - i,
    {
        let mut m: usize = i;
        let mut j: usize = i + 1;
        proof {
            ranking.total(order@[i as int] as int, order@[i as int] as int);
        }
        while j < n
            invariant
                i < j <= n,
                i <= m < j,
                n == ranking.count(),
                ranking.wf(),
                is_arrangement(order@, n as nat),
                forall|b: int|
                    i <= b < j ==> ranking.before(
                        order@[m as int] as int,
                        (#[trigger] order@[b]) as int,
                    ),
            decreases n - j,
        {
            let ghost least = order@[m as int] as int;
            let ghost next = order@[j as int] as int;
            if !ranking.is_before(order[m], order[j]) {
                proof {
                    ranking.total(least, next);
                    assert forall|b: int| i <= b < j + 1 implies ranking.before(
                        next,
                        (#[trigger] order@[b]) as int,
                    ) by {
                        if b < j {
                            ranking.transitive(next, least, order@[b] as int);
                        } else {
                            ranking.total(next, next);
                        }
                    }
                }
                m = j;
            }
            j = j + 1;
        }
        let ghost earlier = order@;
        let at_i: usize = order[i];
        let at_m: usize = order[m];
        order.set(i, at_m);
        order.set(m, at_i);
        proof {
            assert(order@.no_duplicates()) by {
                assert forall|a: int, b: int|
                    0 <= a < order@.len() && 0 <= b < order@.len() && a != b implies order@[a]
                    != order@[b] by {
                    let a0 = if a == i {
                        m as int
                    } else if a == m {
                        i as int
                    } else {
                        a
                    };
                    let b0 = if b == i {
                        m as int
                    } else if b == m {
                        i as int
                    } else {
                        b
                    };
                    assert(order@[a] == earlier[a0] && order@[b] == earlier[b0]);
                }
            }
            assert forall|k: usize| k < n implies order@.contains(k) by {
                assert(earlier.contains(k));
                let p = earlier.index_of(k);
                let moved = if p == i {
                    m as int
                } else if p == m {
                    i as int
                } else {
                    p
                };
                assert(order@[moved] == k);
            }
            assert forall|a: int, b: int| 0 <= a < b < n && a < i + 1 implies ranking.before(
                (#[trigger] order@[a]) as int,
                (#[trigger] order@[b]) as int,
            ) by {
                let b0 = if b == i {
                    m as int
                } else if b == m {
                    i as int
                } else {
                    b
                };
                assert(order@[b] == earlier[b0]);
                if a < i {
                    assert(order@[a] == earlier[a]);
                } else {
                    assert(order@[a] == earlier[m as int]);
                }
            }
        }
        i = i + 1;
    }
    order
}

} // verus!

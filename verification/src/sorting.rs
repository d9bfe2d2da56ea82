//! Stable sorting by a total preorder.
use vstd::prelude::*;

verus! {

/// A type whose values have a place in a total preorder.
pub trait Ranked: Sized {
    spec fn not_after(self, other: Self) -> bool;

    proof fn lemma_total(a: Self, b: Self)
        ensures
            a.not_after(b) || b.not_after(a),
    ;

    proof fn lemma_transitive(a: Self, b: Self, c: Self)
        requires
            a.not_after(b),
            b.not_after(c),
        ensures
            a.not_after(c),
    ;
}

/// A value that is put in order by its key.
pub trait Sortable: Sized {
    type Key: Ranked;

    spec fn key(self) -> Self::Key;

    fn stays_before(&self, other: &Self) -> (r: bool)
        ensures
            r == (*self).key().not_after((*other).key()),
    ;
}

/// The keys of a sequence of values.
pub open spec fn keys<T: Sortable>(items: Seq<T>) -> Seq<T::Key> {
    Seq::new(items.len(), |i: int| items[i].key())
}

/// Where a new last element belongs: behind everything that is not after it.
pub open spec fn insertion_point<T: Ranked>(s: Seq<T>, x: T) -> int
    decreases s.len(),
{
    if s.len() == 0 {
        0
    } else if s.last().not_after(x) {
        s.len() as int
    } else {
        insertion_point(s.drop_last(), x)
    }
}

/// The stable sort: each element in turn goes behind its equals.
pub open spec fn stable_sorted<T: Ranked>(s: Seq<T>) -> Seq<T>
    decreases s.len(),
{
    if s.len() == 0 {
        s
    } else {
        let t = stable_sorted(s.drop_last());
        t.insert(insertion_point(t, s.last()), s.last())
    }
}

pub open spec fn ascending<T: Ranked>(s: Seq<T>) -> bool {
    forall|i: int, j: int| 0 <= i <= j < s.len() ==> #[trigger] s[i].not_after(#[trigger] s[j])
}

pub(crate) proof fn lemma_insertion_point<T: Ranked>(s: Seq<T>, x: T)
    requires
        ascending(s),
    ensures
        0 <= insertion_point(s, x) <= s.len(),
        forall|i: int| 0 <= i < insertion_point(s, x) ==> (#[trigger] s[i]).not_after(x),
        forall|i: int| insertion_point(s, x) <= i < s.len() ==> !(#[trigger] s[i]).not_after(x),
    decreases s.len(),
{
    if s.len() > 0 {
        let last = s.last();
        if last.not_after(x) {
            assert forall|i: int| 0 <= i < s.len() implies (#[trigger] s[i]).not_after(x) by {
                assert(s[i].not_after(s[s.len() - 1]));
                T::lemma_transitive(s[i], last, x);
            }
        } else {
            let t = s.drop_last();
            assert(ascending(t)) by {
                assert forall|i: int, j: int| 0 <= i <= j < t.len() implies #[trigger] t[i].not_after(
                    #[trigger] t[j],
                ) by {
                    assert(s[i].not_after(s[j]));
                }
            }
            lemma_insertion_point(t, x);
            assert forall|i: int| 0 <= i < insertion_point(s, x) implies (
            #[trigger] s[i]).not_after(x) by {
                assert(t[i].not_after(x));
            }
            assert forall|i: int| insertion_point(s, x) <= i < s.len() implies !(
            #[trigger] s[i]).not_after(x) by {
                if i < t.len() {
                    assert(!t[i].not_after(x));
                }
            }
        }
    }
}

/// The point is determined by what lies on its two sides.
proof fn lemma_insertion_point_is<T: Ranked>(s: Seq<T>, x: T, p: int)
    requires
        ascending(s),
        0 <= p <= s.len(),
        p > 0 ==> s[p - 1].not_after(x),
        p < s.len() ==> !s[p].not_after(x),
    ensures
        insertion_point(s, x) == p,
{
    lemma_insertion_point(s, x);
    let q = insertion_point(s, x);
    if q < p {
        assert(!s[p - 1].not_after(x));
    } else if p < q {
        assert(s[p].not_after(x));
    }
}

/// The stable sort puts its elements in order and keeps each of them once.
pub proof fn lemma_stable_sorted<T: Ranked>(s: Seq<T>)
    ensures
        stable_sorted(s).len() == s.len(),
        ascending(stable_sorted(s)),
        stable_sorted(s).to_multiset() == s.to_multiset(),
    decreases s.len(),
{
    broadcast use vstd::seq_lib::group_to_multiset_ensures;

    if s.len() == 0 {
        assert(ascending(stable_sorted(s)));
    } else {
        let t = stable_sorted(s.drop_last());
        let x = s.last();
        lemma_stable_sorted(s.drop_last());
        lemma_insertion_point(t, x);
        let p = insertion_point(t, x);
        let r = t.insert(p, x);
        assert forall|i: int, j: int| 0 <= i <= j < r.len() implies #[trigger] r[i].not_after(
            #[trigger] r[j],
        ) by {
            let a = if i < p {
                i
            } else {
                i - 1
            };
            let b = if j < p {
                j
            } else {
                j - 1
            };
            if i == p && j == p {
                T::lemma_total(x, x);
            } else if i == p {
                assert(r[j] == t[b]);
                assert(!t[b].not_after(x));
                T::lemma_total(x, t[b]);
            } else if j == p {
                assert(r[i] == t[a]);
                assert(t[a].not_after(x));
            } else {
                assert(r[i] == t[a] && r[j] == t[b]);
                assert(t[a].not_after(t[b]));
            }
        }
        assert(s =~= s.drop_last().push(x));
    }
}

pub open spec fn at_most_len(width: nat, len: nat) -> nat {
    if len < width {
        len
    } else {
        width
    }
}

/// The items at the given places.
pub open spec fn picked<T>(items: Seq<T>, places: Seq<usize>) -> Seq<T> {
    Seq::new(places.len(), |i: int| items[places[i] as int])
}

/// The places of the first `width` items in the stable order.
pub fn stable_order<T: Sortable>(items: &Vec<T>, width: usize) -> (order: Vec<usize>)
    ensures
        forall|i: int| 0 <= i < order@.len() ==> (#[trigger] order@[i]) < items@.len(),
        order@.len() == at_most_len(width as nat, items@.len()),
        picked(keys(items@), order@) == stable_sorted(keys(items@)).take(
            at_most_len(width as nat, items@.len()) as int,
        ),
{
    let mut order: Vec<usize> = Vec::new();
    let mut j: usize = 0;
    proof {
        assert(keys(items@).take(0) =~= Seq::empty());
        assert(picked(keys(items@), order@) =~= stable_sorted(keys(items@).take(0)).take(0));
    }
    while j < items.len()
        invariant
            j <= items@.len(),
            forall|i: int| 0 <= i < order@.len() ==> (#[trigger] order@[i]) < items@.len(),
            order@.len() == at_most_len(width as nat, j as nat),
            picked(keys(items@), order@) == stable_sorted(keys(items@).take(j as int)).take(
                order@.len() as int,
            ),
        decreases items.len() - j,
    {
        let ghost before = order@;
        let ghost s = stable_sorted(keys(items@).take(j as int));
        let ghost x = keys(items@)[j as int];
        proof {
            lemma_stable_sorted(keys(items@).take(j as int));
            assert(keys(items@).take(j + 1).drop_last() =~= keys(items@).take(j as int));
            lemma_insertion_point(s, x);
        }
        let p: usize = find_place(items, &order, j);
        proof {
            let t = picked(keys(items@), order@);
            lemma_prefix_insertion(s, x, t.len() as int);
            assert(p == insertion_point(t, x));
        }
        if p < width {
            if order.len() == width {
                order.pop();
            }
            order.insert(p, j);
        }
        proof {
            let w = order@.len() as int;
            let r = s.insert(insertion_point(s, x), x);
            assert(picked(keys(items@), order@) =~= r.take(w)) by {
                let t = picked(keys(items@), before);
                assert forall|i: int| 0 <= i < w implies picked(keys(items@), order@)[i] == r.take(
                    w,
                )[i] by {
                    if p < width {
                        if i < p {
                            assert(order@[i] == before[i]);
                            assert(t[i] == s[i]);
                        } else if i > p {
                            assert(order@[i] == before[i - 1]);
                            assert(t[i - 1] == s[i - 1]);
                        }
                    } else {
                        assert(t[i] == s[i]);
                    }
                }
            }
        }
        j = j + 1;
    }
    proof {
        assert(keys(items@).take(j as int) =~= keys(items@));
    }
    order
}

/// A prefix of a sorted sequence receives a new element where the whole does, or at its end.
proof fn lemma_prefix_insertion<T: Ranked>(s: Seq<T>, x: T, n: int)
    requires
        ascending(s),
        0 <= n <= s.len(),
    ensures
        ascending(s.take(n)),
        insertion_point(s.take(n), x) == if insertion_point(s, x) < n {
            insertion_point(s, x)
        } else {
            n
        },
{
    let t = s.take(n);
    assert forall|i: int, j: int| 0 <= i <= j < t.len() implies #[trigger] t[i].not_after(
        #[trigger] t[j],
    ) by {
        assert(s[i].not_after(s[j]));
    }
    lemma_insertion_point(s, x);
    let p = if insertion_point(s, x) < n {
        insertion_point(s, x)
    } else {
        n
    };
    if p > 0 {
        assert(s[p - 1].not_after(x));
        assert(t[p - 1] == s[p - 1]);
    }
    if p < n {
        assert(!s[p].not_after(x));
        assert(t[p] == s[p]);
    }
    lemma_insertion_point_is(t, x, p);
}

/// Finds the place of item `j` among the items already in order.
fn find_place<T: Sortable>(items: &Vec<T>, order: &Vec<usize>, j: usize) -> (p: usize)
    requires
        j < items@.len(),
        forall|i: int| 0 <= i < order@.len() ==> (#[trigger] order@[i]) < items@.len(),
        ascending(picked(keys(items@), order@)),
    ensures
        p == insertion_point(picked(keys(items@), order@), keys(items@)[j as int]),
        p <= order@.len(),
{
    let ghost t = picked(keys(items@), order@);
    let ghost x = keys(items@)[j as int];
    let n: usize = order.len();
    if n == 0 || items[order[n - 1]].stays_before(&items[j]) {
        proof {
            lemma_insertion_point_is(t, x, n as int);
        }
        return n;
    }
    let mut low: usize = 0;
    let mut high: usize = n - 1;
    while low < high
        invariant
            low <= high < n,
            n == order@.len(),
            j < items@.len(),
            forall|i: int| 0 <= i < order@.len() ==> (#[trigger] order@[i]) < items@.len(),
            t == picked(keys(items@), order@),
            x == keys(items@)[j as int],
            low > 0 ==> t[low - 1].not_after(x),
            !t[high as int].not_after(x),
        decreases high - low,
    {
        let mid: usize = low + (high - low) / 2;
        if items[order[mid]].stays_before(&items[j]) {
            low = mid + 1;
        } else {
            high = mid;
        }
    }
    proof {
        lemma_insertion_point_is(t, x, low as int);
    }
    low
}

} // verus!

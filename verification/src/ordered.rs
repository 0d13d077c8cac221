//! Items with a strict total order, and two collections that keep them in
//! that order: a set, which holds no key twice, and a list, which may.

use crate::text::clone_strings;
use vstd::prelude::*;

verus! {

/// The outcome of comparing two items.
#[derive(Clone, Copy, Debug, PartialEq, Eq, Structural)]
pub enum Order {
    /// The first comes strictly before the second.
    Before,
    /// Both are the same.
    Same,
    /// The first comes strictly after the second.
    After,
}

/// A type whose values are ordered by a key.
pub trait Ordered: Sized {
    /// The mathematical value by which items are compared.
    type Key;

    /// The key of an item.
    spec fn key(&self) -> Self::Key;

    /// `a` comes strictly before `b`.
    spec fn key_lt(a: Self::Key, b: Self::Key) -> bool;

    /// `key_lt` is a strict total order.
    proof fn lemma_order(a: Self::Key, b: Self::Key, c: Self::Key)
        ensures
            !Self::key_lt(a, a),
            Self::key_lt(a, b) && Self::key_lt(b, c) ==> Self::key_lt(a, c),
            a == b || Self::key_lt(a, b) || Self::key_lt(b, a),
    ;

    /// Compares two items by their keys.
    fn compare(&self, other: &Self) -> (o: Order)
        ensures
            match o {
                Order::Before => Self::key_lt(self.key(), other.key()),
                Order::Same => self.key() == other.key(),
                Order::After => Self::key_lt(other.key(), self.key()),
            },
    ;
}

/// The keys of a sequence of items.
pub open spec fn keys<T: Ordered>(s: Seq<T>) -> Seq<T::Key> {
    s.map_values(|t: T| t.key())
}

/// Each key comes strictly before all later ones.
pub open spec fn ascending<T: Ordered>(k: Seq<T::Key>) -> bool {
    forall|i: int, j: int| 0 <= i < j < k.len() ==> T::key_lt(#[trigger] k[i], #[trigger] k[j])
}

/// No key comes strictly before an earlier one.
pub open spec fn nondescending<T: Ordered>(k: Seq<T::Key>) -> bool {
    forall|i: int, j: int| 0 <= i < j < k.len() ==> !T::key_lt(#[trigger] k[j], #[trigger] k[i])
}

/// `n` is the number of keys of `k` that come strictly before `x`, and they
/// are its first `n`.
pub open spec fn splits_at<T: Ordered>(k: Seq<T::Key>, x: T::Key, n: int) -> bool {
    &&& 0 <= n <= k.len()
    &&& forall|j: int| 0 <= j < n ==> T::key_lt(#[trigger] k[j], x)
    &&& forall|j: int| n <= j < k.len() ==> !T::key_lt(#[trigger] k[j], x)
}

/// An ascending sequence is nondescending.
pub proof fn lemma_ascending_is_nondescending<T: Ordered>(k: Seq<T::Key>)
    requires
        ascending::<T>(k),
    ensures
        nondescending::<T>(k),
{
    assert forall|i: int, j: int| 0 <= i < j < k.len() implies !T::key_lt(
        #[trigger] k[j],
        #[trigger] k[i],
    ) by {
        T::lemma_order(k[i], k[j], k[i]);
    }
}

/// An ascending sequence holds no key twice.
pub proof fn lemma_ascending_no_duplicates<T: Ordered>(k: Seq<T::Key>)
    requires
        ascending::<T>(k),
    ensures
        k.no_duplicates(),
{
    assert forall|i: int, j: int| 0 <= i < k.len() && 0 <= j < k.len() && i != j implies k[i]
        != k[j] by {
        T::lemma_order(k[i], k[i], k[i]);
    }
}

/// A key can be put into a nondescending sequence at the place that
/// `splits_at` gives, and the sequence stays nondescending.
pub proof fn lemma_insert_keeps_order<T: Ordered>(k: Seq<T::Key>, x: T::Key, n: int)
    requires
        nondescending::<T>(k),
        splits_at::<T>(k, x, n),
    ensures
        nondescending::<T>(k.insert(n, x)),
        ascending::<T>(k) && !k.contains(x) ==> ascending::<T>(k.insert(n, x)),
{
    let r = k.insert(n, x);
    assert forall|i: int, j: int| 0 <= i < j < r.len() implies !T::key_lt(
        #[trigger] r[j],
        #[trigger] r[i],
    ) by {
        T::lemma_order(r[j], r[i], r[j]);
        if j == n {
        } else if i == n {
            assert(r[j] == k[j - 1]);
        } else {
            let i0 = if i < n {
                i
            } else {
                i - 1
            };
            let j0 = if j < n {
                j
            } else {
                j - 1
            };
            assert(r[i] == k[i0] && r[j] == k[j0]);
        }
    }
    if ascending::<T>(k) && !k.contains(x) {
        assert forall|i: int, j: int| 0 <= i < j < r.len() implies T::key_lt(
            #[trigger] r[i],
            #[trigger] r[j],
        ) by {
            if j == n {
            } else if i == n {
                assert(r[j] == k[j - 1]);
                assert(k.contains(k[j - 1]));
                T::lemma_order(x, k[j - 1], x);
            } else {
                let i0 = if i < n {
                    i
                } else {
                    i - 1
                };
                let j0 = if j < n {
                    j
                } else {
                    j - 1
                };
                assert(r[i] == k[i0] && r[j] == k[j0]);
            }
        }
    }
}

/// Putting `x` into a sequence adds `x` to the set of its elements.
pub proof fn lemma_insert_to_set<A>(k: Seq<A>, x: A, n: int)
    requires
        0 <= n <= k.len(),
    ensures
        k.insert(n, x).to_set() == k.to_set().insert(x),
{
    let r = k.insert(n, x);
    assert forall|y: A| #[trigger] r.to_set().contains(y) <==> k.to_set().insert(x).contains(y) by {
        if r.contains(y) {
            let j = choose|j: int| 0 <= j < r.len() && r[j] == y;
            if j < n {
                assert(k[j] == y);
            } else if j > n {
                assert(k[j - 1] == y);
            }
        }
        if k.contains(y) {
            let j = choose|j: int| 0 <= j < k.len() && k[j] == y;
            if j < n {
                assert(r[j] == y);
            } else {
                assert(r[j + 1] == y);
            }
        }
        if y == x {
            assert(r[n] == y);
        }
    }
    assert(r.to_set() =~= k.to_set().insert(x));
}

/// "Does not come after", as a relation.
pub open spec fn not_after<T: Ordered>() -> spec_fn(T::Key, T::Key) -> bool {
    |a: T::Key, b: T::Key| !T::key_lt(b, a)
}

/// Two nondescending sequences that hold the same keys, each as often in the
/// one as in the other, are the same sequence.
pub proof fn lemma_nondescending_unique<T: Ordered>(x: Seq<T::Key>, y: Seq<T::Key>)
    requires
        nondescending::<T>(x),
        nondescending::<T>(y),
        x.to_multiset() == y.to_multiset(),
    ensures
        x == y,
{
    let leq = not_after::<T>();
    assert(vstd::relations::reflexive(leq)) by {
        assert forall|a: T::Key| #[trigger] leq(a, a) by {
            T::lemma_order(a, a, a);
        }
    }
    assert(vstd::relations::antisymmetric(leq)) by {
        assert forall|a: T::Key, b: T::Key| #[trigger] leq(a, b) && #[trigger] leq(b, a) implies a
            == b by {
            T::lemma_order(a, b, a);
        }
    }
    assert(vstd::relations::transitive(leq)) by {
        assert forall|a: T::Key, b: T::Key, c: T::Key| #[trigger]
            leq(a, b) && #[trigger] leq(b, c) implies leq(a, c) by {
            T::lemma_order(c, a, b);
            T::lemma_order(a, b, c);
            T::lemma_order(b, c, a);
        }
    }
    assert(vstd::relations::strongly_connected(leq)) by {
        assert forall|a: T::Key, b: T::Key| #[trigger] leq(a, b) || #[trigger] leq(b, a) by {
            T::lemma_order(a, b, a);
        }
    }
    assert(vstd::relations::sorted_by(x, leq));
    assert(vstd::relations::sorted_by(y, leq));
    vstd::seq_lib::lemma_sorted_unique(x, y, leq);
}

/// Two ascending sequences that hold the same keys are the same sequence.
pub proof fn lemma_ascending_unique<T: Ordered>(x: Seq<T::Key>, y: Seq<T::Key>)
    requires
        ascending::<T>(x),
        ascending::<T>(y),
        forall|k: T::Key| x.contains(k) <==> y.contains(k),
    ensures
        x == y,
{
    lemma_ascending_no_duplicates::<T>(x);
    lemma_ascending_no_duplicates::<T>(y);
    lemma_ascending_is_nondescending::<T>(x);
    lemma_ascending_is_nondescending::<T>(y);
    x.lemma_multiset_has_no_duplicates();
    y.lemma_multiset_has_no_duplicates();
    assert forall|k: T::Key| x.to_multiset().count(k) == y.to_multiset().count(k) by {
        vstd::seq_lib::to_multiset_contains(x, k);
        vstd::seq_lib::to_multiset_contains(y, k);
        assert(x.contains(k) <==> y.contains(k));
    }
    assert(x.to_multiset() =~= y.to_multiset());
    lemma_nondescending_unique::<T>(x, y);
}

/// Finds by binary search the place where `x` belongs in `v`, and says
/// whether an item with the key of `x` stands there.
pub(crate) fn lower_bound<T: Ordered>(v: &Vec<T>, x: &T) -> (r: (usize, bool))
    requires
        nondescending::<T>(keys(v@)),
    ensures
        splits_at::<T>(keys(v@), x.key(), r.0 as int),
        r.1 <==> keys(v@).contains(x.key()),
        r.1 ==> r.0 < v.len() && keys(v@)[r.0 as int] == x.key(),
{
    let ghost k = keys(v@);
    let ghost xk = x.key();
    let mut lo: usize = 0;
    let mut hi: usize = v.len();
    while lo < hi
        invariant
            k == keys(v@),
            xk == x.key(),
            nondescending::<T>(k),
            0 <= lo <= hi <= v.len(),
            forall|j: int| 0 <= j < lo ==> T::key_lt(#[trigger] k[j], xk),
            forall|j: int| hi <= j < k.len() ==> !T::key_lt(#[trigger] k[j], xk),
        decreases hi - lo,
    {
        let mid = lo + (hi - lo) / 2;
        match v[mid].compare(x) {
            Order::Before => {
                assert forall|j: int| 0 <= j < mid + 1 implies T::key_lt(#[trigger] k[j], xk) by {
                    T::lemma_order(k[j], k[mid as int], xk);
                }
                lo = mid + 1;
            },
            _ => {
                assert forall|j: int| mid <= j < k.len() implies !T::key_lt(
                    #[trigger] k[j],
                    xk,
                ) by {
                    T::lemma_order(k[mid as int], k[j], xk);
                    T::lemma_order(xk, k[mid as int], xk);
                }
                hi = mid;
            },
        }
    }
    let found = if lo < v.len() {
        match v[lo].compare(x) {
            Order::Same => true,
            _ => false,
        }
    } else {
        false
    };
    proof {
        T::lemma_order(xk, xk, xk);
        if found {
            assert(k[lo as int] == xk);
        } else if k.contains(xk) {
            let j = choose|j: int| 0 <= j < k.len() && k[j] == xk;
            assert(j >= lo);
            assert(k[lo as int] == v@[lo as int].key());
            assert(!T::key_lt(k[lo as int], xk));
            if j > lo {
                assert(!T::key_lt(k[j], k[lo as int]));
            }
        }
    }
    (lo, found)
}

/// A set of items, kept in ascending order of their keys.
#[derive(Debug, PartialEq, Eq)]
pub struct SortedSet<T: Ordered> {
    items: Vec<T>,
}

impl<T: Ordered> View for SortedSet<T> {
    type V = Seq<T::Key>;

    /// The keys of the items, in the order in which the set is walked.
    closed spec fn view(&self) -> Seq<T::Key> {
        keys(self.items@)
    }
}

impl<T: Ordered> SortedSet<T> {
    /// The keys stand in strictly ascending order, so none occurs twice.
    #[verifier::type_invariant]
    spec fn in_order(&self) -> bool {
        ascending::<T>(keys(self.items@))
    }

    /// Shows that the keys stand in strictly ascending order.
    pub fn order(&self)
        ensures
            ascending::<T>(self@),
    {
        proof {
            use_type_invariant(self);
        }
    }

    /// The items, in the order in which the set is walked.
    pub closed spec fn items(&self) -> Seq<T> {
        self.items@
    }

    /// The view holds the keys of the items.
    pub broadcast proof fn lemma_view(&self)
        ensures
            #[trigger] self@ == keys(self.items()),
            self@.len() == self.items().len(),
    {
    }

    /// The empty set.
    pub fn new() -> (s: Self)
        ensures
            s@ == Seq::<T::Key>::empty(),
    {
        let items: Vec<T> = Vec::new();
        assert(keys(items@) =~= Seq::<T::Key>::empty());
        SortedSet { items }
    }

    /// The number of items.
    pub fn len(&self) -> (n: usize)
        ensures
            n == self@.len(),
    {
        self.items.len()
    }

    /// Whether the set holds no item.
    pub fn is_empty(&self) -> (b: bool)
        ensures
            b == (self@.len() == 0),
    {
        self.items.len() == 0
    }

    /// The item at place `i` of the walk, if there is one.
    pub fn get(&self, i: usize) -> (item: Option<&T>)
        ensures
            match item {
                Some(t) => i < self@.len() && *t == self.items()[i as int] && t.key()
                    == self@[i as int],
                None => i >= self@.len(),
            },
    {
        if i < self.items.len() {
            Some(&self.items[i])
        } else {
            None
        }
    }

    /// Whether the set holds an item with the key of `x`.
    pub fn contains(&self, x: &T) -> (b: bool)
        ensures
            b == self@.contains(x.key()),
    {
        proof {
            use_type_invariant(self);
            lemma_ascending_is_nondescending::<T>(self@);
        }
        lower_bound(&self.items, x).1
    }

    /// Puts `x` into the set unless it holds an item with that key already.
    /// Gives the place at which that key stands, and says whether `x` went in.
    pub fn insert(&mut self, x: T) -> (r: (usize, bool))
        ensures
            ascending::<T>(final(self)@),
            splits_at::<T>(old(self)@, x.key(), r.0 as int),
            r.1 == !old(self)@.contains(x.key()),
            !r.1 ==> final(self)@ == old(self)@ && final(self).items() == old(self).items(),
            r.1 ==> final(self)@ == old(self)@.insert(r.0 as int, x.key()) && final(self).items()
                == old(self).items().insert(r.0 as int, x),
            r.0 < final(self)@.len(),
            final(self)@[r.0 as int] == x.key(),
            final(self)@.to_set() == old(self)@.to_set().insert(x.key()),
    {
        proof {
            use_type_invariant(&*self);
            lemma_ascending_is_nondescending::<T>(self@);
        }
        let (n, found) = lower_bound(&self.items, &x);
        if found {
            assert(self@.to_set() =~= self@.to_set().insert(x.key()));
            (n, false)
        } else {
            let ghost k = self@;
            let ghost xk = x.key();
            let mut items: Vec<T> = Vec::new();
            proof {
                assert(keys(items@) =~= Seq::<T::Key>::empty());
            }
            std::mem::swap(&mut items, &mut self.items);
            items.insert(n, x);
            proof {
                assert(keys(items@) =~= k.insert(n as int, xk));
                lemma_insert_keeps_order::<T>(k, xk, n as int);
                lemma_insert_to_set(k, xk, n as int);
            }
            self.items = items;
            (n, true)
        }
    }

    /// The items as a vector, in the order in which the set is walked.
    pub fn as_vec(&self) -> (v: &Vec<T>)
        ensures
            v@ == self.items(),
            keys(v@) == self@,
    {
        &self.items
    }
}

impl SortedSet<String> {
    /// A copy of the set.
    pub fn duplicate(&self) -> (r: Self)
        ensures
            r@ == self@,
            r.items() == self.items(),
    {
        proof {
            use_type_invariant(self);
        }
        SortedSet { items: clone_strings(&self.items) }
    }
}

/// A list of items, kept in nondescending order of their keys; a key may
/// occur more than once.
#[derive(Debug, PartialEq, Eq)]
pub struct SortedList<T: Ordered> {
    items: Vec<T>,
}

impl<T: Ordered> View for SortedList<T> {
    type V = Seq<T::Key>;

    /// The keys of the items, first to last.
    closed spec fn view(&self) -> Seq<T::Key> {
        keys(self.items@)
    }
}

impl<T: Ordered> SortedList<T> {
    /// No key comes before an earlier one.
    #[verifier::type_invariant]
    spec fn in_order(&self) -> bool {
        nondescending::<T>(keys(self.items@))
    }

    /// Shows that no key comes before an earlier one.
    pub fn order(&self)
        ensures
            nondescending::<T>(self@),
    {
        proof {
            use_type_invariant(self);
        }
    }

    /// The items, first to last.
    pub closed spec fn items(&self) -> Seq<T> {
        self.items@
    }

    /// The view holds the keys of the items.
    pub broadcast proof fn lemma_view(&self)
        ensures
            #[trigger] self@ == keys(self.items()),
            self@.len() == self.items().len(),
    {
    }

    /// The empty list.
    pub fn new() -> (s: Self)
        ensures
            s@ == Seq::<T::Key>::empty(),
    {
        let items: Vec<T> = Vec::new();
        assert(keys(items@) =~= Seq::<T::Key>::empty());
        SortedList { items }
    }

    /// The number of items.
    pub fn len(&self) -> (n: usize)
        ensures
            n == self@.len(),
    {
        self.items.len()
    }

    /// Whether the list holds no item.
    pub fn is_empty(&self) -> (b: bool)
        ensures
            b == (self@.len() == 0),
    {
        self.items.len() == 0
    }

    /// The item at place `i`, if there is one.
    pub fn get(&self, i: usize) -> (item: Option<&T>)
        ensures
            match item {
                Some(t) => i < self@.len() && *t == self.items()[i as int] && t.key()
                    == self@[i as int],
                None => i >= self@.len(),
            },
    {
        if i < self.items.len() {
            Some(&self.items[i])
        } else {
            None
        }
    }

    /// Puts `x` into the list, before the items that do not come before it.
    /// Gives the place at which `x` stands.
    pub fn insert(&mut self, x: T) -> (n: usize)
        ensures
            nondescending::<T>(final(self)@),
            splits_at::<T>(old(self)@, x.key(), n as int),
            final(self)@ == old(self)@.insert(n as int, x.key()),
            final(self).items() == old(self).items().insert(n as int, x),
            final(self)@.to_multiset() == old(self)@.to_multiset().insert(x.key()),
    {
        proof {
            use_type_invariant(&*self);
        }
        let (n, _) = lower_bound(&self.items, &x);
        let ghost k = self@;
        let ghost xk = x.key();
        let mut items: Vec<T> = Vec::new();
        proof {
            assert(keys(items@) =~= Seq::<T::Key>::empty());
        }
        std::mem::swap(&mut items, &mut self.items);
        items.insert(n, x);
        proof {
            assert(keys(items@) =~= k.insert(n as int, xk));
            lemma_insert_keeps_order::<T>(k, xk, n as int);
            vstd::seq_lib::to_multiset_insert(k, n as int, xk);
        }
        self.items = items;
        n
    }

    /// The items as a vector, first to last.
    pub fn as_vec(&self) -> (v: &Vec<T>)
        ensures
            v@ == self.items(),
            keys(v@) == self@,
    {
        &self.items
    }
}

} // verus!

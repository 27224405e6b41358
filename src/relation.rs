//! Binary relations on a finite character set, stored as a boolean matrix
//! indexed by the positions of the set's elements.
use vstd::prelude::*;
use crate::char_set::{strictly_sorted, CharSet};

verus! {

/// A relation on the elements of `base`: `matrix[i][j]` tells whether the
/// `i`-th element is related to the `j`-th one.
#[derive(Clone, Debug)]
pub struct Relation {
    base: CharSet,
    matrix: Vec<Vec<bool>>,
    is_full: bool,
    is_empty: bool,
}

impl Relation {
    /// The elements the relation is defined on, in increasing order.
    pub closed spec fn domain(&self) -> Seq<char> {
        self.base@
    }

    /// Whether the `i`-th element of the domain is related to the `j`-th one.
    pub closed spec fn holds(&self, i: int, j: int) -> bool {
        self.matrix@[i]@[j]
    }

    pub closed spec fn size(&self) -> int {
        self.base@.len() as int
    }

    /// Whether `a` is related to `b`.
    pub open spec fn relates(&self, a: char, b: char) -> bool {
        exists|i: int, j: int|
            0 <= i < self.size() && 0 <= j < self.size() && self.domain()[i] == a
                && self.domain()[j] == b && #[trigger] self.holds(i, j)
    }

    /// Every element is related to itself; an empty domain does not count as reflexive.
    pub open spec fn reflexive(&self) -> bool {
        self.size() > 0 && forall|i: int| 0 <= i < self.size() ==> #[trigger] self.holds(i, i)
    }

    /// No element is related to itself.
    pub open spec fn irreflexive(&self) -> bool {
        forall|i: int| 0 <= i < self.size() ==> !#[trigger] self.holds(i, i)
    }

    pub open spec fn symmetric(&self) -> bool {
        forall|i: int, j: int| 0 <= i < self.size() && 0 <= j < self.size() ==>
            (#[trigger] self.holds(i, j) <==> self.holds(j, i))
    }

    /// No two distinct elements are related both ways.
    pub open spec fn antisymmetric(&self) -> bool {
        forall|i: int, j: int| 0 <= i < self.size() && 0 <= j < self.size() && i != j ==>
            !(#[trigger] self.holds(i, j) && self.holds(j, i))
    }

    /// No two elements, equal or not, are related both ways.
    pub open spec fn asymmetric(&self) -> bool {
        forall|i: int, j: int| 0 <= i < self.size() && 0 <= j < self.size() ==>
            !(#[trigger] self.holds(i, j) && self.holds(j, i))
    }

    pub open spec fn transitive(&self) -> bool {
        forall|i: int, j: int, k: int|
            0 <= i < self.size() && 0 <= j < self.size() && 0 <= k < self.size() ==>
            (#[trigger] self.holds(i, j) && #[trigger] self.holds(j, k) ==> self.holds(i, k))
    }

    /// The `i`-th element has no other element related to it.
    pub open spec fn is_minimal(&self, i: int) -> bool {
        forall|j: int| 0 <= j < self.size() && j != i ==> !#[trigger] self.holds(j, i)
    }

    /// The `i`-th element is related to no other element.
    pub open spec fn is_maximal(&self, i: int) -> bool {
        forall|j: int| 0 <= j < self.size() && j != i ==> !#[trigger] self.holds(i, j)
    }

    /// The elements related both ways with the `i`-th element.
    pub open spec fn class_of(&self, i: int) -> Set<char> {
        Set::new(|c: char| exists|j: int| 0 <= j < self.size() && self.domain()[j] == c
            && #[trigger] self.holds(i, j) && self.holds(j, i))
    }

    /// Positions, among the first `i`, of the elements that start a class:
    /// those not in the class of an earlier such element.
    pub open spec fn class_starts(&self, i: int) -> Seq<int>
        decreases i,
    {
        if i <= 0 {
            Seq::empty()
        } else {
            let st = self.class_starts(i - 1);
            if exists|k: int| 0 <= k < st.len() && #[trigger] self.class_of(st[k]).contains(self.domain()[i - 1]) {
                st
            } else {
                st.push(i - 1)
            }
        }
    }

    pub closed spec fn wf(&self) -> bool {
        &&& self.base.wf()
        &&& self.matrix@.len() == self.base@.len()
        &&& forall|i: int| 0 <= i < self.matrix@.len() ==> (#[trigger] self.matrix@[i])@.len() == self.base@.len()
        &&& self.is_full == (self.base@.len() > 0 && forall|i: int, j: int|
            0 <= i < self.size() && 0 <= j < self.size() ==> self.holds(i, j))
        &&& self.is_empty == (forall|i: int, j: int|
            0 <= i < self.size() && 0 <= j < self.size() ==> !self.holds(i, j))
    }

    pub proof fn lemma_wf(&self)
        requires
            self.wf(),
        ensures
            strictly_sorted(self.domain()),
            self.size() == self.domain().len(),
    {
    }

    /// The relation on `base` made of those `pairs` whose two elements are both in `base`.
    pub fn new(base: CharSet, pairs: Vec<(char, char)>) -> (r: Relation)
        requires
            base.wf(),
        ensures
            r.wf(),
            r.domain() == base@,
            forall|i: int, j: int| 0 <= i < base@.len() && 0 <= j < base@.len() ==>
                (r.holds(i, j) <==> pairs@.contains((base@[i], base@[j]))),
    {
        let n = base.len();
        let mut matrix: Vec<Vec<bool>> = Vec::new();
        let mut i: usize = 0;
        while i < n
            invariant
                i <= n, n == base@.len(),
                matrix@.len() == i,
                forall|k: int| 0 <= k < i ==> (#[trigger] matrix@[k])@ == Seq::new(n as nat, |j: int| false),
            decreases n - i,
        {
            let row: Vec<bool> = vec![false; n];
            matrix.push(row);
            i += 1;
        }
        let mut rel = Relation { base, matrix, is_full: false, is_empty: false };
        let mut p: usize = 0;
        while p < pairs.len()
            invariant
                rel.base.wf(),
                rel.base@ == base@,
                n == base@.len(),
                p <= pairs@.len(),
                rel.matrix@.len() == n,
                forall|k: int| 0 <= k < n ==> (#[trigger] rel.matrix@[k])@.len() == n,
                forall|a: int, b: int| 0 <= a < n && 0 <= b < n ==>
                    (rel.matrix@[a]@[b] <==> pairs@.subrange(0, p as int).contains((base@[a], base@[b]))),
            decreases pairs@.len() - p,
        {
            let (a, b) = pairs[p];
            let ia = rel.base.index_of(a);
            let ib = rel.base.index_of(b);
            proof {
                assert(pairs@.subrange(0, p + 1) =~= pairs@.subrange(0, p as int).push((a, b)));
                assert forall|q: (char, char)| #[trigger] pairs@.subrange(0, p + 1).contains(q) <==>
                    (pairs@.subrange(0, p as int).contains(q) || q == (a, b)) by {
                    vstd::seq_lib::lemma_seq_contains_after_push(pairs@.subrange(0, p as int), (a, b), q);
                }
            }
            match (ia, ib) {
                (Some(x), Some(y)) => {
                    rel.set_pair(x, y);
                    proof {
                        assert forall|u: int, v: int| 0 <= u < n && 0 <= v < n implies
                            (rel.matrix@[u]@[v] <==> pairs@.subrange(0, p + 1).contains((base@[u], base@[v]))) by {
                            if (base@[u], base@[v]) == (a, b) {
                                assert(base@[u] == base@[x as int]);
                                assert(base@[v] == base@[y as int]);
                            }
                        }
                    }
                },
                _ => {
                    proof {
                        assert forall|u: int, v: int| 0 <= u < n && 0 <= v < n implies
                            (rel.matrix@[u]@[v] <==> pairs@.subrange(0, p + 1).contains((base@[u], base@[v]))) by {
                            if (base@[u], base@[v]) == (a, b) {
                                assert(base@.contains(a) && base@.contains(b));
                            }
                        }
                    }
                },
            }
            p += 1;
        }
        proof {
            assert(pairs@.subrange(0, pairs@.len() as int) == pairs@);
        }
        rel.update_flags();
        rel
    }

    /// Recomputes whether the relation is full or empty.
    fn update_flags(&mut self)
        requires
            old(self).base.wf(),
            old(self).matrix@.len() == old(self).base@.len(),
            forall|i: int| 0 <= i < old(self).matrix@.len() ==> (#[trigger] old(self).matrix@[i])@.len() == old(self).base@.len(),
        ensures
            final(self).wf(),
            final(self).base == old(self).base,
            final(self).matrix == old(self).matrix,
    {
        let n = self.matrix.len();
        let ghost m = self.matrix@;
        if n == 0 {
            self.is_empty = true;
            self.is_full = false;
            return;
        }
        let mut is_full = true;
        let mut is_empty = true;
        let mut i: usize = 0;
        while i < n && (is_full || is_empty)
            invariant
                m == self.matrix@,
                n == m.len(),
                forall|k: int| 0 <= k < n ==> (#[trigger] m[k])@.len() == n,
                i <= n,
                is_full ==> forall|a: int, b: int| 0 <= a < i && 0 <= b < n ==> m[a]@[b],
                !is_full ==> exists|a: int, b: int| 0 <= a < n && 0 <= b < n && !m[a]@[b],
                is_empty ==> forall|a: int, b: int| 0 <= a < i && 0 <= b < n ==> !m[a]@[b],
                !is_empty ==> exists|a: int, b: int| 0 <= a < n && 0 <= b < n && m[a]@[b],
            decreases n - i,
        {
            let mut j: usize = 0;
            while j < n
                invariant
                    m == self.matrix@,
                    n == m.len(),
                    forall|k: int| 0 <= k < n ==> (#[trigger] m[k])@.len() == n,
                    i < n, j <= n,
                    is_full ==> forall|a: int, b: int| (0 <= a < i && 0 <= b < n) || (a == i && 0 <= b < j) ==> m[a]@[b],
                    !is_full ==> exists|a: int, b: int| 0 <= a < n && 0 <= b < n && !m[a]@[b],
                    is_empty ==> forall|a: int, b: int| (0 <= a < i && 0 <= b < n) || (a == i && 0 <= b < j) ==> !m[a]@[b],
                    !is_empty ==> exists|a: int, b: int| 0 <= a < n && 0 <= b < n && m[a]@[b],
                decreases n - j,
            {
                if self.matrix[i][j] {
                    assert(m[i as int]@[j as int]);
                    is_empty = false;
                } else {
                    assert(!m[i as int]@[j as int]);
                    is_full = false;
                }
                j += 1;
            }
            i += 1;
        }
        self.is_full = is_full;
        self.is_empty = is_empty;
        proof {
            if !is_full {
                let (a, b) = choose|a: int, b: int| 0 <= a < n && 0 <= b < n && !m[a]@[b];
                assert(!self.holds(a, b));
            }
            if !is_empty {
                let (a, b) = choose|a: int, b: int| 0 <= a < n && 0 <= b < n && m[a]@[b];
                assert(self.holds(a, b));
            }
        }
    }

    /// Relates the `i`-th element to the `j`-th one.
    fn set_pair(&mut self, i: usize, j: usize)
        requires
            i < old(self).matrix@.len(),
            j < old(self).matrix@[i as int]@.len(),
        ensures
            final(self).base == old(self).base,
            final(self).matrix@.len() == old(self).matrix@.len(),
            forall|k: int| 0 <= k < old(self).matrix@.len() && k != i ==> final(self).matrix@[k] == old(self).matrix@[k],
            final(self).matrix@[i as int]@ == old(self).matrix@[i as int]@.update(j as int, true),
    {
        let mut row = self.matrix[i].clone();
        row.set(j, true);
        self.matrix.set(i, row);
    }

    fn get_pair(&self, i: usize, j: usize) -> (r: bool)
        requires
            self.wf(),
            i < self.size(),
            j < self.size(),
        ensures
            r == self.holds(i as int, j as int),
    {
        self.matrix[i][j]
    }

    /// Whether `a` is related to `b`.
    pub fn contains(&self, a: char, b: char) -> (r: bool)
        requires
            self.wf(),
        ensures
            r == self.relates(a, b),
    {
        if self.is_empty {
            return false;
        }
        match (self.base.index_of(a), self.base.index_of(b)) {
            (Some(i), Some(j)) => {
                proof {
                    if self.relates(a, b) {
                        let (x, y) = choose|x: int, y: int| 0 <= x < self.size() && 0 <= y < self.size()
                            && self.domain()[x] == a && self.domain()[y] == b && #[trigger] self.holds(x, y);
                        assert(x == i as int) by { if x < i { } else if x > i { } }
                        assert(y == j as int) by { if y < j { } else if y > j { } }
                    }
                }
                if self.is_full {
                    assert(self.holds(i as int, j as int));
                    return true;
                }
                let r = self.get_pair(i, j);
                assert(r ==> self.holds(i as int, j as int));
                r
            },
            _ => false,
        }
    }

    pub fn is_reflexive(&self) -> (r: bool)
        requires
            self.wf(),
        ensures
            r == self.reflexive(),
    {
        if self.is_full {
            return true;
        }
        if self.is_empty {
            proof {
                if self.size() > 0 { assert(!self.holds(0, 0)); }
            }
            return false;
        }
        let n = self.matrix.len();
        let mut i: usize = 0;
        while i < n
            invariant
                self.wf(), n == self.size(), i <= n,
                forall|k: int| 0 <= k < i ==> #[trigger] self.holds(k, k),
            decreases n - i,
        {
            if !self.get_pair(i, i) {
                return false;
            }
            i += 1;
        }
        n > 0
    }

    pub fn is_irreflexive(&self) -> (r: bool)
        requires
            self.wf(),
        ensures
            r == self.irreflexive(),
    {
        if self.is_empty {
            return true;
        }
        if self.is_full {
            assert(self.holds(0, 0));
            return false;
        }
        let n = self.matrix.len();
        let mut i: usize = 0;
        while i < n
            invariant
                self.wf(), n == self.size(), i <= n,
                forall|k: int| 0 <= k < i ==> !#[trigger] self.holds(k, k),
            decreases n - i,
        {
            if self.get_pair(i, i) {
                return false;
            }
            i += 1;
        }
        true
    }

    pub fn is_symmetric(&self) -> (r: bool)
        requires
            self.wf(),
        ensures
            r == self.symmetric(),
    {
        if self.is_full || self.is_empty {
            return true;
        }
        let n = self.matrix.len();
        let mut i: usize = 0;
        while i < n
            invariant
                self.wf(), n == self.size(), i <= n,
                forall|a: int, b: int| 0 <= a < i && 0 <= b < n ==> (#[trigger] self.holds(a, b) <==> self.holds(b, a)),
            decreases n - i,
        {
            let mut j: usize = i + 1;
            while j < n
                invariant
                    self.wf(), n == self.size(), i < n, i + 1 <= j <= n,
                    forall|a: int, b: int| 0 <= a < i && 0 <= b < n ==> (#[trigger] self.holds(a, b) <==> self.holds(b, a)),
                    forall|b: int| i < b < j ==> (#[trigger] self.holds(i as int, b) <==> self.holds(b, i as int)),
                decreases n - j,
            {
                if self.get_pair(i, j) != self.get_pair(j, i) {
                    return false;
                }
                j += 1;
            }
            assert forall|a: int, b: int| 0 <= a < i + 1 && 0 <= b < n implies (#[trigger] self.holds(a, b) <==> self.holds(b, a)) by {
                if a == i && b < i {
                    assert(self.holds(b, a) <==> self.holds(a, b));
                }
            }
            i += 1;
        }
        true
    }

    pub fn is_antisymmetric(&self) -> (r: bool)
        requires
            self.wf(),
        ensures
            r == self.antisymmetric(),
    {
        if self.is_empty {
            return true;
        }
        let n = self.matrix.len();
        if self.is_full && n > 1 {
            assert(self.holds(0, 1) && self.holds(1, 0));
            return false;
        }
        let mut i: usize = 0;
        while i < n
            invariant
                self.wf(), n == self.size(), i <= n,
                forall|a: int, b: int| 0 <= a < i && 0 <= b < n && a != b ==> !(#[trigger] self.holds(a, b) && self.holds(b, a)),
            decreases n - i,
        {
            let mut j: usize = i + 1;
            while j < n
                invariant
                    self.wf(), n == self.size(), i < n, i + 1 <= j <= n,
                    forall|a: int, b: int| 0 <= a < i && 0 <= b < n && a != b ==> !(#[trigger] self.holds(a, b) && self.holds(b, a)),
                    forall|b: int| i < b < j ==> !(#[trigger] self.holds(i as int, b) && self.holds(b, i as int)),
                decreases n - j,
            {
                if self.get_pair(i, j) && self.get_pair(j, i) {
                    return false;
                }
                j += 1;
            }
            assert forall|a: int, b: int| 0 <= a < i + 1 && 0 <= b < n && a != b implies !(#[trigger] self.holds(a, b) && self.holds(b, a)) by {
                if a == i && b < i {
                    assert(!(self.holds(b, a) && self.holds(a, b)));
                }
            }
            i += 1;
        }
        true
    }

    pub fn is_asymmetric(&self) -> (r: bool)
        requires
            self.wf(),
        ensures
            r == self.asymmetric(),
    {
        if self.is_empty {
            return true;
        }
        if self.is_full {
            assert(self.holds(0, 0));
            return false;
        }
        let r = self.is_irreflexive() && self.is_antisymmetric();
        proof {
            if self.irreflexive() && self.antisymmetric() {
                assert forall|i: int, j: int| 0 <= i < self.size() && 0 <= j < self.size() implies
                    !(#[trigger] self.holds(i, j) && self.holds(j, i)) by {
                    if i == j { assert(!self.holds(i, i)); }
                }
            }
            if !self.irreflexive() {
                let i = choose|i: int| 0 <= i < self.size() && #[trigger] self.holds(i, i);
                assert(self.holds(i, i) && self.holds(i, i));
            }
        }
        r
    }

    pub fn is_transitive(&self) -> (r: bool)
        requires
            self.wf(),
        ensures
            r == self.transitive(),
    {
        if self.is_empty || self.is_full {
            return true;
        }
        let n = self.matrix.len();
        let mut i: usize = 0;
        while i < n
            invariant
                self.wf(), n == self.size(), i <= n,
                forall|a: int, b: int, c: int| 0 <= a < i && 0 <= b < n && 0 <= c < n ==>
                    (#[trigger] self.holds(a, b) && #[trigger] self.holds(b, c) ==> self.holds(a, c)),
            decreases n - i,
        {
            let mut j: usize = 0;
            while j < n
                invariant
                    self.wf(), n == self.size(), i < n, j <= n,
                    forall|a: int, b: int, c: int| 0 <= a < i && 0 <= b < n && 0 <= c < n ==>
                        (#[trigger] self.holds(a, b) && #[trigger] self.holds(b, c) ==> self.holds(a, c)),
                    forall|b: int, c: int| 0 <= b < j && 0 <= c < n ==>
                        (#[trigger] self.holds(i as int, b) && #[trigger] self.holds(b, c) ==> self.holds(i as int, c)),
                decreases n - j,
            {
                if self.get_pair(i, j) {
                    let mut k: usize = 0;
                    while k < n
                        invariant
                            self.wf(), n == self.size(), i < n, j < n, k <= n,
                            self.holds(i as int, j as int),
                            forall|c: int| 0 <= c < k ==> (#[trigger] self.holds(j as int, c) ==> self.holds(i as int, c)),
                        decreases n - k,
                    {
                        if self.get_pair(j, k) && !self.get_pair(i, k) {
                            assert(self.holds(i as int, j as int) && self.holds(j as int, k as int));
                            return false;
                        }
                        k += 1;
                    }
                }
                j += 1;
            }
            i += 1;
        }
        true
    }

    pub fn is_equivalence(&self) -> (r: bool)
        requires
            self.wf(),
        ensures
            r == (self.reflexive() && self.symmetric() && self.transitive()),
    {
        self.is_reflexive() && self.is_symmetric() && self.is_transitive()
    }

    pub fn is_partial_order(&self) -> (r: bool)
        requires
            self.wf(),
        ensures
            r == (self.reflexive() && self.antisymmetric() && self.transitive()),
    {
        self.is_reflexive() && self.is_antisymmetric() && self.is_transitive()
    }

    /// The elements with no other element related to them.
    pub fn minimal_elements(&self) -> (r: CharSet)
        requires
            self.wf(),
        ensures
            r.wf(),
            forall|c: char| r.elems().contains(c) <==> exists|i: int|
                0 <= i < self.size() && self.domain()[i] == c && #[trigger] self.is_minimal(i),
    {
        let mut result = CharSet::new();
        let n = self.matrix.len();
        let mut i: usize = 0;
        while i < n
            invariant
                self.wf(), n == self.size(), i <= n, result.wf(),
                forall|c: char| result.elems().contains(c) <==> exists|x: int|
                    0 <= x < i && self.domain()[x] == c && #[trigger] self.is_minimal(x),
            decreases n - i,
        {
            let mut found = false;
            let mut j: usize = 0;
            while j < n && !found
                invariant
                    self.wf(), n == self.size(), i < n, j <= n,
                    !found ==> forall|y: int| 0 <= y < j && y != i ==> !self.holds(y, i as int),
                    found ==> !self.is_minimal(i as int),
                decreases n - j,
            {
                if j != i && self.get_pair(j, i) {
                    found = true;
                }
                j += 1;
            }
            let ghost before = result.elems();
            proof { self.lemma_wf(); }
            let c = self.base.elements_at(i);
            if !found {
                result.add(c);
            }
            proof {
                assert forall|d: char| result.elems().contains(d) <==> exists|x: int|
                    0 <= x < i + 1 && self.domain()[x] == d && #[trigger] self.is_minimal(x) by {
                    if !found {
                        assert(self.is_minimal(i as int));
                        assert(result.elems() == before.insert(c));
                    }
                    if exists|x: int| 0 <= x < i + 1 && self.domain()[x] == d && #[trigger] self.is_minimal(x) {
                        let x = choose|x: int| 0 <= x < i + 1 && self.domain()[x] == d && #[trigger] self.is_minimal(x);
                        if x < i { assert(before.contains(d)); }
                    }
                    if before.contains(d) {
                        let x = choose|x: int| 0 <= x < i && self.domain()[x] == d && #[trigger] self.is_minimal(x);
                    }
                }
            }
            i += 1;
        }
        result
    }

    /// The elements related to no other element.
    pub fn maximal_elements(&self) -> (r: CharSet)
        requires
            self.wf(),
        ensures
            r.wf(),
            forall|c: char| r.elems().contains(c) <==> exists|i: int|
                0 <= i < self.size() && self.domain()[i] == c && #[trigger] self.is_maximal(i),
    {
        let mut result = CharSet::new();
        let n = self.matrix.len();
        let mut i: usize = 0;
        while i < n
            invariant
                self.wf(), n == self.size(), i <= n, result.wf(),
                forall|c: char| result.elems().contains(c) <==> exists|x: int|
                    0 <= x < i && self.domain()[x] == c && #[trigger] self.is_maximal(x),
            decreases n - i,
        {
            let mut found = false;
            let mut j: usize = 0;
            while j < n && !found
                invariant
                    self.wf(), n == self.size(), i < n, j <= n,
                    !found ==> forall|y: int| 0 <= y < j && y != i ==> !self.holds(i as int, y),
                    found ==> !self.is_maximal(i as int),
                decreases n - j,
            {
                if j != i && self.get_pair(i, j) {
                    found = true;
                }
                j += 1;
            }
            let ghost before = result.elems();
            proof { self.lemma_wf(); }
            let c = self.base.elements_at(i);
            if !found {
                result.add(c);
            }
            proof {
                assert forall|d: char| result.elems().contains(d) <==> exists|x: int|
                    0 <= x < i + 1 && self.domain()[x] == d && #[trigger] self.is_maximal(x) by {
                    if !found {
                        assert(self.is_maximal(i as int));
                        assert(result.elems() == before.insert(c));
                    }
                    if exists|x: int| 0 <= x < i + 1 && self.domain()[x] == d && #[trigger] self.is_maximal(x) {
                        let x = choose|x: int| 0 <= x < i + 1 && self.domain()[x] == d && #[trigger] self.is_maximal(x);
                        if x < i { assert(before.contains(d)); }
                    }
                    if before.contains(d) {
                        let x = choose|x: int| 0 <= x < i && self.domain()[x] == d && #[trigger] self.is_maximal(x);
                    }
                }
            }
            i += 1;
        }
        result
    }

    /// The classes of elements related both ways: one for each element that
    /// is not in the class of an earlier one, in the order of the domain.
    pub fn equivalence_classes(&self) -> (r: Vec<CharSet>)
        requires
            self.wf(),
        ensures
            r@.len() == self.class_starts(self.size()).len(),
            forall|k: int| 0 <= k < r@.len() ==> (#[trigger] r@[k]).wf()
                && r@[k].elems() == self.class_of(self.class_starts(self.size())[k]),
    {
        let mut classes: Vec<CharSet> = Vec::new();
        let mut visited = CharSet::new();
        let n = self.matrix.len();
        proof { self.lemma_wf(); }
        let mut i: usize = 0;
        while i < n
            invariant
                self.wf(), n == self.size(), n == self.domain().len(), i <= n, visited.wf(),
                classes@.len() == self.class_starts(i as int).len(),
                forall|k: int| 0 <= k < classes@.len() ==> (#[trigger] classes@[k]).wf()
                    && classes@[k].elems() == self.class_of(self.class_starts(i as int)[k]),
                forall|c: char| visited.elems().contains(c) <==> exists|k: int| 0 <= k < classes@.len()
                    && (#[trigger] classes@[k]).elems().contains(c),
            decreases n - i,
        {
            let ghost st = self.class_starts(i as int);
            let a = self.base.elements_at(i);
            let seen = visited.contains(a);
            proof {
                assert(a == self.domain()[i as int]);
                if seen {
                    let k = choose|k: int| 0 <= k < classes@.len() && (#[trigger] classes@[k]).elems().contains(a);
                    assert(self.class_of(st[k]).contains(self.domain()[i as int]));
                } else {
                    assert forall|k: int| 0 <= k < st.len() implies !#[trigger] self.class_of(st[k]).contains(self.domain()[i as int]) by {
                        assert(classes@[k].elems().contains(a) ==> visited.elems().contains(a));
                    }
                }
            }
            if !seen {
                let mut class = CharSet::new();
                let mut j: usize = 0;
                while j < n
                    invariant
                        self.wf(), n == self.size(), n == self.domain().len(), i < n, j <= n, class.wf(),
                        forall|c: char| class.elems().contains(c) <==> exists|y: int| 0 <= y < j
                            && self.domain()[y] == c && #[trigger] self.holds(i as int, y) && self.holds(y, i as int),
                    decreases n - j,
                {
                    let ghost before = class.elems();
                    if self.get_pair(i, j) && self.get_pair(j, i) {
                        let b = self.base.elements_at(j);
                        class.add(b);
                    }
                    proof {
                        assert forall|c: char| class.elems().contains(c) <==> exists|y: int| 0 <= y < j + 1
                            && self.domain()[y] == c && #[trigger] self.holds(i as int, y) && self.holds(y, i as int) by {
                            if exists|y: int| 0 <= y < j + 1 && self.domain()[y] == c && #[trigger] self.holds(i as int, y) && self.holds(y, i as int) {
                                let y = choose|y: int| 0 <= y < j + 1 && self.domain()[y] == c && #[trigger] self.holds(i as int, y) && self.holds(y, i as int);
                                if y < j { assert(before.contains(c)); }
                            }
                            if before.contains(c) {
                                let y = choose|y: int| 0 <= y < j && self.domain()[y] == c && #[trigger] self.holds(i as int, y) && self.holds(y, i as int);
                            }
                        }
                    }
                    j += 1;
                }
                assert(class.elems() =~= self.class_of(i as int));
                let ghost vbefore = visited.elems();
                visited = visited.union(&class);
                let ghost old_classes = classes@;
                classes.push(class);
                proof {
                    let last = old_classes.len() as int;
                    let st2 = self.class_starts(i + 1);
                    assert(st2 == st.push(i as int));
                    assert forall|c: char| visited.elems().contains(c) <==> exists|k: int| 0 <= k < classes@.len()
                        && (#[trigger] classes@[k]).elems().contains(c) by {
                        if vbefore.contains(c) {
                            let k = choose|k: int| 0 <= k < old_classes.len() && (#[trigger] old_classes[k]).elems().contains(c);
                            assert(classes@[k] == old_classes[k]);
                        }
                        if class.elems().contains(c) {
                            assert(classes@[last].elems().contains(c));
                        }
                        if exists|k: int| 0 <= k < classes@.len() && (#[trigger] classes@[k]).elems().contains(c) {
                            let k = choose|k: int| 0 <= k < classes@.len() && (#[trigger] classes@[k]).elems().contains(c);
                            if k < last { assert(old_classes[k] == classes@[k]); }
                        }
                    }
                    assert forall|k: int| 0 <= k < classes@.len() implies (#[trigger] classes@[k]).wf()
                        && classes@[k].elems() == self.class_of(st2[k]) by {
                        if k < last { assert(old_classes[k] == classes@[k]); }
                    }
                }
            } else {
                proof {
                    assert(self.class_starts(i + 1) == st);
                }
            }
            i += 1;
        }
        classes
    }
}

} // verus!

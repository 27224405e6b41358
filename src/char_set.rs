//! A finite set of characters kept as a strictly increasing vector.
use vstd::prelude::*;

verus! {

broadcast use vstd::seq_lib::lemma_seq_contains_after_push;

/// Strictly increasing order of a character sequence.
/// Taking one more element of `s` into a prefix adds exactly that element.
pub proof fn lemma_prefix_step(s: Seq<char>, i: int)
    requires
        0 <= i < s.len(),
    ensures
        forall|c: char| #[trigger] s.subrange(0, i + 1).contains(c) <==> (s.subrange(0, i).contains(c) || c == s[i]),
{
    assert(s.subrange(0, i + 1) =~= s.subrange(0, i).push(s[i]));
    assert forall|c: char| #[trigger] s.subrange(0, i + 1).contains(c) <==> (s.subrange(0, i).contains(c) || c == s[i]) by {
        vstd::seq_lib::lemma_seq_contains_after_push(s.subrange(0, i), s[i], c);
    }
}

/// The elements of `s` picked by the binary digits of `m`, lowest digit first:
/// the subset that the mask `m` selects.
pub open spec fn pick(s: Seq<char>, m: nat) -> Seq<char>
    decreases s.len(),
{
    if s.len() == 0 {
        Seq::empty()
    } else if m % 2 == 1 {
        seq![s[0]] + pick(s.drop_first(), m / 2)
    } else {
        pick(s.drop_first(), m / 2)
    }
}

/// A selection from a strictly sorted sequence is strictly sorted and draws on it.
proof fn lemma_pick_sorted(s: Seq<char>, m: nat)
    requires
        strictly_sorted(s),
    ensures
        strictly_sorted(pick(s, m)),
        forall|k: int| 0 <= k < pick(s, m).len() ==> s.contains(#[trigger] pick(s, m)[k]),
    decreases s.len(),
{
    if s.len() > 0 {
        let t = s.drop_first();
        lemma_pick_sorted(t, m / 2);
        let p = pick(t, m / 2);
        assert forall|k: int| 0 <= k < p.len() implies s[0] < #[trigger] p[k] by {
            let l = choose|l: int| 0 <= l < t.len() && t[l] == p[k];
            assert(s[l + 1] == t[l]);
        }
        assert forall|k: int| 0 <= k < p.len() implies s.contains(#[trigger] p[k]) by {
            let l = choose|l: int| 0 <= l < t.len() && t[l] == p[k];
            assert(s[l + 1] == t[l]);
        }
        if m % 2 == 1 {
            let q = seq![s[0]] + p;
            assert(q[0] == s[0]);
            assert forall|k: int| 1 <= k < q.len() implies q[k] == p[k - 1] by {}
        }
    }
}

pub open spec fn strictly_sorted(s: Seq<char>) -> bool {
    forall|i: int, j: int| 0 <= i < j < s.len() ==> s[i] < s[j]
}

/// A set of characters; its elements are stored once each, in increasing order.
#[derive(Clone, Debug, PartialEq, Eq)]
pub struct CharSet {
    elements: Vec<char>,
}

impl View for CharSet {
    type V = Seq<char>;

    closed spec fn view(&self) -> Seq<char> {
        self.elements@
    }
}

impl CharSet {
    /// The stored order is strictly increasing.
    pub open spec fn wf(&self) -> bool {
        strictly_sorted(self@)
    }

    /// The mathematical set of elements.
    pub open spec fn elems(&self) -> Set<char> {
        self@.to_set()
    }

    pub fn new() -> (r: CharSet)
        ensures
            r.wf(),
            r@ == Seq::<char>::empty(),
            r.elems() == Set::<char>::empty(),
    {
        let r = CharSet { elements: Vec::new() };
        assert(r.elems() =~= Set::<char>::empty());
        r
    }

    /// Binary search: `Ok(i)` where `x` is stored, else `Err(i)` where it would be inserted.
    fn search(&self, x: char) -> (r: Result<usize, usize>)
        requires
            self.wf(),
        ensures
            match r {
                Ok(i) => i < self@.len() && self@[i as int] == x,
                Err(i) => i <= self@.len() && (forall|k: int|
                    0 <= k < i ==> self@[k] < x) && (forall|k: int|
                    i <= k < self@.len() ==> x < self@[k]),
            },
    {
        let mut lo: usize = 0;
        let mut hi: usize = self.elements.len();
        while lo < hi
            invariant
                self.wf(),
                lo <= hi <= self@.len(),
                forall|k: int| 0 <= k < lo ==> self@[k] < x,
                forall|k: int| hi <= k < self@.len() ==> x < self@[k],
            decreases hi - lo,
        {
            let mid = lo + (hi - lo) / 2;
            let m = self.elements[mid];
            if m == x {
                return Ok(mid);
            } else if m < x {
                lo = mid + 1;
            } else {
                hi = mid;
            }
        }
        Err(lo)
    }

    pub fn index_of(&self, element: char) -> (r: Option<usize>)
        requires
            self.wf(),
        ensures
            match r {
                Some(i) => i < self@.len() && self@[i as int] == element,
                None => !self@.contains(element),
            },
    {
        match self.search(element) {
            Ok(i) => Some(i),
            Err(_) => None,
        }
    }

    pub fn contains(&self, element: char) -> (r: bool)
        requires
            self.wf(),
        ensures
            r == self@.contains(element),
            r == self.elems().contains(element),
    {
        match self.index_of(element) {
            Some(_) => true,
            None => false,
        }
    }

    pub fn len(&self) -> (r: usize)
        ensures
            r == self@.len(),
    {
        self.elements.len()
    }

    pub fn is_empty(&self) -> (r: bool)
        ensures
            r == (self@.len() == 0),
    {
        self.len() == 0
    }

    /// Inserts `x` unless it is already present.
    pub fn add(&mut self, x: char)
        requires
            old(self).wf(),
        ensures
            final(self).wf(),
            final(self).elems() == old(self).elems().insert(x),
    {
        match self.search(x) {
            Ok(_) => {},
            Err(pos) => {
                self.elements.insert(pos, x);
                proof {
                    assert(self@ == old(self)@.insert(pos as int, x));
                    assert(self.elems() =~= old(self).elems().insert(x)) by {
                        assert forall|c: char| self@.contains(c) <==> (old(self)@.contains(c) || c == x) by {
                            if self@.contains(c) {
                                let k = choose|k: int| 0 <= k < self@.len() && self@[k] == c;
                                if k < pos { assert(old(self)@[k] == c); }
                                else if k > pos { assert(old(self)@[k - 1] == c); }
                            }
                            if old(self)@.contains(c) {
                                let k = choose|k: int| 0 <= k < old(self)@.len() && old(self)@[k] == c;
                                if k < pos { assert(self@[k] == c); }
                                else { assert(self@[k + 1] == c); }
                            }
                            if c == x { assert(self@[pos as int] == x); }
                        }
                    }
                }
            },
        }
    }

    /// Deletes `x` if present.
    pub fn remove(&mut self, x: char)
        requires
            old(self).wf(),
        ensures
            final(self).wf(),
            final(self).elems() == old(self).elems().remove(x),
    {
        match self.search(x) {
            Ok(pos) => {
                self.elements.remove(pos);
                proof {
                    assert(self@ == old(self)@.remove(pos as int));
                    assert(self.elems() =~= old(self).elems().remove(x)) by {
                        assert forall|c: char| self@.contains(c) <==> (old(self)@.contains(c) && c != x) by {
                            if self@.contains(c) {
                                let k = choose|k: int| 0 <= k < self@.len() && self@[k] == c;
                                if k < pos { assert(old(self)@[k] == c); }
                                else { assert(old(self)@[k + 1] == c); }
                            }
                            if old(self)@.contains(c) && c != x {
                                let k = choose|k: int| 0 <= k < old(self)@.len() && old(self)@[k] == c;
                                if k < pos { assert(self@[k] == c); }
                                else { assert(self@[k - 1] == c); }
                            }
                        }
                    }
                }
            },
            Err(_) => {
                assert(self.elems() =~= old(self).elems().remove(x));
            },
        }
    }

    /// Removes every element.
    pub fn clear(&mut self)
        ensures
            final(self).wf(),
            final(self)@ == Seq::<char>::empty(),
    {
        self.elements.clear();
    }

    pub fn union(&self, other: &CharSet) -> (r: CharSet)
        requires
            self.wf(),
            other.wf(),
        ensures
            r.wf(),
            r.elems() == self.elems().union(other.elems()),
    {
        let ghost a = self@;
        let ghost b = other@;
        let mut res: Vec<char> = Vec::new();
        let mut i: usize = 0;
        let mut j: usize = 0;
        while i < self.elements.len() && j < other.elements.len()
            invariant
                a == self@, b == other@, strictly_sorted(a), strictly_sorted(b),
                i <= a.len(), j <= b.len(),
                strictly_sorted(res@),
                forall|m: int| 0 <= m < res@.len() ==> (i < a.len() ==> res@[m] < a[i as int]) && (j < b.len() ==> res@[m] < b[j as int]),
                forall|c: char| #[trigger] res@.contains(c) <==> (a.subrange(0, i as int).contains(c) || b.subrange(0, j as int).contains(c)),
            decreases a.len() + b.len() - i - j,
        {
            let x = self.elements[i];
            let y = other.elements[j];
            proof {
                lemma_prefix_step(a, i as int);
                lemma_prefix_step(b, j as int);
            }
            if x < y {
                res.push(x);
                i += 1;
            } else if y < x {
                res.push(y);
                j += 1;
            } else {
                res.push(x);
                i += 1;
                j += 1;
            }
        }
        while i < self.elements.len()
            invariant
                a == self@, b == other@, strictly_sorted(a), strictly_sorted(b),
                i <= a.len(), j <= b.len(), i < a.len() ==> j == b.len(),
                strictly_sorted(res@),
                forall|m: int| 0 <= m < res@.len() ==> (i < a.len() ==> res@[m] < a[i as int]) && (j < b.len() ==> res@[m] < b[j as int]),
                forall|c: char| #[trigger] res@.contains(c) <==> (a.subrange(0, i as int).contains(c) || b.subrange(0, j as int).contains(c)),
            decreases a.len() - i,
        {
            proof { lemma_prefix_step(a, i as int); }
            res.push(self.elements[i]);
            i += 1;
        }
        while j < other.elements.len()
            invariant
                a == self@, b == other@, strictly_sorted(a), strictly_sorted(b),
                i == a.len(), j <= b.len(),
                strictly_sorted(res@),
                forall|m: int| 0 <= m < res@.len() ==> (j < b.len() ==> res@[m] < b[j as int]),
                forall|c: char| #[trigger] res@.contains(c) <==> (a.subrange(0, i as int).contains(c) || b.subrange(0, j as int).contains(c)),
            decreases b.len() - j,
        {
            proof { lemma_prefix_step(b, j as int); }
            res.push(other.elements[j]);
            j += 1;
        }
        let r = CharSet { elements: res };
        assert(a.subrange(0, a.len() as int) == a);
        assert(b.subrange(0, b.len() as int) == b);
        assert(r.elems() =~= self.elems().union(other.elems()));
        r
    }

    pub fn intersection(&self, other: &CharSet) -> (r: CharSet)
        requires
            self.wf(),
            other.wf(),
        ensures
            r.wf(),
            r.elems() == self.elems().intersect(other.elems()),
    {
        let ghost a = self@;
        let ghost b = other@;
        let mut res: Vec<char> = Vec::new();
        let mut i: usize = 0;
        let mut j: usize = 0;
        while i < self.elements.len() && j < other.elements.len()
            invariant
                a == self@, b == other@, strictly_sorted(a), strictly_sorted(b),
                i <= a.len(), j <= b.len(),
                strictly_sorted(res@),
                forall|k: int, l: int| 0 <= k < i && j <= l < b.len() ==> a[k] < b[l],
                forall|k: int, l: int| 0 <= l < j && i <= k < a.len() ==> b[l] < a[k],
                forall|m: int| 0 <= m < res@.len() ==> (i < a.len() ==> res@[m] < a[i as int]) && (j < b.len() ==> res@[m] < b[j as int]),
                forall|c: char| #[trigger] res@.contains(c) <==> (a.subrange(0, i as int).contains(c) && b.contains(c)),
            decreases a.len() + b.len() - i - j,
        {
            let x = self.elements[i];
            let y = other.elements[j];
            proof {
                lemma_prefix_step(a, i as int);
            }
            if x < y {
                assert(!b.contains(x)) by {
                    if b.contains(x) {
                        let l = choose|l: int| 0 <= l < b.len() && b[l] == x;
                        if l >= j { assert(b[j as int] <= b[l]); }
                    }
                }
                i += 1;
            } else if y < x {
                j += 1;
            } else {
                res.push(x);
                i += 1;
                j += 1;
            }
        }
        proof {
            if i < a.len() {
                assert forall|k: int| i <= k < a.len() implies !b.contains(#[trigger] a[k]) by {
                    if b.contains(a[k]) {
                        let l = choose|l: int| 0 <= l < b.len() && b[l] == a[k];
                    }
                }
                assert forall|c: char| a.contains(c) && b.contains(c) implies a.subrange(0, i as int).contains(c) by {
                    let k = choose|k: int| 0 <= k < a.len() && a[k] == c;
                    assert(a.subrange(0, i as int)[k] == c);
                }
            }
        }
        let r = CharSet { elements: res };
        assert(a.subrange(0, a.len() as int) == a);
        assert(r.elems() =~= self.elems().intersect(other.elems()));
        r
    }

    pub fn difference(&self, other: &CharSet) -> (r: CharSet)
        requires
            self.wf(),
            other.wf(),
        ensures
            r.wf(),
            r.elems() == self.elems().difference(other.elems()),
    {
        let ghost a = self@;
        let ghost b = other@;
        let mut res: Vec<char> = Vec::new();
        let mut i: usize = 0;
        let mut j: usize = 0;
        while i < self.elements.len() && j < other.elements.len()
            invariant
                a == self@, b == other@, strictly_sorted(a), strictly_sorted(b),
                i <= a.len(), j <= b.len(),
                strictly_sorted(res@),
                forall|k: int, l: int| 0 <= k < i && j <= l < b.len() ==> a[k] < b[l],
                forall|k: int, l: int| 0 <= l < j && i <= k < a.len() ==> b[l] < a[k],
                forall|m: int| 0 <= m < res@.len() ==> (i < a.len() ==> res@[m] < a[i as int]),
                forall|c: char| #[trigger] res@.contains(c) <==> (a.subrange(0, i as int).contains(c) && !b.contains(c)),
            decreases a.len() + b.len() - i - j,
        {
            let x = self.elements[i];
            let y = other.elements[j];
            proof {
                lemma_prefix_step(a, i as int);
            }
            if x < y {
                assert(!b.contains(x)) by {
                    if b.contains(x) {
                        let l = choose|l: int| 0 <= l < b.len() && b[l] == x;
                        if l >= j { assert(b[j as int] <= b[l]); }
                    }
                }
                res.push(x);
                i += 1;
            } else if y < x {
                j += 1;
            } else {
                i += 1;
                j += 1;
            }
        }
        while i < self.elements.len()
            invariant
                a == self@, b == other@, strictly_sorted(a), strictly_sorted(b),
                i <= a.len(), j <= b.len(), i < a.len() ==> j == b.len(),
                forall|k: int, l: int| 0 <= l < j && i <= k < a.len() ==> b[l] < a[k],
                strictly_sorted(res@),
                forall|m: int| 0 <= m < res@.len() ==> (i < a.len() ==> res@[m] < a[i as int]),
                forall|c: char| #[trigger] res@.contains(c) <==> (a.subrange(0, i as int).contains(c) && !b.contains(c)),
            decreases a.len() - i,
        {
            let x = self.elements[i];
            proof { lemma_prefix_step(a, i as int); }
            assert(!b.contains(x)) by {
                if b.contains(x) {
                    let l = choose|l: int| 0 <= l < b.len() && b[l] == x;
                }
            }
            res.push(x);
            i += 1;
        }
        let r = CharSet { elements: res };
        assert(a.subrange(0, a.len() as int) == a);
        assert(r.elems() =~= self.elems().difference(other.elems()));
        r
    }

    /// Whether every element of `self` is in `other`.
    pub fn is_subset(&self, other: &CharSet) -> (r: bool)
        requires
            self.wf(),
            other.wf(),
        ensures
            r == self.elems().subset_of(other.elems()),
    {
        let ghost a = self@;
        let ghost b = other@;
        let mut i: usize = 0;
        let mut j: usize = 0;
        while i < self.elements.len() && j < other.elements.len()
            invariant
                a == self@, b == other@, strictly_sorted(a), strictly_sorted(b),
                i <= a.len(), j <= b.len(),
                forall|k: int, l: int| 0 <= l < j && i <= k < a.len() ==> b[l] < a[k],
                forall|k: int| 0 <= k < i ==> b.contains(#[trigger] a[k]),
            decreases a.len() + b.len() - i - j,
        {
            let x = self.elements[i];
            let y = other.elements[j];
            if x == y {
                i += 1;
                j += 1;
            } else if y < x {
                j += 1;
            } else {
                assert(!b.contains(x)) by {
                    if b.contains(x) {
                        let l = choose|l: int| 0 <= l < b.len() && b[l] == x;
                        if l >= j { assert(b[j as int] <= b[l]); }
                    }
                }
                assert(self.elems().contains(x) && !other.elems().contains(x)) by {
                    assert(a[i as int] == x);
                }
                return false;
            }
        }
        if i == self.elements.len() {
            assert(self.elems().subset_of(other.elems())) by {
                assert forall|c: char| self.elems().contains(c) implies other.elems().contains(c) by {
                    let k = choose|k: int| 0 <= k < a.len() && a[k] == c;
                }
            }
            true
        } else {
            let x = self.elements[i];
            assert(!b.contains(x)) by {
                if b.contains(x) {
                    let l = choose|l: int| 0 <= l < b.len() && b[l] == x;
                }
            }
            assert(a[i as int] == x);
            assert(self.elems().contains(x) && !other.elems().contains(x));
            false
        }
    }

    /// Iterates over the elements in increasing order.
    pub fn iter(&self) -> (r: std::slice::Iter<'_, char>)
        ensures
            vstd::std_specs::slice::into_iter_elts(r) == self@,
    {
        self.elements.iter()
    }

    /// All subsets: the one at index `mask` holds the elements whose positions are
    /// the binary digits set in `mask`.
    pub fn power(&self) -> (r: Vec<CharSet>)
        requires
            self.wf(),
            self@.len() < 64,
        ensures
            r@.len() == vstd::arithmetic::power2::pow2(self@.len()),
            forall|mask: int| 0 <= mask < r@.len() ==> (#[trigger] r@[mask]).wf() && r@[mask]@ == pick(self@, mask as nat),
    {
        let n = self.elements.len();
        let ghost s = self@;
        let mut size: u64 = 1;
        let mut e: usize = 0;
        proof { vstd::arithmetic::power::lemma_pow0(2); }
        while e < n
            invariant
                e <= n, n == s.len(), n < 64,
                size as nat == vstd::arithmetic::power2::pow2(e as nat),
            decreases n - e,
        {
            proof {
                vstd::arithmetic::power2::lemma_pow2_unfold((e + 1) as nat);
                vstd::arithmetic::power2::lemma_pow2_strictly_increases((e + 1) as nat, 64);
                vstd::arithmetic::power2::lemma2_to64();
            }
            size = size * 2;
            e += 1;
        }
        let mut result: Vec<CharSet> = Vec::new();
        let mut mask: u64 = 0;
        while mask < size
            invariant
                s == self@, strictly_sorted(s), n == s.len(),
                size as nat == vstd::arithmetic::power2::pow2(n as nat),
                mask <= size,
                result@.len() == mask,
                forall|k: int| 0 <= k < mask ==> (#[trigger] result@[k]).wf() && result@[k]@ == pick(s, k as nat),
            decreases size - mask,
        {
            let mut subset: Vec<char> = Vec::new();
            let mut m: u64 = mask;
            let mut i: usize = 0;
            assert(s.subrange(0, n as int) =~= s);
            assert(subset@ + pick(s, m as nat) =~= pick(s, m as nat));
            while i < n
                invariant
                    s == self@, n == s.len(), i <= n,
                    subset@ + pick(s.subrange(i as int, n as int), m as nat) == pick(s, mask as nat),
                decreases n - i,
            {
                proof {
                    let t = s.subrange(i as int, n as int);
                    assert(t.drop_first() =~= s.subrange(i + 1, n as int));
                    assert(t[0] == s[i as int]);
                }
                if m % 2 == 1 {
                    proof {
                        vstd::seq_lib::lemma_concat_associative(subset@, seq![s[i as int]], pick(s.subrange(i + 1, n as int), (m / 2) as nat));
                        assert(subset@.push(s[i as int]) =~= subset@ + seq![s[i as int]]);
                    }
                    subset.push(self.elements[i]);
                }
                m = m / 2;
                i += 1;
            }
            proof {
                assert(s.subrange(n as int, n as int) =~= Seq::<char>::empty());
                assert(subset@ + Seq::<char>::empty() =~= subset@);
                lemma_pick_sorted(s, mask as nat);
            }
            result.push(CharSet { elements: subset });
            mask += 1;
        }
        result
    }

    /// The element at position `i` of the increasing order.
    pub fn elements_at(&self, i: usize) -> (r: char)
        requires
            i < self@.len(),
        ensures
            r == self@[i as int],
    {
        self.elements[i]
    }
}

} // verus!

use vstd::prelude::*;

verus! {

/// Canonical pre-order on ordinal paths: `a` comes before `b` when `a` is a
/// proper prefix of `b`, or when at the first depth where they differ the
/// component of `a` is smaller.
pub open spec fn path_lt(a: Seq<usize>, b: Seq<usize>) -> bool
    decreases a.len(),
{
    if a.len() == 0 {
        b.len() > 0
    } else if b.len() == 0 {
        false
    } else if a[0] != b[0] {
        a[0] < b[0]
    } else {
        path_lt(a.drop_first(), b.drop_first())
    }
}

pub open spec fn path_le(a: Seq<usize>, b: Seq<usize>) -> bool {
    a == b || path_lt(a, b)
}

/// The canonical order is transitive.
pub proof fn lemma_path_lt_transitive(a: Seq<usize>, b: Seq<usize>, c: Seq<usize>)
    requires
        path_lt(a, b),
        path_lt(b, c),
    ensures
        path_lt(a, c),
    decreases a.len(),
{
    if a.len() > 0 && b.len() > 0 && c.len() > 0 && a[0] == b[0] && b[0] == c[0] {
        lemma_path_lt_transitive(a.drop_first(), b.drop_first(), c.drop_first());
    }
}

/// Any two distinct paths are ordered one way or the other, and never both.
pub proof fn lemma_path_lt_total(a: Seq<usize>, b: Seq<usize>)
    ensures
        a != b ==> (path_lt(a, b) || path_lt(b, a)),
        !(path_lt(a, b) && path_lt(b, a)),
    decreases a.len(),
{
    if a.len() > 0 && b.len() > 0 && a[0] == b[0] {
        lemma_path_lt_total(a.drop_first(), b.drop_first());
        if a != b {
            assert(a =~= seq![a[0]] + a.drop_first());
            assert(b =~= seq![b[0]] + b.drop_first());
        }
    } else if a.len() == 0 && b.len() == 0 {
        assert(a =~= b);
    }
}

/// A proper prefix comes before every path that extends it.
pub proof fn lemma_prefix_precedes(a: Seq<usize>, b: Seq<usize>)
    requires
        a.len() < b.len(),
        b.subrange(0, a.len() as int) == a,
    ensures
        path_lt(a, b),
    decreases a.len(),
{
    if a.len() > 0 {
        assert(b[0] == a[0]);
        assert(b.drop_first().subrange(0, a.drop_first().len() as int) =~= a.drop_first());
        lemma_prefix_precedes(a.drop_first(), b.drop_first());
    }
}

/// Two paths that agree below depth `k` and differ at `k` are ordered by
/// their components at `k`.
pub proof fn lemma_first_difference(a: Seq<usize>, b: Seq<usize>, k: int)
    requires
        0 <= k < a.len(),
        k < b.len(),
        a.subrange(0, k) == b.subrange(0, k),
        a[k] < b[k],
    ensures
        path_lt(a, b),
    decreases k,
{
    if k > 0 {
        assert(a[0] == a.subrange(0, k)[0]);
        assert(b[0] == b.subrange(0, k)[0]);
        assert(a.drop_first().subrange(0, k - 1) =~= a.subrange(0, k).drop_first());
        assert(b.drop_first().subrange(0, k - 1) =~= b.subrange(0, k).drop_first());
        lemma_first_difference(a.drop_first(), b.drop_first(), k - 1);
    }
}

/// A path comes before another either as a proper prefix of it, or by a
/// smaller component at the first depth where the two differ.
pub proof fn lemma_path_lt_cases(a: Seq<usize>, b: Seq<usize>)
    requires
        path_lt(a, b),
    ensures
        (a.len() < b.len() && b.subrange(0, a.len() as int) == a) || exists|k: int|
            0 <= k < a.len() && k < b.len() && a.subrange(0, k) == b.subrange(0, k) && #[trigger] a[k] < b[k],
    decreases a.len(),
{
    if a.len() == 0 {
        assert(b.subrange(0, 0) =~= a);
    } else if a[0] != b[0] {
        assert(a.subrange(0, 0) =~= b.subrange(0, 0));
        assert(a[0] < b[0]);
    } else {
        let a1 = a.drop_first();
        let b1 = b.drop_first();
        lemma_path_lt_cases(a1, b1);
        if a1.len() < b1.len() && b1.subrange(0, a1.len() as int) == a1 {
            assert(b.subrange(0, a.len() as int) =~= a) by {
                assert forall|i: int| 0 <= i < a.len() implies b.subrange(0, a.len() as int)[i] == a[i] by {
                    if i > 0 {
                        assert(b1.subrange(0, a1.len() as int)[i - 1] == a1[i - 1]);
                    }
                }
            }
        } else {
            let k1 = choose|k: int|
                0 <= k < a1.len() && k < b1.len() && a1.subrange(0, k) == b1.subrange(0, k) && #[trigger] a1[k] < b1[k];
            let k = k1 + 1;
            assert(a.subrange(0, k) =~= b.subrange(0, k)) by {
                assert forall|i: int| 0 <= i < k implies a.subrange(0, k)[i] == b.subrange(0, k)[i] by {
                    if i > 0 {
                        assert(a1.subrange(0, k1)[i - 1] == b1.subrange(0, k1)[i - 1]);
                    }
                }
            }
            assert(a[k] < b[k]);
        }
    }
}

/// The position of a node in the tree: one sibling index per depth level.
/// The empty path means that no further node is expected.
#[derive(Clone, Debug)]
pub struct IndexPath {
    indices: Vec<usize>,
}

impl View for IndexPath {
    type V = Seq<usize>;

    closed spec fn view(&self) -> Seq<usize> {
        self.indices@
    }
}

impl IndexPath {
    pub fn with_vec(indices: Vec<usize>) -> (r: IndexPath)
        ensures
            r@ == indices@,
    {
        IndexPath { indices }
    }

    pub fn indices(&self) -> (r: &Vec<usize>)
        ensures
            r@ == self@,
    {
        &self.indices
    }

    pub fn len(&self) -> (r: usize)
        ensures
            r == self@.len(),
    {
        self.indices.len()
    }

    pub fn is_empty(&self) -> (r: bool)
        ensures
            r == (self@.len() == 0),
    {
        self.indices.len() == 0
    }

    pub fn get(&self, level: usize) -> (r: usize)
        requires
            level < self@.len(),
        ensures
            r == self@[level as int],
    {
        self.indices[level]
    }

    /// Descends one level: appends `index` as the deepest component.
    pub fn push(&mut self, index: usize)
        ensures
            final(self)@ == old(self)@.push(index),
    {
        self.indices.push(index);
    }

    /// Ascends one level: removes the deepest component, if any.
    pub fn pop(&mut self) -> (r: Option<usize>)
        ensures
            old(self)@.len() == 0 ==> r is None && final(self)@ == old(self)@,
            old(self)@.len() > 0 ==> r == Some(old(self)@.last())
                && final(self)@ == old(self)@.drop_last(),
    {
        self.indices.pop()
    }

    /// Advances to the next sibling: adds one to the deepest component.
    pub fn increment_last(&mut self)
        requires
            old(self)@.len() > 0,
            old(self)@.last() < usize::MAX,
        ensures
            final(self)@ == old(self)@.update(
                old(self)@.len() - 1,
                (old(self)@.last() + 1) as usize,
            ),
    {
        let last = self.indices.len() - 1;
        let v = self.indices[last];
        self.indices.set(last, v + 1);
    }

    /// Whether the two paths are the same.
    pub fn eq(&self, other: &IndexPath) -> (r: bool)
        ensures
            r == (self@ == other@),
    {
        if self.indices.len() != other.indices.len() {
            return false;
        }
        let n = self.indices.len();
        let mut i: usize = 0;
        while i < n
            invariant
                n == self@.len(),
                n == other@.len(),
                0 <= i <= n,
                forall|j: int| 0 <= j < i ==> self@[j] == other@[j],
            decreases n - i,
        {
            if self.indices[i] != other.indices[i] {
                return false;
            }
            i = i + 1;
        }
        assert(self@ =~= other@);
        true
    }

    /// Whether `self` comes strictly before `other` in canonical pre-order.
    pub fn precedes(&self, other: &IndexPath) -> (r: bool)
        ensures
            r == path_lt(self@, other@),
    {
        let mut i: usize = 0;
        assert(self@.skip(0) =~= self@);
        assert(other@.skip(0) =~= other@);
        while i < self.indices.len() && i < other.indices.len()
            invariant
                0 <= i <= self@.len(),
                i <= other@.len(),
                path_lt(self@, other@) == path_lt(self@.skip(i as int), other@.skip(i as int)),
            decreases self@.len() - i,
        {
            let x = self.indices[i];
            let y = other.indices[i];
            if x != y {
                assert(self@.skip(i as int)[0] == x);
                assert(other@.skip(i as int)[0] == y);
                return x < y;
            }
            assert(self@.skip(i as int).drop_first() =~= self@.skip(i + 1));
            assert(other@.skip(i as int).drop_first() =~= other@.skip(i + 1));
            i = i + 1;
        }
        i < other.indices.len()
    }
}

} // verus!

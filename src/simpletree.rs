use vstd::multiset::Multiset;
use vstd::prelude::*;

verus! {

/// A value that can tell whether it is the parent identified by a byte id.
pub trait Parenting {
    /// Whether this value is the one that `id` identifies.
    spec fn parent_of(&self, id: Seq<u8>) -> bool;

    fn is_parent(&self, parent_id: &[u8]) -> (r: bool)
        ensures
            r == self.parent_of(parent_id@),
    ;
}

/// A node of a tree that owns its value and its ordered children. There are
/// no parent pointers: a parent is found by asking values whether an id is
/// theirs.
pub struct TreeNode<T: Parenting> {
    pub value: T,
    pub children: Vec<TreeNode<T>>,
}

/// All but the last element.
pub open spec fn init<A>(s: Seq<A>) -> Seq<A> {
    s.subrange(0, s.len() - 1)
}

/// Whether some node of some tree of `s` is the parent identified by `id`.
pub open spec fn any_match<T: Parenting>(s: Seq<TreeNode<T>>, id: Seq<u8>) -> bool
    decreases s,
{
    if s.len() == 0 {
        false
    } else {
        any_match(init(s), id) || s.last().has_match(id)
    }
}

/// The first node, in depth-first pre-order over the trees of `s`, that is
/// the parent identified by `id`.
pub open spec fn first_match_in<T: Parenting>(s: Seq<TreeNode<T>>, id: Seq<u8>) -> TreeNode<T>
    decreases s,
{
    if s.len() == 0 {
        arbitrary()
    } else if any_match(init(s), id) {
        first_match_in(init(s), id)
    } else {
        s.last().first_match(id)
    }
}

/// The values held by the trees of `s`, with multiplicity.
pub open spec fn values_in<T: Parenting>(s: Seq<TreeNode<T>>) -> Multiset<T>
    decreases s,
{
    if s.len() == 0 {
        Multiset::empty()
    } else {
        values_in(init(s)).add(s.last().values())
    }
}

/// Number of nodes on the longest path down from a tree of `s`; 0 when empty.
pub open spec fn height_in<T: Parenting>(s: Seq<TreeNode<T>>) -> nat
    decreases s,
{
    if s.len() == 0 {
        0
    } else {
        let a = height_in(init(s));
        let b = s.last().height();
        if a >= b {
            a
        } else {
            b
        }
    }
}

/// The leaves that lie `k` levels down (1 being the roots) in the trees of
/// `s`, in depth-first order.
pub open spec fn leaves_in<T: Parenting>(s: Seq<TreeNode<T>>, k: nat) -> Seq<TreeNode<T>>
    decreases s,
{
    if s.len() == 0 {
        Seq::empty()
    } else {
        leaves_in(init(s), k) + s.last().leaves_at(k)
    }
}

/// The nodes a sequence of references points to.
pub open spec fn derefs<T: Parenting>(s: Seq<&TreeNode<T>>) -> Seq<TreeNode<T>> {
    s.map_values(|x: &TreeNode<T>| *x)
}

/// A tree that matches makes the sequence match.
pub proof fn lemma_any_match_at<T: Parenting>(s: Seq<TreeNode<T>>, i: int, id: Seq<u8>)
    requires
        0 <= i < s.len(),
        s[i].has_match(id),
    ensures
        any_match(s, id),
    decreases s.len(),
{
    if i < s.len() - 1 {
        assert(init(s)[i] == s[i]);
        lemma_any_match_at(init(s), i, id);
    }
}

/// The first match of a sequence lies in its first matching tree.
pub proof fn lemma_first_match_in_at<T: Parenting>(s: Seq<TreeNode<T>>, i: int, id: Seq<u8>)
    requires
        0 <= i < s.len(),
        !any_match(s.subrange(0, i), id),
        s[i].has_match(id),
    ensures
        first_match_in(s, id) == s[i].first_match(id),
    decreases s.len(),
{
    if i == s.len() - 1 {
        assert(init(s) =~= s.subrange(0, i));
    } else {
        assert(init(s).subrange(0, i) =~= s.subrange(0, i));
        assert(init(s)[i] == s[i]);
        lemma_any_match_at(init(s), i, id);
        lemma_first_match_in_at(init(s), i, id);
    }
}

/// Replacing one tree of a sequence replaces its values.
pub proof fn lemma_values_in_update<T: Parenting>(s: Seq<TreeNode<T>>, i: int, c: TreeNode<T>)
    requires
        0 <= i < s.len(),
    ensures
        values_in(s.update(i, c)).add(s[i].values()) =~= values_in(s).add(c.values()),
        forall|v: T|
            #[trigger] values_in(s.update(i, c)).count(v) + s[i].values().count(v) == values_in(
                s,
            ).count(v) + c.values().count(v),
    decreases s.len(),
{
    let u = s.update(i, c);
    assert(u.len() == s.len());
    assert(values_in(u) == values_in(init(u)).add(u.last().values()));
    assert(values_in(s) == values_in(init(s)).add(s.last().values()));
    if i == s.len() - 1 {
        assert(init(u) =~= init(s));
        assert(u.last() == c);
        assert(s.last() == s[i]);
        assert(values_in(u).add(s[i].values()) =~= values_in(s).add(c.values()));
    } else {
        assert(init(u) =~= init(s).update(i, c));
        assert(u.last() == s.last());
        assert(init(s)[i] == s[i]);
        lemma_values_in_update(init(s), i, c);
        let a = values_in(init(s));
        let w = values_in(init(u));
        assert(w == values_in(init(s).update(i, c)));
        assert(w.add(s[i].values()) =~= a.add(c.values()));
        assert forall|v: T| #[trigger]
            values_in(u).add(s[i].values()).count(v) == values_in(s).add(c.values()).count(v) by {
            assert(w.add(s[i].values()).count(v) == a.add(c.values()).count(v));
        }
    }
}

/// The first match is a parent for the id, and its value is one of the tree's.
pub proof fn lemma_first_match<T: Parenting>(t: TreeNode<T>, id: Seq<u8>)
    requires
        t.has_match(id),
    ensures
        t.first_match(id).value.parent_of(id),
        t.values().count(t.first_match(id).value) > 0,
    decreases t,
{
    if !t.value.parent_of(id) {
        lemma_first_match_in(t.children@, id);
    }
}

/// The first match of a sequence is a parent for the id, and its value is one
/// of the sequence's.
pub proof fn lemma_first_match_in<T: Parenting>(s: Seq<TreeNode<T>>, id: Seq<u8>)
    requires
        any_match(s, id),
    ensures
        first_match_in(s, id).value.parent_of(id),
        values_in(s).count(first_match_in(s, id).value) > 0,
    decreases s,
{
    if any_match(init(s), id) {
        lemma_first_match_in(init(s), id);
    } else {
        lemma_first_match(s.last(), id);
    }
}

/// No tree of a sequence is higher than the sequence.
pub proof fn lemma_height_in_at<T: Parenting>(s: Seq<TreeNode<T>>, i: int)
    requires
        0 <= i < s.len(),
    ensures
        s[i].height() <= height_in(s),
    decreases s.len(),
{
    if i < s.len() - 1 {
        assert(init(s)[i] == s[i]);
        lemma_height_in_at(init(s), i);
    }
}

/// A tree has at least one leaf at its full height.
pub proof fn lemma_deepest_nonempty<T: Parenting>(t: TreeNode<T>)
    ensures
        t.leaves_at(t.height()).len() > 0,
    decreases t,
{
    if t.children@.len() > 0 {
        lemma_height_in_positive(t.children@);
        lemma_deepest_in_nonempty(t.children@);
    }
}

/// A nonempty sequence of trees is at least one high.
pub proof fn lemma_height_in_positive<T: Parenting>(s: Seq<TreeNode<T>>)
    requires
        s.len() > 0,
    ensures
        height_in(s) >= 1,
{
    assert(s.last().height() >= 1);
}

/// A nonempty sequence of trees has a leaf at its full height.
pub proof fn lemma_deepest_in_nonempty<T: Parenting>(s: Seq<TreeNode<T>>)
    requires
        s.len() > 0,
    ensures
        leaves_in(s, height_in(s)).len() > 0,
    decreases s,
{
    let k = height_in(s);
    assert(leaves_in(s, k) == leaves_in(init(s), k) + s.last().leaves_at(k));
    if init(s).len() > 0 && height_in(init(s)) >= s.last().height() {
        assert(k == height_in(init(s)));
        lemma_deepest_in_nonempty(init(s));
    } else {
        assert(init(s).len() == 0 ==> height_in(init(s)) == 0);
        assert(k == s.last().height());
        lemma_deepest_nonempty(s.last());
    }
}

/// Whether `new` is `old` with every node below the root whose value equals
/// `v` removed, together with its subtree.
pub open spec fn stripped<T: Parenting + PartialEq>(old: TreeNode<T>, v: T, new: TreeNode<T>) -> bool
    decreases old,
{
    new.value == old.value && stripped_in(old.children@, v, new.children@)
}

/// Whether `new` is the sequence of trees `old` with every tree whose root
/// value equals `v` dropped, and `stripped` applied to the others.
pub open spec fn stripped_in<T: Parenting + PartialEq>(
    old: Seq<TreeNode<T>>,
    v: T,
    new: Seq<TreeNode<T>>,
) -> bool
    decreases old,
{
    if old.len() == 0 {
        new.len() == 0
    } else if vstd::std_specs::cmp::PartialEqSpec::eq_spec(&old.last().value, &v) {
        stripped_in(init(old), v, new)
    } else {
        new.len() > 0 && stripped_in(init(old), v, init(new)) && stripped(old.last(), v, new.last())
    }
}

/// A tree holding a value that is the parent for `id` matches `id`.
pub proof fn lemma_has_match_of_value<T: Parenting>(t: TreeNode<T>, q: T, id: Seq<u8>)
    requires
        t.values().count(q) > 0,
        q.parent_of(id),
    ensures
        t.has_match(id),
    decreases t,
{
    if t.value != q {
        lemma_any_match_of_value(t.children@, q, id);
    }
}

/// Trees holding a value that is the parent for `id` match `id`.
pub proof fn lemma_any_match_of_value<T: Parenting>(s: Seq<TreeNode<T>>, q: T, id: Seq<u8>)
    requires
        values_in(s).count(q) > 0,
        q.parent_of(id),
    ensures
        any_match(s, id),
    decreases s,
{
    if s.len() > 0 {
        if values_in(init(s)).count(q) > 0 {
            lemma_any_match_of_value(init(s), q, id);
        } else {
            lemma_has_match_of_value(s.last(), q, id);
        }
    }
}

/// A tree is no higher than it has values.
pub proof fn lemma_height_le_size<T: Parenting>(t: TreeNode<T>)
    ensures
        t.height() <= t.values().len(),
    decreases t,
{
    lemma_height_in_le_size(t.children@);
}

/// Trees are no higher than they have values.
pub proof fn lemma_height_in_le_size<T: Parenting>(s: Seq<TreeNode<T>>)
    ensures
        height_in(s) <= values_in(s).len(),
    decreases s,
{
    if s.len() > 0 {
        lemma_height_in_le_size(init(s));
        lemma_height_le_size(s.last());
    }
}

/// The index of the first tree of `s` that matches `id`.
pub open spec fn first_match_index<T: Parenting>(s: Seq<TreeNode<T>>, id: Seq<u8>) -> int
    decreases s,
{
    if s.len() == 0 {
        0
    } else if any_match(init(s), id) {
        first_match_index(init(s), id)
    } else {
        s.len() - 1
    }
}

/// Whether `new` is `old` with its first node, in depth-first pre-order, that
/// is the parent identified by `id` replaced by `sub`; every other node keeps
/// its place and its value.
pub open spec fn replaced_first<T: Parenting>(
    old: TreeNode<T>,
    id: Seq<u8>,
    sub: TreeNode<T>,
    new: TreeNode<T>,
) -> bool
    decreases old,
{
    if old.value.parent_of(id) {
        new == sub
    } else {
        let i = first_match_index(old.children@, id);
        &&& 0 <= i < old.children@.len()
        &&& new.value == old.value
        &&& new.children@.len() == old.children@.len()
        &&& forall|j: int|
            0 <= j < old.children@.len() && j != i ==> #[trigger] new.children@[j]
                == old.children@[j]
        &&& replaced_first(old.children@[i], id, sub, new.children@[i])
    }
}

/// The first matching tree of a sequence is the one `first_match_index`
/// points at.
pub proof fn lemma_first_match_index<T: Parenting>(s: Seq<TreeNode<T>>, i: int, id: Seq<u8>)
    requires
        0 <= i < s.len(),
        !any_match(s.subrange(0, i), id),
        s[i].has_match(id),
    ensures
        first_match_index(s, id) == i,
    decreases s.len(),
{
    if i == s.len() - 1 {
        assert(init(s) =~= s.subrange(0, i));
    } else {
        assert(init(s).subrange(0, i) =~= s.subrange(0, i));
        assert(init(s)[i] == s[i]);
        lemma_any_match_at(init(s), i, id);
        lemma_first_match_index(init(s), i, id);
    }
}

/// Where a sequence matches, `first_match_index` points at a matching tree
/// whose first match is the sequence's.
pub proof fn lemma_first_match_index_in<T: Parenting>(s: Seq<TreeNode<T>>, id: Seq<u8>)
    requires
        any_match(s, id),
    ensures
        0 <= first_match_index(s, id) < s.len(),
        s[first_match_index(s, id)].has_match(id),
        first_match_in(s, id) == s[first_match_index(s, id)].first_match(id),
    decreases s,
{
    if any_match(init(s), id) {
        lemma_first_match_index_in(init(s), id);
        assert(init(s)[first_match_index(init(s), id)] == s[first_match_index(init(s), id)]);
    }
}

impl<T: Parenting> TreeNode<T> {
    /// Whether this node or one below it is the parent identified by `id`.
    pub open spec fn has_match(self, id: Seq<u8>) -> bool
        decreases self,
    {
        self.value.parent_of(id) || any_match(self.children@, id)
    }

    /// The first node in depth-first pre-order that is the parent identified
    /// by `id`.
    pub open spec fn first_match(self, id: Seq<u8>) -> TreeNode<T>
        decreases self,
    {
        if self.value.parent_of(id) {
            self
        } else {
            first_match_in(self.children@, id)
        }
    }

    /// The values held in this tree, with multiplicity.
    pub open spec fn values(self) -> Multiset<T>
        decreases self,
    {
        Multiset::singleton(self.value).add(values_in(self.children@))
    }

    /// Number of nodes on the longest path from this node down to a leaf.
    pub open spec fn height(self) -> nat
        decreases self,
    {
        1 + height_in(self.children@)
    }

    /// The leaves `k` levels down from here (this node being level 1), in
    /// depth-first order.
    pub open spec fn leaves_at(self, k: nat) -> Seq<TreeNode<T>>
        decreases self,
    {
        if self.children@.len() == 0 {
            if k == 1 {
                seq![self]
            } else {
                Seq::empty()
            }
        } else if k <= 1 {
            Seq::empty()
        } else {
            leaves_in(self.children@, (k - 1) as nat)
        }
    }

    /// Whether this node or one below it is the parent identified by
    /// `parent_id`.
    fn contains_parent(&self, parent_id: &[u8]) -> (r: bool)
        ensures
            r == self.has_match(parent_id@),
        decreases self,
    {
        if self.value.is_parent(parent_id) {
            return true;
        }
        let mut i: usize = 0;
        while i < self.children.len()
            invariant
                0 <= i <= self.children@.len(),
                !self.value.parent_of(parent_id@),
                !any_match(self.children@.subrange(0, i as int), parent_id@),
            decreases self.children@.len() - i,
        {
            if self.children[i].contains_parent(parent_id) {
                proof {
                    lemma_any_match_at(self.children@, i as int, parent_id@);
                }
                return true;
            }
            assert(init(self.children@.subrange(0, i + 1)) =~= self.children@.subrange(0, i as int));
            i += 1;
        }
        assert(self.children@.subrange(0, i as int) =~= self.children@);
        false
    }

    /// Depth-first pre-order search for the first node that is the parent
    /// identified by `parent_id`.
    pub fn look_for_parent(&mut self, parent_id: &[u8]) -> (r: Option<&mut TreeNode<T>>)
        ensures
            r.is_some() == old(self).has_match(parent_id@),
            match r {
                Some(x) => {
                    &&& *x == old(self).first_match(parent_id@)
                    &&& forall|v: T|
                        #[trigger] final(self).values().count(v) + x.values().count(v)
                            == old(self).values().count(v) + final(x).values().count(v)
                },
                None => *final(self) == *old(self),
            },
            match r {
                Some(x) => final(x).value == x.value ==> final(self).value == old(self).value,
                None => true,
            },
            match r {
                Some(x) => replaced_first(*old(self), parent_id@, *final(x), *final(self)),
                None => true,
            },
        decreases *old(self),
    {
        if self.value.is_parent(parent_id) {
            return Some(self);
        }
        let mut i: usize = 0;
        while i < self.children.len()
            invariant
                0 <= i <= self.children@.len(),
                *self == *old(self),
                !self.value.parent_of(parent_id@),
                !any_match(self.children@.subrange(0, i as int), parent_id@),
            decreases self.children@.len() - i,
        {
            if self.children[i].contains_parent(parent_id) {
                proof {
                    lemma_any_match_at(self.children@, i as int, parent_id@);
                    lemma_first_match_in_at(self.children@, i as int, parent_id@);
                    lemma_first_match_index(self.children@, i as int, parent_id@);
                }
                let ghost s = self.children@;
                let child = &mut self.children[i];
                proof {
                    lemma_values_in_update(s, i as int, *final(child));
                }
                return child.look_for_parent(parent_id);
            }
            assert(init(self.children@.subrange(0, i + 1)) =~= self.children@.subrange(0, i as int));
            i += 1;
        }
        assert(self.children@.subrange(0, i as int) =~= self.children@);
        None
    }

    /// The height of the tree: the number of nodes on its longest path down.
    fn depth(&self) -> (r: usize)
        requires
            self.height() <= usize::MAX,
        ensures
            r == self.height(),
        decreases self,
    {
        let mut m: usize = 0;
        let mut i: usize = 0;
        while i < self.children.len()
            invariant
                0 <= i <= self.children@.len(),
                m == height_in(self.children@.subrange(0, i as int)),
                1 + height_in(self.children@) <= usize::MAX,
            decreases self.children@.len() - i,
        {
            proof {
                lemma_height_in_at(self.children@, i as int);
            }
            let h = self.children[i].depth();
            if h > m {
                m = h;
            }
            assert(init(self.children@.subrange(0, i + 1)) =~= self.children@.subrange(0, i as int));
            i += 1;
        }
        assert(self.children@.subrange(0, i as int) =~= self.children@);
        m + 1
    }

    /// Appends to `out` the leaves `k` levels down from here, in depth-first
    /// order.
    fn collect_leaves<'a>(&'a self, k: usize, out: &mut Vec<&'a TreeNode<T>>)
        ensures
            derefs(final(out)@) =~= derefs(old(out)@) + self.leaves_at(k as nat),
        decreases self,
    {
        if self.children.len() == 0 {
            if k == 1 {
                out.push(self);
            }
            return;
        }
        if k <= 1 {
            return;
        }
        let mut i: usize = 0;
        while i < self.children.len()
            invariant
                0 <= i <= self.children@.len(),
                k > 1,
                derefs(out@) =~= derefs(old(out)@) + leaves_in(
                    self.children@.subrange(0, i as int),
                    (k - 1) as nat,
                ),
            decreases self.children@.len() - i,
        {
            self.children[i].collect_leaves(k - 1, out);
            assert(init(self.children@.subrange(0, i + 1)) =~= self.children@.subrange(0, i as int));
            i += 1;
        }
        assert(self.children@.subrange(0, i as int) =~= self.children@);
    }

    /// Every leaf at the tree's greatest depth (the root being depth 1), in
    /// depth-first order.
    pub fn deepest_leafs(&self) -> (r: Vec<&TreeNode<T>>)
        requires
            self.height() <= usize::MAX,
        ensures
            derefs(r@) == self.leaves_at(self.height()),
            r@.len() > 0,
    {
        let d = self.depth();
        let mut result: Vec<&TreeNode<T>> = Vec::new();
        self.collect_leaves(d, &mut result);
        proof {
            lemma_deepest_nonempty(*self);
            assert(derefs(Seq::<&TreeNode<T>>::empty()) =~= Seq::empty());
            assert(derefs(result@).len() == result@.len());
        }
        result
    }

    /// Removes, at any depth below this node, every node whose value equals
    /// `value`, together with its subtree.
    pub fn remove(&mut self, value: &T)
        where
            T: PartialEq,
        ensures
            final(self).value == old(self).value,
            <T as vstd::std_specs::cmp::PartialEqSpec>::obeys_eq_spec() ==> stripped(*old(self), *value, *final(self)),
        decreases *old(self),
    {
        let mut rest: Vec<TreeNode<T>> = Vec::new();
        std::mem::swap(&mut self.children, &mut rest);
        let ghost orig = rest@;
        let ghost n = orig.len();
        let mut kept: Vec<TreeNode<T>> = Vec::new();
        let mut k: usize = 0;
        assert(rest.len() as int == n);
        while rest.len() > 0
            invariant
                n <= usize::MAX,
                self.value == old(self).value,
                orig == old(self).children@,
                n == orig.len(),
                k + rest@.len() == n,
                rest@ == orig.subrange(k as int, n as int),
                <T as vstd::std_specs::cmp::PartialEqSpec>::obeys_eq_spec() ==> stripped_in(orig.subrange(0, k as int), *value, kept@),
            decreases rest@.len(),
        {
            let mut child = rest.remove(0);
            let ghost before = child;
            assert(before == orig[k as int]);
            child.remove(value);
            let ghost done_k = orig.subrange(0, k + 1);
            assert(init(done_k) =~= orig.subrange(0, k as int));
            assert(done_k.last() == before);
            if !(child.value == *value) {
                let ghost prev = kept@;
                kept.push(child);
                assert(init(kept@) =~= prev);
            }
            k += 1;
            assert(rest@ =~= orig.subrange(k as int, n as int));
        }
        assert(orig.subrange(0, k as int) =~= orig);
        self.children = kept;
    }

    /// Creates a node with the given value and no children.
    pub fn new(value: T) -> (r: Self)
        ensures
            r.value == value,
            r.children@.len() == 0,
    {
        TreeNode { value, children: Vec::new() }
    }

    /// Appends a leaf with the given value under this node.
    pub fn insert(&mut self, value: T)
        ensures
            final(self).value == old(self).value,
            final(self).children@.len() == old(self).children@.len() + 1,
            init(final(self).children@) == old(self).children@,
            final(self).children@.last().value == value,
            final(self).children@.last().children@.len() == 0,
            forall|v: T|
                #[trigger] final(self).values().count(v) == old(self).values().count(v) + (if v
                    == value {
                    1int
                } else {
                    0int
                }),
    {
        let ghost old_children = self.children@;
        self.children.push(TreeNode::new(value));
        assert(init(self.children@) =~= old_children);
        let ghost leaf = self.children@.last();
        assert(values_in(leaf.children@) =~= Multiset::empty());
        assert(leaf.values() =~= Multiset::singleton(value));
        assert(values_in(self.children@) =~= values_in(old_children).add(Multiset::singleton(value)));
    }

    /// Returns the value of the node.
    pub fn value(&self) -> (r: &T)
        ensures
            *r == self.value,
    {
        &self.value
    }

    /// Returns the children of the node.
    pub fn children(&self) -> (r: &Vec<TreeNode<T>>)
        ensures
            *r == self.children,
    {
        &self.children
    }

    /// Returns the children of the node for change.
    pub fn children_mut(&mut self) -> (r: &mut Vec<TreeNode<T>>)
        ensures
            *r == old(self).children,
            final(self).value == old(self).value,
            final(self).children == *final(r),
    {
        &mut self.children
    }
}

} // verus!

use vstd::prelude::*;
use crate::DsaError;

verus! {

/// The outcome of a three-way comparison between two tree values.
pub enum Comparison {
    LessThan,
    EqualTo,
    GreaterThan,
}

/// What the tree asks of its element type: a specification-level total
/// order, an executable three-way comparison that agrees with it, and an
/// executable copy that preserves the value exactly.
pub trait TreeValue: Sized {
    /// The order the tree is kept in: `self` at or below `other`.
    spec fn le(self, other: Self) -> bool;

    proof fn lemma_le_total(a: Self, b: Self)
        ensures
            a.le(b) || b.le(a),
    ;

    proof fn lemma_le_antisym(a: Self, b: Self)
        requires
            a.le(b),
            b.le(a),
        ensures
            a == b,
    ;

    proof fn lemma_le_trans(a: Self, b: Self, c: Self)
        requires
            a.le(b),
            b.le(c),
        ensures
            a.le(c),
    ;

    fn compare_with(&self, other: &Self) -> (c: Comparison)
        ensures
            (match c {
                Comparison::LessThan => self.le(*other) && *self != *other,
                Comparison::EqualTo => *self == *other,
                Comparison::GreaterThan => other.le(*self) && *self != *other,
            }),
    ;

    fn copy_value(&self) -> (r: Self)
        ensures
            r == *self,
    ;
}

impl TreeValue for u64 {
    open spec fn le(self, other: Self) -> bool {
        self <= other
    }

    proof fn lemma_le_total(a: Self, b: Self) {
    }

    proof fn lemma_le_antisym(a: Self, b: Self) {
    }

    proof fn lemma_le_trans(a: Self, b: Self, c: Self) {
    }

    fn compare_with(&self, other: &Self) -> (c: Comparison) {
        if *self < *other {
            Comparison::LessThan
        } else if *self == *other {
            Comparison::EqualTo
        } else {
            Comparison::GreaterThan
        }
    }

    fn copy_value(&self) -> (r: Self) {
        *self
    }
}

impl TreeValue for i64 {
    open spec fn le(self, other: Self) -> bool {
        self <= other
    }

    proof fn lemma_le_total(a: Self, b: Self) {
    }

    proof fn lemma_le_antisym(a: Self, b: Self) {
    }

    proof fn lemma_le_trans(a: Self, b: Self, c: Self) {
    }

    fn compare_with(&self, other: &Self) -> (c: Comparison) {
        if *self < *other {
            Comparison::LessThan
        } else if *self == *other {
            Comparison::EqualTo
        } else {
            Comparison::GreaterThan
        }
    }

    fn copy_value(&self) -> (r: Self) {
        *self
    }
}

/// The traversal orders the tree knows of. `PostOrder` is an explicitly
/// unimplemented variant: asking for it fails with `NotImplemented`.
pub enum Traversal {
    InOrder,
    PreOrder,
    PostOrder,
}

/// A node of the binary search tree, which is also the tree itself: a tree
/// starts as a single node with no data, the first insertion fills the
/// root's `data`, and later insertions grow exclusively-owned children.
/// Values strictly below a node go left, values at or above it go right, so
/// duplicates end up in the right subtree.
pub struct BinaryTreeNode<T: TreeValue> {
    pub left: Option<Box<BinaryTreeNode<T>>>,
    pub right: Option<Box<BinaryTreeNode<T>>>,
    pub data: Option<T>,
}

impl<T: TreeValue> BinaryTreeNode<T> {
    /// `x` sits somewhere in the optional subtree.
    pub open spec fn opt_has_val(o: Option<Box<BinaryTreeNode<T>>>, x: T) -> bool
        decreases o,
    {
        match o {
            None => false,
            Some(n) => n.has_val(x),
        }
    }

    /// `x` sits somewhere in this tree.
    pub open spec fn has_val(self, x: T) -> bool
        decreases self,
    {
        ||| self.data == Some(x)
        ||| Self::opt_has_val(self.left, x)
        ||| Self::opt_has_val(self.right, x)
    }

    /// The binary-search-tree shape: an empty node has no children, every
    /// populated child is itself well-formed, everything in the left subtree
    /// is strictly below this node's value, and everything in the right
    /// subtree is at or above it.
    pub open spec fn wf(self) -> bool
        decreases self,
    {
        &&& (self.data is None ==> self.left is None && self.right is None)
        &&& (match self.left {
            None => true,
            Some(l) => l.wf() && l.data is Some,
        })
        &&& (match self.right {
            None => true,
            Some(r) => r.wf() && r.data is Some,
        })
        &&& (forall|x: T|
            #[trigger] Self::opt_has_val(self.left, x) ==> x.le(self.data->Some_0) && x
                != self.data->Some_0)
        &&& (forall|x: T| #[trigger] Self::opt_has_val(self.right, x) ==> self.data->Some_0.le(x))
    }

    /// The values of the optional subtree, left-root-right.
    pub open spec fn opt_in_order(o: Option<Box<BinaryTreeNode<T>>>) -> Seq<T>
        decreases o,
    {
        match o {
            None => Seq::empty(),
            Some(n) => n.in_order(),
        }
    }

    /// The values of this tree, left-root-right.
    pub open spec fn in_order(self) -> Seq<T>
        decreases self,
    {
        match self.data {
            None => Seq::empty(),
            Some(d) => Self::opt_in_order(self.left) + seq![d] + Self::opt_in_order(self.right),
        }
    }

    /// The values of the optional subtree, root-left-right.
    pub open spec fn opt_pre_order(o: Option<Box<BinaryTreeNode<T>>>) -> Seq<T>
        decreases o,
    {
        match o {
            None => Seq::empty(),
            Some(n) => n.pre_order(),
        }
    }

    /// The values of this tree, root-left-right.
    pub open spec fn pre_order(self) -> Seq<T>
        decreases self,
    {
        match self.data {
            None => Seq::empty(),
            Some(d) => seq![d] + Self::opt_pre_order(self.left) + Self::opt_pre_order(self.right),
        }
    }

    /// `t2` is exactly `t` with `x` inserted: an empty node takes the value;
    /// otherwise the value is routed right when it is at or above the node's
    /// value and left when strictly below, down to a fresh leaf.
    pub open spec fn insert_rel(t: BinaryTreeNode<T>, x: T, t2: BinaryTreeNode<T>) -> bool
        decreases t,
    {
        match t.data {
            None => t2.data == Some(x) && t2.left == t.left && t2.right == t.right,
            Some(d) => if d.le(x) {
                t2.data == t.data && t2.left == t.left && Self::opt_insert_rel(t.right, x, t2.right)
            } else {
                t2.data == t.data && t2.right == t.right && Self::opt_insert_rel(t.left, x, t2.left)
            },
        }
    }

    /// `insert_rel` through an optional child: an absent child becomes a
    /// fresh leaf holding `x`.
    pub open spec fn opt_insert_rel(
        o: Option<Box<BinaryTreeNode<T>>>,
        x: T,
        o2: Option<Box<BinaryTreeNode<T>>>,
    ) -> bool
        decreases o,
    {
        match o {
            None => (o2 matches Some(n2) && n2.data == Some(x) && n2.left is None && n2.right
                is None),
            Some(n) => (o2 matches Some(n2) && Self::insert_rel(*n, x, *n2)),
        }
    }

    /// An empty tree: no data, no children.
    pub fn new() -> (t: Self)
        ensures
            t.wf(),
            t.data is None,
            t.left is None,
            t.right is None,
            forall|y: T| !t.has_val(y),
            t.in_order() == Seq::<T>::empty(),
            t.pre_order() == Seq::<T>::empty(),
    {
        BinaryTreeNode { left: None, right: None, data: None }
    }

    /// Inserts `data`: an empty node takes the value, otherwise it is routed
    /// down by comparison (ties to the right) until an absent child is
    /// replaced by a fresh leaf. The tree only grows; well-formedness is
    /// kept, and afterwards the tree holds exactly the old values and the
    /// new one.
    pub fn insert(&mut self, data: T)
        ensures
            Self::insert_rel(*old(self), data, *final(self)),
            old(self).wf() ==> final(self).wf(),
            forall|y: T|
                #[trigger] final(self).has_val(y) <==> old(self).has_val(y) || y == data,
        decreases *old(self),
    {
        let is_empty = self.data.is_none();
        if is_empty {
            self.data = Some(data);
            proof {
                assert forall|y: T|
                    #[trigger] self.has_val(y) <==> old(self).has_val(y) || y == data by {
                        assert(self.has_val(y) == (self.data == Some(y)
                            || Self::opt_has_val(self.left, y) || Self::opt_has_val(
                            self.right,
                            y,
                        )));
                        assert(old(self).has_val(y) == (old(self).data == Some(y)
                            || Self::opt_has_val(old(self).left, y) || Self::opt_has_val(
                            old(self).right,
                            y,
                        )));
                }
                if old(self).wf() {
                    assert(self.left is None && self.right is None);
                    assert(self.wf());
                }
            }
        } else {
            let go_left = match (&self.data, &data) {
                (Some(d), x) => match x.compare_with(d) {
                    Comparison::LessThan => true,
                    Comparison::EqualTo => false,
                    Comparison::GreaterThan => false,
                },
                (None, _) => false,
            };
            proof {
                let d = self.data->Some_0;
                if go_left {
                    if d.le(data) {
                        T::lemma_le_antisym(data, d);
                    }
                } else {
                    T::lemma_le_total(d, data);
                }
            }
            if go_left {
                Self::insert_opt(&mut self.left, data);
                proof {
                    let d = old(self).data->Some_0;
                    assert forall|y: T|
                        #[trigger] self.has_val(y) <==> old(self).has_val(y) || y == data by {
                        assert(self.has_val(y) == (self.data == Some(y)
                            || Self::opt_has_val(self.left, y) || Self::opt_has_val(
                            self.right,
                            y,
                        )));
                        assert(old(self).has_val(y) == (old(self).data == Some(y)
                            || Self::opt_has_val(old(self).left, y) || Self::opt_has_val(
                            old(self).right,
                            y,
                        )));
                        assert(Self::opt_has_val(self.left, y) <==> Self::opt_has_val(
                            old(self).left,
                            y,
                        ) || y == data);
                    }
                    if old(self).wf() {
                        assert forall|x: T| #[trigger] Self::opt_has_val(self.left, x)
                            implies x.le(d) && x != d by {
                            if !Self::opt_has_val(old(self).left, x) {
                                assert(x == data);
                            }
                        }
                        assert(self.wf());
                    }
                }
            } else {
                Self::insert_opt(&mut self.right, data);
                proof {
                    let d = old(self).data->Some_0;
                    assert forall|y: T|
                        #[trigger] self.has_val(y) <==> old(self).has_val(y) || y == data by {
                        assert(self.has_val(y) == (self.data == Some(y)
                            || Self::opt_has_val(self.left, y) || Self::opt_has_val(
                            self.right,
                            y,
                        )));
                        assert(old(self).has_val(y) == (old(self).data == Some(y)
                            || Self::opt_has_val(old(self).left, y) || Self::opt_has_val(
                            old(self).right,
                            y,
                        )));
                        assert(Self::opt_has_val(self.right, y) <==> Self::opt_has_val(
                            old(self).right,
                            y,
                        ) || y == data);
                    }
                    if old(self).wf() {
                        assert forall|x: T| #[trigger] Self::opt_has_val(self.right, x)
                            implies d.le(x) by {
                            if !Self::opt_has_val(old(self).right, x) {
                                assert(x == data);
                            }
                        }
                        assert(self.wf());
                    }
                }
            }
        }
    }

    /// `insert` through an optional child, growing a fresh leaf at an absent
    /// position.
    fn insert_opt(child: &mut Option<Box<BinaryTreeNode<T>>>, data: T)
        ensures
            Self::opt_insert_rel(*old(child), data, *final(child)),
            (match *old(child) {
                None => true,
                Some(n) => n.wf() && n.data is Some,
            }) ==> (*final(child) matches Some(n2) && n2.wf() && n2.data is Some),
            forall|y: T|
                #[trigger] Self::opt_has_val(*final(child), y) <==> Self::opt_has_val(
                    *old(child),
                    y,
                ) || y == data,
        decreases *old(child),
    {
        match child.take() {
            None => {
                *child = Some(
                    Box::new(BinaryTreeNode { left: None, right: None, data: Some(data) }),
                );
                proof {
                    assert forall|y: T|
                        #[trigger] Self::opt_has_val(*child, y) <==> Self::opt_has_val(
                            *old(child),
                            y,
                        ) || y == data by {}
                }
            },
            Some(mut boxed) => {
                let ghost bold = *boxed;
                (&mut *boxed).insert(data);
                let ghost bnew = *boxed;
                *child = Some(boxed);
                proof {
                    assert forall|y: T|
                        #[trigger] Self::opt_has_val(*child, y) <==> Self::opt_has_val(
                            *old(child),
                            y,
                        ) || y == data by {
                        assert(Self::opt_has_val(*child, y) == bnew.has_val(y));
                        assert(Self::opt_has_val(*old(child), y) == bold.has_val(y));
                        assert(bnew.has_val(y) <==> bold.has_val(y) || y == data);
                    }
                }
            },
        }
    }

    /// Standard binary-search descent for `target`: left when the node's
    /// value is above it, right when below, found on equality; an absent
    /// child means the value is not in the tree. Reports exactly whether
    /// the tree holds the value.
    pub fn search(&self, target: T) -> (found: bool)
        requires
            self.wf(),
        ensures
            found == self.has_val(target),
        decreases self,
    {
        match &self.data {
            None => false,
            Some(d) => {
                match target.compare_with(d) {
                    Comparison::EqualTo => true,
                    Comparison::LessThan => {
                        proof {
                            if Self::opt_has_val(self.right, target) {
                                assert((*d).le(target));
                                T::lemma_le_antisym(target, *d);
                                assert(false);
                            }
                        }
                        match &self.left {
                            None => false,
                            Some(l) => l.search(target),
                        }
                    },
                    Comparison::GreaterThan => {
                        proof {
                            if Self::opt_has_val(self.left, target) {
                                assert(target.le(*d));
                                T::lemma_le_antisym(target, *d);
                                assert(false);
                            }
                        }
                        match &self.right {
                            None => false,
                            Some(r) => r.search(target),
                        }
                    },
                }
            },
        }
    }

    /// Appends this tree's values to `out`, left-root-right.
    fn collect_in_order(&self, out: &mut Vec<T>)
        ensures
            final(out)@ == old(out)@ + self.in_order(),
        decreases self,
    {
        match &self.data {
            None => {
                proof {
                    assert(old(out)@ + self.in_order() =~= old(out)@);
                }
            },
            Some(d) => {
                if let Some(l) = &self.left {
                    l.collect_in_order(out);
                }
                out.push(d.copy_value());
                if let Some(r) = &self.right {
                    r.collect_in_order(out);
                }
                proof {
                    assert(final(out)@ =~= old(out)@ + self.in_order());
                }
            },
        }
    }

    /// Appends this tree's values to `out`, root-left-right.
    fn collect_pre_order(&self, out: &mut Vec<T>)
        ensures
            final(out)@ == old(out)@ + self.pre_order(),
        decreases self,
    {
        match &self.data {
            None => {
                proof {
                    assert(old(out)@ + self.pre_order() =~= old(out)@);
                }
            },
            Some(d) => {
                out.push(d.copy_value());
                if let Some(l) = &self.left {
                    l.collect_pre_order(out);
                }
                if let Some(r) = &self.right {
                    r.collect_pre_order(out);
                }
                proof {
                    assert(final(out)@ =~= old(out)@ + self.pre_order());
                }
            },
        }
    }

    /// The traversal in the requested order, as the sequence of values:
    /// `InOrder` yields ascending order by the tree's shape, `PreOrder`
    /// yields root-then-left-then-right, and `PostOrder` is not implemented
    /// and fails. An empty tree yields no values.
    pub fn traverse(&self, config: Traversal) -> (r: Result<Vec<T>, DsaError>)
        ensures
            (config is InOrder ==> (r matches Ok(v) && v@ == self.in_order())),
            (config is PreOrder ==> (r matches Ok(v) && v@ == self.pre_order())),
            (config is PostOrder ==> r == Result::<Vec<T>, DsaError>::Err(
                DsaError::NotImplemented,
            )),
    {
        match config {
            Traversal::InOrder => {
                let mut out: Vec<T> = Vec::new();
                self.collect_in_order(&mut out);
                proof {
                    assert(out@ =~= self.in_order());
                }
                Ok(out)
            },
            Traversal::PreOrder => {
                let mut out: Vec<T> = Vec::new();
                self.collect_pre_order(&mut out);
                proof {
                    assert(out@ =~= self.pre_order());
                }
                Ok(out)
            },
            Traversal::PostOrder => Err(DsaError::NotImplemented),
        }
    }
}

/// The law of insertion and search together: an insertion adds exactly the
/// inserted value to the tree's values, so a search — which reports exactly
/// whether its target is a value of the tree — finds every inserted value,
/// and misses every value that differs from all of them.
pub proof fn lemma_insert_rel_has_val<T: TreeValue>(
    t: BinaryTreeNode<T>,
    x: T,
    t2: BinaryTreeNode<T>,
)
    requires
        BinaryTreeNode::insert_rel(t, x, t2),
    ensures
        forall|y: T| #[trigger] t2.has_val(y) <==> t.has_val(y) || y == x,
    decreases t,
{
    match t.data {
        None => {
            assert forall|y: T| #[trigger] t2.has_val(y) <==> t.has_val(y) || y == x by {
                assert(t2.has_val(y) == (t2.data == Some(y) || BinaryTreeNode::opt_has_val(
                    t2.left,
                    y,
                ) || BinaryTreeNode::opt_has_val(t2.right, y)));
                assert(t.has_val(y) == (t.data == Some(y) || BinaryTreeNode::opt_has_val(t.left, y)
                    || BinaryTreeNode::opt_has_val(t.right, y)));
            }
        },
        Some(d) => {
            if d.le(x) {
                lemma_opt_insert_rel_has_val(t.right, x, t2.right);
                assert forall|y: T| #[trigger] t2.has_val(y) <==> t.has_val(y) || y == x by {
                    assert(t2.has_val(y) == (t2.data == Some(y) || BinaryTreeNode::opt_has_val(
                        t2.left,
                        y,
                    ) || BinaryTreeNode::opt_has_val(t2.right, y)));
                    assert(t.has_val(y) == (t.data == Some(y) || BinaryTreeNode::opt_has_val(
                        t.left,
                        y,
                    ) || BinaryTreeNode::opt_has_val(t.right, y)));
                }
            } else {
                lemma_opt_insert_rel_has_val(t.left, x, t2.left);
                assert forall|y: T| #[trigger] t2.has_val(y) <==> t.has_val(y) || y == x by {
                    assert(t2.has_val(y) == (t2.data == Some(y) || BinaryTreeNode::opt_has_val(
                        t2.left,
                        y,
                    ) || BinaryTreeNode::opt_has_val(t2.right, y)));
                    assert(t.has_val(y) == (t.data == Some(y) || BinaryTreeNode::opt_has_val(
                        t.left,
                        y,
                    ) || BinaryTreeNode::opt_has_val(t.right, y)));
                }
            }
        },
    }
}

/// `lemma_insert_rel_has_val` through an optional child.
pub proof fn lemma_opt_insert_rel_has_val<T: TreeValue>(
    o: Option<Box<BinaryTreeNode<T>>>,
    x: T,
    o2: Option<Box<BinaryTreeNode<T>>>,
)
    requires
        BinaryTreeNode::opt_insert_rel(o, x, o2),
    ensures
        forall|y: T|
            #[trigger] BinaryTreeNode::opt_has_val(o2, y) <==> BinaryTreeNode::opt_has_val(o, y)
                || y == x,
    decreases o,
{
    match o {
        None => {
            assert forall|y: T|
                #[trigger] BinaryTreeNode::opt_has_val(o2, y) <==> BinaryTreeNode::opt_has_val(
                    o,
                    y,
                ) || y == x by {
                let leaf = *o2->Some_0;
                assert(BinaryTreeNode::opt_has_val(o2, y) == leaf.has_val(y));
                assert(leaf.data == Some(x) && leaf.left is None && leaf.right is None);
                assert(leaf.has_val(y) == (leaf.data == Some(y) || BinaryTreeNode::opt_has_val(
                    leaf.left,
                    y,
                ) || BinaryTreeNode::opt_has_val(leaf.right, y)));
                assert(!BinaryTreeNode::opt_has_val(leaf.left, y));
                assert(!BinaryTreeNode::opt_has_val(leaf.right, y));
                assert(!BinaryTreeNode::opt_has_val(o, y));
            }
        },
        Some(n) => {
            lemma_insert_rel_has_val(*n, x, *o2->Some_0);
            assert forall|y: T|
                #[trigger] BinaryTreeNode::opt_has_val(o2, y) <==> BinaryTreeNode::opt_has_val(
                    o,
                    y,
                ) || y == x by {
                assert(BinaryTreeNode::opt_has_val(o2, y) == (*o2->Some_0).has_val(y));
                assert(BinaryTreeNode::opt_has_val(o, y) == (*n).has_val(y));
                assert((*o2->Some_0).has_val(y) <==> (*n).has_val(y) || y == x);
            }
        },
    }
}

/// `s` is in non-decreasing order with respect to the element order.
pub open spec fn sorted_le<T: TreeValue>(s: Seq<T>) -> bool {
    forall|i: int, j: int| 0 <= i < j < s.len() ==> (#[trigger] s[i]).le(#[trigger] s[j])
}

/// Every value of the in-order sequence is a value of the tree.
pub proof fn lemma_in_order_elems<T: TreeValue>(t: BinaryTreeNode<T>)
    ensures
        forall|i: int| 0 <= i < t.in_order().len() ==> t.has_val(#[trigger] t.in_order()[i]),
    decreases t,
{
    match t.data {
        None => {},
        Some(d) => {
            let ls = BinaryTreeNode::opt_in_order(t.left);
            let rs = BinaryTreeNode::opt_in_order(t.right);
            let s = t.in_order();
            if let Some(l) = t.left {
                lemma_in_order_elems(*l);
            }
            if let Some(r) = t.right {
                lemma_in_order_elems(*r);
            }
            assert forall|i: int| 0 <= i < s.len() implies t.has_val(#[trigger] s[i]) by {
                if i < ls.len() {
                    assert(s[i] == ls[i]);
                    match t.left {
                        None => {},
                        Some(l) => {
                            assert(ls == l.in_order());
                            assert(l.has_val(l.in_order()[i]));
                        },
                    }
                    assert(BinaryTreeNode::opt_has_val(t.left, s[i]));
                } else if i == ls.len() {
                    assert(s[i] == d);
                } else {
                    let k = i - ls.len() - 1;
                    assert(s[i] == rs[k]);
                    match t.right {
                        None => {},
                        Some(r) => {
                            assert(rs == r.in_order());
                            assert(r.has_val(r.in_order()[k]));
                        },
                    }
                    assert(BinaryTreeNode::opt_has_val(t.right, s[i]));
                }
            }
        },
    }
}

/// For every well-formed tree — hence for every tree grown by `insert` from
/// an empty one — the in-order traversal yields the tree's values in
/// non-decreasing sorted order.
pub proof fn lemma_in_order_sorted<T: TreeValue>(t: BinaryTreeNode<T>)
    requires
        t.wf(),
    ensures
        sorted_le(t.in_order()),
    decreases t,
{
    match t.data {
        None => {},
        Some(d) => {
            let ls = BinaryTreeNode::opt_in_order(t.left);
            let rs = BinaryTreeNode::opt_in_order(t.right);
            let s = t.in_order();
            if let Some(l) = t.left {
                lemma_in_order_sorted(*l);
                lemma_in_order_elems(*l);
            }
            if let Some(r) = t.right {
                lemma_in_order_sorted(*r);
                lemma_in_order_elems(*r);
            }
            assert forall|i: int, j: int| 0 <= i < j < s.len() implies (#[trigger] s[i]).le(
                #[trigger] s[j],
            ) by {
                let x = s[i];
                let y = s[j];
                if i < ls.len() {
                    assert(x == ls[i]);
                    assert(BinaryTreeNode::opt_has_val(t.left, x));
                    assert(x.le(d));
                    if j < ls.len() {
                        assert(y == ls[j]);
                        assert(x.le(y));
                    } else if j == ls.len() {
                        assert(y == d);
                    } else {
                        assert(y == rs[j - ls.len() - 1]);
                        assert(BinaryTreeNode::opt_has_val(t.right, y));
                        assert(d.le(y));
                        T::lemma_le_trans(x, d, y);
                    }
                } else if i == ls.len() {
                    assert(x == d);
                    assert(y == rs[j - ls.len() - 1]);
                    assert(BinaryTreeNode::opt_has_val(t.right, y));
                    assert(d.le(y));
                } else {
                    assert(x == rs[i - ls.len() - 1]);
                    assert(y == rs[j - ls.len() - 1]);
                    assert(x.le(y));
                }
            }
        },
    }
}

} // verus!

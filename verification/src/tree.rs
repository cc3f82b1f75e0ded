//! A binary tree of `i64` values with breadth-first insertion into the
//! first free slot, ordered search, four traversal orders, height, and
//! subtree deletion.
use vstd::prelude::*;

verus! {

/// A node holding a value and two optional children.
#[derive(Debug, PartialEq)]
pub struct Node {
    data: i64,
    left: Option<Box<Node>>,
    right: Option<Box<Node>>,
}

impl Node {
    /// Number of nodes in this tree.
    pub closed spec fn spec_size(self) -> nat
        decreases self,
    {
        1 + (match self.left {
            Some(l) => l.spec_size(),
            None => 0,
        }) + (match self.right {
            Some(r) => r.spec_size(),
            None => 0,
        })
    }

    /// Height of this tree; a single node has height 1.
    pub closed spec fn spec_height(self) -> nat
        decreases self,
    {
        let lh = match self.left {
            Some(l) => l.spec_height(),
            None => 0,
        };
        let rh = match self.right {
            Some(r) => r.spec_height(),
            None => 0,
        };
        1 + (if lh >= rh {
            lh
        } else {
            rh
        })
    }

    /// Ordered search: equal stops, smaller goes left, larger goes right.
    pub closed spec fn spec_find(self, elem: i64) -> Option<i64>
        decreases self,
    {
        if elem == self.data {
            Some(elem)
        } else if elem < self.data {
            match self.left {
                Some(l) => l.spec_find(elem),
                None => None,
            }
        } else {
            match self.right {
                Some(r) => r.spec_find(elem),
                None => None,
            }
        }
    }

    /// Left subtree, then root, then right subtree.
    pub closed spec fn spec_inorder(self) -> Seq<i64>
        decreases self,
    {
        (match self.left {
            Some(l) => l.spec_inorder(),
            None => Seq::empty(),
        }) + seq![self.data] + (match self.right {
            Some(r) => r.spec_inorder(),
            None => Seq::empty(),
        })
    }

    /// Root, then left subtree, then right subtree.
    pub closed spec fn spec_preorder(self) -> Seq<i64>
        decreases self,
    {
        seq![self.data] + (match self.left {
            Some(l) => l.spec_preorder(),
            None => Seq::empty(),
        }) + (match self.right {
            Some(r) => r.spec_preorder(),
            None => Seq::empty(),
        })
    }

    /// Left subtree, then right subtree, then root.
    pub closed spec fn spec_postorder(self) -> Seq<i64>
        decreases self,
    {
        (match self.left {
            Some(l) => l.spec_postorder(),
            None => Seq::empty(),
        }) + (match self.right {
            Some(r) => r.spec_postorder(),
            None => Seq::empty(),
        }) + seq![self.data]
    }

    /// The values at exactly depth `d` below this node (the node itself
    /// is depth 0), left to right.
    pub closed spec fn spec_level(self, d: nat) -> Seq<i64>
        decreases self,
    {
        if d == 0 {
            seq![self.data]
        } else {
            (match self.left {
                Some(l) => l.spec_level((d - 1) as nat),
                None => Seq::empty(),
            }) + (match self.right {
                Some(r) => r.spec_level((d - 1) as nat),
                None => Seq::empty(),
            })
        }
    }

    /// All levels from `d` down, concatenated.
    pub closed spec fn spec_levels_from(self, d: nat) -> Seq<i64>
        decreases self.spec_height() - d,
    {
        if d >= self.spec_height() {
            Seq::empty()
        } else {
            self.spec_level(d) + self.spec_levels_from(d + 1)
        }
    }

    /// Level-order traversal: the levels top to bottom, each left to
    /// right.
    pub closed spec fn spec_levelorder(self) -> Seq<i64> {
        self.spec_levels_from(0)
    }

    /// The tree after placing `data` in the leftmost free child slot at
    /// exactly depth `d + 1`, or `None` when every slot there is taken.
    pub closed spec fn spec_try_insert(self, data: i64, d: nat) -> Option<Node>
        decreases self,
    {
        if d == 0 {
            if self.left is None {
                Some(Node { left: Some(Box::new(Node::spec_new(data))), ..self })
            } else if self.right is None {
                Some(Node { right: Some(Box::new(Node::spec_new(data))), ..self })
            } else {
                None
            }
        } else {
            let via_left = match self.left {
                Some(l) => match l.spec_try_insert(data, (d - 1) as nat) {
                    Some(l2) => Some(Node { left: Some(Box::new(l2)), ..self }),
                    None => None,
                },
                None => None,
            };
            if via_left is Some {
                via_left
            } else {
                match self.right {
                    Some(r) => match r.spec_try_insert(data, (d - 1) as nat) {
                        Some(r2) => Some(Node { right: Some(Box::new(r2)), ..self }),
                        None => None,
                    },
                    None => None,
                }
            }
        }
    }

    /// A leaf holding `data`.
    pub closed spec fn spec_new(data: i64) -> Node {
        Node { data, left: None, right: None }
    }

    /// The value at the root.
    pub closed spec fn spec_data(self) -> i64 {
        self.data
    }

    /// Breadth-first placement: the first depth whose leftmost free slot
    /// accepts the new value wins.
    pub closed spec fn spec_insert_free(self, data: i64, d: nat) -> Node
        decreases self.spec_height() - d,
    {
        if d >= self.spec_height() {
            self
        } else {
            match self.spec_try_insert(data, d) {
                Some(t) => t,
                None => self.spec_insert_free(data, d + 1),
            }
        }
    }

    /// What `insert` does: nothing when the ordered search already finds
    /// the value, otherwise breadth-first placement in the first free
    /// slot.
    pub closed spec fn spec_insert(self, data: i64) -> Node {
        if self.spec_find(data) is Some {
            self
        } else {
            self.spec_insert_free(data, 0)
        }
    }

    /// Both children pruned of any subtree whose root holds `data`,
    /// recursively; the root itself is kept.
    pub closed spec fn spec_prune(self, data: i64) -> Node
        decreases self,
    {
        Node {
            data: self.data,
            left: (match self.left {
                Some(l) => if l.data == data {
                    None
                } else {
                    Some(Box::new(l.spec_prune(data)))
                },
                None => None,
            }),
            right: (match self.right {
                Some(r) => if r.data == data {
                    None
                } else {
                    Some(Box::new(r.spec_prune(data)))
                },
                None => None,
            }),
        }
    }

    /// A leaf holding `data`.
    pub fn new(data: i64) -> (n: Node)
        ensures
            n == Node::spec_new(data),
    {
        Node { data, left: None, right: None }
    }

    /// Ordered search for `elem`, returning it when found.
    pub fn find(&self, elem: i64) -> (r: Option<i64>)
        ensures
            r == self.spec_find(elem),
        decreases *self,
    {
        if elem == self.data {
            Some(elem)
        } else if elem < self.data {
            match &self.left {
                Some(l) => l.find(elem),
                None => None,
            }
        } else {
            match &self.right {
                Some(r) => r.find(elem),
                None => None,
            }
        }
    }

    /// Places `data` in the leftmost free child slot at depth `d + 1`,
    /// reporting whether a slot was found; the tree is unchanged when
    /// not.
    fn try_insert_at(&mut self, data: i64, d: usize) -> (b: bool)
        ensures
            (match old(self).spec_try_insert(data, d as nat) {
                Some(t) => b && *final(self) == t,
                None => !b && *final(self) == *old(self),
            }),
        decreases *old(self),
    {
        if d == 0 {
            if self.left.is_none() {
                self.left = Some(Box::new(Node::new(data)));
                return true;
            }
            if self.right.is_none() {
                self.right = Some(Box::new(Node::new(data)));
                return true;
            }
            return false;
        }
        let mut lchild: Option<Box<Node>> = None;
        core::mem::swap(&mut lchild, &mut self.left);
        if let Some(bl) = lchild {
            let mut lnode = *bl;
            let done = lnode.try_insert_at(data, d - 1);
            self.left = Some(Box::new(lnode));
            if done {
                return true;
            }
        }
        let mut rchild: Option<Box<Node>> = None;
        core::mem::swap(&mut rchild, &mut self.right);
        if let Some(br) = rchild {
            let mut rnode = *br;
            let done = rnode.try_insert_at(data, d - 1);
            self.right = Some(Box::new(rnode));
            if done {
                return true;
            }
        }
        false
    }

    /// Some depth below this node has a free child slot.
    proof fn lemma_free_slot(self, data: i64)
        ensures
            exists|d: nat|
                d < self.spec_height() && #[trigger] self.spec_try_insert(data, d) is Some,
        decreases self,
    {
        if self.left is None || self.right is None {
            assert(self.spec_try_insert(data, 0) is Some);
        } else {
            let l = self.left->0;
            l.lemma_free_slot(data);
            let dl = choose|dl: nat|
                dl < l.spec_height() && #[trigger] l.spec_try_insert(data, dl) is Some;
            assert(self.spec_try_insert(data, dl + 1) is Some);
        }
    }

    /// Inserts `data` into the first free slot in breadth-first order,
    /// unless the ordered search already finds it.
    pub fn insert(&mut self, data: i64)
        requires
            old(self).spec_height() < usize::MAX,
        ensures
            *final(self) == old(self).spec_insert(data),
    {
        if self.find(data).is_some() {
            return ;
        }
        proof {
            old(self).lemma_free_slot(data);
        }
        let mut d: usize = 0;
        loop
            invariant
                *self == *old(self),
                old(self).spec_insert_free(data, d as nat) == old(self).spec_insert_free(
                    data,
                    0,
                ),
                forall|dd: nat|
                    dd < d ==> #[trigger] old(self).spec_try_insert(data, dd) is None,
                exists|dw: nat|
                    dw < old(self).spec_height() && #[trigger] old(self).spec_try_insert(
                        data,
                        dw,
                    ) is Some,
                d <= old(self).spec_height(),
                old(self).spec_height() < usize::MAX,
                old(self).spec_find(data) is None,
            decreases old(self).spec_height() - d,
        {
            proof {
                let dw = choose|dw: nat|
                    dw < old(self).spec_height() && #[trigger] old(self).spec_try_insert(
                        data,
                        dw,
                    ) is Some;
                assert(d <= dw);
                assert((d as nat) < old(self).spec_height());
            }
            if self.try_insert_at(data, d) {
                proof {
                    assert(old(self).spec_insert_free(data, d as nat) == *self);
                }
                return ;
            }
            d += 1;
        }
    }

    /// Reports whether the root holds `data`; otherwise removes every
    /// child subtree whose root holds it, recursively, and reports
    /// false.
    pub fn delete(&mut self, data: i64) -> (b: bool)
        ensures
            b == (old(self).spec_data() == data),
            b ==> *final(self) == *old(self),
            !b ==> *final(self) == old(self).spec_prune(data),
        decreases *old(self),
    {
        if self.data == data {
            return true;
        }
        let mut lchild: Option<Box<Node>> = None;
        core::mem::swap(&mut lchild, &mut self.left);
        if let Some(bl) = lchild {
            let mut lnode = *bl;
            if lnode.delete(data) {
                self.left = None;
            } else {
                self.left = Some(Box::new(lnode));
            }
        }
        let mut rchild: Option<Box<Node>> = None;
        core::mem::swap(&mut rchild, &mut self.right);
        if let Some(br) = rchild {
            let mut rnode = *br;
            if rnode.delete(data) {
                self.right = None;
            } else {
                self.right = Some(Box::new(rnode));
            }
        }
        false
    }

    /// Appends the in-order traversal to `res`.
    pub fn inorder(&self, res: &mut Vec<i64>)
        ensures
            final(res)@ == old(res)@ + self.spec_inorder(),
        decreases *self,
    {
        match &self.left {
            Some(l) => l.inorder(res),
            None => (),
        }
        res.push(self.data);
        match &self.right {
            Some(r) => r.inorder(res),
            None => (),
        }
        proof {
            assert(final(res)@ =~= old(res)@ + self.spec_inorder());
        }
    }

    /// Appends the pre-order traversal to `res`.
    pub fn preorder(&self, res: &mut Vec<i64>)
        ensures
            final(res)@ == old(res)@ + self.spec_preorder(),
        decreases *self,
    {
        res.push(self.data);
        match &self.left {
            Some(l) => l.preorder(res),
            None => (),
        }
        match &self.right {
            Some(r) => r.preorder(res),
            None => (),
        }
        proof {
            assert(final(res)@ =~= old(res)@ + self.spec_preorder());
        }
    }

    /// Appends the post-order traversal to `res`.
    pub fn postorder(&self, res: &mut Vec<i64>)
        ensures
            final(res)@ == old(res)@ + self.spec_postorder(),
        decreases *self,
    {
        match &self.left {
            Some(l) => l.postorder(res),
            None => (),
        }
        match &self.right {
            Some(r) => r.postorder(res),
            None => (),
        }
        res.push(self.data);
        proof {
            assert(final(res)@ =~= old(res)@ + self.spec_postorder());
        }
    }

    /// Appends the values at exactly depth `d` to `res`, left to right.
    fn collect_level(&self, d: usize, res: &mut Vec<i64>)
        ensures
            final(res)@ == old(res)@ + self.spec_level(d as nat),
        decreases *self,
    {
        if d == 0 {
            res.push(self.data);
            proof {
                assert(final(res)@ =~= old(res)@ + self.spec_level(0));
            }
            return ;
        }
        match &self.left {
            Some(l) => l.collect_level(d - 1, res),
            None => (),
        }
        match &self.right {
            Some(r) => r.collect_level(d - 1, res),
            None => (),
        }
        proof {
            assert(final(res)@ =~= old(res)@ + self.spec_level(d as nat));
        }
    }

    /// Appends the level-order traversal to `res`: each level top to
    /// bottom, left to right within a level.
    pub fn levelorder(&self, res: &mut Vec<i64>)
        requires
            self.spec_height() <= usize::MAX,
        ensures
            final(res)@ == old(res)@ + self.spec_levelorder(),
    {
        let h = self.height_units();
        let ghost base = res@;
        let mut d: usize = 0;
        while d < h
            invariant
                h == self.spec_height(),
                d <= h,
                base + self.spec_levels_from(0) == res@ + self.spec_levels_from(d as nat),
            decreases h - d,
        {
            let ghost r0 = res@;
            self.collect_level(d, res);
            proof {
                assert(r0 + (self.spec_level(d as nat) + self.spec_levels_from(d as nat + 1))
                    =~= res@ + self.spec_levels_from(d as nat + 1));
            }
            d += 1;
        }
        proof {
            assert(res@ =~= base + self.spec_levels_from(0));
        }
    }

    /// Height of the tree as a machine integer.
    fn height_units(&self) -> (h: usize)
        requires
            self.spec_height() <= usize::MAX,
        ensures
            h == self.spec_height(),
        decreases *self,
    {
        let lh = match &self.left {
            Some(l) => l.height_units(),
            None => 0,
        };
        let rh = match &self.right {
            Some(r) => r.height_units(),
            None => 0,
        };
        1 + (if lh >= rh {
            lh
        } else {
            rh
        })
    }

    /// Height of the tree: 1 for a single node, one more for each level
    /// below the root.
    pub fn depth(&self) -> (r: i32)
        requires
            self.spec_height() <= i32::MAX,
        ensures
            r == self.spec_height(),
        decreases *self,
    {
        match (&self.left, &self.right) {
            (None, None) => 1,
            (Some(l), None) => 1 + l.depth(),
            (None, Some(r)) => 1 + r.depth(),
            (Some(l), Some(r)) => {
                let ld = l.depth();
                let rd = r.depth();
                1 + (if ld >= rd {
                    ld
                } else {
                    rd
                })
            },
        }
    }
}

} // verus!

use vstd::prelude::*;

verus! {

/// One node of the tree: a key, its value, the two owned children, and a
/// back-reference to the parent. The parent is named by its key, which is
/// unique within a tree, so the link can never dangle: after a detach it
/// simply names a node that the detached subtree no longer hangs under.
#[derive(Debug)]
pub struct Node<V> {
    pub key: i64,
    pub value: V,
    pub left: Option<Box<Node<V>>>,
    pub right: Option<Box<Node<V>>>,
    pub parent: Option<i64>,
}

/// The contents of an optional subtree, as a map from key to value.
pub open spec fn contents<V>(link: Option<Box<Node<V>>>) -> Map<i64, V>
    decreases link,
{
    match link {
        Some(n) => n.subtree_map(),
        None => Map::empty(),
    }
}

/// An optional subtree that is empty, or ordered and hanging under `parent_key`.
pub open spec fn link_ok<V>(link: Option<Box<Node<V>>>, parent_key: i64) -> bool
    decreases link,
{
    match link {
        Some(n) => n.parent == Some(parent_key) && n.ordered(),
        None => true,
    }
}

/// The node that a search for `key` stops at in an optional subtree.
pub open spec fn lookup<V>(link: Option<Box<Node<V>>>, key: i64) -> Option<Node<V>>
    decreases link,
{
    match link {
        Some(n) => n.search(key),
        None => None,
    }
}

/// A node without children, holding `key` and `value` under `parent`.
pub open spec fn sprout<V>(key: i64, value: V, parent: Option<i64>) -> Node<V> {
    Node { key, value, left: None, right: None, parent }
}

impl<V> Node<V> {
    /// This subtree after inserting `key` with `value`: the search for `key`
    /// goes down by comparison and, where it ends at an empty slot, a new
    /// childless node is attached there under the node that owns the slot.
    /// Nothing else moves. Where the key is already present nothing changes.
    pub open spec fn with_leaf(self, key: i64, value: V) -> Node<V>
        decreases self,
    {
        if key == self.key {
            self
        } else if key < self.key {
            let l = match self.left {
                Some(c) => c.with_leaf(key, value),
                None => sprout(key, value, Some(self.key)),
            };
            Node {
                key: self.key,
                value: self.value,
                left: Some(Box::new(l)),
                right: self.right,
                parent: self.parent,
            }
        } else {
            let g = match self.right {
                Some(c) => c.with_leaf(key, value),
                None => sprout(key, value, Some(self.key)),
            };
            Node {
                key: self.key,
                value: self.value,
                left: self.left,
                right: Some(Box::new(g)),
                parent: self.parent,
            }
        }
    }

    /// This subtree after detaching the node below it that holds `key`:
    /// the descent checks both children, empties the slot whose child holds
    /// `key`, and otherwise goes left where `key` is at most this node's key
    /// and right where it is greater. Every other slot stays as it was.
    pub open spec fn without(self, key: i64) -> Node<V>
        decreases self,
    {
        match (self.left, self.right) {
            (Some(c), _) if c.key == key => Node { left: None, ..self },
            (_, Some(c)) if c.key == key => Node { right: None, ..self },
            (Some(c), _) if key <= self.key => Node { left: Some(Box::new(c.without(key))), ..self },
            (None, _) if key <= self.key => self,
            (_, Some(c)) => Node { right: Some(Box::new(c.without(key))), ..self },
            (_, None) => self,
        }
    }

    /// The node that a search for `key` stops at, going left where `key` is
    /// less than a node's key and right where it is greater.
    pub open spec fn search(self, key: i64) -> Option<Node<V>>
        decreases self,
    {
        if key == self.key {
            Some(self)
        } else if key < self.key {
            lookup(self.left, key)
        } else {
            lookup(self.right, key)
        }
    }

    /// Every key of this subtree mapped to its value.
    pub open spec fn subtree_map(self) -> Map<i64, V>
        decreases self,
    {
        contents(self.left).union_prefer_right(contents(self.right)).insert(self.key, self.value)
    }

    /// The shape invariant, at this node and at every node below it: keys
    /// on the left are strictly less than the node's key, keys on the right
    /// strictly greater, and each child points back at its parent.
    pub open spec fn ordered(self) -> bool
        decreases self,
    {
        &&& forall|k: i64| contents(self.left).contains_key(k) ==> k < self.key
        &&& forall|k: i64| contents(self.right).contains_key(k) ==> k > self.key
        &&& link_ok(self.left, self.key)
        &&& link_ok(self.right, self.key)
    }

    /// In an ordered subtree a key is found exactly when it is present; the
    /// node found holds that key with its value, is ordered itself, and
    /// everything under it belongs to this subtree with the same values.
    pub proof fn lemma_search(self, key: i64)
        requires
            self.ordered(),
        ensures
            self.search(key).is_some() == self.subtree_map().contains_key(key),
            self.search(key) matches Some(m) ==> {
                &&& m.key == key
                &&& m.value == self.subtree_map()[key]
                &&& m.ordered()
                &&& m.subtree_map().contains_key(key)
                &&& m.subtree_map().submap_of(self.subtree_map())
            },
        decreases self,
    {
        let l = contents(self.left);
        let r = contents(self.right);
        if key < self.key {
            assert(!r.contains_key(key));
            match self.left {
                Some(c) => {
                    c.lemma_search(key);
                    assert forall|q: i64| l.contains_key(q) implies self.subtree_map().contains_key(q)
                        && self.subtree_map()[q] == l[q] by {
                        assert(!r.contains_key(q) && q != self.key);
                    }
                },
                None => {},
            }
        } else if key > self.key {
            assert(!l.contains_key(key));
            match self.right {
                Some(c) => {
                    c.lemma_search(key);
                    assert forall|q: i64| r.contains_key(q) implies self.subtree_map().contains_key(q)
                        && self.subtree_map()[q] == r[q] by {
                        assert(q != self.key);
                    }
                },
                None => {},
            }
        } else {
            assert(self.subtree_map().submap_of(self.subtree_map()));
        }
    }

    /// A node without children is ordered and holds its own pair alone.
    proof fn lemma_single(self)
        requires
            self.left.is_none(),
            self.right.is_none(),
        ensures
            self.ordered(),
            self.subtree_map() == Map::<i64, V>::empty().insert(self.key, self.value),
    {
        assert(contents(self.left) == Map::<i64, V>::empty());
        assert(contents(self.right) == Map::<i64, V>::empty());
        assert(self.subtree_map() =~= Map::<i64, V>::empty().insert(self.key, self.value));
    }

    /// At every node of an ordered subtree, each key less than the node's
    /// own lies in its left branch and each greater one in its right branch.
    pub proof fn lemma_placement(self, k: i64)
        requires
            self.ordered(),
            self.subtree_map().contains_key(k),
        ensures
            k < self.key ==> contents(self.left).contains_key(k),
            k > self.key ==> contents(self.right).contains_key(k),
    {
        let l = contents(self.left);
        let g = contents(self.right);
        assert(self.subtree_map() == l.union_prefer_right(g).insert(self.key, self.value));
        if k < self.key {
            assert(!g.contains_key(k));
        } else if k > self.key {
            assert(!l.contains_key(k));
        }
    }

    /// Taking from the left branch some of its keys, and nothing else,
    /// takes exactly those keys from the subtree and keeps it ordered.
    proof fn lemma_trim_left(before: Node<V>, after: Node<V>, d: Set<i64>)
        requires
            before.ordered(),
            after.key == before.key,
            after.value == before.value,
            after.right == before.right,
            link_ok(after.left, before.key),
            d.subset_of(contents(before.left).dom()),
            contents(after.left) == contents(before.left).remove_keys(d),
        ensures
            after.ordered(),
            after.subtree_map() == before.subtree_map().remove_keys(d),
    {
        let l = contents(before.left);
        let g = contents(before.right);
        assert forall|q: i64| d.contains(q) implies !g.contains_key(q) && q != before.key by {
            assert(l.contains_key(q));
        }
        assert(after.subtree_map() =~= before.subtree_map().remove_keys(d));
    }

    /// Taking from the right branch some of its keys, and nothing else,
    /// takes exactly those keys from the subtree and keeps it ordered.
    proof fn lemma_trim_right(before: Node<V>, after: Node<V>, d: Set<i64>)
        requires
            before.ordered(),
            after.key == before.key,
            after.value == before.value,
            after.left == before.left,
            link_ok(after.right, before.key),
            d.subset_of(contents(before.right).dom()),
            contents(after.right) == contents(before.right).remove_keys(d),
        ensures
            after.ordered(),
            after.subtree_map() == before.subtree_map().remove_keys(d),
    {
        let l = contents(before.left);
        let g = contents(before.right);
        assert forall|q: i64| d.contains(q) implies !l.contains_key(q) && q != before.key by {
            assert(g.contains_key(q));
        }
        assert(after.subtree_map() =~= before.subtree_map().remove_keys(d));
    }

    /// Attaching a leaf keeps an ordered subtree ordered, keeps its root's
    /// key and parent, and adds the pair unless the key is already held.
    pub proof fn lemma_with_leaf(self, key: i64, value: V)
        requires
            self.ordered(),
        ensures
            self.with_leaf(key, value).ordered(),
            self.with_leaf(key, value).key == self.key,
            self.with_leaf(key, value).parent == self.parent,
            self.with_leaf(key, value).subtree_map() == inserted(self.subtree_map(), key, value),
        decreases self,
    {
        let l = contents(self.left);
        let g = contents(self.right);
        let after = self.with_leaf(key, value);
        if key < self.key {
            assert(!g.contains_key(key));
            let c2 = match self.left {
                Some(c) => {
                    c.lemma_with_leaf(key, value);
                    c.with_leaf(key, value)
                },
                None => {
                    sprout(key, value, Some(self.key)).lemma_single();
                    sprout(key, value, Some(self.key))
                },
            };
            assert(contents(after.left) == c2.subtree_map());
            assert(c2.subtree_map() =~= inserted(l, key, value));
            assert(after.subtree_map() =~= inserted(self.subtree_map(), key, value));
        } else if key > self.key {
            assert(!l.contains_key(key));
            let c2 = match self.right {
                Some(c) => {
                    c.lemma_with_leaf(key, value);
                    c.with_leaf(key, value)
                },
                None => {
                    sprout(key, value, Some(self.key)).lemma_single();
                    sprout(key, value, Some(self.key))
                },
            };
            assert(contents(after.right) == c2.subtree_map());
            assert(c2.subtree_map() =~= inserted(g, key, value));
            assert(after.subtree_map() =~= inserted(self.subtree_map(), key, value));
        }
    }

    /// Detaching below keeps an ordered subtree ordered, keeps its root's
    /// key and parent, and leaves part of its pairs: never `key`, unless
    /// `key` is the root's own.
    pub proof fn lemma_without(self, key: i64)
        requires
            self.ordered(),
        ensures
            self.without(key).ordered(),
            self.without(key).key == self.key,
            self.without(key).parent == self.parent,
            self.without(key).subtree_map().submap_of(self.subtree_map()),
            key != self.key ==> !self.without(key).subtree_map().contains_key(key),
        decreases self,
    {
        let l = contents(self.left);
        let g = contents(self.right);
        let after = self.without(key);
        let m = self.subtree_map();
        let m2 = after.subtree_map();
        let left_hit = self.left matches Some(c) && c.key == key;
        let right_hit = self.right matches Some(c) && c.key == key;
        if left_hit {
            let c = self.left.unwrap();
            assert(l.contains_key(c.key));
            assert(contents(after.left) == Map::<i64, V>::empty());
            assert(contents(self.left).remove_keys(c.subtree_map().dom()) =~= Map::<i64, V>::empty());
            Node::lemma_trim_left(self, after, c.subtree_map().dom());
        } else if right_hit {
            let c = self.right.unwrap();
            assert(g.contains_key(c.key));
            assert(contents(after.right) == Map::<i64, V>::empty());
            assert(contents(self.right).remove_keys(c.subtree_map().dom()) =~= Map::<i64, V>::empty());
            Node::lemma_trim_right(self, after, c.subtree_map().dom());
        } else if key <= self.key {
            if let Some(c) = self.left {
                c.lemma_without(key);
                let l2 = contents(after.left);
                assert(l2 == c.without(key).subtree_map());
                assert forall|k: i64| l2.contains_key(k) implies k < self.key by {
                    assert(l.contains_key(k));
                }
                assert(link_ok(after.left, self.key));
                assert forall|q: i64| m2.contains_key(q) implies m.contains_key(q) && m[q] == m2[q] by {
                    if l2.contains_key(q) && q != self.key {
                        assert(l.contains_key(q));
                        assert(!g.contains_key(q));
                    }
                }
                if key < self.key {
                    assert(!g.contains_key(key));
                }
            } else {
                assert(after == self);
            }
        } else {
            if let Some(c) = self.right {
                c.lemma_without(key);
                let g2 = contents(after.right);
                assert(g2 == c.without(key).subtree_map());
                assert forall|k: i64| g2.contains_key(k) implies k > self.key by {
                    assert(g.contains_key(k));
                }
                assert(link_ok(after.right, self.key));
                assert forall|q: i64| m2.contains_key(q) implies m.contains_key(q) && m[q] == m2[q] by {
                    if g2.contains_key(q) && q != self.key {
                        assert(g.contains_key(q));
                    }
                }
                assert(!l.contains_key(key));
            } else {
                assert(after == self);
            }
        }
    }

    /// A node with no children and no parent, to stand at the top of a tree.
    pub fn new_root(key: i64, value: V) -> (n: Self)
        ensures
            n.key == key,
            n.value == value,
            n.left.is_none(),
            n.right.is_none(),
            n.parent.is_none(),
            n == sprout(key, value, None),
            n.ordered(),
            n.subtree_map() == Map::<i64, V>::empty().insert(key, value),
    {
        let n = Node { key, value, left: None, right: None, parent: None };
        proof {
            n.lemma_single();
        }
        n
    }

    /// A node with no children, to be attached under the node keyed `parent`.
    pub fn new_leaf(key: i64, value: V, parent: i64) -> (n: Self)
        ensures
            n.key == key,
            n.value == value,
            n.left.is_none(),
            n.right.is_none(),
            n.parent == Some(parent),
            n == sprout(key, value, Some(parent)),
            n.ordered(),
            n.subtree_map() == Map::<i64, V>::empty().insert(key, value),
    {
        let n = Node { key, value, left: None, right: None, parent: Some(parent) };
        proof {
            n.lemma_single();
        }
        n
    }
}

/// What inserting `key` with `value` makes of the contents `m`: a key that
/// is already present keeps its value.
pub open spec fn inserted<V>(m: Map<i64, V>, key: i64, value: V) -> Map<i64, V> {
    if m.contains_key(key) {
        m
    } else {
        m.insert(key, value)
    }
}

/// The contents of a tree into which `pairs` were inserted in order,
/// starting from an empty tree.
pub open spec fn after_inserts<V>(pairs: Seq<(i64, V)>) -> Map<i64, V>
    decreases pairs.len(),
{
    if pairs.len() == 0 {
        Map::empty()
    } else {
        inserted(after_inserts(pairs.drop_last()), pairs.last().0, pairs.last().1)
    }
}

/// Whatever keys are inserted, and in whatever order, each inserted key is
/// held with the value it was first inserted with.
pub proof fn lemma_first_insert_kept<V>(pairs: Seq<(i64, V)>, i: int)
    requires
        0 <= i < pairs.len(),
        forall|j: int| 0 <= j < i ==> pairs[j].0 != pairs[i].0,
    ensures
        after_inserts(pairs).contains_key(pairs[i].0),
        after_inserts(pairs)[pairs[i].0] == pairs[i].1,
    decreases pairs.len(),
{
    let front = pairs.drop_last();
    if i < pairs.len() - 1 {
        assert forall|j: int| 0 <= j < i implies front[j].0 != front[i].0 by {
            assert(front[j] == pairs[j] && front[i] == pairs[i]);
        }
        lemma_first_insert_kept(front, i);
        assert(front[i] == pairs[i]);
    } else {
        lemma_never_inserted(front, pairs[i].0);
    }
}

/// A key that no pair carries is not held.
proof fn lemma_never_inserted<V>(pairs: Seq<(i64, V)>, key: i64)
    requires
        forall|j: int| 0 <= j < pairs.len() ==> pairs[j].0 != key,
    ensures
        !after_inserts(pairs).contains_key(key),
    decreases pairs.len(),
{
    if pairs.len() > 0 {
        let front = pairs.drop_last();
        assert forall|j: int| 0 <= j < front.len() implies front[j].0 != key by {
            assert(front[j] == pairs[j]);
        }
        lemma_never_inserted(front, key);
    }
}

/// One call that changes a tree: an insert of a pair, or a detach of a key.
pub enum Step<V> {
    Insert(i64, V),
    Detach(i64),
}

/// The tree after `steps`, taken in order from `t`.
pub open spec fn replay<V>(t: Tree<V>, steps: Seq<Step<V>>) -> Tree<V>
    decreases steps.len(),
{
    if steps.len() == 0 {
        t
    } else {
        replay(t, steps.drop_last()).apply(steps.last())
    }
}

/// Replaying steps on a well-formed tree gives a well-formed tree.
pub proof fn lemma_replay_well_formed<V>(t: Tree<V>, steps: Seq<Step<V>>)
    requires
        t.well_formed(),
    ensures
        replay(t, steps).well_formed(),
    decreases steps.len(),
{
    if steps.len() > 0 {
        lemma_replay_well_formed(t, steps.drop_last());
        replay(t, steps.drop_last()).lemma_apply(steps.last());
    }
}

/// Whatever inserts and detaches come before and after, a key that an
/// insert adds keeps the value it was added with for as long as no later
/// step takes it out of the tree.
pub proof fn lemma_value_from_first_insert<V>(
    t: Tree<V>,
    steps: Seq<Step<V>>,
    i: int,
    key: i64,
    value: V,
)
    requires
        t.well_formed(),
        0 <= i < steps.len(),
        steps[i] == Step::Insert(key, value),
        !replay(t, steps.take(i))@.contains_key(key),
        forall|j: int| i < j <= steps.len() ==> replay(t, steps.take(j))@.contains_key(key),
    ensures
        replay(t, steps)@.contains_key(key),
        replay(t, steps)@[key] == value,
    decreases steps.len(),
{
    let front = steps.drop_last();
    lemma_replay_well_formed(t, front);
    replay(t, front).lemma_apply(steps.last());
    assert(steps.take(steps.len() as int) =~= steps);
    if i == steps.len() - 1 {
        assert(front =~= steps.take(i));
    } else {
        assert forall|j: int| 0 <= j <= front.len() implies front.take(j) == steps.take(j) by {
            assert(front.take(j) =~= steps.take(j));
        }
        assert(front[i] == steps[i]);
        lemma_value_from_first_insert(t, front, i, key, value);
    }
}

/// A binary search tree: empty, or a single root without a parent from
/// which every node is reached.
#[derive(Debug)]
pub struct Tree<V> {
    pub root: Option<Box<Node<V>>>,
}

impl<V> View for Tree<V> {
    type V = Map<i64, V>;

    open spec fn view(&self) -> Map<i64, V> {
        contents(self.root)
    }
}

impl<V> Tree<V> {
    /// The tree's invariant: the root, if any, has no parent and is ordered.
    pub open spec fn well_formed(self) -> bool {
        match self.root {
            Some(r) => r.parent.is_none() && r.ordered(),
            None => true,
        }
    }

    /// The node that a search for `key` from the root stops at.
    pub open spec fn search(self, key: i64) -> Option<Node<V>> {
        lookup(self.root, key)
    }

    /// The tree after inserting `key` with `value`: an empty tree gets a
    /// root without a parent; otherwise the root's subtree gets the new leaf.
    pub open spec fn with_leaf(self, key: i64, value: V) -> Tree<V> {
        match self.root {
            Some(n) => Tree { root: Some(Box::new(n.with_leaf(key, value))) },
            None => Tree { root: Some(Box::new(sprout(key, value, None))) },
        }
    }

    /// The tree after detaching the subtree that holds `key`: a root that
    /// holds it leaves with everything, otherwise one slot below is emptied.
    pub open spec fn without(self, key: i64) -> Tree<V> {
        match self.root {
            Some(n) => if n.key == key {
                Tree { root: None }
            } else {
                Tree { root: Some(Box::new(n.without(key))) }
            },
            None => self,
        }
    }

    /// The tree after one step.
    pub open spec fn apply(self, step: Step<V>) -> Tree<V> {
        match step {
            Step::Insert(key, value) => self.with_leaf(key, value),
            Step::Detach(key) => self.without(key),
        }
    }

    /// A step keeps a tree well-formed. An insert adds its pair unless the
    /// key is held already; a detach keeps part of the pairs, never its key.
    pub proof fn lemma_apply(self, step: Step<V>)
        requires
            self.well_formed(),
        ensures
            self.apply(step).well_formed(),
            step matches Step::Insert(key, value) ==> self.apply(step)@ == inserted(self@, key, value),
            step matches Step::Detach(key) ==> {
                &&& self.apply(step)@.submap_of(self@)
                &&& !self.apply(step)@.contains_key(key)
            },
    {
        match step {
            Step::Insert(key, value) => {
                match self.root {
                    Some(n) => n.lemma_with_leaf(key, value),
                    None => {
                        sprout(key, value, None).lemma_single();
                        assert(inserted(self@, key, value) =~= Map::<i64, V>::empty().insert(key, value));
                    },
                }
            },
            Step::Detach(key) => {
                match self.root {
                    Some(n) => {
                        if n.key != key {
                            n.lemma_without(key);
                        }
                    },
                    None => {},
                }
            },
        }
    }

    /// In a well-formed tree a key is found exactly when it is present, in a
    /// node that holds its value and whose subtree belongs to the tree.
    pub proof fn lemma_search(self, key: i64)
        requires
            self.well_formed(),
        ensures
            self.search(key).is_some() == self@.contains_key(key),
            self.search(key) matches Some(m) ==> {
                &&& m.key == key
                &&& m.value == self@[key]
                &&& m.ordered()
                &&& m.subtree_map().contains_key(key)
                &&& m.subtree_map().submap_of(self@)
            },
    {
        if let Some(r) = self.root {
            r.lemma_search(key);
        }
    }

    /// Detaching the subtree that holds `key` removes `key` and every key
    /// of that subtree, and keeps every other key with its value.
    pub proof fn lemma_detach_then_find(self, key: i64, q: i64)
        requires
            self.well_formed(),
            self@.contains_key(key),
        ensures
            self.search(key) matches Some(sub) && {
                let rest = self@.remove_keys(sub.subtree_map().dom());
                &&& !rest.contains_key(key)
                &&& sub.subtree_map().contains_key(q) ==> !rest.contains_key(q)
                &&& self@.contains_key(q) && !sub.subtree_map().contains_key(q) ==> {
                    rest.contains_key(q) && rest[q] == self@[q]
                }
            },
    {
        self.lemma_search(key);
    }

    /// After `key` is detached, whether it was present or not, the tree no
    /// longer holds it, so inserting it again succeeds.
    pub proof fn lemma_reinsert_after_detach(self, key: i64, value: V)
        requires
            self.well_formed(),
        ensures
            ({
                let rest = if self@.contains_key(key) {
                    self@.remove_keys(self.search(key).unwrap().subtree_map().dom())
                } else {
                    self@
                };
                &&& !rest.contains_key(key)
                &&& inserted(rest, key, value) == rest.insert(key, value)
            }),
    {
        self.lemma_search(key);
    }

    /// An empty tree.
    pub fn new() -> (t: Self)
        ensures
            t.root.is_none(),
            t.well_formed(),
            t@ == Map::<i64, V>::empty(),
    {
        Tree { root: None }
    }

    /// Inserts `key` with `value`. A key that is already present is refused:
    /// the call returns false and leaves the tree exactly as it was.
    /// Otherwise one new leaf is attached and the call returns true.
    pub fn insert(&mut self, key: i64, value: V) -> (r: bool)
        requires
            old(self).well_formed(),
        ensures
            final(self).well_formed(),
            r == !old(self)@.contains_key(key),
            final(self)@ == inserted(old(self)@, key, value),
            !r ==> *final(self) == *old(self),
            *final(self) == old(self).with_leaf(key, value),
    {
        match self.root.take() {
            None => {
                self.root = Some(Box::new(Node::new_root(key, value)));
                true
            },
            Some(mut node) => {
                let r = Self::insert_at(&mut *node, key, value);
                self.root = Some(node);
                r
            },
        }
    }

    fn insert_at(current: &mut Node<V>, key: i64, value: V) -> (r: bool)
        requires
            old(current).ordered(),
        ensures
            final(current).ordered(),
            final(current).key == old(current).key,
            final(current).parent == old(current).parent,
            r == !old(current).subtree_map().contains_key(key),
            r ==> final(current).subtree_map() == old(current).subtree_map().insert(key, value),
            !r ==> *final(current) == *old(current),
            *final(current) == old(current).with_leaf(key, value),
        decreases *old(current),
    {
        let ghost before = *current;
        let ghost l = contents(before.left);
        let ghost g = contents(before.right);
        if key == current.key {
            false
        } else if key < current.key {
            assert(!g.contains_key(key));
            let r = match current.left.take() {
                Some(mut child) => {
                    let r = Self::insert_at(&mut *child, key, value);
                    current.left = Some(child);
                    r
                },
                None => {
                    current.left = Some(Box::new(Node::new_leaf(key, value, current.key)));
                    true
                },
            };
            proof {
                if r {
                    assert(contents(current.left) =~= l.insert(key, value));
                    assert(current.subtree_map() =~= before.subtree_map().insert(key, value));
                }
            }
            r
        } else {
            assert(!l.contains_key(key));
            let r = match current.right.take() {
                Some(mut child) => {
                    let r = Self::insert_at(&mut *child, key, value);
                    current.right = Some(child);
                    r
                },
                None => {
                    current.right = Some(Box::new(Node::new_leaf(key, value, current.key)));
                    true
                },
            };
            proof {
                if r {
                    assert(contents(current.right) =~= g.insert(key, value));
                    assert(current.subtree_map() =~= before.subtree_map().insert(key, value));
                }
            }
            r
        }
    }

    /// Removes the whole subtree whose root holds `key` and hands it over.
    /// The subtree is the node that `find` would return, with everything
    /// under it; the tree loses exactly the keys of that subtree. The
    /// detached node keeps the parent it had. Where `key` is absent the
    /// tree is left as it was.
    pub fn detach(&mut self, key: i64) -> (r: Option<Box<Node<V>>>)
        requires
            old(self).well_formed(),
        ensures
            final(self).well_formed(),
            r.is_some() == old(self)@.contains_key(key),
            *final(self) == old(self).without(key),
            match r {
                Some(b) => {
                    &&& old(self).search(key) == Some(*b)
                    &&& b.key == key
                    &&& b.value == old(self)@[key]
                    &&& b.ordered()
                    &&& b.subtree_map().submap_of(old(self)@)
                    &&& final(self)@ == old(self)@.remove_keys(b.subtree_map().dom())
                },
                None => *final(self) == *old(self),
            },
    {
        proof {
            self.lemma_search(key);
        }
        let at_root = match &self.root {
            Some(node) => node.key == key,
            None => false,
        };
        if at_root {
            let r = self.root.take();
            assert(self@ =~= old(self)@.remove_keys(r.unwrap().subtree_map().dom()));
            r
        } else {
            match self.root.take() {
                None => None,
                Some(mut node) => {
                    let r = Self::detach_at(&mut *node, key);
                    self.root = Some(node);
                    r
                },
            }
        }
    }

    fn detach_at(current: &mut Node<V>, key: i64) -> (r: Option<Box<Node<V>>>)
        requires
            old(current).ordered(),
        ensures
            final(current).ordered(),
            final(current).key == old(current).key,
            final(current).parent == old(current).parent,
            *final(current) == old(current).without(key),
            match r {
                Some(b) => {
                    &&& key != old(current).key
                    &&& old(current).search(key) == Some(*b)
                    &&& final(current).subtree_map() == old(current).subtree_map().remove_keys(
                        b.subtree_map().dom(),
                    )
                },
                None => {
                    &&& key == old(current).key || old(current).search(key).is_none()
                    &&& *final(current) == *old(current)
                },
            },
        decreases *old(current),
    {
        let ghost before = *current;
        let left_hit = match &current.left {
            Some(child) => child.key == key,
            None => false,
        };
        let right_hit = match &current.right {
            Some(child) => child.key == key,
            None => false,
        };
        if left_hit {
            let r = current.left.take();
            proof {
                let c = before.left.unwrap();
                assert(contents(before.left).contains_key(c.key));
                assert(key < before.key);
                assert(c.search(key) == Some(*c));
                assert(before.search(key) == Some(*c));
                assert(contents(current.left) == Map::<i64, V>::empty());
                assert(contents(before.left).remove_keys(c.subtree_map().dom()) =~= Map::<i64, V>::empty());
                Node::lemma_trim_left(before, *current, c.subtree_map().dom());
            }
            r
        } else if right_hit {
            let r = current.right.take();
            proof {
                let c = before.right.unwrap();
                assert(contents(before.right).contains_key(c.key));
                assert(key > before.key);
                assert(c.search(key) == Some(*c));
                assert(before.search(key) == Some(*c));
                assert(contents(current.right) == Map::<i64, V>::empty());
                assert(contents(before.right).remove_keys(c.subtree_map().dom()) =~= Map::<i64, V>::empty());
                Node::lemma_trim_right(before, *current, c.subtree_map().dom());
            }
            r
        } else if current.key >= key {
            match current.left.take() {
                Some(mut child) => {
                    let r = Self::detach_at(&mut *child, key);
                    current.left = Some(child);
                    proof {
                        before.left.unwrap().lemma_search(key);
                        if r.is_some() {
                            assert(contents(before.left).contains_key(key));
                            assert(key < before.key);
                            Node::lemma_trim_left(before, *current, r.unwrap().subtree_map().dom());
                        }
                    }
                    r
                },
                None => None,
            }
        } else {
            match current.right.take() {
                Some(mut child) => {
                    let r = Self::detach_at(&mut *child, key);
                    current.right = Some(child);
                    proof {
                        before.right.unwrap().lemma_search(key);
                        if r.is_some() {
                            assert(contents(before.right).contains_key(key));
                            assert(key > before.key);
                            Node::lemma_trim_right(before, *current, r.unwrap().subtree_map().dom());
                        }
                    }
                    r
                },
                None => None,
            }
        }
    }

    /// Finds the node that holds `key`, if the tree has one.
    pub fn find(&self, key: i64) -> (r: Option<&Node<V>>)
        requires
            self.well_formed(),
        ensures
            r.is_some() == self@.contains_key(key),
            match r {
                Some(m) => self.search(key) == Some(*m) && m.key == key && m.value == self@[key],
                None => self.search(key).is_none(),
            },
    {
        proof {
            self.lemma_search(key);
        }
        match &self.root {
            None => None,
            Some(node) => Self::find_at(node, key),
        }
    }

    fn find_at(current: &Node<V>, key: i64) -> (r: Option<&Node<V>>)
        requires
            current.ordered(),
        ensures
            match r {
                Some(m) => current.search(key) == Some(*m),
                None => current.search(key).is_none(),
            },
        decreases current,
    {
        if current.key == key {
            Some(current)
        } else if current.key >= key {
            match &current.left {
                Some(l) => Self::find_at(l, key),
                None => None,
            }
        } else {
            match &current.right {
                Some(r) => Self::find_at(r, key),
                None => None,
            }
        }
    }
}

} // verus!

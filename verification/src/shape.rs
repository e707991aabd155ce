//! Shapes: which instance variables an object holds, and where.
//!
//! A shape is a node in a tree. Its path from the root is the list of names an
//! object of that shape has acquired, in order, and a name's place in the list
//! is the slot it lives in. Objects that acquire the same names in the same
//! order share a shape.

use std::collections::HashMap;

use vstd::prelude::*;

use crate::value::SymbolId;

verus! {

broadcast use vstd::std_specs::hash::group_hash_axioms;

/// A node of the tree.
#[derive(Debug, Clone, Copy, PartialEq, Eq, Structural, Hash, PartialOrd, Ord)]
pub struct ShapeId(pub u16);

impl ShapeId {
    /// What an object that cannot hold instance variables has.
    #[verifier::allow_in_spec]
    pub fn none() -> ShapeId
        returns
            ShapeId(0),
    {
        ShapeId(0)
    }

    /// The shape of an object that holds none yet.
    #[verifier::allow_in_spec]
    pub fn root() -> ShapeId
        returns
            ShapeId(1),
    {
        ShapeId(1)
    }

    /// The position in the table.
    pub fn index(self) -> (r: usize)
        ensures
            r == self.0,
    {
        self.0 as usize
    }
}

struct Shape {
    parent: u16,
    /// The name this shape adds to its parent's.
    name: SymbolId,
    /// Where that name lives.
    index: u16,
    /// How many names the whole path holds.
    count: u16,
    /// The shape each further name leads to.
    children: HashMap<u32, u16>,
}

/// The tree.
pub struct Shapes {
    nodes: Vec<Shape>,
}

impl Shapes {
    /// The names on the path to a shape, in the order they were acquired.
    pub closed spec fn path(&self, shape: int) -> Seq<SymbolId>
        decreases shape,
    {
        if shape < 2 || self.nodes@[shape].parent >= shape {
            Seq::empty()
        } else {
            self.path(self.nodes@[shape].parent as int).push(self.nodes@[shape].name)
        }
    }

    /// How many shapes there are.
    pub closed spec fn size(&self) -> nat {
        self.nodes@.len()
    }

    /// The shape `name` leads to from `shape`, where there is one.
    pub closed spec fn child(&self, shape: int, name: SymbolId) -> Option<ShapeId> {
        if self.nodes@[shape].children@.contains_key(name.0) {
            Some(ShapeId(self.nodes@[shape].children@[name.0]))
        } else {
            None
        }
    }

    spec fn node_wf(&self, i: int) -> bool {
        let node = self.nodes@[i];
        &&& i < 2 ==> node.count == 0
        &&& i >= 2 ==> {
            let parent = self.nodes@[node.parent as int];
            &&& 1 <= node.parent < i
            &&& node.index == parent.count
            &&& node.count == node.index + 1
            &&& parent.children@.contains_key(node.name.0)
            &&& parent.children@[node.name.0] == i
        }
        &&& forall|n: u32| #[trigger]
            node.children@.contains_key(n) ==> {
                let c = node.children@[n] as int;
                &&& 2 <= c < self.nodes@.len()
                &&& self.nodes@[c].parent == i
                &&& self.nodes@[c].name == SymbolId(n)
            }
    }

    /// A sentinel and a root come first; every other shape adds one name to an
    /// earlier one, which leads back to it by that name and no other.
    pub closed spec fn wf(&self) -> bool {
        &&& 2 <= self.nodes@.len() <= 0x1_0000
        &&& forall|i: int| 0 <= i < self.nodes@.len() ==> #[trigger] self.node_wf(i)
    }

    /// Whether `shape` is one of this tree's.
    pub open spec fn has(&self, shape: ShapeId) -> bool {
        shape.0 < self.size()
    }

    proof fn lemma_count(&self, shape: int)
        requires
            self.wf(),
            0 <= shape < self.nodes@.len(),
        ensures
            self.path(shape).len() == self.nodes@[shape].count,
        decreases shape,
    {
        assert(self.node_wf(shape));
        if shape >= 2 {
            self.lemma_count(self.nodes@[shape].parent as int);
        }
    }

    /// A path holds fewer names than there are shapes before it, so a tree is
    /// full before a path is.
    pub proof fn law_a_path_is_shorter_than_the_tree(&self, shape: ShapeId)
        requires
            self.wf(),
            self.has(shape),
        ensures
            self.path(shape.0 as int).len() + 1 < self.size(),
            shape.0 > 0 ==> self.path(shape.0 as int).len() + 1 <= shape.0,
        decreases shape.0,
    {
        assert(self.node_wf(shape.0 as int));
        if shape.0 >= 2 {
            self.law_a_path_is_shorter_than_the_tree(ShapeId(self.nodes@[shape.0 as int].parent));
        }
    }

    /// The sentinel and the root hold no name, in any tree.
    pub proof fn law_the_first_shapes_hold_no_name(&self)
        ensures
            self.path(ShapeId::none().0 as int) == Seq::<SymbolId>::empty(),
            self.path(ShapeId::root().0 as int) == Seq::<SymbolId>::empty(),
    {
    }

    proof fn lemma_same_path(&self, other: &Shapes, shape: int)
        requires
            self.wf(),
            other.wf(),
            0 <= shape < self.nodes@.len() <= other.nodes@.len(),
            forall|i: int|
                0 <= i < self.nodes@.len() ==> (#[trigger] self.nodes@[i]).parent
                    == other.nodes@[i].parent && self.nodes@[i].name == other.nodes@[i].name,
        ensures
            self.path(shape) == other.path(shape),
        decreases shape,
    {
        assert(self.node_wf(shape));
        if shape >= 2 {
            self.lemma_same_path(other, self.nodes@[shape].parent as int);
        }
    }

    /// The same names in the same order are the same shape.
    pub proof fn law_a_path_names_one_shape(&self, one: ShapeId, other: ShapeId)
        requires
            self.wf(),
            self.has(one),
            self.has(other),
            one != ShapeId::none(),
            other != ShapeId::none(),
            self.path(one.0 as int) == self.path(other.0 as int),
        ensures
            one == other,
        decreases one.0,
    {
        let a = one.0 as int;
        let b = other.0 as int;
        self.lemma_count(a);
        self.lemma_count(b);
        assert(self.node_wf(a));
        assert(self.node_wf(b));
        if a >= 2 && b >= 2 {
            let pa = self.nodes@[a].parent;
            let pb = self.nodes@[b].parent;
            let path_a = self.path(a);
            let path_b = self.path(b);
            assert(path_a.drop_last() =~= self.path(pa as int));
            assert(path_b.drop_last() =~= self.path(pb as int));
            assert(path_a.last() == path_b.last());
            self.law_a_path_names_one_shape(ShapeId(pa), ShapeId(pb));
        }
    }

    /// A child's path is its parent's with the name that leads to it.
    pub proof fn law_child_path(&self, shape: ShapeId, name: SymbolId)
        requires
            self.wf(),
            self.has(shape),
            self.child(shape.0 as int, name) is Some,
        ensures
            ({
                let child = self.child(shape.0 as int, name)->0;
                &&& self.has(child)
                &&& self.path(child.0 as int) == self.path(shape.0 as int).push(name)
            }),
    {
        assert(self.node_wf(shape.0 as int));
        let child = self.child(shape.0 as int, name)->0;
        assert(self.node_wf(child.0 as int));
    }

    /// A tree of a sentinel and a root.
    pub fn new() -> (r: Shapes)
        ensures
            r.wf(),
            r.size() == 2,
            r.path(0) == Seq::<SymbolId>::empty(),
            r.path(1) == Seq::<SymbolId>::empty(),
            forall|name: SymbolId| (#[trigger] r.child(0, name)) is None,
            forall|name: SymbolId| (#[trigger] r.child(1, name)) is None,
    {
        let mut nodes: Vec<Shape> = Vec::new();
        nodes.push(
            Shape { parent: 0, name: SymbolId(0), index: 0, count: 0, children: HashMap::new() },
        );
        nodes.push(
            Shape { parent: 1, name: SymbolId(0), index: 0, count: 0, children: HashMap::new() },
        );
        Shapes { nodes }
    }

    /// How many shapes there are, the sentinel included.
    pub fn len(&self) -> (r: usize)
        ensures
            r == self.size(),
    {
        self.nodes.len()
    }

    /// Never: a tree is born with its root.
    pub fn is_empty(&self) -> (r: bool)
        ensures
            !r,
    {
        false
    }

    /// How many names an object of this shape holds.
    pub fn count(&self, shape: ShapeId) -> (r: u16)
        requires
            self.wf(),
            self.has(shape),
        ensures
            r == self.path(shape.0 as int).len(),
    {
        proof {
            self.lemma_count(shape.0 as int);
        }
        self.nodes[shape.0 as usize].count
    }

    /// Where `name` lives in an object of this shape: the last place it was
    /// acquired at, or `None` when it never was.
    pub fn index_of(&self, shape: ShapeId, name: SymbolId) -> (r: Option<u16>)
        requires
            self.wf(),
            self.has(shape),
        ensures
            ({
                let path = self.path(shape.0 as int);
                match r {
                    Some(i) => {
                        &&& i < path.len()
                        &&& path[i as int] == name
                        &&& forall|j: int| i < j < path.len() ==> path[j] != name
                    },
                    None => !path.contains(name),
                }
            }),
    {
        let ghost whole = self.path(shape.0 as int);
        let mut at: u16 = shape.0;
        proof {
            self.lemma_count(at as int);
        }
        while at >= 2
            invariant
                self.wf(),
                at < self.nodes@.len(),
                whole == self.path(shape.0 as int),
                self.path(at as int).len() <= whole.len(),
                whole.subrange(0, self.path(at as int).len() as int) =~= self.path(at as int),
                forall|j: int| self.path(at as int).len() <= j < whole.len() ==> whole[j] != name,
            decreases at,
        {
            assert(self.node_wf(at as int));
            let node = &self.nodes[at as usize];
            let ghost here = self.path(at as int);
            let ghost above = self.path(node.parent as int);
            proof {
                self.lemma_count(at as int);
                self.lemma_count(node.parent as int);
                assert(here == above.push(node.name));
                assert(whole[node.index as int] == here[node.index as int]) by {
                    assert(whole.subrange(0, here.len() as int)[node.index as int]
                        == here[node.index as int]);
                }
                assert(whole.subrange(0, above.len() as int) =~= above) by {
                    assert forall|j: int| 0 <= j < above.len() implies whole[j] == above[j] by {
                        assert(whole.subrange(0, here.len() as int)[j] == here[j]);
                    }
                }
            }
            if node.name.0 == name.0 {
                return Some(node.index);
            }
            at = node.parent;
        }
        proof {
            self.lemma_count(at as int);
            assert(self.node_wf(at as int));
        }
        None
    }

    /// The shape an object moves to when it acquires `name`, and where the
    /// name lives. Made on the first ask and the same from then on; `None`
    /// when it does not exist and the tree is full.
    pub fn transition(&mut self, shape: ShapeId, name: SymbolId) -> (r: Option<(ShapeId, u16)>)
        requires
            old(self).wf(),
            old(self).has(shape),
            shape != ShapeId::none(),
        ensures
            final(self).wf(),
            r is None <==> {
                &&& old(self).child(shape.0 as int, name) is None
                &&& old(self).size() == 0x1_0000
            },
            r is None || old(self).child(shape.0 as int, name) is Some ==> *final(self) == *old(self),
            r is Some ==> {
                let (child, index) = r->0;
                &&& final(self).has(child)
                &&& final(self).child(shape.0 as int, name) == Some(child)
                &&& final(self).path(child.0 as int) == old(self).path(shape.0 as int).push(name)
                &&& index == old(self).path(shape.0 as int).len()
                &&& old(self).child(shape.0 as int, name) is None ==> child.0 == old(self).size()
                    && final(self).size() == old(self).size() + 1
            },
            forall|s: int|
                0 <= s < old(self).size() ==> #[trigger] final(self).path(s) == old(self).path(s),
            forall|s: int, n: SymbolId|
                0 <= s < old(self).size() && !(s == shape.0 && n == name)
                    ==> #[trigger] final(self).child(s, n) == old(self).child(s, n),
    {
        proof {
            assert(self.node_wf(shape.0 as int));
            self.lemma_count(shape.0 as int);
            self.law_a_path_is_shorter_than_the_tree(shape);
        }
        if let Some(child) = self.nodes[shape.0 as usize].children.get(&name.0) {
            let child: u16 = *child;
            proof {
                assert(self.node_wf(child as int));
                self.law_child_path(shape, name);
            }
            return Some((ShapeId(child), self.nodes[child as usize].index));
        }
        let index: u16 = self.nodes[shape.0 as usize].count;
        if self.nodes.len() > 0xffff {
            return None;
        }
        let id: u16 = self.nodes.len() as u16;
        let ghost before = self.nodes@;
        self.nodes.push(
            Shape { parent: shape.0, name, index, count: index + 1, children: HashMap::new() },
        );
        self.nodes[shape.0 as usize].children.insert(name.0, id);
        proof {
            assert forall|i: int| 0 <= i < self.nodes@.len() implies #[trigger] self.node_wf(i) by {
                if i < before.len() {
                    assert(old(self).node_wf(i));
                }
                let node = self.nodes@[i];
                assert forall|n: u32| #[trigger] node.children@.contains_key(n) implies {
                    let c = node.children@[n] as int;
                    &&& 2 <= c < self.nodes@.len()
                    &&& self.nodes@[c].parent == i
                    &&& self.nodes@[c].name == SymbolId(n)
                } by {
                    if i == shape.0 && n == name.0 {
                    } else if i < before.len() {
                        assert(before[i].children@.contains_key(n));
                    }
                }
            }
            assert forall|s: int| 0 <= s < old(self).size() implies #[trigger] self.path(s)
                == old(self).path(s) by {
                old(self).lemma_same_path(&*self, s);
            }
            assert(self.path(shape.0 as int) == old(self).path(shape.0 as int));
            assert(self.path(id as int) == self.path(shape.0 as int).push(name));
        }
        Some((ShapeId(id), index))
    }

    /// Every name an object of this shape holds, in the order it acquired
    /// them.
    pub fn names(&self, shape: ShapeId) -> (r: Vec<SymbolId>)
        requires
            self.wf(),
            self.has(shape),
        ensures
            r@ == self.path(shape.0 as int),
    {
        let ghost whole = self.path(shape.0 as int);
        let count: u16 = self.count(shape);
        let mut names: Vec<SymbolId> = Vec::new();
        let mut filled: u16 = 0;
        while filled < count
            invariant
                filled <= count,
                names@.len() == filled,
            decreases count - filled,
        {
            names.push(SymbolId(0));
            filled += 1;
        }
        let mut at: u16 = shape.0;
        while at >= 2
            invariant
                self.wf(),
                at < self.nodes@.len(),
                names@.len() == whole.len(),
                self.path(at as int).len() <= whole.len(),
                forall|j: int|
                    0 <= j < self.path(at as int).len() ==> whole[j] == self.path(at as int)[j],
                forall|j: int| self.path(at as int).len() <= j < whole.len() ==> names@[j] == whole[j],
            decreases at,
        {
            assert(self.node_wf(at as int));
            let node = &self.nodes[at as usize];
            proof {
                self.lemma_count(at as int);
                self.lemma_count(node.parent as int);
            }
            names[node.index as usize] = node.name;
            at = node.parent;
        }
        proof {
            self.lemma_count(at as int);
            assert(self.node_wf(at as int));
        }
        names
    }
}

impl Default for Shapes {
    fn default() -> (r: Shapes)
        ensures
            r.wf(),
            r.size() == 2,
            r.path(0) == Seq::<SymbolId>::empty(),
            r.path(1) == Seq::<SymbolId>::empty(),
            forall|name: SymbolId| (#[trigger] r.child(0, name)) is None,
            forall|name: SymbolId| (#[trigger] r.child(1, name)) is None,
    {
        Shapes::new()
    }
}

} // verus!

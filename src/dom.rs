//! The instance tree that is encoded.
use vstd::prelude::*;
use crate::shared_strings::MAX_SHARED_STRING_LEN;
use crate::variant::Variant;

verus! {

/// One node of the tree.
#[derive(Debug)]
pub struct Instance {
    pub class: String,
    pub name: String,
    /// Stored properties, by name; the order carries no meaning.
    pub properties: Vec<(String, Variant)>,
    /// Handles of the children, in their stored order.
    pub children: Vec<usize>,
}

/// A tree of instances addressed by handles. A node's handle is its
/// position; a child always comes after its parent.
#[derive(Debug)]
pub struct WeakDom {
    pub instances: Vec<Instance>,
}

/// No two stored properties share a name.
pub open spec fn distinct_names(props: Seq<(String, Variant)>) -> bool {
    forall|i: int, j: int|
        0 <= i < props.len() && 0 <= j < props.len() && i != j ==> props[i].0@ != props[j].0@
}

impl WeakDom {
    /// Every child handle names a node that comes after its parent, and no
    /// node stores two properties of the same name.
    pub open spec fn wf(&self) -> bool {
        &&& forall|i: int, k: int|
            0 <= i < self.instances@.len() && 0 <= k < self.instances@[i].children@.len()
                ==> i < #[trigger] self.instances@[i].children@[k] < self.instances@.len()
        &&& forall|i: int| 0 <= i < self.instances@.len() ==> distinct_names(
            #[trigger] self.instances@[i].properties@,
        )
    }

    /// Every shared payload stored in the tree has a length whose base64
    /// text length fits in `usize`.
    pub open spec fn shared_strings_bounded(&self) -> bool {
        forall|i: int, k: int|
            0 <= i < self.instances@.len() && 0 <= k < self.instances@[i].properties@.len()
                ==> match #[trigger] self.instances@[i].properties@[k].1 {
                Variant::SharedString(d) => d@.len() <= MAX_SHARED_STRING_LEN,
                _ => true,
            }
    }

    /// An empty tree.
    pub fn new() -> (r: WeakDom)
        ensures
            r.wf(),
            r.instances@.len() == 0,
    {
        WeakDom { instances: Vec::new() }
    }

    /// The number of nodes.
    pub fn len(&self) -> (r: usize)
        ensures
            r == self.instances@.len(),
    {
        self.instances.len()
    }

    /// Adds a node under `parent` (or at the top where `parent` is `None`)
    /// and returns its handle.
    pub fn insert(
        &mut self,
        parent: Option<usize>,
        class: String,
        name: String,
        properties: Vec<(String, Variant)>,
    ) -> (r: usize)
        requires
            old(self).wf(),
            parent matches Some(p) ==> p < old(self).instances@.len(),
            distinct_names(properties@),
        ensures
            final(self).wf(),
            r == old(self).instances@.len(),
            final(self).instances@.len() == r + 1,
            final(self).instances@[r as int].class == class,
            final(self).instances@[r as int].name == name,
            final(self).instances@[r as int].properties == properties,
            final(self).instances@[r as int].children@.len() == 0,
            forall|i: int|
                0 <= i < r && parent != Some(i as usize) ==> final(self).instances@[i]
                    == old(self).instances@[i],
            parent matches Some(p) ==> final(self).instances@[p as int].children@
                == old(self).instances@[p as int].children@.push(r),
    {
        let r = self.instances.len();
        self.instances.push(Instance { class, name, properties, children: Vec::new() });
        match parent {
            Some(p) => {
                self.instances[p].children.push(r);
            },
            None => {},
        }
        r
    }
}

} // verus!

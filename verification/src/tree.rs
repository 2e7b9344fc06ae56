use crate::symbol::lemma_filter_has;
use vstd::prelude::*;
use vstd::std_specs::cmp::PartialEqSpecImpl;

verus! {

/// The error of a tree operation: a handle that does not name a live node, identified by
/// the name of the argument that held it.
#[derive(Debug)]
pub enum TreeError {
    InvalidReferenceError(String),
}

/// A handle on a node of a `Tree`: the node's slot and the generation the slot had when
/// the handle was made.
#[derive(Hash)]
pub struct NodeRef<T> {
    index: usize,
    id: usize,
    marker: std::marker::PhantomData<T>,
}

impl<T> Clone for NodeRef<T> {
    fn clone(&self) -> (r: Self)
        ensures
            r == *self,
    {
        *self
    }
}

impl<T> Copy for NodeRef<T> {}

/// Handle comparison: two handles are equal when they name the same slot at the same
/// generation.
pub open spec fn ref_eq<T>(a: NodeRef<T>, b: NodeRef<T>) -> bool {
    a.index() == b.index() && a.id() == b.id()
}

impl<T> PartialEq for NodeRef<T> {
    fn eq(&self, other: &Self) -> (r: bool) {
        self.index == other.index && self.id == other.id
    }
}

impl<T> Eq for NodeRef<T> {}

impl<T> PartialEqSpecImpl for NodeRef<T> {
    open spec fn obeys_eq_spec() -> bool {
        true
    }

    open spec fn eq_spec(&self, other: &Self) -> bool {
        ref_eq(*self, *other)
    }
}

impl<T> NodeRef<T> {
    /// The slot the handle points at.
    pub closed spec fn index(&self) -> usize {
        self.index
    }

    /// The generation the handle expects in its slot.
    pub closed spec fn id(&self) -> usize {
        self.id
    }

    /// The handle on slot `index` at generation `id`.
    pub closed spec fn at(index: usize, id: usize) -> NodeRef<T> {
        NodeRef { index, id, marker: std::marker::PhantomData }
    }

    /// A handle made from a slot and a generation gives them back.
    pub proof fn lemma_at(index: usize, id: usize)
        ensures
            #[trigger] NodeRef::<T>::at(index, id).index() == index,
            NodeRef::<T>::at(index, id).id() == id,
    {
    }

    /// Two handles are the same value when their slots and generations agree.
    pub proof fn lemma_eq(a: NodeRef<T>, b: NodeRef<T>)
        ensures
            (a == b) == (a.index() == b.index() && a.id() == b.id()),
    {
    }

    /// A handle is the handle on its own slot and generation.
    pub proof fn lemma_at_of(r: NodeRef<T>)
        ensures
            NodeRef::<T>::at(r.index(), r.id()) == r,
    {
    }

    /// The handle on slot `index` at generation `id`.
    pub fn new(index: usize, id: usize) -> (r: Self)
        ensures
            r == NodeRef::<T>::at(index, id),
    {
        NodeRef { index, id, marker: std::marker::PhantomData }
    }
}

/// What a tree slot holds, as a mathematical value.
pub ghost struct NodeView<T> {
    pub node: T,
    pub id: usize,
    pub free: bool,
    pub parent: Option<NodeRef<T>>,
    pub children: Seq<NodeRef<T>>,
}

/// A tree as a mathematical value: its slots and its stack of free slot indices.
pub ghost struct TreeView<T> {
    pub nodes: Seq<NodeView<T>>,
    pub free_indices: Seq<usize>,
}

/// A slot of a `Tree`: a value, the slot's generation, whether it is free, the recorded
/// parent and the children.
pub struct TreeNode<T> {
    node: T,
    id: usize,
    free: bool,
    parent: Option<NodeRef<T>>,
    children: Vec<NodeRef<T>>,
}

impl<T> View for TreeNode<T> {
    type V = NodeView<T>;

    closed spec fn view(&self) -> NodeView<T> {
        NodeView {
            node: self.node,
            id: self.id,
            free: self.free,
            parent: self.parent,
            children: self.children@,
        }
    }
}

/// A tree kept in a vector of slots; freed slots are reused, each time with the next
/// generation, so that handles on the earlier node no longer resolve.
pub struct Tree<T> {
    nodes: Vec<TreeNode<T>>,
    free_indices: Vec<usize>,
}

impl<T> View for Tree<T> {
    type V = TreeView<T>;

    closed spec fn view(&self) -> TreeView<T> {
        TreeView { nodes: view_nodes(self.nodes@), free_indices: self.free_indices@ }
    }
}

spec fn view_nodes<T>(s: Seq<TreeNode<T>>) -> Seq<NodeView<T>> {
    s.map_values(|n: TreeNode<T>| n@)
}

/// The characters of `n` written in decimal.
pub open spec fn decimal(n: nat) -> Seq<char>
    decreases n,
{
    if n < 10 {
        seq![digit_char(n)]
    } else {
        decimal(n / 10).push(digit_char(n % 10))
    }
}

/// The decimal digit for `d`, below 10.
pub open spec fn digit_char(d: nat) -> char {
    if d == 0 {
        '0'
    } else if d == 1 {
        '1'
    } else if d == 2 {
        '2'
    } else if d == 3 {
        '3'
    } else if d == 4 {
        '4'
    } else if d == 5 {
        '5'
    } else if d == 6 {
        '6'
    } else if d == 7 {
        '7'
    } else if d == 8 {
        '8'
    } else {
        '9'
    }
}

/// The message naming position `i` of the list of children handed to `add_node_as_parent`.
pub open spec fn children_ref_message(i: nat) -> Seq<char> {
    "children_ref["@ + decimal(i) + "]"@
}

impl<T> TreeView<T> {
    /// `r` names a live node: its slot exists, holds `r`'s generation and is not free.
    pub open spec fn valid(self, r: NodeRef<T>) -> bool {
        &&& r.index() < self.nodes.len()
        &&& self.nodes[r.index() as int].id == r.id()
        &&& !self.nodes[r.index() as int].free
    }

    /// Well formed: the free stack is in order and the parent and children fields agree.
    pub open spec fn wf(self) -> bool {
        self.slots_ok() && self.linked()
    }

    /// The handle on the node in slot `i` at the slot's current generation.
    pub open spec fn handle(self, i: int) -> NodeRef<T> {
        NodeRef::at(i as usize, self.nodes[i].id)
    }

    /// Slot `i` holds a live node.
    pub open spec fn live(self, i: int) -> bool {
        0 <= i < self.nodes.len() && !self.nodes[i].free
    }

    /// The parent and children fields agree: a live node lists each child once; each listed
    /// child is live and records that node as its parent; a live node's recorded parent is
    /// live and lists it.
    pub open spec fn linked(self) -> bool {
        &&& forall|i: int| #[trigger] self.live(i) ==> self.nodes[i].children.no_duplicates()
        &&& forall|i: int|
            #[trigger] self.live(i) && self.nodes[i].parent is Some ==> self.valid(self.nodes[i].parent->0)
                && self.nodes[(self.nodes[i].parent->0).index() as int].children.contains(self.handle(i))
        &&& forall|i: int, k: int|
            self.live(i) && 0 <= k < self.nodes[i].children.len() ==> self.valid(
                #[trigger] self.nodes[i].children[k],
            ) && self.nodes[self.nodes[i].children[k].index() as int].parent == Some(self.handle(i))
    }

    /// The free stack lists exactly the free slots, each once.
    pub open spec fn slots_ok(self) -> bool {
        &&& self.nodes.len() <= usize::MAX
        &&& forall|k: int|
            0 <= k < self.free_indices.len() ==> (#[trigger] self.free_indices[k])
                < self.nodes.len() && self.nodes[self.free_indices[k] as int].free
        &&& self.free_indices.no_duplicates()
        &&& forall|i: int|
            0 <= i < self.nodes.len() && (#[trigger] self.nodes[i]).free ==> self.free_indices.contains(
                i as usize,
            )
    }

    /// A new node can be placed: reusing the top free slot will not overflow its generation.
    pub open spec fn can_alloc(self) -> bool {
        if self.free_indices.len() > 0 {
            self.nodes[self.free_indices.last() as int].id < usize::MAX
        } else {
            self.nodes.len() < usize::MAX
        }
    }

    /// A live slot holding `node` at generation `id`, with no parent and no children.
    pub open spec fn fresh(node: T, id: usize) -> NodeView<T> {
        NodeView { node, id, free: false, parent: None, children: Seq::empty() }
    }

    /// Places `node`: in the most recently freed slot with the next generation, else in a new
    /// slot at the end with generation 0.
    pub open spec fn place(self, node: T) -> (TreeView<T>, NodeRef<T>) {
        if self.free_indices.len() > 0 {
            let index = self.free_indices.last();
            let id = (self.nodes[index as int].id + 1) as usize;
            (
                TreeView {
                    nodes: self.nodes.update(index as int, Self::fresh(node, id)),
                    free_indices: self.free_indices.drop_last(),
                },
                NodeRef::at(index, id),
            )
        } else {
            (
                TreeView { nodes: self.nodes.push(Self::fresh(node, 0)), free_indices: self.free_indices },
                NodeRef::at(self.nodes.len() as usize, 0),
            )
        }
    }

    /// Frees slot `index` when it holds a live node with no parent and no children.
    pub open spec fn dealloc(self, index: usize) -> TreeView<T> {
        if index < self.nodes.len() && self.nodes[index as int].parent is None
            && self.nodes[index as int].children.len() == 0 && !self.nodes[index as int].free {
            let n = self.nodes[index as int];
            TreeView {
                nodes: self.nodes.update(
                    index as int,
                    NodeView { node: n.node, id: n.id, free: true, parent: n.parent, children: n.children },
                ),
                free_indices: self.free_indices.push(index),
            }
        } else {
            self
        }
    }

    /// The node in slot `index` with `children` as its children.
    pub open spec fn with_children(self, index: usize, children: Seq<NodeRef<T>>) -> TreeView<T> {
        let n = self.nodes[index as int];
        TreeView {
            nodes: self.nodes.update(
                index as int,
                NodeView { node: n.node, id: n.id, free: n.free, parent: n.parent, children },
            ),
            free_indices: self.free_indices,
        }
    }

    /// The node in slot `index` with `parent` as its parent.
    pub open spec fn with_parent(self, index: usize, parent: Option<NodeRef<T>>) -> TreeView<T> {
        let n = self.nodes[index as int];
        TreeView {
            nodes: self.nodes.update(
                index as int,
                NodeView { node: n.node, id: n.id, free: n.free, parent, children: n.children },
            ),
            free_indices: self.free_indices,
        }
    }

    /// Holds of the handles that do not compare equal to `child`.
    pub open spec fn not_ref_eq(child: NodeRef<T>) -> spec_fn(NodeRef<T>) -> bool {
        |c: NodeRef<T>| !ref_eq(c, child)
    }

    /// The recorded parent of `child`, when it is live.
    pub open spec fn live_parent(self, child: NodeRef<T>) -> Option<NodeRef<T>> {
        match self.nodes[child.index() as int].parent {
            Some(p) => if self.valid(p) {
                Some(p)
            } else {
                None
            },
            None => None,
        }
    }

    /// Takes `child` out of the children of its recorded parent, when that parent is live.
    pub open spec fn unhook(self, child: NodeRef<T>) -> TreeView<T> {
        match self.live_parent(child) {
            Some(p) => self.with_children(
                p.index(),
                self.nodes[p.index() as int].children.filter(Self::not_ref_eq(child)),
            ),
            None => self,
        }
    }

    /// Frees the slot of the handle `h` holds, if it holds one, when that slot is orphaned.
    pub open spec fn dealloc_opt(self, h: Option<NodeRef<T>>) -> TreeView<T> {
        match h {
            Some(q) => self.dealloc(q.index()),
            None => self,
        }
    }

    /// Takes `child` out of the children of its recorded parent, when that parent is live,
    /// and frees the parent if it is left with no parent and no children.
    pub open spec fn detach(self, child: NodeRef<T>) -> TreeView<T> {
        self.unhook(child).dealloc_opt(self.live_parent(child))
    }

    /// What a successful `add_child(parent, child)` leaves: `child` taken out of the children
    /// of its former parent, its parent field set to `Some(parent)`, `child` appended to
    /// `parent`'s children, and then the former parent freed if it is left with no parent and
    /// no children.
    pub open spec fn link(self, parent: NodeRef<T>, child: NodeRef<T>) -> TreeView<T> {
        let v1 = self.unhook(child).with_parent(child.index(), Some(parent));
        v1.with_children(parent.index(), v1.nodes[parent.index() as int].children.push(child)).dealloc_opt(
            self.live_parent(child),
        )
    }

    /// What a successful `remove_child(child)` leaves: `child` detached from its former
    /// parent, its parent field cleared, and its slot freed if it has no children.
    pub open spec fn unlink(self, child: NodeRef<T>) -> TreeView<T> {
        self.detach(child).with_parent(child.index(), None).dealloc(child.index())
    }

    /// Links the children in order under `parent`, stopping at the first one that is not live;
    /// gives the resulting tree and the position of that child, if any.
    pub open spec fn adopt(self, parent: NodeRef<T>, children: Seq<NodeRef<T>>) -> (
        TreeView<T>,
        Option<nat>,
    )
        decreases children.len(),
    {
        if children.len() == 0 {
            (self, None)
        } else {
            let (v, err) = self.adopt(parent, children.drop_last());
            if err is Some {
                (v, err)
            } else if v.valid(children.last()) {
                (v.link(parent, children.last()), None)
            } else {
                (v, Some((children.len() - 1) as nat))
            }
        }
    }
}

/// `r` is an error carrying the message `msg`.
pub open spec fn is_error<A>(r: Result<A, TreeError>, msg: Seq<char>) -> bool {
    match r {
        Err(TreeError::InvalidReferenceError(m)) => m@ == msg,
        Ok(_) => false,
    }
}

impl<T> TreeView<T> {
    /// The slot `index` holding `node` in place of its value.
    pub open spec fn with_node(self, index: usize, node: T) -> TreeView<T> {
        let n = self.nodes[index as int];
        TreeView {
            nodes: self.nodes.update(
                index as int,
                NodeView { node, id: n.id, free: n.free, parent: n.parent, children: n.children },
            ),
            free_indices: self.free_indices,
        }
    }
}

/// Placing a node keeps the parent and children fields in agreement.
proof fn lemma_place_linked<T>(v: TreeView<T>, node: T)
    requires
        v.wf(),
        v.can_alloc(),
    ensures
        v.place(node).0.linked(),
{
    let (w, r) = v.place(node);
    let idx: int = if v.free_indices.len() > 0 {
        v.free_indices.last() as int
    } else {
        v.nodes.len() as int
    };
    if v.free_indices.len() > 0 {
        assert(v.nodes[idx].free);
    }
    assert(w.nodes[idx].parent is None && w.nodes[idx].children.len() == 0);
    assert forall|i: int| 0 <= i < w.nodes.len() && i != idx implies #[trigger] w.nodes[i] == v.nodes[i] by {}
    assert forall|h: NodeRef<T>| #[trigger] v.valid(h) implies w.valid(h) && h.index() != idx by {}
    assert forall|i: int| #[trigger] w.live(i) implies w.nodes[i].children.no_duplicates() by {
        if i == idx {
            assert(w.nodes[i].children =~= Seq::<NodeRef<T>>::empty());
        } else {
            assert(v.live(i));
        }
    }
    assert forall|i: int| #[trigger] w.live(i) && w.nodes[i].parent is Some implies w.valid(w.nodes[i].parent->0)
        && w.nodes[(w.nodes[i].parent->0).index() as int].children.contains(w.handle(i)) by {
        assert(i != idx);
        assert(v.live(i));
        let q = v.nodes[i].parent->0;
        assert(v.valid(q));
        assert(w.handle(i) == v.handle(i));
    }
    assert forall|i: int, k: int| w.live(i) && 0 <= k < w.nodes[i].children.len() implies w.valid(
        #[trigger] w.nodes[i].children[k],
    ) && w.nodes[w.nodes[i].children[k].index() as int].parent == Some(w.handle(i)) by {
        if i == idx {
        } else {
            assert(v.live(i));
            let h = v.nodes[i].children[k];
            assert(v.valid(h));
            assert(w.handle(i) == v.handle(i));
        }
    }
}

/// Placing a node keeps the tree well formed and gives a handle on a live node holding it.
pub proof fn lemma_place_wf<T>(v: TreeView<T>, node: T)
    requires
        v.wf(),
        v.can_alloc(),
    ensures
        v.place(node).0.wf(),
        v.place(node).0.valid(v.place(node).1),
        v.place(node).0.nodes[v.place(node).1.index() as int] == TreeView::<T>::fresh(
            node,
            v.place(node).1.id(),
        ),
        v.place(node).0.nodes.len() >= v.nodes.len(),
        forall|r: NodeRef<T>| v.valid(r) ==> v.place(node).0.valid(r),
{
    lemma_place_linked(v, node);
    let (w, r) = v.place(node);
    if v.free_indices.len() > 0 {
        let index = v.free_indices.last();
        NodeRef::<T>::lemma_at(index, (v.nodes[index as int].id + 1) as usize);
        assert(r.index() == index);
        assert(w.nodes[index as int] == TreeView::<T>::fresh(node, r.id()));
        assert(v.nodes[index as int].free);
        assert forall|k: int| 0 <= k < w.free_indices.len() implies (#[trigger] w.free_indices[k])
            < w.nodes.len() && w.nodes[w.free_indices[k] as int].free by {
            assert(v.free_indices[k] == w.free_indices[k]);
            assert(v.free_indices[k] != v.free_indices[v.free_indices.len() - 1]);
        }
        assert forall|i: int| 0 <= i < w.nodes.len() && (#[trigger] w.nodes[i]).free implies w.free_indices.contains(
            i as usize,
        ) by {
            assert(i != index as int);
            assert(v.free_indices[v.free_indices.len() - 1] == index);
            assert(v.nodes[i].free);
            assert(v.free_indices.contains(i as usize));
            let k = choose|k: int| 0 <= k < v.free_indices.len() && v.free_indices[k] == i as usize;
            assert(k != v.free_indices.len() - 1);
            assert(w.free_indices[k] == i as usize);
        }
        assert forall|s: NodeRef<T>| v.valid(s) implies w.valid(s) by {
            if s.index() == index {
                assert(v.nodes[index as int].free);
            }
        }
    } else {
        NodeRef::<T>::lemma_at(v.nodes.len() as usize, 0);
        assert(r.index() == v.nodes.len());
        assert(w.nodes[v.nodes.len() as int] == TreeView::<T>::fresh(node, r.id()));
        assert forall|i: int| 0 <= i < w.nodes.len() && (#[trigger] w.nodes[i]).free implies w.free_indices.contains(
            i as usize,
        ) by {
            assert(i < v.nodes.len());
            assert(v.nodes[i].free);
        }
    }
}

/// Freeing an orphaned slot keeps the free stack in order, and keeps live every other handle.
pub proof fn lemma_dealloc_wf<T>(v: TreeView<T>, index: usize)
    requires
        v.slots_ok(),
    ensures
        v.dealloc(index).slots_ok(),
        v.dealloc(index).nodes.len() == v.nodes.len(),
        forall|r: NodeRef<T>| v.valid(r) && r.index() != index ==> v.dealloc(index).valid(r),
{
    let w = v.dealloc(index);
    if index < v.nodes.len() && v.nodes[index as int].parent is None
        && v.nodes[index as int].children.len() == 0 && !v.nodes[index as int].free {
        assert(!v.free_indices.contains(index));
        assert forall|k: int| 0 <= k < w.free_indices.len() implies (#[trigger] w.free_indices[k])
            < w.nodes.len() && w.nodes[w.free_indices[k] as int].free by {
            if k < v.free_indices.len() {
                assert(v.free_indices[k] == w.free_indices[k]);
            }
        }
        assert(w.free_indices.no_duplicates()) by {
            assert forall|a: int, b: int|
                0 <= a < w.free_indices.len() && 0 <= b < w.free_indices.len() && a != b implies w.free_indices[a]
                != w.free_indices[b] by {
                if a < v.free_indices.len() && b < v.free_indices.len() {
                } else if a < v.free_indices.len() {
                    assert(v.free_indices.contains(v.free_indices[a]));
                } else {
                    assert(v.free_indices.contains(v.free_indices[b]));
                }
            }
        }
        assert forall|i: int| 0 <= i < w.nodes.len() && (#[trigger] w.nodes[i]).free implies w.free_indices.contains(
            i as usize,
        ) by {
            if i == index {
                assert(w.free_indices[w.free_indices.len() - 1] == index);
            } else {
                assert(v.nodes[i].free);
                let k = choose|k: int| 0 <= k < v.free_indices.len() && v.free_indices[k] == i as usize;
                assert(w.free_indices[k] == i as usize);
            }
        }
    }
}

proof fn lemma_with_children_wf<T>(v: TreeView<T>, index: usize, children: Seq<NodeRef<T>>)
    requires
        v.slots_ok(),
        index < v.nodes.len(),
    ensures
        v.with_children(index, children).slots_ok(),
        v.with_children(index, children).nodes.len() == v.nodes.len(),
        forall|r: NodeRef<T>| #[trigger] v.valid(r) ==> v.with_children(index, children).valid(r),
{
    let w = v.with_children(index, children);
    assert forall|k: int| 0 <= k < w.free_indices.len() implies (#[trigger] w.free_indices[k])
        < w.nodes.len() && w.nodes[w.free_indices[k] as int].free by {
        assert(v.nodes[v.free_indices[k] as int].free);
    }
    assert forall|i: int| 0 <= i < w.nodes.len() && (#[trigger] w.nodes[i]).free implies w.free_indices.contains(
        i as usize,
    ) by {
        assert(v.nodes[i].free);
    }
}

proof fn lemma_with_parent_wf<T>(v: TreeView<T>, index: usize, parent: Option<NodeRef<T>>)
    requires
        v.slots_ok(),
        index < v.nodes.len(),
    ensures
        v.with_parent(index, parent).slots_ok(),
        v.with_parent(index, parent).nodes.len() == v.nodes.len(),
        forall|r: NodeRef<T>| #[trigger] v.valid(r) ==> v.with_parent(index, parent).valid(r),
{
    let w = v.with_parent(index, parent);
    assert forall|k: int| 0 <= k < w.free_indices.len() implies (#[trigger] w.free_indices[k])
        < w.nodes.len() && w.nodes[w.free_indices[k] as int].free by {
        assert(v.nodes[v.free_indices[k] as int].free);
    }
    assert forall|i: int| 0 <= i < w.nodes.len() && (#[trigger] w.nodes[i]).free implies w.free_indices.contains(
        i as usize,
    ) by {
        assert(v.nodes[i].free);
    }
}

/// Taking a node out of its recorded parent's children keeps the tree well formed and every
/// live handle live.
proof fn lemma_unhook<T>(v: TreeView<T>, child: NodeRef<T>)
    requires
        v.slots_ok(),
        v.valid(child),
    ensures
        v.unhook(child).slots_ok(),
        v.unhook(child).nodes.len() == v.nodes.len(),
        forall|r: NodeRef<T>| #[trigger] v.valid(r) ==> v.unhook(child).valid(r),
        v.unhook(child).live_parent(child) == v.live_parent(child),
        v.unhook(child).nodes[child.index() as int].parent == v.nodes[child.index() as int].parent,
{
    match v.live_parent(child) {
        Some(p) => {
            let cs = v.nodes[p.index() as int].children.filter(TreeView::<T>::not_ref_eq(child));
            lemma_with_children_wf(v, p.index(), cs);
        },
        None => {},
    }
}

/// Freeing the slot of an optional handle keeps the tree well formed, and keeps live every
/// handle on another slot.
proof fn lemma_dealloc_opt_wf<T>(v: TreeView<T>, h: Option<NodeRef<T>>)
    requires
        v.slots_ok(),
    ensures
        v.dealloc_opt(h).slots_ok(),
        v.dealloc_opt(h).nodes.len() == v.nodes.len(),
        forall|r: NodeRef<T>|
            #[trigger] v.valid(r) && (h matches Some(q) ==> r.index() != q.index()) ==> v.dealloc_opt(h).valid(r),
        forall|r: NodeRef<T>|
            #[trigger] v.valid(r) && (v.nodes[r.index() as int].parent is Some || v.nodes[r.index() as int].children.len()
                > 0) ==> v.dealloc_opt(h).valid(r),
        forall|i: int| 0 <= i < v.nodes.len() ==> #[trigger] v.dealloc_opt(h).nodes[i].node == v.nodes[i].node
            && v.dealloc_opt(h).nodes[i].parent == v.nodes[i].parent && v.dealloc_opt(h).nodes[i].children
            == v.nodes[i].children,
{
    match h {
        Some(q) => {
            lemma_dealloc_wf(v, q.index());
        },
        None => {},
    }
}

/// A successful `add_child` keeps the tree well formed, keeps `parent` and `child` live, and
/// keeps live every live handle but the child's former parent, which is freed only when it is
/// left with no parent and no children.
pub proof fn lemma_link_wf<T>(v: TreeView<T>, parent: NodeRef<T>, child: NodeRef<T>)
    requires
        v.wf(),
        v.valid(parent),
        v.valid(child),
    ensures
        v.link(parent, child).wf(),
        v.link(parent, child).nodes.len() == v.nodes.len(),
        v.link(parent, child).valid(parent),
        v.link(parent, child).valid(child),
        forall|r: NodeRef<T>| #[trigger] v.valid(r) && v.live_parent(child) != Some(r) ==> v.link(parent, child).valid(r),
{
    lemma_link_linked(v, parent, child);
    lemma_unhook(v, child);
    let v0 = v.unhook(child);
    lemma_with_parent_wf(v0, child.index(), Some(parent));
    let v1 = v0.with_parent(child.index(), Some(parent));
    let v2 = v1.with_children(parent.index(), v1.nodes[parent.index() as int].children.push(child));
    lemma_with_children_wf(v1, parent.index(), v1.nodes[parent.index() as int].children.push(child));
    lemma_dealloc_opt_wf(v2, v.live_parent(child));
    assert(v2.nodes[parent.index() as int].children.len() > 0);
    assert(v2.nodes[child.index() as int].parent is Some);
    assert forall|r: NodeRef<T>| #[trigger] v.valid(r) && v.live_parent(child) != Some(r) implies v.link(
        parent,
        child,
    ).valid(r) by {
        assert(v2.valid(r));
        match v.live_parent(child) {
            Some(q) => {
                if r.index() == q.index() {
                    NodeRef::<T>::lemma_eq(r, q);
                }
            },
            None => {},
        }
    }
}

proof fn lemma_filter_no_dups<A>(s: Seq<A>, pred: spec_fn(A) -> bool)
    requires
        s.no_duplicates(),
    ensures
        s.filter(pred).no_duplicates(),
    decreases s.len(),
{
    if s.len() > 0 {
        let p = s.drop_last();
        let x = s.last();
        assert(p.push(x) =~= s);
        assert(p.no_duplicates()) by {
            assert forall|a: int, b: int| 0 <= a < p.len() && 0 <= b < p.len() && a != b implies p[a] != p[b] by {
                assert(p[a] == s[a] && p[b] == s[b]);
            }
        }
        lemma_filter_no_dups(p, pred);
        p.lemma_filter_push(x, pred);
        if pred(x) {
            let f = p.filter(pred);
            if f.contains(x) {
                p.lemma_filter_contains_rev(pred, x);
                let k = choose|k: int| 0 <= k < p.len() && p[k] == x;
                assert(s[k] == s[s.len() - 1]);
            }
            assert forall|a: int, b: int| 0 <= a < f.push(x).len() && 0 <= b < f.push(x).len() && a != b implies f.push(
                x,
            )[a] != f.push(x)[b] by {
                if a < f.len() && b < f.len() {
                } else if a < f.len() {
                    assert(f.contains(f[a]));
                } else {
                    assert(f.contains(f[b]));
                }
            }
        }
    }
}

/// A successful `add_child` keeps the parent and children fields in agreement.
proof fn lemma_link_linked<T>(v: TreeView<T>, parent: NodeRef<T>, child: NodeRef<T>)
    requires
        v.wf(),
        v.valid(parent),
        v.valid(child),
    ensures
        v.link(parent, child).linked(),
{
    let ci = child.index() as int;
    let pi = parent.index() as int;
    let qo = v.nodes[ci].parent;
    let w = v.link(parent, child);
    assert(v.live(ci));
    assert(v.live_parent(child) == qo);
    lemma_unhook(v, child);
    let v0 = v.unhook(child);
    let v1 = v0.with_parent(child.index(), Some(parent));
    let v2 = v1.with_children(parent.index(), v1.nodes[pi].children.push(child));
    lemma_with_parent_wf(v0, child.index(), Some(parent));
    lemma_with_children_wf(v1, parent.index(), v1.nodes[pi].children.push(child));
    lemma_dealloc_opt_wf(v2, qo);
    NodeRef::<T>::lemma_at_of(child);
    NodeRef::<T>::lemma_at_of(parent);
    let not_c = TreeView::<T>::not_ref_eq(child);
    // the children of each slot after the unhook
    assert forall|i: int| 0 <= i < v.nodes.len() implies #[trigger] v0.nodes[i].children == (if qo matches Some(
        q,
    ) && i == q.index() {
        v.nodes[i].children.filter(not_c)
    } else {
        v.nodes[i].children
    }) && v0.nodes[i].parent == v.nodes[i].parent && v0.nodes[i].id == v.nodes[i].id && v0.nodes[i].free
        == v.nodes[i].free by {}
    // only the child can be listed under the parent among the slots that lose it
    assert forall|i: int| #[trigger] v.live(i) && v.nodes[i].children.contains(child) implies qo == Some(
        v.handle(i),
    ) by {
        let k = choose|k: int| 0 <= k < v.nodes[i].children.len() && v.nodes[i].children[k] == child;
        assert(v.nodes[v.nodes[i].children[k].index() as int].parent == Some(v.handle(i)));
    }
    assert forall|i: int| 0 <= i < v.nodes.len() implies #[trigger] w.nodes[i].children == (if i == pi {
        v0.nodes[i].children.push(child)
    } else {
        v0.nodes[i].children
    }) && v2.nodes[i].children == w.nodes[i].children by {}
    assert(w.nodes[pi].children.len() > 0);
    assert(w.valid(parent));
    assert(w.valid(child));
    assert forall|i: int| #[trigger] w.live(i) implies v.live(i) && w.handle(i) == v.handle(i) by {}
    // what each live slot of w lists
    assert forall|i: int, h: NodeRef<T>| #[trigger] w.live(i) implies #[trigger] w.nodes[i].children.contains(h) == (
    if h == child {
        i == pi
    } else {
        v.nodes[i].children.contains(h)
    }) by {
        lemma_filter_has(v.nodes[i].children, not_c, h);
        NodeRef::<T>::lemma_eq(h, child);
        let base = v0.nodes[i].children;
        assert(base.contains(h) == (v.nodes[i].children.contains(h) && (qo matches Some(q) && i == q.index()
            ==> h != child))) by {
            if qo matches Some(q) && i == q.index() {
            } else {
            }
        }
        if h == child && v.nodes[i].children.contains(child) {
            assert(qo == Some(v.handle(i)));
            NodeRef::<T>::lemma_at(i as usize, v.nodes[i].id);
        }
        if i == pi {
            assert(base.push(child).contains(h) == (base.contains(h) || h == child)) by {
                if h == child {
                    assert(base.push(child)[base.len() as int] == child);
                }
                if base.push(child).contains(h) && h != child {
                    let k = choose|k: int| 0 <= k < base.push(child).len() && base.push(child)[k] == h;
                    assert(base[k] == h);
                }
                if base.contains(h) {
                    let k = choose|k: int| 0 <= k < base.len() && base[k] == h;
                    assert(base.push(child)[k] == h);
                }
            }
        }
    }
    assert forall|i: int| #[trigger] w.live(i) implies w.nodes[i].children.no_duplicates() by {
        assert(v.live(i));
        let base = v0.nodes[i].children;
        lemma_filter_no_dups(v.nodes[i].children, not_c);
        assert(base.no_duplicates());
        if i == pi {
            assert(!base.contains(child)) by {
                lemma_filter_has(v.nodes[i].children, not_c, child);
                if v.nodes[i].children.contains(child) {
                    assert(qo == Some(v.handle(i)));
                    NodeRef::<T>::lemma_at(i as usize, v.nodes[i].id);
                }
            }
            let e = base.push(child);
            assert(w.nodes[i].children == e);
            assert forall|a: int, b: int| 0 <= a < e.len() && 0 <= b < e.len() && a != b implies e[a] != e[b] by {
                if a < base.len() && b < base.len() {
                } else if a < base.len() {
                    assert(base.contains(base[a]));
                } else {
                    assert(base.contains(base[b]));
                }
            }
        } else {
            assert(w.nodes[i].children == base);
        }
    }
    assert forall|i: int| #[trigger] w.live(i) && w.nodes[i].parent is Some implies w.valid(w.nodes[i].parent->0)
        && w.nodes[(w.nodes[i].parent->0).index() as int].children.contains(w.handle(i)) by {
        if i == ci {
            assert(w.nodes[i].parent == Some(parent));
            assert(w.live(pi));
            assert(w.handle(ci) == child);
        } else {
            let r = v.nodes[i].parent->0;
            assert(v.live(i));
            assert(w.nodes[i].parent == v.nodes[i].parent);
            assert(v.valid(r));
            let ri = r.index() as int;
            assert(v.nodes[ri].children.contains(v.handle(i)));
            NodeRef::<T>::lemma_at(i as usize, v.nodes[i].id);
            NodeRef::<T>::lemma_eq(v.handle(i), child);
            assert(v.handle(i) != child);
            lemma_filter_has(v.nodes[ri].children, not_c, v.handle(i));
            assert(v0.nodes[ri].children.contains(v.handle(i)));
            assert(w.live(ri) ==> w.nodes[ri].children.contains(v.handle(i)));
            assert(v2.nodes[ri].children.contains(v.handle(i))) by {
                let b = v0.nodes[ri].children;
                if ri == pi {
                    let k = choose|k: int| 0 <= k < b.len() && b[k] == v.handle(i);
                    assert(b.push(child)[k] == v.handle(i));
                }
            }
            assert(v2.valid(r));
            assert(w.valid(r));
            assert(w.live(ri));
        }
    }
    assert forall|i: int, k: int| w.live(i) && 0 <= k < w.nodes[i].children.len() implies w.valid(
        #[trigger] w.nodes[i].children[k],
    ) && w.nodes[w.nodes[i].children[k].index() as int].parent == Some(w.handle(i)) by {
        let h = w.nodes[i].children[k];
        assert(w.nodes[i].children.contains(h));
        if h == child {
            assert(i == pi);
            NodeRef::<T>::lemma_at(pi as usize, v.nodes[pi].id);
        } else {
            assert(v.nodes[i].children.contains(h));
            let kk = choose|kk: int| 0 <= kk < v.nodes[i].children.len() && v.nodes[i].children[kk] == h;
            assert(v.valid(h));
            assert(v.nodes[h.index() as int].parent == Some(v.handle(i)));
            NodeRef::<T>::lemma_eq(h, child);
            assert(h.index() != child.index());
            assert(v2.valid(h));
            assert(v2.nodes[h.index() as int].parent is Some);
            assert(w.valid(h));
        }
    }
}

/// A successful `remove_child` keeps the parent and children fields in agreement.
proof fn lemma_unlink_linked<T>(v: TreeView<T>, child: NodeRef<T>)
    requires
        v.wf(),
        v.valid(child),
    ensures
        v.unlink(child).linked(),
{
    let ci = child.index() as int;
    let qo = v.nodes[ci].parent;
    let w = v.unlink(child);
    assert(v.live(ci));
    assert(v.live_parent(child) == qo);
    lemma_unhook(v, child);
    let v0 = v.unhook(child);
    lemma_dealloc_opt_wf(v0, qo);
    let v1 = v0.dealloc_opt(qo);
    lemma_with_parent_wf(v1, child.index(), None);
    let v2 = v1.with_parent(child.index(), None);
    lemma_dealloc_wf(v2, child.index());
    NodeRef::<T>::lemma_at_of(child);
    let not_c = TreeView::<T>::not_ref_eq(child);
    assert forall|i: int| 0 <= i < v.nodes.len() implies #[trigger] v0.nodes[i].children == (if qo matches Some(
        q,
    ) && i == q.index() {
        v.nodes[i].children.filter(not_c)
    } else {
        v.nodes[i].children
    }) && v0.nodes[i].parent == v.nodes[i].parent && v0.nodes[i].id == v.nodes[i].id && v0.nodes[i].free
        == v.nodes[i].free by {}
    assert forall|i: int| 0 <= i < v.nodes.len() implies #[trigger] w.nodes[i].children == v0.nodes[i].children
        && w.nodes[i].parent == (if i == ci {
        None
    } else {
        v.nodes[i].parent
    }) && w.nodes[i].id == v.nodes[i].id && (w.nodes[i].free ==> v2.nodes[i].free || i == ci) && (v2.nodes[i].free
        ==> v1.nodes[i].free) by {}
    assert forall|i: int| #[trigger] v.live(i) && v.nodes[i].children.contains(child) implies qo == Some(
        v.handle(i),
    ) by {
        let k = choose|k: int| 0 <= k < v.nodes[i].children.len() && v.nodes[i].children[k] == child;
        assert(v.nodes[v.nodes[i].children[k].index() as int].parent == Some(v.handle(i)));
    }
    assert forall|i: int| #[trigger] w.live(i) implies v.live(i) && w.handle(i) == v.handle(i) by {}
    // a slot that still lists something, or has a parent, stays live
    assert forall|h: NodeRef<T>| #[trigger] v.valid(h) && h.index() != ci && (v0.nodes[h.index() as int].parent is Some
        || v0.nodes[h.index() as int].children.len() > 0) implies w.valid(h) by {
        assert(v1.valid(h));
        assert(v2.valid(h));
    }
    assert forall|i: int| #[trigger] w.live(i) implies w.nodes[i].children.no_duplicates() by {
        assert(v.live(i));
        lemma_filter_no_dups(v.nodes[i].children, not_c);
    }
    assert forall|i: int| #[trigger] w.live(i) && w.nodes[i].parent is Some implies w.valid(w.nodes[i].parent->0)
        && w.nodes[(w.nodes[i].parent->0).index() as int].children.contains(w.handle(i)) by {
        assert(i != ci);
        let r = v.nodes[i].parent->0;
        assert(v.live(i));
        assert(v.valid(r));
        let ri = r.index() as int;
        assert(v.nodes[ri].children.contains(v.handle(i)));
        NodeRef::<T>::lemma_at(i as usize, v.nodes[i].id);
        NodeRef::<T>::lemma_eq(v.handle(i), child);
        lemma_filter_has(v.nodes[ri].children, not_c, v.handle(i));
        assert(v0.nodes[ri].children.contains(v.handle(i)));
        assert(v0.nodes[ri].children.len() > 0);
        if ri == ci {
            NodeRef::<T>::lemma_eq(r, child);
            assert(w.nodes[ci].children.len() > 0);
            assert(v2.valid(r));
            assert(w.valid(r));
        } else {
            assert(w.valid(r));
        }
    }
    assert forall|i: int, k: int| w.live(i) && 0 <= k < w.nodes[i].children.len() implies w.valid(
        #[trigger] w.nodes[i].children[k],
    ) && w.nodes[w.nodes[i].children[k].index() as int].parent == Some(w.handle(i)) by {
        let h = w.nodes[i].children[k];
        assert(w.nodes[i].children.contains(h));
        lemma_filter_has(v.nodes[i].children, not_c, h);
        NodeRef::<T>::lemma_eq(h, child);
        assert(v.nodes[i].children.contains(h));
        if h == child {
            assert(qo == Some(v.handle(i)));
            NodeRef::<T>::lemma_at(i as usize, v.nodes[i].id);
            assert(false);
        }
        let kk = choose|kk: int| 0 <= kk < v.nodes[i].children.len() && v.nodes[i].children[kk] == h;
        assert(v.valid(h));
        assert(v.nodes[h.index() as int].parent == Some(v.handle(i)));
        assert(h.index() != child.index());
    }
}

/// A successful `remove_child` keeps the tree well formed, keeps live every live handle but the
/// child and its former parent, and changes no node's value.
pub proof fn lemma_unlink_wf<T>(v: TreeView<T>, child: NodeRef<T>)
    requires
        v.wf(),
        v.valid(child),
    ensures
        v.unlink(child).wf(),
        v.unlink(child).nodes.len() == v.nodes.len(),
        forall|r: NodeRef<T>|
            #[trigger] v.valid(r) && r != child && v.live_parent(child) != Some(r) ==> v.unlink(child).valid(r),
        forall|i: int| 0 <= i < v.nodes.len() ==> #[trigger] v.unlink(child).nodes[i].node == v.nodes[i].node,
{
    lemma_unlink_linked(v, child);
    lemma_unhook(v, child);
    lemma_dealloc_opt_wf(v.unhook(child), v.live_parent(child));
    let v0 = v.detach(child);
    lemma_with_parent_wf(v0, child.index(), None);
    lemma_dealloc_wf(v0.with_parent(child.index(), None), child.index());
    assert forall|r: NodeRef<T>| #[trigger] v.valid(r) && r != child && v.live_parent(child) != Some(r) implies v.unlink(
        child,
    ).valid(r) by {
        NodeRef::<T>::lemma_eq(r, child);
        if let Some(q) = v.live_parent(child) {
            NodeRef::<T>::lemma_eq(r, q);
        }
    }
}

fn digit_str(d: usize) -> (r: &'static str)
    requires
        d < 10,
    ensures
        r@ == seq![digit_char(d as nat)],
{
    if d == 0 {
        proof {
            reveal_strlit("0");
        }
        "0"
    } else if d == 1 {
        proof {
            reveal_strlit("1");
        }
        "1"
    } else if d == 2 {
        proof {
            reveal_strlit("2");
        }
        "2"
    } else if d == 3 {
        proof {
            reveal_strlit("3");
        }
        "3"
    } else if d == 4 {
        proof {
            reveal_strlit("4");
        }
        "4"
    } else if d == 5 {
        proof {
            reveal_strlit("5");
        }
        "5"
    } else if d == 6 {
        proof {
            reveal_strlit("6");
        }
        "6"
    } else if d == 7 {
        proof {
            reveal_strlit("7");
        }
        "7"
    } else if d == 8 {
        proof {
            reveal_strlit("8");
        }
        "8"
    } else {
        proof {
            reveal_strlit("9");
        }
        "9"
    }
}

/// Appends `n` in decimal to `s`.
fn push_decimal(s: &mut String, n: usize)
    ensures
        final(s)@ == old(s)@ + decimal(n as nat),
    decreases n,
{
    if n >= 10 {
        push_decimal(s, n / 10);
    }
    let ghost before = s@;
    s.append(digit_str(n % 10));
    proof {
        if n >= 10 {
            assert(s@ =~= old(s)@ + decimal(n as nat));
        } else {
            assert(s@ =~= old(s)@ + decimal(n as nat));
        }
    }
}

/// The message naming position `i` of a list of children.
fn children_ref_error(i: usize) -> (r: String)
    ensures
        r@ == children_ref_message(i as nat),
{
    let mut m = String::from_str("children_ref[");
    push_decimal(&mut m, i);
    m.append("]");
    m
}

/// The handles of `children` that do not compare equal to `child`, in order.
fn without_ref<T>(children: &Vec<NodeRef<T>>, child: NodeRef<T>) -> (r: Vec<NodeRef<T>>)
    ensures
        r@ == children@.filter(TreeView::<T>::not_ref_eq(child)),
{
    let mut r: Vec<NodeRef<T>> = Vec::new();
    let mut i: usize = 0;
    while i < children.len()
        invariant
            i <= children@.len(),
            r@ == children@.take(i as int).filter(TreeView::<T>::not_ref_eq(child)),
        decreases children@.len() - i,
    {
        let c = children[i];
        if c != child {
            r.push(c);
        }
        proof {
            assert(children@.take(i + 1) =~= children@.take(i as int).push(c));
            children@.take(i as int).lemma_filter_push(c, TreeView::<T>::not_ref_eq(child));
        }
        i = i + 1;
    }
    proof {
        assert(children@.take(i as int) =~= children@);
    }
    r
}

impl<T> Tree<T> {
    /// An empty tree.
    pub fn new() -> (r: Tree<T>)
        ensures
            r@.nodes.len() == 0,
            r@.free_indices.len() == 0,
            r@.wf(),
            r@.acyclic(),
    {
        let r = Tree { nodes: Vec::new(), free_indices: Vec::new() };
        proof {
            assert(r@.nodes =~= Seq::<NodeView<T>>::empty());
        }
        r
    }

    /// Adds the given node to the tree, returning a handle on it. A free slot, the most
    /// recently freed one, is filled before the backing vector grows.
    fn alloc_tree_node(&mut self, node: T) -> (r: NodeRef<T>)
        requires
            old(self)@.wf(),
            old(self)@.can_alloc(),
        ensures
            (final(self)@, r) == old(self)@.place(node),
    {
        let ghost v = self@;
        let index;
        let id;
        if !self.free_indices.is_empty() {
            index = self.free_indices.pop().unwrap();
            id = self.nodes[index].id + 1;
            self.nodes[index] = TreeNode { node, id, free: false, parent: None, children: Vec::new() };
        } else {
            index = self.nodes.len();
            id = 0;
            self.nodes.push(TreeNode { node, id, free: false, parent: None, children: Vec::new() });
        }
        proof {
            assert(self@.nodes =~= v.place(node).0.nodes);
            assert(self@.free_indices =~= v.place(node).0.free_indices);
        }
        NodeRef::new(index, id)
    }

    /// Frees the slot of `node_ref` when it holds a live node with no parent and no children.
    fn check_dealloc(&mut self, node_ref: NodeRef<T>)
        ensures
            final(self)@ == old(self)@.dealloc(node_ref.index()),
    {
        let index = node_ref.index;
        if index < self.nodes.len() && self.nodes[index].parent.is_none()
            && self.nodes[index].children.len() == 0 && !self.nodes[index].free {
            let ghost v = self@;
            self.nodes[index].free = true;
            self.free_indices.push(index);
            proof {
                assert(self@.nodes =~= v.dealloc(index).nodes);
            }
        }
    }

    fn get_tree_node(&self, node_ref: NodeRef<T>) -> (r: Option<&TreeNode<T>>)
        ensures
            match r {
                Some(n) => self@.valid(node_ref) && n@ == self@.nodes[node_ref.index() as int],
                None => !self@.valid(node_ref),
            },
    {
        let index = node_ref.index;
        if index < self.nodes.len() && self.nodes[index].id == node_ref.id && !self.nodes[index].free {
            Some(&self.nodes[index])
        } else {
            None
        }
    }

    /// Takes `child_ref` out of the children of its recorded parent, when that parent is
    /// live; gives that parent.
    fn detach_from_parent(&mut self, child_ref: NodeRef<T>) -> (r: Option<NodeRef<T>>)
        requires
            old(self)@.valid(child_ref),
        ensures
            final(self)@ == old(self)@.unhook(child_ref),
            r == old(self)@.live_parent(child_ref),
    {
        if let Some(prev_parent_ref) = self.nodes[child_ref.index].parent {
            let ghost v = self@;
            let ghost s = self.nodes@;
            let p = prev_parent_ref.index;
            proof {
                assert forall|t: TreeNode<T>| p < s.len() implies #[trigger]
                    view_nodes(s.update(p as int, t)) == view_nodes(s).update(p as int, t@) by {
                    assert(view_nodes(s.update(p as int, t)) =~= view_nodes(s).update(p as int, t@));
                }
            }
            if let Some(prev_parent) = self.get_tree_node_mut(prev_parent_ref) {
                let kept = without_ref(&prev_parent.children, child_ref);
                prev_parent.children = kept;
                proof {
                    assert(self@.nodes == v.with_children(
                        p,
                        v.nodes[p as int].children.filter(TreeView::<T>::not_ref_eq(child_ref)),
                    ).nodes);
                }
                Some(prev_parent_ref)
            } else {
                None
            }
        } else {
            None
        }
    }

    fn get_tree_node_mut(&mut self, node_ref: NodeRef<T>) -> (r: Option<&mut TreeNode<T>>)
        ensures
            old(self)@.valid(node_ref) == r is Some,
            match r {
                Some(n) => {
                    &&& *n == old(self).nodes@[node_ref.index() as int]
                    &&& final(self).nodes@ == old(self).nodes@.update(node_ref.index() as int, *final(n))
                    &&& final(self).free_indices@ == old(self).free_indices@
                },
                None => *final(self) == *old(self),
            },
    {
        let index = node_ref.index;
        if index < self.nodes.len() && self.nodes[index].id == node_ref.id && !self.nodes[index].free {
            Some(&mut self.nodes[index])
        } else {
            None
        }
    }
}

impl<T> Tree<T> {
    /// Adds `node` as a new node, then links each of `children_ref` under it in order. At the
    /// first handle that is not live it stops with an error naming that position; the new node
    /// and the links made so far stay.
    pub fn add_node_as_parent(&mut self, node: T, children_ref: &[NodeRef<T>]) -> (r: Result<
        NodeRef<T>,
        TreeError,
    >)
        requires
            old(self)@.wf(),
            old(self)@.can_alloc(),
        ensures
            final(self)@.wf(),
            ({
                let (v1, node_ref) = old(self)@.place(node);
                let (v2, err) = v1.adopt(node_ref, children_ref@);
                &&& final(self)@ == v2
                &&& match err {
                    None => r == Ok::<NodeRef<T>, TreeError>(node_ref),
                    Some(i) => is_error(r, children_ref_message(i)),
                }
            }),
            match r {
                Ok(p) => {
                    &&& final(self)@.valid(p)
                    &&& final(self)@.nodes[p.index() as int].node == node
                    &&& children_ref@.no_duplicates() && !children_ref@.contains(p) ==> adopted(
                        final(self)@,
                        p,
                        children_ref@,
                    )
                },
                Err(_) => exists|i: nat|
                    i < children_ref@.len() && #[trigger] is_error(r, children_ref_message(i))
                        && !final(self)@.valid(children_ref@[i as int]) && (children_ref@.no_duplicates() && !children_ref@.contains(
                        old(self)@.place(node).1,
                    ) ==> adopted(final(self)@, old(self)@.place(node).1, children_ref@.take(i as int))),
            },
    {
        let ghost v0 = self@;
        proof {
            lemma_place_wf(v0, node);
            let (v1, p) = v0.place(node);
            if children_ref@.no_duplicates() && !children_ref@.contains(p) {
                lemma_adopt_result(v1, p, children_ref@);
            }
            lemma_adopt_keeps(v1, p, children_ref@);
        }
        let node_ref = self.alloc_tree_node(node);
        let ghost v1 = self@;
        let mut i: usize = 0;
        while i < children_ref.len()
            invariant
                i <= children_ref@.len(),
                v0 == old(self)@,
                v1 == v0.place(node).0,
                node_ref == v0.place(node).1,
                v1.wf(),
                v1.valid(node_ref),
                v1.nodes[node_ref.index() as int].parent is None,
                v1.nodes[node_ref.index() as int].children.len() == 0,
                self@.wf(),
                self@.valid(node_ref),
                v1.adopt(node_ref, children_ref@.take(i as int)) == (self@, None::<nat>),
            decreases children_ref@.len() - i,
        {
            let child_ref = children_ref[i];
            proof {
                assert(children_ref@.take(i + 1).drop_last() =~= children_ref@.take(i as int));
                assert(children_ref@.take(i + 1).last() == child_ref);
            }
            if self.get_tree_node(child_ref).is_some() {
                proof {
                    lemma_link_wf(self@, node_ref, child_ref);
                }
                let res = self.add_child(node_ref, child_ref);
                proof {
                    assert(res is Ok);
                }
            } else {
                let msg = children_ref_error(i);
                proof {
                    assert(v1.adopt(node_ref, children_ref@.take(i + 1)) == (self@, Some(i as nat)));
                    lemma_adopt_stops(v1, node_ref, children_ref@, (i + 1) as nat);
                    assert(children_ref@.take(children_ref@.len() as int) =~= children_ref@);
                    assert(v1.adopt(node_ref, children_ref@) == (self@, Some(i as nat)));
                }
                let res: Result<NodeRef<T>, TreeError> = Err(TreeError::InvalidReferenceError(msg));
                proof {
                    assert(is_error(res, children_ref_message(i as nat)));
                    assert(!self@.valid(children_ref@[i as int]));
                    assert(node_ref == v0.place(node).1);
                    if children_ref@.no_duplicates() && !children_ref@.contains(node_ref) {
                        lemma_adopt_result(v1, node_ref, children_ref@);
                        assert(adopted(self@, node_ref, children_ref@.take(i as int)));
                    }
                }
                return res;
            }
            i = i + 1;
        }
        proof {
            assert(children_ref@.take(i as int) =~= children_ref@);
        }
        Ok(node_ref)
    }

    /// Adds `node` as a new node and links it under `parent_ref`. When `parent_ref` is not
    /// live the new node stays, unlinked, and the error names `parent_ref`.
    pub fn add_node_as_child(&mut self, node: T, parent_ref: NodeRef<T>) -> (r: Result<
        NodeRef<T>,
        TreeError,
    >)
        requires
            old(self)@.wf(),
            old(self)@.can_alloc(),
        ensures
            final(self)@.wf(),
            ({
                let (v1, node_ref) = old(self)@.place(node);
                if v1.valid(parent_ref) {
                    &&& r == Ok::<NodeRef<T>, TreeError>(node_ref)
                    &&& final(self)@ == v1.link(parent_ref, node_ref)
                } else {
                    &&& is_error(r, "parent_ref"@)
                    &&& final(self)@ == v1
                }
            }),
            match r {
                Ok(n) => n != parent_ref ==> {
                    &&& final(self)@.valid(n)
                    &&& final(self)@.valid(parent_ref)
                    &&& final(self)@.nodes[n.index() as int].node == node
                    &&& final(self)@.nodes[n.index() as int].parent == Some(parent_ref)
                    &&& final(self)@.nodes[n.index() as int].children.len() == 0
                    &&& final(self)@.nodes[parent_ref.index() as int].children == old(self)@.nodes[parent_ref.index() as int].children.push(n)
                },
                Err(_) => true,
            },
    {
        proof {
            lemma_place_wf(self@, node);
            let (v1, n) = self@.place(node);
            if v1.valid(parent_ref) && n != parent_ref {
                lemma_link_direct(v1, parent_ref, n);
                NodeRef::<T>::lemma_eq(n, parent_ref);
                if self@.valid(parent_ref) {
                    lemma_place_keeps_handles(self@, node, parent_ref);
                } else {
                    lemma_no_revival(self@, node, parent_ref, parent_ref, node, parent_ref);
                }
                let pc = v1.nodes[parent_ref.index() as int].children;
                lemma_filter_has(pc, TreeView::<T>::not_ref_eq(n), n);
                if pc.contains(n) {
                    let k = choose|k: int| 0 <= k < pc.len() && pc[k] == n;
                    assert(v1.nodes[pc[k].index() as int].parent == Some(v1.handle(parent_ref.index() as int)));
                }
                lemma_filter_keeps_all(pc, TreeView::<T>::not_ref_eq(n));
            }
        }
        let node_ref = self.alloc_tree_node(node);
        if self.get_tree_node(parent_ref).is_some() {
            proof {
                lemma_link_wf(self@, parent_ref, node_ref);
            }
            let res = self.add_child(parent_ref, node_ref);
            proof {
                assert(res is Ok);
            }
        } else {
            return Err(TreeError::InvalidReferenceError(String::from_str("parent_ref")));
        }
        Ok(node_ref)
    }

    /// Links `child_ref` under `parent_ref`: takes it out of the children of its former parent,
    /// records `parent_ref` as its parent and appends it to the children of `parent_ref`. Only
    /// then is the former parent freed, if it is left with no parent and no children; so linking
    /// a child again under its current parent never frees that parent, and no live node is ever
    /// listed under, or recorded as the child of, a freed slot.
    pub fn add_child(&mut self, parent_ref: NodeRef<T>, child_ref: NodeRef<T>) -> (r: Result<
        (),
        TreeError,
    >)
        requires
            old(self)@.wf(),
        ensures
            final(self)@.wf(),
            if !old(self)@.valid(parent_ref) {
                &&& is_error(r, "parent_ref"@)
                &&& final(self)@ == old(self)@
            } else if !old(self)@.valid(child_ref) {
                &&& is_error(r, "child_ref"@)
                &&& final(self)@ == old(self)@
            } else {
                &&& r is Ok
                &&& final(self)@ == old(self)@.link(parent_ref, child_ref)
            },
            old(self)@.valid(parent_ref) && old(self)@.valid(child_ref) && parent_ref != child_ref
                ==> linked_as_child(old(self)@, final(self)@, parent_ref, child_ref),
    {
        proof {
            if self@.valid(parent_ref) && self@.valid(child_ref) && parent_ref != child_ref {
                lemma_link_direct(self@, parent_ref, child_ref);
            }
        }
        if self.get_tree_node(parent_ref).is_none() {
            Err(TreeError::InvalidReferenceError(String::from_str("parent_ref")))
        } else if self.get_tree_node(child_ref).is_none() {
            Err(TreeError::InvalidReferenceError(String::from_str("child_ref")))
        } else {
            let ghost v = self@;
            proof {
                lemma_link_wf(v, parent_ref, child_ref);
                lemma_unhook(v, child_ref);
            }
            let prev = self.detach_from_parent(child_ref);
            let ghost v0 = self@;
            self.nodes[child_ref.index].parent = Some(parent_ref);
            proof {
                assert(self@.nodes =~= v0.with_parent(child_ref.index(), Some(parent_ref)).nodes);
            }
            let ghost v1 = self@;
            self.nodes[parent_ref.index].children.push(child_ref);
            proof {
                assert(self@.nodes =~= v1.with_children(
                    parent_ref.index(),
                    v1.nodes[parent_ref.index() as int].children.push(child_ref),
                ).nodes);
            }
            if let Some(q) = prev {
                self.check_dealloc(q);
            }
            Ok(())
        }
    }

    /// Takes `child_ref` out of the children of its parent and clears its parent; its slot is
    /// freed when it has no children.
    pub fn remove_child(&mut self, child_ref: NodeRef<T>) -> (r: Result<(), TreeError>)
        requires
            old(self)@.wf(),
        ensures
            final(self)@.wf(),
            if !old(self)@.valid(child_ref) {
                &&& is_error(r, "child_ref"@)
                &&& final(self)@ == old(self)@
            } else {
                &&& r is Ok
                &&& final(self)@ == old(self)@.unlink(child_ref)
            },
            old(self)@.valid(child_ref) ==> removed_as_child(old(self)@, final(self)@, child_ref),
    {
        if self.get_tree_node(child_ref).is_none() {
            Err(TreeError::InvalidReferenceError(String::from_str("child_ref")))
        } else {
            proof {
                lemma_unlink_result(self@, child_ref);
                lemma_unlink_wf(self@, child_ref);
                lemma_unhook(self@, child_ref);
            }
            let prev = self.detach_from_parent(child_ref);
            if let Some(q) = prev {
                self.check_dealloc(q);
            }
            let ghost v0 = self@;
            self.nodes[child_ref.index].parent = None;
            proof {
                assert(self@.nodes =~= v0.with_parent(child_ref.index(), None).nodes);
            }
            self.check_dealloc(child_ref);
            Ok(())
        }
    }

    /// The value of the node `node_ref` names, when it is live.
    pub fn get(&self, node_ref: NodeRef<T>) -> (r: Option<&T>)
        ensures
            match r {
                Some(x) => self@.valid(node_ref) && *x == self@.nodes[node_ref.index() as int].node,
                None => !self@.valid(node_ref),
            },
    {
        match self.get_tree_node(node_ref) {
            Some(n) => Some(&n.node),
            None => None,
        }
    }

    /// The parent recorded for the node `node_ref` names, when it is live.
    pub fn parent(&self, node_ref: NodeRef<T>) -> (r: Result<Option<NodeRef<T>>, TreeError>)
        ensures
            if self@.valid(node_ref) {
                r == Ok::<Option<NodeRef<T>>, TreeError>(self@.nodes[node_ref.index() as int].parent)
            } else {
                is_error(r, "node_ref"@)
            },
    {
        match self.get_tree_node(node_ref) {
            Some(node) => Ok(node.parent),
            None => Err(TreeError::InvalidReferenceError(String::from_str("node_ref"))),
        }
    }

    /// The children of the node `node_ref` names, when it is live.
    pub fn children(&self, node_ref: NodeRef<T>) -> (r: Result<&Vec<NodeRef<T>>, TreeError>)
        ensures
            if self@.valid(node_ref) {
                r matches Ok(v) && v@ == self@.nodes[node_ref.index() as int].children
            } else {
                is_error(r, "node_ref"@)
            },
    {
        match self.get_tree_node(node_ref) {
            Some(node) => Ok(&node.children),
            None => Err(TreeError::InvalidReferenceError(String::from_str("node_ref"))),
        }
    }
}

/// Once `adopt` has stopped at some position, the children after it change nothing.
proof fn lemma_adopt_stops<T>(v: TreeView<T>, parent: NodeRef<T>, cs: Seq<NodeRef<T>>, k: nat)
    requires
        k <= cs.len(),
        v.adopt(parent, cs.take(k as int)).1 is Some,
    ensures
        v.adopt(parent, cs.take(cs.len() as int)) == v.adopt(parent, cs.take(k as int)),
    decreases cs.len() - k,
{
    if k < cs.len() {
        assert(cs.take(k + 1 as int).drop_last() =~= cs.take(k as int));
        lemma_adopt_stops(v, parent, cs, k + 1);
    }
}

impl<T> Tree<T> {
    /// Mutable access to the value of the node `node_ref` names, when it is live.
    pub fn get_mut(&mut self, node_ref: NodeRef<T>) -> (r: Option<&mut T>)
        ensures
            old(self)@.valid(node_ref) == r is Some,
            match r {
                Some(x) => {
                    &&& *x == old(self)@.nodes[node_ref.index() as int].node
                    &&& final(self)@ == old(self)@.with_node(node_ref.index(), *final(x))
                },
                None => final(self)@ == old(self)@,
            },
    {
        let index = node_ref.index;
        if index < self.nodes.len() && self.nodes[index].id == node_ref.id && !self.nodes[index].free {
            let ghost s = self.nodes@;
            proof {
                assert forall|t: TreeNode<T>| #[trigger]
                    view_nodes(s.update(index as int, t)) == view_nodes(s).update(index as int, t@) by {
                    assert(view_nodes(s.update(index as int, t)) =~= view_nodes(s).update(index as int, t@));
                }
            }
            Some(&mut self.nodes[index].node)
        } else {
            None
        }
    }
}

/// A new node goes into the most recently freed slot when there is one, and only then at the
/// end of the backing vector.
pub proof fn lemma_place_prefers_free_slot<T>(v: TreeView<T>, node: T)
    requires
        v.wf(),
        v.can_alloc(),
    ensures
        v.free_indices.len() > 0 ==> {
            &&& v.place(node).0.nodes.len() == v.nodes.len()
            &&& v.place(node).1.index() == v.free_indices.last()
            &&& v.place(node).1.id() == v.nodes[v.free_indices.last() as int].id + 1
        },
        v.free_indices.len() == 0 ==> {
            &&& v.place(node).0.nodes.len() == v.nodes.len() + 1
            &&& v.place(node).1.index() == v.nodes.len()
            &&& v.place(node).1.id() == 0
        },
{
    if v.free_indices.len() > 0 {
        NodeRef::<T>::lemma_at(v.free_indices.last(), (v.nodes[v.free_indices.last() as int].id + 1) as usize);
    } else {
        NodeRef::<T>::lemma_at(v.nodes.len() as usize, 0);
    }
}

/// Placing a node leaves every live handle live and naming the same node, and the new handle
/// is none of them.
pub proof fn lemma_place_keeps_handles<T>(v: TreeView<T>, node: T, h: NodeRef<T>)
    requires
        v.wf(),
        v.can_alloc(),
        v.valid(h),
    ensures
        v.place(node).0.valid(h),
        v.place(node).0.nodes[h.index() as int] == v.nodes[h.index() as int],
        v.place(node).1 != h,
{
    lemma_place_wf(v, node);
    lemma_place_prefers_free_slot(v, node);
    let r = v.place(node).1;
    NodeRef::<T>::lemma_eq(r, h);
    if v.free_indices.len() > 0 {
        let index = v.free_indices.last();
        assert(v.nodes[index as int].free);
    }
}

/// Once its slot is reused, a handle on a freed node no longer names a live node.
pub proof fn lemma_stale_handle<T>(v: TreeView<T>, node: T, h: NodeRef<T>)
    requires
        v.wf(),
        v.can_alloc(),
        h.index() < v.nodes.len(),
        h.id() == v.nodes[h.index() as int].id,
        v.nodes[h.index() as int].free,
        v.free_indices.last() == h.index(),
    ensures
        !v.place(node).0.valid(h),
{
    assert(v.free_indices.contains(h.index()));
    lemma_place_prefers_free_slot(v, node);
}

/// After a successful `add_child(parent, child)`, `child` is the last child of `parent`, its
/// recorded parent is `parent`, it no longer appears among the children of a former parent
/// other than `parent`, and the value of every node that stays live is unchanged.
pub proof fn lemma_link_result<T>(v: TreeView<T>, parent: NodeRef<T>, child: NodeRef<T>)
    requires
        v.wf(),
        v.valid(parent),
        v.valid(child),
    ensures
        v.link(parent, child).nodes[parent.index() as int].children.last() == child,
        v.link(parent, child).nodes[child.index() as int].parent == Some(parent),
        match v.live_parent(child) {
            Some(q) => q != parent ==> !v.link(parent, child).nodes[q.index() as int].children.contains(child),
            None => true,
        },
        forall|h: NodeRef<T>| #[trigger] v.valid(h) && v.link(parent, child).valid(h)
            ==> v.link(parent, child).nodes[h.index() as int].node == v.nodes[h.index() as int].node,
{
    lemma_unhook(v, child);
    lemma_link_wf(v, parent, child);
    let v0 = v.unhook(child);
    let v1 = v0.with_parent(child.index(), Some(parent));
    let v2 = v1.with_children(parent.index(), v1.nodes[parent.index() as int].children.push(child));
    lemma_dealloc_opt_wf(v2, v.live_parent(child));
    match v.live_parent(child) {
        Some(q) => {
            if q != parent {
                NodeRef::<T>::lemma_eq(q, parent);
                assert(q.index() != parent.index());
                let cs = v.nodes[q.index() as int].children.filter(TreeView::<T>::not_ref_eq(child));
                assert(v0.nodes[q.index() as int].children == cs);
                if cs.contains(child) {
                    let k = choose|k: int| 0 <= k < cs.len() && cs[k] == child;
                    v.nodes[q.index() as int].children.lemma_filter_pred(TreeView::<T>::not_ref_eq(child), k);
                    assert(false);
                }
                assert(v2.nodes[q.index() as int].children == cs);
            }
        },
        None => {},
    }
}

/// `remove_child` on a live node without children frees its slot: its handle stops naming a
/// live node and its slot becomes the next one to be reused.
pub proof fn lemma_unlink_frees_leaf<T>(v: TreeView<T>, child: NodeRef<T>)
    requires
        v.wf(),
        v.valid(child),
        v.nodes[child.index() as int].children.len() == 0,
    ensures
        !v.unlink(child).valid(child),
        v.unlink(child).free_indices.last() == child.index(),
{
    lemma_unhook(v, child);
    let v0 = v.unhook(child);
    assert(v0.nodes[child.index() as int].children.len() == 0) by {
        if let Some(p) = v.live_parent(child) {
            if p.index() == child.index() {
                let cs = v.nodes[child.index() as int].children;
                assert(cs.filter(TreeView::<T>::not_ref_eq(child)).len() <= cs.len());
            }
        }
    }
    lemma_dealloc_opt_wf(v0, v.live_parent(child));
    let v1 = v.detach(child);
    assert(v1.nodes[child.index() as int].children.len() == 0);
    assert(v1.valid(child)) by {
        assert(v0.valid(child));
        if let Some(q) = v.live_parent(child) {
            if q.index() == child.index() {
                NodeRef::<T>::lemma_eq(q, child);
                assert(v0.nodes[child.index() as int].parent is Some);
            }
        }
    }
}


/// Linking, unlinking and writing a value keep each slot's generation and never make a free slot
/// live again.
proof fn lemma_no_slot_revived<T>(v: TreeView<T>, parent: NodeRef<T>, child: NodeRef<T>, x: T)
    requires
        v.wf(),
        v.valid(parent),
        v.valid(child),
    ensures
        forall|i: int|
            0 <= i < v.nodes.len() ==> #[trigger] v.link(parent, child).nodes[i].id == v.nodes[i].id && (
            v.nodes[i].free ==> v.link(parent, child).nodes[i].free),
        forall|i: int|
            0 <= i < v.nodes.len() ==> #[trigger] v.unlink(child).nodes[i].id == v.nodes[i].id && (v.nodes[i].free
                ==> v.unlink(child).nodes[i].free),
        forall|i: int|
            0 <= i < v.nodes.len() ==> #[trigger] v.with_node(child.index(), x).nodes[i].id == v.nodes[i].id && (
            v.nodes[i].free == v.with_node(child.index(), x).nodes[i].free),
        v.link(parent, child).nodes.len() == v.nodes.len(),
        v.unlink(child).nodes.len() == v.nodes.len(),
        v.with_node(child.index(), x).nodes.len() == v.nodes.len(),
{
    lemma_link_wf(v, parent, child);
    lemma_unlink_wf(v, child);
    let v0 = v.unhook(child);
    let v1 = v0.with_parent(child.index(), Some(parent));
    let v2 = v1.with_children(parent.index(), v1.nodes[parent.index() as int].children.push(child));
    let u1 = v0.dealloc_opt(v.live_parent(child));
    let u2 = u1.with_parent(child.index(), None);
    assert forall|i: int| 0 <= i < v.nodes.len() implies #[trigger] v2.nodes[i].id == v.nodes[i].id
        && v2.nodes[i].free == v.nodes[i].free && u2.nodes[i].id == v.nodes[i].id && (v.nodes[i].free
        ==> u2.nodes[i].free) by {}
}

/// No operation brings a handle to life but the one placing a node returns: after placing a
/// node, linking, unlinking or writing a value, every live handle was live before, or is the
/// handle on the new node. With the laws on which handles each operation keeps live, a handle
/// is live exactly when a placement returned it and no operation has freed its slot since.
pub proof fn lemma_no_revival<T>(v: TreeView<T>, node: T, parent: NodeRef<T>, child: NodeRef<T>, x: T, h: NodeRef<T>)
    requires
        v.wf(),
    ensures
        v.can_alloc() && v.place(node).0.valid(h) ==> v.valid(h) || h == v.place(node).1,
        v.valid(parent) && v.valid(child) && v.link(parent, child).valid(h) ==> v.valid(h),
        v.valid(child) && v.unlink(child).valid(h) ==> v.valid(h),
        v.valid(child) ==> (v.with_node(child.index(), x).valid(h) == v.valid(h)),
{
    if v.can_alloc() && v.place(node).0.valid(h) {
        let r = v.place(node).1;
        lemma_place_prefers_free_slot(v, node);
        NodeRef::<T>::lemma_eq(h, r);
        if v.free_indices.len() > 0 {
            let idx = v.free_indices.last();
            if h.index() != idx {
                assert(v.place(node).0.nodes[h.index() as int] == v.nodes[h.index() as int]);
            }
        } else {
            if h.index() < v.nodes.len() {
                assert(v.place(node).0.nodes[h.index() as int] == v.nodes[h.index() as int]);
            }
        }
    }
    if v.valid(parent) && v.valid(child) {
        lemma_no_slot_revived(v, parent, child, x);
    }
}


impl<T> TreeView<T> {
    /// Following recorded parents `n` times from slot `i` reaches slot `a`.
    pub open spec fn up(self, i: int, a: int, n: nat) -> bool
        decreases n,
    {
        if n == 0 {
            i == a
        } else {
            0 <= i < self.nodes.len() && self.nodes[i].parent is Some && self.up(
                (self.nodes[i].parent->0).index() as int,
                a,
                (n - 1) as nat,
            )
        }
    }

    /// Following recorded parents from any slot never comes back to it.
    pub open spec fn acyclic(self) -> bool {
        forall|i: int, n: nat| 0 < n ==> !#[trigger] self.up(i, i, n)
    }

    /// Slot `i` lies under slot `a`: following recorded parents from `i`, zero or more times,
    /// reaches `a`.
    pub open spec fn under(self, i: int, a: int) -> bool {
        exists|n: nat| #[trigger] self.up(i, a, n)
    }

    /// Each slot of `w` has no parent, or the parent it had in `self`.
    pub open spec fn parents_kept_or_cleared(self, w: TreeView<T>) -> bool {
        forall|j: int|
            0 <= j < w.nodes.len() && (#[trigger] w.nodes[j]).parent is Some ==> j < self.nodes.len()
                && w.nodes[j].parent == self.nodes[j].parent
    }
}

proof fn lemma_up_concat<T>(v: TreeView<T>, a: int, b: int, c: int, n: nat, m: nat)
    requires
        v.up(a, b, n),
        v.up(b, c, m),
    ensures
        v.up(a, c, n + m),
    decreases n,
{
    if n > 0 {
        lemma_up_concat(v, (v.nodes[a].parent->0).index() as int, b, c, (n - 1) as nat, m);
        assert((n + m - 1) as nat == (n - 1) as nat + m);
    }
}

proof fn lemma_up_fewer<T>(v: TreeView<T>, w: TreeView<T>, i: int, a: int, n: nat)
    requires
        v.parents_kept_or_cleared(w),
        w.up(i, a, n),
    ensures
        v.up(i, a, n),
    decreases n,
{
    if n > 0 {
        assert(w.nodes[i].parent is Some);
        lemma_up_fewer(v, w, (w.nodes[i].parent->0).index() as int, a, (n - 1) as nat);
    }
}

proof fn lemma_acyclic_fewer<T>(v: TreeView<T>, w: TreeView<T>)
    requires
        v.acyclic(),
        v.parents_kept_or_cleared(w),
    ensures
        w.acyclic(),
{
    assert forall|i: int, n: nat| 0 < n implies !#[trigger] w.up(i, i, n) by {
        if w.up(i, i, n) {
            lemma_up_fewer(v, w, i, i, n);
        }
    }
}

/// A path of `link(parent, child)` is a path of `v`, or a path of `v` up to `child` followed by
/// a path of the linked tree from `parent`.
proof fn lemma_up_link<T>(v: TreeView<T>, w: TreeView<T>, parent: NodeRef<T>, child: NodeRef<T>, j: int, a: int, n: nat)
    requires
        forall|k: int| 0 <= k < w.nodes.len() && k != child.index() ==> #[trigger] w.nodes[k].parent == v.nodes[k].parent,
        w.nodes.len() == v.nodes.len(),
        (child.index() as int) < w.nodes.len(),
        w.nodes[child.index() as int].parent == Some(parent),
        w.up(j, a, n),
    ensures
        v.up(j, a, n) || exists|k: nat| k < n && v.up(j, child.index() as int, k) && #[trigger] w.up(
            parent.index() as int,
            a,
            (n - k - 1) as nat,
        ),
    decreases n,
{
    if n > 0 {
        let q = (w.nodes[j].parent->0).index() as int;
        if j == child.index() {
            assert(v.up(j, child.index() as int, 0));
            assert(w.up(parent.index() as int, a, (n - 0 - 1) as nat));
        } else {
            assert(w.nodes[j].parent == v.nodes[j].parent);
            lemma_up_link(v, w, parent, child, q, a, (n - 1) as nat);
            if !v.up(q, a, (n - 1) as nat) {
                let k = choose|k: nat| k < n - 1 && v.up(q, child.index() as int, k) && #[trigger] w.up(
                    parent.index() as int,
                    a,
                    (n - 1 - k - 1) as nat,
                );
                assert(v.up(j, child.index() as int, k + 1));
                assert((n - (k + 1) - 1) as nat == (n - 1 - k - 1) as nat);
            }
        }
    }
}

/// Placing a node, unlinking a node and writing a value keep the tree free of cycles, and so
/// does linking `child` under `parent` when `parent` does not lie under `child`.
pub proof fn lemma_acyclic_kept<T>(v: TreeView<T>, node: T, parent: NodeRef<T>, child: NodeRef<T>, x: T)
    requires
        v.wf(),
        v.acyclic(),
    ensures
        v.can_alloc() ==> v.place(node).0.acyclic(),
        v.valid(child) ==> v.unlink(child).acyclic(),
        v.valid(child) ==> v.with_node(child.index(), x).acyclic(),
        v.valid(parent) && v.valid(child) && !v.under(parent.index() as int, child.index() as int) ==> v.link(
            parent,
            child,
        ).acyclic(),
{
    if v.can_alloc() {
        let w = v.place(node).0;
        lemma_place_prefers_free_slot(v, node);
        assert(v.parents_kept_or_cleared(w));
        lemma_acyclic_fewer(v, w);
    }
    if v.valid(child) {
        let w = v.unlink(child);
        lemma_unlink_wf(v, child);
        lemma_unhook(v, child);
        assert(v.parents_kept_or_cleared(w));
        lemma_acyclic_fewer(v, w);
        let w2 = v.with_node(child.index(), x);
        assert(v.parents_kept_or_cleared(w2));
        lemma_acyclic_fewer(v, w2);
    }
    if v.valid(parent) && v.valid(child) && !v.under(parent.index() as int, child.index() as int) {
        let w = v.link(parent, child);
        lemma_link_wf(v, parent, child);
        lemma_unhook(v, child);
        let v0 = v.unhook(child);
        let v1 = v0.with_parent(child.index(), Some(parent));
        let v2 = v1.with_children(parent.index(), v1.nodes[parent.index() as int].children.push(child));
        lemma_dealloc_opt_wf(v2, v.live_parent(child));
        assert forall|k: int| 0 <= k < w.nodes.len() && k != child.index() implies #[trigger] w.nodes[k].parent
            == v.nodes[k].parent by {}
        assert forall|i: int, n: nat| 0 < n implies !#[trigger] w.up(i, i, n) by {
            if w.up(i, i, n) {
                lemma_up_link(v, w, parent, child, i, i, n);
                if v.up(i, i, n) {
                } else {
                    let k = choose|k: nat| k < n && v.up(i, child.index() as int, k) && #[trigger] w.up(
                        parent.index() as int,
                        i,
                        (n - k - 1) as nat,
                    );
                    let m = (n - k - 1) as nat;
                    lemma_up_link(v, w, parent, child, parent.index() as int, i, m);
                    if v.up(parent.index() as int, i, m) {
                        lemma_up_concat(v, parent.index() as int, i, child.index() as int, m, k);
                        assert(v.under(parent.index() as int, child.index() as int));
                    } else {
                        let k2 = choose|k2: nat| k2 < m && v.up(parent.index() as int, child.index() as int, k2)
                            && #[trigger] w.up(parent.index() as int, i, (m - k2 - 1) as nat);
                        assert(v.under(parent.index() as int, child.index() as int));
                    }
                }
            }
        }
    }
}


/// What removing `child` from its parent leaves, from `v` to `w`: `child` has no parent, and
/// stays live exactly when it has a child other than itself; a former parent other than `child`
/// no longer lists it, and stays live exactly when it has a parent or a child other than
/// `child`.
pub open spec fn removed_as_child<T>(v: TreeView<T>, w: TreeView<T>, child: NodeRef<T>) -> bool {
    &&& w.nodes[child.index() as int].parent is None
    &&& w.valid(child) == exists|k: int|
        0 <= k < v.nodes[child.index() as int].children.len() && #[trigger] v.nodes[child.index() as int].children[k]
            != child
    &&& match v.nodes[child.index() as int].parent {
        Some(q) => q != child ==> {
            &&& !w.nodes[q.index() as int].children.contains(child)
            &&& w.valid(q) == (v.nodes[q.index() as int].parent is Some || exists|k: int|
                0 <= k < v.nodes[q.index() as int].children.len() && #[trigger] v.nodes[q.index() as int].children[k]
                    != child)
        },
        None => true,
    }
}

/// A filtered sequence is empty exactly when no element passes the filter.
proof fn lemma_filter_empty<A>(s: Seq<A>, pred: spec_fn(A) -> bool)
    ensures
        (s.filter(pred).len() == 0) == !(exists|k: int| 0 <= k < s.len() && pred(#[trigger] s[k])),
{
    if exists|k: int| 0 <= k < s.len() && pred(#[trigger] s[k]) {
        let k = choose|k: int| 0 <= k < s.len() && pred(#[trigger] s[k]);
        s.lemma_filter_contains(pred, k);
    }
    if s.filter(pred).len() > 0 {
        let e = s.filter(pred)[0];
        s.lemma_filter_pred(pred, 0);
        assert(s.filter(pred).contains(e));
        s.lemma_filter_contains_rev(pred, e);
        let k = choose|k: int| 0 <= k < s.len() && s[k] == e;
        assert(pred(s[k]));
    }
}

/// `remove_child` takes the child out of its parent, clears its parent, frees the former parent
/// when it is left with no parent and no children, and frees the child when it has no children.
pub proof fn lemma_unlink_result<T>(v: TreeView<T>, child: NodeRef<T>)
    requires
        v.wf(),
        v.valid(child),
    ensures
        removed_as_child(v, v.unlink(child), child),
{
    let ci = child.index() as int;
    let qo = v.nodes[ci].parent;
    let w = v.unlink(child);
    assert(v.live(ci));
    assert(v.live_parent(child) == qo);
    lemma_unhook(v, child);
    let v0 = v.unhook(child);
    lemma_dealloc_opt_wf(v0, qo);
    let v1 = v0.dealloc_opt(qo);
    let v2 = v1.with_parent(child.index(), None);
    let not_c = TreeView::<T>::not_ref_eq(child);
    NodeRef::<T>::lemma_at_of(child);
    let cs = v.nodes[ci].children;
    assert(v.handle(ci) == child);
    // `child` lists itself only when it is its own parent
    if cs.contains(child) {
        let k = choose|k: int| 0 <= k < cs.len() && cs[k] == child;
        assert(v.nodes[cs[k].index() as int].parent == Some(v.handle(ci)));
    }
    lemma_filter_empty(cs, not_c);
    assert forall|k: int| 0 <= k < cs.len() implies not_c(#[trigger] cs[k]) == (cs[k] != child) by {
        NodeRef::<T>::lemma_eq(cs[k], child);
    }
    match qo {
        Some(q) => {
            let qi = q.index() as int;
            NodeRef::<T>::lemma_eq(q, child);
            if q != child {
                assert(qi != ci);
                let qs = v.nodes[qi].children;
                lemma_filter_empty(qs, not_c);
                assert forall|k: int| 0 <= k < qs.len() implies not_c(#[trigger] qs[k]) == (qs[k] != child) by {
                    NodeRef::<T>::lemma_eq(qs[k], child);
                }
                lemma_filter_has(qs, not_c, child);
                assert(w.nodes[qi].children == qs.filter(not_c));
                assert(v0.nodes[ci].children == cs);
                if !(exists|k: int| 0 <= k < cs.len() && #[trigger] cs[k] != child) {
                    assert(cs.len() == 0) by {
                        if cs.len() > 0 {
                            assert(cs[0] == child);
                            assert(cs.contains(child));
                        }
                    }
                }
            } else {
                assert(v0.nodes[ci].children == cs.filter(not_c));
                assert(v1 == v0);
            }
        },
        None => {
            assert(v0 == v);
            if !(exists|k: int| 0 <= k < cs.len() && #[trigger] cs[k] != child) {
                assert(cs.len() == 0) by {
                    if cs.len() > 0 {
                        assert(cs[0] == child);
                        assert(cs.contains(child));
                    }
                }
            }
        },
    }
}


/// In `w`, the node `p` is live, has no parent, and has exactly the handles `cs` as its
/// children, in order; each of them is live and records `p` as its parent.
pub open spec fn adopted<T>(w: TreeView<T>, p: NodeRef<T>, cs: Seq<NodeRef<T>>) -> bool {
    &&& w.valid(p)
    &&& w.nodes[p.index() as int].parent is None
    &&& w.nodes[p.index() as int].children == cs
    &&& forall|i: int|
        0 <= i < cs.len() ==> w.valid(#[trigger] cs[i]) && w.nodes[cs[i].index() as int].parent == Some(p)
}

/// Linking distinct live handles one after another under a fresh node without parent or
/// children makes them its children, in order, each recording it as parent, whatever parents
/// they had before.
pub proof fn lemma_adopt_result<T>(v: TreeView<T>, p: NodeRef<T>, cs: Seq<NodeRef<T>>)
    requires
        v.wf(),
        v.valid(p),
        v.nodes[p.index() as int].parent is None,
        v.nodes[p.index() as int].children.len() == 0,
        cs.no_duplicates(),
        !cs.contains(p),
    ensures
        v.adopt(p, cs).0.wf(),
        v.adopt(p, cs).0.nodes.len() == v.nodes.len(),
        forall|i: int| 0 <= i < v.nodes.len() ==> #[trigger] v.adopt(p, cs).0.nodes[i].node == v.nodes[i].node,
        v.adopt(p, cs).1 is None ==> adopted(v.adopt(p, cs).0, p, cs),
        v.adopt(p, cs).1 matches Some(k) ==> {
            &&& k < cs.len()
            &&& !v.adopt(p, cs).0.valid(cs[k as int])
            &&& adopted(v.adopt(p, cs).0, p, cs.take(k as int))
        },
    decreases cs.len(),
{
    if cs.len() == 0 {
        assert(v.nodes[p.index() as int].children =~= cs);
    } else {
        let pre = cs.drop_last();
        let c = cs.last();
        assert(pre.no_duplicates()) by {
            assert forall|a: int, b: int| 0 <= a < pre.len() && 0 <= b < pre.len() && a != b implies pre[a] != pre[b] by {
                assert(pre[a] == cs[a] && pre[b] == cs[b]);
            }
        }
        assert(!pre.contains(p)) by {
            if pre.contains(p) {
                let k = choose|k: int| 0 <= k < pre.len() && pre[k] == p;
                assert(cs[k] == p);
            }
        }
        assert(!pre.contains(c)) by {
            if pre.contains(c) {
                let k = choose|k: int| 0 <= k < pre.len() && pre[k] == c;
                assert(cs[k] == cs[cs.len() - 1]);
            }
        }
        assert(c != p) by {
            assert(cs[cs.len() - 1] == c);
        }
        lemma_adopt_result(v, p, pre);
        let (u, err) = v.adopt(p, pre);
        if let Some(k) = err {
            assert(pre.take(k as int) =~= cs.take(k as int));
            assert(pre[k as int] == cs[k as int]);
        } else if !u.valid(c) {
            assert(pre =~= cs.take(cs.len() - 1));
        }
        if err is None && u.valid(c) {
            lemma_link_wf(u, p, c);
            let w = u.link(p, c);
            let pi = p.index() as int;
            let ci = c.index() as int;
            NodeRef::<T>::lemma_eq(p, c);
            assert(pi != ci);
            let qo = u.nodes[ci].parent;
            assert(u.live(ci));
            assert(u.live_parent(c) == qo);
            match qo {
                Some(q) => {
                    assert(u.nodes[q.index() as int].children.contains(u.handle(ci)));
                    NodeRef::<T>::lemma_at_of(c);
                    if q == p {
                        assert(pre.contains(c));
                    }
                    NodeRef::<T>::lemma_eq(q, p);
                    assert(q.index() != p.index());
                },
                None => {},
            }
            lemma_unhook(u, c);
            let v0 = u.unhook(c);
            let v1 = v0.with_parent(c.index(), Some(p));
            let v2 = v1.with_children(p.index(), v1.nodes[pi].children.push(c));
            lemma_with_parent_wf(v0, c.index(), Some(p));
            lemma_with_children_wf(v1, p.index(), v1.nodes[pi].children.push(c));
            lemma_dealloc_opt_wf(v2, qo);
            assert forall|i: int| 0 <= i < v.nodes.len() implies #[trigger] w.nodes[i].node == v.nodes[i].node by {
                assert(u.nodes[i].node == v.nodes[i].node);
                assert(v2.nodes[i].node == u.nodes[i].node);
            }
            assert(v0.nodes[pi] == u.nodes[pi]);
            assert(w.nodes[pi].children == pre.push(c));
            assert(pre.push(c) =~= cs);
            assert forall|i: int| 0 <= i < cs.len() implies w.valid(#[trigger] cs[i]) && w.nodes[cs[i].index() as int].parent
                == Some(p) by {
                if i < cs.len() - 1 {
                    let d = cs[i];
                    assert(d == pre[i]);
                    assert(u.valid(d) && u.nodes[d.index() as int].parent == Some(p));
                    NodeRef::<T>::lemma_eq(d, c);
                    assert(d.index() != c.index());
                    assert(v2.valid(d));
                    assert(v2.nodes[d.index() as int].parent is Some);
                }
            }
        }
    }
}


/// A sequence none of whose elements the filter drops is its own filtered sequence.
proof fn lemma_filter_keeps_all<A>(s: Seq<A>, pred: spec_fn(A) -> bool)
    requires
        forall|k: int| 0 <= k < s.len() ==> pred(#[trigger] s[k]),
    ensures
        s.filter(pred) == s,
    decreases s.len(),
{
    if s.len() == 0 {
        assert(s.filter(pred) =~= s) by {
            reveal(Seq::filter);
        }
    } else {
        let p = s.drop_last();
        assert forall|k: int| 0 <= k < p.len() implies pred(#[trigger] p[k]) by {
            assert(p[k] == s[k]);
        }
        lemma_filter_keeps_all(p, pred);
        p.lemma_filter_push(s.last(), pred);
        assert(p.push(s.last()) =~= s);
    }
}

/// What linking `c` under `p` leaves, from `v` to `w`: both stay live; `c` records `p` as its
/// parent and is the last child of `p`, whose other children are those it had but `c`; a
/// former parent `q` other than `p` no longer lists `c` and stays live exactly when it has a
/// parent or a child other than `c`; every other slot is unchanged.
pub open spec fn linked_as_child<T>(v: TreeView<T>, w: TreeView<T>, p: NodeRef<T>, c: NodeRef<T>) -> bool {
    &&& w.valid(p)
    &&& w.valid(c)
    &&& w.nodes[c.index() as int].parent == Some(p)
    &&& v.nodes[c.index() as int].parent != Some(c) ==> w.nodes[c.index() as int].children == v.nodes[c.index() as int].children
    &&& w.nodes[p.index() as int].children == v.nodes[p.index() as int].children.filter(TreeView::<T>::not_ref_eq(
        c,
    )).push(c)
    &&& w.nodes[p.index() as int].parent == v.nodes[p.index() as int].parent
    &&& match v.nodes[c.index() as int].parent {
        Some(q) => q != p ==> {
            &&& !w.nodes[q.index() as int].children.contains(c)
            &&& w.valid(q) == (v.nodes[q.index() as int].parent is Some || exists|k: int|
                0 <= k < v.nodes[q.index() as int].children.len() && #[trigger] v.nodes[q.index() as int].children[k]
                    != c)
        },
        None => true,
    }
    &&& forall|i: int|
        0 <= i < v.nodes.len() && i != p.index() && i != c.index() && (v.nodes[c.index() as int].parent matches Some(
            q,
        ) ==> i != q.index()) ==> #[trigger] w.nodes[i] == v.nodes[i]
}

/// `add_child(p, c)` on distinct live nodes moves `c` under `p`, as `linked_as_child` says.
pub proof fn lemma_link_direct<T>(v: TreeView<T>, p: NodeRef<T>, c: NodeRef<T>)
    requires
        v.wf(),
        v.valid(p),
        v.valid(c),
        p != c,
    ensures
        linked_as_child(v, v.link(p, c), p, c),
{
    let pi = p.index() as int;
    let ci = c.index() as int;
    let qo = v.nodes[ci].parent;
    let w = v.link(p, c);
    NodeRef::<T>::lemma_eq(p, c);
    assert(pi != ci);
    assert(v.live(ci));
    assert(v.live_parent(c) == qo);
    lemma_link_wf(v, p, c);
    lemma_unhook(v, c);
    let v0 = v.unhook(c);
    let v1 = v0.with_parent(c.index(), Some(p));
    let v2 = v1.with_children(p.index(), v1.nodes[pi].children.push(c));
    lemma_dealloc_opt_wf(v2, qo);
    let not_c = TreeView::<T>::not_ref_eq(c);
    NodeRef::<T>::lemma_at_of(c);
    assert(v.handle(ci) == c);
    let pc = v.nodes[pi].children;
    // `p` lists `c` only when it is its parent
    if qo != Some(p) {
        assert forall|k: int| 0 <= k < pc.len() implies not_c(#[trigger] pc[k]) by {
            NodeRef::<T>::lemma_eq(pc[k], c);
            if pc[k] == c {
                assert(v.nodes[pc[k].index() as int].parent == Some(v.handle(pi)));
                NodeRef::<T>::lemma_at_of(p);
            }
        }
        lemma_filter_keeps_all(pc, not_c);
    }
    match qo {
        Some(q) => {
            let qi = q.index() as int;
            NodeRef::<T>::lemma_eq(q, p);
            NodeRef::<T>::lemma_eq(q, c);
            if q != p {
                assert(qi != pi);
                let qs = v.nodes[qi].children;
                lemma_filter_has(qs, not_c, c);
                lemma_filter_empty(qs, not_c);
                assert forall|k: int| 0 <= k < qs.len() implies not_c(#[trigger] qs[k]) == (qs[k] != c) by {
                    NodeRef::<T>::lemma_eq(qs[k], c);
                }
                assert(w.nodes[qi].children == qs.filter(not_c));
            } else {
                assert(qi == pi);
            }
        },
        None => {},
    }
}


/// Linking handles under a live node `p` keeps `p` live, keeps every node's value, and stops at
/// a handle that is not live.
proof fn lemma_adopt_keeps<T>(v: TreeView<T>, p: NodeRef<T>, cs: Seq<NodeRef<T>>)
    requires
        v.wf(),
        v.valid(p),
    ensures
        v.adopt(p, cs).0.wf(),
        v.adopt(p, cs).0.valid(p),
        v.adopt(p, cs).0.nodes.len() == v.nodes.len(),
        forall|i: int| 0 <= i < v.nodes.len() ==> #[trigger] v.adopt(p, cs).0.nodes[i].node == v.nodes[i].node,
        v.adopt(p, cs).1 matches Some(k) ==> k < cs.len() && !v.adopt(p, cs).0.valid(cs[k as int]),
    decreases cs.len(),
{
    if cs.len() > 0 {
        let pre = cs.drop_last();
        lemma_adopt_keeps(v, p, pre);
        let (u, err) = v.adopt(p, pre);
        if let Some(k) = err {
            assert(pre[k as int] == cs[k as int]);
        }
        if err is None && u.valid(cs.last()) {
            let c = cs.last();
            lemma_link_wf(u, p, c);
            lemma_link_result(u, p, c);
            let w = u.link(p, c);
            lemma_unhook(u, c);
            let v0 = u.unhook(c);
            let v1 = v0.with_parent(c.index(), Some(p));
            let v2 = v1.with_children(p.index(), v1.nodes[p.index() as int].children.push(c));
            lemma_dealloc_opt_wf(v2, u.live_parent(c));
            assert forall|i: int| 0 <= i < v.nodes.len() implies #[trigger] w.nodes[i].node == v.nodes[i].node by {
                assert(u.nodes[i].node == v.nodes[i].node);
                assert(v2.nodes[i].node == u.nodes[i].node);
            }
        }
    }
}

} // verus!

use vstd::prelude::*;
use crate::item_ptr::ItemPtr;

verus! {

/// The ways in which building, encoding or decoding a node can fail.
#[derive(Clone, Copy, Debug, PartialEq, Eq, Structural)]
pub enum NodeError {
    /// A node was built without keys, so it has no high key.
    Construction,
    /// The field encoder failed; the encoders of the field types used here
    /// never do, so no function of this crate returns it.
    Encode,
    /// The encoded node is longer than the page.
    PageOverflow,
    /// The bytes do not hold a well-formed node.
    Decode,
}

/// One node of a B-link tree, leaf or internal.
///
/// `high_key` is the largest of `keys`; `link` points to the right sibling
/// at the same level, or is null.
#[derive(Clone, Debug, PartialEq, Eq)]
pub struct Node {
    pub leaf: bool,
    pub order: u32,
    pub loc: ItemPtr,
    pub link: ItemPtr,
    pub high_key: u32,
    pub keys: Vec<u32>,
    pub children: Vec<ItemPtr>,
}

/// The value of a node, with its sequences as `Seq`s.
pub struct NodeView {
    pub leaf: bool,
    pub order: u32,
    pub loc: ItemPtr,
    pub link: ItemPtr,
    pub high_key: u32,
    pub keys: Seq<u32>,
    pub children: Seq<ItemPtr>,
}

/// Whether `k` is one of `s` and no element of `s` is larger.
pub open spec fn is_max_of(k: u32, s: Seq<u32>) -> bool {
    s.contains(k) && forall|i: int| 0 <= i < s.len() ==> s[i] <= k
}

impl NodeView {
    /// A node that may be stored: it has keys, its high key is their
    /// maximum, and its sequences can be held in memory.
    pub open spec fn wf(self) -> bool {
        &&& self.keys.len() > 0
        &&& is_max_of(self.high_key, self.keys)
        &&& self.keys.len() <= usize::MAX
        &&& self.children.len() <= usize::MAX
    }
}

impl View for Node {
    type V = NodeView;

    open spec fn view(&self) -> NodeView {
        NodeView {
            leaf: self.leaf,
            order: self.order,
            loc: self.loc,
            link: self.link,
            high_key: self.high_key,
            keys: self.keys@,
            children: self.children@,
        }
    }
}

/// The largest element of a non-empty sequence.
pub(crate) fn max_key(keys: &Vec<u32>) -> (r: u32)
    requires
        keys@.len() > 0,
    ensures
        is_max_of(r, keys@),
{
    let mut best: u32 = keys[0];
    let ghost mut at: int = 0;
    let mut i: usize = 1;
    while i < keys.len()
        invariant
            1 <= i <= keys@.len(),
            0 <= at < i,
            keys@[at] == best,
            forall|j: int| 0 <= j < i ==> keys@[j] <= best,
        decreases keys@.len() - i,
    {
        if keys[i] > best {
            best = keys[i];
            proof {
                at = i as int;
            }
        }
        i = i + 1;
    }
    assert(keys@[at] == best);
    best
}

impl Node {
    /// A new leaf node; its high key is the largest of `keys`, which need
    /// not be sorted. Fails where `keys` is empty.
    pub fn new(order: u32, loc: ItemPtr, link: ItemPtr, keys: Vec<u32>, children: Vec<ItemPtr>) -> (r:
        Result<Node, NodeError>)
        ensures
            keys@.len() == 0 <==> r == Err::<Node, NodeError>(NodeError::Construction),
            r is Ok <==> keys@.len() > 0,
            r matches Ok(n) ==> {
                &&& n@.wf()
                &&& n.leaf
                &&& n.order == order
                &&& n.loc == loc
                &&& n.link == link
                &&& n.keys@ == keys@
                &&& n.children@ == children@
            },
    {
        if keys.len() == 0 {
            return Err(NodeError::Construction);
        }
        let high_key = max_key(&keys);
        // The length of a `Vec` fits a `usize`.
        let _child_count: usize = children.len();
        Ok(Node { leaf: true, order, loc, link, high_key, keys, children })
    }
}

} // verus!

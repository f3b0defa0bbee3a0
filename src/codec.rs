//! The page format of a node.
//!
//! A node is written as its fields in order: the leaf tag, the order, `loc`
//! and `link` (each a page number and an offset), the high key, the keys
//! after their count, and the children after their count. The encoding
//! delimits itself, so a page is that encoding followed by zero bytes, and
//! decoding reads the prefix and ignores the padding.
use vstd::prelude::*;
use crate::item_ptr::ItemPtr;
use crate::node::{Node, NodeError, NodeView, is_max_of, max_key};
use crate::wire::{
    put_bool, put_i32, put_u32, put_usize, read_bool, read_i32, read_u32, read_usize,
    bool_bytes, holds_at, i32_bytes, lemma_i32_bytes, lemma_u32_bytes, lemma_usize_bytes, u32_bytes,
    usize_bytes,
};

verus! {

/// The page size used where no other is chosen.
pub const PAGE_SIZE: usize = 512;

pub open spec fn ptr_bytes(p: ItemPtr) -> Seq<u8> {
    i32_bytes(p.page_no) + usize_bytes(p.offset)
}

pub open spec fn keys_bytes(s: Seq<u32>) -> Seq<u8>
    decreases s.len(),
{
    if s.len() == 0 {
        Seq::empty()
    } else {
        keys_bytes(s.drop_last()) + u32_bytes(s.last())
    }
}

pub open spec fn ptrs_bytes(s: Seq<ItemPtr>) -> Seq<u8>
    decreases s.len(),
{
    if s.len() == 0 {
        Seq::empty()
    } else {
        ptrs_bytes(s.drop_last()) + ptr_bytes(s.last())
    }
}

/// The fixed-width fields that open the encoding.
pub open spec fn header_bytes(n: NodeView) -> Seq<u8> {
    bool_bytes(n.leaf) + u32_bytes(n.order) + ptr_bytes(n.loc) + ptr_bytes(n.link) + u32_bytes(
        n.high_key,
    )
}

/// The encoding of a node.
pub open spec fn node_bytes(n: NodeView) -> Seq<u8> {
    header_bytes(n) + usize_bytes(n.keys.len() as usize) + keys_bytes(n.keys) + usize_bytes(
        n.children.len() as usize,
    ) + ptrs_bytes(n.children)
}

/// A page of `size` bytes that holds the encoding of `n` and zeros after it.
pub open spec fn page_bytes(n: NodeView, size: nat) -> Seq<u8> {
    node_bytes(n) + Seq::new((size - node_bytes(n).len()) as nat, |i: int| 0u8)
}

/// Whether `s` begins with the encoding of the well-formed node `n`.
pub open spec fn starts_with_node(s: Seq<u8>, n: NodeView) -> bool {
    n.wf() && holds_at(s, 0, node_bytes(n))
}

/// The node whose encoding `s` begins with, if there is one.
pub open spec fn decoded(s: Seq<u8>) -> Option<NodeView> {
    if exists|n: NodeView| starts_with_node(s, n) {
        Some(choose|n: NodeView| starts_with_node(s, n))
    } else {
        None
    }
}

/// Where the fields of a node with `k` keys begin: the key count, the keys,
/// the child count and the children.
pub open spec fn keys_at() -> int {
    41
}

pub open spec fn child_count_at(k: int) -> int {
    41 + 4 * k
}

pub open spec fn children_at(k: int) -> int {
    49 + 4 * k
}

proof fn lemma_holds_split(s: Seq<u8>, pos: int, a: Seq<u8>, b: Seq<u8>)
    ensures
        holds_at(s, pos, a + b) <==> (holds_at(s, pos, a) && holds_at(s, pos + a.len(), b)),
{
    if holds_at(s, pos, a + b) {
        let w = s.subrange(pos, pos + (a + b).len());
        assert forall|i: int| 0 <= i < a.len() implies s.subrange(pos, pos + a.len())[i] == a[i] by {
            assert(w[i] == (a + b)[i]);
        }
        assert forall|i: int| 0 <= i < b.len() implies s.subrange(
            pos + a.len(),
            pos + a.len() + b.len(),
        )[i] == b[i] by {
            assert(w[i + a.len()] == (a + b)[i + a.len()]);
        }
        assert(s.subrange(pos, pos + a.len()) =~= a);
        assert(s.subrange(pos + a.len(), pos + a.len() + b.len()) =~= b);
    }
    if holds_at(s, pos, a) && holds_at(s, pos + a.len(), b) {
        assert forall|i: int| 0 <= i < (a + b).len() implies s.subrange(pos, pos + (a + b).len())[i]
            == (a + b)[i] by {
            if i < a.len() {
                assert(s.subrange(pos, pos + a.len())[i] == a[i]);
            } else {
                assert(s.subrange(pos + a.len(), pos + a.len() + b.len())[i - a.len()] == b[i
                    - a.len()]);
            }
        }
        assert(s.subrange(pos, pos + (a + b).len()) =~= a + b);
    }
}

proof fn lemma_holds_within(s: Seq<u8>, pos: int, big: Seq<u8>, from: int, to: int)
    requires
        holds_at(s, pos, big),
        0 <= from <= to <= big.len(),
    ensures
        holds_at(s, pos + from, big.subrange(from, to)),
{
    assert(s.subrange(pos + from, pos + to) =~= big.subrange(from, to));
}

proof fn lemma_keys_bytes(s: Seq<u32>, i: int)
    requires
        0 <= i < s.len(),
    ensures
        keys_bytes(s).len() == 4 * s.len(),
        keys_bytes(s).subrange(4 * i, 4 * i + 4) == u32_bytes(s[i]),
    decreases s.len(),
{
    lemma_u32_bytes(s.last(), s.last());
    if s.len() == 1 {
        assert(keys_bytes(s.drop_last()) =~= Seq::<u8>::empty());
        assert(keys_bytes(s).subrange(0, 4) =~= u32_bytes(s[0]));
    } else if i == s.len() - 1 {
        lemma_keys_bytes(s.drop_last(), 0);
        assert(keys_bytes(s).subrange(4 * i, 4 * i + 4) =~= u32_bytes(s[i]));
    } else {
        lemma_keys_bytes(s.drop_last(), i);
        assert(keys_bytes(s).subrange(4 * i, 4 * i + 4) =~= keys_bytes(s.drop_last()).subrange(
            4 * i,
            4 * i + 4,
        ));
    }
}

proof fn lemma_keys_len(s: Seq<u32>)
    ensures
        keys_bytes(s).len() == 4 * s.len(),
{
    if s.len() > 0 {
        lemma_keys_bytes(s, 0);
    }
}

proof fn lemma_ptrs_bytes(s: Seq<ItemPtr>, i: int)
    requires
        0 <= i < s.len(),
    ensures
        ptrs_bytes(s).len() == 12 * s.len(),
        ptrs_bytes(s).subrange(12 * i, 12 * i + 12) == ptr_bytes(s[i]),
    decreases s.len(),
{
    lemma_i32_bytes(s.last().page_no, s.last().page_no);
    lemma_usize_bytes(s.last().offset, s.last().offset);
    if s.len() == 1 {
        assert(ptrs_bytes(s.drop_last()) =~= Seq::<u8>::empty());
        assert(ptrs_bytes(s).subrange(0, 12) =~= ptr_bytes(s[0]));
    } else if i == s.len() - 1 {
        lemma_ptrs_bytes(s.drop_last(), 0);
        assert(ptrs_bytes(s).subrange(12 * i, 12 * i + 12) =~= ptr_bytes(s[i]));
    } else {
        lemma_ptrs_bytes(s.drop_last(), i);
        assert(ptrs_bytes(s).subrange(12 * i, 12 * i + 12) =~= ptrs_bytes(s.drop_last()).subrange(
            12 * i,
            12 * i + 12,
        ));
    }
}

proof fn lemma_ptrs_len(s: Seq<ItemPtr>)
    ensures
        ptrs_bytes(s).len() == 12 * s.len(),
{
    if s.len() > 0 {
        lemma_ptrs_bytes(s, 0);
    }
}

/// The encoding of a pointer read at `pos` as its two fields.
proof fn lemma_ptr_fields(s: Seq<u8>, pos: int, p: ItemPtr)
    ensures
        ptr_bytes(p).len() == 12,
        holds_at(s, pos, ptr_bytes(p)) <==> (holds_at(s, pos, i32_bytes(p.page_no)) && holds_at(
            s,
            pos + 4,
            usize_bytes(p.offset),
        )),
{
    lemma_i32_bytes(p.page_no, p.page_no);
    lemma_usize_bytes(p.offset, p.offset);
    lemma_holds_split(s, pos, i32_bytes(p.page_no), usize_bytes(p.offset));
}

/// Where each field of an encoded node stands.
proof fn lemma_layout(s: Seq<u8>, n: NodeView)
    requires
        n.keys.len() <= usize::MAX,
        n.children.len() <= usize::MAX,
    ensures
        node_bytes(n).len() == children_at(n.keys.len() as int) + 12 * n.children.len(),
        holds_at(s, 0, node_bytes(n)) <==> {
            &&& holds_at(s, 0, bool_bytes(n.leaf))
            &&& holds_at(s, 1, u32_bytes(n.order))
            &&& holds_at(s, 5, i32_bytes(n.loc.page_no))
            &&& holds_at(s, 9, usize_bytes(n.loc.offset))
            &&& holds_at(s, 17, i32_bytes(n.link.page_no))
            &&& holds_at(s, 21, usize_bytes(n.link.offset))
            &&& holds_at(s, 29, u32_bytes(n.high_key))
            &&& holds_at(s, 33, usize_bytes(n.keys.len() as usize))
            &&& holds_at(s, keys_at(), keys_bytes(n.keys))
            &&& holds_at(s, child_count_at(n.keys.len() as int), usize_bytes(n.children.len() as usize))
            &&& holds_at(s, children_at(n.keys.len() as int), ptrs_bytes(n.children))
        },
{
    let k = n.keys.len() as int;
    lemma_u32_bytes(n.order, n.order);
    lemma_u32_bytes(n.high_key, n.high_key);
    lemma_usize_bytes(n.keys.len() as usize, n.keys.len() as usize);
    lemma_usize_bytes(n.children.len() as usize, n.children.len() as usize);
    lemma_keys_len(n.keys);
    lemma_ptrs_len(n.children);
    lemma_ptr_fields(s, 5, n.loc);
    lemma_ptr_fields(s, 17, n.link);
    let a1 = bool_bytes(n.leaf);
    let a2 = a1 + u32_bytes(n.order);
    let a3 = a2 + ptr_bytes(n.loc);
    let a4 = a3 + ptr_bytes(n.link);
    let a5 = a4 + u32_bytes(n.high_key);
    let a6 = a5 + usize_bytes(n.keys.len() as usize);
    let a7 = a6 + keys_bytes(n.keys);
    let a8 = a7 + usize_bytes(n.children.len() as usize);
    lemma_holds_split(s, 0, a1, u32_bytes(n.order));
    lemma_holds_split(s, 0, a2, ptr_bytes(n.loc));
    lemma_holds_split(s, 0, a3, ptr_bytes(n.link));
    lemma_holds_split(s, 0, a4, u32_bytes(n.high_key));
    lemma_holds_split(s, 0, a5, usize_bytes(n.keys.len() as usize));
    lemma_holds_split(s, 0, a6, keys_bytes(n.keys));
    lemma_holds_split(s, 0, a7, usize_bytes(n.children.len() as usize));
    lemma_holds_split(s, 0, a8, ptrs_bytes(n.children));
}

proof fn lemma_same_field_u32(s: Seq<u8>, pos: int, x: u32, y: u32)
    requires
        holds_at(s, pos, u32_bytes(x)),
        holds_at(s, pos, u32_bytes(y)),
    ensures
        x == y,
{
    lemma_u32_bytes(x, y);
    lemma_u32_bytes(y, x);
}

proof fn lemma_same_field_i32(s: Seq<u8>, pos: int, x: i32, y: i32)
    requires
        holds_at(s, pos, i32_bytes(x)),
        holds_at(s, pos, i32_bytes(y)),
    ensures
        x == y,
{
    lemma_i32_bytes(x, y);
    lemma_i32_bytes(y, x);
}

proof fn lemma_same_field_usize(s: Seq<u8>, pos: int, x: usize, y: usize)
    requires
        holds_at(s, pos, usize_bytes(x)),
        holds_at(s, pos, usize_bytes(y)),
    ensures
        x == y,
{
    lemma_usize_bytes(x, y);
    lemma_usize_bytes(y, x);
}

/// Two sequences of keys of one length whose encodings stand at one place
/// are equal.
proof fn lemma_same_keys(s: Seq<u8>, pos: int, a: Seq<u32>, b: Seq<u32>)
    requires
        a.len() == b.len(),
        holds_at(s, pos, keys_bytes(a)),
        holds_at(s, pos, keys_bytes(b)),
    ensures
        a == b,
{
    lemma_keys_len(a);
    lemma_keys_len(b);
    assert forall|i: int| 0 <= i < a.len() implies a[i] == b[i] by {
        lemma_keys_bytes(a, i);
        lemma_keys_bytes(b, i);
        lemma_u32_bytes(a[i], b[i]);
    }
    assert(a =~= b);
}

/// Two sequences of pointers of one length whose encodings stand at one
/// place are equal.
proof fn lemma_same_ptrs(s: Seq<u8>, pos: int, a: Seq<ItemPtr>, b: Seq<ItemPtr>)
    requires
        a.len() == b.len(),
        holds_at(s, pos, ptrs_bytes(a)),
        holds_at(s, pos, ptrs_bytes(b)),
    ensures
        a == b,
{
    lemma_ptrs_len(a);
    lemma_ptrs_len(b);
    assert forall|i: int| 0 <= i < a.len() implies a[i] == b[i] by {
        lemma_ptrs_bytes(a, i);
        lemma_ptrs_bytes(b, i);
        lemma_holds_within(s, pos, ptrs_bytes(a), 12 * i, 12 * i + 12);
        lemma_holds_within(s, pos, ptrs_bytes(b), 12 * i, 12 * i + 12);
        lemma_ptr_fields(s, pos + 12 * i, a[i]);
        lemma_ptr_fields(s, pos + 12 * i, b[i]);
        lemma_same_field_i32(s, pos + 12 * i, a[i].page_no, b[i].page_no);
        lemma_same_field_usize(s, pos + 4 + 12 * i, a[i].offset, b[i].offset);
    }
    assert(a =~= b);
}

/// A byte sequence begins with the encoding of at most one node.
proof fn lemma_unique(s: Seq<u8>, a: NodeView, b: NodeView)
    requires
        a.keys.len() <= usize::MAX,
        a.children.len() <= usize::MAX,
        b.keys.len() <= usize::MAX,
        b.children.len() <= usize::MAX,
        holds_at(s, 0, node_bytes(a)),
        holds_at(s, 0, node_bytes(b)),
    ensures
        a == b,
{
    lemma_layout(s, a);
    lemma_layout(s, b);
    lemma_same_field_u32(s, 1, a.order, b.order);
    lemma_same_field_i32(s, 5, a.loc.page_no, b.loc.page_no);
    lemma_same_field_usize(s, 9, a.loc.offset, b.loc.offset);
    lemma_same_field_i32(s, 17, a.link.page_no, b.link.page_no);
    lemma_same_field_usize(s, 21, a.link.offset, b.link.offset);
    lemma_same_field_u32(s, 29, a.high_key, b.high_key);
    lemma_same_field_usize(s, 33, a.keys.len() as usize, b.keys.len() as usize);
    lemma_same_keys(s, keys_at(), a.keys, b.keys);
    lemma_same_field_usize(
        s,
        child_count_at(a.keys.len() as int),
        a.children.len() as usize,
        b.children.len() as usize,
    );
    lemma_same_ptrs(s, children_at(a.keys.len() as int), a.children, b.children);
    assert(s.subrange(0, 1) == bool_bytes(a.leaf));
    assert(s.subrange(0, 1) == bool_bytes(b.leaf));
    assert(bool_bytes(a.leaf)[0] == bool_bytes(b.leaf)[0]);
}

/// Where `s` begins with the encoding of the well-formed `n`, `n` is what
/// `s` decodes to.
proof fn lemma_decoded_is(s: Seq<u8>, n: NodeView)
    requires
        starts_with_node(s, n),
    ensures
        decoded(s) == Some(n),
{
    let m = choose|m: NodeView| starts_with_node(s, m);
    lemma_unique(s, m, n);
}

/// The length of the encoding of a node with `k` keys and `c` children:
/// 49 bytes of fixed fields, four bytes per key and twelve per child.
pub proof fn lemma_node_len(n: NodeView)
    requires
        n.keys.len() <= usize::MAX,
        n.children.len() <= usize::MAX,
    ensures
        node_bytes(n).len() == 49 + 4 * n.keys.len() + 12 * n.children.len(),
{
    lemma_layout(Seq::empty(), n);
}

/// Decoding the encoding of a well-formed node gives that node back, with
/// every field as it was.
pub proof fn lemma_round_trip(n: NodeView)
    requires
        n.wf(),
    ensures
        decoded(node_bytes(n)) == Some(n),
{
    assert(node_bytes(n).subrange(0, node_bytes(n).len() as int) =~= node_bytes(n));
    lemma_decoded_is(node_bytes(n), n);
}

/// A page that holds a well-formed node followed by zero padding decodes
/// to that node: the padding is never read.
pub proof fn lemma_page_round_trip(n: NodeView, size: nat)
    requires
        n.wf(),
        node_bytes(n).len() <= size,
    ensures
        page_bytes(n, size).len() == size,
        decoded(page_bytes(n, size)) == Some(n),
{
    let p = page_bytes(n, size);
    assert(p.subrange(0, node_bytes(n).len() as int) =~= node_bytes(n));
    lemma_decoded_is(p, n);
}

/// Bytes after the encoding of a node do not change what it decodes to.
pub proof fn lemma_trailing_ignored(s: Seq<u8>, t: Seq<u8>)
    requires
        decoded(s) is Some,
    ensures
        decoded(s + t) == decoded(s),
{
    let n = decoded(s)->0;
    assert(starts_with_node(s, n));
    let w = node_bytes(n).len() as int;
    assert((s + t).subrange(0, w) =~= s.subrange(0, w));
    lemma_decoded_is(s + t, n);
}

/// Too short a sequence holds no node.
proof fn lemma_short(s: Seq<u8>)
    requires
        s.len() < children_at(0),
    ensures
        decoded(s) is None,
{
    assert forall|m: NodeView| !starts_with_node(s, m) by {
        if starts_with_node(s, m) {
            lemma_layout(s, m);
        }
    }
}

/// The largest element of a sequence is unique.
proof fn lemma_max_unique(a: u32, b: u32, s: Seq<u32>)
    requires
        is_max_of(a, s),
        is_max_of(b, s),
    ensures
        a == b,
{
    let i = choose|i: int| 0 <= i < s.len() && s[i] == a;
    let j = choose|j: int| 0 <= j < s.len() && s[j] == b;
}

/// Appends the encoding of a pointer to `out`.
fn put_ptr(out: &mut Vec<u8>, p: ItemPtr)
    ensures
        final(out)@ == old(out)@ + ptr_bytes(p),
{
    put_i32(out, p.page_no);
    put_usize(out, p.offset);
    assert(final(out)@ =~= old(out)@ + ptr_bytes(p));
}

impl Node {
    /// The encoding of the node: its fields in order, each sequence after
    /// its length. It succeeds on every node, whatever its size: whether
    /// the encoding fits a page is decided by `into_buffer`.
    pub fn encode(self) -> (r: Result<Vec<u8>, NodeError>)
        ensures
            r is Ok,
            r matches Ok(b) ==> b@ == node_bytes(self@),
    {
        let mut out: Vec<u8> = Vec::new();
        put_bool(&mut out, self.leaf);
        put_u32(&mut out, self.order);
        put_ptr(&mut out, self.loc);
        put_ptr(&mut out, self.link);
        put_u32(&mut out, self.high_key);
        assert(out@ =~= header_bytes(self@));
        put_usize(&mut out, self.keys.len());
        let ghost before_keys = out@;
        let mut i: usize = 0;
        while i < self.keys.len()
            invariant
                i <= self.keys@.len(),
                out@ == before_keys + keys_bytes(self.keys@.subrange(0, i as int)),
            decreases self.keys@.len() - i,
        {
            put_u32(&mut out, self.keys[i]);
            assert(self.keys@.subrange(0, i + 1).drop_last() =~= self.keys@.subrange(0, i as int));
            assert(out@ =~= before_keys + keys_bytes(self.keys@.subrange(0, i + 1)));
            i = i + 1;
        }
        assert(self.keys@.subrange(0, i as int) =~= self.keys@);
        put_usize(&mut out, self.children.len());
        let ghost before_children = out@;
        let mut j: usize = 0;
        while j < self.children.len()
            invariant
                j <= self.children@.len(),
                out@ == before_children + ptrs_bytes(self.children@.subrange(0, j as int)),
            decreases self.children@.len() - j,
        {
            put_ptr(&mut out, self.children[j]);
            assert(self.children@.subrange(0, j + 1).drop_last() =~= self.children@.subrange(
                0,
                j as int,
            ));
            assert(out@ =~= before_children + ptrs_bytes(self.children@.subrange(0, j + 1)));
            j = j + 1;
        }
        assert(self.children@.subrange(0, j as int) =~= self.children@);
        assert(out@ =~= node_bytes(self@));
        Ok(out)
    }
    /// Decodes the node that `bytes` begins with; the bytes after its
    /// encoding, such as the zero padding of a page, are ignored. Fails where
    /// `bytes` does not begin with the encoding of a well-formed node.
    pub fn decode(bytes: &Vec<u8>) -> (r: Result<Node, NodeError>)
        ensures
            match r {
                Ok(n) => decoded(bytes@) == Some(n@),
                Err(e) => e == NodeError::Decode && decoded(bytes@) is None,
            },
    {
        let s = bytes.as_slice();
        let ghost sv = bytes@;
        let total: usize = s.len();
        assert(s@ == sv);
        if s.len() < 49 {
            proof {
                lemma_short(sv);
            }
            return Err(NodeError::Decode);
        }
        let leaf = match read_bool(s, 0) {
            Some(b) => b,
            None => {
                proof {
                    assert forall|m: NodeView| !starts_with_node(sv, m) by {
                        if starts_with_node(sv, m) {
                            lemma_layout(sv, m);
                        }
                    }
                }
                return Err(NodeError::Decode);
            },
        };
        let order = match read_u32(s, 1) {
            Some(x) => x,
            None => {
                return Err(NodeError::Decode);
            },
        };
        let loc_page = match read_i32(s, 5) {
            Some(x) => x,
            None => {
                return Err(NodeError::Decode);
            },
        };
        let loc_offset = match read_usize(s, 9) {
            Some(x) => x,
            None => {
                proof {
                    assert forall|m: NodeView| !starts_with_node(sv, m) by {
                        if starts_with_node(sv, m) {
                            lemma_layout(sv, m);
                        }
                    }
                }
                return Err(NodeError::Decode);
            },
        };
        let link_page = match read_i32(s, 17) {
            Some(x) => x,
            None => {
                return Err(NodeError::Decode);
            },
        };
        let link_offset = match read_usize(s, 21) {
            Some(x) => x,
            None => {
                proof {
                    assert forall|m: NodeView| !starts_with_node(sv, m) by {
                        if starts_with_node(sv, m) {
                            lemma_layout(sv, m);
                        }
                    }
                }
                return Err(NodeError::Decode);
            },
        };
        let high_key = match read_u32(s, 29) {
            Some(x) => x,
            None => {
                return Err(NodeError::Decode);
            },
        };
        let nk = match read_usize(s, 33) {
            Some(x) => x,
            None => {
                proof {
                    assert forall|m: NodeView| !starts_with_node(sv, m) by {
                        if starts_with_node(sv, m) {
                            lemma_layout(sv, m);
                        }
                    }
                }
                return Err(NodeError::Decode);
            },
        };
        proof {
            lemma_usize_bytes(nk, nk);
        }
        let mut keys: Vec<u32> = Vec::new();
        let mut pos: usize = 41;
        assert(keys_bytes(keys@) =~= Seq::<u8>::empty());
        assert(sv.subrange(41, 41) =~= Seq::<u8>::empty());
        while keys.len() < nk
            invariant
                keys@.len() <= nk,
                pos == keys_at() + 4 * keys@.len(),
                pos <= sv.len(),
                sv.len() == total,
                sv == bytes@,
                s@ == sv,
                holds_at(sv, 33, usize_bytes(nk)),
                holds_at(sv, keys_at(), keys_bytes(keys@)),
            decreases nk - keys@.len(),
        {
            let k = match read_u32(s, pos) {
                Some(x) => x,
                None => {
                    proof {
                        assert forall|m: NodeView| !starts_with_node(sv, m) by {
                            if starts_with_node(sv, m) {
                                lemma_layout(sv, m);
                                lemma_same_field_usize(sv, 33, nk, m.keys.len() as usize);
                                assert(m.keys.len() == nk);
                                assert(sv.len() >= children_at(nk as int));
                            }
                        }
                    }
                    return Err(NodeError::Decode);
                },
            };
            proof {
                lemma_keys_len(keys@);
                lemma_holds_split(sv, keys_at(), keys_bytes(keys@), u32_bytes(k));
                assert(keys@.push(k).drop_last() =~= keys@);
                lemma_u32_bytes(k, k);
            }
            keys.push(k);
            pos = pos + 4;
        }
        proof {
            lemma_keys_len(keys@);
        }
        let nc = match read_usize(s, pos) {
            Some(x) => x,
            None => {
                proof {
                    assert forall|m: NodeView| !starts_with_node(sv, m) by {
                        if starts_with_node(sv, m) {
                            lemma_layout(sv, m);
                            lemma_same_field_usize(sv, 33, nk, m.keys.len() as usize);
                        }
                    }
                }
                return Err(NodeError::Decode);
            },
        };
        proof {
            lemma_usize_bytes(nc, nc);
        }
        pos = pos + 8;
        let mut children: Vec<ItemPtr> = Vec::new();
        assert(ptrs_bytes(children@) =~= Seq::<u8>::empty());
        assert(sv.subrange(pos as int, pos as int) =~= Seq::<u8>::empty());
        while children.len() < nc
            invariant
                keys@.len() == nk,
                children@.len() <= nc,
                pos == children_at(nk as int) + 12 * children@.len(),
                pos <= sv.len(),
                sv.len() == total,
                sv == bytes@,
                s@ == sv,
                holds_at(sv, 33, usize_bytes(nk)),
                holds_at(sv, child_count_at(nk as int), usize_bytes(nc)),
                holds_at(sv, children_at(nk as int), ptrs_bytes(children@)),
            decreases nc - children@.len(),
        {
            let page_no = match read_i32(s, pos) {
                Some(x) => x,
                None => {
                    proof {
                        assert forall|m: NodeView| !starts_with_node(sv, m) by {
                            if starts_with_node(sv, m) {
                                lemma_layout(sv, m);
                                lemma_same_field_usize(sv, 33, nk, m.keys.len() as usize);
                                lemma_same_field_usize(
                                    sv,
                                    child_count_at(nk as int),
                                    nc,
                                    m.children.len() as usize,
                                );
                            }
                        }
                    }
                    return Err(NodeError::Decode);
                },
            };
            proof {
                lemma_i32_bytes(page_no, page_no);
            }
            let offset = match read_usize(s, pos + 4) {
                Some(x) => x,
                None => {
                    proof {
                        assert forall|m: NodeView| !starts_with_node(sv, m) by {
                            if starts_with_node(sv, m) {
                                let j = children@.len() as int;
                                let base = children_at(nk as int);
                                lemma_layout(sv, m);
                                lemma_same_field_usize(sv, 33, nk, m.keys.len() as usize);
                                lemma_same_field_usize(
                                    sv,
                                    child_count_at(nk as int),
                                    nc,
                                    m.children.len() as usize,
                                );
                                lemma_ptrs_bytes(m.children, j);
                                lemma_holds_within(sv, base, ptrs_bytes(m.children), 12 * j, 12 * j + 12);
                                lemma_ptr_fields(sv, base + 12 * j, m.children[j]);
                            }
                        }
                    }
                    return Err(NodeError::Decode);
                },
            };
            let p = ItemPtr { page_no, offset };
            proof {
                lemma_ptrs_len(children@);
                lemma_ptr_fields(sv, pos as int, p);
                lemma_holds_split(sv, children_at(nk as int), ptrs_bytes(children@), ptr_bytes(p));
                assert(children@.push(p).drop_last() =~= children@);
            }
            children.push(p);
            pos = pos + 12;
        }
        let n = Node {
            leaf,
            order,
            loc: ItemPtr { page_no: loc_page, offset: loc_offset },
            link: ItemPtr { page_no: link_page, offset: link_offset },
            high_key,
            keys,
            children,
        };
        proof {
            lemma_layout(sv, n@);
            assert(n@.keys.len() as usize == nk);
            assert(n@.children.len() as usize == nc);
            assert(holds_at(sv, 0, node_bytes(n@)));
        }
        if n.keys.len() == 0 {
            proof {
                assert forall|m: NodeView| !starts_with_node(sv, m) by {
                    if starts_with_node(sv, m) {
                        lemma_unique(sv, m, n@);
                    }
                }
            }
            return Err(NodeError::Decode);
        }
        let top = max_key(&n.keys);
        if top != n.high_key {
            proof {
                assert forall|m: NodeView| !starts_with_node(sv, m) by {
                    if starts_with_node(sv, m) {
                        lemma_unique(sv, m, n@);
                        lemma_max_unique(top, n.high_key, n.keys@);
                    }
                }
            }
            return Err(NodeError::Decode);
        }
        proof {
            lemma_decoded_is(sv, n@);
        }
        Ok(n)
    }
    /// The node as a page of `page_size` bytes: its encoding followed by
    /// zeros. Fails with `PageOverflow` exactly where the encoding is longer
    /// than the page, and in no other way.
    pub fn into_buffer(self, page_size: usize) -> (r: Result<Vec<u8>, NodeError>)
        ensures
            node_bytes(self@).len() > page_size <==> r == Err::<Vec<u8>, NodeError>(
                NodeError::PageOverflow,
            ),
            node_bytes(self@).len() <= page_size ==> r is Ok,
            match r {
                Ok(p) => p@ == page_bytes(self@, page_size as nat) && p@.len() == page_size,
                Err(e) => e == NodeError::PageOverflow,
            },
    {
        let nk: usize = self.keys.len();
        let nc: usize = self.children.len();
        proof {
            lemma_layout(Seq::empty(), self@);
        }
        let need: u128 = 49 + 4 * (nk as u128) + 12 * (nc as u128);
        if need > page_size as u128 {
            return Err(NodeError::PageOverflow);
        }
        let ghost view = self@;
        let mut page = match self.encode() {
            Ok(b) => b,
            Err(e) => {
                return Err(e);
            },
        };
        let ghost used = page@.len();
        while page.len() < page_size
            invariant
                used == node_bytes(view).len(),
                used <= page@.len() <= page_size,
                page@ == node_bytes(view) + Seq::new((page@.len() - used) as nat, |i: int| 0u8),
            decreases page_size - page@.len(),
        {
            page.push(0u8);
            assert(page@ =~= node_bytes(view) + Seq::new((page@.len() - used) as nat, |i: int| 0u8));
        }
        Ok(page)
    }
}

} // verus!

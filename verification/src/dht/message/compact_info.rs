use vstd::prelude::*;

use crate::bencode::reference::BencodeRef;
use crate::bencode::spec::RefView;
use crate::dht::routing::node::{NodeAddr, NodeId};

verus! {

/// Bytes of a compact IPv4 address and port.
pub const BYTES_PER_COMPACT_IP: usize = 6;
/// Bytes of a compact node: id, IPv4 address and port.
pub const BYTES_PER_COMPACT_NODE_INFO: usize = 26;

/// What was wrong with the length of some bytes.
#[derive(Copy, Clone, PartialEq, Eq, Structural, Hash, Debug)]
pub enum LengthErrorKind {
    /// The length should have been exactly the one given.
    LengthExpected,
    /// The length should have been a multiple of the one given.
    LengthMultipleExpected,
}

/// Bytes of the wrong length, with the length expected and, where there were several, the
/// index of the offending ones.
#[derive(Copy, Clone, PartialEq, Eq, Structural, Hash, Debug)]
pub struct LengthError {
    /// What was wrong.
    pub kind: LengthErrorKind,
    /// The length expected.
    pub length: usize,
    /// Which of several byte strings had the wrong length.
    pub index: Option<usize>,
}

/// The address in six compact bytes: four IPv4 octets, then the port, big-endian.
pub open spec fn compact_addr(b: Seq<u8>) -> NodeAddr {
    NodeAddr::V4([b[0], b[1], b[2], b[3]], (b[4] as int * 256 + b[5] as int) as u16)
}

/// The compact node at index `i` of `nodes`: its id, and its address.
pub open spec fn compact_node(nodes: Seq<u8>, i: int) -> (Seq<u8>, NodeAddr) {
    let s = nodes.subrange(26 * i, 26 * i + 26);
    (s.subrange(0, 20), compact_addr(s.subrange(20, 26)))
}

/// Reads an address from six compact bytes; a length error for any other length.
pub fn socket_v4_from_bytes_be(bytes: &[u8]) -> (r: Result<NodeAddr, LengthError>)
    ensures
        bytes@.len() == BYTES_PER_COMPACT_IP ==> r == Ok::<NodeAddr, LengthError>(compact_addr(bytes@)),
        bytes@.len() != BYTES_PER_COMPACT_IP ==> r == Err::<NodeAddr, LengthError>(
            LengthError { kind: LengthErrorKind::LengthExpected, length: BYTES_PER_COMPACT_IP, index: None },
        ),
{
    if bytes.len() != BYTES_PER_COMPACT_IP {
        return Err(LengthError { kind: LengthErrorKind::LengthExpected, length: BYTES_PER_COMPACT_IP, index: None });
    }
    let port: u16 = (bytes[4] as u16) * 256 + (bytes[5] as u16);
    Ok(NodeAddr::V4([bytes[0], bytes[1], bytes[2], bytes[3]], port))
}

/// The id and address of the compact node starting at `start`.
fn parts_from_compact_info(nodes: &[u8], start: usize) -> (r: (NodeId, NodeAddr))
    requires
        start + BYTES_PER_COMPACT_NODE_INFO <= nodes@.len(),
    ensures
        r.0@ == nodes@.subrange(start as int, start + 20),
        r.1 == compact_addr(nodes@.subrange(start + 20, start + 26)),
{
    let s = start;
    let id: NodeId = [
        nodes[s],
        nodes[s + 1],
        nodes[s + 2],
        nodes[s + 3],
        nodes[s + 4],
        nodes[s + 5],
        nodes[s + 6],
        nodes[s + 7],
        nodes[s + 8],
        nodes[s + 9],
        nodes[s + 10],
        nodes[s + 11],
        nodes[s + 12],
        nodes[s + 13],
        nodes[s + 14],
        nodes[s + 15],
        nodes[s + 16],
        nodes[s + 17],
        nodes[s + 18],
        nodes[s + 19],
    ];
    assert(id@ =~= nodes@.subrange(start as int, start + 20));
    let port: u16 = (nodes[s + 24] as u16) * 256 + (nodes[s + 25] as u16);
    let addr = NodeAddr::V4([nodes[s + 20], nodes[s + 21], nodes[s + 22], nodes[s + 23]], port);
    let ghost b = nodes@.subrange(start + 20, start + 26);
    assert(b[0] == nodes@[start + 20] && b[4] == nodes@[start + 24] && b[5] == nodes@[start + 25]);
    assert([nodes[s + 20], nodes[s + 21], nodes[s + 22], nodes[s + 23]] == [b[0], b[1], b[2], b[3]]);
    (id, addr)
}

/// Nodes in compact form: a multiple of 26 bytes.
#[derive(Copy, Clone, PartialEq, Eq, Hash, Debug)]
pub struct CompactNodeInfo<'a> {
    nodes: &'a [u8],
}

impl<'a> CompactNodeInfo<'a> {
    #[verifier::type_invariant]
    spec fn whole_nodes(self) -> bool {
        self.nodes@.len() % 26 == 0
    }

    /// The compact bytes.
    pub closed spec fn bytes(self) -> Seq<u8> {
        self.nodes@
    }

    /// Nodes in the compact bytes `nodes`: a length error unless they are a multiple of 26.
    pub fn new(nodes: &'a [u8]) -> (r: Result<CompactNodeInfo<'a>, LengthError>)
        ensures
            nodes@.len() % 26 == 0 ==> (r matches Ok(c) && c.bytes() == nodes@),
            nodes@.len() % 26 != 0 ==> r == Err::<CompactNodeInfo<'a>, LengthError>(
                LengthError { kind: LengthErrorKind::LengthMultipleExpected, length: BYTES_PER_COMPACT_NODE_INFO, index: None },
            ),
    {
        if nodes.len() % BYTES_PER_COMPACT_NODE_INFO != 0 {
            Err(LengthError { kind: LengthErrorKind::LengthMultipleExpected, length: BYTES_PER_COMPACT_NODE_INFO, index: None })
        } else {
            Ok(CompactNodeInfo { nodes })
        }
    }

    /// The compact bytes.
    pub fn nodes(&self) -> (r: &'a [u8])
        ensures
            r@ == self.bytes(),
    {
        self.nodes
    }

    /// The nodes, in order: each one's id and address.
    pub fn entries(&self) -> (r: Vec<(NodeId, NodeAddr)>)
        ensures
            r@.len() == self.bytes().len() / 26,
            forall|i: int| 0 <= i < r@.len() ==> (#[trigger] r@[i]).0@ == compact_node(self.bytes(), i).0 && r@[i].1
                == compact_node(self.bytes(), i).1,
    {
        proof {
            use_type_invariant(self);
        }
        let len = self.nodes.len();
        let n = len / BYTES_PER_COMPACT_NODE_INFO;
        let mut out: Vec<(NodeId, NodeAddr)> = Vec::new();
        let mut i: usize = 0;
        let mut start: usize = 0;
        while i < n
            invariant
                len == self.nodes@.len(),
                start == 26 * i,
                n == self.nodes@.len() / 26,
                self.nodes@.len() % 26 == 0,
                i <= n,
                out@.len() == i,
                forall|k: int| 0 <= k < i ==> (#[trigger] out@[k]).0@ == compact_node(self.nodes@, k).0 && out@[k].1
                    == compact_node(self.nodes@, k).1,
            decreases n - i,
        {
            assert(26 * i + 26 <= self.nodes@.len()) by (nonlinear_arith)
                requires
                    i < n,
                    n == self.nodes@.len() / 26,
                    self.nodes@.len() % 26 == 0,
            ;
            assert(start + 26 <= self.nodes@.len());
            let next_start = start + BYTES_PER_COMPACT_NODE_INFO;
            let (id, addr) = parts_from_compact_info(self.nodes, start);
            proof {
                let s = self.nodes@.subrange(26 * i, 26 * i + 26);
                assert(s.subrange(0, 20) =~= self.nodes@.subrange(start as int, start + 20));
                assert(s.subrange(20, 26) =~= self.nodes@.subrange(start + 20, start + 26));
            }
            out.push((id, addr));
            i = i + 1;
            start = next_start;
        }
        out
    }
}

/// Walks the nodes of a `CompactNodeInfo` one at a time.
pub struct CompactNodeInfoIter<'a> {
    nodes: &'a [u8],
    pos: usize,
}

impl<'a> CompactNodeInfoIter<'a> {
    #[verifier::type_invariant]
    spec fn at_node(self) -> bool {
        &&& self.nodes@.len() % 26 == 0
        &&& self.pos <= self.nodes@.len()
        &&& self.pos % 26 == 0
    }

    /// The compact bytes walked.
    pub closed spec fn bytes(self) -> Seq<u8> {
        self.nodes@
    }

    /// Index of the next node.
    pub closed spec fn index(self) -> int {
        self.pos as int / 26
    }

    /// The next node, if any: its id and address.
    pub fn next(&mut self) -> (r: Option<(NodeId, NodeAddr)>)
        ensures
            final(self).bytes() == old(self).bytes(),
            old(self).index() >= old(self).bytes().len() / 26 ==> r is None && final(self).index() == old(self).index(),
            old(self).index() < old(self).bytes().len() / 26 ==> (r matches Some((id, addr)) && id@ == compact_node(
                old(self).bytes(),
                old(self).index(),
            ).0 && addr == compact_node(old(self).bytes(), old(self).index()).1) && final(self).index() == old(self).index()
                + 1,
    {
        proof {
            use_type_invariant(&*self);
        }
        if self.pos == self.nodes.len() {
            return None;
        }
        let start = self.pos;
        let (id, addr) = parts_from_compact_info(self.nodes, start);
        proof {
            let i = start as int / 26;
            assert(26 * i == start);
            let s = self.nodes@.subrange(26 * i, 26 * i + 26);
            assert(s.subrange(0, 20) =~= self.nodes@.subrange(start as int, start + 20));
            assert(s.subrange(20, 26) =~= self.nodes@.subrange(start + 20, start + 26));
        }
        self.pos = start + BYTES_PER_COMPACT_NODE_INFO;
        Some((id, addr))
    }
}

impl<'a> CompactNodeInfo<'a> {
    /// Walks the nodes from the first.
    pub fn into_iter(self) -> (it: CompactNodeInfoIter<'a>)
        ensures
            it.bytes() == self.bytes(),
            it.index() == 0,
    {
        proof {
            use_type_invariant(&self);
        }
        CompactNodeInfoIter { nodes: self.nodes, pos: 0 }
    }
}

/// Values of a peer lookup: byte strings of six compact bytes each.
#[derive(Copy, Clone)]
pub struct CompactValueInfo<'a> {
    values: &'a [BencodeRef<'a>],
}

/// Every value is a byte string of six bytes.
pub open spec fn all_compact_addrs(values: Seq<RefView>) -> bool {
    forall|i: int| 0 <= i < values.len() ==> (#[trigger] values[i]) is Bytes && values[i]->Bytes_0.len() == 6
}

/// `k` is the first of `values` that does not hold six bytes.
pub open spec fn first_bad_value<'a>(values: Seq<BencodeRef<'a>>, k: int) -> bool {
    &&& 0 <= k < values.len()
    &&& values[k]@->Bytes_0.len() != 6
    &&& forall|j: int| 0 <= j < k ==> (#[trigger] values[j])@->Bytes_0.len() == 6
}

impl<'a> CompactValueInfo<'a> {
    #[verifier::type_invariant]
    spec fn compact(self) -> bool {
        all_compact_addrs(crate::bencode::refapi::ref_items_view(self.values@))
    }

    /// The values.
    pub closed spec fn items(self) -> Seq<RefView> {
        crate::bencode::refapi::ref_items_view(self.values@)
    }

    /// The values `values`, which must all be byte strings: a length error naming the first
    /// one that does not hold six bytes.
    pub fn new(values: &'a [BencodeRef<'a>]) -> (r: Result<CompactValueInfo<'a>, LengthError>)
        requires
            forall|i: int| 0 <= i < values@.len() ==> (#[trigger] values@[i])@ is Bytes,
        ensures
            all_compact_addrs(crate::bencode::refapi::ref_items_view(values@)) ==> (r matches Ok(c) && c.items()
                == crate::bencode::refapi::ref_items_view(values@)),
            !all_compact_addrs(crate::bencode::refapi::ref_items_view(values@)) ==> (r matches Err(e) && e.kind
                == LengthErrorKind::LengthExpected && e.length == BYTES_PER_COMPACT_IP && e.index is Some
                && first_bad_value(values@, e.index->0 as int)),
    {
        let mut i: usize = 0;
        while i < values.len()
            invariant
                i <= values@.len(),
                forall|j: int| 0 <= j < values@.len() ==> (#[trigger] values@[j])@ is Bytes,
                forall|j: int| 0 <= j < i ==> (#[trigger] values@[j])@->Bytes_0.len() == 6,
            decreases values@.len() - i,
        {
            let compact_value = match values[i].bytes() {
                Some(b) => b,
                None => {
                    assert(false);
                    return Err(LengthError { kind: LengthErrorKind::LengthExpected, length: BYTES_PER_COMPACT_IP, index: Some(i) });
                },
            };
            if compact_value.len() != BYTES_PER_COMPACT_IP {
                proof {
                    if all_compact_addrs(crate::bencode::refapi::ref_items_view(values@)) {
                        assert(crate::bencode::refapi::ref_items_view(values@)[i as int] == values@[i as int]@);
                    }
                }
                return Err(LengthError { kind: LengthErrorKind::LengthExpected, length: BYTES_PER_COMPACT_IP, index: Some(i) });
            }
            i = i + 1;
        }
        proof {
            assert forall|j: int| 0 <= j < crate::bencode::refapi::ref_items_view(values@).len() implies (
            #[trigger] crate::bencode::refapi::ref_items_view(values@)[j]) is Bytes && crate::bencode::refapi::ref_items_view(
                values@,
            )[j]->Bytes_0.len() == 6 by {
                assert(crate::bencode::refapi::ref_items_view(values@)[j] == values@[j]@);
            }
        }
        Ok(CompactValueInfo { values })
    }

    /// The values.
    pub fn values(&self) -> (r: &'a [BencodeRef<'a>])
        ensures
            crate::bencode::refapi::ref_items_view(r@) == self.items(),
    {
        self.values
    }

    /// The addresses the values hold, in order.
    pub fn addresses(&self) -> (r: Vec<NodeAddr>)
        ensures
            r@.len() == self.items().len(),
            forall|i: int| 0 <= i < r@.len() ==> #[trigger] r@[i] == compact_addr(self.items()[i]->Bytes_0),
    {
        proof {
            use_type_invariant(self);
        }
        let mut out: Vec<NodeAddr> = Vec::new();
        let mut i: usize = 0;
        while i < self.values.len()
            invariant
                i <= self.values@.len(),
                all_compact_addrs(crate::bencode::refapi::ref_items_view(self.values@)),
                out@.len() == i,
                forall|k: int| 0 <= k < i ==> #[trigger] out@[k] == compact_addr(
                    crate::bencode::refapi::ref_items_view(self.values@)[k]->Bytes_0,
                ),
            decreases self.values@.len() - i,
        {
            assert(crate::bencode::refapi::ref_items_view(self.values@)[i as int] == self.values@[i as int]@);
            let b = match self.values[i].bytes() {
                Some(b) => b,
                None => {
                    assert(false);
                    return out;
                },
            };
            let addr = match socket_v4_from_bytes_be(b) {
                Ok(a) => a,
                Err(_) => {
                    assert(false);
                    return out;
                },
            };
            out.push(addr);
            i = i + 1;
        }
        out
    }
}

/// Walks the addresses of a `CompactValueInfo` one at a time.
pub struct CompactValueInfoIter<'a> {
    values: &'a [BencodeRef<'a>],
    pos: usize,
}

impl<'a> CompactValueInfoIter<'a> {
    #[verifier::type_invariant]
    spec fn in_range(self) -> bool {
        &&& all_compact_addrs(crate::bencode::refapi::ref_items_view(self.values@))
        &&& self.pos <= self.values@.len()
    }

    /// The values walked.
    pub closed spec fn items(self) -> Seq<RefView> {
        crate::bencode::refapi::ref_items_view(self.values@)
    }

    /// Index of the next value.
    pub closed spec fn index(self) -> int {
        self.pos as int
    }

    /// The next address, if any.
    pub fn next(&mut self) -> (r: Option<NodeAddr>)
        ensures
            final(self).items() == old(self).items(),
            old(self).index() >= old(self).items().len() ==> r is None && final(self).index() == old(self).index(),
            old(self).index() < old(self).items().len() ==> r == Some(compact_addr(old(self).items()[old(self).index()]->Bytes_0))
                && final(self).index() == old(self).index() + 1,
    {
        proof {
            use_type_invariant(&*self);
        }
        if self.pos == self.values.len() {
            return None;
        }
        let i = self.pos;
        assert(crate::bencode::refapi::ref_items_view(self.values@)[i as int] == self.values@[i as int]@);
        let bytes = match self.values[i].bytes() {
            Some(b) => b,
            None => {
                return None;
            },
        };
        let addr = match socket_v4_from_bytes_be(bytes) {
            Ok(a) => a,
            Err(_) => {
                return None;
            },
        };
        self.pos = i + 1;
        Some(addr)
    }
}

impl<'a> CompactValueInfo<'a> {
    /// Walks the addresses from the first.
    pub fn into_iter(self) -> (it: CompactValueInfoIter<'a>)
        ensures
            it.items() == self.items(),
            it.index() == 0,
    {
        proof {
            use_type_invariant(&self);
        }
        CompactValueInfoIter { values: self.values, pos: 0 }
    }
}

} // verus!

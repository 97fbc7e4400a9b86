//! Canonical Huffman decoding for DEFLATE: build a prefix-code trie from a
//! vector of per-symbol code lengths and decode one symbol per call from a
//! bit reader, walking the trie MSB-first.
//!
//! The trie is a flat vector of nodes indexed by position; node 0 is the
//! root and the index 0 doubles as the "absent child" sentinel, since no
//! edge ever points back to the root.

use vstd::prelude::*;
use vstd::pervasive::VecAdditionalExecFns;
use vstd::arithmetic::power2::pow2;
use vstd::arithmetic::power2::lemma_pow2_adds;
use vstd::arithmetic::power2::lemma2_to64;
use vstd::bits::lemma_u32_shr_is_div;
use crate::GzipError;
use crate::bit_iterator::BitIterator;

verus! {

/// One entry of the canonical code table: the bit length assigned to a
/// symbol and the code value it received.
#[derive(Clone, Copy, Debug, PartialEq)]
pub struct TreeNode {
    len: u32,
    code: u32,
}

/// One node of the flat decoding trie; a child index of 0 means the edge is
/// absent.
#[derive(Clone, Copy, Debug, PartialEq)]
pub struct TrieNode {
    pub zero: usize,
    pub one: usize,
    pub code: Option<u32>,
}

/// A canonical Huffman decoder.
#[derive(Debug, PartialEq)]
pub struct HuffmanNode {
    nodes: Vec<TrieNode>,
}

/// Which Huffman table family a compressed block uses.
#[derive(Debug, PartialEq, Eq, Structural, Clone, Copy)]
pub enum HuffmanEncoding {
    Fixed,
    Dynamic,
}

/// The outcome of walking the trie over a bit sequence: a decoded symbol
/// after `used` bits, an absent edge after `used` bits, or exhaustion of
/// the bits before any leaf.
pub enum WalkResult {
    Found { sym: u32, used: nat },
    Dead { used: nat },
    Short,
}

/// The child of a trie node along one edge.
pub open spec fn child_of(n: TrieNode, b: bool) -> usize {
    if b {
        n.one
    } else {
        n.zero
    }
}

/// Walk the trie from node `i` over `s`, one bit per edge, until a leaf,
/// an absent edge, or the end of `s`.
pub open spec fn walk(nodes: Seq<TrieNode>, i: int, s: Seq<bool>) -> WalkResult
    decreases s.len(),
{
    if nodes[i].code is Some {
        WalkResult::Found { sym: nodes[i].code->Some_0, used: 0 }
    } else if s.len() == 0 {
        WalkResult::Short
    } else {
        let c = child_of(nodes[i], s[0]);
        if c == 0 {
            WalkResult::Dead { used: 1 }
        } else {
            walk_bump(walk(nodes, c as int, s.drop_first()), 1)
        }
    }
}

/// Add `k` to the bit count of a walk outcome.
pub open spec fn walk_bump(w: WalkResult, k: nat) -> WalkResult {
    match w {
        WalkResult::Found { sym, used } => WalkResult::Found { sym, used: used + k },
        WalkResult::Dead { used } => WalkResult::Dead { used: used + k },
        WalkResult::Short => WalkResult::Short,
    }
}

/// Well-formed trie: non-empty, the root is not a leaf, and every present
/// edge points forward and in bounds.
pub open spec fn nodes_wf(nodes: Seq<TrieNode>) -> bool {
    &&& 1 <= nodes.len()
    &&& nodes[0].code is None
    &&& forall|i: int|
        0 <= i < nodes.len() ==> {
            &&& (#[trigger] nodes[i].zero != 0 ==> i < nodes[i].zero < nodes.len())
            &&& (nodes[i].one != 0 ==> i < nodes[i].one < nodes.len())
        }
}

/// The `len`-bit MSB-first rendering of a code value.
pub open spec fn to_bits_msb(v: nat, len: nat) -> Seq<bool> {
    Seq::new(len, |i: int| (v / pow2((len - 1 - i) as nat)) % 2 == 1)
}

/// How many symbols of `L` have code length `b`.
pub open spec fn count_len(L: Seq<u8>, b: int) -> nat
    decreases L.len(),
{
    if L.len() == 0 {
        0
    } else {
        count_len(L.drop_last(), b) + (if L.last() == b {
            1nat
        } else {
            0nat
        })
    }
}

/// `count_len` with length 0 pinned to 0: absent symbols take part in no
/// code computation.
pub open spec fn count_nz(L: Seq<u8>, b: int) -> nat {
    if b == 0 {
        0
    } else {
        count_len(L, b)
    }
}

/// The first canonical code of bit length `b`.
pub open spec fn first_code(L: Seq<u8>, b: nat) -> nat
    decreases b,
{
    if b == 0 {
        0
    } else {
        (first_code(L, (b - 1) as nat) + count_nz(L, b - 1)) * 2
    }
}

/// The canonical code value of symbol `n`: the first code of its length
/// plus its rank among same-length symbols of smaller index.
pub open spec fn code_of(L: Seq<u8>, n: int) -> nat {
    first_code(L, L[n] as nat) + count_len(L.take(n), L[n] as int)
}

/// The canonical code of symbol `n`, as the bits the decoder walks.
pub open spec fn code_bits(L: Seq<u8>, n: int) -> Seq<bool> {
    to_bits_msb(code_of(L, n), L[n] as nat)
}

/// The trie decodes every present symbol of `L` at exactly its canonical
/// code, whatever bits follow.
pub open spec fn accepts_all_codes(L: Seq<u8>, nodes: Seq<TrieNode>) -> bool {
    forall|n: int, ext: Seq<bool>|
        0 <= n < L.len() && L[n] > 0 ==> #[trigger] walk(nodes, 0, code_bits(L, n) + ext)
            == (WalkResult::Found { sym: n as u32, used: L[n] as nat })
}

/// The lengths admit a prefix-free code: none over 15 bits, and no level
/// of the code space oversubscribed by the canonical assignment.
pub open spec fn lengths_feasible(L: Seq<u8>) -> bool {
    &&& forall|n: int| 0 <= n < L.len() ==> (#[trigger] L[n]) <= 15
    &&& forall|b: int|
        1 <= b <= 15 ==> first_code(L, b as nat) + count_len(L, b) <= pow2(b as nat)
}

/// No two leaves carry the same symbol: each decodable symbol has exactly
/// one leaf.
pub open spec fn one_leaf_per_symbol(nodes: Seq<TrieNode>) -> bool {
    forall|id1: int, id2: int|
        0 <= id1 < nodes.len() && 0 <= id2 < nodes.len() && (#[trigger] nodes[id1].code) is Some
            && nodes[id1].code == (#[trigger] nodes[id2].code) ==> id1 == id2
}

/// Whatever bits are fed in, the tree only ever decodes symbols that are
/// present in `L`.
pub open spec fn decodes_only_present(L: Seq<u8>, nodes: Seq<TrieNode>) -> bool {
    forall|s: Seq<bool>|
        (#[trigger] walk(nodes, 0, s)) matches WalkResult::Found { sym, used } ==> exists|m: int|
            0 <= m < L.len() && L[m] > 0 && sym == m as u32
}

/// `accepts_all_codes` restricted to symbols below `k`.
pub open spec fn accepts_codes_upto(L: Seq<u8>, nodes: Seq<TrieNode>, k: int) -> bool {
    forall|n: int, ext: Seq<bool>|
        0 <= n < k && n < L.len() && L[n] > 0 ==> #[trigger] walk(nodes, 0, code_bits(L, n) + ext)
            == (WalkResult::Found { sym: n as u32, used: L[n] as nat })
}

/// The new trie keeps every edge and every leaf of the old one, and writes
/// codes only into nodes that were childless and codeless before.
spec fn sub_trie(n1: Seq<TrieNode>, n2: Seq<TrieNode>) -> bool {
    &&& n1.len() <= n2.len()
    &&& forall|i: int|
        0 <= i < n1.len() ==> {
            &&& (#[trigger] n1[i].code is Some ==> n2[i].code == n1[i].code)
            &&& (n1[i].code is None && n2[i].code is Some ==> n1[i].zero == 0 && n1[i].one == 0)
            &&& (n1[i].zero != 0 ==> n2[i].zero == n1[i].zero)
            &&& (n1[i].one != 0 ==> n2[i].one == n1[i].one)
        }
}

/// Any symbol decodable in the old trie is decodable, at the same code, in
/// a trie that extends it.
proof fn lemma_sub_preserves_found(n1: Seq<TrieNode>, n2: Seq<TrieNode>, i: int, s: Seq<bool>)
    requires
        nodes_wf(n1),
        sub_trie(n1, n2),
        0 <= i < n1.len(),
        walk(n1, i, s) is Found,
    ensures
        walk(n2, i, s) == walk(n1, i, s),
    decreases s.len(),
{
    if n1[i].code is Some {
        assert(n2[i].code == n1[i].code);
    } else {
        assert(s.len() > 0);
        let c = child_of(n1[i], s[0]);
        assert(c != 0);
        assert(child_of(n2[i], s[0]) == c);
        assert(n2[i].code is None);
        assert(i < c < n1.len());
        assert(walk(n1, c as int, s.drop_first()) is Found);
        lemma_sub_preserves_found(n1, n2, c as int, s.drop_first());
    }
}

/// A decoded symbol is carried by some leaf of the trie.
proof fn lemma_walk_found_has_leaf(nodes: Seq<TrieNode>, i: int, s: Seq<bool>, sym: u32, used: nat)
    requires
        nodes_wf(nodes),
        0 <= i < nodes.len(),
        walk(nodes, i, s) == (WalkResult::Found { sym, used }),
    ensures
        exists|id: int| 0 <= id < nodes.len() && #[trigger] nodes[id].code == Some(sym),
    decreases s.len(),
{
    if nodes[i].code is Some {
        assert(nodes[i].code == Some(sym));
    } else {
        let c = child_of(nodes[i], s[0]);
        assert(c != 0);
        assert(i < c < nodes.len());
        let w = walk(nodes, c as int, s.drop_first());
        assert(w == (WalkResult::Found { sym, used: (used - 1) as nat }));
        lemma_walk_found_has_leaf(nodes, c as int, s.drop_first(), sym, (used - 1) as nat);
    }
}

/// A chain of trie indices that spells `path` from `start` and ends on a
/// leaf carrying `sym`.
spec fn chain_ok(
    nodes: Seq<TrieNode>,
    path: Seq<bool>,
    ids: Seq<int>,
    sym: u32,
    start: int,
) -> bool {
    &&& ids.len() == path.len() + 1
    &&& ids[0] == start
    &&& forall|j: int|
        0 <= j < path.len() ==> {
            &&& 0 <= #[trigger] ids[j] < nodes.len()
            &&& nodes[ids[j]].code is None
            &&& child_of(nodes[ids[j]], path[j]) == ids[j + 1]
            &&& ids[j + 1] != 0
        }
    &&& 0 <= ids[path.len() as int] < nodes.len()
    &&& nodes[ids[path.len() as int]].code == Some(sym)
}

/// A complete chain makes the trie decode `sym` at `path`, whatever bits
/// follow.
proof fn lemma_chain_to_walk(
    nodes: Seq<TrieNode>,
    path: Seq<bool>,
    ids: Seq<int>,
    sym: u32,
    start: int,
    ext: Seq<bool>,
)
    requires
        chain_ok(nodes, path, ids, sym, start),
    ensures
        walk(nodes, start, path + ext) == (WalkResult::Found { sym, used: path.len() }),
    decreases path.len(),
{
    if path.len() == 0 {
        assert(path + ext =~= ext);
        assert(nodes[start].code == Some(sym));
    } else {
        assert(nodes[start].code is None);
        assert((path + ext)[0] == path[0]);
        let c = child_of(nodes[start], path[0]);
        assert(c == ids[1] && c != 0);
        assert((path + ext).drop_first() =~= path.drop_first() + ext);
        assert(chain_ok(nodes, path.drop_first(), ids.drop_first(), sym, ids[1])) by {
            assert forall|j: int| 0 <= j < path.drop_first().len() implies {
                &&& 0 <= #[trigger] ids.drop_first()[j] < nodes.len()
                &&& nodes[ids.drop_first()[j]].code is None
                &&& child_of(nodes[ids.drop_first()[j]], path.drop_first()[j]) == ids.drop_first()[j
                    + 1]
                &&& ids.drop_first()[j + 1] != 0
            } by {
                assert(ids.drop_first()[j] == ids[j + 1]);
                assert(ids.drop_first()[j + 1] == ids[j + 2]);
                assert(path.drop_first()[j] == path[j + 1]);
            }
            assert(ids.drop_first()[path.drop_first().len() as int] == ids[path.len() as int]);
        }
        lemma_chain_to_walk(nodes, path.drop_first(), ids.drop_first(), sym, ids[1], ext);
        assert(walk(nodes, c as int, path.drop_first() + ext) == (WalkResult::Found {
            sym,
            used: path.drop_first().len(),
        }));
    }
}

/// Bit `j` of a `len`-bit code, as the exec shift-and-mask reads it.
proof fn lemma_code_bit(code: u32, len: u8, j: u8)
    requires
        j < len,
        len <= 32,
    ensures
        (((code >> (((len - 1 - j) as u8) as u32)) & 1) == 1) == to_bits_msb(
            code as nat,
            len as nat,
        )[j as int],
{
    let e: u32 = ((len - 1 - j) as u8) as u32;
    lemma_u32_shr_is_div(code, e);
    let x = code >> e;
    assert((x & 1 == 1) == (x % 2 == 1)) by (bit_vector);
    assert(x == code as nat / pow2(e as nat));
    assert(to_bits_msb(code as nat, len as nat)[j as int] == ((code as nat / pow2(
        (len - 1 - j) as nat,
    )) % 2 == 1));
    assert((x as nat) % 2 == (code as nat / pow2(e as nat)) % 2);
}

impl View for HuffmanNode {
    type V = Seq<TrieNode>;

    closed spec fn view(&self) -> Seq<TrieNode> {
        self.nodes@
    }
}

impl HuffmanNode {
    pub open spec fn wf(&self) -> bool {
        nodes_wf(self@)
    }

    /// Decode one symbol from the bit reader by walking the trie; fails on
    /// an absent edge (corrupt stream) or when the bits run out.
    pub fn decode_stream(&self, bits: &mut BitIterator) -> (r: Result<u32, GzipError>)
        requires
            self.wf(),
            old(bits).wf(),
        ensures
            final(bits).wf(),
            final(bits).bits() == old(bits).bits(),
            final(bits).position() >= old(bits).position(),
            ({
                let rem = old(bits).bits().subrange(
                    old(bits).position() as int,
                    old(bits).bits().len() as int,
                );
                match walk(self@, 0, rem) {
                    WalkResult::Found { sym, used } => {
                        &&& r == Ok::<u32, GzipError>(sym)
                        &&& used >= 1
                        &&& final(bits).position() == old(bits).position() + used
                        &&& final(bits).buffer() == old(bits).buffer() + rem.take(used as int)
                    },
                    WalkResult::Dead { used } => {
                        &&& r == Err::<u32, GzipError>(GzipError::BadHuffmanWalk)
                        &&& final(bits).position() == old(bits).position() + used
                        &&& final(bits).buffer() == old(bits).buffer() + rem.take(used as int)
                    },
                    WalkResult::Short => {
                        &&& r == Err::<u32, GzipError>(GzipError::UnexpectedEndOfStream)
                        &&& final(bits).position() == old(bits).bits().len()
                        &&& final(bits).buffer() == old(bits).buffer() + rem
                    },
                }
            }),
    {
        let ghost all = old(bits).bits();
        let ghost p0 = old(bits).position();
        let ghost rem = all.subrange(p0 as int, all.len() as int);
        proof {
            old(bits).lemma_wf();
            assert(all.subrange(p0 as int, p0 as int) =~= Seq::<bool>::empty());
            assert(bits.buffer() =~= old(bits).buffer() + all.subrange(p0 as int, p0 as int));
        }
        let mut idx: usize = 0;
        loop
            invariant
                self.wf(),
                bits.wf(),
                all == old(bits).bits(),
                bits.bits() == all,
                p0 == old(bits).position(),
                rem == all.subrange(p0 as int, all.len() as int),
                p0 <= bits.position() <= all.len(),
                idx < self@.len(),
                idx != 0 ==> bits.position() > p0,
                bits.buffer() == old(bits).buffer() + all.subrange(
                    p0 as int,
                    bits.position() as int,
                ),
                walk(self@, 0, rem) == walk_bump(
                    walk(
                        self@,
                        idx as int,
                        all.subrange(bits.position() as int, all.len() as int),
                    ),
                    (bits.position() - p0) as nat,
                ),
            decreases all.len() - bits.position(),
        {
            let ghost k = (bits.position() - p0) as nat;
            let ghost cur = all.subrange(bits.position() as int, all.len() as int);
            let node = self.nodes[idx];
            match node.code {
                Some(v) => {
                    proof {
                        assert(walk(self@, idx as int, cur) == (WalkResult::Found {
                            sym: v,
                            used: 0nat,
                        }));
                        assert(walk(self@, 0, rem) == (WalkResult::Found { sym: v, used: k }));
                        assert(rem.take(k as int) =~= all.subrange(
                            p0 as int,
                            bits.position() as int,
                        ));
                    }
                    return Ok(v);
                },
                None => {
                    match bits.next() {
                        None => {
                            proof {
                                assert(bits.position() == all.len());
                                assert(cur.len() == 0);
                                assert(walk(self@, idx as int, cur) is Short);
                                assert(walk(self@, 0, rem) is Short);
                                assert(rem =~= all.subrange(p0 as int, bits.position() as int));
                            }
                            return Err(GzipError::UnexpectedEndOfStream);
                        },
                        Some(b) => {
                            proof {
                                assert(cur.len() > 0);
                                assert(cur[0] == all[(p0 + k) as int]);
                                assert(b == cur[0]);
                            }
                            let child = if b {
                                node.one
                            } else {
                                node.zero
                            };
                            if child == 0 {
                                proof {
                                    assert(walk(self@, idx as int, cur) == (WalkResult::Dead {
                                        used: 1nat,
                                    }));
                                    assert(walk(self@, 0, rem) == (WalkResult::Dead {
                                        used: (k + 1) as nat,
                                    }));
                                    assert(rem.take(k as int + 1) =~= all.subrange(
                                        p0 as int,
                                        bits.position() as int,
                                    ));
                                }
                                return Err(GzipError::BadHuffmanWalk);
                            }
                            proof {
                                let cur1 = all.subrange(bits.position() as int, all.len() as int);
                                assert(cur.drop_first() =~= cur1);
                                assert(walk(self@, idx as int, cur) == walk_bump(
                                    walk(self@, child as int, cur1),
                                    1,
                                ));
                                lemma_walk_bump_compose(walk(self@, child as int, cur1), 1, k);
                                assert(self@[idx as int].zero != 0 ==> idx < self@[idx as int].zero
                                    < self@.len());
                                assert(self@[idx as int].one != 0 ==> idx < self@[idx as int].one
                                    < self@.len());
                                assert(idx < child < self@.len());
                            }
                            idx = child;
                        },
                    }
                },
            }
        }
    }

    /// Follow exactly the given bits from the root and report the code at
    /// the node reached, if the path exists.
    pub fn decode(&self, bits: &Vec<bool>) -> (r: Option<u32>)
        requires
            self.wf(),
        ensures
            r == (match path_node(self@, 0, bits@) {
                Some(j) => self@[j].code,
                None => None::<u32>,
            }),
    {
        let mut idx: usize = 0;
        let mut i: usize = 0;
        proof {
            assert(bits@.subrange(0, bits@.len() as int) =~= bits@);
        }
        while i < bits.len()
            invariant
                self.wf(),
                i <= bits@.len(),
                idx < self@.len(),
                path_node(self@, 0, bits@) == path_node(
                    self@,
                    idx as int,
                    bits@.subrange(i as int, bits@.len() as int),
                ),
            decreases bits@.len() - i,
        {
            let ghost cur = bits@.subrange(i as int, bits@.len() as int);
            let node = self.nodes[idx];
            let child = if bits[i] {
                node.one
            } else {
                node.zero
            };
            proof {
                assert(cur.len() > 0);
                assert(cur[0] == bits@[i as int]);
                assert(cur.drop_first() =~= bits@.subrange(i + 1, bits@.len() as int));
                assert(self@[idx as int].zero != 0 ==> idx < self@[idx as int].zero < self@.len());
                assert(self@[idx as int].one != 0 ==> idx < self@[idx as int].one < self@.len());
                if child != 0 {
                    assert(path_node(self@, idx as int, cur) == path_node(
                        self@,
                        child as int,
                        cur.drop_first(),
                    ));
                }
            }
            if child == 0 {
                return None;
            }
            idx = child;
            i = i + 1;
        }
        proof {
            assert(bits@.subrange(i as int, bits@.len() as int) =~= Seq::<bool>::empty());
        }
        self.nodes[idx].code
    }
}

/// Follow a full bit path from node `i`; `None` if an edge is absent.
pub open spec fn path_node(nodes: Seq<TrieNode>, i: int, s: Seq<bool>) -> Option<int>
    decreases s.len(),
{
    if s.len() == 0 {
        Some(i)
    } else {
        let c = child_of(nodes[i], s[0]);
        if c == 0 {
            None
        } else {
            path_node(nodes, c as int, s.drop_first())
        }
    }
}

/// No trie node hangs from two parent edges. Together with the forward
/// direction of `nodes_wf` this makes the trie a tree, so each node is
/// reached from the root by at most one path.
pub open spec fn trie_tree(nodes: Seq<TrieNode>) -> bool {
    forall|a: int, ba: bool, b: int, bb: bool|
        #![trigger child_of(nodes[a], ba), child_of(nodes[b], bb)]
        0 <= a < nodes.len() && 0 <= b < nodes.len() && child_of(nodes[a], ba) != 0 && child_of(
            nodes[a],
            ba,
        ) == child_of(nodes[b], bb) ==> a == b && ba == bb
}

/// The bits of `path` can be grafted onto the trie without crossing an
/// existing leaf or stopping on an interior node.
pub open spec fn path_insertable(nodes: Seq<TrieNode>, path: Seq<bool>) -> bool {
    &&& forall|k: int|
        0 <= k < path.len() ==> (match path_node(nodes, 0, #[trigger] path.take(k)) {
            Some(id) => nodes[id].code is None,
            None => true,
        })
    &&& (match path_node(nodes, 0, path) {
        Some(id) => nodes[id].code is None && nodes[id].zero == 0 && nodes[id].one == 0,
        None => true,
    })
}

/// The node sits on the path that `path` spells from the root: some
/// non-empty prefix of `path` reaches it.
pub open spec fn node_on_path(nodes: Seq<TrieNode>, path: Seq<bool>, id: int) -> bool {
    exists|k: int| 1 <= k <= path.len() && path_node(nodes, 0, #[trigger] path.take(k)) == Some(id)
}

/// The node lies on the canonical code path of some symbol below `hi`.
pub open spec fn on_some_code_path(nodes: Seq<TrieNode>, L: Seq<u8>, hi: int, id: int) -> bool {
    exists|m: int| 0 <= m < hi && L[m] > 0 && #[trigger] node_on_path(nodes, code_bits(L, m), id)
}

/// Following edges only moves forward through the node vector.
proof fn lemma_path_node_forward(nodes: Seq<TrieNode>, i: int, s: Seq<bool>)
    requires
        nodes_wf(nodes),
        0 <= i < nodes.len(),
        path_node(nodes, i, s) is Some,
    ensures
        i <= path_node(nodes, i, s)->Some_0 < nodes.len(),
        s.len() > 0 ==> i < path_node(nodes, i, s)->Some_0,
    decreases s.len(),
{
    if s.len() > 0 {
        let c = child_of(nodes[i], s[0]);
        assert(c != 0);
        lemma_path_node_forward(nodes, c as int, s.drop_first());
    }
}

/// A path splits at its last edge.
proof fn lemma_path_node_snoc(nodes: Seq<TrieNode>, i: int, s: Seq<bool>, b: bool)
    requires
        nodes_wf(nodes),
        0 <= i < nodes.len(),
    ensures
        path_node(nodes, i, s.push(b)) == (match path_node(nodes, i, s) {
            Some(k) => {
                if child_of(nodes[k], b) == 0 {
                    None
                } else {
                    Some(child_of(nodes[k], b) as int)
                }
            },
            None => None::<int>,
        }),
    decreases s.len(),
{
    if s.len() == 0 {
        assert(s.push(b)[0] == b);
        assert(s.push(b).drop_first() =~= Seq::<bool>::empty());
    } else {
        assert(s.push(b)[0] == s[0]);
        assert(s.push(b).drop_first() =~= s.drop_first().push(b));
        let c = child_of(nodes[i], s[0]);
        if c != 0 {
            assert(c == (if s[0] {
                nodes[i].one
            } else {
                nodes[i].zero
            }));
            assert(nodes[i].zero != 0 ==> i < nodes[i].zero < nodes.len());
            assert(nodes[i].one != 0 ==> i < nodes[i].one < nodes.len());
            lemma_path_node_snoc(nodes, c as int, s.drop_first(), b);
        }
    }
}

/// In a tree-shaped trie each node has at most one path from the root.
proof fn lemma_path_unique(nodes: Seq<TrieNode>, p: Seq<bool>, q: Seq<bool>, id: int)
    requires
        nodes_wf(nodes),
        trie_tree(nodes),
        path_node(nodes, 0, p) == Some(id),
        path_node(nodes, 0, q) == Some(id),
    ensures
        p == q,
    decreases p.len(),
{
    if p.len() == 0 {
        if q.len() > 0 {
            lemma_path_node_forward(nodes, 0, q);
        }
        assert(p =~= q);
    } else if q.len() == 0 {
        lemma_path_node_forward(nodes, 0, p);
    } else {
        lemma_path_node_forward(nodes, 0, p);
        let p1 = p.take(p.len() - 1);
        let q1 = q.take(q.len() - 1);
        assert(p1.push(p.last()) =~= p);
        assert(q1.push(q.last()) =~= q);
        lemma_path_node_snoc(nodes, 0, p1, p.last());
        lemma_path_node_snoc(nodes, 0, q1, q.last());
        let kp = path_node(nodes, 0, p1)->Some_0;
        let kq = path_node(nodes, 0, q1)->Some_0;
        lemma_path_node_forward(nodes, 0, p1);
        lemma_path_node_forward(nodes, 0, q1);
        assert(child_of(nodes[kp], p.last()) == id && id != 0);
        assert(child_of(nodes[kq], q.last()) == id);
        assert(kp == kq && p.last() == q.last());
        lemma_path_unique(nodes, p1, q1, kp);
        assert(p =~= q);
    }
}

/// A trie that extends another keeps every existing path.
proof fn lemma_sub_path(n1: Seq<TrieNode>, n2: Seq<TrieNode>, i: int, s: Seq<bool>)
    requires
        nodes_wf(n1),
        sub_trie(n1, n2),
        0 <= i < n1.len(),
        path_node(n1, i, s) is Some,
    ensures
        path_node(n2, i, s) == path_node(n1, i, s),
    decreases s.len(),
{
    if s.len() > 0 {
        let c = child_of(n1[i], s[0]);
        assert(c != 0);
        assert(n1[i].code is Some || n1[i].code is None);
        assert(child_of(n2[i], s[0]) == c);
        lemma_sub_path(n1, n2, c as int, s.drop_first());
    }
}

/// An id chain spelling the first `k` bits of `path` puts `path_node` at
/// its `k`-th entry.
proof fn lemma_chain_path_node(nodes: Seq<TrieNode>, path: Seq<bool>, ids: Seq<int>, k: int)
    requires
        nodes_wf(nodes),
        ids.len() == path.len() + 1,
        ids[0] == 0,
        0 <= k <= path.len(),
        forall|j: int|
            0 <= j < k ==> {
                &&& 0 <= #[trigger] ids[j] < nodes.len()
                &&& child_of(nodes[ids[j]], path[j]) == ids[j + 1]
                &&& ids[j + 1] != 0
            },
    ensures
        path_node(nodes, 0, path.take(k)) == Some(ids[k]),
    decreases k,
{
    if k == 0 {
        assert(path.take(0) =~= Seq::<bool>::empty());
    } else {
        lemma_chain_path_node(nodes, path, ids, k - 1);
        lemma_path_node_snoc(nodes, 0, path.take(k - 1), path[k - 1]);
        assert(path.take(k - 1).push(path[k - 1]) =~= path.take(k));
    }
}

/// Every leaf of the trie carries a symbol below `hi` that is present in
/// `L`, and sits at the end of that symbol's canonical code path.
pub open spec fn leaves_are_codes(nodes: Seq<TrieNode>, L: Seq<u8>, hi: int) -> bool {
    forall|id: int|
        0 <= id < nodes.len() && (#[trigger] nodes[id].code) is Some ==> exists|m: int|
            0 <= m < hi && L[m] > 0 && nodes[id].code == Some(m as u32) && path_node(
                nodes,
                0,
                code_bits(L, m),
            ) == Some(id)
}

/// Every non-root node of the trie lies on some canonical code path of a
/// symbol below `hi`.
pub open spec fn interior_on_code_paths(nodes: Seq<TrieNode>, L: Seq<u8>, hi: int) -> bool {
    forall|id: int| 1 <= id < nodes.len() ==> #[trigger] on_some_code_path(nodes, L, hi, id)
}

/// In a trie holding exactly the canonical codes of the symbols below
/// `i`, the canonical code of symbol `i` can be grafted without touching
/// a leaf or stopping on an interior node: feasibility keeps the codes
/// prefix-free.
proof fn lemma_canonical_insertable(nodes: Seq<TrieNode>, L: Seq<u8>, i: int)
    requires
        nodes_wf(nodes),
        trie_tree(nodes),
        0 <= i < L.len(),
        L[i] > 0,
        forall|s: int| 0 <= s < L.len() ==> (#[trigger] L[s]) <= 15,
        forall|b: int|
            1 <= b <= 15 ==> first_code(L, b as nat) + count_len(L, b) <= pow2(b as nat),
        leaves_are_codes(nodes, L, i),
        interior_on_code_paths(nodes, L, i),
    ensures
        path_insertable(nodes, code_bits(L, i)),
{
    let cbi = code_bits(L, i);
    let l = L[i] as int;
    assert forall|k: int|
        0 <= k < cbi.len() implies (match path_node(nodes, 0, #[trigger] cbi.take(k)) {
        Some(id) => nodes[id].code is None,
        None => true,
    }) by {
        if path_node(nodes, 0, cbi.take(k)) is Some {
            let id = path_node(nodes, 0, cbi.take(k))->Some_0;
            lemma_path_node_forward(nodes, 0, cbi.take(k));
            if nodes[id].code is Some {
                let m = choose|m: int|
                    0 <= m < i && L[m] > 0 && nodes[id].code == Some(m as u32) && path_node(
                        nodes,
                        0,
                        code_bits(L, m),
                    ) == Some(id);
                lemma_path_unique(nodes, code_bits(L, m), cbi.take(k), id);
                assert(code_bits(L, m) == cbi.take(k));
                assert(code_bits(L, m).len() == k);
                assert(is_prefix_of(code_bits(L, m), cbi));
                lemma_canonical_prefix_free(L, m, i);
                assert(false);
            }
        }
    }
    if path_node(nodes, 0, cbi) is Some {
        let id = path_node(nodes, 0, cbi)->Some_0;
        lemma_path_node_forward(nodes, 0, cbi);
        if nodes[id].code is Some {
            let m = choose|m: int|
                0 <= m < i && L[m] > 0 && nodes[id].code == Some(m as u32) && path_node(
                    nodes,
                    0,
                    code_bits(L, m),
                ) == Some(id);
            lemma_path_unique(nodes, code_bits(L, m), cbi, id);
            assert(cbi.take(cbi.len() as int) =~= cbi);
            assert(is_prefix_of(code_bits(L, m), cbi));
            lemma_canonical_prefix_free(L, m, i);
            assert(false);
        }
        if nodes[id].zero != 0 || nodes[id].one != 0 {
            let bbit: bool = if nodes[id].zero != 0 {
                false
            } else {
                true
            };
            let c = child_of(nodes[id], bbit);
            assert(c != 0);
            assert(nodes[id].zero != 0 ==> id < nodes[id].zero < nodes.len());
            assert(nodes[id].one != 0 ==> id < nodes[id].one < nodes.len());
            assert(1 <= c < nodes.len());
            assert(on_some_code_path(nodes, L, i, c as int));
            let m = choose|m: int|
                0 <= m < i && L[m] > 0 && #[trigger] node_on_path(nodes, code_bits(L, m), c as int);
            let k2 = choose|k2: int|
                1 <= k2 <= code_bits(L, m).len() && path_node(
                    nodes,
                    0,
                    #[trigger] code_bits(L, m).take(k2),
                ) == Some(c as int);
            lemma_path_node_snoc(nodes, 0, cbi, bbit);
            assert(path_node(nodes, 0, cbi.push(bbit)) == Some(c as int));
            lemma_path_unique(nodes, code_bits(L, m).take(k2), cbi.push(bbit), c as int);
            assert(code_bits(L, m).take(k2) == cbi.push(bbit));
            assert(k2 == l + 1);
            assert(is_prefix_of(cbi, code_bits(L, m))) by {
                assert(code_bits(L, m).take(l) =~= code_bits(L, m).take(k2).take(l));
                assert(cbi.push(bbit).take(l) =~= cbi);
            }
            lemma_canonical_prefix_free(L, i, m);
            assert(false);
        }
    }
}

/// After grafting symbol `i`'s canonical code onto the trie, the leaf and
/// interior characterizations extend to the symbols below `i + 1`.
proof fn lemma_insert_reestablish(prev: Seq<TrieNode>, nodes: Seq<TrieNode>, L: Seq<u8>, i: int)
    requires
        nodes_wf(prev),
        sub_trie(prev, nodes),
        0 <= i < L.len(),
        L[i] > 0,
        leaves_are_codes(prev, L, i),
        interior_on_code_paths(prev, L, i),
        one_leaf_per_symbol(nodes),
        forall|id: int|
            0 <= id < nodes.len() && (#[trigger] nodes[id].code) is Some ==> (id < prev.len()
                && prev[id].code == nodes[id].code) || nodes[id].code == Some(i as u32),
        exists|leaf: int|
            0 <= leaf < nodes.len() && path_node(nodes, 0, code_bits(L, i)) == Some(leaf) && (
            #[trigger] nodes[leaf].code) == Some(i as u32),
        forall|id: int|
            prev.len() <= id < nodes.len() ==> #[trigger] node_on_path(nodes, code_bits(L, i), id),
    ensures
        leaves_are_codes(nodes, L, i + 1),
        interior_on_code_paths(nodes, L, i + 1),
{
    assert forall|id: int|
        0 <= id < nodes.len() && (#[trigger] nodes[id].code) is Some implies exists|m: int|
            0 <= m < i + 1 && L[m] > 0 && nodes[id].code == Some(m as u32) && path_node(
                nodes,
                0,
                code_bits(L, m),
            ) == Some(id) by {
        if id < prev.len() && prev[id].code == nodes[id].code && prev[id].code is Some {
            let m0 = choose|m: int|
                0 <= m < i && L[m] > 0 && prev[id].code == Some(m as u32) && path_node(
                    prev,
                    0,
                    code_bits(L, m),
                ) == Some(id);
            lemma_sub_path(prev, nodes, 0, code_bits(L, m0));
            assert(0 <= m0 < i + 1 && L[m0] > 0 && nodes[id].code == Some(m0 as u32) && path_node(
                nodes,
                0,
                code_bits(L, m0),
            ) == Some(id));
        } else {
            assert(nodes[id].code == Some(i as u32));
            let leaf = choose|leaf: int|
                0 <= leaf < nodes.len() && path_node(nodes, 0, code_bits(L, i)) == Some(leaf) && (
                #[trigger] nodes[leaf].code) == Some(i as u32);
            assert(id == leaf);
            assert(0 <= i < i + 1 && L[i] > 0 && nodes[id].code == Some(i as u32) && path_node(
                nodes,
                0,
                code_bits(L, i),
            ) == Some(id));
        }
    }
    assert forall|id: int| 1 <= id < nodes.len() implies #[trigger] on_some_code_path(
        nodes,
        L,
        i + 1,
        id,
    ) by {
        if id < prev.len() {
            assert(on_some_code_path(prev, L, i, id));
            let m = choose|m: int|
                0 <= m < i && L[m] > 0 && #[trigger] node_on_path(prev, code_bits(L, m), id);
            let k2 = choose|k2: int|
                1 <= k2 <= code_bits(L, m).len() && path_node(
                    prev,
                    0,
                    #[trigger] code_bits(L, m).take(k2),
                ) == Some(id);
            lemma_sub_path(prev, nodes, 0, code_bits(L, m).take(k2));
            assert(node_on_path(nodes, code_bits(L, m), id));
            assert(0 <= m < i + 1 && L[m] > 0 && node_on_path(nodes, code_bits(L, m), id));
        } else {
            assert(node_on_path(nodes, code_bits(L, i), id));
            assert(0 <= i < i + 1 && L[i] > 0 && node_on_path(nodes, code_bits(L, i), id));
        }
    }
}

/// The leaf and interior characterizations are monotone in the symbol
/// bound.
proof fn lemma_code_paths_widen(nodes: Seq<TrieNode>, L: Seq<u8>, i: int)
    requires
        leaves_are_codes(nodes, L, i),
        interior_on_code_paths(nodes, L, i),
    ensures
        leaves_are_codes(nodes, L, i + 1),
        interior_on_code_paths(nodes, L, i + 1),
{
    assert forall|id: int|
        0 <= id < nodes.len() && (#[trigger] nodes[id].code) is Some implies exists|m: int|
            0 <= m < i + 1 && L[m] > 0 && nodes[id].code == Some(m as u32) && path_node(
                nodes,
                0,
                code_bits(L, m),
            ) == Some(id) by {
        let m0 = choose|m: int|
            0 <= m < i && L[m] > 0 && nodes[id].code == Some(m as u32) && path_node(
                nodes,
                0,
                code_bits(L, m),
            ) == Some(id);
        assert(0 <= m0 < i + 1 && L[m0] > 0 && nodes[id].code == Some(m0 as u32) && path_node(
            nodes,
            0,
            code_bits(L, m0),
        ) == Some(id));
    }
    assert forall|id: int| 1 <= id < nodes.len() implies #[trigger] on_some_code_path(
        nodes,
        L,
        i + 1,
        id,
    ) by {
        assert(on_some_code_path(nodes, L, i, id));
        let m = choose|m: int|
            0 <= m < i && L[m] > 0 && #[trigger] node_on_path(nodes, code_bits(L, m), id);
        assert(0 <= m < i + 1 && L[m] > 0 && node_on_path(nodes, code_bits(L, m), id));
    }
}

proof fn lemma_walk_bump_compose(w: WalkResult, a: nat, b: nat)
    ensures
        walk_bump(walk_bump(w, a), b) == walk_bump(w, a + b),
{
}

/// A trie whose codes all come from a duplicate-free trie, at the same
/// places, is duplicate-free.
proof fn lemma_codes_preserved_unique(n1: Seq<TrieNode>, n2: Seq<TrieNode>)
    requires
        one_leaf_per_symbol(n1),
        forall|id: int|
            0 <= id < n2.len() && (#[trigger] n2[id].code) is Some ==> id < n1.len()
                && n1[id].code == n2[id].code,
    ensures
        one_leaf_per_symbol(n2),
{
    assert forall|id1: int, id2: int|
        0 <= id1 < n2.len() && 0 <= id2 < n2.len() && (#[trigger] n2[id1].code) is Some
            && n2[id1].code == (#[trigger] n2[id2].code) implies id1 == id2 by {
        assert(n1[id1].code == n2[id1].code);
        assert(n1[id2].code == n2[id2].code);
    }
}

/// Insert one canonical code as a path of `len` bits (MSB-first) ending in
/// a leaf carrying `sym`. Returns false when the path would cross or land
/// on an already-assigned leaf, or stop on an interior node: the code set
/// would not be prefix-free.
fn insert_code(nodes: &mut Vec<TrieNode>, code: u32, len: u8, sym: u32) -> (ok: bool)
    requires
        nodes_wf(old(nodes)@),
        1 <= len <= 15,
        (code as nat) < pow2(len as nat),
        one_leaf_per_symbol(old(nodes)@),
        forall|id: int|
            0 <= id < old(nodes)@.len() ==> (#[trigger] old(nodes)@[id].code) != Some(sym),
    ensures
        nodes_wf(final(nodes)@),
        sub_trie(old(nodes)@, final(nodes)@),
        one_leaf_per_symbol(final(nodes)@),
        forall|id: int|
            0 <= id < final(nodes)@.len() && (#[trigger] final(nodes)@[id].code) is Some
                ==> (id < old(nodes)@.len() && old(nodes)@[id].code == final(nodes)@[id].code)
                || final(nodes)@[id].code == Some(sym),
        ok ==> forall|ext: Seq<bool>|
            #[trigger] walk(final(nodes)@, 0, to_bits_msb(code as nat, len as nat) + ext)
                == (WalkResult::Found { sym, used: len as nat }),
        !ok ==> final(nodes)@ == old(nodes)@,
        trie_tree(old(nodes)@) ==> trie_tree(final(nodes)@),
        ok ==> exists|leaf: int|
            0 <= leaf < final(nodes)@.len() && path_node(
                final(nodes)@,
                0,
                to_bits_msb(code as nat, len as nat),
            ) == Some(leaf) && final(nodes)@[leaf].code == Some(sym),
        ok ==> forall|id: int|
            old(nodes)@.len() <= id < final(nodes)@.len() ==> #[trigger] node_on_path(
                final(nodes)@,
                to_bits_msb(code as nat, len as nat),
                id,
            ),
        path_insertable(old(nodes)@, to_bits_msb(code as nat, len as nat)) ==> ok,
    {
        let ghost path = to_bits_msb(code as nat, len as nat);
        let mut idx: usize = 0;
        let mut j: u8 = 0;
        let ghost mut ids: Seq<int> = seq![0int];
        proof {
            assert(path.take(0) =~= Seq::<bool>::empty());
            assert(path_node(old(nodes)@, 0, path.take(0)) == Some(0int));
        }
        while j < len
            invariant
                one_leaf_per_symbol(old(nodes)@),
                forall|id: int|
                    0 <= id < old(nodes)@.len() ==> (#[trigger] old(nodes)@[id].code) != Some(sym),
                j <= len,
                len <= 15,
                nodes_wf(nodes@),
                sub_trie(old(nodes)@, nodes@),
                idx < nodes@.len(),
                path == to_bits_msb(code as nat, len as nat),
                path.len() == len,
                ids.len() == j + 1,
                ids[0] == 0,
                ids[j as int] == idx,
                forall|id: int|
                    0 <= id < nodes@.len() && (#[trigger] nodes@[id].code) is Some ==> id < old(
                        nodes,
                    )@.len() && old(nodes)@[id].code == nodes@[id].code,
                forall|a: int, b: int| 0 <= a < b < ids.len() ==> ids[a] < ids[b],
                forall|jj: int|
                    0 <= jj < j ==> {
                        &&& 0 <= #[trigger] ids[jj] < nodes@.len()
                        &&& nodes@[ids[jj]].code is None
                        &&& child_of(nodes@[ids[jj]], path[jj]) == ids[jj + 1]
                        &&& ids[jj + 1] != 0
                    },
                nodes@.len() == old(nodes)@.len() ==> nodes@ == old(nodes)@ && path_node(
                    old(nodes)@,
                    0,
                    path.take(j as int),
                ) == Some(idx as int),
                nodes@.len() > old(nodes)@.len() ==> idx == nodes@.len() - 1 && nodes@[idx as int].code
                    is None && nodes@[idx as int].zero == 0 && nodes@[idx as int].one == 0,
                trie_tree(old(nodes)@) ==> trie_tree(nodes@),
                forall|id: int|
                    old(nodes)@.len() <= id < nodes@.len() ==> #[trigger] ids.subrange(
                        0,
                        j + 1,
                    ).contains(id),
            decreases len - j,
        {
            if nodes[idx].code.is_some() {
                proof {
                    lemma_codes_preserved_unique(old(nodes)@, nodes@);
                    assert(nodes@.len() == old(nodes)@.len());
                    assert(path_node(old(nodes)@, 0, path.take(j as int)) == Some(idx as int));
                    assert(old(nodes)@[idx as int].code is Some);
                    assert(!path_insertable(old(nodes)@, path));
                }
                return false;
            }
            let sh: u8 = len - 1 - j;
            let bit = ((code >> (sh as u32)) & 1) == 1;
            proof {
                lemma_code_bit(code, len, j);
                assert(bit == path[j as int]);
            }
            let node = nodes[idx];
            let child = if bit {
                node.one
            } else {
                node.zero
            };
            let ghost prev = nodes@;
            let ghost old_idx = idx;
            if child == 0 {
                let fresh = nodes.len();
                nodes.push(TrieNode { zero: 0, one: 0, code: None });
                let mut pn = nodes[idx];
                if bit {
                    pn.one = fresh;
                } else {
                    pn.zero = fresh;
                }
                nodes.set(idx, pn);
                proof {
                    let ghost ids0 = ids;
                    ids = ids.push(fresh as int);
                    assert forall|i2: int| 0 <= i2 < nodes@.len() implies {
                        &&& (#[trigger] nodes@[i2].zero != 0 ==> i2 < nodes@[i2].zero
                            < nodes@.len())
                        &&& (nodes@[i2].one != 0 ==> i2 < nodes@[i2].one < nodes@.len())
                    } by {
                        if i2 < prev.len() && i2 != old_idx {
                            assert(nodes@[i2] == prev[i2]);
                            assert(prev[i2].zero != 0 ==> i2 < prev[i2].zero < prev.len());
                            assert(prev[i2].one != 0 ==> i2 < prev[i2].one < prev.len());
                        } else if i2 == old_idx as int {
                            assert(prev[i2].zero != 0 ==> i2 < prev[i2].zero < prev.len());
                            assert(prev[i2].one != 0 ==> i2 < prev[i2].one < prev.len());
                            assert(old_idx < fresh < nodes@.len());
                        } else {
                            assert(nodes@[i2].zero == 0 && nodes@[i2].one == 0);
                        }
                    }
                    assert(nodes_wf(nodes@));
                    assert forall|i2: int| 0 <= i2 < old(nodes)@.len() implies {
                        &&& (#[trigger] old(nodes)@[i2].code is Some ==> nodes@[i2].code == old(
                            nodes,
                        )@[i2].code)
                        &&& (old(nodes)@[i2].code is None && nodes@[i2].code is Some ==> old(
                            nodes,
                        )@[i2].zero == 0 && old(nodes)@[i2].one == 0)
                        &&& (old(nodes)@[i2].zero != 0 ==> nodes@[i2].zero == old(nodes)@[i2].zero)
                        &&& (old(nodes)@[i2].one != 0 ==> nodes@[i2].one == old(nodes)@[i2].one)
                    } by {
                        if i2 != old_idx {
                            assert(nodes@[i2] == prev[i2]);
                        }
                    }
                    assert(sub_trie(old(nodes)@, nodes@));
                    assert forall|id: int|
                        0 <= id < nodes@.len() && (#[trigger] nodes@[id].code) is Some implies id
                        < old(nodes)@.len() && old(nodes)@[id].code == nodes@[id].code by {
                        if id < prev.len() && id != old_idx {
                            assert(nodes@[id] == prev[id]);
                        } else if id == old_idx {
                            assert(nodes@[id].code == prev[id].code);
                        }
                    }
                    assert(nodes@[fresh as int].code is None && nodes@[fresh as int].zero == 0
                        && nodes@[fresh as int].one == 0);
                    if trie_tree(old(nodes)@) {
                        assert(trie_tree(prev));
                        assert forall|x: int, bx: bool|
                            0 <= x < nodes@.len() implies #[trigger] child_of(nodes@[x], bx) == (
                        if x == old_idx as int && bx == bit {
                            fresh
                        } else if x < prev.len() {
                            child_of(prev[x], bx)
                        } else {
                            0usize
                        }) by {
                            if x < prev.len() && x != old_idx {
                                assert(nodes@[x] == prev[x]);
                            }
                        }
                        assert forall|a: int, ba: bool, b2: int, bb: bool|
                            #![trigger child_of(nodes@[a], ba), child_of(nodes@[b2], bb)]
                            0 <= a < nodes@.len() && 0 <= b2 < nodes@.len() && child_of(
                                nodes@[a],
                                ba,
                            ) != 0 && child_of(nodes@[a], ba) == child_of(nodes@[b2], bb) implies a
                            == b2 && ba == bb by {
                            let va = child_of(nodes@[a], ba);
                            if va == fresh {
                                if a < prev.len() && !(a == old_idx as int && ba == bit) {
                                    assert(va == child_of(prev[a], ba));
                                    assert(prev[a].zero != 0 ==> a < prev[a].zero < prev.len());
                                    assert(prev[a].one != 0 ==> a < prev[a].one < prev.len());
                                    assert(child_of(prev[a], ba) == (if ba {
                                        prev[a].one
                                    } else {
                                        prev[a].zero
                                    }));
                                    assert(false);
                                }
                                if b2 < prev.len() && !(b2 == old_idx as int && bb == bit) {
                                    assert(va == child_of(prev[b2], bb));
                                    assert(prev[b2].zero != 0 ==> b2 < prev[b2].zero < prev.len());
                                    assert(prev[b2].one != 0 ==> b2 < prev[b2].one < prev.len());
                                    assert(child_of(prev[b2], bb) == (if bb {
                                        prev[b2].one
                                    } else {
                                        prev[b2].zero
                                    }));
                                    assert(false);
                                }
                                assert(a == old_idx as int && ba == bit);
                                assert(b2 == old_idx as int && bb == bit);
                            } else {
                                assert(a != fresh && b2 != fresh);
                                assert(va == child_of(prev[a], ba));
                                assert(child_of(prev[b2], bb) == va);
                            }
                        }
                    }
                    assert(ids[j + 1] == fresh as int);
                    assert forall|id: int|
                        old(nodes)@.len() <= id < nodes@.len() implies #[trigger] ids.subrange(
                            0,
                            j + 2,
                        ).contains(id) by {
                        if id < fresh {
                            assert(ids0.subrange(0, j + 1).contains(id));
                            let k = choose|k: int|
                                0 <= k < ids0.subrange(0, j + 1).len() && #[trigger] ids0.subrange(
                                    0,
                                    j + 1,
                                )[k] == id;
                            assert(ids.subrange(0, j + 2)[k] == id);
                        } else {
                            assert(ids.subrange(0, j + 2)[j + 1] == id);
                        }
                    }
                }
                idx = fresh;
            } else {
                proof {
                    ids = ids.push(child as int);
                    assert(prev[old_idx as int].zero != 0 ==> old_idx < prev[old_idx as int].zero
                        < prev.len());
                    assert(prev[old_idx as int].one != 0 ==> old_idx < prev[old_idx as int].one
                        < prev.len());
                    if nodes@.len() == old(nodes)@.len() {
                        lemma_path_node_snoc(old(nodes)@, 0, path.take(j as int), path[j as int]);
                        assert(path.take(j as int).push(path[j as int]) =~= path.take(j + 1));
                        assert(child_of(old(nodes)@[old_idx as int], path[j as int]) == child);
                        assert(path_node(old(nodes)@, 0, path.take(j + 1)) == Some(child as int));
                    }
                }
                idx = child;
            }
            j = j + 1;
            proof {
                assert(ids[j as int] == idx);
                assert(old_idx < idx);
                assert forall|a: int, b: int| 0 <= a < b < ids.len() implies ids[a] < ids[b] by {
                    if b == ids.len() - 1 {
                        assert(ids[b] == idx as int);
                        assert(ids[(j - 1) as int] == old_idx as int);
                        if a < j - 1 {
                            assert(ids[a] < ids[(j - 1) as int]);
                        }
                    }
                }
                assert forall|jj: int| 0 <= jj < j implies {
                    &&& 0 <= #[trigger] ids[jj] < nodes@.len()
                    &&& nodes@[ids[jj]].code is None
                    &&& child_of(nodes@[ids[jj]], path[jj]) == ids[jj + 1]
                    &&& ids[jj + 1] != 0
                } by {
                    if jj < j - 1 {
                        assert(ids[jj] < ids[j - 1]);
                        assert(ids[jj] != old_idx as int);
                        assert(0 <= ids[jj] < prev.len());
                        assert(nodes@[ids[jj]] == prev[ids[jj]]);
                    } else {
                        assert(ids[jj] == old_idx as int);
                    }
                }
            }
        }
        if nodes[idx].code.is_some() {
            proof {
                lemma_codes_preserved_unique(old(nodes)@, nodes@);
                assert(nodes@.len() == old(nodes)@.len());
                assert(path.take(len as int) =~= path);
                assert(path_node(old(nodes)@, 0, path) == Some(idx as int));
                assert(!path_insertable(old(nodes)@, path));
            }
            return false;
        }
        let nd = nodes[idx];
        if nd.zero != 0 || nd.one != 0 {
            proof {
                lemma_codes_preserved_unique(old(nodes)@, nodes@);
                assert(nodes@.len() == old(nodes)@.len());
                assert(path.take(len as int) =~= path);
                assert(path_node(old(nodes)@, 0, path) == Some(idx as int));
                assert(!path_insertable(old(nodes)@, path));
            }
            return false;
        }
        let ghost prev = nodes@;
        let mut pn = nodes[idx];
        pn.code = Some(sym);
        nodes.set(idx, pn);
        proof {
            assert(idx != 0) by {
                assert(ids[0] == 0 && ids[len as int] == idx);
                assert(ids[0] < ids[len as int]);
            }
            assert forall|i2: int| 0 <= i2 < nodes@.len() implies {
                &&& (#[trigger] nodes@[i2].zero != 0 ==> i2 < nodes@[i2].zero < nodes@.len())
                &&& (nodes@[i2].one != 0 ==> i2 < nodes@[i2].one < nodes@.len())
            } by {
                if i2 != idx {
                    assert(nodes@[i2] == prev[i2]);
                }
            }
            assert(nodes_wf(nodes@));
            assert forall|i2: int| 0 <= i2 < old(nodes)@.len() implies {
                &&& (#[trigger] old(nodes)@[i2].code is Some ==> nodes@[i2].code == old(
                    nodes,
                )@[i2].code)
                &&& (old(nodes)@[i2].code is None && nodes@[i2].code is Some ==> old(
                    nodes,
                )@[i2].zero == 0 && old(nodes)@[i2].one == 0)
                &&& (old(nodes)@[i2].zero != 0 ==> nodes@[i2].zero == old(nodes)@[i2].zero)
                &&& (old(nodes)@[i2].one != 0 ==> nodes@[i2].one == old(nodes)@[i2].one)
            } by {
                if i2 != idx {
                    assert(nodes@[i2] == prev[i2]);
                } else {
                    assert(prev[i2].zero == 0 && prev[i2].one == 0 && prev[i2].code is None);
                    assert(old(nodes)@[i2].zero != 0 ==> prev[i2].zero == old(nodes)@[i2].zero);
                    assert(old(nodes)@[i2].one != 0 ==> prev[i2].one == old(nodes)@[i2].one);
                }
            }
            assert(sub_trie(old(nodes)@, nodes@));
            assert forall|id: int|
                0 <= id < nodes@.len() && (#[trigger] nodes@[id].code) is Some implies ((id < old(
                nodes,
            )@.len() && old(nodes)@[id].code == nodes@[id].code) || nodes@[id].code == Some(
                sym,
            )) by {
                if id != idx {
                    assert(nodes@[id] == prev[id]);
                }
            }
            assert forall|id1: int, id2: int|
                0 <= id1 < nodes@.len() && 0 <= id2 < nodes@.len() && (#[trigger] nodes@[id1].code)
                    is Some && nodes@[id1].code == (#[trigger] nodes@[id2].code) implies id1
                == id2 by {
                if id1 != idx && id2 != idx {
                    assert(nodes@[id1] == prev[id1] && nodes@[id2] == prev[id2]);
                    assert(old(nodes)@[id1].code == nodes@[id1].code);
                    assert(old(nodes)@[id2].code == nodes@[id2].code);
                } else if id1 == idx && id2 != idx {
                    assert(nodes@[id2] == prev[id2]);
                    assert(old(nodes)@[id2].code == nodes@[id2].code);
                    assert(old(nodes)@[id2].code != Some(sym));
                } else if id1 != idx && id2 == idx {
                    assert(nodes@[id1] == prev[id1]);
                    assert(old(nodes)@[id1].code == nodes@[id1].code);
                    assert(old(nodes)@[id1].code != Some(sym));
                }
            }
            assert(chain_ok(nodes@, path, ids, sym, 0)) by {
                assert forall|jj: int| 0 <= jj < path.len() implies {
                    &&& 0 <= #[trigger] ids[jj] < nodes@.len()
                    &&& nodes@[ids[jj]].code is None
                    &&& child_of(nodes@[ids[jj]], path[jj]) == ids[jj + 1]
                    &&& ids[jj + 1] != 0
                } by {
                    assert(ids[jj] < ids[len as int]);
                    assert(nodes@[ids[jj]] == prev[ids[jj]]);
                }
            }
            assert forall|ext: Seq<bool>| #[trigger] walk(nodes@, 0, path + ext)
                == (WalkResult::Found { sym, used: len as nat }) by {
                lemma_chain_to_walk(nodes@, path, ids, sym, 0, ext);
            }
            if trie_tree(old(nodes)@) {
                assert(trie_tree(prev));
                assert forall|a: int, ba: bool, b2: int, bb: bool|
                    #![trigger child_of(nodes@[a], ba), child_of(nodes@[b2], bb)]
                    0 <= a < nodes@.len() && 0 <= b2 < nodes@.len() && child_of(nodes@[a], ba) != 0
                        && child_of(nodes@[a], ba) == child_of(nodes@[b2], bb) implies a == b2
                    && ba == bb by {
                    assert(child_of(nodes@[a], ba) == child_of(prev[a], ba)) by {
                        if a != idx {
                            assert(nodes@[a] == prev[a]);
                        } else {
                            assert(nodes@[a].zero == prev[a].zero && nodes@[a].one == prev[a].one);
                        }
                    }
                    assert(child_of(nodes@[b2], bb) == child_of(prev[b2], bb)) by {
                        if b2 != idx {
                            assert(nodes@[b2] == prev[b2]);
                        } else {
                            assert(nodes@[b2].zero == prev[b2].zero && nodes@[b2].one
                                == prev[b2].one);
                        }
                    }
                }
            }
            assert(path_node(nodes@, 0, path) == Some(ids[len as int])) by {
                lemma_chain_path_node(nodes@, path, ids, len as int);
                assert(path.take(len as int) =~= path);
            }
            assert(0 <= ids[len as int] < nodes@.len() && path_node(nodes@, 0, path) == Some(
                ids[len as int],
            ) && nodes@[ids[len as int]].code == Some(sym));
            assert forall|id: int|
                old(nodes)@.len() <= id < nodes@.len() implies #[trigger] node_on_path(
                nodes@,
                path,
                id,
            ) by {
                assert(ids.subrange(0, len + 1).contains(id));
                let k = choose|k: int|
                    0 <= k < ids.subrange(0, len + 1).len() && #[trigger] ids.subrange(
                        0,
                        len + 1,
                    )[k] == id;
                assert(ids[k] == id);
                assert(k != 0) by {
                    assert(ids[0] == 0);
                }
                lemma_chain_path_node(nodes@, path, ids, k);
                assert(path_node(nodes@, 0, path.take(k)) == Some(id));
            }
        }
        true
    }

/// One more element at the end of `L` bumps the count of its length alone.
proof fn lemma_count_take_step(L: Seq<u8>, i: int, b: int)
    requires
        0 <= i < L.len(),
    ensures
        count_len(L.take(i + 1), b) == count_len(L.take(i), b) + (if L[i] == b {
            1nat
        } else {
            0nat
        }),
{
    let t = L.take(i + 1);
    assert(t.drop_last() =~= L.take(i));
    assert(t.last() == L[i]);
}

/// Counting over a prefix never exceeds counting over the whole.
proof fn lemma_count_take_le(L: Seq<u8>, i: int, b: int)
    requires
        0 <= i <= L.len(),
    ensures
        count_len(L.take(i), b) <= count_len(L, b),
    decreases L.len() - i,
{
    if i == L.len() {
        assert(L.take(i) =~= L);
    } else {
        lemma_count_take_step(L, i, b);
        lemma_count_take_le(L, i + 1, b);
    }
}

/// A symbol of length `b` at position `i` makes the prefix count strictly
/// smaller than the total.
proof fn lemma_count_take_strict(L: Seq<u8>, i: int, b: int)
    requires
        0 <= i < L.len(),
        L[i] == b,
    ensures
        count_len(L.take(i), b) < count_len(L, b),
{
    lemma_count_take_step(L, i, b);
    lemma_count_take_le(L, i + 1, b);
}

/// Counting over a longer prefix never counts less.
proof fn lemma_count_take_mono(L: Seq<u8>, i: int, j: int, b: int)
    requires
        0 <= i <= j <= L.len(),
    ensures
        count_len(L.take(i), b) <= count_len(L.take(j), b),
{
    assert(L.take(j).take(i) =~= L.take(i));
    lemma_count_take_le(L.take(j), i, b);
}

/// Equal MSB-first renderings of values below the width's capacity force
/// equal values.
proof fn lemma_to_bits_msb_injective(v1: nat, v2: nat, len: nat)
    requires
        v1 < pow2(len),
        v2 < pow2(len),
        to_bits_msb(v1, len) == to_bits_msb(v2, len),
    ensures
        v1 == v2,
    decreases len,
{
    lemma2_to64();
    if len == 0 {
    } else {
        let j = len - 1;
        assert(to_bits_msb(v1, len)[j] == to_bits_msb(v2, len)[j]);
        assert(to_bits_msb(v1, len)[j] == ((v1 / pow2((len - 1 - j) as nat)) % 2 == 1));
        assert(to_bits_msb(v2, len)[j] == ((v2 / pow2((len - 1 - j) as nat)) % 2 == 1));
        assert((len - 1 - j) as nat == 0);
        assert(v1 / 1 == v1 && v2 / 1 == v2);
        assert(((v1 % 2) == 1) == ((v2 % 2) == 1));
        assert(0 <= v1 % 2 < 2 && 0 <= v2 % 2 < 2);
        assert(v1 % 2 == v2 % 2);
        assert forall|i: int| 0 <= i < len - 1 implies #[trigger] to_bits_msb(
            v1 / 2,
            (len - 1) as nat,
        )[i] == to_bits_msb(v2 / 2, (len - 1) as nat)[i] by {
            let e = (len - 2 - i) as nat;
            lemma_pow2_adds(1, e);
            vstd::arithmetic::power2::lemma_pow2_pos(e);
            vstd::arithmetic::div_mod::lemma_div_denominator(v1 as int, 2, pow2(e) as int);
            vstd::arithmetic::div_mod::lemma_div_denominator(v2 as int, 2, pow2(e) as int);
            assert((len - 1 - i) as nat == 1 + e);
            assert(pow2(1 + e) == 2 * pow2(e));
            assert(to_bits_msb(v1 / 2, (len - 1) as nat)[i] == ((v1 / 2 / pow2(e)) % 2 == 1));
            assert(to_bits_msb(v2 / 2, (len - 1) as nat)[i] == ((v2 / 2 / pow2(e)) % 2 == 1));
            assert(to_bits_msb(v1, len)[i] == ((v1 / pow2(1 + e)) % 2 == 1));
            assert(to_bits_msb(v2, len)[i] == ((v2 / pow2(1 + e)) % 2 == 1));
            assert(to_bits_msb(v1, len)[i] == to_bits_msb(v2, len)[i]);
        }
        assert(to_bits_msb(v1 / 2, (len - 1) as nat) =~= to_bits_msb(v2 / 2, (len - 1) as nat));
        assert(pow2(len) == 2 * pow2((len - 1) as nat)) by {
            lemma_pow2_adds(1, (len - 1) as nat);
        }
        assert(v1 / 2 < pow2((len - 1) as nat)) by {
            vstd::arithmetic::div_mod::lemma_multiply_divide_lt(
                v1 as int,
                2,
                pow2((len - 1) as nat) as int,
            );
        }
        assert(v2 / 2 < pow2((len - 1) as nat)) by {
            vstd::arithmetic::div_mod::lemma_multiply_divide_lt(
                v2 as int,
                2,
                pow2((len - 1) as nat) as int,
            );
        }
        lemma_to_bits_msb_injective(v1 / 2, v2 / 2, (len - 1) as nat);
        vstd::arithmetic::div_mod::lemma_fundamental_div_mod(v1 as int, 2);
        vstd::arithmetic::div_mod::lemma_fundamental_div_mod(v2 as int, 2);
    }
}

/// A prefix of an MSB-first rendering renders the value shifted down by
/// the dropped width.
proof fn lemma_to_bits_msb_prefix(v: nat, len: nat, k: nat)
    requires
        k <= len,
    ensures
        to_bits_msb(v, len).take(k as int) == to_bits_msb(v / pow2((len - k) as nat), k),
{
    assert forall|i: int| 0 <= i < k implies to_bits_msb(v, len)[i] == to_bits_msb(
        v / pow2((len - k) as nat),
        k,
    )[i] by {
        let d = (len - k) as nat;
        let e = (k - 1 - i) as nat;
        lemma_pow2_adds(d, e);
        vstd::arithmetic::power2::lemma_pow2_pos(d);
        vstd::arithmetic::power2::lemma_pow2_pos(e);
        vstd::arithmetic::div_mod::lemma_div_denominator(v as int, pow2(d) as int, pow2(e) as int);
        assert((len - 1 - i) as nat == d + e);
    }
    assert(to_bits_msb(v, len).take(k as int) =~= to_bits_msb(v / pow2((len - k) as nat), k));
}

/// From one code level to a deeper one the first canonical code at least
/// doubles per bit, leaving every shallower code's subtree behind.
proof fn lemma_first_code_growth(L: Seq<u8>, b1: nat, b2: nat, c: nat)
    requires
        1 <= b1 < b2,
        c < first_code(L, b1) + count_nz(L, b1 as int),
    ensures
        first_code(L, b2) >= (c + 1) * pow2((b2 - b1) as nat),
    decreases b2,
{
    lemma2_to64();
    if b2 == b1 + 1 {
        assert(first_code(L, b2) == (first_code(L, b1) + count_nz(L, b1 as int)) * 2);
        assert((b2 - b1) as nat == 1);
        assert(pow2(1) == 2);
        assert((c + 1) * pow2((b2 - b1) as nat) == (c + 1) * 2) by (nonlinear_arith)
            requires
                pow2((b2 - b1) as nat) == 2,
        ;
        assert(first_code(L, b2) >= (c + 1) * 2);
    } else {
        lemma_first_code_growth(L, b1, (b2 - 1) as nat, c);
        let d1 = (b2 - 1 - b1) as nat;
        assert(first_code(L, b2) == (first_code(L, (b2 - 1) as nat) + count_nz(
            L,
            b2 as int - 1,
        )) * 2);
        assert(first_code(L, b2) >= first_code(L, (b2 - 1) as nat) * 2);
        assert(first_code(L, (b2 - 1) as nat) * 2 >= ((c + 1) * pow2(d1)) * 2);
        assert(pow2((b2 - b1) as nat) == pow2(d1) * 2) by {
            lemma_pow2_adds(d1, 1);
        }
        assert(((c + 1) * pow2(d1)) * 2 == (c + 1) * (pow2(d1) * 2)) by (nonlinear_arith);
        assert(first_code(L, b2) >= (c + 1) * (pow2(d1) * 2));
        assert((c + 1) * (pow2(d1) * 2) == (c + 1) * pow2((b2 - b1) as nat));
    }
}

/// Canonical codes of distinct present symbols of a feasible length
/// vector are prefix-free: neither is an initial run of the other.
proof fn lemma_canonical_prefix_free(L: Seq<u8>, m: int, n: int)
    requires
        0 <= m < L.len(),
        0 <= n < L.len(),
        m != n,
        L[m] > 0,
        L[n] > 0,
        forall|s: int| 0 <= s < L.len() ==> (#[trigger] L[s]) <= 15,
        forall|b: int|
            1 <= b <= 15 ==> first_code(L, b as nat) + count_len(L, b) <= pow2(b as nat),
    ensures
        !is_prefix_of(code_bits(L, m), code_bits(L, n)),
{
    let lm = L[m] as nat;
    let ln = L[n] as nat;
    let cm = code_of(L, m);
    let cn = code_of(L, n);
    lemma_count_take_strict(L, m, lm as int);
    lemma_count_take_strict(L, n, ln as int);
    lemma_count_take_le(L, m, lm as int);
    lemma_count_take_le(L, n, ln as int);
    assert(cm < first_code(L, lm) + count_len(L, lm as int));
    assert(cn < first_code(L, ln) + count_len(L, ln as int));
    assert(cm < pow2(lm));
    assert(cn < pow2(ln));
    if is_prefix_of(code_bits(L, m), code_bits(L, n)) {
        assert(lm <= ln);
        let d = (ln - lm) as nat;
        let w = cn / pow2(d);
        vstd::arithmetic::power2::lemma_pow2_pos(d);
        vstd::arithmetic::power2::lemma_pow2_pos(lm);
        lemma_to_bits_msb_prefix(cn, ln, lm);
        assert(to_bits_msb(w, lm) == to_bits_msb(cm, lm));
        assert(w < pow2(lm)) by {
            assert(pow2(d) * pow2(lm) == pow2(ln)) by {
                lemma_pow2_adds(d, lm);
            }
            vstd::arithmetic::div_mod::lemma_multiply_divide_lt(
                cn as int,
                pow2(d) as int,
                pow2(lm) as int,
            );
        }
        lemma_to_bits_msb_injective(w, cm, lm);
        if lm == ln {
            assert(pow2(0) == 1) by {
                lemma2_to64();
            }
            assert(cn / 1 == cn);
            assert(w == cn);
            assert(cn == cm);
            if m < n {
                lemma_count_take_step(L, m, lm as int);
                lemma_count_take_mono(L, m + 1, n, lm as int);
            } else {
                lemma_count_take_step(L, n, lm as int);
                lemma_count_take_mono(L, n + 1, m, lm as int);
            }
        } else {
            lemma_first_code_growth(L, lm, ln, cm);
            assert(first_code(L, ln) >= (cm + 1) * pow2(d));
            assert(cn >= (cm + 1) * pow2(d));
            assert(((cm + 1) * pow2(d)) / pow2(d) == cm + 1) by {
                vstd::arithmetic::div_mod::lemma_div_by_multiple(
                    (cm + 1) as int,
                    pow2(d) as int,
                );
            }
            vstd::arithmetic::div_mod::lemma_div_is_ordered(
                ((cm + 1) * pow2(d)) as int,
                cn as int,
                pow2(d) as int,
            );
            assert(w >= cm + 1);
        }
    }
}

impl HuffmanNode {
    /// Build the canonical decoder over the alphabet `0..lengths.len()`;
    /// `lengths[i] == 0` means symbol `i` is absent. Fails when a length
    /// exceeds 15 bits or the lengths admit no prefix-free assignment.
    #[verifier::rlimit(100)]
    pub fn from_code_lengths(lengths: &Vec<u8>) -> (r: Result<HuffmanNode, GzipError>)
        ensures
            r is Ok ==> r->Ok_0.wf(),
            r is Ok ==> accepts_all_codes(lengths@, r->Ok_0@),
            r is Ok ==> decodes_only_present(lengths@, r->Ok_0@),
            r is Ok ==> one_leaf_per_symbol(r->Ok_0@),
            r is Ok ==> lengths_feasible(lengths@),
            lengths_feasible(lengths@) && lengths@.len() <= 0xFFFF_FFFF ==> r is Ok,
            r is Err ==> r == Err::<HuffmanNode, GzipError>(GzipError::BadHuffmanTree),
    {
        let ghost gl = lengths@;
        let n_syms = lengths.len();
        if n_syms > 0xFFFF_FFFF {
            // symbols are carried as u32 values; no DEFLATE alphabet comes near
            return Err(GzipError::BadHuffmanTree);
        }
        let mut i: usize = 0;
        while i < n_syms
            invariant
                i <= n_syms,
                n_syms == gl.len(),
                gl == lengths@,
                forall|m: int| 0 <= m < i ==> gl[m] <= 15,
            decreases n_syms - i,
        {
            if lengths[i] > 15 {
                proof {
                    assert(gl[i as int] > 15);
                }
                return Err(GzipError::BadHuffmanTree);
            }
            i = i + 1;
        }
        // count[b] = number of symbols whose code is b bits long; length 0
        // (absent symbol) takes part in no code computation
        let mut count: Vec<usize> = vec![0; 16];
        proof {
            assert(gl.take(0) =~= Seq::<u8>::empty());
        }
        let mut i: usize = 0;
        while i < n_syms
            invariant
                i <= n_syms,
                n_syms == gl.len(),
                gl == lengths@,
                forall|m: int| 0 <= m < n_syms ==> gl[m] <= 15,
                count@.len() == 16,
                count@[0] == 0,
                forall|b2: int| 1 <= b2 < 16 ==> count@[b2] == count_len(gl.take(i as int), b2),
                forall|b2: int| 1 <= b2 < 16 ==> count@[b2] <= i,
            decreases n_syms - i,
        {
            let l = lengths[i];
            proof {
                assert forall|b2: int| 1 <= b2 < 16 implies count_len(gl.take(i + 1), b2)
                    == count_len(gl.take(i as int), b2) + (if gl[i as int] == b2 {
                    1nat
                } else {
                    0nat
                }) by {
                    lemma_count_take_step(gl, i as int, b2);
                }
            }
            if l > 0 {
                let c = count[l as usize];
                count.set(l as usize, c + 1);
            }
            i = i + 1;
        }
        proof {
            assert(gl.take(n_syms as int) =~= gl);
        }
        // first code of each bit length, checking on the way that no level
        // of the code space is over-subscribed
        let mut next_code: Vec<usize> = vec![0; 16];
        let mut code: usize = 0;
        let mut b: usize = 1;
        proof {
            lemma2_to64();
        }
        while b < 16
            invariant
                1 <= b <= 16,
                n_syms == gl.len(),
                gl == lengths@,
                count@.len() == 16,
                count@[0] == 0,
                forall|b2: int| 1 <= b2 < 16 ==> count@[b2] == count_len(gl, b2),
                next_code@.len() == 16,
                code == first_code(gl, (b - 1) as nat),
                code + count_nz(gl, b - 1) <= pow2((b - 1) as nat),
                forall|b2: int| 1 <= b2 < b ==> next_code@[b2] == first_code(gl, b2 as nat),
                forall|b2: int|
                    1 <= b2 < b ==> first_code(gl, b2 as nat) + count_len(gl, b2) <= pow2(
                        b2 as nat,
                    ),
            decreases 16 - b,
        {
            proof {
                lemma_pow2_adds((b - 1) as nat, 1);
                lemma2_to64();
                assert(pow2(b as nat) == pow2((b - 1) as nat) * 2);
            }
            code = (code + count[b - 1]) * 2;
            let cap = 1usize << b;
            proof {
                vstd::bits::lemma_usize_pow2_no_overflow(b as nat);
                vstd::bits::lemma_usize_shl_is_mul(1usize, b as usize);
                assert(cap == pow2(b as nat));
                assert(code == first_code(gl, b as nat));
                assert(code <= cap);
            }
            if count[b] > cap - code {
                proof {
                    assert(count@[b as int] == count_len(gl, b as int));
                    assert(first_code(gl, b as nat) + count_len(gl, b as int) > pow2(b as nat));
                }
                return Err(GzipError::BadHuffmanTree);
            }
            next_code.set(b, code);
            b = b + 1;
        }
        // assign each present symbol its code, in ascending symbol order
        let mut table: Vec<TreeNode> = Vec::new();
        proof {
            assert(gl.take(0) =~= Seq::<u8>::empty());
        }
        let mut i: usize = 0;
        while i < n_syms
            invariant
                i <= n_syms,
                n_syms == gl.len(),
                gl == lengths@,
                forall|m: int| 0 <= m < n_syms ==> gl[m] <= 15,
                next_code@.len() == 16,
                forall|b2: int|
                    1 <= b2 < 16 ==> next_code@[b2] == first_code(gl, b2 as nat) + count_len(
                        gl.take(i as int),
                        b2,
                    ),
                forall|b2: int|
                    1 <= b2 < 16 ==> first_code(gl, b2 as nat) + count_len(gl, b2) <= pow2(
                        b2 as nat,
                    ),
                table@.len() == i,
                forall|m: int|
                    0 <= m < i && gl[m] > 0 ==> (#[trigger] table@[m]).code as nat == code_of(
                        gl,
                        m,
                    ) && table@[m].len == gl[m],
            decreases n_syms - i,
        {
            let l = lengths[i];
            proof {
                assert forall|b2: int| 1 <= b2 < 16 implies count_len(gl.take(i + 1), b2)
                    == count_len(gl.take(i as int), b2) + (if gl[i as int] == b2 {
                    1nat
                } else {
                    0nat
                }) by {
                    lemma_count_take_step(gl, i as int, b2);
                }
            }
            if l > 0 {
                proof {
                    lemma_count_take_strict(gl, i as int, l as int);
                    vstd::bits::lemma_usize_pow2_no_overflow(l as nat);
                }
                let c = next_code[l as usize];
                proof {
                    assert(c == code_of(gl, i as int));
                    assert(c < first_code(gl, l as nat) + count_len(gl, l as int));
                    assert(c < pow2(l as nat));
                    if (l as nat) < 15 {
                        vstd::arithmetic::power2::lemma_pow2_strictly_increases(l as nat, 15);
                    }
                    lemma2_to64();
                    assert(c < 32768);
                }
                table.push(TreeNode { len: l as u32, code: c as u32 });
                next_code.set(l as usize, c + 1);
            } else {
                table.push(TreeNode { len: 0, code: 0 });
            }
            i = i + 1;
        }
        // insert every assigned code into the trie
        let mut nodes: Vec<TrieNode> = Vec::new();
        nodes.push(TrieNode { zero: 0, one: 0, code: None });
        proof {
            assert forall|a: int, ba: bool| 0 <= a < nodes@.len() implies #[trigger] child_of(
                nodes@[a],
                ba,
            ) == 0 by {
                assert(nodes@[a].zero == 0 && nodes@[a].one == 0);
            }
        }
        let mut i: usize = 0;
        while i < n_syms
            invariant
                i <= n_syms,
                n_syms == gl.len(),
                gl == lengths@,
                forall|m: int| 0 <= m < n_syms ==> gl[m] <= 15,
                forall|b2: int|
                    1 <= b2 < 16 ==> first_code(gl, b2 as nat) + count_len(gl, b2) <= pow2(
                        b2 as nat,
                    ),
                table@.len() == n_syms,
                forall|m: int|
                    0 <= m < n_syms && gl[m] > 0 ==> (#[trigger] table@[m]).code as nat == code_of(
                        gl,
                        m,
                    ) && table@[m].len == gl[m],
                nodes_wf(nodes@),
                n_syms <= 0xFFFF_FFFF,
                one_leaf_per_symbol(nodes@),
                accepts_codes_upto(gl, nodes@, i as int),
                trie_tree(nodes@),
                leaves_are_codes(nodes@, gl, i as int),
                interior_on_code_paths(nodes@, gl, i as int),
            decreases n_syms - i,
        {
            let l = lengths[i];
            if l > 0 {
                let ghost prev = nodes@;
                let tn = table[i];
                proof {
                    lemma_count_take_strict(gl, i as int, l as int);
                    assert(code_of(gl, i as int) < first_code(gl, l as nat) + count_len(
                        gl,
                        l as int,
                    ));
                    assert((tn.code as nat) < pow2(l as nat));
                }
                proof {
                    assert forall|id: int| 0 <= id < nodes@.len() implies (
                    #[trigger] nodes@[id].code) != Some(i as u32) by {
                        if nodes@[id].code is Some {
                            let m = choose|m: int|
                                0 <= m < i && gl[m] > 0 && nodes@[id].code == Some(m as u32);
                            assert(m as u32 != i as u32);
                        }
                    }
                    assert(table@[i as int].code as nat == code_of(gl, i as int)
                        && table@[i as int].len == gl[i as int]);
                    lemma_canonical_insertable(nodes@, gl, i as int);
                    assert(to_bits_msb(tn.code as nat, l as nat) == code_bits(gl, i as int));
                }
                let ok = insert_code(&mut nodes, tn.code, l, i as u32);
                proof {
                    assert(ok);
                }
                if !ok {
                    return Err(GzipError::BadHuffmanTree);
                }
                proof {
                    lemma_insert_reestablish(prev, nodes@, gl, i as int);
                    assert forall|n2: int, ext: Seq<bool>|
                        0 <= n2 < i + 1 && n2 < gl.len() && gl[n2] > 0 implies #[trigger] walk(
                        nodes@,
                        0,
                        code_bits(gl, n2) + ext,
                    ) == (WalkResult::Found { sym: n2 as u32, used: gl[n2] as nat }) by {
                        if n2 < i {
                            assert(walk(prev, 0, code_bits(gl, n2) + ext) == (WalkResult::Found {
                                sym: n2 as u32,
                                used: gl[n2] as nat,
                            }));
                            lemma_sub_preserves_found(prev, nodes@, 0, code_bits(gl, n2) + ext);
                        } else {
                            assert(code_bits(gl, n2) == to_bits_msb(tn.code as nat, l as nat));
                        }
                    }
                }
            } else {
                proof {
                    lemma_code_paths_widen(nodes@, gl, i as int);
                }
            }
            i = i + 1;
        }
        proof {
            assert(accepts_codes_upto(gl, nodes@, n_syms as int));
            assert forall|n2: int, ext: Seq<bool>| 0 <= n2 < gl.len() && gl[n2] > 0 implies {
                #[trigger] walk(nodes@, 0, code_bits(gl, n2) + ext) == (WalkResult::Found {
                    sym: n2 as u32,
                    used: gl[n2] as nat,
                })
            } by {
                assert(n2 < n_syms);
            }
            assert forall|s: Seq<bool>|
                ((#[trigger] walk(nodes@, 0, s)) matches WalkResult::Found { sym, used } ==> exists|
                    m: int,
                | 0 <= m < gl.len() && gl[m] > 0 && sym == m as u32) by {
                match walk(nodes@, 0, s) {
                    WalkResult::Found { sym, used } => {
                        lemma_walk_found_has_leaf(nodes@, 0, s, sym, used);
                        let id = choose|id: int|
                            0 <= id < nodes@.len() && #[trigger] nodes@[id].code == Some(sym);
                        let m = choose|m: int|
                            0 <= m < n_syms && gl[m] > 0 && nodes@[id].code == Some(m as u32);
                        assert(0 <= m < gl.len() && gl[m] > 0 && sym == m as u32);
                    },
                    WalkResult::Dead { .. } => {},
                    WalkResult::Short => {},
                }
            }
        }
        Ok(HuffmanNode { nodes })
    }

    /// Build the decoder from a run-length list of code lengths. Succeeds
    /// exactly when the runs are well formed and the lengths they expand
    /// to are feasible.
    pub fn from_range(ranges: &Vec<HuffmanRange>) -> (r: Result<HuffmanNode, GzipError>)
        ensures
            r is Ok ==> r->Ok_0.wf(),
            r is Ok ==> accepts_all_codes(range_expand(ranges@), r->Ok_0@),
            r is Ok ==> decodes_only_present(range_expand(ranges@), r->Ok_0@),
            r is Ok ==> one_leaf_per_symbol(r->Ok_0@),
            r is Ok ==> lengths_feasible(range_expand(ranges@)),
            ends_increasing(ranges@) && (ranges@.len() > 0 ==> ranges@[ranges@.len() - 1].end
                <= 0xFFFF) && lengths_feasible(range_expand(ranges@)) ==> r is Ok,
            r is Err ==> r == Err::<HuffmanNode, GzipError>(GzipError::BadHuffmanTree),
    {
        match range_lengths(ranges) {
            Ok(lens) => {
                proof {
                    if ranges@.len() > 0 && ranges@[ranges@.len() - 1].end <= 0xFFFF {
                        assert(range_expand(ranges@).len() <= 0x10000);
                    }
                    assert(ranges@.len() == 0 ==> range_expand(ranges@).len() == 0);
                }
                Self::from_code_lengths(&lens)
            },
            Err(e) => Err(e),
        }
    }

    /// Build the fixed decoder of RFC 1951: lengths 8, 9, 7 and 8 over the
    /// symbol ranges ending at 143, 255, 279 and 287. The fixed lengths
    /// are feasible, so construction always succeeds.
    pub fn fixed() -> (r: Result<HuffmanNode, GzipError>)
        ensures
            r is Ok,
            r is Ok ==> r->Ok_0.wf(),
            r is Ok ==> accepts_all_codes(fixed_lengths(), r->Ok_0@),
            r is Ok ==> decodes_only_present(fixed_lengths(), r->Ok_0@),
            r is Ok ==> one_leaf_per_symbol(r->Ok_0@),
    {
        let ranges = HuffmanRange::fixed();
        proof {
            lemma_fixed_ranges_expand(ranges@);
            lemma_fixed_feasible();
            assert(ranges@[0].end == 143 && ranges@[1].end == 255 && ranges@[2].end == 279
                && ranges@[3].end == 287);
            assert forall|a: int, b: int|
                0 <= a < b < ranges@.len() implies (#[trigger] ranges@[a].end) < (
            #[trigger] ranges@[b].end) by {}
            assert(ranges@[ranges@.len() - 1].end <= 0xFFFF);
        }
        Self::from_range(&ranges)
    }

    /// Build the meta-tree of a dynamic block: the transmitted lengths are
    /// reordered into the 19-symbol code-length alphabet before canonical
    /// construction. Succeeds exactly when the reordered lengths are
    /// feasible.
    pub fn from_header_code_lengths(code_lengths: Vec<u8>) -> (r: Result<HuffmanNode, GzipError>)
        requires
            code_lengths@.len() <= 19,
        ensures
            r is Ok ==> r->Ok_0.wf(),
            r is Ok ==> accepts_all_codes(meta_lengths(code_lengths@), r->Ok_0@),
            r is Ok ==> decodes_only_present(meta_lengths(code_lengths@), r->Ok_0@),
            r is Ok ==> one_leaf_per_symbol(r->Ok_0@),
            r is Ok ==> lengths_feasible(meta_lengths(code_lengths@)),
            lengths_feasible(meta_lengths(code_lengths@)) ==> r is Ok,
            r is Err ==> r == Err::<HuffmanNode, GzipError>(GzipError::BadHuffmanTree),
    {
        let permuted = permute_header_lengths(&code_lengths);
        Self::from_code_lengths(&permuted)
    }
}

/// A run of consecutive symbols `..=end` sharing one code bit length.
#[derive(Debug, Clone, Copy, PartialEq)]
pub struct HuffmanRange {
    pub end: u32,
    pub bit_length: u8,
}

/// The bit length a run list gives symbol `i`.
pub open spec fn bit_len_at(rs: Seq<HuffmanRange>, i: int) -> u8
    decreases rs.len(),
{
    if rs.len() == 0 {
        0
    } else if i <= rs[0].end {
        rs[0].bit_length
    } else {
        bit_len_at(rs.drop_first(), i)
    }
}

/// The per-symbol code lengths a run list encodes.
pub open spec fn range_expand(rs: Seq<HuffmanRange>) -> Seq<u8> {
    if rs.len() == 0 {
        Seq::<u8>::empty()
    } else {
        Seq::new((rs.last().end + 1) as nat, |i: int| bit_len_at(rs, i))
    }
}

/// Run ends are strictly increasing.
pub open spec fn ends_increasing(rs: Seq<HuffmanRange>) -> bool {
    forall|a: int, b: int| 0 <= a < b < rs.len() ==> (#[trigger] rs[a].end) < (#[trigger] rs[b].end)
}

/// Within the range `j` covers, the expansion reports that range's length.
proof fn lemma_bit_len_at_range(rs: Seq<HuffmanRange>, j: int, k: int)
    requires
        ends_increasing(rs),
        0 <= j < rs.len(),
        j == 0 || rs[j - 1].end < k,
        0 <= k <= rs[j].end,
    ensures
        bit_len_at(rs, k) == rs[j].bit_length,
    decreases j,
{
    if j == 0 {
    } else {
        assert(rs[0].end <= rs[j - 1].end);
        assert(k > rs[0].end);
        let rs1 = rs.drop_first();
        assert(rs1[j - 1] == rs[j]);
        assert(j - 1 == 0 || rs1[j - 2].end < k);
        lemma_bit_len_at_range(rs1, j - 1, k);
    }
}

/// Expand a run list into per-symbol code lengths; the runs must have
/// strictly increasing ends.
fn range_lengths(ranges: &Vec<HuffmanRange>) -> (r: Result<Vec<u8>, GzipError>)
    ensures
        r is Ok ==> r->Ok_0@ == range_expand(ranges@),
        ends_increasing(ranges@) && (ranges@.len() > 0 ==> ranges@[ranges@.len() - 1].end
            <= 0xFFFF) ==> r is Ok,
        r is Err ==> r == Err::<Vec<u8>, GzipError>(GzipError::BadHuffmanTree),
{
    let n_ranges = ranges.len();
    if n_ranges == 0 {
        proof {
            assert(Seq::<u8>::empty() =~= range_expand(ranges@));
        }
        return Ok(Vec::new());
    }
    let mut k: usize = 1;
    while k < n_ranges
        invariant
            1 <= k <= n_ranges,
            n_ranges == ranges@.len(),
            forall|a: int, b: int|
                0 <= a < b < k ==> (#[trigger] ranges@[a].end) < (#[trigger] ranges@[b].end),
        decreases n_ranges - k,
    {
        if ranges[k].end <= ranges[k - 1].end {
            return Err(GzipError::BadHuffmanTree);
        }
        proof {
            assert forall|a: int, b: int|
                0 <= a < b < k + 1 implies (#[trigger] ranges@[a].end) < (
            #[trigger] ranges@[b].end) by {
                if b == k && a < k - 1 {
                    assert(ranges@[a].end < ranges@[(k - 1) as int].end);
                }
            }
        }
        k = k + 1;
    }
    let last_end = ranges[n_ranges - 1].end;
    if last_end > 0xFFFF {
        // no DEFLATE alphabet reaches past 2^16 symbols
        return Err(GzipError::BadHuffmanTree);
    }
    let total = (last_end + 1) as usize;
    let mut lens: Vec<u8> = Vec::new();
    let mut active: usize = 0;
    let mut n: usize = 0;
    while n < total
        invariant
            ends_increasing(ranges@),
            n_ranges == ranges@.len(),
            1 <= n_ranges,
            total == ranges@[n_ranges - 1].end + 1,
            total <= 0x10000,
            n <= total,
            active < n_ranges,
            active == 0 || ranges@[active - 1].end < n,
            n <= ranges@[active as int].end + 1,
            lens@.len() == n,
            forall|m: int| 0 <= m < n ==> lens@[m] == bit_len_at(ranges@, m),
        decreases total - n,
    {
        if n > ranges[active].end as usize {
            proof {
                assert(active + 1 < n_ranges) by {
                    if active + 1 == n_ranges {
                        assert(n > ranges@[active as int].end);
                        assert(n < total);
                    }
                }
            }
            active = active + 1;
        }
        proof {
            assert(n <= ranges@[active as int].end) by {
                if active + 1 < n_ranges {
                    assert(ranges@[active as int].end < ranges@[active + 1].end);
                }
            }
            lemma_bit_len_at_range(ranges@, active as int, n as int);
        }
        lens.push(ranges[active].bit_length);
        n = n + 1;
    }
    proof {
        assert(lens@ =~= range_expand(ranges@));
    }
    Ok(lens)
}

/// The RFC 1951 fixed-tree runs.
impl HuffmanRange {
    pub fn fixed() -> (r: Vec<HuffmanRange>)
        ensures
            r@ =~= fixed_ranges(),
    {
        let mut ranges: Vec<HuffmanRange> = Vec::new();
        ranges.push(HuffmanRange { end: 143, bit_length: 8 });
        ranges.push(HuffmanRange { end: 255, bit_length: 9 });
        ranges.push(HuffmanRange { end: 279, bit_length: 7 });
        ranges.push(HuffmanRange { end: 287, bit_length: 8 });
        ranges
    }

    /// Encode per-symbol code lengths as runs. The `u32` run ends bound the
    /// alphabet size.
    pub fn from_code_lengths(lengths: &Vec<u8>) -> (r: Vec<HuffmanRange>)
        requires
            lengths@.len() <= 0xFFFF_FFFF,
        ensures
            range_expand(r@) == lengths@,
            ends_increasing(r@),
    {
        let n_syms = lengths.len();
        let mut ranges: Vec<HuffmanRange> = Vec::new();
        let mut i: usize = 0;
        proof {
            assert(lengths@.take(0) =~= Seq::<u8>::empty());
            assert(range_expand(ranges@) =~= lengths@.take(0));
        }
        while i < n_syms
            invariant
                i <= n_syms,
                n_syms <= 0xFFFF_FFFF,
                n_syms == lengths@.len(),
                range_expand(ranges@) == lengths@.take(i as int),
                ends_increasing(ranges@),
                i > 0 ==> ranges@.len() > 0 && ranges@.last().end == i - 1
                    && ranges@.last().bit_length == lengths@[i - 1],
                i == 0 ==> ranges@.len() == 0,
            decreases n_syms - i,
        {
            let ghost prev = ranges@;
            let l = lengths[i];
            if i == 0 || l != ranges[ranges.len() - 1].bit_length {
                ranges.push(HuffmanRange { end: i as u32, bit_length: l });
                proof {
                    lemma_expand_push(prev, ranges@.last(), i as int);
                    assert(range_expand(ranges@) =~= lengths@.take(i + 1));
                    assert forall|a: int, b: int|
                        0 <= a < b < ranges@.len() implies (#[trigger] ranges@[a].end) < (
                    #[trigger] ranges@[b].end) by {
                        if b == ranges@.len() - 1 && prev.len() > 0 && a < prev.len() - 1 {
                            assert(prev[a].end < prev[prev.len() - 1].end);
                        }
                    }
                }
            } else {
                let j = ranges.len() - 1;
                let mut rr = ranges[j];
                rr.end = i as u32;
                ranges.set(j, rr);
                proof {
                    lemma_expand_grow_last(prev, ranges@, i as int);
                    assert(range_expand(ranges@) =~= lengths@.take(i + 1));
                    assert forall|a: int, b: int|
                        0 <= a < b < ranges@.len() implies (#[trigger] ranges@[a].end) < (
                    #[trigger] ranges@[b].end) by {
                        if b < ranges@.len() - 1 {
                            assert(ranges@[a] == prev[a] && ranges@[b] == prev[b]);
                        } else if a < ranges@.len() - 1 {
                            assert(prev[a].end < prev[b].end || a == b - 1);
                            assert(prev[a].end <= prev[b].end);
                        }
                    }
                }
            }
            i = i + 1;
        }
        proof {
            assert(lengths@.take(n_syms as int) =~= lengths@);
        }
        ranges
    }

    /// Reorder the transmitted meta-tree lengths into the code-length
    /// alphabet, then encode them as runs.
    pub fn from_header_code_keys(keys: &Vec<u8>) -> (r: Vec<HuffmanRange>)
        requires
            keys@.len() <= 19,
        ensures
            range_expand(r@) == meta_lengths(keys@),
            ends_increasing(r@),
    {
        let permuted = permute_header_lengths(keys);
        HuffmanRange::from_code_lengths(&permuted)
    }
}

/// Appending a run extends the expansion by that run's tail.
proof fn lemma_expand_push(rs: Seq<HuffmanRange>, nr: HuffmanRange, start: int)
    requires
        ends_increasing(rs),
        rs.len() == 0 ==> start == 0,
        rs.len() > 0 ==> start == rs.last().end + 1,
        start <= nr.end,
    ensures
        forall|k: int|
            0 <= k < start ==> #[trigger] bit_len_at(rs.push(nr), k) == bit_len_at(rs, k),
        forall|k: int| start <= k <= nr.end ==> #[trigger] bit_len_at(rs.push(nr), k)
            == nr.bit_length,
    decreases rs.len(),
{
    if rs.len() == 0 {
        assert forall|k: int| start <= k <= nr.end implies #[trigger] bit_len_at(rs.push(nr), k)
            == nr.bit_length by {
            assert(rs.push(nr)[0] == nr);
        }
    } else {
        let rs1 = rs.drop_first();
        assert(rs1.push(nr) =~= rs.push(nr).drop_first());
        if rs.len() == 1 {
            lemma_expand_push(rs1, nr, 0);
        } else {
            assert(rs1.last() == rs.last());
            lemma_expand_push(rs1, nr, start);
        }
        assert forall|k: int| 0 <= k < start implies #[trigger] bit_len_at(rs.push(nr), k)
            == bit_len_at(rs, k) by {
            if k > rs[0].end {
                assert(bit_len_at(rs.push(nr), k) == bit_len_at(rs1.push(nr), k));
                assert(rs.len() > 1) by {
                    if rs.len() == 1 {
                        assert(k < start == rs[0].end + 1);
                    }
                }
            }
        }
        assert forall|k: int| start <= k <= nr.end implies #[trigger] bit_len_at(rs.push(nr), k)
            == nr.bit_length by {
            assert(rs[0].end <= rs.last().end);
            assert(k > rs[0].end);
            assert(bit_len_at(rs.push(nr), k) == bit_len_at(rs1.push(nr), k));
            if rs.len() == 1 {
                assert(bit_len_at(rs1.push(nr), k) == nr.bit_length);
            }
        }
    }
}

/// Growing the last run's end extends the expansion with its bit length.
proof fn lemma_expand_grow_last(rs: Seq<HuffmanRange>, rs2: Seq<HuffmanRange>, k_new: int)
    requires
        ends_increasing(rs),
        rs.len() > 0,
        rs2.len() == rs.len(),
        forall|j: int| 0 <= j < rs.len() - 1 ==> rs2[j] == rs[j],
        rs2.last().bit_length == rs.last().bit_length,
        rs2.last().end == k_new,
        k_new == rs.last().end + 1,
    ensures
        forall|k: int| 0 <= k <= rs.last().end ==> #[trigger] bit_len_at(rs2, k) == bit_len_at(
            rs,
            k,
        ),
        bit_len_at(rs2, k_new) == rs.last().bit_length,
    decreases rs.len(),
{
    if rs.len() == 1 {
    } else {
        assert(rs2.drop_first() =~= rs2.drop_first());
        let rs1 = rs.drop_first();
        let rs21 = rs2.drop_first();
        assert(rs1.len() == rs21.len());
        assert(forall|j: int| 0 <= j < rs1.len() - 1 ==> rs21[j] == rs1[j]);
        assert(rs21.last() == rs2.last());
        assert(rs1.last() == rs.last());
        lemma_expand_grow_last(rs1, rs21, k_new);
        assert(rs2[0] == rs[0]);
        assert forall|k: int| 0 <= k <= rs.last().end implies #[trigger] bit_len_at(rs2, k)
            == bit_len_at(rs, k) by {
            if k > rs[0].end {
                assert(bit_len_at(rs2, k) == bit_len_at(rs21, k));
            }
        }
        assert(k_new > rs[0].end) by {
            assert(rs[0].end < rs.last().end);
        }
    }
}

/// The DEFLATE ordering of the meta-tree's code lengths: position `j` of
/// the transmitted list belongs to meta-symbol `meta_perm(j)`.
pub open spec fn meta_perm(j: int) -> int {
    if j == 0 {
        16
    } else if j == 1 {
        17
    } else if j == 2 {
        18
    } else if j == 3 {
        0
    } else if j == 4 {
        8
    } else if j == 5 {
        7
    } else if j == 6 {
        9
    } else if j == 7 {
        6
    } else if j == 8 {
        10
    } else if j == 9 {
        5
    } else if j == 10 {
        11
    } else if j == 11 {
        4
    } else if j == 12 {
        12
    } else if j == 13 {
        3
    } else if j == 14 {
        13
    } else if j == 15 {
        2
    } else if j == 16 {
        14
    } else if j == 17 {
        1
    } else {
        15
    }
}

/// The 19 meta-alphabet code lengths that a transmitted list of `keys`
/// stands for; untransmitted positions are 0.
pub open spec fn meta_lengths(keys: Seq<u8>) -> Seq<u8> {
    Seq::new(
        19,
        |i: int|
            if exists|j: int| 0 <= j < keys.len() && meta_perm(j) == i {
                keys[choose|j: int| 0 <= j < keys.len() && meta_perm(j) == i]
            } else {
                0u8
            },
    )
}

/// The transmitted position of meta-symbol `j`.
fn meta_offset(j: usize) -> (r: usize)
    requires
        j < 19,
    ensures
        r == meta_perm(j as int),
        r < 19,
{
    if j == 0 {
        16
    } else if j == 1 {
        17
    } else if j == 2 {
        18
    } else if j == 3 {
        0
    } else if j == 4 {
        8
    } else if j == 5 {
        7
    } else if j == 6 {
        9
    } else if j == 7 {
        6
    } else if j == 8 {
        10
    } else if j == 9 {
        5
    } else if j == 10 {
        11
    } else if j == 11 {
        4
    } else if j == 12 {
        12
    } else if j == 13 {
        3
    } else if j == 14 {
        13
    } else if j == 15 {
        2
    } else if j == 16 {
        14
    } else if j == 17 {
        1
    } else {
        15
    }
}

/// Scatter the transmitted lengths into their meta-alphabet positions.
fn permute_header_lengths(keys: &Vec<u8>) -> (r: Vec<u8>)
    requires
        keys@.len() <= 19,
    ensures
        r@ == meta_lengths(keys@),
{
    let mut cl: Vec<u8> = vec![0; 19];
    let mut j: usize = 0;
    while j < keys.len()
        invariant
            j <= keys@.len(),
            keys@.len() <= 19,
            cl@.len() == 19,
            forall|i: int|
                0 <= i < 19 ==> #[trigger] cl@[i] == (if exists|jj: int|
                    0 <= jj < j && meta_perm(jj) == i {
                    keys@[choose|jj: int| 0 <= jj < j && meta_perm(jj) == i]
                } else {
                    0u8
                }),
        decreases keys@.len() - j,
    {
        let off = meta_offset(j);
        cl.set(off, keys[j]);
        proof {
            assert forall|i: int| 0 <= i < 19 implies #[trigger] cl@[i] == (if exists|jj: int|
                0 <= jj < j + 1 && meta_perm(jj) == i {
                keys@[choose|jj: int| 0 <= jj < j + 1 && meta_perm(jj) == i]
            } else {
                0u8
            }) by {
                if i == meta_perm(j as int) {
                    assert(forall|jj: int| 0 <= jj < 19 && jj != j ==> meta_perm(jj) != i);
                    assert(exists|jj: int| 0 <= jj < j + 1 && meta_perm(jj) == i) by {
                        assert(meta_perm(j as int) == i);
                    }
                    let w = choose|jj: int| 0 <= jj < j + 1 && meta_perm(jj) == i;
                    assert(w == j);
                } else {
                    if exists|jj: int| 0 <= jj < j + 1 && meta_perm(jj) == i {
                        let w = choose|jj: int| 0 <= jj < j + 1 && meta_perm(jj) == i;
                        assert(w != j);
                        assert(0 <= w < j && meta_perm(w) == i);
                        assert(exists|jj: int| 0 <= jj < j && meta_perm(jj) == i);
                        let w0 = choose|jj: int| 0 <= jj < j && meta_perm(jj) == i;
                        assert(keys@[w0] == keys@[w]) by {
                            assert(w0 == w) by {
                                assert(meta_perm(w0) == meta_perm(w));
                                lemma_meta_perm_injective(w0, w);
                            }
                        }
                    }
                }
            }
        }
        j = j + 1;
    }
    proof {
        assert(cl@ =~= meta_lengths(keys@));
    }
    cl
}

/// Distinct transmitted positions name distinct meta-symbols.
proof fn lemma_meta_perm_injective(a: int, b: int)
    requires
        0 <= a < 19,
        0 <= b < 19,
        meta_perm(a) == meta_perm(b),
    ensures
        a == b,
{
}

/// The fixed-tree runs of RFC 1951.
pub open spec fn fixed_ranges() -> Seq<HuffmanRange> {
    seq![
        HuffmanRange { end: 143, bit_length: 8 },
        HuffmanRange { end: 255, bit_length: 9 },
        HuffmanRange { end: 279, bit_length: 7 },
        HuffmanRange { end: 287, bit_length: 8 },
    ]
}

/// The fixed tree's per-symbol code lengths.
pub open spec fn fixed_lengths() -> Seq<u8> {
    Seq::new(
        288,
        |n: int|
            if n < 144 {
                8u8
            } else if n < 256 {
                9u8
            } else if n < 280 {
                7u8
            } else {
                8u8
            },
    )
}

/// The fixed-tree runs expand to exactly the fixed per-symbol lengths.
proof fn lemma_fixed_ranges_expand(rs: Seq<HuffmanRange>)
    requires
        rs =~= fixed_ranges(),
    ensures
        range_expand(rs) == fixed_lengths(),
{
    assert forall|k: int| 0 <= k < 288 implies bit_len_at(rs, k) == fixed_lengths()[k] by {
        let rs1 = rs.drop_first();
        let rs2 = rs1.drop_first();
        let rs3 = rs2.drop_first();
        assert(rs1[0] == rs[1] && rs2[0] == rs[2] && rs3[0] == rs[3]);
        if k > 143 {
            assert(bit_len_at(rs, k) == bit_len_at(rs1, k));
            if k > 255 {
                assert(bit_len_at(rs1, k) == bit_len_at(rs2, k));
                if k > 279 {
                    assert(bit_len_at(rs2, k) == bit_len_at(rs3, k));
                }
            }
        }
    }
    assert(range_expand(rs) =~= fixed_lengths());
}

/// `p` is an initial run of `q`.
pub open spec fn is_prefix_of(p: Seq<bool>, q: Seq<bool>) -> bool {
    p.len() <= q.len() && q.take(p.len() as int) == p
}

/// The code set of a canonical decoder is prefix-free: no present
/// symbol's code is an initial run of another's. A walk that decodes
/// every present symbol at its own code leaves no room for one code to
/// sit inside another.
pub proof fn lemma_accepted_codes_prefix_free(
    L: Seq<u8>,
    nodes: Seq<TrieNode>,
    m: int,
    n: int,
)
    requires
        accepts_all_codes(L, nodes),
        L.len() <= 0xFFFF_FFFF,
        0 <= m < L.len(),
        0 <= n < L.len(),
        m != n,
        L[m] > 0,
        L[n] > 0,
    ensures
        !is_prefix_of(code_bits(L, m), code_bits(L, n)),
{
    let cm = code_bits(L, m);
    let cn = code_bits(L, n);
    if is_prefix_of(cm, cn) {
        let rest = cn.skip(cm.len() as int);
        assert(cn =~= cm + rest);
        assert(walk(nodes, 0, cn + Seq::<bool>::empty()) == (WalkResult::Found {
            sym: n as u32,
            used: L[n] as nat,
        }));
        assert(cm + (rest + Seq::<bool>::empty()) =~= cn + Seq::<bool>::empty());
        assert(walk(nodes, 0, cm + (rest + Seq::<bool>::empty())) == (WalkResult::Found {
            sym: m as u32,
            used: L[m] as nat,
        }));
        assert(m as u32 == n as u32);
        assert(m == n);
    }
}

/// How many symbols among the first `n` of the fixed lengths have each
/// code length: the running counts behind the canonical construction.
proof fn lemma_fixed_counts(n: int)
    requires
        0 <= n <= 288,
    ensures
        count_len(fixed_lengths().take(n), 7) == (if n <= 256 {
            0int
        } else if n <= 280 {
            n - 256
        } else {
            24int
        }),
        count_len(fixed_lengths().take(n), 8) == (if n <= 144 {
            n
        } else if n <= 280 {
            144int
        } else {
            144 + n - 280
        }),
        count_len(fixed_lengths().take(n), 9) == (if n <= 144 {
            0int
        } else if n <= 256 {
            n - 144
        } else {
            112int
        }),
        forall|b: int|
            1 <= b <= 15 && b != 7 && b != 8 && b != 9 ==> count_len(
                fixed_lengths().take(n),
                b,
            ) == 0,
    decreases n,
{
    let f = fixed_lengths();
    if n == 0 {
        assert(f.take(0) =~= Seq::<u8>::empty());
    } else {
        lemma_fixed_counts(n - 1);
        lemma_count_take_step(f, n - 1, 7);
        lemma_count_take_step(f, n - 1, 8);
        lemma_count_take_step(f, n - 1, 9);
        assert forall|b: int| 1 <= b <= 15 && b != 7 && b != 8 && b != 9 implies count_len(
            f.take(n),
            b,
        ) == 0 by {
            lemma_count_take_step(f, n - 1, b);
        }
    }
}

/// The fixed code lengths are feasible: every level of the canonical code
/// space closes within its capacity.
proof fn lemma_fixed_feasible()
    ensures
        lengths_feasible(fixed_lengths()),
{
    let f = fixed_lengths();
    lemma_fixed_counts(288);
    assert(f.take(288) =~= f);
    assert(count_len(f, 7) == 24 && count_len(f, 8) == 152 && count_len(f, 9) == 112);
    assert(count_len(f, 1) == 0 && count_len(f, 2) == 0 && count_len(f, 3) == 0 && count_len(f, 4)
        == 0 && count_len(f, 5) == 0 && count_len(f, 6) == 0);
    assert(count_len(f, 10) == 0 && count_len(f, 11) == 0 && count_len(f, 12) == 0 && count_len(
        f,
        13,
    ) == 0 && count_len(f, 14) == 0 && count_len(f, 15) == 0);
    lemma2_to64();
    assert(first_code(f, 0) == 0);
    assert(first_code(f, 1) == (first_code(f, 0) + count_nz(f, 0)) * 2);
    assert(first_code(f, 1) == 0);
    assert(first_code(f, 2) == 0);
    assert(first_code(f, 3) == 0);
    assert(first_code(f, 4) == 0);
    assert(first_code(f, 5) == 0);
    assert(first_code(f, 6) == 0);
    assert(first_code(f, 7) == 0);
    assert(first_code(f, 8) == (first_code(f, 7) + count_nz(f, 7)) * 2);
    assert(first_code(f, 8) == 48);
    assert(first_code(f, 9) == (first_code(f, 8) + count_nz(f, 8)) * 2);
    assert(first_code(f, 9) == 400);
    assert(first_code(f, 10) == (first_code(f, 9) + count_nz(f, 9)) * 2);
    assert(first_code(f, 10) == 1024);
    assert(first_code(f, 11) == 2048);
    assert(first_code(f, 12) == 4096);
    assert(first_code(f, 13) == 8192);
    assert(first_code(f, 14) == 16384);
    assert(first_code(f, 15) == 32768);
    assert forall|b: int|
        1 <= b <= 15 implies first_code(f, b as nat) + count_len(f, b) <= pow2(b as nat) by {
        assert(pow2(7) == 128 && pow2(8) == 256 && pow2(9) == 512 && pow2(10) == 1024 && pow2(15)
            == 32768);
    }
}

/// The canonical codes of the fixed code lengths are exactly the table of
/// RFC 1951: `00110000 + n` for symbols 0..=143 (8 bits),
/// `110010000 + (n - 144)` for 144..=255 (9 bits), `n - 256` for
/// 256..=279 (7 bits), and `11000000 + (n - 280)` for 280..=287 (8 bits).
/// The tree built from the fixed per-symbol lengths therefore equals the
/// tree built from the RFC's range table: both decode each symbol at the
/// code the table names.
pub proof fn lemma_fixed_tree_is_rfc_table(n: int)
    requires
        0 <= n < 288,
    ensures
        0 <= n < 144 ==> fixed_lengths()[n] == 8 && code_of(fixed_lengths(), n) == 0x30 + n,
        144 <= n < 256 ==> fixed_lengths()[n] == 9 && code_of(fixed_lengths(), n) == 0x190 + (n
            - 144),
        256 <= n < 280 ==> fixed_lengths()[n] == 7 && code_of(fixed_lengths(), n) == n - 256,
        280 <= n < 288 ==> fixed_lengths()[n] == 8 && code_of(fixed_lengths(), n) == 0xC0 + (n
            - 280),
{
    let f = fixed_lengths();
    lemma_fixed_counts(288);
    assert(f.take(288) =~= f);
    assert(count_len(f, 7) == 24 && count_len(f, 8) == 152 && count_len(f, 9) == 112);
    assert(count_len(f, 1) == 0 && count_len(f, 2) == 0 && count_len(f, 3) == 0 && count_len(f, 4)
        == 0 && count_len(f, 5) == 0 && count_len(f, 6) == 0);
    assert(first_code(f, 1) == (first_code(f, 0) + count_nz(f, 0)) * 2);
    assert(first_code(f, 0) == 0);
    assert(first_code(f, 1) == 0);
    assert(first_code(f, 2) == 0);
    assert(first_code(f, 3) == 0);
    assert(first_code(f, 4) == 0);
    assert(first_code(f, 5) == 0);
    assert(first_code(f, 6) == 0);
    assert(first_code(f, 7) == 0);
    assert(first_code(f, 8) == (first_code(f, 7) + count_nz(f, 7)) * 2);
    assert(first_code(f, 8) == 48);
    assert(first_code(f, 9) == (first_code(f, 8) + count_nz(f, 8)) * 2);
    assert(first_code(f, 9) == 400);
    lemma_fixed_counts(n);
}

/// The code lengths of the literal byte symbols in the fixed tree: 8 bits
/// for 0..=143, 9 bits for 144..=255.
pub fn fixed_byte_bit_lengths() -> (r: Vec<u8>)
    ensures
        r@.len() == 256,
        forall|i: int| 0 <= i < 256 ==> r@[i] == fixed_lengths()[i],
{
    let mut v: Vec<u8> = Vec::new();
    let mut i: usize = 0;
    while i < 144
        invariant
            i <= 144,
            v@.len() == i,
            forall|m: int| 0 <= m < i ==> v@[m] == 8u8,
        decreases 144 - i,
    {
        v.push(8);
        i = i + 1;
    }
    while i < 256
        invariant
            144 <= i <= 256,
            v@.len() == i,
            forall|m: int| 0 <= m < 144 ==> v@[m] == 8u8,
            forall|m: int| 144 <= m < i ==> v@[m] == 9u8,
        decreases 256 - i,
    {
        v.push(9);
        i = i + 1;
    }
    v
}

} // verus!

//! dyld export trie: compressed prefix tree.
//!
//! Node = terminal payload (uleb size, then flags/address ulebs) + child count + per-child
//! (label cstr, uleb node offset). Offsets are ulebs, so sizing runs to a fixpoint. Every export is
//! a regular symbol at offset 0 — the linker only reads names from a bundle_loader executable, never
//! addresses.

pub mod laws;

use vstd::prelude::*;
use crate::bytes::{byte_rows, copy_bytes, push_bytes};

verus! {

/// A node of the tree. Nodes are numbered in pre-order, which is also serialization order; a child
/// is named by its number.
pub struct NodeModel {
    pub terminal: bool,
    pub children: Seq<(Seq<u8>, int)>,
}

/// The end of the group of symbols from `i` on that agree with `symbols[i]` in the byte at `depth`.
pub open spec fn group_end(symbols: Seq<Seq<u8>>, depth: int, i: int, j: int) -> int
    decreases symbols.len() - j,
{
    if j < symbols.len() && symbols[j].len() > depth && symbols[j][depth] == symbols[i][depth] {
        group_end(symbols, depth, i, j + 1)
    } else {
        j
    }
}

/// Whether all symbols have the byte at `at` and agree in it.
pub open spec fn agree_at(symbols: Seq<Seq<u8>>, at: int) -> bool {
    forall|k: int|
        0 <= k < symbols.len() ==> (#[trigger] symbols[k]).len() > at && symbols[k][at]
            == symbols[0][at]
}

/// The end of the label that a group of symbols shares.
pub open spec fn label_end(symbols: Seq<Seq<u8>>, at: int) -> int
    decreases symbols[0].len() - at,
{
    if symbols[0].len() > at && agree_at(symbols, at) {
        label_end(symbols, at + 1)
    } else {
        at
    }
}

/// How many bytes lie between `depth` and `limit`.
pub open spec fn levels_left(limit: int, depth: int) -> int {
    if depth < limit {
        limit - depth
    } else {
        0
    }
}

/// What the symbols from `i` on add to a node at `depth`: whether it is an export itself, its
/// children, and the nodes below it, numbered from `next` on. No symbol is longer than `limit`.
pub open spec fn node_rest(
    symbols: Seq<Seq<u8>>,
    depth: int,
    limit: int,
    i: int,
    next: int,
) -> (bool, Seq<(Seq<u8>, int)>, Seq<NodeModel>)
    decreases levels_left(limit, depth), symbols.len() - i,
    via node_rest_decreases
{
    if i < 0 || i >= symbols.len() {
        (false, Seq::empty(), Seq::empty())
    } else if symbols[i].len() <= depth || depth >= limit {
        let (_, children, nodes) = node_rest(symbols, depth, limit, i + 1, next);
        (true, children, nodes)
    } else {
        let j = group_end(symbols, depth, i, i + 1);
        let group = symbols.subrange(i, j);
        let end = label_end(group, depth + 1);
        let below = trie_nodes(group, end, limit, next);
        let (terminal, children, nodes) = node_rest(symbols, depth, limit, j, next + below.len());
        (
            terminal,
            seq![(symbols[i].subrange(depth, end), next)] + children,
            below + nodes,
        )
    }
}

/// The nodes of the tree of symbols that share their first `depth` bytes, numbered from `base` on.
pub open spec fn trie_nodes(symbols: Seq<Seq<u8>>, depth: int, limit: int, base: int) -> Seq<
    NodeModel,
>
    decreases levels_left(limit, depth), symbols.len() + 1,
{
    let (terminal, children, nodes) = node_rest(symbols, depth, limit, 0, base + 1);
    seq![NodeModel { terminal, children }] + nodes
}

proof fn lemma_group_end(symbols: Seq<Seq<u8>>, depth: int, i: int, j: int)
    requires
        0 <= i < j <= symbols.len(),
    ensures
        j <= group_end(symbols, depth, i, j) <= symbols.len(),
        forall|k: int|
            j <= k < group_end(symbols, depth, i, j) ==> (#[trigger] symbols[k]).len() > depth
                && symbols[k][depth] == symbols[i][depth],
    decreases symbols.len() - j,
{
    if j < symbols.len() && symbols[j].len() > depth && symbols[j][depth] == symbols[i][depth] {
        lemma_group_end(symbols, depth, i, j + 1);
    }
}

proof fn lemma_label_end(symbols: Seq<Seq<u8>>, at: int)
    requires
        symbols.len() > 0,
        0 <= at <= symbols[0].len(),
    ensures
        at <= label_end(symbols, at) <= symbols[0].len(),
        forall|p: int| at <= p < label_end(symbols, at) ==> #[trigger] agree_at(symbols, p),
    decreases symbols[0].len() - at,
{
    if symbols[0].len() > at && agree_at(symbols, at) {
        lemma_label_end(symbols, at + 1);
    }
}

proof fn lemma_label_grows(symbols: Seq<Seq<u8>>, at: int)
    ensures
        at <= label_end(symbols, at),
    decreases symbols[0].len() - at,
{
    if symbols[0].len() > at && agree_at(symbols, at) {
        lemma_label_grows(symbols, at + 1);
    }
}

#[via_fn]
proof fn node_rest_decreases(
    symbols: Seq<Seq<u8>>,
    depth: int,
    limit: int,
    i: int,
    next: int,
) {
    if 0 <= i < symbols.len() && symbols[i].len() > depth && depth < limit {
        lemma_group_end(symbols, depth, i, i + 1);
        let j = group_end(symbols, depth, i, i + 1);
        let group = symbols.subrange(i, j);
        lemma_label_grows(group, depth + 1);
    }
}

/// A node of the tree.
struct TrieNode {
    terminal: bool,
    children: Vec<(Vec<u8>, usize)>,
}

spec fn child_models(children: Seq<(Vec<u8>, usize)>) -> Seq<(Seq<u8>, int)> {
    Seq::new(children.len(), |i: int| (children[i].0@, children[i].1 as int))
}

spec fn node_model(node: TrieNode) -> NodeModel {
    NodeModel { terminal: node.terminal, children: child_models(node.children@) }
}

spec fn node_models(nodes: Seq<TrieNode>) -> Seq<NodeModel> {
    Seq::new(nodes.len(), |i: int| node_model(nodes[i]))
}

/// The end of the group that begins at `i`.
fn find_group_end(symbols: &[Vec<u8>], lo: usize, hi: usize, depth: usize, i: usize) -> (j: usize)
    requires
        lo <= i < hi <= symbols@.len(),
        symbols@[i as int]@.len() > depth,
    ensures
        i < j <= hi,
        j - lo == group_end(
            byte_rows(symbols@).subrange(lo as int, hi as int),
            depth as int,
            i - lo,
            i - lo + 1,
        ),
{
    let ghost all = byte_rows(symbols@).subrange(lo as int, hi as int);
    let mut j: usize = i + 1;
    while j < hi && symbols[j].len() > depth && symbols[j][depth] == symbols[i][depth]
        invariant
            lo <= i < j <= hi <= symbols@.len(),
            symbols@[i as int]@.len() > depth,
            all == byte_rows(symbols@).subrange(lo as int, hi as int),
            group_end(all, depth as int, i - lo, j - lo) == group_end(
                all,
                depth as int,
                i - lo,
                i - lo + 1,
            ),
        decreases hi - j,
    {
        assert(all[j - lo] == symbols@[j as int]@);
        assert(all[i - lo] == symbols@[i as int]@);
        j = j + 1;
    }
    proof {
        assert(all[i - lo] == symbols@[i as int]@);
        if j < hi {
            assert(all[j - lo] == symbols@[j as int]@);
        }
    }
    j
}

/// Whether all symbols of a group have the byte at `at` and agree in it.
fn group_agrees(symbols: &[Vec<u8>], lo: usize, hi: usize, at: usize) -> (r: bool)
    requires
        lo < hi <= symbols@.len(),
        symbols@[lo as int]@.len() > at,
    ensures
        r == agree_at(byte_rows(symbols@).subrange(lo as int, hi as int), at as int),
{
    let ghost group = byte_rows(symbols@).subrange(lo as int, hi as int);
    assert(group[0] == symbols@[lo as int]@);
    let mut k: usize = lo;
    while k < hi
        invariant
            lo <= k <= hi <= symbols@.len(),
            lo < hi,
            symbols@[lo as int]@.len() > at,
            group == byte_rows(symbols@).subrange(lo as int, hi as int),
            group[0] == symbols@[lo as int]@,
            forall|m: int|
                0 <= m < k - lo ==> (#[trigger] group[m]).len() > at && group[m][at as int]
                    == group[0][at as int],
        decreases hi - k,
    {
        assert(group[k - lo] == symbols@[k as int]@);
        if symbols[k].len() <= at || symbols[k][at] != symbols[lo][at] {
            return false;
        }
        k = k + 1;
    }
    true
}

/// The end of the label that a group shares.
fn find_label_end(symbols: &[Vec<u8>], lo: usize, hi: usize, from: usize) -> (end: usize)
    requires
        lo < hi <= symbols@.len(),
        from <= symbols@[lo as int]@.len(),
    ensures
        from <= end <= symbols@[lo as int]@.len(),
        end == label_end(byte_rows(symbols@).subrange(lo as int, hi as int), from as int),
{
    let ghost group = byte_rows(symbols@).subrange(lo as int, hi as int);
    assert(group[0] == symbols@[lo as int]@);
    let mut end: usize = from;
    while end < symbols[lo].len() && group_agrees(symbols, lo, hi, end)
        invariant
            lo < hi <= symbols@.len(),
            from <= end <= symbols@[lo as int]@.len(),
            group == byte_rows(symbols@).subrange(lo as int, hi as int),
            group[0] == symbols@[lo as int]@,
            label_end(group, end as int) == label_end(group, from as int),
        decreases symbols@[lo as int]@.len() - end,
    {
        end = end + 1;
    }
    end
}

/// Append the nodes of the symbols `lo..hi`, which share their first `depth` bytes.
fn build(
    arena: &mut Vec<TrieNode>,
    symbols: &[Vec<u8>],
    lo: usize,
    hi: usize,
    depth: usize,
    limit: usize,
)
    requires
        lo <= hi <= symbols@.len(),
        forall|k: int| 0 <= k < symbols@.len() ==> (#[trigger] symbols@[k])@.len() <= limit,
    ensures
        node_models(final(arena)@) == node_models(old(arena)@) + trie_nodes(
            byte_rows(symbols@).subrange(lo as int, hi as int),
            depth as int,
            limit as int,
            old(arena)@.len() as int,
        ),
    decreases levels_left(limit as int, depth as int),
{
    let ghost before = arena@;
    let ghost syms = byte_rows(symbols@).subrange(lo as int, hi as int);
    let ghost base = arena@.len() as int;
    let ghost full = node_rest(syms, depth as int, limit as int, 0, base + 1);
    let index: usize = arena.len();
    arena.push(TrieNode { terminal: false, children: Vec::new() });
    let mut terminal: bool = false;
    let mut children: Vec<(Vec<u8>, usize)> = Vec::new();
    let ghost mut below: Seq<NodeModel> = Seq::empty();
    let ghost root = node_model(arena@[index as int]);
    let mut i: usize = lo;
    assert(node_models(arena@) =~= node_models(before) + seq![root] + below);
    assert(child_models(children@) + full.1 =~= full.1);
    assert(below + full.2 =~= full.2);
    while i < hi
        invariant
            lo <= i <= hi <= symbols@.len(),
            forall|k: int| 0 <= k < symbols@.len() ==> (#[trigger] symbols@[k])@.len() <= limit,
            syms == byte_rows(symbols@).subrange(lo as int, hi as int),
            index == base,
            base == before.len(),
            before == old(arena)@,
            full == node_rest(syms, depth as int, limit as int, 0, base + 1),
            arena@.len() == base + 1 + below.len(),
            node_models(arena@) == node_models(before) + seq![root] + below,
            ({
                let rest = node_rest(
                    syms,
                    depth as int,
                    limit as int,
                    i - lo,
                    arena@.len() as int,
                );
                &&& full.0 == (terminal || rest.0)
                &&& full.1 == child_models(children@) + rest.1
                &&& full.2 == below + rest.2
            }),
        decreases hi - i,
    {
        assert(syms[i - lo] == symbols@[i as int]@);
        assert(symbols@[i as int]@.len() <= limit);
        if symbols[i].len() <= depth || depth >= limit {
            terminal = true;
            i = i + 1;
        } else {
            // Group symbols sharing the next byte, then extend the edge label
            // as long as the whole group agrees.
            let j: usize = find_group_end(symbols, lo, hi, depth, i);
            let end: usize = find_label_end(symbols, i, j, depth + 1);
            let ghost group = byte_rows(symbols@).subrange(i as int, j as int);
            assert(syms.subrange(i - lo, j - lo) =~= group);
            let ghost rest = node_rest(
                syms,
                depth as int,
                limit as int,
                i - lo,
                arena@.len() as int,
            );
            let ghost arena_before = arena@;
            let ghost children_before = children@;
            let child: usize = arena.len();
            let label: Vec<u8> = copy_bytes(&symbols[i][depth..end]);
            build(arena, symbols, i, j, end, limit);
            let ghost sub = trie_nodes(group, end as int, limit as int, child as int);
            children.push((label, child));
            proof {
                let next = node_rest(
                    syms,
                    depth as int,
                    limit as int,
                    j - lo,
                    child + sub.len(),
                );
                assert(rest.1 == seq![(syms[i - lo].subrange(depth as int, end as int), child as int)]
                    + next.1);
                assert(rest.2 == sub + next.2);
                assert(child_models(children@) =~= child_models(children_before) + seq![
                    (label@, child as int),
                ]);
                assert(child_models(children@) + next.1 =~= child_models(children_before)
                    + rest.1);
                assert((below + sub) + next.2 =~= below + rest.2);
                assert(node_models(arena@).len() == arena@.len());
                assert(node_models(arena_before).len() == arena_before.len());
                below = below + sub;
                assert(node_models(arena@) =~= node_models(before) + seq![root] + below);
            }
            i = j;
        }
    }
    let ghost filled = arena@;
    arena.set(index, TrieNode { terminal, children });
    proof {
        let rest = node_rest(
            syms,
            depth as int,
            limit as int,
            hi - lo,
            filled.len() as int,
        );
        assert(child_models(children@) + rest.1 =~= child_models(children@));
        assert(below + rest.2 =~= below);
        let node = node_model(arena@[index as int]);
        assert(node_models(filled)[index as int] == root);
        assert forall|k: int| 0 <= k < arena@.len() implies node_models(arena@)[k] == (node_models(
            before,
        ) + seq![node] + below)[k] by {
            if k != index {
                assert(node_models(arena@)[k] == node_models(filled)[k]);
            }
        }
        assert(node_models(arena@) =~= node_models(before) + (seq![node] + below));
        assert(trie_nodes(syms, depth as int, limit as int, base) == seq![
            NodeModel { terminal: full.0, children: full.1 },
        ] + full.2);
    }
}

/// How many bytes the unsigned LEB128 form of a number takes.
pub open spec fn uleb_len(value: int) -> int
    decreases value,
{
    if value < 128 {
        1
    } else {
        1 + uleb_len(value / 128)
    }
}

/// The unsigned LEB128 form of a number: seven bits to a byte, the lowest first, and the top bit
/// set in every byte but the last.
pub open spec fn uleb_bytes(value: int) -> Seq<u8>
    decreases value,
{
    if value < 128 {
        seq![value as u8]
    } else {
        seq![(value % 128 + 128) as u8] + uleb_bytes(value / 128)
    }
}

/// How many bytes the first `n` children of a node take where the nodes stand at `offs`.
pub open spec fn children_size(children: Seq<(Seq<u8>, int)>, offs: Seq<int>, n: int) -> int
    decreases n,
{
    if n <= 0 {
        0
    } else {
        children_size(children, offs, n - 1) + children[n - 1].0.len() + 1 + uleb_len(
            offs[children[n - 1].1],
        )
    }
}

/// How many bytes a node takes where the nodes stand at `offs`.
pub open spec fn node_size(node: NodeModel, offs: Seq<int>) -> int {
    (if node.terminal {
        3int
    } else {
        1int
    }) + 1 + children_size(node.children, offs, node.children.len() as int)
}

/// How many bytes the first `n` nodes take where the nodes stand at `offs`.
pub open spec fn nodes_size(nodes: Seq<NodeModel>, offs: Seq<int>, n: int) -> int
    decreases n,
{
    if n <= 0 {
        0
    } else {
        nodes_size(nodes, offs, n - 1) + node_size(nodes[n - 1], offs)
    }
}

/// Where the nodes stand once their references hold the offsets `offs`.
pub open spec fn restated(nodes: Seq<NodeModel>, offs: Seq<int>) -> Seq<int> {
    Seq::new(nodes.len(), |i: int| nodes_size(nodes, offs, i))
}

/// The offsets after `k` rounds of sizing, which begin with zero everywhere.
pub open spec fn sized(nodes: Seq<NodeModel>, k: nat) -> Seq<int>
    decreases k,
{
    if k == 0 {
        Seq::new(nodes.len(), |i: int| 0int)
    } else {
        restated(nodes, sized(nodes, (k - 1) as nat))
    }
}

/// Whether `offs` are the offsets that the rounds of sizing come to rest at.
pub open spec fn is_settled(nodes: Seq<NodeModel>, offs: Seq<int>) -> bool {
    &&& exists|k: nat| offs == #[trigger] sized(nodes, k)
    &&& restated(nodes, offs) == offs
}

/// The bytes of the first `n` children of a node.
pub open spec fn children_bytes(children: Seq<(Seq<u8>, int)>, offs: Seq<int>, n: int) -> Seq<u8>
    decreases n,
{
    if n <= 0 {
        Seq::empty()
    } else {
        children_bytes(children, offs, n - 1) + children[n - 1].0 + seq![0u8] + uleb_bytes(
            offs[children[n - 1].1],
        )
    }
}

/// The bytes of a node: its terminal payload (two bytes, no flags, address 0) or an empty one, the
/// number of children, and for each child its label and its offset.
pub open spec fn node_bytes(node: NodeModel, offs: Seq<int>) -> Seq<u8> {
    (if node.terminal {
        seq![2u8, 0, 0]
    } else {
        seq![0u8]
    }) + seq![node.children.len() as u8] + children_bytes(
        node.children,
        offs,
        node.children.len() as int,
    )
}

/// The bytes of the first `n` nodes.
pub open spec fn nodes_bytes(nodes: Seq<NodeModel>, offs: Seq<int>, n: int) -> Seq<u8>
    decreases n,
{
    if n <= 0 {
        Seq::empty()
    } else {
        nodes_bytes(nodes, offs, n - 1) + node_bytes(nodes[n - 1], offs)
    }
}

/// The longest unsigned LEB128 form of a 64-bit number.
pub const ULEB_MOST: usize = 10;

/// The most that the first `n` children of a node can take, whatever the offsets.
pub open spec fn children_room(children: Seq<(Seq<u8>, int)>, n: int) -> int
    decreases n,
{
    if n <= 0 {
        0
    } else {
        children_room(children, n - 1) + children[n - 1].0.len() + 1 + ULEB_MOST
    }
}

/// The most that the first `n` nodes can take, whatever the offsets.
pub open spec fn nodes_room(nodes: Seq<NodeModel>, n: int) -> int
    decreases n,
{
    if n <= 0 {
        0
    } else {
        nodes_room(nodes, n - 1) + 4 + children_room(
            nodes[n - 1].children,
            nodes[n - 1].children.len() as int,
        )
    }
}

/// The nodes of the tree of a list of symbols.
pub open spec fn tree_of(symbols: Seq<Seq<u8>>) -> Seq<NodeModel> {
    trie_nodes(symbols, 0, longest(symbols), 0)
}

/// The length of the longest symbol.
pub open spec fn longest(symbols: Seq<Seq<u8>>) -> int
    decreases symbols.len(),
{
    if symbols.len() == 0 {
        0
    } else {
        let rest = longest(symbols.drop_last());
        if symbols.last().len() > rest {
            symbols.last().len() as int
        } else {
            rest
        }
    }
}

/// Whether `bytes` is the export trie of a list of symbols.
pub open spec fn is_trie_of(bytes: Seq<u8>, symbols: Seq<Seq<u8>>) -> bool {
    exists|offs: Seq<int>| #[trigger]
        is_settled(tree_of(symbols), offs) && bytes == nodes_bytes(
            tree_of(symbols),
            offs,
            tree_of(symbols).len() as int,
        )
}

proof fn lemma_uleb_len(value: int)
    requires
        0 <= value,
    ensures
        1 <= uleb_len(value),
        uleb_bytes(value).len() == uleb_len(value),
    decreases value,
{
    if value >= 128 {
        lemma_uleb_len(value / 128);
    }
}

proof fn lemma_uleb_len_grows(a: int, b: int)
    requires
        0 <= a <= b,
    ensures
        uleb_len(a) <= uleb_len(b),
    decreases b,
{
    lemma_uleb_len(b);
    if a >= 128 {
        lemma_uleb_len_grows(a / 128, b / 128);
    }
}

proof fn lemma_uleb_len_most(value: int)
    requires
        0 <= value <= u64::MAX,
    ensures
        uleb_len(value) <= ULEB_MOST,
{
    reveal_with_fuel(uleb_len, 11);
}

/// Whether one list of offsets is nowhere above another.
spec fn nowhere_above(a: Seq<int>, b: Seq<int>) -> bool {
    a.len() == b.len() && forall|i: int|
        0 <= i < a.len() ==> 0 <= #[trigger] a[i] <= b[i] <= u64::MAX
}

/// Whether every child that a node names exists.
spec fn children_exist(children: Seq<(Seq<u8>, int)>, n: int) -> bool {
    forall|c: int| 0 <= c < children.len() ==> 0 <= (#[trigger] children[c]).1 < n
}

spec fn all_children_exist(nodes: Seq<NodeModel>, n: int) -> bool {
    forall|i: int|
        0 <= i < nodes.len() ==> children_exist((#[trigger] nodes[i]).children, n)
}

proof fn lemma_children_size(
    children: Seq<(Seq<u8>, int)>,
    a: Seq<int>,
    b: Seq<int>,
    n: int,
)
    requires
        0 <= n <= children.len(),
        nowhere_above(a, b),
        children_exist(children, a.len() as int),
    ensures
        0 <= children_size(children, a, n) <= children_size(children, b, n) <= children_room(
            children,
            n,
        ),
        children_bytes(children, a, n).len() == children_size(children, a, n),
    decreases n,
{
    if n > 0 {
        lemma_children_size(children, a, b, n - 1);
        let child = children[n - 1].1;
        assert(0 <= a[child] <= b[child] <= u64::MAX);
        lemma_uleb_len(a[child]);
        lemma_uleb_len_grows(a[child], b[child]);
        lemma_uleb_len_most(b[child]);
    }
}

proof fn lemma_nodes_size(nodes: Seq<NodeModel>, a: Seq<int>, b: Seq<int>, n: int)
    requires
        0 <= n <= nodes.len(),
        nowhere_above(a, b),
        all_children_exist(nodes, a.len() as int),
    ensures
        0 <= nodes_size(nodes, a, n) <= nodes_size(nodes, b, n) <= nodes_room(nodes, n),
        nodes_bytes(nodes, a, n).len() == nodes_size(nodes, a, n),
    decreases n,
{
    if n > 0 {
        lemma_nodes_size(nodes, a, b, n - 1);
        let children = nodes[n - 1].children;
        lemma_children_size(children, a, b, children.len() as int);
    }
}

proof fn lemma_children_room(children: Seq<(Seq<u8>, int)>, n: int)
    requires
        0 <= n <= children.len(),
    ensures
        0 <= children_room(children, n) <= children_room(children, children.len() as int),
    decreases children.len() - n,
{
    lemma_children_room_nonneg(children, n);
    if n < children.len() {
        lemma_children_room(children, n + 1);
    }
}

proof fn lemma_children_room_nonneg(children: Seq<(Seq<u8>, int)>, n: int)
    requires
        0 <= n <= children.len(),
    ensures
        0 <= children_room(children, n),
    decreases n,
{
    if n > 0 {
        lemma_children_room_nonneg(children, n - 1);
    }
}

proof fn lemma_nodes_room(nodes: Seq<NodeModel>, n: int)
    requires
        0 <= n <= nodes.len(),
    ensures
        nodes_room(nodes, n) <= nodes_room(nodes, nodes.len() as int),
    decreases nodes.len() - n,
{
    if n < nodes.len() {
        lemma_nodes_room(nodes, n + 1);
        lemma_children_room_nonneg(nodes[n].children, nodes[n].children.len() as int);
    }
}

spec fn total(offs: Seq<int>, n: int) -> int
    decreases n,
{
    if n <= 0 {
        0
    } else {
        total(offs, n - 1) + offs[n - 1]
    }
}

/// A list of offsets that is nowhere above another and differs from it has a smaller sum.
proof fn lemma_total(a: Seq<int>, b: Seq<int>, n: int, most: int)
    requires
        nowhere_above(a, b),
        0 <= n <= a.len(),
        forall|i: int| 0 <= i < b.len() ==> #[trigger] b[i] <= most,
    ensures
        0 <= total(a, n) <= total(b, n) <= n * most,
        (exists|i: int| 0 <= i < n && #[trigger] a[i] != b[i]) ==> total(a, n) < total(b, n),
    decreases n,
{
    if n > 0 {
        lemma_total(a, b, n - 1, most);
        assert(a[n - 1] <= b[n - 1] <= most);
        assert(n * most == (n - 1) * most + most) by (nonlinear_arith);
    }
}

/// Every child named in a tree exists in it.
proof fn lemma_tree_children(symbols: Seq<Seq<u8>>, depth: int, limit: int, base: int)
    requires
        0 <= base,
    ensures
        ({
            let nodes = trie_nodes(symbols, depth, limit, base);
            all_children_exist(nodes, base + nodes.len())
        }),
    decreases levels_left(limit, depth), symbols.len() + 1,
{
    lemma_rest_children(symbols, depth, limit, 0, base + 1);
}

proof fn lemma_rest_children(symbols: Seq<Seq<u8>>, depth: int, limit: int, i: int, next: int)
    requires
        0 <= next,
    ensures
        ({
            let (terminal, children, nodes) = node_rest(symbols, depth, limit, i, next);
            &&& children_exist(children, next + nodes.len())
            &&& all_children_exist(nodes, next + nodes.len())
        }),
    decreases levels_left(limit, depth), symbols.len() - i,
{
    if i < 0 || i >= symbols.len() {
    } else if symbols[i].len() <= depth || depth >= limit {
        lemma_rest_children(symbols, depth, limit, i + 1, next);
    } else {
        let j = group_end(symbols, depth, i, i + 1);
        let group = symbols.subrange(i, j);
        lemma_group_end(symbols, depth, i, i + 1);
        lemma_label_grows(group, depth + 1);
        let end = label_end(group, depth + 1);
        let below = trie_nodes(group, end, limit, next);
        lemma_tree_children(group, end, limit, next);
        lemma_rest_children(symbols, depth, limit, j, next + below.len());
        let (terminal, children, nodes) = node_rest(symbols, depth, limit, j, next + below.len());
        let all = below + nodes;
        assert(below.len() >= 1);
        assert forall|k: int| 0 <= k < all.len() implies children_exist(
            (#[trigger] all[k]).children,
            next + all.len(),
        ) by {
            if k < below.len() {
                assert(children_exist(below[k].children, next + below.len()));
            } else {
                assert(children_exist(nodes[k - below.len()].children, next + all.len()));
            }
        }
    }
}

/// The most that the tree can take, where that can be held.
fn find_room(nodes: &Vec<TrieNode>) -> (r: Option<usize>)
    ensures
        match r {
            Some(room) => room == nodes_room(node_models(nodes@), nodes@.len() as int),
            None => nodes_room(node_models(nodes@), nodes@.len() as int) > usize::MAX,
        },
{
    let ghost models = node_models(nodes@);
    let mut room: usize = 0;
    let mut i: usize = 0;
    while i < nodes.len()
        invariant
            i <= nodes@.len(),
            models == node_models(nodes@),
            room == nodes_room(models, i as int),
        decreases nodes@.len() - i,
    {
        let children = &nodes[i].children;
        let ghost kids = models[i as int].children;
        proof {
            lemma_nodes_room(models, i + 1);
            lemma_children_room(kids, 0);
        }
        room = match room.checked_add(4) {
            Some(sum) => sum,
            None => return None,
        };
        let mut c: usize = 0;
        while c < children.len()
            invariant
                i < nodes@.len(),
                c <= children@.len(),
                models == node_models(nodes@),
                children@ == nodes@[i as int].children@,
                kids == models[i as int].children,
                kids == child_models(children@),
                room == nodes_room(models, i as int) + 4 + children_room(kids, c as int),
                nodes_room(models, i + 1) <= nodes_room(models, models.len() as int),
            decreases children@.len() - c,
        {
            proof {
                lemma_children_room(kids, c + 1);
            }
            room = match room.checked_add(children[c].0.len()) {
                Some(sum) => sum,
                None => return None,
            };
            room = match room.checked_add(1 + ULEB_MOST) {
                Some(sum) => sum,
                None => return None,
            };
            c = c + 1;
        }
        i = i + 1;
    }
    Some(room)
}

/// How many bytes the unsigned LEB128 form of a number takes.
fn find_uleb_len(value: usize) -> (r: usize)
    ensures
        r == uleb_len(value as int),
        r <= ULEB_MOST,
{
    let mut rest: usize = value;
    let mut len: usize = 1;
    proof {
        lemma_uleb_len_most(value as int);
    }
    while rest >= 128
        invariant
            len - 1 + uleb_len(rest as int) == uleb_len(value as int),
            uleb_len(value as int) <= ULEB_MOST,
        decreases rest,
    {
        proof {
            lemma_uleb_len((rest / 128) as int);
        }
        rest = rest / 128;
        len = len + 1;
    }
    len
}

/// Append the unsigned LEB128 form of a number.
fn push_uleb(out: &mut Vec<u8>, value: usize)
    ensures
        final(out)@ == old(out)@ + uleb_bytes(value as int),
{
    let ghost before = out@;
    let mut rest: usize = value;
    while rest >= 128
        invariant
            before == old(out)@,
            out@ + uleb_bytes(rest as int) == before + uleb_bytes(value as int),
        decreases rest,
    {
        let ghost so_far = out@;
        out.push((rest % 128) as u8 + 128);
        proof {
            assert(out@ + uleb_bytes((rest / 128) as int) =~= so_far + uleb_bytes(rest as int));
        }
        rest = rest / 128;
    }
    out.push(rest as u8);
    assert(uleb_bytes(rest as int) =~= seq![rest as u8]);
}

spec fn offset_ints(offs: Seq<usize>) -> Seq<int> {
    Seq::new(offs.len(), |i: int| offs[i] as int)
}

/// One round of sizing: where the nodes stand once their references hold `offs`.
fn restate(nodes: &Vec<TrieNode>, offs: &Vec<usize>) -> (r: Vec<usize>)
    requires
        offs@.len() == nodes@.len(),
        all_children_exist(node_models(nodes@), nodes@.len() as int),
        nodes_room(node_models(nodes@), nodes@.len() as int) <= usize::MAX,
    ensures
        offset_ints(r@) == restated(node_models(nodes@), offset_ints(offs@)),
{
    let ghost models = node_models(nodes@);
    let ghost ints = offset_ints(offs@);
    let mut r: Vec<usize> = Vec::new();
    let mut offset: usize = 0;
    let mut i: usize = 0;
    while i < nodes.len()
        invariant
            i <= nodes@.len(),
            offs@.len() == nodes@.len(),
            models == node_models(nodes@),
            ints == offset_ints(offs@),
            all_children_exist(models, nodes@.len() as int),
            nodes_room(models, models.len() as int) <= usize::MAX,
            offset == nodes_size(models, ints, i as int),
            r@.len() == i,
            forall|k: int| 0 <= k < i ==> #[trigger] r@[k] == nodes_size(models, ints, k),
        decreases nodes@.len() - i,
    {
        r.push(offset);
        let children = &nodes[i].children;
        let ghost kids = models[i as int].children;
        proof {
            lemma_nodes_size(models, ints, ints, i as int);
            lemma_nodes_room(models, i + 1);
            lemma_children_room(kids, 0);
            assert(children_exist(kids, nodes@.len() as int));
        }
        offset = offset + 1;
        if nodes[i].terminal {
            offset = offset + 2;
        }
        offset = offset + 1;
        let mut c: usize = 0;
        while c < children.len()
            invariant
                i < nodes@.len(),
                c <= children@.len(),
                offs@.len() == nodes@.len(),
                models == node_models(nodes@),
                ints == offset_ints(offs@),
                children@ == nodes@[i as int].children@,
                kids == models[i as int].children,
                kids == child_models(children@),
                children_exist(kids, nodes@.len() as int),
                nodes_size(models, ints, i as int) <= nodes_room(models, i as int),
                nodes_room(models, i + 1) <= usize::MAX,
                offset == nodes_size(models, ints, i as int) + (if models[i as int].terminal {
                    3int
                } else {
                    1int
                }) + 1 + children_size(kids, ints, c as int),
            decreases children@.len() - c,
        {
            let child: usize = children[c].1;
            proof {
                assert(kids[c as int].1 == child);
                lemma_children_room(kids, c + 1);
                lemma_children_size(kids, ints, ints, c as int);
                lemma_uleb_len_most(ints[child as int]);
                assert(nodes_room(models, i + 1) == nodes_room(models, i as int) + 4
                    + children_room(kids, kids.len() as int));
                assert(children_room(kids, c + 1) == children_room(kids, c as int)
                    + kids[c as int].0.len() + 1 + ULEB_MOST);
                assert(children@[c as int].0@.len() == kids[c as int].0.len());
                assert(ints[child as int] == offs@[child as int]);
            }
            offset = offset + children[c].0.len() + 1 + find_uleb_len(offs[child]);
            c = c + 1;
        }
        i = i + 1;
    }
    r
}

fn same_offsets(a: &Vec<usize>, b: &Vec<usize>) -> (r: bool)
    requires
        a@.len() == b@.len(),
    ensures
        r == (a@ == b@),
{
    let mut i: usize = 0;
    while i < a.len()
        invariant
            i <= a@.len(),
            a@.len() == b@.len(),
            forall|k: int| 0 <= k < i ==> a@[k] == b@[k],
        decreases a@.len() - i,
    {
        if a[i] != b[i] {
            assert(a@[i as int] != b@[i as int]);
            return false;
        }
        i = i + 1;
    }
    assert(a@ =~= b@);
    true
}

/// What one more round of sizing does to offsets that the rounds before brought: they grow, within
/// the room of the tree.
proof fn lemma_round(nodes: Seq<NodeModel>, k: nat)
    requires
        all_children_exist(nodes, nodes.len() as int),
        nodes_room(nodes, nodes.len() as int) <= u64::MAX,
    ensures
        sized(nodes, k).len() == nodes.len(),
        nowhere_above(sized(nodes, k), restated(nodes, sized(nodes, k))),
        forall|i: int|
            0 <= i < nodes.len() ==> #[trigger] restated(nodes, sized(nodes, k))[i] <= nodes_room(
                nodes,
                nodes.len() as int,
            ),
    decreases k,
{
    let now = sized(nodes, k);
    if k > 0 {
        lemma_round(nodes, (k - 1) as nat);
    }
    let next = restated(nodes, now);
    if k > 0 {
        let before = sized(nodes, (k - 1) as nat);
        assert(nowhere_above(before, now));
        assert forall|i: int| 0 <= i < nodes.len() implies 0 <= #[trigger] now[i] <= next[i]
            <= nodes_room(nodes, nodes.len() as int) by {
            lemma_nodes_size(nodes, before, now, i);
            lemma_nodes_room(nodes, i);
        }
    } else {
        assert(nowhere_above(now, now));
        assert forall|i: int| 0 <= i < nodes.len() implies 0 <= #[trigger] now[i] <= next[i]
            <= nodes_room(nodes, nodes.len() as int) by {
            lemma_nodes_size(nodes, now, now, i);
            lemma_nodes_room(nodes, i);
        }
    }
    assert forall|i: int| 0 <= i < nodes.len() implies #[trigger] next[i] <= nodes_room(
        nodes,
        nodes.len() as int,
    ) by {
        assert(now[i] <= next[i]);
    }
}

/// Size the tree until its offsets come to rest.
fn settle(nodes: &Vec<TrieNode>) -> (offs: Vec<usize>)
    requires
        all_children_exist(node_models(nodes@), nodes@.len() as int),
        nodes_room(node_models(nodes@), nodes@.len() as int) <= usize::MAX,
    ensures
        offs@.len() == nodes@.len(),
        is_settled(node_models(nodes@), offset_ints(offs@)),
{
    let ghost models = node_models(nodes@);
    let ghost most = nodes_room(models, models.len() as int);
    let mut offs: Vec<usize> = Vec::new();
    let mut i: usize = 0;
    while i < nodes.len()
        invariant
            i <= nodes@.len(),
            offs@.len() == i,
            forall|k: int| 0 <= k < i ==> #[trigger] offs@[k] == 0,
        decreases nodes@.len() - i,
    {
        offs.push(0);
        i = i + 1;
    }
    let ghost mut k: nat = 0;
    assert(offset_ints(offs@) =~= sized(models, 0));
    loop
        invariant
            models == node_models(nodes@),
            most == nodes_room(models, models.len() as int),
            all_children_exist(models, nodes@.len() as int),
            most <= usize::MAX,
            offs@.len() == nodes@.len(),
            offset_ints(offs@) == sized(models, k),
        decreases nodes@.len() * most - total(offset_ints(offs@), nodes@.len() as int),
    {
        let next: Vec<usize> = restate(nodes, &offs);
        proof {
            lemma_round(models, k);
            assert(restated(models, sized(models, k)) == sized(models, (k + 1) as nat));
            let a = offset_ints(offs@);
            let b = offset_ints(next@);
            assert(a.len() == b.len());
            lemma_total(a, b, a.len() as int, most);
            if offs@ != next@ {
                assert(exists|m: int| 0 <= m < offs@.len() && offs@[m] != next@[m]) by {
                    if forall|m: int| 0 <= m < offs@.len() ==> offs@[m] == next@[m] {
                        assert(offs@ =~= next@);
                    }
                }
                let m = choose|m: int| 0 <= m < offs@.len() && offs@[m] != next@[m];
                assert(a[m] != b[m]);
            }
        }
        if same_offsets(&offs, &next) {
            return offs;
        }
        offs = next;
        proof {
            k = k + 1;
        }
    }
}

/// Write the nodes with their references.
fn push_nodes(nodes: &Vec<TrieNode>, offs: &Vec<usize>) -> (out: Vec<u8>)
    requires
        offs@.len() == nodes@.len(),
        all_children_exist(node_models(nodes@), nodes@.len() as int),
    ensures
        out@ == nodes_bytes(node_models(nodes@), offset_ints(offs@), nodes@.len() as int),
{
    let ghost models = node_models(nodes@);
    let ghost ints = offset_ints(offs@);
    let mut out: Vec<u8> = Vec::new();
    let mut i: usize = 0;
    while i < nodes.len()
        invariant
            i <= nodes@.len(),
            offs@.len() == nodes@.len(),
            models == node_models(nodes@),
            ints == offset_ints(offs@),
            all_children_exist(models, nodes@.len() as int),
            out@ == nodes_bytes(models, ints, i as int),
        decreases nodes@.len() - i,
    {
        let ghost so_far = out@;
        let children = &nodes[i].children;
        let ghost kids = models[i as int].children;
        assert(children_exist(kids, nodes@.len() as int));
        if nodes[i].terminal {
            out.push(2);
            out.push(0);
            out.push(0);
        } else {
            out.push(0);
        }
        #[verifier::truncate]
        let count: u8 = children.len() as u8;
        out.push(count);
        let ghost head = out@;
        assert(head == so_far + ((if models[i as int].terminal {
            seq![2u8, 0, 0]
        } else {
            seq![0u8]
        }) + seq![kids.len() as u8]));
        let mut c: usize = 0;
        assert(out@ =~= head + children_bytes(kids, ints, 0));
        while c < children.len()
            invariant
                i < nodes@.len(),
                c <= children@.len(),
                offs@.len() == nodes@.len(),
                models == node_models(nodes@),
                ints == offset_ints(offs@),
                children@ == nodes@[i as int].children@,
                kids == child_models(children@),
                children_exist(kids, nodes@.len() as int),
                out@ == head + children_bytes(kids, ints, c as int),
            decreases children@.len() - c,
        {
            let child: usize = children[c].1;
            assert(kids[c as int].1 == child);
            assert(ints[child as int] == offs@[child as int]);
            push_bytes(&mut out, &children[c].0);
            out.push(0);
            push_uleb(&mut out, offs[child]);
            proof {
                assert(out@ =~= head + children_bytes(kids, ints, c + 1));
            }
            c = c + 1;
        }
        proof {
            assert(kids == models[i as int].children);
            assert(out@ =~= so_far + node_bytes(models[i as int], ints));
        }
        i = i + 1;
    }
    out
}

/// The length of the longest symbol.
fn find_longest(symbols: &[Vec<u8>]) -> (r: usize)
    ensures
        r == longest(byte_rows(symbols@)),
        forall|k: int| 0 <= k < symbols@.len() ==> (#[trigger] symbols@[k])@.len() <= r,
{
    let ghost all = byte_rows(symbols@);
    let mut r: usize = 0;
    let mut i: usize = 0;
    while i < symbols.len()
        invariant
            i <= symbols@.len(),
            all == byte_rows(symbols@),
            r == longest(all.subrange(0, i as int)),
            forall|k: int| 0 <= k < i ==> (#[trigger] symbols@[k])@.len() <= r,
        decreases symbols@.len() - i,
    {
        proof {
            assert(all.subrange(0, i + 1).drop_last() =~= all.subrange(0, i as int));
            assert(all.subrange(0, i + 1).last() == symbols@[i as int]@);
        }
        if symbols[i].len() > r {
            r = symbols[i].len();
        }
        i = i + 1;
    }
    assert(all.subrange(0, all.len() as int) =~= all);
    r
}

/// The export trie of a sorted list of symbols; `None` where it could not be held.
pub fn export_trie(sorted_symbols: &[Vec<u8>]) -> (r: Option<Vec<u8>>)
    ensures
        match r {
            Some(bytes) => is_trie_of(bytes@, byte_rows(sorted_symbols@)),
            None => {
                let nodes = tree_of(byte_rows(sorted_symbols@));
                nodes_room(nodes, nodes.len() as int) > usize::MAX
            },
        },
{
    let ghost all = byte_rows(sorted_symbols@);
    let limit: usize = find_longest(sorted_symbols);
    let mut arena: Vec<TrieNode> = Vec::new();
    build(&mut arena, sorted_symbols, 0, sorted_symbols.len(), 0, limit);
    proof {
        assert(all.subrange(0, all.len() as int) =~= all);
        assert(node_models(arena@) =~= tree_of(all));
        lemma_tree_children(all, 0, limit as int, 0);
        assert(node_models(arena@).len() == arena@.len());
    }
    if find_room(&arena).is_none() {
        return None;
    }
    let offs: Vec<usize> = settle(&arena);
    Some(push_nodes(&arena, &offs))
}

} // verus!

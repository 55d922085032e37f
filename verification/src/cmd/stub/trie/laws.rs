//! What a reader of an export trie finds in it.

use vstd::prelude::*;
use crate::bytes::{c_string, lemma_first_zero};
use crate::order::bytes_lt;
use crate::util::macho::fixups::{uleb_at, ULEB_LIMIT};
use crate::util::macho::format::MachOError;
use super::{
    all_children_exist, children_bytes, children_exist, group_end, is_settled, is_trie_of,
    label_end, lemma_group_end, lemma_label_end, lemma_nodes_size, lemma_round, lemma_tree_children,
    lemma_uleb_len, lemma_uleb_len_most, levels_left, longest, node_bytes, node_rest, nodes_bytes,
    nodes_room, nodes_size, nowhere_above, restated, sized, tree_of, trie_nodes, uleb_bytes,
    uleb_len, agree_at, NodeModel,
};

verus! {

/// The names that the node at `pos` and the nodes below it hold, each behind `prefix`, as a reader
/// walks them: a node is an export where its terminal payload is not empty. At most `fuel` nodes
/// follow each other downwards.
pub open spec fn listed(bytes: Seq<u8>, pos: int, prefix: Seq<u8>, fuel: nat) -> Seq<Seq<u8>>
    decreases fuel, 256int,
{
    match uleb_at(bytes, pos, ULEB_LIMIT as int) {
        Err(_) => Seq::empty(),
        Ok((size, payload)) => (if size > 0 {
            seq![prefix]
        } else {
            Seq::empty()
        }) + listed_children(
            bytes,
            payload + size + 1,
            bytes[payload + size] as int,
            prefix,
            fuel,
        ),
    }
}

/// The names below the `count` children that stand at `at`.
pub open spec fn listed_children(
    bytes: Seq<u8>,
    at: int,
    count: int,
    prefix: Seq<u8>,
    fuel: nat,
) -> Seq<Seq<u8>>
    decreases fuel, count,
{
    if count <= 0 || fuel == 0 {
        Seq::empty()
    } else {
        match c_string(bytes.subrange(at, bytes.len() as int)) {
            None => Seq::empty(),
            Some(label) => match uleb_at(bytes, at + label.len() + 1, ULEB_LIMIT as int) {
                Err(_) => Seq::empty(),
                Ok((child, next)) => listed(bytes, child, prefix + label, (fuel - 1) as nat)
                    + listed_children(bytes, next, count - 1, prefix, fuel),
            },
        }
    }
}

/// Whether every symbol comes before the ones behind it, byte by byte.
pub open spec fn strictly_sorted(symbols: Seq<Seq<u8>>) -> bool {
    forall|i: int, j: int| 0 <= i < j < symbols.len() ==> bytes_lt(symbols[i], symbols[j])
}

/// Whether no symbol holds a zero byte.
pub open spec fn free_of_zeros(symbols: Seq<Seq<u8>>) -> bool {
    forall|i: int, p: int|
        0 <= i < symbols.len() && 0 <= p < symbols[i].len() ==> #[trigger] symbols[i][p] != 0
}

/// Whether `part` stands in `bytes` at `at`.
pub open spec fn stands_at(bytes: Seq<u8>, at: int, part: Seq<u8>) -> bool {
    0 <= at && at + part.len() <= bytes.len() && forall|k: int|
        0 <= k < part.len() ==> bytes[at + k] == #[trigger] part[k]
}

proof fn lemma_stands_split(bytes: Seq<u8>, at: int, a: Seq<u8>, b: Seq<u8>)
    requires
        stands_at(bytes, at, a + b),
    ensures
        stands_at(bytes, at, a),
        stands_at(bytes, at + a.len(), b),
{
    assert forall|k: int| 0 <= k < a.len() implies bytes[at + k] == #[trigger] a[k] by {
        assert((a + b)[k] == a[k]);
    }
    assert forall|k: int| 0 <= k < b.len() implies bytes[at + a.len() + k] == #[trigger] b[k] by {
        assert((a + b)[a.len() + k] == b[k]);
    }
}

/// What is written as unsigned LEB128 is read back.
pub proof fn law_uleb_is_read_back(bytes: Seq<u8>, pos: int, value: int, left: int)
    requires
        0 <= value,
        uleb_len(value) <= left,
        0 <= pos,
        pos + uleb_len(value) <= bytes.len(),
        bytes.subrange(pos, pos + uleb_len(value)) == uleb_bytes(value),
    ensures
        uleb_at(bytes, pos, left) == Ok::<(int, int), MachOError>((value, pos + uleb_len(value))),
    decreases value,
{
    lemma_uleb_len(value);
    let part = bytes.subrange(pos, pos + uleb_len(value));
    assert(part[0] == bytes[pos]);
    if value >= 128 {
        lemma_uleb_len(value / 128);
        assert(bytes.subrange(pos + 1, pos + 1 + uleb_len(value / 128))
            =~= uleb_bytes(value / 128)) by {
            assert(uleb_bytes(value) == seq![(value % 128 + 128) as u8] + uleb_bytes(value / 128));
            assert forall|k: int| 0 <= k < uleb_len(value / 128) implies bytes[pos + 1 + k]
                == #[trigger] uleb_bytes(value / 128)[k] by {
                assert(part[k + 1] == bytes[pos + 1 + k]);
            }
        }
        law_uleb_is_read_back(bytes, pos + 1, value / 128, left - 1);
    }
}

pub(crate) proof fn lemma_uleb_stands(bytes: Seq<u8>, pos: int, value: int)
    requires
        0 <= value <= u64::MAX,
        stands_at(bytes, pos, uleb_bytes(value)),
    ensures
        uleb_at(bytes, pos, ULEB_LIMIT as int) == Ok::<(int, int), MachOError>(
            (value, pos + uleb_len(value)),
        ),
{
    lemma_uleb_len(value);
    lemma_uleb_len_most(value);
    assert(bytes.subrange(pos, pos + uleb_len(value)) =~= uleb_bytes(value));
    law_uleb_is_read_back(bytes, pos, value, ULEB_LIMIT as int);
}

/// A common beginning does not decide between two symbols.
proof fn lemma_lt_behind(a: Seq<u8>, b: Seq<u8>, d: int)
    requires
        0 <= d <= a.len(),
        d <= b.len(),
        a.subrange(0, d) == b.subrange(0, d),
    ensures
        bytes_lt(a, b) == bytes_lt(
            a.subrange(d, a.len() as int),
            b.subrange(d, b.len() as int),
        ),
    decreases d,
{
    if d == 0 {
        assert(a.subrange(0, a.len() as int) =~= a);
        assert(b.subrange(0, b.len() as int) =~= b);
    } else {
        assert(a[0] == a.subrange(0, d)[0]);
        assert(b[0] == b.subrange(0, d)[0]);
        let a1 = a.drop_first();
        let b1 = b.drop_first();
        assert(a1.subrange(0, d - 1) =~= a.subrange(0, d).drop_first());
        assert(b1.subrange(0, d - 1) =~= b.subrange(0, d).drop_first());
        lemma_lt_behind(a1, b1, d - 1);
        assert(a1.subrange(d - 1, a1.len() as int) =~= a.subrange(d, a.len() as int));
        assert(b1.subrange(d - 1, b1.len() as int) =~= b.subrange(d, b.len() as int));
    }
}

/// Of two symbols that begin alike, the later one goes on, and not with a smaller byte.
proof fn lemma_later_goes_on(a: Seq<u8>, b: Seq<u8>, d: int)
    requires
        0 <= d <= a.len(),
        d <= b.len(),
        a.subrange(0, d) == b.subrange(0, d),
        bytes_lt(a, b),
    ensures
        b.len() > d,
        a.len() > d ==> a[d] <= b[d],
{
    lemma_lt_behind(a, b, d);
    let a1 = a.subrange(d, a.len() as int);
    let b1 = b.subrange(d, b.len() as int);
    assert(b1.len() > 0);
    if a.len() > d {
        assert(a1[0] == a[d] && b1[0] == b[d]);
    }
}

/// Whether the symbols all begin with `prefix`.
spec fn all_begin(symbols: Seq<Seq<u8>>, prefix: Seq<u8>) -> bool {
    forall|k: int|
        0 <= k < symbols.len() ==> (#[trigger] symbols[k]).len() >= prefix.len()
            && symbols[k].subrange(0, prefix.len() as int) == prefix
}

/// Whether `bytes` are the nodes `all`, standing at `offs`.
spec fn laid_out(all: Seq<NodeModel>, offs: Seq<int>, bytes: Seq<u8>) -> bool {
    &&& restated(all, offs) == offs
    &&& nowhere_above(offs, offs)
    &&& all_children_exist(all, all.len() as int)
    &&& bytes == nodes_bytes(all, offs, all.len() as int)
}

/// The bytes of a node stand at its offset.
proof fn lemma_node_stands(all: Seq<NodeModel>, offs: Seq<int>, k: int, n: int)
    requires
        0 <= k < n <= all.len(),
        nowhere_above(offs, offs),
        offs.len() == all.len(),
        all_children_exist(all, all.len() as int),
    ensures
        stands_at(
            nodes_bytes(all, offs, n),
            nodes_size(all, offs, k),
            node_bytes(all[k], offs),
        ),
    decreases n,
{
    lemma_nodes_size(all, offs, offs, n - 1);
    lemma_nodes_size(all, offs, offs, k);
    let before = nodes_bytes(all, offs, n - 1);
    let part = node_bytes(all[k], offs);
    let at = nodes_size(all, offs, k);
    if k < n - 1 {
        lemma_node_stands(all, offs, k, n - 1);
    }
    assert forall|m: int| 0 <= m < part.len() implies nodes_bytes(all, offs, n)[at + m]
        == #[trigger] part[m] by {
        if k < n - 1 {
            assert(before[at + m] == part[m]);
        }
    }
}

/// The bytes of one child.
spec fn child_bytes(child: (Seq<u8>, int), offs: Seq<int>) -> Seq<u8> {
    child.0 + seq![0u8] + uleb_bytes(offs[child.1])
}

proof fn lemma_children_front(
    child: (Seq<u8>, int),
    children: Seq<(Seq<u8>, int)>,
    offs: Seq<int>,
    n: int,
)
    requires
        0 <= n <= children.len(),
    ensures
        children_bytes(seq![child] + children, offs, n + 1) == child_bytes(child, offs)
            + children_bytes(children, offs, n),
    decreases n,
{
    let all = seq![child] + children;
    if n > 0 {
        lemma_children_front(child, children, offs, n - 1);
        assert(all[n] == children[n - 1]);
    } else {
        assert(children_bytes(all, offs, 0) =~= Seq::empty());
        assert(all[0] == child);
    }
    assert(children_bytes(all, offs, n + 1) =~= child_bytes(child, offs) + children_bytes(
        children,
        offs,
        n,
    ));
}

/// A child reads back as its label and its offset.
proof fn lemma_child_read(bytes: Seq<u8>, at: int, child: (Seq<u8>, int), offs: Seq<int>)
    requires
        stands_at(bytes, at, child_bytes(child, offs)),
        forall|k: int| 0 <= k < child.0.len() ==> #[trigger] child.0[k] != 0,
        0 <= offs[child.1] <= u64::MAX,
    ensures
        c_string(bytes.subrange(at, bytes.len() as int)) == Some(child.0),
        uleb_at(bytes, at + child.0.len() + 1, ULEB_LIMIT as int) == Ok::<(int, int), MachOError>(
            (offs[child.1], at + child_bytes(child, offs).len()),
        ),
{
    let label = child.0;
    let value = offs[child.1];
    lemma_stands_split(bytes, at, label + seq![0u8], uleb_bytes(value));
    lemma_stands_split(bytes, at, label, seq![0u8]);
    lemma_uleb_len(value);
    let tail = bytes.subrange(at, bytes.len() as int);
    assert forall|k: int| 0 <= k < label.len() implies tail[k] != 0 by {
        assert(bytes[at + k] == label[k]);
    }
    assert(tail[label.len() as int] == 0) by {
        assert(bytes[at + label.len() + 0] == seq![0u8][0]);
    }
    lemma_first_zero(tail, label.len() as int);
    assert(tail.subrange(0, label.len() as int) =~= label);
    lemma_uleb_stands(bytes, at + label.len() + 1, value);
}

proof fn lemma_subrange_split<T>(all: Seq<T>, at: int, a: Seq<T>, b: Seq<T>)
    requires
        0 <= at,
        at + (a + b).len() <= all.len(),
        all.subrange(at, at + (a + b).len()) == a + b,
    ensures
        all.subrange(at, at + a.len()) == a,
        all.subrange(at + a.len(), at + a.len() + b.len()) == b,
{
    let joined = a + b;
    assert(joined.len() == a.len() + b.len());
    let whole = all.subrange(at, at + joined.len());
    assert forall|k: int| 0 <= k < a.len() implies all[at + k] == #[trigger] a[k] by {
        assert(whole[k] == all[at + k] && joined[k] == a[k]);
    }
    assert forall|k: int| 0 <= k < b.len() implies all[at + a.len() + k] == #[trigger] b[k] by {
        assert(whole[a.len() + k] == all[at + a.len() + k] && joined[a.len() + k] == b[k]);
    }
    assert(all.subrange(at, at + a.len()) =~= a);
    assert(all.subrange(at + a.len(), at + a.len() + b.len()) =~= b);
}

/// The symbols of a group all begin with the prefix and the label.
proof fn lemma_group_below(symbols: Seq<Seq<u8>>, prefix: Seq<u8>, i: int)
    requires
        strictly_sorted(symbols),
        free_of_zeros(symbols),
        all_begin(symbols, prefix),
        0 <= i < symbols.len(),
        symbols[i].len() > prefix.len(),
    ensures
        ({
            let depth = prefix.len() as int;
            let group = symbols.subrange(i, group_end(symbols, depth, i, i + 1));
            let end = label_end(group, depth + 1);
            &&& depth < end <= symbols[i].len()
            &&& strictly_sorted(group)
            &&& free_of_zeros(group)
            &&& all_begin(group, prefix + symbols[i].subrange(depth, end))
        }),
{
    let depth = prefix.len() as int;
    let j = group_end(symbols, depth, i, i + 1);
    lemma_group_end(symbols, depth, i, i + 1);
    let group = symbols.subrange(i, j);
    assert(group[0] == symbols[i]);
    lemma_label_end(group, depth + 1);
    let end = label_end(group, depth + 1);
    let longer = prefix + symbols[i].subrange(depth, end);
    assert forall|k: int| 0 <= k < group.len() implies (#[trigger] group[k]).len() >= longer.len()
        && group[k].subrange(0, end) == longer by {
        let sym = group[k];
        assert(sym == symbols[i + k]);
        assert(sym.len() > depth && sym[depth] == symbols[i][depth]);
        assert(sym.len() >= end) by {
            if end > depth + 1 {
                assert(agree_at(group, end - 1));
            }
        }
        assert(sym.subrange(0, depth) == prefix);
        assert(symbols[i].subrange(0, depth) == prefix);
        assert forall|p: int| 0 <= p < end implies sym[p] == longer[p] by {
            if p < depth {
                assert(sym.subrange(0, depth)[p] == prefix[p]);
            } else {
                assert(longer[p] == symbols[i][p]);
                if p > depth {
                    assert(agree_at(group, p));
                    assert(group[k][p] == group[0][p]);
                }
            }
        }
        assert(sym.subrange(0, end) =~= longer);
    }
    assert forall|a: int, p: int|
        0 <= a < group.len() && 0 <= p < group[a].len() implies #[trigger] group[a][p] != 0 by {
        assert(symbols[i + a][p] != 0);
    }
}

/// What a reader finds below a node.
proof fn lemma_listed(
    all: Seq<NodeModel>,
    offs: Seq<int>,
    bytes: Seq<u8>,
    symbols: Seq<Seq<u8>>,
    prefix: Seq<u8>,
    limit: int,
    base: int,
    fuel: nat,
)
    requires
        laid_out(all, offs, bytes),
        strictly_sorted(symbols),
        free_of_zeros(symbols),
        all_begin(symbols, prefix),
        forall|k: int| 0 <= k < symbols.len() ==> (#[trigger] symbols[k]).len() <= limit,
        0 <= base,
        ({
            let nodes = trie_nodes(symbols, prefix.len() as int, limit, base);
            base + nodes.len() <= all.len() && all.subrange(base, base + nodes.len()) == nodes
        }),
        fuel > levels_left(limit, prefix.len() as int),
    ensures
        listed(bytes, offs[base], prefix, fuel) == symbols,
    decreases levels_left(limit, prefix.len() as int), symbols.len() + 1,
{
    let depth = prefix.len() as int;
    let nodes = trie_nodes(symbols, depth, limit, base);
    let full = node_rest(symbols, depth, limit, 0, base + 1);
    assert(all.subrange(base, base + nodes.len())[0] == all[base]);
    let node = all[base];
    assert(node == NodeModel { terminal: full.0, children: full.1 });
    let from: int = if symbols.len() > 0 && symbols[0].len() == depth {
        1
    } else {
        0
    };
    let rest = node_rest(symbols, depth, limit, from, base + 1);
    if symbols.len() > 0 {
        assert(symbols[0].len() >= depth);
    }
    assert(full.1 == rest.1 && full.2 == rest.2);
    assert(all.subrange(base + 1, base + 1 + rest.2.len()) =~= rest.2) by {
        assert forall|k: int| 0 <= k < rest.2.len() implies all[base + 1 + k]
            == #[trigger] rest.2[k] by {
            assert(all.subrange(base, base + nodes.len())[k + 1] == nodes[k + 1]);
        }
    }
    let pos = offs[base];
    assert(offs[base] == nodes_size(all, offs, base));
    lemma_node_stands(all, offs, base, all.len() as int);
    let kids = children_bytes(node.children, offs, node.children.len() as int);
    let head = (if node.terminal {
        seq![2u8, 0, 0]
    } else {
        seq![0u8]
    }) + seq![node.children.len() as u8];
    assert(node_bytes(node, offs) =~= head + kids);
    lemma_stands_split(bytes, pos, head, kids);
    let at = pos + head.len();
    lemma_listed_rest(all, offs, bytes, symbols, prefix, limit, from, base + 1, at, fuel);
    assert(full.0 == (from == 1));
    assert(bytes[pos + 0] == head[0]);
    assert(bytes[pos + (head.len() - 1)] == head[head.len() - 1]);
    assert(rest.1.len() <= 255) by {
        if from < symbols.len() {
            if from == 1 {
                lemma_later_goes_on(symbols[0], symbols[1], depth);
            }
            assert(symbols[from][depth] != 0);
        }
    }
    let own: Seq<Seq<u8>> = if node.terminal {
        seq![prefix]
    } else {
        Seq::empty()
    };
    reveal_with_fuel(uleb_at, 2);
    assert(listed(bytes, pos, prefix, fuel) == own + listed_children(
        bytes,
        at,
        rest.1.len() as int,
        prefix,
        fuel,
    ));
    if from == 1 {
        assert(symbols[0].subrange(0, depth) =~= symbols[0]);
    }
    assert(own + symbols.subrange(from, symbols.len() as int) =~= symbols);
}

/// What a reader finds in the children that the symbols from `i` on give a node.
proof fn lemma_listed_rest(
    all: Seq<NodeModel>,
    offs: Seq<int>,
    bytes: Seq<u8>,
    symbols: Seq<Seq<u8>>,
    prefix: Seq<u8>,
    limit: int,
    i: int,
    next: int,
    at: int,
    fuel: nat,
)
    requires
        laid_out(all, offs, bytes),
        strictly_sorted(symbols),
        free_of_zeros(symbols),
        all_begin(symbols, prefix),
        forall|k: int| 0 <= k < symbols.len() ==> (#[trigger] symbols[k]).len() <= limit,
        0 <= i <= symbols.len(),
        i == 0 && symbols.len() > 0 ==> symbols[0].len() > prefix.len(),
        0 <= next,
        ({
            let rest = node_rest(symbols, prefix.len() as int, limit, i, next);
            &&& next + rest.2.len() <= all.len()
            &&& all.subrange(next, next + rest.2.len()) == rest.2
            &&& children_exist(rest.1, all.len() as int)
            &&& stands_at(bytes, at, children_bytes(rest.1, offs, rest.1.len() as int))
        }),
        fuel > levels_left(limit, prefix.len() as int),
    ensures
        ({
            let rest = node_rest(symbols, prefix.len() as int, limit, i, next);
            &&& !rest.0
            &&& i < symbols.len() ==> rest.1.len() <= 256 - symbols[i][prefix.len() as int]
            &&& i == symbols.len() ==> rest.1.len() == 0
            &&& listed_children(bytes, at, rest.1.len() as int, prefix, fuel) == symbols.subrange(
                i,
                symbols.len() as int,
            )
        }),
    decreases levels_left(limit, prefix.len() as int), symbols.len() - i,
{
    let depth = prefix.len() as int;
    let n = symbols.len() as int;
    if i == n {
        assert(symbols.subrange(i, n) =~= Seq::empty());
    } else {
        assert(symbols[i].len() > depth) by {
            assert(symbols[i].len() >= depth);
            if i > 0 {
                assert(symbols[0].len() >= depth);
                lemma_later_goes_on(symbols[0], symbols[i], depth);
            }
        }
        let j = group_end(symbols, depth, i, i + 1);
        lemma_group_end(symbols, depth, i, i + 1);
        let group = symbols.subrange(i, j);
        assert(group[0] == symbols[i]);
        lemma_label_end(group, depth + 1);
        let end = label_end(group, depth + 1);
        let label = symbols[i].subrange(depth, end);
        let below = trie_nodes(group, end, limit, next);
        let rest = node_rest(symbols, depth, limit, i, next);
        let later = node_rest(symbols, depth, limit, j, next + below.len());
        assert(rest.1 == seq![(label, next)] + later.1);
        assert(rest.2 == below + later.2);
        let after = next + below.len();
        lemma_subrange_split(all, next, below, later.2);
        assert(children_exist(later.1, all.len() as int)) by {
            assert forall|c: int| 0 <= c < later.1.len() implies 0 <= (#[trigger] later.1[c]).1
                < all.len() by {
                assert(rest.1[c + 1] == later.1[c]);
            }
        }
        lemma_children_front((label, next), later.1, offs, later.1.len() as int);
        let first = child_bytes((label, next), offs);
        let others = children_bytes(later.1, offs, later.1.len() as int);
        lemma_stands_split(bytes, at, first, others);
        assert(rest.1[0] == (label, next));
        assert(0 <= next < all.len());
        assert(offs[next] <= u64::MAX);
        let value = offs[next];
        assert forall|k: int| 0 <= k < label.len() implies #[trigger] label[k] != 0 by {
            assert(label[k] == symbols[i][depth + k]);
        }
        lemma_child_read(bytes, at, (label, next), offs);
        let at_next = at + first.len();

        // The group below.
        let longer = prefix + label;
        assert(longer.len() == end);
        lemma_group_below(symbols, prefix, i);
        assert(symbols[i].len() <= limit);
        lemma_listed(
            all,
            offs,
            bytes,
            group,
            longer,
            limit,
            next,
            (fuel - 1) as nat,
        );
        lemma_listed_rest(
            all,
            offs,
            bytes,
            symbols,
            prefix,
            limit,
            j,
            after,
            at_next,
            fuel,
        );
        if j < n {
            assert(symbols[i].subrange(0, depth) == symbols[j].subrange(0, depth));
            lemma_later_goes_on(symbols[i], symbols[j], depth);
            assert(symbols[j][depth] != symbols[i][depth]) by {
                lemma_group_stops(symbols, depth, i, i + 1);
            }
        }
        assert(group + symbols.subrange(j, n) =~= symbols.subrange(i, n));
        assert(rest.1.len() == later.1.len() + 1);
    }
}

/// Behind a group stands a symbol that does not belong to it.
proof fn lemma_group_stops(symbols: Seq<Seq<u8>>, depth: int, i: int, j: int)
    requires
        0 <= i < j <= symbols.len(),
    ensures
        ({
            let end = group_end(symbols, depth, i, j);
            end < symbols.len() ==> symbols[end].len() <= depth || symbols[end][depth]
                != symbols[i][depth]
        }),
    decreases symbols.len() - j,
{
    if j < symbols.len() && symbols[j].len() > depth && symbols[j][depth] == symbols[i][depth] {
        lemma_group_stops(symbols, depth, i, j + 1);
    }
}

proof fn lemma_longest(symbols: Seq<Seq<u8>>)
    ensures
        0 <= longest(symbols),
        forall|k: int|
            0 <= k < symbols.len() ==> (#[trigger] symbols[k]).len() <= longest(symbols),
    decreases symbols.len(),
{
    if symbols.len() > 0 {
        lemma_longest(symbols.drop_last());
        assert forall|k: int| 0 <= k < symbols.len() implies (#[trigger] symbols[k]).len()
            <= longest(symbols) by {
            if k < symbols.len() - 1 {
                assert(symbols.drop_last()[k] == symbols[k]);
            }
        }
    }
}

/// A reader of the export trie of sorted symbols finds exactly these symbols, in their order.
pub proof fn law_trie_lists_its_symbols(bytes: Seq<u8>, symbols: Seq<Seq<u8>>)
    requires
        strictly_sorted(symbols),
        free_of_zeros(symbols),
        nodes_room(tree_of(symbols), tree_of(symbols).len() as int) <= u64::MAX,
        is_trie_of(bytes, symbols),
    ensures
        listed(bytes, 0, Seq::empty(), (longest(symbols) + 1) as nat) == symbols,
{
    let all = tree_of(symbols);
    let offs = choose|offs: Seq<int>| #[trigger]
        is_settled(all, offs) && bytes == nodes_bytes(all, offs, all.len() as int);
    let k = choose|k: nat| offs == #[trigger] sized(all, k);
    lemma_tree_children(symbols, 0, longest(symbols), 0);
    lemma_round(all, k);
    assert(nowhere_above(offs, offs));
    lemma_longest(symbols);
    assert(all.subrange(0, all.len() as int) =~= all);
    assert forall|m: int| 0 <= m < symbols.len() implies (#[trigger] symbols[m]).len() >= 0
        && symbols[m].subrange(0, 0) == Seq::<u8>::empty() by {
        assert(symbols[m].subrange(0, 0) =~= Seq::<u8>::empty());
    }
    lemma_listed(
        all,
        offs,
        bytes,
        symbols,
        Seq::empty(),
        longest(symbols),
        0,
        (longest(symbols) + 1) as nat,
    );
    assert(offs[0] == nodes_size(all, offs, 0));
}

proof fn lemma_stays_settled(nodes: Seq<NodeModel>, k: nat, n: nat)
    requires
        restated(nodes, sized(nodes, k)) == sized(nodes, k),
        k <= n,
    ensures
        sized(nodes, n) == sized(nodes, k),
    decreases n,
{
    if k < n {
        lemma_stays_settled(nodes, k, (n - 1) as nat);
    }
}

/// A list of symbols has only one export trie.
pub proof fn law_trie_is_unique(a: Seq<u8>, b: Seq<u8>, symbols: Seq<Seq<u8>>)
    requires
        is_trie_of(a, symbols),
        is_trie_of(b, symbols),
    ensures
        a == b,
{
    let nodes = tree_of(symbols);
    let x = choose|offs: Seq<int>| #[trigger]
        is_settled(nodes, offs) && a == nodes_bytes(nodes, offs, nodes.len() as int);
    let y = choose|offs: Seq<int>| #[trigger]
        is_settled(nodes, offs) && b == nodes_bytes(nodes, offs, nodes.len() as int);
    let j = choose|k: nat| x == #[trigger] sized(nodes, k);
    let k = choose|k: nat| y == #[trigger] sized(nodes, k);
    if j <= k {
        lemma_stays_settled(nodes, j, k);
    } else {
        lemma_stays_settled(nodes, k, j);
    }
}

} // verus!

//! Absolute writes as database updates.
use vstd::prelude::*;

use crate::engine::fold::Cells;
use crate::hash::Hash32;
use crate::order::{lemma_lex_asymmetric, lemma_lex_irreflexive, lex_lt, same_bytes, OrdKey};
use crate::storage::canonical::{compute_writes_root, writes_root};
use crate::storage::entry_key::{lemma_lex_head, lemma_lex_tail};
use crate::storage::state_key::{names_owner, vm_db_node_key, VM_PARTITION};
use crate::storage::updates::{
    ascending, change_view, delta_view, distinct, lemma_table_at, nodes_view, parts_view, table,
    DatabaseUpdate, DatabaseUpdates, NodeContent, NodeDatabaseUpdates, PartitionDatabaseUpdates,
};
use crate::storage::writes::StateWrites;
use crate::types::SubstateKey;

verus! {

/// The updates come to exactly these writes: each written cell lies under its
/// owner, in the one partition there is, by its local half, and nothing else
/// is there.
pub open spec fn is_content_of(content: Map<Seq<u8>, NodeContent>, writes: Cells) -> bool {
    &&& forall|key: SubstateKey| #[trigger]
        writes.contains_key(key) ==> {
            &&& content.contains_key(key.owner@)
            &&& content[key.owner@].contains_key(VM_PARTITION)
            &&& content[key.owner@][VM_PARTITION].1.contains_key(key.local@)
            &&& content[key.owner@][VM_PARTITION].1[key.local@] == writes[key]
        }
    &&& forall|k: Seq<u8>| #[trigger]
        content.contains_key(k) ==> names_owner(k) && writes_under(writes, k)
    &&& forall|k: Seq<u8>, p: u8|
        content.contains_key(k) && #[trigger] content[k].contains_key(p) ==> p == VM_PARTITION
            && !content[k][p].0
    &&& forall|k: Seq<u8>, p: u8, l: Seq<u8>|
        content.contains_key(k) && content[k].contains_key(p)
            && #[trigger] content[k][p].1.contains_key(l) ==> writes_cell(writes, k, l)
}

/// Some cell under an owner is written.
pub open spec fn writes_under(writes: Cells, owner: Seq<u8>) -> bool {
    exists|key: SubstateKey| #[trigger] writes.contains_key(key) && key.owner@ == owner
}

/// The cell of an owner and a local half is written.
pub open spec fn writes_cell(writes: Cells, owner: Seq<u8>, local: Seq<u8>) -> bool {
    exists|key: SubstateKey| #[trigger]
        writes.contains_key(key) && key.owner@ == owner && key.local@ == local
}

/// The written cells of one owner, in order.
spec fn is_run(
    cells: Seq<(Seq<u8>, Option<Seq<u8>>)>,
    order: Seq<SubstateKey>,
    writes: Cells,
    from: int,
    to: int,
) -> bool {
    &&& 0 <= from <= to <= order.len()
    &&& cells.len() == to - from
    &&& forall|e: int|
        0 <= e < cells.len() ==> #[trigger] cells[e] == (
            order[from + e].local@,
            writes[order[from + e]],
        )
    &&& forall|e: int| from <= e < to ==> (#[trigger] order[e]).owner == order[from].owner
}

/// The entity's updates are one run of written cells.
spec fn node_is_run(
    node: (Vec<u8>, NodeDatabaseUpdates),
    order: Seq<SubstateKey>,
    writes: Cells,
    from: int,
    to: int,
) -> bool {
    &&& from < to
    &&& node.0@ == order[from].owner@
    &&& node.1.partition_updates@.len() == 1
    &&& node.1.partition_updates@[0].0 == VM_PARTITION
    &&& node.1.partition_updates@[0].1 is Delta
    &&& is_run(node.1.partition_updates@[0].1.entries(), order, writes, from, to)
}

/// The next run, if there is one, is another owner's.
spec fn run_breaks(order: Seq<SubstateKey>, ends: Seq<int>, n: int) -> bool {
    ends[n + 1] < order.len() ==> order[ends[n + 1]].owner != order[ends[n]].owner
}

/// One owner's cells come before another's.
proof fn lemma_owner_order(a: SubstateKey, b: SubstateKey)
    requires
        a.before(b),
    ensures
        a.owner == b.owner ==> lex_lt(a.local@, b.local@),
        a.owner != b.owner ==> lex_lt(a.owner@, b.owner@),
{
    if a.owner == b.owner {
        lemma_lex_head(a.owner@, a.local@, b.local@);
    } else {
        if a.owner@ == b.owner@ {
            assert(a.owner =~= b.owner);
        }
        crate::order::lemma_lex_total(a.owner@, b.owner@);
        if lex_lt(b.owner@, a.owner@) {
            lemma_lex_tail(b.owner@, b.local@, a.owner@, a.local@);
            lemma_lex_asymmetric(b.bytes(), a.bytes());
        }
    }
}

/// A single partition holds what it holds.
proof fn lemma_single_partition(node: NodeDatabaseUpdates)
    requires
        node.partition_updates@.len() == 1,
        node.partition_updates@[0].0 == VM_PARTITION,
        node.partition_updates@[0].1 is Delta,
        ascending(node.partition_updates@[0].1.entries()),
    ensures
        node.wf(),
        node.sorted(),
        forall|p: u8| #[trigger] node.content().contains_key(p) <==> p == VM_PARTITION,
        node.content()[VM_PARTITION] == (
            false,
            table(node.partition_updates@[0].1.entries()),
        ),
{
    let parts = parts_view(node.partition_updates@);
    let cells = node.partition_updates@[0].1.entries();
    assert forall|i: int, j: int|
        0 <= i < cells.len() && 0 <= j < cells.len() && i != j implies (#[trigger] cells[i]).0 != (
    #[trigger] cells[j]).0 by {
        lemma_lex_irreflexive(cells[i].0);
        if i < j {
            assert(lex_lt(cells[i].0, cells[j].0));
        } else {
            assert(lex_lt(cells[j].0, cells[i].0));
        }
    }
    assert(distinct(parts));
    lemma_table_at(parts, 0);
    assert forall|p: u8| #[trigger] node.content().contains_key(p) implies p == VM_PARTITION by {
        let i = choose|i: int| 0 <= i < parts.len() && (#[trigger] parts[i]).0 == p;
        assert(parts[i].0 == VM_PARTITION);
    }
}

/// The written cells of one owner, from position `from` on.
fn run_from(writes: &StateWrites, from: usize, count: usize) -> (r: (
    Vec<(Vec<u8>, DatabaseUpdate)>,
    usize,
))
    requires
        from < count,
        count == writes.order().len(),
    ensures
        from < r.1 <= count,
        is_run(delta_view(r.0@), writes.order(), writes@, from as int, r.1 as int),
        r.1 < count ==> writes.order()[r.1 as int].owner != writes.order()[from as int].owner,
{
    let ghost order = writes.order();
    let first = writes.key_at(from);
    let mut cells: Vec<(Vec<u8>, DatabaseUpdate)> = Vec::new();
    let mut i: usize = from;
    while i < count
        invariant
            from <= i <= count,
            from < count,
            count == order.len(),
            order == writes.order(),
            first == order[from as int],
            is_run(delta_view(cells@), order, writes@, from as int, i as int),
        ensures
            from < i <= count,
            is_run(delta_view(cells@), order, writes@, from as int, i as int),
            i < count ==> order[i as int].owner != order[from as int].owner,
        decreases count - i,
    {
        let key = writes.key_at(i);
        if !same_bytes(key.owner.as_slice(), first.owner.as_slice()) {
            assert(key.owner@ != first.owner@);
            break;
        }
        assert(key.owner =~= first.owner);
        let ghost before = delta_view(cells@);
        let mut local: Vec<u8> = Vec::new();
        local.extend_from_slice(key.local.as_slice());
        assert(local@ =~= key.local@);
        let update = match writes.change_at(i) {
            Some(v) => DatabaseUpdate::Put(crate::storage::canonical::copy_bytes(v)),
            None => DatabaseUpdate::Delete,
        };
        assert(change_view(update) == writes@[order[i as int]]);
        cells.push((local, update));
        assert(delta_view(cells@) =~= before.push((key.local@, writes@[order[i as int]])));
        i = i + 1;
    }
    (cells, i)
}

/// The keys of written cells ascend by entity, then by sort key.
pub fn writes_to_updates(writes: &StateWrites) -> (updates: DatabaseUpdates)
    ensures
        updates.wf(),
        updates.sorted(),
        updates.delta_only(),
        is_content_of(updates.content(), writes@),
{
    let count: usize = writes.len();
    let ghost order = writes.order();
    let ghost mut ends: Seq<int> = seq![0];
    let mut nodes: Vec<(Vec<u8>, NodeDatabaseUpdates)> = Vec::new();
    let mut i: usize = 0;
    while i < count
        invariant
            i <= count,
            count == order.len(),
            order == writes.order(),
            crate::sorted::strictly_sorted(order),
            ends.len() == nodes@.len() + 1,
            ends[0] == 0,
            ends.last() == i,
            forall|n: int|
                0 <= n < nodes@.len() ==> node_is_run(
                    #[trigger] nodes@[n],
                    order,
                    writes@,
                    ends[n],
                    ends[n + 1],
                ),
            forall|n: int| 0 <= n < nodes@.len() ==> #[trigger] run_breaks(order, ends, n),
        decreases count - i,
    {
        let first = writes.key_at(i);
        let (cells, next) = run_from(writes, i, count);
        let ghost before = nodes@;
        let ghost old_ends = ends;
        let partition = PartitionDatabaseUpdates::Delta { substate_updates: cells };
        let mut partition_updates: Vec<(u8, PartitionDatabaseUpdates)> = Vec::new();
        partition_updates.push((VM_PARTITION, partition));
        nodes.push((vm_db_node_key(&first.owner), NodeDatabaseUpdates { partition_updates }));
        proof {
            ends = ends.push(next as int);
            assert forall|n: int| 0 <= n < nodes@.len() implies node_is_run(
                #[trigger] nodes@[n],
                order,
                writes@,
                ends[n],
                ends[n + 1],
            ) by {
                if n < before.len() {
                    assert(nodes@[n] == before[n]);
                }
            }
            assert forall|n: int| 0 <= n < nodes@.len() implies #[trigger] run_breaks(
                order,
                ends,
                n,
            ) by {
                if n < before.len() {
                    assert(run_breaks(order, old_ends, n));
                    assert(old_ends[n] == ends[n] && old_ends[n + 1] == ends[n + 1]);
                }
            }
        }
        i = next;
    }
    let updates = DatabaseUpdates { node_updates: nodes };
    proof {
        lemma_runs(updates, order, writes@, ends);
    }
    updates
}

/// Runs that follow one another come to the writes.
proof fn lemma_runs(u: DatabaseUpdates, order: Seq<SubstateKey>, writes: Cells, ends: Seq<int>)
    requires
        crate::sorted::strictly_sorted(order),
        writes.dom() == order.to_set(),
        ends.len() == u.node_updates@.len() + 1,
        ends[0] == 0,
        ends.last() == order.len(),
        forall|n: int|
            0 <= n < u.node_updates@.len() ==> node_is_run(
                #[trigger] u.node_updates@[n],
                order,
                writes,
                ends[n],
                ends[n + 1],
            ),
        forall|n: int| 0 <= n < u.node_updates@.len() ==> #[trigger] run_breaks(order, ends, n),
    ensures
        u.wf(),
        u.sorted(),
        u.delta_only(),
        is_content_of(u.content(), writes),
{
    let nodes = u.node_updates@;
    let view = nodes_view(nodes);
    let content = u.content();
    // Runs stand one behind the other.
    assert forall|n: int| 0 <= n < nodes.len() implies 0 <= #[trigger] ends[n] < ends[n + 1]
        <= order.len() by {
        assert(node_is_run(nodes[n], order, writes, ends[n], ends[n + 1]));
    }
    assert forall|m: int, n: int| 0 <= m <= n < ends.len() implies ends[m] <= ends[n] by {
        lemma_ends_climb(ends, m, n);
    }
    // Each run's cells ascend.
    assert forall|n: int| 0 <= n < nodes.len() implies {
        let node = (#[trigger] nodes[n]).1;
        &&& ascending(node.partition_updates@[0].1.entries())
        &&& node.wf()
        &&& node.sorted()
    } by {
        let node = nodes[n].1;
        assert(node_is_run(nodes[n], order, writes, ends[n], ends[n + 1]));
        let cells = node.partition_updates@[0].1.entries();
        assert forall|a: int, b: int| 0 <= a < b < cells.len() implies lex_lt(
            (#[trigger] cells[a]).0,
            (#[trigger] cells[b]).0,
        ) by {
            let x = order[ends[n] + a];
            let y = order[ends[n] + b];
            assert(x.before(y));
            assert(x.owner == y.owner);
            lemma_owner_order(x, y);
        }
        lemma_single_partition(node);
    }
    // Owners ascend from run to run.
    assert forall|m: int, n: int| 0 <= m < n < view.len() implies lex_lt(
        (#[trigger] view[m]).0,
        (#[trigger] view[n]).0,
    ) by {
        assert(node_is_run(nodes[m], order, writes, ends[m], ends[m + 1]));
        assert(node_is_run(nodes[n], order, writes, ends[n], ends[n + 1]));
        let x = order[ends[m]];
        let y = order[ends[n]];
        let z = order[ends[m + 1]];
        assert(ends[m + 1] <= ends[n]);
        assert(run_breaks(order, ends, m));
        assert(x.before(y));
        lemma_owner_order(x, y);
        if x.owner == y.owner {
            assert(z.owner != x.owner);
            assert(x.before(z));
            lemma_owner_order(x, z);
            if ends[m + 1] < ends[n] {
                assert(z.before(y));
                lemma_owner_order(z, y);
            }
            lemma_lex_asymmetric(x.owner@, z.owner@);
        }
    }
    assert(ascending(view));
    assert forall|i: int, j: int|
        0 <= i < view.len() && 0 <= j < view.len() && i != j implies (#[trigger] view[i]).0 != (
    #[trigger] view[j]).0 by {
        lemma_lex_irreflexive(view[i].0);
        if i < j {
            assert(lex_lt(view[i].0, view[j].0));
        } else {
            assert(lex_lt(view[j].0, view[i].0));
        }
    }
    assert(distinct(view));
    // Every written cell is found.
    assert forall|key: SubstateKey| #[trigger] writes.contains_key(key) implies {
        &&& content.contains_key(key.owner@)
        &&& content[key.owner@].contains_key(VM_PARTITION)
        &&& content[key.owner@][VM_PARTITION].1.contains_key(key.local@)
        &&& content[key.owner@][VM_PARTITION].1[key.local@] == writes[key]
    } by {
        assert(order.to_set().contains(key));
        let at = order.index_of(key);
        let n = lemma_run_of(ends, at, nodes.len() as int);
        assert(node_is_run(nodes[n], order, writes, ends[n], ends[n + 1]));
        let node = nodes[n].1;
        let cells = node.partition_updates@[0].1.entries();
        let e = at - ends[n];
        assert(cells[e] == (order[ends[n] + e].local@, writes[order[ends[n] + e]]));
        assert(order[at].owner == order[ends[n]].owner);
        lemma_single_partition(node);
        lemma_table_at(view, n);
        assert(distinct(cells)) by {
            assert(node.partition_updates@[0].1.wf());
        }
        lemma_table_at(cells, e);
    }
    // Nothing else is there.
    assert forall|k: Seq<u8>| #[trigger] content.contains_key(k) implies names_owner(k)
        && writes_under(writes, k) by {
        let n = choose|n: int| 0 <= n < view.len() && (#[trigger] view[n]).0 == k;
        assert(node_is_run(nodes[n], order, writes, ends[n], ends[n + 1]));
        let key = order[ends[n]];
        assert(order.to_set().contains(key));
        assert(writes.contains_key(key));
    }
    assert forall|k: Seq<u8>, p: u8|
        content.contains_key(k) && #[trigger] content[k].contains_key(p) implies p == VM_PARTITION
        && !content[k][p].0 by {
        let n = choose|n: int| 0 <= n < view.len() && (#[trigger] view[n]).0 == k;
        assert(node_is_run(nodes[n], order, writes, ends[n], ends[n + 1]));
        lemma_table_at(view, n);
        lemma_single_partition(nodes[n].1);
    }
    assert forall|k: Seq<u8>, p: u8, l: Seq<u8>|
        content.contains_key(k) && content[k].contains_key(p)
            && #[trigger] content[k][p].1.contains_key(l) implies writes_cell(writes, k, l) by {
        let n = choose|n: int| 0 <= n < view.len() && (#[trigger] view[n]).0 == k;
        assert(node_is_run(nodes[n], order, writes, ends[n], ends[n + 1]));
        lemma_table_at(view, n);
        lemma_single_partition(nodes[n].1);
        let cells = nodes[n].1.partition_updates@[0].1.entries();
        let e = choose|e: int| 0 <= e < cells.len() && (#[trigger] cells[e]).0 == l;
        let key = order[ends[n] + e];
        assert(order.to_set().contains(key));
        assert(writes.contains_key(key));
        assert(key.owner == order[ends[n]].owner);
    }
}

proof fn lemma_ends_climb(ends: Seq<int>, m: int, n: int)
    requires
        0 <= m <= n < ends.len(),
        forall|k: int| 0 <= k < ends.len() - 1 ==> #[trigger] ends[k] < ends[k + 1],
    ensures
        ends[m] <= ends[n],
    decreases n - m,
{
    if m < n {
        lemma_ends_climb(ends, m, n - 1);
        assert(ends[n - 1] < ends[n - 1 + 1]);
    }
}

/// The run that a position falls in.
proof fn lemma_run_of(ends: Seq<int>, at: int, n: int) -> (r: int)
    requires
        0 <= n < ends.len(),
        ends[0] == 0,
        0 <= at < ends[n],
        forall|k: int| 0 <= k < n ==> #[trigger] ends[k] < ends[k + 1],
    ensures
        0 <= r < n,
        ends[r] <= at < ends[r + 1],
    decreases n,
{
    if at >= ends[n - 1] {
        n - 1
    } else {
        lemma_run_of(ends, at, n - 1)
    }
}

/// Updates with the root over what they come to; no root where an entry is
/// past the encoding's size limit.
#[derive(Debug, PartialEq, Eq)]
pub struct Settled {
    /// The updates, in canonical order.
    pub updates: DatabaseUpdates,
    /// Their root.
    pub writes_root: Option<Hash32>,
}

impl Settled {
    /// The updates of these writes, and their root.
    pub open spec fn settles(&self, writes: Cells) -> bool {
        &&& self.updates.wf()
        &&& self.updates.sorted()
        &&& self.updates.delta_only()
        &&& is_content_of(self.updates.content(), writes)
        &&& match self.writes_root {
            Some(root) => writes_root(self.updates.content()) == Some(root.0@),
            None => writes_root(self.updates.content()) is None,
        }
    }
}

/// Settles writes into canonical updates and their root.
pub fn settle(writes: &StateWrites) -> (s: Settled)
    ensures
        s.settles(writes@),
{
    let updates = writes_to_updates(writes);
    let writes_root = compute_writes_root(&updates);
    Settled { updates, writes_root }
}

/// The same writes come to the same root.
pub proof fn law_writes_determine_content(
    a: Map<Seq<u8>, NodeContent>,
    b: Map<Seq<u8>, NodeContent>,
    writes: Cells,
)
    requires
        is_content_of(a, writes),
        is_content_of(b, writes),
    ensures
        a == b,
        writes_root(a) == writes_root(b),
{
    assert forall|k: Seq<u8>| a.contains_key(k) == b.contains_key(k) by {
        if a.contains_key(k) {
            let key = choose|key: SubstateKey| #[trigger]
                writes.contains_key(key) && key.owner@ == k;
            assert(writes.contains_key(key));
        }
        if b.contains_key(k) {
            let key = choose|key: SubstateKey| #[trigger]
                writes.contains_key(key) && key.owner@ == k;
            assert(writes.contains_key(key));
        }
    }
    assert forall|k: Seq<u8>| a.contains_key(k) implies a[k] == b[k] by {
        let key = choose|key: SubstateKey| #[trigger] writes.contains_key(key) && key.owner@ == k;
        assert(writes.contains_key(key));
        assert(a[k].contains_key(VM_PARTITION) && b[k].contains_key(VM_PARTITION));
        let x = a[k][VM_PARTITION];
        let y = b[k][VM_PARTITION];
        assert forall|l: Seq<u8>| x.1.contains_key(l) == y.1.contains_key(l) by {
            if x.1.contains_key(l) {
                assert(a[k][VM_PARTITION].1.contains_key(l));
                let c = choose|c: SubstateKey| #[trigger]
                    writes.contains_key(c) && c.owner@ == k && c.local@ == l;
                assert(writes.contains_key(c));
            }
            if y.1.contains_key(l) {
                assert(b[k][VM_PARTITION].1.contains_key(l));
                let c = choose|c: SubstateKey| #[trigger]
                    writes.contains_key(c) && c.owner@ == k && c.local@ == l;
                assert(writes.contains_key(c));
            }
        }
        assert forall|l: Seq<u8>| x.1.contains_key(l) implies x.1[l] == y.1[l] by {
            assert(a[k][VM_PARTITION].1.contains_key(l));
            let c = choose|c: SubstateKey| #[trigger]
                writes.contains_key(c) && c.owner@ == k && c.local@ == l;
            assert(writes.contains_key(c));
        }
        assert(x.1 =~= y.1);
        assert(!x.0 && !y.0);
        assert(x == y);
        assert forall|p: u8| a[k].contains_key(p) == b[k].contains_key(p) by {}
        assert(a[k] =~= b[k]);
    }
    assert(a =~= b);
}

} // verus!

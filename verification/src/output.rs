//! Assembling per-module significant cores into per-node output rows.
//!
//! The result file lists one row per node: the module number the node has at
//! each hierarchy level, each number followed by `:` when the node is in
//! that level's significant core and by `;` when it is not (a trailing `:`
//! is dropped), then a space and the node identifier.
//!
//! Rows are assembled here; writing them anywhere is the caller's business.
//! Rows are ordered by top-level module number and then by node, and a
//! node's entries by level; where two modules of one network share a level
//! and a node, the later module's entry wins.

use vstd::prelude::*;

use crate::clustering::{node_le, sort_nodes};
use crate::network::{module_model, Module, ModuleModel};
use crate::scorer::set_to_vec;
use crate::NodeId;
use std::collections::HashSet;

verus! {

broadcast use {
    vstd::std_specs::hash::group_hash_axioms,
    vstd::set::group_set_axioms,
    vstd::seq_lib::group_seq_lib_default,
    vstd::seq_lib::group_seq_properties,
};

/// One level of one node's row: the hierarchy level, the module number
/// there, and whether the node is in that module's significant core.
pub type RowEntry = (u8, u32, bool);

/// One output row: a node and its per-level entries.
pub struct NodeRow {
    /// The node the row describes.
    pub node: NodeId,
    /// The node's entries, one per hierarchy level that assigns it a module,
    /// in ascending level order.
    pub entries: Vec<RowEntry>,
}

/// The models of the modules.
pub open spec fn module_models(modules: Seq<Module>) -> Seq<ModuleModel> {
    modules.map_values(|m: Module| module_model(m))
}

/// The views of the significant cores.
pub open spec fn core_views(cores: Seq<HashSet<NodeId>>) -> Seq<Set<u32>> {
    cores.map_values(|c: HashSet<NodeId>| c@)
}

/// The nodes the first `upto` modules hold, together.
pub open spec fn union_nodes(ms: Seq<ModuleModel>, upto: int) -> Set<u32>
    decreases upto,
{
    if upto <= 0 {
        Set::empty()
    } else {
        union_nodes(ms, upto - 1).union(ms[upto - 1].nodes)
    }
}

/// Whether the entry restates some module that holds the node: its level,
/// its number, and whether the node is in its significant core.
pub open spec fn entry_sound(
    e: RowEntry,
    node: u32,
    ms: Seq<ModuleModel>,
    cores: Seq<Set<u32>>,
) -> bool {
    exists|m: int|
        {
            &&& 0 <= m < ms.len()
            &&& (#[trigger] ms[m]).nodes.contains(node)
            &&& ms[m].level == e.0
            &&& ms[m].module == e.1
            &&& e.2 == cores[m].contains(node)
        }
}

/// Whether some entry of the row sits at the level.
pub open spec fn level_present(row: Seq<RowEntry>, lvl: u8) -> bool {
    exists|a: int| 0 <= a < row.len() && (#[trigger] row[a]).0 == lvl
}

/// Whether `row` is a sound and complete account of `node` against the
/// modules and their significant cores: entries strictly ascend by level,
/// each entry restates some module that holds the node, and every module
/// holding the node has its level in the row.
pub open spec fn row_wf(
    node: u32,
    row: Seq<RowEntry>,
    ms: Seq<ModuleModel>,
    cores: Seq<Set<u32>>,
) -> bool {
    &&& forall|a: int, b: int|
        0 <= a < b < row.len() ==> (#[trigger] row[a]).0 < (#[trigger] row[b]).0
    &&& forall|a: int| 0 <= a < row.len() ==> entry_sound(#[trigger] row[a], node, ms, cores)
    &&& forall|m: int|
        0 <= m < ms.len() && (#[trigger] ms[m]).nodes.contains(node) ==> level_present(
            row,
            ms[m].level,
        )
}

/// The order of the output rows: by top-level module number, then by node.
pub open spec fn row_key_le(a: (u32, u32), b: (u32, u32)) -> bool {
    a.0 < b.0 || (a.0 == b.0 && a.1 <= b.1)
}

/// The sort key of a row: its first entry's module number, and its node.
pub open spec fn spec_row_key(node: u32, row: Seq<RowEntry>) -> (u32, u32) {
    (
        if row.len() > 0 {
            row[0].1
        } else {
            0
        },
        node,
    )
}

/// The row of one node: one entry per level any module gives the node, a
/// later module overriding an earlier one of the same level.
fn build_row(node: NodeId, modules: &Vec<Module>, cores: &Vec<HashSet<NodeId>>) -> (row: Vec<
    RowEntry,
>)
    requires
        cores@.len() == modules@.len(),
    ensures
        row_wf(node, row@, module_models(modules@), core_views(cores@)),
{
    let ghost ms = module_models(modules@);
    let ghost cs = core_views(cores@);
    let mut row: Vec<RowEntry> = Vec::new();
    let n = modules.len();
    for m in 0..n
        invariant
            n == modules@.len(),
            cores@.len() == modules@.len(),
            ms == module_models(modules@),
            cs == core_views(cores@),
            forall|a: int, b: int|
                0 <= a < b < row@.len() ==> (#[trigger] row@[a]).0 < (#[trigger] row@[b]).0,
            forall|a: int| 0 <= a < row@.len() ==> entry_sound(#[trigger] row@[a], node, ms, cs),
            forall|mm: int|
                0 <= mm < m && (#[trigger] ms[mm]).nodes.contains(node) ==> level_present(
                    row@,
                    ms[mm].level,
                ),
    {
        let holds = modules[m].nodes.contains(&node);
        proof {
            assert(ms[m as int].nodes == modules@[m as int].nodes@);
            assert(cs[m as int] == cores@[m as int]@);
        }
        if holds {
            let level = modules[m].level;
            let number = modules[m].module;
            let sig = cores[m].contains(&node);
            let entry: RowEntry = (level, number, sig);
            proof {
                assert(entry_sound(entry, node, ms, cs)) by {
                    assert(ms[m as int].nodes.contains(node) && ms[m as int].level == entry.0
                        && ms[m as int].module == entry.1 && entry.2 == cs[m as int].contains(
                        node,
                    ));
                }
            }
            // find the first position whose level is not below this one
            let mut pos: usize = 0;
            while pos < row.len() && row[pos].0 < level
                invariant
                    pos <= row@.len(),
                    forall|k: int| 0 <= k < pos ==> (#[trigger] row@[k]).0 < level,
                    forall|a: int, b: int|
                        0 <= a < b < row@.len() ==> (#[trigger] row@[a]).0 < (
                        #[trigger] row@[b]).0,
                decreases row@.len() - pos,
            {
                pos = pos + 1;
            }
            let ghost old_row = row@;
            if pos < row.len() && row[pos].0 == level {
                // a later module overrides an earlier one of the same level
                row.set(pos, entry);
                proof {
                    assert forall|a: int|
                        0 <= a < row@.len() implies entry_sound(
                        #[trigger] row@[a],
                        node,
                        ms,
                        cs,
                    ) by {
                        if a != pos {
                            assert(row@[a] == old_row[a]);
                        }
                    }
                    assert forall|lvl: u8| level_present(old_row, lvl) implies level_present(
                        row@,
                        lvl,
                    ) by {
                        let a0 = choose|a0: int|
                            0 <= a0 < old_row.len() && (#[trigger] old_row[a0]).0 == lvl;
                        if a0 == pos {
                            assert(row@[pos as int].0 == lvl);
                        } else {
                            assert(row@[a0].0 == lvl);
                        }
                    }
                    assert(level_present(row@, level)) by {
                        assert(row@[pos as int].0 == level);
                    }
                }
            } else {
                row.insert(pos, entry);
                proof {
                    old_row.insert_ensures(pos as int, entry);
                    assert forall|a: int, b: int| 0 <= a < b < row@.len() implies (
                    #[trigger] row@[a]).0 < (#[trigger] row@[b]).0 by {
                        if a < pos && b == pos {
                        } else if a == pos && b > pos {
                            assert(row@[b] == old_row[b - 1]);
                            if pos < b - 1 {
                                assert(old_row[pos as int].0 < old_row[b - 1].0);
                            }
                        } else if a < pos && b > pos {
                            assert(row@[a] == old_row[a] && row@[b] == old_row[b - 1]);
                        } else if b < pos {
                            assert(row@[a] == old_row[a] && row@[b] == old_row[b]);
                        } else if a > pos {
                            assert(row@[a] == old_row[a - 1] && row@[b] == old_row[b - 1]);
                        }
                    }
                    assert forall|a: int|
                        0 <= a < row@.len() implies entry_sound(
                        #[trigger] row@[a],
                        node,
                        ms,
                        cs,
                    ) by {
                        if a < pos {
                            assert(row@[a] == old_row[a]);
                        } else if a > pos {
                            assert(row@[a] == old_row[a - 1]);
                        }
                    }
                    assert forall|lvl: u8| level_present(old_row, lvl) implies level_present(
                        row@,
                        lvl,
                    ) by {
                        let a0 = choose|a0: int|
                            0 <= a0 < old_row.len() && (#[trigger] old_row[a0]).0 == lvl;
                        if a0 < pos {
                            assert(row@[a0].0 == lvl);
                        } else {
                            assert(row@[a0 + 1].0 == lvl);
                        }
                    }
                    assert(level_present(row@, level)) by {
                        assert(row@[pos as int].0 == level);
                    }
                }
            }
        }
    }
    row
}

/// All nodes any module holds, each once, ascending.
fn all_nodes(modules: &Vec<Module>) -> (r: Vec<NodeId>)
    ensures
        r@.no_duplicates(),
        forall|a: int, b: int| 0 <= a < b < r@.len() ==> r@[a] < r@[b],
        r@.to_set() == union_nodes(
            module_models(modules@),
            module_models(modules@).len() as int,
        ),
{
    let ghost ms = module_models(modules@);
    let mut seen: HashSet<NodeId> = HashSet::new();
    let mut pool: Vec<NodeId> = Vec::new();
    let n = modules.len();
    proof {
        assert(pool@.to_set() =~= union_nodes(ms, 0));
    }
    for m in 0..n
        invariant
            n == modules@.len(),
            ms == module_models(modules@),
            pool@.no_duplicates(),
            seen@ == pool@.to_set(),
            pool@.to_set() == union_nodes(ms, m as int),
    {
        let nv = set_to_vec(&modules[m].nodes);
        proof {
            assert(modules@[m as int].nodes@ == ms[m as int].nodes);
            assert(nv@.take(0) =~= Seq::<u32>::empty());
            assert(nv@.take(0).to_set() =~= Set::<u32>::empty());
        }
        let k = nv.len();
        let ghost pool0 = pool@;
        proof {
            assert(pool@.to_set() =~= pool0.to_set().union(nv@.take(0).to_set()));
        }
        for t in 0..k
            invariant
                k == nv@.len(),
                nv@.to_set() == ms[m as int].nodes,
                m < ms.len(),
                pool@.no_duplicates(),
                seen@ == pool@.to_set(),
                pool@.to_set() == pool0.to_set().union(nv@.take(t as int).to_set()),
        {
            let x = nv[t];
            proof {
                assert(nv@.take(t as int + 1) =~= nv@.take(t as int).push(nv@[t as int]));
                assert(nv@.take(t as int + 1).to_set() =~= nv@.take(t as int).to_set().insert(
                    x,
                ));
            }
            if !seen.contains(&x) {
                seen.insert(x);
                let ghost before = pool@;
                pool.push(x);
                proof {
                    assert(pool@ == before.push(x));
                    assert(pool@.to_set() =~= before.to_set().insert(x));
                    assert(pool@.to_set() =~= pool0.to_set().union(
                        nv@.take(t as int + 1).to_set(),
                    ));
                }
            } else {
                proof {
                    assert(pool@.to_set().contains(x));
                    assert(pool@.to_set() =~= pool0.to_set().union(
                        nv@.take(t as int + 1).to_set(),
                    ));
                }
            }
        }
        proof {
            assert(nv@.take(k as int) =~= nv@);
            assert(pool@.to_set() =~= union_nodes(ms, m as int + 1));
        }
    }
    let sorted = sort_nodes(pool);
    proof {
        broadcast use vstd::seq_lib::group_to_multiset_ensures;

        pool@.lemma_multiset_has_no_duplicates();
        sorted@.lemma_multiset_has_no_duplicates_conv();
        assert forall|x: u32| #[trigger] sorted@.contains(x) <==> pool@.contains(x) by {
            assert(sorted@.contains(x) <==> sorted@.to_multiset().count(x) > 0);
            assert(pool@.contains(x) <==> pool@.to_multiset().count(x) > 0);
        }
        assert(sorted@.to_set() =~= pool@.to_set());
        assert forall|a: int, b: int| 0 <= a < b < sorted@.len() implies sorted@[a]
            < sorted@[b] by {
            assert(node_le()(sorted@[a], sorted@[b]));
        }
    }
    sorted
}

/// The per-node significance rows of a network's modules against their
/// significant cores (`cores[m]` belongs to `modules[m]`): one sound and
/// complete row per node that any module holds, ordered by top-level module
/// number and then by node.
#[verifier::rlimit(100)]
pub fn collect_node_rows(modules: &Vec<Module>, cores: &Vec<HashSet<NodeId>>) -> (r: Vec<NodeRow>)
    requires
        cores@.len() == modules@.len(),
    ensures
        forall|i: int|
            0 <= i < r@.len() ==> row_wf(
                (#[trigger] r@[i]).node,
                r@[i].entries@,
                module_models(modules@),
                core_views(cores@),
            ),
        forall|i: int, j: int| 0 <= i < j < r@.len() ==> r@[i].node != r@[j].node,
        forall|i: int, j: int|
            0 <= i < j < r@.len() ==> row_key_le(
                spec_row_key(r@[i].node, r@[i].entries@),
                spec_row_key(r@[j].node, r@[j].entries@),
            ),
        forall|i: int|
            0 <= i < r@.len() ==> union_nodes(
                module_models(modules@),
                module_models(modules@).len() as int,
            ).contains((#[trigger] r@[i]).node),
        forall|x: u32|
            #![trigger union_nodes(module_models(modules@), module_models(modules@).len() as int).contains(x)]
            union_nodes(module_models(modules@), module_models(modules@).len() as int).contains(
                x,
            ) ==> exists|i: int| 0 <= i < r@.len() && (#[trigger] r@[i]).node == x,
{
    let ghost ms = module_models(modules@);
    let ghost cs = core_views(cores@);
    let ghost pool = union_nodes(ms, ms.len() as int);
    let nodes = all_nodes(modules);
    let mut out: Vec<NodeRow> = Vec::new();
    let n = nodes.len();
    proof {
        assert(nodes@.take(0) =~= Seq::<u32>::empty());
    }
    let mut t: usize = 0;
    while t < n
        invariant
            t <= n,
            n == nodes@.len(),
            ms == module_models(modules@),
            cs == core_views(cores@),
            cores@.len() == modules@.len(),
            nodes@.no_duplicates(),
            nodes@.to_set() == pool,
            pool == union_nodes(ms, ms.len() as int),
            out@.len() == t,
            forall|i: int|
                0 <= i < out@.len() ==> row_wf(
                    (#[trigger] out@[i]).node,
                    out@[i].entries@,
                    ms,
                    cs,
                ),
            forall|i: int|
                0 <= i < out@.len() ==> nodes@.take(t as int).contains(
                    (#[trigger] out@[i]).node,
                ),
            forall|j: int|
                0 <= j < t ==> exists|i: int|
                    0 <= i < out@.len() && (#[trigger] nodes@[j]) == out@[i].node,
            forall|i: int, j: int| 0 <= i < j < out@.len() ==> out@[i].node != out@[j].node,
            forall|i: int, j: int|
                0 <= i < j < out@.len() ==> row_key_le(
                    spec_row_key((#[trigger] out@[i]).node, out@[i].entries@),
                    spec_row_key((#[trigger] out@[j]).node, out@[j].entries@),
                ),
        decreases n - t,
    {
        let node = nodes[t];
        let entries = build_row(node, modules, cores);
        let key_top = if entries.len() > 0 {
            entries[0].1
        } else {
            0
        };
        let mut pos: usize = 0;
        while pos < out.len() && key_at_most(&out[pos], key_top, node)
            invariant
                pos <= out@.len(),
                forall|k: int|
                    0 <= k < pos ==> row_key_le(
                        spec_row_key((#[trigger] out@[k]).node, out@[k].entries@),
                        (key_top, node),
                    ),
            decreases out@.len() - pos,
        {
            pos = pos + 1;
        }
        let ghost old_out = out@;
        out.insert(pos, NodeRow { node, entries });
        proof {
            old_out.insert_ensures(pos as int, out@[pos as int]);
            assert(out@[pos as int].node == node);
            assert((key_top, node) == spec_row_key(
                out@[pos as int].node,
                out@[pos as int].entries@,
            ));
            assert(nodes@.take(t as int + 1) =~= nodes@.take(t as int).push(nodes@[t as int]));
            assert forall|i: int, j: int| 0 <= i < j < out@.len() implies row_key_le(
                spec_row_key((#[trigger] out@[i]).node, out@[i].entries@),
                spec_row_key((#[trigger] out@[j]).node, out@[j].entries@),
            ) by {
                lemma_row_insert_order(old_out, out@, pos as int, (key_top, node), i, j);
            }
            // the inserted node is fresh: nothing in the old rows carries it
            assert forall|k: int| 0 <= k < old_out.len() implies (#[trigger] old_out[k]).node
                != node by {
                if old_out[k].node == node {
                    assert(nodes@.take(t as int).contains(node));
                    let w = choose|w: int|
                        0 <= w < t && #[trigger] nodes@.take(t as int)[w] == node;
                    assert(nodes@[w] == nodes@[t as int]);
                }
            }
            assert forall|i: int, j: int| 0 <= i < j < out@.len() implies out@[i].node
                != out@[j].node by {
                if i != pos && j != pos {
                    let oi = if i < pos {
                        i
                    } else {
                        i - 1
                    };
                    let oj = if j < pos {
                        j
                    } else {
                        j - 1
                    };
                    assert(out@[i].node == old_out[oi].node);
                    assert(out@[j].node == old_out[oj].node);
                }
            }
            assert forall|j: int|
                0 <= j < t + 1 implies exists|i: int|
                0 <= i < out@.len() && (#[trigger] nodes@[j]) == out@[i].node by {
                if j == t {
                    assert(nodes@[j] == out@[pos as int].node);
                } else {
                    let i0 = choose|i0: int|
                        0 <= i0 < old_out.len() && nodes@[j] == (#[trigger] old_out[i0]).node;
                    if i0 < pos {
                        assert(out@[i0].node == old_out[i0].node);
                    } else {
                        assert(out@[i0 + 1].node == old_out[i0].node);
                    }
                }
            }
            assert forall|i: int|
                0 <= i < out@.len() implies nodes@.take(t as int + 1).contains(
                (#[trigger] out@[i]).node) by {
                if i != pos {
                    let oi = if i < pos {
                        i
                    } else {
                        i - 1
                    };
                    assert(out@[i].node == old_out[oi].node);
                    assert(nodes@.take(t as int).contains(old_out[oi].node));
                } else {
                    assert(nodes@.take(t as int + 1)[t as int] == node);
                }
            }
        }
        t = t + 1;
    }
    proof {
        assert(nodes@.take(n as int) =~= nodes@);
        assert forall|i: int| 0 <= i < out@.len() implies pool.contains(
            (#[trigger] out@[i]).node) by {
            assert(nodes@.contains(out@[i].node));
            assert(nodes@.to_set().contains(out@[i].node));
        }
        assert forall|x: u32| pool.contains(x) implies exists|i: int|
            0 <= i < out@.len() && (#[trigger] out@[i]).node == x by {
            assert(nodes@.to_set().contains(x));
            assert(nodes@.contains(x));
            let j = choose|j: int| 0 <= j < nodes@.len() && #[trigger] nodes@[j] == x;
            assert(exists|i: int|
                0 <= i < out@.len() && (#[trigger] nodes@[j]) == out@[i].node);
        }
    }
    out
}

/// The decimal digits of `x`.
pub open spec fn dec_of(x: nat) -> Seq<u8>
    decreases x,
{
    if x < 10 {
        seq![(48 + x) as u8]
    } else {
        dec_of(x / 10).push((48 + x % 10) as u8)
    }
}

/// Writes `x` in decimal.
pub fn u32_to_dec(x: u32) -> (r: Vec<u8>)
    ensures
        r@ == dec_of(x as nat),
    decreases x,
{
    if x < 10 {
        let mut r: Vec<u8> = Vec::new();
        r.push(48 + x as u8);
        proof {
            assert(r@ =~= dec_of(x as nat));
        }
        r
    } else {
        let mut r = u32_to_dec(x / 10);
        r.push(48 + (x % 10) as u8);
        r
    }
}

/// The text of the first `upto` entries of a row: each module number,
/// followed by `:` where the node is significant and `;` where it is not.
pub open spec fn spec_path_text(row: Seq<RowEntry>, upto: int) -> Seq<u8>
    decreases upto,
{
    if upto <= 0 {
        Seq::empty()
    } else {
        spec_path_text(row, upto - 1) + dec_of(row[upto - 1].1 as nat) + seq![
            if row[upto - 1].2 {
                58u8
            } else {
                59u8
            },
        ]
    }
}

/// The text of one row: the per-level path (a trailing `:` dropped), a
/// space, the node, and a line feed.
pub open spec fn spec_row_line(node: u32, row: Seq<RowEntry>) -> Seq<u8> {
    let path = spec_path_text(row, row.len() as int);
    let trimmed = if path.len() > 0 && path.last() == 58 {
        path.drop_last()
    } else {
        path
    };
    trimmed + seq![32u8] + dec_of(node as nat) + seq![10u8]
}

/// The text of the first `upto` rows.
pub open spec fn spec_rows_text(rows: Seq<NodeRow>, upto: int) -> Seq<u8>
    decreases upto,
{
    if upto <= 0 {
        Seq::empty()
    } else {
        spec_rows_text(rows, upto - 1) + spec_row_line(rows[upto - 1].node, rows[upto - 1].entries@)
    }
}

/// Lays the rows out as the result text, line by line.
pub fn format_rows(rows: &Vec<NodeRow>) -> (out: Vec<u8>)
    ensures
        out@ == spec_rows_text(rows@, rows@.len() as int),
{
    let mut out: Vec<u8> = Vec::new();
    let n = rows.len();
    proof {
        assert(out@ =~= spec_rows_text(rows@, 0));
    }
    for i in 0..n
        invariant
            n == rows@.len(),
            out@ == spec_rows_text(rows@, i as int),
    {
        let row = &rows[i];
        let mut path: Vec<u8> = Vec::new();
        let k = row.entries.len();
        proof {
            assert(path@ =~= spec_path_text(row.entries@, 0));
        }
        for e in 0..k
            invariant
                k == row.entries@.len(),
                rows@[i as int].entries@ == row.entries@,
                path@ == spec_path_text(row.entries@, e as int),
        {
            let mut digits = u32_to_dec(row.entries[e].1);
            path.append(&mut digits);
            if row.entries[e].2 {
                path.push(58);
            } else {
                path.push(59);
            }
            proof {
                assert(path@ =~= spec_path_text(row.entries@, e as int + 1));
            }
        }
        if path.len() > 0 && path[path.len() - 1] == 58 {
            path.pop();
        }
        let ghost trimmed = path@;
        out.append(&mut path);
        out.push(32);
        let mut nd = u32_to_dec(row.node);
        out.append(&mut nd);
        out.push(10);
        proof {
            assert(out@ =~= spec_rows_text(rows@, i as int) + trimmed + seq![32u8] + dec_of(
                row.node as nat,
            ) + seq![10u8]);
            assert(out@ =~= spec_rows_text(rows@, i as int + 1));
        }
    }
    out
}

/// Whether the row's key is at most `(top, node)`.
fn key_at_most(c: &NodeRow, top: u32, node: u32) -> (r: bool)
    ensures
        r == row_key_le(spec_row_key(c.node, c.entries@), (top, node)),
{
    let ct = if c.entries.len() > 0 {
        c.entries[0].1
    } else {
        0
    };
    ct < top || (ct == top && c.node <= node)
}

/// An insertion below everything not yet ordered keeps the order.
#[verifier::rlimit(60)]
proof fn lemma_row_insert_order(
    old_out: Seq<NodeRow>,
    new_out: Seq<NodeRow>,
    pos: int,
    key: (u32, u32),
    i: int,
    j: int,
)
    requires
        0 <= pos <= old_out.len(),
        new_out == old_out.insert(pos, new_out[pos]),
        new_out.len() == old_out.len() + 1,
        0 <= i < j < new_out.len(),
        spec_row_key(new_out[pos].node, new_out[pos].entries@) == key,
        forall|k: int|
            0 <= k < pos ==> row_key_le(
                spec_row_key((#[trigger] old_out[k]).node, old_out[k].entries@),
                key,
            ),
        pos < old_out.len() ==> !row_key_le(
            spec_row_key(old_out[pos].node, old_out[pos].entries@),
            key,
        ),
        forall|a: int, b: int|
            0 <= a < b < old_out.len() ==> row_key_le(
                spec_row_key((#[trigger] old_out[a]).node, old_out[a].entries@),
                spec_row_key((#[trigger] old_out[b]).node, old_out[b].entries@),
            ),
    ensures
        row_key_le(
            spec_row_key(new_out[i].node, new_out[i].entries@),
            spec_row_key(new_out[j].node, new_out[j].entries@),
        ),
{
    old_out.insert_ensures(pos, new_out[pos]);
    if j < pos {
        assert(new_out[i] == old_out[i] && new_out[j] == old_out[j]);
    } else if j == pos {
        assert(new_out[i] == old_out[i]);
    } else if i == pos {
        assert(new_out[j] == old_out[j - 1]);
        let kj = spec_row_key(old_out[j - 1].node, old_out[j - 1].entries@);
        assert(!row_key_le(spec_row_key(old_out[pos].node, old_out[pos].entries@), key));
        if pos < j - 1 {
            assert(row_key_le(spec_row_key(old_out[pos].node, old_out[pos].entries@), kj));
        }
    } else if i < pos {
        assert(new_out[i] == old_out[i] && new_out[j] == old_out[j - 1]);
        if i < j - 1 {
        } else {
            assert(false);
        }
    } else {
        assert(new_out[i] == old_out[i - 1] && new_out[j] == old_out[j - 1]);
    }
}

} // verus!

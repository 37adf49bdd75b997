//! Networks as hierarchies of named modules.
//!
//! A module is named by its colon-separated path (such as `1:2:3`); it keeps
//! the path, the number of its last component, its hierarchy level, and the
//! set of nodes assigned to it. A network holds its modules in first-seen
//! order, one entry per distinct path.

use vstd::prelude::*;

use crate::parse::{
    parse_u32, path_prefixes, spec_cols, spec_lines, spec_parse_u32, spec_path_prefixes,
    split_columns, split_lines, views_of_bytes,
};
use crate::NodeId;
use std::collections::HashSet;

verus! {

use vstd::string::StringSliceAdditionalSpecFns;

broadcast use {
    vstd::std_specs::hash::group_hash_axioms,
    vstd::set::group_set_axioms,
    vstd::seq_lib::group_seq_lib_default,
};

/// The mathematical content of a [`Module`].
pub ghost struct ModuleModel {
    /// The colon-separated path naming the module.
    pub id: Seq<u8>,
    /// The number of the path's last component.
    pub module: u32,
    /// The hierarchy level: how many components the path has.
    pub level: u8,
    /// The nodes assigned to the module.
    pub nodes: Set<u32>,
}

/// A module of a partition: a named set of nodes at one hierarchy level.
pub struct Module {
    /// The colon-separated path naming the module.
    pub module_id: Vec<u8>,
    /// The number of the path's last component, or zero if it is not one.
    pub module: u32,
    /// The hierarchy level: how many components the path has.
    pub level: u8,
    /// The nodes assigned to the module.
    pub nodes: HashSet<NodeId>,
}

/// The content of a module.
pub open spec fn module_model(m: Module) -> ModuleModel {
    ModuleModel { id: m.module_id@, module: m.module, level: m.level, nodes: m.nodes@ }
}

/// A network: the modules of one partition, in first-seen order.
pub struct Network {
    /// The modules, one entry per distinct path.
    pub modules: Vec<Module>,
}

/// The content of a network.
pub open spec fn network_model(n: Network) -> Seq<ModuleModel> {
    n.modules@.map_values(|m: Module| module_model(m))
}

/// How many colons a path holds.
pub open spec fn colon_count(s: Seq<u8>) -> int
    decreases s.len(),
{
    if s.len() == 0 {
        0
    } else {
        colon_count(s.drop_last()) + if s.last() == 58 {
            1int
        } else {
            0int
        }
    }
}

/// The hierarchy level a path names: its component count, reduced as a cast
/// to `u8` reduces it.
pub open spec fn spec_level(id: Seq<u8>) -> u8 {
    (((colon_count(id) + 1) % 256) as u8)
}

/// The last component of a path.
pub open spec fn spec_last_component(s: Seq<u8>) -> Seq<u8>
    decreases s.len(),
{
    if s.len() == 0 {
        s
    } else if s.last() == 58 {
        Seq::empty()
    } else {
        spec_last_component(s.drop_last()).push(s.last())
    }
}

/// The module number a path names: its last component read as a decimal
/// `u32`, or zero when it is not one.
pub open spec fn spec_module_number(id: Seq<u8>) -> u32 {
    match spec_parse_u32(spec_last_component(id)) {
        Option::Some(v) => v,
        Option::None => 0,
    }
}

/// A fresh module of path `id`: numbered and levelled from the path, with no
/// nodes yet.
pub open spec fn spec_new_module(id: Seq<u8>) -> ModuleModel {
    ModuleModel {
        id,
        module: spec_module_number(id),
        level: spec_level(id),
        nodes: Set::empty(),
    }
}

impl Module {
    /// A fresh module named by the path `id`.
    pub fn new(id: &[u8]) -> (m: Module)
        ensures
            module_model(m) == spec_new_module(id@),
    {
        let n = id.len();
        let mut colons: usize = 0;
        let mut start: usize = 0;
        proof {
            assert(id@.take(0) =~= Seq::<u8>::empty());
        }
        for i in 0..n
            invariant
                n == id@.len(),
                start <= i,
                colons <= i,
                colons == colon_count(id@.take(i as int)),
                spec_last_component(id@.take(i as int)) =~= id@.take(i as int).skip(start as int),
        {
            proof {
                assert(id@.take(i + 1).drop_last() =~= id@.take(i as int));
                assert(id@.take(i + 1).last() == id@[i as int]);
            }
            if id[i] == 58 {
                colons = colons + 1;
                start = i + 1;
                proof {
                    assert(spec_last_component(id@.take(i + 1)) =~= id@.take(i + 1).skip(
                        start as int,
                    ));
                }
            } else {
                proof {
                    assert(id@.take(i + 1).skip(start as int) =~= id@.take(i as int).skip(
                        start as int,
                    ).push(id@[i as int]));
                }
            }
        }
        proof {
            assert(id@.take(n as int) =~= id@);
            assert(spec_last_component(id@) =~= id@.subrange(start as int, n as int));
        }
        let last = crate::parse::sub_slice(id, start, n);
        let module = match parse_u32(last.as_slice()) {
            Option::Some(v) => v,
            Option::None => 0,
        };
        let level = ((colons % 256 + 1) % 256) as u8;
        proof {
            assert((colons % 256 + 1) % 256 == (colons + 1) % 256) by (nonlinear_arith)
                requires
                    colons >= 0,
            ;
        }
        let whole = crate::parse::sub_slice(id, 0, n);
        proof {
            assert(whole@ =~= id@);
        }
        Module { module_id: whole, module, level, nodes: HashSet::new() }
    }
}

/// Whether two byte strings are equal.
pub fn bytes_eq(a: &[u8], b: &[u8]) -> (r: bool)
    ensures
        r == (a@ =~= b@),
{
    if a.len() != b.len() {
        return false;
    }
    let n = a.len();
    for i in 0..n
        invariant
            n == a@.len() == b@.len(),
            forall|k: int| 0 <= k < i ==> a@[k] == b@[k],
    {
        if a[i] != b[i] {
            return false;
        }
    }
    proof {
        assert(a@ =~= b@);
    }
    true
}

/// The position of the module named `id`, or `-1` if the network has none.
pub open spec fn spec_find(ms: Seq<ModuleModel>, id: Seq<u8>) -> int
    decreases ms.len(),
{
    if ms.len() == 0 {
        -1
    } else if ms[0].id == id {
        0
    } else {
        let r = spec_find(ms.drop_first(), id);
        if r < 0 {
            -1
        } else {
            r + 1
        }
    }
}

/// A scan that saw no match below `d` and one at `d` (or ran out) finds the
/// module there.
proof fn lemma_spec_find(ms: Seq<ModuleModel>, id: Seq<u8>, d: int)
    requires
        0 <= d <= ms.len(),
        forall|k: int| 0 <= k < d ==> (#[trigger] ms[k]).id != id,
        d == ms.len() || ms[d].id == id,
    ensures
        spec_find(ms, id) == if d == ms.len() {
            -1int
        } else {
            d
        },
    decreases ms.len(),
{
    if ms.len() == 0 {
    } else if ms[0].id == id {
        assert(d == 0);
    } else {
        assert(d >= 1);
        lemma_spec_find(ms.drop_first(), id, d - 1);
    }
}

/// A network after `node` joins the module named `id`: the node is added to
/// that module's set, and the module is created first if the path is new.
pub open spec fn spec_add_node(ms: Seq<ModuleModel>, id: Seq<u8>, node: u32) -> Seq<ModuleModel> {
    let i = spec_find(ms, id);
    if i < 0 {
        ms.push(
            ModuleModel { nodes: Set::empty().insert(node), ..spec_new_module(id) },
        )
    } else {
        ms.update(i, ModuleModel { nodes: ms[i].nodes.insert(node), ..ms[i] })
    }
}

impl Network {
    /// A network with no modules.
    pub fn new() -> (n: Network)
        ensures
            network_model(n) =~= Seq::<ModuleModel>::empty(),
    {
        Network { modules: Vec::new() }
    }

    /// Adds `node_id` to the module named `module_id`, creating the module if
    /// the network has none of that name.
    pub fn add_node(&mut self, module_id: &[u8], node_id: NodeId)
        ensures
            network_model(*final(self)) == spec_add_node(
                network_model(*old(self)),
                module_id@,
                node_id,
            ),
    {
        let ghost ms = network_model(*old(self));
        let n = self.modules.len();
        let mut i: usize = 0;
        while i < n && !bytes_eq(self.modules[i].module_id.as_slice(), module_id)
            invariant
                n == self.modules@.len(),
                i <= n,
                *self == *old(self),
                ms == network_model(*self),
                forall|k: int| 0 <= k < i ==> (#[trigger] ms[k]).id != module_id@,
            decreases n - i,
        {
            proof {
                assert(ms[i as int].id == self.modules@[i as int].module_id@);
            }
            i = i + 1;
        }
        if i == n {
            proof {
                lemma_spec_find(ms, module_id@, n as int);
            }
            let mut m = Module::new(module_id);
            m.nodes.insert(node_id);
            proof {
                assert(module_model(m).nodes =~= Set::<u32>::empty().insert(node_id));
            }
            self.modules.push(m);
            proof {
                assert(network_model(*self) =~= spec_add_node(ms, module_id@, node_id));
            }
        } else {
            proof {
                assert(ms[i as int].id == self.modules@[i as int].module_id@);
                lemma_spec_find(ms, module_id@, i as int);
            }
            let mut m = self.modules.remove(i);
            m.nodes.insert(node_id);
            let ghost updated = ModuleModel {
                nodes: ms[i as int].nodes.insert(node_id),
                ..ms[i as int]
            };
            proof {
                assert(module_model(m) == updated);
            }
            self.modules.insert(i, m);
            proof {
                assert(network_model(*self) =~= ms.update(i as int, updated));
            }
        }
    }
}

/// Why the input could not be read: a first column that is not a decimal
/// node identifier.
#[derive(Clone, Copy, Debug, PartialEq, Eq, Structural)]
pub struct ParseError;

/// The networks after one column of one input line: column `idx` (counted
/// from zero among the partition columns) assigns the path `col` to `node`,
/// at every hierarchy level of the path.
pub open spec fn spec_apply_levels(
    ms: Seq<ModuleModel>,
    prefixes: Seq<Seq<u8>>,
    node: u32,
) -> Seq<ModuleModel>
    decreases prefixes.len(),
{
    if prefixes.len() == 0 {
        ms
    } else {
        spec_apply_levels(spec_add_node(ms, prefixes[0], node), prefixes.drop_first(), node)
    }
}

/// The networks after the partition columns `cols[from..]` of one line, for
/// the node `node`. A new network appears when a line has more partition
/// columns than any line before it.
pub open spec fn spec_apply_cols(
    nets: Seq<Seq<ModuleModel>>,
    cols: Seq<Seq<u8>>,
    from: int,
    node: u32,
) -> Seq<Seq<ModuleModel>>
    decreases cols.len() - from,
{
    if from < 1 || from >= cols.len() {
        nets
    } else {
        let id = from - 1;
        let grown = if id == nets.len() {
            nets.push(Seq::empty())
        } else {
            nets
        };
        if id < grown.len() {
            let updated = grown.update(
                id,
                spec_apply_levels(grown[id], spec_path_prefixes(cols[from]), node),
            );
            spec_apply_cols(updated, cols, from + 1, node)
        } else {
            spec_apply_cols(grown, cols, from + 1, node)
        }
    }
}

/// The networks after one input line: comment lines and lines with fewer
/// than two columns change nothing; otherwise the first column is the node
/// identifier (`None` when it is not a decimal number) and each further
/// column one partition's module path for it.
pub open spec fn spec_apply_line(nets: Seq<Seq<ModuleModel>>, line: Seq<u8>) -> Option<
    Seq<Seq<ModuleModel>>,
> {
    if line.len() > 0 && line[0] == 35 {
        Option::Some(nets)
    } else {
        let cols = spec_cols(line);
        if cols.len() < 2 {
            Option::Some(nets)
        } else {
            match spec_parse_u32(cols[0]) {
                Option::None => Option::None,
                Option::Some(node) => Option::Some(spec_apply_cols(nets, cols, 1, node)),
            }
        }
    }
}

/// The networks after a run of input lines, or `None` on the first bad node
/// identifier.
pub open spec fn spec_apply_lines(nets: Seq<Seq<ModuleModel>>, lines: Seq<Seq<u8>>) -> Option<
    Seq<Seq<ModuleModel>>,
>
    decreases lines.len(),
{
    if lines.len() == 0 {
        Option::Some(nets)
    } else {
        match spec_apply_line(nets, lines[0]) {
            Option::None => Option::None,
            Option::Some(next) => spec_apply_lines(next, lines.drop_first()),
        }
    }
}

/// What [`read_input`] returns: the networks the whole input describes, one
/// per partition column, or `None` on the first bad node identifier.
pub open spec fn spec_read_input(s: Seq<u8>) -> Option<Seq<Seq<ModuleModel>>> {
    spec_apply_lines(Seq::empty(), spec_lines(s))
}

/// The models of a list of networks.
pub open spec fn network_models(nets: Seq<Network>) -> Seq<Seq<ModuleModel>> {
    nets.map_values(|n: Network| network_model(n))
}

/// Reads the partition file: one line per node, whose first column is the
/// node identifier and whose further columns are module paths, one per
/// partition. Every hierarchy level of a path receives the node. Lines
/// starting with `#` and lines of fewer than two columns are skipped. The
/// first unparsable node identifier stops the read.
pub fn read_input(in_file: &str) -> (r: Result<Vec<Network>, ParseError>)
    ensures
        match r {
            Result::Ok(nets) => spec_read_input(in_file.spec_bytes()) == Option::Some(
                network_models(nets@),
            ),
            Result::Err(_) => spec_read_input(in_file.spec_bytes()) is None,
        },
{
    let bytes = in_file.as_bytes();
    let lines = split_lines(bytes);
    let mut networks: Vec<Network> = Vec::new();
    let ghost all_lines = views_of_bytes(lines@);
    let n_lines = lines.len();
    proof {
        assert(network_models(networks@) =~= Seq::<Seq<ModuleModel>>::empty());
        assert(all_lines.skip(0) =~= all_lines);
    }
    for li in 0..n_lines
        invariant
            n_lines == lines@.len(),
            all_lines == views_of_bytes(lines@),
            all_lines == spec_lines(in_file.spec_bytes()),
            spec_apply_lines(network_models(networks@), all_lines.skip(li as int))
                == spec_read_input(in_file.spec_bytes()),
    {
        let line = &lines[li];
        let ghost line_view = all_lines[li as int];
        let ghost nets0 = network_models(networks@);
        proof {
            assert(line@ == line_view);
            assert(all_lines.skip(li as int).drop_first() =~= all_lines.skip(li as int + 1));
            assert(all_lines.skip(li as int)[0] == line_view);
        }
        if line.len() > 0 && line[0] == 35 {
            // a comment line
        } else {
            let cols = split_columns(line.as_slice());
            proof {
                assert(views_of_bytes(cols@) == spec_cols(line_view));
            }
            if cols.len() < 2 {
                // not enough columns to name a partition
            } else {
                proof {
                    assert(cols@[0]@ == spec_cols(line_view)[0]);
                }
                let node = match parse_u32(cols[0].as_slice()) {
                    Option::Some(v) => v,
                    Option::None => {
                        return Result::Err(ParseError);
                    },
                };
                let n_cols = cols.len();
                let ghost col_views = views_of_bytes(cols@);
                let mut k: usize = 1;
                while k < n_cols
                    invariant
                        1 <= k <= n_cols,
                        n_cols == cols@.len(),
                        col_views == views_of_bytes(cols@),
                        networks@.len() >= k - 1,
                        spec_apply_cols(network_models(networks@), col_views, k as int, node)
                            == spec_apply_cols(nets0, col_views, 1, node),
                    decreases n_cols - k,
                {
                    let network_id = k - 1;
                    let ghost pre = network_models(networks@);
                    if network_id == networks.len() {
                        networks.push(Network::new());
                        proof {
                            assert(network_models(networks@) =~= pre.push(
                                Seq::<ModuleModel>::empty(),
                            ));
                        }
                    }
                    let ghost grown = network_models(networks@);
                    let prefixes = path_prefixes(cols[k].as_slice());
                    let n_pref = prefixes.len();
                    let ghost pref_views = views_of_bytes(prefixes@);
                    proof {
                        assert(pref_views == spec_path_prefixes(col_views[k as int])) by {
                            assert(cols@[k as int]@ == col_views[k as int]);
                        }
                    }
                    let mut net = networks.remove(network_id);
                    let mut p: usize = 0;
                    proof {
                        assert(pref_views.skip(0) =~= pref_views);
                    }
                    while p < n_pref
                        invariant
                            p <= n_pref,
                            n_pref == prefixes@.len(),
                            pref_views == views_of_bytes(prefixes@),
                            spec_apply_levels(
                                network_model(net),
                                pref_views.skip(p as int),
                                node,
                            ) == spec_apply_levels(grown[network_id as int], pref_views, node),
                            network_id < grown.len(),
                        decreases n_pref - p,
                    {
                        proof {
                            assert(prefixes@[p as int]@ == pref_views[p as int]);
                            assert(pref_views.skip(p as int).drop_first() =~= pref_views.skip(
                                p as int + 1,
                            ));
                            assert(pref_views.skip(p as int)[0] == pref_views[p as int]);
                        }
                        net.add_node(prefixes[p].as_slice(), node);
                        p = p + 1;
                    }
                    proof {
                        assert(pref_views.skip(n_pref as int) =~= Seq::<Seq<u8>>::empty());
                    }
                    networks.insert(network_id, net);
                    proof {
                        assert(network_models(networks@) =~= grown.update(
                            network_id as int,
                            network_model(net),
                        ));
                    }
                    k = k + 1;
                }
                proof {
                    assert(spec_apply_cols(
                        network_models(networks@),
                        col_views,
                        n_cols as int,
                        node,
                    ) == network_models(networks@));
                }
            }
        }
    }
    proof {
        assert(all_lines.skip(n_lines as int) =~= Seq::<Seq<u8>>::empty());
    }
    Result::Ok(networks)
}

} // verus!

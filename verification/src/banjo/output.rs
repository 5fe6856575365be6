use vstd::prelude::*;

use crate::banjo::error::{fails_at_node, BanjoError, NodeId, Result};
use crate::banjo::value::Value;
use crate::parser::same_text;

verus! {

/// The errors of a run: the error of each node that failed, and the errors that
/// belong to no node.
#[derive(Debug)]
pub struct OutputErrors {
    /// Each node at most once; a later error of a node replaces the earlier one.
    pub node_errors: Vec<(NodeId, String)>,
    pub additional_errors: Vec<String>,
}

/// The node ids of a list of node errors are distinct.
pub open spec fn distinct_nodes(errors: Seq<(NodeId, String)>) -> bool {
    forall|i: int, j: int| 0 <= i < j < errors.len() ==> errors[i].0@ != errors[j].0@
}

/// The map from node id to error message that a list of node errors stands for.
pub open spec fn errors_map(errors: Seq<(NodeId, String)>) -> Map<Seq<char>, Seq<char>>
    decreases errors.len(),
{
    if errors.len() == 0 {
        Map::empty()
    } else {
        errors_map(errors.drop_last()).insert(errors.last().0@, errors.last().1@)
    }
}

pub proof fn lemma_errors_map_keys(errors: Seq<(NodeId, String)>, k: Seq<char>)
    ensures
        errors_map(errors).contains_key(k) <==> exists|i: int| 0 <= i < errors.len() && #[trigger] errors[i].0@ == k,
        forall|i: int| 0 <= i < errors.len() && errors[i].0@ == k && (forall|j: int| i < j < errors.len() ==> errors[j].0@ != k)
            ==> errors_map(errors)[k] == #[trigger] errors[i].1@,
    decreases errors.len(),
{
    if errors.len() > 0 {
        let init = errors.drop_last();
        lemma_errors_map_keys(init, k);
        if errors_map(errors).contains_key(k) && errors.last().0@ != k {
            let i = choose|i: int| 0 <= i < init.len() && #[trigger] init[i].0@ == k;
            assert(errors[i].0@ == k);
        }
        if exists|i: int| 0 <= i < errors.len() && #[trigger] errors[i].0@ == k {
            let i = choose|i: int| 0 <= i < errors.len() && #[trigger] errors[i].0@ == k;
            if i < init.len() {
                assert(init[i].0@ == k);
            }
        }
        assert forall|i: int| 0 <= i < errors.len() && errors[i].0@ == k && (forall|j: int| i < j < errors.len() ==> errors[j].0@ != k)
            implies errors_map(errors)[k] == #[trigger] errors[i].1@ by {
            if i < init.len() {
                assert(init[i].0@ == k);
                assert forall|j: int| i < j < init.len() implies init[j].0@ != k by {
                    assert(init[j] == errors[j]);
                }
            }
        }
    }
}

impl OutputErrors {
    /// The invariant: each node has at most one error.
    pub open spec fn wf(&self) -> bool {
        distinct_nodes(self.node_errors@)
    }

    /// The error message of each node that failed.
    pub open spec fn node_errors_map(&self) -> Map<Seq<char>, Seq<char>> {
        errors_map(self.node_errors@)
    }

    /// The error messages that belong to no node, in order.
    pub open spec fn additional_view(&self) -> Seq<Seq<char>> {
        self.additional_errors@.map_values(|s: String| s@)
    }

    /// Records `error`: a node error against its node, any other error in order.
    pub fn add(&mut self, error: BanjoError)
        requires
            old(self).wf(),
        ensures
            final(self).wf(),
            match error {
                BanjoError::Compile(s) | BanjoError::Runtime(s) => {
                    &&& final(self).node_errors_map() == old(self).node_errors_map()
                    &&& final(self).additional_view() == old(self).additional_view().push(s@)
                },
                BanjoError::Node((n, s)) => {
                    &&& final(self).node_errors_map() == old(self).node_errors_map().insert(n@, s@)
                    &&& final(self).additional_view() == old(self).additional_view()
                },
            },
    {
        match error {
            BanjoError::Compile(s) => {
                let ghost before = self.additional_view();
                self.additional_errors.push(s);
                proof {
                    assert(self.additional_view() =~= before.push(s@));
                }
            },
            BanjoError::Runtime(s) => {
                let ghost before = self.additional_view();
                self.additional_errors.push(s);
                proof {
                    assert(self.additional_view() =~= before.push(s@));
                }
            },
            BanjoError::Node((n, s)) => {
                self.insert_node_error(n, s);
            },
        }
    }

    fn insert_node_error(&mut self, n: NodeId, s: String)
        requires
            old(self).wf(),
        ensures
            final(self).wf(),
            final(self).node_errors_map() == old(self).node_errors_map().insert(n@, s@),
            final(self).additional_errors == old(self).additional_errors,
    {
        let ghost before = self.node_errors@;
        let mut i: usize = 0;
        while i < self.node_errors.len()
            invariant
                self.node_errors@ == before,
                before == old(self).node_errors@,
                distinct_nodes(before),
                i <= before.len(),
                forall|j: int| 0 <= j < i ==> before[j].0@ != n@,
                self.additional_errors == old(self).additional_errors,
            decreases before.len() - i,
        {
            if same_text(self.node_errors[i].0.as_str(), n.as_str()) {
                let ghost k = n@;
                proof {
                    vstd::utf8::encode_utf8_decode_utf8(k);
                    vstd::utf8::encode_utf8_decode_utf8(before[i as int].0@);
                }
                self.node_errors.set(i, (n, s));
                proof {
                    let after = self.node_errors@;
                    assert(distinct_nodes(after)) by {
                        assert forall|a: int, b: int| 0 <= a < b < after.len() implies after[a].0@ != after[b].0@ by {
                            if a != i && b != i {
                                assert(after[a] == before[a] && after[b] == before[b]);
                            }
                        }
                    }
                    assert(errors_map(after) =~= errors_map(before).insert(k, s@)) by {
                        assert forall|key: Seq<char>| #[trigger] errors_map(after).contains_key(key)
                            <==> errors_map(before).insert(k, s@).contains_key(key) by {
                            lemma_errors_map_keys(after, key);
                            lemma_errors_map_keys(before, key);
                            if exists|x: int| 0 <= x < after.len() && #[trigger] after[x].0@ == key {
                                let x = choose|x: int| 0 <= x < after.len() && #[trigger] after[x].0@ == key;
                                if x != i {
                                    assert(before[x].0@ == key);
                                }
                            }
                            if exists|x: int| 0 <= x < before.len() && #[trigger] before[x].0@ == key {
                                let x = choose|x: int| 0 <= x < before.len() && #[trigger] before[x].0@ == key;
                                if x != i {
                                    assert(after[x].0@ == key);
                                } else {
                                    assert(after[i as int].0@ == key);
                                }
                            }
                        }
                        assert forall|key: Seq<char>| #[trigger] errors_map(after).contains_key(key)
                            implies errors_map(after)[key] == errors_map(before).insert(k, s@)[key] by {
                            lemma_errors_map_keys(after, key);
                            lemma_errors_map_keys(before, key);
                            let x = choose|x: int| 0 <= x < after.len() && #[trigger] after[x].0@ == key;
                            assert forall|j: int| x < j < after.len() implies after[j].0@ != key by {
                                assert(after[x].0@ != after[j].0@);
                            }
                            assert(errors_map(after)[key] == after[x].1@);
                            assert(after[i as int].0@ == k);
                            if x != i {
                                if x < i {
                                    assert(after[x].0@ != after[i as int].0@);
                                } else {
                                    assert(after[i as int].0@ != after[x].0@);
                                }
                                assert(key != k);
                                assert(before[x].0@ == key);
                                assert forall|j: int| x < j < before.len() implies before[j].0@ != key by {
                                    assert(before[x].0@ != before[j].0@);
                                }
                                assert(errors_map(before)[key] == before[x].1@);
                            }
                        }
                    }
                }
                return;
            }
            i += 1;
        }
        let ghost k = n@;
        self.node_errors.push((n, s));
        proof {
            let after = self.node_errors@;
            assert(after.drop_last() =~= before);
            assert(distinct_nodes(after)) by {
                assert forall|a: int, b: int| 0 <= a < b < after.len() implies after[a].0@ != after[b].0@ by {
                    if b < before.len() {
                        assert(after[a] == before[a] && after[b] == before[b]);
                    } else {
                        assert(after[a] == before[a]);
                    }
                }
            }
        }
    }
}

impl Default for OutputErrors {
    fn default() -> (e: Self)
        ensures
            e.wf(),
            e.node_errors_map() == Map::<Seq<char>, Seq<char>>::empty(),
            e.additional_view() == Seq::<Seq<char>>::empty(),
    {
        let e = OutputErrors { node_errors: Vec::new(), additional_errors: Vec::new() };
        proof {
            assert(e.additional_view() =~= Seq::<Seq<char>>::empty());
        }
        e
    }
}

/// A later error of a node replaces the earlier one: recording two errors for a
/// node leaves only the second.
pub proof fn later_node_error_wins(
    errors: Map<Seq<char>, Seq<char>>,
    node: Seq<char>,
    first: Seq<char>,
    second: Seq<char>,
)
    ensures
        errors.insert(node, first).insert(node, second) == errors.insert(node, second),
{
    assert(errors.insert(node, first).insert(node, second) =~= errors.insert(node, second));
}

/// What running a program produced: the value each previewed node had last, and
/// the errors.
pub struct Output<N> {
    /// Pairs of node id and value, in order; a later pair for a node replaces an
    /// earlier one.
    pub node_values: Vec<(NodeId, Value<N>)>,
    pub errors: OutputErrors,
}

/// The map from node id to value that a list of pairs stands for: a later pair
/// for a node replaces an earlier one.
pub open spec fn values_map<N>(pairs: Seq<(NodeId, Value<N>)>) -> Map<Seq<char>, Value<N>>
    decreases pairs.len(),
{
    if pairs.len() == 0 {
        Map::empty()
    } else {
        values_map(pairs.drop_last()).insert(pairs.last().0@, pairs.last().1)
    }
}

impl<N> Output<N> {
    /// The output of a run that failed with `error` before any node had a value.
    pub fn from_single_error(error: BanjoError) -> (o: Self)
        ensures
            o.node_values@.len() == 0,
            o.errors.wf(),
            match error {
                BanjoError::Compile(s) | BanjoError::Runtime(s) => {
                    &&& o.errors.node_errors_map() == Map::<Seq<char>, Seq<char>>::empty()
                    &&& o.errors.additional_view() == seq![s@]
                },
                BanjoError::Node((n, s)) => {
                    &&& o.errors.node_errors_map() == Map::<Seq<char>, Seq<char>>::empty().insert(n@, s@)
                    &&& o.errors.additional_view() == Seq::<Seq<char>>::empty()
                },
            },
    {
        let mut errors = OutputErrors::default();
        errors.add(error);
        proof {
            assert(seq![] + seq![1int] =~= seq![1int]);
        }
        Self { node_values: Vec::new(), errors }
    }
}

/// The values of the nodes whose output a run previews, as it goes.
pub struct OutputValues<N> {
    /// Output values of nodes in order of execution. Indices correspond with
    /// `Compiler::output_nodes`.
    output_nodes: Vec<NodeId>,
    /// IDs of nodes in order of compilation
    output_values: Vec<Value<N>>,
    errors: OutputErrors,
}

/// The most nodes whose output a run can preview.
pub open spec fn max_output_nodes() -> nat {
    255
}

impl<N: Copy> OutputValues<N> {
    /// The ids of the previewed nodes, in order of compilation.
    pub closed spec fn nodes(&self) -> Seq<Seq<char>> {
        self.output_nodes@.map_values(|s: String| s@)
    }

    /// The value slots, in the same order; a slot no run has written holds nil.
    pub closed spec fn values(&self) -> Seq<Value<N>> {
        self.output_values@
    }

    /// The errors recorded so far.
    pub closed spec fn errors(&self) -> OutputErrors {
        self.errors
    }

    pub closed spec fn wf(&self) -> bool {
        &&& self.errors.wf()
        &&& self.output_nodes@.len() <= max_output_nodes()
    }

    /// Registers a node whose output is previewed and returns its index; fails for
    /// the 256th node.
    pub fn add_node(&mut self, node_id: &str) -> (r: Result<u8>)
        requires
            old(self).wf(),
        ensures
            final(self).wf(),
            final(self).values() == old(self).values(),
            final(self).errors() == old(self).errors(),
            old(self).nodes().len() >= max_output_nodes() ==> {
                &&& fails_at_node(r, node_id@, "Can't preview the output of more than 255 nodes"@)
                &&& final(self).nodes() == old(self).nodes()
            },
            old(self).nodes().len() < max_output_nodes() ==> {
                &&& r == Ok::<u8, BanjoError>(old(self).nodes().len() as u8)
                &&& final(self).nodes() == old(self).nodes().push(node_id@)
            },
    {
        if self.output_nodes.len() >= 255 {
            return BanjoError::node_err(node_id, "Can't preview the output of more than 255 nodes");
        }
        let ghost before = self.nodes();
        self.output_nodes.push(node_id.to_owned());
        proof {
            assert(self.nodes() =~= before.push(node_id@));
        }
        let output_index = (self.output_nodes.len() - 1) as u8;
        Ok(output_index)
    }

    /// Writes `value` in slot `output_index`, filling any slots before it with nil.
    pub fn add_value(&mut self, output_index: u8, value: Value<N>)
        requires
            output_index < 255,
        ensures
            old(self).wf() ==> final(self).wf(),
            final(self).nodes() == old(self).nodes(),
            final(self).errors() == old(self).errors(),
            final(self).values().len() == if old(self).values().len() > output_index {
                old(self).values().len() as int
            } else {
                output_index + 1
            },
            forall|i: int|
                0 <= i < final(self).values().len() ==> #[trigger] final(self).values()[i] == if i == output_index {
                    value
                } else if i < old(self).values().len() {
                    old(self).values()[i]
                } else {
                    Value::Nil
                },
    {
        let min_len = (output_index + 1) as usize;
        let ghost before = self.output_values@;
        while self.output_values.len() < min_len
            invariant
                before.len() <= self.output_values@.len(),
                min_len == output_index + 1,
                before.len() < min_len ==> self.output_values@.len() <= min_len,
                before.len() >= min_len ==> self.output_values@.len() == before.len(),
                forall|i: int| 0 <= i < before.len() ==> #[trigger] self.output_values@[i] == before[i],
                forall|i: int| before.len() <= i < self.output_values@.len() ==> #[trigger] self.output_values@[i] == Value::<N>::Nil,
                self.output_nodes == old(self).output_nodes,
                self.errors == old(self).errors,
            decreases min_len - self.output_values@.len(),
        {
            self.output_values.push(Value::Nil);
        }
        self.output_values.set(output_index as usize, value);
    }

    /// Records an error.
    pub fn add_error(&mut self, error: BanjoError)
        requires
            old(self).wf(),
        ensures
            final(self).wf(),
            final(self).nodes() == old(self).nodes(),
            final(self).values() == old(self).values(),
            match error {
                BanjoError::Compile(s) | BanjoError::Runtime(s) => {
                    &&& final(self).errors().node_errors_map() == old(self).errors().node_errors_map()
                    &&& final(self).errors().additional_view() == old(self).errors().additional_view().push(s@)
                },
                BanjoError::Node((n, s)) => {
                    &&& final(self).errors().node_errors_map() == old(self).errors().node_errors_map().insert(n@, s@)
                    &&& final(self).errors().additional_view() == old(self).errors().additional_view()
                },
            },
    {
        self.errors.add(error)
    }

    /// Hands over everything recorded, leaving the collector empty: each previewed
    /// node with the value in its slot (nodes without a slot are left out), and the
    /// errors.
    pub fn take(&mut self) -> (output: Output<N>)
        requires
            old(self).wf(),
        ensures
            final(self).wf(),
            final(self).nodes() == Seq::<Seq<char>>::empty(),
            final(self).values() == Seq::<Value<N>>::empty(),
            final(self).errors().node_errors_map() == Map::<Seq<char>, Seq<char>>::empty(),
            final(self).errors().additional_view() == Seq::<Seq<char>>::empty(),
            output.errors == old(self).errors(),
            output.node_values@.len() == if old(self).nodes().len() < old(self).values().len() {
                old(self).nodes().len() as int
            } else {
                old(self).values().len() as int
            },
            forall|i: int|
                0 <= i < output.node_values@.len() ==> (#[trigger] output.node_values@[i]).0@ == old(self).nodes()[i]
                    && output.node_values@[i].1 == old(self).values()[i],
    {
        let mut output_values: Vec<Value<N>> = Vec::new();
        let mut output_nodes: Vec<NodeId> = Vec::new();
        let mut errors = OutputErrors::default();
        std::mem::swap(&mut output_values, &mut self.output_values);
        std::mem::swap(&mut output_nodes, &mut self.output_nodes);
        std::mem::swap(&mut errors, &mut self.errors);
        proof {
            assert(self.nodes() =~= Seq::<Seq<char>>::empty());
        }
        let n = if output_nodes.len() < output_values.len() {
            output_nodes.len()
        } else {
            output_values.len()
        };
        let mut node_values: Vec<(NodeId, Value<N>)> = Vec::new();
        let mut i: usize = 0;
        while i < n
            invariant
                n <= output_nodes@.len(),
                n <= output_values@.len(),
                i <= n,
                node_values@.len() == i,
                forall|k: int|
                    0 <= k < i ==> (#[trigger] node_values@[k]).0@ == output_nodes@[k]@ && node_values@[k].1
                        == output_values@[k],
            decreases n - i,
        {
            node_values.push((output_nodes[i].clone(), output_values[i]));
            i += 1;
        }
        Output { node_values, errors }
    }
}

impl<N: Copy> Default for OutputValues<N> {
    fn default() -> (o: Self)
        ensures
            o.wf(),
            o.nodes() == Seq::<Seq<char>>::empty(),
            o.values() == Seq::<Value<N>>::empty(),
            o.errors().node_errors_map() == Map::<Seq<char>, Seq<char>>::empty(),
            o.errors().additional_view() == Seq::<Seq<char>>::empty(),
    {
        let o = Self { output_nodes: Vec::new(), output_values: Vec::new(), errors: OutputErrors::default() };
        proof {
            assert(o.nodes() =~= Seq::<Seq<char>>::empty());
        }
        o
    }
}

} // verus!

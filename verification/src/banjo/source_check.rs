//! Checks of a program before it is compiled: that no two nodes share an id,
//! that following inputs from a root or a definition never comes back to a
//! node, and that the inputs can be compiled.

use vstd::prelude::*;

use crate::banjo::ast::{acyclic, arg_ids, distinct_ids, index_of, is_root, is_start, lemma_index_of, ranked, Ast, Node, NodeType};
use crate::banjo::compiler::{compilable, declares};
use crate::parser::same_text;

verus! {

/// The node that the `k`-th input of node `i` names, or -1.
pub open spec fn input_index<N>(nodes: Seq<Node<N>>, i: int, k: int) -> int {
    index_of(nodes, arg_ids(nodes[i].node_type)[k])
}

/// Node `i` has an input that names a node not yet `done`.
pub open spec fn waits<N>(nodes: Seq<Node<N>>, done: Seq<bool>, i: int) -> bool {
    exists|k: int|
        0 <= k < arg_ids(nodes[i].node_type).len() && #[trigger] input_index(nodes, i, k) >= 0 && !done[input_index(
            nodes,
            i,
            k,
        )]
}

/// The number of `true` values.
pub open spec fn count_true(s: Seq<bool>) -> nat
    decreases s.len(),
{
    if s.len() == 0 {
        0
    } else {
        count_true(s.drop_last()) + if s.last() {
            1nat
        } else {
            0nat
        }
    }
}

proof fn lemma_count_true_bound(s: Seq<bool>)
    ensures
        count_true(s) <= s.len(),
        count_true(s) == s.len() <==> forall|i: int| 0 <= i < s.len() ==> s[i],
    decreases s.len(),
{
    if s.len() > 0 {
        lemma_count_true_bound(s.drop_last());
        if forall|i: int| 0 <= i < s.len() ==> s[i] {
            assert forall|i: int| 0 <= i < s.drop_last().len() implies s.drop_last()[i] by {
                assert(s[i]);
            }
            assert(s[s.len() - 1]);
        }
        if count_true(s) == s.len() {
            assert forall|i: int| 0 <= i < s.len() implies s[i] by {
                if i < s.len() - 1 {
                    assert(s.drop_last()[i] == s[i]);
                }
            }
        }
    }
}

proof fn lemma_count_true_set(s: Seq<bool>, i: int)
    requires
        0 <= i < s.len(),
        !s[i],
    ensures
        count_true(s.update(i, true)) == count_true(s) + 1,
    decreases s.len(),
{
    let t = s.update(i, true);
    if i < s.len() - 1 {
        assert(t.drop_last() =~= s.drop_last().update(i, true));
        lemma_count_true_set(s.drop_last(), i);
    } else {
        assert(t.drop_last() =~= s.drop_last());
    }
}

/// Where every node that `live` marks and that is not `done` waits for another
/// such node, no ranking ranks any of them `v` or less; `live` marks nodes that
/// every ranking ranks, and is closed under inputs.
proof fn lemma_waiting_has_no_rank<N>(nodes: Seq<Node<N>>, done: Seq<bool>, live: Seq<bool>, rank: Seq<nat>, v: nat)
    requires
        done.len() == nodes.len(),
        live.len() == nodes.len(),
        ranked(nodes, rank),
        forall|i: int| 0 <= i < nodes.len() && live[i] ==> rank[i] > 0,
        forall|i: int, k: int|
            0 <= i < nodes.len() && live[i] && 0 <= k < arg_ids(nodes[i].node_type).len() && #[trigger] input_index(
                nodes,
                i,
                k,
            ) >= 0 ==> live[input_index(nodes, i, k)],
        forall|i: int| 0 <= i < nodes.len() && live[i] && !done[i] ==> waits(nodes, done, i),
    ensures
        forall|i: int| 0 <= i < nodes.len() && live[i] && !done[i] ==> rank[i] > v,
    decreases v,
{
    assert forall|i: int| 0 <= i < nodes.len() && live[i] && !done[i] implies rank[i] > v by {
        assert(waits(nodes, done, i));
        let k = choose|k: int|
            0 <= k < arg_ids(nodes[i].node_type).len() && #[trigger] input_index(nodes, i, k) >= 0 && !done[input_index(
                nodes,
                i,
                k,
            )];
        let t = input_index(nodes, i, k);
        lemma_index_of(nodes, arg_ids(nodes[i].node_type)[k]);
        assert(live[t]);
        assert(rank[i] > 0);
        assert(rank[t] < rank[i]);
        if v > 0 {
            lemma_waiting_has_no_rank(nodes, done, live, rank, (v - 1) as nat);
            assert(rank[t] > v - 1);
        }
    }
}

/// The nodes that the inputs of node `i` name, each as an index or none.
fn input_slots<N>(nodes: &Vec<Node<N>>, i: usize) -> (slots: Vec<Option<usize>>)
    requires
        i < nodes@.len(),
    ensures
        slots@.len() == arg_ids(nodes@[i as int].node_type).len(),
        forall|k: int|
            0 <= k < slots@.len() ==> match #[trigger] slots@[k] {
                Some(j) => j as int == input_index(nodes@, i as int, k) && j < nodes@.len(),
                None => input_index(nodes@, i as int, k) < 0,
            },
{
    let ids = nodes[i].args();
    let ghost names = ids@.map_values(|s: &str| s@);
    let mut slots: Vec<Option<usize>> = Vec::new();
    let mut k: usize = 0;
    while k < ids.len()
        invariant
            names == arg_ids(nodes@[i as int].node_type),
            names == ids@.map_values(|s: &str| s@),
            k <= ids@.len(),
            slots@.len() == k,
            forall|m: int|
                0 <= m < k ==> match #[trigger] slots@[m] {
                    Some(j) => j as int == input_index(nodes@, i as int, m) && j < nodes@.len(),
                    None => input_index(nodes@, i as int, m) < 0,
                },
        decreases ids@.len() - k,
    {
        let slot = Ast::<N>::find(nodes, ids[k]);
        proof {
            assert(names[k as int] == ids@[k as int]@);
        }
        slots.push(slot);
        k += 1;
    }
    slots
}

/// Every ranking ranks node `m`: it is reached from a root or a definition.
pub open spec fn reached<N>(nodes: Seq<Node<N>>, m: int) -> bool {
    forall|r: Seq<nat>| #[trigger] ranked(nodes, r) ==> r[m] > 0
}

/// Whether no input of any node names node `j`.
fn root_at<N>(nodes: &Vec<Node<N>>, j: usize) -> (b: bool)
    requires
        j < nodes@.len(),
    ensures
        b == is_root(nodes@, j as int),
{
    let n = nodes.len();
    let mut i: usize = 0;
    while i < n
        invariant
            n == nodes@.len(),
            j < n,
            i <= n,
            forall|m: int, k: int|
                0 <= m < i && 0 <= k < arg_ids(nodes@[m].node_type).len() ==> #[trigger] arg_ids(
                    nodes@[m].node_type,
                )[k] != nodes@[j as int].id@,
        decreases n - i,
    {
        let ids = nodes[i].args();
        let ghost names = ids@.map_values(|s: &str| s@);
        let mut k: usize = 0;
        while k < ids.len()
            invariant
                n == nodes@.len(),
                j < n,
                i < n,
                names == arg_ids(nodes@[i as int].node_type),
                names == ids@.map_values(|s: &str| s@),
                k <= ids@.len(),
                forall|m: int, q: int|
                    0 <= m < i && 0 <= q < arg_ids(nodes@[m].node_type).len() ==> #[trigger] arg_ids(
                        nodes@[m].node_type,
                    )[q] != nodes@[j as int].id@,
                forall|q: int| 0 <= q < k ==> #[trigger] names[q] != nodes@[j as int].id@,
            decreases ids@.len() - k,
        {
            let same = same_text(ids[k], nodes[j].id.as_str());
            proof {
                assert(names[k as int] == ids@[k as int]@);
                vstd::utf8::encode_utf8_decode_utf8(ids@[k as int]@);
                vstd::utf8::encode_utf8_decode_utf8(nodes@[j as int].id@);
            }
            if same {
                return false;
            }
            k += 1;
        }
        i += 1;
    }
    true
}

/// The nodes reached from the roots and the definitions by following inputs,
/// given the nodes that the inputs of each node name.
fn starts_closure<N>(nodes: &Vec<Node<N>>, inputs: &Vec<Vec<Option<usize>>>) -> (live: Vec<bool>)
    requires
        inputs@.len() == nodes@.len(),
        forall|m: int| 0 <= m < nodes@.len() ==> (#[trigger] inputs@[m])@.len() == arg_ids(nodes@[m].node_type).len(),
        forall|m: int, k: int|
            0 <= m < nodes@.len() && 0 <= k < inputs@[m]@.len() ==> match #[trigger] inputs@[m]@[k] {
                Some(j) => j as int == input_index(nodes@, m, k) && j < nodes@.len(),
                None => input_index(nodes@, m, k) < 0,
            },
    ensures
        live@.len() == nodes@.len(),
        forall|m: int| 0 <= m < nodes@.len() && #[trigger] is_start(nodes@, m) ==> live@[m],
        forall|m: int| 0 <= m < nodes@.len() && live@[m] ==> #[trigger] reached(nodes@, m),
        forall|m: int, k: int|
            0 <= m < nodes@.len() && live@[m] && 0 <= k < arg_ids(nodes@[m].node_type).len() && #[trigger] input_index(
                nodes@,
                m,
                k,
            ) >= 0 ==> live@[input_index(nodes@, m, k)],
{
    let n = nodes.len();
    let mut live: Vec<bool> = Vec::new();
    let mut count: usize = 0;
    let mut j: usize = 0;
    while j < n
        invariant
            n == nodes@.len(),
            j <= n,
            live@.len() == j,
            count == count_true(live@),
            count <= j,
            forall|m: int| 0 <= m < j ==> (#[trigger] live@[m] <==> is_start(nodes@, m)),
        decreases n - j,
    {
        let start = match &nodes[j].node_type {
            NodeType::FunctionDefinition { .. } | NodeType::VariableDefinition { .. } | NodeType::Const {
                ..
            } => true,
            _ => root_at(nodes, j),
        };
        let ghost before = live@;
        live.push(start);
        proof {
            assert(live@.drop_last() =~= before);
        }
        if start {
            count += 1;
        }
        j += 1;
    }
    proof {
        assert forall|m: int| 0 <= m < n && live@[m] implies #[trigger] reached(nodes@, m) by {
            assert(is_start(nodes@, m));
        }
    }
    let mut grew = true;
    while grew
        invariant
            n == nodes@.len(),
            inputs@.len() == n,
            forall|m: int| 0 <= m < n ==> (#[trigger] inputs@[m])@.len() == arg_ids(nodes@[m].node_type).len(),
            forall|m: int, k: int|
                0 <= m < n && 0 <= k < inputs@[m]@.len() ==> match #[trigger] inputs@[m]@[k] {
                    Some(j) => j as int == input_index(nodes@, m, k) && j < n,
                    None => input_index(nodes@, m, k) < 0,
                },
            live@.len() == n,
            count == count_true(live@),
            count <= n,
            forall|m: int| 0 <= m < n && #[trigger] is_start(nodes@, m) ==> live@[m],
            forall|m: int| 0 <= m < n && live@[m] ==> #[trigger] reached(nodes@, m),
            !grew ==> forall|m: int, k: int|
                0 <= m < n && live@[m] && 0 <= k < arg_ids(nodes@[m].node_type).len() && #[trigger] input_index(
                    nodes@,
                    m,
                    k,
                ) >= 0 ==> live@[input_index(nodes@, m, k)],
        decreases n - count + if grew {
            1nat
        } else {
            0nat
        },
    {
        grew = false;
        let ghost start = count;
        let ghost live0 = live@;
        let mut i: usize = 0;
        while i < n
            invariant
                n == nodes@.len(),
                inputs@.len() == n,
                forall|m: int| 0 <= m < n ==> (#[trigger] inputs@[m])@.len() == arg_ids(nodes@[m].node_type).len(),
                forall|m: int, k: int|
                    0 <= m < n && 0 <= k < inputs@[m]@.len() ==> match #[trigger] inputs@[m]@[k] {
                        Some(j) => j as int == input_index(nodes@, m, k) && j < n,
                        None => input_index(nodes@, m, k) < 0,
                    },
                live@.len() == n,
                i <= n,
                count == count_true(live@),
                count <= n,
                forall|m: int| 0 <= m < n && #[trigger] is_start(nodes@, m) ==> live@[m],
                forall|m: int| 0 <= m < n && live@[m] ==> #[trigger] reached(nodes@, m),
                grew ==> count > start,
                !grew ==> count == start && live@ == live0,
                !grew ==> forall|m: int, k: int|
                    0 <= m < i && live@[m] && 0 <= k < arg_ids(nodes@[m].node_type).len() && #[trigger] input_index(
                        nodes@,
                        m,
                        k,
                    ) >= 0 ==> live@[input_index(nodes@, m, k)],
            decreases n - i,
        {
            if live[i] {
                let slots = &inputs[i];
                let mut k: usize = 0;
                while k < slots.len()
                    invariant
                        n == nodes@.len(),
                        i < n,
                        live@.len() == n,
                        live@[i as int],
                        slots@ == inputs@[i as int]@,
                        slots@.len() == arg_ids(nodes@[i as int].node_type).len(),
                        forall|m: int|
                            0 <= m < slots@.len() ==> match #[trigger] slots@[m] {
                                Some(j) => j as int == input_index(nodes@, i as int, m) && j < n,
                                None => input_index(nodes@, i as int, m) < 0,
                            },
                        k <= slots@.len(),
                        count == count_true(live@),
                        count <= n,
                        forall|m: int| 0 <= m < n && #[trigger] is_start(nodes@, m) ==> live@[m],
                        forall|m: int| 0 <= m < n && live@[m] ==> #[trigger] reached(nodes@, m),
                        grew ==> count > start,
                        !grew ==> count == start && live@ == live0,
                        !grew ==> forall|m: int, q: int|
                            0 <= m < i && live@[m] && 0 <= q < arg_ids(nodes@[m].node_type).len()
                                && #[trigger] input_index(nodes@, m, q) >= 0 ==> live@[input_index(nodes@, m, q)],
                        !grew ==> forall|q: int|
                            0 <= q < k && #[trigger] input_index(nodes@, i as int, q) >= 0 ==> live@[input_index(
                                nodes@,
                                i as int,
                                q,
                            )],
                    decreases slots@.len() - k,
                {
                    proof {
                        assert(match slots@[k as int] {
                            Some(j) => j as int == input_index(nodes@, i as int, k as int) && j < n,
                            None => input_index(nodes@, i as int, k as int) < 0,
                        });
                    }
                    match slots[k] {
                        Some(t) => {
                            if !live[t] {
                                let ghost before = live@;
                                proof {
                                    lemma_count_true_set(before, t as int);
                                    lemma_count_true_bound(before.update(t as int, true));
                                    assert(reached(nodes@, i as int));
                                    assert forall|r: Seq<nat>| #[trigger] ranked(nodes@, r) implies r[t as int] > 0 by {
                                        assert(r[i as int] > 0);
                                        assert(input_index(nodes@, i as int, k as int) >= 0);
                                        lemma_index_of(nodes@, arg_ids(nodes@[i as int].node_type)[k as int]);
                                    }
                                }
                                live.set(t, true);
                                count += 1;
                                grew = true;
                            }
                        },
                        None => {},
                    }
                    k += 1;
                }
            }
            i += 1;
        }
    }
    live
}

/// Whether every node that `live` marks is `done`.
fn live_all_done(live: &Vec<bool>, done: &Vec<bool>) -> (b: bool)
    requires
        live@.len() == done@.len(),
    ensures
        b == forall|m: int| 0 <= m < live@.len() && live@[m] ==> done@[m],
{
    let mut m: usize = 0;
    while m < live.len()
        invariant
            live@.len() == done@.len(),
            m <= live@.len(),
            forall|q: int| 0 <= q < m && live@[q] ==> done@[q],
        decreases live@.len() - m,
    {
        if live[m] && !done[m] {
            return false;
        }
        m += 1;
    }
    true
}

/// Whether following inputs from the roots and the definitions never comes back
/// to a node: nodes are taken in rounds, each once all the nodes its inputs name
/// are taken; the inputs are acyclic exactly when every node reached from a root
/// or a definition gets taken. Loops among nodes that nothing reaches are no
/// obstacle: those nodes are never compiled.
pub fn inputs_acyclic<N>(nodes: &Vec<Node<N>>) -> (b: bool)
    ensures
        b == acyclic(nodes@),
{
    let n = nodes.len();
    let mut inputs: Vec<Vec<Option<usize>>> = Vec::new();
    let mut done: Vec<bool> = Vec::new();
    let mut rank: Vec<usize> = Vec::new();
    let mut i: usize = 0;
    while i < n
        invariant
            n == nodes@.len(),
            i <= n,
            inputs@.len() == i,
            done@.len() == i,
            rank@.len() == i,
            forall|m: int| 0 <= m < i ==> !(#[trigger] done@[m]),
            forall|m: int| 0 <= m < i ==> (#[trigger] inputs@[m])@.len() == arg_ids(nodes@[m].node_type).len(),
            forall|m: int, k: int|
                0 <= m < i && 0 <= k < inputs@[m]@.len() ==> match #[trigger] inputs@[m]@[k] {
                    Some(j) => j as int == input_index(nodes@, m, k) && j < n,
                    None => input_index(nodes@, m, k) < 0,
                },
        decreases n - i,
    {
        inputs.push(input_slots(nodes, i));
        done.push(false);
        rank.push(0);
        i += 1;
    }
    proof {
        assert(done@ =~= Seq::new(n as nat, |m: int| false));
        assert(count_true(done@) == 0) by {
            lemma_count_true_bound(done@);
            assert forall|l: nat| l <= n implies count_true(#[trigger] done@.take(l as int)) == 0 by {
                lemma_count_zero(done@, l);
            }
            assert(done@.take(n as int) =~= done@);
        }
    }
    let mut count: usize = 0;
    let mut progress = true;
    while progress
        invariant
            n == nodes@.len(),
            inputs@.len() == n,
            done@.len() == n,
            rank@.len() == n,
            forall|m: int| 0 <= m < n ==> (#[trigger] inputs@[m])@.len() == arg_ids(nodes@[m].node_type).len(),
            forall|m: int, k: int|
                0 <= m < n && 0 <= k < inputs@[m]@.len() ==> match #[trigger] inputs@[m]@[k] {
                    Some(j) => j as int == input_index(nodes@, m, k) && j < n,
                    None => input_index(nodes@, m, k) < 0,
                },
            count == count_true(done@),
            count <= n,
            forall|m: int| 0 <= m < n && done@[m] ==> #[trigger] rank@[m] < count,
            forall|m: int, k: int|
                0 <= m < n && done@[m] && 0 <= k < arg_ids(nodes@[m].node_type).len() && #[trigger] input_index(
                    nodes@,
                    m,
                    k,
                ) >= 0 ==> input_index(nodes@, m, k) < n && done@[input_index(nodes@, m, k)] && rank@[input_index(
                    nodes@,
                    m,
                    k,
                )] < rank@[m],
            !progress ==> forall|m: int| 0 <= m < n && !done@[m] ==> waits(nodes@, done@, m),
        decreases n - count + if progress {
            1nat
        } else {
            0nat
        },
    {
        progress = false;
        let ghost start = count;
        let ghost done0 = done@;
        let mut i: usize = 0;
        while i < n
            invariant
                n == nodes@.len(),
                inputs@.len() == n,
                done@.len() == n,
                rank@.len() == n,
                forall|m: int| 0 <= m < n ==> (#[trigger] inputs@[m])@.len() == arg_ids(nodes@[m].node_type).len(),
                forall|m: int, k: int|
                    0 <= m < n && 0 <= k < inputs@[m]@.len() ==> match #[trigger] inputs@[m]@[k] {
                        Some(j) => j as int == input_index(nodes@, m, k) && j < n,
                        None => input_index(nodes@, m, k) < 0,
                    },
                i <= n,
                count == count_true(done@),
                count <= n,
                forall|m: int| 0 <= m < n && done@[m] ==> #[trigger] rank@[m] < count,
                forall|m: int, k: int|
                    0 <= m < n && done@[m] && 0 <= k < arg_ids(nodes@[m].node_type).len() && #[trigger] input_index(
                        nodes@,
                        m,
                        k,
                    ) >= 0 ==> input_index(nodes@, m, k) < n && done@[input_index(nodes@, m, k)] && rank@[input_index(
                    nodes@,
                    m,
                    k,
                )] < rank@[m],
                progress ==> count > start,
                !progress ==> count == start && done@ == done0,
                !progress ==> forall|m: int| 0 <= m < i && !done@[m] ==> waits(nodes@, done@, m),
            decreases n - i,
        {
            if !done[i] {
                let slots = &inputs[i];
                let mut ready = true;
                let ghost mut blocker: int = 0;
                let mut k: usize = 0;
                while k < slots.len()
                    invariant
                        i < n,
                        done@.len() == n,
                        slots@ == inputs@[i as int]@,
                        slots@.len() == arg_ids(nodes@[i as int].node_type).len(),
                        forall|m: int|
                            0 <= m < slots@.len() ==> match #[trigger] slots@[m] {
                                Some(j) => j as int == input_index(nodes@, i as int, m) && j < n,
                                None => input_index(nodes@, i as int, m) < 0,
                            },
                        k <= slots@.len(),
                        ready ==> forall|m: int|
                            0 <= m < k && #[trigger] input_index(nodes@, i as int, m) >= 0 ==> done@[input_index(
                                nodes@,
                                i as int,
                                m,
                            )],
                        !ready ==> 0 <= blocker < slots@.len() && input_index(nodes@, i as int, blocker) >= 0
                            && !done@[input_index(nodes@, i as int, blocker)],
                    decreases slots@.len() - k,
                {
                    match slots[k] {
                        Some(j) => {
                            if !done[j] {
                                proof {
                                    blocker = k as int;
                                }
                                ready = false;
                            }
                        },
                        None => {
                            proof {
                                assert(slots@[k as int] is None);
                            }
                        },
                    }
                    proof {
                        assert(match slots@[k as int] {
                            Some(j) => j as int == input_index(nodes@, i as int, k as int) && j < n,
                            None => input_index(nodes@, i as int, k as int) < 0,
                        });
                    }
                    k += 1;
                }
                if ready {
                    let ghost before = done@;
                    proof {
                        lemma_count_true_set(before, i as int);
                        lemma_count_true_bound(before.update(i as int, true));
                    }
                    let ghost rank0 = rank@;
                    done.set(i, true);
                    rank.set(i, count);
                    proof {
                        assert forall|m: int, k: int|
                            0 <= m < n && done@[m] && 0 <= k < arg_ids(nodes@[m].node_type).len() && #[trigger] input_index(
                                nodes@,
                                m,
                                k,
                            ) >= 0 implies input_index(nodes@, m, k) < n && done@[input_index(nodes@, m, k)]
                            && rank@[input_index(nodes@, m, k)] < rank@[m] by {
                            let t = input_index(nodes@, m, k);
                            if m == i {
                                assert(match inputs@[m]@[k] {
                                    Some(j) => j as int == input_index(nodes@, m, k) && j < n,
                                    None => input_index(nodes@, m, k) < 0,
                                });
                                assert(before[t]);
                                assert(rank0[t] < count);
                            } else {
                                assert(before[m]);
                                assert(before[t]);
                                assert(t != i);
                            }
                        }
                    }
                    count += 1;
                    progress = true;
                } else {
                    proof {
                        assert(waits(nodes@, done@, i as int)) by {
                            assert(input_index(nodes@, i as int, blocker) >= 0);
                        }
                    }
                }
            }
            i += 1;
        }
    }
    let live = starts_closure(nodes, &inputs);
    if live_all_done(&live, &done) {
        proof {
            let r = Seq::new(n as nat, |q: int| if live@[q] && done@[q] { rank@[q] as nat + 1 } else { 0 });
            assert(ranked(nodes@, r)) by {
                assert forall|q: int| 0 <= q < nodes@.len() && #[trigger] is_start(nodes@, q) implies r[q] > 0 by {
                    assert(live@[q]);
                }
                assert forall|m: int, k: int|
                    0 <= m < nodes@.len() && r[m] > 0 && 0 <= k < arg_ids(#[trigger] nodes@[m].node_type).len()
                        && index_of(nodes@, arg_ids(nodes@[m].node_type)[k]) >= 0 implies 0 < #[trigger] r[index_of(
                    nodes@,
                    arg_ids(nodes@[m].node_type)[k],
                )] < r[m] by {
                    assert(live@[m] && done@[m]);
                    assert(input_index(nodes@, m, k) >= 0);
                    lemma_index_of(nodes@, arg_ids(nodes@[m].node_type)[k]);
                    let t = input_index(nodes@, m, k);
                    assert(live@[t]);
                    assert(done@[t]);
                }
            }
        }
        true
    } else {
        proof {
            let m0 = choose|m: int| 0 <= m < n && live@[m] && !done@[m];
            if acyclic(nodes@) {
                let r = choose|r: Seq<nat>| ranked(nodes@, r);
                assert forall|q: int| 0 <= q < nodes@.len() && live@[q] implies r[q] > 0 by {
                    assert(reached(nodes@, q));
                }
                lemma_waiting_has_no_rank(nodes@, done@, live@, r, r[m0]);
            }
        }
        false
    }
}

proof fn lemma_count_zero(s: Seq<bool>, l: nat)
    requires
        l <= s.len(),
        forall|m: int| 0 <= m < s.len() ==> !s[m],
    ensures
        count_true(s.take(l as int)) == 0,
    decreases l,
{
    if l > 0 {
        assert(s.take(l as int).drop_last() =~= s.take(l - 1));
        lemma_count_zero(s, (l - 1) as nat);
    }
}

/// Whether the nodes can be compiled: no input names a declaring node, and every
/// input of a call names a node.
pub fn inputs_compilable<N>(nodes: &Vec<Node<N>>) -> (b: bool)
    ensures
        b == compilable(nodes@),
{
    let n = nodes.len();
    let mut i: usize = 0;
    while i < n
        invariant
            n == nodes@.len(),
            i <= n,
            forall|m: int, k: int|
                0 <= m < i && 0 <= k < arg_ids(nodes@[m].node_type).len() && index_of(
                    nodes@,
                    #[trigger] arg_ids(nodes@[m].node_type)[k],
                ) >= 0 ==> !declares(nodes@[index_of(nodes@, arg_ids(nodes@[m].node_type)[k])].node_type),
            forall|m: int, k: int|
                0 <= m < i && nodes@[m].node_type is FunctionCall && 0 <= k < arg_ids(nodes@[m].node_type).len()
                    ==> index_of(nodes@, #[trigger] arg_ids(nodes@[m].node_type)[k]) >= 0,
        decreases n - i,
    {
        let slots = input_slots(nodes, i);
        let is_call = match &nodes[i].node_type {
            NodeType::FunctionCall { .. } => true,
            _ => false,
        };
        let mut k: usize = 0;
        while k < slots.len()
            invariant
                n == nodes@.len(),
                i < n,
                slots@.len() == arg_ids(nodes@[i as int].node_type).len(),
                forall|m: int|
                    0 <= m < slots@.len() ==> match #[trigger] slots@[m] {
                        Some(j) => j as int == input_index(nodes@, i as int, m) && j < nodes@.len(),
                        None => input_index(nodes@, i as int, m) < 0,
                    },
                is_call == nodes@[i as int].node_type is FunctionCall,
                k <= slots@.len(),
                forall|m: int, q: int|
                    0 <= m < i && 0 <= q < arg_ids(nodes@[m].node_type).len() && index_of(
                        nodes@,
                        #[trigger] arg_ids(nodes@[m].node_type)[q],
                    ) >= 0 ==> !declares(nodes@[index_of(nodes@, arg_ids(nodes@[m].node_type)[q])].node_type),
                forall|m: int, q: int|
                    0 <= m < i && nodes@[m].node_type is FunctionCall && 0 <= q < arg_ids(nodes@[m].node_type).len()
                        ==> index_of(nodes@, #[trigger] arg_ids(nodes@[m].node_type)[q]) >= 0,
                forall|q: int|
                    0 <= q < k && index_of(nodes@, #[trigger] arg_ids(nodes@[i as int].node_type)[q]) >= 0 ==> !declares(
                        nodes@[index_of(nodes@, arg_ids(nodes@[i as int].node_type)[q])].node_type,
                    ),
                forall|q: int|
                    0 <= q < k && is_call ==> index_of(nodes@, #[trigger] arg_ids(nodes@[i as int].node_type)[q]) >= 0,
            decreases slots@.len() - k,
        {
            proof {
                assert(match slots@[k as int] {
                    Some(j) => j as int == input_index(nodes@, i as int, k as int) && j < nodes@.len(),
                    None => input_index(nodes@, i as int, k as int) < 0,
                });
            }
            match slots[k] {
                Some(j) => {
                    let declaring = match &nodes[j].node_type {
                        NodeType::FunctionDefinition { .. } | NodeType::VariableDefinition { .. } | NodeType::Const {
                            ..
                        } => true,
                        _ => false,
                    };
                    if declaring {
                        return false;
                    }
                },
                None => {
                    if is_call {
                        return false;
                    }
                },
            }
            k += 1;
        }
        i += 1;
    }
    true
}

/// Whether no two nodes share an id.
pub fn ids_distinct<N>(nodes: &Vec<Node<N>>) -> (b: bool)
    ensures
        b == distinct_ids(nodes@),
{
    let n = nodes.len();
    let mut i: usize = 0;
    while i < n
        invariant
            n == nodes@.len(),
            i <= n,
            forall|p: int, q: int| 0 <= p < i && p < q < n ==> nodes@[p].id@ != nodes@[q].id@,
        decreases n - i,
    {
        let mut j: usize = i + 1;
        while j < n
            invariant
                n == nodes@.len(),
                i < n,
                i + 1 <= j <= n,
                forall|p: int, q: int| 0 <= p < i && p < q < n ==> nodes@[p].id@ != nodes@[q].id@,
                forall|q: int| i < q < j ==> nodes@[i as int].id@ != nodes@[q].id@,
            decreases n - j,
        {
            let same = same_text(nodes[i].id.as_str(), nodes[j].id.as_str());
            proof {
                vstd::utf8::encode_utf8_decode_utf8(nodes@[i as int].id@);
                vstd::utf8::encode_utf8_decode_utf8(nodes@[j as int].id@);
            }
            if same {
                return false;
            }
            j += 1;
        }
        i += 1;
    }
    true
}

} // verus!

//! The native functions that work on values: `sum` and `product`. The clock
//! reads the time, which the caller does.

use vstd::prelude::*;

use crate::banjo::gc::Gc;
use crate::banjo::value::{Summand, Value};
use crate::banjo::vm::{
    adds_to, grows, lemma_grows_trans, lemma_sum_of_grows, lemma_value_ok_grows, value_ok, Vm,
};

verus! {

/// `accs` are the running sums of `args` in `heap`: the first value, then each
/// running sum added to the next value.
pub open spec fn running_sums<N: Copy, S: Fn(Summand<N>, Summand<N>) -> N, T: Fn(N) -> String>(
    heap: Gc<N>,
    plus: S,
    show: T,
    args: Seq<Value<N>>,
    accs: Seq<Value<N>>,
) -> bool {
    &&& accs.len() == args.len()
    &&& args.len() > 0 ==> accs[0] == args[0]
    &&& forall|i: int| 1 <= i < args.len() ==> adds_to(heap, plus, show, accs[i - 1], args[i], #[trigger] accs[i])
}

/// The sum of `args`: the first value, with each next value added to the sum so
/// far; nil when there are none. None when a value names nothing in the heap, or
/// the collector runs out of room for a string.
pub fn sum<N: Copy, S, T>(args: &Vec<Value<N>>, vm: &mut Vm<N>, plus: &S, show: &T) -> (r: Option<Value<N>>) where
    S: Fn(Summand<N>, Summand<N>) -> N,
    T: Fn(N) -> String,

    requires
        old(vm).wf(),
        forall|x: Summand<N>, y: Summand<N>| call_requires(*plus, (x, y)),
        forall|n: N| call_requires(*show, (n,)),
    ensures
        final(vm).wf(),
        final(vm).state() == old(vm).state(),
        final(vm).outputs() == old(vm).outputs(),
        final(vm).globals_capacity() == old(vm).globals_capacity(),
        final(vm).globals_table() == old(vm).globals_table(),
        grows(old(vm).heap(), final(vm).heap()),
        args@.len() == 0 ==> r == Some(Value::<N>::Nil),
        r matches Some(v) ==> (args@.len() > 0 ==> exists|accs: Seq<Value<N>>|
            #[trigger] running_sums(final(vm).heap(), *plus, *show, args@, accs) && v == accs.last()),
        r is None ==> (exists|i: int| 0 <= i < args@.len() && !value_ok(old(vm).heap(), #[trigger] args@[i]))
            || !final(vm).heap().collector().has_room(),
{
    if args.len() == 0 {
        return Some(Value::Nil);
    }
    let ghost h0 = vm.heap();
    let mut acc = args[0];
    let ghost mut accs: Seq<Value<N>> = seq![args@[0]];
    let mut i: usize = 1;
    while i < args.len()
        invariant
            vm.wf(),
            vm.state() == old(vm).state(),
            vm.outputs() == old(vm).outputs(),
            vm.globals_capacity() == old(vm).globals_capacity(),
            vm.globals_table() == old(vm).globals_table(),
            h0 == old(vm).heap(),
            grows(h0, vm.heap()),
            1 <= i <= args@.len(),
            accs.len() == i,
            accs[0] == args@[0],
            acc == accs.last(),
            value_ok(vm.heap(), acc) || exists|j: int| 0 <= j < i && !value_ok(h0, #[trigger] args@[j]),
            forall|k: int| 1 <= k < i ==> adds_to(vm.heap(), *plus, *show, accs[k - 1], args@[k], #[trigger] accs[k]),
            forall|x: Summand<N>, y: Summand<N>| call_requires(*plus, (x, y)),
            forall|n: N| call_requires(*show, (n,)),
        decreases args@.len() - i,
    {
        let ghost hb = vm.heap();
        let item = args[i];
        match acc.add(item, vm, plus, show) {
            Some(v) => {
                proof {
                    let ha = vm.heap();
                    lemma_grows_trans(h0, hb, ha);
                    assert forall|k: int| 1 <= k < i implies adds_to(
                        ha,
                        *plus,
                        *show,
                        accs[k - 1],
                        args@[k],
                        #[trigger] accs[k],
                    ) by {
                        lemma_sum_of_grows(
                            hb,
                            ha,
                            *plus,
                            *show,
                            accs[k - 1],
                            args@[k],
                            accs[k],
                            crate::banjo::vm::depth(accs[k - 1], args@[k]),
                        );
                    }
                    if !value_ok(hb, item) {
                        if value_ok(h0, item) {
                            lemma_value_ok_grows(h0, hb, item);
                        }
                        assert(!value_ok(h0, args@[i as int]));
                    } else if value_ok(hb, acc) {
                        assert(value_ok(ha, v));
                    } else {
                        let j = choose|j: int| 0 <= j < i && !value_ok(h0, #[trigger] args@[j]);
                        assert(!value_ok(h0, args@[j]));
                    }
                    accs = accs.push(v);
                    assert(accs[i as int - 1] == acc);
                }
                acc = v;
            },
            None => {
                proof {
                    lemma_grows_trans(h0, hb, vm.heap());
                    if !(value_ok(hb, acc) && value_ok(hb, item)) {
                        if !value_ok(hb, item) {
                            if value_ok(h0, item) {
                                lemma_value_ok_grows(h0, hb, item);
                            }
                            assert(!value_ok(h0, args@[i as int]));
                        } else {
                            let j = choose|j: int| 0 <= j < i && !value_ok(h0, #[trigger] args@[j]);
                            assert(!value_ok(h0, args@[j]));
                        }
                    }
                }
                return None;
            },
        }
        i = i + 1;
    }
    proof {
        assert(running_sums(vm.heap(), *plus, *show, args@, accs));
    }
    Some(acc)
}

/// `r` is `a` times `b` when both are numbers, as `times` multiplies them; else
/// `a`.
pub open spec fn product_step<N, M: Fn(N, N) -> N>(times: M, a: Value<N>, b: Value<N>, r: Value<N>) -> bool {
    match a {
        Value::Number(x) => match b {
            Value::Number(y) => r matches Value::Number(z) && call_ensures(times, (x, y), z),
            _ => r == a,
        },
        _ => r == a,
    }
}

/// `accs` are the running products of `args`: the first value, then each
/// running product times the next value.
pub open spec fn running_products<N, M: Fn(N, N) -> N>(times: M, args: Seq<Value<N>>, accs: Seq<Value<N>>) -> bool {
    &&& accs.len() == args.len()
    &&& args.len() > 0 ==> accs[0] == args[0]
    &&& forall|i: int| 1 <= i < args.len() ==> product_step(times, accs[i - 1], args[i], #[trigger] accs[i])
}

/// The product of `args`: the first value, multiplied by each next value as long
/// as both are numbers, and left as it is by any other; nil when there are none.
pub fn product<N: Copy, M: Fn(N, N) -> N>(args: &Vec<Value<N>>, times: &M) -> (r: Value<N>)
    requires
        forall|x: N, y: N| call_requires(*times, (x, y)),
    ensures
        args@.len() == 0 ==> r == Value::<N>::Nil,
        args@.len() > 0 ==> exists|accs: Seq<Value<N>>|
            #[trigger] running_products(*times, args@, accs) && r == accs.last(),
{
    if args.len() == 0 {
        return Value::Nil;
    }
    let mut acc = args[0];
    let ghost mut accs: Seq<Value<N>> = seq![args@[0]];
    let mut i: usize = 1;
    while i < args.len()
        invariant
            1 <= i <= args@.len(),
            accs.len() == i,
            accs[0] == args@[0],
            acc == accs.last(),
            forall|k: int| 1 <= k < i ==> product_step(*times, accs[k - 1], args@[k], #[trigger] accs[k]),
            forall|x: N, y: N| call_requires(*times, (x, y)),
        decreases args@.len() - i,
    {
        let next = match (acc, args[i]) {
            (Value::Number(x), Value::Number(y)) => Value::Number(times(x, y)),
            _ => acc,
        };
        proof {
            accs = accs.push(next);
            assert(accs[i as int - 1] == acc);
        }
        acc = next;
        i = i + 1;
    }
    proof {
        assert(running_products(*times, args@, accs));
    }
    acc
}

} // verus!

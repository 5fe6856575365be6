use vstd::prelude::*;

use crate::banjo::compiler::{arity_message, Fail};
use crate::banjo::error::{BanjoError, Result};
use crate::banjo::gc::Gc;
use crate::banjo::obj::{function_view, BanjoString, Function, FunctionView, List, Native, NativeFunction};
use crate::banjo::ast::{acyclic, arity_of, distinct_ids, Ast, LiteralType, Node, NodeType, Source};
use crate::banjo::compiler::{compilable, compile_step, texts, uninterned, CState, Compiler, ErrorsView, StringsView};
use crate::banjo::func_compiler::fresh_frame;
use crate::banjo::op_code::OpCode;
use crate::banjo::output::{Output, OutputValues};
use crate::banjo::value::{falsey, Summand, Value};
use crate::gc::{all_unmarked, GcRef};
use crate::obj::LoxStringView;
use crate::stack::Stack;
use crate::table::Table;
use vstd::string::StringExecFns;

verus! {

/// The most calls that can be in progress at once.
pub const FRAMES_MAX: usize = 64;

/// The most values the stack can hold.
pub const STACK_MAX: usize = FRAMES_MAX * 256;

/// Represents a single ongoing function call
pub struct CallFrame<N> {
    pub function: GcRef<Function<N>>,
    /// The index of the next instruction of this function. Returning from this
    /// function will resume from here.
    pub ip: usize,
    /// The first slot in the VM's value stack that this function can use
    pub slot: usize,
}

impl<N> Clone for CallFrame<N> {
    fn clone(&self) -> (c: Self)
        ensures
            c == *self,
    {
        CallFrame { function: self.function, ip: self.ip, slot: self.slot }
    }
}

impl<N> Copy for CallFrame<N> {

}

/// A call in progress as plain values: the slot of its function, its next
/// instruction and its first stack slot.
pub struct CallView {
    pub function: usize,
    pub ip: usize,
    pub slot: usize,
}

/// The plain value of a call frame.
pub open spec fn call_view<N: Copy>(f: CallFrame<N>) -> CallView {
    CallView { function: f.function.slot(), ip: f.ip, slot: f.slot }
}

/// What running changes, as plain values: the stack, the calls in progress
/// (innermost last), the globals by the slot of their name, and the previewed
/// values.
#[verifier::ext_equal]
pub struct VmState<N> {
    pub stack: Seq<Value<N>>,
    pub frames: Seq<CallView>,
    pub globals: Map<usize, Value<N>>,
    pub values: Seq<Value<N>>,
}

/// The operators on two numbers that the caller of a step computes.
#[derive(Clone, Copy, PartialEq, Eq, Structural, Debug)]
pub enum NumberOp {
    Subtract,
    Multiply,
    Divide,
    Greater,
    Less,
    Equal,
}

/// What one step of a run leaves to its caller.
pub enum Step<N> {
    /// The instruction is done.
    Continue,
    /// The script has returned: the run is over.
    Finished,
    /// Two numbers were popped for `op`, `a` below `b`; the caller pushes the
    /// result.
    Numbers { op: NumberOp, a: N, b: N },
    /// A number was popped for negation; the caller pushes its negation.
    Negation(N),
    /// `a` plus `b` is wanted; both stay on the stack and the caller pushes the sum.
    Addition(Value<N>, Value<N>),
    /// A native function is called with `args`, which were popped; the caller
    /// hands its result to `finish_native`.
    Native { function: Native, args: Vec<Value<N>> },
    /// The next instruction cannot be carried out: the code would go outside its
    /// function, its constants or the stack.
    Stuck,
}

/// A step as plain values.
pub enum StepView<N> {
    Continue,
    Finished,
    Numbers { op: NumberOp, a: N, b: N },
    Negation(N),
    Addition(Value<N>, Value<N>),
    Native { function: Native, args: Seq<Value<N>> },
    Stuck,
}

/// The plain value of a step.
pub open spec fn step_view<N: Copy>(s: Step<N>) -> StepView<N> {
    match s {
        Step::Continue => StepView::Continue,
        Step::Finished => StepView::Finished,
        Step::Numbers { op, a, b } => StepView::Numbers { op, a, b },
        Step::Negation(x) => StepView::Negation(x),
        Step::Addition(a, b) => StepView::Addition(a, b),
        Step::Native { function, args } => StepView::Native { function, args: args@ },
        Step::Stuck => StepView::Stuck,
    }
}

/// The plain value of the result of a step.
pub open spec fn step_outcome<N: Copy>(r: Result<Step<N>>) -> core::result::Result<StepView<N>, Fail> {
    match r {
        Ok(s) => Ok(step_view(s)),
        Err(e) => Err(crate::banjo::compiler::fail_of(e)),
    }
}

/// The text of the string in slot `r`.
pub open spec fn text_of(objects: Seq<Option<LoxStringView>>, r: GcRef<BanjoString>) -> Seq<char> {
    objects[r.slot() as int]->Some_0.chars
}

/// The name of the outside function that renders a string as Rust's `Debug` does.
pub uninterp spec fn debug_string(text: Seq<char>) -> Seq<char>;

/// Renders `s` as Rust's `Debug` does for strings, through `format!("{:?}", s)`:
/// in double quotes, with quotes, backslashes and unprintable characters
/// escaped. The contract names the result and states no more of it.
#[verifier::external_body]
fn debug_str(s: &str) -> (r: String)
    ensures
        r@ == debug_string(s@),
{
    format!("{:?}", s)
}

/// How a function is named in a stack trace: `<fn "name">`, or `<script>`.
pub open spec fn function_label<N: Copy>(heap: Gc<N>, function: usize) -> Seq<char> {
    match heap.functions()[function as int].name {
        Some(r) => "<fn "@ + debug_string(text_of(heap.collector().objects(), r)) + ">"@,
        None => "<script>"@,
    }
}

/// The lines of a stack trace, innermost call first.
pub open spec fn trace_lines<N: Copy>(heap: Gc<N>, frames: Seq<CallView>) -> Seq<char>
    decreases frames.len(),
{
    if frames.len() == 0 {
        Seq::empty()
    } else {
        "\nin "@ + function_label(heap, frames.last().function) + trace_lines(heap, frames.drop_last())
    }
}

/// A runtime error with `message` and the calls in progress.
pub open spec fn runtime_fail<N: Copy>(heap: Gc<N>, frames: Seq<CallView>, message: Seq<char>) -> Fail {
    Fail::Runtime(message + trace_lines(heap, frames))
}

/// An error of a native function as the run reports it: a runtime error gets the
/// stack trace; others stay as they are.
pub open spec fn with_trace<N: Copy>(heap: Gc<N>, frames: Seq<CallView>, f: Fail) -> Fail {
    match f {
        Fail::Runtime(m) => runtime_fail(heap, frames, m),
        _ => f,
    }
}

/// `a == b` for two values that are not both numbers: the same variant with the
/// same payload.
pub open spec fn same_value<N: Copy>(a: Value<N>, b: Value<N>) -> bool {
    match (a, b) {
        (Value::Nil, Value::Nil) => true,
        (Value::Bool(x), Value::Bool(y)) => x == y,
        (Value::String(x), Value::String(y)) => x.slot() == y.slot(),
        (Value::List(x), Value::List(y)) => x.slot() == y.slot(),
        (Value::NativeFunction(x), Value::NativeFunction(y)) => x.slot() == y.slot(),
        (Value::Function(x), Value::Function(y)) => x.slot() == y.slot(),
        _ => false,
    }
}

/// The previewed values after writing `value` in slot `index`: slots before it
/// that were never written hold nil.
pub open spec fn written<N: Copy>(values: Seq<Value<N>>, index: int, value: Value<N>) -> Seq<Value<N>> {
    Seq::new(
        if values.len() > index {
            values.len()
        } else {
            (index + 1) as nat
        },
        |i: int|
            if i == index {
                value
            } else if i < values.len() {
                values[i]
            } else {
                Value::Nil
            },
    )
}

/// The state with `value` pushed.
pub open spec fn pushed<N: Copy>(s: VmState<N>, value: Value<N>) -> VmState<N> {
    VmState { stack: s.stack.push(value), ..s }
}

/// The state with the top value popped.
pub open spec fn popped<N: Copy>(s: VmState<N>) -> VmState<N> {
    VmState { stack: s.stack.drop_last(), ..s }
}

/// A two-number operator: both operands popped when they are numbers; else the
/// error.
pub open spec fn numbers_step<N: Copy>(s: VmState<N>, heap: Gc<N>, op: NumberOp) -> (
    VmState<N>,
    core::result::Result<StepView<N>, Fail>,
) {
    let n = s.stack.len();
    match (s.stack[n - 2], s.stack[n - 1]) {
        (Value::Number(a), Value::Number(b)) => (
            VmState { stack: s.stack.subrange(0, n - 2), ..s },
            Ok(StepView::Numbers { op, a, b }),
        ),
        _ => (s, Err(runtime_fail(heap, s.frames, "Operands must be numbers."@))),
    }
}

/// Calling function `function` with the top `arg_count` values as arguments.
pub open spec fn call_step<N: Copy>(s: VmState<N>, heap: Gc<N>, function: usize, arg_count: nat) -> (
    VmState<N>,
    core::result::Result<StepView<N>, Fail>,
) {
    let arity = heap.functions()[function as int].arity;
    if arg_count != arity {
        (s, Err(runtime_fail(heap, s.frames, arity_message(arity as nat, arg_count))))
    } else if s.frames.len() == FRAMES_MAX {
        (s, Err(runtime_fail(heap, s.frames, "Stack overflow."@)))
    } else {
        (
            VmState {
                frames: s.frames.push(CallView { function, ip: 0, slot: (s.stack.len() - 1 - arg_count) as usize }),
                ..s
            },
            Ok(StepView::Continue),
        )
    }
}

/// Calling `callee` with the top `arg_count` values as arguments.
pub open spec fn call_value_step<N: Copy>(s: VmState<N>, heap: Gc<N>, callee: Value<N>, arg_count: nat) -> (
    VmState<N>,
    core::result::Result<StepView<N>, Fail>,
) {
    let n = s.stack.len();
    match callee {
        Value::NativeFunction(r) => (
            VmState { stack: s.stack.subrange(0, n - arg_count), ..s },
            Ok(StepView::Native { function: heap.natives()[r.slot() as int], args: s.stack.subrange(n - arg_count, n as int) }),
        ),
        Value::Function(r) => call_step(s, heap, r.slot() as usize, arg_count),
        _ => (s, Err(runtime_fail(heap, s.frames, "Can only call functions."@))),
    }
}

/// The instruction the innermost call runs next.
pub open spec fn next_instruction<N: Copy>(s: VmState<N>, heap: Gc<N>) -> OpCode {
    let f = s.frames.last();
    heap.functions()[f.function as int].code[f.ip as int]
}

/// One instruction of the innermost call: its instruction pointer moves on, and
/// the instruction is carried out, or left to the caller where it needs number
/// arithmetic or a native function.
pub open spec fn step_spec<N: Copy>(s: VmState<N>, heap: Gc<N>) -> (VmState<N>, core::result::Result<StepView<N>, Fail>) {
    let f = s.frames.last();
    let function = heap.functions()[f.function as int];
    let op = next_instruction(s, heap);
    let s0 = VmState { frames: s.frames.update(s.frames.len() - 1, CallView { ip: (f.ip + 1) as usize, ..f }), ..s };
    let st = s0.stack;
    let n = st.len();
    match op {
        OpCode::Add => (s0, Ok(StepView::Addition(st[n - 2], st[n - 1]))),
        OpCode::Constant(c) => (pushed(s0, function.constants[c.slot as int]), Ok(StepView::Continue)),
        OpCode::Function(c) => (pushed(s0, function.constants[c.slot as int]), Ok(StepView::Continue)),
        OpCode::Divide => numbers_step(s0, heap, NumberOp::Divide),
        OpCode::Multiply => numbers_step(s0, heap, NumberOp::Multiply),
        OpCode::Subtract => numbers_step(s0, heap, NumberOp::Subtract),
        OpCode::Greater => numbers_step(s0, heap, NumberOp::Greater),
        OpCode::Less => numbers_step(s0, heap, NumberOp::Less),
        OpCode::Negate => match st[n - 1] {
            Value::Number(x) => (popped(s0), Ok(StepView::Negation(x))),
            _ => (s0, Err(runtime_fail(heap, s0.frames, "Operand must be a number."@))),
        },
        OpCode::Return => {
            let result = st[n - 1];
            let frames = s0.frames.drop_last();
            if frames.len() == 0 {
                (VmState { stack: st.drop_last(), frames, ..s0 }, Ok(StepView::Finished))
            } else {
                (VmState { stack: st.subrange(0, f.slot as int).push(result), frames, ..s0 }, Ok(StepView::Continue))
            }
        },
        OpCode::Nil => (pushed(s0, Value::Nil), Ok(StepView::Continue)),
        OpCode::True => (pushed(s0, Value::Bool(true)), Ok(StepView::Continue)),
        OpCode::False => (pushed(s0, Value::Bool(false)), Ok(StepView::Continue)),
        OpCode::Not => (pushed(popped(s0), Value::Bool(falsey(st[n - 1]))), Ok(StepView::Continue)),
        OpCode::Equal => {
            let a = st[n - 1];
            let b = st[n - 2];
            let rest = VmState { stack: st.subrange(0, n - 2), ..s0 };
            match (a, b) {
                (Value::Number(x), Value::Number(y)) => (rest, Ok(StepView::Numbers { op: NumberOp::Equal, a: x, b: y })),
                _ => (pushed(rest, Value::Bool(same_value(a, b))), Ok(StepView::Continue)),
            }
        },
        OpCode::Pop => (popped(s0), Ok(StepView::Continue)),
        OpCode::DefineGlobal(c) => {
            let name = function.constants[c.slot as int]->String_0;
            (
                VmState { globals: s0.globals.insert(name.slot(), st[n - 1]), stack: st.drop_last(), ..s0 },
                Ok(StepView::Continue),
            )
        },
        OpCode::GetGlobal(c) => {
            let name = function.constants[c.slot as int]->String_0;
            if s0.globals.contains_key(name.slot()) {
                (pushed(s0, s0.globals[name.slot()]), Ok(StepView::Continue))
            } else {
                (
                    s0,
                    Err(
                        runtime_fail(
                            heap,
                            s0.frames,
                            "Undefined variable '"@ + text_of(heap.collector().objects(), name) + "'."@,
                        ),
                    ),
                )
            }
        },
        OpCode::GetLocal(offset) => (pushed(s0, st[f.slot + offset]), Ok(StepView::Continue)),
        OpCode::Call { arg_count } => call_value_step(s0, heap, st[n - 1 - arg_count], arg_count as nat),
        OpCode::Output { output_index } => (
            VmState { values: written(s0.values, output_index as int, st[n - 1]), ..s0 },
            Ok(StepView::Continue),
        ),
    }
}

/// An instruction on two numbers, run with two numbers on top of the stack, pops
/// both and hands its caller the operator that the instruction names, the lower
/// number as `a` and the top one as `b`: `Divide` hands over division, so the
/// caller pushes `a / b`; `Multiply` multiplication, `Subtract` subtraction,
/// `Greater` and `Less` the comparisons. `Equal` on two numbers hands over
/// equality, with the operands in the other order (which equality ignores).
pub proof fn number_instructions_hand_over_their_operator<N: Copy>(s: VmState<N>, heap: Gc<N>)
    requires
        s.frames.len() > 0,
        s.stack.len() >= 2,
        s.stack[s.stack.len() - 2] is Number,
        s.stack[s.stack.len() - 1] is Number,
    ensures
        next_instruction(s, heap) == OpCode::Divide ==> step_spec(s, heap).1 == Ok::<StepView<N>, Fail>(
            StepView::Numbers {
                op: NumberOp::Divide,
                a: s.stack[s.stack.len() - 2]->Number_0,
                b: s.stack[s.stack.len() - 1]->Number_0,
            },
        ),
        next_instruction(s, heap) == OpCode::Multiply ==> step_spec(s, heap).1 == Ok::<StepView<N>, Fail>(
            StepView::Numbers {
                op: NumberOp::Multiply,
                a: s.stack[s.stack.len() - 2]->Number_0,
                b: s.stack[s.stack.len() - 1]->Number_0,
            },
        ),
        next_instruction(s, heap) == OpCode::Subtract ==> step_spec(s, heap).1 == Ok::<StepView<N>, Fail>(
            StepView::Numbers {
                op: NumberOp::Subtract,
                a: s.stack[s.stack.len() - 2]->Number_0,
                b: s.stack[s.stack.len() - 1]->Number_0,
            },
        ),
        next_instruction(s, heap) == OpCode::Greater ==> step_spec(s, heap).1 == Ok::<StepView<N>, Fail>(
            StepView::Numbers {
                op: NumberOp::Greater,
                a: s.stack[s.stack.len() - 2]->Number_0,
                b: s.stack[s.stack.len() - 1]->Number_0,
            },
        ),
        next_instruction(s, heap) == OpCode::Less ==> step_spec(s, heap).1 == Ok::<StepView<N>, Fail>(
            StepView::Numbers {
                op: NumberOp::Less,
                a: s.stack[s.stack.len() - 2]->Number_0,
                b: s.stack[s.stack.len() - 1]->Number_0,
            },
        ),
        next_instruction(s, heap) == OpCode::Equal ==> step_spec(s, heap).1 == Ok::<StepView<N>, Fail>(
            StepView::Numbers {
                op: NumberOp::Equal,
                a: s.stack[s.stack.len() - 1]->Number_0,
                b: s.stack[s.stack.len() - 2]->Number_0,
            },
        ),
        next_instruction(s, heap) is Divide || next_instruction(s, heap) is Multiply || next_instruction(s, heap) is Subtract
            || next_instruction(s, heap) is Greater || next_instruction(s, heap) is Less || next_instruction(s, heap) is Equal
            ==> step_spec(s, heap).0.stack == s.stack.subrange(0, s.stack.len() - 2) && step_spec(s, heap).0.globals
            == s.globals && step_spec(s, heap).0.values == s.values,
{
}

/// `Not` replaces the top value by `true` exactly when it is `nil` or `false`;
/// `Negate` on a number pops it and hands it over for negation; `Add` hands over
/// the two top values, the lower one first, and leaves them on the stack.
pub proof fn not_negate_and_add_do_what_they_name<N: Copy>(s: VmState<N>, heap: Gc<N>)
    requires
        s.frames.len() > 0,
        s.stack.len() >= 2,
    ensures
        next_instruction(s, heap) == OpCode::Not ==> step_spec(s, heap).1 is Ok && step_spec(s, heap).0.stack
            == s.stack.drop_last().push(
            Value::Bool(
                s.stack.last() == Value::<N>::Nil || s.stack.last() == Value::<N>::Bool(false),
            ),
        ),
        next_instruction(s, heap) == OpCode::Negate && s.stack.last() is Number ==> step_spec(s, heap).1
            == Ok::<StepView<N>, Fail>(StepView::Negation(s.stack.last()->Number_0)) && step_spec(s, heap).0.stack
            == s.stack.drop_last(),
        next_instruction(s, heap) == OpCode::Add ==> step_spec(s, heap).1 == Ok::<StepView<N>, Fail>(
            StepView::Addition(s.stack[s.stack.len() - 2], s.stack[s.stack.len() - 1]),
        ) && step_spec(s, heap).0.stack == s.stack,
{
}

/// The name that constant `c` of the innermost call's function holds.
pub open spec fn constant_name<N: Copy>(s: VmState<N>, heap: Gc<N>, c: crate::banjo::op_code::Constant) -> usize {
    heap.functions()[s.frames.last().function as int].constants[c.slot as int]->String_0.slot()
}

/// A global reads back what defining it wrote: after `DefineGlobal` pops the top
/// value into a global, a `GetGlobal` of the same name pushes that value.
pub proof fn a_defined_global_reads_back<N: Copy>(s: VmState<N>, heap: Gc<N>)
    requires
        s.frames.len() > 0,
        s.stack.len() >= 1,
        next_instruction(s, heap) is DefineGlobal,
        next_instruction(step_spec(s, heap).0, heap) is GetGlobal,
        constant_name(s, heap, next_instruction(s, heap)->DefineGlobal_0) == constant_name(
            step_spec(s, heap).0,
            heap,
            next_instruction(step_spec(s, heap).0, heap)->GetGlobal_0,
        ),
    ensures
        step_spec(s, heap).1 == Ok::<StepView<N>, Fail>(StepView::Continue),
        step_spec(s, heap).0.stack == s.stack.drop_last(),
        step_spec(step_spec(s, heap).0, heap).1 == Ok::<StepView<N>, Fail>(StepView::Continue),
        step_spec(step_spec(s, heap).0, heap).0.stack == s.stack,
{
    let t = step_spec(s, heap).0;
    assert(t.frames.last().function == s.frames.last().function);
    assert(t.globals.contains_key(constant_name(s, heap, next_instruction(s, heap)->DefineGlobal_0)));
    assert(s.stack.drop_last().push(s.stack.last()) =~= s.stack);
}

/// The slots of the strings a value names.
pub open spec fn value_slots<N>(v: Value<N>) -> Set<usize> {
    match v {
        Value::String(r) => set![r.slot()],
        _ => Set::empty(),
    }
}

/// The slots of the strings the values name.
pub open spec fn values_slots<N>(vs: Seq<Value<N>>) -> Set<usize>
    decreases vs.len(),
{
    if vs.len() == 0 {
        Set::empty()
    } else {
        values_slots(vs.drop_last()).union(value_slots(vs.last()))
    }
}

/// The slots of the strings the values of a map name.
pub open spec fn map_slots<N>(m: Map<usize, Value<N>>) -> Set<usize> {
    Set::new(|k: usize| exists|g: usize| m.contains_key(g) && #[trigger] value_slots(m[g]).contains(k))
}

/// The slots of the strings a function holds: its name and its constants.
pub open spec fn function_slots<N>(f: FunctionView<N>) -> Set<usize> {
    let name: Set<usize> = match f.name {
        Some(r) => set![r.slot()],
        None => Set::empty(),
    };
    name.union(values_slots(f.constants))
}

/// The slots of the strings the functions hold.
pub open spec fn functions_slots<N>(fs: Seq<FunctionView<N>>) -> Set<usize>
    decreases fs.len(),
{
    if fs.len() == 0 {
        Set::empty()
    } else {
        functions_slots(fs.drop_last()).union(function_slots(fs.last()))
    }
}

/// The slots of the strings the lists hold.
pub open spec fn lists_slots<N>(ls: Seq<Seq<Value<N>>>) -> Set<usize>
    decreases ls.len(),
{
    if ls.len() == 0 {
        Set::empty()
    } else {
        lists_slots(ls.drop_last()).union(values_slots(ls.last()))
    }
}

/// The strings a collection keeps: those on the stack, the names and values of
/// the globals, and those the functions and lists hold, which are never freed.
pub open spec fn roots<N: Copy>(s: VmState<N>, heap: Gc<N>) -> Set<usize> {
    values_slots(s.stack).union(s.globals.dom()).union(map_slots(s.globals)).union(
        functions_slots(heap.functions()),
    ).union(lists_slots(heap.lists()))
}

/// The strings with the mark set exactly on the slots of `marks`.
pub open spec fn marked_with(objects: Seq<Option<LoxStringView>>, marks: Set<usize>) -> Seq<Option<LoxStringView>> {
    Seq::new(
        objects.len(),
        |i: int|
            match objects[i] {
                Some(o) => Some(LoxStringView { marked: marks.contains(i as usize), ..o }),
                None => None,
            },
    )
}

/// The strings that a collection keeping `keep` leaves.
pub open spec fn kept(objects: Seq<Option<LoxStringView>>, keep: Set<usize>) -> Seq<Option<LoxStringView>> {
    Seq::new(
        objects.len(),
        |i: int|
            if keep.contains(i as usize) {
                objects[i]
            } else {
                None
            },
    )
}

/// Marking nothing changes nothing in strings that carry no mark.
proof fn lemma_marked_with_empty(objects: Seq<Option<LoxStringView>>)
    requires
        all_unmarked(objects),
    ensures
        marked_with(objects, Set::empty()) == objects,
{
    assert(marked_with(objects, Set::empty()) =~= objects);
}

/// Marking the strings of `v`, given the strings as marked by `marks`.
fn mark_value<N: Copy>(
    gc: &mut crate::gc::Gc,
    v: &Value<N>,
    Ghost(base): Ghost<Seq<Option<LoxStringView>>>,
    Ghost(marks): Ghost<Set<usize>>,
)
    requires
        old(gc).wf(),
        old(gc).objects() == marked_with(base, marks),
    ensures
        final(gc).wf(),
        final(gc).objects() == marked_with(base, marks.union(value_slots(*v))),
        final(gc).interned() == old(gc).interned(),
        final(gc).bytes_allocated() == old(gc).bytes_allocated(),
        final(gc).next_gc() == old(gc).next_gc(),
        final(gc).table_bound() == old(gc).table_bound(),
{
    match v {
        Value::String(r) => mark_string(gc, *r, Ghost(base), Ghost(marks)),
        _ => {
            proof {
                assert(marks.union(value_slots(*v)) =~= marks);
            }
        },
    }
}

/// Marking the string `r`, if it is alive, given the strings as marked by `marks`.
fn mark_string(
    gc: &mut crate::gc::Gc,
    r: GcRef<BanjoString>,
    Ghost(base): Ghost<Seq<Option<LoxStringView>>>,
    Ghost(marks): Ghost<Set<usize>>,
)
    requires
        old(gc).wf(),
        old(gc).objects() == marked_with(base, marks),
    ensures
        final(gc).wf(),
        final(gc).objects() == marked_with(base, marks.insert(r.slot())),
        final(gc).interned() == old(gc).interned(),
        final(gc).bytes_allocated() == old(gc).bytes_allocated(),
        final(gc).next_gc() == old(gc).next_gc(),
        final(gc).table_bound() == old(gc).table_bound(),
{
    let heap = gc.heap();
    let live = r.index() < heap.len() && heap.slot(r.index()).is_some();
    if live {
        r.mark_gray(gc);
    }
    proof {
        assert(gc.objects() =~= marked_with(base, marks.insert(r.slot())));
    }
}

/// The slots of the strings of a list of pairs: each key, and the string of
/// each value.
pub open spec fn pair_slots<N>(ps: Seq<(GcRef<BanjoString>, Value<N>)>) -> Set<usize>
    decreases ps.len(),
{
    if ps.len() == 0 {
        Set::empty()
    } else {
        pair_slots(ps.drop_last()).insert(ps.last().0.slot()).union(value_slots(ps.last().1))
    }
}

proof fn lemma_pair_slots<N>(ps: Seq<(GcRef<BanjoString>, Value<N>)>, k: usize)
    ensures
        pair_slots(ps).contains(k) <==> exists|j: int|
            0 <= j < ps.len() && ((#[trigger] ps[j]).0.slot() == k || value_slots(ps[j].1).contains(k)),
    decreases ps.len(),
{
    if ps.len() > 0 {
        lemma_pair_slots(ps.drop_last(), k);
        if pair_slots(ps).contains(k) {
            if pair_slots(ps.drop_last()).contains(k) {
                let j = choose|j: int|
                    0 <= j < ps.drop_last().len() && ((#[trigger] ps.drop_last()[j]).0.slot() == k || value_slots(
                        ps.drop_last()[j].1,
                    ).contains(k));
                assert(ps[j] == ps.drop_last()[j]);
            } else {
                assert(ps[ps.len() - 1] == ps.last());
            }
        }
        if exists|j: int| 0 <= j < ps.len() && ((#[trigger] ps[j]).0.slot() == k || value_slots(ps[j].1).contains(k)) {
            let j = choose|j: int| 0 <= j < ps.len() && ((#[trigger] ps[j]).0.slot() == k || value_slots(ps[j].1).contains(k));
            if j < ps.len() - 1 {
                assert(ps.drop_last()[j] == ps[j]);
            }
        }
    }
}

/// The values of a list of prefixes: one more value adds its strings.
proof fn lemma_values_slots_take<N>(vs: Seq<Value<N>>, i: int)
    requires
        0 <= i < vs.len(),
    ensures
        values_slots(vs.take(i + 1)) == values_slots(vs.take(i)).union(value_slots(vs[i])),
{
    assert(vs.take(i + 1).drop_last() =~= vs.take(i));
}

proof fn lemma_pair_slots_take<N>(ps: Seq<(GcRef<BanjoString>, Value<N>)>, i: int)
    requires
        0 <= i < ps.len(),
    ensures
        pair_slots(ps.take(i + 1)) == pair_slots(ps.take(i)).insert(ps[i].0.slot()).union(value_slots(ps[i].1)),
{
    assert(ps.take(i + 1).drop_last() =~= ps.take(i));
}

proof fn lemma_functions_slots_take<N>(fs: Seq<FunctionView<N>>, i: int)
    requires
        0 <= i < fs.len(),
    ensures
        functions_slots(fs.take(i + 1)) == functions_slots(fs.take(i)).union(function_slots(fs[i])),
{
    assert(fs.take(i + 1).drop_last() =~= fs.take(i));
}

proof fn lemma_lists_slots_take<N>(ls: Seq<Seq<Value<N>>>, i: int)
    requires
        0 <= i < ls.len(),
    ensures
        lists_slots(ls.take(i + 1)) == lists_slots(ls.take(i)).union(values_slots(ls[i])),
{
    assert(ls.take(i + 1).drop_last() =~= ls.take(i));
}

/// A collection of `before` that keeps the strings of `keep` gave `after`: the
/// other strings are freed and leave the intern table, and the byte count and the
/// point of the next collection follow what is left.
pub open spec fn collected(before: crate::gc::Gc, after: crate::gc::Gc, keep: Set<usize>) -> bool {
    &&& after.objects() == kept(before.objects(), keep)
    &&& after.interned() == before.interned().intersect(keep)
    &&& after.table_bound() == before.table_bound()
    &&& after.bytes_allocated() == crate::gc::live_count(after.objects()) * crate::gc::object_size()
    &&& after.next_gc() == if after.bytes_allocated() > 0 {
        2 * after.bytes_allocated()
    } else {
        before.next_gc() as int
    }
}

/// What the collector is after the check for garbage: collected, keeping `keep`,
/// when its byte count has passed the point of the next collection; else as it
/// was.
pub open spec fn after_gc_check(before: crate::gc::Gc, after: crate::gc::Gc, keep: Set<usize>) -> bool {
    if before.bytes_allocated() > before.next_gc() {
        collected(before, after, keep)
    } else {
        after == before
    }
}

/// Freeing strings does not make more of them alive.
proof fn lemma_kept_count(objects: Seq<Option<LoxStringView>>, keep: Set<usize>)
    ensures
        crate::gc::live_count(kept(objects, keep)) <= crate::gc::live_count(objects),
    decreases objects.len(),
{
    if objects.len() > 0 {
        assert(kept(objects, keep).drop_last() =~= kept(objects.drop_last(), keep));
        lemma_kept_count(objects.drop_last(), keep);
    }
}

/// What compiling starts from: a script frame, and the heap and outputs as they
/// are.
pub open spec fn compile_start<N: Copy>(heap: Gc<N>, output: OutputValues<N>) -> CState<N> {
    CState {
        frames: seq![fresh_frame(None, 0)],
        strings: StringsView { objects: heap.collector().objects(), interned: heap.collector().interned() },
        functions: heap.functions(),
        outputs: output.nodes(),
        values: output.values(),
        errors: ErrorsView {
            nodes: output.errors().node_errors_map(),
            additional: output.errors().additional_view(),
        },
    }
}

/// A source can be compiled: its ids are distinct, following inputs from a root
/// or a definition never loops, each arity fits a `usize`, and no node takes a
/// definition as an input.
pub open spec fn source_ok<N>(nodes: Seq<Node<N>>) -> bool {
    &&& distinct_ids(nodes)
    &&& acyclic(nodes)
    &&& forall|i: int|
        0 <= i < nodes.len() && (#[trigger] nodes[i]).node_type is FunctionDefinition ==> arity_of(nodes, i)
            <= usize::MAX
    &&& compilable(nodes)
}

/// A check for garbage never raises the byte count.
proof fn lemma_gc_check_bytes(before: crate::gc::Gc, after: crate::gc::Gc, keep: Set<usize>)
    requires
        before.wf(),
        after_gc_check(before, after, keep),
    ensures
        after.bytes_allocated() <= before.bytes_allocated(),
        after.table_bound() == before.table_bound(),
{
    before.bytes_count_live_objects();
    if before.bytes_allocated() > before.next_gc() {
        lemma_kept_count(before.objects(), keep);
        let a = crate::gc::live_count(after.objects());
        let b = crate::gc::live_count(before.objects());
        assert(a * crate::gc::object_size() <= b * crate::gc::object_size()) by (nonlinear_arith)
            requires
                a <= b,
        ;
    }
}

/// Starting a run of the program `ast` from the heap `heap`, the outputs
/// `output` and the state `s` gives `heap2`, `output2`, `s2` and the script
/// `script`: compiling gives the heap, outputs and script of `compile_step`; the
/// script is pushed, where it stays, and called, and a failing call is recorded.
pub open spec fn started<N: Copy>(
    heap: Gc<N>,
    output: OutputValues<N>,
    s: VmState<N>,
    ast: Ast<N>,
    heap2: Gc<N>,
    output2: OutputValues<N>,
    s2: VmState<N>,
    script: usize,
) -> bool {
    let (cs, slot) = compile_step(compile_start(heap, output), ast);
    let with_script = VmState {
        stack: s.stack.push(Value::Function(GcRef::at(slot as usize))),
        values: cs.values,
        ..s
    };
    let (s3, r) = call_step(with_script, heap2, slot as usize, 0);
    &&& script == slot
    &&& heap2.collector().objects() == cs.strings.objects
    &&& heap2.collector().interned() == cs.strings.interned
    &&& heap2.functions() == cs.functions
    &&& heap2.natives() == heap.natives()
    &&& heap2.lists() == heap.lists()
    &&& output2.nodes() == cs.outputs
    &&& s2 == s3
    &&& output2.errors().node_errors_map() == cs.errors.nodes
    &&& output2.errors().additional_view() == match r {
        Err(Fail::Runtime(m)) => cs.errors.additional.push(m),
        _ => cs.errors.additional,
    }
}

/// Writing a previewed value: the slot written holds the value, and every
/// other slot keeps what it held.
pub proof fn written_slot_holds_value<N: Copy>(values: Seq<Value<N>>, index: int, value: Value<N>)
    requires
        0 <= index,
    ensures
        written(values, index, value)[index] == value,
        forall|j: int| 0 <= j < values.len() && j != index ==> #[trigger] written(values, index, value)[j] == values[j],
        written(values, index, value).len() == if values.len() > index {
            values.len()
        } else {
            (index + 1) as nat
        },
{
}

/// A collection keeps each string it was told to keep as it was, and frees the
/// others.
pub proof fn collection_keeps_exactly_the_roots(before: crate::gc::Gc, after: crate::gc::Gc, keep: Set<usize>, k: int)
    requires
        collected(before, after, keep),
        0 <= k < before.objects().len(),
    ensures
        keep.contains(k as usize) ==> after.objects()[k] == before.objects()[k],
        !keep.contains(k as usize) ==> after.objects()[k] is None,
        after.objects().len() == before.objects().len(),
{
}

/// Every call in progress runs a function of the heap, and its next
/// instruction lies within the function's code or just past its end; there are
/// at most `FRAMES_MAX` calls.
pub open spec fn frames_in_code<N: Copy>(s: VmState<N>, heap: Gc<N>) -> bool {
    &&& s.frames.len() <= FRAMES_MAX
    &&& forall|i: int|
        0 <= i < s.frames.len() ==> {
            let f = #[trigger] s.frames[i];
            &&& f.function < heap.functions().len()
            &&& f.ip <= heap.functions()[f.function as int].code.len()
            &&& heap.functions()[f.function as int].code.len() <= usize::MAX
        }
}

/// `b` to the power `e`.
pub open spec fn power(b: nat, e: nat) -> nat
    decreases e,
{
    if e == 0 {
        1
    } else {
        b * power(b, (e - 1) as nat)
    }
}

/// The length of the longest code among the functions.
pub open spec fn longest_code<N>(fs: Seq<FunctionView<N>>) -> nat
    decreases fs.len(),
{
    if fs.len() == 0 {
        0
    } else if longest_code(fs.drop_last()) >= fs.last().code.len() {
        longest_code(fs.drop_last())
    } else {
        fs.last().code.len()
    }
}

/// How much running is left at most, read as a number whose digits, one per call
/// in progress from the outermost, are the instructions left in that call plus
/// one: every step that continues makes it smaller.
pub open spec fn progress<N: Copy>(frames: Seq<CallView>, heap: Gc<N>) -> nat
    decreases frames.len(),
{
    if frames.len() == 0 {
        0
    } else {
        let f = frames.last();
        let left = (heap.functions()[f.function as int].code.len() - f.ip + 1) as nat;
        progress(frames.drop_last(), heap) + left * power(
            longest_code(heap.functions()) + 2,
            (FRAMES_MAX - frames.len()) as nat,
        )
    }
}

/// The state after `n` steps from `s`.
pub open spec fn iterate<N: Copy>(s: VmState<N>, heap: Gc<N>, n: nat) -> VmState<N>
    decreases n,
{
    if n == 0 {
        s
    } else {
        step_spec(iterate(s, heap, (n - 1) as nat), heap).0
    }
}

/// Each of the first `n` steps from `s` was carried out with nothing left to
/// the caller.
pub open spec fn continues<N: Copy>(s: VmState<N>, heap: Gc<N>, n: nat) -> bool {
    forall|j: nat| j < n ==> #[trigger] step_spec(iterate(s, heap, j), heap).1 == Ok::<StepView<N>, Fail>(StepView::Continue)
}

/// How a run that reached `t` ended, in `end` with the result `r`: stuck where
/// the next instruction cannot be carried out, or with a step that left
/// something to the caller, finished the script, or failed.
pub open spec fn run_ends<N: Copy>(
    t: VmState<N>,
    heap: Gc<N>,
    end: VmState<N>,
    globals_capacity: nat,
    r: core::result::Result<StepView<N>, Fail>,
) -> bool {
    if r == Ok::<StepView<N>, Fail>(StepView::Stuck) {
        end == t && !can_step(t, heap, globals_capacity)
    } else {
        &&& (end, r) == step_spec(t, heap)
        &&& r != Ok::<StepView<N>, Fail>(StepView::Continue)
    }
}

proof fn lemma_power_positive(b: nat, e: nat)
    requires
        b > 0,
    ensures
        power(b, e) > 0,
    decreases e,
{
    if e > 0 {
        lemma_power_positive(b, (e - 1) as nat);
        assert(b * power(b, (e - 1) as nat) > 0) by (nonlinear_arith)
            requires
                b > 0,
                power(b, (e - 1) as nat) > 0,
        ;
    }
}

proof fn lemma_longest_code<N>(fs: Seq<FunctionView<N>>, i: int)
    requires
        0 <= i < fs.len(),
    ensures
        fs[i].code.len() <= longest_code(fs),
    decreases fs.len(),
{
    if i < fs.len() - 1 {
        assert(fs.drop_last()[i] == fs[i]);
        lemma_longest_code(fs.drop_last(), i);
    }
}

/// A step that continues keeps the calls within their code and lessens the
/// running left.
proof fn lemma_step_progress<N: Copy>(s: VmState<N>, heap: Gc<N>, globals_capacity: nat)
    requires
        can_step(s, heap, globals_capacity),
        frames_in_code(s, heap),
    ensures
        frames_in_code(step_spec(s, heap).0, heap),
        step_spec(s, heap).1 == Ok::<StepView<N>, Fail>(StepView::Continue) ==> progress(step_spec(s, heap).0.frames, heap)
            < progress(s.frames, heap),
{
    let k = s.frames.len();
    let f = s.frames.last();
    let fs = heap.functions();
    let b = longest_code(fs) + 2;
    let len = fs[f.function as int].code.len();
    let g = CallView { ip: (f.ip + 1) as usize, ..f };
    let frames0 = s.frames.update(k - 1, g);
    let t = step_spec(s, heap).0;
    let p = progress(s.frames.drop_last(), heap);
    let w = power(b, (FRAMES_MAX - k) as nat);
    assert(s.frames[k - 1] == f);
    lemma_power_positive(b, (FRAMES_MAX - k) as nat);
    assert(frames0.drop_last() =~= s.frames.drop_last());
    assert(frames0.last() == g);
    assert(progress(s.frames, heap) == p + ((len - f.ip + 1) as nat) * w);
    assert(progress(frames0, heap) == p + ((len - f.ip) as nat) * w);
    assert(((len - f.ip) as nat) * w < ((len - f.ip + 1) as nat) * w) by (nonlinear_arith)
        requires
            w > 0,
            f.ip < len,
    ;
    assert(((len - f.ip) as nat) * w + w == ((len - f.ip + 1) as nat) * w) by (nonlinear_arith)
        requires
            f.ip < len,
    ;
    assert(frames_in_code(VmState { frames: frames0, ..s }, heap)) by {
        assert forall|i: int| 0 <= i < frames0.len() implies {
            let h = #[trigger] frames0[i];
            &&& h.function < fs.len()
            &&& h.ip <= fs[h.function as int].code.len()
            &&& fs[h.function as int].code.len() <= usize::MAX
        } by {
            if i < k - 1 {
                assert(frames0[i] == s.frames[i]);
            }
        }
    }
    match next_instruction(s, heap) {
        OpCode::Return => {
            if t.frames.len() > 0 {
                assert(t.frames == frames0.drop_last());
                assert(progress(t.frames, heap) == p);
                assert(((len - f.ip) as nat) * w > 0) by (nonlinear_arith)
                    requires
                        w > 0,
                        f.ip < len,
                ;
            }
            assert(frames_in_code(t, heap)) by {
                assert forall|i: int| 0 <= i < t.frames.len() implies {
                    let h = #[trigger] t.frames[i];
                    &&& h.function < fs.len()
                    &&& h.ip <= fs[h.function as int].code.len()
                    &&& fs[h.function as int].code.len() <= usize::MAX
                } by {
                    assert(t.frames[i] == s.frames[i]);
                }
            }
        },
        OpCode::Call { arg_count } => {
            let n = s.stack.len();
            let callee = s.stack[n - 1 - arg_count];
            let s0 = VmState { frames: frames0, ..s };
            match callee {
                Value::Function(r) => {
                    let arity = fs[r.slot() as int].arity;
                    if arg_count as nat == arity && k != FRAMES_MAX {
                        let c = CallView { function: r.slot() as usize, ip: 0, slot: (n - 1 - arg_count) as usize };
                        assert(t.frames == frames0.push(c));
                        assert(k < FRAMES_MAX);
                        let w1 = power(b, (FRAMES_MAX - k - 1) as nat);
                        assert(w == b * w1);
                        lemma_power_positive(b, (FRAMES_MAX - k - 1) as nat);
                        lemma_longest_code(fs, r.slot() as int);
                        let lc = (fs[r.slot() as int].code.len() + 1) as nat;
                        assert(t.frames.drop_last() == frames0);
                        assert(progress(t.frames, heap) == progress(frames0, heap) + lc * w1);
                        assert(lc * w1 < b * w1) by (nonlinear_arith)
                            requires
                                lc < b,
                                w1 > 0,
                        ;
                        assert(frames_in_code(t, heap)) by {
                            assert forall|i: int| 0 <= i < t.frames.len() implies {
                                let h = #[trigger] t.frames[i];
                                &&& h.function < fs.len()
                                &&& h.ip <= fs[h.function as int].code.len()
                                &&& fs[h.function as int].code.len() <= usize::MAX
                            } by {
                                if i < k {
                                    assert(t.frames[i] == frames0[i]);
                                }
                            }
                        }
                    } else {
                        assert(t.frames == frames0);
                    }
                },
                _ => {
                    assert(t.frames == frames0);
                },
            }
        },
        _ => {
            assert(t.frames == frames0);
        },
    }
}

/// One more step that continues.
proof fn lemma_continues_extend<N: Copy>(s: VmState<N>, heap: Gc<N>, n: nat)
    requires
        continues(s, heap, n),
        step_spec(iterate(s, heap, n), heap).1 == Ok::<StepView<N>, Fail>(StepView::Continue),
    ensures
        continues(s, heap, n + 1),
        iterate(s, heap, n + 1) == step_spec(iterate(s, heap, n), heap).0,
{
    assert forall|j: nat| j < n + 1 implies #[trigger] step_spec(iterate(s, heap, j), heap).1 == Ok::<StepView<N>, Fail>(
        StepView::Continue,
    ) by {
        if j < n {
            assert(step_spec(iterate(s, heap, j), heap).1 == Ok::<StepView<N>, Fail>(StepView::Continue));
        }
    }
}

/// A string reference that can be read.
pub open spec fn readable<N: Copy>(heap: Gc<N>, r: GcRef<BanjoString>) -> bool {
    heap.collector().is_live(r)
}

/// A value whose reference, if any, names an object of the heap.
pub open spec fn value_ok<N: Copy>(heap: Gc<N>, v: Value<N>) -> bool {
    match v {
        Value::String(r) => readable(heap, r),
        Value::List(r) => r.slot() < heap.lists().len(),
        Value::NativeFunction(r) => r.slot() < heap.natives().len(),
        Value::Function(r) => r.slot() < heap.functions().len(),
        _ => true,
    }
}

/// A value the list in slot `l` holds: it names an object of the heap, and a
/// list it names was made before the list that holds it.
pub open spec fn element_ok<N: Copy>(heap: Gc<N>, l: int, v: Value<N>) -> bool {
    &&& value_ok(heap, v)
    &&& v matches Value::List(r) ==> r.slot() < l
}

/// Every value of every list fits the list that holds it.
pub open spec fn lists_ok<N: Copy>(heap: Gc<N>) -> bool {
    forall|l: int, i: int|
        0 <= l < heap.lists().len() && 0 <= i < heap.lists()[l].len() ==> element_ok(
            heap,
            l,
            #[trigger] heap.lists()[l][i],
        )
}

/// The string a value of a list names is among the strings of the values.
proof fn lemma_values_slots_contains<N>(vs: Seq<Value<N>>, i: int)
    requires
        0 <= i < vs.len(),
    ensures
        value_slots(vs[i]).subset_of(values_slots(vs)),
    decreases vs.len(),
{
    if i < vs.len() - 1 {
        lemma_values_slots_contains(vs.drop_last(), i);
        assert(vs.drop_last()[i] == vs[i]);
    }
}

/// The string a value of a list names is among the strings of the lists.
proof fn lemma_list_value_slots<N>(ls: Seq<Seq<Value<N>>>, l: int, i: int)
    requires
        0 <= l < ls.len(),
        0 <= i < ls[l].len(),
    ensures
        value_slots(ls[l][i]).subset_of(lists_slots(ls)),
    decreases ls.len(),
{
    if l == ls.len() - 1 {
        lemma_values_slots_contains(ls[l], i);
    } else {
        lemma_list_value_slots(ls.drop_last(), l, i);
        assert(ls.drop_last()[l] == ls[l]);
    }
}

/// The lists stay well formed while the heap keeps them, does not lose
/// functions or native functions, and keeps the strings they hold.
proof fn lemma_lists_ok_kept<N: Copy>(before: Gc<N>, after: Gc<N>)
    requires
        lists_ok(before),
        after.lists() == before.lists(),
        before.functions().len() <= after.functions().len(),
        before.natives().len() <= after.natives().len(),
        forall|k: usize|
            #[trigger] lists_slots(before.lists()).contains(k) && crate::gc::live_in(
                before.collector().objects(),
                GcRef::at(k),
            ) ==> crate::gc::live_in(after.collector().objects(), GcRef::at(k)),
    ensures
        lists_ok(after),
{
    assert forall|l: int, i: int|
        0 <= l < after.lists().len() && 0 <= i < after.lists()[l].len() implies element_ok(
        after,
        l,
        #[trigger] after.lists()[l][i],
    ) by {
        let v = before.lists()[l][i];
        assert(element_ok(before, l, v));
        lemma_list_value_slots(before.lists(), l, i);
        if let Value::String(r) = v {
            crate::gc::GcRef::<BanjoString>::lemma_at(r.slot(), r);
            assert(value_slots(v).contains(r.slot()));
            assert(lists_slots(before.lists()).contains(r.slot()));
        }
    }
}

/// Adding leaves the other operand as it is: nil and functions.
pub open spec fn passes<N>(v: Value<N>) -> bool {
    v is Nil || v is Function || v is NativeFunction
}

/// How a boolean is written out.
pub open spec fn bool_text(b: bool) -> Seq<char> {
    if b {
        "true"@
    } else {
        "false"@
    }
}

/// The summand a boolean or a number stands for.
pub open spec fn summand_of<N>(v: Value<N>) -> Summand<N> {
    match v {
        Value::Number(n) => Summand::Number(n),
        Value::Bool(b) => Summand::Bool(b),
        _ => Summand::Bool(false),
    }
}

/// `text` is how the boolean or number `v` reads when joined to a string: a
/// boolean as `true` or `false`, a number as `show` writes it.
pub open spec fn reads_as<N, T: Fn(N) -> String>(show: T, v: Value<N>, text: Seq<char>) -> bool {
    match v {
        Value::Bool(b) => text == bool_text(b),
        Value::Number(n) => exists|s: String| #[trigger] call_ensures(show, (n,), s) && s@ == text,
        _ => false,
    }
}

/// The value at `i` of `xs`, or nil past its end.
pub open spec fn padded<N>(xs: Seq<Value<N>>, i: int) -> Value<N> {
    if 0 <= i < xs.len() {
        xs[i]
    } else {
        Value::Nil
    }
}

/// One more than the slot of a list; zero for any other value.
pub open spec fn rank<N>(v: Value<N>) -> nat {
    match v {
        Value::List(r) => (r.slot() + 1) as nat,
        _ => 0,
    }
}

/// How many lists deep adding `a` and `b` may go: the lists a list holds were
/// made before it.
pub open spec fn depth<N>(a: Value<N>, b: Value<N>) -> nat {
    if rank(a) > rank(b) {
        rank(a)
    } else {
        rank(b)
    }
}

/// `z` is an interned string of `heap` with the text `text`.
pub open spec fn string_made<N: Copy>(heap: Gc<N>, z: GcRef<BanjoString>, text: Seq<char>) -> bool {
    &&& readable(heap, z)
    &&& heap.collector().interned().contains(z.slot())
    &&& text_of(heap.collector().objects(), z) == text
}

/// `r` is the value of adding `b` to `a` in `heap`, going at most `fuel` lists
/// deep. Nil and functions leave the other operand. Two lists add value by
/// value into a new list as long as the longer, the shorter padded with nil; a
/// list and another value add each value of the list and that value. Strings
/// join into an interned string, a boolean or a number written out as
/// `reads_as` says. Booleans and numbers add as `plus` adds their summands.
pub open spec fn sum_of<N: Copy, S: Fn(Summand<N>, Summand<N>) -> N, T: Fn(N) -> String>(
    heap: Gc<N>,
    plus: S,
    show: T,
    a: Value<N>,
    b: Value<N>,
    r: Value<N>,
    fuel: nat,
) -> bool
    decreases fuel,
{
    let objects = heap.collector().objects();
    if passes(a) {
        r == b
    } else if passes(b) {
        r == a
    } else if a is List || b is List {
        &&& fuel > 0
        &&& r matches Value::List(lr)
        &&& lr.slot() < heap.lists().len()
        &&& {
            let zs = heap.lists()[lr.slot() as int];
            match a {
                Value::List(la) => {
                    &&& la.slot() < heap.lists().len()
                    &&& match b {
                        Value::List(lb) => {
                            let xs = heap.lists()[la.slot() as int];
                            let ys = heap.lists()[lb.slot() as int];
                            &&& lb.slot() < heap.lists().len()
                            &&& zs.len() == if xs.len() > ys.len() {
                                xs.len()
                            } else {
                                ys.len()
                            }
                            &&& forall|i: int|
                                0 <= i < zs.len() ==> sum_of(
                                    heap,
                                    plus,
                                    show,
                                    padded(xs, i),
                                    padded(ys, i),
                                    #[trigger] zs[i],
                                    (fuel - 1) as nat,
                                )
                        },
                        _ => {
                            let xs = heap.lists()[la.slot() as int];
                            &&& zs.len() == xs.len()
                            &&& forall|i: int|
                                0 <= i < zs.len() ==> sum_of(heap, plus, show, xs[i], b, #[trigger] zs[i], (fuel - 1) as nat)
                        },
                    }
                },
                _ => match b {
                    Value::List(lb) => {
                        let ys = heap.lists()[lb.slot() as int];
                        &&& lb.slot() < heap.lists().len()
                        &&& zs.len() == ys.len()
                        &&& forall|i: int|
                            0 <= i < zs.len() ==> sum_of(heap, plus, show, a, ys[i], #[trigger] zs[i], (fuel - 1) as nat)
                    },
                    _ => false,
                },
            }
        }
    } else {
        match a {
            Value::String(x) => {
                &&& readable(heap, x)
                &&& r matches Value::String(z)
                &&& match b {
                    Value::String(y) => readable(heap, y) && string_made(
                        heap,
                        z,
                        text_of(objects, x) + text_of(objects, y),
                    ),
                    _ => exists|t: Seq<char>|
                        #[trigger] reads_as(show, b, t) && string_made(heap, z, text_of(objects, x) + t),
                }
            },
            _ => match b {
                Value::String(y) => {
                    &&& readable(heap, y)
                    &&& r matches Value::String(z)
                    &&& exists|t: Seq<char>|
                        #[trigger] reads_as(show, a, t) && string_made(heap, z, t + text_of(objects, y))
                },
                _ => r matches Value::Number(n) && call_ensures(plus, (summand_of(a), summand_of(b)), n),
            },
        }
    }
}

/// `r` is the value of adding `b` to `a` in `heap`.
pub open spec fn adds_to<N: Copy, S: Fn(Summand<N>, Summand<N>) -> N, T: Fn(N) -> String>(
    heap: Gc<N>,
    plus: S,
    show: T,
    a: Value<N>,
    b: Value<N>,
    r: Value<N>,
) -> bool {
    sum_of(heap, plus, show, a, b, r, depth(a, b))
}

/// Adding nil or a function leaves the other operand as it is: the sum of `a`
/// and `b` is `b` when `a` is nil or a function, and else `a` when `b` is.
pub proof fn nil_and_functions_leave_the_other<N: Copy, S: Fn(Summand<N>, Summand<N>) -> N, T: Fn(N) -> String>(
    heap: Gc<N>,
    plus: S,
    show: T,
    a: Value<N>,
    b: Value<N>,
)
    ensures
        passes(a) ==> adds_to(heap, plus, show, a, b, b),
        !passes(a) && passes(b) ==> adds_to(heap, plus, show, a, b, a),
{
}

/// The heap `after` only added to `before`: the strings are kept, with more
/// interned, the lists are kept, with more made, and the functions and native
/// functions are as they were.
pub open spec fn grows<N: Copy>(before: Gc<N>, after: Gc<N>) -> bool {
    &&& crate::gc::extends(after.collector().objects(), before.collector().objects())
    &&& before.collector().interned().subset_of(after.collector().interned())
    &&& after.functions() == before.functions()
    &&& after.natives() == before.natives()
    &&& before.lists().len() <= after.lists().len()
    &&& forall|l: int| 0 <= l < before.lists().len() ==> #[trigger] after.lists()[l] == before.lists()[l]
}

/// A heap that grew from one that grew still grew from the first.
pub proof fn lemma_grows_trans<N: Copy>(a: Gc<N>, b: Gc<N>, c: Gc<N>)
    requires
        grows(a, b),
        grows(b, c),
    ensures
        grows(a, c),
{
    assert forall|l: int| 0 <= l < a.lists().len() implies #[trigger] c.lists()[l] == a.lists()[l] by {
        assert(b.lists()[l] == a.lists()[l]);
    }
    assert forall|i: int| 0 <= i < a.collector().objects().len() implies #[trigger] c.collector().objects()[i]
        == a.collector().objects()[i] by {
        assert(b.collector().objects()[i] == a.collector().objects()[i]);
    }
}

/// A value that names an object of a heap still does once the heap grew.
pub proof fn lemma_value_ok_grows<N: Copy>(before: Gc<N>, after: Gc<N>, v: Value<N>)
    requires
        grows(before, after),
        value_ok(before, v),
    ensures
        value_ok(after, v),
{
    if let Value::String(r) = v {
        assert(after.collector().objects()[r.slot() as int] == before.collector().objects()[r.slot() as int]);
    }
}

/// What adding gave stays true as the heap grows.
pub proof fn lemma_sum_of_grows<N: Copy, S: Fn(Summand<N>, Summand<N>) -> N, T: Fn(N) -> String>(
    before: Gc<N>,
    after: Gc<N>,
    plus: S,
    show: T,
    a: Value<N>,
    b: Value<N>,
    r: Value<N>,
    fuel: nat,
)
    requires
        grows(before, after),
        sum_of(before, plus, show, a, b, r, fuel),
    ensures
        sum_of(after, plus, show, a, b, r, fuel),
    decreases fuel,
{
    let ob = before.collector().objects();
    let oa = after.collector().objects();
    if passes(a) || passes(b) {
    } else if a is List || b is List {
        let lr = r->List_0;
        let zs = before.lists()[lr.slot() as int];
        assert(after.lists()[lr.slot() as int] == zs);
        match a {
            Value::List(la) => {
                assert(after.lists()[la.slot() as int] == before.lists()[la.slot() as int]);
                match b {
                    Value::List(lb) => {
                        assert(after.lists()[lb.slot() as int] == before.lists()[lb.slot() as int]);
                        let xs = before.lists()[la.slot() as int];
                        let ys = before.lists()[lb.slot() as int];
                        assert forall|i: int| 0 <= i < zs.len() implies sum_of(
                            after,
                            plus,
                            show,
                            padded(xs, i),
                            padded(ys, i),
                            #[trigger] zs[i],
                            (fuel - 1) as nat,
                        ) by {
                            lemma_sum_of_grows(before, after, plus, show, padded(xs, i), padded(ys, i), zs[i], (fuel - 1) as nat);
                        }
                    },
                    _ => {
                        let xs = before.lists()[la.slot() as int];
                        assert forall|i: int| 0 <= i < zs.len() implies sum_of(
                            after,
                            plus,
                            show,
                            xs[i],
                            b,
                            #[trigger] zs[i],
                            (fuel - 1) as nat,
                        ) by {
                            lemma_sum_of_grows(before, after, plus, show, xs[i], b, zs[i], (fuel - 1) as nat);
                        }
                    },
                }
            },
            _ => {
                let lb = b->List_0;
                assert(after.lists()[lb.slot() as int] == before.lists()[lb.slot() as int]);
                let ys = before.lists()[lb.slot() as int];
                assert forall|i: int| 0 <= i < zs.len() implies sum_of(
                    after,
                    plus,
                    show,
                    a,
                    ys[i],
                    #[trigger] zs[i],
                    (fuel - 1) as nat,
                ) by {
                    lemma_sum_of_grows(before, after, plus, show, a, ys[i], zs[i], (fuel - 1) as nat);
                }
            },
        }
    } else {
        if let Value::String(x) = a {
            assert(oa[x.slot() as int] == ob[x.slot() as int]);
        }
        if let Value::String(y) = b {
            assert(oa[y.slot() as int] == ob[y.slot() as int]);
        }
        if let Value::String(z) = r {
            assert(oa[z.slot() as int] == ob[z.slot() as int]);
        }
    }
}

/// Every call in progress runs a function of the heap, within its code, whose
/// name can be read, and uses stack slots that exist.
pub open spec fn frames_ok<N: Copy>(s: VmState<N>, heap: Gc<N>) -> bool {
    forall|i: int|
        0 <= i < s.frames.len() ==> {
            let f = #[trigger] s.frames[i];
            &&& f.function < heap.functions().len()
            &&& heap.functions()[f.function as int].name matches Some(r) ==> readable(heap, r)
        }
}

/// The next instruction can be carried out without going outside the code, the
/// constants, the stack or its limits: what the interpreter takes for granted of
/// the code it runs.
pub open spec fn can_step<N: Copy>(s: VmState<N>, heap: Gc<N>, globals_capacity: nat) -> bool {
    let f = s.frames.last();
    let function = heap.functions()[f.function as int];
    let n = s.stack.len();
    &&& s.frames.len() > 0
    &&& frames_ok(s, heap)
    &&& f.ip < function.code.len()
    &&& match function.code[f.ip as int] {
        OpCode::Add => n >= 2,
        OpCode::Constant(c) => c.slot < function.constants.len() && n < STACK_MAX && value_ok(
            heap,
            function.constants[c.slot as int],
        ),
        OpCode::Function(c) => c.slot < function.constants.len() && n < STACK_MAX && value_ok(
            heap,
            function.constants[c.slot as int],
        ),
        OpCode::Divide | OpCode::Multiply | OpCode::Subtract | OpCode::Greater | OpCode::Less | OpCode::Equal => n
            >= 2,
        OpCode::Negate | OpCode::Not | OpCode::Pop => n >= 1,
        OpCode::Return => n >= 1 && (s.frames.len() > 1 ==> f.slot < n),
        OpCode::Nil | OpCode::True | OpCode::False => n < STACK_MAX,
        OpCode::DefineGlobal(c) => {
            &&& c.slot < function.constants.len()
            &&& function.constants[c.slot as int] matches Value::String(r) && readable(heap, r)
            &&& n >= 1
            &&& globals_capacity * 2 <= usize::MAX
        },
        OpCode::GetGlobal(c) => {
            &&& c.slot < function.constants.len()
            &&& function.constants[c.slot as int] matches Value::String(r) && readable(heap, r)
            &&& n < STACK_MAX
        },
        OpCode::GetLocal(offset) => f.slot + offset < n && n < STACK_MAX,
        OpCode::Call { arg_count } => arg_count < n && match s.stack[n - 1 - arg_count] {
            Value::NativeFunction(r) => r.slot() < heap.natives().len(),
            Value::Function(r) => r.slot() < heap.functions().len() && heap.functions()[r.slot() as int].code.len()
                <= usize::MAX,
            _ => true,
        },
        OpCode::Output { output_index } => n >= 1 && output_index < 255,
    }
}

/// The text of a stack-trace line for a function, given its name as `Debug`
/// renders it: `<fn "name">`, or `<script>` for the script.
pub fn label(quoted_name: Option<String>) -> (l: String)
    ensures
        l@ == match quoted_name {
            Some(q) => "<fn "@ + q@ + ">"@,
            None => "<script>"@,
        },
{
    match quoted_name {
        Some(q) => {
            let mut l = "<fn ".to_owned();
            l.append(q.as_str());
            l.append(">");
            l
        },
        None => "<script>".to_owned(),
    }
}

/// `a == b` for two values that are not both numbers.
fn values_equal<N: Copy>(a: &Value<N>, b: &Value<N>) -> (r: bool)
    ensures
        r == same_value(*a, *b),
{
    match (a, b) {
        (Value::Nil, Value::Nil) => true,
        (Value::Bool(x), Value::Bool(y)) => *x == *y,
        (Value::String(x), Value::String(y)) => x.index() == y.index(),
        (Value::List(x), Value::List(y)) => x.index() == y.index(),
        (Value::NativeFunction(x), Value::NativeFunction(y)) => x.index() == y.index(),
        (Value::Function(x), Value::Function(y)) => x.index() == y.index(),
        _ => false,
    }
}

/// A virtual machine that runs compiled Banjo programs: the heap, the values
/// previewed so far, the value stack, the calls in progress and the globals.
pub struct Vm<N> {
    gc: Gc<N>,
    output: OutputValues<N>,
    stack: Stack<Value<N>, STACK_MAX>,
    frames: Stack<CallFrame<N>, FRAMES_MAX>,
    globals: Table<Value<N>>,
}

impl<N: Copy> Vm<N> {
    /// What running changes, as plain values.
    pub closed spec fn state(&self) -> VmState<N> {
        VmState {
            stack: self.stack@,
            frames: self.frames@.map_values(|f: CallFrame<N>| call_view(f)),
            globals: self.globals@,
            values: self.output.values(),
        }
    }

    /// The heap.
    pub closed spec fn heap(&self) -> Gc<N> {
        self.gc
    }

    /// What is recorded for the output.
    pub closed spec fn outputs(&self) -> OutputValues<N> {
        self.output
    }

    /// The number of slots of the globals table.
    pub closed spec fn globals_capacity(&self) -> nat {
        self.globals.capacity()
    }

    /// The globals table.
    pub closed spec fn globals_table(&self) -> Table<Value<N>> {
        self.globals
    }

    /// The invariant: the heap, outputs, stacks and globals keep theirs, every
    /// global is named by a string of the heap, no string carries the mark
    /// outside a collection, every call runs within the code of a function of
    /// the heap, and every value a list holds names an object of the heap.
    pub closed spec fn wf(&self) -> bool {
        &&& self.gc.collector().wf()
        &&& self.output.wf()
        &&& self.stack.wf()
        &&& self.frames.wf()
        &&& self.globals.wf()
        &&& self.globals.keys_in(self.gc.collector().objects())
        &&& all_unmarked(self.gc.collector().objects())
        &&& frames_in_code(self.state(), self.gc)
        &&& lists_ok(self.gc)
    }

    /// The next instruction can be carried out.
    pub open spec fn ready(&self) -> bool {
        can_step(self.state(), self.heap(), self.globals_capacity())
    }

    /// The frames as plain values.
    proof fn lemma_frames(&self)
        requires
            self.frames.wf(),
        ensures
            self.state().frames.len() == self.frames@.len(),
            forall|i: int| 0 <= i < self.frames@.len() ==> #[trigger] self.state().frames[i] == call_view(self.frames@[i]),
    {
    }

    /// A runtime error with `message` and the calls in progress.
    fn runtime_error<T>(&self, message: &str) -> (r: Result<T>)
        requires
            self.wf(),
            frames_ok(self.state(), self.heap()),
        ensures
            r matches Err(e) && crate::banjo::compiler::fail_of(e) == runtime_fail(
                self.heap(),
                self.state().frames,
                message@,
            ),
    {
        let text = self.make_stacktrace(message);
        Err(BanjoError::Runtime(text))
    }

    /// `message` followed by a line for each call in progress, innermost first.
    fn make_stacktrace(&self, message: &str) -> (t: String)
        requires
            self.wf(),
            frames_ok(self.state(), self.heap()),
        ensures
            t@ == message@ + trace_lines(self.heap(), self.state().frames),
    {
        let ghost frames = self.state().frames;
        proof {
            self.lemma_frames();
            assert(frames.subrange(0, frames.len() as int) =~= frames);
        }
        // Print callstack
        let mut error_str = message.to_owned();
        let mut i = self.frames.len();
        while i > 0
            invariant
                self.wf(),
                frames == self.state().frames,
                frames_ok(self.state(), self.heap()),
                i <= frames.len(),
                frames.len() == self.frames@.len(),
                error_str@ + trace_lines(self.heap(), frames.subrange(0, i as int)) == message@ + trace_lines(
                    self.heap(),
                    frames,
                ),
            decreases i,
        {
            let frame = self.frames.read(i - 1);
            proof {
                self.lemma_frames();
                assert(frames[i - 1] == call_view(*frame));
                assert(frames.subrange(0, i as int).drop_last() =~= frames.subrange(0, i - 1));
                assert(frames.subrange(0, i as int).last() == frames[i - 1]);
            }
            let line = self.function_label(frame.function);
            let ghost before = error_str@;
            error_str.append("\nin ");
            error_str.append(line.as_str());
            proof {
                assert(error_str@ + trace_lines(self.heap(), frames.subrange(0, i - 1)) =~= before + trace_lines(
                    self.heap(),
                    frames.subrange(0, i as int),
                ));
            }
            i -= 1;
        }
        error_str
    }

    /// How the function `function` is named in a stack trace.
    fn function_label(&self, function: GcRef<Function<N>>) -> (l: String)
        requires
            self.wf(),
            function.slot() < self.heap().functions().len(),
            self.heap().functions()[function.slot() as int].name matches Some(r) ==> readable(self.heap(), r),
        ensures
            l@ == function_label(self.heap(), function.slot() as usize),
    {
        let name = self.gc.function(function).name;
        let quoted = match name {
            Some(r) => Some(debug_str(self.gc.string(r).as_str())),
            None => None,
        };
        label(quoted)
    }

    /// The string that constant `constant` of the function of `frame` names.
    fn read_string(&self, frame: CallFrame<N>, constant: crate::banjo::op_code::Constant) -> (r: GcRef<BanjoString>)
        requires
            frame.function.slot() < self.heap().functions().len(),
            constant.slot < self.heap().functions()[frame.function.slot() as int].constants.len(),
            self.heap().functions()[frame.function.slot() as int].constants[constant.slot as int] is String,
        ensures
            Value::<N>::String(r) == self.heap().functions()[frame.function.slot() as int].constants[constant.slot as int],
    {
        match self.read_constant(frame, constant) {
            Value::String(name) => name,
            _ => {
                proof {
                    assert(false);
                }
                vstd::pervasive::unreached()
            },
        }
    }

    /// A two-number operator: pops both operands when they are numbers and leaves
    /// `op` to the caller; otherwise fails.
    fn binary_op(&mut self, op: NumberOp) -> (r: Result<Step<N>>)
        requires
            old(self).wf(),
            old(self).state().stack.len() >= 2,
            frames_ok(old(self).state(), old(self).heap()),
        ensures
            final(self).wf(),
            final(self).heap() == old(self).heap(),
            final(self).outputs() == old(self).outputs(),
            final(self).globals_capacity() == old(self).globals_capacity(),
            (final(self).state(), step_outcome(r)) == numbers_step(old(self).state(), old(self).heap(), op),
    {
        let b = *self.stack.peek(0);
        let a = *self.stack.peek(1);
        match (a, b) {
            (Value::Number(a), Value::Number(b)) => {
                let ghost st = self.stack@;
                self.stack.pop();
                self.stack.pop();
                proof {
                    assert(self.stack@ =~= st.subrange(0, st.len() - 2));
                }
                Ok(Step::Numbers { op, a, b })
            },
            _ => self.runtime_error("Operands must be numbers."),
        }
    }

    /// Calls `callee` with the top `arg_count` values as arguments.
    fn call_value(&mut self, callee: Value<N>, arg_count: usize) -> (r: Result<Step<N>>)
        requires
            old(self).wf(),
            arg_count < old(self).state().stack.len(),
            frames_ok(old(self).state(), old(self).heap()),
            callee matches Value::NativeFunction(f) ==> f.slot() < old(self).heap().natives().len(),
            callee matches Value::Function(f) ==> f.slot() < old(self).heap().functions().len(),
        ensures
            final(self).wf(),
            final(self).heap() == old(self).heap(),
            final(self).outputs() == old(self).outputs(),
            final(self).globals_capacity() == old(self).globals_capacity(),
            (final(self).state(), step_outcome(r)) == call_value_step(
                old(self).state(),
                old(self).heap(),
                callee,
                arg_count as nat,
            ),
    {
        match callee {
            Value::NativeFunction(callee) => {
                let values = self.stack.pop_n(arg_count);
                let args = vstd::slice::slice_to_vec(values);
                let function = self.gc.native(callee);
                Ok(Step::Native { function, args })
            },
            Value::Function(callee) => self.call(callee, arg_count),
            _ => self.runtime_error("Can only call functions."),
        }
    }

    /// Starts a call of `callee` with the top `arg_count` values as arguments.
    fn call(&mut self, callee: GcRef<Function<N>>, arg_count: usize) -> (r: Result<Step<N>>)
        requires
            old(self).wf(),
            arg_count < old(self).state().stack.len(),
            frames_ok(old(self).state(), old(self).heap()),
            callee.slot() < old(self).heap().functions().len(),
        ensures
            final(self).wf(),
            final(self).heap() == old(self).heap(),
            final(self).outputs() == old(self).outputs(),
            final(self).globals_capacity() == old(self).globals_capacity(),
            (final(self).state(), step_outcome(r)) == call_step(
                old(self).state(),
                old(self).heap(),
                callee.slot() as usize,
                arg_count as nat,
            ),
    {
        let arity = self.gc.function(callee).arity;
        if arg_count != arity {
            let message = crate::banjo::compiler::arity_error(arity, arg_count);
            return self.runtime_error(message.as_str());
        }
        if self.frames.len() == FRAMES_MAX {
            return self.runtime_error("Stack overflow.");
        }
        let slot = self.stack.get_offset() - arg_count;
        let ghost before = self.frames@;
        // The callee's code fits in memory.
        let _ = self.gc.function(callee).chunk.code.len();
        proof {
            self.frames.lemma_bounded();
            old(self).lemma_frames();
        }
        self.frames.push(CallFrame { function: callee, ip: 0, slot });
        proof {
            let c = CallView { function: callee.slot() as usize, ip: 0, slot };
            assert(self.state().frames =~= old(self).state().frames.push(c));
            let fs = self.heap().functions();
            assert forall|i: int| 0 <= i < self.state().frames.len() implies {
                let f = #[trigger] self.state().frames[i];
                &&& f.function < fs.len()
                &&& f.ip <= fs[f.function as int].code.len()
                &&& fs[f.function as int].code.len() <= usize::MAX
            } by {
                if i < old(self).state().frames.len() {
                    assert(self.state().frames[i] == old(self).state().frames[i]);
                }
            }
        }
        Ok(Step::Continue)
    }

    /// Carries out the next instruction of the innermost call, or hands it to the
    /// caller where it needs number arithmetic or a native function.
    pub fn step(&mut self) -> (r: Result<Step<N>>)
        requires
            old(self).wf(),
            old(self).ready(),
        ensures
            final(self).wf(),
            final(self).heap() == old(self).heap(),
            final(self).outputs().nodes() == old(self).outputs().nodes(),
            final(self).outputs().errors() == old(self).outputs().errors(),
            (final(self).state(), step_outcome(r)) == step_spec(old(self).state(), old(self).heap()),
    {
        let ghost s = self.state();
        let ghost heap = self.heap();
        proof {
            self.lemma_frames();
            lemma_step_progress(s, heap, self.globals_capacity());
        }
        proof {
            self.frames.lemma_bounded();
            self.stack.lemma_bounded();
        }
        let mut frame = self.frames.pop();
        let ip = frame.ip;
        let code = &self.gc.function(frame.function).chunk.code;
        let instruction = code[ip];
        // The code's length bounds the next instruction pointer.
        let _ = code.len();
        frame.ip = ip + 1;
        self.frames.push(frame);
        let ghost s0 = self.state();
        proof {
            self.lemma_frames();
            assert(s0.frames =~= s.frames.update(s.frames.len() - 1, CallView { ip: (ip + 1) as usize, ..s.frames.last() }));
            assert(s0 == VmState { frames: s.frames.update(s.frames.len() - 1, CallView { ip: (ip + 1) as usize, ..s.frames.last() }), ..s });
            assert forall|i: int| 0 <= i < s0.frames.len() implies #[trigger] s0.frames[i].function == s.frames[i].function by {}
            assert(frames_ok(s0, heap)) by {
                assert forall|i: int| 0 <= i < s0.frames.len() implies {
                    let f = #[trigger] s0.frames[i];
                    &&& f.function < heap.functions().len()
                    &&& heap.functions()[f.function as int].name matches Some(r) ==> readable(heap, r)
                } by {
                    assert(s0.frames[i].function == s.frames[i].function);
                    let g = s.frames[i];
                    assert(g.function < heap.functions().len());
                }
            }
        }
        match instruction {
            OpCode::Add => {
                let b = *self.stack.peek(0);
                let a = *self.stack.peek(1);
                Ok(Step::Addition(a, b))
            },
            // Load constant/function onto the stack
            OpCode::Constant(constant) => {
                let constant = self.read_constant(frame, constant);
                self.stack.push(constant);
                Ok(Step::Continue)
            },
            OpCode::Function(constant) => {
                let constant = self.read_constant(frame, constant);
                self.stack.push(constant);
                Ok(Step::Continue)
            },
            OpCode::Divide => self.binary_op(NumberOp::Divide),
            OpCode::Multiply => self.binary_op(NumberOp::Multiply),
            OpCode::Negate => {
                if let Value::Number(value) = *self.stack.peek(0) {
                    self.stack.pop();
                    Ok(Step::Negation(value))
                } else {
                    self.runtime_error("Operand must be a number.")
                }
            },
            OpCode::Return => {
                proof {
                    self.stack.lemma_bounded();
                }
                let result = self.stack.pop();
                let fun_stack_start = self.frames.pop().slot;
                if self.frames.len() == 0 {
                    // Exit interpreter
                    proof {
                        self.lemma_frames();
                        assert(self.state().frames =~= s0.frames.drop_last());
                    }
                    return Ok(Step::Finished);
                }
                self.stack.truncate(fun_stack_start);
                self.stack.push(result);
                proof {
                    self.lemma_frames();
                    assert(self.state().frames =~= s0.frames.drop_last());
                }
                Ok(Step::Continue)
            },
            OpCode::Subtract => self.binary_op(NumberOp::Subtract),
            OpCode::Nil => {
                self.stack.push(Value::Nil);
                Ok(Step::Continue)
            },
            OpCode::True => {
                self.stack.push(Value::Bool(true));
                Ok(Step::Continue)
            },
            OpCode::False => {
                self.stack.push(Value::Bool(false));
                Ok(Step::Continue)
            },
            OpCode::Not => {
                let value = self.stack.pop();
                self.stack.push(Value::Bool(value.is_falsey()));
                Ok(Step::Continue)
            },
            OpCode::Equal => {
                let ghost st = self.stack@;
                let a = self.stack.pop();
                let b = self.stack.pop();
                proof {
                    assert(self.stack@ =~= st.subrange(0, st.len() - 2));
                }
                match (a, b) {
                    (Value::Number(x), Value::Number(y)) => Ok(Step::Numbers { op: NumberOp::Equal, a: x, b: y }),
                    _ => {
                        self.stack.push(Value::Bool(values_equal(&a, &b)));
                        Ok(Step::Continue)
                    },
                }
            },
            OpCode::Greater => self.binary_op(NumberOp::Greater),
            OpCode::Less => self.binary_op(NumberOp::Less),
            OpCode::Pop => {
                self.stack.pop();
                Ok(Step::Continue)
            },
            OpCode::DefineGlobal(constant) => {
                let name = self.read_string(frame, constant);
                let value = *self.stack.peek(0);
                self.globals.insert(name, value, self.gc.strings.heap());
                self.stack.pop();
                Ok(Step::Continue)
            },
            OpCode::GetGlobal(constant) => {
                let name = self.read_string(frame, constant);
                match self.globals.get(name, self.gc.strings.heap()) {
                    Some(value) => {
                        self.stack.push(value);
                        Ok(Step::Continue)
                    },
                    None => {
                        let mut message = "Undefined variable '".to_owned();
                        message.append(self.gc.string(name).as_str());
                        message.append("'.");
                        self.runtime_error(message.as_str())
                    },
                }
            },
            OpCode::GetLocal(offset) => {
                let offset = frame.slot + offset as usize;
                let value = *self.stack.read(offset);
                self.stack.push(value);
                Ok(Step::Continue)
            },
            OpCode::Call { arg_count } => {
                let arg_count = arg_count as usize;
                let callee = *self.stack.peek(arg_count);
                self.call_value(callee, arg_count)
            },
            OpCode::Output { output_index } => {
                let value = *self.stack.peek(0);
                self.output.add_value(output_index, value);
                proof {
                    assert(self.output.values() =~= written(s0.values, output_index as int, value));
                }
                Ok(Step::Continue)
            },
        }
    }

    /// Pushes `value`: the result the caller computed for a step.
    pub fn push(&mut self, value: Value<N>)
        requires
            old(self).wf(),
            old(self).state().stack.len() < STACK_MAX,
        ensures
            final(self).wf(),
            final(self).heap() == old(self).heap(),
            final(self).outputs() == old(self).outputs(),
            final(self).globals_capacity() == old(self).globals_capacity(),
            final(self).state() == pushed(old(self).state(), value),
    {
        self.stack.push(value);
    }

    /// Ends the call of a native function with its result: the function is popped
    /// and the result pushed; an error gets the stack trace.
    pub fn finish_native(&mut self, result: Result<Value<N>>) -> (r: Result<()>)
        requires
            old(self).wf(),
            old(self).state().stack.len() >= 1,
            frames_ok(old(self).state(), old(self).heap()),
        ensures
            final(self).wf(),
            final(self).heap() == old(self).heap(),
            final(self).outputs() == old(self).outputs(),
            final(self).globals_capacity() == old(self).globals_capacity(),
            match result {
                Ok(v) => r is Ok && final(self).state() == pushed(popped(old(self).state()), v),
                Err(e) => final(self).state() == old(self).state() && (r matches Err(f)
                    && crate::banjo::compiler::fail_of(f) == with_trace(
                    old(self).heap(),
                    old(self).state().frames,
                    crate::banjo::compiler::fail_of(e),
                )),
            },
    {
        match result {
            Ok(value) => {
                proof {
                    self.stack.lemma_bounded();
                }
                self.stack.pop();
                self.stack.push(value);
                Ok(())
            },
            Err(e) => Err(self.add_stacktrace(e)),
        }
    }

    /// A runtime error with the stack trace added; other errors as they are.
    fn add_stacktrace(&self, error: BanjoError) -> (e: BanjoError)
        requires
            self.wf(),
            frames_ok(self.state(), self.heap()),
        ensures
            crate::banjo::compiler::fail_of(e) == with_trace(
                self.heap(),
                self.state().frames,
                crate::banjo::compiler::fail_of(error),
            ),
    {
        match error {
            BanjoError::Runtime(message) => BanjoError::Runtime(self.make_stacktrace(message.as_str())),
            _ => error,
        }
    }

    /// Records `error` among the outputs.
    pub fn record_error(&mut self, error: BanjoError)
        requires
            old(self).wf(),
        ensures
            final(self).wf(),
            final(self).heap() == old(self).heap(),
            final(self).state() == old(self).state(),
            final(self).outputs().nodes() == old(self).outputs().nodes(),
            final(self).outputs().values() == old(self).outputs().values(),
            match error {
                BanjoError::Compile(s) | BanjoError::Runtime(s) => {
                    &&& final(self).outputs().errors().node_errors_map() == old(
                        self,
                    ).outputs().errors().node_errors_map()
                    &&& final(self).outputs().errors().additional_view() == old(
                        self,
                    ).outputs().errors().additional_view().push(s@)
                },
                BanjoError::Node((n, s)) => {
                    &&& final(self).outputs().errors().node_errors_map() == old(
                        self,
                    ).outputs().errors().node_errors_map().insert(n@, s@)
                    &&& final(self).outputs().errors().additional_view() == old(
                        self,
                    ).outputs().errors().additional_view()
                },
            },
    {
        self.output.add_error(error);
    }

    /// Whether the next instruction can be carried out: the test that `step`
    /// needs passed.
    pub fn is_ready(&self) -> (r: bool)
        requires
            self.wf(),
        ensures
            r == self.ready(),
    {
        let ghost s = self.state();
        let ghost heap = self.heap();
        proof {
            self.lemma_frames();
            self.stack.lemma_bounded();
        }
        let nf = self.frames.len();
        if nf == 0 {
            return false;
        }
        if !self.frames_readable() {
            return false;
        }
        let frame = *self.frames.read(nf - 1);
        proof {
            assert(s.frames.last() == call_view(frame));
        }
        let function = self.gc.function(frame.function);
        if frame.ip >= function.chunk.code.len() {
            return false;
        }
        let constants = &function.chunk.constants;
        let n = self.stack.len();
        match function.chunk.code[frame.ip] {
            OpCode::Add => n >= 2,
            OpCode::Constant(c) | OpCode::Function(c) => {
                (c.slot as usize) < constants.len() && n < STACK_MAX && self.value_ok(
                    &constants[c.slot as usize],
                )
            },
            OpCode::Divide | OpCode::Multiply | OpCode::Subtract | OpCode::Greater | OpCode::Less | OpCode::Equal => n
                >= 2,
            OpCode::Negate | OpCode::Not | OpCode::Pop => n >= 1,
            OpCode::Return => n >= 1 && (nf <= 1 || frame.slot < n),
            OpCode::Nil | OpCode::True | OpCode::False => n < STACK_MAX,
            OpCode::DefineGlobal(c) => {
                (c.slot as usize) < constants.len() && match &constants[c.slot as usize] {
                    Value::String(r) => self.string_readable(*r),
                    _ => false,
                } && n >= 1 && self.globals.capacity_fits()
            },
            OpCode::GetGlobal(c) => {
                (c.slot as usize) < constants.len() && match &constants[c.slot as usize] {
                    Value::String(r) => self.string_readable(*r),
                    _ => false,
                } && n < STACK_MAX
            },
            OpCode::GetLocal(offset) => frame.slot < n && (offset as usize) < n - frame.slot && n < STACK_MAX,
            OpCode::Call { arg_count } => (arg_count as usize) < n && match self.stack.peek(arg_count as usize) {
                Value::NativeFunction(r) => r.index() < self.gc.natives.len(),
                Value::Function(r) => self.code_fits(*r),
                _ => true,
            },
            OpCode::Output { output_index } => n >= 1 && output_index < 255,
        }
    }

    /// Whether `r` is a function of the heap, with code whose length fits a
    /// `usize`.
    fn code_fits(&self, r: GcRef<Function<N>>) -> (b: bool)
        ensures
            b == (r.slot() < self.heap().functions().len() && self.heap().functions()[r.slot() as int].code.len()
                <= usize::MAX),
    {
        r.index() < self.gc.functions.len() && self.gc.function(r).chunk.code.len() <= usize::MAX
    }

    /// Whether the string `r` can be read.
    fn string_readable(&self, r: GcRef<BanjoString>) -> (b: bool)
        ensures
            b == readable(self.heap(), r),
    {
        let heap = self.gc.strings.heap();
        r.index() < heap.len() && heap.slot(r.index()).is_some()
    }

    /// Whether the name of function `r`, if any, can be read.
    fn name_readable(&self, r: GcRef<Function<N>>) -> (b: bool)
        requires
            r.slot() < self.heap().functions().len(),
        ensures
            b == (self.heap().functions()[r.slot() as int].name matches Some(m) ==> readable(self.heap(), m)),
    {
        match self.gc.function(r).name {
            Some(m) => self.string_readable(m),
            None => true,
        }
    }

    /// Whether the reference in `v`, if any, names an object of the heap.
    fn value_ok(&self, v: &Value<N>) -> (b: bool)
        ensures
            b == value_ok(self.heap(), *v),
    {
        match v {
            Value::String(r) => self.string_readable(*r),
            Value::List(r) => r.index() < self.gc.lists.len(),
            Value::NativeFunction(r) => r.index() < self.gc.natives.len(),
            Value::Function(r) => r.index() < self.gc.functions.len(),
            _ => true,
        }
    }

    /// Whether every call in progress runs a function of the heap whose name can
    /// be read.
    pub fn frames_readable(&self) -> (b: bool)
        requires
            self.wf(),
        ensures
            b == frames_ok(self.state(), self.heap()),
    {
        let ghost s = self.state();
        proof {
            self.lemma_frames();
        }
        let mut i: usize = 0;
        while i < self.frames.len()
            invariant
                self.wf(),
                s == self.state(),
                i <= s.frames.len(),
                s.frames.len() == self.frames@.len(),
                forall|j: int|
                    0 <= j < i ==> {
                        let f = #[trigger] s.frames[j];
                        &&& f.function < self.heap().functions().len()
                        &&& self.heap().functions()[f.function as int].name matches Some(r) ==> readable(self.heap(), r)
                    },
            decreases s.frames.len() - i,
        {
            let frame = self.frames.read(i);
            proof {
                self.lemma_frames();
                assert(s.frames[i as int] == call_view(*frame));
            }
            if frame.function.index() >= self.gc.functions.len() || !self.name_readable(frame.function) {
                return false;
            }
            i += 1;
        }
        true
    }

    /// Takes everything recorded for the output.
    pub fn take_output(&mut self) -> (output: Output<N>)
        requires
            old(self).wf(),
        ensures
            final(self).wf(),
            final(self).heap() == old(self).heap(),
            output.errors == old(self).outputs().errors(),
            output.node_values@.len() == if old(self).outputs().nodes().len() < old(self).outputs().values().len() {
                old(self).outputs().nodes().len() as int
            } else {
                old(self).outputs().values().len() as int
            },
            forall|i: int|
                0 <= i < output.node_values@.len() ==> (#[trigger] output.node_values@[i]).0@ == old(
                    self,
                ).outputs().nodes()[i] && output.node_values@[i].1 == old(self).outputs().values()[i],
    {
        self.output.take()
    }

    /// Marks every string the run keeps: those of `roots`.
    fn mark_roots(&mut self)
        requires
            old(self).wf(),
        ensures
            final(self).gc.collector().wf(),
            final(self).gc.collector().objects() == marked_with(
                old(self).heap().collector().objects(),
                roots(old(self).state(), old(self).heap()),
            ),
            final(self).gc.collector().interned() == old(self).gc.collector().interned(),
            final(self).gc.collector().bytes_allocated() == old(self).gc.collector().bytes_allocated(),
            final(self).gc.collector().next_gc() == old(self).gc.collector().next_gc(),
            final(self).gc.collector().table_bound() == old(self).gc.collector().table_bound(),
            final(self).gc.functions == old(self).gc.functions,
            final(self).gc.natives == old(self).gc.natives,
            final(self).gc.lists == old(self).gc.lists,
            final(self).output == old(self).output,
            final(self).stack == old(self).stack,
            final(self).frames == old(self).frames,
            final(self).globals == old(self).globals,
    {
        let ghost base = self.gc.strings.objects();
        let ghost s = self.state();
        let ghost heap = self.heap();
        let ghost mut marks: Set<usize> = Set::empty();
        proof {
            lemma_marked_with_empty(base);
        }
        // Stack
        let mut i: usize = 0;
        while i < self.stack.len()
            invariant
                self.stack.wf(),
                self.gc.strings.wf(),
                s.stack == self.stack@,
                i <= s.stack.len(),
                marks == values_slots(s.stack.take(i as int)),
                self.gc.strings.objects() == marked_with(base, marks),
                self.gc.strings.interned() == old(self).gc.strings.interned(),
                self.gc.strings.bytes_allocated() == old(self).gc.strings.bytes_allocated(),
                self.gc.strings.next_gc() == old(self).gc.strings.next_gc(),
                self.gc.strings.table_bound() == old(self).gc.strings.table_bound(),
                self.gc.functions == old(self).gc.functions,
                self.gc.natives == old(self).gc.natives,
                self.gc.lists == old(self).gc.lists,
                self.output == old(self).output,
                self.stack == old(self).stack,
                self.frames == old(self).frames,
                self.globals == old(self).globals,
            decreases s.stack.len() - i,
        {
            let v = *self.stack.read(i);
            mark_value(&mut self.gc.strings, &v, Ghost(base), Ghost(marks));
            proof {
                lemma_values_slots_take(s.stack, i as int);
                marks = marks.union(value_slots(v));
            }
            i += 1;
        }
        proof {
            assert(s.stack.take(s.stack.len() as int) =~= s.stack);
        }
        let ghost after_stack = marks;
        // Globals: their names and values
        let pairs = self.globals.pairs();
        let mut j: usize = 0;
        while j < pairs.len()
            invariant
                self.gc.strings.wf(),
                j <= pairs@.len(),
                marks == after_stack.union(pair_slots(pairs@.take(j as int))),
                self.gc.strings.objects() == marked_with(base, marks),
                self.gc.strings.interned() == old(self).gc.strings.interned(),
                self.gc.strings.bytes_allocated() == old(self).gc.strings.bytes_allocated(),
                self.gc.strings.next_gc() == old(self).gc.strings.next_gc(),
                self.gc.strings.table_bound() == old(self).gc.strings.table_bound(),
                self.gc.functions == old(self).gc.functions,
                self.gc.natives == old(self).gc.natives,
                self.gc.lists == old(self).gc.lists,
                self.output == old(self).output,
                self.stack == old(self).stack,
                self.frames == old(self).frames,
                self.globals == old(self).globals,
            decreases pairs@.len() - j,
        {
            let (key, value) = pairs[j];
            mark_string(&mut self.gc.strings, key, Ghost(base), Ghost(marks));
            mark_value(&mut self.gc.strings, &value, Ghost(base), Ghost(marks.insert(key.slot())));
            proof {
                lemma_pair_slots_take(pairs@, j as int);
                assert(after_stack.union(pair_slots(pairs@.take(j + 1))) =~= marks.insert(key.slot()).union(
                    value_slots(value),
                ));
                marks = marks.insert(key.slot()).union(value_slots(value));
            }
            j += 1;
        }
        proof {
            assert(pairs@.take(pairs@.len() as int) =~= pairs@);
            assert(pair_slots(pairs@) =~= s.globals.dom().union(map_slots(s.globals))) by {
                assert forall|k: usize| pair_slots(pairs@).contains(k) <==> s.globals.dom().union(
                    map_slots(s.globals),
                ).contains(k) by {
                    lemma_pair_slots(pairs@, k);
                    if s.globals.dom().contains(k) {
                        let w = choose|w: int| 0 <= w < pairs@.len() && (#[trigger] pairs@[w]).0.slot() == k;
                        assert(pairs@[w].0.slot() == k);
                    }
                    if map_slots(s.globals).contains(k) {
                        let g = choose|g: usize| s.globals.contains_key(g) && #[trigger] value_slots(s.globals[g]).contains(k);
                        let w = choose|w: int| 0 <= w < pairs@.len() && (#[trigger] pairs@[w]).0.slot() == g;
                        assert(value_slots(pairs@[w].1).contains(k));
                    }
                    if pair_slots(pairs@).contains(k) {
                        let w = choose|w: int|
                            0 <= w < pairs@.len() && ((#[trigger] pairs@[w]).0.slot() == k || value_slots(
                                pairs@[w].1,
                            ).contains(k));
                        let g = pairs@[w].0.slot();
                        assert(s.globals.contains_key(g));
                        if g != k {
                            assert(value_slots(s.globals[g]).contains(k));
                        }
                    }
                }
            }
        }
        let ghost after_globals = marks;
        // Functions: their names and constants
        let ghost fs = heap.functions();
        let mut f: usize = 0;
        while f < self.gc.functions.len()
            invariant
                self.gc.strings.wf(),
                fs == old(self).heap().functions(),
                fs.len() == self.gc.functions@.len(),
                f <= fs.len(),
                marks == after_globals.union(functions_slots(fs.take(f as int))),
                self.gc.strings.objects() == marked_with(base, marks),
                self.gc.strings.interned() == old(self).gc.strings.interned(),
                self.gc.strings.bytes_allocated() == old(self).gc.strings.bytes_allocated(),
                self.gc.strings.next_gc() == old(self).gc.strings.next_gc(),
                self.gc.strings.table_bound() == old(self).gc.strings.table_bound(),
                self.gc.functions == old(self).gc.functions,
                self.gc.natives == old(self).gc.natives,
                self.gc.lists == old(self).gc.lists,
                self.output == old(self).output,
                self.stack == old(self).stack,
                self.frames == old(self).frames,
                self.globals == old(self).globals,
            decreases fs.len() - f,
        {
            let ghost fv = fs[f as int];
            let ghost start = marks;
            proof {
                assert(fv == function_view(self.gc.functions@[f as int]));
            }
            if let Some(name) = self.gc.functions[f].name {
                mark_string(&mut self.gc.strings, name, Ghost(base), Ghost(marks));
                proof {
                    marks = marks.insert(name.slot());
                }
            }
            let ghost with_name = marks;
            let n = self.gc.functions[f].chunk.constants.len();
            let mut c: usize = 0;
            while c < n
                invariant
                    self.gc.strings.wf(),
                    fv == function_view(self.gc.functions@[f as int]),
                    f < self.gc.functions@.len(),
                    n == fv.constants.len(),
                    c <= n,
                    marks == with_name.union(values_slots(fv.constants.take(c as int))),
                    self.gc.strings.objects() == marked_with(base, marks),
                    self.gc.strings.interned() == old(self).gc.strings.interned(),
                    self.gc.strings.bytes_allocated() == old(self).gc.strings.bytes_allocated(),
                    self.gc.strings.next_gc() == old(self).gc.strings.next_gc(),
                    self.gc.strings.table_bound() == old(self).gc.strings.table_bound(),
                    self.gc.functions == old(self).gc.functions,
                    self.gc.natives == old(self).gc.natives,
                    self.gc.lists == old(self).gc.lists,
                    self.output == old(self).output,
                    self.stack == old(self).stack,
                    self.frames == old(self).frames,
                    self.globals == old(self).globals,
                decreases n - c,
            {
                let v = self.gc.functions[f].chunk.constants[c];
                mark_value(&mut self.gc.strings, &v, Ghost(base), Ghost(marks));
                proof {
                    lemma_values_slots_take(fv.constants, c as int);
                    marks = marks.union(value_slots(v));
                }
                c += 1;
            }
            proof {
                assert(fv.constants.take(n as int) =~= fv.constants);
                lemma_functions_slots_take(fs, f as int);
                assert(marks =~= after_globals.union(functions_slots(fs.take(f + 1))));
            }
            f += 1;
        }
        proof {
            assert(fs.take(fs.len() as int) =~= fs);
        }
        let ghost after_functions = marks;
        // Lists: their values
        let ghost ls = heap.lists();
        let mut l: usize = 0;
        while l < self.gc.lists.len()
            invariant
                self.gc.strings.wf(),
                ls == old(self).heap().lists(),
                ls.len() == self.gc.lists@.len(),
                l <= ls.len(),
                marks == after_functions.union(lists_slots(ls.take(l as int))),
                self.gc.strings.objects() == marked_with(base, marks),
                self.gc.strings.interned() == old(self).gc.strings.interned(),
                self.gc.strings.bytes_allocated() == old(self).gc.strings.bytes_allocated(),
                self.gc.strings.next_gc() == old(self).gc.strings.next_gc(),
                self.gc.strings.table_bound() == old(self).gc.strings.table_bound(),
                self.gc.functions == old(self).gc.functions,
                self.gc.natives == old(self).gc.natives,
                self.gc.lists == old(self).gc.lists,
                self.output == old(self).output,
                self.stack == old(self).stack,
                self.frames == old(self).frames,
                self.globals == old(self).globals,
            decreases ls.len() - l,
        {
            let ghost lv = ls[l as int];
            let ghost start = marks;
            let n = self.gc.lists[l].values.len();
            let mut k: usize = 0;
            while k < n
                invariant
                    self.gc.strings.wf(),
                    lv == self.gc.lists@[l as int].values@,
                    l < self.gc.lists@.len(),
                    n == lv.len(),
                    k <= n,
                    marks == start.union(values_slots(lv.take(k as int))),
                    self.gc.strings.objects() == marked_with(base, marks),
                    self.gc.strings.interned() == old(self).gc.strings.interned(),
                    self.gc.strings.bytes_allocated() == old(self).gc.strings.bytes_allocated(),
                    self.gc.strings.next_gc() == old(self).gc.strings.next_gc(),
                    self.gc.strings.table_bound() == old(self).gc.strings.table_bound(),
                    self.gc.functions == old(self).gc.functions,
                    self.gc.natives == old(self).gc.natives,
                    self.gc.lists == old(self).gc.lists,
                    self.output == old(self).output,
                    self.stack == old(self).stack,
                    self.frames == old(self).frames,
                    self.globals == old(self).globals,
                decreases n - k,
            {
                let v = self.gc.lists[l].values[k];
                mark_value(&mut self.gc.strings, &v, Ghost(base), Ghost(marks));
                proof {
                    lemma_values_slots_take(lv, k as int);
                    marks = marks.union(value_slots(v));
                }
                k += 1;
            }
            proof {
                assert(lv.take(n as int) =~= lv);
                lemma_lists_slots_take(ls, l as int);
                assert(marks =~= after_functions.union(lists_slots(ls.take(l + 1))));
            }
            l += 1;
        }
        proof {
            assert(ls.take(ls.len() as int) =~= ls);
            assert(marks =~= roots(s, heap));
        }
    }

    /// Collects garbage when the heap has grown enough, keeping the strings of
    /// `roots`.
    fn mark_and_collect_garbage(&mut self)
        requires
            old(self).wf(),
        ensures
            final(self).wf(),
            final(self).state() == old(self).state(),
            final(self).outputs() == old(self).outputs(),
            final(self).globals_capacity() == old(self).globals_capacity(),
            final(self).globals_table() == old(self).globals_table(),
            final(self).heap().functions() == old(self).heap().functions(),
            final(self).heap().natives() == old(self).heap().natives(),
            final(self).heap().lists() == old(self).heap().lists(),
            after_gc_check(
                old(self).heap().collector(),
                final(self).heap().collector(),
                roots(old(self).state(), old(self).heap()),
            ),
    {
        if self.gc.strings.should_gc() {
            let ghost base = self.gc.strings.objects();
            let ghost keep = roots(self.state(), self.heap());
            proof {
                self.gc.strings.lemma_interned();
                self.globals.lemma_keys_live(base);
            }
            self.mark_roots();
            self.gc.strings.collect_garbage();
            proof {
                let objects = self.gc.strings.objects();
                assert(objects =~= kept(base, keep)) by {
                    assert forall|i: int| 0 <= i < objects.len() implies objects[i] == kept(base, keep)[i] by {
                        if base[i] is Some {
                            assert(!base[i]->Some_0.marked);
                        }
                    }
                }
                assert(self.gc.strings.interned() =~= old(self).gc.strings.interned().intersect(keep));
                assert forall|k: usize| #[trigger] self.globals@.contains_key(k) implies k < objects.len()
                    && objects[k as int] is Some && objects[k as int]->Some_0.hash == base[k as int]->Some_0.hash by {
                    assert(keep.contains(k));
                }
                self.globals.lemma_keys_in_stable(base, objects);
                assert forall|k: usize|
                    #[trigger] lists_slots(old(self).gc.lists()).contains(k) && crate::gc::live_in(
                        base,
                        GcRef::at(k),
                    ) implies crate::gc::live_in(objects, GcRef::at(k)) by {
                    crate::gc::GcRef::<BanjoString>::lemma_at(k, GcRef::at(k));
                    assert(keep.contains(k));
                }
                lemma_lists_ok_kept(old(self).gc, self.gc);
            }
        }
    }

    /// The interned string with the text of `string`, after collecting garbage if
    /// the heap has grown enough.
    pub fn intern(&mut self, string: &str) -> (r: GcRef<BanjoString>)
        requires
            old(self).wf(),
            old(self).heap().collector().has_room(),
        ensures
            final(self).wf(),
            final(self).state() == old(self).state(),
            final(self).outputs() == old(self).outputs(),
            final(self).globals_capacity() == old(self).globals_capacity(),
            final(self).globals_table() == old(self).globals_table(),
            final(self).heap().functions() == old(self).heap().functions(),
            final(self).heap().natives() == old(self).heap().natives(),
            final(self).heap().lists() == old(self).heap().lists(),
            exists|mid: crate::gc::Gc|
                after_gc_check(old(self).heap().collector(), mid, roots(old(self).state(), old(self).heap()))
                    && #[trigger] mid.interned_into(final(self).heap().collector(), string@, r.slot()),
    {
        proof {
            self.gc.strings.bytes_count_live_objects();
        }
        self.mark_and_collect_garbage();
        let ghost mid = self.gc.strings;
        proof {
            let before = old(self).gc.strings;
            if before.bytes_allocated() > before.next_gc() {
                lemma_kept_count(before.objects(), roots(old(self).state(), old(self).heap()));
                let a = crate::gc::live_count(mid.objects());
                let b = crate::gc::live_count(before.objects());
                assert(a * crate::gc::object_size() <= b * crate::gc::object_size()) by (nonlinear_arith)
                    requires
                        a <= b,
                ;
            }
        }
        let r = self.gc.strings.intern(string);
        proof {
            let objects = self.gc.strings.objects();
            self.globals.lemma_keys_live(mid.objects());
            assert forall|k: usize| #[trigger] self.globals@.contains_key(k) implies k < objects.len()
                && objects[k as int] is Some && objects[k as int]->Some_0.hash == mid.objects()[k as int]->Some_0.hash by {}
            self.globals.lemma_keys_in_stable(mid.objects(), objects);
            assert(after_gc_check(old(self).heap().collector(), mid, roots(old(self).state(), old(self).heap())));
            assert(mid.interned_into(self.heap().collector(), string@, r.slot()));
        }
        r
    }

    /// Moves `list` to the heap, then collects garbage if the heap has grown
    /// enough; the new list is among the roots, so what it holds is kept.
    pub fn allocate(&mut self, list: List<N>) -> (r: GcRef<List<N>>)
        requires
            old(self).wf(),
            forall|i: int|
                0 <= i < list.values@.len() ==> element_ok(
                    old(self).heap(),
                    old(self).heap().lists().len() as int,
                    #[trigger] list.values@[i],
                ),
        ensures
            final(self).wf(),
            final(self).state() == old(self).state(),
            final(self).outputs() == old(self).outputs(),
            final(self).globals_capacity() == old(self).globals_capacity(),
            final(self).globals_table() == old(self).globals_table(),
            r.slot() == old(self).heap().lists().len(),
            final(self).heap().lists() == old(self).heap().lists().push(list.values@),
            final(self).heap().functions() == old(self).heap().functions(),
            final(self).heap().natives() == old(self).heap().natives(),
            after_gc_check(
                old(self).heap().collector(),
                final(self).heap().collector(),
                roots(old(self).state(), final(self).heap()),
            ),
    {
        let ghost values = list.values@;
        let r = self.gc.allocate_list(list);
        proof {
            let n = old(self).gc.lists().len() as int;
            assert forall|l: int, i: int|
                0 <= l < self.gc.lists().len() && 0 <= i < self.gc.lists()[l].len() implies element_ok(
                self.gc,
                l,
                #[trigger] self.gc.lists()[l][i],
            ) by {
                if l < n {
                    assert(self.gc.lists()[l] == old(self).gc.lists()[l]);
                    assert(element_ok(old(self).gc, l, old(self).gc.lists()[l][i]));
                } else {
                    assert(self.gc.lists()[l] == values);
                    assert(element_ok(old(self).gc, n, values[i]));
                }
            }
        }
        self.mark_and_collect_garbage();
        r
    }

    /// Moves the native function `native` to the heap, after collecting garbage if
    /// the heap has grown enough.
    fn alloc_native(&mut self, native: NativeFunction) -> (r: GcRef<NativeFunction>)
        requires
            old(self).wf(),
        ensures
            final(self).wf(),
            final(self).state() == old(self).state(),
            final(self).outputs() == old(self).outputs(),
            final(self).globals_capacity() == old(self).globals_capacity(),
            final(self).globals_table() == old(self).globals_table(),
            r.slot() == old(self).heap().natives().len(),
            final(self).heap().natives() == old(self).heap().natives().push(native.function),
            final(self).heap().functions() == old(self).heap().functions(),
            final(self).heap().lists() == old(self).heap().lists(),
            after_gc_check(
                old(self).heap().collector(),
                final(self).heap().collector(),
                roots(old(self).state(), old(self).heap()),
            ),
    {
        self.mark_and_collect_garbage();
        self.gc.allocate_native(native)
    }

    /// Makes the native function `function` the global `name`.
    fn define_native(&mut self, name: &str, function: Native) -> (r: GcRef<BanjoString>)
        requires
            old(self).wf(),
            old(self).heap().collector().has_room(),
            old(self).state().stack.len() < STACK_MAX,
            old(self).globals_capacity() * 2 <= usize::MAX,
        ensures
            final(self).wf(),
            final(self).state() == (VmState {
                globals: old(self).state().globals.insert(
                    r.slot(),
                    Value::NativeFunction(GcRef::at(old(self).heap().natives().len() as usize)),
                ),
                ..old(self).state()
            }),
            final(self).outputs() == old(self).outputs(),
            readable(final(self).heap(), r),
            text_of(final(self).heap().collector().objects(), r) == name@,
            final(self).heap().natives() == old(self).heap().natives().push(function),
            final(self).heap().functions() == old(self).heap().functions(),
            final(self).heap().lists() == old(self).heap().lists(),
            final(self).heap().collector().table_bound() <= old(self).heap().collector().table_bound() + 3,
            final(self).heap().collector().bytes_allocated() <= old(self).heap().collector().bytes_allocated()
                + crate::gc::object_size(),
            final(self).globals_capacity() <= old(self).globals_table().growth_bound() + 3,
            final(self).globals_table().growth_bound() <= old(self).globals_table().growth_bound() + 3,
            forall|k: usize|
                #[trigger] old(self).state().globals.contains_key(k) ==> final(self).heap().collector().objects()[k as int]
                    == old(self).heap().collector().objects()[k as int],
    {
        let ls = self.intern(name);
        proof {
            self.gc.strings.lemma_interned();
        }
        // Pushing and popping to and from stack is only to ensure no GC occurs on call
        // to alloc
        proof {
            self.stack.lemma_bounded();
        }
        self.stack.push(Value::String(ls));
        let ghost before = self.gc.strings;
        let native = self.alloc_native(NativeFunction::new(function));
        proof {
            let keep = roots(self.state(), self.heap());
            assert(values_slots(self.stack@).contains(ls.slot())) by {
                let st = self.stack@;
                assert(st.drop_last() =~= old(self).stack@);
                assert(st.last() == Value::<N>::String(ls));
            }
            assert(keep.contains(ls.slot()));
        }
        proof {
            crate::gc::GcRef::<NativeFunction>::lemma_at(native.slot(), native);
            let mid = choose|mid: crate::gc::Gc|
                after_gc_check(old(self).heap().collector(), mid, roots(old(self).state(), old(self).heap()))
                    && #[trigger] mid.interned_into(before, name@, ls.slot());
            lemma_gc_check_bytes(old(self).heap().collector(), mid, roots(old(self).state(), old(self).heap()));
            lemma_gc_check_bytes(before, self.gc.strings, roots(self.state(), self.heap()));
            old(self).globals.lemma_keys_live(old(self).heap().collector().objects());
            assert forall|k: usize| #[trigger] old(self).state().globals.contains_key(k) implies self.heap().collector().objects()[k as int]
                == old(self).heap().collector().objects()[k as int] by {
                assert(roots(old(self).state(), old(self).heap()).contains(k));
                assert(roots(self.state(), self.heap()).contains(k));
            }
        }
        self.globals.insert(ls, Value::NativeFunction(native), self.gc.strings.heap());
        self.stack.pop();
        proof {
            assert(self.stack@ =~= old(self).stack@);
        }
        ls
    }

    /// A machine with the native functions `clock`, `sum` and `product` as its
    /// globals, and nothing run yet.
    pub fn new() -> (vm: Self)
        requires
            3 * crate::gc::object_size() <= isize::MAX,
        ensures
            vm.wf(),
            vm.state().stack == Seq::<Value<N>>::empty(),
            vm.state().frames == Seq::<CallView>::empty(),
            vm.state().values == Seq::<Value<N>>::empty(),
            vm.outputs().nodes() == Seq::<Seq<char>>::empty(),
            vm.outputs().errors().node_errors_map() == Map::<Seq<char>, Seq<char>>::empty(),
            vm.outputs().errors().additional_view() == Seq::<Seq<char>>::empty(),
            vm.heap().functions() == Seq::<FunctionView<N>>::empty(),
            vm.heap().lists() == Seq::<Seq<Value<N>>>::empty(),
            vm.heap().natives() == seq![Native::Clock, Native::Sum, Native::Product],
            vm.state().globals.dom().len() == 3,
            forall|k: usize| #[trigger] vm.state().globals.contains_key(k) ==> readable(vm.heap(), GcRef::at(k)),
            exists|c: usize, s: usize, p: usize|
                {
                    &&& text_of(vm.heap().collector().objects(), #[trigger] GcRef::at(c)) == "clock"@
                    &&& text_of(vm.heap().collector().objects(), #[trigger] GcRef::at(s)) == "sum"@
                    &&& text_of(vm.heap().collector().objects(), #[trigger] GcRef::at(p)) == "product"@
                    &&& vm.state().globals == map![
                        c => Value::<N>::NativeFunction(GcRef::at(0)),
                        s => Value::<N>::NativeFunction(GcRef::at(1)),
                        p => Value::<N>::NativeFunction(GcRef::at(2)),
                    ]
                },
    {
        let gc = Gc::new();
        let mut vm = Vm {
            gc,
            stack: Stack::new(),
            frames: Stack::new(),
            globals: Table::new(),
            output: OutputValues::default(),
        };
        proof {
            vm.gc.strings.bytes_count_live_objects();
            assert(vm.globals_table().growth_bound() == 8);
            assert(vm.state().frames =~= Seq::<CallView>::empty());
        }
        let c = vm.define_native("clock", Native::Clock);
        let ghost o1 = vm.heap().collector().objects();
        proof {
            assert(vm.state().globals.contains_key(c.slot()));
        }
        let s = vm.define_native("sum", Native::Sum);
        let ghost o2 = vm.heap().collector().objects();
        proof {
            assert(o2[c.slot() as int] == o1[c.slot() as int]);
            assert(vm.state().globals.contains_key(c.slot()));
            assert(vm.state().globals.contains_key(s.slot()));
        }
        let p = vm.define_native("product", Native::Product);
        proof {
            let o3 = vm.heap().collector().objects();
            assert(o3[c.slot() as int] == o2[c.slot() as int]);
            assert(o3[s.slot() as int] == o2[s.slot() as int]);
            assert(text_of(o3, c) == "clock"@);
            assert(text_of(o3, s) == "sum"@);
        }
        proof {
            crate::gc::GcRef::<BanjoString>::lemma_at(c.slot(), c);
            crate::gc::GcRef::<BanjoString>::lemma_at(s.slot(), s);
            crate::gc::GcRef::<BanjoString>::lemma_at(p.slot(), p);
            reveal_strlit("clock");
            reveal_strlit("sum");
            reveal_strlit("product");
            assert(c.slot() != s.slot() && c.slot() != p.slot() && s.slot() != p.slot()) by {
                assert("clock"@.len() != "sum"@.len());
                assert("clock"@.len() != "product"@.len());
                assert("sum"@.len() != "product"@.len());
            }
            assert(vm.state().globals =~= map![
                c.slot() => Value::<N>::NativeFunction(GcRef::at(0)),
                s.slot() => Value::<N>::NativeFunction(GcRef::at(1)),
                p.slot() => Value::<N>::NativeFunction(GcRef::at(2)),
            ]);
            assert(vm.state().globals.dom() =~= set![c.slot(), s.slot(), p.slot()]);
            vm.globals.lemma_keys_live(vm.heap().collector().objects());
            assert forall|k: usize| #[trigger] vm.state().globals.contains_key(k) implies readable(vm.heap(), GcRef::at(k)) by {
                crate::gc::GcRef::<BanjoString>::lemma_at(k, GcRef::at(k));
            }
            assert(vm.heap().natives() =~= seq![Native::Clock, Native::Sum, Native::Product]);
            let objects = vm.heap().collector().objects();
            assert(text_of(objects, GcRef::at(c.slot())) == "clock"@);
            assert(text_of(objects, GcRef::at(s.slot())) == "sum"@);
            assert(text_of(objects, GcRef::at(p.slot())) == "product"@);
        }
        vm
    }

    /// Compiles `source`, puts its script on the stack, where it stays so that
    /// it is never collected, and calls it; a failing call is recorded. The run
    /// goes on with `step`.
    pub fn start(&mut self, source: Source<N>) -> (script: GcRef<Function<N>>)
        requires
            old(self).wf(),
            source_ok(source.nodes@),
            old(self).heap().collector().can_intern(
                uninterned(
                    texts(source.nodes@),
                    StringsView {
                        objects: old(self).heap().collector().objects(),
                        interned: old(self).heap().collector().interned(),
                    },
                ),
            ),
            old(self).state().stack.len() < STACK_MAX,
            frames_ok(old(self).state(), old(self).heap()),
        ensures
            final(self).wf(),
            exists|ast: Ast<N>|
                ast.wf() && ast.nodes() == source.nodes@ && #[trigger] started(
                    old(self).heap(),
                    old(self).outputs(),
                    old(self).state(),
                    ast,
                    final(self).heap(),
                    final(self).outputs(),
                    final(self).state(),
                    script.slot(),
                ),
    {
        let ghost old_objects = self.gc.strings.objects();
        let ast = Ast::new(source);
        let mut gc = Gc::new();
        std::mem::swap(&mut gc, &mut self.gc);
        let mut output = OutputValues::default();
        std::mem::swap(&mut output, &mut self.output);
        let mut compiler = Compiler::new(&ast, gc, output);
        let ghost st0 = compiler.state();
        proof {
            assert(st0 == compile_start(old(self).heap(), old(self).outputs()));
        }
        let function = compiler.compile();
        let ghost cs = compiler.state();
        proof {
            assert((cs, function.slot() as nat) == compile_step(compile_start(old(self).heap(), old(self).outputs()), ast));
            assert(cs.functions.len() == function.slot() + 1);
        }
        let (gc, output) = compiler.finish();
        self.gc = gc;
        self.output = output;
        proof {
            let objects = self.gc.strings.objects();
            self.globals.lemma_keys_live(old_objects);
            assert forall|k: usize| #[trigger] self.globals@.contains_key(k) implies k < objects.len()
                && objects[k as int] is Some && objects[k as int]->Some_0.hash == old_objects[k as int]->Some_0.hash by {}
            self.globals.lemma_keys_in_stable(old_objects, objects);
            self.lemma_frames();
            old(self).lemma_frames();
            assert forall|i: int| 0 <= i < self.state().frames.len() implies {
                let f = #[trigger] self.state().frames[i];
                &&& f.function < self.heap().functions().len()
                &&& self.heap().functions()[f.function as int].name matches Some(r) ==> readable(self.heap(), r)
            } by {
                let f = self.state().frames[i];
                assert(f == old(self).state().frames[i]);
                assert(self.heap().functions()[f.function as int] == old(self).heap().functions()[f.function as int]);
            }
            self.stack.lemma_bounded();
        }
        proof {
            assert(self.heap().functions() == cs.functions);
            assert(self.heap().collector().objects() == cs.strings.objects);
            assert(self.outputs().values() == cs.values);
        }
        // Leave the <script> function on the stack forever so it's not GC'd
        self.stack.push(Value::Function(function));
        proof {
            crate::gc::GcRef::<Function<N>>::lemma_at(function.slot(), function);
        }
        match self.call(function, 0) {
            Ok(_) => {},
            Err(e) => self.output.add_error(e),
        }
        proof {
            assert(started(
                old(self).heap(),
                old(self).outputs(),
                old(self).state(),
                ast,
                self.heap(),
                self.outputs(),
                self.state(),
                function.slot(),
            ));
        }
        function
    }

    /// The number of values on the stack.
    pub fn stack_len(&self) -> (n: usize)
        requires
            self.wf(),
        ensures
            n == self.state().stack.len(),
    {
        self.stack.len()
    }

    /// The text of the string `r`, if it has not been freed.
    pub fn string_text(&self, r: GcRef<BanjoString>) -> (t: Option<String>)
        ensures
            readable(self.heap(), r) ==> (t matches Some(s) && s@ == text_of(self.heap().collector().objects(), r)),
            !readable(self.heap(), r) ==> t is None,
    {
        if self.string_readable(r) {
            Some(self.gc.string(r).as_str().to_owned())
        } else {
            None
        }
    }

    /// The values of the list `r`, if there is one.
    pub fn list_values(&self, r: GcRef<List<N>>) -> (v: Option<Vec<Value<N>>>)
        ensures
            r.slot() < self.heap().lists().len() ==> (v matches Some(vs) && vs@ == self.heap().lists()[r.slot() as int]),
            r.slot() >= self.heap().lists().len() ==> v is None,
    {
        if r.index() < self.gc.lists.len() {
            Some(self.gc.list(r).values.clone())
        } else {
            None
        }
    }

    /// How the function `r` is shown: `<fn "name">`, or `<script>`; none when
    /// there is no such function or its name has been freed.
    pub fn function_text(&self, r: GcRef<Function<N>>) -> (t: Option<String>)
        requires
            self.wf(),
        ensures
            t matches Some(s) ==> s@ == function_label(self.heap(), r.slot() as usize),
            t is None ==> !(r.slot() < self.heap().functions().len() && (self.heap().functions()[r.slot() as int].name matches Some(m) ==> readable(self.heap(), m))),
    {
        if r.index() < self.gc.functions.len() && self.name_readable(r) {
            Some(self.function_label(r))
        } else {
            None
        }
    }

    /// Runs the program: carries out instructions until one leaves something to
    /// the caller (number arithmetic, adding, a native function), the script
    /// returns, or an instruction fails, and hands that back; `Stuck` where the
    /// next instruction cannot be carried out. Every run ends, since each
    /// instruction carried out lessens the running left.
    pub fn run(&mut self) -> (r: Result<Step<N>>)
        requires
            old(self).wf(),
        ensures
            final(self).wf(),
            final(self).heap() == old(self).heap(),
            final(self).outputs().nodes() == old(self).outputs().nodes(),
            final(self).outputs().errors() == old(self).outputs().errors(),
            exists|n: nat|
                continues(old(self).state(), old(self).heap(), n) && #[trigger] run_ends(
                    iterate(old(self).state(), old(self).heap(), n),
                    old(self).heap(),
                    final(self).state(),
                    final(self).globals_capacity(),
                    step_outcome(r),
                ),
    {
        let ghost s0 = self.state();
        let ghost heap = self.heap();
        let ghost mut n: nat = 0;
        loop
            invariant
                self.wf(),
                heap == old(self).heap(),
                s0 == old(self).state(),
                self.heap() == heap,
                self.outputs().nodes() == old(self).outputs().nodes(),
                self.outputs().errors() == old(self).outputs().errors(),
                continues(s0, heap, n),
                iterate(s0, heap, n) == self.state(),
            decreases progress(self.state().frames, heap),
        {
            if !self.is_ready() {
                proof {
                    assert(run_ends(iterate(s0, heap, n), heap, self.state(), self.globals_capacity(), Ok(StepView::Stuck)));
                }
                return Ok(Step::Stuck);
            }
            let ghost before = self.state();
            let ghost capacity = self.globals_capacity();
            proof {
                lemma_step_progress(before, heap, capacity);
            }
            let r = self.step();
            match r {
                Ok(Step::Continue) => {
                    proof {
                        lemma_continues_extend(s0, heap, n);
                        n = n + 1;
                    }
                },
                _ => {
                    proof {
                        assert(run_ends(iterate(s0, heap, n), heap, self.state(), self.globals_capacity(), step_outcome(r)));
                    }
                    return r;
                },
            }
        }
    }

    /// The constant `constant` of the function of `frame`.
    fn read_constant(&self, frame: CallFrame<N>, constant: crate::banjo::op_code::Constant) -> (v: Value<N>)
        requires
            frame.function.slot() < self.heap().functions().len(),
            constant.slot < self.heap().functions()[frame.function.slot() as int].constants.len(),
        ensures
            v == self.heap().functions()[frame.function.slot() as int].constants[constant.slot as int],
    {
        self.gc.function(frame.function).chunk.constants[constant.slot as usize]
    }
}


/// The value at `i` of `v` when it is a list, nil past its end; any other value
/// is itself at every `i`.
pub open spec fn operand_at<N: Copy>(heap: Gc<N>, v: Value<N>, i: int) -> Value<N> {
    match v {
        Value::List(l) => padded(heap.lists()[l.slot() as int], i),
        _ => v,
    }
}

/// The number of values of `v` when it is a list; zero otherwise.
pub open spec fn length_in<N: Copy>(heap: Gc<N>, v: Value<N>) -> nat {
    match v {
        Value::List(l) => heap.lists()[l.slot() as int].len(),
        _ => 0,
    }
}

/// How many strings adding `a` and `b` may intern, going at most `fuel` lists
/// deep: one for each pair of values that joins into a string.
pub open spec fn strings_made<N: Copy>(heap: Gc<N>, a: Value<N>, b: Value<N>, fuel: nat) -> nat
    decreases fuel, 0nat, 0nat,
{
    if passes(a) || passes(b) {
        0
    } else if a is List || b is List {
        if fuel == 0 {
            0
        } else {
            let n = if length_in(heap, a) > length_in(heap, b) {
                length_in(heap, a)
            } else {
                length_in(heap, b)
            };
            strings_made_upto(heap, a, b, n, (fuel - 1) as nat)
        }
    } else if a is String || b is String {
        1
    } else {
        0
    }
}

/// How many strings adding the first `n` values of `a` and `b` may intern.
pub open spec fn strings_made_upto<N: Copy>(heap: Gc<N>, a: Value<N>, b: Value<N>, n: nat, fuel: nat) -> nat
    decreases fuel, 1nat, n,
{
    if n == 0 {
        0
    } else {
        strings_made_upto(heap, a, b, (n - 1) as nat, fuel) + strings_made(
            heap,
            operand_at(heap, a, n - 1),
            operand_at(heap, b, n - 1),
            fuel,
        )
    }
}

/// From `before` to `after` the collector used at most the room of `k` strings.
pub open spec fn within<N: Copy>(before: Gc<N>, after: Gc<N>, k: nat) -> bool {
    &&& after.collector().bytes_allocated() <= before.collector().bytes_allocated() + k * crate::gc::object_size()
    &&& after.collector().table_bound() <= before.collector().table_bound() + 3 * k
}

proof fn lemma_within_trans<N: Copy>(a: Gc<N>, b: Gc<N>, c: Gc<N>, j: nat, k: nat)
    requires
        within(a, b, j),
        within(b, c, k),
    ensures
        within(a, c, j + k),
{
    let s = crate::gc::object_size();
    assert((j + k) * s == j * s + k * s) by (nonlinear_arith);
}

/// Room for `k` strings, of which fewer than `k` were used, leaves room for one
/// more; room for `k` strings and for `j` more after them is room for `j` more
/// now.
proof fn lemma_room_left<N: Copy>(a: Gc<N>, b: Gc<N>, used: nat, more: nat, k: nat)
    requires
        a.collector().can_intern(k),
        within(a, b, used),
        used + more <= k,
    ensures
        b.collector().can_intern(more),
{
    let s = crate::gc::object_size();
    assert(used * s + more * s == (used + more) * s) by (nonlinear_arith);
    assert((used + more) * s <= k * s) by (nonlinear_arith)
        requires
            used + more <= k,
    ;
}

proof fn lemma_within_mono<N: Copy>(a: Gc<N>, b: Gc<N>, j: nat, k: nat)
    requires
        within(a, b, j),
        j <= k,
    ensures
        within(a, b, k),
{
    let s = crate::gc::object_size();
    assert(j * s <= k * s) by (nonlinear_arith)
        requires
            j <= k,
    ;
}

proof fn lemma_upto_mono<N: Copy>(heap: Gc<N>, a: Value<N>, b: Value<N>, i: nat, n: nat, fuel: nat)
    requires
        i <= n,
    ensures
        strings_made_upto(heap, a, b, i, fuel) <= strings_made_upto(heap, a, b, n, fuel),
    decreases n - i,
{
    if i < n {
        lemma_upto_mono(heap, a, b, i, (n - 1) as nat, fuel);
    }
}

/// What adding may intern does not change as the heap grows, for operands that
/// name lists of the heap.
proof fn lemma_strings_made_grows<N: Copy>(before: Gc<N>, after: Gc<N>, a: Value<N>, b: Value<N>, fuel: nat)
    requires
        grows(before, after),
        lists_ok(before),
        value_ok(before, a),
        value_ok(before, b),
    ensures
        strings_made(after, a, b, fuel) == strings_made(before, a, b, fuel),
    decreases fuel, 0nat, 0nat,
{
    if !(passes(a) || passes(b)) && (a is List || b is List) && fuel > 0 {
        if let Value::List(l) = a {
            assert(after.lists()[l.slot() as int] == before.lists()[l.slot() as int]);
        }
        if let Value::List(l) = b {
            assert(after.lists()[l.slot() as int] == before.lists()[l.slot() as int]);
        }
        let n = if length_in(before, a) > length_in(before, b) {
            length_in(before, a)
        } else {
            length_in(before, b)
        };
        lemma_strings_made_upto_grows(before, after, a, b, n, (fuel - 1) as nat);
    }
}

proof fn lemma_strings_made_upto_grows<N: Copy>(
    before: Gc<N>,
    after: Gc<N>,
    a: Value<N>,
    b: Value<N>,
    n: nat,
    fuel: nat,
)
    requires
        grows(before, after),
        lists_ok(before),
        value_ok(before, a),
        value_ok(before, b),
    ensures
        strings_made_upto(after, a, b, n, fuel) == strings_made_upto(before, a, b, n, fuel),
    decreases fuel, 1nat, n,
{
    if n > 0 {
        lemma_strings_made_upto_grows(before, after, a, b, (n - 1) as nat, fuel);
        let i = n - 1;
        if let Value::List(l) = a {
            assert(after.lists()[l.slot() as int] == before.lists()[l.slot() as int]);
            let xs = before.lists()[l.slot() as int];
            if 0 <= i < xs.len() {
                assert(element_ok(before, l.slot() as int, xs[i]));
            }
        }
        if let Value::List(l) = b {
            assert(after.lists()[l.slot() as int] == before.lists()[l.slot() as int]);
            let ys = before.lists()[l.slot() as int];
            if 0 <= i < ys.len() {
                assert(element_ok(before, l.slot() as int, ys[i]));
            }
        }
        lemma_strings_made_grows(before, after, operand_at(before, a, i), operand_at(before, b, i), fuel);
    }
}


impl<N: Copy> Vm<N> {
    /// Moves a list of `values` to the heap, collecting no garbage.
    fn push_list(&mut self, values: Vec<Value<N>>) -> (r: GcRef<List<N>>)
        requires
            old(self).wf(),
            forall|i: int|
                0 <= i < values@.len() ==> element_ok(
                    old(self).heap(),
                    old(self).heap().lists().len() as int,
                    #[trigger] values@[i],
                ),
        ensures
            final(self).wf(),
            final(self).state() == old(self).state(),
            final(self).outputs() == old(self).outputs(),
            final(self).globals_capacity() == old(self).globals_capacity(),
            final(self).globals_table() == old(self).globals_table(),
            r.slot() == old(self).heap().lists().len(),
            final(self).heap().lists() == old(self).heap().lists().push(values@),
            final(self).heap().functions() == old(self).heap().functions(),
            final(self).heap().natives() == old(self).heap().natives(),
            final(self).heap().collector() == old(self).heap().collector(),
            grows(old(self).heap(), final(self).heap()),
    {
        let ghost vs = values@;
        let r = self.gc.allocate_list(List::new(values));
        proof {
            let n = old(self).gc.lists().len() as int;
            assert forall|l: int, i: int|
                0 <= l < self.gc.lists().len() && 0 <= i < self.gc.lists()[l].len() implies element_ok(
                self.gc,
                l,
                #[trigger] self.gc.lists()[l][i],
            ) by {
                if l < n {
                    assert(self.gc.lists()[l] == old(self).gc.lists()[l]);
                    assert(element_ok(old(self).gc, l, old(self).gc.lists()[l][i]));
                } else {
                    assert(self.gc.lists()[l] == vs);
                    assert(element_ok(old(self).gc, n, vs[i]));
                }
            }
        }
        r
    }

    /// The interned string with the text `text`, collecting no garbage; none,
    /// with nothing changed, when the collector has no room for another string.
    fn intern_kept(&mut self, text: &str) -> (r: Option<GcRef<BanjoString>>)
        requires
            old(self).wf(),
        ensures
            final(self).wf(),
            final(self).state() == old(self).state(),
            final(self).outputs() == old(self).outputs(),
            final(self).globals_capacity() == old(self).globals_capacity(),
            final(self).globals_table() == old(self).globals_table(),
            grows(old(self).heap(), final(self).heap()),
            within(old(self).heap(), final(self).heap(), 1),
            final(self).heap().lists() == old(self).heap().lists(),
            match r {
                Some(z) => string_made(final(self).heap(), z, text@),
                None => final(self).heap() == old(self).heap() && !old(self).heap().collector().has_room(),
            },
    {
        if !self.gc.strings.room_for_one() {
            return None;
        }
        let ghost before = self.gc.strings.objects();
        let z = self.gc.intern(text);
        proof {
            let objects = self.gc.strings.objects();
            self.globals.lemma_keys_live(before);
            assert forall|k: usize| #[trigger] self.globals@.contains_key(k) implies k < objects.len()
                && objects[k as int] is Some && objects[k as int]->Some_0.hash == before[k as int]->Some_0.hash by {}
            self.globals.lemma_keys_in_stable(before, objects);
            assert forall|k: usize|
                #[trigger] lists_slots(old(self).gc.lists()).contains(k) && crate::gc::live_in(
                    before,
                    GcRef::at(k),
                ) implies crate::gc::live_in(objects, GcRef::at(k)) by {
                crate::gc::GcRef::<BanjoString>::lemma_at(k, GcRef::at(k));
            }
            lemma_lists_ok_kept(old(self).gc, self.gc);
        }
        Some(z)
    }

    /// The value at `i` of `v` when it is a list, nil past its end; else `v`.
    fn operand_at(&self, v: Value<N>, i: usize) -> (x: Value<N>)
        requires
            value_ok(self.heap(), v),
        ensures
            x == operand_at(self.heap(), v, i as int),
    {
        match v {
            Value::List(l) => {
                let values = &self.gc.list(l).values;
                if i < values.len() {
                    values[i]
                } else {
                    Value::Nil
                }
            },
            _ => v,
        }
    }

    /// The number of values of `v` when it is a list; else none.
    fn length_of(&self, v: Value<N>) -> (n: usize)
        requires
            value_ok(self.heap(), v),
        ensures
            v matches Value::List(l) ==> n == self.heap().lists()[l.slot() as int].len(),
            !(v is List) ==> n == 0,
    {
        match v {
            Value::List(l) => self.gc.list(l).values.len(),
            _ => 0,
        }
    }

    /// Adds `a` and `b` value by value, one or both of them lists, into a new list.
    fn add_lists<S, T>(&mut self, a: Value<N>, b: Value<N>, plus: &S, show: &T, Ghost(fuel): Ghost<nat>) -> (r: Option<
        Value<N>,
    >) where S: Fn(Summand<N>, Summand<N>) -> N, T: Fn(N) -> String
        requires
            old(self).wf(),
            value_ok(old(self).heap(), a),
            value_ok(old(self).heap(), b),
            !passes(a),
            !passes(b),
            a is List || b is List,
            depth(a, b) <= fuel,
            forall|x: Summand<N>, y: Summand<N>| call_requires(*plus, (x, y)),
            forall|n: N| call_requires(*show, (n,)),
        ensures
            final(self).wf(),
            final(self).state() == old(self).state(),
            final(self).outputs() == old(self).outputs(),
            final(self).globals_capacity() == old(self).globals_capacity(),
            final(self).globals_table() == old(self).globals_table(),
            grows(old(self).heap(), final(self).heap()),
            within(old(self).heap(), final(self).heap(), strings_made(old(self).heap(), a, b, fuel)),
            match r {
                Some(v) => value_ok(final(self).heap(), v) && sum_of(final(self).heap(), *plus, *show, a, b, v, fuel),
                None => !final(self).heap().collector().has_room(),
            },
            old(self).heap().collector().can_intern(strings_made(old(self).heap(), a, b, fuel)) ==> r is Some,
            r matches Some(v) ==> (v matches Value::List(l) && l.slot() >= old(self).heap().lists().len()),
        decreases fuel, 0nat,
    {
        let ghost h0 = self.heap();
        let na = self.length_of(a);
        let nb = self.length_of(b);
        let n = if na > nb {
            na
        } else {
            nb
        };
        let mut zs: Vec<Value<N>> = Vec::new();
        let mut i: usize = 0;
        while i < n
            invariant
                self.wf(),
                self.state() == old(self).state(),
                self.outputs() == old(self).outputs(),
                self.globals_capacity() == old(self).globals_capacity(),
                self.globals_table() == old(self).globals_table(),
                h0 == old(self).heap(),
                grows(h0, self.heap()),
                value_ok(h0, a),
                value_ok(h0, b),
                a is List || b is List,
                depth(a, b) <= fuel,
                a matches Value::List(l) ==> na == h0.lists()[l.slot() as int].len(),
                !(a is List) ==> na == 0,
                b matches Value::List(l) ==> nb == h0.lists()[l.slot() as int].len(),
                !(b is List) ==> nb == 0,
                n == if na > nb {
                    na
                } else {
                    nb
                },
                i <= n,
                zs@.len() == i,
                lists_ok(h0),
                fuel > 0,
                strings_made(h0, a, b, fuel) == strings_made_upto(h0, a, b, n as nat, (fuel - 1) as nat),
                within(h0, self.heap(), strings_made_upto(h0, a, b, i as nat, (fuel - 1) as nat)),
                forall|k: int| 0 <= k < i ==> value_ok(self.heap(), #[trigger] zs@[k]),
                forall|k: int|
                    0 <= k < i ==> sum_of(
                        self.heap(),
                        *plus,
                        *show,
                        operand_at(h0, a, k),
                        operand_at(h0, b, k),
                        #[trigger] zs@[k],
                        (fuel - 1) as nat,
                    ),
                forall|x: Summand<N>, y: Summand<N>| call_requires(*plus, (x, y)),
                forall|n: N| call_requires(*show, (n,)),
            decreases n - i,
        {
            let ghost hb = self.heap();
            proof {
                lemma_value_ok_grows(h0, hb, a);
                lemma_value_ok_grows(h0, hb, b);
            }
            let x = self.operand_at(a, i);
            let y = self.operand_at(b, i);
            proof {
                assert(x == operand_at(h0, a, i as int)) by {
                    if let Value::List(l) = a {
                        assert(hb.lists()[l.slot() as int] == h0.lists()[l.slot() as int]);
                    }
                }
                assert(y == operand_at(h0, b, i as int)) by {
                    if let Value::List(l) = b {
                        assert(hb.lists()[l.slot() as int] == h0.lists()[l.slot() as int]);
                    }
                }
                assert(lists_ok(hb));
                assert(value_ok(hb, x) && rank(x) < fuel) by {
                    if let Value::List(l) = a {
                        let xs = hb.lists()[l.slot() as int];
                        if 0 <= i < xs.len() {
                            assert(element_ok(hb, l.slot() as int, xs[i as int]));
                        }
                    }
                }
                assert(value_ok(hb, y) && rank(y) < fuel) by {
                    if let Value::List(l) = b {
                        let ys = hb.lists()[l.slot() as int];
                        if 0 <= i < ys.len() {
                            assert(element_ok(hb, l.slot() as int, ys[i as int]));
                        }
                    }
                }
            }
            let ghost used = strings_made_upto(h0, a, b, i as nat, (fuel - 1) as nat);
            let ghost made = strings_made(h0, x, y, (fuel - 1) as nat);
            let ghost total = strings_made(h0, a, b, fuel);
            proof {
                assert(value_ok(h0, x)) by {
                    if let Value::List(l) = a {
                        let xs = h0.lists()[l.slot() as int];
                        if 0 <= i < xs.len() {
                            assert(element_ok(h0, l.slot() as int, xs[i as int]));
                        }
                    }
                }
                assert(value_ok(h0, y)) by {
                    if let Value::List(l) = b {
                        let ys = h0.lists()[l.slot() as int];
                        if 0 <= i < ys.len() {
                            assert(element_ok(h0, l.slot() as int, ys[i as int]));
                        }
                    }
                }
                lemma_strings_made_grows(h0, hb, x, y, (fuel - 1) as nat);
                assert(strings_made_upto(h0, a, b, (i + 1) as nat, (fuel - 1) as nat) == used + made);
                lemma_upto_mono(h0, a, b, (i + 1) as nat, n as nat, (fuel - 1) as nat);
                if h0.collector().can_intern(total) {
                    lemma_room_left(h0, hb, used, made, total);
                }
            }
            match self.add_values(x, y, plus, show, Ghost((fuel - 1) as nat)) {
                Some(z) => {
                    proof {
                        let ha = self.heap();
                        lemma_grows_trans(h0, hb, ha);
                        lemma_within_trans(h0, hb, ha, used, made);
                        assert forall|k: int| 0 <= k < i implies value_ok(ha, #[trigger] zs@[k]) by {
                            lemma_value_ok_grows(hb, ha, zs@[k]);
                        }
                        assert forall|k: int| 0 <= k < i implies sum_of(
                            ha,
                            *plus,
                            *show,
                            operand_at(h0, a, k),
                            operand_at(h0, b, k),
                            #[trigger] zs@[k],
                            (fuel - 1) as nat,
                        ) by {
                            lemma_sum_of_grows(
                                hb,
                                ha,
                                *plus,
                                *show,
                                operand_at(h0, a, k),
                                operand_at(h0, b, k),
                                zs@[k],
                                (fuel - 1) as nat,
                            );
                        }
                    }
                    zs.push(z);
                },
                None => {
                    proof {
                        lemma_grows_trans(h0, hb, self.heap());
                        lemma_within_trans(h0, hb, self.heap(), used, made);
                        lemma_within_mono(h0, self.heap(), used + made, total);
                    }
                    return None;
                },
            }
            i = i + 1;
        }
        let ghost hz = self.heap();
        let ghost zv = zs@;
        proof {
            assert forall|k: int| 0 <= k < zv.len() implies element_ok(hz, hz.lists().len() as int, #[trigger] zv[k]) by {
                assert(value_ok(hz, zv[k]));
            }
        }
        let l = self.push_list(zs);
        proof {
            let hf = self.heap();
            lemma_grows_trans(h0, hz, hf);
            crate::gc::GcRef::<List<N>>::lemma_at(l.slot(), l);
            assert(hf.lists()[l.slot() as int] == zv);
            assert forall|k: int| 0 <= k < zv.len() implies sum_of(
                hf,
                *plus,
                *show,
                operand_at(h0, a, k),
                operand_at(h0, b, k),
                #[trigger] zv[k],
                (fuel - 1) as nat,
            ) by {
                lemma_sum_of_grows(hz, hf, *plus, *show, operand_at(h0, a, k), operand_at(h0, b, k), zv[k], (fuel - 1) as nat);
            }
            if let Value::List(la) = a {
                assert(hf.lists()[la.slot() as int] == h0.lists()[la.slot() as int]);
            }
            if let Value::List(lb) = b {
                assert(hf.lists()[lb.slot() as int] == h0.lists()[lb.slot() as int]);
            }
        }
        Some(Value::List(l))
    }

    /// The sum of `a` and `b`, going at most `fuel` lists deep; none when the
    /// collector ran out of room for a string the sum needs.
    fn add_values<S, T>(&mut self, a: Value<N>, b: Value<N>, plus: &S, show: &T, Ghost(fuel): Ghost<nat>) -> (r: Option<
        Value<N>,
    >) where S: Fn(Summand<N>, Summand<N>) -> N, T: Fn(N) -> String
        requires
            old(self).wf(),
            value_ok(old(self).heap(), a),
            value_ok(old(self).heap(), b),
            depth(a, b) <= fuel,
            forall|x: Summand<N>, y: Summand<N>| call_requires(*plus, (x, y)),
            forall|n: N| call_requires(*show, (n,)),
        ensures
            final(self).wf(),
            final(self).state() == old(self).state(),
            final(self).outputs() == old(self).outputs(),
            final(self).globals_capacity() == old(self).globals_capacity(),
            final(self).globals_table() == old(self).globals_table(),
            grows(old(self).heap(), final(self).heap()),
            within(old(self).heap(), final(self).heap(), strings_made(old(self).heap(), a, b, fuel)),
            match r {
                Some(v) => value_ok(final(self).heap(), v) && sum_of(final(self).heap(), *plus, *show, a, b, v, fuel),
                None => !final(self).heap().collector().has_room(),
            },
            old(self).heap().collector().can_intern(strings_made(old(self).heap(), a, b, fuel)) ==> r is Some,
            !passes(a) && !passes(b) && (a is List || b is List) ==> (r matches Some(v) ==> (v matches Value::List(l)
                && l.slot() >= old(self).heap().lists().len())),
        decreases fuel, 1nat,
    {
        match a {
            Value::Nil | Value::Function(_) | Value::NativeFunction(_) => {
                return Some(b);
            },
            _ => {},
        }
        match b {
            Value::Nil | Value::Function(_) | Value::NativeFunction(_) => {
                return Some(a);
            },
            _ => {},
        }
        let lists = match a {
            Value::List(_) => true,
            _ => match b {
                Value::List(_) => true,
                _ => false,
            },
        };
        if lists {
            return self.add_lists(a, b, plus, show, Ghost(fuel));
        }
        let ghost h0 = self.heap();
        let (left, right) = match (a, b) {
            (Value::String(x), Value::String(y)) => (
                self.gc.string(x).as_str().to_owned(),
                self.gc.string(y).as_str().to_owned(),
            ),
            (Value::String(x), _) => (self.gc.string(x).as_str().to_owned(), leaf_text(b, show)),
            (_, Value::String(y)) => (leaf_text(a, show), self.gc.string(y).as_str().to_owned()),
            _ => {
                let n = plus(summand(a), summand(b));
                return Some(Value::Number(n));
            },
        };
        let mut text = left;
        text.append(right.as_str());
        match self.intern_kept(text.as_str()) {
            Some(z) => Some(Value::String(z)),
            None => None,
        }
    }
}

/// The summand a boolean or a number stands for.
fn summand<N: Copy>(v: Value<N>) -> (s: Summand<N>)
    ensures
        s == summand_of(v),
{
    match v {
        Value::Number(n) => Summand::Number(n),
        Value::Bool(b) => Summand::Bool(b),
        _ => Summand::Bool(false),
    }
}

/// How the boolean or number `v` reads when joined to a string.
fn leaf_text<N: Copy, T: Fn(N) -> String>(v: Value<N>, show: &T) -> (t: String)
    requires
        v is Bool || v is Number,
        forall|n: N| call_requires(*show, (n,)),
    ensures
        reads_as(*show, v, t@),
{
    match v {
        Value::Number(n) => show(n),
        Value::Bool(true) => String::from_str("true"),
        _ => String::from_str("false"),
    }
}

impl<N: Copy> Value<N> {
    /// Adds `rhs` to this value in `vm`, as `sum_of` says: nil and functions
    /// leave the other operand, whatever it names, and leave the heap as it
    /// was; lists add value by value into newly made lists, strings
    /// join into interned strings, booleans and numbers add as `plus` adds them and
    /// are written out by `show` when joined to a string. No garbage is collected
    /// meanwhile: the operands and the partial sums are held by nothing the
    /// collector marks. Otherwise none when an operand names nothing in the heap, or the
    /// collector runs out of room for a string; never while it has room for the
    /// strings the sum may make (`strings_made`).
    pub fn add<S, T>(self, rhs: Self, vm: &mut Vm<N>, plus: &S, show: &T) -> (r: Option<Self>) where
        S: Fn(Summand<N>, Summand<N>) -> N,
        T: Fn(N) -> String,

        requires
            old(vm).wf(),
            forall|x: Summand<N>, y: Summand<N>| call_requires(*plus, (x, y)),
            forall|n: N| call_requires(*show, (n,)),
        ensures
            final(vm).wf(),
            final(vm).state() == old(vm).state(),
            final(vm).outputs() == old(vm).outputs(),
            final(vm).globals_capacity() == old(vm).globals_capacity(),
            final(vm).globals_table() == old(vm).globals_table(),
            grows(old(vm).heap(), final(vm).heap()),
            passes(self) ==> r == Some(rhs) && final(vm).heap() == old(vm).heap(),
            !passes(self) && passes(rhs) ==> r == Some(self) && final(vm).heap() == old(vm).heap(),
            !passes(self) && !passes(rhs) && !(value_ok(old(vm).heap(), self) && value_ok(old(vm).heap(), rhs)) ==> (
            r is None && final(vm).heap() == old(vm).heap()),
            r matches Some(v) ==> adds_to(final(vm).heap(), *plus, *show, self, rhs, v),
            value_ok(old(vm).heap(), self) && value_ok(old(vm).heap(), rhs) ==> (r matches Some(v) ==> value_ok(
                final(vm).heap(),
                v,
            )),
            !passes(self) && !passes(rhs) && (self is List || rhs is List) ==> (r matches Some(v) ==> (v matches Value::List(
                l,
            ) && l.slot() >= old(vm).heap().lists().len())),
            r is None ==> !(value_ok(old(vm).heap(), self) && value_ok(old(vm).heap(), rhs))
                || !final(vm).heap().collector().has_room(),
            value_ok(old(vm).heap(), self) && value_ok(old(vm).heap(), rhs) && old(vm).heap().collector().can_intern(
                strings_made(old(vm).heap(), self, rhs, depth(self, rhs)),
            ) ==> r is Some,
    {
        match self {
            Value::Nil | Value::Function(_) | Value::NativeFunction(_) => {
                return Some(rhs);
            },
            _ => {},
        }
        match rhs {
            Value::Nil | Value::Function(_) | Value::NativeFunction(_) => {
                return Some(self);
            },
            _ => {},
        }
        if !vm.value_ok(&self) || !vm.value_ok(&rhs) {
            return None;
        }
        vm.add_values(self, rhs, plus, show, Ghost(depth(self, rhs)))
    }
}


/// Counting the texts not yet interned adds up over joined lists.
proof fn lemma_uninterned_concat(a: Seq<Seq<char>>, b: Seq<Seq<char>>, sv: StringsView)
    ensures
        uninterned(a + b, sv) == uninterned(a, sv) + uninterned(b, sv),
    decreases b.len(),
{
    if b.len() > 0 {
        assert((a + b).drop_last() =~= a + b.drop_last());
        lemma_uninterned_concat(a, b.drop_last(), sv);
    } else {
        assert(a + b =~= a);
    }
}

/// The texts of the first nodes are a prefix of the texts of all of them.
proof fn lemma_texts_prefix<N>(nodes: Seq<Node<N>>, i: int, sv: StringsView)
    requires
        0 <= i <= nodes.len(),
    ensures
        uninterned(texts(nodes.take(i)), sv) <= uninterned(texts(nodes), sv),
    decreases nodes.len() - i,
{
    if i < nodes.len() {
        lemma_texts_prefix(nodes, i + 1, sv);
        assert(nodes.take(i + 1).drop_last() =~= nodes.take(i));
        let last = nodes.take(i + 1).last();
        lemma_uninterned_concat(texts(nodes.take(i)), crate::banjo::compiler::node_texts(last.node_type, last.id@), sv);
    } else {
        assert(nodes.take(i) =~= nodes);
    }
}

/// The texts a node holds, in the order `node_texts` gives them.
fn texts_of<N>(node: &Node<N>) -> (ts: Vec<&str>)
    ensures
        ts@.map_values(|t: &str| t@) == crate::banjo::compiler::node_texts(node.node_type, node.id@),
{
    let mut ts: Vec<&str> = Vec::new();
    ts.push(node.id.as_str());
    let args = node.args();
    let mut k: usize = 0;
    while k < args.len()
        invariant
            k <= args@.len(),
            args@.map_values(|s: &str| s@) == crate::banjo::ast::arg_ids(node.node_type),
            ts@.map_values(|t: &str| t@) == seq![node.id@] + args@.map_values(|s: &str| s@).take(k as int),
        decreases args@.len() - k,
    {
        let ghost before = ts@.map_values(|t: &str| t@);
        ts.push(args[k]);
        proof {
            assert(args@.map_values(|s: &str| s@).take(k + 1) =~= args@.map_values(|s: &str| s@).take(k as int).push(
                args@[k as int]@,
            ));
            assert(ts@.map_values(|t: &str| t@) =~= before.push(args@[k as int]@));
        }
        k += 1;
    }
    let ghost head = ts@.map_values(|t: &str| t@);
    proof {
        assert(args@.map_values(|s: &str| s@).take(args@.len() as int) =~= args@.map_values(|s: &str| s@));
    }
    match &node.node_type {
        NodeType::VariableReference { var_node_id } => ts.push(var_node_id.as_str()),
        NodeType::FunctionCall { fn_node_id, .. } => ts.push(fn_node_id.as_str()),
        NodeType::Literal { value } | NodeType::Const { value } => match value {
            LiteralType::String(s) => ts.push(s.as_str()),
            _ => {
                ts.push("");
                proof {
                    reveal_strlit("");
                    assert(ts@.last()@ =~= crate::banjo::compiler::literal_text(*value));
                }
            },
        },
        _ => {},
    }
    proof {
        let tail = ts@.map_values(|t: &str| t@);
        let want = crate::banjo::compiler::node_texts(node.node_type, node.id@);
        match &node.node_type {
            NodeType::VariableReference { var_node_id } => {
                assert(tail =~= head.push(var_node_id@));
                assert(want =~= head + seq![var_node_id@]);
            },
            NodeType::FunctionCall { fn_node_id, .. } => {
                assert(tail =~= head.push(fn_node_id@));
                assert(want =~= head + seq![fn_node_id@]);
            },
            NodeType::Literal { value } | NodeType::Const { value } => {
                reveal_strlit("");
                let t = crate::banjo::compiler::literal_text(*value);
                assert(tail =~= head.push(t));
                assert(want =~= head + seq![t]);
            },
            _ => {
                assert(tail =~= head);
                assert(want =~= head);
            },
        }
        assert(tail =~= want);
    }
    ts
}

impl<N: Copy> Vm<N> {
    /// Whether the collector has room for every string that compiling `nodes`
    /// may intern: the room `start` needs.
    pub fn room_to_start(&self, nodes: &Vec<Node<N>>) -> (b: bool)
        requires
            self.wf(),
        ensures
            b == self.heap().collector().can_intern(
                uninterned(
                    texts(nodes@),
                    StringsView {
                        objects: self.heap().collector().objects(),
                        interned: self.heap().collector().interned(),
                    },
                ),
            ),
    {
        let ghost sv = StringsView {
            objects: self.heap().collector().objects(),
            interned: self.heap().collector().interned(),
        };
        let mut count: usize = 0;
        let mut i: usize = 0;
        while i < nodes.len()
            invariant
                self.wf(),
                sv == (StringsView {
                    objects: self.heap().collector().objects(),
                    interned: self.heap().collector().interned(),
                }),
                i <= nodes@.len(),
                count == uninterned(texts(nodes@.take(i as int)), sv),
            decreases nodes@.len() - i,
        {
            let ts = texts_of(&nodes[i]);
            let ghost names = ts@.map_values(|t: &str| t@);
            let ghost prefix = texts(nodes@.take(i as int));
            let mut m: usize = 0;
            while m < ts.len()
                invariant
                    self.wf(),
                    sv == (StringsView {
                        objects: self.heap().collector().objects(),
                        interned: self.heap().collector().interned(),
                    }),
                    i < nodes@.len(),
                    names == ts@.map_values(|t: &str| t@),
                    names == crate::banjo::compiler::node_texts(nodes@[i as int].node_type, nodes@[i as int].id@),
                    prefix == texts(nodes@.take(i as int)),
                    m <= ts@.len(),
                    count == uninterned(prefix, sv) + uninterned(names.take(m as int), sv),
                decreases ts@.len() - m,
            {
                proof {
                    assert(names.take(m + 1).drop_last() =~= names.take(m as int));
                    assert(names.take(m + 1).last() == ts@[m as int]@);
                }
                if !self.gc.strings.holds_text(ts[m]) {
                    if count == usize::MAX {
                        proof {
                            let all = nodes@;
                            assert(all.take(i + 1).drop_last() =~= all.take(i as int));
                            lemma_uninterned_concat(prefix, names, sv);
                            assert(names =~= names.take(m + 1) + names.skip(m + 1));
                            lemma_uninterned_concat(names.take(m + 1), names.skip(m + 1), sv);
                            lemma_texts_prefix(all, i + 1, sv);
                        }
                        return false;
                    }
                    count += 1;
                }
                m += 1;
            }
            proof {
                assert(names.take(ts@.len() as int) =~= names);
                assert(nodes@.take(i + 1).drop_last() =~= nodes@.take(i as int));
                lemma_uninterned_concat(prefix, names, sv);
            }
            i += 1;
        }
        proof {
            assert(nodes@.take(nodes@.len() as int) =~= nodes@);
        }
        self.gc.strings.room_for(count)
    }
}

} // verus!

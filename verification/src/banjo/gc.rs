use vstd::prelude::*;

use crate::banjo::obj::{function_view, BanjoString, Function, FunctionView, List, Native, NativeFunction};
use crate::banjo::value::Value;
use crate::gc::GcRef;

verus! {

/// The heap of the Banjo runtime: the strings, in the collector's care, and the
/// compiled functions, native functions and lists, each in a slot of its own.
pub struct Gc<N> {
    /// The interned strings.
    pub strings: crate::gc::Gc,
    /// The compiled functions, in order of allocation.
    pub functions: Vec<Function<N>>,
    /// The native functions, in order of allocation.
    pub natives: Vec<NativeFunction>,
    /// The lists, in order of allocation.
    pub lists: Vec<List<N>>,
}

impl<N: Copy> Gc<N> {
    /// The string collector.
    pub open spec fn collector(&self) -> crate::gc::Gc {
        self.strings
    }

    /// The compiled functions, in order of allocation.
    pub open spec fn functions(&self) -> Seq<FunctionView<N>> {
        self.functions@.map_values(|f: Function<N>| function_view(f))
    }

    /// The native functions, in order of allocation.
    pub open spec fn natives(&self) -> Seq<Native> {
        self.natives@.map_values(|f: NativeFunction| f.function)
    }

    /// The values of the lists, in order of allocation.
    pub open spec fn lists(&self) -> Seq<Seq<Value<N>>> {
        self.lists@.map_values(|l: List<N>| l.values@)
    }

    /// An empty heap.
    pub fn new() -> (gc: Self)
        ensures
            gc.collector().wf(),
            gc.collector().objects() == Seq::<Option<crate::obj::LoxStringView>>::empty(),
            gc.collector().interned() == Set::<usize>::empty(),
            gc.collector().bytes_allocated() == 0,
            gc.collector().table_bound() == 8,
            gc.functions() == Seq::<FunctionView<N>>::empty(),
            gc.natives() == Seq::<Native>::empty(),
            gc.lists() == Seq::<Seq<Value<N>>>::empty(),
    {
        let gc = Self { strings: crate::gc::Gc::new(), functions: Vec::new(), natives: Vec::new(), lists: Vec::new() };
        proof {
            assert(gc.functions() =~= Seq::<FunctionView<N>>::empty());
            assert(gc.natives() =~= Seq::<Native>::empty());
            assert(gc.lists() =~= Seq::<Seq<Value<N>>>::empty());
        }
        gc
    }

    /// The interned string with the text of `string`: the one already interned, or
    /// else a new one.
    pub fn intern(&mut self, string: &str) -> (r: GcRef<BanjoString>)
        requires
            old(self).collector().wf(),
            old(self).collector().is_interned(string@) || old(self).collector().has_room(),
        ensures
            final(self).functions() == old(self).functions(),
            final(self).natives() == old(self).natives(),
            final(self).lists() == old(self).lists(),
            final(self).collector().wf(),
            final(self).collector().is_live(r),
            final(self).collector().interned().contains(r.slot()),
            final(self).collector().objects()[r.slot() as int]->Some_0.chars == string@,
            old(self).collector().is_interned(string@) ==> {
                &&& r.slot() == old(self).collector().interned_slot(string@)
                &&& final(self).collector() == old(self).collector()
            },
            !old(self).collector().is_interned(string@) ==> {
                &&& r.slot() == old(self).collector().objects().len()
                &&& final(self).collector().objects() == old(self).collector().objects().push(
                    Some(
                        crate::obj::LoxStringView {
                            chars: string@,
                            hash: crate::obj::fnv1a(vstd::utf8::encode_utf8(string@)),
                            marked: false,
                        },
                    ),
                )
                &&& final(self).collector().interned() == old(self).collector().interned().insert(r.slot())
                &&& final(self).collector().bytes_allocated() == old(self).collector().bytes_allocated()
                    + crate::gc::object_size()
                &&& final(self).collector().table_bound() <= old(self).collector().table_bound() + 3
            },
            old(self).collector().objects().len() <= usize::MAX,
    {
        self.strings.intern(string)
    }

    /// Moves `function` into a new slot.
    pub fn allocate(&mut self, function: Function<N>) -> (r: GcRef<Function<N>>)
        ensures
            r.slot() == old(self).functions().len(),
            final(self).functions() == old(self).functions().push(function_view(function)),
            final(self).collector() == old(self).collector(),
            final(self).natives() == old(self).natives(),
            final(self).lists() == old(self).lists(),
    {
        let ghost before = self.functions();
        let ghost f = function_view(function);
        let index = self.functions.len();
        self.functions.push(function);
        proof {
            assert(self.functions() =~= before.push(f));
        }
        GcRef::new(index)
    }

    /// Moves the native function `native` into a new slot.
    pub fn allocate_native(&mut self, native: NativeFunction) -> (r: GcRef<NativeFunction>)
        ensures
            r.slot() == old(self).natives().len(),
            final(self).natives() == old(self).natives().push(native.function),
            final(self).collector() == old(self).collector(),
            final(self).functions() == old(self).functions(),
            final(self).lists() == old(self).lists(),
    {
        let ghost before = self.natives();
        let ghost f = native.function;
        let index = self.natives.len();
        self.natives.push(native);
        proof {
            assert(self.natives() =~= before.push(f));
        }
        GcRef::new(index)
    }

    /// Moves `list` into a new slot.
    pub fn allocate_list(&mut self, list: List<N>) -> (r: GcRef<List<N>>)
        ensures
            r.slot() == old(self).lists().len(),
            final(self).lists() == old(self).lists().push(list.values@),
            final(self).collector() == old(self).collector(),
            final(self).functions() == old(self).functions(),
            final(self).natives() == old(self).natives(),
    {
        let ghost before = self.lists();
        let ghost v = list.values@;
        let index = self.lists.len();
        self.lists.push(list);
        proof {
            assert(self.lists() =~= before.push(v));
        }
        GcRef::new(index)
    }

    /// The native function `r` names.
    pub fn native(&self, r: GcRef<NativeFunction>) -> (f: Native)
        requires
            r.slot() < self.natives().len(),
        ensures
            f == self.natives()[r.slot() as int],
    {
        self.natives[r.index()].function
    }

    /// The list `r` names.
    pub fn list(&self, r: GcRef<List<N>>) -> (l: &List<N>)
        requires
            r.slot() < self.lists().len(),
        ensures
            l.values@ == self.lists()[r.slot() as int],
    {
        &self.lists[r.index()]
    }

    /// The function `r` names.
    pub fn function(&self, r: GcRef<Function<N>>) -> (f: &Function<N>)
        requires
            r.slot() < self.functions().len(),
        ensures
            function_view(*f) == self.functions()[r.slot() as int],
    {
        &self.functions[r.index()]
    }

    /// The string `r` names.
    pub fn string(&self, r: GcRef<BanjoString>) -> (s: &BanjoString)
        requires
            self.collector().is_live(r),
        ensures
            self.collector().objects()[r.slot() as int] == Some(s@),
    {
        self.strings.get(r)
    }
}

} // verus!

use vstd::prelude::*;

use crate::obj::{fnv1a, hash_string, LoxString, LoxStringView, ObjectType};
use crate::table::{marked_slots, Table};
use core::marker::PhantomData;
use vstd::string::StringSliceAdditionalSpecFns;
use vstd::utf8::encode_utf8;

verus! {

/// A reference to an object on the garbage-collected heap: the number of the
/// object's slot. Copying a reference does not copy the object.
pub struct GcRef<T> {
    index: usize,
    marker: PhantomData<T>,
}

impl<T> Clone for GcRef<T> {
    fn clone(&self) -> (r: Self)
        ensures
            r == *self,
    {
        *self
    }
}

impl<T> Copy for GcRef<T> {

}

impl<T> GcRef<T> {
    /// The slot of the referenced object.
    pub closed spec fn slot(&self) -> usize {
        self.index
    }

    /// The reference to the object in slot `index`.
    pub closed spec fn at(index: usize) -> Self {
        GcRef { index, marker: PhantomData }
    }

    /// A reference is the reference to its slot.
    pub proof fn lemma_at(index: usize, r: Self)
        ensures
            Self::at(index).slot() == index,
            r.slot() == index ==> r == Self::at(index),
    {
    }

    /// A reference to the object in slot `index`.
    pub fn new(index: usize) -> (r: Self)
        ensures
            r.slot() == index,
            r == Self::at(index),
    {
        GcRef { index, marker: PhantomData }
    }

    /// The slot of the referenced object.
    pub fn index(&self) -> (i: usize)
        ensures
            i == self.slot(),
    {
        self.index
    }

    /// Whether two references name the same object.
    pub fn same(&self, other: &Self) -> (r: bool)
        ensures
            r == (self.slot() == other.slot()),
    {
        self.index == other.index
    }

    /// A reference that names no object: no heap ever holds its slot.
    pub fn dangling() -> (r: Self)
        ensures
            r.slot() == usize::MAX,
    {
        GcRef { index: usize::MAX, marker: PhantomData }
    }
}

impl GcRef<LoxString> {
    /// Whether the referenced string carries the collector's mark.
    pub fn is_marked(&self, gc: &Gc) -> (r: bool)
        requires
            gc.wf(),
            gc.is_live(*self),
        ensures
            r == gc.objects()[self.slot() as int]->Some_0.marked,
    {
        gc.heap.get(*self).is_marked()
    }

    /// Marks the referenced string and puts it on the gray stack, unless it is
    /// marked already.
    pub fn mark_gray(&self, gc: &mut Gc)
        requires
            old(gc).wf(),
            old(gc).is_live(*self),
        ensures
            final(gc).wf(),
            old(gc).objects()[self.slot() as int]->Some_0.marked ==> *final(gc) == *old(gc),
            !old(gc).objects()[self.slot() as int]->Some_0.marked ==> {
                &&& final(gc).objects() == old(gc).objects().update(
                    self.slot() as int,
                    Some(LoxStringView { marked: true, ..old(gc).objects()[self.slot() as int]->Some_0 }),
                )
                &&& final(gc).gray() == old(gc).gray().push(*self)
                &&& final(gc).interned() == old(gc).interned()
                &&& final(gc).bytes_allocated() == old(gc).bytes_allocated()
                &&& final(gc).next_gc() == old(gc).next_gc()
                &&& final(gc).table_bound() == old(gc).table_bound()
            },
    {
        if self.is_marked(gc) {
            return;
        }
        gc.mark(*self);
    }
}

/// The header every heap object starts with: its kind and its mark bit.
pub struct ObjHeader {
    pub obj_type: ObjectType,
    pub is_marked: bool,
}

impl ObjHeader {
    /// A header for a new object of the given kind, not yet marked.
    pub fn new(obj_type: ObjectType) -> (h: Self)
        ensures
            h.obj_type == obj_type,
            !h.is_marked,
    {
        Self { obj_type, is_marked: false }
    }

    /// Sets the mark bit.
    pub fn mark(&mut self)
        ensures
            final(self).is_marked,
            final(self).obj_type == old(self).obj_type,
    {
        self.is_marked = true;
    }
}

/// The objects in the collector's care, one slot per allocation; a freed slot
/// stays empty, so a reference never comes to name a later object.
pub struct Heap {
    objects: Vec<Option<LoxString>>,
}

/// The plain value of a heap slot.
pub open spec fn slot_view(o: Option<LoxString>) -> Option<LoxStringView> {
    match o {
        Some(s) => Some(s@),
        None => None,
    }
}

impl View for Heap {
    type V = Seq<Option<LoxStringView>>;

    closed spec fn view(&self) -> Seq<Option<LoxStringView>> {
        self.objects@.map_values(|o: Option<LoxString>| slot_view(o))
    }
}

/// `r` names an object of `heap` that has not been freed.
pub open spec fn live_in(heap: Seq<Option<LoxStringView>>, r: GcRef<LoxString>) -> bool {
    r.slot() < heap.len() && heap[r.slot() as int] is Some
}

impl Heap {
    /// An empty heap.
    pub fn new() -> (h: Heap)
        ensures
            h@ == Seq::<Option<LoxStringView>>::empty(),
    {
        let h = Heap { objects: Vec::new() };
        proof {
            assert(h@ =~= Seq::<Option<LoxStringView>>::empty());
        }
        h
    }

    /// Number of slots ever handed out.
    pub fn len(&self) -> (n: usize)
        ensures
            n == self@.len(),
    {
        self.objects.len()
    }

    /// Moves `object` into a new slot.
    pub fn push(&mut self, object: LoxString) -> (r: GcRef<LoxString>)
        ensures
            r.slot() == old(self)@.len(),
            final(self)@ == old(self)@.push(Some(object@)),
    {
        let ghost before = self@;
        let index = self.objects.len();
        self.objects.push(Some(object));
        proof {
            assert(self@ =~= before.push(Some(object@)));
        }
        GcRef::new(index)
    }

    /// The object `r` names.
    pub fn get(&self, r: GcRef<LoxString>) -> (s: &LoxString)
        requires
            live_in(self@, r),
        ensures
            self@[r.slot() as int] == Some(s@),
    {
        let i = r.index();
        proof {
            assert(self@[i as int] == slot_view(self.objects@[i as int]));
        }
        match &self.objects[i] {
            Some(s) => s,
            // `r` is live, so the slot holds an object
            None => vstd::pervasive::unreached(),
        }
    }

    /// The object in slot `i`, if it has not been freed.
    pub fn slot(&self, i: usize) -> (s: Option<&LoxString>)
        requires
            i < self@.len(),
        ensures
            match s {
                Some(s) => self@[i as int] == Some(s@),
                None => self@[i as int] is None,
            },
    {
        proof {
            assert(self@[i as int] == slot_view(self.objects@[i as int]));
        }
        match &self.objects[i] {
            Some(s) => Some(s),
            None => None,
        }
    }

    /// Sets or clears the mark bit of the object in slot `i`.
    pub fn set_mark(&mut self, i: usize, marked: bool)
        requires
            i < old(self)@.len(),
            old(self)@[i as int] is Some,
        ensures
            final(self)@ == old(self)@.update(
                i as int,
                Some(LoxStringView { marked, ..old(self)@[i as int]->Some_0 }),
            ),
    {
        let ghost before = self@;
        proof {
            assert(before[i as int] == slot_view(self.objects@[i as int]));
        }
        let mut slot = None;
        std::mem::swap(&mut slot, &mut self.objects[i]);
        match slot {
            Some(mut s) => {
                s.set_marked(marked);
                self.objects.set(i, Some(s));
            },
            None => {},
        }
        proof {
            assert(self@ =~= before.update(
                i as int,
                Some(LoxStringView { marked, ..before[i as int]->Some_0 }),
            ));
        }
    }

    /// Drops the object in slot `i`, leaving the slot empty.
    pub fn free(&mut self, i: usize)
        requires
            i < old(self)@.len(),
        ensures
            final(self)@ == old(self)@.update(i as int, None),
    {
        let ghost before = self@;
        self.objects.set(i, None);
        proof {
            assert(self@ =~= before.update(i as int, None));
        }
    }
}

/// Number of slots of `objects` that hold an object.
pub open spec fn live_count(objects: Seq<Option<LoxStringView>>) -> nat
    decreases objects.len(),
{
    if objects.len() == 0 {
        0
    } else {
        live_count(objects.drop_last()) + if objects.last() is Some {
            1nat
        } else {
            0nat
        }
    }
}

proof fn lemma_live_update(objects: Seq<Option<LoxStringView>>, i: int, x: Option<LoxStringView>)
    requires
        0 <= i < objects.len(),
    ensures
        live_count(objects.update(i, x)) + (if objects[i] is Some {
            1nat
        } else {
            0nat
        }) == live_count(objects) + (if x is Some {
            1nat
        } else {
            0nat
        }),
    decreases objects.len(),
{
    let u = objects.update(i, x);
    if i == objects.len() - 1 {
        assert(u.drop_last() =~= objects.drop_last());
    } else {
        assert(u.drop_last() =~= objects.drop_last().update(i, x));
        lemma_live_update(objects.drop_last(), i, x);
    }
}

proof fn lemma_live_push(objects: Seq<Option<LoxStringView>>, x: Option<LoxStringView>)
    ensures
        live_count(objects.push(x)) == live_count(objects) + if x is Some {
            1nat
        } else {
            0nat
        },
{
    assert(objects.push(x).drop_last() =~= objects);
}

/// Some string of `interned` has the text `text`.
pub open spec fn text_interned(objects: Seq<Option<LoxStringView>>, interned: Set<usize>, text: Seq<char>) -> bool {
    exists|k: usize| #[trigger] interned.contains(k) && objects[k as int]->Some_0.chars == text
}

/// A slot of `interned` whose string has the text `text`.
pub open spec fn slot_with_text(objects: Seq<Option<LoxStringView>>, interned: Set<usize>, text: Seq<char>) -> usize {
    choose|k: usize| #[trigger] interned.contains(k) && objects[k as int]->Some_0.chars == text
}

/// The slots of `before` are kept in `after`, which may have more.
pub open spec fn extends(after: Seq<Option<LoxStringView>>, before: Seq<Option<LoxStringView>>) -> bool {
    &&& before.len() <= after.len()
    &&& forall|i: int| 0 <= i < before.len() ==> #[trigger] after[i] == before[i]
}

/// No string carries the mark.
pub open spec fn all_unmarked(objects: Seq<Option<LoxStringView>>) -> bool {
    forall|i: int| 0 <= i < objects.len() && (#[trigger] objects[i]) is Some ==> !objects[i]->Some_0.marked
}

/// The size in bytes that the collector counts for each string it holds.
pub open spec fn object_size() -> nat {
    vstd::layout::size_of::<LoxString>()
}

/// The garbage collector: the heap of strings, the table that interns them, the
/// gray stack of the marking phase, and the byte count that decides when to collect.
pub struct Gc {
    heap: Heap,
    /// Table of interned strings
    strings: Table<()>,
    gray_stack: Vec<GcRef<LoxString>>,
    bytes_allocated: usize,
    next_gc: usize,
}

impl Gc {
    /// The heap's slots, in order of allocation.
    pub closed spec fn objects(&self) -> Seq<Option<LoxStringView>> {
        self.heap@
    }

    /// The slots of the interned strings.
    pub closed spec fn interned(&self) -> Set<usize> {
        self.strings@.dom()
    }

    /// The gray stack, bottom first.
    pub closed spec fn gray(&self) -> Seq<GcRef<LoxString>> {
        self.gray_stack@
    }

    pub closed spec fn bytes_allocated(&self) -> usize {
        self.bytes_allocated
    }

    pub closed spec fn next_gc(&self) -> usize {
        self.next_gc
    }

    /// The number of slots of the intern table.
    pub closed spec fn table_capacity(&self) -> nat {
        self.strings.capacity()
    }

    /// `r` names an object that has not been freed.
    pub open spec fn is_live(&self, r: GcRef<LoxString>) -> bool {
        live_in(self.objects(), r)
    }

    /// A bound on the slots the intern table may come to need.
    pub closed spec fn table_bound(&self) -> nat {
        self.strings.growth_bound()
    }

    /// There is room to intern `k` more new strings: the byte count stays within
    /// the largest allocation Rust allows, and the intern table can still grow.
    pub open spec fn can_intern(&self, k: nat) -> bool {
        &&& self.bytes_allocated() + k * object_size() <= isize::MAX
        &&& self.table_bound() + 3 * k <= usize::MAX / 2
    }

    /// There is room to intern one more string.
    pub open spec fn has_room(&self) -> bool {
        self.can_intern(1)
    }

    /// Some interned string has the text `text`.
    pub open spec fn is_interned(&self, text: Seq<char>) -> bool {
        text_interned(self.objects(), self.interned(), text)
    }

    /// The slot of the interned string with the text `text`.
    pub open spec fn interned_slot(&self, text: Seq<char>) -> usize {
        slot_with_text(self.objects(), self.interned(), text)
    }

    /// Interning `text` into this collector gives `after`, with the string in `slot`:
    /// the string already interned, the collector unchanged, or else a new string
    /// in a new slot, interned and counted.
    pub open spec fn interned_into(&self, after: Gc, text: Seq<char>, slot: usize) -> bool {
        &&& after.wf()
        &&& after.interned().contains(slot)
        &&& after.objects()[slot as int]->Some_0.chars == text
        &&& after.gray() == self.gray()
        &&& after.next_gc() == self.next_gc()
        &&& self.is_interned(text) ==> {
            &&& slot == self.interned_slot(text)
            &&& after == *self
        }
        &&& self.objects().len() <= usize::MAX
        &&& !self.is_interned(text) ==> {
            &&& slot == self.objects().len()
            &&& after.objects() == self.objects().push(
                Some(LoxStringView { chars: text, hash: fnv1a(encode_utf8(text)), marked: false }),
            )
            &&& after.interned() == self.interned().insert(slot)
            &&& after.bytes_allocated() == self.bytes_allocated() + object_size()
            &&& after.table_bound() <= self.table_bound() + 3
        }
    }

    /// The collector's invariant.
    pub closed spec fn wf(&self) -> bool {
        let objects = self.heap@;
        &&& self.strings.wf()
        &&& self.strings.keys_in(objects)
        &&& forall|k: usize| #[trigger]
            self.strings@.contains_key(k) ==> objects[k as int]->Some_0.hash == fnv1a(
                encode_utf8(objects[k as int]->Some_0.chars),
            )
        &&& forall|a: usize, b: usize|
            #[trigger] self.strings@.contains_key(a) && #[trigger] self.strings@.contains_key(b)
                && objects[a as int]->Some_0.chars == objects[b as int]->Some_0.chars ==> a == b
        &&& forall|i: int| 0 <= i < self.gray_stack@.len() ==> live_in(objects, #[trigger] self.gray_stack@[i])
        &&& self.bytes_allocated == live_count(objects) * object_size()
        &&& self.bytes_allocated <= isize::MAX
    }

    /// The interned strings are alive, each with the hash of its text.
    pub proof fn lemma_interned(&self)
        requires
            self.wf(),
        ensures
            forall|k: usize| #[trigger]
                self.interned().contains(k) ==> k < self.objects().len() && self.objects()[k as int] is Some
                    && self.objects()[k as int]->Some_0.hash == fnv1a(
                    encode_utf8(self.objects()[k as int]->Some_0.chars),
                ),
    {
        self.strings.lemma_keys_live(self.heap@);
    }

    /// No two interned strings have the same text.
    pub proof fn interned_strings_are_distinct(&self, a: usize, b: usize)
        requires
            self.wf(),
            self.interned().contains(a),
            self.interned().contains(b),
            self.objects()[a as int]->Some_0.chars == self.objects()[b as int]->Some_0.chars,
        ensures
            a == b,
    {
        assert(self.strings@.contains_key(a) && self.strings@.contains_key(b));
    }

    /// Interning the text just interned gives the same string and changes
    /// nothing, so it allocates nothing and needs no room; interning another text
    /// gives another string.
    pub proof fn interning_again_finds_the_same(
        &self,
        mid: Gc,
        after: Gc,
        s: Seq<char>,
        t: Seq<char>,
        r1: usize,
        r2: usize,
    )
        requires
            self.interned_into(mid, s, r1),
            mid.interned_into(after, t, r2),
        ensures
            s == t ==> r2 == r1 && after == mid,
            s != t ==> r2 != r1,
    {
        mid.lemma_interned();
        assert(mid.interned().contains(r1) && mid.objects()[r1 as int]->Some_0.chars == s);
        if s == t {
            assert(mid.is_interned(s));
            let k = mid.interned_slot(s);
            mid.interned_strings_are_distinct(k, r1);
        } else if r2 == r1 {
            if !mid.is_interned(t) {
                assert(r2 == mid.objects().len());
            }
        }
    }

    /// The byte count is the size of a string times the number of live objects.
    pub proof fn bytes_count_live_objects(&self)
        requires
            self.wf(),
        ensures
            self.bytes_allocated() == live_count(self.objects()) * object_size(),
            self.bytes_allocated() <= isize::MAX,
    {
    }

    /// An empty collector; the first collection is due after a mebibyte.
    pub fn new() -> (gc: Self)
        ensures
            gc.wf(),
            gc.objects() == Seq::<Option<LoxStringView>>::empty(),
            gc.interned() == Set::<usize>::empty(),
            gc.gray() == Seq::<GcRef<LoxString>>::empty(),
            gc.bytes_allocated() == 0,
            gc.next_gc() == 1024 * 1024,
            gc.table_bound() == 8,
            gc.has_room(),
    {
        vstd::layout::layout_for_type_is_valid::<LoxString>();
        let gc = Self {
            heap: Heap::new(),
            strings: Table::new(),
            gray_stack: Vec::new(),
            bytes_allocated: 0,
            next_gc: 1024 * 1024,
        };
        proof {
            assert(gc.strings@.dom() =~= Set::<usize>::empty());
            assert(gc.gray_stack@ =~= Seq::<GcRef<LoxString>>::empty());
            assert(live_count(gc.heap@) == 0);
            assert(0 * object_size() == 0) by (nonlinear_arith);
            assert(1 * object_size() == object_size()) by (nonlinear_arith);
        }
        gc
    }

    /// The object `r` names.
    pub fn get(&self, r: GcRef<LoxString>) -> (s: &LoxString)
        requires
            self.is_live(r),
        ensures
            self.objects()[r.slot() as int] == Some(s@),
    {
        self.heap.get(r)
    }

    /// The heap of strings, for lookups keyed by its references.
    pub fn heap(&self) -> (h: &Heap)
        ensures
            h@ == self.objects(),
    {
        &self.heap
    }

    /// The bytes of the strings on the heap, as the collector counts them.
    pub fn allocated_bytes(&self) -> (n: usize)
        ensures
            n == self.bytes_allocated(),
    {
        self.bytes_allocated
    }

    /// Whether the heap has grown past the point set for the next collection.
    pub fn should_gc(&self) -> (r: bool)
        ensures
            r == (self.bytes_allocated() > self.next_gc()),
    {
        self.bytes_allocated > self.next_gc
    }

    /// Whether some interned string has the text `string`.
    pub fn holds_text(&self, string: &str) -> (b: bool)
        requires
            self.wf(),
        ensures
            b == self.is_interned(string@),
    {
        let hash = hash_string(string);
        let ghost objects = self.heap@;
        match self.strings.find_string(string, hash, &self.heap) {
            Some(interned) => {
                proof {
                    self.strings.lemma_keys_live(objects);
                    assert(self.interned().contains(interned.slot()));
                }
                true
            },
            None => {
                proof {
                    if self.is_interned(string@) {
                        let k = self.interned_slot(string@);
                        assert(self.interned().contains(k));
                        assert(self.strings@.contains_key(k));
                        assert(objects[k as int]->Some_0.hash == hash);
                    }
                }
                false
            },
        }
    }

    /// Whether there is room to intern `k` more strings.
    pub fn room_for(&self, k: usize) -> (b: bool)
        ensures
            b == self.can_intern(k as nat),
    {
        vstd::layout::layout_for_type_is_valid::<LoxString>();
        let size = core::mem::size_of::<LoxString>();
        let m: usize = isize::MAX as usize;
        proof {
            assert((k as u128) * (size as u128) <= (usize::MAX as u128) * (usize::MAX as u128)) by (nonlinear_arith)
                requires
                    k <= usize::MAX,
                    size <= usize::MAX,
            ;
            assert((usize::MAX as u128) * (usize::MAX as u128) + (usize::MAX as u128) <= u128::MAX)
                by (nonlinear_arith)
                requires
                    usize::MAX <= 0xffff_ffff_ffff_ffff,
            ;
        }
        let bytes_fit = (self.bytes_allocated as u128) + (k as u128) * (size as u128) <= m as u128;
        bytes_fit && self.strings.room_to_grow_by(k)
    }

    /// Whether there is room to intern one more string.
    pub fn room_for_one(&self) -> (b: bool)
        ensures
            b == self.has_room(),
    {
        vstd::layout::layout_for_type_is_valid::<LoxString>();
        let size = core::mem::size_of::<LoxString>();
        self.bytes_allocated <= (isize::MAX as usize) - size && self.strings.room_to_grow()
    }

    /// Moves `object` onto the heap, in a new slot, and counts its bytes.
    pub fn allocate(&mut self, object: LoxString) -> (r: GcRef<LoxString>)
        requires
            old(self).wf(),
            old(self).bytes_allocated() + object_size() <= isize::MAX,
        ensures
            final(self).wf(),
            r.slot() == old(self).objects().len(),
            final(self).objects() == old(self).objects().push(Some(object@)),
            final(self).interned() == old(self).interned(),
            final(self).gray() == old(self).gray(),
            final(self).bytes_allocated() == old(self).bytes_allocated() + object_size(),
            final(self).next_gc() == old(self).next_gc(),
            final(self).table_capacity() == old(self).table_capacity(),
            final(self).table_bound() == old(self).table_bound(),
    {
        let ghost before = self.heap@;
        let size = core::mem::size_of::<LoxString>();
        let r = self.heap.push(object);
        self.bytes_allocated = self.bytes_allocated + size;
        proof {
            let after = self.heap@;
            lemma_live_push(before, Some(object@));
            let c = live_count(before);
            assert((c + 1) * object_size() == c * object_size() + object_size()) by (nonlinear_arith);
            self.strings.lemma_keys_live(before);
            self.strings.lemma_keys_in_stable(before, after);
            assert forall|i: int| 0 <= i < self.gray_stack@.len() implies live_in(after, #[trigger] self.gray_stack@[i]) by {
                assert(live_in(before, self.gray_stack@[i]));
            }
        }
        r
    }

    /// The interned string with the text of `string`: the one already in the table,
    /// or else a new one, allocated and interned.
    pub fn intern(&mut self, string: &str) -> (r: GcRef<LoxString>)
        requires
            old(self).wf(),
            old(self).is_interned(string@) || old(self).has_room(),
        ensures
            old(self).interned_into(*final(self), string@, r.slot()),
            final(self).wf(),
            final(self).is_live(r),
            final(self).interned().contains(r.slot()),
            final(self).objects()[r.slot() as int]->Some_0.chars == string@,
            final(self).gray() == old(self).gray(),
            final(self).next_gc() == old(self).next_gc(),
            old(self).is_interned(string@) ==> {
                &&& r.slot() == old(self).interned_slot(string@)
                &&& *final(self) == *old(self)
            },
            !old(self).is_interned(string@) ==> final(self).table_bound() <= old(self).table_bound() + 3,
            old(self).objects().len() <= usize::MAX,
            !old(self).is_interned(string@) ==> {
                &&& r.slot() == old(self).objects().len()
                &&& final(self).objects() == old(self).objects().push(
                    Some(
                        LoxStringView {
                            chars: string@,
                            hash: fnv1a(string.spec_bytes()),
                            marked: false,
                        },
                    ),
                )
                &&& final(self).interned() == old(self).interned().insert(r.slot())
                &&& final(self).bytes_allocated() == old(self).bytes_allocated() + object_size()
            },
    {
        let _ = self.heap.len();
        let hash = hash_string(string);
        let ghost objects = self.heap@;
        match self.strings.find_string(string, hash, &self.heap) {
            Some(interned) => {
                proof {
                    self.strings.lemma_keys_live(objects);
                    assert(self.interned().contains(interned.slot()));
                    assert(self.is_interned(string@));
                    let k = self.interned_slot(string@);
                    self.interned_strings_are_distinct(k, interned.slot());
                }
                interned
            },
            None => {
                proof {
                    // no interned string has this text: it would have this hash
                    if self.is_interned(string@) {
                        let k = self.interned_slot(string@);
                        assert(self.interned().contains(k));
                        assert(self.strings@.contains_key(k));
                        assert(objects[k as int]->Some_0.hash == hash);
                    }
                    assert(self.strings.capacity() <= self.strings.growth_bound());
                    assert(1 * object_size() == object_size()) by (nonlinear_arith);
                }
                let ls = self.allocate(LoxString::new(string.to_owned()));
                let ghost after = self.heap@;
                proof {
                    self.strings.lemma_keys_live(after);
                }
                self.strings.insert(ls, (), &self.heap);
                proof {
                    assert(self.strings@.dom() =~= old(self).strings@.dom().insert(ls.slot()));
                    assert forall|k: usize| #[trigger] self.strings@.contains_key(k) implies after[k as int]->Some_0.hash
                        == fnv1a(encode_utf8(after[k as int]->Some_0.chars)) by {
                        if k != ls.slot() {
                            assert(old(self).strings@.contains_key(k));
                            old(self).strings.lemma_keys_live(objects);
                        }
                    }
                    assert forall|a: usize, b: usize|
                        #[trigger] self.strings@.contains_key(a) && #[trigger] self.strings@.contains_key(b)
                            && after[a as int]->Some_0.chars == after[b as int]->Some_0.chars implies a == b by {
                        old(self).strings.lemma_keys_live(objects);
                        if a != ls.slot() {
                            assert(old(self).strings@.contains_key(a));
                        }
                        if b != ls.slot() {
                            assert(old(self).strings@.contains_key(b));
                        }
                        if a != ls.slot() && b == ls.slot() {
                            assert(old(self).interned().contains(a));
                        }
                        if a == ls.slot() && b != ls.slot() {
                            assert(old(self).interned().contains(b));
                        }
                    }
                }
                ls
            },
        }
    }

    /// Sets the mark of the live object `r` and pushes it on the gray stack.
    fn mark(&mut self, r: GcRef<LoxString>)
        requires
            old(self).wf(),
            old(self).is_live(r),
        ensures
            final(self).wf(),
            final(self).objects() == old(self).objects().update(
                r.slot() as int,
                Some(LoxStringView { marked: true, ..old(self).objects()[r.slot() as int]->Some_0 }),
            ),
            final(self).gray() == old(self).gray().push(r),
            final(self).interned() == old(self).interned(),
            final(self).bytes_allocated() == old(self).bytes_allocated(),
            final(self).next_gc() == old(self).next_gc(),
            final(self).table_bound() == old(self).table_bound(),
    {
        let ghost before = self.heap@;
        self.heap.set_mark(r.index(), true);
        self.gray_stack.push(r);
        proof {
            let after = self.heap@;
            lemma_live_update(before, r.slot() as int, after[r.slot() as int]);
            assert(after =~= before.update(r.slot() as int, after[r.slot() as int]));
            self.strings.lemma_keys_live(before);
            self.strings.lemma_keys_in_stable(before, after);
            assert forall|i: int| 0 <= i < self.gray_stack@.len() implies live_in(after, #[trigger] self.gray_stack@[i]) by {
                if i < self.gray_stack@.len() - 1 {
                    assert(live_in(before, self.gray_stack@[i]));
                }
            }
            assert forall|a: usize, b: usize|
                #[trigger] self.strings@.contains_key(a) && #[trigger] self.strings@.contains_key(b)
                    && after[a as int]->Some_0.chars == after[b as int]->Some_0.chars implies a == b by {
                assert(before[a as int]->Some_0.chars == before[b as int]->Some_0.chars);
            }
            assert forall|k: usize| #[trigger] self.strings@.contains_key(k) implies after[k as int]->Some_0.hash
                == fnv1a(encode_utf8(after[k as int]->Some_0.chars)) by {
                assert(before[k as int]->Some_0.hash == fnv1a(encode_utf8(before[k as int]->Some_0.chars)));
            }
        }
    }

    /// Frees every object that is not marked, after dropping the unmarked strings
    /// from the intern table, and clears the marks of the survivors; then sets the
    /// next collection at twice the bytes that remain.
    pub fn collect_garbage(&mut self)
        requires
            old(self).wf(),
        ensures
            final(self).wf(),
            final(self).objects().len() == old(self).objects().len(),
            forall|i: int|
                0 <= i < old(self).objects().len() ==> #[trigger] final(self).objects()[i] == match old(
                    self,
                ).objects()[i] {
                    Some(o) => if o.marked {
                        Some(LoxStringView { marked: false, ..o })
                    } else {
                        None
                    },
                    None => None,
                },
            final(self).interned() == old(self).interned().intersect(marked_slots(old(self).objects())),
            final(self).gray() == Seq::<GcRef<LoxString>>::empty(),
            final(self).table_bound() == old(self).table_bound(),
            final(self).bytes_allocated() == live_count(final(self).objects()) * object_size(),
            final(self).next_gc() == if final(self).bytes_allocated() > 0 {
                2 * final(self).bytes_allocated()
            } else {
                old(self).next_gc() as int
            },
    {
        self.trace_references();
        let ghost objects = self.heap@;
        self.strings.remove_white(&self.heap);
        proof {
            assert(self.strings@.dom() =~= old(self).strings@.dom().intersect(marked_slots(objects)));
        }
        self.sweep();
        if self.bytes_allocated > 0 {
            self.next_gc = self.bytes_allocated * 2;
        }
    }

    /// Blackens every object on the gray stack.
    fn trace_references(&mut self)
        requires
            old(self).wf(),
        ensures
            final(self).wf(),
            final(self).heap@ == old(self).heap@,
            final(self).strings == old(self).strings,
            final(self).gray_stack@ == Seq::<GcRef<LoxString>>::empty(),
            final(self).bytes_allocated == old(self).bytes_allocated,
            final(self).next_gc == old(self).next_gc,
    {
        while self.gray_stack.len() > 0
            invariant
                self.wf(),
                self.heap@ == old(self).heap@,
                self.strings == old(self).strings,
                self.bytes_allocated == old(self).bytes_allocated,
                self.next_gc == old(self).next_gc,
            decreases self.gray_stack@.len(),
        {
            let ghost before = self.gray_stack@;
            // A black object is any object who is marked and is no longer in the
            // gray stack; a string holds no references, so there is nothing more to mark
            self.gray_stack.pop();
            proof {
                assert(live_in(self.heap@, before[before.len() - 1]));
                assert forall|i: int| 0 <= i < self.gray_stack@.len() implies live_in(
                    self.heap@,
                    #[trigger] self.gray_stack@[i],
                ) by {
                    assert(self.gray_stack@[i] == before[i]);
                }
            }
        }
    }

    /// Frees the unmarked objects and unmarks the rest; none of the interned strings
    /// may be unmarked.
    fn sweep(&mut self)
        requires
            old(self).strings.wf(),
            old(self).strings.keys_in(old(self).heap@),
            forall|k: usize| #[trigger]
                old(self).strings@.contains_key(k) ==> old(self).heap@[k as int]->Some_0.hash == fnv1a(
                    encode_utf8(old(self).heap@[k as int]->Some_0.chars),
                ),
            forall|a: usize, b: usize|
                #[trigger] old(self).strings@.contains_key(a) && #[trigger] old(self).strings@.contains_key(b)
                    && old(self).heap@[a as int]->Some_0.chars == old(self).heap@[b as int]->Some_0.chars ==> a == b,
            old(self).gray_stack@ == Seq::<GcRef<LoxString>>::empty(),
            old(self).bytes_allocated == live_count(old(self).heap@) * object_size(),
            old(self).bytes_allocated <= isize::MAX,
            forall|k: usize| #[trigger] old(self).strings@.contains_key(k) ==> marked_slots(old(self).heap@).contains(k),
        ensures
            final(self).wf(),
            final(self).heap@.len() == old(self).heap@.len(),
            forall|i: int|
                0 <= i < old(self).heap@.len() ==> #[trigger] final(self).heap@[i] == match old(self).heap@[i] {
                    Some(o) => if o.marked {
                        Some(LoxStringView { marked: false, ..o })
                    } else {
                        None
                    },
                    None => None,
                },
            final(self).strings == old(self).strings,
            final(self).gray_stack@ == Seq::<GcRef<LoxString>>::empty(),
            final(self).bytes_allocated <= old(self).bytes_allocated,
            final(self).next_gc == old(self).next_gc,
    {
        let ghost before = self.heap@;
        let size = core::mem::size_of::<LoxString>();
        let len = self.heap.len();
        let mut i: usize = 0;
        // Walk through every slot of the heap, checking if marked
        while i < len
            invariant
                len == before.len(),
                self.heap@.len() == len,
                i <= len,
                size == object_size(),
                forall|k: int|
                    0 <= k < i ==> #[trigger] self.heap@[k] == match before[k] {
                        Some(o) => if o.marked {
                            Some(LoxStringView { marked: false, ..o })
                        } else {
                            None
                        },
                        None => None,
                    },
                forall|k: int| i <= k < len ==> #[trigger] self.heap@[k] == before[k],
                self.bytes_allocated == live_count(self.heap@) * object_size(),
                self.bytes_allocated <= old(self).bytes_allocated,
                self.strings == old(self).strings,
                self.gray_stack == old(self).gray_stack,
                self.next_gc == old(self).next_gc,
            decreases len - i,
        {
            let ghost cur = self.heap@;
            let marked = match self.heap.slot(i) {
                Some(obj) => Some(obj.is_marked()),
                None => None,
            };
            match marked {
                Some(true) => {
                    // Keep marked (black) objects, but unmark for next run
                    self.heap.set_mark(i, false);
                    proof {
                        lemma_live_update(cur, i as int, self.heap@[i as int]);
                        assert(self.heap@ =~= cur.update(i as int, self.heap@[i as int]));
                    }
                },
                Some(false) => {
                    // Free unmarked (white) objects
                    proof {
                        let c = live_count(cur);
                        lemma_live_update(cur, i as int, None);
                        assert(c >= 1);
                        assert(c * object_size() >= object_size()) by (nonlinear_arith)
                            requires
                                c >= 1,
                        ;
                        assert((c - 1) * object_size() == c * object_size() - object_size()) by (nonlinear_arith);
                    }
                    self.bytes_allocated = self.bytes_allocated - size;
                    self.heap.free(i);
                },
                None => {},
            }
            i += 1;
        }
        proof {
            let after = self.heap@;
            self.strings.lemma_keys_live(before);
            assert forall|k: usize| #[trigger] self.strings@.contains_key(k) implies k < after.len()
                && after[k as int] is Some && after[k as int]->Some_0.hash == before[k as int]->Some_0.hash by {
                assert(marked_slots(before).contains(k));
            }
            self.strings.lemma_keys_in_stable(before, after);
            assert forall|k: usize| #[trigger] self.strings@.contains_key(k) implies after[k as int]->Some_0.hash
                == fnv1a(encode_utf8(after[k as int]->Some_0.chars)) by {
                assert(marked_slots(before).contains(k));
            }
            assert forall|a: usize, b: usize|
                #[trigger] self.strings@.contains_key(a) && #[trigger] self.strings@.contains_key(b)
                    && after[a as int]->Some_0.chars == after[b as int]->Some_0.chars implies a == b by {
                assert(marked_slots(before).contains(a));
                assert(marked_slots(before).contains(b));
            }
        }
    }
}

} // verus!

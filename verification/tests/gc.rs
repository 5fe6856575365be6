use banjoc::gc::{Gc, GcRef, Heap, ObjHeader};
use banjoc::obj::{hash_string, LoxString, ObjectType};

#[test]
fn string_header() {
    let ls = LoxString::new("what up".to_string());
    assert!(matches!(ls.header.obj_type, ObjectType::String));
}

#[test]
fn fnv1a_known_values() {
    assert_eq!(hash_string(""), 2166136261);
    assert_eq!(hash_string("a"), 0xe40c292c);
    assert_eq!(hash_string("foobar"), 0xbf9cf968);
    let ls = LoxString::new("foobar".to_string());
    assert_eq!(ls.hash, 0xbf9cf968);
    assert_eq!(ls.as_str(), "foobar");
}

#[test]
fn header_marking() {
    let mut header = ObjHeader::new(ObjectType::Function);
    assert!(!header.is_marked);
    header.mark();
    assert!(header.is_marked);
    assert!(matches!(header.obj_type, ObjectType::Function));
}

#[test]
fn intern_twice_gives_the_same_string() {
    let mut gc = Gc::new();
    let a = gc.intern("aaa");
    let b = gc.intern("bbb");
    let a2 = gc.intern("aaa");
    assert!(a.same(&a2));
    assert!(!a.same(&b));
    assert_eq!(gc.get(a).as_str(), "aaa");
    assert_eq!(gc.get(b).as_str(), "bbb");
}

#[test]
fn allocation_counts_bytes_and_order() {
    let mut gc = Gc::new();
    let first = gc.allocate(LoxString::new("first".to_string()));
    let second = gc.allocate(LoxString::new("second".to_string()));
    assert_eq!(first.index(), 0);
    assert_eq!(second.index(), 1);
    assert!(!gc.should_gc());
}

#[test]
fn collection_frees_unmarked_and_keeps_marked() {
    let mut gc = Gc::new();
    let keep = gc.intern("keep");
    let drop = gc.intern("drop");
    keep.mark_gray(&mut gc);
    assert!(keep.is_marked(&gc));
    assert!(!drop.is_marked(&gc));
    gc.collect_garbage();
    // the survivor is unmarked again, and interning its text finds it
    assert!(!keep.is_marked(&gc));
    assert!(gc.intern("keep").same(&keep));
    // the freed string's text interns anew, in a fresh slot
    let again = gc.intern("drop");
    assert!(!again.same(&drop));
    assert_eq!(again.index(), 2);
}

#[test]
fn dangling_reference() {
    let r: GcRef<LoxString> = GcRef::dangling();
    assert_eq!(r.index(), usize::MAX);
    let heap = Heap::new();
    assert_eq!(heap.len(), 0);
}

#[test]
fn allocate_puts_newest_last() {
    let mut gc = Gc::new();
    let obj1 = gc.allocate(LoxString::new("first".to_string()));
    // the newest object is the last one on the heap
    assert_eq!(gc.heap().len() - 1, obj1.index());
    let obj2 = gc.allocate(LoxString::new("second".to_string()));
    assert_eq!(gc.heap().len() - 1, obj2.index());
    // and the one allocated before it comes right before it
    assert_eq!(obj2.index() - 1, obj1.index());
}

#[test]
fn intern_transmute() {
    let mut gc = Gc::new();
    gc.intern("aaa");
    gc.intern("bbb");
    gc.intern("ccc");
    let heap = gc.heap();
    let n = heap.len();
    let c = heap.slot(n - 1).unwrap();
    assert_eq!(c.as_str(), "ccc");
    let b = heap.slot(n - 2).unwrap();
    assert_eq!(b.as_str(), "bbb");
    let a = heap.slot(n - 3).unwrap();
    assert_eq!(a.as_str(), "aaa");
}

#[test]
fn function_header() {
    let mut gc = Gc::new();
    let name = gc.intern("func");
    let f = banjoc::banjo::obj::Function::<f64>::new(Some(name), 0);
    assert!(matches!(f.header.obj_type, ObjectType::Function));
}

#[test]
fn allocation_counts_the_size_of_a_string() {
    let mut gc = Gc::new();
    let before = gc.allocated_bytes();
    let ls = LoxString::new("first".to_string());
    let size = std::mem::size_of_val(&ls);
    gc.allocate(ls);
    assert_eq!(gc.allocated_bytes() - before, size);
}

use banjoc::gc::{GcRef, Heap};
use banjoc::obj::LoxString;
use banjoc::table::Table;

#[test]
fn test_name() {
    // Generate some strings, held by the heap
    let mut heap = Heap::new();
    let refs: Vec<GcRef<LoxString>> = (b'a'..=b'z')
        .map(|c| heap.push(LoxString::new((c as char).to_string())))
        .collect();

    // Insert into Table
    let mut t = Table::new();
    for key in &refs {
        let num = heap.get(*key).as_str().as_bytes()[0] as f64;
        t.insert(*key, num, &heap);
    }

    // Check inserted values
    for key in refs {
        if let Some(num) = t.get(key, &heap) {
            assert_eq!(heap.get(key).as_str().as_bytes()[0], num as u8);
        } else {
            unreachable!()
        }
    }
}

#[test]
fn insert_get_remove() {
    let mut heap = Heap::new();
    let a = heap.push(LoxString::new("a".to_string()));
    let b = heap.push(LoxString::new("b".to_string()));
    let mut t: Table<u32> = Table::new();
    assert_eq!(t.get(a, &heap), None);
    assert!(t.insert(a, 1, &heap));
    assert!(!t.insert(a, 2, &heap));
    assert_eq!(t.get(a, &heap), Some(2));
    assert_eq!(t.get(b, &heap), None);
    assert!(t.remove(a, &heap));
    assert!(!t.remove(a, &heap));
    assert_eq!(t.get(a, &heap), None);
    // a key goes back in after its tombstone
    assert!(t.insert(a, 3, &heap));
    assert_eq!(t.get(a, &heap), Some(3));
}

#[test]
fn find_string_by_text_and_hash() {
    let mut heap = Heap::new();
    let k = heap.push(LoxString::new("key".to_string()));
    let mut t: Table<()> = Table::new();
    t.insert(k, (), &heap);
    let hash = heap.get(k).hash;
    assert!(t.find_string("key", hash, &heap).unwrap().same(&k));
    assert!(t.find_string("key", hash.wrapping_add(1), &heap).is_none());
    assert!(t.find_string("kez", hash, &heap).is_none());
}

#[test]
fn many_keys_survive_growth() {
    let mut heap = Heap::new();
    let mut t: Table<usize> = Table::new();
    let mut refs = Vec::new();
    for i in 0..200 {
        let r = heap.push(LoxString::new(format!("s{i}")));
        t.insert(r, i, &heap);
        refs.push(r);
    }
    for (i, r) in refs.iter().enumerate() {
        if i % 3 == 0 {
            assert!(t.remove(*r, &heap));
        }
    }
    for (i, r) in refs.iter().enumerate() {
        let expected = if i % 3 == 0 { None } else { Some(i) };
        assert_eq!(t.get(*r, &heap), expected);
    }
}

use cs_projects::fast_vec::{display_with, FastVec};

#[test]
fn new_vector_is_empty_with_room_for_one() {
    let v: FastVec<i32> = FastVec::new();
    assert_eq!(v.len(), 0);
    assert_eq!(v.capacity(), 1);
}

#[test]
fn with_capacity_sets_capacity() {
    let v: FastVec<u8> = FastVec::with_capacity(7);
    assert_eq!(v.len(), 0);
    assert_eq!(v.capacity(), 7);
}

#[test]
fn push_doubles_capacity_when_full() {
    let mut v = FastVec::new();
    v.push(10);
    assert_eq!(v.capacity(), 1);
    v.push(20);
    assert_eq!(v.capacity(), 2);
    v.push(30);
    assert_eq!(v.capacity(), 4);
    v.push(40);
    assert_eq!(v.capacity(), 4);
    v.push(50);
    assert_eq!(v.capacity(), 8);
    assert_eq!(v.len(), 5);
    assert_eq!(*v.get(0), 10);
    assert_eq!(*v.get(4), 50);
}

#[test]
fn get_returns_pushed_elements_in_order() {
    let mut v = FastVec::with_capacity(3);
    v.push("a".to_string());
    v.push("b".to_string());
    v.push("c".to_string());
    assert_eq!(v.get(0), "a");
    assert_eq!(v.get(1), "b");
    assert_eq!(v.get(2), "c");
    assert_eq!(v.capacity(), 3);
}

#[test]
fn remove_shifts_later_elements() {
    let mut v = FastVec::from_vec(vec![1, 2, 3, 4]);
    let removed = v.remove(1);
    assert_eq!(removed, 2);
    assert_eq!(v.len(), 3);
    assert_eq!(v.capacity(), 4);
    assert_eq!(v.into_vec(), vec![1, 3, 4]);
}

#[test]
fn remove_last_undoes_push() {
    let mut v = FastVec::from_vec(vec![7, 8]);
    v.push(9);
    assert_eq!(v.remove(2), 9);
    assert_eq!(v.into_vec(), vec![7, 8]);
}

#[test]
fn clear_empties_and_releases_capacity() {
    let mut v = FastVec::from_vec(vec![String::from("x"), String::from("y")]);
    v.clear();
    assert_eq!(v.len(), 0);
    assert_eq!(v.capacity(), 0);
}

#[test]
fn from_vec_into_vec_round_trip() {
    let data = vec![5u64, 6, 7];
    let v = FastVec::from_vec(data.clone());
    assert_eq!(v.capacity(), 3);
    assert_eq!(v.len(), 3);
    assert_eq!(v.into_vec(), data);
}

#[test]
fn from_empty_vec_has_zero_capacity() {
    let v: FastVec<i32> = FastVec::from_vec(Vec::new());
    assert_eq!(v.capacity(), 0);
    assert_eq!(v.len(), 0);
}

#[test]
fn display_lists_elements() {
    let items = vec!["1".to_string(), "2".to_string(), "3".to_string()];
    assert_eq!(display_with(&items), "FastVec[1, 2, 3]");
    assert_eq!(display_with(&vec!["only".to_string()]), "FastVec[only]");
    assert_eq!(display_with(&Vec::new()), "FastVec[]");
}

#[test]
fn push_onto_zero_capacity_grows_to_one() {
    let mut v: FastVec<u32> = FastVec::with_capacity(0);
    v.push(5);
    assert_eq!(v.len(), 1);
    assert_eq!(v.capacity(), 1);
    assert_eq!(*v.get(0), 5);
    v.push(6);
    assert_eq!(v.capacity(), 2);

    let mut w = FastVec::from_vec(vec![1u32, 2, 3]);
    w.clear();
    w.push(7);
    assert_eq!(w.capacity(), 1);
    assert_eq!(w.into_vec(), vec![7]);

    let mut e: FastVec<String> = FastVec::from_vec(Vec::new());
    e.push("x".to_string());
    assert_eq!(e.capacity(), 1);
    assert_eq!(e.get(0), "x");
}

#[test]
fn growth_keeps_elements_in_order() {
    let mut v = FastVec::with_capacity(2);
    for k in 0..9u32 {
        v.push(k * 10);
    }
    assert_eq!(v.capacity(), 16);
    assert_eq!(v.remove(3), 30);
    assert_eq!(v.capacity(), 16);
    assert_eq!(v.into_vec(), vec![0, 10, 20, 40, 50, 60, 70, 80]);
}

use packer::arena::Arena;

#[test]
fn grants_advance_the_cursor() {
    let mut arena = Arena::new(100);
    let a = arena.allocate(10).unwrap();
    assert_eq!(a.start, 0);
    assert_eq!(a.len, 10);
    let b = arena.allocate(5).unwrap();
    assert_eq!(b.start, 10);
    assert_eq!(b.len, 5);
    assert_eq!(arena.allocated_bytes(), 15);
    assert_eq!(arena.capacity_bytes(), 100);
}

#[test]
fn zero_size_grant_does_not_advance() {
    let mut arena = Arena::new(10);
    let a = arena.allocate(3).unwrap();
    assert_eq!(a.start, 0);
    let empty = arena.allocate(0).unwrap();
    assert_eq!(empty.start, 3);
    assert_eq!(empty.len, 0);
    let b = arena.allocate(2).unwrap();
    assert_eq!(b.start, 3);
}

#[test]
fn refused_request_has_no_effect() {
    let mut arena = Arena::new(10);
    assert!(arena.allocate(8).is_some());
    assert!(arena.allocate(5).is_none());
    let fitting = arena.allocate(2).unwrap();
    assert_eq!(fitting.start, 8);
    assert_eq!(fitting.len, 2);
}

#[test]
fn whole_capacity_fits_exactly() {
    let mut arena = Arena::new(10);
    let all = arena.allocate(10).unwrap();
    assert_eq!(all.start, 0);
    assert_eq!(all.len, 10);
    assert!(arena.allocate(1).is_none());
    assert!(arena.allocate(0).is_some());
}

#[test]
fn reset_makes_every_fitting_size_succeed() {
    let mut arena = Arena::new(10);
    assert!(arena.allocate(10).is_some());
    assert!(arena.allocate(1).is_none());
    arena.reset_heap();
    let again = arena.allocate(10).unwrap();
    assert_eq!(again.start, 0);
    assert_eq!(again.len, 10);
}

#[test]
fn written_bytes_read_back() {
    let mut arena = Arena::new(8);
    let span = arena.allocate(4).unwrap();
    let data: Vec<u8> = vec![1, 2, 3, 4];
    arena.write_bytes(span, &data);
    assert_eq!(arena.read_bytes(span), vec![1, 2, 3, 4]);
    assert_eq!(arena.allocated_bytes(), 4);
}

#[test]
fn writes_to_disjoint_grants_do_not_overlap() {
    let mut arena = Arena::new(6);
    let a = arena.allocate(3).unwrap();
    let b = arena.allocate(3).unwrap();
    arena.write_bytes(a, &vec![7, 7, 7]);
    arena.write_bytes(b, &vec![9, 9, 9]);
    assert_eq!(arena.read_bytes(a), vec![7, 7, 7]);
    assert_eq!(arena.read_bytes(b), vec![9, 9, 9]);
}

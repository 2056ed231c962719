use scene_graph::pool::{BorrowError, Handle, Pool};

#[test]
fn none_handle_is_none() {
    let h = Handle::none();
    assert!(h.is_none());
    assert!(!h.is_some());
    assert_eq!(h.index(), 0);
    assert_eq!(h.generation(), 0);
}

#[test]
fn new_pool_is_empty() {
    let pool: Pool<u32> = Pool::new();
    assert_eq!(pool.get_capacity(), 0);
    assert_eq!(pool.alive_count(), 0);
    assert!(!pool.is_valid_handle(Handle::none()));
    assert!(pool.at(0).is_none());
    assert_eq!(pool.handle_from_index(0), Handle::none());
}

#[test]
fn spawn_gives_fresh_handles_with_generation_one() {
    let mut pool: Pool<u32> = Pool::new();
    let a = pool.spawn(10);
    let b = pool.spawn(20);
    assert_ne!(a, b);
    assert!(a.is_some());
    assert_eq!(a.index(), 0);
    assert_eq!(a.generation(), 1);
    assert_eq!(b.index(), 1);
    assert_eq!(b.generation(), 1);
    assert_eq!(*pool.borrow(a), 10);
    assert_eq!(*pool.borrow(b), 20);
    assert_eq!(pool.alive_count(), 2);
    assert_eq!(pool.get_capacity(), 2);
}

#[test]
fn borrow_mut_changes_only_that_value() {
    let mut pool: Pool<u32> = Pool::new();
    let a = pool.spawn(10);
    let b = pool.spawn(20);
    *pool.borrow_mut(a) = 11;
    assert_eq!(*pool.borrow(a), 11);
    assert_eq!(*pool.borrow(b), 20);
}

#[test]
fn free_kills_the_handle_and_keeps_the_others() {
    let mut pool: Pool<u32> = Pool::new();
    let a = pool.spawn(10);
    let b = pool.spawn(20);
    pool.free(a);
    assert!(!pool.is_valid_handle(a));
    assert!(pool.is_valid_handle(b));
    assert_eq!(pool.alive_count(), 1);
    assert_eq!(pool.get_capacity(), 2);
    assert!(pool.at(0).is_none());
    assert_eq!(pool.at(1), Some(&20));
    assert_eq!(pool.handle_from_index(0), Handle::none());
    assert_eq!(pool.handle_from_index(1), b);
}

#[test]
fn freed_slot_is_reused_with_a_higher_generation() {
    let mut pool: Pool<u32> = Pool::new();
    let a = pool.spawn(10);
    let _b = pool.spawn(20);
    pool.free(a);
    let c = pool.spawn(30);
    assert_eq!(c.index(), a.index());
    assert_eq!(c.generation(), a.generation() + 1);
    assert!(!pool.is_valid_handle(a));
    assert!(pool.is_valid_handle(c));
    assert_eq!(*pool.borrow(c), 30);
    assert_eq!(pool.get_capacity(), 2);
}

#[test]
fn the_slot_freed_last_is_reused_first() {
    let mut pool: Pool<u32> = Pool::new();
    let a = pool.spawn(1);
    let b = pool.spawn(2);
    let c = pool.spawn(3);
    pool.free(a);
    pool.free(c);
    pool.free(b);
    let d = pool.spawn(4);
    let e = pool.spawn(5);
    let f = pool.spawn(6);
    assert_eq!(d.index(), b.index());
    assert_eq!(e.index(), c.index());
    assert_eq!(f.index(), a.index());
}

#[test]
fn clear_forgets_everything() {
    let mut pool: Pool<u32> = Pool::new();
    let a = pool.spawn(1);
    pool.spawn(2);
    pool.clear();
    assert_eq!(pool.alive_count(), 0);
    assert_eq!(pool.get_capacity(), 0);
    assert!(!pool.is_valid_handle(a));
}

#[test]
fn iter_goes_by_slot_and_skips_the_free_ones() {
    let mut pool: Pool<u32> = Pool::new();
    let a = pool.spawn(1);
    let b = pool.spawn(2);
    let c = pool.spawn(3);
    pool.free(b);
    let values: Vec<u32> = pool.iter().into_iter().map(|v| *v).collect();
    assert_eq!(values, vec![1, 3]);
    let pairs: Vec<(Handle, u32)> = pool.pair_iter().into_iter().map(|(h, v)| (h, *v)).collect();
    assert_eq!(pairs, vec![(a, 1), (c, 3)]);
}

#[test]
fn several_values_can_be_borrowed_at_once() {
    let mut pool: Pool<u32> = Pool::new();
    let a = pool.spawn(1);
    let b = pool.spawn(2);
    let c = pool.spawn(3);
    let d = pool.spawn(4);
    {
        let (x, y) = pool.borrow_two_mut((c, a)).unwrap();
        assert_eq!((*x, *y), (3, 1));
        *x += 10;
        *y += 20;
    }
    assert_eq!(*pool.borrow(c), 13);
    assert_eq!(*pool.borrow(a), 21);
    {
        let (x, y, z) = pool.borrow_three_mut((b, d, a)).unwrap();
        assert_eq!((*x, *y, *z), (2, 4, 21));
        *z = 0;
    }
    {
        let (x, y, z, w) = pool.borrow_four_mut((d, c, b, a)).unwrap();
        assert_eq!((*x, *y, *z, *w), (4, 13, 2, 0));
    }
    assert_eq!(pool.borrow_two_mut((b, b)).err(), Some(BorrowError::Overlap));
    assert_eq!(pool.borrow_three_mut((a, b, b)).err(), Some(BorrowError::Overlap));
    assert_eq!(pool.borrow_four_mut((a, b, c, b)).err(), Some(BorrowError::Overlap));
}

#[test]
fn at_mut_lends_the_value_of_a_slot() {
    let mut pool: Pool<u32> = Pool::new();
    let a = pool.spawn(1);
    let b = pool.spawn(2);
    pool.free(a);
    assert!(pool.at_mut(0).is_none());
    assert!(pool.at_mut(2).is_none());
    {
        let (h, value) = pool.at_mut(1).unwrap();
        assert_eq!(h, b);
        *value = 5;
    }
    assert_eq!(*pool.borrow(b), 5);
}

use rlib::cache::{cache_init, Cache, CacheControl};

fn make_zero() -> Box<u32> {
    Box::new(0)
}

fn take_value(c: &Cache<u32>) -> u32 {
    *c.get_ref().unwrap()
}

fn control(depth: usize) -> CacheControl<u32, fn() -> Box<u32>> {
    cache_init(depth, make_zero as fn() -> Box<u32>)
}

#[test]
fn get_from_empty_pool_asks_the_factory() {
    let mut ctrl = control(2);
    let c = ctrl.get();
    assert_eq!(take_value(&c), 0);
    let s = ctrl.stat();
    assert_eq!(s.alloc_num, 1);
    assert_eq!(s.reuse_num, 0);
    assert_eq!(s.free_num, 0);
    assert_eq!(s.recyle_num, 0);
}

#[test]
fn released_value_is_handed_out_again() {
    let mut ctrl = control(2);
    let mut c = ctrl.get();
    *c.get_ref_mut().unwrap() = 9;
    c.release(&mut ctrl);
    let d = ctrl.get();
    assert_eq!(take_value(&d), 9);
    let s = ctrl.stat();
    assert_eq!(s.alloc_num, 1);
    assert_eq!(s.recyle_num, 1);
    assert_eq!(s.reuse_num, 1);
    assert_eq!(s.free_num, 0);
}

#[test]
fn pool_hands_out_last_given_back_first() {
    let mut ctrl = control(0);
    let mut a = ctrl.get();
    let mut b = ctrl.get();
    *a.get_ref_mut().unwrap() = 1;
    *b.get_ref_mut().unwrap() = 2;
    a.release(&mut ctrl);
    b.release(&mut ctrl);
    assert_eq!(take_value(&ctrl.get()), 2);
    assert_eq!(take_value(&ctrl.get()), 1);
    assert_eq!(take_value(&ctrl.get()), 0);
    let s = ctrl.stat();
    assert_eq!(s.alloc_num, 3);
    assert_eq!(s.reuse_num, 2);
}

#[test]
fn full_pool_drops_given_back_values() {
    let mut ctrl = control(1);
    let a = ctrl.get();
    let b = ctrl.get();
    a.release(&mut ctrl);
    b.release(&mut ctrl);
    let s = ctrl.stat();
    assert_eq!(s.recyle_num, 1);
    assert_eq!(s.free_num, 1);
    assert_eq!(s.alloc_num, 2);
}

#[test]
fn depth_zero_keeps_every_value() {
    let mut ctrl = control(0);
    let mut held = Vec::new();
    for _ in 0..5 {
        held.push(ctrl.get());
    }
    for c in held {
        c.release(&mut ctrl);
    }
    let s = ctrl.stat();
    assert_eq!(s.recyle_num, 5);
    assert_eq!(s.free_num, 0);
}

#[test]
fn reset_depth_keeps_the_first_values() {
    let mut ctrl = control(0);
    let mut held = Vec::new();
    for i in 0..4u32 {
        let mut c = ctrl.get();
        *c.get_ref_mut().unwrap() = i + 10;
        held.push(c);
    }
    for c in held {
        c.release(&mut ctrl);
    }
    ctrl.reset_depth(2);
    assert_eq!(take_value(&ctrl.get()), 11);
    assert_eq!(take_value(&ctrl.get()), 10);
    assert_eq!(take_value(&ctrl.get()), 0);
    assert_eq!(ctrl.stat().alloc_num, 5);
}

#[test]
fn reset_depth_zero_keeps_the_pool() {
    let mut ctrl = control(3);
    let a = ctrl.get();
    let b = ctrl.get();
    a.release(&mut ctrl);
    b.release(&mut ctrl);
    ctrl.reset_depth(0);
    ctrl.get();
    ctrl.get();
    assert_eq!(ctrl.stat().reuse_num, 2);
    assert_eq!(ctrl.stat().alloc_num, 2);
}

#[test]
fn lowered_depth_then_bounds_the_pool() {
    let mut ctrl = control(0);
    let a = ctrl.get();
    let b = ctrl.get();
    ctrl.reset_depth(1);
    a.release(&mut ctrl);
    b.release(&mut ctrl);
    assert_eq!(ctrl.stat().recyle_num, 1);
    assert_eq!(ctrl.stat().free_num, 1);
}

#[test]
fn reset_empties_the_pool() {
    let mut ctrl = control(0);
    let a = ctrl.get();
    a.release(&mut ctrl);
    ctrl.reset();
    ctrl.get();
    let s = ctrl.stat();
    assert_eq!(s.alloc_num, 2);
    assert_eq!(s.reuse_num, 0);
}

#[test]
fn closure_factory_is_used() {
    let mut ctrl = cache_init(1, || Box::new(String::from("fresh")));
    let c = ctrl.get();
    assert_eq!(c.get_ref().unwrap().as_str(), "fresh");
}

#[test]
fn taking_and_giving_back_leaves_the_pool() {
    let mut ctrl = control(2);
    let mut a = ctrl.get();
    *a.get_ref_mut().unwrap() = 4;
    a.release(&mut ctrl);
    assert_eq!(ctrl.cached_len(), 1);
    let b = ctrl.get();
    assert_eq!(ctrl.cached_len(), 0);
    b.release(&mut ctrl);
    assert_eq!(ctrl.cached_len(), 1);
    assert_eq!(take_value(&ctrl.get()), 4);
}

#[test]
fn counters_account_for_every_reuse() {
    let mut ctrl = control(2);
    for _ in 0..6 {
        let a = ctrl.get();
        let b = ctrl.get();
        let c = ctrl.get();
        a.release(&mut ctrl);
        b.release(&mut ctrl);
        c.release(&mut ctrl);
        let s = ctrl.stat();
        assert!(s.reuse_num + ctrl.cached_len() <= s.recyle_num);
        assert!(ctrl.cached_len() <= ctrl.get_depth());
    }
    let s = ctrl.stat();
    assert_eq!(s.alloc_num, 3 + 5);
    assert_eq!(s.reuse_num, 10);
    assert_eq!(s.recyle_num, 12);
    assert_eq!(s.free_num, 6);
}

#![allow(dead_code)]

use std::cell::RefCell;

#[derive(Debug)]
struct Foo {
    foo: u64,
}

impl Drop for Foo {
    fn drop(&mut self) {
        println!("drop invoke for Foo: {:?}, foo: {}", self, self.foo);
    }
}

#[test]
fn drop_test() {
    let mut v = vec![Foo { foo: 1 }, Foo { foo: 2 }, Foo { foo: 3 }];
    v[2] = Foo { foo: 1145141919810 };
}

#[test]
fn r() {
    let _a = kvs::Arc::new(1);
}

#[test]
fn shared_handle_clones_share_the_value() {
    let a = kvs::shared::Arc::new(String::from("v"));
    let b = a.clone();
    assert_eq!(a.get(), "v");
    assert_eq!(b.get(), "v");
}

#[test]
fn base() {
    let a1 = kvs::Arc::new(RefCell::new(1));
    let a2 = a1.clone();
    let mut d = a1.borrow_mut();
    *d += 1;
    drop(d);
    assert!(*a1.borrow() == *a2.borrow());
}

#![allow(dead_code)]
#![allow(unused_variables)]

#[derive(Debug)]
struct Foo;

impl Foo {
    fn len(&self) -> usize {
        return 1;
    }
    fn mut_consume(&mut self) {
        println!("consume Foo, {:#?}", self);
    }
}

fn fn_once<F>(func: F)
where
    F: FnOnce(usize) -> bool + Copy,
{
    println!("{}", func(3));
    println!("{}", func(4));
}

#[test]
fn once() {
    let x = Foo {};
    fn_once(|z| z == x.len());
    println!("{:?}", x);
}

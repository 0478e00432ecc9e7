#![allow(dead_code)]
#![allow(unused_variables)]

#[derive(Debug)]
struct Foo;

impl Foo {
    fn mutate_and_share(&mut self) -> &Self {
        &*self
    }
}

#[test]
fn lifetime_defect() {
    let mut foo = Foo;
    let loan = foo.mutate_and_share();
    println!("{:?}", loan);
}

struct Ref<'a, T: 'a> {
    r: &'a T,
}

#[test]
fn type_lifetime_compare() {
    let s = &1;
    let r: Ref<&&&&&i32> = Ref { r: &&&&&s };
    let v = r.r;
    println!("v: {}", v);
}

#[derive(Debug)]
struct Point {
    x: i32,
    y: i32,
}

impl Point {
    fn move_to(&mut self, x: i32, y: i32) {
        self.x = x;
        self.y = y;
    }
    fn show(&self) {
        println!("{}, {}", self.x, self.y);
    }
}

#[test]
fn reborrow() {
    let mut p = Point { x: 0, y: 0 };
    p.move_to(1, 2);
    p.show();

    let r = &mut p;
    let rr: &Point = &*r;

    println!("second borrow of p: {:?}", rr);
    println!("first borrow of p: {:?}", r);
}

struct Interface<'b, 'a: 'b> {
    manager: &'b mut Manager<'a>,
}

impl<'b, 'a: 'b> Interface<'b, 'a> {
    pub fn noop(self) {
        println!("interface consumed");
    }
}

struct Manager<'a> {
    text: &'a str,
}

struct List<'a> {
    manager: Manager<'a>,
}

impl<'a> List<'a> {
    pub fn get_interface<'b>(&'b mut self) -> Interface<'b, 'a>
    where
        'a: 'b,
    {
        Interface {
            manager: &mut self.manager,
        }
    }
}

fn use_list(list: &List) {
    println!("{}", list.manager.text);
}

#[test]
fn lifetime_fix() {
    let str: String = "aaaaaa".into();
    let mut list = List {
        manager: Manager { text: str.as_str() },
    };
    list.get_interface().noop();
    use_list(&list);
}

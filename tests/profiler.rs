use crude_profiler::{clear, push, report, Profile};

const SEC: u64 = 1_000_000_000;

#[test]
fn it_works() {
    let mut p = Profile::new(0);
    clear(&mut p, 0);
    let g = push(&mut p, "hello world", 10);
    g.release(&mut p, 20);
    let rep = report(&mut p, 30);
    println!("\n{}", rep);
    assert!(rep.contains("hello world"));
}

#[test]
fn nesting() {
    let mut p = Profile::new(0);
    clear(&mut p, 0);
    {
        let a = push(&mut p, "hello", 10);
        let b = push(&mut p, "world", 20);
        b.release(&mut p, 30);
        a.release(&mut p, 40);
    }
    let rep = report(&mut p, 50);
    println!("\n{}", rep);
    assert!(rep.contains("hello:world"));
}

#[test]
fn replace_works() {
    let mut p = Profile::new(0);
    clear(&mut p, 0);
    {
        let a = push(&mut p, "first", 1);
        let b = push(&mut p, "greet", 2);
        b.replace(&mut p, "world", 3);
        b.release(&mut p, 4);
        a.release(&mut p, 5);
    }
    {
        let a = push(&mut p, "second", 6);
        let b = push(&mut p, "greet", 7);
        b.replace(&mut p, "world", 8);
        b.release(&mut p, 9);
        a.release(&mut p, 10);
    }
    let rep = report(&mut p, 11);
    println!("\n{}", rep);
    assert!(!rep.contains("hello:world"));
    assert!(rep.contains("first:world"));
    assert!(rep.contains("first:greet"));
    assert!(rep.contains("second:world"));
    assert!(rep.contains("second:greet"));
}

#[test]
fn replace_timings() {
    let mut p = Profile::new(0);
    clear(&mut p, 0);
    {
        let a = push(&mut p, "first", 0);
        let b = push(&mut p, "hello", 2 * SEC);
        b.replace(&mut p, "world", 5 * SEC);
        b.release(&mut p, 6 * SEC);
        a.release(&mut p, 6 * SEC);
    }
    {
        let a = push(&mut p, "second", 6 * SEC);
        let b = push(&mut p, "greet", 7 * SEC);
        b.replace(&mut p, "world", 11 * SEC);
        b.release(&mut p, 14 * SEC);
        a.release(&mut p, 14 * SEC);
    }
    let rep = report(&mut p, 14 * SEC);
    println!("\n{}", rep);
    assert!(!rep.contains("hello:world"));
    assert!(rep.contains("first:world"));
    assert!(rep.contains("first:hello"));
    assert!(rep.contains("second:world"));
    assert!(rep.contains("second:greet"));
    assert!(rep.contains("first: 6"));
    assert!(rep.contains("first:hello: 3"));
    assert!(rep.contains("first:world: 1"));
    assert!(rep.contains("second: 8"));
    assert!(rep.contains("second:greet: 4"));
    assert!(rep.contains("second:world: 3"));
    assert!(rep.contains("world 4"));
}

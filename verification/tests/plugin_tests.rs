use schema_graph::plugin::{rsvp, CountingGreeter, SimpleGreeter};

#[test]
fn lib_test() {
    let mut simple = SimpleGreeter("Hi".to_string());
    let mut formal = CountingGreeter(0);
    assert_eq!("Hi, Andrew!", rsvp("Andrew", "Baker", &mut simple));
    assert_eq!("Greetings, Baker Andrew.", rsvp("Andrew", "Baker", &mut formal));

    // the casual greeter is untouched
    assert_eq!(simple.0, "Hi");

    // the formal greeter counted its one greeting
    assert_eq!(1, formal.0);
}

#[test]
fn cross_casting() {
    let simple = SimpleGreeter("Hi".to_string());
    assert_eq!("Hi, Andrew!", simple.greet("Andrew"));

    // the same greeter also supports the formal greeting
    assert_eq!("Hi, Andrew Baker!", simple.greet_formal("Andrew", "Baker"));
}

#[test]
fn counting_greeter_counts_each_greeting() {
    let mut formal = CountingGreeter(0);
    formal.greet_formal("Ada", "Lovelace");
    formal.greet_formal("Alan", "Turing");
    assert_eq!(2, formal.0);
}

use algokit::notation::{_in_to_post, _post_to_in, in_to_post, order, post_to_in};
use algokit::stack::{Fail, Stack};

#[test]
fn basic() {
    let mut foo = Stack::from(vec![5, 7, 11], 42);

    assert_eq!(11, *foo.top().unwrap());

    foo.pop().unwrap();
    assert_eq!(7, *foo.top().unwrap());

    let foo = Stack::from(vec!['a', 'w'], 10);

    assert_eq!('w', *foo.top().unwrap());
}

#[test]
fn full() {
    let mut foo = Stack::new(1);

    foo.push(4.2).unwrap();
    let err = match foo.push(5.1) {
        Ok(_x) => 0,
        Err(_e) => 1,
    };
    assert_eq!(1, err);

    foo.pop().unwrap();
    let err = match foo.pop() {
        Ok(_x) => 0,
        Err(_e) => 1,
    };
    assert_eq!(1, err);
}

#[test]
fn expression_conversion() {
    let mut infix = "a+b*(c^d-e)^(f+g*h)-i".to_string();
    let postfix = String::from("abcd^e-fgh*+^*+i-");

    assert_eq!(postfix, in_to_post(infix.clone()));

    infix = "((a+(b*(((c^d)-e)^(f+(g*h)))))-i)".to_string();
    assert_eq!(infix, post_to_in(postfix.clone()));
}

#[test]
fn whitespace_is_ignored() {
    assert_eq!(
        in_to_post(" a + b ".to_string()),
        in_to_post("a+b".to_string())
    );
    assert_eq!("", in_to_post(String::new()));
}

#[test]
fn precedence_order() {
    assert_eq!("abc*+", in_to_post("a+b*c".to_string()));
    assert_eq!("ab+c*", in_to_post("(a+b)*c".to_string()));
    assert_eq!(3, order('^'));
    assert_eq!(2, order('*'));
    assert_eq!(2, order('/'));
    assert_eq!(1, order('+'));
    assert_eq!(1, order('-'));
    assert_eq!(-1, order('x'));
}

#[test]
fn left_associativity() {
    assert_eq!("ab-c-", in_to_post("a-b-c".to_string()));
}

#[test]
fn parenthesized_reconstruction() {
    assert_eq!("(a+(b*c))", post_to_in("abc*+".to_string()));
}

#[test]
fn round_trip_small() {
    let post = in_to_post("a+b".to_string());
    assert_eq!("ab+", post);
    assert_eq!("(a+b)", post_to_in(post));
}

#[test]
fn malformed_inputs_fail() {
    assert!(matches!(_in_to_post("(a+b".to_string()), Err(Fail::Empty)));
    assert!(matches!(_post_to_in("a+".to_string()), Err(Fail::Empty)));
    assert!(matches!(_post_to_in(String::new()), Err(Fail::Empty)));
}

#[test]
fn capacity_never_exceeded() {
    let mut st = Stack::new(3);
    st.push(1).unwrap();
    st.push(2).unwrap();
    st.push(3).unwrap();
    assert!(st.is_full());
    let r = st.push(4);
    assert!(matches!(r, Err(Fail::Full)));
    assert_eq!(3, *st.top().unwrap());
}

#[test]
fn empty_stack_reports_empty() {
    let mut st: Stack<i32> = Stack::new(4);
    assert!(st.is_empty());
    assert!(matches!(st.top(), Err(Fail::Empty)));
    assert!(matches!(st.pop(), Err(Fail::Empty)));
}

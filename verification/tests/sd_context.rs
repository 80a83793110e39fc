#![allow(unused_imports)]
use yamd::sd::context::ContextValues;

#[test]
fn context_usize_value() {
    let ctx: ContextValues = 1.into();
    assert_eq!(ctx.get_usize_value(), Some(1));
    assert_eq!(ctx.get_string_value(), None)
}

#[test]
fn string_value() {
    let ctx: ContextValues = String::new().into();
    assert_eq!(ctx.get_string_value(), Some(&String::new()));
    assert_eq!(ctx.get_usize_value(), None)
}

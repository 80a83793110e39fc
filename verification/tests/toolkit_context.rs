use yamd::toolkit::context::Context;

#[test]
fn toolkit_context_usize_value() {
    let mut ctx = Context::new();
    ctx.add("usize_value", 1);

    assert_eq!(ctx.get_usize_value("usize_value"), Some(1));
    assert_eq!(ctx.get_usize_value("not_usize_value"), None);
}

#[test]
fn context_default() {
    let mut ctx = Context::default();
    ctx.add("usize_value", 1);

    assert_eq!(ctx.get_usize_value("usize_value"), Some(1));
    assert_eq!(ctx.get_usize_value("not_usize_value"), None);
}

#[test]
fn context_add_replaces_the_value() {
    let mut ctx = Context::new();
    ctx.add("a", 1);
    ctx.add("b", 2);
    ctx.add("a", 3);

    assert_eq!(ctx.get_usize_value("a"), Some(3));
    assert_eq!(ctx.get_usize_value("b"), Some(2));
}

#[test]
fn context_new_is_empty() {
    let ctx = Context::new();
    assert_eq!(ctx.get_usize_value(""), None);
}

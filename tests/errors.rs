use marie_compiler::compiler::compile_text;

fn error_of(src: &str) -> (usize, String) {
    match compile_text(src) {
        Ok(out) => panic!("expected an error, got {}", out),
        Err(e) => (e.line, e.content),
    }
}

#[test]
fn missing_main() {
    let (_, msg) = error_of("*\nfunction other\n*\n{\n}\n");
    assert_eq!(msg, "no main function");
}

#[test]
fn main_with_arguments() {
    let (_, msg) = error_of("*\nfunction main a\n*\n{\n}\n");
    assert_eq!(msg, "main function cannot take arguments");
}

#[test]
fn main_as_stack_function() {
    let (_, msg) = error_of("*\nstack_function main\n*\n{\n}\n");
    assert_eq!(msg, "main function cannot be stack function");
}

#[test]
fn unknown_variable() {
    let (line, msg) = error_of("*\nfunction main\n*\n{\nq := 1\n}\n");
    assert_eq!(line, 4);
    assert_eq!(msg, "neither local nor global q found");
}

#[test]
fn unknown_function() {
    let (line, msg) = error_of("*\nfunction main\n*\n{\nnope()\n}\n");
    assert_eq!(line, 4);
    assert_eq!(msg, "function nope not found");
}

#[test]
fn wrong_arity() {
    let (_, msg) = error_of("*\nfunction f a\n*\n{\n}\nfunction main\n*\n{\nf(1 2)\n}\n");
    assert_eq!(msg, "Function takes 1 but 2 were given");
}

#[test]
fn duplicate_function() {
    let (_, msg) = error_of("*\nfunction main\n*\n{\n}\nfunction main\n*\n{\n}\n");
    assert_eq!(msg, "there's a function with the same name already");
}

#[test]
fn stack_function_from_plain_function() {
    let src = "*\nfunction push v\n*\n{\n}\nfunction pop\n*\n{\n}\nfunction stack_return v\n*\n{\n}\nstack_function s\n*\n{\n}\nfunction f\n*\n{\ns()\n}\nfunction main\n*\n{\n}\n";
    let (_, msg) = error_of(src);
    assert!(msg.starts_with("Can't call s from f"));
}

#[test]
fn stack_helpers_missing() {
    let (_, msg) = error_of("*\nstack_function s\n*\n{\n}\nfunction main\n*\n{\n}\n");
    assert!(msg.starts_with("Stack feature was enabled"));
    assert!(msg.contains("push function is not defined"));
}

#[test]
fn stack_helper_with_wrong_arity() {
    let src = "*\nfunction push\n*\n{\n}\nfunction pop\n*\n{\n}\nfunction stack_return v\n*\n{\n}\nstack_function s\n*\n{\n}\nfunction main\n*\n{\n}\n";
    let (_, msg) = error_of(src);
    assert!(msg.contains("push function definition was expected to have 1 arguments but had 0 arguments"));
}

#[test]
fn globals_not_closed() {
    let (_, msg) = error_of("x = 1\n");
    assert_eq!(msg, "Variable declaration not closed");
}

#[test]
fn block_not_closed() {
    let (_, msg) = error_of("*\nfunction main\n*\n{\n%halt\n");
    assert_eq!(msg, "Block was not closed");
}

#[test]
fn number_too_large() {
    let (line, msg) = error_of("x = 99999999999\n*\n");
    assert_eq!(line, 0);
    assert_eq!(msg, "integer literal does not fit in 32 bits");
}

#[test]
fn bad_statement() {
    let (line, msg) = error_of("*\nfunction main\n*\n{\n= =\n}\n");
    assert_eq!(line, 4);
    assert_eq!(msg, "Expected correct statement");
}

#[test]
fn return_with_two_values() {
    let (_, msg) = error_of("*\nfunction main\n*\n{\n.ret(1 2)\n}\n");
    assert_eq!(msg, "Return accepts one or 0 arguments");
}

#[test]
fn if_needs_else_or_noelse() {
    let (_, msg) = error_of("*\nfunction main\n*\n{\n.if(EQ 1 1)\n{\n}\n%halt\n}\n");
    assert!(msg.starts_with("pattern doesn't match"));
}

use marie_compiler::compiler::compile_text;
use marie_compiler::lib_handler::{merge, merge_checked, merge_single, reported_line};

fn lines_of(s: &str) -> Vec<String> {
    s.lines().map(|l| l.to_string()).collect()
}

const STACK_PROGRAM: &str = "*\nfunction push v\n*\n{\n}\nfunction pop\n*\n{\n}\nfunction stack_return v\n*\n{\n}\nstack_function fact n\nk = 1\n*\n{\nn = fact(n)\n.ret(n)\n}\nfunction main\n*\n{\nfact(3)\n}\n";

#[test]
fn minimal_program() {
    let out = compile_text("*\nfunction main\n*\n{\n}\n").unwrap();
    let expected = "jns function_main\nhalt\nvar__temp, DEC -100\nvar_return, DEC -200\nvar_return_saver, DEC -300\nfunction_main, DEC 0\nstore var_return\njumpI function_main";
    assert_eq!(out, expected);
}

#[test]
fn global_and_assignment() {
    let out = compile_text("x = 7\n*\nfunction main\n*\n{\nx := 5\n}\n").unwrap();
    assert!(out.contains("const_5, DEC 5"));
    assert!(out.contains("var_x, DEC 7"));
    assert!(out.contains("load const_5\nstore var_x"));
}

#[test]
fn call_with_argument() {
    let src = "r = 0\n*\nfunction add a\n*\n{\n.ret(a)\n}\nfunction main\n*\n{\nr = add(3)\n}\n";
    let out = compile_text(src).unwrap();
    assert!(out.contains("load const_3\nstore var_add_a\njns function_add\nstore var_r"));
    assert!(out.contains("load var_add_a\nstore var_return\njumpI function_add"));
}

#[test]
fn if_with_else() {
    let src = "*\nfunction main\n*\n{\n.if(EQ 1 1)\n{\n%halt\n}\n.else\n{\n%halt\n}\n}\n";
    let out = compile_text(src).unwrap();
    let lines = lines_of(&out);
    assert!(out.contains("skipcond 400"));
    assert!(out.contains("jump else_0\njump if_0\nif_0, store var__temp\nhalt\njump end_if_0\nelse_0, store var__temp\nhalt\nend_if_0, store var__temp"));
    assert_eq!(lines.iter().filter(|l| l.as_str() == "halt").count(), 3);
    assert!(out.contains("load const_1\nstore var__temp\nload const_1\nsubt var__temp"));
}

#[test]
fn if_without_else() {
    let src = "*\nfunction main\n*\n{\n.if(LESS 2 1)\n{\n%halt\n}\n.noelse\n}\n";
    let out = compile_text(src).unwrap();
    assert!(out.contains("skipcond 000\njump end_if_0\njump if_0\nif_0, store var__temp\nhalt\nend_if_0, store var__temp"));
    assert!(!out.contains("else_0"));
}

#[test]
fn stack_recursion() {
    let out = compile_text(STACK_PROGRAM).unwrap();
    let lines = lines_of(&out);
    // one address cell per stack call site
    let addr_cells: Vec<&String> = lines.iter().filter(|l| l.starts_with("addr_")).collect();
    assert_eq!(addr_cells.len(), 2);
    // the caller's locals are pushed before the recursive jump
    assert!(out.contains("load var_fact_n\nstore var_push_v\njns function_push\nload var_fact_k\nstore var_push_v\njns function_push\nload addr_0\nstore var_push_v\njns function_push\nload var_fact_n\nstore var_push_v\njns function_push\njns function_fact"));
    // each address cell holds the line after its jump
    for cell in addr_cells {
        let value: usize = cell.rsplit(' ').next().unwrap().parse().unwrap();
        assert_eq!(lines[value - 1], "jns function_fact");
    }
    assert!(out.contains("jumpi var_return"));
}

#[test]
fn library_prepend() {
    let merged = merge("header\n*\nfunction main\n*\n{\n}\n", &vec!["lib-contents"]);
    assert_eq!(merged, "header\nlib-contents\nfunction main\n*\n{\n}\n");
    assert_eq!(reported_line(4, &vec!["lib-contents"]), 4);
    assert_eq!(reported_line(5, &vec!["a\nb\nc"]), 3);
    assert_eq!(reported_line(5, &vec![]), 6);
}

#[test]
fn splice_replaces_only_the_first_star() {
    assert_eq!(merge_single("a*b*c", "X"), "aXb*c");
    assert_eq!(merge_single("", "X"), "X");
    assert_eq!(merge_single("a*", ""), "a*");
    assert_eq!(merge_checked("no star", &vec!["lib"]), None);
}

#[test]
fn libraries_fold_from_the_last() {
    // the last library hosts the one before it
    let merged = merge("m*m", &vec!["one", "two*"]);
    assert_eq!(merged, "mtwoonem");
    let stars = |s: &str| s.chars().filter(|c| *c == '*').count();
    let main = "head\n*\ntail";
    let libs = vec!["a*b", "c*"];
    let merged = merge(main, &libs);
    assert_eq!(stars(&merged), libs.iter().map(|l| stars(l)).sum::<usize>() - 1 + stars(main) - 1);
}

#[test]
fn output_is_deterministic() {
    let a = compile_text(STACK_PROGRAM).unwrap();
    let b = compile_text(STACK_PROGRAM).unwrap();
    assert_eq!(a, b);
}

#[test]
fn address_of_variable_is_its_cell_line() {
    let src = "x = 1\n*\nfunction main\ny = 2\n*\n{\nx := &y\n}\n";
    let out = compile_text(src).unwrap();
    let lines = lines_of(&out);
    let load = lines.iter().position(|l| l.starts_with("load const_") && l != "load const_2").unwrap();
    let address: usize = lines[load]["load const_".len()..].parse().unwrap();
    assert_eq!(lines[address], "var_main_y, DEC 2");
    assert_eq!(lines[load + 1], "store var_x");
    // the address is itself a constant cell of the listing
    let cell = format!("const_{}, DEC {}", address, address);
    assert_eq!(lines.iter().filter(|l| **l == cell).count(), 1);
    // in the constant section, in increasing order, before the variable cells
    let at = lines.iter().position(|l| *l == cell).unwrap();
    let first_var = lines.iter().position(|l| l.starts_with("var_")).unwrap();
    assert!(at < first_var);
    assert_eq!(lines[2], "const_2, DEC 2");
    assert_eq!(lines[3], cell);
}

#[test]
fn flag_cell_holds_its_line() {
    let src = "*\nfunction main\n*\n{\n%load const_0\n.flag(here)\n%halt\n}\n";
    let out = compile_text(src).unwrap();
    let lines = lines_of(&out);
    let cell = lines.iter().find(|l| l.starts_with("flag_main_here")).unwrap();
    let value: usize = cell.rsplit(' ').next().unwrap().parse().unwrap();
    assert_eq!(lines[value], "halt");
}

#[test]
fn deref_and_flag_arguments() {
    let src = "p = 0\n*\nfunction main\n*\n{\np := *p\np := -here\n.flag(here)\n}\n";
    let out = compile_text(src).unwrap();
    assert!(out.contains("loadi var_p\nstore var_p"));
    assert!(out.contains("load flag_main_here\nstore var_p"));
}

#[test]
fn stack_function_pops_arguments_before_resetting_locals() {
    let out = compile_text(STACK_PROGRAM).unwrap();
    let lines = lines_of(&out);
    let head = lines.iter().position(|l| l == "function_fact, DEC 0").unwrap();
    assert_eq!(lines[head + 1], "jns function_pop");
    assert_eq!(lines[head + 2], "store var_fact_n");
    assert_eq!(lines[head + 3], "load const_1");
    assert_eq!(lines[head + 4], "store var_fact_k");
}

#[test]
fn minimal_program_has_eight_lines() {
    let out = compile_text("*\nfunction main\n*\n{\n}\n").unwrap();
    assert_eq!(lines_of(&out).len(), 8);
}

#[test]
fn section_pads_where_no_size_fits() {
    // constants 5 and 6, and the address of _temp: with n section lines its
    // cell stands at line n + 2, so no n holds exactly the values
    let src = "x = 0\n*\nfunction main\n*\n{\nx := 5\nx := 6\nx := &_temp\n}\n";
    let out = compile_text(src).unwrap();
    let lines = lines_of(&out);
    let x_line = lines.iter().position(|l| l == "var__temp, DEC -100").unwrap();
    let cell = format!("const_{}, DEC {}", x_line, x_line);
    let at = lines.iter().position(|l| *l == cell).unwrap();
    assert!(at < x_line);
    assert!(lines.iter().any(|l| l.starts_with("pad_")));
}

use marie_compiler::argument_parser::{self, ArgumentMapping};
use marie_compiler::config::{self, Config, OutputMethod};
use marie_compiler::lexer::{tokenize, tokenize_line, ConditionKind, Symbol, Token};
use marie_compiler::lib_handler::line_count;
use marie_compiler::string_builder::{collapse, push_int, Builder};
use marie_compiler::token_expect::{check_add, match_exact, match_exact_cond, IndexReq, TokenReq};

fn label(s: &str) -> Token {
    Token::m_label(s)
}

fn args(v: &[&str]) -> Vec<String> {
    v.iter().map(|s| s.to_string()).collect()
}

#[test]
fn lexer_reads_symbols_labels_numbers_and_keywords() {
    let tokens = tokenize_line("  r = add(3 x) // a comment").unwrap();
    assert_eq!(
        tokens,
        vec![
            label("r"),
            Token::Symbol(Symbol::Equal),
            label("add"),
            Token::Symbol(Symbol::ParenthesisOpen),
            Token::Number(3),
            label("x"),
            Token::Symbol(Symbol::ParenthesisClose),
        ]
    );
    let tokens = tokenize_line(".if(LESS a &b)").unwrap();
    assert_eq!(tokens[3], Token::CondKind(ConditionKind::Less));
    assert_eq!(tokens[5], Token::Symbol(Symbol::Ampersand));
    assert_eq!(tokens[6], label("b"));
    let tokens = tokenize_line("EQMORE x").unwrap();
    assert_eq!(tokens[0], Token::CondKind(ConditionKind::Eq));
    assert_eq!(tokens[1], Token::CondKind(ConditionKind::More));
}

#[test]
fn lexer_keeps_inline_lines_verbatim() {
    let tokens = tokenize_line("   %load  x , y  ").unwrap();
    assert_eq!(tokens, vec![Token::t_inline("load  x , y".to_owned())]);
}

#[test]
fn lexer_splits_numbers_from_labels() {
    let tokens = tokenize_line("12ab a12 -3").unwrap();
    assert_eq!(
        tokens,
        vec![Token::Number(12), label("ab"), label("a12"), Token::Symbol(Symbol::Minus), Token::Number(3)]
    );
    assert_eq!(tokenize_line("2147483647").unwrap(), vec![Token::Number(2147483647)]);
    assert!(tokenize_line("2147483648").is_err());
}

#[test]
fn tokenize_drops_empty_and_comment_lines() {
    let lines = tokenize("x = 1\n\n   // note\n*\r\n  {  \n").unwrap();
    assert_eq!(lines.len(), 3);
    assert_eq!(lines[0].line_number, 0);
    assert_eq!(lines[1].line_number, 3);
    assert_eq!(lines[1].org, "*");
    assert_eq!(lines[2].line_number, 4);
    assert_eq!(lines[2].org, "{");
    assert_eq!(lines[2].elements, vec![Token::Symbol(Symbol::BraceOpen)]);
}

#[test]
fn tokenize_reports_the_overflowing_line() {
    let err = tokenize("a = 1\nb = 3000000000\n").unwrap_err();
    assert_eq!(err.line, 1);
    assert_eq!(err.related_text, "b = 3000000000");
}

#[test]
fn token_helpers() {
    let t = label("else");
    assert!(t.is_exact_label("else"));
    assert!(!t.is_exact_label("noelse"));
    assert_eq!(t.to_label(), Some("else".to_owned()));
    assert_eq!(Token::Number(1).to_label(), None);
    assert_eq!(Token::CondKind(ConditionKind::More).to_cond(), Some(ConditionKind::More));
    assert_eq!(t.duplicate(), t);
}

#[test]
fn pattern_matching() {
    let tokens = vec![label("x"), Token::Symbol(Symbol::Equal), Token::Number(4)];
    let decl = vec![
        (TokenReq::Label, IndexReq::Next),
        (TokenReq::m_symbol(Symbol::Equal), IndexReq::Next),
        (TokenReq::Number, IndexReq::Next),
        (TokenReq::NoToken, IndexReq::Next),
    ];
    assert!(match_exact_cond(&decl, &tokens));
    let mut longer = tokens.clone();
    longer.push(label("y"));
    let err = match_exact(&decl, &longer).unwrap_err();
    assert!(err.ends_with("index 3"));
    let last = vec![(TokenReq::Literal(Token::Number(4)), IndexReq::End(0))];
    assert!(match_exact_cond(&last, &tokens));
    let between = vec![(TokenReq::Any, IndexReq::Between(0, 3))];
    assert!(match_exact_cond(&between, &tokens));
    let either = vec![(TokenReq::Either(label("a"), label("x")), IndexReq::Beg(0))];
    assert!(match_exact_cond(&either, &tokens));
    assert!(!match_exact_cond(&vec![(TokenReq::Inline, IndexReq::Beg(0))], &tokens));
    assert!(!match_exact_cond(&vec![(TokenReq::Label, IndexReq::End(5))], &tokens));
    assert!(check_add(&[(Token::Number(4), 2)], &tokens));
    assert!(!check_add(&[(Token::Number(4), 3)], &tokens));
}

#[test]
fn builder_counts_lines() {
    let mut b = Builder::new();
    b.push_line_smart("a");
    b.push_line_smart("");
    b.push_line_smart("b\nc");
    assert_eq!(b.count(), 3);
    b.push("d");
    assert_eq!(b.count(), 3);
    assert_eq!(b.collapse_flat(), "a\nb\nc\nd");
    let mut v: Vec<char> = Vec::new();
    push_int(&mut v, -2147483648);
    assert_eq!(collapse(v), "-2147483648");
}

#[test]
fn line_count_follows_str_lines() {
    assert_eq!(line_count(""), 0);
    assert_eq!(line_count("a"), 1);
    assert_eq!(line_count("a\n"), 1);
    assert_eq!(line_count("a\r\nb\n\nc"), 4);
}

#[test]
fn command_line_defaults() {
    let c = config::parse_arguments(&args(&["main.m"])).unwrap();
    assert_eq!(c.input_file_name, Some("main.m".to_owned()));
    assert!(matches!(c.output, OutputMethod::File(ref f) if f == "a.marie"));
    assert!(c.lib.is_empty());
    let d = Config::default();
    assert!(d.input_file_name.is_none());
}

#[test]
fn command_line_flags() {
    let c = config::parse_arguments(&args(&["main.m", "-l", "a", "b", "-s"])).unwrap();
    assert_eq!(c.lib, vec!["a".to_owned(), "b".to_owned()]);
    assert!(matches!(c.output, OutputMethod::Stdout));
    assert!(!c.help_mode);
    let c = config::parse_arguments(&args(&["m", "-o", "x", "-s"])).unwrap();
    assert!(matches!(c.output, OutputMethod::Stdout));
    let c = config::parse_arguments(&args(&["m", "-s", "-o", "x"])).unwrap();
    assert!(matches!(c.output, OutputMethod::File(ref f) if f == "x"));
    let c = config::parse_arguments(&args(&["-o", "out.marie"])).unwrap();
    assert!(c.input_file_name.is_none());
    assert!(matches!(c.output, OutputMethod::File(ref f) if f == "out.marie"));
}

#[test]
fn command_line_errors() {
    assert_eq!(
        config::parse_arguments(&args(&["m", "-l"])).err(),
        Some("after -l, specify at least one lib file".to_owned())
    );
    assert_eq!(
        config::parse_arguments(&args(&["m", "-o", "a", "b"])).err(),
        Some("o argument takes exactly one value".to_owned())
    );
    assert_eq!(
        config::parse_arguments(&args(&["m", "-s", "x"])).err(),
        Some("s argument takes no values ".to_owned())
    );
    assert_eq!(
        config::parse_arguments(&args(&["m", "-s", "-s"])).err(),
        Some("Specified twice: -s".to_owned())
    );
    assert_eq!(
        config::parse_arguments(&args(&["m", "-x"])).err(),
        Some("Unknown argument kind : -x".to_owned())
    );
    assert!(config::parse_arguments(&args(&["m", "-long"])).is_err());
}

#[test]
fn argument_groups() {
    let mappers = vec![ArgumentMapping::new('a'), ArgumentMapping::new('b')];
    let parsed = argument_parser::parse_arguments(&args(&["-b", "1", "2", "-a"]), &mappers).unwrap();
    assert!(parsed.main.is_none());
    assert_eq!(parsed.flags.len(), 2);
    assert_eq!(parsed.flags[0], (1, vec!["1".to_owned(), "2".to_owned()]));
    assert_eq!(parsed.flags[1], (0, vec![]));
}

use rgu_labs_term3_discrete_math::boolean::ast::{Ast, BinOp};
use rgu_labs_term3_discrete_math::boolean::eval::{collect_vars, eval_ast, truth_table_from_ast};
use rgu_labs_term3_discrete_math::boolean::forms::{
    anf_from_truth, anf_to_str, dual_from_truth, find_fictitious, maxterm_str, minterm_str,
    remove_fictitious, sdnf_from_truth, sknf_from_truth,
};
use rgu_labs_term3_discrete_math::boolean::parser::{parse_expr, tokenize, Token};

fn names(v: &[&str]) -> Vec<String> {
    v.iter().map(|s| s.to_string()).collect()
}

fn parsed(s: &str) -> Ast {
    let tokens = tokenize(s).unwrap();
    let (ast, pos) = parse_expr(&tokens).unwrap();
    assert_eq!(pos, tokens.len());
    ast
}

#[test]
fn connectives_round_trip_through_symbols() {
    for op in [BinOp::Or, BinOp::And, BinOp::Xor, BinOp::Equiv, BinOp::Impl, BinOp::Nand, BinOp::Nor] {
        let c = op.to_str().chars().next().unwrap();
        assert_eq!(BinOp::from_char(c), Some(op));
    }
    assert_eq!(BinOp::from_char('x'), None);
    assert_eq!(BinOp::Impl.to_str(), ">");
}

#[test]
fn tokenizer_reads_variables_and_brackets() {
    let t = tokenize("[x_1 & -y_20}").unwrap();
    assert_eq!(t.len(), 6);
    assert!(matches!(t[0], Token::LParen));
    assert!(matches!(&t[1], Token::Var(v) if v == "x_1"));
    assert!(matches!(t[2], Token::Op('&')));
    assert!(matches!(t[3], Token::Op('-')));
    assert!(matches!(&t[4], Token::Var(v) if v == "y_20"));
    assert!(matches!(t[5], Token::RParen));
    assert!(tokenize("x1").is_err());
    assert!(tokenize("x_").is_err());
    assert!(tokenize("x_1 # y_1").is_err());
}

#[test]
fn parser_rejects_malformed_formulas() {
    assert!(parse_expr(&tokenize("(x_1 &").unwrap()).is_err());
    assert!(parse_expr(&tokenize("(x_1 - x_2)").unwrap()).is_err());
    assert!(parse_expr(&tokenize(")").unwrap()).is_err());
    assert!(parse_expr(&Vec::new()).is_err());
    let (_, pos) = parse_expr(&tokenize("x_1 x_2").unwrap()).unwrap();
    assert_eq!(pos, 1);
}

#[test]
fn evaluation_and_truth_table() {
    let ast = parsed("(x_1 > -x_2)");
    let env = vec![("x_1".to_string(), true), ("x_2".to_string(), true)];
    assert!(!eval_ast(&ast, &env));
    assert!(eval_ast(&ast, &Vec::new()));
    let mut vars = Vec::new();
    collect_vars(&ast, &mut vars);
    assert_eq!(vars, names(&["x_1", "x_2"]));
    assert_eq!(truth_table_from_ast(&ast, &vars), vec![1, 1, 1, 0]);
}

#[test]
fn variables_are_sorted_as_text() {
    let ast = parsed("((x_2 + x_10) @ (x_1 ~ x_2))");
    let mut vars = Vec::new();
    collect_vars(&ast, &mut vars);
    assert_eq!(vars, names(&["x_1", "x_10", "x_2"]));
}

#[test]
fn every_connective_evaluates() {
    let cases = [("+", [0, 1, 1, 1]), ("&", [0, 0, 0, 1]), ("@", [0, 1, 1, 0]), ("~", [1, 0, 0, 1]),
                 (">", [1, 1, 0, 1]), ("|", [1, 1, 1, 0]), ("!", [1, 0, 0, 0])];
    let vars = names(&["a_1", "b_1"]);
    for (op, expected) in cases {
        let ast = parsed(&format!("(a_1 {} b_1)", op));
        assert_eq!(truth_table_from_ast(&ast, &vars), expected.to_vec());
    }
}

#[test]
fn fictitious_variables_are_found_and_removed() {
    let vars = names(&["a_1", "b_1"]);
    let table = vec![0, 0, 1, 1];
    let fict = find_fictitious(&vars, &table);
    assert_eq!(fict, vec![false, true]);
    let (nv, nt) = remove_fictitious(&vars, &table, &fict);
    assert_eq!(nv, names(&["a_1"]));
    assert_eq!(nt, vec![0, 1]);
    let (nv, nt) = remove_fictitious(&vars, &vec![1, 1, 1, 1], &vec![true, true]);
    assert!(nv.is_empty());
    assert_eq!(nt, vec![1]);
}

#[test]
fn normal_forms_of_implication() {
    let vars = names(&["a_1", "b_1"]);
    let table = vec![1, 1, 0, 1];
    assert_eq!(sdnf_from_truth(&vars, &table), "(-a_1 & -b_1) + (-a_1 & b_1) + (a_1 & b_1)");
    assert_eq!(sknf_from_truth(&vars, &table), "(-a_1 + b_1)");
    let anf = anf_from_truth(&table, 2);
    assert_eq!(anf, vec![1, 0, 1, 1]);
    assert_eq!(anf_to_str(&anf, &vars), "1 @ a_1 @ a_1 & b_1");
    assert_eq!(dual_from_truth(&table, 2), vec![0, 1, 0, 0]);
    assert_eq!(sdnf_from_truth(&vars, &vec![0, 0, 0, 0]), "0");
    assert_eq!(sknf_from_truth(&vars, &vec![1, 1, 1, 1]), "1");
    assert_eq!(anf_to_str(&vec![0, 0, 0, 0], &vars), "0");
}

#[test]
fn terms_of_a_row() {
    let vars = names(&["a_1", "b_1", "c_1"]);
    assert_eq!(minterm_str(&vars, 3, 5), "a_1 & -b_1 & c_1");
    assert_eq!(maxterm_str(&vars, 3, 5), "-a_1 + b_1 + -c_1");
    assert_eq!(minterm_str(&vars, 0, 0), "1");
    assert_eq!(maxterm_str(&vars, 0, 0), "0");
}

#[test]
fn error_messages_name_the_culprit() {
    assert_eq!(tokenize("x1").unwrap_err(), "Invalid variable 'x': expected underscore after letter");
    assert_eq!(tokenize("x_").unwrap_err(), "Invalid variable 'x_': expected digits after underscore");
    assert_eq!(tokenize("a_1 # b_1").unwrap_err(), "Unexpected character in input: '#'");
    assert_eq!(parse_expr(&tokenize("(x_1 - x_2)").unwrap()).unwrap_err(), "Unknown binary operator '-'");
    assert_eq!(parse_expr(&tokenize("+").unwrap()).unwrap_err(), "Unexpected operator token '+'");
}

#[test]
fn unicode_blanks_are_skipped() {
    assert_eq!(tokenize("\u{a0}").unwrap().len(), 0);
    assert_eq!(tokenize("(x_1\u{2003}&\u{85}y_1)").unwrap().len(), 5);
}

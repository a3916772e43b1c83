use fhe_egraph::dag::{dag_to_text, DagKey};
use fhe_egraph::dag_parser::ProgramDag;
use fhe_egraph::evaluator::evaluate_dag;
use fhe_egraph::expr_parser::arithmetic_to_prefix;

const SAMPLE: &str = "n0 = a\nn1 = b\nn2 = n0 * n1\nn3 = n2 + n0\noutputs = n2, n3\n";

#[test]
fn parse_sample_program() {
    let p = ProgramDag::parse(SAMPLE).unwrap();
    assert_eq!(p.node_count(), 4);
    assert_eq!(p.output_count(), 2);
    let dag = p.to_dag().unwrap();
    assert_eq!(
        dag.nodes(),
        &[
            DagKey::Symbol("a".to_string()),
            DagKey::Symbol("b".to_string()),
            DagKey::Mul(0, 1),
            DagKey::Add(2, 0),
        ]
    );
    assert_eq!(dag.roots(), &[2, 3]);
}

#[test]
fn parse_constants_negation_and_comments() {
    let text = "# header\nn0 = 17 // seventeen\nn1 = x\nn2 = - n1\nn3 = -5\nn4 = -n1\noutput = n2\n";
    let dag = ProgramDag::parse(text).unwrap().to_dag().unwrap();
    assert_eq!(
        dag.nodes(),
        &[
            DagKey::Num(17),
            DagKey::Symbol("x".to_string()),
            DagKey::Neg(1),
            DagKey::Num(-5),
            DagKey::Symbol("-n1".to_string()),
        ]
    );
    assert_eq!(dag.roots(), &[2]);
}

#[test]
fn parse_errors() {
    assert_eq!(
        ProgramDag::parse("n0 = a\nn1 = n0 + b\noutput = n1").err().unwrap(),
        "Line 2: node `b` must be defined before it is used"
    );
    assert_eq!(ProgramDag::parse("n0 a").err().unwrap(), "Line 1: expected `=`");
    assert_eq!(ProgramDag::parse("n0 =  ").err().unwrap(), "Line 1: invalid assignment");
    assert_eq!(
        ProgramDag::parse("n0 = a\nn0 = b").err().unwrap(),
        "Line 2: node `n0` is already defined"
    );
    assert_eq!(
        ProgramDag::parse("n0 = a b c d").err().unwrap(),
        "Line 1: unsupported expression `a b c d`"
    );
    assert_eq!(
        ProgramDag::parse("n0 = a\noutput = n0, n0").err().unwrap(),
        "Line 2: `output` accepts one node; use `outputs = n1, n2, ...` for multiple outputs"
    );
    assert_eq!(
        ProgramDag::parse("n0 = a\noutputs = n0\noutputs = n0").err().unwrap(),
        "Line 3: outputs are already defined; use one `outputs = ...` declaration"
    );
    assert_eq!(
        ProgramDag::parse("n0 = a\noutputs = n7").err().unwrap(),
        "Line 2: output references undefined node `n7`"
    );
    assert_eq!(
        ProgramDag::parse("n0 = a\noutputs = , ,").err().unwrap(),
        "Line 2: expected at least one output node"
    );
    assert_eq!(
        ProgramDag::parse("n0 = a\n").err().unwrap(),
        "Program has no `output = nX` or `outputs = n1, n2, ...` declaration"
    );
}

#[test]
fn printed_dag_parses_back() {
    let dag = ProgramDag::parse(SAMPLE).unwrap().to_dag().unwrap();
    let text = dag_to_text(&dag);
    assert_eq!(
        text,
        "n0 = a\nn1 = b\nn2 = n0 * n1\nn3 = n2 + n0\n\noutputs = n2, n3\n"
    );
    let again = ProgramDag::parse(&text).unwrap().to_dag().unwrap();
    assert_eq!(again.nodes(), dag.nodes());
    assert_eq!(again.roots(), dag.roots());
}

#[test]
fn printed_negation_and_constant() {
    let dag = ProgramDag::parse("n0 = -3\nn1 = - n0\noutput = n1").unwrap().to_dag().unwrap();
    assert_eq!(dag_to_text(&dag), "n0 = -3\nn1 = - n0\n\noutputs = n1\n");
}

#[test]
fn evaluate_sample_dag() {
    let ev = evaluate_dag(&format!("  {SAMPLE}  ")).unwrap();
    assert_eq!(ev.input, SAMPLE.trim());
    assert_eq!(ev.stats.mc, 1);
    assert_eq!(ev.stats.md, 1);
    assert_eq!(ev.stats.fhe_cost, 1);
    assert_eq!(ev.stats.total_nodes, 4);
}

#[test]
fn evaluate_deep_dag() {
    let text = "n0 = a\nn1 = n0 * n0\nn2 = n1 * n1\nn3 = n2 * n0\nn4 = b\noutputs = n3, n4";
    let ev = evaluate_dag(text).unwrap();
    assert_eq!(ev.stats.mc, 3);
    assert_eq!(ev.stats.md, 3);
    assert_eq!(ev.stats.fhe_cost, 27);
    assert_eq!(ev.stats.total_nodes, 5);
}

#[test]
fn evaluate_counts_only_reachable_nodes() {
    let text = "n0 = a\nn1 = n0 * n0\nn2 = n0 + n0\noutput = n2";
    let ev = evaluate_dag(text).unwrap();
    assert_eq!(ev.stats.mc, 0);
    assert_eq!(ev.stats.md, 0);
    assert_eq!(ev.stats.total_nodes, 2);
}

#[test]
fn evaluate_reports_parse_error() {
    assert_eq!(evaluate_dag("n0 = a").err().unwrap(),
        "Program has no `output = nX` or `outputs = n1, n2, ...` declaration");
}

#[test]
fn prefix_of_sum_of_products() {
    let (name, pre) = arithmetic_to_prefix("f61624 = x3x6+x3x5+x2x6").unwrap();
    assert_eq!(name, "f61624");
    assert_eq!(pre, "(+ (* x2 x6) (+ (* x3 x5) (* x3 x6)))");
}

#[test]
fn prefix_orders_variables_numerically() {
    assert_eq!(arithmetic_to_prefix("f = x10 + x2").unwrap().1, "(+ x2 x10)");
    assert_eq!(arithmetic_to_prefix("g = x10 * x2 * x1").unwrap().1, "(* x1 (* x2 x10))");
}

#[test]
fn prefix_implicit_multiplication() {
    assert_eq!(arithmetic_to_prefix(" h = x3(x4+x5)").unwrap(), ("h".to_string(), "(* x3 (+ x4 x5))".to_string()));
}

#[test]
fn prefix_errors() {
    assert_eq!(arithmetic_to_prefix("x1 + x2").err().unwrap(), "Input must contain '='.");
    assert_eq!(arithmetic_to_prefix(" = x1").err().unwrap(), "Missing output name before '='.");
    assert_eq!(arithmetic_to_prefix("f =  ").err().unwrap(), "Expression after '=' is empty.");
    assert_eq!(
        arithmetic_to_prefix("f = y1").err().unwrap(),
        "Unexpected character 'y'. Only x<number>, +, *, (, ) are supported."
    );
    assert_eq!(
        arithmetic_to_prefix("f = x + x1").err().unwrap(),
        "Invalid variable near 'x': expected x<number>"
    );
    assert_eq!(arithmetic_to_prefix("f = (x1").err().unwrap(), "Expected ')', got None");
    assert_eq!(arithmetic_to_prefix("f = x1 +").err().unwrap(), "Expected variable or '(', got None");
    assert_eq!(arithmetic_to_prefix("f = +x1").err().unwrap(), "Expected variable or '(', got Some(Plus)");
    assert_eq!(arithmetic_to_prefix("f = x1)").err().unwrap(), "Unexpected remaining token: RParen");
    assert_eq!(
        arithmetic_to_prefix("f = (x1 + x2 x3)(").err().unwrap(),
        "Expected variable or '(', got None"
    );
    assert_eq!(
        arithmetic_to_prefix("f = (x1 x2 +)").err().unwrap(),
        "Expected variable or '(', got Some(RParen)"
    );
    assert_eq!(
        arithmetic_to_prefix("f = (x1 (x2 x3").err().unwrap(),
        "Expected ')', got None"
    );
    assert_eq!(
        arithmetic_to_prefix("f = (x1 x12 + x7").err().unwrap(),
        "Expected ')', got None"
    );
}

#[test]
fn prefix_error_names_operator_token() {
    assert_eq!(
        arithmetic_to_prefix("f = x1 * * x2").err().unwrap(),
        "Expected variable or '(', got Some(Star)"
    );
    assert_eq!(
        arithmetic_to_prefix("f = x1 + (x2))x4").err().unwrap(),
        "Unexpected remaining token: RParen"
    );
}

#[test]
fn commented_program_round_trips() {
    let src = "first = alpha   # input\nsecond = first * first // square\n\noutputs = second, first\n";
    let dag = ProgramDag::parse(src).unwrap().to_dag().unwrap();
    let text = dag_to_text(&dag);
    assert_eq!(text, "n0 = alpha\nn1 = n0 * n0\n\noutputs = n1, n0\n");
    let again = ProgramDag::parse(&text).unwrap().to_dag().unwrap();
    assert_eq!(again.nodes(), dag.nodes());
    assert_eq!(again.roots(), dag.roots());
}

#[test]
fn normal_form_ignores_order_and_grouping() {
    let p = |s: &str| arithmetic_to_prefix(s).unwrap().1;
    assert_eq!(p("f = x1+x2"), p("f = x2+x1"));
    assert_eq!(p("f = x1*x2"), p("f = x2*x1"));
    assert_eq!(p("f = (x1+x2)+x3"), p("f = x1+(x2+x3)"));
    assert_eq!(p("f = (x1*x2)*x3"), p("f = x1*(x2*x3)"));
    assert_eq!(p("f = (x1*x2)+x3"), p("f = x3+(x2*x1)"));
    assert_eq!(p("f = (x1*x2)+x3"), "(+ x3 (* x1 x2))");
}

#[test]
fn normal_form_is_a_fixed_point() {
    let once = arithmetic_to_prefix("f = x3x1+x2").unwrap().1;
    assert_eq!(once, "(+ x2 (* x1 x3))");
    // The same normal form written back as a formula.
    assert_eq!(arithmetic_to_prefix("f = x2+(x1*x3)").unwrap().1, once);
}

#[test]
fn terms_with_equal_keys_keep_their_order() {
    assert_eq!(arithmetic_to_prefix("f = x01+x1").unwrap().1, "(+ x01 x1)");
    assert_eq!(arithmetic_to_prefix("f = x1+x01").unwrap().1, "(+ x1 x01)");
}

#[test]
fn appended_comments_change_nothing() {
    let plain = "n0 = a\nn1 = n0 * n0\noutputs = n1\n";
    let hashed = "n0 = a # the input\nn1 = n0 * n0\noutputs = n1 # result\n";
    let slashed = "n0 = a\nn1 = n0 * n0 // square\noutputs = n1\n";
    let d0 = ProgramDag::parse(plain).unwrap().to_dag().unwrap();
    for text in [hashed, slashed] {
        let d = ProgramDag::parse(text).unwrap().to_dag().unwrap();
        assert_eq!(d.nodes(), d0.nodes());
        assert_eq!(d.roots(), d0.roots());
    }
    // An error stays the same error.
    assert_eq!(
        ProgramDag::parse("n0 = q + r # c\noutputs = n0").err().unwrap(),
        ProgramDag::parse("n0 = q + r\noutputs = n0").err().unwrap()
    );
}

#[test]
fn one_node_per_definition_line() {
    let text = "n0 = a\n\n# only a comment\n   // another\nn1 = n0 + n0 // sum\noutputs = n1\n";
    assert_eq!(ProgramDag::parse(text).unwrap().node_count(), 2);
}

#[test]
fn comments_change_nothing_in_crlf_text_and_last_lines() {
    let plain = "n0 = a\r\nn1 = n0 * n0\r\noutputs = n1";
    let commented = "n0 = a # in\r\nn1 = n0 * n0 // sq\r\noutputs = n1 # with\r a carriage return";
    let d0 = ProgramDag::parse(plain).unwrap().to_dag().unwrap();
    let d1 = ProgramDag::parse(commented).unwrap().to_dag().unwrap();
    assert_eq!(d1.nodes(), d0.nodes());
    assert_eq!(d1.roots(), d0.roots());
}

#[test]
fn parenthesized_operands_commute_and_regroup() {
    let p = |s: &str| arithmetic_to_prefix(s).unwrap();
    assert_eq!(p("f = (x1+x2x3)+(x4)"), p("f = (x4)+(x1+x2x3)"));
    assert_eq!(p("f = (x1+x2)*(x3)"), p("f = (x3)*(x1+x2)"));
    assert_eq!(p("g = ((x1)+(x2))+(x3*x4)"), p("g = (x1)+((x2)+(x3*x4))"));
    assert_eq!(p("g = ((x5)*(x2))*(x3+x4)"), p("g = (x5)*((x2)*(x3+x4))"));
    assert_eq!(p("g = ((x5)*(x2))*(x3+x4)").1, "(* x2 (* x5 (+ x3 x4)))");
}

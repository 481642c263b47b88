use nim_spice::circuit::{Circuit, Model, Node, SimulationType};
use nim_spice::error::{Error, ErrorType};
use nim_spice::lexer::Lexer;
use nim_spice::literal::Decimal;
use nim_spice::parser::{Parser, parse_netlist};

fn parse(src: &str) -> (Circuit, Vec<Error>) {
    let (cards, lex_errors) = Lexer::new(src.to_string()).scan();
    assert!(!lex_errors.has_errors());
    let mut p = Parser::new(cards);
    let c = p.parse();
    let errors = p
        .errors()
        .errors()
        .iter()
        .map(|e| Error::new(e.error_type, e.message.clone(), e.line, e.column))
        .collect();
    (c, errors)
}

fn value(d: &Decimal) -> f64 {
    let mut m = 0f64;
    for x in &d.digits {
        m = m * 10.0 + *x as f64;
    }
    let mut e = d.exponent as f64;
    if let Some(p) = &d.power {
        let mut w = 0f64;
        for x in &p.whole {
            w = w * 10.0 + *x as f64;
        }
        let mut scale = 0.1;
        for x in &p.fraction {
            w += *x as f64 * scale;
            scale /= 10.0;
        }
        e += if p.negative { -w } else { w };
    }
    m * 10f64.powf(e)
}

/// `m × 10^e` in the crate's exact form (with no exponent kept as written).
fn dec(m: u128, e: i128) -> Decimal {
    let mut digits: Vec<u8> = m.to_string().bytes().map(|b| b - b'0').collect();
    let mut e = e;
    if m == 0 {
        return Decimal::zero();
    }
    while digits.last() == Some(&0) {
        digits.pop();
        e += 1;
    }
    Decimal { digits, exponent: e, power: None }
}

fn same(a: &Decimal, b: &Decimal) -> bool {
    a.same(b)
}

fn model_value(m: &Model) -> &Decimal {
    match m {
        Model::Resistor(v)
        | Model::Capacitor(v)
        | Model::Inductor(v)
        | Model::VoltageSource(v)
        | Model::CurrentSource(v) => v,
        Model::Subcircuit => panic!("no value"),
    }
}

fn close(a: f64, b: f64) -> bool {
    (a - b).abs() <= 1e-12 * b.abs().max(1e-300)
}

fn literal(text: &str) -> (Decimal, Vec<Error>) {
    let (c, e) = parse(&format!("R1 a b {}\n", text));
    let v = match &c.components[0].model {
        Model::Resistor(v) => v.duplicate(),
        _ => panic!("not a resistor"),
    };
    (v, e)
}

#[test]
fn unit_scaling() {
    let (v, e) = literal("1K");
    assert!(e.is_empty());
    assert!(same(&v, &dec(1, 3)), "{:?}", v);
    assert!(close(value(&v), 1000.0));
    let (v, _) = literal("1MEG");
    assert!(close(value(&v), 1e6));
    let (v, _) = literal("1M");
    assert!(close(value(&v), 1e-3));
    let (v, e) = literal("1SADF");
    assert!(e.is_empty());
    assert!(same(&v, &dec(1, 0)), "{:?}", v);
    assert!(close(value(&v), 1.0));
    let (v, _) = literal("10UF");
    assert!(same(&v, &dec(1, -5)), "{:?}", v);
    let (v, _) = literal("3MEGOHM");
    assert!(same(&v, &dec(3, 6)), "{:?}", v);
    // the table's keys are upper case: a lower-case suffix leaves the value as is
    let (v, e) = literal("10uF");
    assert!(e.is_empty());
    assert!(same(&v, &dec(1, 1)), "{:?}", v);
    let (v, _) = literal("1m");
    assert!(same(&v, &dec(1, 0)), "{:?}", v);
    let (v, _) = literal("3meg");
    assert!(same(&v, &dec(3, 0)), "{:?}", v);
}

#[test]
fn exponent_value() {
    let (v, e) = literal("1.2E3");
    assert!(e.is_empty());
    assert!(same(&v, &dec(12, 2)), "{:?}", v);
    assert!(close(value(&v), 1200.0));
    let (v, _) = literal("13.12e6m");
    assert!(same(&v, &dec(1312, 4)), "{:?}", v);
    let (v, _) = literal("13.12e6M");
    assert!(same(&v, &dec(1312, 1)), "{:?}", v);
    let (v, _) = literal("5e-3");
    assert!(same(&v, &dec(5, -3)), "{:?}", v);
    let (v, _) = literal("2.50E+1");
    assert!(same(&v, &dec(25, 0)), "{:?}", v);
    let (v, _) = literal("1000");
    assert!(same(&v, &dec(1, 3)), "{:?}", v);
    let (v, _) = literal("0.0");
    assert!(same(&v, &dec(0, 0)), "{:?}", v);
}

#[test]
fn literal_errors() {
    let (_, e) = parse("R1 a b K\n");
    assert_eq!(e.len(), 1);
    assert_eq!(e[0].message, "Expected number");
    let (v, e) = literal("4E");
    assert_eq!(e[0].message, "Expected number after E");
    assert!(same(&v, &dec(4, 0)), "{:?}", v);
    assert_eq!(e[0].error_type, ErrorType::Syntax);
}

#[test]
fn fractional_exponent_is_exact() {
    let (v, e) = literal("1E3.4");
    assert!(e.is_empty());
    assert_eq!(v.digits, vec![1]);
    assert_eq!(v.exponent, 0);
    let p = v.power.as_ref().unwrap();
    assert!(!p.negative);
    assert_eq!((p.whole.clone(), p.fraction.clone()), (vec![3], vec![4]));
    assert!(close(value(&v), 10f64.powf(3.4)));
    let (v, e) = literal("2.5E-0.50K");
    assert!(e.is_empty());
    assert_eq!(v.digits, vec![2, 5]);
    assert_eq!(v.exponent, 2);
    let p = v.power.as_ref().unwrap();
    assert!(p.negative);
    assert_eq!((p.whole.clone(), p.fraction.clone()), (vec![], vec![5]));
    // a fraction of zeros is an integer exponent
    let (v, _) = literal("1E3.000");
    assert!(same(&v, &dec(1, 3)));
}

#[test]
fn devices_and_nodes() {
    let (c, e) = parse("R1 a 0 1K\nC1 a GND 1U\nL1 b VDD 1N\nV1 b a 5\nI1 a b 2M\n");
    assert!(e.is_empty());
    assert_eq!(c.nodes, vec!["a".to_string(), "b".to_string()]);
    assert_eq!(c.components.len(), 5);
    assert_eq!(c.components[0].terminals, vec![Node::Net(0), Node::Ground]);
    assert_eq!(c.components[1].terminals, vec![Node::Net(0), Node::Ground]);
    assert_eq!(c.components[2].terminals, vec![Node::Net(1), Node::Vdd]);
    assert!(matches!(c.components[3].model, Model::VoltageSource(_)));
    assert!(same(model_value(&c.components[3].model), &dec(5, 0)));
    assert!(matches!(c.components[4].model, Model::CurrentSource(_)));
    assert!(same(model_value(&c.components[4].model), &dec(2, -3)));
    assert_eq!(c.components[4].owner, None);
}

#[test]
fn card_shape_errors() {
    let (c, e) = parse("R1 a\nR2 a b 1 2\nQ1 a b c\n= 1\n");
    assert!(c.components.is_empty());
    let m: Vec<&str> = e.iter().map(|e| e.message.as_str()).collect();
    assert_eq!(
        m,
        vec![
            "Expected node",
            "Unexpected token",
            "Unknown leading character: Q",
            "Unknown leading character: ="
        ]
    );
    assert!(e.iter().all(|e| e.error_type == ErrorType::Syntax));
    assert_eq!((e[1].line, e[1].column), (2, 10));
}

#[test]
fn duplicate_component() {
    let (c, e) = parse("R1 a b 1\nR1 b c 2\n");
    assert_eq!(c.components.len(), 1);
    assert_eq!(e.len(), 1);
    assert_eq!(e[0].error_type, ErrorType::Semantic);
    assert_eq!(e[0].message, "Duplicate definition: R1");
    assert_eq!((e[0].line, e[0].column), (2, 1));
}

#[test]
fn same_node_name_in_two_subcircuits() {
    let src = ".subckt A 1 2\nR1 1 2 1K\n.ends\n.subckt B 1 2\nR1 1 2 2K\n.ends\nX1 a b A\nX2 a b B\n";
    let (c, e) = parse(src);
    assert!(e.is_empty(), "{:?}", e);
    assert_eq!(c.subcircuits.len(), 2);
    assert_eq!(c.subcircuits[0].ports, vec![Node::Net(0), Node::Net(1)]);
    assert_eq!(c.subcircuits[1].ports, vec![Node::Net(2), Node::Net(3)]);
    assert_eq!(c.components[0].owner, Some(0));
    assert_eq!(c.components[1].owner, Some(1));
    assert!(matches!(c.components[2].model, Model::Subcircuit));
    assert_eq!(c.components[2].callee, "A");
    assert_eq!(c.components[2].owner, None);
}

#[test]
fn forward_and_undefined_references() {
    let src = "X1 a b OSC\nX2 a b NOPE\n.subckt OSC 1 2\nX3 1 2 MISSING\n.ends\n";
    let (_, e) = parse(src);
    let m: Vec<(&str, usize)> = e.iter().map(|e| (e.message.as_str(), e.line)).collect();
    assert_eq!(m, vec![("Undefined symbol: NOPE", 2), ("Undefined symbol: MISSING", 4)]);
    assert!(e.iter().all(|e| e.error_type == ErrorType::Semantic));
}

#[test]
fn subcircuit_defined_after_use_inside_body() {
    let src = ".subckt TOP 1\nX1 1 LEAF\n.ends\n.subckt LEAF 1\n.ends\n";
    let (_, e) = parse(src);
    assert!(e.is_empty());
}

#[test]
fn unclosed_subcircuit() {
    let src = "R1 a b 1\n.subckt S 1 2\nR2 1 2 3\nC1 1 2 4\n";
    let (c, e) = parse(src);
    assert_eq!(e.len(), 1);
    assert_eq!(e[0].error_type, ErrorType::Syntax);
    assert_eq!(e[0].message, "Unclosed subcircuit: S");
    assert_eq!((e[0].line, e[0].column), (2, 1));
    assert_eq!(c.components.len(), 3);
    assert_eq!(c.components[2].owner, Some(0));
}

#[test]
fn stray_ends_and_bad_subckt() {
    let (_, e) = parse(".ends\n.subckt\n.subckt S 1 (\n.subckt T 1 1\n.ends x\n.ends\n");
    let m: Vec<&str> = e.iter().map(|e| e.message.as_str()).collect();
    assert_eq!(
        m,
        vec![
            "Unmatched .ends",
            "Expected subcircuit name",
            "Expected node",
            "Duplicate definition: 1",
            "Unexpected token"
        ]
    );
}

#[test]
fn bad_invocation() {
    let (c, e) = parse("X1 a b 3\nX2\nX3 a ( S\n");
    assert!(c.components.is_empty());
    let m: Vec<&str> = e.iter().map(|e| e.message.as_str()).collect();
    assert_eq!(m, vec!["Expected subcircuit name", "Expected subcircuit name", "Expected node"]);
}

#[test]
fn simulation_directives() {
    let (c, e) = parse(".tran 1U 10M\n.tran 1U 10M\n");
    assert!(e.is_empty());
    let p = &c.sim_params;
    assert_eq!(p.sim_type, Some(SimulationType::TRAN));
    assert!(same(p.time_step.as_ref().unwrap(), &dec(1, -6)));
    assert!(same(p.stop_time.as_ref().unwrap(), &dec(1, -2)));
    let (c, e) = parse(".tran 1U 10M\n.tran 2U 10M\n.ac 1 1K\n.op extra\n");
    let m: Vec<&str> = e.iter().map(|e| e.message.as_str()).collect();
    assert_eq!(
        m,
        vec!["Conflicting simulation parameter", "Conflicting simulation directive", "Unexpected token"]
    );
    assert_eq!(e[0].error_type, ErrorType::Semantic);
    assert!(same(c.sim_params.time_step.as_ref().unwrap(), &dec(1, -6)));
    let (c, e) = parse(".ac 10 1MEG\n.plot V(a)\n.wave V(b)\n");
    assert!(e.is_empty());
    assert_eq!(c.sim_params.sim_type, Some(SimulationType::AC));
    assert!(same(c.sim_params.stop_freq.as_ref().unwrap(), &dec(1, 6)));
    let (_, e) = parse(".tran 10M\n");
    assert_eq!(e[0].message, "Expected number");
    let (c, e) = parse(".dc V1 0 5 0.1\n");
    assert!(e.is_empty());
    assert_eq!(c.sim_params.sim_type, Some(SimulationType::DC));
}

#[test]
fn parsing_stops_at_end() {
    let (c, e) = parse("R1 a b 1\n.end\n");
    assert!(e.is_empty());
    assert_eq!(c.components.len(), 1);
}

#[test]
fn parse_num_reads_at_cursor() {
    let (cards, _) = Lexer::new("2.5K rest".to_string()).scan();
    let mut p = Parser::new(cards);
    let v = p.parse_num();
    assert!(same(&v, &dec(25, 2)), "{:?}", v);
    assert!(!p.errors().has_errors());
    let v = p.parse_num();
    assert!(same(&v, &dec(0, 0)), "{:?}", v);
    assert!(p.errors().has_errors());
}

#[test]
fn netlist_errors_lexical_then_parse() {
    let (c, e) = parse_netlist("R1 a b 1K\nC1 a $ 1\n.subckt S 1\nX9 1 S\n".to_string());
    let m: Vec<String> = e.errors().iter().map(|e| e.format()).collect();
    assert_eq!(
        m,
        vec![
            "[Lexical Error] Line: 2, Column: 6: Unexpected character: $",
            "[Syntax Error] Line: 2, Column: 8: Expected number",
            "[Syntax Error] Line: 3, Column: 1: Unclosed subcircuit: S",
        ]
    );
    // the bad value is read as 0 and the card still registers
    assert_eq!(c.components.len(), 3);
    assert!(matches!(c.components[1].model, Model::Capacitor(_)));
    assert!(same(model_value(&c.components[1].model), &Decimal::zero()));
    assert_eq!(c.components[2].name, "X9");
    assert_eq!(c.components[2].owner, Some(0));
}

#[test]
fn duplicate_subcircuit_name() {
    let (c, e) = parse(".subckt S 1\n.ends\n.subckt S 2\n.ends\n");
    assert_eq!(e.len(), 1);
    assert_eq!(e[0].message, "Duplicate definition: S");
    assert_eq!((e[0].line, e[0].column), (3, 9));
    assert_eq!(c.subcircuits.len(), 2);
}

#[test]
fn long_literals_are_exact() {
    let (v, e) = literal("99999999999999999999");
    assert!(e.is_empty());
    assert_eq!(v.digits, vec![9; 20]);
    assert_eq!(v.exponent, 0);
    let (v, e) = literal("123456789012345678901234567890000.5");
    assert!(e.is_empty());
    assert_eq!(v.digits.len(), 34);
    assert_eq!(v.exponent, -1);
    let (v, e) = literal("1E99999999999999999999");
    assert!(e.is_empty());
    assert_eq!(v.exponent, 0);
    assert_eq!(v.power.as_ref().unwrap().whole, vec![9; 20]);
    let (v, e) = literal("1E999999999999999999K");
    assert!(e.is_empty());
    assert_eq!(v.exponent, 999999999999999999 + 3);
    let (v, _) = literal("0000.000E7");
    assert!(same(&v, &Decimal::zero()));
}

#[test]
fn lowercase_leading_letter_is_unknown() {
    let (c, e) = parse("r1 a b 1K\nx1 a b S\nR1 a b 1K\n");
    assert_eq!(c.components.len(), 1);
    let m: Vec<&str> = e.iter().map(|e| e.message.as_str()).collect();
    assert_eq!(m, vec!["Unknown leading character: r", "Unknown leading character: x"]);
}

#[test]
fn decimal_copies_and_compares() {
    let a = dec(1200, -2);
    assert_eq!(a.digits, vec![1, 2]);
    assert_eq!(a.exponent, 0);
    assert!(same(&a.duplicate(), &a));
    assert!(!same(&a, &dec(12, 1)));
}

#[test]
fn error_after_exponent_sign_points_at_the_sign() {
    let (_, e) = parse("R1 a b 2E+ x\n");
    assert_eq!(e[0].message, "Expected number after E");
    assert_eq!((e[0].line, e[0].column), (1, 10));
    let (_, e) = parse("R1 a b 2E x\n");
    assert_eq!(e[0].message, "Expected number after E");
    assert_eq!((e[0].line, e[0].column), (1, 11));
}

#[test]
fn names_are_unique_across_kinds() {
    let (_, e) = parse("R1 a b 1\n.subckt R1 1\n.ends\n");
    assert_eq!(e.len(), 1);
    assert_eq!(e[0].message, "Duplicate definition: R1");
    assert_eq!((e[0].line, e[0].column), (2, 9));
    let (c, e) = parse("R1 R1 0 1\nX1 a 0 S\nR2 X1 0 1\n.subckt S 1 2\n.ends\n");
    let m: Vec<(&str, usize, usize)> = e.iter().map(|e| (e.message.as_str(), e.line, e.column)).collect();
    assert_eq!(m, vec![("Duplicate definition: R1", 1, 4), ("Duplicate definition: X1", 3, 4)]);
    assert_eq!(c.components.len(), 1);
    assert_eq!(c.components[0].name, "X1");
    // a node first, then a component of the same name
    let (_, e) = parse("R1 n1 0 1\nN1 a b 1\nC1 n1 0 1\n");
    assert_eq!(e[0].message, "Unknown leading character: N");
    let (_, e) = parse("R1 C1 0 1\nC1 a 0 1\n");
    assert_eq!(e[0].message, "Duplicate definition: C1");
}

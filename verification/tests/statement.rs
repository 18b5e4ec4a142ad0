use partitioned_gc::psg::{
    build_regexp, chars_of, circuit_gen, extractor_o, extractor_v, hash_variables,
    karnaugh_optimize, occurs_in, polylithic_syntax_gen, to_hex, LogicExpression, Operator,
};
use sha2::{Digest, Sha256};

const START: &str = "cced28c6dc3f99c2396a5eaad732bf6b28142335892b1cd0e6af6cdb53f5ccfa";
const BRAKE: &str = "876797249822df52fd57ad8a506093acec21dd5967cad35984af03762560b906";

fn names(input: &str) -> Vec<String> {
    extractor_v(input).iter().map(|v| v.name().clone()).collect()
}

#[test]
fn quoted_words_are_variables() {
    let input =
        r#"The car only starts if the "start" button is pressed and the "brake" pedal is pressed"#;
    assert_eq!(names(input), vec!["start", "brake"]);
}

#[test]
fn words_are_split_at_any_white_space() {
    assert_eq!(names("\"a\"\t\"b\"\n\"c\"  \u{2003}\"d\""), vec!["a", "b", "c", "d"]);
    assert_eq!(names("  \"a\"  "), vec!["a"]);
    assert_eq!(names(""), Vec::<String>::new());
    assert_eq!(names("   "), Vec::<String>::new());
    assert_eq!(names("\"two words\""), Vec::<String>::new());
}

#[test]
fn quotes_are_trimmed_at_both_ends_only() {
    assert_eq!(names(r#""""a""" "b"c" """#), vec!["a", "b\"c", ""]);
    assert_eq!(names(r#"a" "b x"y"#), Vec::<String>::new());
    assert_eq!(names("\"\u{e9}t\u{e9}\""), vec!["\u{e9}t\u{e9}"]);
}

#[test]
fn connectives_are_found_anywhere() {
    assert_eq!(extractor_o("a and b"), vec![Operator::And]);
    assert_eq!(extractor_o("a or b"), vec![Operator::Or]);
    assert_eq!(extractor_o("a xor b"), vec![Operator::Or, Operator::Xor]);
    assert_eq!(extractor_o("xor band"), vec![Operator::And, Operator::Or, Operator::Xor]);
    assert_eq!(extractor_o("for sand"), vec![Operator::And, Operator::Or]);
    assert_eq!(extractor_o("AND OR"), Vec::<Operator>::new());
    assert_eq!(extractor_o(""), Vec::<Operator>::new());
}

#[test]
fn occurrence_of_a_pattern() {
    let text = chars_of("garbled");
    assert_eq!(text, vec!['g', 'a', 'r', 'b', 'l', 'e', 'd']);
    assert!(occurs_in(&text, &chars_of("garbled")));
    assert!(occurs_in(&text, &chars_of("led")));
    assert!(occurs_in(&text, &chars_of("g")));
    assert!(occurs_in(&text, &chars_of("")));
    assert!(!occurs_in(&text, &chars_of("garbledx")));
    assert!(!occurs_in(&text, &chars_of("rbd")));
    assert!(occurs_in(&chars_of(""), &chars_of("")));
    assert!(!occurs_in(&chars_of(""), &chars_of("a")));
    assert!(occurs_in(&chars_of("aab"), &chars_of("ab")));
}

#[test]
fn hexadecimal_is_lower_case_two_digits_a_byte() {
    assert_eq!(to_hex(&[0x00, 0x0f, 0xa0, 0xff, 0x3c]), "000fa0ff3c");
    assert_eq!(to_hex(&[]), "");
}

#[test]
fn variables_are_hidden_behind_digests() {
    let vars = extractor_v(r#""start" "brake""#);
    assert_eq!(hash_variables(&vars), vec![START, BRAKE]);
    let want = format!("{:x}", Sha256::digest("\u{e9}".as_bytes()));
    assert_eq!(hash_variables(&extractor_v("\"\u{e9}\"")), vec![want]);
}

fn strings(v: &[&str]) -> Vec<String> {
    v.iter().map(|s| s.to_string()).collect()
}

#[test]
fn expression_puts_operator_i_after_variable_i() {
    assert_eq!(build_regexp(&strings(&["a", "b"]), &vec![Operator::And]), "(a) && (b)");
    assert_eq!(
        build_regexp(&strings(&["a", "b", "c"]), &vec![Operator::Or, Operator::Xor]),
        "(a) || (b) ^ (c)"
    );
    assert_eq!(build_regexp(&strings(&["a"]), &vec![Operator::Xor]), "(a) ^ ");
    assert_eq!(build_regexp(&strings(&["a", "b"]), &vec![]), "(a)(b)");
    assert_eq!(build_regexp(&strings(&[]), &vec![Operator::And]), "");
    assert_eq!(
        build_regexp(
            &strings(&["a", "b", "c", "d"]),
            &vec![Operator::And, Operator::Or, Operator::Xor]
        ),
        "(a) && (b) || (c) ^ (d)"
    );
}

#[test]
fn logic_expression_holds_what_it_was_given() {
    let e = LogicExpression::new(strings(&["x", "y"]), vec![Operator::Xor]);
    assert_eq!(e.variables(), &strings(&["x", "y"]));
    assert_eq!(e.operators(), &vec![Operator::Xor]);
}

#[test]
fn circuit_description_wraps_expression() {
    let c = circuit_gen("(a) && (b)");
    assert_eq!(c.gates(), &strings(&["circuit((a) && (b))"]));
    let c = karnaugh_optimize(c);
    assert_eq!(c.gates(), &strings(&["circuit((a) && (b))"]));
    assert_eq!(circuit_gen("").gates(), &strings(&["circuit()"]));
}

#[test]
fn statement_compiles_to_one_gate() {
    let input =
        r#"The car only starts if the "start" button is pressed and the "brake" pedal is pressed"#;
    let circuit = polylithic_syntax_gen(input);
    assert_eq!(circuit.gates(), &vec![format!("circuit(({}) && ({}))", START, BRAKE)]);
    assert_eq!(polylithic_syntax_gen("nothing here").gates(), &strings(&["circuit()"]));
}

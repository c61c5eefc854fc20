use flexlint::lint::{CheckedState, Rule, RuleSet};

static C_SRC: &'static str = r#"
int test() {
    int hoge = 0;

    if ( hoge )
        return 1;

    if ( hoge ) return 1;

    if ( hoge ) {
        return 1;
    }

    // if ( hoge )
    //     return 1;

    /*
    if ( hoge )
        return 1;
    */
}
        "#;

static VERILOG_SRC: &'static str = r#"
module test ();

    wire clk;
    wire rst;

    reg reg1;
    always @ ( posedge clk ) begin
        reg1 <= 0;
    end

    reg reg2;
    always_ff @ ( posedge clk or negedge rst ) begin
        if ( rst )
            reg2 <= 0;
        else
            reg2 <= 1;
    end

    reg reg3;
    always_comb begin
        reg3 = reg0 | reg1;
    end

endmodule
        "#;

fn c_rule() -> Rule {
    Rule::new(
        String::from("'if' with brace"),
        r"(?m)(^|[\t ])if\s",
        None,
        Some(r"(?m)(^|[\t ])if\s[^;{]*$"),
        Some(r"(/\*/?([^/]|[^*]/)*\*/)|(//.*\n)"),
        String::from("multiline 'if' must have brace"),
        vec![String::from("**/*.c"), String::from("**/*.cpp")],
    )
    .unwrap()
}

fn verilog_rule() -> Rule {
    Rule::new(
        String::from("'if' with 'begin'"),
        r"(?m)(^|[\t ])if\s",
        Some(r"(?m)(^|[\t ])if\s*\([^)]*\)\s*begin"),
        None,
        Some(r"(/\*/?([^/]|[^*]/)*\*/)|(//.*\n)"),
        String::from("'if' statement must have 'begin'"),
        vec![String::from("**/*.v"), String::from("**/*.sv")],
    )
    .unwrap()
}

#[test]
fn test_gen_ignore() {
    let rule = c_rule();
    let ignore = rule.gen_ignore(&C_SRC);
    assert_eq!(ignore.len(), 3);
    assert_eq!(ignore[0], (142, 157));
    assert_eq!(ignore[1], (161, 178));
    assert_eq!(ignore[2], (183, 226));
}

#[test]
fn test_gen_checked_with_required() {
    let rule = verilog_rule();
    let ignore = rule.gen_ignore(&VERILOG_SRC);
    let checked = rule.gen_checked("", &VERILOG_SRC, &ignore);
    assert_eq!(checked.len(), 1);
    assert_eq!(checked[0].state, CheckedState::Fail);
    assert_eq!(checked[0].beg, 198);
    assert_eq!(checked[0].end, 202);
}

#[test]
fn test_gen_checked_with_forbidden() {
    let rule = c_rule();
    let ignore = rule.gen_ignore(&C_SRC);
    let checked = rule.gen_checked("", &C_SRC, &ignore);
    assert_eq!(checked.len(), 5);
    assert_eq!(checked[0].state, CheckedState::Fail);
    assert_eq!(checked[0].beg, 36);
    assert_eq!(checked[0].end, 40);
    assert_eq!(checked[1].state, CheckedState::Pass);
    assert_eq!(checked[1].beg, 71);
    assert_eq!(checked[1].end, 75);
    assert_eq!(checked[2].state, CheckedState::Pass);
    assert_eq!(checked[2].beg, 98);
    assert_eq!(checked[2].end, 102);
    assert_eq!(checked[3].state, CheckedState::Skip);
    assert_eq!(checked[3].beg, 144);
    assert_eq!(checked[3].end, 148);
    assert_eq!(checked[4].state, CheckedState::Skip);
    assert_eq!(checked[4].beg, 189);
    assert_eq!(checked[4].end, 193);
}

#[test]
fn test_span_within_text() {
    let rule = c_rule();
    let ignore = rule.gen_ignore(&C_SRC);
    let checked = rule.gen_checked("a.c", &C_SRC, &ignore);
    for c in &checked {
        assert!(c.beg <= c.end);
        assert!(c.end <= C_SRC.len());
    }
}

#[test]
fn test_no_companions_all_pass() {
    let rule = Rule::new(
        String::from("presence"),
        r"(?m)(^|[\t ])if\s",
        None,
        None,
        None,
        String::from("just counts"),
        vec![String::from("**/*.c")],
    )
    .unwrap();
    let ignore = rule.gen_ignore(&C_SRC);
    assert!(ignore.is_empty());
    let checked = rule.gen_checked("a.c", &C_SRC, &ignore);
    assert_eq!(checked.len(), 5);
    for c in &checked {
        assert_eq!(c.state, CheckedState::Pass);
    }
}

#[test]
fn test_ignore_dominates_companions() {
    let rule = Rule::new(
        String::from("dominates"),
        r"(?m)(^|[\t ])if\s",
        Some(r"never_matches_anything_xyzzy"),
        None,
        Some(r"(/\*/?([^/]|[^*]/)*\*/)|(//.*\n)"),
        String::from("h"),
        vec![],
    )
    .unwrap();
    let ignore = rule.gen_ignore(&C_SRC);
    let checked = rule.gen_checked("a.c", &C_SRC, &ignore);
    assert_eq!(checked.len(), 5);
    assert_eq!(checked[3].state, CheckedState::Skip);
    assert_eq!(checked[4].state, CheckedState::Skip);
    assert_eq!(checked[0].state, CheckedState::Fail);
}

#[test]
fn test_rule_new_invalid_pattern() {
    let r = Rule::new(
        String::from("broken"),
        r"(unclosed",
        None,
        None,
        None,
        String::from("h"),
        vec![],
    );
    assert!(r.is_err());
    let r2 = Rule::new(
        String::from("broken companion"),
        r"if",
        Some(r"(unclosed"),
        None,
        None,
        String::from("h"),
        vec![],
    );
    assert!(r2.is_err());
}

#[test]
fn test_rule_check_concatenates_files() {
    let rule = c_rule();
    let files = vec![
        (String::from("b.c"), String::from(C_SRC)),
        (String::from("a.c"), String::from(C_SRC)),
    ];
    let checked = rule.check(&files);
    assert_eq!(checked.len(), 10);
    assert_eq!(checked[0].path, "b.c");
    assert_eq!(checked[0].beg, 36);
    assert_eq!(checked[5].path, "a.c");
    assert_eq!(checked[5].beg, 36);
}

#[test]
fn test_ruleset_check_rule_major_order() {
    let rs = RuleSet { rules: vec![c_rule(), verilog_rule()] };
    let files = vec![
        vec![(String::from("a.c"), String::from(C_SRC))],
        vec![(String::from("t.sv"), String::from(VERILOG_SRC))],
    ];
    let checked = rs.check(&files);
    assert_eq!(checked.len(), 6);
    assert_eq!(checked[0].name, "'if' with brace");
    assert_eq!(checked[5].name, "'if' with 'begin'");
    assert_eq!(checked[5].beg, 198);
}

#[test]
fn test_evaluator_deterministic() {
    let files = || vec![vec![(String::from("a.c"), String::from(C_SRC))]];
    let r1 = RuleSet { rules: vec![c_rule()] }.check(&files());
    let r2 = RuleSet { rules: vec![c_rule()] }.check(&files());
    assert_eq!(r1, r2);
}

#[test]
fn test_checked_carries_rule_fields() {
    let rule = c_rule();
    let ignore = rule.gen_ignore(&C_SRC);
    let checked = rule.gen_checked("x/y.c", &C_SRC, &ignore);
    assert_eq!(checked[0].path, "x/y.c");
    assert_eq!(checked[0].name, "'if' with brace");
    assert_eq!(checked[0].hint, "multiline 'if' must have brace");
}

#[test]
fn test_required_satisfied_passes() {
    let rule = verilog_rule();
    let src = "  if (x) begin\n";
    let ignore = rule.gen_ignore(src);
    let checked = rule.gen_checked("t.sv", src, &ignore);
    assert_eq!(checked.len(), 1);
    assert_eq!(checked[0].beg, 1);
    assert_eq!(checked[0].end, 5);
    assert_eq!(checked[0].state, CheckedState::Pass);
}

#[test]
fn test_empty_matches_advance() {
    let rule = Rule::new(
        String::from("empty"),
        r"x*",
        None,
        None,
        None,
        String::from("h"),
        vec![],
    )
    .unwrap();
    let ignore = rule.gen_ignore("ab");
    let checked = rule.gen_checked("a.c", "ab", &ignore);
    assert_eq!(checked.len(), 3);
    for (i, c) in checked.iter().enumerate() {
        assert_eq!(c.beg, i);
        assert_eq!(c.end, i);
        assert_eq!(c.state, CheckedState::Pass);
    }
}

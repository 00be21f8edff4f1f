use confy::Generator;

fn gen(items: &[(&str, &str)]) -> Generator {
    let raw: Vec<(String, String)> = items.iter().map(|(k, v)| (k.to_string(), v.to_string())).collect();
    Generator::new(&raw, &Vec::new())
}

fn line(g: &Generator, input: &str) -> (String, u32) {
    let mut out = String::new();
    let n = g.process_line(&input.to_string(), &mut out);
    (out, n)
}

#[test]
fn substitutes_a_defined_name() {
    let g = gen(&[("foo", "bar")]);
    assert_eq!(line(&g, "x=${{ foo }}"), ("x=bar\n".to_string(), 1));
}

#[test]
fn undefined_name_passes_through() {
    let g = gen(&[]);
    assert_eq!(line(&g, "x=${{ foo }}"), ("x=${{ foo }}\n".to_string(), 0));
}

#[test]
fn slices_by_characters() {
    let g = gen(&[("foo", "ABCDEF")]);
    assert_eq!(line(&g, "${{ foo[1..3] }}"), ("BC\n".to_string(), 1));
    assert_eq!(line(&g, "${{ foo[..2] }}"), ("AB\n".to_string(), 1));
    assert_eq!(line(&g, "${{ foo[4..] }}"), ("EF\n".to_string(), 1));
    assert_eq!(line(&g, "${{ foo[1..20] }}"), ("BCDEF\n".to_string(), 1));
    assert_eq!(line(&g, "${{ foo[x..] }}"), ("${{ foo[x..] }}\n".to_string(), 0));
}

#[test]
fn slice_start_is_clamped() {
    let g = gen(&[("foo", "ABCDEF")]);
    assert_eq!(line(&g, "${{ foo[10..] }}"), ("F\n".to_string(), 1));
    assert_eq!(line(&g, "${{ foo[..] }}"), ("ABCDEF\n".to_string(), 1));
    assert_eq!(line(&g, "${{ foo[4..2] }}"), ("${{ foo[4..2] }}\n".to_string(), 0));
    assert_eq!(line(&g, "${{ foo[1] }}"), ("${{ foo[1] }}\n".to_string(), 0));
}

#[test]
fn slices_multibyte_characters() {
    let g = gen(&[("w", "héllo")]);
    assert_eq!(line(&g, "${{w[1..3]}}"), ("él\n".to_string(), 1));
}

#[test]
fn several_placeholders_on_one_line() {
    let g = gen(&[("a", "1"), ("b", "2")]);
    assert_eq!(line(&g, "${{a}}+${{ b }}=${{c}}"), ("1+2=${{c}}\n".to_string(), 2));
}

#[test]
fn unclosed_placeholder_is_kept() {
    let g = gen(&[("a", "1")]);
    assert_eq!(line(&g, "x ${{ a"), ("x ${{ a\n".to_string(), 0));
    assert_eq!(line(&g, "}} ${{a}}"), ("}} 1\n".to_string(), 1));
}

#[test]
fn output_is_appended() {
    let g = gen(&[("a", "1")]);
    let mut out = "first\n".to_string();
    let n = g.process_line(&"${{a}}".to_string(), &mut out);
    assert_eq!(out, "first\n1\n");
    assert_eq!(n, 1);
}

#[test]
fn unresolved_cycle_passes_through() {
    let g = gen(&[("l0", "@l1"), ("l1", "@l0")]);
    assert_eq!(line(&g, "${{ l0 }}"), ("${{ l0 }}\n".to_string(), 0));
}

#[test]
fn parse_expression_and_range() {
    let g = gen(&[("foo", "ABCDEF")]);
    assert_eq!(g.parse_expression(" foo "), Some("ABCDEF".to_string()));
    assert_eq!(g.parse_expression("foo[2..4]"), Some("CD".to_string()));
    assert_eq!(g.parse_expression("bar"), None);
    assert_eq!(g.parse_range("ABCDEF", "1..3"), Some(1..3));
    assert_eq!(g.parse_range("ABCDEF", "..9"), Some(0..6));
    assert_eq!(g.parse_range("", "3.."), Some(3..0));
    assert_eq!(g.parse_range("ABCDEF", "12"), None);
    assert_eq!(g.parse_range("ABCDEF", "99999999999999999999999.."), None);
}

#[test]
fn generator_exposes_its_variables() {
    let g = gen(&[("a", "@b"), ("b", "v")]);
    assert_eq!(g.variables().value("a").unwrap(), "v");
}

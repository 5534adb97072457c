//! End-to-end tests: source token streams through the tokenizer, the
//! parser and the renderer.

use format_xml::token::SrcToken;
use format_xml::token::Delim;
use format_xml::token::ParseError;
use format_xml::parse::parse;
use format_xml::plan::Plan;
use format_xml::render::render;
use format_xml::render::Env;
use format_xml::render::LoopEnv;

fn id(s: &str) -> SrcToken {
    SrcToken::Ident(s.to_string())
}

fn lit(s: &str) -> SrcToken {
    SrcToken::LitStr(s.to_string())
}

fn num(n: u64) -> SrcToken {
    SrcToken::LitInt(n)
}

fn ch(c: char) -> SrcToken {
    SrcToken::LitChar(c)
}

fn p(c: char) -> SrcToken {
    SrcToken::Punct(c)
}

fn ob() -> SrcToken {
    SrcToken::Open(Delim::Brace)
}

fn cb() -> SrcToken {
    SrcToken::Close(Delim::Brace)
}

fn op() -> SrcToken {
    SrcToken::Open(Delim::Paren)
}

fn cp() -> SrcToken {
    SrcToken::Close(Delim::Paren)
}

fn obk() -> SrcToken {
    SrcToken::Open(Delim::Bracket)
}

fn cbk() -> SrcToken {
    SrcToken::Close(Delim::Bracket)
}

fn env0() -> Env {
    Env { values: vec![], guards: vec![], arms: vec![], loops: vec![], raws: vec![] }
}

fn env_vals(vals: &[&str]) -> Env {
    Env {
        values: vals.iter().map(|s| s.to_string()).collect(),
        guards: vec![],
        arms: vec![],
        loops: vec![],
        raws: vec![],
    }
}

fn compile(src: Vec<SrcToken>) -> Plan {
    parse(&src).unwrap()
}

#[test]
fn self_closing_tag_shape() {
    // <line x1="0" y1="0" x2={10} y2={20} />
    let src = vec![
        p('<'),
        id("line"),
        id("x1"),
        p('='),
        lit("0"),
        id("y1"),
        p('='),
        lit("0"),
        id("x2"),
        p('='),
        ob(),
        num(10),
        cb(),
        id("y2"),
        p('='),
        ob(),
        num(20),
        cb(),
        p('/'),
        p('>'),
    ];
    let plan = compile(src);
    let out = render(&plan, &env_vals(&["10", "20"]));
    assert_eq!(out, r#"<line x1="0" y1="0" x2="10" y2="20" />"#);
}

#[test]
fn attribute_and_text_escaping_rules() {
    // <p data-value={v}>{t}</p>
    let src = vec![
        p('<'),
        id("p"),
        id("data"),
        p('-'),
        id("value"),
        p('='),
        ob(),
        id("v"),
        cb(),
        p('>'),
        ob(),
        id("t"),
        cb(),
        p('<'),
        p('/'),
        id("p"),
        p('>'),
    ];
    let plan = compile(src);
    let out = render(&plan, &env_vals(&["\"quote\"", "<script>&</script>"]));
    assert_eq!(out, r#"<p data-value="&quot;quote&quot;">&lt;script&gt;&amp;&lt;/script&gt;</p>"#);
}

#[test]
fn control_flow_selects_one_branch() {
    // if (false) { "A" } else if (true) { "B" } else { "C" }
    let src = vec![
        id("if"),
        op(),
        id("false"),
        cp(),
        ob(),
        lit("A"),
        cb(),
        id("else"),
        id("if"),
        op(),
        id("true"),
        cp(),
        ob(),
        lit("B"),
        cb(),
        id("else"),
        ob(),
        lit("C"),
        cb(),
    ];
    let plan = compile(src);
    assert_eq!(plan.slots.guards.len(), 2);
    let mut env = env0();
    env.guards = vec![false, true];
    assert_eq!(render(&plan, &env), "B");
    // No guard true: the else body alone.
    env.guards = vec![false, false];
    assert_eq!(render(&plan, &env), "C");
    // First guard wins.
    env.guards = vec![true, true];
    assert_eq!(render(&plan, &env), "A");
}

#[test]
fn loop_order_matches_iteration_order() {
    // for i in (1..=5) { <li>{i}</li> }
    let src = vec![
        id("for"),
        id("i"),
        id("in"),
        op(),
        num(1),
        p('.'),
        p('.'),
        p('='),
        num(5),
        cp(),
        ob(),
        p('<'),
        id("li"),
        p('>'),
        ob(),
        id("i"),
        cb(),
        p('<'),
        p('/'),
        id("li"),
        p('>'),
        cb(),
    ];
    let plan = compile(src);
    assert_eq!(plan.slots.loops.len(), 1);
    assert_eq!(plan.slots.loops[0].pattern, "i");
    assert_eq!(plan.slots.loops[0].iterable, "(1..=5)");
    let mut env = env0();
    env.loops = vec![
        LoopEnv {
            iterations: (1u64..=5).map(|i| env_vals(&[&i.to_string()])).collect(),
        },
    ];
    assert_eq!(render(&plan, &env), "<li>1</li><li>2</li><li>3</li><li>4</li><li>5</li>");
}

#[test]
fn readme() {
    // <svg width={w} height={h}>
    //   <line x1=0 y1=0 x2={point.0} y2={point.1} stroke="black" stroke-width=2 />
    //   <text x={point.1} y={point.0}>"Hello '" {name} "'!"</text>
    // </svg>
    // with width=200, height=200, point=(20,30), name="World".
    let src = vec![
        p('<'),
        id("svg"),
        id("width"),
        p('='),
        ob(),
        id("w"),
        cb(),
        id("height"),
        p('='),
        ob(),
        id("h"),
        cb(),
        p('>'),
        p('<'),
        id("line"),
        id("x1"),
        p('='),
        num(0),
        id("y1"),
        p('='),
        num(0),
        id("x2"),
        p('='),
        ob(),
        id("point"),
        p('.'),
        num(0),
        cb(),
        id("y2"),
        p('='),
        ob(),
        id("point"),
        p('.'),
        num(1),
        cb(),
        id("stroke"),
        p('='),
        lit("black"),
        id("stroke"),
        p('-'),
        id("width"),
        p('='),
        num(2),
        p('/'),
        p('>'),
        p('<'),
        id("text"),
        id("x"),
        p('='),
        ob(),
        id("point"),
        p('.'),
        num(1),
        cb(),
        id("y"),
        p('='),
        ob(),
        id("point"),
        p('.'),
        num(0),
        cb(),
        p('>'),
        lit("Hello '"),
        ob(),
        id("name"),
        cb(),
        lit("'!"),
        p('<'),
        p('/'),
        id("text"),
        p('>'),
        p('<'),
        p('/'),
        id("svg"),
        p('>'),
    ];
    let plan = compile(src);
    assert_eq!(plan.slots.values[2].expr, "point.0");
    assert_eq!(plan.slots.values[3].expr, "point.1");
    let out = render(&plan, &env_vals(&["200", "200", "20", "30", "30", "20", "World"]));
    // The apostrophes around World come from literal text and are not
    // escaped; only interpolated values are.
    assert_eq!(
        out,
        r#"<svg width="200" height="200"><line x1="0" y1="0" x2="20" y2="30" stroke="black" stroke-width="2" /><text x="30" y="20">Hello 'World'!</text></svg>"#,
    );
}

#[test]
fn x() {
    // <svg height={720} width={1280}>
    //   <line x1="0" y1=0 x2={x} y2={y} />
    //   "inline &<>" <br> {42}
    // </svg>
    // with x=10, y=20.
    let src = vec![
        p('<'),
        id("svg"),
        id("height"),
        p('='),
        ob(),
        num(720),
        cb(),
        id("width"),
        p('='),
        ob(),
        num(1280),
        cb(),
        p('>'),
        p('<'),
        id("line"),
        id("x1"),
        p('='),
        lit("0"),
        id("y1"),
        p('='),
        num(0),
        id("x2"),
        p('='),
        ob(),
        id("x"),
        cb(),
        id("y2"),
        p('='),
        ob(),
        id("y"),
        cb(),
        p('/'),
        p('>'),
        lit("inline &<>"),
        p('<'),
        id("br"),
        p('>'),
        ob(),
        num(42),
        cb(),
        p('<'),
        p('/'),
        id("svg"),
        p('>'),
    ];
    let plan = compile(src);
    let out = render(&plan, &env_vals(&["720", "1280", "10", "20", "42"]));
    // Literal text is written raw; only interpolated values escape.
    assert_eq!(
        out,
        "<svg height=\"720\" width=\"1280\"><line x1=\"0\" y1=\"0\" x2=\"10\" y2=\"20\" />inline &<><br>42</svg>",
    );
}

#[test]
fn test_syntax() {
    // A grab-bag of accepted syntax; rendering must succeed throughout.
    // (<a> <a-b> <"a-0"> <a.b> <"a.0"> <"0">)
    let g1 = vec![
        p('<'), id("a"), p('>'),
        p('<'), id("a"), p('-'), id("b"), p('>'),
        p('<'), lit("a-0"), p('>'),
        p('<'), id("a"), p('.'), id("b"), p('>'),
        p('<'), lit("a.0"), p('>'),
        p('<'), lit("0"), p('>'),
    ];
    let mut src: Vec<SrcToken> = vec![op()];
    src.extend(g1);
    src.push(cp());
    // (<xmlns:a> <xmlns:a-b> <xmlns:a.b>)
    src.push(op());
    src.extend(vec![
        p('<'), id("xmlns"), p(':'), id("a"), p('>'),
        p('<'), id("xmlns"), p(':'), id("a"), p('-'), id("b"), p('>'),
        p('<'), id("xmlns"), p(':'), id("a"), p('.'), id("b"), p('>'),
    ]);
    src.push(cp());
    // (</a> </a-b> </"a-0"> </a.b> </"a.0"> </"0">)
    src.push(op());
    src.extend(vec![
        p('<'), p('/'), id("a"), p('>'),
        p('<'), p('/'), id("a"), p('-'), id("b"), p('>'),
        p('<'), p('/'), lit("a-0"), p('>'),
        p('<'), p('/'), id("a"), p('.'), id("b"), p('>'),
        p('<'), p('/'), lit("a.0"), p('>'),
        p('<'), p('/'), lit("0"), p('>'),
    ]);
    src.push(cp());
    // (<tag a="hello" a-b='a' "a-0"=0 a.b="a.b">)
    src.push(op());
    src.extend(vec![
        p('<'), id("tag"),
        id("a"), p('='), lit("hello"),
        id("a"), p('-'), id("b"), p('='), ch('a'),
        lit("a-0"), p('='), num(0),
        id("a"), p('.'), id("b"), p('='), lit("a.b"),
        p('>'),
    ]);
    src.push(cp());
    // <self-closing />
    src.extend(vec![p('<'), id("self"), p('-'), id("closing"), p('/'), p('>')]);
    // <?open?> "{}"
    src.extend(vec![p('<'), p('?'), id("open"), p('?'), p('>'), lit("{}")]);
    // <!-- --> <!-- "asd" --> <!-- 0 '1' "2" -->
    src.extend(vec![p('<'), p('!'), p('-'), p('-'), p('-'), p('-'), p('>')]);
    src.extend(vec![p('<'), p('!'), p('-'), p('-'), lit("asd"), p('-'), p('-'), p('>')]);
    src.extend(vec![p('<'), p('!'), p('-'), p('-'), num(0), ch('1'), lit("2"), p('-'), p('-'), p('>')]);
    // <![CDATA[if c.is_positive() { "Hello world!" }]]>
    src.extend(vec![
        p('<'), p('!'), obk(), id("CDATA"), obk(),
        id("if"), id("c"), p('.'), id("is_positive"), op(), cp(),
        ob(), lit("Hello world!"), cb(),
        cbk(), cbk(), p('>'),
    ]);
    // {42}
    src.extend(vec![ob(), num(42), cb()]);
    let plan = compile(src);
    let out = render(&plan, &env_vals(&["Hello world!", "42"]));
    assert!(out.contains("<a><a-b><a-0><a.b><a.0><0>"));
    assert!(out.contains("<xmlns:a><xmlns:a-b><xmlns:a.b>"));
    assert!(out.contains(r#"<tag a="hello" a-b="a" a-0="0" a.b="a.b">"#));
    assert!(out.contains("<self-closing />"));
    assert!(out.contains("<?open?>{}"));
    assert!(out.ends_with("42"));

    // if true {}
    let plan = compile(vec![id("if"), id("true"), ob(), cb()]);
    let mut env = env0();
    env.guards = vec![true];
    assert_eq!(render(&plan, &env), "");
    // for _ in 0..4 {}
    let plan = compile(vec![id("for"), id("_"), id("in"), num(0), p('.'), p('.'), num(4), ob(), cb()]);
    let mut env = env0();
    env.loops = vec![LoopEnv { iterations: vec![env0(), env0(), env0(), env0()] }];
    assert_eq!(render(&plan, &env), "");
    // match true { false => "false", true => "true" }
    let plan = compile(vec![
        id("match"), id("true"), ob(),
        id("false"), p('='), p('>'), lit("false"), p(','),
        id("true"), p('='), p('>'), lit("true"),
        cb(),
    ]);
    let mut env = env0();
    env.arms = vec![1];
    assert_eq!(render(&plan, &env), "true");
}

#[test]
fn test_prelude() {
    // The print/write entry points are thin shims over render; here each
    // template goes through the same pipeline and the written results are
    // collected as the write-style calls would collect them.
    fn tag_a(text: &str) -> Vec<SrcToken> {
        vec![p('<'), id("a"), p('>'), lit(text), p('<'), p('/'), id("a"), p('>')]
    }
    println!("{}", render(&compile(tag_a("print")), &env0()));
    println!("{}", render(&compile(tag_a("println")), &env0()));
    println!("{}", render(&compile(tag_a("eprint")), &env0()));
    println!("{}", render(&compile(tag_a("eprintln")), &env0()));
    let mut s = render(&compile(tag_a("format")), &env0());
    s.push_str(&render(&compile(tag_a("write")), &env0()));
    let mut writeln_src = tag_a("writeln");
    writeln_src.push(lit("\n"));
    s.push_str(&render(&compile(writeln_src), &env0()));
    assert_eq!(s, "<a>format</a><a>write</a><a>writeln</a>\n");
}

#[test]
fn template_test_noinline() {
    // Plain string templates through the same pipeline.
    println!("{}", render(&compile(vec![lit("print")]), &env0()));
    println!("{}", render(&compile(vec![lit("println")]), &env0()));
    println!("{}", render(&compile(vec![lit("eprint")]), &env0()));
    println!("{}", render(&compile(vec![lit("eprintln")]), &env0()));
    let mut s = render(&compile(vec![lit("format")]), &env0());
    s.push_str(&render(&compile(vec![lit("write")]), &env0()));
    s.push_str(&render(&compile(vec![lit("writeln"), lit("\n")]), &env0()));
    assert_eq!(s, "formatwritewriteln\n");
}

#[test]
fn xml_test_noinline() {
    fn tag_a(text: &str) -> Vec<SrcToken> {
        vec![p('<'), id("a"), p('>'), lit(text), p('<'), p('/'), id("a"), p('>')]
    }
    println!("{}", render(&compile(tag_a("print")), &env0()));
    println!("{}", render(&compile(tag_a("println")), &env0()));
    println!("{}", render(&compile(tag_a("eprint")), &env0()));
    println!("{}", render(&compile(tag_a("eprintln")), &env0()));
    let mut s = render(&compile(tag_a("format")), &env0());
    s.push_str(&render(&compile(tag_a("write")), &env0()));
    let mut writeln_src = tag_a("writeln");
    writeln_src.push(lit("\n"));
    s.push_str(&render(&compile(writeln_src), &env0()));
    assert_eq!(s, "<a>format</a><a>write</a><a>writeln</a>\n");
}

#[test]
fn comment_bodies_escape_as_one_unit() {
    // Two adjacent literals coalesce before the comment escaping runs, so
    // a `--` split across them is still deleted.
    let src = vec![p('<'), p('!'), p('-'), p('-'), lit(" -"), lit("- "), p('-'), p('-'), p('>')];
    let plan = compile(src);
    assert_eq!(render(&plan, &env0()), "<!--    -->");
}

#[test]
fn comment_interpolation_escapes_at_render_time() {
    // <!-- {x} --> with x = "a--b": the value escapes under the comment
    // policy when rendered.
    let src = vec![p('<'), p('!'), p('-'), p('-'), ob(), id("x"), cb(), p('-'), p('-'), p('>')];
    let plan = compile(src);
    assert_eq!(render(&plan, &env_vals(&["a--b"])), "<!-- ab -->");
}

#[test]
fn cdata_block_renders() {
    // <![CDATA["cdata"]]>
    let src = vec![
        p('<'), p('!'), obk(), id("CDATA"), obk(), lit("cdata"), cbk(), cbk(), p('>'),
    ];
    let plan = compile(src);
    assert_eq!(render(&plan, &env0()), "<![CDATA[cdata]]>");
    // A `]]>` inside an interpolated value splits the section.
    let src = vec![
        p('<'), p('!'), obk(), id("CDATA"), obk(), ob(), id("x"), cb(), cbk(), cbk(), p('>'),
    ];
    let plan = compile(src);
    assert_eq!(render(&plan, &env_vals(&["a]]>b"])), "<![CDATA[a]]]]><![CDATA[>b]]>");
}

#[test]
fn doctype_and_pi() {
    // <!doctype html> <?xml version="1.0" encoding="UTF-8"?>
    let src = vec![
        p('<'), p('!'), id("doctype"), id("html"), p('>'),
        p('<'), p('?'), id("xml"),
        id("version"), p('='), lit("1.0"),
        id("encoding"), p('='), lit("UTF-8"),
        p('?'), p('>'),
    ];
    let plan = compile(src);
    assert_eq!(render(&plan, &env0()), r#"<!doctype html><?xml version="1.0" encoding="UTF-8"?>"#);
}

#[test]
fn bracket_list_attribute_values() {
    // <div class=["class-a": has_a, "class-b": has_b]>
    let src = vec![
        p('<'), id("div"),
        id("class"), p('='),
        obk(), lit("class-a"), p(':'), id("has_a"), p(','), lit("class-b"), p(':'), id("has_b"), cbk(),
        p('>'),
    ];
    let plan = compile(src);
    assert_eq!(plan.slots.guards.len(), 2);
    let mut env = env0();
    env.guards = vec![true, false];
    assert_eq!(render(&plan, &env), r#"<div class="class-a ">"#);
}

#[test]
fn sub_template_attribute_value() {
    // <p data-attr=("has_a:"{a}",has_b:"{b})></p>
    let src = vec![
        p('<'), id("p"),
        id("data"), p('-'), id("attr"), p('='),
        op(), lit("has_a:"), ob(), id("a"), cb(), lit(",has_b:"), ob(), id("b"), cb(), cp(),
        p('>'),
        p('<'), p('/'), id("p"), p('>'),
    ];
    let plan = compile(src);
    let out = render(&plan, &env_vals(&["true", "false"]));
    assert_eq!(out, r#"<p data-attr="has_a:true,has_b:false"></p>"#);
}

#[test]
fn escape_hatch_bypasses_escaping() {
    // <p>|f| compose(f);</p> — the hatch output is written untouched.
    let src = vec![
        p('<'), id("p"), p('>'),
        p('|'), id("f"), p('|'), id("compose"), op(), id("f"), cp(), p(';'),
        p('<'), p('/'), id("p"), p('>'),
    ];
    let plan = compile(src);
    assert_eq!(plan.slots.raws.len(), 1);
    let mut env = env0();
    env.raws = vec!["<span>42</span>".to_string()];
    assert_eq!(render(&plan, &env), "<p><span>42</span></p>");
}

#[test]
fn if_let_binding_renders_bound_branch() {
    // if let Some(name) = (opt) { <h1>"Hello "{name}</h1> }
    // else if (switch) { <h1>"Hello User"</h1> }
    let src = vec![
        id("if"), id("let"), id("Some"), op(), id("name"), cp(), p('='), op(), id("opt"), cp(),
        ob(),
        p('<'), id("h1"), p('>'), lit("Hello "), ob(), id("name"), cb(),
        p('<'), p('/'), id("h1"), p('>'),
        cb(),
        id("else"), id("if"), op(), id("switch"), cp(),
        ob(),
        p('<'), id("h1"), p('>'), lit("Hello User"), p('<'), p('/'), id("h1"), p('>'),
        cb(),
    ];
    let plan = compile(src);
    assert_eq!(plan.slots.guards.len(), 2);
    assert!(plan.slots.guards[0].contains("Some(name)"));
    assert!(plan.slots.guards[0].contains("(opt)"));
    let mut env = env_vals(&["World"]);
    env.guards = vec![true, false];
    assert_eq!(render(&plan, &env), "<h1>Hello World</h1>");
}

#[test]
fn match_selects_host_chosen_arm() {
    // match (result) { Ok(f) => { <i>{f}</i> } Err(i) => { <b>{i}</b> } }
    let src = vec![
        id("match"), op(), id("result"), cp(),
        ob(),
        id("Ok"), op(), id("f"), cp(), p('='), p('>'),
        ob(), p('<'), id("i"), p('>'), ob(), id("f"), cb(), p('<'), p('/'), id("i"), p('>'), cb(),
        id("Err"), op(), id("i"), cp(), p('='), p('>'),
        ob(), p('<'), id("b"), p('>'), ob(), id("i"), cb(), p('<'), p('/'), id("b"), p('>'), cb(),
        cb(),
    ];
    let plan = compile(src);
    assert_eq!(plan.slots.matches.len(), 1);
    assert_eq!(plan.slots.matches[0].scrutinee, "(result)");
    assert_eq!(plan.slots.matches[0].patterns.len(), 2);
    let mut env = env_vals(&["", "13"]);
    env.arms = vec![1];
    assert_eq!(render(&plan, &env), "<b>13</b>");
}

#[test]
fn format_spec_is_forwarded_opaquely() {
    // <span data-value={value}>{value:#x?}</span>
    let src = vec![
        p('<'), id("span"),
        id("data"), p('-'), id("value"), p('='), ob(), id("value"), cb(),
        p('>'),
        ob(), id("value"), p(':'), p('#'), id("x"), p('?'), cb(),
        p('<'), p('/'), id("span"), p('>'),
    ];
    let plan = compile(src);
    assert_eq!(plan.slots.values[0].expr, "value");
    assert_eq!(plan.slots.values[0].format_spec, None);
    assert_eq!(plan.slots.values[1].expr, "value");
    assert_eq!(plan.slots.values[1].format_spec, Some("#x?".to_string()));
    // The host applies the specifier; here 42 formatted as 0x2a.
    let out = render(&plan, &env_vals(&["42", "0x2a"]));
    assert_eq!(out, r#"<span data-value="42">0x2a</span>"#);
}

#[test]
fn let_binding_scopes_remainder() {
    // for i in (xs) { let t = i * 5; <li>{t}</li> }
    // The binding is recorded in the lets table and wraps the remaining
    // siblings of its sequence in a scope; it writes nothing itself.
    let src = vec![
        id("for"), id("i"), id("in"), op(), id("xs"), cp(),
        ob(),
        id("let"), id("t"), p('='), id("i"), p('*'), num(5), p(';'),
        p('<'), id("li"), p('>'), ob(), id("t"), cb(), p('<'), p('/'), id("li"), p('>'),
        cb(),
    ];
    let plan = compile(src);
    assert_eq!(plan.slots.lets.len(), 1);
    assert_eq!(plan.slots.lets[0].pattern, "t");
    assert_eq!(plan.slots.lets[0].expr, "i*5");
    let mut env = env0();
    env.loops = vec![
        LoopEnv { iterations: (1u64..=3).map(|i| env_vals(&[&(i * 5).to_string()])).collect() },
    ];
    assert_eq!(render(&plan, &env), "<li>5</li><li>10</li><li>15</li>");
}

#[test]
fn adjacent_literals_coalesce() {
    // "Hello '" "World" "'!" — three adjacent literal text fragments
    // compile to a single literal node holding their concatenation, so no
    // fragment boundary survives into the plan.
    let src = vec![lit("Hello '"), lit("World"), lit("'!")];
    let plan = compile(src);
    assert_eq!(plan.root.len(), 1);
    match &plan.root[0] {
        format_xml::plan::EmitNode::Literal(t) => assert_eq!(t, "Hello 'World'!"),
        _ => panic!("expected a single literal node"),
    }
    assert_eq!(render(&plan, &env0()), "Hello 'World'!");
    // The same holds between tags and around interpolations.
    let src = vec![
        p('<'), id("b"), p('>'), lit("a"), lit("b"), ob(), id("x"), cb(), lit("c"), lit("d"),
        p('<'), p('/'), id("b"), p('>'),
    ];
    let plan = compile(src);
    assert_eq!(render(&plan, &env_vals(&["X"])), "<b>abXcd</b>");
}

#[test]
fn statement_hatch_in_attribute_value() {
    // <p data-fmt=|f| write_red(f);></p> — the statement form of the
    // escape hatch, in attribute position.
    let src = vec![
        p('<'), id("p"),
        id("data"), p('-'), id("fmt"), p('='),
        p('|'), id("f"), p('|'), id("write_red"), op(), id("f"), cp(), p(';'),
        p('>'),
        p('<'), p('/'), id("p"), p('>'),
    ];
    let plan = compile(src);
    assert_eq!(plan.slots.raws.len(), 1);
    let mut env = env0();
    env.raws = vec!["MAKE_RED".to_string()];
    assert_eq!(render(&plan, &env), r#"<p data-fmt="MAKE_RED"></p>"#);
}

fn must_fail(src: Vec<SrcToken>) -> format_xml::token::ParseFault {
    match parse(&src) {
        Err(f) => f,
        Ok(_) => panic!("expected a parse fault"),
    }
}

#[test]
fn parse_fault_kinds() {
    // A stray punctuation token no production allows.
    let f = must_fail(vec![p('@')]);
    assert_eq!(f.kind, ParseError::UnexpectedToken);
    // An unclosed brace group.
    let f = must_fail(vec![ob()]);
    assert_eq!(f.kind, ParseError::UnterminatedConstruct);
    // An unclosed comment.
    let f = must_fail(vec![p('<'), p('!'), p('-'), p('-'), lit("x")]);
    assert_eq!(f.kind, ParseError::UnterminatedConstruct);
    // A tag with no name.
    let f = must_fail(vec![p('<'), p('>')]);
    assert_eq!(f.kind, ParseError::ExpectedIdentifierOrLiteral);
    // A tag never closed with > or />.
    let f = must_fail(vec![p('<'), id("a")]);
    assert_eq!(f.kind, ParseError::MissingClosingBracket);
    // A malformed closing tag: </x/>.
    let f = must_fail(vec![p('<'), p('/'), id("x"), p('/'), p('>')]);
    assert_eq!(f.kind, ParseError::InvalidClosingTag);
}

#[test]
fn same_input_same_outcome() {
    // Parsing is deterministic: the same stream twice gives the same plan
    // behaviour, and rendering the same plan twice the same string.
    let make = || {
        vec![p('<'), id("b"), p('>'), ob(), id("x"), cb(), p('<'), p('/'), id("b"), p('>')]
    };
    let p1 = compile(make());
    let p2 = compile(make());
    let e = env_vals(&["v&v"]);
    assert_eq!(render(&p1, &e), render(&p2, &e));
    assert_eq!(render(&p1, &e), "<b>v&amp;v</b>");
    assert_eq!(render(&p1, &e), render(&p1, &e));
}

#[test]
fn number_literals_render_in_decimal() {
    let src = vec![p('<'), id("a"), id("n"), p('='), num(18446744073709551615), p('>')];
    let plan = compile(src);
    assert_eq!(render(&plan, &env0()), r#"<a n="18446744073709551615">"#);
}

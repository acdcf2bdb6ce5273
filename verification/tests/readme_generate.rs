use trantor::readme_claims::Claim;
use trantor::readme_generate::{generate, top_level};
use trantor::readme_lex::Block;

const BARE: &str = "platform \"\"\n\trequires {\n\t\tmain! : {} => Try({}, [Exit(I32), ..])\n\t}\n\texposes [Stdout]\n";

#[test]
fn top_level_assignment_ignores_comparisons_and_nesting() {
    assert_eq!(top_level("x = a == b", '='), Some(2));
    assert_eq!(top_level("f({ a: 1 }) == g", '='), None);
    assert_eq!(top_level("{ year, month } = jan31", '='), Some(16));
    assert_eq!(top_level("message : Str", ':'), Some(8));
}

#[test]
fn a_fragment_becomes_one_function_that_prints_its_stated_value() {
    let frag = Block::for_test(&["x = 1 + 1", "x   # 2"]);
    let g = generate(&[&frag], &[], &vec![], &[], BARE).unwrap();
    assert!(g.app.starts_with("app [main!] { pf: platform \"../target/trantor/app/platform/main.roc\" }\n\nimport pf.Stdout"));
    assert!(g.app.contains("# README.md line 1\nblock_0_0! : {} => Try({}, _)\nblock_0_0! = |{}| {\n"));
    assert!(g.app.contains("\tr2 = x\n\tStdout.line!(\"@@README@@:2:${Str.inspect(r2)}@@README-END@@\") ?? {}\n\tOk({})\n}\n"));
    assert!(g.app.contains("\tmatch block_0_0!({}) { Ok(_) => {}, Err(e) => Stdout.line!(\"@@README-ERR@@:1:${Str.inspect(e)}\") ?? {} }"));
    assert_eq!(g.expected, vec![(2, Claim::Token("2".to_string()), false)]);
}

#[test]
fn independent_calls_stand_alone_and_an_unused_binding_is_discarded() {
    let calls = Block::for_test(&["Stdout.line!(\"a\")?", "Stdout.line!(\"b\")?"]);
    let g = generate(&[&calls], &[], &vec![], &[], BARE).unwrap();
    assert!(g.app.contains("block_0_0!") && g.app.contains("block_0_1!"));
    let lone = Block::for_test(&["y = 3"]);
    let g = generate(&[&lone], &[], &vec![], &[], BARE).unwrap();
    assert!(g.app.contains("\ty = 3\n\t_ = y\n"));
}

#[test]
fn a_stated_value_in_a_module_block_or_a_main_that_cannot_finish_is_refused() {
    let module = Block::for_test(&["double = |x| x * 2  # 4"]);
    let err = generate(&[], &[&module], &vec![], &[], BARE).err().unwrap();
    assert_eq!(err, "README.md line 1: `# 4` states a value in a module-level block, which is compiled but not run");
    let int = "platform \"\"\n\trequires {\n\t\tmain! : {} => I32\n\t}\n\texposes [Stdout]\n";
    let err = generate(&[], &[], &vec![], &[], int).err().unwrap();
    assert!(err.starts_with("README.md examples run inside a generated main!, which must be able to finish"));
}

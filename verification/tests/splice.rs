use trantor::resolve::Service;
use trantor::splice::{check_spliceable, snake_case, splice, union_variants};

fn svc(module: &str, event: Option<&str>, env: Option<&str>) -> Service {
    Service {
        component: format!("svc-{}", snake_case(module)),
        module: module.to_string(),
        event_module: event.map(str::to_string),
        env_module: env.map(str::to_string),
    }
}

#[test]
fn splices_cmd_block_and_imports() {
    let text = "## docs\n\nCmd := [\n\tLog(Str),\n\t## @trantor(cmd)\n\tStale(U64),\n\t## @end\n]\n";
    let out = splice(text, &[svc("Notes", Some("NotesEvent"), None), svc("Dbx", None, None)]).unwrap();
    assert_eq!(
        out,
        "## docs\n\nimport Notes\nimport Dbx\nCmd := [\n\tLog(Str),\n\t## @trantor(cmd)\n\tNotes(Notes),\n\tDbx(Dbx),\n\t## @end\n]\n"
    );
}

#[test]
fn splices_event_and_env_blocks_only_for_services_that_have_them() {
    let text = "import Id\n\nEvent := [\n    Click,\n    ## @trantor(event)\n    ## @end\n]\n";
    let out = splice(text, &[svc("Notes", Some("NotesEvent"), None), svc("Audio", None, Some("AudioEnv"))]).unwrap();
    assert!(out.contains("    Notes(NotesEvent),\n    ## @end"));
    assert!(!out.contains("Audio("));
    assert!(out.starts_with("import NotesEvent\nimport Id\n"));
    let env = "Env := {\n\twidth : U64,\n\t## @trantor(env)\n\t## @end\n}\n";
    let out = splice(env, &[svc("Audio", None, Some("AudioEnv"))]).unwrap();
    assert!(out.contains("\taudio : AudioEnv,\n\t## @end"));
    assert!(out.starts_with("import AudioEnv\nEnv := {"));
}

#[test]
fn unterminated_marker_is_an_error() {
    assert!(splice("Cmd := [\n\t## @trantor(cmd)\n]\n", &[]).is_err());
}

#[test]
fn counts_union_variants_and_fields() {
    let text = "## doc\nNotes := [\n\t## `List(request, key)`\n\tList(U64, Str),\n\tRead(U64, Str, Str),\n\tStop,\n]\n";
    assert_eq!(union_variants(text, "Notes"), Some(vec![2, 3, 0]));
    assert_eq!(union_variants("Http := [Http({ a : U64, b : Str })]", "Http"), Some(vec![1]));
    assert_eq!(union_variants("Env := { ticks : U64 }", "Env"), None);
}

#[test]
fn a_union_needs_a_variant_and_one_is_enough() {
    assert!(check_spliceable("Net := [Http(U64, Str, Str)]", "Net").is_ok());
    assert!(check_spliceable("Net := [Http(U64, Str), Stop]", "Net").is_ok());
    assert!(check_spliceable("Net := []", "Net").is_err());
    assert!(check_spliceable("Env := { ticks : U64 }", "Env").is_err());
}

#[test]
fn snake_cases_module_names() {
    assert_eq!(snake_case("Notes"), "notes");
    assert_eq!(snake_case("NotesEvent"), "notes_event");
    assert_eq!(snake_case("ImgRef"), "img_ref");
}

#[test]
fn a_text_without_markers_comes_back_unchanged_and_errors_name_the_marker() {
    let text = "Cmd := [\n\tLog(Str),\n]";
    assert_eq!(splice(text, &[svc("Notes", None, None)]).unwrap(), text);
    let e = splice("  ## @trantor(env)  \nx\n", &[]).unwrap_err();
    assert_eq!(e, "splice: `## @trantor(env)` has no closing `## @end`");
    assert_eq!(check_spliceable("Net := []", "Net").unwrap_err(), "`Net` has no variants");
    assert_eq!(check_spliceable("Env := {}", "Env").unwrap_err(), "`Env` is not a tag union (`Env := [...]`)");
}

use trantor::symbols::{defs_of, elf_global_defs, is_rust_mangled, plain_external_defs, wasm_global_defs, Format};

fn has(defs: &[String], name: &str) -> bool {
    defs.iter().any(|d| d == name)
}

#[test]
fn parses_plain_external_defs_only() {
    let sample = "\
                     (undefined) external _sqlite3_step\n\
0000000000009004 (__TEXT,__text) external _sqlite3_open\n\
0000000000000000 (__TEXT,__text) private external __aarch64_cas8_acq\n\
---------------- (LTO,CODE) weak private external ___multi3\n\
0000000000000600 (__TEXT,__text) external __RNvMs_NtCsuFXAkltCeT_12trantor_abi9RocStr8from_str\n\
0000000000000800 (__TEXT,__text_cold) external [cold func] __RINvNtCsX_4core9panicking13assert_failed_rustls\n\
0000000000000010 (__TEXT,__text) non-external _local_helper\n";
    let defs = plain_external_defs(sample);
    assert!(has(&defs, "_sqlite3_open")); // plain external, defined
    assert!(has(&defs, "__RNvMs_NtCsuFXAkltCeT_12trantor_abi9RocStr8from_str"));
    // annotation before the name: the mangled name, not "[cold func]", is captured
    assert!(has(&defs, "__RINvNtCsX_4core9panicking13assert_failed_rustls"));
    assert!(!has(&defs, "_sqlite3_step")); // undefined reference
    assert!(!has(&defs, "__aarch64_cas8_acq")); // private external
    assert!(!has(&defs, "___multi3")); // weak private external
    assert!(!has(&defs, "_local_helper")); // non-external
}

#[test]
fn rust_mangled_recognized() {
    assert!(is_rust_mangled("__RNvMs_NtCs_12trantor_abi9RocStr8from_str", Format::Macho));
    assert!(is_rust_mangled("__ZN4core3fmt3num", Format::Macho));
    assert!(!is_rust_mangled("_sqlite3_open", Format::Macho));
    assert!(!is_rust_mangled("_vendored_answer", Format::Macho));
    assert!(is_rust_mangled("_RNvMs_NtCs_12trantor_abi9RocStr8from_str", Format::Wasm));
    assert!(!is_rust_mangled("trantor__b__seed", Format::Wasm));
    assert!(is_rust_mangled("_RNvCs_12trantor_abi4host", Format::Elf));
    assert!(!is_rust_mangled("sqlite3_open", Format::Elf));
}

#[test]
fn parses_elf_global_defs_by_binding_and_visibility() {
    let sample = "\
File: libprobe_a.a(probe_a.o)\n\
\n\
Symbol table '.symtab' contains 7 entries:\n\
   Num:    Value          Size Type    Bind   Vis      Ndx Name\n\
     0: 0000000000000000     0 NOTYPE  LOCAL  DEFAULT  UND \n\
     1: 0000000000000000     0 SECTION LOCAL  DEFAULT    3 .text\n\
     2: 0000000000000000    24 FUNC    GLOBAL DEFAULT    3 trantor_probe_collision\n\
     3: 0000000000000000     0 NOTYPE  GLOBAL DEFAULT  UND roc_alloc\n\
     4: 0000000000000010    12 FUNC    GLOBAL HIDDEN     3 __udivti3\n\
     5: 0000000000000020     8 FUNC    WEAK   DEFAULT    3 weak_thing\n\
     6: 0000000000000030     8 FUNC    GLOBAL DEFAULT [VARIANT_PCS]     3 annotated_def\n\
     7: 0000000000000040     8 OBJECT  GLOBAL PROTECTED  4 DATA_SYM\n";
    let defs = elf_global_defs(sample);
    assert_eq!(
        defs.into_iter().collect::<Vec<_>>(),
        ["DATA_SYM", "annotated_def", "trantor_probe_collision"],
        "undefined, section, hidden and weak symbols are not global definitions"
    );
}

#[test]
fn parses_wasm_global_defs_by_flags() {
    let sample = "\
File: libb.a(b.o)\n\
Symbols [\n\
  Symbol {\n    Name: trantor__b__seed\n    Type: FUNCTION (0x0)\n    Flags [ (0x0)\n    ]\n    ElementIndex: 0x4\n  }\n\
  Symbol {\n    Name: __popcountsi2\n    Type: FUNCTION (0x0)\n    Flags [ (0x4)\n      VISIBILITY_HIDDEN (0x4)\n    ]\n  }\n\
  Symbol {\n    Name: anon.abc.0.llvm.1\n    Type: DATA (0x1)\n    Flags [ (0x4)\n      VISIBILITY_HIDDEN (0x4)\n    ]\n  }\n\
  Symbol {\n    Name: roc_alloc\n    Type: FUNCTION (0x0)\n    Flags [ (0x10)\n      UNDEFINED (0x10)\n    ]\n  }\n\
  Symbol {\n    Name: weak_thing\n    Type: FUNCTION (0x0)\n    Flags [ (0x1)\n      BINDING_WEAK (0x1)\n    ]\n  }\n\
  Symbol {\n    Name: __stack_pointer\n    Type: GLOBAL (0x2)\n    Flags [ (0x10)\n    ]\n  }\n\
  Symbol {\n    Name: DATA_SYM\n    Type: DATA (0x1)\n    Flags [ (0x0)\n    ]\n  }\n\
]\n";
    let defs = wasm_global_defs(sample);
    assert!(has(&defs, "trantor__b__seed"));
    assert!(has(&defs, "DATA_SYM"));
    assert!(!has(&defs, "__popcountsi2")); // hidden
    assert!(!has(&defs, "anon.abc.0.llvm.1")); // hidden
    assert!(!has(&defs, "roc_alloc")); // undefined
    assert!(!has(&defs, "weak_thing")); // weak
    assert!(!has(&defs, "__stack_pointer")); // a wasm global, not code/data
}

#[test]
fn a_listing_with_no_definitions_is_refused_and_bad_flags_count_as_all_set() {
    assert_eq!(
        defs_of("nothing here\n", Format::Elf, "lib.a"),
        Err("nm read no defined symbols from lib.a (build the world first?)".to_string())
    );
    let odd = "Symbol {\nName: x\nType: FUNCTION\nFlags [ (0xZZ)\n}\nSymbol {\nName: y\nType: DATA\nFlags [ (0x+20))\n}\n";
    assert_eq!(wasm_global_defs(odd), vec!["y".to_string()]);
    assert_eq!(defs_of("1: 0 0 FUNC GLOBAL DEFAULT 3 f\n", Format::Elf, "a").unwrap(), vec!["f".to_string()]);
}

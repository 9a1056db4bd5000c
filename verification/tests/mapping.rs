use aero_mitosis::ast::matrix_mapper::{
    delta_of, sum, FeatureVector, ParserError, StructuralDeltaMatrixMapper,
};
use aero_mitosis::ast::queries::for_language;

#[test]
fn rust_delta_counts_functions_and_structs() {
    let mapper = StructuralDeltaMatrixMapper::new("rust").unwrap();

    let old = r#"
mod foo;

struct Bar;

fn baz() {}
"#;

    let new = r#"
mod foo;
mod qux;

struct Bar;
struct Baz;

fn baz() {}
fn qux() {}
"#;

    let delta = mapper.map_delta(old, new).unwrap();
    // namespace +1 (mod qux), structural +1 (struct Baz), functional +1 (fn qux)
    assert_eq!(delta.namespace() as f64, 1.0);
    assert_eq!(delta.structural() as f64, 1.0);
    assert_eq!(delta.functional() as f64, 1.0);

    let baseline = mapper.map(old).unwrap();
    assert!(baseline.structural() as f64 >= 1.0);
    assert!(baseline.functional() as f64 >= 1.0);
}

#[test]
fn a_snapshot_is_counted_by_groups() {
    let rust = StructuralDeltaMatrixMapper::new("rust").unwrap();
    let vector = rust.map("use a::b;\nenum E { A }\nimpl E {}\nfn f() { let g = |x: u8| x; }\n").unwrap();
    assert_eq!(vector.labels, vec!["namespace", "structural", "functional"]);
    assert_eq!(vector.values, vec![1, 2, 2]);

    let python = StructuralDeltaMatrixMapper::new("python").unwrap();
    let vector = python.map("import os\nclass C:\n    def m(self):\n        return lambda: 1\n").unwrap();
    assert_eq!(vector.values, vec![2, 1, 2]);

    let go = StructuralDeltaMatrixMapper::new("go").unwrap();
    let vector = go.map("package p\nimport \"fmt\"\ntype T struct{}\nfunc F() {}\nfunc (t T) M() {}\n").unwrap();
    assert_eq!(vector.values, vec![3, 2, 2]);
    assert_eq!(go.map("").unwrap().functional(), 0);
}

#[test]
fn languages_are_told_apart() {
    let source = "def f():\n    pass\n";
    let python = StructuralDeltaMatrixMapper::new("python").unwrap();
    let rust = StructuralDeltaMatrixMapper::new("rust").unwrap();
    assert_eq!(python.map(source).unwrap().functional(), 1);
    assert_eq!(rust.map(source).unwrap().functional(), 0);
}

#[test]
fn deltas_turn_their_sign() {
    let mapper = StructuralDeltaMatrixMapper::new("rust").unwrap();
    let less = "fn a() {}\n";
    let more = "fn a() {}\nfn b() {}\nstruct S;\n";
    assert_eq!(mapper.map_delta(less, more).unwrap().values, vec![0, 1, 1]);
    assert_eq!(mapper.map_delta(more, less).unwrap().values, vec![0, -1, -1]);
    assert_eq!(mapper.map_delta(more, more).unwrap().values, vec![0, 0, 0]);
}

#[test]
fn unknown_languages_are_refused() {
    match StructuralDeltaMatrixMapper::new("cobol") {
        Err(error) => {
            assert!(matches!(&error, ParserError::UnknownLanguage(name) if name == "cobol"));
            assert_eq!(error.describe(), "unsupported language: cobol");
        }
        Ok(_) => panic!("expected an error"),
    }
    assert_eq!(ParserError::Io("x".into()).describe(), "parser I/O error: x");
    assert_eq!(ParserError::TreeSitter("y".into()).describe(), "tree-sitter error: y");
}

#[test]
fn bundles_exist_for_three_languages() {
    let rust = for_language("rust").unwrap();
    assert_eq!(rust.language_name, "rust");
    assert_eq!(rust.namespace, "(mod_item) @mod\n(use_declaration) @use");
    assert_eq!(
        rust.structural,
        "(struct_item) @struct\n(enum_item) @enum\n(type_item) @type\n(trait_item) @trait\n(impl_item) @impl"
    );
    assert_eq!(rust.functional, "(function_item) @function\n(closure_expression) @closure");
    let python = for_language("python").unwrap();
    assert_eq!(python.structural, "(class_definition) @class");
    let go = for_language("go").unwrap();
    assert_eq!(
        go.functional,
        "(function_declaration) @function\n(method_declaration) @method\n(func_literal) @func_lit"
    );
    assert!(for_language("Rust").is_none());
    assert!(for_language("").is_none());
}

#[test]
fn missing_values_count_as_zero() {
    let short = FeatureVector { labels: vec!["namespace"], values: vec![4] };
    assert_eq!(short.namespace(), 4);
    assert_eq!(short.structural(), 0);
    assert_eq!(short.functional(), 0);
    let empty = FeatureVector { labels: vec![], values: vec![] };
    assert_eq!(empty.namespace(), 0);
}

#[test]
fn captures_are_added_up() {
    assert_eq!(sum(&vec![]), 0);
    assert_eq!(sum(&vec![1, 2, 65535]), 65538);
    let delta = delta_of(&vec![1, 5, 0], &vec![3, 2, 0]);
    assert_eq!(delta.values, vec![2, -3, 0]);
}

#[test]
fn sources_need_not_be_ascii() {
    let python = StructuralDeltaMatrixMapper::new("python").unwrap();
    let less = "def caf\u{e9}():\n    return '\u{4e2d}'\n";
    let more = "def caf\u{e9}():\n    return '\u{4e2d}'\nclass \u{c4}:\n    pass\n";
    assert_eq!(python.map(less).unwrap().values, vec![1, 0, 1]);
    let there = python.map_delta(less, more).unwrap();
    let back = python.map_delta(more, less).unwrap();
    let (x, y) = (python.map(less).unwrap(), python.map(more).unwrap());
    for i in 0..3 {
        assert_eq!(there.values[i], y.values[i] - x.values[i]);
        assert_eq!(there.values[i], -back.values[i]);
    }
    assert_eq!(there.structural(), 1);
    assert_eq!(python.map_delta(more, more).unwrap().values, vec![0, 0, 0]);
    let go = StructuralDeltaMatrixMapper::new("go").unwrap();
    assert_eq!(go.map("package p\nfunc \u{e9}() {}\n").unwrap().functional(), 1);
}

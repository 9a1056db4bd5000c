//! Tree-sitter S-expression queries used to extract structural features from
//! source code.
//!
//! Each `LanguageQueries` bundle contains three query groups:
//!   * **namespace**  - modules, packages, imports and use declarations
//!   * **structural** - structs, classes, types, traits and impl-like constructs
//!   * **functional** - functions, methods, closures and lambdas

use vstd::prelude::*;

use crate::text::same;

verus! {

/// Per-language query bundle.
#[derive(Debug, Clone, Copy)]
pub struct LanguageQueries {
    pub language_name: &'static str,
    pub namespace: &'static str,
    pub structural: &'static str,
    pub functional: &'static str,
}

/// A query bundle with its texts as character sequences.
pub struct QueriesView {
    pub language_name: Seq<char>,
    pub namespace: Seq<char>,
    pub structural: Seq<char>,
    pub functional: Seq<char>,
}

impl View for LanguageQueries {
    type V = QueriesView;

    open spec fn view(&self) -> QueriesView {
        QueriesView {
            language_name: self.language_name@,
            namespace: self.namespace@,
            structural: self.structural@,
            functional: self.functional@,
        }
    }
}

pub const RUST_NAMESPACE: &'static str = "(mod_item) @mod\n(use_declaration) @use";

pub const RUST_STRUCTURAL: &'static str =
    "(struct_item) @struct\n(enum_item) @enum\n(type_item) @type\n(trait_item) @trait\n(impl_item) @impl";

pub const RUST_FUNCTIONAL: &'static str = "(function_item) @function\n(closure_expression) @closure";

pub const PYTHON_NAMESPACE: &'static str =
    "(module) @module\n(import_statement) @import\n(import_from_statement) @import_from";

pub const PYTHON_STRUCTURAL: &'static str = "(class_definition) @class";

pub const PYTHON_FUNCTIONAL: &'static str = "(function_definition) @function\n(lambda) @lambda";

pub const GO_NAMESPACE: &'static str =
    "(package_clause) @package\n(import_spec) @import\n(import_declaration) @import_decl";

pub const GO_STRUCTURAL: &'static str =
    "(type_spec) @type\n(struct_type) @struct\n(interface_type) @interface";

pub const GO_FUNCTIONAL: &'static str =
    "(function_declaration) @function\n(method_declaration) @method\n(func_literal) @func_lit";

/// Rust query bundle.
pub open spec fn rust_bundle() -> QueriesView {
    QueriesView {
        language_name: "rust"@,
        namespace: RUST_NAMESPACE@,
        structural: RUST_STRUCTURAL@,
        functional: RUST_FUNCTIONAL@,
    }
}

/// Python query bundle.
pub open spec fn python_bundle() -> QueriesView {
    QueriesView {
        language_name: "python"@,
        namespace: PYTHON_NAMESPACE@,
        structural: PYTHON_STRUCTURAL@,
        functional: PYTHON_FUNCTIONAL@,
    }
}

/// Go query bundle.
pub open spec fn go_bundle() -> QueriesView {
    QueriesView {
        language_name: "go"@,
        namespace: GO_NAMESPACE@,
        structural: GO_STRUCTURAL@,
        functional: GO_FUNCTIONAL@,
    }
}

/// The query bundle for a language name, or nothing if it is unsupported.
pub open spec fn bundle(name: Seq<char>) -> Option<QueriesView> {
    if name == "rust"@ {
        Some(rust_bundle())
    } else if name == "python"@ {
        Some(python_bundle())
    } else if name == "go"@ {
        Some(go_bundle())
    } else {
        None
    }
}

/// Return the query bundle for a language name, or `None` if unsupported.
pub fn for_language(name: &str) -> (queries: Option<LanguageQueries>)
    ensures
        match queries {
            Some(queries) => bundle(name@) == Some(queries@),
            None => bundle(name@) is None,
        },
        queries is Some <==> name@ == "rust"@ || name@ == "python"@ || name@ == "go"@,
        queries matches Some(found) ==> found.language_name@ == name@,
        name@ == "rust"@ ==> {
            let found = queries->0;
            &&& found.namespace@ == "(mod_item) @mod\n(use_declaration) @use"@
            &&& found.structural@
                == "(struct_item) @struct\n(enum_item) @enum\n(type_item) @type\n(trait_item) @trait\n(impl_item) @impl"@
            &&& found.functional@ == "(function_item) @function\n(closure_expression) @closure"@
        },
        name@ == "python"@ ==> {
            let found = queries->0;
            &&& found.namespace@
                == "(module) @module\n(import_statement) @import\n(import_from_statement) @import_from"@
            &&& found.structural@ == "(class_definition) @class"@
            &&& found.functional@ == "(function_definition) @function\n(lambda) @lambda"@
        },
        name@ == "go"@ ==> {
            let found = queries->0;
            &&& found.namespace@
                == "(package_clause) @package\n(import_spec) @import\n(import_declaration) @import_decl"@
            &&& found.structural@
                == "(type_spec) @type\n(struct_type) @struct\n(interface_type) @interface"@
            &&& found.functional@
                == "(function_declaration) @function\n(method_declaration) @method\n(func_literal) @func_lit"@
        },
{
    proof {
        lemma_names_differ();
    }

    if same(name, "rust") {
        Some(
            LanguageQueries {
                language_name: "rust",
                namespace: RUST_NAMESPACE,
                structural: RUST_STRUCTURAL,
                functional: RUST_FUNCTIONAL,
            },
        )
    } else if same(name, "python") {
        Some(
            LanguageQueries {
                language_name: "python",
                namespace: PYTHON_NAMESPACE,
                structural: PYTHON_STRUCTURAL,
                functional: PYTHON_FUNCTIONAL,
            },
        )
    } else if same(name, "go") {
        Some(
            LanguageQueries {
                language_name: "go",
                namespace: GO_NAMESPACE,
                structural: GO_STRUCTURAL,
                functional: GO_FUNCTIONAL,
            },
        )
    } else {
        None
    }
}

/// The names of the languages are different ones.
proof fn lemma_names_differ()
    ensures
        "rust"@ != "python"@,
        "rust"@ != "go"@,
        "python"@ != "go"@,
{
    reveal_strlit("rust");
    reveal_strlit("python");
    reveal_strlit("go");
    assert("rust"@.len() == 4 && "python"@.len() == 6 && "go"@.len() == 2);
}

/// In Rust, modules and use declarations count as namespace, types, traits and
/// their implementations as structural, functions and closures as functional.
pub proof fn law_rust_groups()
    ensures
        bundle("rust"@) == Some(
            (QueriesView {
                language_name: "rust"@,
                namespace: "(mod_item) @mod\n(use_declaration) @use"@,
                structural: "(struct_item) @struct\n(enum_item) @enum\n(type_item) @type\n(trait_item) @trait\n(impl_item) @impl"@,
                functional: "(function_item) @function\n(closure_expression) @closure"@,
            }),
        ),
{
    lemma_names_differ();
}

/// In Python, modules and imports count as namespace, classes as structural,
/// functions and lambdas as functional.
pub proof fn law_python_groups()
    ensures
        bundle("python"@) == Some(
            (QueriesView {
                language_name: "python"@,
                namespace: "(module) @module\n(import_statement) @import\n(import_from_statement) @import_from"@,
                structural: "(class_definition) @class"@,
                functional: "(function_definition) @function\n(lambda) @lambda"@,
            }),
        ),
{
    lemma_names_differ();
}

/// In Go, packages and imports count as namespace, types, structs and interfaces
/// as structural, functions, methods and function literals as functional.
pub proof fn law_go_groups()
    ensures
        bundle("go"@) == Some(
            (QueriesView {
                language_name: "go"@,
                namespace: "(package_clause) @package\n(import_spec) @import\n(import_declaration) @import_decl"@,
                structural: "(type_spec) @type\n(struct_type) @struct\n(interface_type) @interface"@,
                functional: "(function_declaration) @function\n(method_declaration) @method\n(func_literal) @func_lit"@,
            }),
        ),
{
    lemma_names_differ();
}

/// No other language is supported.
pub proof fn law_three_languages(name: Seq<char>)
    ensures
        bundle(name) is Some <==> name == "rust"@ || name == "python"@ || name == "go"@,
        bundle(name) is Some ==> bundle(name)->0.language_name == name,
{
}

} // verus!

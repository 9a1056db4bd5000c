//! Structural delta feature extraction using `tree-sitter`.
//!
//! `StructuralDeltaMatrixMapper` parses source code, runs structural queries
//! over the syntax tree, and gives a feature vector that describes namespace,
//! structural, and functional density, or its change between two snapshots of
//! a source file.

use vstd::prelude::*;
use vstd::string::StringSliceAdditionalSpecFns;

use crate::ast::queries::{
    bundle, for_language, go_bundle, law_go_groups, law_python_groups, law_rust_groups, python_bundle, rust_bundle,
    QueriesView,
};
use crate::text::{joined, same};

verus! {

/// A grammar of the `tree-sitter` crate.
#[verifier::external_type_specification]
#[verifier::external_body]
pub struct ExLanguage(tree_sitter::Language);

/// A compiled query of the `tree-sitter` crate.
#[verifier::external_type_specification]
#[verifier::external_body]
pub struct ExQuery(tree_sitter::Query);

/// A parser of the `tree-sitter` crate.
#[verifier::external_type_specification]
#[verifier::external_body]
pub struct ExParser(tree_sitter::Parser);

/// A syntax tree of the `tree-sitter` crate.
#[verifier::external_type_specification]
#[verifier::external_body]
pub struct ExTree(tree_sitter::Tree);

/// The language that a grammar describes.
pub uninterp spec fn grammar(language: tree_sitter::Language) -> Seq<char>;

/// The language that a query was compiled for, and its patterns.
pub uninterp spec fn query_source(query: tree_sitter::Query) -> (Seq<char>, Seq<char>);

/// The language that a parser was given.
pub uninterp spec fn parser_language(parser: tree_sitter::Parser) -> Option<Seq<char>>;

/// The language and the text that a syntax tree was made of.
pub uninterp spec fn tree_source(tree: tree_sitter::Tree) -> (Seq<char>, Seq<char>);

/// Why patterns cannot be compiled for a language, or nothing if they can.
pub uninterp spec fn query_fault(language: Seq<char>, patterns: Seq<char>) -> Option<Seq<char>>;

/// Why a parser does not take a language, or nothing if it does.
pub uninterp spec fn language_fault(language: Seq<char>) -> Option<Seq<char>>;

/// The nodes of a syntax tree, written down as numbers.
pub uninterp spec fn tree_shape(tree: tree_sitter::Tree) -> Seq<int>;

/// The syntax tree of a text in a language, where the two alone decide on it.
pub uninterp spec fn syntax(language: Seq<char>, text: Seq<char>) -> Seq<int>;

/// How many captures each match of the patterns has, over a syntax tree of a
/// text, in the order in which the matches are found.
pub uninterp spec fn capture_lengths(
    language: Seq<char>,
    patterns: Seq<char>,
    shape: Seq<int>,
    text: Seq<char>,
) -> Seq<usize>;

/// `tree_sitter_rust::language` gives the grammar of Rust.
pub assume_specification[ tree_sitter_rust::language ]() -> (language: tree_sitter::Language)
    ensures
        grammar(language) == "rust"@,
;

/// `tree_sitter_python::language` gives the grammar of Python.
pub assume_specification[ tree_sitter_python::language ]() -> (language: tree_sitter::Language)
    ensures
        grammar(language) == "python"@,
;

/// `tree_sitter_go::language` gives the grammar of Go.
pub assume_specification[ tree_sitter_go::language ]() -> (language: tree_sitter::Language)
    ensures
        grammar(language) == "go"@,
;

/// Whether the patterns are those of a query bundle.
pub open spec fn is_bundled(patterns: Seq<char>) -> bool {
    is_part_of(rust_bundle(), patterns) || is_part_of(python_bundle(), patterns) || is_part_of(
        go_bundle(),
        patterns,
    )
}

/// Whether the patterns are a group of a query bundle.
pub open spec fn is_part_of(queries: QueriesView, patterns: Seq<char>) -> bool {
    patterns == queries.namespace || patterns == queries.structural || patterns
        == queries.functional
}

/// Calls `tree_sitter::Query::new`, and `to_string` on its error. It compiles
/// the patterns for the language, or says what is wrong with them, which is
/// called `query_fault`. On patterns that end in the middle of a wrong name it
/// panics; the bundled ones do not.
#[verifier::external_body]
fn new_query(language: &tree_sitter::Language, patterns: &str) -> (result: Result<
    tree_sitter::Query,
    String,
>)
    requires
        is_bundled(patterns@),
    ensures
        match result {
            Ok(query) => query_fault(grammar(*language), patterns@) is None && query_source(query)
                == (grammar(*language), patterns@),
            Err(text) => query_fault(grammar(*language), patterns@) == Some(text@),
        },
{
    tree_sitter::Query::new(*language, patterns).map_err(|error| error.to_string())
}

/// Calls `tree_sitter::Parser::new`. The parser has no language.
#[verifier::external_body]
fn new_parser() -> (parser: tree_sitter::Parser)
    ensures
        parser_language(parser) is None,
{
    tree_sitter::Parser::new()
}

/// Calls `set_language` of `tree_sitter::Parser`, and `to_string` on its error.
/// The parser takes the language, or says why it does not, which is called
/// `language_fault` and depends on the language's version alone.
#[verifier::external_body]
fn set_language(parser: &mut tree_sitter::Parser, language: &tree_sitter::Language) -> (result:
    Result<(), String>)
    ensures
        match result {
            Ok(_) => language_fault(grammar(*language)) is None && parser_language(*final(parser))
                == Some(grammar(*language)),
            Err(text) => language_fault(grammar(*language)) == Some(text@) && parser_language(
                *final(parser),
            ) == parser_language(*old(parser)),
        },
{
    parser.set_language(*language).map_err(|error| error.to_string())
}

/// A text of ASCII characters.
pub open spec fn is_ascii_text(text: Seq<char>) -> bool {
    forall|i: int| 0 <= i < text.len() ==> (#[trigger] text[i] as u32) < 128
}

/// Whether a language and a text alone decide on the syntax tree. The scanner of
/// the Rust grammar asks the C library which characters are letters, digits and
/// space; beyond ASCII the answers depend on the host.
pub open spec fn is_settled(language: Seq<char>, text: Seq<char>) -> bool {
    is_ascii_text(text) || language != "rust"@
}

/// The tree can be that of a text in a language.
pub open spec fn can_parse(language: Seq<char>, text: Seq<char>, shape: Seq<int>) -> bool {
    is_settled(language, text) ==> shape == syntax(language, text)
}

/// Calls `parse` of `tree_sitter::Parser` without an earlier tree. A parser that
/// has a language, and neither a timeout nor a cancellation flag, gives a tree.
/// Where the language and the text alone decide on it, it is called `syntax`;
/// nothing is said of the tree of a Rust text that is not ASCII. Its offsets are
/// of 32 bits, so a longer text is left out.
#[verifier::external_body]
fn parse_text(parser: &mut tree_sitter::Parser, text: &str) -> (tree: Option<tree_sitter::Tree>)
    requires
        parser_language(*old(parser)) is Some,
        text.spec_bytes().len() <= u32::MAX,
    ensures
        tree is Some,
        tree_source(tree->0) == (parser_language(*old(parser))->0, text@),
        is_settled(parser_language(*old(parser))->0, text@) ==> tree_shape(tree->0) == syntax(
            parser_language(*old(parser))->0,
            text@,
        ),
        parser_language(*final(parser)) == parser_language(*old(parser)),
{
    parser.parse(text, None)
}

/// Calls `matches` of `tree_sitter::QueryCursor` on the root of a tree, and
/// hands out how many captures each match has. The numbers depend on the query,
/// the tree and the text alone, and are called `capture_lengths`. The cursor
/// keeps each in 16 bits.
#[verifier::external_body]
fn match_lengths(query: &tree_sitter::Query, tree: &tree_sitter::Tree, text: &str) -> (lengths: Vec<
    usize,
>)
    requires
        query_source(*query).0 == tree_source(*tree).0,
        tree_source(*tree).1 == text@,
    ensures
        lengths@ == capture_lengths(
            query_source(*query).0,
            query_source(*query).1,
            tree_shape(*tree),
            text@,
        ),
        forall|i: int| 0 <= i < lengths@.len() ==> (#[trigger] lengths@[i]) <= u16::MAX,
{
    tree_sitter::QueryCursor::new()
        .matches(query, tree.root_node(), text.as_bytes())
        .map(|found| found.captures.len())
        .collect()
}

/// Errors that can occur during AST-based feature mapping.
#[derive(Debug)]
pub enum ParserError {
    Io(String),
    UnknownLanguage(String),
    TreeSitter(String),
}

/// A parser error with its text as a character sequence.
pub enum ParserFault {
    Io(Seq<char>),
    UnknownLanguage(Seq<char>),
    TreeSitter(Seq<char>),
}

impl View for ParserError {
    type V = ParserFault;

    open spec fn view(&self) -> ParserFault {
        match self {
            ParserError::Io(text) => ParserFault::Io(text@),
            ParserError::UnknownLanguage(text) => ParserFault::UnknownLanguage(text@),
            ParserError::TreeSitter(text) => ParserFault::TreeSitter(text@),
        }
    }
}

impl ParserFault {
    /// The error in words.
    pub open spec fn described(self) -> Seq<char> {
        match self {
            ParserFault::Io(text) => "parser I/O error: "@ + text,
            ParserFault::UnknownLanguage(text) => "unsupported language: "@ + text,
            ParserFault::TreeSitter(text) => "tree-sitter error: "@ + text,
        }
    }
}

impl ParserError {
    /// The error in words.
    pub fn describe(&self) -> (text: String)
        ensures
            text@ == self@.described(),
            match self {
                ParserError::Io(reason) => text@ == "parser I/O error: "@ + reason@,
                ParserError::UnknownLanguage(reason) => text@ == "unsupported language: "@ + reason@,
                ParserError::TreeSitter(reason) => text@ == "tree-sitter error: "@ + reason@,
            },
    {
        match self {
            ParserError::Io(text) => joined("parser I/O error: ", text),
            ParserError::UnknownLanguage(text) => joined("unsupported language: ", text),
            ParserError::TreeSitter(text) => joined("tree-sitter error: ", text),
        }
    }
}

/// A concrete numeric feature vector returned by the mapper.
#[derive(Debug, Clone, PartialEq)]
pub struct FeatureVector {
    pub labels: Vec<&'static str>,
    pub values: Vec<i128>,
}

/// The value at place `i`, or zero.
pub open spec fn value_at(values: Seq<i128>, i: int) -> i128 {
    if 0 <= i < values.len() {
        values[i]
    } else {
        0
    }
}

impl FeatureVector {
    pub fn namespace(&self) -> (value: i128)
        ensures
            value == value_at(self.values@, 0),
            self.values@.len() > 0 ==> value == self.values@[0],
            self.values@.len() == 0 ==> value == 0,
    {
        if self.values.len() > 0 {
            self.values[0]
        } else {
            0
        }
    }

    pub fn structural(&self) -> (value: i128)
        ensures
            value == value_at(self.values@, 1),
            self.values@.len() > 1 ==> value == self.values@[1],
            self.values@.len() <= 1 ==> value == 0,
    {
        if self.values.len() > 1 {
            self.values[1]
        } else {
            0
        }
    }

    pub fn functional(&self) -> (value: i128)
        ensures
            value == value_at(self.values@, 2),
            self.values@.len() > 2 ==> value == self.values@[2],
            self.values@.len() <= 2 ==> value == 0,
    {
        if self.values.len() > 2 {
            self.values[2]
        } else {
            0
        }
    }

    /// The vector has one value for each of the three query groups.
    pub open spec fn is_labelled(&self) -> bool {
        &&& self.labels@.len() == 3
        &&& self.labels@[0]@ == "namespace"@
        &&& self.labels@[1]@ == "structural"@
        &&& self.labels@[2]@ == "functional"@
        &&& self.values@.len() == 3
    }
}

/// The sum of the numbers.
pub open spec fn total(lengths: Seq<usize>) -> nat
    decreases lengths.len(),
{
    if lengths.len() == 0 {
        0
    } else {
        total(lengths.drop_last()) + lengths.last() as nat
    }
}

/// How many captures the patterns have over a syntax tree of a text.
pub open spec fn captures(
    language: Seq<char>,
    patterns: Seq<char>,
    shape: Seq<int>,
    text: Seq<char>,
) -> int {
    total(capture_lengths(language, patterns, shape, text)) as int
}

/// How many captures each query group of a language has over a syntax tree of a
/// text.
pub open spec fn counted(queries: QueriesView, shape: Seq<int>, text: Seq<char>) -> Seq<int> {
    seq![
        captures(queries.language_name, queries.namespace, shape, text),
        captures(queries.language_name, queries.structural, shape, text),
        captures(queries.language_name, queries.functional, shape, text),
    ]
}

/// The sum of numbers of 16 bits.
pub fn sum(lengths: &Vec<usize>) -> (result: i128)
    requires
        forall|i: int| 0 <= i < lengths@.len() ==> (#[trigger] lengths@[i]) <= u16::MAX,
    ensures
        result == total(lengths@),
        0 <= result <= lengths@.len() * 0xffff,
{
    let mut result: i128 = 0;
    let mut i: usize = 0;
    while i < lengths.len()
        invariant
            i <= lengths.len(),
            forall|i: int| 0 <= i < lengths@.len() ==> (#[trigger] lengths@[i]) <= u16::MAX,
            result == total(lengths@.take(i as int)),
            0 <= result <= i * 0xffff,
        decreases lengths.len() - i,
    {
        assert(lengths@.take(i + 1).drop_last() =~= lengths@.take(i as int));
        assert(lengths@[i as int] <= u16::MAX);
        result = result + lengths[i] as i128;
        i = i + 1;
    }
    assert(lengths@.take(i as int) =~= lengths@);
    result
}

/// The grammar of a supported language.
fn language_from_name(name: &str) -> (language: Option<tree_sitter::Language>)
    ensures
        language is Some <==> bundle(name@) is Some,
        language matches Some(language) ==> grammar(language) == name@,
{
    if same(name, "rust") {
        Some(tree_sitter_rust::language())
    } else if same(name, "python") {
        Some(tree_sitter_python::language())
    } else if same(name, "go") {
        Some(tree_sitter_go::language())
    } else {
        None
    }
}

/// What is wrong with the first query group that cannot be compiled.
pub open spec fn bundle_fault(queries: QueriesView) -> Option<Seq<char>> {
    match query_fault(queries.language_name, queries.namespace) {
        Some(text) => Some(text),
        None => match query_fault(queries.language_name, queries.structural) {
            Some(text) => Some(text),
            None => query_fault(queries.language_name, queries.functional),
        },
    }
}

/// Why there is no mapper for a language, or nothing if there is one.
pub open spec fn mapper_fault(language_name: Seq<char>) -> Option<ParserFault> {
    match bundle(language_name) {
        None => Some(ParserFault::UnknownLanguage(language_name)),
        Some(queries) => match bundle_fault(queries) {
            Some(text) => Some(ParserFault::TreeSitter(text)),
            None => None,
        },
    }
}

/// Why a source cannot be mapped in a language, or nothing if it can.
pub open spec fn mapping_fault(language_name: Seq<char>) -> Option<ParserFault> {
    match language_fault(language_name) {
        Some(text) => Some(ParserFault::TreeSitter("failed to set language: "@ + text)),
        None => None,
    }
}

/// Compile a bundled query.
fn compile_query(language: &tree_sitter::Language, patterns: &'static str) -> (result: Result<
    tree_sitter::Query,
    ParserError,
>)
    requires
        is_bundled(patterns@),
    ensures
        match result {
            Ok(query) => query_fault(grammar(*language), patterns@) is None && query_source(query)
                == (grammar(*language), patterns@),
            Err(error) => query_fault(grammar(*language), patterns@) is Some && error@
                == ParserFault::TreeSitter(query_fault(grammar(*language), patterns@)->0),
        },
{
    match new_query(language, patterns) {
        Ok(query) => Ok(query),
        Err(text) => Err(ParserError::TreeSitter(text)),
    }
}

/// Parse a text in a language.
fn parse(language: &tree_sitter::Language, source: &str) -> (result: Result<
    tree_sitter::Tree,
    ParserError,
>)
    requires
        source.spec_bytes().len() <= u32::MAX,
    ensures
        match result {
            Ok(tree) => mapping_fault(grammar(*language)) is None && tree_source(tree) == (
                grammar(*language),
                source@,
            ) && can_parse(grammar(*language), source@, tree_shape(tree)),
            Err(error) => mapping_fault(grammar(*language)) == Some(error@),
        },
{
    let mut parser = new_parser();
    match set_language(&mut parser, language) {
        Ok(_) => {},
        Err(text) => {
            return Err(ParserError::TreeSitter(joined("failed to set language: ", &text)));
        },
    }
    match parse_text(&mut parser, source) {
        Some(tree) => Ok(tree),
        None => Err(ParserError::TreeSitter("parse failed".to_owned())),
    }
}

/// How many captures a query has in a text.
fn count_captures(query: &tree_sitter::Query, tree: &tree_sitter::Tree, source: &str) -> (count:
    i128)
    requires
        query_source(*query).0 == tree_source(*tree).0,
        tree_source(*tree).1 == source@,
    ensures
        count == captures(
            query_source(*query).0,
            query_source(*query).1,
            tree_shape(*tree),
            source@,
        ),
        0 <= count <= usize::MAX * 0xffff,
{
    let lengths = match_lengths(query, tree, source);
    let count = sum(&lengths);
    proof {
        assert(lengths@.len() == lengths.len());
        assert(lengths@.len() * 0xffff <= usize::MAX * 0xffff);
    }
    count
}

/// The differences between new and old values.
pub open spec fn differences(new: Seq<int>, old_values: Seq<int>) -> Seq<int> {
    Seq::new(new.len(), |i: int| new[i] - old_values[i])
}

/// The values of a feature vector as integers.
pub open spec fn integers(values: Seq<i128>) -> Seq<int> {
    Seq::new(values.len(), |i: int| values[i] as int)
}

fn labels() -> (labels: Vec<&'static str>)
    ensures
        labels@.len() == 3,
        labels@[0]@ == "namespace"@,
        labels@[1]@ == "structural"@,
        labels@[2]@ == "functional"@,
{
    let mut labels: Vec<&'static str> = Vec::new();
    labels.push("namespace");
    labels.push("structural");
    labels.push("functional");
    labels
}

/// What mapping a source in a language gives, over the syntax tree that the
/// parser made of it.
pub open spec fn is_mapped_over(
    language_name: Seq<char>,
    source: Seq<char>,
    shape: Seq<int>,
    result: Result<FeatureVector, ParserError>,
) -> bool {
    match result {
        Ok(vector) => {
            &&& mapping_fault(language_name) is None
            &&& vector.is_labelled()
            &&& can_parse(language_name, source, shape)
            &&& integers(vector.values@) == counted(bundle(language_name)->0, shape, source)
        },
        Err(error) => mapping_fault(language_name) == Some(error@),
    }
}

/// What mapping a source in a language gives.
pub open spec fn is_mapped(
    language_name: Seq<char>,
    source: Seq<char>,
    result: Result<FeatureVector, ParserError>,
) -> bool {
    exists|shape: Seq<int>| is_mapped_over(language_name, source, shape, result)
}

/// What mapping the change between two sources in a language gives, over the
/// syntax trees that the parser made of them.
pub open spec fn is_delta_over(
    language_name: Seq<char>,
    old_source: Seq<char>,
    old_shape: Seq<int>,
    new_source: Seq<char>,
    new_shape: Seq<int>,
    result: Result<FeatureVector, ParserError>,
) -> bool {
    match result {
        Ok(vector) => {
            &&& mapping_fault(language_name) is None
            &&& vector.is_labelled()
            &&& can_parse(language_name, old_source, old_shape)
            &&& can_parse(language_name, new_source, new_shape)
            &&& integers(vector.values@) == differences(
                counted(bundle(language_name)->0, new_shape, new_source),
                counted(bundle(language_name)->0, old_shape, old_source),
            )
        },
        Err(error) => mapping_fault(language_name) == Some(error@),
    }
}

/// What mapping the change between two sources in a language gives.
pub open spec fn is_delta(
    language_name: Seq<char>,
    old_source: Seq<char>,
    new_source: Seq<char>,
    result: Result<FeatureVector, ParserError>,
) -> bool {
    exists|old_shape: Seq<int>, new_shape: Seq<int>|
        is_delta_over(language_name, old_source, old_shape, new_source, new_shape, result)
}

/// The numbers are those of the captures in a text, over a syntax tree that the
/// parser can make of it.
pub open spec fn are_counts(
    language_name: Seq<char>,
    source: Seq<char>,
    shape: Seq<int>,
    counts: Seq<i128>,
) -> bool {
    &&& can_parse(language_name, source, shape)
    &&& integers(counts) == counted(bundle(language_name)->0, shape, source)
    &&& forall|i: int|
        0 <= i < counts.len() ==> 0 <= #[trigger] counts[i] <= usize::MAX * 0xffff
}

/// The numbers can be those of the captures in a text.
pub open spec fn can_count(
    language_name: Seq<char>,
    source: Seq<char>,
    counts: Seq<i128>,
) -> bool {
    exists|shape: Seq<int>| are_counts(language_name, source, shape, counts)
}

/// The feature vector of the change from old counts to new ones.
pub fn delta_of(before: &Vec<i128>, after: &Vec<i128>) -> (vector: FeatureVector)
    requires
        before@.len() == 3,
        after@.len() == 3,
        forall|i: int|
            0 <= i < 3 ==> i128::MIN <= #[trigger] after@[i] - before@[i] <= i128::MAX,
    ensures
        vector.is_labelled(),
        integers(vector.values@) == differences(integers(after@), integers(before@)),
        vector.values@.len() == 3,
        vector.values@[0] == after@[0] - before@[0],
        vector.values@[1] == after@[1] - before@[1],
        vector.values@[2] == after@[2] - before@[2],
        vector.labels@.len() == 3,
        vector.labels@[0]@ == "namespace"@,
        vector.labels@[1]@ == "structural"@,
        vector.labels@[2]@ == "functional"@,
{
    let mut values: Vec<i128> = Vec::new();
    values.push(after[0] - before[0]);
    values.push(after[1] - before[1]);
    values.push(after[2] - before[2]);
    assert(integers(values@) =~= differences(integers(after@), integers(before@)));
    FeatureVector { labels: labels(), values }
}

/// Maps source-code changes into a dense numeric feature vector.
pub struct StructuralDeltaMatrixMapper {
    pub language: tree_sitter::Language,
    pub namespace_query: tree_sitter::Query,
    pub structural_query: tree_sitter::Query,
    pub functional_query: tree_sitter::Query,
}

impl StructuralDeltaMatrixMapper {
    /// The mapper is one for the given query bundle.
    pub open spec fn is_for(&self, queries: QueriesView) -> bool {
        &&& grammar(self.language) == queries.language_name
        &&& query_source(self.namespace_query) == (queries.language_name, queries.namespace)
        &&& query_source(self.structural_query) == (queries.language_name, queries.structural)
        &&& query_source(self.functional_query) == (queries.language_name, queries.functional)
    }

    /// The mapper's queries are those of its language.
    pub open spec fn wf(&self) -> bool {
        bundle(grammar(self.language)) is Some && self.is_for(bundle(grammar(self.language))->0)
    }

    /// Create a mapper for the named language ("rust", "python", or "go").
    pub fn new(language_name: &str) -> (result: Result<Self, ParserError>)
        ensures
            match result {
                Ok(mapper) => mapper_fault(language_name@) is None && mapper.wf() && grammar(
                    mapper.language,
                ) == language_name@,
                Err(error) => mapper_fault(language_name@) == Some(error@),
            },
            language_name@ != "rust"@ && language_name@ != "python"@ && language_name@ != "go"@ ==> (
            result matches Err(error) && error is UnknownLanguage && error->UnknownLanguage_0@
                == language_name@),
            language_name@ == "rust"@ || language_name@ == "python"@ || language_name@ == "go"@ ==> !(
            result matches Err(error) && !(error is TreeSitter)),
    {
        let language = match language_from_name(language_name) {
            Some(language) => language,
            None => return Err(ParserError::UnknownLanguage(language_name.to_owned())),
        };
        let queries = match for_language(language_name) {
            Some(queries) => queries,
            None => return Err(ParserError::UnknownLanguage(language_name.to_owned())),
        };
        let namespace_query = match compile_query(&language, queries.namespace) {
            Ok(query) => query,
            Err(error) => return Err(error),
        };
        let structural_query = match compile_query(&language, queries.structural) {
            Ok(query) => query,
            Err(error) => return Err(error),
        };
        let functional_query = match compile_query(&language, queries.functional) {
            Ok(query) => query,
            Err(error) => return Err(error),
        };
        Ok(
            StructuralDeltaMatrixMapper {
                language,
                namespace_query,
                structural_query,
                functional_query,
            },
        )
    }

    /// How many captures each query group has in a text.
    fn counts(&self, source: &str) -> (result: Result<Vec<i128>, ParserError>)
        requires
            self.wf(),
            source.spec_bytes().len() <= u32::MAX,
        ensures
            match result {
                Ok(counts) => mapping_fault(grammar(self.language)) is None && can_count(
                    grammar(self.language),
                    source@,
                    counts@,
                ),
                Err(error) => mapping_fault(grammar(self.language)) == Some(error@),
            },
    {
        let tree = match parse(&self.language, source) {
            Ok(tree) => tree,
            Err(error) => return Err(error),
        };
        let mut counts: Vec<i128> = Vec::new();
        let namespace = count_captures(&self.namespace_query, &tree, source);
        let structural = count_captures(&self.structural_query, &tree, source);
        let functional = count_captures(&self.functional_query, &tree, source);
        counts.push(namespace);
        counts.push(structural);
        counts.push(functional);
        assert(counts@ =~= seq![namespace, structural, functional]);
        proof {
            let shape = tree_shape(tree);
            assert(integers(counts@) =~= counted(
                bundle(grammar(self.language))->0,
                shape,
                source@,
            ));
            assert(are_counts(grammar(self.language), source@, shape, counts@));
            assert(can_count(grammar(self.language), source@, counts@));
        }
        Ok(counts)
    }

    /// Return a feature vector for a single source snapshot. The parser takes
    /// texts of up to 4 GiB.
    pub fn map(&self, source: &str) -> (result: Result<FeatureVector, ParserError>)
        requires
            self.wf(),
            source.spec_bytes().len() <= u32::MAX,
        ensures
            is_mapped(grammar(self.language), source@, result),
            result matches Ok(vector) ==> vector.values@.len() == 3 && vector.labels@.len() == 3
                && vector.labels@[0]@ == "namespace"@ && vector.labels@[1]@ == "structural"@
                && vector.labels@[2]@ == "functional"@,
    {
        match self.counts(source) {
            Ok(values) => {
                assert(values@.len() == integers(values@).len());
                let ghost shape = choose|shape: Seq<int>|
                    are_counts(grammar(self.language), source@, shape, values@);
                let result = Ok(FeatureVector { labels: labels(), values });
                assert(is_mapped_over(grammar(self.language), source@, shape, result));
                result
            },
            Err(error) => {
                let result = Err(error);
                assert(is_mapped_over(
                    grammar(self.language),
                    source@,
                    Seq::<int>::empty(),
                    result,
                ));
                result
            },
        }
    }

    /// Return the feature vector of the new source less that of the old one.
    pub fn map_delta(&self, old_source: &str, new_source: &str) -> (result: Result<
        FeatureVector,
        ParserError,
    >)
        requires
            self.wf(),
            old_source.spec_bytes().len() <= u32::MAX,
            new_source.spec_bytes().len() <= u32::MAX,
        ensures
            is_delta(grammar(self.language), old_source@, new_source@, result),
            result matches Ok(vector) ==> vector.values@.len() == 3 && vector.labels@.len() == 3
                && vector.labels@[0]@ == "namespace"@ && vector.labels@[1]@ == "structural"@
                && vector.labels@[2]@ == "functional"@,
    {
        let ghost language = grammar(self.language);
        let ghost none = Seq::<int>::empty();
        let before = match self.counts(old_source) {
            Ok(counts) => counts,
            Err(error) => {
                let result = Err(error);
                assert(is_delta_over(language, old_source@, none, new_source@, none, result));
                return result;
            },
        };
        let after = match self.counts(new_source) {
            Ok(counts) => counts,
            Err(error) => {
                let result = Err(error);
                assert(is_delta_over(language, old_source@, none, new_source@, none, result));
                return result;
            },
        };
        let ghost old_shape = choose|shape: Seq<int>|
            are_counts(language, old_source@, shape, before@);
        let ghost new_shape = choose|shape: Seq<int>|
            are_counts(language, new_source@, shape, after@);
        proof {
            assert(before@.len() == integers(before@).len() == 3);
            assert(after@.len() == integers(after@).len() == 3);
            assert forall|i: int| 0 <= i < 3 implies i128::MIN <= #[trigger] after@[i] - before@[i]
                <= i128::MAX by {
                assert(0 <= before@[i] <= usize::MAX * 0xffff);
                assert(0 <= after@[i] <= usize::MAX * 0xffff);
            }
        }
        let result = Ok(delta_of(&before, &after));
        assert(is_delta_over(language, old_source@, old_shape, new_source@, new_shape, result));
        result
    }
}

/// If two sources can be mapped, so can the change between them. Its vector is
/// that of the new source less that of the old one, where the parser makes the
/// same tree of a source each time.
pub proof fn law_delta_of_snapshots(
    language_name: Seq<char>,
    old_source: Seq<char>,
    old_shape: Seq<int>,
    new_source: Seq<char>,
    new_shape: Seq<int>,
    old_vector: FeatureVector,
    new_vector: FeatureVector,
    delta: Result<FeatureVector, ParserError>,
)
    requires
        bundle(language_name) is Some,
        is_mapped_over(language_name, old_source, old_shape, Ok(old_vector)),
        is_mapped_over(language_name, new_source, new_shape, Ok(new_vector)),
        is_delta_over(language_name, old_source, old_shape, new_source, new_shape, delta),
    ensures
        is_difference(delta, old_vector, new_vector),
{
    let vector = delta->Ok_0;
    assert forall|i: int| 0 <= i < 3 implies #[trigger] vector.values@[i] == new_vector.values@[i]
        - old_vector.values@[i] by {
        assert(integers(vector.values@)[i] == vector.values@[i]);
        assert(integers(new_vector.values@)[i] == new_vector.values@[i]);
        assert(integers(old_vector.values@)[i] == old_vector.values@[i]);
    }
}

/// A result is the new vector less the old one.
pub open spec fn is_difference(
    delta: Result<FeatureVector, ParserError>,
    old_vector: FeatureVector,
    new_vector: FeatureVector,
) -> bool {
    &&& delta is Ok
    &&& delta->Ok_0.is_labelled()
    &&& forall|i: int|
        0 <= i < 3 ==> #[trigger] delta->Ok_0.values@[i] == new_vector.values@[i]
            - old_vector.values@[i]
}

/// The vector of a change is the difference between those of the sources, for
/// every source in Python or Go, and for every ASCII source in Rust.
pub proof fn law_delta_of_settled_snapshots(
    language_name: Seq<char>,
    old_source: Seq<char>,
    new_source: Seq<char>,
    old_vector: FeatureVector,
    new_vector: FeatureVector,
    delta: Result<FeatureVector, ParserError>,
)
    requires
        bundle(language_name) is Some,
        is_settled(language_name, old_source),
        is_settled(language_name, new_source),
        is_mapped(language_name, old_source, Ok(old_vector)),
        is_mapped(language_name, new_source, Ok(new_vector)),
        is_delta(language_name, old_source, new_source, delta),
    ensures
        is_difference(delta, old_vector, new_vector),
{
    let old_shape = syntax(language_name, old_source);
    let new_shape = syntax(language_name, new_source);
    assert(is_mapped_over(language_name, old_source, old_shape, Ok(old_vector)));
    assert(is_mapped_over(language_name, new_source, new_shape, Ok(new_vector)));
    assert(is_delta_over(language_name, old_source, old_shape, new_source, new_shape, delta));
    law_delta_of_snapshots(
        language_name,
        old_source,
        old_shape,
        new_source,
        new_shape,
        old_vector,
        new_vector,
        delta,
    );
}

/// A source differs from itself by nothing, and the change back turns the sign
/// of every difference, where the parser makes the same tree of a source each
/// time.
pub proof fn law_delta_turns_its_sign(
    language_name: Seq<char>,
    old_source: Seq<char>,
    old_shape: Seq<int>,
    new_source: Seq<char>,
    new_shape: Seq<int>,
    there: FeatureVector,
    back: FeatureVector,
)
    requires
        bundle(language_name) is Some,
        is_delta_over(language_name, old_source, old_shape, new_source, new_shape, Ok(there)),
        is_delta_over(language_name, new_source, new_shape, old_source, old_shape, Ok(back)),
    ensures
        forall|i: int| 0 <= i < 3 ==> #[trigger] there.values@[i] == -back.values@[i],
        old_source == new_source && old_shape == new_shape ==> forall|i: int|
            0 <= i < 3 ==> #[trigger] there.values@[i] == 0,
{
    assert forall|i: int| 0 <= i < 3 implies #[trigger] there.values@[i] == -back.values@[i] by {
        assert(integers(there.values@)[i] == there.values@[i]);
        assert(integers(back.values@)[i] == back.values@[i]);
    }
    if old_source == new_source && old_shape == new_shape {
        assert forall|i: int| 0 <= i < 3 implies #[trigger] there.values@[i] == 0 by {
            assert(integers(there.values@)[i] == there.values@[i]);
        }
    }
}

/// Every source in Python or Go, and every ASCII source in Rust, differs from
/// itself by nothing, and the change back turns the sign of every difference.
pub proof fn law_settled_delta_turns_its_sign(
    language_name: Seq<char>,
    old_source: Seq<char>,
    new_source: Seq<char>,
    there: FeatureVector,
    back: FeatureVector,
)
    requires
        bundle(language_name) is Some,
        is_settled(language_name, old_source),
        is_settled(language_name, new_source),
        is_delta(language_name, old_source, new_source, Ok(there)),
        is_delta(language_name, new_source, old_source, Ok(back)),
    ensures
        forall|i: int| 0 <= i < 3 ==> #[trigger] there.values@[i] == -back.values@[i],
        old_source == new_source ==> forall|i: int|
            0 <= i < 3 ==> #[trigger] there.values@[i] == 0,
{
    let old_shape = syntax(language_name, old_source);
    let new_shape = syntax(language_name, new_source);
    assert(is_delta_over(language_name, old_source, old_shape, new_source, new_shape, Ok(there)));
    assert(is_delta_over(language_name, new_source, new_shape, old_source, old_shape, Ok(back)));
    law_delta_turns_its_sign(
        language_name,
        old_source,
        old_shape,
        new_source,
        new_shape,
        there,
        back,
    );
}

/// The syntax trees of Python and Go sources do not depend on the host.
pub proof fn law_python_and_go_are_settled(text: Seq<char>)
    ensures
        is_settled("python"@, text),
        is_settled("go"@, text),
{
    reveal_strlit("rust");
    reveal_strlit("python");
    reveal_strlit("go");
    assert("rust"@.len() == 4 && "python"@.len() == 6 && "go"@.len() == 2);
}

/// A sum grows by each number that is added to the list, and starts at zero.
pub proof fn law_total(first: Seq<usize>, second: Seq<usize>, n: usize)
    ensures
        total(Seq::<usize>::empty()) == 0,
        total(seq![n]) == n,
        total(first + second) == total(first) + total(second),
    decreases second.len(),
{
    assert(seq![n].drop_last() =~= Seq::<usize>::empty());
    assert(total(seq![n].drop_last()) == 0);
    if second.len() == 0 {
        assert(first + second =~= first);
    } else {
        assert((first + second).drop_last() =~= first + second.drop_last());
        law_total(first, second.drop_last(), n);
    }
}

/// The three values of a vector carry the labels of the groups, and are what
/// the patterns of these groups capture: of Rust the modules and uses, the types,
/// traits and implementations, the functions and closures.
pub proof fn law_rust_vector(source: Seq<char>, shape: Seq<int>, vector: FeatureVector)
    requires
        is_mapped_over("rust"@, source, shape, Ok(vector)),
    ensures
        are_labelled_captures(
            "rust"@,
            source,
            shape,
            vector,
            "(mod_item) @mod\n(use_declaration) @use"@,
            "(struct_item) @struct\n(enum_item) @enum\n(type_item) @type\n(trait_item) @trait\n(impl_item) @impl"@,
            "(function_item) @function\n(closure_expression) @closure"@,
        ),
{
    law_rust_groups();
    lemma_vector("rust"@, source, shape, vector);
}

/// The three values of a vector carry the labels of the groups, and are what
/// the patterns of these groups capture: of Python the modules and imports, the
/// classes, the functions and lambdas.
pub proof fn law_python_vector(source: Seq<char>, shape: Seq<int>, vector: FeatureVector)
    requires
        is_mapped_over("python"@, source, shape, Ok(vector)),
    ensures
        are_labelled_captures(
            "python"@,
            source,
            shape,
            vector,
            "(module) @module\n(import_statement) @import\n(import_from_statement) @import_from"@,
            "(class_definition) @class"@,
            "(function_definition) @function\n(lambda) @lambda"@,
        ),
{
    law_python_groups();
    lemma_vector("python"@, source, shape, vector);
}

/// The three values of a vector carry the labels of the groups, and are what
/// the patterns of these groups capture: of Go the packages and imports, the
/// types, the functions and methods.
pub proof fn law_go_vector(source: Seq<char>, shape: Seq<int>, vector: FeatureVector)
    requires
        is_mapped_over("go"@, source, shape, Ok(vector)),
    ensures
        are_labelled_captures(
            "go"@,
            source,
            shape,
            vector,
            "(package_clause) @package\n(import_spec) @import\n(import_declaration) @import_decl"@,
            "(type_spec) @type\n(struct_type) @struct\n(interface_type) @interface"@,
            "(function_declaration) @function\n(method_declaration) @method\n(func_literal) @func_lit"@,
        ),
{
    law_go_groups();
    lemma_vector("go"@, source, shape, vector);
}

/// A vector holds, under their labels, what three patterns capture.
pub open spec fn are_labelled_captures(
    language: Seq<char>,
    source: Seq<char>,
    shape: Seq<int>,
    vector: FeatureVector,
    namespace: Seq<char>,
    structural: Seq<char>,
    functional: Seq<char>,
) -> bool {
    &&& vector.labels@.len() == 3 && vector.values@.len() == 3
    &&& vector.labels@[0]@ == "namespace"@ && vector.values@[0] == total(
        capture_lengths(language, namespace, shape, source),
    )
    &&& vector.labels@[1]@ == "structural"@ && vector.values@[1] == total(
        capture_lengths(language, structural, shape, source),
    )
    &&& vector.labels@[2]@ == "functional"@ && vector.values@[2] == total(
        capture_lengths(language, functional, shape, source),
    )
}

proof fn lemma_vector(
    language: Seq<char>,
    source: Seq<char>,
    shape: Seq<int>,
    vector: FeatureVector,
)
    requires
        bundle(language) is Some,
        bundle(language)->0.language_name == language,
        is_mapped_over(language, source, shape, Ok(vector)),
    ensures
        are_labelled_captures(
            language,
            source,
            shape,
            vector,
            bundle(language)->0.namespace,
            bundle(language)->0.structural,
            bundle(language)->0.functional,
        ),
{
    assert(integers(vector.values@)[0] == vector.values@[0]);
    assert(integers(vector.values@)[1] == vector.values@[1]);
    assert(integers(vector.values@)[2] == vector.values@[2]);
}

/// The accessors give the values under their labels.
pub proof fn law_value_at(values: Seq<i128>, i: int)
    ensures
        0 <= i < values.len() ==> value_at(values, i) == values[i],
        values.len() <= i ==> value_at(values, i) == 0,
{
}

/// There is a mapper for three languages, unless a group of queries cannot be
/// compiled, which is then the reason: that of the first such group, where names
/// come before structure and structure before functions. For any other language
/// the reason is its name.
pub proof fn law_mapper_faults(name: Seq<char>)
    ensures
        name != "rust"@ && name != "python"@ && name != "go"@ <==> mapper_fault(name) == Some(
            ParserFault::UnknownLanguage(name),
        ),
        bundle(name) matches Some(queries) ==> {
            let first = query_fault(queries.language_name, queries.namespace);
            let second = query_fault(queries.language_name, queries.structural);
            let third = query_fault(queries.language_name, queries.functional);
            &&& first is Some ==> mapper_fault(name) == Some(ParserFault::TreeSitter(first->0))
            &&& first is None && second is Some ==> mapper_fault(name) == Some(
                ParserFault::TreeSitter(second->0),
            )
            &&& first is None && second is None && third is Some ==> mapper_fault(name) == Some(
                ParserFault::TreeSitter(third->0),
            )
            &&& first is None && second is None && third is None ==> mapper_fault(name) is None
        },
        language_fault(name) is None <==> mapping_fault(name) is None,
        language_fault(name) matches Some(text) ==> mapping_fault(name) == Some(
            ParserFault::TreeSitter("failed to set language: "@ + text),
        ),
{
}

/// An error says what kind it is of, and then why.
pub proof fn law_parser_fault_texts(text: Seq<char>)
    ensures
        ParserFault::Io(text).described() == "parser I/O error: "@ + text,
        ParserFault::UnknownLanguage(text).described() == "unsupported language: "@ + text,
        ParserFault::TreeSitter(text).described() == "tree-sitter error: "@ + text,
{
}

} // verus!

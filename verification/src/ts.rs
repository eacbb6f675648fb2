//! The library's side of tree-sitter: the outside types it carries, the
//! names for what tree-sitter computes (the records of a parsed tree, the
//! outcome of compiling and running a query), and the small wrappers that
//! make the calls. Each wrapper only calls tree-sitter and converts values;
//! the outside values themselves stay opaque to the verifier.
use vstd::prelude::*;
use vstd::utf8::*;
use tree_sitter::{Language, Parser, Query, QueryCursor, StreamingIterator, Tree};
use crate::language::Lang;
use crate::matcher::{capture_lists, match_fits, string_views, Capture, Match, Point};
use crate::syntax::{record_view, records_fit, views_wf, RecordView, SyntaxRecord};

verus! {

#[verifier::external_type_specification]
#[verifier::external_body]
pub struct ExLanguage(Language);

#[verifier::external_type_specification]
#[verifier::external_body]
pub struct ExParser(Parser);

#[verifier::external_type_specification]
#[verifier::external_body]
pub struct ExTree(Tree);

#[verifier::external_type_specification]
#[verifier::external_body]
pub struct ExQuery(Query);

/// A tree-sitter grammar, together with the language it is the grammar
/// of. Only the grammar functions below make one, each for its language.
pub struct Grammar {
    language: Language,
    lang: Lang,
}

impl View for Grammar {
    type V = Lang;

    closed spec fn view(&self) -> Lang {
        self.lang
    }
}

impl Grammar {
    /// The tree-sitter `Language` of this grammar, for handing to
    /// tree-sitter directly.
    pub fn language(&self) -> &Language {
        &self.language
    }
}

/// A parser that has been given the grammar of a language.
pub struct LangParser {
    parser: Parser,
    lang: Lang,
}

impl View for LangParser {
    type V = Lang;

    closed spec fn view(&self) -> Lang {
        self.lang
    }
}

/// A syntax tree, together with the language and the text it was parsed
/// from.
pub struct ParsedText<'a> {
    tree: Tree,
    lang: Lang,
    text: &'a str,
}

impl<'a> View for ParsedText<'a> {
    type V = (Lang, Seq<char>);

    closed spec fn view(&self) -> (Lang, Seq<char>) {
        (self.lang, self.text@)
    }
}

/// A compiled query, together with the language and the text it was
/// compiled from.
pub struct CompiledQuery<'a> {
    query: Query,
    lang: Lang,
    text: &'a str,
}

impl<'a> View for CompiledQuery<'a> {
    type V = (Lang, Seq<char>);

    closed spec fn view(&self) -> (Lang, Seq<char>) {
        (self.lang, self.text@)
    }
}

// The `Display` text of the error with which `Parser::set_language` refuses
// the grammar of `lang`; `None` when it takes the grammar.
pub uninterp spec fn language_refusal(lang: Lang) -> Option<Seq<char>>;

// The records of the nodes of the tree that the grammar of `lang` parses
// `text` into, in preorder (the order of `TreeCursor::goto_descendant`),
// each with its depth below the root.
pub uninterp spec fn parsed_records(lang: Lang, text: Seq<char>) -> Seq<RecordView>;

// The row, column and message of the error with which `Query::new` refuses
// the query `source` for the grammar of `lang`; `None` when it compiles.
pub uninterp spec fn query_refusal(lang: Lang, source: Seq<char>) -> Option<(usize, usize, Seq<char>)>;

// The capture names of the query `source` for the grammar of `lang`, in
// the order of their indices.
pub uninterp spec fn query_names(lang: Lang, source: Seq<char>) -> Seq<Seq<char>>;

// The captures of each match, in the order `QueryCursor::matches` yields
// them, of the query `source` for the grammar of `lang` run over the tree
// that `text` parses into, with `text` as the text of the nodes.
pub uninterp spec fn query_captures(lang: Lang, source: Seq<char>, text: Seq<char>) -> Seq<Seq<Capture>>;

/// `Parser::new`: a parser with no language yet. No claim is made of it.
#[verifier::external_body]
pub(crate) fn new_parser() -> Parser {
    Parser::new()
}

/// `Parser::set_language` with the grammar `g`. Claimed: it refuses the
/// grammar, with the error whose `Display` text is returned, exactly when
/// `language_refusal` of the grammar's language says so; otherwise the
/// parser, now holding that grammar, comes back.
#[verifier::external_body]
pub(crate) fn set_parser_language(parser: Parser, g: &Grammar) -> (res: Result<LangParser, String>)
    ensures
        match language_refusal(g@) {
            None => res matches Ok(p) && p@ == g@,
            Some(m) => res matches Err(e) && e@ == m,
        },
{
    let mut parser = parser;
    match parser.set_language(&g.language) {
        Ok(()) => Ok(LangParser { parser, lang: g.lang }),
        Err(e) => Err(e.to_string()),
    }
}

/// `Parser::parse` of `text`, with no earlier tree. tree-sitter's
/// documentation promises a tree whenever the parser has a language, as a
/// `LangParser` has; claimed: a tree comes back, of the parser's language
/// and `text`, and the parser keeps its language. Claimed too, of the
/// tree's nodes as `goto_descendant` visits them: they are a preorder walk
/// (the root at depth 0, then each node at most one level below the one
/// before it and below the root), and each spans bytes of `text` that start
/// and end on character boundaries, since tree-sitter's lexer reads whole
/// characters and a node spans its tokens.
#[verifier::external_body]
pub(crate) fn parse_text<'a>(parser: &mut LangParser, text: &'a str) -> (res: Option<ParsedText<'a>>)
    ensures
        res matches Some(t) && t@ == (old(parser)@, text@),
        res is Some ==> views_wf(parsed_records(old(parser)@, text@)),
        res is Some ==> records_fit(encode_utf8(text@), parsed_records(old(parser)@, text@)),
        final(parser)@ == old(parser)@,
{
    match parser.parser.parse(text, None) {
        Some(tree) => Some(ParsedText { tree, lang: parser.lang, text }),
        None => None,
    }
}

/// `Node::descendant_count` of `Tree::root_node`: the number of nodes in
/// the tree, the root included. Claimed: it is the number of the tree's
/// preorder records.
#[verifier::external_body]
pub(crate) fn record_count(t: &ParsedText) -> (res: usize)
    ensures
        res == parsed_records(t@.0, t@.1).len(),
{
    t.tree.root_node().descendant_count()
}

/// The record of the node with preorder index `i`: a fresh `Tree::walk`
/// moved there by `TreeCursor::goto_descendant`, the cursor's `depth`, and
/// the node's `kind`, `is_named`, byte range and positions. Claimed: it is
/// record `i` of the tree's preorder records.
#[verifier::external_body]
pub(crate) fn record_at(t: &ParsedText, i: usize) -> (res: SyntaxRecord)
    requires
        i < parsed_records(t@.0, t@.1).len(),
    ensures
        record_view(res) == parsed_records(t@.0, t@.1)[i as int],
{
    let mut cursor = t.tree.walk();
    cursor.goto_descendant(i);
    let node = cursor.node();
    let (s, e) = (node.start_position(), node.end_position());
    SyntaxRecord {
        depth: cursor.depth() as usize,
        kind: node.kind().to_string(),
        named: node.is_named(),
        start_byte: node.start_byte(),
        end_byte: node.end_byte(),
        start_point: Point { row: s.row, column: s.column },
        end_point: Point { row: e.row, column: e.column },
    }
}

/// `Query::new` of `source` for the grammar `g`. Claimed: it refuses the
/// query, with the public `row`, `column` and `message` of its error,
/// exactly when `query_refusal` says so; otherwise the compiled query comes
/// back.
#[verifier::external_body]
pub(crate) fn compile_query<'a>(g: &Grammar, source: &'a str) -> (res: Result<
    CompiledQuery<'a>,
    (usize, usize, String),
>)
    ensures
        match query_refusal(g@, source@) {
            None => res matches Ok(q) && q@ == (g@, source@),
            Some(r) => res matches Err(e) && e.0 == r.0 && e.1 == r.1 && e.2@ == r.2,
        },
{
    match Query::new(&g.language, source) {
        Ok(query) => Ok(CompiledQuery { query, lang: g.lang, text: source }),
        Err(e) => Err((e.row, e.column, e.message)),
    }
}

/// `Query::capture_names`, copied into `String`s. Claimed: they are
/// `query_names` of the query's language and text.
#[verifier::external_body]
pub(crate) fn capture_names(q: &CompiledQuery) -> (res: Vec<String>)
    ensures
        string_views(res@) == query_names(q@.0, q@.1),
{
    q.query.capture_names().iter().map(|n| n.to_string()).collect()
}

/// Runs `QueryCursor::matches` of `q` over the whole tree of `t`, with the
/// text of `t`, and hands out the captures of every match that the
/// streaming iterator yields, in order: each capture's index and its
/// node's byte range and positions. Claimed: they are `query_captures` of
/// the query and the text, and, each captured node being a node of the
/// tree, each lies in the text on character boundaries (see `parse_text`).
#[verifier::external_body]
pub(crate) fn run_query(q: &CompiledQuery, t: &ParsedText) -> (res: Vec<Vec<Capture>>)
    requires
        q@.0 == t@.0,
    ensures
        capture_lists(res@) == query_captures(q@.0, q@.1, t@.1),
        forall|i: int, j: int|
            0 <= i < res@.len() && 0 <= j < res@[i]@.len() ==> match_fits(
                encode_utf8(t@.1),
                #[trigger] res@[i]@[j].location,
            ),
{
    let pt = |p: tree_sitter::Point| Point { row: p.row, column: p.column };
    let mut cursor = QueryCursor::new();
    let mut it = cursor.matches(&q.query, t.tree.root_node(), t.text.as_bytes());
    let mut out = Vec::new();
    while let Some(m) = it.next() {
        out.push(m.captures().iter().map(|c| {
            let n = c.node;
            let location = Match { start_byte: n.start_byte(), end_byte: n.end_byte(), start_point: pt(n.start_position()), end_point: pt(n.end_position()) };
            Capture { index: c.index, location }
        }).collect());
    }
    out
}

/// The Java grammar: the grammar crate's `LANGUAGE` constant, converted
/// into a `tree_sitter::Language`. Claimed: it is the grammar of
/// `Lang::Java`, which the result is tagged with.
#[verifier::external_body]
pub(crate) fn java_grammar() -> (res: Grammar)
    ensures
        res@ == Lang::Java,
{
    Grammar { language: tree_sitter_java::LANGUAGE.into(), lang: Lang::Java }
}

/// The Python grammar: the grammar crate's `LANGUAGE` constant, converted
/// into a `tree_sitter::Language`. Claimed: it is the grammar of
/// `Lang::Python`, which the result is tagged with.
#[verifier::external_body]
pub(crate) fn python_grammar() -> (res: Grammar)
    ensures
        res@ == Lang::Python,
{
    Grammar { language: tree_sitter_python::LANGUAGE.into(), lang: Lang::Python }
}

/// The JavaScript grammar: the grammar crate's `LANGUAGE` constant, converted
/// into a `tree_sitter::Language`. Claimed: it is the grammar of
/// `Lang::JavaScript`, which the result is tagged with.
#[verifier::external_body]
pub(crate) fn javascript_grammar() -> (res: Grammar)
    ensures
        res@ == Lang::JavaScript,
{
    Grammar { language: tree_sitter_javascript::LANGUAGE.into(), lang: Lang::JavaScript }
}

/// The TypeScript grammar: the grammar crate's `LANGUAGE_TYPESCRIPT` constant, converted
/// into a `tree_sitter::Language`. Claimed: it is the grammar of
/// `Lang::TypeScript`, which the result is tagged with.
#[verifier::external_body]
pub(crate) fn typescript_grammar() -> (res: Grammar)
    ensures
        res@ == Lang::TypeScript,
{
    Grammar { language: tree_sitter_typescript::LANGUAGE_TYPESCRIPT.into(), lang: Lang::TypeScript }
}

/// The TSX grammar: the grammar crate's `LANGUAGE_TSX` constant, converted
/// into a `tree_sitter::Language`. Claimed: it is the grammar of
/// `Lang::Tsx`, which the result is tagged with.
#[verifier::external_body]
pub(crate) fn tsx_grammar() -> (res: Grammar)
    ensures
        res@ == Lang::Tsx,
{
    Grammar { language: tree_sitter_typescript::LANGUAGE_TSX.into(), lang: Lang::Tsx }
}

/// The Rust grammar: the grammar crate's `LANGUAGE` constant, converted
/// into a `tree_sitter::Language`. Claimed: it is the grammar of
/// `Lang::Rust`, which the result is tagged with.
#[verifier::external_body]
pub(crate) fn rust_grammar() -> (res: Grammar)
    ensures
        res@ == Lang::Rust,
{
    Grammar { language: tree_sitter_rust::LANGUAGE.into(), lang: Lang::Rust }
}

/// The Go grammar: the grammar crate's `LANGUAGE` constant, converted
/// into a `tree_sitter::Language`. Claimed: it is the grammar of
/// `Lang::Go`, which the result is tagged with.
#[verifier::external_body]
pub(crate) fn go_grammar() -> (res: Grammar)
    ensures
        res@ == Lang::Go,
{
    Grammar { language: tree_sitter_go::LANGUAGE.into(), lang: Lang::Go }
}

/// The Ruby grammar: the grammar crate's `LANGUAGE` constant, converted
/// into a `tree_sitter::Language`. Claimed: it is the grammar of
/// `Lang::Ruby`, which the result is tagged with.
#[verifier::external_body]
pub(crate) fn ruby_grammar() -> (res: Grammar)
    ensures
        res@ == Lang::Ruby,
{
    Grammar { language: tree_sitter_ruby::LANGUAGE.into(), lang: Lang::Ruby }
}

/// The C grammar: the grammar crate's `LANGUAGE` constant, converted
/// into a `tree_sitter::Language`. Claimed: it is the grammar of
/// `Lang::C`, which the result is tagged with.
#[verifier::external_body]
pub(crate) fn c_grammar() -> (res: Grammar)
    ensures
        res@ == Lang::C,
{
    Grammar { language: tree_sitter_c::LANGUAGE.into(), lang: Lang::C }
}

/// The C++ grammar: the grammar crate's `LANGUAGE` constant, converted
/// into a `tree_sitter::Language`. Claimed: it is the grammar of
/// `Lang::Cpp`, which the result is tagged with.
#[verifier::external_body]
pub(crate) fn cpp_grammar() -> (res: Grammar)
    ensures
        res@ == Lang::Cpp,
{
    Grammar { language: tree_sitter_cpp::LANGUAGE.into(), lang: Lang::Cpp }
}

/// The C# grammar: the grammar crate's `LANGUAGE` constant, converted
/// into a `tree_sitter::Language`. Claimed: it is the grammar of
/// `Lang::CSharp`, which the result is tagged with.
#[verifier::external_body]
pub(crate) fn csharp_grammar() -> (res: Grammar)
    ensures
        res@ == Lang::CSharp,
{
    Grammar { language: tree_sitter_c_sharp::LANGUAGE.into(), lang: Lang::CSharp }
}

/// The PHP grammar: the grammar crate's `LANGUAGE_PHP` constant, converted
/// into a `tree_sitter::Language`. Claimed: it is the grammar of
/// `Lang::Php`, which the result is tagged with.
#[verifier::external_body]
pub(crate) fn php_grammar() -> (res: Grammar)
    ensures
        res@ == Lang::Php,
{
    Grammar { language: tree_sitter_php::LANGUAGE_PHP.into(), lang: Lang::Php }
}

/// The Bash grammar: the grammar crate's `LANGUAGE` constant, converted
/// into a `tree_sitter::Language`. Claimed: it is the grammar of
/// `Lang::Bash`, which the result is tagged with.
#[verifier::external_body]
pub(crate) fn bash_grammar() -> (res: Grammar)
    ensures
        res@ == Lang::Bash,
{
    Grammar { language: tree_sitter_bash::LANGUAGE.into(), lang: Lang::Bash }
}

} // verus!

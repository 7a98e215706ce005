//! The spans that are recognised in source files: comments, strings, scopes
//! and the starts of declarations.

use vstd::prelude::*;
use crate::matcher::{Matcher, Pattern};
use crate::parser::{
    never, skip_pattern, verbatim_pattern, Descriptor, Kind, NestedParser, PARSER_IDENTIFIER_TAG,
    PARSER_PUB_TYPE_TAG, PARSER_TYPE_TAG,
};
use crate::scanner::MatcherSet;
use crate::text::chars_of;

verus! {

/// The name of the spans that bring a module or an item into a file.
pub const MODULE_IMPORT_TAG: &'static str = "import";

/// The name of the spans that declare something visible outside its file.
pub const PARSER_EXPORT_TAG: &'static str = "export";

/// The name of the span of the marker comment.
pub const PARSER_AUTO_EXPORTS_TRIGGER_TAG: &'static str = "auto_exports_trigger";

/// How deep the spans of a source file may be nested.
pub const MAX_DEPTH: usize = 256;

/// White space, as much as there is.
pub open spec fn spaces() -> Pattern {
    Pattern::space().any_number()
}

/// White space, at least one character of it.
pub open spec fn some_space() -> Pattern {
    Pattern::space().at_least_once()
}

/// A character that an identifier may start with.
pub open spec fn identifier_start() -> Pattern {
    Pattern::range('a', 'z').or(Pattern::range('A', 'Z')).or(Pattern::lit("_"@))
}

/// A character that an identifier may go on with.
pub open spec fn identifier_rest() -> Pattern {
    identifier_start().or(Pattern::range('0', '9'))
}

/// An identifier.
pub open spec fn plain_identifier() -> Pattern {
    identifier_start().followed_by(identifier_rest().any_number())
}

/// An identifier, kept as a span.
pub open spec fn identifier_pattern() -> Pattern {
    plain_identifier().named(PARSER_IDENTIFIER_TAG@)
}

/// A visibility qualifier, kept as a span: `pub`, `pub(crate)` or
/// `pub(super)`.
pub open spec fn pub_type_pattern() -> Pattern {
    Pattern::lit("pub"@).followed_by(
        Pattern::lit("("@).followed_by(spaces()).followed_by(
            Pattern::lit("crate"@).or(Pattern::lit("super"@)),
        ).followed_by(spaces()).followed_by(Pattern::lit(")"@)).optional(),
    ).named(PARSER_PUB_TYPE_TAG@)
}

/// A visibility qualifier and the white space after it, or nothing.
pub open spec fn optional_pub_type_pattern() -> Pattern {
    pub_type_pattern().followed_by(some_space()).optional()
}

/// One of the given words, the first that matches.
pub open spec fn any_of(words: Seq<Seq<char>>) -> Pattern
    decreases words.len(),
{
    if words.len() == 0 {
        Pattern::lit(Seq::empty()).not()
    } else {
        Pattern::lit(words[0]).or(any_of(words.drop_first()))
    }
}

/// The keywords that start a declaration in a module file and are
/// followed by the identifier that is declared. The keyword `use` starts
/// one too, and has a pattern of its own.
pub open spec fn declaration_keywords() -> Seq<Seq<char>> {
    seq![
        "struct"@,
        "enum"@,
        "fn"@,
        "trait"@,
        "impl"@,
        "mod"@,
        "const"@,
        "static"@,
        "type"@,
        "crate"@,
        "macro"@,
    ]
}

/// The keywords of the declarations that a file exports by name.
pub open spec fn export_keywords() -> Seq<Seq<char>> {
    seq!["struct"@, "trait"@, "fn"@, "const"@, "static"@]
}

/// One of the keywords, kept as a span, and the identifier after it.
pub open spec fn keyword_pattern(keywords: Seq<Seq<char>>) -> Pattern {
    any_of(keywords).named(PARSER_TYPE_TAG@).followed_by(some_space()).followed_by(
        identifier_pattern(),
    )
}

/// The start of a declaration: a visibility qualifier, one of the
/// keywords, and the identifier.
pub open spec fn declaration_pattern(keywords: Seq<Seq<char>>) -> Pattern {
    pub_type_pattern().followed_by(some_space()).followed_by(keyword_pattern(keywords))
}

/// A comma with the white space around it.
pub open spec fn comma() -> Pattern {
    spaces().followed_by(Pattern::lit(","@)).followed_by(spaces())
}

/// A list of identifiers between braces, each kept as a span; a comma may
/// follow the last.
pub open spec fn use_list() -> Pattern {
    Pattern::lit("{"@).followed_by(spaces()).followed_by(identifier_pattern()).followed_by(
        comma().followed_by(identifier_pattern()).any_number(),
    ).followed_by(comma().or(spaces())).followed_by(Pattern::lit("}"@))
}

/// A re-export: the keyword `use`, a path, and at its end the identifier
/// or the list of identifiers that is re-exported.
pub open spec fn use_pattern() -> Pattern {
    Pattern::lit("use"@).named(PARSER_TYPE_TAG@).followed_by(some_space()).followed_by(
        plain_identifier().followed_by(Pattern::lit("::"@)).any_number(),
    ).followed_by(use_list().or(identifier_pattern()))
}

/// The start of a declaration in a module file: a visibility qualifier,
/// and then a re-export, or one of the keywords with its identifier.
pub open spec fn module_declaration_pattern() -> Pattern {
    pub_type_pattern().followed_by(some_space()).followed_by(
        use_pattern().or(keyword_pattern(declaration_keywords())),
    )
}

/// An import: an optional visibility qualifier, the keyword, and what is
/// imported, up to the semicolon.
pub open spec fn import_pattern(keyword: Seq<char>) -> Pattern {
    optional_pub_type_pattern().followed_by(
        Pattern::lit(keyword).named(PARSER_TYPE_TAG@),
    ).followed_by(some_space()).followed_by(
        Pattern::lit(";"@).not().at_least_once().named(PARSER_IDENTIFIER_TAG@),
    )
}

/// A string literal: a backslash keeps a double quote from ending it.
pub open spec fn string_pattern() -> Pattern {
    Pattern::lit("\""@).followed_by(
        Pattern::lit("\\\""@).or(Pattern::lit("\""@).not()).any_number(),
    ).followed_by(Pattern::lit("\""@))
}

/// A comment: of one line, or between `/*` and `*/`.
pub open spec fn comment_pattern() -> Pattern {
    Pattern::lit("//"@).followed_by(Pattern::lit("\n"@).not().any_number()).followed_by(
        Pattern::lit("\n"@),
    ).or(
        Pattern::lit("/*"@).followed_by(Pattern::lit("*/"@).not().any_number()).followed_by(
            Pattern::lit("*/"@),
        ),
    )
}

/// The marker comment: the comment sign, white space, and the tag.
pub open spec fn trigger_pattern() -> Pattern {
    Pattern::lit("//"@).followed_by(spaces()).followed_by(Pattern::lit("auto-exports"@))
}

/// A scope between braces; strings and comments inside are passed over
/// unread.
pub open spec fn scope_pattern() -> Pattern {
    Pattern::Scope {
        open: "{"@,
        close: "}"@,
        skip: Box::new(string_pattern().or(comment_pattern())),
    }
}

/// The spans that are looked for in a file when its imports and exports
/// are collected, in order of priority.
pub open spec fn imports_exports_grammar() -> Seq<(Seq<char>, Pattern)> {
    seq![
        (MODULE_IMPORT_TAG@, import_pattern("mod"@)),
        (MODULE_IMPORT_TAG@, import_pattern("use"@)),
        (PARSER_EXPORT_TAG@, declaration_pattern(export_keywords())),
        (PARSER_AUTO_EXPORTS_TRIGGER_TAG@, trigger_pattern()),
        ("string"@, string_pattern()),
        ("comment"@, comment_pattern()),
        ("scope"@, scope_pattern()),
    ]
}

fn spaces_matcher() -> (r: Matcher)
    ensures
        r@ == spaces(),
{
    Matcher::optional_repeat_max(Matcher::whitespace())
}

fn some_space_matcher() -> (r: Matcher)
    ensures
        r@ == some_space(),
{
    Matcher::repeat_max(Matcher::whitespace())
}

fn identifier_start_matcher() -> (r: Matcher)
    ensures
        r@ == identifier_start(),
{
    Matcher::range('a', 'z').or(Matcher::range('A', 'Z')).or(Matcher::new("_"))
}

fn plain_identifier_matcher() -> (r: Matcher)
    ensures
        r@ == plain_identifier(),
{
    let rest = identifier_start_matcher().or(Matcher::range('0', '9'));
    identifier_start_matcher().followed_by(Matcher::optional_repeat_max(rest))
}

fn identifier_matcher() -> (r: Matcher)
    ensures
        r@ == identifier_pattern(),
{
    Matcher::named(PARSER_IDENTIFIER_TAG, plain_identifier_matcher())
}

fn comma_matcher() -> (r: Matcher)
    ensures
        r@ == comma(),
{
    spaces_matcher().followed_by(Matcher::new(",")).followed_by(spaces_matcher())
}

fn use_list_matcher() -> (r: Matcher)
    ensures
        r@ == use_list(),
{
    Matcher::new("{").followed_by(spaces_matcher()).followed_by(identifier_matcher()).followed_by(
        Matcher::optional_repeat_max(comma_matcher().followed_by(identifier_matcher())),
    ).followed_by(comma_matcher().or(spaces_matcher())).followed_by(Matcher::new("}"))
}

fn use_matcher() -> (r: Matcher)
    ensures
        r@ == use_pattern(),
{
    Matcher::named(PARSER_TYPE_TAG, Matcher::new("use")).followed_by(
        some_space_matcher(),
    ).followed_by(
        Matcher::optional_repeat_max(plain_identifier_matcher().followed_by(Matcher::new("::"))),
    ).followed_by(use_list_matcher().or(identifier_matcher()))
}

fn pub_type_matcher() -> (r: Matcher)
    ensures
        r@ == pub_type_pattern(),
{
    let scope = Matcher::new("(").followed_by(spaces_matcher()).followed_by(
        Matcher::new("crate").or(Matcher::new("super")),
    ).followed_by(spaces_matcher()).followed_by(Matcher::new(")"));
    Matcher::named(PARSER_PUB_TYPE_TAG, Matcher::new("pub").followed_by(Matcher::optional(scope)))
}

fn optional_pub_type_matcher() -> (r: Matcher)
    ensures
        r@ == optional_pub_type_pattern(),
{
    Matcher::optional(pub_type_matcher().followed_by(some_space_matcher()))
}

/// The views of a list of words.
pub open spec fn words_view(words: Seq<&'static str>) -> Seq<Seq<char>> {
    Seq::new(words.len(), |i: int| words[i]@)
}

/// A matcher for one of the given words, the first that matches.
pub fn any_of_matcher(words: &Vec<&'static str>) -> (r: Matcher)
    ensures
        r@ == any_of(words_view(words@)),
{
    let ghost all = words_view(words@);
    let mut r = Matcher::new("").not();
    let mut i: usize = words.len();
    proof {
        reveal_strlit("");
        assert(""@ =~= Seq::<char>::empty());
        assert(all.skip(i as int).len() == 0);
    }
    while i > 0
        invariant
            i <= words@.len(),
            all == words_view(words@),
            r@ == any_of(all.skip(i as int)),
        decreases i,
    {
        i -= 1;
        r = Matcher::new(words[i]).or(r);
        proof {
            assert(all.skip(i as int)[0] == words@[i as int]@);
            assert(all.skip(i as int).drop_first() =~= all.skip(i + 1));
        }
    }
    assert(all.skip(0) =~= all);
    r
}

fn keyword_matcher(words: &Vec<&'static str>) -> (r: Matcher)
    ensures
        r@ == keyword_pattern(words_view(words@)),
{
    Matcher::named(PARSER_TYPE_TAG, any_of_matcher(words)).followed_by(
        some_space_matcher(),
    ).followed_by(identifier_matcher())
}

fn declaration_matcher(words: &Vec<&'static str>) -> (r: Matcher)
    ensures
        r@ == declaration_pattern(words_view(words@)),
{
    pub_type_matcher().followed_by(some_space_matcher()).followed_by(keyword_matcher(words))
}

fn module_declaration_matcher() -> (r: Matcher)
    ensures
        r@ == module_declaration_pattern(),
{
    pub_type_matcher().followed_by(some_space_matcher()).followed_by(
        use_matcher().or(keyword_matcher(&declaration_words())),
    )
}

fn import_matcher(keyword: &'static str) -> (r: Matcher)
    ensures
        r@ == import_pattern(keyword@),
{
    optional_pub_type_matcher().followed_by(
        Matcher::named(PARSER_TYPE_TAG, Matcher::new(keyword)),
    ).followed_by(some_space_matcher()).followed_by(
        Matcher::named(PARSER_IDENTIFIER_TAG, Matcher::repeat_max(Matcher::new(";").not())),
    )
}

fn string_matcher() -> (r: Matcher)
    ensures
        r@ == string_pattern(),
{
    Matcher::new("\"").followed_by(
        Matcher::optional_repeat_max(Matcher::new("\\\"").or(Matcher::new("\"").not())),
    ).followed_by(Matcher::new("\""))
}

fn comment_matcher() -> (r: Matcher)
    ensures
        r@ == comment_pattern(),
{
    Matcher::new("//").followed_by(
        Matcher::optional_repeat_max(Matcher::new("\n").not()),
    ).followed_by(Matcher::new("\n")).or(
        Matcher::new("/*").followed_by(
            Matcher::optional_repeat_max(Matcher::new("*/").not()),
        ).followed_by(Matcher::new("*/")),
    )
}

fn trigger_matcher() -> (r: Matcher)
    ensures
        r@ == trigger_pattern(),
{
    Matcher::new("//").followed_by(spaces_matcher()).followed_by(Matcher::new("auto-exports"))
}

fn scope_matcher() -> (r: Matcher)
    ensures
        r@ == scope_pattern(),
{
    Matcher::Scope {
        open: chars_of("{"),
        close: chars_of("}"),
        skip: Box::new(string_matcher().or(comment_matcher())),
    }
}

/// The words of `export_keywords`.
fn export_words() -> (r: Vec<&'static str>)
    ensures
        words_view(r@) == export_keywords(),
{
    let r = vec!["struct", "trait", "fn", "const", "static"];
    assert(words_view(r@) =~= export_keywords());
    r
}

/// The words of `declaration_keywords`.
fn declaration_words() -> (r: Vec<&'static str>)
    ensures
        words_view(r@) == declaration_keywords(),
{
    let r = vec![
        "struct",
        "enum",
        "fn",
        "trait",
        "impl",
        "mod",
        "const",
        "static",
        "type",
        "crate",
        "macro",
    ];
    assert(words_view(r@) =~= declaration_keywords());
    r
}

/// The matchers with which the imports and exports of a file are
/// collected: imports of modules and of items, exported declarations, the
/// marker comment, and strings, comments and scopes, which are passed over.
pub fn imports_exports_parser() -> (r: MatcherSet)
    ensures
        r@ == imports_exports_grammar(),
{
    let r = MatcherSet::new().with_matcher(MODULE_IMPORT_TAG, import_matcher("mod")).with_matcher(
        MODULE_IMPORT_TAG,
        import_matcher("use"),
    ).with_matcher(PARSER_EXPORT_TAG, declaration_matcher(&export_words())).with_matcher(
        PARSER_AUTO_EXPORTS_TRIGGER_TAG,
        trigger_matcher(),
    ).with_matcher("string", string_matcher()).with_matcher(
        "comment",
        comment_matcher(),
    ).with_matcher("scope", scope_matcher());
    assert(r@ =~= imports_exports_grammar());
    r
}



/// What is passed over unread inside the scopes of a source file: comments
/// and strings.
pub open spec fn contents_skip() -> Pattern {
    verbatim_pattern("///"@, "\n"@, None).or(
        verbatim_pattern("//"@, "\n"@, None).or(
            verbatim_pattern("/*"@, "*/"@, None).or(
                verbatim_pattern("\""@, "\""@, Some('\\')).or(never()),
            ),
        ),
    )
}

/// The spans that a source file is parsed into, in order of priority: the
/// three kinds of comment, strings, scopes between braces, and the starts
/// of declarations.
pub open spec fn contents_grammar() -> Seq<(Seq<char>, Pattern)> {
    seq![
        ("doc-comment"@, verbatim_pattern("///"@, "\n"@, None)),
        ("single-line-comment"@, verbatim_pattern("//"@, "\n"@, None)),
        ("multi-line-comment"@, verbatim_pattern("/*"@, "*/"@, None)),
        ("quote"@, verbatim_pattern("\""@, "\""@, Some('\\'))),
        ("scope"@, Pattern::Scope { open: "{"@, close: "}"@, skip: Box::new(contents_skip()) }),
        ("export"@, module_declaration_pattern()),
    ]
}

/// Whether `d` is a verbatim descriptor with the given name, delimiters and
/// escape character.
pub open spec fn is_verbatim(
    d: Descriptor,
    name: Seq<char>,
    open: Seq<char>,
    close: Seq<char>,
    escape: Option<char>,
) -> bool {
    d matches Descriptor::Verbatim { name: n, open: o, close: c, escape: e } && n@ == name && o@
        == open && c@ == close && e == escape
}

/// The token descriptors of a source file.
pub fn contents_descriptors() -> (r: Vec<Descriptor>)
    ensures
        r@.len() == 6,
        is_verbatim(r@[0], "doc-comment"@, "///"@, "\n"@, None),
        is_verbatim(r@[1], "single-line-comment"@, "//"@, "\n"@, None),
        is_verbatim(r@[2], "multi-line-comment"@, "/*"@, "*/"@, None),
        is_verbatim(r@[3], "quote"@, "\""@, "\""@, Some('\\')),
        r@[4] matches Descriptor::Nested { name, open, close } && name@ == "scope"@ && open@
            == "{"@ && close@ == "}"@,
        r@[5] matches Descriptor::Trigger { name, pattern } && name@ == "export"@ && pattern@
            == module_declaration_pattern(),
{
    let mut r: Vec<Descriptor> = Vec::new();
    r.push(
        Descriptor::Verbatim {
            name: chars_of("doc-comment"),
            open: chars_of("///"),
            close: chars_of("\n"),
            escape: None,
        },
    );
    r.push(
        Descriptor::Verbatim {
            name: chars_of("single-line-comment"),
            open: chars_of("//"),
            close: chars_of("\n"),
            escape: None,
        },
    );
    r.push(
        Descriptor::Verbatim {
            name: chars_of("multi-line-comment"),
            open: chars_of("/*"),
            close: chars_of("*/"),
            escape: None,
        },
    );
    r.push(
        Descriptor::Verbatim {
            name: chars_of("quote"),
            open: chars_of("\""),
            close: chars_of("\""),
            escape: Some('\\'),
        },
    );
    r.push(
        Descriptor::Nested { name: chars_of("scope"), open: chars_of("{"), close: chars_of("}") },
    );
    r.push(
        Descriptor::Trigger {
            name: chars_of("export"),
            pattern: module_declaration_matcher(),
        },
    );
    r
}

/// The parser of source files.
pub fn contents_parser() -> (r: NestedParser)
    ensures
        r.wf(),
        r.max_depth == MAX_DEPTH,
        r.set@ == contents_grammar(),
        r.kinds@.len() == 6,
        r.kinds@[0] matches Kind::Verbatim { open } && open@ == "///"@,
        r.kinds@[1] matches Kind::Verbatim { open } && open@ == "//"@,
        r.kinds@[2] matches Kind::Verbatim { open } && open@ == "/*"@,
        r.kinds@[3] matches Kind::Verbatim { open } && open@ == "\""@,
        r.kinds@[4] matches Kind::Nested { open, close } && open@ == "{"@ && close@ == "}"@,
        r.kinds@[5] is Trigger,
{
    let descriptors = contents_descriptors();
    let r = NestedParser::new(&descriptors, MAX_DEPTH);
    proof {
        reveal_with_fuel(skip_pattern, 8);
        assert(skip_pattern(descriptors@, 0) == contents_skip());
        assert(r.set@ =~= contents_grammar());
        assert(descriptors@[0].has_kind(r.kinds@[0]));
        assert(descriptors@[1].has_kind(r.kinds@[1]));
        assert(descriptors@[2].has_kind(r.kinds@[2]));
        assert(descriptors@[3].has_kind(r.kinds@[3]));
        assert(descriptors@[4].has_kind(r.kinds@[4]));
        assert(descriptors@[5].has_kind(r.kinds@[5]));
    }
    r
}

} // verus!

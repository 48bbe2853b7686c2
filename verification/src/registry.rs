//! The parser registry: which grammar and which capture query serve a file
//! extension.

use vstd::prelude::*;
use vstd::string::*;
use crate::text::same_text;

verus! {

/// The grammars that the index can parse.
#[derive(Clone, Copy, Debug, PartialEq, Eq, Structural)]
pub enum SourceLanguage {
    Python,
    JavaScript,
    TypeScript,
    Tsx,
    Go,
    Rust,
    Java,
    C,
    Cpp,
}

/// The grammar for a lower-case file extension, if it is supported.
pub open spec fn language_of(ext: Seq<char>) -> Option<SourceLanguage> {
    if ext == "py"@ {
        Some(SourceLanguage::Python)
    } else if ext == "js"@ || ext == "mjs"@ || ext == "cjs"@ {
        Some(SourceLanguage::JavaScript)
    } else if ext == "ts"@ {
        Some(SourceLanguage::TypeScript)
    } else if ext == "tsx"@ {
        Some(SourceLanguage::Tsx)
    } else if ext == "go"@ {
        Some(SourceLanguage::Go)
    } else if ext == "rs"@ {
        Some(SourceLanguage::Rust)
    } else if ext == "java"@ {
        Some(SourceLanguage::Java)
    } else if ext == "c"@ || ext == "h"@ {
        Some(SourceLanguage::C)
    } else if ext == "cpp"@ || ext == "cc"@ || ext == "hpp"@ {
        Some(SourceLanguage::Cpp)
    } else {
        None
    }
}

/// The capture query of a grammar. Every query names the definition's name
/// node `@name`, the definition `@def.func` or `@def.class`, the callee
/// `@callee` and the call `@ref.call`.
pub open spec fn query_of(lang: SourceLanguage) -> Seq<char> {
    match lang {
        SourceLanguage::Python =>
            "(function_definition name: (identifier) @name) @def.func\n(class_definition name: (identifier) @name) @def.class\n(call function: (identifier) @callee) @ref.call\n(call function: (attribute attribute: (identifier) @callee)) @ref.call\n"@,
        SourceLanguage::JavaScript =>
            "(function_declaration name: (identifier) @name) @def.func\n(class_declaration name: (identifier) @name) @def.class\n(call_expression function: (identifier) @callee) @ref.call\n(call_expression function: (member_expression property: (property_identifier) @callee)) @ref.call\n"@,
        SourceLanguage::TypeScript | SourceLanguage::Tsx =>
            "(function_declaration name: (identifier) @name) @def.func\n(class_declaration name: (type_identifier) @name) @def.class\n(method_definition name: (property_identifier) @name) @def.func\n(call_expression function: (identifier) @callee) @ref.call\n(call_expression function: (member_expression property: (property_identifier) @callee)) @ref.call\n"@,
        SourceLanguage::Go =>
            "(function_declaration name: (identifier) @name) @def.func\n(method_declaration name: (field_identifier) @name) @def.func\n(type_spec name: (type_identifier) @name) @def.class\n(call_expression function: (identifier) @callee) @ref.call\n(call_expression function: (selector_expression field: (field_identifier) @callee)) @ref.call\n"@,
        SourceLanguage::Rust =>
            "(function_item name: (identifier) @name) @def.func\n(struct_item name: (type_identifier) @name) @def.class\n(enum_item name: (type_identifier) @name) @def.class\n(impl_item type: (type_identifier) @name) @def.class\n(call_expression function: (identifier) @callee) @ref.call\n(call_expression function: (scoped_identifier name: (identifier) @callee)) @ref.call\n(call_expression function: (field_expression field: (field_identifier) @callee)) @ref.call\n"@,
        SourceLanguage::Java =>
            "(class_declaration name: (identifier) @name) @def.class\n(method_declaration name: (identifier) @name) @def.func\n(interface_declaration name: (identifier) @name) @def.class\n(method_invocation name: (identifier) @callee) @ref.call\n"@,
        SourceLanguage::C =>
            "(function_definition declarator: (function_declarator declarator: (identifier) @name)) @def.func\n(struct_specifier name: (type_identifier) @name) @def.class\n(call_expression function: (identifier) @callee) @ref.call\n"@,
        SourceLanguage::Cpp =>
            "(function_definition declarator: (function_declarator declarator: (identifier) @name)) @def.func\n(class_specifier name: (type_identifier) @name) @def.class\n(struct_specifier name: (type_identifier) @name) @def.class\n(call_expression function: (identifier) @callee) @ref.call\n(call_expression function: (field_expression field: (field_identifier) @callee)) @ref.call\n"@,
    }
}

/// The grammar that serves a lower-case file extension.
pub fn language_for_extension(ext: &str) -> (r: Option<SourceLanguage>)
    ensures
        r == language_of(ext@),
{
    if same_text(ext, "py") {
        Some(SourceLanguage::Python)
    } else if same_text(ext, "js") || same_text(ext, "mjs") || same_text(ext, "cjs") {
        Some(SourceLanguage::JavaScript)
    } else if same_text(ext, "ts") {
        Some(SourceLanguage::TypeScript)
    } else if same_text(ext, "tsx") {
        Some(SourceLanguage::Tsx)
    } else if same_text(ext, "go") {
        Some(SourceLanguage::Go)
    } else if same_text(ext, "rs") {
        Some(SourceLanguage::Rust)
    } else if same_text(ext, "java") {
        Some(SourceLanguage::Java)
    } else if same_text(ext, "c") || same_text(ext, "h") {
        Some(SourceLanguage::C)
    } else if same_text(ext, "cpp") || same_text(ext, "cc") || same_text(ext, "hpp") {
        Some(SourceLanguage::Cpp)
    } else {
        None
    }
}

/// The capture query that is run over trees of the grammar.
pub fn capture_query(lang: SourceLanguage) -> (r: &'static str)
    ensures
        r@ == query_of(lang),
{
    match lang {
        SourceLanguage::Python =>
            "(function_definition name: (identifier) @name) @def.func\n(class_definition name: (identifier) @name) @def.class\n(call function: (identifier) @callee) @ref.call\n(call function: (attribute attribute: (identifier) @callee)) @ref.call\n",
        SourceLanguage::JavaScript =>
            "(function_declaration name: (identifier) @name) @def.func\n(class_declaration name: (identifier) @name) @def.class\n(call_expression function: (identifier) @callee) @ref.call\n(call_expression function: (member_expression property: (property_identifier) @callee)) @ref.call\n",
        SourceLanguage::TypeScript | SourceLanguage::Tsx =>
            "(function_declaration name: (identifier) @name) @def.func\n(class_declaration name: (type_identifier) @name) @def.class\n(method_definition name: (property_identifier) @name) @def.func\n(call_expression function: (identifier) @callee) @ref.call\n(call_expression function: (member_expression property: (property_identifier) @callee)) @ref.call\n",
        SourceLanguage::Go =>
            "(function_declaration name: (identifier) @name) @def.func\n(method_declaration name: (field_identifier) @name) @def.func\n(type_spec name: (type_identifier) @name) @def.class\n(call_expression function: (identifier) @callee) @ref.call\n(call_expression function: (selector_expression field: (field_identifier) @callee)) @ref.call\n",
        SourceLanguage::Rust =>
            "(function_item name: (identifier) @name) @def.func\n(struct_item name: (type_identifier) @name) @def.class\n(enum_item name: (type_identifier) @name) @def.class\n(impl_item type: (type_identifier) @name) @def.class\n(call_expression function: (identifier) @callee) @ref.call\n(call_expression function: (scoped_identifier name: (identifier) @callee)) @ref.call\n(call_expression function: (field_expression field: (field_identifier) @callee)) @ref.call\n",
        SourceLanguage::Java =>
            "(class_declaration name: (identifier) @name) @def.class\n(method_declaration name: (identifier) @name) @def.func\n(interface_declaration name: (identifier) @name) @def.class\n(method_invocation name: (identifier) @callee) @ref.call\n",
        SourceLanguage::C =>
            "(function_definition declarator: (function_declarator declarator: (identifier) @name)) @def.func\n(struct_specifier name: (type_identifier) @name) @def.class\n(call_expression function: (identifier) @callee) @ref.call\n",
        SourceLanguage::Cpp =>
            "(function_definition declarator: (function_declarator declarator: (identifier) @name)) @def.func\n(class_specifier name: (type_identifier) @name) @def.class\n(struct_specifier name: (type_identifier) @name) @def.class\n(call_expression function: (identifier) @callee) @ref.call\n(call_expression function: (field_expression field: (field_identifier) @callee)) @ref.call\n",
    }
}

/// One entry of the registry: an extension with its grammar and query.
#[derive(Clone, Debug, PartialEq, Eq)]
pub struct ParserSetup {
    pub extension: &'static str,
    pub language: SourceLanguage,
    pub query: &'static str,
}

/// The supported extensions, in the order of the registry's entries.
pub open spec fn supported_extensions() -> Seq<Seq<char>> {
    seq![
        "py"@,
        "js"@,
        "mjs"@,
        "cjs"@,
        "ts"@,
        "tsx"@,
        "go"@,
        "rs"@,
        "java"@,
        "c"@,
        "h"@,
        "cpp"@,
        "cc"@,
        "hpp"@,
    ]
}

/// The supported extensions are those that a grammar serves.
pub proof fn lemma_supported_extensions(ext: Seq<char>)
    ensures
        language_of(ext) is Some <==> supported_extensions().contains(ext),
{
    let all = supported_extensions();
    if language_of(ext) is Some {
        if ext == "py"@ {
            assert(all[0] == ext);
        } else if ext == "js"@ {
            assert(all[1] == ext);
        } else if ext == "mjs"@ {
            assert(all[2] == ext);
        } else if ext == "cjs"@ {
            assert(all[3] == ext);
        } else if ext == "ts"@ {
            assert(all[4] == ext);
        } else if ext == "tsx"@ {
            assert(all[5] == ext);
        } else if ext == "go"@ {
            assert(all[6] == ext);
        } else if ext == "rs"@ {
            assert(all[7] == ext);
        } else if ext == "java"@ {
            assert(all[8] == ext);
        } else if ext == "c"@ {
            assert(all[9] == ext);
        } else if ext == "h"@ {
            assert(all[10] == ext);
        } else if ext == "cpp"@ {
            assert(all[11] == ext);
        } else if ext == "cc"@ {
            assert(all[12] == ext);
        } else {
            assert(all[13] == ext);
        }
    }
    if all.contains(ext) {
        let i = choose|i: int| 0 <= i < all.len() && all[i] == ext;
        assert(language_of(all[i]) is Some);
    }
}

/// The extension of entry `i` of the registry.
fn extension_at(i: usize) -> (r: &'static str)
    requires
        i < 14,
    ensures
        r@ == supported_extensions()[i as int],
{
    if i == 0 {
        "py"
    } else if i == 1 {
        "js"
    } else if i == 2 {
        "mjs"
    } else if i == 3 {
        "cjs"
    } else if i == 4 {
        "ts"
    } else if i == 5 {
        "tsx"
    } else if i == 6 {
        "go"
    } else if i == 7 {
        "rs"
    } else if i == 8 {
        "java"
    } else if i == 9 {
        "c"
    } else if i == 10 {
        "h"
    } else if i == 11 {
        "cpp"
    } else if i == 12 {
        "cc"
    } else {
        "hpp"
    }
}

/// The registry: one entry for every supported extension, each with the
/// grammar and the capture query that serve it.
pub fn get_parser_setup() -> (r: Vec<ParserSetup>)
    ensures
        r.len() == 14,
        forall|i: int|
            0 <= i < r.len() ==> (#[trigger] r[i]).extension@ == supported_extensions()[i]
                && Some(r[i].language) == language_of(r[i].extension@) && r[i].query@
                == query_of(r[i].language),
{
    let mut r: Vec<ParserSetup> = Vec::new();
    let mut i: usize = 0;
    while i < 14
        invariant
            i <= 14,
            r.len() == i,
            forall|k: int|
                0 <= k < r.len() ==> (#[trigger] r[k]).extension@ == supported_extensions()[k]
                    && Some(r[k].language) == language_of(r[k].extension@) && r[k].query@
                    == query_of(r[k].language),
        decreases 14 - i,
    {
        let extension = extension_at(i);
        proof {
            assert(supported_extensions().contains(supported_extensions()[i as int]));
            lemma_supported_extensions(extension@);
        }
        match language_for_extension(extension) {
            Some(language) => {
                r.push(ParserSetup { extension, language, query: capture_query(language) });
            },
            None => {},
        }
        i += 1;
    }
    r
}

} // verus!

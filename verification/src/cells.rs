//! The document cell model: the typed cells a document compiles into, each
//! extracted from one fenced code block.

use vstd::prelude::*;

verus! {

#[verifier::external_type_specification]
#[verifier::external_body]
pub struct ExYamlValue(serde_yaml::Value);

#[verifier::external_type_specification]
#[verifier::external_body]
pub struct ExYamlError(serde_yaml::Error);

/// A byte range of the source document's UTF-8 text a cell was extracted
/// from.
#[derive(Clone, Copy, PartialEq, Eq, Structural, Debug)]
pub struct TextRange {
    pub start: usize,
    pub end: usize,
}

/// A reference back to the document file a cell came from.
#[derive(Clone, Debug)]
pub struct BackingFileReference {
    pub path: String,
    pub text_range: Option<TextRange>,
}

/// The languages a code cell can declare.
#[derive(Clone, Copy, PartialEq, Eq, Structural, Debug)]
pub enum SupportedLanguage {
    PyO3,
    Starlark,
    Deno,
}

/// The model providers a prompt cell can address.
#[derive(Clone, Copy, PartialEq, Eq, Structural, Debug)]
pub enum SupportedModelProviders {
    OpenAI,
}

/// A cell holding source code to evaluate in one of the supported languages.
#[derive(Clone, Debug)]
pub struct CodeCell {
    pub backing_file_reference: Option<BackingFileReference>,
    pub name: Option<String>,
    pub language: SupportedLanguage,
    pub source_code: String,
    pub function_invocation: Option<String>,
}

/// A cell holding a chat prompt for a model provider; its configuration is
/// the YAML value parsed from the block's frontmatter.
pub enum LLMPromptCell {
    Chat {
        backing_file_reference: Option<BackingFileReference>,
        is_function_invocation: bool,
        configuration: serde_yaml::Value,
        name: Option<String>,
        provider: SupportedModelProviders,
        complete_body: String,
        req: String,
    },
}

/// A cell asking a model provider to generate code; its configuration is the
/// YAML value parsed from the block's frontmatter.
pub struct LLMCodeGenCell {
    pub backing_file_reference: Option<BackingFileReference>,
    pub function_invocation: bool,
    pub configuration: serde_yaml::Value,
    pub name: Option<String>,
    pub provider: SupportedModelProviders,
    pub complete_body: String,
    pub req: String,
}

/// A cell holding a template to render.
#[derive(Clone, Debug)]
pub struct TemplateCell {
    pub backing_file_reference: Option<BackingFileReference>,
    pub name: Option<String>,
    pub body: String,
}

/// One typed cell, paired with the byte range it was extracted from.
pub enum CellTypes {
    Code(CodeCell, TextRange),
    Prompt(LLMPromptCell, TextRange),
    CodeGen(LLMCodeGenCell, TextRange),
    Template(TemplateCell, TextRange),
}

} // verus!

use vstd::prelude::*;
use crate::repo::Manifest;

verus! {

/// A parsed Starlark module, as the interpreter holds it.
#[verifier::external_type_specification]
#[verifier::external_body]
pub struct ExAstModule(starlark::syntax::AstModule);

/// Why running a recipe failed; each carries the interpreter's message.
#[derive(PartialEq, Eq, Debug)]
pub enum ExecutionError {
    /// The recipe is not a well-formed Starlark program.
    ParsingError(String),
    /// The recipe failed while it ran.
    RuntimeError(String),
}

/// What the Starlark parser reports of the text `content` of the file named `name` in the
/// extended dialect: `None` where it parses, else the message of its error.
pub uninterp spec fn recipe_parse_error(name: Seq<char>, content: Seq<char>) -> Option<Seq<char>>;

/// Whether the text `content` of the file named `name` parses as extended-dialect Starlark.
pub open spec fn recipe_parses(name: Seq<char>, content: Seq<char>) -> bool {
    recipe_parse_error(name, content) is None
}

/// `starlark::syntax::AstModule::parse` with `Dialect::Extended`: the module where the text
/// parses, else the parser's message.
///
/// The contract claims that it succeeds exactly where `recipe_parse_error` of the file's
/// name and text is `None`, and that otherwise its message (the error's `Display`) is that
/// name's message; what the parsed module holds is left unsaid.
#[verifier::external_body]
fn parse_starlark(manifest: Manifest) -> (r: Result<starlark::syntax::AstModule, String>)
    ensures
        r is Ok <==> recipe_parse_error(manifest.name@, manifest.content@) is None,
        r matches Err(m) ==> recipe_parse_error(manifest.name@, manifest.content@) == Some(m@),
{
    match starlark::syntax::AstModule::parse(
        &manifest.name,
        manifest.content,
        &starlark::syntax::Dialect::Extended,
    ) {
        Ok(module) => Ok(module),
        Err(e) => Err(e.to_string()),
    }
}

/// The first step of running a recipe: parsing it as extended-dialect Starlark.
///
/// A recipe that does not parse gives a `ParsingError` with the parser's message, and then
/// nothing of it runs; one that parses gives the module to evaluate.
pub fn parse_manifest(manifest: Manifest) -> (r: Result<starlark::syntax::AstModule, ExecutionError>)
    ensures
        r is Ok <==> recipe_parses(manifest.name@, manifest.content@),
        match recipe_parse_error(manifest.name@, manifest.content@) {
            Some(message) => r matches Err(ExecutionError::ParsingError(m)) && m@ == message,
            None => r is Ok,
        },
{
    match parse_starlark(manifest) {
        Ok(module) => Ok(module),
        Err(message) => Err(ExecutionError::ParsingError(message)),
    }
}

} // verus!

/*!
An XML-like templating engine, split into two phases: a build-time
tokenizer and parser that compile a markup token stream into an immutable
emit plan, and a render-time interpreter that walks the plan against an
environment of host-supplied values, escaping each value according to the
syntactic context it appears in.
*/

pub mod escape;
pub mod parse;
pub mod plan;
pub mod render;
pub mod token;
pub mod util;

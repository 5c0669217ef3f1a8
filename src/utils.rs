//! Small writers shared by the printer.
use vstd::prelude::*;
use vstd::string::StrSliceExecFns;
use vstd::string::StringExecFns;

use crate::context::Context;
use crate::text::{ends_with_blank_line, has_blank_line_end, padded, push_repeated, push_spaces, repeat};

verus! {

/// The indentation of `ctx`: its unit, once per level.
pub open spec fn indent_text(ctx: Context) -> Seq<char> {
    repeat(ctx.config.indent_str@, ctx.indent as nat)
}

/// The context one level shallower, where closing delimiters stand; the
/// outermost level stays where it is.
pub open spec fn outer(ctx: Context) -> Context {
    Context { indent: if ctx.indent > 0 { (ctx.indent - 1) as usize } else { 0 }, ..ctx }
}

/// `w` followed by a line feed, unless it already ends with an empty line.
pub open spec fn separated(w: Seq<char>) -> Seq<char> {
    if ends_with_blank_line(w) {
        w
    } else {
        w.push('\n')
    }
}

/// Writes the indentation of `ctx`.
pub fn print_indent(writer: &mut String, ctx: &Context)
    ensures
        final(writer)@ == old(writer)@ + indent_text(*ctx),
{
    push_repeated(writer, ctx.config.indent_str.as_str(), ctx.indent);
}

/// Ends the output with an empty line, adding at most one line feed.
pub fn sep(writer: &mut String)
    ensures
        final(writer)@ == separated(old(writer)@),
{
    if !has_blank_line_end(writer) {
        proof {
            reveal_strlit("\n");
        }
        writer.append("\n");
        assert(writer@ =~= old(writer)@.push('\n'));
    }
}

/// `string` followed by spaces up to `size` characters.
pub fn pad_right(string: &str, size: usize) -> (r: String)
    ensures
        r@ == padded(string@, size as nat),
{
    let mut r = String::from_str(string);
    let len = string.unicode_len();
    if len < size {
        push_spaces(&mut r, size - len);
    }
    r
}

/// The context of the closing delimiter of `ctx`'s level.
pub fn outer_context<'a>(ctx: &Context<'a>) -> (r: Context<'a>)
    ensures
        r == outer(*ctx),
{
    if ctx.indent > 0 {
        ctx.dec(1)
    } else {
        *ctx
    }
}

} // verus!

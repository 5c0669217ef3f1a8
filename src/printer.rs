//! The printer: a depth-first walk of the syntax tree that writes each node
//! by the rule of its kind.
use vstd::prelude::*;
use vstd::string::StringExecFns;

use crate::bindings::{
    bindings_block, cell_texts, cells_end, group_bindings, key_count, lemma_table_keeps_cells,
    print_bindings, views,
};
use crate::config::Config;
use crate::context::Context;
use crate::layouts::{get_layout, layout_grid, Grid, KeyboardLayout};
use crate::syntax::{child_text, find_kind, first_of_kind, lemma_first_of_kind_bounds, NodeKind, SyntaxNode};
use crate::text::{chars_of, decimal, lemma_trimmed_idempotent, trim_start, push_comment_body, push_decimal, same_text, strip_markers, trimmed};
use crate::text::{ends_with_blank_line, lemma_occurs_between, lemma_occurs_within, occurs_in};
use crate::utils::{indent_text, outer, outer_context, print_indent, sep, separated};

verus! {

/// How the children of a node are visited.
#[derive(Clone, Copy, PartialEq, Eq, Structural)]
pub enum ChildMode {
    /// Every child in the same context.
    Each,
    /// The first child in the same context, the others one level deeper.
    Spread,
    /// The values of a property: `,` and `=` are written as separators.
    Values,
}

/// The preprocessor directives after whose last one an empty line follows.
pub open spec fn is_preproc(k: NodeKind) -> bool {
    k == NodeKind::PreprocInclude || k == NodeKind::PreprocIfdef || k == NodeKind::PreprocDef
        || k == NodeKind::PreprocFunctionDef
}

/// The context one level deeper; the deepest level stays where it is.
pub open spec fn nested(ctx: Context) -> Context {
    Context {
        indent: if ctx.indent < usize::MAX {
            (ctx.indent + 1) as usize
        } else {
            ctx.indent
        },
        ..ctx
    }
}

/// The context of the children of the node `n`: one level deeper, and
/// inside a keymap where the node's first token reads `keymap`.
pub open spec fn node_context(ctx: Context, n: SyntaxNode) -> Context {
    if child_text(n, 0) == "keymap"@ {
        Context { keymap: true, ..nested(ctx) }
    } else {
        nested(ctx)
    }
}

/// The context of the values of a property named `name`: those of
/// `bindings` one level deeper and marked; all others inline, at level zero.
pub open spec fn value_context(ctx: Context, name: Seq<char>) -> Context {
    if name == "bindings"@ {
        Context { bindings: true, ..nested(ctx) }
    } else {
        Context { indent: 0, ..ctx }
    }
}

/// The context in which child `j` is visited.
pub open spec fn child_context(ctx: Context, mode: ChildMode, j: int) -> Context {
    if mode == ChildMode::Spread && j > 0 {
        nested(ctx)
    } else {
        ctx
    }
}

/// A comment as written: a line comment gets exactly one space after `//`
/// and loses the white space around its text; a block comment is kept.
pub open spec fn comment_line(t: Seq<char>) -> Seq<char> {
    if t.len() >= 2 && t[0] == '/' && t[1] == '/' {
        "// "@ + trimmed(strip_markers(t))
    } else {
        t
    }
}

/// The texts of the children `start..end` of `ch`, separated by spaces.
pub open spec fn joined(ch: Seq<SyntaxNode>, start: int, end: int) -> Seq<char>
    decreases end - start,
{
    if end <= start || end > ch.len() || start < 0 {
        Seq::empty()
    } else if end == start + 1 {
        ch[start].text@
    } else {
        joined(ch, start, end - 1) + " "@ + ch[end - 1].text@
    }
}

/// The longest run of bytes that a byte string keeps on one line.
pub const BYTES_PER_LINE: usize = 16;

/// The bytes `start..end` of `ch` laid out in lines of `BYTES_PER_LINE`,
/// each line opened by a line break and the indentation `ind`.
pub open spec fn wrapped(ch: Seq<SyntaxNode>, start: int, end: int, ind: Seq<char>) -> Seq<char>
    decreases end - start,
{
    if end <= start || end > ch.len() || start < 0 {
        Seq::empty()
    } else {
        wrapped(ch, start, end - 1, ind) + if (end - 1 - start) % (BYTES_PER_LINE as int) == 0 {
            "\n"@ + ind
        } else {
            " "@
        } + ch[end - 1].text@
    }
}

/// The index of the `]` that closes a byte string, or the number of its
/// children where there is none.
pub open spec fn bytes_end(n: SyntaxNode) -> int {
    first_of_kind(n.children@, 1, NodeKind::CloseBracket)
}

/// How a byte string is written: on one line where its bytes fit one line,
/// else one line per run of bytes, one level deeper, with the closing `]`
/// on a line of its own.
pub open spec fn byte_string_text(n: SyntaxNode, ctx: Context) -> Seq<char> {
    let ch = n.children@;
    let e = bytes_end(n);
    if e - 1 <= BYTES_PER_LINE as int {
        "["@ + joined(ch, 1, e) + "]"@
    } else {
        "["@ + wrapped(ch, 1, e, indent_text(nested(ctx))) + "\n"@ + indent_text(ctx) + "]"@
    }
}

/// What follows a name: `: ` after a label, ` {` and a line break before a
/// node's body.
pub open spec fn name_suffix(sibs: Seq<SyntaxNode>, i: int) -> Seq<char> {
    if next_is(sibs, i, |k: NodeKind| k == NodeKind::Colon) {
        ": "@
    } else if next_is(sibs, i, |k: NodeKind| k == NodeKind::OpenBrace) {
        " {\n"@
    } else {
        Seq::empty()
    }
}

/// The kinds of token written exactly as they read, followed by what their
/// next sibling calls for.
pub open spec fn is_name(k: NodeKind) -> bool {
    k == NodeKind::Identifier || k == NodeKind::Reference || k == NodeKind::UnitAddress || k
        == NodeKind::Path
}

/// Whether the node after `sibs[i]` exists and satisfies `p`.
pub open spec fn next_is(sibs: Seq<SyntaxNode>, i: int, p: spec_fn(NodeKind) -> bool) -> bool {
    i + 1 < sibs.len() && p(sibs[i + 1].kind)
}

/// The empty line after the last of a run of preprocessor directives.
pub open spec fn preproc_break(sibs: Seq<SyntaxNode>, i: int) -> Seq<char> {
    if next_is(sibs, i, |k: NodeKind| !is_preproc(k)) {
        "\n"@
    } else {
        Seq::empty()
    }
}

/// The output `w` followed by the children `start..end` of `ch`, visited
/// in `mode`.
pub open spec fn emit_kids(
    w: Seq<char>,
    ch: Seq<SyntaxNode>,
    start: int,
    end: int,
    ctx: Context,
    mode: ChildMode,
    lay: Grid,
) -> Seq<char>
    decreases ch, end - start,
{
    if start < 0 || end <= start || end > ch.len() {
        w
    } else {
        let w1 = emit_kids(w, ch, start, end - 1, ctx, mode, lay);
        let j = end - 1;
        if mode == ChildMode::Values && ch[j].kind == NodeKind::Comma {
            w1 + ", "@
        } else if mode == ChildMode::Values && ch[j].kind == NodeKind::Equals {
            w1 + " = "@
        } else {
            emit(w1, ch, j, child_context(ctx, mode, j), lay)
        }
    }
}

/// The output `w` followed by the node `sibs[i]`, written in `ctx` with the
/// keyboard grid `lay`.
pub open spec fn emit(w: Seq<char>, sibs: Seq<SyntaxNode>, i: int, ctx: Context, lay: Grid) -> Seq<
    char,
>
    decreases sibs, 0int,
{
    if i < 0 || i >= sibs.len() {
        w
    } else {
        let n = sibs[i];
        let ch = n.children@;
        let ind = indent_text(ctx);
        match n.kind {
            NodeKind::Comment => {
                let w1 = if i > 0 && sibs[i - 1].kind != NodeKind::Comment {
                    separated(w)
                } else {
                    w
                };
                w1 + ind + comment_line(n.text@) + "\n"@
            },
            NodeKind::DtsiInclude => {
                w + ind + "/include/ "@ + child_text(n, 1) + "\n"@ + if next_is(
                    sibs,
                    i,
                    |k: NodeKind| k != NodeKind::DtsiInclude,
                ) {
                    "\n"@
                } else {
                    Seq::empty()
                }
            },
            NodeKind::PreprocInclude => {
                w + ind + "#include "@ + child_text(n, 1) + "\n"@ + preproc_break(sibs, i)
            },
            NodeKind::PreprocDef => {
                w + "#define "@ + child_text(n, 1) + " "@ + child_text(n, 2) + "\n"@
                    + preproc_break(sibs, i)
            },
            NodeKind::PreprocFunctionDef => {
                w + "#define "@ + child_text(n, 1) + child_text(n, 2) + " "@ + child_text(n, 3)
                    + "\n"@ + preproc_break(sibs, i)
            },
            NodeKind::PreprocIfdef => {
                let w1 = w + ind + child_text(n, 0) + " "@ + child_text(n, 1) + "\n"@;
                emit_kids(w1, ch, 2, ch.len() as int, ctx, ChildMode::Each, lay) + ind
                    + "#endif\n"@ + preproc_break(sibs, i)
            },
            NodeKind::Identifier | NodeKind::Reference | NodeKind::UnitAddress | NodeKind::Path => {
                w + n.text@ + name_suffix(sibs, i)
            },
            NodeKind::At => w + "@"@,
            NodeKind::ByteString => w + byte_string_text(n, ctx),
            NodeKind::Node => {
                if ch.len() == 0 {
                    w
                } else {
                    emit_kids(
                        w + ind,
                        ch,
                        0,
                        ch.len() as int,
                        node_context(ctx, n),
                        ChildMode::Each,
                        lay,
                    )
                }
            },
            NodeKind::Property => {
                let name = child_text(n, 0);
                let end = first_of_kind(ch, 1, NodeKind::Semicolon);
                emit_kids(
                    w + ind + name,
                    ch,
                    1,
                    end,
                    value_context(ctx, name),
                    ChildMode::Values,
                    lay,
                ) + ";\n"@ + if next_is(sibs, i, |k: NodeKind| k == NodeKind::Node) {
                    "\n"@
                } else {
                    Seq::empty()
                }
            },
            NodeKind::StringLiteral => w + n.text@,
            NodeKind::IntegerCells => {
                if ctx.keymap && ctx.bindings {
                    w + bindings_block(n, ctx, lay)
                } else {
                    w + "<"@ + joined(ch, 1, cells_end(n)) + ">"@
                }
            },
            NodeKind::CloseBrace => w + indent_text(outer(ctx)) + "}"@,
            NodeKind::Semicolon => w + ";\n"@,
            _ => emit_kids(w, ch, 0, ch.len() as int, ctx, ChildMode::Spread, lay),
        }
    }
}

/// The report on a node whose kind has no rule of its own: its kind, its
/// number of children and its text.
pub open spec fn unhandled_message(n: SyntaxNode) -> Seq<char> {
    "unhandled type '"@ + n.kind_name@ + "' ("@ + decimal(n.children@.len()) + if n.children@.len()
        == 1 {
        " child): "@
    } else {
        " children): "@
    } + n.text@
}

/// Whether nodes of kind `k` have a rule of their own; the others are
/// walked child by child.
pub open spec fn has_rule(k: NodeKind) -> bool {
    is_name(k) || is_preproc(k) || k == NodeKind::Comment || k == NodeKind::DtsiInclude || k
        == NodeKind::At || k == NodeKind::ByteString || k == NodeKind::Node || k
        == NodeKind::Property || k == NodeKind::StringLiteral || k == NodeKind::IntegerCells || k
        == NodeKind::CloseBrace || k == NodeKind::Semicolon
}

/// The reports gathered while the children `start..end` of `ch` are
/// written in `mode`, where reporting is on.
pub open spec fn reports_kids(ch: Seq<SyntaxNode>, start: int, end: int, mode: ChildMode, warn: bool) -> Seq<
    Seq<char>,
>
    decreases ch, end - start,
{
    if start < 0 || end <= start || end > ch.len() {
        Seq::empty()
    } else {
        let r = reports_kids(ch, start, end - 1, mode, warn);
        let j = end - 1;
        if mode == ChildMode::Values && (ch[j].kind == NodeKind::Comma || ch[j].kind
            == NodeKind::Equals) {
            r
        } else {
            r + reports(ch, j, warn)
        }
    }
}

/// The reports gathered while the node `sibs[i]` is written, where
/// reporting is on: one for every node without a rule of its own that the
/// walk reaches, in the order it reaches them.
pub open spec fn reports(sibs: Seq<SyntaxNode>, i: int, warn: bool) -> Seq<Seq<char>>
    decreases sibs, 0int,
{
    if i < 0 || i >= sibs.len() {
        Seq::empty()
    } else {
        let n = sibs[i];
        let ch = n.children@;
        match n.kind {
            NodeKind::PreprocIfdef => reports_kids(ch, 2, ch.len() as int, ChildMode::Each, warn),
            NodeKind::Node => reports_kids(ch, 0, ch.len() as int, ChildMode::Each, warn),
            NodeKind::Property => reports_kids(
                ch,
                1,
                first_of_kind(ch, 1, NodeKind::Semicolon),
                ChildMode::Values,
                warn,
            ),
            _ => if has_rule(n.kind) {
                Seq::empty()
            } else {
                (if warn {
                    seq![unhandled_message(n)]
                } else {
                    Seq::empty()
                }) + reports_kids(ch, 0, ch.len() as int, ChildMode::Spread, warn)
            },
        }
    }
}

/// Builds the report on a node without a rule of its own.
fn unhandled_report(n: &SyntaxNode) -> (r: String)
    ensures
        r@ == unhandled_message(*n),
{
    let mut r = String::from_str("unhandled type '");
    r.append(n.kind_name.as_str());
    r.append("' (");
    push_decimal(&mut r, n.children.len());
    if n.children.len() == 1 {
        r.append(" child): ");
    } else {
        r.append(" children): ");
    }
    r.append(n.text.as_str());
    r
}

/// The text of the `k`-th child of `n`, or nothing where there is none.
fn child_str(n: &SyntaxNode, k: usize) -> (r: &str)
    ensures
        r@ == child_text(*n, k as int),
{
    if k < n.children.len() {
        n.children[k].text.as_str()
    } else {
        proof {
            reveal_strlit("");
        }
        let r = "";
        assert(r@ =~= Seq::<char>::empty());
        r
    }
}

/// The context one level deeper.
fn nested_context<'a>(ctx: &Context<'a>) -> (r: Context<'a>)
    ensures
        r == nested(*ctx),
{
    if ctx.indent < usize::MAX {
        ctx.inc(1)
    } else {
        *ctx
    }
}

/// Writes the empty line that follows the last of a run of preprocessor
/// directives.
fn print_preproc_break(writer: &mut String, sibs: &Vec<SyntaxNode>, i: usize)
    requires
        i < sibs@.len(),
    ensures
        final(writer)@ == old(writer)@ + preproc_break(sibs@, i as int),
{
    if sibs.len() - i > 1 && !matches!(
        sibs[i + 1].kind,
        NodeKind::PreprocInclude | NodeKind::PreprocIfdef | NodeKind::PreprocDef
            | NodeKind::PreprocFunctionDef
    ) {
        writer.append("\n");
    }
}

/// Writes the texts of the children `start..end` of `n`, separated by
/// spaces.
fn print_joined(writer: &mut String, n: &SyntaxNode, start: usize, end: usize)
    requires
        1 <= start <= end <= n.children@.len(),
    ensures
        final(writer)@ == old(writer)@ + joined(n.children@, start as int, end as int),
{
    let ghost w0 = old(writer)@;
    let ghost ch = n.children@;
    let mut j: usize = start;
    while j < end
        invariant
            ch == n.children@,
            start <= j <= end <= ch.len(),
            writer@ == w0 + joined(ch, start as int, j as int),
        decreases end - j,
    {
        if j > start {
            writer.append(" ");
        }
        writer.append(n.children[j].text.as_str());
        assert(writer@ =~= w0 + joined(ch, start as int, j + 1));
        j += 1;
    }
}

/// Writes the cells of a plain integer cell list, separated by spaces.
fn print_cells(writer: &mut String, n: &SyntaxNode)
    ensures
        final(writer)@ == old(writer)@ + "<"@ + joined(n.children@, 1, cells_end(*n)) + ">"@,
{
    let ghost ch = n.children@;
    writer.append("<");
    let len = n.children.len();
    if len > 1 {
        let end = find_kind(n, 1, NodeKind::CloseAngle);
        proof {
            lemma_first_of_kind_bounds(ch, 1, NodeKind::CloseAngle);
        }
        print_joined(writer, n, 1, end);
    } else {
        assert(joined(ch, 1, cells_end(*n)) =~= Seq::<char>::empty());
    }
    writer.append(">");
}

/// Writes a byte string.
fn print_byte_string(writer: &mut String, n: &SyntaxNode, ctx: &Context)
    ensures
        final(writer)@ == old(writer)@ + byte_string_text(*n, *ctx),
{
    let ghost w0 = old(writer)@;
    let ghost ch = n.children@;
    let len = n.children.len();
    let end = if len > 1 {
        find_kind(n, 1, NodeKind::CloseBracket)
    } else {
        len
    };
    proof {
        if len > 1 {
            lemma_first_of_kind_bounds(ch, 1, NodeKind::CloseBracket);
        }
    }
    writer.append("[");
    if end <= 1 {
        assert(joined(ch, 1, bytes_end(*n)) =~= Seq::<char>::empty());
        writer.append("]");
    } else if end - 1 <= BYTES_PER_LINE {
        print_joined(writer, n, 1, end);
        writer.append("]");
    } else {
        let deeper = nested_context(ctx);
        let ghost ind = indent_text(deeper);
        let mut j: usize = 1;
        while j < end
            invariant
                ch == n.children@,
                1 <= j <= end <= ch.len(),
                ind == indent_text(deeper),
                writer@ == w0 + "["@ + wrapped(ch, 1, j as int, ind),
            decreases end - j,
        {
            if (j - 1) % BYTES_PER_LINE == 0 {
                writer.append("\n");
                print_indent(writer, &deeper);
            } else {
                writer.append(" ");
            }
            writer.append(n.children[j].text.as_str());
            assert(writer@ =~= w0 + "["@ + wrapped(ch, 1, j + 1, ind));
            j += 1;
        }
        writer.append("\n");
        print_indent(writer, ctx);
        writer.append("]");
    }
}

/// Writes the children `start..end` of a node, visited in `mode`.
fn traverse_kids(
    writer: &mut String,
    diags: &mut Vec<String>,
    ch: &Vec<SyntaxNode>,
    start: usize,
    end: usize,
    ctx: &Context,
    mode: ChildMode,
    layout: &KeyboardLayout,
)
    requires
        start <= end <= ch@.len(),
        layout@.wf(),
    ensures
        final(writer)@ == emit_kids(old(writer)@, ch@, start as int, end as int, *ctx, mode, layout@),
        views(final(diags)@) == views(old(diags)@) + reports_kids(
            ch@,
            start as int,
            end as int,
            mode,
            ctx.config.warn_on_unhandled_tokens,
        ),
    decreases ch@, 1int,
{
    let ghost w0 = old(writer)@;
    let ghost d0 = views(old(diags)@);
    let ghost warn = ctx.config.warn_on_unhandled_tokens;
    let mut j = start;
    while j < end
        invariant
            start <= j <= end <= ch@.len(),
            layout@.wf(),
            writer@ == emit_kids(w0, ch@, start as int, j as int, *ctx, mode, layout@),
            warn == ctx.config.warn_on_unhandled_tokens,
            views(diags@) == d0 + reports_kids(ch@, start as int, j as int, mode, warn),
        decreases end - j,
    {
        if mode == ChildMode::Values && ch[j].kind == NodeKind::Comma {
            writer.append(", ");
        } else if mode == ChildMode::Values && ch[j].kind == NodeKind::Equals {
            writer.append(" = ");
        } else {
            let c = if mode == ChildMode::Spread && j > 0 {
                nested_context(ctx)
            } else {
                *ctx
            };
            traverse(writer, diags, ch, j, &c, layout);
        }
        assert(views(diags@) =~= d0 + reports_kids(ch@, start as int, j + 1, mode, warn));
        j += 1;
    }
}

/// Writes the node `sibs[i]` by the rule of its kind.
fn traverse(
    writer: &mut String,
    diags: &mut Vec<String>,
    sibs: &Vec<SyntaxNode>,
    i: usize,
    ctx: &Context,
    layout: &KeyboardLayout,
)
    requires
        i < sibs@.len(),
        layout@.wf(),
    ensures
        final(writer)@ == emit(old(writer)@, sibs@, i as int, *ctx, layout@),
        views(final(diags)@) == views(old(diags)@) + reports(
            sibs@,
            i as int,
            ctx.config.warn_on_unhandled_tokens,
        ),
    decreases sibs@, 0int,
{
    let n = &sibs[i];
    let len = n.children.len();
    match n.kind {
        NodeKind::Comment => {
            if i > 0 && sibs[i - 1].kind != NodeKind::Comment {
                sep(writer);
            }
            print_indent(writer, ctx);
            let t = n.text.as_str();
            let cs = chars_of(t);
            if cs.len() >= 2 && cs[0] == '/' && cs[1] == '/' {
                writer.append("// ");
                push_comment_body(writer, t);
            } else {
                writer.append(t);
            }
            writer.append("\n");
        },
        NodeKind::DtsiInclude => {
            print_indent(writer, ctx);
            writer.append("/include/ ");
            writer.append(child_str(n, 1));
            writer.append("\n");
            if sibs.len() - i > 1 && sibs[i + 1].kind != NodeKind::DtsiInclude {
                writer.append("\n");
            }
        },
        NodeKind::PreprocInclude => {
            print_indent(writer, ctx);
            writer.append("#include ");
            writer.append(child_str(n, 1));
            writer.append("\n");
            print_preproc_break(writer, sibs, i);
        },
        NodeKind::PreprocDef => {
            writer.append("#define ");
            writer.append(child_str(n, 1));
            writer.append(" ");
            writer.append(child_str(n, 2));
            writer.append("\n");
            print_preproc_break(writer, sibs, i);
        },
        NodeKind::PreprocFunctionDef => {
            writer.append("#define ");
            writer.append(child_str(n, 1));
            writer.append(child_str(n, 2));
            writer.append(" ");
            writer.append(child_str(n, 3));
            writer.append("\n");
            print_preproc_break(writer, sibs, i);
        },
        NodeKind::PreprocIfdef => {
            print_indent(writer, ctx);
            writer.append(child_str(n, 0));
            writer.append(" ");
            writer.append(child_str(n, 1));
            writer.append("\n");
            if len > 2 {
                traverse_kids(writer, diags, &n.children, 2, len, ctx, ChildMode::Each, layout);
            }
            print_indent(writer, ctx);
            writer.append("#endif\n");
            print_preproc_break(writer, sibs, i);
        },
        NodeKind::Identifier | NodeKind::Reference | NodeKind::UnitAddress | NodeKind::Path => {
            writer.append(n.text.as_str());
            if sibs.len() - i > 1 {
                if sibs[i + 1].kind == NodeKind::Colon {
                    writer.append(": ");
                } else if sibs[i + 1].kind == NodeKind::OpenBrace {
                    writer.append(" {\n");
                }
            }
        },
        NodeKind::Node => {
            if len > 0 {
                print_indent(writer, ctx);
                let deeper = nested_context(ctx);
                let c = if same_text(child_str(n, 0), "keymap") {
                    deeper.keymap()
                } else {
                    deeper
                };
                traverse_kids(writer, diags, &n.children, 0, len, &c, ChildMode::Each, layout);
            }
        },
        NodeKind::Property => {
            print_indent(writer, ctx);
            let name = child_str(n, 0);
            writer.append(name);
            let c = if same_text(name, "bindings") {
                nested_context(ctx).bindings()
            } else {
                ctx.with_indent(0)
            };
            if len > 1 {
                let end = find_kind(n, 1, NodeKind::Semicolon);
                proof {
                    lemma_first_of_kind_bounds(n.children@, 1, NodeKind::Semicolon);
                }
                traverse_kids(writer, diags, &n.children, 1, end, &c, ChildMode::Values, layout);
            }
            writer.append(";\n");
            if sibs.len() - i > 1 && sibs[i + 1].kind == NodeKind::Node {
                writer.append("\n");
            }
        },
        NodeKind::StringLiteral => {
            writer.append(n.text.as_str());
        },
        NodeKind::At => {
            writer.append("@");
        },
        NodeKind::ByteString => {
            print_byte_string(writer, n, ctx);
        },
        NodeKind::IntegerCells => {
            if ctx.keymap && ctx.bindings {
                print_bindings(writer, n, ctx, layout);
            } else {
                print_cells(writer, n);
            }
        },
        NodeKind::CloseBrace => {
            let c = outer_context(ctx);
            print_indent(writer, &c);
            writer.append("}");
        },
        NodeKind::Semicolon => {
            writer.append(";\n");
        },
        _ => {
            if ctx.config.warn_on_unhandled_tokens {
                diags.push(unhandled_report(n));
            }
            traverse_kids(writer, diags, &n.children, 0, len, ctx, ChildMode::Spread, layout);
        },
    }
}

/// The formatted text of the document `root`: its children, one after
/// another, in `ctx`.
pub open spec fn document_text(root: SyntaxNode, ctx: Context, lay: Grid) -> Seq<char> {
    emit_kids(Seq::empty(), root.children@, 0, root.children@.len() as int, ctx, ChildMode::Each, lay)
}

/// The context in which the children of the document are written.
pub open spec fn root_context(config: &Config) -> Context {
    Context { indent: 0, keymap: false, bindings: false, config }
}

/// The reports gathered while the document `root` is written.
pub open spec fn document_reports(root: SyntaxNode, warn: bool) -> Seq<Seq<char>> {
    reports_kids(root.children@, 0, root.children@.len() as int, ChildMode::Each, warn)
}

/// Formats the document `root`, laying out keymap binding tables on
/// `layout`; where the configuration asks for it, also reports each node
/// without a rule of its own, in the order the walk reaches them.
pub fn print_with_report(root: &SyntaxNode, config: &Config, layout: &KeyboardLayout) -> (r: (
    String,
    Vec<String>,
))
    requires
        layout@.wf(),
    ensures
        r.0@ == document_text(*root, root_context(config), layout@),
        views(r.1@) == document_reports(*root, config.warn_on_unhandled_tokens),
{
    let mut writer = String::new();
    let mut diags: Vec<String> = Vec::new();
    let ctx = Context::root(config);
    assert(views(diags@) =~= Seq::<Seq<char>>::empty());
    traverse_kids(
        &mut writer,
        &mut diags,
        &root.children,
        0,
        root.children.len(),
        &ctx,
        ChildMode::Each,
        layout,
    );
    assert(views(diags@) =~= document_reports(*root, config.warn_on_unhandled_tokens));
    (writer, diags)
}

/// Formats the document `root`, laying out keymap binding tables on
/// `layout`.
pub fn print_with_layout(root: &SyntaxNode, config: &Config, layout: &KeyboardLayout) -> (r: String)
    requires
        layout@.wf(),
    ensures
        r@ == document_text(*root, root_context(config), layout@),
{
    let (text, _reports) = print_with_report(root, config, layout);
    text
}

/// Formats the document `root`, laying out keymap binding tables on the
/// grid of the configured keyboard.
pub fn print(root: &SyntaxNode, config: &Config) -> (r: String)
    ensures
        r@ == document_text(*root, root_context(config), layout_grid(config.layout)),
{
    let layout = get_layout(&config.layout);
    print_with_layout(root, config, &layout)
}

/// Comments cluster: a comment right after a comment is written with
/// nothing put before it, and a comment right after any other node, where
/// the output so far ends a line, is set off by an empty line.
pub proof fn lemma_comment_spacing(w: Seq<char>, sibs: Seq<SyntaxNode>, i: int, ctx: Context, lay: Grid)
    requires
        0 <= i < sibs.len(),
        sibs[i].kind == NodeKind::Comment,
    ensures
        i > 0 && sibs[i - 1].kind == NodeKind::Comment ==> emit(w, sibs, i, ctx, lay) == w
            + indent_text(ctx) + comment_line(sibs[i].text@) + "\n"@,
        i > 0 && sibs[i - 1].kind != NodeKind::Comment && w.len() > 0 && w.last() == '\n'
            ==> emit(w, sibs, i, ctx, lay) == separated(w) + indent_text(ctx) + comment_line(
            sibs[i].text@,
        ) + "\n"@ && ends_with_blank_line(separated(w)) && separated(w).len() <= w.len() + 1,
{
}

/// Output is only ever appended: writing a node, or a run of children,
/// keeps what was written before it.
pub proof fn lemma_emit_extends(w: Seq<char>, sibs: Seq<SyntaxNode>, i: int, ctx: Context, lay: Grid)
    ensures
        emit(w, sibs, i, ctx, lay).len() >= w.len(),
        emit(w, sibs, i, ctx, lay).subrange(0, w.len() as int) == w,
    decreases sibs, 0int,
{
    if 0 <= i < sibs.len() {
        let n = sibs[i];
        let ch = n.children@;
        let ind = indent_text(ctx);
        match n.kind {
            NodeKind::Comment => {
                let w1 = if i > 0 && sibs[i - 1].kind != NodeKind::Comment {
                    separated(w)
                } else {
                    w
                };
                assert(w1.subrange(0, w.len() as int) =~= w);
                assert(emit(w, sibs, i, ctx, lay).subrange(0, w.len() as int) =~= w);
            },
            NodeKind::PreprocIfdef => {
                let w1 = w + ind + child_text(n, 0) + " "@ + child_text(n, 1) + "\n"@;
                lemma_kids_extend(w1, ch, 2, ch.len() as int, ctx, ChildMode::Each, lay);
                assert(w1.subrange(0, w.len() as int) =~= w);
                let w2 = emit_kids(w1, ch, 2, ch.len() as int, ctx, ChildMode::Each, lay);
                assert(w2.subrange(0, w.len() as int) =~= w1.subrange(0, w1.len() as int).subrange(
                    0,
                    w.len() as int,
                ));
                assert(emit(w, sibs, i, ctx, lay).subrange(0, w.len() as int) =~= w);
            },
            NodeKind::Node => {
                if ch.len() > 0 {
                    lemma_kids_extend(w + ind, ch, 0, ch.len() as int, node_context(ctx, n), ChildMode::Each, lay);
                    let w2 = emit(w, sibs, i, ctx, lay);
                    assert(w2.subrange(0, w.len() as int) =~= (w + ind).subrange(0, w.len() as int));
                    assert((w + ind).subrange(0, w.len() as int) =~= w);
                } else {
                    assert(w.subrange(0, w.len() as int) =~= w);
                }
            },
            NodeKind::Property => {
                let name = child_text(n, 0);
                let end = first_of_kind(ch, 1, NodeKind::Semicolon);
                let w1 = w + ind + name;
                lemma_kids_extend(w1, ch, 1, end, value_context(ctx, name), ChildMode::Values, lay);
                let w2 = emit_kids(w1, ch, 1, end, value_context(ctx, name), ChildMode::Values, lay);
                assert(w2.subrange(0, w.len() as int) =~= w1.subrange(0, w.len() as int));
                assert(w1.subrange(0, w.len() as int) =~= w);
                assert(emit(w, sibs, i, ctx, lay).subrange(0, w.len() as int) =~= w);
            },
            NodeKind::DtsiInclude | NodeKind::PreprocInclude | NodeKind::PreprocDef
            | NodeKind::PreprocFunctionDef | NodeKind::Identifier | NodeKind::Reference
            | NodeKind::UnitAddress | NodeKind::Path | NodeKind::At | NodeKind::ByteString
            | NodeKind::StringLiteral | NodeKind::IntegerCells | NodeKind::CloseBrace | NodeKind::Semicolon => {
                assert(emit(w, sibs, i, ctx, lay).subrange(0, w.len() as int) =~= w);
            },
            _ => {
                lemma_kids_extend(w, ch, 0, ch.len() as int, ctx, ChildMode::Spread, lay);
            },
        }
    } else {
        assert(w.subrange(0, w.len() as int) =~= w);
    }
}

/// Writing a run of children keeps what was written before it.
pub proof fn lemma_kids_extend(
    w: Seq<char>,
    ch: Seq<SyntaxNode>,
    start: int,
    end: int,
    ctx: Context,
    mode: ChildMode,
    lay: Grid,
)
    ensures
        emit_kids(w, ch, start, end, ctx, mode, lay).len() >= w.len(),
        emit_kids(w, ch, start, end, ctx, mode, lay).subrange(0, w.len() as int) == w,
    decreases ch, end - start,
{
    if start < 0 || end <= start || end > ch.len() {
        assert(w.subrange(0, w.len() as int) =~= w);
    } else {
        lemma_kids_extend(w, ch, start, end - 1, ctx, mode, lay);
        let w1 = emit_kids(w, ch, start, end - 1, ctx, mode, lay);
        let j = end - 1;
        let r = emit_kids(w, ch, start, end, ctx, mode, lay);
        if !(mode == ChildMode::Values && (ch[j].kind == NodeKind::Comma || ch[j].kind
            == NodeKind::Equals)) {
            lemma_emit_extends(w1, ch, j, child_context(ctx, mode, j), lay);
        }
        assert(r.subrange(0, w1.len() as int).subrange(0, w.len() as int) =~= r.subrange(
            0,
            w.len() as int,
        ));
    }
}

/// The texts joined into a plain cell list each stand in it unchanged.
proof fn lemma_joined_holds(ch: Seq<SyntaxNode>, start: int, end: int, k: int)
    requires
        0 <= start <= k < end <= ch.len(),
    ensures
        exists|p: int|
            0 <= p && p + ch[k].text@.len() <= joined(ch, start, end).len() && #[trigger] joined(
                ch,
                start,
                end,
            ).subrange(p, p + ch[k].text@.len()) == ch[k].text@,
    decreases end - start,
{
    let t = ch[k].text@;
    let all = joined(ch, start, end);
    if k == end - 1 {
        let p = all.len() - t.len();
        assert(all.subrange(p, p + t.len()) =~= t);
    } else {
        lemma_joined_holds(ch, start, end - 1, k);
        let part = joined(ch, start, end - 1);
        let p = choose|p: int|
            0 <= p && p + t.len() <= part.len() && #[trigger] part.subrange(p, p + t.len()) == t;
        assert(all.subrange(p, p + t.len()) =~= part.subrange(p, p + t.len()));
    }
}

/// Literal values are kept: an identifier, a reference, a unit address, a
/// path or a string is written exactly as it reads, and, outside a keymap's
/// binding table, so is every cell of an integer cell list.
pub proof fn lemma_tokens_kept(w: Seq<char>, sibs: Seq<SyntaxNode>, i: int, ctx: Context, lay: Grid)
    requires
        0 <= i < sibs.len(),
    ensures
        is_name(sibs[i].kind) || sibs[i].kind == NodeKind::StringLiteral
            ==> emit(w, sibs, i, ctx, lay).subrange(w.len() as int, (w.len() + sibs[i].text@.len()) as int)
            == sibs[i].text@,
        sibs[i].kind == NodeKind::IntegerCells && !(ctx.keymap && ctx.bindings) ==> forall|k: int|
            1 <= k < cells_end(sibs[i]) ==> occurs_in(
                #[trigger] sibs[i].children@[k].text@,
                emit(w, sibs, i, ctx, lay),
            ),
{
    let n = sibs[i];
    let r = emit(w, sibs, i, ctx, lay);
    lemma_emit_extends(w, sibs, i, ctx, lay);
    if is_name(n.kind) || n.kind == NodeKind::StringLiteral {
        assert(r.subrange(w.len() as int, (w.len() + n.text@.len()) as int) =~= n.text@);
    }
    if n.kind == NodeKind::IntegerCells && !(ctx.keymap && ctx.bindings) {
        let ch = n.children@;
        let e = cells_end(n);
        if ch.len() >= 1 {
            lemma_first_of_kind_bounds(ch, 1, NodeKind::CloseAngle);
        }
        assert forall|k: int| 1 <= k < e implies occurs_in(#[trigger] ch[k].text@, r) by {
            lemma_joined_holds(ch, 1, e, k);
            let jn = joined(ch, 1, e);
            let q = choose|q: int|
                0 <= q && q + ch[k].text@.len() <= jn.len() && #[trigger] jn.subrange(
                    q,
                    q + ch[k].text@.len(),
                ) == ch[k].text@;
            let off = w.len() + "<"@.len();
            assert(r == w + "<"@ + jn + ">"@);
            assert(r.subrange(off + q, off + q + ch[k].text@.len()) =~= jn.subrange(
                q,
                q + ch[k].text@.len(),
            ));
            assert(r.subrange(off + q, off + q + ch[k].text@.len()) == ch[k].text@);
        }
    }
}

/// Normalising a comment twice changes nothing more than normalising it
/// once.
pub proof fn lemma_comment_line_idempotent(t: Seq<char>)
    ensures
        comment_line(comment_line(t)) == comment_line(t),
{
    if t.len() >= 2 && t[0] == '/' && t[1] == '/' {
        let x = trimmed(strip_markers(t));
        let line = comment_line(t);
        reveal_strlit("// ");
        assert(line == seq!['/', '/', ' '] + x);
        assert(line.subrange(2, line.len() as int) =~= seq![' '] + x);
        assert(strip_markers(seq![' '] + x) == seq![' '] + x);
        assert(strip_markers(line) == seq![' '] + x);
        assert((seq![' '] + x).drop_first() =~= x);
        assert(trim_start(seq![' '] + x) == trim_start(x));
        lemma_trimmed_idempotent(strip_markers(t));
        assert(trimmed(seq![' '] + x) == x);
    }
}

/// Writing more children keeps what the first of them wrote.
pub proof fn lemma_kids_prefix(
    w: Seq<char>,
    ch: Seq<SyntaxNode>,
    start: int,
    e1: int,
    e2: int,
    ctx: Context,
    mode: ChildMode,
    lay: Grid,
)
    requires
        0 <= start <= e1 <= e2 <= ch.len(),
    ensures
        emit_kids(w, ch, start, e1, ctx, mode, lay).len() <= emit_kids(w, ch, start, e2, ctx, mode, lay).len(),
        emit_kids(w, ch, start, e2, ctx, mode, lay).subrange(
            0,
            emit_kids(w, ch, start, e1, ctx, mode, lay).len() as int,
        ) == emit_kids(w, ch, start, e1, ctx, mode, lay),
    decreases e2,
{
    let a = emit_kids(w, ch, start, e1, ctx, mode, lay);
    if e1 == e2 {
        assert(a.subrange(0, a.len() as int) =~= a);
    } else {
        lemma_kids_prefix(w, ch, start, e1, e2 - 1, ctx, mode, lay);
        let b = emit_kids(w, ch, start, e2 - 1, ctx, mode, lay);
        let c = emit_kids(w, ch, start, e2, ctx, mode, lay);
        lemma_kids_extend(b, ch, e2 - 1, e2, ctx, mode, lay);
        assert(c == emit_kids(b, ch, e2 - 1, e2, ctx, mode, lay)) by {
            assert(emit_kids(b, ch, e2 - 1, e2 - 1, ctx, mode, lay) == b);
        }
        assert(c.subrange(0, a.len() as int) =~= c.subrange(0, b.len() as int).subrange(
            0,
            a.len() as int,
        ));
    }
}

/// What stands in a text still stands in any text that extends it.
proof fn lemma_occurs_in_extension(t: Seq<char>, a: Seq<char>, b: Seq<char>)
    requires
        occurs_in(t, a),
        a.len() <= b.len(),
        b.subrange(0, a.len() as int) == a,
    ensures
        occurs_in(t, b),
{
    let p = choose|p: int| 0 <= p && p + t.len() <= a.len() && #[trigger] a.subrange(p, p + t.len()) == t;
    assert(b.subrange(p, p + t.len()) =~= a.subrange(p, p + t.len()));
}

/// Whether the walk that writes `sibs[i]` in `ctx` reaches the literal
/// token text `t`: a name or a string itself; the operands of a directive;
/// a property's name; the cells of an integer cell list, inside a keymap's
/// binding table only where the grid has a key for each expression; and, within nodes, `#ifdef` bodies, property values up to
/// the `;` and nodes of other kinds, every child in turn.
pub open spec fn reaches(sibs: Seq<SyntaxNode>, i: int, ctx: Context, lay: Grid, t: Seq<char>) -> bool
    decreases sibs, 0int,
{
    if i < 0 || i >= sibs.len() {
        false
    } else {
        let n = sibs[i];
        let ch = n.children@;
        match n.kind {
            NodeKind::Identifier | NodeKind::Reference | NodeKind::UnitAddress | NodeKind::Path
            | NodeKind::StringLiteral => t == n.text@,
            NodeKind::DtsiInclude | NodeKind::PreprocInclude => t == child_text(n, 1),
            NodeKind::PreprocDef => t == child_text(n, 1) || t == child_text(n, 2),
            NodeKind::PreprocFunctionDef => t == child_text(n, 1) || t == child_text(n, 2) || t
                == child_text(n, 3),
            NodeKind::PreprocIfdef => t == child_text(n, 1) || reaches_kids(
                ch,
                2,
                ch.len() as int,
                ctx,
                ChildMode::Each,
                lay,
                t,
            ),
            NodeKind::Node => reaches_kids(ch, 0, ch.len() as int, node_context(ctx, n), ChildMode::Each, lay, t),
            NodeKind::Property => t == child_text(n, 0) || reaches_kids(
                ch,
                1,
                first_of_kind(ch, 1, NodeKind::Semicolon),
                value_context(ctx, child_text(n, 0)),
                ChildMode::Values,
                lay,
                t,
            ),
            NodeKind::IntegerCells => (!(ctx.keymap && ctx.bindings) || group_bindings(
                cell_texts(n),
            ).len() <= key_count(lay.cells)) && exists|k: int|
                1 <= k < cells_end(n) && #[trigger] ch[k].text@ == t,
            NodeKind::Comment | NodeKind::At | NodeKind::ByteString | NodeKind::CloseBrace
            | NodeKind::Semicolon => false,
            _ => reaches_kids(ch, 0, ch.len() as int, ctx, ChildMode::Spread, lay, t),
        }
    }
}

/// Whether the walk over the children `start..end` of `ch` in `mode`
/// reaches the literal token text `t`.
pub open spec fn reaches_kids(
    ch: Seq<SyntaxNode>,
    start: int,
    end: int,
    ctx: Context,
    mode: ChildMode,
    lay: Grid,
    t: Seq<char>,
) -> bool
    decreases ch, end - start,
{
    if start < 0 || end <= start || end > ch.len() {
        false
    } else {
        let j = end - 1;
        reaches_kids(ch, start, j, ctx, mode, lay, t) || (!(mode == ChildMode::Values && (ch[j].kind
            == NodeKind::Comma || ch[j].kind == NodeKind::Equals)) && reaches(
            ch,
            j,
            child_context(ctx, mode, j),
            lay,
            t,
        ))
    }
}

/// Every literal token that the walk reaches stands unchanged in what it
/// writes.
pub proof fn lemma_reached_kept(w: Seq<char>, sibs: Seq<SyntaxNode>, i: int, ctx: Context, lay: Grid, t: Seq<char>)
    requires
        reaches(sibs, i, ctx, lay, t),
    ensures
        occurs_in(t, emit(w, sibs, i, ctx, lay)),
    decreases sibs, 0int,
{
    let n = sibs[i];
    let ch = n.children@;
    let ind = indent_text(ctx);
    let r = emit(w, sibs, i, ctx, lay);
    match n.kind {
        NodeKind::Identifier | NodeKind::Reference | NodeKind::UnitAddress | NodeKind::Path
        | NodeKind::StringLiteral | NodeKind::IntegerCells => {
            lemma_tokens_kept(w, sibs, i, ctx, lay);
            if n.kind == NodeKind::IntegerCells && ctx.keymap && ctx.bindings {
                let k = choose|k: int| 1 <= k < cells_end(n) && #[trigger] ch[k].text@ == t;
                lemma_table_keeps_cells(n, ctx, lay, k);
                assert(r == w + bindings_block(n, ctx, lay) + Seq::<char>::empty());
                lemma_occurs_within(t, w, bindings_block(n, ctx, lay), Seq::empty());
            }
            if n.kind != NodeKind::IntegerCells {
                assert(r.subrange(w.len() as int, (w.len() + t.len()) as int) == t);
            }
        },
        NodeKind::DtsiInclude => {
            let tail = "\n"@ + if next_is(sibs, i, |k: NodeKind| k != NodeKind::DtsiInclude) {
                "\n"@
            } else {
                Seq::empty()
            };
            assert(r =~= (w + ind + "/include/ "@) + t + tail);
            lemma_occurs_between(w + ind + "/include/ "@, t, tail);
        },
        NodeKind::PreprocInclude => {
            let tail = "\n"@ + preproc_break(sibs, i);
            assert(r =~= (w + ind + "#include "@) + t + tail);
            lemma_occurs_between(w + ind + "#include "@, t, tail);
        },
        NodeKind::PreprocDef => {
            let a = w + "#define "@;
            let tail = "\n"@ + preproc_break(sibs, i);
            if t == child_text(n, 1) {
                assert(r =~= a + t + (" "@ + child_text(n, 2) + tail));
                lemma_occurs_between(a, t, " "@ + child_text(n, 2) + tail);
            } else {
                assert(r =~= (a + child_text(n, 1) + " "@) + t + tail);
                lemma_occurs_between(a + child_text(n, 1) + " "@, t, tail);
            }
        },
        NodeKind::PreprocFunctionDef => {
            let a = w + "#define "@;
            let c1 = child_text(n, 1);
            let c2 = child_text(n, 2);
            let c3 = child_text(n, 3);
            let tail = "\n"@ + preproc_break(sibs, i);
            if t == c1 {
                assert(r =~= a + t + (c2 + " "@ + c3 + tail));
                lemma_occurs_between(a, t, c2 + " "@ + c3 + tail);
            } else if t == c2 {
                assert(r =~= (a + c1) + t + (" "@ + c3 + tail));
                lemma_occurs_between(a + c1, t, " "@ + c3 + tail);
            } else {
                assert(r =~= (a + c1 + c2 + " "@) + t + tail);
                lemma_occurs_between(a + c1 + c2 + " "@, t, tail);
            }
        },
        NodeKind::PreprocIfdef => {
            let w1 = w + ind + child_text(n, 0) + " "@ + child_text(n, 1) + "\n"@;
            let k = emit_kids(w1, ch, 2, ch.len() as int, ctx, ChildMode::Each, lay);
            let tail = ind + "#endif\n"@ + preproc_break(sibs, i);
            assert(r =~= k + tail);
            lemma_kids_extend(w1, ch, 2, ch.len() as int, ctx, ChildMode::Each, lay);
            if t == child_text(n, 1) {
                assert(w1 =~= (w + ind + child_text(n, 0) + " "@) + t + "\n"@);
                lemma_occurs_between(w + ind + child_text(n, 0) + " "@, t, "\n"@);
                lemma_occurs_in_extension(t, w1, k);
            } else {
                lemma_kids_reached_kept(w1, ch, 2, ch.len() as int, ctx, ChildMode::Each, lay, t);
            }
            assert(r.subrange(0, k.len() as int) =~= k);
            lemma_occurs_in_extension(t, k, r);
        },
        NodeKind::Node => {
            lemma_kids_reached_kept(
                w + ind,
                ch,
                0,
                ch.len() as int,
                node_context(ctx, n),
                ChildMode::Each,
                lay,
                t,
            );
        },
        NodeKind::Property => {
            let name = child_text(n, 0);
            let end = first_of_kind(ch, 1, NodeKind::Semicolon);
            let w1 = w + ind + name;
            let vctx = value_context(ctx, name);
            let k = emit_kids(w1, ch, 1, end, vctx, ChildMode::Values, lay);
            let tail = ";\n"@ + if next_is(sibs, i, |k: NodeKind| k == NodeKind::Node) {
                "\n"@
            } else {
                Seq::empty()
            };
            assert(r =~= k + tail);
            lemma_kids_extend(w1, ch, 1, end, vctx, ChildMode::Values, lay);
            if t == name {
                assert(w1 =~= (w + ind) + t + Seq::<char>::empty());
                lemma_occurs_between(w + ind, t, Seq::<char>::empty());
                lemma_occurs_in_extension(t, w1, k);
            } else {
                lemma_kids_reached_kept(w1, ch, 1, end, vctx, ChildMode::Values, lay, t);
            }
            assert(r.subrange(0, k.len() as int) =~= k);
            lemma_occurs_in_extension(t, k, r);
        },
        _ => {
            lemma_kids_reached_kept(w, ch, 0, ch.len() as int, ctx, ChildMode::Spread, lay, t);
        },
    }
}

/// Every literal token that the walk over a run of children reaches stands
/// unchanged in what it writes.
pub proof fn lemma_kids_reached_kept(
    w: Seq<char>,
    ch: Seq<SyntaxNode>,
    start: int,
    end: int,
    ctx: Context,
    mode: ChildMode,
    lay: Grid,
    t: Seq<char>,
)
    requires
        reaches_kids(ch, start, end, ctx, mode, lay, t),
    ensures
        occurs_in(t, emit_kids(w, ch, start, end, ctx, mode, lay)),
    decreases ch, end - start,
{
    let j = end - 1;
    let w1 = emit_kids(w, ch, start, j, ctx, mode, lay);
    let r = emit_kids(w, ch, start, end, ctx, mode, lay);
    if reaches_kids(ch, start, j, ctx, mode, lay, t) {
        lemma_kids_reached_kept(w, ch, start, j, ctx, mode, lay, t);
        lemma_kids_prefix(w, ch, start, j, end, ctx, mode, lay);
        lemma_occurs_in_extension(t, w1, r);
    } else {
        lemma_reached_kept(w1, ch, j, child_context(ctx, mode, j), lay, t);
    }
}

/// Literal values are kept at any depth: every token that the walk over a
/// document reaches stands unchanged in the formatted text.
pub proof fn lemma_document_keeps_tokens(root: SyntaxNode, config: &Config, lay: Grid, t: Seq<char>)
    requires
        reaches_kids(root.children@, 0, root.children@.len() as int, root_context(config), ChildMode::Each, lay, t),
    ensures
        occurs_in(t, document_text(root, root_context(config), lay)),
{
    lemma_kids_reached_kept(
        Seq::empty(),
        root.children@,
        0,
        root.children@.len() as int,
        root_context(config),
        ChildMode::Each,
        lay,
        t,
    );
}

/// Whether two contexts lay out text alike: same depth, same flags, same
/// indentation unit.
pub open spec fn same_layout(c1: Context, c2: Context) -> bool {
    &&& c1.indent == c2.indent
    &&& c1.keymap == c2.keymap
    &&& c1.bindings == c2.bindings
    &&& c1.config.indent_str@ == c2.config.indent_str@
}

/// A node is written alike in contexts that lay out text alike.
pub proof fn lemma_emit_layout_only(
    w: Seq<char>,
    sibs: Seq<SyntaxNode>,
    i: int,
    c1: Context,
    c2: Context,
    lay: Grid,
)
    requires
        same_layout(c1, c2),
    ensures
        emit(w, sibs, i, c1, lay) == emit(w, sibs, i, c2, lay),
    decreases sibs, 0int,
{
    if 0 <= i < sibs.len() {
        let n = sibs[i];
        let ch = n.children@;
        assert(indent_text(c1) == indent_text(c2));
        assert(indent_text(outer(c1)) == indent_text(outer(c2)));
        assert(indent_text(nested(c1)) == indent_text(nested(c2)));
        match n.kind {
            NodeKind::PreprocIfdef => {
                let w1 = w + indent_text(c1) + child_text(n, 0) + " "@ + child_text(n, 1) + "\n"@;
                lemma_kids_layout_only(w1, ch, 2, ch.len() as int, c1, c2, ChildMode::Each, lay);
            },
            NodeKind::Node => {
                lemma_kids_layout_only(
                    w + indent_text(c1),
                    ch,
                    0,
                    ch.len() as int,
                    node_context(c1, n),
                    node_context(c2, n),
                    ChildMode::Each,
                    lay,
                );
            },
            NodeKind::Property => {
                let name = child_text(n, 0);
                lemma_kids_layout_only(
                    w + indent_text(c1) + name,
                    ch,
                    1,
                    first_of_kind(ch, 1, NodeKind::Semicolon),
                    value_context(c1, name),
                    value_context(c2, name),
                    ChildMode::Values,
                    lay,
                );
            },
            _ => {
                lemma_kids_layout_only(w, ch, 0, ch.len() as int, c1, c2, ChildMode::Spread, lay);
            },
        }
    }
}

/// A run of children is written alike in contexts that lay out text alike.
pub proof fn lemma_kids_layout_only(
    w: Seq<char>,
    ch: Seq<SyntaxNode>,
    start: int,
    end: int,
    c1: Context,
    c2: Context,
    mode: ChildMode,
    lay: Grid,
)
    requires
        same_layout(c1, c2),
    ensures
        emit_kids(w, ch, start, end, c1, mode, lay) == emit_kids(w, ch, start, end, c2, mode, lay),
    decreases ch, end - start,
{
    if !(start < 0 || end <= start || end > ch.len()) {
        lemma_kids_layout_only(w, ch, start, end - 1, c1, c2, mode, lay);
        let w1 = emit_kids(w, ch, start, end - 1, c1, mode, lay);
        let j = end - 1;
        lemma_emit_layout_only(
            w1,
            ch,
            j,
            child_context(c1, mode, j),
            child_context(c2, mode, j),
            lay,
        );
    }
}

/// Reporting never changes the text: two configurations that differ only in
/// whether unhandled kinds are reported format every document alike.
pub proof fn lemma_reports_leave_text(root: SyntaxNode, c1: &Config, c2: &Config, lay: Grid)
    requires
        c1.indent_str@ == c2.indent_str@,
        c1.layout == c2.layout,
    ensures
        document_text(root, root_context(c1), lay) == document_text(root, root_context(c2), lay),
        layout_grid(c1.layout) == layout_grid(c2.layout),
{
    lemma_kids_layout_only(
        Seq::empty(),
        root.children@,
        0,
        root.children@.len() as int,
        root_context(c1),
        root_context(c2),
        ChildMode::Each,
        lay,
    );
}

} // verus!

//! Language-aware chunking for source code. A structural parser (outside
//! this crate) hands back the top-level nodes of a file; everything that
//! selects, merges and slices those nodes into chunks is verified here.

use vstd::prelude::*;
use vstd::string::StringSliceAdditionalSpecFns;
use vstd::utf8::{decode_utf8, valid_utf8};
use crate::chunk::{chunk_text, spec_text_chunks, Chunk};
use crate::errors::CoreError;
use crate::strutil::{all_ws, spec_all_ws, str_eq, string_from_byte_range};

verus! {

broadcast use vstd::utf8::encode_utf8_valid_utf8;

/// The top-level parse nodes of Rust source: (kind, start byte, end byte)
/// in document order.
pub uninterp spec fn rust_top_nodes_of(s: Seq<char>) -> Seq<(Seq<char>, int, int)>;

/// The top-level parse nodes of Python source.
pub uninterp spec fn python_top_nodes_of(s: Seq<char>) -> Seq<(Seq<char>, int, int)>;

/// The top-level parse nodes of JavaScript source.
pub uninterp spec fn javascript_top_nodes_of(s: Seq<char>) -> Seq<(Seq<char>, int, int)>;

/// The top-level parse nodes of TypeScript source.
pub uninterp spec fn typescript_top_nodes_of(s: Seq<char>) -> Seq<(Seq<char>, int, int)>;

/// The top-level parse nodes of Go source.
pub uninterp spec fn go_top_nodes_of(s: Seq<char>) -> Seq<(Seq<char>, int, int)>;

/// Sanity of a top-level node list over the source bytes: every node
/// spans a byte range inside the source whose ends sit on character
/// boundaries, and nodes come in document order.
pub open spec fn spec_nodes_wf(nodes: Seq<(Seq<char>, int, int)>, b: Seq<u8>) -> bool {
    &&& forall|k: int|
        0 <= k < nodes.len() ==> 0 <= (#[trigger] nodes[k]).1 <= nodes[k].2 <= b.len()
    &&& forall|k: int|
        0 <= k < nodes.len() && (#[trigger] nodes[k]).1 < b.len()
            ==> !vstd::utf8::is_continuation_byte(b[nodes[k].1])
    &&& forall|k: int|
        0 <= k < nodes.len() && (#[trigger] nodes[k]).2 < b.len()
            ==> !vstd::utf8::is_continuation_byte(b[nodes[k].2])
    &&& forall|k: int, k2: int| 0 <= k < k2 < nodes.len() ==> nodes[k].1 <= nodes[k2].1
}

/// Does an exec node list agree with a spec node list?
pub open spec fn spec_nodes_agree(
    v: Seq<(String, usize, usize)>,
    nodes: Seq<(Seq<char>, int, int)>,
) -> bool {
    &&& v.len() == nodes.len()
    &&& forall|k: int|
        0 <= k < nodes.len() ==> (#[trigger] v[k]).0@ == nodes[k].0 && v[k].1 == nodes[k].1
            && v[k].2 == nodes[k].2
}

/// Relies on tree_sitter::Parser::parse with the Rust grammar
/// (tree_sitter_rust::LANGUAGE): the children of the parse tree's root,
/// as (kind, start byte, end byte) triples in document order, spanning
/// byte ranges inside the source on character boundaries. The parse
/// result depends on the source text alone; with this grammar version
/// the language always loads, and with no timeout, cancellation or
/// progress callback configured, parsing always hands a tree back. The
/// parser reads the source through an interface with 32-bit lengths, so
/// everything stated here is stated of sources under 4 GiB only.
#[verifier::external_body]
fn parse_rust_nodes(content: &str) -> (r: Option<Vec<(String, usize, usize)>>)
    requires
        content.spec_bytes().len() < 0x1_0000_0000,
    ensures
        r is Some,
        r is Some ==> spec_nodes_agree(r->0@, rust_top_nodes_of(content@)),
        r is Some ==> spec_nodes_wf(rust_top_nodes_of(content@), content.spec_bytes()),
{
    let mut parser = tree_sitter::Parser::new();
    if parser.set_language(&tree_sitter_rust::LANGUAGE.into()).is_err() {
        return None;
    }
    let tree = parser.parse(content, None)?;
    let root = tree.root_node();
    let mut cursor = root.walk();
    Some(
        root.children(&mut cursor).map(
            |n| (n.kind().to_string(), n.start_byte(), n.end_byte()),
        ).collect(),
    )
}

/// Relies on tree_sitter::Parser::parse with the Python grammar
/// (tree_sitter_python::LANGUAGE); see `parse_rust_nodes`.
#[verifier::external_body]
fn parse_python_nodes(content: &str) -> (r: Option<Vec<(String, usize, usize)>>)
    requires
        content.spec_bytes().len() < 0x1_0000_0000,
    ensures
        r is Some,
        r is Some ==> spec_nodes_agree(r->0@, python_top_nodes_of(content@)),
        r is Some ==> spec_nodes_wf(python_top_nodes_of(content@), content.spec_bytes()),
{
    let mut parser = tree_sitter::Parser::new();
    if parser.set_language(&tree_sitter_python::LANGUAGE.into()).is_err() {
        return None;
    }
    let tree = parser.parse(content, None)?;
    let root = tree.root_node();
    let mut cursor = root.walk();
    Some(
        root.children(&mut cursor).map(
            |n| (n.kind().to_string(), n.start_byte(), n.end_byte()),
        ).collect(),
    )
}

/// Relies on tree_sitter::Parser::parse with the JavaScript grammar
/// (tree_sitter_javascript::LANGUAGE); see `parse_rust_nodes`.
#[verifier::external_body]
fn parse_javascript_nodes(content: &str) -> (r: Option<Vec<(String, usize, usize)>>)
    requires
        content.spec_bytes().len() < 0x1_0000_0000,
    ensures
        r is Some,
        r is Some ==> spec_nodes_agree(r->0@, javascript_top_nodes_of(content@)),
        r is Some ==> spec_nodes_wf(javascript_top_nodes_of(content@), content.spec_bytes()),
{
    let mut parser = tree_sitter::Parser::new();
    if parser.set_language(&tree_sitter_javascript::LANGUAGE.into()).is_err() {
        return None;
    }
    let tree = parser.parse(content, None)?;
    let root = tree.root_node();
    let mut cursor = root.walk();
    Some(
        root.children(&mut cursor).map(
            |n| (n.kind().to_string(), n.start_byte(), n.end_byte()),
        ).collect(),
    )
}

/// Relies on tree_sitter::Parser::parse with the TypeScript grammar
/// (tree_sitter_typescript::LANGUAGE_TYPESCRIPT); see `parse_rust_nodes`.
#[verifier::external_body]
fn parse_typescript_nodes(content: &str) -> (r: Option<Vec<(String, usize, usize)>>)
    requires
        content.spec_bytes().len() < 0x1_0000_0000,
    ensures
        r is Some,
        r is Some ==> spec_nodes_agree(r->0@, typescript_top_nodes_of(content@)),
        r is Some ==> spec_nodes_wf(typescript_top_nodes_of(content@), content.spec_bytes()),
{
    let mut parser = tree_sitter::Parser::new();
    if parser.set_language(&tree_sitter_typescript::LANGUAGE_TYPESCRIPT.into()).is_err() {
        return None;
    }
    let tree = parser.parse(content, None)?;
    let root = tree.root_node();
    let mut cursor = root.walk();
    Some(
        root.children(&mut cursor).map(
            |n| (n.kind().to_string(), n.start_byte(), n.end_byte()),
        ).collect(),
    )
}

/// Relies on tree_sitter::Parser::parse with the Go grammar
/// (tree_sitter_go::LANGUAGE); see `parse_rust_nodes`.
#[verifier::external_body]
fn parse_go_nodes(content: &str) -> (r: Option<Vec<(String, usize, usize)>>)
    requires
        content.spec_bytes().len() < 0x1_0000_0000,
    ensures
        r is Some,
        r is Some ==> spec_nodes_agree(r->0@, go_top_nodes_of(content@)),
        r is Some ==> spec_nodes_wf(go_top_nodes_of(content@), content.spec_bytes()),
{
    let mut parser = tree_sitter::Parser::new();
    if parser.set_language(&tree_sitter_go::LANGUAGE.into()).is_err() {
        return None;
    }
    let tree = parser.parse(content, None)?;
    let root = tree.root_node();
    let mut cursor = root.walk();
    Some(
        root.children(&mut cursor).map(
            |n| (n.kind().to_string(), n.start_byte(), n.end_byte()),
        ).collect(),
    )
}

/// The Rust node kinds that become chunks.
pub open spec fn spec_rust_target(kind: Seq<char>) -> bool {
    ||| kind == "function_item"@
    ||| kind == "impl_item"@
    ||| kind == "struct_item"@
    ||| kind == "enum_item"@
    ||| kind == "mod_item"@
    ||| kind == "trait_item"@
}

/// The Rust node kinds that are comments.
pub open spec fn spec_rust_comment(kind: Seq<char>) -> bool {
    kind == "line_comment"@ || kind == "block_comment"@
}

/// The chunk spans of a Rust file: one per target node, with the start
/// pulled back to the first comment of the contiguous comment block just
/// before it; any other node kind discards a pending comment block.
pub open spec fn spec_rust_spans(
    nodes: Seq<(Seq<char>, int, int)>,
    i: int,
    pending: Option<int>,
) -> Seq<(int, int)>
    decreases nodes.len() - i,
    when 0 <= i
{
    if i >= nodes.len() {
        Seq::empty()
    } else {
        let kind = nodes[i].0;
        let s = nodes[i].1;
        let e = nodes[i].2;
        if spec_rust_comment(kind) {
            spec_rust_spans(
                nodes,
                i + 1,
                if pending is None {
                    Some(s)
                } else {
                    pending
                },
            )
        } else if spec_rust_target(kind) {
            seq![
                (
                    if pending is Some {
                        pending->0
                    } else {
                        s
                    },
                    e,
                ),
            ] + spec_rust_spans(nodes, i + 1, None)
        } else {
            spec_rust_spans(nodes, i + 1, None)
        }
    }
}

/// Chunks agree with byte spans of the source: same count, exact offsets,
/// contents decoded from the spanned bytes, no metadata.
pub open spec fn spec_matches_spans(chunks: Seq<Chunk>, b: Seq<u8>, spans: Seq<(int, int)>) -> bool {
    &&& chunks.len() == spans.len()
    &&& forall|k: int|
        0 <= k < spans.len() ==> {
            &&& (#[trigger] chunks[k]).start == spans[k].0
            &&& chunks[k].end == spans[k].1
            &&& chunks[k].content@ == decode_utf8(b.subrange(spans[k].0, spans[k].1))
            &&& chunks[k].metadata is None
        }
}

/// Chunks agree with a paragraph model; see `spec_text_chunks`.
pub open spec fn spec_matches_text(chunks: Seq<Chunk>, model: Seq<(int, int, Seq<u8>)>) -> bool {
    &&& chunks.len() == model.len()
    &&& forall|k: int|
        0 <= k < model.len() ==> {
            &&& (#[trigger] chunks[k]).start == model[k].0
            &&& chunks[k].end == model[k].1
            &&& chunks[k].content@ == decode_utf8(model[k].2)
            &&& chunks[k].metadata is None
        }
}

/// Cut chunks out of the source at the given spans.
fn cut_spans(content: &str, spans: &Vec<(usize, usize)>) -> (r: Vec<Chunk>)
    requires
        forall|k: int|
            0 <= k < spans@.len() ==> {
                &&& 0 <= (#[trigger] spans@[k]).0 <= spans@[k].1 <= content.spec_bytes().len()
                &&& (spans@[k].0 < content.spec_bytes().len()
                    ==> !vstd::utf8::is_continuation_byte(content.spec_bytes()[spans@[k].0 as int]))
                &&& (spans@[k].1 < content.spec_bytes().len()
                    ==> !vstd::utf8::is_continuation_byte(content.spec_bytes()[spans@[k].1 as int]))
            },
    ensures
        r@.len() == spans@.len(),
        forall|k: int|
            0 <= k < spans@.len() ==> {
                &&& (#[trigger] r@[k]).start == spans@[k].0
                &&& r@[k].end == spans@[k].1
                &&& r@[k].content@ == decode_utf8(
                    content.spec_bytes().subrange(spans@[k].0 as int, spans@[k].1 as int),
                )
                &&& r@[k].metadata is None
            },
{
    let b = content.as_bytes();
    let n = spans.len();
    let mut out: Vec<Chunk> = Vec::new();
    let mut i: usize = 0;
    while i < n
        invariant
            b@ == content.spec_bytes(),
            valid_utf8(b@),
            n == spans@.len(),
            i <= n,
            forall|k: int|
                0 <= k < n ==> {
                    &&& 0 <= (#[trigger] spans@[k]).0 <= spans@[k].1 <= b@.len()
                    &&& (spans@[k].0 < b@.len() ==> !vstd::utf8::is_continuation_byte(
                        b@[spans@[k].0 as int],
                    ))
                    &&& (spans@[k].1 < b@.len() ==> !vstd::utf8::is_continuation_byte(
                        b@[spans@[k].1 as int],
                    ))
                },
            out@.len() == i,
            forall|k: int|
                0 <= k < i ==> {
                    &&& (#[trigger] out@[k]).start == spans@[k].0
                    &&& out@[k].end == spans@[k].1
                    &&& out@[k].content@ == decode_utf8(
                        b@.subrange(spans@[k].0 as int, spans@[k].1 as int),
                    )
                    &&& out@[k].metadata is None
                },
        decreases n - i,
    {
        let (s, e) = spans[i];
        let piece = string_from_byte_range(b, s, e);
        out.push(Chunk { start: s as u64, end: e as u64, content: piece, metadata: None });
        i += 1;
    }
    out
}

/// When a code chunker owes success: always, except when it must fall
/// back to paragraph chunking (nothing selected in a non-blank file)
/// and the content is too large for the paragraph offsets.
pub open spec fn spec_code_fits(b: Seq<u8>, spans: Seq<(int, int)>) -> bool {
    spans.len() > 0 || spec_all_ws(b) || crate::chunk::spec_text_fits(b)
}

/// The result shape every code chunker guarantees: the selected spans,
/// or the paragraph fallback when nothing was selected in a non-blank
/// file.
pub open spec fn spec_code_ok(chunks: Seq<Chunk>, b: Seq<u8>, spans: Seq<(int, int)>) -> bool {
    if spans.len() == 0 && !spec_all_ws(b) {
        spec_matches_text(chunks, spec_text_chunks(b, 0))
    } else {
        spec_matches_spans(chunks, b, spans)
    }
}

/// Chunk Rust source by its top-level items, absorbing the comment block
/// directly above each item. When the structural pass yields nothing but
/// the file is not blank, fall back to paragraph chunking.
pub fn chunk_rust(content: &str) -> (r: Result<Vec<Chunk>, CoreError>)
    requires
        content.spec_bytes().len() < 0x1_0000_0000,
    ensures
        r is Err ==> r->Err_0 is ChunkingFailed,
        r is Ok <==> spec_code_fits(
            content.spec_bytes(),
            spec_rust_spans(rust_top_nodes_of(content@), 0, None),
        ),
        r is Ok ==> spec_code_ok(r->Ok_0@, content.spec_bytes(), spec_rust_spans(rust_top_nodes_of(content@), 0, None)),
{
    let nodes = match parse_rust_nodes(content) {
        None => {
            proof {
                assert(false);
            }
            return Err(CoreError::ChunkingFailed);
        },
        Some(v) => v,
    };
    let b = content.as_bytes();
    let ghost ns = rust_top_nodes_of(content@);
    let ghost model = spec_rust_spans(ns, 0, None);
    let n = nodes.len();
    let mut spans: Vec<(usize, usize)> = Vec::new();
    let mut pending: Option<usize> = None;
    let mut i: usize = 0;
    while i < n
        invariant
            b@ == content.spec_bytes(),
            spec_nodes_agree(nodes@, ns),
            spec_nodes_wf(ns, b@),
            model == spec_rust_spans(ns, 0, None),
            n == ns.len(),
            i <= n,
            match pending {
                Some(p) => exists|k0: int| 0 <= k0 < i && ns[k0].1 == p,
                None => true,
            },
            spans@.len() <= model.len(),
            spec_rust_spans(
                ns,
                i as int,
                match pending {
                    Some(p) => Some(p as int),
                    None => None,
                },
            ) == model.subrange(spans@.len() as int, model.len() as int),
            forall|k: int|
                0 <= k < spans@.len() ==> (#[trigger] spans@[k]).0 == model[k].0 && spans@[k].1
                    == model[k].1,
            forall|k: int|
                0 <= k < spans@.len() ==> {
                    &&& 0 <= (#[trigger] spans@[k]).0 <= spans@[k].1 <= b@.len()
                    &&& (spans@[k].0 < b@.len() ==> !vstd::utf8::is_continuation_byte(
                        b@[spans@[k].0 as int],
                    ))
                    &&& (spans@[k].1 < b@.len() ==> !vstd::utf8::is_continuation_byte(
                        b@[spans@[k].1 as int],
                    ))
                },
        decreases n - i,
    {
        let kind: &String = &nodes[i].0;
        let s: usize = nodes[i].1;
        let e: usize = nodes[i].2;
        if str_eq(kind.as_str(), "line_comment") || str_eq(kind.as_str(), "block_comment") {
            if pending.is_none() {
                pending = Some(s);
            }
        } else if str_eq(kind.as_str(), "function_item") || str_eq(kind.as_str(), "impl_item")
            || str_eq(kind.as_str(), "struct_item") || str_eq(kind.as_str(), "enum_item")
            || str_eq(kind.as_str(), "mod_item") || str_eq(kind.as_str(), "trait_item") {
            let cs: usize = match pending {
                Some(p) => p,
                None => s,
            };
            proof {
                if pending is Some {
                    let k0 = choose|k0: int| 0 <= k0 < i && ns[k0].1 == cs as int;
                    assert(ns[k0].1 <= ns[i as int].1);
                }
                let rem = model.subrange(spans@.len() as int, model.len() as int);
                let tail = spec_rust_spans(ns, i as int + 1, None);
                assert(rem == seq![(cs as int, e as int)] + tail);
                assert(rem.len() == 1 + tail.len());
                assert(model[spans@.len() as int] == rem[0]);
                assert forall|t: int| 0 <= t < tail.len() implies model[spans@.len() + 1 + t]
                    == tail[t] by {
                    assert(model[spans@.len() + 1 + t] == rem[1 + t]);
                    assert(rem[1 + t] == tail[t]);
                }
                assert(model.subrange(spans@.len() as int + 1, model.len() as int) =~= tail);
            }
            spans.push((cs, e));
            pending = None;
        } else {
            pending = None;
        }
        i += 1;
    }
    proof {
        assert(spec_rust_spans(
            ns,
            n as int,
            match pending {
                Some(p) => Some(p as int),
                None => None,
            },
        ) =~= Seq::<(int, int)>::empty());
        assert(spans@.len() == model.len());
    }
    if spans.len() == 0 && !all_ws(b) {
        return chunk_text(content);
    }
    Ok(cut_spans(content, &spans))
}

/// The languages whose chunker selects top-level nodes by a plain
/// allow-list.
pub enum CodeLang {
    Python,
    Javascript,
    Typescript,
    Go,
}

/// The node filter of each plain-selection language. JavaScript also
/// takes top-level expression statements, but only substantial ones of
/// fifty bytes or more.
pub open spec fn spec_lang_allow(lang: CodeLang) -> spec_fn((Seq<char>, int, int)) -> bool {
    match lang {
        CodeLang::Python => |t: (Seq<char>, int, int)|
            t.0 == "function_definition"@ || t.0 == "class_definition"@ || t.0
                == "decorated_definition"@,
        CodeLang::Javascript => |t: (Seq<char>, int, int)|
            t.0 == "function_declaration"@ || t.0 == "class_declaration"@ || t.0
                == "export_statement"@ || t.0 == "lexical_declaration"@ || (t.0
                == "expression_statement"@ && t.2 - t.1 >= 50),
        CodeLang::Typescript => |t: (Seq<char>, int, int)|
            t.0 == "function_declaration"@ || t.0 == "class_declaration"@ || t.0
                == "interface_declaration"@ || t.0 == "type_alias_declaration"@ || t.0
                == "export_statement"@ || t.0 == "lexical_declaration"@,
        CodeLang::Go => |t: (Seq<char>, int, int)|
            t.0 == "function_declaration"@ || t.0 == "method_declaration"@ || t.0
                == "type_declaration"@ || t.0 == "const_declaration"@ || t.0
                == "var_declaration"@,
    }
}

/// The chunk spans of a plain-selection language: the allowed nodes'
/// byte ranges, in document order.
pub open spec fn spec_lang_spans(lang: CodeLang, nodes: Seq<(Seq<char>, int, int)>) -> Seq<
    (int, int),
> {
    nodes.filter(spec_lang_allow(lang)).map_values(|t: (Seq<char>, int, int)| (t.1, t.2))
}

/// Does the allow-list of `lang` take this node?
fn node_allowed(lang: &CodeLang, kind: &str, s: usize, e: usize) -> (r: bool)
    requires
        s <= e,
    ensures
        r == spec_lang_allow(*lang)((kind@, s as int, e as int)),
{
    match lang {
        CodeLang::Python => str_eq(kind, "function_definition") || str_eq(
            kind,
            "class_definition",
        ) || str_eq(kind, "decorated_definition"),
        CodeLang::Javascript => {
            if str_eq(kind, "function_declaration") || str_eq(kind, "class_declaration") || str_eq(
                kind,
                "export_statement",
            ) || str_eq(kind, "lexical_declaration") {
                true
            } else if str_eq(kind, "expression_statement") {
                e - s >= 50
            } else {
                false
            }
        },
        CodeLang::Typescript => str_eq(kind, "function_declaration") || str_eq(
            kind,
            "class_declaration",
        ) || str_eq(kind, "interface_declaration") || str_eq(kind, "type_alias_declaration")
            || str_eq(kind, "export_statement") || str_eq(kind, "lexical_declaration"),
        CodeLang::Go => str_eq(kind, "function_declaration") || str_eq(kind, "method_declaration")
            || str_eq(kind, "type_declaration") || str_eq(kind, "const_declaration") || str_eq(
            kind,
            "var_declaration",
        ),
    }
}

/// Chunk a file whose top-level nodes were already parsed, with a plain
/// allow-list; fall back to paragraph chunking when nothing was selected
/// and the file is not blank.
fn chunk_with_nodes(
    lang: &CodeLang,
    content: &str,
    nodes: Vec<(String, usize, usize)>,
    Ghost(ns): Ghost<Seq<(Seq<char>, int, int)>>,
) -> (r: Result<Vec<Chunk>, CoreError>)
    requires
        spec_nodes_agree(nodes@, ns),
        spec_nodes_wf(ns, content.spec_bytes()),
    ensures
        r is Err ==> r->Err_0 is ChunkingFailed,
        r is Ok <==> spec_code_fits(content.spec_bytes(), spec_lang_spans(*lang, ns)),
        r is Ok ==> spec_code_ok(r->Ok_0@, content.spec_bytes(), spec_lang_spans(*lang, ns)),
{
    let b = content.as_bytes();
    let ghost allow = spec_lang_allow(*lang);
    let ghost model = spec_lang_spans(*lang, ns);
    let n = nodes.len();
    let mut spans: Vec<(usize, usize)> = Vec::new();
    let mut i: usize = 0;
    while i < n
        invariant
            b@ == content.spec_bytes(),
            spec_nodes_agree(nodes@, ns),
            spec_nodes_wf(ns, b@),
            allow == spec_lang_allow(*lang),
            model == spec_lang_spans(*lang, ns),
            n == ns.len(),
            i <= n,
            spans@.len() == ns.subrange(0, i as int).filter(allow).len(),
            forall|k: int|
                0 <= k < spans@.len() ==> {
                    let kept = ns.subrange(0, i as int).filter(allow);
                    (#[trigger] spans@[k]).0 == kept[k].1 && spans@[k].1 == kept[k].2
                },
            forall|k: int|
                0 <= k < spans@.len() ==> {
                    &&& 0 <= (#[trigger] spans@[k]).0 <= spans@[k].1 <= b@.len()
                    &&& (spans@[k].0 < b@.len() ==> !vstd::utf8::is_continuation_byte(
                        b@[spans@[k].0 as int],
                    ))
                    &&& (spans@[k].1 < b@.len() ==> !vstd::utf8::is_continuation_byte(
                        b@[spans@[k].1 as int],
                    ))
                },
        decreases n - i,
    {
        proof {
            crate::store::lemma_filter_step(ns, allow, i as int);
        }
        let kind: &String = &nodes[i].0;
        let s: usize = nodes[i].1;
        let e: usize = nodes[i].2;
        if node_allowed(lang, kind.as_str(), s, e) {
            spans.push((s, e));
        }
        i += 1;
    }
    proof {
        assert(ns.subrange(0, n as int) =~= ns);
        let kept = ns.filter(allow);
        assert forall|k: int| 0 <= k < model.len() implies model[k] == ((#[trigger] kept[k]).1,
        kept[k].2) by {}
    }
    if spans.len() == 0 && !all_ws(b) {
        return chunk_text(content);
    }
    Ok(cut_spans(content, &spans))
}

/// Chunk Python source by its top-level definitions.
pub fn chunk_python(content: &str) -> (r: Result<Vec<Chunk>, CoreError>)
    requires
        content.spec_bytes().len() < 0x1_0000_0000,
    ensures
        r is Err ==> r->Err_0 is ChunkingFailed,
        r is Ok <==> spec_code_fits(
            content.spec_bytes(),
            spec_lang_spans(CodeLang::Python, python_top_nodes_of(content@)),
        ),
        r is Ok ==> spec_code_ok(r->Ok_0@, content.spec_bytes(), spec_lang_spans(CodeLang::Python, python_top_nodes_of(content@))),
{
    match parse_python_nodes(content) {
        None => {
            proof {
                assert(false);
            }
            Err(CoreError::ChunkingFailed)
        },
        Some(v) => chunk_with_nodes(
            &CodeLang::Python,
            content,
            v,
            Ghost(python_top_nodes_of(content@)),
        ),
    }
}

/// Chunk JavaScript source by its top-level declarations and exports.
pub fn chunk_javascript(content: &str) -> (r: Result<Vec<Chunk>, CoreError>)
    requires
        content.spec_bytes().len() < 0x1_0000_0000,
    ensures
        r is Err ==> r->Err_0 is ChunkingFailed,
        r is Ok <==> spec_code_fits(
            content.spec_bytes(),
            spec_lang_spans(CodeLang::Javascript, javascript_top_nodes_of(content@)),
        ),
        r is Ok ==> spec_code_ok(r->Ok_0@, content.spec_bytes(), spec_lang_spans(CodeLang::Javascript, javascript_top_nodes_of(content@))),
{
    match parse_javascript_nodes(content) {
        None => {
            proof {
                assert(false);
            }
            Err(CoreError::ChunkingFailed)
        },
        Some(v) => chunk_with_nodes(
            &CodeLang::Javascript,
            content,
            v,
            Ghost(javascript_top_nodes_of(content@)),
        ),
    }
}

/// Chunk TypeScript source by its top-level declarations, interfaces,
/// type aliases and exports.
pub fn chunk_typescript(content: &str) -> (r: Result<Vec<Chunk>, CoreError>)
    requires
        content.spec_bytes().len() < 0x1_0000_0000,
    ensures
        r is Err ==> r->Err_0 is ChunkingFailed,
        r is Ok <==> spec_code_fits(
            content.spec_bytes(),
            spec_lang_spans(CodeLang::Typescript, typescript_top_nodes_of(content@)),
        ),
        r is Ok ==> spec_code_ok(r->Ok_0@, content.spec_bytes(), spec_lang_spans(CodeLang::Typescript, typescript_top_nodes_of(content@))),
{
    match parse_typescript_nodes(content) {
        None => {
            proof {
                assert(false);
            }
            Err(CoreError::ChunkingFailed)
        },
        Some(v) => chunk_with_nodes(
            &CodeLang::Typescript,
            content,
            v,
            Ghost(typescript_top_nodes_of(content@)),
        ),
    }
}

/// Chunk Go source by its top-level declarations.
pub fn chunk_go(content: &str) -> (r: Result<Vec<Chunk>, CoreError>)
    requires
        content.spec_bytes().len() < 0x1_0000_0000,
    ensures
        r is Err ==> r->Err_0 is ChunkingFailed,
        r is Ok <==> spec_code_fits(
            content.spec_bytes(),
            spec_lang_spans(CodeLang::Go, go_top_nodes_of(content@)),
        ),
        r is Ok ==> spec_code_ok(r->Ok_0@, content.spec_bytes(), spec_lang_spans(CodeLang::Go, go_top_nodes_of(content@))),
{
    match parse_go_nodes(content) {
        None => {
            proof {
                assert(false);
            }
            Err(CoreError::ChunkingFailed)
        },
        Some(v) => chunk_with_nodes(&CodeLang::Go, content, v, Ghost(go_top_nodes_of(content@))),
    }
}

} // verus!

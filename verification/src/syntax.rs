//! Syntax-aware content hashing for JavaScript and TypeScript sources. The
//! parse tree is copied into the library's own node type; the walk that turns
//! it into a digest input — hashing node kinds, hashing leaf text, and
//! skipping comment subtrees — is verified against a tree model, and the
//! comment-invariance of that walk is proved.

use vstd::prelude::*;
use crate::digest::{blake3_hex, blake3_of, hex_of};

verus! {

/// Grammar to parse a source with.
pub enum Lang {
    JavaScript,
    TypeScript,
    Tsx,
}

/// One node of a parsed syntax tree, as the library sees it.
pub struct SyntaxNode {
    /// The grammar's name for the node kind.
    pub kind: String,
    /// The field name this node fills in its parent, if any.
    pub field: Option<String>,
    /// The source text the node spans.
    pub text: String,
    /// Zero-based source row where the node starts.
    pub row: usize,
    /// Child nodes in source order.
    pub children: Vec<SyntaxNode>,
}

#[verifier::external_type_specification]
#[verifier::external_body]
pub struct ExNode<'a>(tree_sitter::Node<'a>);

/// Relies on tree-sitter's tree cursor (`Node::kind`, `Node::utf8_text`,
/// `Node::start_position`, `TreeCursor::field_name` and the cursor moves):
/// copies a parse tree node and its subtree into the library's node type.
#[verifier::external_body]
fn convert_node(node: tree_sitter::Node<'_>, source: &str, field: Option<String>) -> (r:
    SyntaxNode)
    ensures
        r.field == field,
{
    let mut children = Vec::new();
    let mut cursor = node.walk();
    if cursor.goto_first_child() {
        loop {
            let f = cursor.field_name().map(|s| s.to_string());
            children.push(convert_node(cursor.node(), source, f));
            if !cursor.goto_next_sibling() {
                break;
            }
        }
    }
    let text = node.utf8_text(source.as_bytes()).unwrap_or("").to_string();
    SyntaxNode { kind: node.kind().to_string(), field, text, row: node.start_position().row, children }
}

/// Relies on `tree_sitter::Parser` with the JavaScript, TypeScript and TSX
/// grammars: parses the source and hands the tree over, or `None` when
/// parsing fails. Parsing is a pure function of the grammar and the source
/// text, so the resulting tree model is pinned to its name `parse_of`.
#[verifier::external_body]
pub fn parse_source(lang: &Lang, source: &str) -> (r: Option<SyntaxNode>)
    ensures
        r matches Some(root) ==> parse_of(*lang, source@) == Some(model_of(root)),
        r is None <==> parse_of(*lang, source@) is None,
{
    let language = match lang {
        Lang::TypeScript => tree_sitter_typescript::LANGUAGE_TYPESCRIPT.into(),
        Lang::Tsx => tree_sitter_typescript::LANGUAGE_TSX.into(),
        Lang::JavaScript => tree_sitter_javascript::LANGUAGE.into(),
    };
    let mut parser = tree_sitter::Parser::new();
    if parser.set_language(&language).is_err() {
        return None;
    }
    let tree = parser.parse(source, None)?;
    Some(convert_node(tree.root_node(), source, None))
}

/// `n` occurs in `h` as a contiguous subsequence.
pub open spec fn contains_chars(h: Seq<char>, n: Seq<char>) -> bool {
    exists|i: int| 0 <= i && i + n.len() <= h.len() && #[trigger] h.subrange(i, i + n.len()) == n
}

/// Whether the needle matches the haystack characters starting at `i`.
#[verifier::loop_isolation(false)]
pub(crate) fn match_at(hay: &String, needle: &str, i: usize) -> (r: bool)
    requires
        i + needle@.len() <= hay@.len(),
        hay@.len() <= usize::MAX,
    ensures
        r == (hay@.subrange(i as int, i + needle@.len()) == needle@),
{
    let nl = needle.unicode_len();
    let mut j: usize = 0;
    while j < nl
        invariant
            nl == needle@.len(),
            i + nl <= hay@.len(),
            j <= nl,
            forall|jj: int| 0 <= jj < j ==> hay@[i + jj] == needle@[jj],
        decreases nl - j,
    {
        let hc = hay.as_str().get_char(i + j);
        let nc = needle.get_char(j);
        if hc != nc {
            proof {
                assert(hay@.subrange(i as int, i + needle@.len())[j as int] != needle@[j as int]);
            }
            return false;
        }
        j = j + 1;
    }
    proof {
        assert(hay@.subrange(i as int, i + needle@.len()) =~= needle@);
    }
    true
}

/// Whether `needle` occurs in `hay` as a contiguous substring.
#[verifier::loop_isolation(false)]
pub fn contains_sub(hay: &String, needle: &str) -> (r: bool)
    ensures
        r == contains_chars(hay@, needle@),
{
    let hl = hay.as_str().unicode_len();
    let nl = needle.unicode_len();
    if nl == 0 {
        proof {
            assert(contains_chars(hay@, needle@)) by {
                let zero: int = 0;
                assert(hay@.subrange(zero, zero + needle@.len()) =~= needle@);
            }
        }
        return true;
    }
    if nl > hl {
        proof {
            assert forall|i: int|
                0 <= i && i + needle@.len() <= hay@.len() implies #[trigger] hay@.subrange(
                i,
                i + needle@.len(),
            ) != needle@ by {}
        }
        return false;
    }
    let mut i: usize = 0;
    while i <= hl - nl
        invariant
            hl == hay@.len(),
            nl == needle@.len(),
            1 <= nl <= hl,
            i <= hl - nl + 1,
            forall|i0: int|
                0 <= i0 < i ==> #[trigger] hay@.subrange(i0, i0 + needle@.len()) != needle@,
        decreases hl - i,
    {
        if match_at(hay, needle, i) {
            return true;
        }
        i = i + 1;
    }
    proof {
        assert forall|i0: int|
            0 <= i0 && i0 + needle@.len() <= hay@.len() implies #[trigger] hay@.subrange(
            i0,
            i0 + needle@.len(),
        ) != needle@ by {
            assert(i0 < i);
        }
    }
    false
}

/// The grammar's heuristic for comments: the kind name mentions them. An
/// unfamiliar comment variant is still skipped.
pub open spec fn is_comment_kind(kind: Seq<char>) -> bool {
    contains_chars(kind, "comment"@)
}

/// The mathematical shape of a syntax tree: what the structural hash and the
/// symbol extractor read.
pub struct NodeModel {
    pub kind: Seq<char>,
    pub field: Option<Seq<char>>,
    pub text: Seq<char>,
    pub row: int,
    pub children: Seq<NodeModel>,
}

/// The view of an optional string.
pub open spec fn opt_view(o: Option<String>) -> Option<Seq<char>> {
    match o {
        Some(s) => Some(s@),
        None => None,
    }
}

/// The tree model the parser yields for a grammar and a source text, or
/// `None` when the source does not parse. Parsing depends on exactly these
/// two, in every process and on every machine, so the result carries a name;
/// what a concrete source parses to is only ever observed by running the
/// parser.
pub uninterp spec fn parse_of(lang: Lang, source: Seq<char>) -> Option<NodeModel>;

/// The model of a node: its kind, its field, its text, its row, and its
/// children's models.
pub open spec fn model_of(n: SyntaxNode) -> NodeModel
    decreases n,
{
    NodeModel {
        kind: n.kind@,
        field: opt_view(n.field),
        text: n.text@,
        row: n.row as int,
        children: models_of(n.children@),
    }
}

/// The models of a sequence of nodes.
pub open spec fn models_of(cs: Seq<SyntaxNode>) -> Seq<NodeModel>
    decreases cs,
{
    if cs.len() == 0 {
        Seq::empty()
    } else {
        seq![model_of(cs[0])] + models_of(cs.drop_first())
    }
}

/// Taking models preserves length and order.
pub proof fn lemma_models_of(cs: Seq<SyntaxNode>)
    ensures
        models_of(cs).len() == cs.len(),
        forall|i: int| 0 <= i < cs.len() ==> #[trigger] models_of(cs)[i] == model_of(cs[i]),
    decreases cs,
{
    if cs.len() > 0 {
        lemma_models_of(cs.drop_first());
        assert forall|i: int| 0 <= i < cs.len() implies #[trigger] models_of(cs)[i] == model_of(
            cs[i],
        ) by {
            if i > 0 {
                assert(models_of(cs)[i] == models_of(cs.drop_first())[i - 1]);
                assert(cs.drop_first()[i - 1] == cs[i]);
            }
        }
    }
}

/// The bytes a tree feeds into the structural digest: a comment subtree
/// contributes nothing; any other node contributes its kind name and then
/// either its text (leaves) or its children's bytes.
pub open spec fn model_stream(m: NodeModel) -> Seq<u8>
    decreases m,
{
    if is_comment_kind(m.kind) {
        Seq::empty()
    } else {
        vstd::utf8::encode_utf8(m.kind) + if m.children.len() == 0 {
            vstd::utf8::encode_utf8(m.text)
        } else {
            children_stream(m.children)
        }
    }
}

/// The concatenated stream of a node sequence.
pub open spec fn children_stream(cs: Seq<NodeModel>) -> Seq<u8>
    decreases cs,
{
    if cs.len() == 0 {
        Seq::empty()
    } else {
        model_stream(cs[0]) + children_stream(cs.drop_first())
    }
}

/// Appending a node extends the stream at the end.
proof fn lemma_children_stream_push(cs: Seq<NodeModel>, x: NodeModel)
    ensures
        children_stream(cs.push(x)) == children_stream(cs) + model_stream(x),
    decreases cs.len(),
{
    if cs.len() == 0 {
        assert(cs.push(x)[0] == x);
        assert(cs.push(x).drop_first() =~= Seq::<NodeModel>::empty());
        assert(cs.push(x).len() == 1);
        assert(children_stream(cs.push(x)) == model_stream(cs.push(x)[0]) + children_stream(
            cs.push(x).drop_first(),
        ));
        assert(children_stream(Seq::<NodeModel>::empty()) == Seq::<u8>::empty());
        assert(children_stream(cs.push(x)) =~= model_stream(x));
        assert(children_stream(cs) + model_stream(x) =~= model_stream(x));
    } else {
        assert(cs.push(x)[0] == cs[0]);
        assert(cs.push(x).drop_first() =~= cs.drop_first().push(x));
        lemma_children_stream_push(cs.drop_first(), x);
        assert(children_stream(cs.push(x)) =~= children_stream(cs) + model_stream(x));
    }
}

/// Append the digest bytes of the subtree under `n` to `out`.
fn push_node_stream(n: &SyntaxNode, out: &mut Vec<u8>)
    ensures
        final(out)@ == old(out)@ + model_stream(model_of(*n)),
    decreases *n,
{
    if contains_sub(&n.kind, "comment") {
        assert(out@ =~= old(out)@ + model_stream(model_of(*n)));
        return ;
    }
    let mut kb = n.kind.as_str().as_bytes_vec();
    out.append(&mut kb);
    if n.children.len() == 0 {
        let mut tb = n.text.as_str().as_bytes_vec();
        out.append(&mut tb);
        proof {
            assert(models_of(n.children@).len() == 0);
            assert(out@ =~= old(out)@ + model_stream(model_of(*n)));
        }
    } else {
        let ghost base = out@;
        proof {
            lemma_models_of(n.children@);
            assert(n.children@.subrange(0, 0) =~= Seq::<SyntaxNode>::empty());
            assert(out@ =~= base + children_stream(models_of(n.children@.subrange(0, 0))));
        }
        let mut i: usize = 0;
        while i < n.children.len()
            invariant
                base == old(out)@ + vstd::utf8::encode_utf8(n.kind@),
                i <= n.children@.len(),
                out@ == base + children_stream(models_of(n.children@.subrange(0, i as int))),
            decreases n.children@.len() - i,
        {
            push_node_stream(&n.children[i], out);
            proof {
                let pre = n.children@.subrange(0, i as int);
                let post = n.children@.subrange(0, i + 1);
                lemma_models_of(pre);
                lemma_models_of(post);
                assert(models_of(post) =~= models_of(pre).push(model_of(n.children@[i as int])))
                    by {
                    assert forall|q: int| 0 <= q < post.len() implies models_of(post)[q]
                        == models_of(pre).push(model_of(n.children@[i as int]))[q] by {
                        if q < i {
                            assert(models_of(post)[q] == model_of(post[q]));
                            assert(post[q] == pre[q]);
                            assert(models_of(pre)[q] == model_of(pre[q]));
                        } else {
                            assert(models_of(post)[q] == model_of(post[q]));
                            assert(post[q] == n.children@[i as int]);
                        }
                    }
                }
                lemma_children_stream_push(models_of(pre), model_of(n.children@[i as int]));
            }
            i = i + 1;
        }
        proof {
            assert(n.children@.subrange(0, n.children@.len() as int) =~= n.children@);
            lemma_models_of(n.children@);
            assert(models_of(n.children@).len() == n.children@.len());
            assert(out@ =~= old(out)@ + model_stream(model_of(*n)));
        }
    }
}

/// The tree with every comment node removed from every child list.
pub open spec fn strip_comments(m: NodeModel) -> NodeModel
    decreases m,
{
    NodeModel {
        kind: m.kind,
        field: m.field,
        text: m.text,
        row: m.row,
        children: strip_children(m.children),
    }
}

/// Drop comment nodes and strip the rest, keeping order.
pub open spec fn strip_children(cs: Seq<NodeModel>) -> Seq<NodeModel>
    decreases cs,
{
    if cs.len() == 0 {
        Seq::empty()
    } else if is_comment_kind(cs[0].kind) {
        strip_children(cs.drop_first())
    } else {
        seq![strip_comments(cs[0])] + strip_children(cs.drop_first())
    }
}

/// Trees as parsers produce them: a node with children has at least one
/// non-comment child, since structural tokens are themselves children.
pub open spec fn parser_shaped(m: NodeModel) -> bool
    decreases m,
{
    &&& (m.children.len() > 0 ==> exists|i: int|
        0 <= i < m.children.len() && !is_comment_kind(#[trigger] m.children[i].kind))
    &&& forall|i: int| 0 <= i < m.children.len() ==> parser_shaped(#[trigger] m.children[i])
}

/// Comment invariance: removing comment subtrees does not change the bytes a
/// tree feeds into the structural digest, so sources that differ only in
/// comments hash identically. Holds for every tree in which a node with
/// children keeps at least one non-comment child after stripping.
pub proof fn law_comment_invariance(m: NodeModel)
    requires
        parser_shaped(m),
    ensures
        model_stream(strip_comments(m)) == model_stream(m),
    decreases m,
{
    if is_comment_kind(m.kind) {
    } else if m.children.len() == 0 {
        assert(strip_comments(m).children.len() == 0);
    } else {
        let i = choose|i: int|
            0 <= i < m.children.len() && !is_comment_kind(m.children[i].kind);
        lemma_strip_children_keeps(m.children, i);
        lemma_children_stream_strip(m.children);
        assert(strip_comments(m).children.len() > 0);
        assert(model_stream(strip_comments(m)) =~= model_stream(m));
    }
}

/// A non-comment child survives stripping.
proof fn lemma_strip_children_keeps(cs: Seq<NodeModel>, i: int)
    requires
        0 <= i < cs.len(),
        !is_comment_kind(cs[i].kind),
    ensures
        strip_children(cs).len() > 0,
    decreases cs.len(),
{
    if is_comment_kind(cs[0].kind) {
        assert(cs.drop_first()[i - 1] == cs[i]);
        lemma_strip_children_keeps(cs.drop_first(), i - 1);
    }
}

/// Stripping a child list does not change its stream.
proof fn lemma_children_stream_strip(cs: Seq<NodeModel>)
    requires
        forall|i: int| 0 <= i < cs.len() ==> parser_shaped(#[trigger] cs[i]),
    ensures
        children_stream(strip_children(cs)) == children_stream(cs),
    decreases cs,
{
    if cs.len() > 0 {
        lemma_children_stream_strip(cs.drop_first());
        if is_comment_kind(cs[0].kind) {
            assert(model_stream(cs[0]) =~= Seq::<u8>::empty());
            assert(children_stream(cs) =~= children_stream(cs.drop_first()));
        } else {
            law_comment_invariance(cs[0]);
            let s2 = seq![strip_comments(cs[0])] + strip_children(cs.drop_first());
            assert(s2[0] == strip_comments(cs[0]));
            assert(s2.drop_first() =~= strip_children(cs.drop_first()));
            assert(children_stream(strip_children(cs)) =~= children_stream(cs));
        }
    }
}

/// `suf` is the tail of `s`.
pub open spec fn has_suffix(s: Seq<char>, suf: Seq<char>) -> bool {
    s.len() >= suf.len() && s.subrange(s.len() - suf.len(), s.len() as int) == suf
}

/// The path's file name carries the dotted suffix as an extension: the
/// suffix matches and something of the file name stands before the dot, so
/// a bare dot-file is not counted.
pub open spec fn ext_matches(p: Seq<char>, suf: Seq<char>) -> bool {
    has_suffix(p, suf) && p.len() > suf.len() && p[p.len() - suf.len() - 1] != '/'
}

/// Whether the path's file name ends in the given dotted extension.
fn ends_with_ext(s: &String, suf: &str) -> (r: bool)
    ensures
        r == ext_matches(s@, suf@),
{
    let sl = s.as_str().unicode_len();
    let fl = suf.unicode_len();
    if sl <= fl {
        return false;
    }
    if s.as_str().get_char(sl - fl - 1) == '/' {
        return false;
    }
    match_at(s, suf, sl - fl)
}

/// The grammar a file parses with, routed by its extension, or `None` for a
/// file that is not a JavaScript or TypeScript source.
pub open spec fn lang_of(p: Seq<char>) -> Option<Lang> {
    if ext_matches(p, ".ts"@) || ext_matches(p, ".mts"@) || ext_matches(p, ".cts"@) {
        Some(Lang::TypeScript)
    } else if ext_matches(p, ".tsx"@) {
        Some(Lang::Tsx)
    } else if ext_matches(p, ".js"@) || ext_matches(p, ".jsx"@) || ext_matches(p, ".mjs"@)
        || ext_matches(p, ".cjs"@) {
        Some(Lang::JavaScript)
    } else {
        None
    }
}

/// Pick the grammar for a path, or `None` for a file the syntax hasher does
/// not parse.
pub fn lang_of_path(path: &String) -> (r: Option<Lang>)
    ensures
        r == lang_of(path@),
{
    if ends_with_ext(path, ".ts") || ends_with_ext(path, ".mts") || ends_with_ext(path, ".cts") {
        Some(Lang::TypeScript)
    } else if ends_with_ext(path, ".tsx") {
        Some(Lang::Tsx)
    } else if ends_with_ext(path, ".js") || ends_with_ext(path, ".jsx") || ends_with_ext(
        path,
        ".mjs",
    ) || ends_with_ext(path, ".cjs") {
        Some(Lang::JavaScript)
    } else {
        None
    }
}

/// Whether the file is a JavaScript or TypeScript source the syntax hasher
/// parses.
pub fn is_parseable(path: &String) -> (r: bool)
    ensures
        r == (lang_of(path@) is Some),
{
    match lang_of_path(path) {
        Some(_) => true,
        None => false,
    }
}

/// Digest of the raw content bytes: the fallback for sources that do not
/// parse and for files of other kinds.
pub fn hash_raw(content: &String) -> (r: String)
    ensures
        r@ == hex_of(blake3_of(vstd::utf8::encode_utf8(content@))),
        r@.len() == 64,
{
    let bytes = content.as_str().as_bytes_vec();
    blake3_hex(&bytes)
}

/// The syntax-aware content hash: for a JavaScript or TypeScript source, the
/// digest of the parse tree's structural byte stream, in which comments
/// contribute nothing; for anything else, or when parsing fails, the digest
/// of the raw bytes. A pure function of the path's extension and the
/// content.
pub fn hash_ast(path: &String, content: &String) -> (r: String)
    ensures
        r@.len() == 64,
        lang_of(path@) is None ==> r@ == hex_of(
            blake3_of(vstd::utf8::encode_utf8(content@)),
        ),
        lang_of(path@) matches Some(l) ==> r@ == (match parse_of(l, content@) {
            Some(m) => hex_of(blake3_of(model_stream(m))),
            None => hex_of(blake3_of(vstd::utf8::encode_utf8(content@))),
        }),
{
    match lang_of_path(path) {
        None => hash_raw(content),
        Some(lang) => {
            match parse_source(&lang, content.as_str()) {
                None => hash_raw(content),
                Some(root) => {
                    let mut stream: Vec<u8> = Vec::new();
                    push_node_stream(&root, &mut stream);
                    let r = blake3_hex(&stream);
                    proof {
                        assert(stream@ =~= model_stream(model_of(root)));
                        assert(parse_of(lang, content@) == Some(model_of(root)));
                        assert(r@ == hex_of(blake3_of(model_stream(model_of(root)))));
                    }
                    r
                },
            }
        },
    }
}

/// Whether the string equals the literal, character for character.
pub fn str_eq(s: &String, lit: &str) -> (r: bool)
    ensures
        r == (s@ == lit@),
{
    let sl = s.as_str().unicode_len();
    let ll = lit.unicode_len();
    if sl != ll {
        return false;
    }
    let r = match_at(s, lit, 0);
    proof {
        if s@.subrange(0, lit@.len() as int) == lit@ {
            assert(s@.subrange(0, lit@.len() as int) =~= s@);
        }
        if s@ == lit@ {
            assert(s@.subrange(0, lit@.len() as int) =~= lit@);
        }
    }
    r
}

} // verus!

//! Symbol extraction for JavaScript and TypeScript sources: the exported
//! symbols of a file, each with a digest of its declaration subtree, and the
//! import statements with their local names. The walk over the parse tree is
//! verified against a specification of what each statement contributes.

use vstd::prelude::*;
use crate::digest::{blake3_of, hex_of, blake3_hex, lemma_hex_of_ascii};
use crate::syntax::{
    Lang, NodeModel, SyntaxNode, lemma_models_of, model_of, models_of, parse_of, parse_source,
    str_eq,
};

verus! {

/// What kind of entity an exported symbol is.
#[derive(Clone, Copy, Debug, PartialEq, Eq, Structural)]
pub enum SymbolKind {
    Function,
    Class,
    Const,
    Variable,
    Type,
    Interface,
    Enum,
}

/// An exported symbol: its name, kind, declaration digest, and source line.
#[derive(Debug)]
pub struct Symbol {
    pub name: String,
    pub kind: SymbolKind,
    pub hash: String,
    pub line: usize,
}

/// One import statement: the module it names and the local names it binds.
#[derive(Debug)]
pub struct Import {
    pub from: String,
    pub symbols: Vec<String>,
    pub line: usize,
}

/// Everything extracted from one file.
#[derive(Debug)]
pub struct FileSymbols {
    pub exports: Vec<Symbol>,
    pub imports: Vec<Import>,
}

/// Extraction failure.
#[derive(Debug)]
pub enum SymbolError {
    /// The source did not parse.
    ParseFailed,
}

impl SymbolError {
    /// A human-readable rendering of the error.
    pub fn message(&self) -> (r: String)
        ensures
            r@ == "parse failed"@,
    {
        String::from_str("parse failed")
    }
}

/// The mathematical shape of an exported symbol.
#[verifier::ext_equal]
pub struct SymbolModel {
    pub name: Seq<char>,
    pub kind: SymbolKind,
    pub hash: Seq<char>,
    pub line: int,
}

/// The mathematical shape of an import statement.
#[verifier::ext_equal]
pub struct ImportModel {
    pub from: Seq<char>,
    pub symbols: Seq<Seq<char>>,
    pub line: int,
}

/// The model of a symbol.
pub open spec fn sym_view(s: Symbol) -> SymbolModel {
    SymbolModel { name: s.name@, kind: s.kind, hash: s.hash@, line: s.line as int }
}

/// The models of a symbol list.
pub open spec fn syms_view(v: Seq<Symbol>) -> Seq<SymbolModel> {
    Seq::new(v.len(), |i: int| sym_view(v[i]))
}

/// The views of a string list.
pub open spec fn strs_view(v: Seq<String>) -> Seq<Seq<char>> {
    Seq::new(v.len(), |i: int| v[i]@)
}

/// The model of an import.
pub open spec fn import_view(s: Import) -> ImportModel {
    ImportModel { from: s.from@, symbols: strs_view(s.symbols@), line: s.line as int }
}

/// The models of an import list.
pub open spec fn imports_view(v: Seq<Import>) -> Seq<ImportModel> {
    Seq::new(v.len(), |i: int| import_view(v[i]))
}

/// One-based source line of a node, saturating at the machine limit.
pub open spec fn line_of(row: int) -> int {
    if row < usize::MAX {
        row + 1
    } else {
        row
    }
}

/// The first 16 hexadecimal characters of the BLAKE3 digest of the text:
/// the declaration digest compared across runs.
pub open spec fn digest16_of(text: Seq<char>) -> Seq<char> {
    hex_of(blake3_of(vstd::utf8::encode_utf8(text))).subrange(0, 16)
}

/// The first child filling the given field, if any.
pub open spec fn first_field_child(cs: Seq<NodeModel>, f: Seq<char>) -> Option<NodeModel>
    decreases cs,
{
    if cs.len() == 0 {
        None
    } else if cs[0].field == Some(f) {
        Some(cs[0])
    } else {
        first_field_child(cs.drop_first(), f)
    }
}

/// The first child of the given kind, if any.
pub open spec fn first_kind_child(cs: Seq<NodeModel>, k: Seq<char>) -> Option<NodeModel>
    decreases cs,
{
    if cs.len() == 0 {
        None
    } else if cs[0].kind == k {
        Some(cs[0])
    } else {
        first_kind_child(cs.drop_first(), k)
    }
}

/// The symbol a named declaration of the given kind exports: nothing when
/// the declaration has no name.
pub open spec fn named_symbol(d: NodeModel, kind: SymbolKind) -> Seq<SymbolModel> {
    match first_field_child(d.children, "name"@) {
        Some(nm) => seq![
            SymbolModel { name: nm.text, kind, hash: digest16_of(d.text), line: line_of(d.row) },
        ],
        None => Seq::empty(),
    }
}

/// The symbol one declarator of a lexical declaration exports.
pub open spec fn declarator_symbols(c: NodeModel) -> Seq<SymbolModel> {
    if c.kind == "variable_declarator"@ {
        named_symbol(c, SymbolKind::Const)
    } else {
        Seq::empty()
    }
}

/// The symbols of every declarator in a child list.
pub open spec fn declarators_list(cs: Seq<NodeModel>) -> Seq<SymbolModel>
    decreases cs,
{
    if cs.len() == 0 {
        Seq::empty()
    } else {
        declarator_symbols(cs[0]) + declarators_list(cs.drop_first())
    }
}

/// What a declaration wrapped in an `export` statement exports.
pub open spec fn declaration_symbols(d: NodeModel) -> Seq<SymbolModel> {
    if d.kind == "function_declaration"@ {
        named_symbol(d, SymbolKind::Function)
    } else if d.kind == "class_declaration"@ {
        named_symbol(d, SymbolKind::Class)
    } else if d.kind == "lexical_declaration"@ || d.kind == "variable_declaration"@ {
        declarators_list(d.children)
    } else if d.kind == "type_alias_declaration"@ {
        named_symbol(d, SymbolKind::Type)
    } else if d.kind == "interface_declaration"@ {
        named_symbol(d, SymbolKind::Interface)
    } else if d.kind == "enum_declaration"@ {
        named_symbol(d, SymbolKind::Enum)
    } else {
        Seq::empty()
    }
}

/// The symbol one `export { … }` specifier names: no declaration body, so an
/// empty digest.
pub open spec fn specifier_symbols(sp: NodeModel) -> Seq<SymbolModel> {
    if sp.kind == "export_specifier"@ {
        match first_field_child(sp.children, "name"@) {
            Some(nm) => seq![
                SymbolModel {
                    name: nm.text,
                    kind: SymbolKind::Variable,
                    hash: Seq::empty(),
                    line: line_of(sp.row),
                },
            ],
            None => Seq::empty(),
        }
    } else {
        Seq::empty()
    }
}

/// The symbols of every specifier in an export clause.
pub open spec fn specifiers_list(cs: Seq<NodeModel>) -> Seq<SymbolModel>
    decreases cs,
{
    if cs.len() == 0 {
        Seq::empty()
    } else {
        specifier_symbols(cs[0]) + specifiers_list(cs.drop_first())
    }
}

/// The kind inferred for a default export from its declarator kind.
pub open spec fn default_kind(k: Seq<char>) -> SymbolKind {
    if k == "function_declaration"@ || k == "function"@ {
        SymbolKind::Function
    } else if k == "class_declaration"@ || k == "class"@ {
        SymbolKind::Class
    } else {
        SymbolKind::Variable
    }
}

/// The symbol a default-exported value contributes, under the synthetic
/// name.
pub open spec fn default_value_symbols(c: NodeModel) -> Seq<SymbolModel> {
    match first_field_child(c.children, "value"@) {
        Some(v) => seq![
            SymbolModel {
                name: "default"@,
                kind: default_kind(v.kind),
                hash: digest16_of(v.text),
                line: line_of(v.row),
            },
        ],
        None => Seq::empty(),
    }
}

/// What one top-level statement exports.
pub open spec fn export_symbols_of(c: NodeModel) -> Seq<SymbolModel> {
    if c.kind == "export_statement"@ {
        (match first_field_child(c.children, "declaration"@) {
            Some(d) => declaration_symbols(d),
            None => Seq::empty(),
        }) + (match first_kind_child(c.children, "export_clause"@) {
            Some(v) => specifiers_list(v.children),
            None => Seq::empty(),
        }) + default_value_symbols(c)
    } else if c.kind == "export_default_declaration"@ {
        if c.children.len() > 1 {
            seq![
                SymbolModel {
                    name: "default"@,
                    kind: default_kind(c.children[1].kind),
                    hash: digest16_of(c.children[1].text),
                    line: line_of(c.children[1].row),
                },
            ]
        } else {
            Seq::empty()
        }
    } else {
        Seq::empty()
    }
}

/// The exports of every top-level statement.
pub open spec fn exports_list(cs: Seq<NodeModel>) -> Seq<SymbolModel>
    decreases cs,
{
    if cs.len() == 0 {
        Seq::empty()
    } else {
        export_symbols_of(cs[0]) + exports_list(cs.drop_first())
    }
}

/// The exported symbols of a parsed file.
pub open spec fn exports_of(root: NodeModel) -> Seq<SymbolModel> {
    exports_list(root.children)
}

/// A quote character, as used around module specifiers.
pub open spec fn is_quote(c: char) -> bool {
    c == '"' || c == '\''
}

/// The module specifier with its surrounding quotes stripped.
pub open spec fn trim_quotes(t: Seq<char>) -> Seq<char>
    decreases t.len(),
{
    if t.len() > 0 && is_quote(t[0]) {
        trim_quotes(t.drop_first())
    } else if t.len() > 0 && is_quote(t.last()) {
        trim_quotes(t.drop_last())
    } else {
        t
    }
}

/// The local name one `import { … }` specifier binds.
pub open spec fn named_import_symbols(sp: NodeModel) -> Seq<Seq<char>> {
    if sp.kind == "import_specifier"@ {
        match first_field_child(sp.children, "name"@) {
            Some(nm) => seq![nm.text],
            None => Seq::empty(),
        }
    } else {
        Seq::empty()
    }
}

/// The local names of every specifier in a named-import list.
pub open spec fn named_imports_list(cs: Seq<NodeModel>) -> Seq<Seq<char>>
    decreases cs,
{
    if cs.len() == 0 {
        Seq::empty()
    } else {
        named_import_symbols(cs[0]) + named_imports_list(cs.drop_first())
    }
}

/// The local names one child of an import clause binds: a default binding,
/// the named imports, or a namespace alias recorded verbatim.
pub open spec fn clause_child_symbols(c: NodeModel) -> Seq<Seq<char>> {
    if c.kind == "identifier"@ {
        seq![c.text]
    } else if c.kind == "named_imports"@ {
        named_imports_list(c.children)
    } else if c.kind == "namespace_import"@ {
        if c.children.len() > 2 {
            seq!["* as "@ + c.children[2].text]
        } else {
            Seq::empty()
        }
    } else {
        Seq::empty()
    }
}

/// The local names of every child of an import clause.
pub open spec fn clause_children_list(cs: Seq<NodeModel>) -> Seq<Seq<char>>
    decreases cs,
{
    if cs.len() == 0 {
        Seq::empty()
    } else {
        clause_child_symbols(cs[0]) + clause_children_list(cs.drop_first())
    }
}

/// The local names an import statement binds, across its clauses.
pub open spec fn import_clauses_list(cs: Seq<NodeModel>) -> Seq<Seq<char>>
    decreases cs,
{
    if cs.len() == 0 {
        Seq::empty()
    } else {
        (if cs[0].kind == "import_clause"@ {
            clause_children_list(cs[0].children)
        } else {
            Seq::empty()
        }) + import_clauses_list(cs.drop_first())
    }
}

/// What one top-level statement imports: an import statement with a
/// non-empty module specifier contributes one record.
pub open spec fn import_of(c: NodeModel) -> Seq<ImportModel> {
    if c.kind == "import_statement"@ {
        let from = match first_field_child(c.children, "source"@) {
            Some(s) => trim_quotes(s.text),
            None => Seq::empty(),
        };
        if from.len() > 0 {
            seq![
                ImportModel { from, symbols: import_clauses_list(c.children), line: line_of(c.row) },
            ]
        } else {
            Seq::empty()
        }
    } else {
        Seq::empty()
    }
}

/// The imports of every top-level statement.
pub open spec fn imports_list(cs: Seq<NodeModel>) -> Seq<ImportModel>
    decreases cs,
{
    if cs.len() == 0 {
        Seq::empty()
    } else {
        import_of(cs[0]) + imports_list(cs.drop_first())
    }
}

/// The import records of a parsed file.
pub open spec fn imports_of(root: NodeModel) -> Seq<ImportModel> {
    imports_list(root.children)
}

/// Appending a statement extends the export list at the end.
proof fn lemma_exports_list_push(cs: Seq<NodeModel>, x: NodeModel)
    ensures
        exports_list(cs.push(x)) == exports_list(cs) + export_symbols_of(x),
    decreases cs.len(),
{
    if cs.len() == 0 {
        assert(cs.push(x)[0] == x);
        assert(cs.push(x).drop_first() =~= Seq::<NodeModel>::empty());
        assert(cs.push(x).len() == 1);
        assert(exports_list(cs.push(x)) == export_symbols_of(cs.push(x)[0]) + exports_list(cs.push(x).drop_first()));
        assert(exports_list(Seq::<NodeModel>::empty()) == Seq::<SymbolModel>::empty());
        assert(exports_list(cs.push(x)) =~= exports_list(cs) + export_symbols_of(x));
    } else {
        assert(cs.push(x)[0] == cs[0]);
        assert(cs.push(x).drop_first() =~= cs.drop_first().push(x));
        lemma_exports_list_push(cs.drop_first(), x);
        assert(exports_list(cs.push(x)) =~= exports_list(cs) + export_symbols_of(x));
    }
}

/// Appending a statement extends the import list at the end.
proof fn lemma_imports_list_push(cs: Seq<NodeModel>, x: NodeModel)
    ensures
        imports_list(cs.push(x)) == imports_list(cs) + import_of(x),
    decreases cs.len(),
{
    if cs.len() == 0 {
        assert(cs.push(x)[0] == x);
        assert(cs.push(x).drop_first() =~= Seq::<NodeModel>::empty());
        assert(cs.push(x).len() == 1);
        assert(imports_list(cs.push(x)) == import_of(cs.push(x)[0]) + imports_list(cs.push(x).drop_first()));
        assert(imports_list(Seq::<NodeModel>::empty()) == Seq::<ImportModel>::empty());
        assert(imports_list(cs.push(x)) =~= imports_list(cs) + import_of(x));
    } else {
        assert(cs.push(x)[0] == cs[0]);
        assert(cs.push(x).drop_first() =~= cs.drop_first().push(x));
        lemma_imports_list_push(cs.drop_first(), x);
        assert(imports_list(cs.push(x)) =~= imports_list(cs) + import_of(x));
    }
}

/// Appending a declarator extends the symbol list at the end.
proof fn lemma_declarators_list_push(cs: Seq<NodeModel>, x: NodeModel)
    ensures
        declarators_list(cs.push(x)) == declarators_list(cs) + declarator_symbols(x),
    decreases cs.len(),
{
    if cs.len() == 0 {
        assert(cs.push(x)[0] == x);
        assert(cs.push(x).drop_first() =~= Seq::<NodeModel>::empty());
        assert(cs.push(x).len() == 1);
        assert(declarators_list(cs.push(x)) == declarator_symbols(cs.push(x)[0]) + declarators_list(cs.push(x).drop_first()));
        assert(declarators_list(Seq::<NodeModel>::empty()) == Seq::<SymbolModel>::empty());
        assert(declarators_list(cs.push(x)) =~= declarators_list(cs) + declarator_symbols(x));
    } else {
        assert(cs.push(x)[0] == cs[0]);
        assert(cs.push(x).drop_first() =~= cs.drop_first().push(x));
        lemma_declarators_list_push(cs.drop_first(), x);
        assert(declarators_list(cs.push(x)) =~= declarators_list(cs) + declarator_symbols(x));
    }
}

/// Appending a specifier extends the symbol list at the end.
proof fn lemma_specifiers_list_push(cs: Seq<NodeModel>, x: NodeModel)
    ensures
        specifiers_list(cs.push(x)) == specifiers_list(cs) + specifier_symbols(x),
    decreases cs.len(),
{
    if cs.len() == 0 {
        assert(cs.push(x)[0] == x);
        assert(cs.push(x).drop_first() =~= Seq::<NodeModel>::empty());
        assert(cs.push(x).len() == 1);
        assert(specifiers_list(cs.push(x)) == specifier_symbols(cs.push(x)[0]) + specifiers_list(cs.push(x).drop_first()));
        assert(specifiers_list(Seq::<NodeModel>::empty()) == Seq::<SymbolModel>::empty());
        assert(specifiers_list(cs.push(x)) =~= specifiers_list(cs) + specifier_symbols(x));
    } else {
        assert(cs.push(x)[0] == cs[0]);
        assert(cs.push(x).drop_first() =~= cs.drop_first().push(x));
        lemma_specifiers_list_push(cs.drop_first(), x);
        assert(specifiers_list(cs.push(x)) =~= specifiers_list(cs) + specifier_symbols(x));
    }
}

/// Appending a specifier extends the name list at the end.
proof fn lemma_named_imports_list_push(cs: Seq<NodeModel>, x: NodeModel)
    ensures
        named_imports_list(cs.push(x)) == named_imports_list(cs) + named_import_symbols(x),
    decreases cs.len(),
{
    if cs.len() == 0 {
        assert(cs.push(x)[0] == x);
        assert(cs.push(x).drop_first() =~= Seq::<NodeModel>::empty());
        assert(cs.push(x).len() == 1);
        assert(named_imports_list(cs.push(x)) == named_import_symbols(cs.push(x)[0]) + named_imports_list(cs.push(x).drop_first()));
        assert(named_imports_list(Seq::<NodeModel>::empty()) == Seq::<Seq<char>>::empty());
        assert(named_imports_list(cs.push(x)) =~= named_imports_list(cs)
            + named_import_symbols(x));
    } else {
        assert(cs.push(x)[0] == cs[0]);
        assert(cs.push(x).drop_first() =~= cs.drop_first().push(x));
        lemma_named_imports_list_push(cs.drop_first(), x);
        assert(named_imports_list(cs.push(x)) =~= named_imports_list(cs)
            + named_import_symbols(x));
    }
}

/// Appending a clause child extends the name list at the end.
proof fn lemma_clause_children_list_push(cs: Seq<NodeModel>, x: NodeModel)
    ensures
        clause_children_list(cs.push(x)) == clause_children_list(cs) + clause_child_symbols(x),
    decreases cs.len(),
{
    if cs.len() == 0 {
        assert(cs.push(x)[0] == x);
        assert(cs.push(x).drop_first() =~= Seq::<NodeModel>::empty());
        assert(cs.push(x).len() == 1);
        assert(clause_children_list(cs.push(x)) == clause_child_symbols(cs.push(x)[0]) + clause_children_list(cs.push(x).drop_first()));
        assert(clause_children_list(Seq::<NodeModel>::empty()) == Seq::<Seq<char>>::empty());
        assert(clause_children_list(cs.push(x)) =~= clause_children_list(cs)
            + clause_child_symbols(x));
    } else {
        assert(cs.push(x)[0] == cs[0]);
        assert(cs.push(x).drop_first() =~= cs.drop_first().push(x));
        lemma_clause_children_list_push(cs.drop_first(), x);
        assert(clause_children_list(cs.push(x)) =~= clause_children_list(cs)
            + clause_child_symbols(x));
    }
}

/// Appending a statement child extends the clause name list at the end.
proof fn lemma_import_clauses_list_push(cs: Seq<NodeModel>, x: NodeModel)
    ensures
        import_clauses_list(cs.push(x)) == import_clauses_list(cs) + (if x.kind
            == "import_clause"@ {
            clause_children_list(x.children)
        } else {
            Seq::empty()
        }),
    decreases cs.len(),
{
    if cs.len() == 0 {
        assert(cs.push(x)[0] == x);
        assert(cs.push(x).drop_first() =~= Seq::<NodeModel>::empty());
        assert(cs.push(x).len() == 1);
        assert(import_clauses_list(cs.push(x)) == (if cs.push(x)[0].kind == "import_clause"@ {
            clause_children_list(cs.push(x)[0].children)
        } else {
            Seq::empty()
        }) + import_clauses_list(cs.push(x).drop_first()));
        assert(import_clauses_list(Seq::<NodeModel>::empty()) == Seq::<Seq<char>>::empty());
        assert(import_clauses_list(cs.push(x)) =~= import_clauses_list(cs) + (if x.kind
            == "import_clause"@ {
            clause_children_list(x.children)
        } else {
            Seq::empty()
        }));
    } else {
        assert(cs.push(x)[0] == cs[0]);
        assert(cs.push(x).drop_first() =~= cs.drop_first().push(x));
        lemma_import_clauses_list_push(cs.drop_first(), x);
        assert(import_clauses_list(cs.push(x)) =~= import_clauses_list(cs) + (if x.kind
            == "import_clause"@ {
            clause_children_list(x.children)
        } else {
            Seq::empty()
        }));
    }
}

/// Pushing a symbol pushes its model.
proof fn lemma_syms_view_push(v: Seq<Symbol>, s: Symbol)
    ensures
        syms_view(v.push(s)) == syms_view(v).push(sym_view(s)),
{
    assert(syms_view(v.push(s)) =~= syms_view(v).push(sym_view(s)));
}

/// Pushing a string pushes its view.
proof fn lemma_strs_view_push(v: Seq<String>, s: String)
    ensures
        strs_view(v.push(s)) == strs_view(v).push(s@),
{
    assert(strs_view(v.push(s)) =~= strs_view(v).push(s@));
}

/// Pushing an import pushes its model.
proof fn lemma_imports_view_push(v: Seq<Import>, s: Import)
    ensures
        imports_view(v.push(s)) == imports_view(v).push(import_view(s)),
{
    assert(imports_view(v.push(s)) =~= imports_view(v).push(import_view(s)));
}

/// A first match at `i` determines the field lookup.
proof fn lemma_first_field_at(cs: Seq<NodeModel>, f: Seq<char>, i: int)
    requires
        0 <= i < cs.len(),
        cs[i].field == Some(f),
        forall|j: int| 0 <= j < i ==> (#[trigger] cs[j]).field != Some(f),
    ensures
        first_field_child(cs, f) == Some(cs[i]),
    decreases i,
{
    if i > 0 {
        assert(cs[0].field != Some(f));
        assert forall|j: int| 0 <= j < i - 1 implies (#[trigger] cs.drop_first()[j]).field
            != Some(f) by {
            assert(cs.drop_first()[j] == cs[j + 1]);
        }
        assert(cs.drop_first()[i - 1] == cs[i]);
        lemma_first_field_at(cs.drop_first(), f, i - 1);
    }
}

/// A first kind match at `i` determines the kind lookup.
proof fn lemma_first_kind_at(cs: Seq<NodeModel>, k: Seq<char>, i: int)
    requires
        0 <= i < cs.len(),
        cs[i].kind == k,
        forall|j: int| 0 <= j < i ==> (#[trigger] cs[j]).kind != k,
    ensures
        first_kind_child(cs, k) == Some(cs[i]),
    decreases i,
{
    if i > 0 {
        assert(cs[0].kind != k);
        assert forall|j: int| 0 <= j < i - 1 implies (#[trigger] cs.drop_first()[j]).kind
            != k by {
            assert(cs.drop_first()[j] == cs[j + 1]);
        }
        assert(cs.drop_first()[i - 1] == cs[i]);
        lemma_first_kind_at(cs.drop_first(), k, i - 1);
    }
}

/// No kind match anywhere means the kind lookup is empty.
proof fn lemma_first_kind_none(cs: Seq<NodeModel>, k: Seq<char>)
    requires
        forall|j: int| 0 <= j < cs.len() ==> (#[trigger] cs[j]).kind != k,
    ensures
        first_kind_child(cs, k) is None,
    decreases cs,
{
    if cs.len() > 0 {
        assert forall|j: int|
            0 <= j < cs.drop_first().len() implies (#[trigger] cs.drop_first()[j]).kind != k by {
            assert(cs.drop_first()[j] == cs[j + 1]);
        }
        lemma_first_kind_none(cs.drop_first(), k);
    }
}

/// No match anywhere means the field lookup is empty.
proof fn lemma_first_field_none(cs: Seq<NodeModel>, f: Seq<char>)
    requires
        forall|j: int| 0 <= j < cs.len() ==> (#[trigger] cs[j]).field != Some(f),
    ensures
        first_field_child(cs, f) is None,
    decreases cs,
{
    if cs.len() > 0 {
        assert forall|j: int|
            0 <= j < cs.drop_first().len() implies (#[trigger] cs.drop_first()[j]).field != Some(
            f,
        ) by {
            assert(cs.drop_first()[j] == cs[j + 1]);
        }
        lemma_first_field_none(cs.drop_first(), f);
    }
}

/// The first child of `n` filling the given field, if any.
#[verifier::loop_isolation(false)]
fn find_field_child<'a>(n: &'a SyntaxNode, f: &str) -> (r: Option<&'a SyntaxNode>)
    ensures
        match r {
            Some(c) => first_field_child(model_of(*n).children, f@) == Some(model_of(*c)),
            None => first_field_child(model_of(*n).children, f@) is None,
        },
{
    proof {
        lemma_models_of(n.children@);
    }
    let mut i: usize = 0;
    while i < n.children.len()
        invariant
            i <= n.children@.len(),
            forall|j: int|
                0 <= j < i ==> (#[trigger] models_of(n.children@)[j]).field != Some(f@),
        decreases n.children@.len() - i,
    {
        let matched = match &n.children[i].field {
            Some(ff) => str_eq(ff, f),
            None => false,
        };
        if matched {
            proof {
                assert(models_of(n.children@)[i as int] == model_of(n.children@[i as int]));
                lemma_first_field_at(model_of(*n).children, f@, i as int);
            }
            return Some(&n.children[i]);
        }
        proof {
            assert(models_of(n.children@)[i as int] == model_of(n.children@[i as int]));
        }
        i = i + 1;
    }
    proof {
        lemma_first_field_none(model_of(*n).children, f@);
    }
    None
}

/// The first child of `n` of the given kind, if any.
#[verifier::loop_isolation(false)]
fn find_kind_child<'a>(n: &'a SyntaxNode, k: &str) -> (r: Option<&'a SyntaxNode>)
    ensures
        match r {
            Some(c) => first_kind_child(model_of(*n).children, k@) == Some(model_of(*c)),
            None => first_kind_child(model_of(*n).children, k@) is None,
        },
{
    proof {
        lemma_models_of(n.children@);
    }
    let mut i: usize = 0;
    while i < n.children.len()
        invariant
            i <= n.children@.len(),
            forall|j: int| 0 <= j < i ==> (#[trigger] models_of(n.children@)[j]).kind != k@,
        decreases n.children@.len() - i,
    {
        if str_eq(&n.children[i].kind, k) {
            proof {
                assert(models_of(n.children@)[i as int] == model_of(n.children@[i as int]));
                lemma_first_kind_at(model_of(*n).children, k@, i as int);
            }
            return Some(&n.children[i]);
        }
        proof {
            assert(models_of(n.children@)[i as int] == model_of(n.children@[i as int]));
        }
        i = i + 1;
    }
    proof {
        lemma_first_kind_none(model_of(*n).children, k@);
    }
    None
}

/// The truncated declaration digest of a piece of source text.
fn make_digest16(text: &String) -> (r: String)
    ensures
        r@ == digest16_of(text@),
{
    let bytes = text.as_str().as_bytes_vec();
    let h = blake3_hex(&bytes);
    proof {
        lemma_hex_of_ascii(blake3_of(vstd::utf8::encode_utf8(text@)));
    }
    let sub = h.as_str().substring_ascii(0, 16);
    sub.to_owned()
}

/// One-based source line of a node, saturating at the machine limit.
fn line_number(row: usize) -> (r: usize)
    ensures
        r as int == line_of(row as int),
{
    if row < usize::MAX {
        row + 1
    } else {
        row
    }
}

/// A quote character, as used around module specifiers.
fn is_quote_char(c: char) -> (r: bool)
    ensures
        r == is_quote(c),
{
    c == '"' || c == '\''
}

/// Trimming equals taking the unquoted middle.
proof fn lemma_trim_subrange(t: Seq<char>, lo: int, hi: int)
    requires
        0 <= lo <= hi <= t.len(),
        forall|j: int| 0 <= j < lo ==> is_quote(#[trigger] t[j]),
        forall|j: int| hi <= j < t.len() ==> is_quote(#[trigger] t[j]),
        lo < hi ==> (!is_quote(t[lo]) && !is_quote(t[hi - 1])),
    ensures
        trim_quotes(t) == t.subrange(lo, hi),
    decreases t.len(),
{
    if t.len() == 0 {
        assert(t.subrange(0, 0) =~= t);
    } else if is_quote(t[0]) {
        if lo > 0 {
            assert forall|j: int| 0 <= j < lo - 1 implies is_quote(
                #[trigger] t.drop_first()[j],
            ) by {
                assert(t.drop_first()[j] == t[j + 1]);
            }
            assert forall|j: int|
                hi - 1 <= j < t.drop_first().len() implies is_quote(
                #[trigger] t.drop_first()[j],
            ) by {
                assert(t.drop_first()[j] == t[j + 1]);
            }
            if lo < hi {
                assert(t.drop_first()[lo - 1] == t[lo]);
                assert(t.drop_first()[hi - 2] == t[hi - 1]);
            }
            lemma_trim_subrange(t.drop_first(), lo - 1, hi - 1);
            assert(t.drop_first().subrange(lo - 1, hi - 1) =~= t.subrange(lo, hi));
        } else {
            assert(lo == hi);
            assert forall|j: int|
                0 <= j < t.drop_first().len() implies is_quote(#[trigger] t.drop_first()[j]) by {
                assert(t.drop_first()[j] == t[j + 1]);
            }
            lemma_trim_subrange(t.drop_first(), 0, 0);
            assert(t.drop_first().subrange(0, 0) =~= t.subrange(lo, hi));
        }
    } else {
        assert(lo == 0);
        if is_quote(t.last()) {
            assert(hi < t.len());
            assert(hi >= 1);
            assert forall|j: int|
                hi <= j < t.drop_last().len() implies is_quote(#[trigger] t.drop_last()[j]) by {
                assert(t.drop_last()[j] == t[j]);
            }
            assert(t.drop_last()[0] == t[0]);
            if 0 < hi {
                assert(t.drop_last()[hi - 1] == t[hi - 1]);
            }
            lemma_trim_subrange(t.drop_last(), 0, hi);
            assert(t.drop_last().subrange(0, hi) =~= t.subrange(0, hi));
        } else {
            assert(hi == t.len());
            assert(t.subrange(0, t.len() as int) =~= t);
        }
    }
}

/// The module specifier with its surrounding quote characters removed.
#[verifier::loop_isolation(false)]
fn trim_quotes_exec(t: &String) -> (r: String)
    ensures
        r@ == trim_quotes(t@),
{
    let n = t.as_str().unicode_len();
    let mut lo: usize = 0;
    while lo < n && is_quote_char(t.as_str().get_char(lo))
        invariant
            lo <= n,
            forall|j: int| 0 <= j < lo ==> is_quote(#[trigger] t@[j]),
        decreases n - lo,
    {
        lo = lo + 1;
    }
    let mut hi: usize = n;
    while hi > lo && is_quote_char(t.as_str().get_char(hi - 1))
        invariant
            lo <= hi <= n,
            forall|j: int| hi <= j < n ==> is_quote(#[trigger] t@[j]),
        decreases hi,
    {
        hi = hi - 1;
    }
    proof {
        lemma_trim_subrange(t@, lo as int, hi as int);
    }
    t.as_str().substring_char(lo, hi).to_owned()
}

/// The symbol kind inferred for a default export.
fn kind_for_default(k: &String) -> (r: SymbolKind)
    ensures
        r == default_kind(k@),
{
    if str_eq(k, "function_declaration") || str_eq(k, "function") {
        SymbolKind::Function
    } else if str_eq(k, "class_declaration") || str_eq(k, "class") {
        SymbolKind::Class
    } else {
        SymbolKind::Variable
    }
}

/// Append the symbol a named declaration exports, if it has a name.
fn extract_named(d: &SyntaxNode, kind: SymbolKind, out: &mut Vec<Symbol>)
    ensures
        syms_view(final(out)@) == syms_view(old(out)@) + named_symbol(model_of(*d), kind),
{
    match find_field_child(d, "name") {
        Some(nm) => {
            let sym = Symbol {
                name: nm.text.clone(),
                kind,
                hash: make_digest16(&d.text),
                line: line_number(d.row),
            };
            let ghost symg = sym;
            let ghost pre = out@;
            out.push(sym);
            proof {
                lemma_syms_view_push(pre, symg);
                assert(sym_view(symg) == SymbolModel {
                    name: model_of(*nm).text,
                    kind,
                    hash: digest16_of(model_of(*d).text),
                    line: line_of(model_of(*d).row),
                });
                assert(syms_view(out@) =~= syms_view(pre) + named_symbol(model_of(*d), kind));
            }
        },
        None => {
            proof {
                assert(syms_view(out@) =~= syms_view(out@) + named_symbol(model_of(*d), kind));
            }
        },
    }
}

/// Append the symbol one `export { … }` specifier names.
fn extract_specifier(sp: &SyntaxNode, out: &mut Vec<Symbol>)
    ensures
        syms_view(final(out)@) == syms_view(old(out)@) + specifier_symbols(model_of(*sp)),
{
    if str_eq(&sp.kind, "export_specifier") {
        match find_field_child(sp, "name") {
            Some(nm) => {
                let sym = Symbol {
                    name: nm.text.clone(),
                    kind: SymbolKind::Variable,
                    hash: String::new(),
                    line: line_number(sp.row),
                };
                let ghost symg = sym;
                let ghost pre = out@;
                out.push(sym);
                proof {
                    lemma_syms_view_push(pre, symg);
                    assert(sym_view(symg) == SymbolModel {
                        name: model_of(*nm).text,
                        kind: SymbolKind::Variable,
                        hash: Seq::empty(),
                        line: line_of(model_of(*sp).row),
                    });
                    assert(syms_view(out@) =~= syms_view(pre) + specifier_symbols(model_of(*sp)));
                }
            },
            None => {
                proof {
                    assert(syms_view(out@) =~= syms_view(out@) + specifier_symbols(
                        model_of(*sp),
                    ));
                }
            },
        }
    } else {
        proof {
            assert(syms_view(out@) =~= syms_view(out@) + specifier_symbols(model_of(*sp)));
        }
    }
}

/// Append what a declaration wrapped in an `export` statement exports.
#[verifier::loop_isolation(false)]
fn extract_declaration(d: &SyntaxNode, out: &mut Vec<Symbol>)
    ensures
        syms_view(final(out)@) == syms_view(old(out)@) + declaration_symbols(model_of(*d)),
{
    if str_eq(&d.kind, "function_declaration") {
        extract_named(d, SymbolKind::Function, out);
    } else if str_eq(&d.kind, "class_declaration") {
        extract_named(d, SymbolKind::Class, out);
    } else if str_eq(&d.kind, "lexical_declaration") || str_eq(&d.kind, "variable_declaration") {
        proof {
            lemma_models_of(d.children@);
            assert(model_of(*d).children.subrange(0, 0) =~= Seq::<NodeModel>::empty());
        }
        let ghost base = out@;
        let mut i: usize = 0;
        while i < d.children.len()
            invariant
                i <= d.children@.len(),
                syms_view(out@) == syms_view(base) + declarators_list(
                    model_of(*d).children.subrange(0, i as int),
                ),
            decreases d.children@.len() - i,
        {
            let c = &d.children[i];
            let ghost pre = out@;
            if str_eq(&c.kind, "variable_declarator") {
                extract_named(c, SymbolKind::Const, out);
            }
            proof {
                let mcs = model_of(*d).children;
                assert(mcs[i as int] == model_of(d.children@[i as int]));
                assert(mcs.subrange(0, i + 1) =~= mcs.subrange(0, i as int).push(mcs[i as int]));
                lemma_declarators_list_push(mcs.subrange(0, i as int), mcs[i as int]);
                assert(syms_view(out@) =~= syms_view(base) + declarators_list(
                    mcs.subrange(0, i + 1),
                ));
            }
            i = i + 1;
        }
        proof {
            let mcs = model_of(*d).children;
            assert(mcs.subrange(0, mcs.len() as int) =~= mcs);
        }
    } else if str_eq(&d.kind, "type_alias_declaration") {
        extract_named(d, SymbolKind::Type, out);
    } else if str_eq(&d.kind, "interface_declaration") {
        extract_named(d, SymbolKind::Interface, out);
    } else if str_eq(&d.kind, "enum_declaration") {
        extract_named(d, SymbolKind::Enum, out);
    } else {
        proof {
            assert(syms_view(out@) =~= syms_view(out@) + declaration_symbols(model_of(*d)));
        }
    }
}

/// Append the symbols an `export { … }` clause names.
#[verifier::loop_isolation(false)]
fn extract_export_clause(v: &SyntaxNode, out: &mut Vec<Symbol>)
    ensures
        syms_view(final(out)@) == syms_view(old(out)@) + specifiers_list(model_of(*v).children),
{
    proof {
        lemma_models_of(v.children@);
        assert(model_of(*v).children.subrange(0, 0) =~= Seq::<NodeModel>::empty());
    }
    let ghost base = out@;
    let mut i: usize = 0;
    while i < v.children.len()
        invariant
            i <= v.children@.len(),
            syms_view(out@) == syms_view(base) + specifiers_list(
                model_of(*v).children.subrange(0, i as int),
            ),
        decreases v.children@.len() - i,
    {
        extract_specifier(&v.children[i], out);
        proof {
            let mcs = model_of(*v).children;
            assert(mcs[i as int] == model_of(v.children@[i as int]));
            assert(mcs.subrange(0, i + 1) =~= mcs.subrange(0, i as int).push(mcs[i as int]));
            lemma_specifiers_list_push(mcs.subrange(0, i as int), mcs[i as int]);
            assert(syms_view(out@) =~= syms_view(base) + specifiers_list(
                mcs.subrange(0, i + 1),
            ));
        }
        i = i + 1;
    }
    proof {
        let mcs = model_of(*v).children;
        assert(mcs.subrange(0, mcs.len() as int) =~= mcs);
    }
}

/// Collect every exported symbol of the file.
#[verifier::loop_isolation(false)]
fn extract_exports(root: &SyntaxNode, out: &mut Vec<Symbol>)
    ensures
        syms_view(final(out)@) == syms_view(old(out)@) + exports_of(model_of(*root)),
{
    proof {
        lemma_models_of(root.children@);
        assert(model_of(*root).children.subrange(0, 0) =~= Seq::<NodeModel>::empty());
    }
    let ghost base = out@;
    let mut i: usize = 0;
    while i < root.children.len()
        invariant
            i <= root.children@.len(),
            syms_view(out@) == syms_view(base) + exports_list(
                model_of(*root).children.subrange(0, i as int),
            ),
        decreases root.children@.len() - i,
    {
        let c = &root.children[i];
        let ghost pre = out@;
        if str_eq(&c.kind, "export_statement") {
            match find_field_child(c, "declaration") {
                Some(d) => extract_declaration(d, out),
                None => (),
            }
            match find_kind_child(c, "export_clause") {
                Some(v) => extract_export_clause(v, out),
                None => (),
            }
            let ghost mid = out@;
            match find_field_child(c, "value") {
                Some(v) => {
                    let sym = Symbol {
                        name: String::from_str("default"),
                        kind: kind_for_default(&v.kind),
                        hash: make_digest16(&v.text),
                        line: line_number(v.row),
                    };
                    let ghost symg = sym;
                    out.push(sym);
                    proof {
                        lemma_syms_view_push(mid, symg);
                        assert(sym_view(symg) == SymbolModel {
                            name: "default"@,
                            kind: default_kind(model_of(*v).kind),
                            hash: digest16_of(model_of(*v).text),
                            line: line_of(model_of(*v).row),
                        });
                        assert(syms_view(out@) =~~= syms_view(mid) + default_value_symbols(
                            model_of(*c),
                        ));
                    }
                },
                None => {
                    proof {
                        assert(syms_view(out@) =~= syms_view(mid) + default_value_symbols(
                            model_of(*c),
                        ));
                    }
                },
            }
            proof {
                assert(syms_view(out@) =~= syms_view(pre) + export_symbols_of(
                    model_of(*c),
                ));
            }
        } else if str_eq(&c.kind, "export_default_declaration") {
            if c.children.len() > 1 {
                proof {
                    lemma_models_of(c.children@);
                }
                let ch = &c.children[1];
                let sym = Symbol {
                    name: String::from_str("default"),
                    kind: kind_for_default(&ch.kind),
                    hash: make_digest16(&ch.text),
                    line: line_number(ch.row),
                };
                let ghost symg = sym;
                out.push(sym);
                proof {
                    lemma_syms_view_push(pre, symg);
                    assert(model_of(*c).children[1] == model_of(c.children@[1]));
                    assert(sym_view(symg) == SymbolModel {
                        name: "default"@,
                        kind: default_kind(model_of(*c).children[1].kind),
                        hash: digest16_of(model_of(*c).children[1].text),
                        line: line_of(model_of(*c).children[1].row),
                    });
                    assert(export_symbols_of(model_of(*c)) =~~= seq![sym_view(symg)]);
                    assert(syms_view(out@) =~~= syms_view(pre).push(sym_view(symg)));
                    assert(syms_view(pre).push(sym_view(symg)) =~~= syms_view(pre) + seq![
                        sym_view(symg),
                    ]);
                    assert(syms_view(out@) =~~= syms_view(pre) + export_symbols_of(
                        model_of(*c),
                    ));
                }
            } else {
                proof {
                    lemma_models_of(c.children@);
                    assert(syms_view(out@) =~= syms_view(pre) + export_symbols_of(
                        model_of(*c),
                    ));
                }
            }
        } else {
            proof {
                assert(syms_view(out@) =~= syms_view(pre) + export_symbols_of(model_of(*c)));
            }
        }
        proof {
            let mcs = model_of(*root).children;
            assert(mcs[i as int] == model_of(root.children@[i as int]));
            assert(mcs.subrange(0, i + 1) =~= mcs.subrange(0, i as int).push(mcs[i as int]));
            lemma_exports_list_push(mcs.subrange(0, i as int), mcs[i as int]);
            assert(syms_view(out@) =~= syms_view(base) + exports_list(mcs.subrange(0, i + 1)));
        }
        i = i + 1;
    }
    proof {
        let mcs = model_of(*root).children;
        assert(mcs.subrange(0, mcs.len() as int) =~= mcs);
    }
}

/// Append the local names one import clause binds.
#[verifier::loop_isolation(false)]
fn extract_import_clause(cl: &SyntaxNode, out: &mut Vec<String>)
    ensures
        strs_view(final(out)@) == strs_view(old(out)@) + clause_children_list(
            model_of(*cl).children,
        ),
{
    proof {
        lemma_models_of(cl.children@);
        assert(model_of(*cl).children.subrange(0, 0) =~= Seq::<NodeModel>::empty());
    }
    let ghost base = out@;
    let mut i: usize = 0;
    while i < cl.children.len()
        invariant
            i <= cl.children@.len(),
            strs_view(out@) == strs_view(base) + clause_children_list(
                model_of(*cl).children.subrange(0, i as int),
            ),
        decreases cl.children@.len() - i,
    {
        let c = &cl.children[i];
        let ghost pre = out@;
        if str_eq(&c.kind, "identifier") {
            let nm = c.text.clone();
            let ghost nmg = nm;
            out.push(nm);
            proof {
                lemma_strs_view_push(pre, nmg);
                assert(strs_view(out@) =~= strs_view(pre) + clause_child_symbols(model_of(*c)));
            }
        } else if str_eq(&c.kind, "named_imports") {
            proof {
                lemma_models_of(c.children@);
                assert(model_of(*c).children.subrange(0, 0) =~= Seq::<NodeModel>::empty());
            }
            let mut j: usize = 0;
            while j < c.children.len()
                invariant
                    j <= c.children@.len(),
                    strs_view(out@) == strs_view(pre) + named_imports_list(
                        model_of(*c).children.subrange(0, j as int),
                    ),
                decreases c.children@.len() - j,
            {
                let sp = &c.children[j];
                let ghost pre2 = out@;
                if str_eq(&sp.kind, "import_specifier") {
                    match find_field_child(sp, "name") {
                        Some(nm) => {
                            let nms = nm.text.clone();
                            let ghost nmg = nms;
                            out.push(nms);
                            proof {
                                lemma_strs_view_push(pre2, nmg);
                                assert(strs_view(out@) =~= strs_view(pre2)
                                    + named_import_symbols(model_of(*sp)));
                            }
                        },
                        None => {
                            proof {
                                assert(strs_view(out@) =~= strs_view(pre2)
                                    + named_import_symbols(model_of(*sp)));
                            }
                        },
                    }
                } else {
                    proof {
                        assert(strs_view(out@) =~= strs_view(pre2) + named_import_symbols(
                            model_of(*sp),
                        ));
                    }
                }
                proof {
                    let mcs = model_of(*c).children;
                    assert(mcs[j as int] == model_of(c.children@[j as int]));
                    assert(mcs.subrange(0, j + 1) =~= mcs.subrange(0, j as int).push(
                        mcs[j as int],
                    ));
                    lemma_named_imports_list_push(mcs.subrange(0, j as int), mcs[j as int]);
                    assert(strs_view(out@) =~= strs_view(pre) + named_imports_list(
                        mcs.subrange(0, j + 1),
                    ));
                }
                j = j + 1;
            }
            proof {
                let mcs = model_of(*c).children;
                assert(mcs.subrange(0, mcs.len() as int) =~= mcs);
                assert(strs_view(out@) =~= strs_view(pre) + clause_child_symbols(model_of(*c)));
            }
        } else if str_eq(&c.kind, "namespace_import") {
            if c.children.len() > 2 {
                proof {
                    lemma_models_of(c.children@);
                }
                let mut alias = String::from_str("* as ");
                alias.append(c.children[2].text.as_str());
                let ghost ag = alias;
                out.push(alias);
                proof {
                    lemma_strs_view_push(pre, ag);
                    assert(model_of(*c).children[2] == model_of(c.children@[2]));
                    assert(ag@ == "* as "@ + model_of(*c).children[2].text);
                    assert(clause_child_symbols(model_of(*c)) =~~= seq![ag@]);
                    assert(strs_view(out@) =~~= strs_view(pre).push(ag@));
                    assert(strs_view(pre).push(ag@) =~~= strs_view(pre) + seq![ag@]);
                    assert(strs_view(out@) =~~= strs_view(pre) + clause_child_symbols(
                        model_of(*c),
                    ));
                }
            } else {
                proof {
                    lemma_models_of(c.children@);
                    assert(strs_view(out@) =~= strs_view(pre) + clause_child_symbols(
                        model_of(*c),
                    ));
                }
            }
        } else {
            proof {
                assert(strs_view(out@) =~= strs_view(pre) + clause_child_symbols(model_of(*c)));
            }
        }
        proof {
            let mcs = model_of(*cl).children;
            assert(mcs[i as int] == model_of(cl.children@[i as int]));
            assert(mcs.subrange(0, i + 1) =~= mcs.subrange(0, i as int).push(mcs[i as int]));
            lemma_clause_children_list_push(mcs.subrange(0, i as int), mcs[i as int]);
            assert(strs_view(out@) =~= strs_view(base) + clause_children_list(
                mcs.subrange(0, i + 1),
            ));
        }
        i = i + 1;
    }
    proof {
        let mcs = model_of(*cl).children;
        assert(mcs.subrange(0, mcs.len() as int) =~= mcs);
    }
}

/// Collect every import record of the file.
#[verifier::loop_isolation(false)]
fn extract_imports(root: &SyntaxNode, out: &mut Vec<Import>)
    ensures
        imports_view(final(out)@) == imports_view(old(out)@) + imports_of(model_of(*root)),
{
    proof {
        lemma_models_of(root.children@);
        assert(model_of(*root).children.subrange(0, 0) =~= Seq::<NodeModel>::empty());
    }
    let ghost base = out@;
    let mut i: usize = 0;
    while i < root.children.len()
        invariant
            i <= root.children@.len(),
            imports_view(out@) == imports_view(base) + imports_list(
                model_of(*root).children.subrange(0, i as int),
            ),
        decreases root.children@.len() - i,
    {
        let c = &root.children[i];
        let ghost pre = out@;
        if str_eq(&c.kind, "import_statement") {
            let from = match find_field_child(c, "source") {
                Some(sn) => trim_quotes_exec(&sn.text),
                None => String::new(),
            };
            proof {
                lemma_models_of(c.children@);
                assert(model_of(*c).children.subrange(0, 0) =~= Seq::<NodeModel>::empty());
            }
            let mut symbols: Vec<String> = Vec::new();
            proof {
                assert(strs_view(symbols@) =~= Seq::<Seq<char>>::empty());
                assert(strs_view(symbols@) =~= import_clauses_list(
                    model_of(*c).children.subrange(0, 0),
                ));
            }
            let mut j: usize = 0;
            while j < c.children.len()
                invariant
                    j <= c.children@.len(),
                    strs_view(symbols@) == import_clauses_list(
                        model_of(*c).children.subrange(0, j as int),
                    ),
                decreases c.children@.len() - j,
            {
                let cl = &c.children[j];
                let ghost pre2 = symbols@;
                if str_eq(&cl.kind, "import_clause") {
                    extract_import_clause(cl, &mut symbols);
                    proof {
                        assert(strs_view(pre2) =~= Seq::<Seq<char>>::empty()
                            + strs_view(pre2));
                    }
                }
                proof {
                    let mcs = model_of(*c).children;
                    assert(mcs[j as int] == model_of(c.children@[j as int]));
                    assert(mcs.subrange(0, j + 1) =~= mcs.subrange(0, j as int).push(
                        mcs[j as int],
                    ));
                    lemma_import_clauses_list_push(mcs.subrange(0, j as int), mcs[j as int]);
                    assert(strs_view(symbols@) =~= import_clauses_list(
                        mcs.subrange(0, j + 1),
                    ));
                }
                j = j + 1;
            }
            proof {
                let mcs = model_of(*c).children;
                assert(mcs.subrange(0, mcs.len() as int) =~= mcs);
            }
            if from.as_str().unicode_len() > 0 {
                let imp = Import { from, symbols, line: line_number(c.row) };
                let ghost impg = imp;
                out.push(imp);
                proof {
                    lemma_imports_view_push(pre, impg);
                    assert(import_view(impg) == ImportModel {
                        from: impg.from@,
                        symbols: import_clauses_list(model_of(*c).children),
                        line: line_of(model_of(*c).row),
                    });
                    assert(imports_view(out@) =~= imports_view(pre) + import_of(model_of(*c)));
                }
            } else {
                proof {
                    assert(imports_view(out@) =~= imports_view(pre) + import_of(model_of(*c)));
                }
            }
        } else {
            proof {
                assert(imports_view(out@) =~= imports_view(pre) + import_of(model_of(*c)));
            }
        }
        proof {
            let mcs = model_of(*root).children;
            assert(mcs[i as int] == model_of(root.children@[i as int]));
            assert(mcs.subrange(0, i + 1) =~= mcs.subrange(0, i as int).push(mcs[i as int]));
            lemma_imports_list_push(mcs.subrange(0, i as int), mcs[i as int]);
            assert(imports_view(out@) =~= imports_view(base) + imports_list(
                mcs.subrange(0, i + 1),
            ));
        }
        i = i + 1;
    }
    proof {
        let mcs = model_of(*root).children;
        assert(mcs.subrange(0, mcs.len() as int) =~= mcs);
    }
}

/// The exports and imports of a parsed file: exactly what the extraction
/// model says the tree contributes.
pub fn extract_from_tree(root: &SyntaxNode) -> (r: FileSymbols)
    ensures
        syms_view(r.exports@) == exports_of(model_of(*root)),
        imports_view(r.imports@) == imports_of(model_of(*root)),
{
    let mut exports: Vec<Symbol> = Vec::new();
    let mut imports: Vec<Import> = Vec::new();
    proof {
        assert(syms_view(exports@) =~= Seq::<SymbolModel>::empty());
        assert(imports_view(imports@) =~= Seq::<ImportModel>::empty());
    }
    extract_exports(root, &mut exports);
    extract_imports(root, &mut imports);
    proof {
        assert(syms_view(exports@) =~= exports_of(model_of(*root)));
        assert(imports_view(imports@) =~= imports_of(model_of(*root)));
    }
    FileSymbols { exports, imports }
}

/// The grammar a source is parsed with for symbol extraction: the TSX
/// grammar for TypeScript sources, the JavaScript grammar otherwise.
pub open spec fn grammar_for(is_typescript: bool) -> Lang {
    if is_typescript {
        Lang::Tsx
    } else {
        Lang::JavaScript
    }
}

/// Extract the exported symbols and the imports of a source file: parse it
/// with the TSX grammar for TypeScript or the JavaScript grammar otherwise,
/// then read the tree. Fails exactly when the source does not parse; on
/// success the result is exactly what the extraction model says the parsed
/// tree contributes.
pub fn extract_symbols(source: &String, is_typescript: bool) -> (r: Result<
    FileSymbols,
    SymbolError,
>)
    ensures
        r is Err <==> parse_of(grammar_for(is_typescript), source@) is None,
        r matches Ok(fs) ==> (parse_of(grammar_for(is_typescript), source@) matches Some(m)
            && syms_view(fs.exports@) == exports_of(m) && imports_view(fs.imports@)
            == imports_of(m)),
{
    let lang = if is_typescript {
        Lang::Tsx
    } else {
        Lang::JavaScript
    };
    proof {
        assert(lang == grammar_for(is_typescript));
    }
    match parse_source(&lang, source.as_str()) {
        Some(root) => {
            let fs = extract_from_tree(&root);
            proof {
                assert(parse_of(grammar_for(is_typescript), source@) == Some(model_of(root)));
            }
            Ok(fs)
        },
        None => Err(SymbolError::ParseFailed),
    }
}

} // verus!

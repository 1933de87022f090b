//! The symbol graph: which files export which symbols under which digest,
//! and which files consume each exported symbol. Comparing digests against a
//! previous cache narrows a rebuild to the files that consume a changed
//! symbol.

use vstd::prelude::*;
use crate::symbols::{
    exports_of, extract_symbols, grammar_for, import_view, imports_of, imports_view, strs_view,
    syms_view, ImportModel, Symbol, SymbolModel,
};
use crate::syntax::{lang_of, lang_of_path, match_at, parse_of, Lang, NodeModel};

verus! {

/// First value stored under a key in an association list.
pub open spec fn assoc<V>(s: Seq<(String, V)>, k: Seq<char>) -> Option<V>
    decreases s,
{
    if s.len() == 0 {
        None
    } else if s[0].0@ == k {
        Some(s[0].1)
    } else {
        assoc(s.drop_first(), k)
    }
}

/// A first match at `i` determines the association lookup.
pub(crate) proof fn lemma_assoc_at<V>(s: Seq<(String, V)>, k: Seq<char>, i: int)
    requires
        0 <= i < s.len(),
        s[i].0@ == k,
        forall|j: int| 0 <= j < i ==> (#[trigger] s[j].0@) != k,
    ensures
        assoc(s, k) == Some(s[i].1),
    decreases i,
{
    if i > 0 {
        assert forall|j: int| 0 <= j < i - 1 implies (#[trigger] s.drop_first()[j].0@) != k by {
            assert(s.drop_first()[j] == s[j + 1]);
        }
        assert(s.drop_first()[i - 1] == s[i]);
        lemma_assoc_at(s.drop_first(), k, i - 1);
    }
}

/// No match anywhere means the association lookup is empty.
pub(crate) proof fn lemma_assoc_none<V>(s: Seq<(String, V)>, k: Seq<char>)
    requires
        forall|j: int| 0 <= j < s.len() ==> (#[trigger] s[j].0@) != k,
    ensures
        assoc(s, k) is None,
    decreases s,
{
    if s.len() > 0 {
        assert forall|j: int|
            0 <= j < s.drop_first().len() implies (#[trigger] s.drop_first()[j].0@) != k by {
            assert(s.drop_first()[j] == s[j + 1]);
        }
        lemma_assoc_none(s.drop_first(), k);
    }
}

/// Replacing the entry at a position with one of the same key changes only
/// that key's value in lookups.
pub(crate) proof fn lemma_assoc_update_keep<V>(s: Seq<(String, V)>, i: int, kv: (String, V))
    requires
        0 <= i < s.len(),
        kv.0@ == s[i].0@,
    ensures
        forall|k: Seq<char>| k != kv.0@ ==> assoc(s.update(i, kv), k) == assoc(s, k),
        (forall|j: int| 0 <= j < i ==> (#[trigger] s[j].0@) != kv.0@) ==> assoc(
            s.update(i, kv),
            kv.0@,
        ) == Some(kv.1),
    decreases s.len(),
{
    let s2 = s.update(i, kv);
    if i == 0 {
        assert(s2[0] == kv);
        assert(s2.drop_first() =~= s.drop_first());
        assert forall|k: Seq<char>| k != kv.0@ implies assoc(s2, k) == assoc(s, k) by {
            assert(s2[0].0@ != k && s[0].0@ != k);
            assert(assoc(s2, k) == assoc(s2.drop_first(), k));
            assert(assoc(s, k) == assoc(s.drop_first(), k));
        }
        assert(assoc(s2, kv.0@) == Some(kv.1));
    } else {
        assert(s2[0] == s[0]);
        assert(s2.drop_first() =~= s.drop_first().update(i - 1, kv));
        assert(s.drop_first()[i - 1] == s[i]);
        lemma_assoc_update_keep(s.drop_first(), i - 1, kv);
        assert forall|k: Seq<char>| k != kv.0@ implies assoc(s2, k) == assoc(s, k) by {
            if s[0].0@ == k {
                assert(assoc(s2, k) == Some(s2[0].1));
                assert(assoc(s, k) == Some(s[0].1));
            } else {
                assert(assoc(s2, k) == assoc(s2.drop_first(), k));
                assert(assoc(s, k) == assoc(s.drop_first(), k));
                assert(assoc(s.drop_first().update(i - 1, kv), k) == assoc(s.drop_first(), k));
            }
        }
        if forall|j: int| 0 <= j < i ==> (#[trigger] s[j].0@) != kv.0@ {
            assert forall|j: int| 0 <= j < i - 1 implies (#[trigger] s.drop_first()[j].0@)
                != kv.0@ by {
                assert(s.drop_first()[j] == s[j + 1]);
            }
            assert(s[0].0@ != kv.0@);
            assert(assoc(s2, kv.0@) == assoc(s2.drop_first(), kv.0@));
            assert(assoc(s2.drop_first(), kv.0@) == Some(kv.1));
        }
    }
}

/// Appending an entry under a fresh key makes it the one its key finds, and
/// leaves every other key's lookup unchanged.
pub(crate) proof fn lemma_assoc_push_new<V>(s: Seq<(String, V)>, kv: (String, V))
    requires
        forall|j: int| 0 <= j < s.len() ==> (#[trigger] s[j].0@) != kv.0@,
    ensures
        assoc(s.push(kv), kv.0@) == Some(kv.1),
        forall|k: Seq<char>| k != kv.0@ ==> assoc(s.push(kv), k) == assoc(s, k),
    decreases s.len(),
{
    let s2 = s.push(kv);
    if s.len() == 0 {
        assert(s2[0] == kv);
        assert(s2.drop_first() =~= Seq::<(String, V)>::empty());
        assert forall|k: Seq<char>| k != kv.0@ implies assoc(s2, k) == assoc(s, k) by {
            assert(s2[0].0@ != k);
            assert(assoc(s2, k) == assoc(s2.drop_first(), k));
        }
    } else {
        assert(s2[0] == s[0]);
        assert(s2.drop_first() =~= s.drop_first().push(kv));
        assert forall|j: int|
            0 <= j < s.drop_first().len() implies (#[trigger] s.drop_first()[j].0@) != kv.0@ by {
            assert(s.drop_first()[j] == s[j + 1]);
        }
        lemma_assoc_push_new(s.drop_first(), kv);
        assert(s[0].0@ != kv.0@);
        assert(assoc(s2, kv.0@) == assoc(s2.drop_first(), kv.0@));
        assert forall|k: Seq<char>| k != kv.0@ implies assoc(s2, k) == assoc(s, k) by {
            if s[0].0@ == k {
                assert(assoc(s2, k) == Some(s2[0].1));
                assert(assoc(s, k) == Some(s[0].1));
            } else {
                assert(assoc(s2, k) == assoc(s2.drop_first(), k));
                assert(assoc(s, k) == assoc(s.drop_first(), k));
                assert(assoc(s.drop_first().push(kv), k) == assoc(s.drop_first(), k));
            }
        }
    }
}

/// Removing an entry under a different key leaves a lookup unchanged.
pub(crate) proof fn lemma_assoc_remove_other<V>(s: Seq<(String, V)>, i: int, k: Seq<char>)
    requires
        0 <= i < s.len(),
        s[i].0@ != k,
    ensures
        assoc(s.remove(i), k) == assoc(s, k),
    decreases s.len(),
{
    if i == 0 {
        assert(s.remove(0) =~= s.drop_first());
    } else {
        assert(s.remove(i).drop_first() =~= s.drop_first().remove(i - 1));
        assert(s.remove(i)[0] == s[0]);
        lemma_assoc_remove_other(s.drop_first(), i - 1, k);
    }
}

/// An empty lookup means no entry carries the key.
pub(crate) proof fn lemma_assoc_none_keys<V>(s: Seq<(String, V)>, k: Seq<char>)
    requires
        assoc(s, k) is None,
    ensures
        forall|j: int| 0 <= j < s.len() ==> (#[trigger] s[j].0@) != k,
    decreases s,
{
    if s.len() > 0 {
        assert(s[0].0@ != k);
        lemma_assoc_none_keys(s.drop_first(), k);
        assert forall|j: int| 0 <= j < s.len() implies (#[trigger] s[j].0@) != k by {
            if j > 0 {
                assert(s.drop_first()[j - 1] == s[j]);
            }
        }
    }
}

/// Index of the first entry stored under the key, if any.
pub(crate) fn find_key<V>(v: &Vec<(String, V)>, k: &String) -> (r: Option<usize>)
    ensures
        match r {
            Some(i) => i < v@.len() && v@[i as int].0@ == k@ && assoc(v@, k@) == Some(
                v@[i as int].1,
            ) && (forall|j: int| 0 <= j < i ==> (#[trigger] v@[j].0@) != k@),
            None => assoc(v@, k@) is None,
        },
{
    let mut i: usize = 0;
    while i < v.len()
        invariant
            i <= v@.len(),
            forall|j: int| 0 <= j < i ==> (#[trigger] v@[j].0@) != k@,
        decreases v@.len() - i,
    {
        if v[i].0 == *k {
            proof {
                lemma_assoc_at(v@, k@, i as int);
            }
            return Some(i);
        }
        i = i + 1;
    }
    proof {
        lemma_assoc_none(v@, k@);
    }
    None
}

/// `p` is a prefix of `s`.
pub open spec fn is_prefix(p: Seq<char>, s: Seq<char>) -> bool {
    s.len() >= p.len() && s.subrange(0, p.len() as int) == p
}

/// Whether the string starts with the given prefix.
fn starts_with_string(s: &String, prefix: &String) -> (r: bool)
    ensures
        r == is_prefix(prefix@, s@),
{
    let sl = s.as_str().unicode_len();
    let pl = prefix.as_str().unicode_len();
    if pl > sl {
        return false;
    }
    match_at(s, prefix.as_str(), 0)
}

/// The identifier of a symbol: the owning package name, a colon, and the
/// symbol name.
pub open spec fn symbol_id(pkg: Seq<char>, name: Seq<char>) -> Seq<char> {
    pkg + ":"@ + name
}

/// Build the identifier of a symbol.
fn make_symbol_id(pkg: &String, name: &String) -> (r: String)
    ensures
        r@ == symbol_id(pkg@, name@),
{
    let mut r = pkg.clone();
    r.append(":");
    r.append(name.as_str());
    r
}

/// The package name a file is attributed to: the first discovered package
/// whose path is a prefix of the file's path, or the file path itself.
pub open spec fn pkg_name_for(pkgs: Seq<(String, String)>, path: Seq<char>) -> Seq<char>
    decreases pkgs,
{
    if pkgs.len() == 0 {
        path
    } else if is_prefix(pkgs[0].1@, path) {
        pkgs[0].0@
    } else {
        pkg_name_for(pkgs.drop_first(), path)
    }
}

/// The `(identifier, digest)` entries one file's symbols contribute.
pub open spec fn file_entries(pkg: Seq<char>, syms: Seq<Symbol>) -> Seq<(Seq<char>, Seq<char>)>
    decreases syms,
{
    if syms.len() == 0 {
        Seq::empty()
    } else {
        seq![(symbol_id(pkg, syms[0].name@), syms[0].hash@)] + file_entries(
            pkg,
            syms.drop_first(),
        )
    }
}

/// The `(identifier, digest)` entries of every file, in storage order.
pub open spec fn all_entries(
    pkgs: Seq<(String, String)>,
    exports: Seq<(String, Vec<Symbol>)>,
) -> Seq<(Seq<char>, Seq<char>)>
    decreases exports,
{
    if exports.len() == 0 {
        Seq::empty()
    } else {
        file_entries(pkg_name_for(pkgs, exports[0].0@), exports[0].1@) + all_entries(
            pkgs,
            exports.drop_first(),
        )
    }
}

/// The identifiers in `entries` whose digest is new or differs from the
/// cached one.
pub open spec fn changed_entries(
    entries: Seq<(Seq<char>, Seq<char>)>,
    cache: Seq<(String, String)>,
) -> Seq<Seq<char>>
    decreases entries,
{
    if entries.len() == 0 {
        Seq::empty()
    } else {
        (match assoc(cache, entries[0].0) {
            Some(h) => if h@ == entries[0].1 {
                Seq::empty()
            } else {
                seq![entries[0].0]
            },
            None => seq![entries[0].0],
        }) + changed_entries(entries.drop_first(), cache)
    }
}

/// Identifiers are pairwise distinct.
pub open spec fn distinct_ids(entries: Seq<(Seq<char>, Seq<char>)>) -> bool {
    forall|i: int, j: int|
        0 <= i < j < entries.len() ==> (#[trigger] entries[i]).0 != (#[trigger] entries[j]).0
}

/// From position `k` on, a cache that stores exactly the entries reports no
/// change.
proof fn lemma_no_changes_from(
    entries: Seq<(Seq<char>, Seq<char>)>,
    cache: Seq<(String, String)>,
    k: int,
)
    requires
        pairs_view(cache) == entries,
        distinct_ids(entries),
        0 <= k <= entries.len(),
    ensures
        changed_entries(entries.skip(k), cache).len() == 0,
    decreases entries.len() - k,
{
    if k < entries.len() {
        let s = entries.skip(k);
        assert(s[0] == entries[k]);
        assert(cache[k].0@ == entries[k].0 && cache[k].1@ == entries[k].1) by {
            assert(pairs_view(cache)[k] == entries[k]);
        }
        assert forall|j: int| 0 <= j < k implies (#[trigger] cache[j].0@) != entries[k].0 by {
            assert(pairs_view(cache)[j] == entries[j]);
            assert(cache[j].0@ == entries[j].0);
        }
        lemma_assoc_at(cache, entries[k].0, k);
        assert(s.drop_first() =~= entries.skip(k + 1));
        lemma_no_changes_from(entries, cache, k + 1);
    }
}

/// A digest cache taken from the graph's own current entries reports no
/// changed symbols, whenever no identifier occurs twice. The one input left
/// out: a symbol exported twice under one identifier with differing digests
/// (a declaration beside an export clause, whose digest is empty), where the
/// cache can hold only one of the two digests and the other is reported
/// changed on every run.
pub proof fn law_fresh_cache_reports_no_changes(
    pkgs: Seq<(String, String)>,
    exports: Seq<(String, Vec<Symbol>)>,
    cache: Seq<(String, String)>,
)
    requires
        pairs_view(cache) == all_entries(pkgs, exports),
        distinct_ids(all_entries(pkgs, exports)),
    ensures
        changed_entries(all_entries(pkgs, exports), cache).len() == 0,
{
    let entries = all_entries(pkgs, exports);
    assert(entries.skip(0) =~= entries);
    lemma_no_changes_from(entries, cache, 0);
}

/// The views of an `(identifier, digest)` pair list.
pub open spec fn pairs_view(v: Seq<(String, String)>) -> Seq<(Seq<char>, Seq<char>)> {
    Seq::new(v.len(), |i: int| (v[i].0@, v[i].1@))
}

/// One source file handed to the graph builder: its path and its content.
pub struct SourceFile {
    pub path: String,
    pub content: String,
}

/// The symbol graph of a workspace.
pub struct SymbolGraph {
    /// Symbol identifier to the files that import it.
    pub consumers: Vec<(String, Vec<String>)>,
    /// File path to the symbols it exports.
    pub exports: Vec<(String, Vec<Symbol>)>,
    /// Package name to package path.
    pub packages: Vec<(String, String)>,
}

/// Stored symbol digests from a previous run, for change detection.
pub struct SymbolCache {
    /// Symbol identifier to its digest at the previous run.
    pub hashes: Vec<(String, String)>,
}

impl SymbolCache {
    /// An empty cache: every current symbol counts as changed against it.
    pub fn empty() -> (r: SymbolCache)
        ensures
            r.hashes@.len() == 0,
    {
        SymbolCache { hashes: Vec::new() }
    }
}

/// Whether a path routes to the TypeScript-family grammar.
pub open spec fn is_ts_path(p: Seq<char>) -> bool {
    lang_of(p) == Some(Lang::TypeScript) || lang_of(p) == Some(Lang::Tsx)
}

/// The tree a source file yields: its content parsed with the grammar its
/// path selects.
pub open spec fn source_parse(path: Seq<char>, content: Seq<char>) -> Option<NodeModel> {
    parse_of(grammar_for(is_ts_path(path)), content)
}

/// The paths and symbol models of an exports list.
pub open spec fn exports_model(s: Seq<(String, Vec<Symbol>)>) -> Seq<(Seq<char>, Seq<SymbolModel>)> {
    Seq::new(s.len(), |i: int| ((s[i].0)@, syms_view(s[i].1@)))
}

/// What scanning the files records: one exports entry per file that parses,
/// in file order; a file that does not parse records nothing.
pub open spec fn scan_exports(files: Seq<SourceFile>) -> Seq<(Seq<char>, Seq<SymbolModel>)>
    decreases files,
{
    if files.len() == 0 {
        Seq::empty()
    } else {
        (match source_parse(files[0].path@, files[0].content@) {
            Some(m) => seq![(files[0].path@, exports_of(m))],
            None => Seq::empty(),
        }) + scan_exports(files.drop_first())
    }
}

/// Appending a file extends the scan at the end.
proof fn lemma_scan_exports_push(files: Seq<SourceFile>, x: SourceFile)
    ensures
        scan_exports(files.push(x)) == scan_exports(files) + (match source_parse(
            x.path@,
            x.content@,
        ) {
            Some(m) => seq![(x.path@, exports_of(m))],
            None => Seq::<(Seq<char>, Seq<SymbolModel>)>::empty(),
        }),
    decreases files.len(),
{
    if files.len() == 0 {
        assert(files.push(x)[0] == x);
        assert(files.push(x).drop_first() =~= Seq::<SourceFile>::empty());
        assert(files.push(x).len() == 1);
        assert(scan_exports(files.push(x)) == (match source_parse(
            files.push(x)[0].path@,
            files.push(x)[0].content@,
        ) {
            Some(m) => seq![(files.push(x)[0].path@, exports_of(m))],
            None => Seq::<(Seq<char>, Seq<SymbolModel>)>::empty(),
        }) + scan_exports(files.push(x).drop_first()));
        assert(scan_exports(Seq::<SourceFile>::empty()) == Seq::<(
            Seq<char>,
            Seq<SymbolModel>,
        )>::empty());
        assert(scan_exports(files.push(x)) =~= scan_exports(files) + (match source_parse(
            x.path@,
            x.content@,
        ) {
            Some(m) => seq![(x.path@, exports_of(m))],
            None => Seq::<(Seq<char>, Seq<SymbolModel>)>::empty(),
        }));
    } else {
        assert(files.push(x)[0] == files[0]);
        assert(files.push(x).drop_first() =~= files.drop_first().push(x));
        lemma_scan_exports_push(files.drop_first(), x);
        assert(scan_exports(files.push(x)) =~= scan_exports(files) + (match source_parse(
            x.path@,
            x.content@,
        ) {
            Some(m) => seq![(x.path@, exports_of(m))],
            None => Seq::<(Seq<char>, Seq<SymbolModel>)>::empty(),
        }));
    }
}

/// Pushing an exports entry pushes its model.
proof fn lemma_exports_model_push(s: Seq<(String, Vec<Symbol>)>, e: (String, Vec<Symbol>))
    ensures
        exports_model(s.push(e)) == exports_model(s).push((e.0@, syms_view(e.1@))),
{
    assert(exports_model(s.push(e)) =~= exports_model(s).push((e.0@, syms_view(e.1@))));
}

/// One of the first `upto` imports comes from a discovered package and
/// binds `id`: the package is looked up by the exact module name, and `id`
/// is that package's name joined with one imported symbol.
pub open spec fn imports_consume(
    packages: Seq<(String, String)>,
    imps: Seq<ImportModel>,
    upto: int,
    id: Seq<char>,
) -> bool {
    exists|i: int, j: int|
        0 <= i < upto && i < imps.len() && 0 <= j < imps[i].symbols.len() && assoc(
            packages,
            imps[i].from,
        ) is Some && id == symbol_id(imps[i].from, #[trigger] imps[i].symbols[j])
}

/// Whether one source file makes `x` a consumer of `id`: the file parses,
/// `x` is its path, and one of its imports from a discovered package binds
/// the symbol.
pub open spec fn source_consumes(
    packages: Seq<(String, String)>,
    path: Seq<char>,
    content: Seq<char>,
    id: Seq<char>,
    x: Seq<char>,
) -> bool {
    match source_parse(path, content) {
        Some(m) => x == path && imports_consume(packages, imports_of(m), imports_of(m).len() as int, id),
        None => false,
    }
}

/// Whether some file of the list makes `x` a consumer of `id`.
pub open spec fn files_consume(
    packages: Seq<(String, String)>,
    files: Seq<SourceFile>,
    id: Seq<char>,
    x: Seq<char>,
) -> bool {
    exists|i: int|
        0 <= i < files.len() && source_consumes(
            packages,
            (#[trigger] files[i]).path@,
            files[i].content@,
            id,
            x,
        )
}

/// Extending the import prefix by one adds exactly that import's bindings.
proof fn lemma_imports_consume_step(
    packages: Seq<(String, String)>,
    imps: Seq<ImportModel>,
    i: int,
    id: Seq<char>,
)
    requires
        0 <= i < imps.len(),
    ensures
        imports_consume(packages, imps, i + 1, id) <==> (imports_consume(packages, imps, i, id)
            || (assoc(packages, imps[i].from) is Some && exists|j: int|
            0 <= j < imps[i].symbols.len() && id == symbol_id(
                imps[i].from,
                #[trigger] imps[i].symbols[j],
            ))),
{
    if imports_consume(packages, imps, i + 1, id) {
        let (i0, j0) = choose|i0: int, j0: int|
            0 <= i0 < i + 1 && i0 < imps.len() && 0 <= j0 < imps[i0].symbols.len() && assoc(
                packages,
                imps[i0].from,
            ) is Some && id == symbol_id(imps[i0].from, #[trigger] imps[i0].symbols[j0]);
        if i0 < i {
            assert(imports_consume(packages, imps, i, id));
        }
    }
    if imports_consume(packages, imps, i, id) {
        let (i0, j0) = choose|i0: int, j0: int|
            0 <= i0 < i && i0 < imps.len() && 0 <= j0 < imps[i0].symbols.len() && assoc(
                packages,
                imps[i0].from,
            ) is Some && id == symbol_id(imps[i0].from, #[trigger] imps[i0].symbols[j0]);
        assert(imports_consume(packages, imps, i + 1, id));
    }
    if assoc(packages, imps[i].from) is Some && exists|j: int|
        0 <= j < imps[i].symbols.len() && id == symbol_id(
            imps[i].from,
            #[trigger] imps[i].symbols[j],
        ) {
        let j0 = choose|j: int|
            0 <= j < imps[i].symbols.len() && id == symbol_id(
                imps[i].from,
                #[trigger] imps[i].symbols[j],
            );
        assert(imports_consume(packages, imps, i + 1, id));
    }
}

/// Extending the file prefix by one adds exactly that file's bindings.
proof fn lemma_files_consume_step(
    packages: Seq<(String, String)>,
    files: Seq<SourceFile>,
    i: int,
    id: Seq<char>,
    x: Seq<char>,
)
    requires
        0 <= i < files.len(),
    ensures
        files_consume(packages, files.subrange(0, i + 1), id, x) <==> (files_consume(
            packages,
            files.subrange(0, i),
            id,
            x,
        ) || source_consumes(packages, files[i].path@, files[i].content@, id, x)),
{
    let pre = files.subrange(0, i);
    let cur = files.subrange(0, i + 1);
    assert(cur =~= pre.push(files[i]));
    if files_consume(packages, cur, id, x) {
        let i0 = choose|i0: int|
            0 <= i0 < cur.len() && source_consumes(
                packages,
                (#[trigger] cur[i0]).path@,
                cur[i0].content@,
                id,
                x,
            );
        if i0 < pre.len() {
            assert(pre[i0] == cur[i0]);
            assert(files_consume(packages, pre, id, x));
        } else {
            assert(cur[i0] == files[i]);
        }
    }
    if files_consume(packages, pre, id, x) {
        let i0 = choose|i0: int|
            0 <= i0 < pre.len() && source_consumes(
                packages,
                (#[trigger] pre[i0]).path@,
                pre[i0].content@,
                id,
                x,
            );
        assert(cur[i0] == pre[i0]);
        assert(files_consume(packages, cur, id, x));
    }
    if source_consumes(packages, files[i].path@, files[i].content@, id, x) {
        assert(cur[i as int] == files[i]);
        assert(files_consume(packages, cur, id, x));
    }
}

/// Some string in the list views as `x`.
pub open spec fn contains_view(s: Seq<String>, x: Seq<char>) -> bool {
    exists|k: int| 0 <= k < s.len() && (#[trigger] s[k])@ == x
}

/// Some changed symbol has `x` among its consumers.
pub open spec fn affected_by(
    consumers: Seq<(String, Vec<String>)>,
    changed: Seq<String>,
    x: Seq<char>,
) -> bool {
    exists|i: int|
        0 <= i < changed.len() && consumer_has(consumers, (#[trigger] changed[i])@, x)
}


/// With the consumer list of `id` known, membership reduces to that list.
proof fn lemma_consumer_has_eq(
    consumers: Seq<(String, Vec<String>)>,
    id: Seq<char>,
    fs: Vec<String>,
    x: Seq<char>,
)
    requires
        assoc(consumers, id) == Some(fs),
    ensures
        consumer_has(consumers, id, x) == (exists|j0: int|
            0 <= j0 < fs@.len() && (#[trigger] fs@[j0])@ == x),
{
    if consumer_has(consumers, id, x) {
        let files = assoc(consumers, id)->Some_0;
        assert(files == fs);
        let j0 = choose|j0: int| 0 <= j0 < files@.len() && (#[trigger] files@[j0])@ == x;
        assert((fs@[j0])@ == x);
    }
    if exists|j0: int| 0 <= j0 < fs@.len() && (#[trigger] fs@[j0])@ == x {
        let j0 = choose|j0: int| 0 <= j0 < fs@.len() && (#[trigger] fs@[j0])@ == x;
        let files = assoc(consumers, id)->Some_0;
        assert(files == fs);
        assert((files@[j0])@ == x);
        assert(consumer_has(consumers, id, x));
    }
}

/// A file imported under `id` consumes `x` in the graph.
pub open spec fn consumer_has(
    consumers: Seq<(String, Vec<String>)>,
    id: Seq<char>,
    x: Seq<char>,
) -> bool {
    match assoc(consumers, id) {
        Some(files) => exists|j: int| 0 <= j < files@.len() && (#[trigger] files@[j])@ == x,
        None => false,
    }
}

impl SymbolGraph {
    /// An empty graph.
    pub fn empty() -> (r: SymbolGraph)
        ensures
            r.consumers@.len() == 0,
            r.exports@.len() == 0,
            r.packages@.len() == 0,
    {
        SymbolGraph { consumers: Vec::new(), exports: Vec::new(), packages: Vec::new() }
    }

    /// Build the graph for the given discovered packages and source files:
    /// record the packages, extract every file's exports, then record every
    /// file's imports as consumer edges. The exports are exactly the scan of
    /// the given files, and a file consumes exactly the symbols it imports
    /// from a discovered package; a file that does not parse records
    /// nothing.
    pub fn build(packages: Vec<(String, String)>, files: &Vec<SourceFile>) -> (r: SymbolGraph)
        ensures
            r.packages@ == packages@,
            exports_model(r.exports@) == scan_exports(files@),
            forall|k: Seq<char>, x: Seq<char>|
                #[trigger] consumer_has(r.consumers@, k, x) <==> files_consume(
                    packages@,
                    files@,
                    k,
                    x,
                ),
    {
        let mut graph = SymbolGraph { consumers: Vec::new(), exports: Vec::new(), packages };
        proof {
            assert(exports_model(graph.exports@) =~= Seq::<(Seq<char>, Seq<SymbolModel>)>::empty());
            assert forall|k: Seq<char>, x: Seq<char>|
                !(#[trigger] consumer_has(graph.consumers@, k, x)) by {
                assert(assoc(graph.consumers@, k) is None);
            }
        }
        graph.extract_all_symbols(files);
        proof {
            assert(Seq::<(Seq<char>, Seq<SymbolModel>)>::empty() + scan_exports(files@)
                =~= scan_exports(files@));
        }
        graph.build_consumers(files);
        graph
    }

    /// Extract and record the exports of every given file, in order: the
    /// exports list grows by exactly the scan of the files.
    #[verifier::loop_isolation(false)]
    pub fn extract_all_symbols(&mut self, files: &Vec<SourceFile>)
        ensures
            final(self).packages@ == old(self).packages@,
            final(self).consumers@ == old(self).consumers@,
            exports_model(final(self).exports@) == exports_model(old(self).exports@)
                + scan_exports(files@),
    {
        proof {
            assert(files@.subrange(0, 0) =~= Seq::<SourceFile>::empty());
            assert(exports_model(self.exports@) =~= exports_model(old(self).exports@)
                + scan_exports(files@.subrange(0, 0)));
        }
        let mut i: usize = 0;
        while i < files.len()
            invariant
                i <= files@.len(),
                self.packages@ == old(self).packages@,
                self.consumers@ == old(self).consumers@,
                exports_model(self.exports@) == exports_model(old(self).exports@) + scan_exports(
                    files@.subrange(0, i as int),
                ),
            decreases files@.len() - i,
        {
            let ghost pre = self.exports@;
            self.extract_file(&files[i].path, &files[i].content);
            proof {
                let f = files@[i as int];
                let sub = files@.subrange(0, i + 1);
                assert(sub =~= files@.subrange(0, i as int).push(f));
                lemma_scan_exports_push(files@.subrange(0, i as int), f);
                match source_parse(f.path@, f.content@) {
                    Some(m) => {
                        let e = choose|e: (String, Vec<Symbol>)|
                            e.0@ == f.path@ && syms_view(e.1@) == exports_of(m)
                                && self.exports@ == #[trigger] pre.push(e);
                        lemma_exports_model_push(pre, e);
                        assert(exports_model(self.exports@) =~= exports_model(old(self).exports@)
                            + scan_exports(sub));
                    },
                    None => {
                        assert(exports_model(self.exports@) =~= exports_model(old(self).exports@)
                            + scan_exports(sub));
                    },
                }
            }
            i = i + 1;
        }
        proof {
            assert(files@.subrange(0, files@.len() as int) =~= files@);
        }
    }

    /// Extract and record the exports of the files of one package, in
    /// order.
    pub fn extract_package_symbols(&mut self, files: &Vec<SourceFile>)
        ensures
            final(self).packages@ == old(self).packages@,
            final(self).consumers@ == old(self).consumers@,
            exports_model(final(self).exports@) == exports_model(old(self).exports@)
                + scan_exports(files@),
    {
        self.extract_all_symbols(files);
    }

    /// Extract one file's exports and record them under its path: when the
    /// file parses, the exports list gains exactly this file's entry; when
    /// it does not, the graph is unchanged.
    pub fn extract_file(&mut self, path: &String, content: &String)
        ensures
            final(self).packages@ == old(self).packages@,
            final(self).consumers@ == old(self).consumers@,
            match source_parse(path@, content@) {
                Some(m) => exists|e: (String, Vec<Symbol>)|
                    e.0@ == path@ && syms_view(e.1@) == exports_of(m) && final(self).exports@
                        == #[trigger] old(self).exports@.push(e),
                None => final(self).exports@ == old(self).exports@,
            },
    {
        let is_ts = match lang_of_path(path) {
            Some(Lang::TypeScript) => true,
            Some(Lang::Tsx) => true,
            _ => false,
        };
        proof {
            assert(is_ts == is_ts_path(path@));
        }
        match extract_symbols(content, is_ts) {
            Ok(fs) => {
                let entry = (path.clone(), fs.exports);
                let ghost entryg = entry;
                self.exports.push(entry);
                proof {
                    assert(entryg.0@ == path@);
                    assert(self.exports@ == old(self).exports@.push(entryg));
                }
            },
            Err(_) => {},
        }
    }

    /// Record the consumer edges of every given file: afterwards the edges
    /// are exactly the old ones plus each file's workspace imports.
    #[verifier::loop_isolation(false)]
    pub fn build_consumers(&mut self, files: &Vec<SourceFile>)
        ensures
            final(self).packages@ == old(self).packages@,
            final(self).exports@ == old(self).exports@,
            forall|k: Seq<char>, x: Seq<char>|
                #[trigger] consumer_has(final(self).consumers@, k, x) <==> (consumer_has(
                    old(self).consumers@,
                    k,
                    x,
                ) || files_consume(old(self).packages@, files@, k, x)),
    {
        proof {
            assert(files@.subrange(0, 0) =~= Seq::<SourceFile>::empty());
            assert forall|k: Seq<char>, x: Seq<char>|
                !files_consume(old(self).packages@, files@.subrange(0, 0), k, x) by {}
        }
        let mut i: usize = 0;
        while i < files.len()
            invariant
                i <= files@.len(),
                self.packages@ == old(self).packages@,
                self.exports@ == old(self).exports@,
                forall|k: Seq<char>, x: Seq<char>|
                    #[trigger] consumer_has(self.consumers@, k, x) <==> (consumer_has(
                        old(self).consumers@,
                        k,
                        x,
                    ) || files_consume(
                        old(self).packages@,
                        files@.subrange(0, i as int),
                        k,
                        x,
                    )),
            decreases files@.len() - i,
        {
            let ghost mid = self.consumers@;
            self.process_imports(&files[i].path, &files[i].content);
            proof {
                assert forall|k: Seq<char>, x: Seq<char>|
                    #[trigger] consumer_has(self.consumers@, k, x) <==> (consumer_has(
                    old(self).consumers@,
                    k,
                    x,
                ) || files_consume(
                    old(self).packages@,
                    files@.subrange(0, i + 1),
                    k,
                    x,
                )) by {
                    lemma_files_consume_step(old(self).packages@, files@, i as int, k, x);
                    assert(consumer_has(self.consumers@, k, x) <==> (consumer_has(mid, k, x)
                        || source_consumes(
                        old(self).packages@,
                        files@[i as int].path@,
                        files@[i as int].content@,
                        k,
                        x,
                    )));
                }
            }
            i = i + 1;
        }
        proof {
            assert(files@.subrange(0, files@.len() as int) =~= files@);
        }
    }

    /// Record the file as a consumer of every symbol it imports from a
    /// discovered package: afterwards the consumer edges are exactly the old
    /// ones plus this file's workspace imports. Imports from modules that
    /// are not workspace packages add nothing, as does a file that does not
    /// parse.
    #[verifier::loop_isolation(false)]
    pub fn process_imports(&mut self, path: &String, content: &String)
        ensures
            final(self).packages@ == old(self).packages@,
            final(self).exports@ == old(self).exports@,
            forall|k: Seq<char>, x: Seq<char>|
                #[trigger] consumer_has(final(self).consumers@, k, x) <==> (consumer_has(
                    old(self).consumers@,
                    k,
                    x,
                ) || source_consumes(old(self).packages@, path@, content@, k, x)),
    {
        let is_ts = match lang_of_path(path) {
            Some(Lang::TypeScript) => true,
            Some(Lang::Tsx) => true,
            _ => false,
        };
        proof {
            assert(is_ts == is_ts_path(path@));
        }
        let fs = match extract_symbols(content, is_ts) {
            Ok(fs) => fs,
            Err(_) => {
                proof {
                    assert(source_parse(path@, content@) is None);
                    assert forall|k: Seq<char>, x: Seq<char>|
                        #[trigger] consumer_has(self.consumers@, k, x) <==> (consumer_has(
                        old(self).consumers@,
                        k,
                        x,
                    ) || source_consumes(old(self).packages@, path@, content@, k, x)) by {}
                }
                return ;
            },
        };
        let ghost m = parse_of(grammar_for(is_ts_path(path@)), content@)->Some_0;
        proof {
            assert(source_parse(path@, content@) == Some(m));
            assert(imports_view(fs.imports@) == imports_of(m));
            assert(imports_of(m).len() == fs.imports@.len());
        }
        let mut i: usize = 0;
        while i < fs.imports.len()
            invariant
                i <= fs.imports@.len(),
                self.packages@ == old(self).packages@,
                self.exports@ == old(self).exports@,
                forall|k: Seq<char>, x: Seq<char>|
                    #[trigger] consumer_has(self.consumers@, k, x) <==> (consumer_has(
                        old(self).consumers@,
                        k,
                        x,
                    ) || (x == path@ && imports_consume(
                        old(self).packages@,
                        imports_of(m),
                        i as int,
                        k,
                    ))),
            decreases fs.imports@.len() - i,
        {
            let imp = &fs.imports[i];
            let ghost im = imports_of(m)[i as int];
            proof {
                assert(imports_view(fs.imports@)[i as int] == import_view(fs.imports@[i as int]));
                assert(import_view(*imp) == im);
                assert(imp.from@ == im.from);
                assert(strs_view(imp.symbols@) == im.symbols);
            }
            let known = self.is_known_package(&imp.from);
            if known {
                let mut j: usize = 0;
                while j < imp.symbols.len()
                    invariant
                        j <= imp.symbols@.len(),
                        i < fs.imports@.len(),
                        imp == &fs.imports@[i as int],
                        imp.from@ == im.from,
                        strs_view(imp.symbols@) == im.symbols,
                        assoc(old(self).packages@, im.from) is Some,
                        self.packages@ == old(self).packages@,
                        self.exports@ == old(self).exports@,
                        forall|k: Seq<char>, x: Seq<char>|
                            #[trigger] consumer_has(self.consumers@, k, x) <==> (consumer_has(
                                old(self).consumers@,
                                k,
                                x,
                            ) || (x == path@ && imports_consume(
                                old(self).packages@,
                                imports_of(m),
                                i as int,
                                k,
                            )) || (x == path@ && exists|j0: int|
                                0 <= j0 < j && k == symbol_id(
                                    im.from,
                                    #[trigger] im.symbols[j0],
                                ))),
                    decreases imp.symbols@.len() - j,
                {
                    let id = make_symbol_id(&imp.from, &imp.symbols[j]);
                    let ghost idv = id@;
                    proof {
                        assert((imp.symbols@[j as int])@ == im.symbols[j as int]);
                        assert(idv == symbol_id(im.from, im.symbols[j as int]));
                    }
                    let ghost mid = self.consumers@;
                    self.add_consumer(id, path);
                    proof {
                        assert forall|k: Seq<char>, x: Seq<char>|
                            #[trigger] consumer_has(self.consumers@, k, x) <==> (consumer_has(
                            old(self).consumers@,
                            k,
                            x,
                        ) || (x == path@ && imports_consume(
                            old(self).packages@,
                            imports_of(m),
                            i as int,
                            k,
                        )) || (x == path@ && exists|j0: int|
                            0 <= j0 < j + 1 && k == symbol_id(
                                im.from,
                                #[trigger] im.symbols[j0],
                            ))) by {
                            if consumer_has(self.consumers@, k, x) {
                                assert(consumer_has(mid, k, x) || (k == idv && x == path@));
                                if !consumer_has(mid, k, x) {
                                    assert(k == symbol_id(im.from, im.symbols[j as int]));
                                }
                            }
                            if consumer_has(old(self).consumers@, k, x) || (x == path@
                                && imports_consume(
                                old(self).packages@,
                                imports_of(m),
                                i as int,
                                k,
                            )) {
                                assert(consumer_has(mid, k, x));
                                assert(consumer_has(self.consumers@, k, x));
                            }
                            if x == path@ && exists|j0: int|
                                0 <= j0 < j + 1 && k == symbol_id(
                                    im.from,
                                    #[trigger] im.symbols[j0],
                                ) {
                                let j0 = choose|j0: int|
                                    0 <= j0 < j + 1 && k == symbol_id(
                                        im.from,
                                        #[trigger] im.symbols[j0],
                                    );
                                if j0 < j {
                                    assert(consumer_has(mid, k, x));
                                    assert(consumer_has(self.consumers@, k, x));
                                } else {
                                    assert(k == idv);
                                    assert(consumer_has(self.consumers@, idv, path@));
                                }
                            }
                        }
                    }
                    j = j + 1;
                }
                proof {
                    assert forall|k: Seq<char>, x: Seq<char>|
                        #[trigger] consumer_has(self.consumers@, k, x) <==> (consumer_has(
                        old(self).consumers@,
                        k,
                        x,
                    ) || (x == path@ && imports_consume(
                        old(self).packages@,
                        imports_of(m),
                        i + 1,
                        k,
                    ))) by {
                        lemma_imports_consume_step(
                            old(self).packages@,
                            imports_of(m),
                            i as int,
                            k,
                        );
                    }
                }
            } else {
                proof {
                    assert(assoc(old(self).packages@, im.from) is None);
                    assert forall|k: Seq<char>, x: Seq<char>|
                        #[trigger] consumer_has(self.consumers@, k, x) <==> (consumer_has(
                        old(self).consumers@,
                        k,
                        x,
                    ) || (x == path@ && imports_consume(
                        old(self).packages@,
                        imports_of(m),
                        i + 1,
                        k,
                    ))) by {
                        lemma_imports_consume_step(
                            old(self).packages@,
                            imports_of(m),
                            i as int,
                            k,
                        );
                    }
                }
            }
            i = i + 1;
        }
        proof {
            assert forall|k: Seq<char>, x: Seq<char>|
                #[trigger] consumer_has(self.consumers@, k, x) <==> (consumer_has(
                old(self).consumers@,
                k,
                x,
            ) || source_consumes(old(self).packages@, path@, content@, k, x)) by {}
        }
    }

    /// Whether a package with exactly this name was discovered.
    fn is_known_package(&self, name: &String) -> (r: bool)
        ensures
            r == (assoc(self.packages@, name@) is Some),
    {
        match find_key(&self.packages, name) {
            Some(_) => true,
            None => false,
        }
    }

    /// Record `file` as a consumer of the symbol `id`, without duplicates:
    /// afterwards the consumer edges are exactly the old ones plus this one.
    fn add_consumer(&mut self, id: String, file: &String)
        ensures
            final(self).packages@ == old(self).packages@,
            final(self).exports@ == old(self).exports@,
            consumer_has(final(self).consumers@, id@, file@),
            forall|k: Seq<char>, x: Seq<char>|
                #[trigger] consumer_has(old(self).consumers@, k, x) ==> consumer_has(
                    final(self).consumers@,
                    k,
                    x,
                ),
            forall|k: Seq<char>, x: Seq<char>|
                #[trigger] consumer_has(final(self).consumers@, k, x) ==> consumer_has(
                    old(self).consumers@,
                    k,
                    x,
                ) || (k == id@ && x == file@),
    {
        match find_key(&self.consumers, &id) {
            Some(i) => {
                let mut seen: bool = false;
                let mut j: usize = 0;
                while j < self.consumers[i].1.len()
                    invariant
                        i < self.consumers@.len(),
                        self.packages@ == old(self).packages@,
                        self.exports@ == old(self).exports@,
                        self.consumers@ == old(self).consumers@,
                        seen ==> exists|j0: int|
                            0 <= j0 < self.consumers@[i as int].1@.len() && (
                            #[trigger] self.consumers@[i as int].1@[j0])@ == file@,
                    decreases self.consumers@[i as int].1@.len() - j,
                {
                    if self.consumers[i].1[j] == *file {
                        proof {
                            assert((self.consumers@[i as int].1@[j as int])@ == file@);
                        }
                        seen = true;
                    }
                    j = j + 1;
                }
                if !seen {
                    let ghost pre = self.consumers@;
                    let f = file.clone();
                    let ghost fg = f;
                    self.consumers[i].1.push(f);
                    proof {
                        let ghost kv = self.consumers@[i as int];
                        assert(kv.0@ == pre[i as int].0@);
                        assert(kv.1@ == pre[i as int].1@.push(fg));
                        assert(self.consumers@ =~= pre.update(i as int, kv));
                        lemma_assoc_update_keep(pre, i as int, kv);
                        assert(assoc(self.consumers@, id@) == Some(kv.1));
                        assert(fg@ == file@);
                        assert((kv.1@[kv.1@.len() - 1])@ == file@);
                        lemma_consumer_has_eq(self.consumers@, id@, kv.1, file@);
                        assert(consumer_has(self.consumers@, id@, file@));
                        assert forall|k: Seq<char>, x: Seq<char>|
                            #[trigger] consumer_has(pre, k, x) implies consumer_has(
                            self.consumers@,
                            k,
                            x,
                        ) by {
                            if k == id@ {
                                assert(assoc(pre, k) == Some(pre[i as int].1));
                                let fs = pre[i as int].1;
                                let j0 = choose|j0: int|
                                    0 <= j0 < fs@.len() && (#[trigger] fs@[j0])@ == x;
                                assert((kv.1@[j0])@ == x);
                            } else {
                                assert(assoc(self.consumers@, k) == assoc(pre, k));
                            }
                        }
                        assert forall|k: Seq<char>, x: Seq<char>|
                            #[trigger] consumer_has(self.consumers@, k, x) implies consumer_has(
                            pre,
                            k,
                            x,
                        ) || (k == id@ && x == file@) by {
                            if k == id@ {
                                lemma_consumer_has_eq(self.consumers@, id@, kv.1, x);
                                let j0 = choose|j0: int|
                                    0 <= j0 < kv.1@.len() && (#[trigger] kv.1@[j0])@ == x;
                                if j0 < pre[i as int].1@.len() {
                                    assert((pre[i as int].1@[j0])@ == x);
                                    assert(assoc(pre, id@) == Some(pre[i as int].1));
                                    lemma_consumer_has_eq(pre, id@, pre[i as int].1, x);
                                } else {
                                    assert(x == fg@);
                                }
                            } else {
                                assert(assoc(self.consumers@, k) == assoc(pre, k));
                            }
                        }
                    }
                } else {
                    proof {
                        lemma_consumer_has_eq(
                            self.consumers@,
                            id@,
                            self.consumers@[i as int].1,
                            file@,
                        );
                    }
                }
            },
            None => {
                let mut files: Vec<String> = Vec::new();
                files.push(file.clone());
                let ghost pre = self.consumers@;
                let ghost idg = id;
                let ghost filesg = files;
                let ghost id_view = id@;
                proof {
                    assert(filesg@.len() == 1);
                    assert((filesg@[0])@ == file@);
                    assert(idg@ == id_view);
                    lemma_assoc_none_keys(pre, id_view);
                }
                self.consumers.push((id, files));
                proof {
                    let ghost kv = (idg, filesg);
                    assert(self.consumers@ == pre.push(kv));
                    assert(kv.0@ == id_view);
                    assert forall|j: int| 0 <= j < pre.len() implies (#[trigger] pre[j].0@)
                        != kv.0@ by {
                        assert(pre[j].0@ != id_view);
                    }
                    lemma_assoc_push_new(pre, kv);
                    assert(assoc(self.consumers@, kv.0@) == Some(kv.1));
                    assert((kv.1@[0])@ == file@);
                    lemma_consumer_has_eq(self.consumers@, kv.0@, kv.1, file@);
                    assert(consumer_has(self.consumers@, kv.0@, file@));
                    assert forall|k: Seq<char>, x: Seq<char>|
                        #[trigger] consumer_has(pre, k, x) implies consumer_has(
                        self.consumers@,
                        k,
                        x,
                    ) by {
                        if k == kv.0@ {
                            assert(assoc(pre, k) is None);
                        } else {
                            assert(assoc(self.consumers@, k) == assoc(pre, k));
                        }
                    }
                    assert forall|k: Seq<char>, x: Seq<char>|
                        #[trigger] consumer_has(self.consumers@, k, x) implies consumer_has(
                        pre,
                        k,
                        x,
                    ) || (k == id_view && x == file@) by {
                        if k == kv.0@ {
                            lemma_consumer_has_eq(self.consumers@, kv.0@, kv.1, x);
                            let j0 = choose|j0: int|
                                0 <= j0 < kv.1@.len() && (#[trigger] kv.1@[j0])@ == x;
                            assert(x == (kv.1@[0])@);
                        } else {
                            assert(assoc(self.consumers@, k) == assoc(pre, k));
                        }
                    }
                }
            },
        }
    }

    /// The files that import the given symbol of the given package.
    pub fn get_consumers(&self, package: &String, symbol: &String) -> (r: Vec<String>)
        ensures
            match assoc(self.consumers@, symbol_id(package@, symbol@)) {
                Some(files) => r@.len() == files@.len() && forall|j: int|
                    0 <= j < files@.len() ==> (#[trigger] r@[j])@ == files@[j]@,
                None => r@.len() == 0,
            },
    {
        let id = make_symbol_id(package, symbol);
        match find_key(&self.consumers, &id) {
            Some(i) => {
                let src = &self.consumers[i].1;
                let mut r: Vec<String> = Vec::new();
                let mut j: usize = 0;
                while j < src.len()
                    invariant
                        src == &self.consumers@[i as int].1,
                        j <= src@.len(),
                        r@.len() == j,
                        forall|q: int| 0 <= q < j ==> (#[trigger] r@[q])@ == src@[q]@,
                    decreases src@.len() - j,
                {
                    r.push(src[j].clone());
                    j = j + 1;
                }
                r
            },
            None => Vec::new(),
        }
    }

    /// Every `(identifier, digest)` pair of the graph, file by file, with
    /// each file attributed to the first discovered package whose path
    /// prefixes it.
    pub fn get_all_symbols(&self) -> (r: Vec<(String, String)>)
        ensures
            pairs_view(r@) == all_entries(self.packages@, self.exports@),
    {
        let mut r: Vec<(String, String)> = Vec::new();
        proof {
            assert(self.exports@.subrange(0, 0) =~= Seq::<(String, Vec<Symbol>)>::empty());
            assert(pairs_view(r@) =~= all_entries(
                self.packages@,
                self.exports@.subrange(0, 0),
            ));
        }
        let mut i: usize = 0;
        while i < self.exports.len()
            invariant
                i <= self.exports@.len(),
                pairs_view(r@) == all_entries(self.packages@, self.exports@.subrange(0, i as int)),
            decreases self.exports@.len() - i,
        {
            let pkg = self.package_for(&self.exports[i].0);
            let syms = &self.exports[i].1;
            let ghost base = r@;
            let mut j: usize = 0;
            while j < syms.len()
                invariant
                    syms == &self.exports@[i as int].1,
                    pkg@ == pkg_name_for(self.packages@, self.exports@[i as int].0@),
                    j <= syms@.len(),
                    pairs_view(r@) == pairs_view(base) + file_entries(
                        pkg@,
                        syms@.subrange(0, j as int),
                    ),
                decreases syms@.len() - j,
            {
                let pair = (make_symbol_id(&pkg, &syms[j].name), syms[j].hash.clone());
                let ghost pairg = pair;
                let ghost prev = r@;
                r.push(pair);
                proof {
                    assert(r@ == prev.push(pairg));
                    assert(pairs_view(r@) =~= pairs_view(prev).push((pairg.0@, pairg.1@)));
                    assert((pairs_view(base) + file_entries(pkg@, syms@.subrange(0, j as int)))
                        .push((pairg.0@, pairg.1@)) =~= pairs_view(base) + file_entries(
                        pkg@,
                        syms@.subrange(0, j as int),
                    ).push((pairg.0@, pairg.1@)));
                    let sub = syms@.subrange(0, j + 1);
                    lemma_file_entries_push(pkg@, syms@.subrange(0, j as int), syms@[j as int]);
                    assert(sub =~= syms@.subrange(0, j as int).push(syms@[j as int]));
                    assert((pairg.0@, pairg.1@) == (
                        symbol_id(pkg@, syms@[j as int].name@),
                        syms@[j as int].hash@,
                    ));
                    assert(file_entries(pkg@, sub) =~= file_entries(
                        pkg@,
                        syms@.subrange(0, j as int),
                    ).push((pairg.0@, pairg.1@)));
                    assert(pairs_view(r@) =~= pairs_view(base) + file_entries(pkg@, sub));
                }
                j = j + 1;
            }
            proof {
                assert(syms@.subrange(0, syms@.len() as int) =~= syms@);
                let sub = self.exports@.subrange(0, i + 1);
                assert(sub =~= self.exports@.subrange(0, i as int).push(
                    self.exports@[i as int],
                ));
                lemma_all_entries_push(
                    self.packages@,
                    self.exports@.subrange(0, i as int),
                    self.exports@[i as int],
                );
                assert(pairs_view(r@) =~= all_entries(self.packages@, sub));
            }
            i = i + 1;
        }
        proof {
            assert(self.exports@.subrange(0, self.exports@.len() as int) =~= self.exports@);
        }
        r
    }

    /// The package name the file is attributed to.
    fn package_for(&self, path: &String) -> (r: String)
        ensures
            r@ == pkg_name_for(self.packages@, path@),
    {
        proof {
            assert(self.packages@.skip(0) =~= self.packages@);
        }
        let mut i: usize = 0;
        while i < self.packages.len()
            invariant
                i <= self.packages@.len(),
                pkg_name_for(self.packages@, path@) == pkg_name_for(
                    self.packages@.skip(i as int),
                    path@,
                ),
            decreases self.packages@.len() - i,
        {
            proof {
                assert(self.packages@.skip(i as int)[0] == self.packages@[i as int]);
            }
            if starts_with_string(path, &self.packages[i].1) {
                return self.packages[i].0.clone();
            }
            proof {
                assert(self.packages@.skip(i as int).drop_first() =~= self.packages@.skip(i + 1));
            }
            i = i + 1;
        }
        proof {
            assert(self.packages@.skip(self.packages@.len() as int).len() == 0);
        }
        path.clone()
    }

    /// The identifiers whose digest is new or changed relative to the given
    /// cache of a previous run.
    pub fn get_changed_symbols(&self, cache: &SymbolCache) -> (r: Vec<String>)
        ensures
            strs_view(r@) == changed_entries(
                all_entries(self.packages@, self.exports@),
                cache.hashes@,
            ),
    {
        let entries = self.get_all_symbols();
        let mut r: Vec<String> = Vec::new();
        proof {
            assert(pairs_view(entries@).subrange(0, 0) =~= Seq::<(Seq<char>, Seq<char>)>::empty());
            assert(strs_view(r@) =~= changed_entries(
                pairs_view(entries@).subrange(0, 0),
                cache.hashes@,
            ));
        }
        let mut i: usize = 0;
        while i < entries.len()
            invariant
                i <= entries@.len(),
                strs_view(r@) == changed_entries(
                    pairs_view(entries@).subrange(0, i as int),
                    cache.hashes@,
                ),
            decreases entries@.len() - i,
        {
            let ghost pre = r@;
            let keep = match find_key(&cache.hashes, &entries[i].0) {
                Some(ci) => !(cache.hashes[ci].1 == entries[i].1),
                None => true,
            };
            if keep {
                r.push(entries[i].0.clone());
            }
            proof {
                let pv = pairs_view(entries@);
                assert(pv[i as int] == (entries@[i as int].0@, entries@[i as int].1@));
                assert(pv.subrange(0, i + 1) =~= pv.subrange(0, i as int).push(pv[i as int]));
                lemma_changed_entries_push(pv.subrange(0, i as int), pv[i as int], cache.hashes@);
                if keep {
                    assert(strs_view(r@) =~= strs_view(pre).push(entries@[i as int].0@));
                }
                assert(strs_view(r@) =~= changed_entries(pv.subrange(0, i + 1), cache.hashes@));
            }
            i = i + 1;
        }
        proof {
            assert(pairs_view(entries@).subrange(0, pairs_view(entries@).len() as int)
                =~= pairs_view(entries@));
        }
        r
    }

    /// Every file that consumes at least one of the given symbols, without
    /// duplicates.
    #[verifier::loop_isolation(false)]
    #[verifier::rlimit(100)]
    pub fn get_affected_files(&self, changed: &Vec<String>) -> (r: Vec<String>)
        ensures
            forall|a: int, b: int|
                0 <= a < b < r@.len() ==> (#[trigger] r@[a])@ != (#[trigger] r@[b])@,
            forall|x: Seq<char>|
                #[trigger] contains_view(r@, x) <==> affected_by(self.consumers@, changed@, x),
    {
        let mut r: Vec<String> = Vec::new();
        proof {
            assert(changed@.subrange(0, 0) =~= Seq::<String>::empty());
            assert forall|x: Seq<char>| !(#[trigger] contains_view(r@, x)) by {}
            assert forall|x: Seq<char>|
                !affected_by(self.consumers@, changed@.subrange(0, 0), x) by {}
        }
        let mut i: usize = 0;
        while i < changed.len()
            invariant
                i <= changed@.len(),
                forall|a: int, b: int|
                    0 <= a < b < r@.len() ==> (#[trigger] r@[a])@ != (#[trigger] r@[b])@,
                forall|x: Seq<char>|
                    #[trigger] contains_view(r@, x) <==> affected_by(
                        self.consumers@,
                        changed@.subrange(0, i as int),
                        x,
                    ),
            decreases changed@.len() - i,
        {
            let ghost prefix = changed@.subrange(0, i as int);
            let ghost prefix1 = changed@.subrange(0, i + 1);
            proof {
                assert(prefix1 =~= prefix.push(changed@[i as int]));
                assert forall|x: Seq<char>|
                    affected_by(self.consumers@, prefix1, x) <==> (affected_by(
                        self.consumers@,
                        prefix,
                        x,
                    ) || consumer_has(self.consumers@, changed@[i as int]@, x)) by {
                    if affected_by(self.consumers@, prefix1, x) {
                        let i0 = choose|i0: int|
                            0 <= i0 < prefix1.len() && consumer_has(
                                self.consumers@,
                                (#[trigger] prefix1[i0])@,
                                x,
                            );
                        if i0 < prefix.len() {
                            assert(prefix[i0] == prefix1[i0]);
                        }
                    }
                    if affected_by(self.consumers@, prefix, x) {
                        let i0 = choose|i0: int|
                            0 <= i0 < prefix.len() && consumer_has(
                                self.consumers@,
                                (#[trigger] prefix[i0])@,
                                x,
                            );
                        assert(prefix1[i0] == prefix[i0]);
                    }
                    if consumer_has(self.consumers@, changed@[i as int]@, x) {
                        assert(prefix1[prefix1.len() - 1] == changed@[i as int]);
                    }
                }
            }
            match find_key(&self.consumers, &changed[i]) {
                Some(ci) => {
                    let files = &self.consumers[ci].1;
                    let mut j: usize = 0;
                    while j < files.len()
                        invariant
                            j <= files@.len(),
                            files == &self.consumers@[ci as int].1,
                            forall|a: int, b: int|
                                0 <= a < b < r@.len() ==> (#[trigger] r@[a])@ != (
                                #[trigger] r@[b])@,
                            forall|x: Seq<char>|
                                #[trigger] contains_view(r@, x) <==> (affected_by(
                                    self.consumers@,
                                    prefix,
                                    x,
                                ) || exists|j0: int|
                                    0 <= j0 < j && (#[trigger] files@[j0])@ == x),
                        decreases files@.len() - j,
                    {
                        let mut present: bool = false;
                        let mut q: usize = 0;
                        while q < r.len()
                            invariant
                                q <= r@.len(),
                                j < files@.len(),
                                present == exists|q0: int|
                                    0 <= q0 < q && (#[trigger] r@[q0])@ == files@[j as int]@,
                            decreases r@.len() - q,
                        {
                            if r[q] == files[j] {
                                present = true;
                                proof {
                                    assert((r@[q as int])@ == files@[j as int]@);
                                }
                            }
                            q = q + 1;
                        }
                        let ghost pre = r@;
                        if !present {
                            r.push(files[j].clone());
                        }
                        proof {
                            if present {
                                assert(contains_view(r@, files@[j as int]@));
                            } else {
                                assert((r@[r@.len() - 1])@ == files@[j as int]@);
                                assert(contains_view(r@, files@[j as int]@));
                                assert forall|a: int, b: int|
                                    0 <= a < b < r@.len() implies (#[trigger] r@[a])@ != (
                                #[trigger] r@[b])@ by {
                                    if b == r@.len() - 1 {
                                        assert(r@[a] == pre[a]);
                                        assert((pre[a])@ != files@[j as int]@) by {
                                            if (pre[a])@ == files@[j as int]@ {
                                                assert(exists|q0: int|
                                                    0 <= q0 < pre.len() && (#[trigger] pre[q0])@
                                                        == files@[j as int]@);
                                            }
                                        }
                                    } else {
                                        assert(r@[a] == pre[a] && r@[b] == pre[b]);
                                    }
                                }
                            }
                            assert forall|x: Seq<char>|
                                #[trigger] contains_view(r@, x) <==> (affected_by(
                                    self.consumers@,
                                    prefix,
                                    x,
                                ) || exists|j0: int|
                                    0 <= j0 < j + 1 && (#[trigger] files@[j0])@ == x) by {
                                if contains_view(r@, x) {
                                    let k = choose|k: int|
                                        0 <= k < r@.len() && (#[trigger] r@[k])@ == x;
                                    if k < pre.len() {
                                        assert(pre[k] == r@[k]);
                                        assert(contains_view(pre, x));
                                    } else {
                                        assert(x == files@[j as int]@);
                                    }
                                } else {
                                    assert(!contains_view(pre, x)) by {
                                        if contains_view(pre, x) {
                                            let k = choose|k: int|
                                                0 <= k < pre.len() && (#[trigger] pre[k])@ == x;
                                            assert(r@[k] == pre[k]);
                                        }
                                    }
                                }
                                if x == files@[j as int]@ {
                                    assert(contains_view(r@, x));
                                }
                            }
                        }
                        j = j + 1;
                    }
                    proof {
                        assert forall|x: Seq<char>|
                            #[trigger] contains_view(r@, x) <==> affected_by(
                                self.consumers@,
                                prefix1,
                                x,
                            ) by {
                            assert(assoc(self.consumers@, changed@[i as int]@) == Some(
                                self.consumers@[ci as int].1,
                            ));
                            lemma_consumer_has_eq(
                                self.consumers@,
                                changed@[i as int]@,
                                self.consumers@[ci as int].1,
                                x,
                            );
                            assert(*files == self.consumers@[ci as int].1);
                            assert(files@ == self.consumers@[ci as int].1@);
                            assert(consumer_has(self.consumers@, changed@[i as int]@, x) == (
                            exists|j0: int|
                                0 <= j0 < files@.len() && (#[trigger] files@[j0])@ == x));
                            assert(contains_view(r@, x) <==> (affected_by(
                                self.consumers@,
                                prefix,
                                x,
                            ) || exists|j0: int|
                                0 <= j0 < files@.len() && (#[trigger] files@[j0])@ == x));
                            assert(affected_by(self.consumers@, prefix1, x) <==> (affected_by(
                                self.consumers@,
                                prefix,
                                x,
                            ) || consumer_has(self.consumers@, changed@[i as int]@, x)));
                        }
                    }
                },
                None => {
                    proof {
                        assert forall|x: Seq<char>|
                            #[trigger] contains_view(r@, x) <==> affected_by(
                                self.consumers@,
                                prefix1,
                                x,
                            ) by {
                            assert(!consumer_has(self.consumers@, changed@[i as int]@, x));
                        }
                    }
                },
            }
            i = i + 1;
        }
        proof {
            assert(changed@.subrange(0, changed@.len() as int) =~= changed@);
        }
        r
    }

    /// A digest cache holding exactly the graph's current entries, in
    /// storage order; a lookup returns the first entry under an identifier.
    pub fn to_cache(&self) -> (r: SymbolCache)
        ensures
            pairs_view(r.hashes@) == all_entries(self.packages@, self.exports@),
    {
        SymbolCache { hashes: self.get_all_symbols() }
    }

    /// Package, symbol and consumer-link counts; the symbol count is the
    /// total across all recorded files whenever that total fits the machine.
    #[verifier::loop_isolation(false)]
    pub fn stats(&self) -> (r: (usize, usize, usize))
        ensures
            r.0 == self.packages@.len(),
            total_syms(self.exports@) <= usize::MAX ==> r.1 == total_syms(self.exports@),
            r.2 == self.consumers@.len(),
    {
        let mut symbols: usize = 0;
        proof {
            assert(self.exports@.subrange(0, 0) =~= Seq::<(String, Vec<Symbol>)>::empty());
        }
        let mut i: usize = 0;
        while i < self.exports.len()
            invariant
                i <= self.exports@.len(),
                symbols as int <= total_syms(self.exports@.subrange(0, i as int)),
                symbols as int == total_syms(self.exports@.subrange(0, i as int)) || total_syms(
                    self.exports@.subrange(0, i as int),
                ) > usize::MAX,
            decreases self.exports@.len() - i,
        {
            let n = self.exports[i].1.len();
            proof {
                let sub = self.exports@.subrange(0, i + 1);
                assert(sub.drop_last() =~= self.exports@.subrange(0, i as int));
                assert(sub.last() == self.exports@[i as int]);
            }
            if symbols <= usize::MAX - n {
                symbols = symbols + n;
            }
            i = i + 1;
        }
        proof {
            assert(self.exports@.subrange(0, self.exports@.len() as int) =~= self.exports@);
        }
        (self.packages.len(), symbols, self.consumers.len())
    }
}

/// Total number of symbols recorded across all files.
pub open spec fn total_syms(s: Seq<(String, Vec<Symbol>)>) -> int
    decreases s,
{
    if s.len() == 0 {
        0
    } else {
        total_syms(s.drop_last()) + s.last().1@.len()
    }
}

/// Appending a symbol extends a file's entries at the end.
proof fn lemma_file_entries_push(pkg: Seq<char>, syms: Seq<Symbol>, x: Symbol)
    ensures
        file_entries(pkg, syms.push(x)) == file_entries(pkg, syms) + seq![
            (symbol_id(pkg, x.name@), x.hash@),
        ],
    decreases syms.len(),
{
    if syms.len() == 0 {
        assert(syms.push(x)[0] == x);
        assert(syms.push(x).drop_first() =~= Seq::<Symbol>::empty());
        assert(syms.push(x).len() == 1);
        assert(file_entries(pkg, syms.push(x)) == seq![
            (symbol_id(pkg, syms.push(x)[0].name@), syms.push(x)[0].hash@),
        ] + file_entries(pkg, syms.push(x).drop_first()));
        assert(file_entries(pkg, Seq::<Symbol>::empty()) == Seq::<(Seq<char>, Seq<char>)>::empty());
        assert(file_entries(pkg, syms.push(x)) =~= file_entries(pkg, syms) + seq![
            (symbol_id(pkg, x.name@), x.hash@),
        ]);
    } else {
        assert(syms.push(x)[0] == syms[0]);
        assert(syms.push(x).drop_first() =~= syms.drop_first().push(x));
        lemma_file_entries_push(pkg, syms.drop_first(), x);
        assert(file_entries(pkg, syms.push(x)) =~= file_entries(pkg, syms) + seq![
            (symbol_id(pkg, x.name@), x.hash@),
        ]);
    }
}

/// Appending a file extends the entry list at the end.
proof fn lemma_all_entries_push(
    pkgs: Seq<(String, String)>,
    exports: Seq<(String, Vec<Symbol>)>,
    x: (String, Vec<Symbol>),
)
    ensures
        all_entries(pkgs, exports.push(x)) == all_entries(pkgs, exports) + file_entries(
            pkg_name_for(pkgs, x.0@),
            x.1@,
        ),
    decreases exports.len(),
{
    if exports.len() == 0 {
        assert(exports.push(x)[0] == x);
        assert(exports.push(x).drop_first() =~= Seq::<(String, Vec<Symbol>)>::empty());
        assert(exports.push(x).len() == 1);
        assert(all_entries(pkgs, exports.push(x)) == file_entries(
            pkg_name_for(pkgs, exports.push(x)[0].0@),
            exports.push(x)[0].1@,
        ) + all_entries(pkgs, exports.push(x).drop_first()));
        assert(all_entries(pkgs, Seq::<(String, Vec<Symbol>)>::empty()) == Seq::<(
            Seq<char>,
            Seq<char>,
        )>::empty());
        assert(all_entries(pkgs, exports.push(x)) =~= all_entries(pkgs, exports) + file_entries(
            pkg_name_for(pkgs, x.0@),
            x.1@,
        ));
    } else {
        assert(exports.push(x)[0] == exports[0]);
        assert(exports.push(x).drop_first() =~= exports.drop_first().push(x));
        lemma_all_entries_push(pkgs, exports.drop_first(), x);
        assert(all_entries(pkgs, exports.push(x)) =~= all_entries(pkgs, exports) + file_entries(
            pkg_name_for(pkgs, x.0@),
            x.1@,
        ));
    }
}

/// Appending an entry extends the changed list at the end.
proof fn lemma_changed_entries_push(
    entries: Seq<(Seq<char>, Seq<char>)>,
    x: (Seq<char>, Seq<char>),
    cache: Seq<(String, String)>,
)
    ensures
        changed_entries(entries.push(x), cache) == changed_entries(entries, cache) + (match assoc(
            cache,
            x.0,
        ) {
            Some(h) => if h@ == x.1 {
                Seq::<Seq<char>>::empty()
            } else {
                seq![x.0]
            },
            None => seq![x.0],
        }),
    decreases entries.len(),
{
    if entries.len() == 0 {
        assert(entries.push(x)[0] == x);
        assert(entries.push(x).drop_first() =~= Seq::<(Seq<char>, Seq<char>)>::empty());
        assert(entries.push(x).len() == 1);
        assert(changed_entries(entries.push(x), cache) == (match assoc(
            cache,
            entries.push(x)[0].0,
        ) {
            Some(h) => if h@ == entries.push(x)[0].1 {
                Seq::<Seq<char>>::empty()
            } else {
                seq![entries.push(x)[0].0]
            },
            None => seq![entries.push(x)[0].0],
        }) + changed_entries(entries.push(x).drop_first(), cache));
        assert(changed_entries(Seq::<(Seq<char>, Seq<char>)>::empty(), cache) == Seq::<
            Seq<char>,
        >::empty());
        assert(changed_entries(entries.push(x), cache) =~= changed_entries(entries, cache) + (
        match assoc(cache, x.0) {
            Some(h) => if h@ == x.1 {
                Seq::<Seq<char>>::empty()
            } else {
                seq![x.0]
            },
            None => seq![x.0],
        }));
    } else {
        assert(entries.push(x)[0] == entries[0]);
        assert(entries.push(x).drop_first() =~= entries.drop_first().push(x));
        lemma_changed_entries_push(entries.drop_first(), x, cache);
        assert(changed_entries(entries.push(x), cache) =~= changed_entries(entries, cache) + (
        match assoc(cache, x.0) {
            Some(h) => if h@ == x.1 {
                Seq::<Seq<char>>::empty()
            } else {
                seq![x.0]
            },
            None => seq![x.0],
        }));
    }
}

} // verus!

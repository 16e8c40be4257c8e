//! Loading `.symtypes` streams — single-file or consolidated — into a corpus.

use vstd::prelude::*;

use crate::sym::{
    classify, intern_spec, is_export_name, is_file_decl_name, nameidx_contains, nameidx_get,
    nameidx_map, nameidx_set, types_map, variants_view, CorpusM, FileM, NameIdx, SymCorpus, Token,
    TokenM,
    SymFile, TypeEntry,
};
use crate::text::{dec_str, last_at_idx, spec_split_lines, spec_words, split_lines, split_words};

verus! {

// ---------------------------------------------------------------------------
// Error messages
// ---------------------------------------------------------------------------

/// `"<path>:<line>: <detail>"`.
pub open spec fn err_msg(path: Seq<char>, ln: int, detail: Seq<char>) -> Seq<char> {
    path + seq![':'] + dec_str(ln as nat) + seq![':', ' '] + detail
}

pub open spec fn detail_expected_name() -> Seq<char> {
    "Expected a record name"@
}

pub open spec fn detail_dup(name: Seq<char>) -> Seq<char> {
    "Duplicate record '"@ + name + "'"@
}

pub open spec fn detail_tag_single(name: Seq<char>) -> Seq<char> {
    "Unexpected variant suffix in record '"@ + name + "'"@
}

pub open spec fn detail_unknown(tok: Seq<char>) -> Seq<char> {
    "Type "@ + tok + " is not known"@
}

pub open spec fn detail_multi(name: Seq<char>) -> Seq<char> {
    "Type "@ + name + " is implicitly referenced but has multiple variants"@
}

// ---------------------------------------------------------------------------
// Name and tag parsing
// ---------------------------------------------------------------------------

/// Splits an optional `@<tag>` suffix off a record name, at the last `'@'`.
pub open spec fn tag_split(n: Seq<char>) -> (Seq<char>, Option<Seq<char>>) {
    let k = last_at_idx(n);
    if k >= 0 {
        (n.take(k), Some(n.skip(k + 1)))
    } else {
        (n, None)
    }
}

/// The tag under which a record is filed: the empty string when none is
/// written.
pub open spec fn tag_str(t: Option<Seq<char>>) -> Seq<char> {
    match t {
        Some(s) => s,
        None => Seq::empty(),
    }
}

/// The tokens of a record line: every word but the head, classified.
pub open spec fn line_tokens(ws: Seq<Seq<char>>) -> Seq<TokenM> {
    ws.skip(1).map_values(|w: Seq<char>| classify(w))
}

// ---------------------------------------------------------------------------
// Reading type records (every line that is not an `F#` record)
// ---------------------------------------------------------------------------

/// The state while type records are read: the growing type table, the
/// per-stream variant-tag remapping, and — for a single-file input — the
/// file's records and exports.
pub struct TyState {
    pub types: Map<Seq<char>, Seq<Seq<TokenM>>>,
    pub remap: Map<Seq<char>, Map<Seq<char>, int>>,
    pub records: Map<Seq<char>, int>,
    pub expos: Set<Seq<char>>,
}

/// Reads one type record line.
pub open spec fn ty_step(st: TyState, line: Seq<char>, path: Seq<char>, ln: int, cons: bool) -> Result<
    TyState,
    Seq<char>,
> {
    let ws = spec_words(line);
    if ws.len() == 0 {
        Err(err_msg(path, ln, detail_expected_name()))
    } else {
        let name = ws[0];
        let toks = line_tokens(ws);
        let (base, tag) = tag_split(name);
        if !cons && tag is Some {
            Err(err_msg(path, ln, detail_tag_single(name)))
        } else if !cons && st.records.contains_key(base) {
            Err(err_msg(path, ln, detail_dup(base)))
        } else {
            let (types2, idx) = intern_spec(st.types, base, toks);
            if cons {
                let tags0 = if st.remap.contains_key(base) {
                    st.remap[base]
                } else {
                    Map::empty()
                };
                Ok(
                    TyState {
                        types: types2,
                        remap: st.remap.insert(base, tags0.insert(tag_str(tag), idx)),
                        records: st.records,
                        expos: st.expos,
                    },
                )
            } else {
                Ok(
                    TyState {
                        types: types2,
                        remap: st.remap,
                        records: st.records.insert(base, idx),
                        expos: if is_export_name(base) {
                            st.expos.insert(base)
                        } else {
                            st.expos
                        },
                    },
                )
            }
        }
    }
}

/// Reads all type record lines in order, skipping `F#` lines; `ln` is the
/// 1-based number of the first line.
pub open spec fn ty_fold(
    st: TyState,
    lines: Seq<Seq<char>>,
    path: Seq<char>,
    ln: int,
    cons: bool,
) -> Result<TyState, Seq<char>>
    decreases lines.len(),
{
    if lines.len() == 0 {
        Ok(st)
    } else if is_file_decl_name(lines.first()) {
        ty_fold(st, lines.drop_first(), path, ln + 1, cons)
    } else {
        match ty_step(st, lines.first(), path, ln, cons) {
            Ok(st2) => ty_fold(st2, lines.drop_first(), path, ln + 1, cons),
            Err(e) => Err(e),
        }
    }
}

// ---------------------------------------------------------------------------
// Reading `F#` records
// ---------------------------------------------------------------------------

/// Resolves the explicit tokens of an `F#` record, from word `j` on,
/// gathering the file's records, the order in which new names appeared, and
/// the export table.
pub open spec fn fs_toks(
    remap: Map<Seq<char>, Map<Seq<char>, int>>,
    records: Map<Seq<char>, int>,
    order: Seq<Seq<char>>,
    exports: Map<Seq<char>, int>,
    fidx: int,
    ws: Seq<Seq<char>>,
    j: int,
) -> Result<(Map<Seq<char>, int>, Seq<Seq<char>>, Map<Seq<char>, int>), Seq<char>>
    decreases ws.len() - j,
{
    if j < 1 || j >= ws.len() {
        Ok((records, order, exports))
    } else {
        let w = ws[j];
        let (base, tag) = tag_split(w);
        let tg = tag_str(tag);
        if !(remap.contains_key(base) && remap[base].contains_key(tg)) {
            Err(detail_unknown(w))
        } else {
            let idx = remap[base][tg];
            let order2 = if records.contains_key(base) {
                order
            } else {
                order.push(base)
            };
            let records2 = records.insert(base, idx);
            let exports2 = if is_export_name(base) {
                exports.insert(base, fidx)
            } else {
                exports
            };
            fs_toks(remap, records2, order2, exports2, fidx, ws, j + 1)
        }
    }
}

/// Adds the implicit references of the tokens of one record: any referenced
/// name not yet recorded must have exactly one variant corpus-wide and is
/// recorded at variant index `0`.
pub open spec fn expand_refs(
    types: Map<Seq<char>, Seq<Seq<TokenM>>>,
    records: Map<Seq<char>, int>,
    order: Seq<Seq<char>>,
    toks: Seq<TokenM>,
    j: int,
) -> Result<(Map<Seq<char>, int>, Seq<Seq<char>>), Seq<char>>
    decreases toks.len() - j,
{
    if j < 0 || j >= toks.len() {
        Ok((records, order))
    } else {
        let t = toks[j];
        if !t.is_ref() {
            expand_refs(types, records, order, toks, j + 1)
        } else {
            let r = t.word();
            if records.contains_key(r) {
                expand_refs(types, records, order, toks, j + 1)
            } else if !types.contains_key(r) {
                Err(detail_unknown(r))
            } else if types[r].len() != 1 {
                Err(detail_multi(r))
            } else {
                expand_refs(types, records.insert(r, 0), order.push(r), toks, j + 1)
            }
        }
    }
}

/// Walks the records named by `order` from position `i` on, expanding
/// implicit references until no name is left; `fuel` bounds the walk and is
/// chosen large enough that it never runs out on a reachable state.
pub open spec fn expand_rec(
    types: Map<Seq<char>, Seq<Seq<TokenM>>>,
    records: Map<Seq<char>, int>,
    order: Seq<Seq<char>>,
    i: int,
    fuel: nat,
) -> Result<Map<Seq<char>, int>, Seq<char>>
    decreases fuel,
{
    if i < 0 || i >= order.len() {
        Ok(records)
    } else if fuel == 0 {
        Ok(records)
    } else {
        let n = order[i];
        if !records.contains_key(n) || !types.contains_key(n) || !(0 <= records[n]
            < types[n].len()) {
            Ok(records)
        } else {
            match expand_refs(types, records, order, types[n][records[n]], 0) {
                Ok((rec2, ord2)) => expand_rec(types, rec2, ord2, i + 1, (fuel - 1) as nat),
                Err(e) => Err(e),
            }
        }
    }
}

/// The fuel that [`expand_rec`] starts with.
pub open spec fn expand_fuel(types: Map<Seq<char>, Seq<Seq<TokenM>>>, order: Seq<Seq<char>>) -> nat {
    types.dom().len() + order.len()
}

/// The state while `F#` records are read: all files (existing and new), the
/// export table, and the file names already declared in this stream.
pub struct FsState {
    pub files: Seq<FileM>,
    pub exports: Map<Seq<char>, int>,
    pub seen: Set<Seq<char>>,
}

/// Reads one `F#` record line.
pub open spec fn fs_line(
    types: Map<Seq<char>, Seq<Seq<TokenM>>>,
    remap: Map<Seq<char>, Map<Seq<char>, int>>,
    st: FsState,
    line: Seq<char>,
    path: Seq<char>,
    ln: int,
) -> Result<FsState, Seq<char>> {
    let ws = spec_words(line);
    let w0 = ws[0];
    let fname = w0.skip(2);
    if st.seen.contains(fname) {
        Err(err_msg(path, ln, detail_dup(w0)))
    } else {
        let fidx = st.files.len() as int;
        match fs_toks(remap, Map::empty(), Seq::empty(), st.exports, fidx, ws, 1) {
            Err(d) => Err(err_msg(path, ln, d)),
            Ok((rec0, ord0, exp2)) => match expand_rec(
                types,
                rec0,
                ord0,
                0,
                expand_fuel(types, ord0),
            ) {
                Err(d) => Err(err_msg(path, ln, d)),
                Ok(rec1) => Ok(
                    FsState {
                        files: st.files.push(FileM { path: fname, records: rec1 }),
                        exports: exp2,
                        seen: st.seen.insert(fname),
                    },
                ),
            },
        }
    }
}

/// Reads all `F#` record lines in order.
pub open spec fn fs_fold(
    types: Map<Seq<char>, Seq<Seq<TokenM>>>,
    remap: Map<Seq<char>, Map<Seq<char>, int>>,
    st: FsState,
    lines: Seq<Seq<char>>,
    path: Seq<char>,
    ln: int,
) -> Result<FsState, Seq<char>>
    decreases lines.len(),
{
    if lines.len() == 0 {
        Ok(st)
    } else if !is_file_decl_name(lines.first()) {
        fs_fold(types, remap, st, lines.drop_first(), path, ln + 1)
    } else {
        match fs_line(types, remap, st, lines.first(), path, ln) {
            Ok(st2) => fs_fold(types, remap, st2, lines.drop_first(), path, ln + 1),
            Err(e) => Err(e),
        }
    }
}

// ---------------------------------------------------------------------------
// The whole load
// ---------------------------------------------------------------------------

/// A stream is consolidated iff some line starts with `F#`.
pub open spec fn is_consolidated(lines: Seq<Seq<char>>) -> bool {
    exists|i: int| 0 <= i < lines.len() && is_file_decl_name(#[trigger] lines[i])
}

/// What loading one decoded stream does to a corpus: the corpus after the
/// load, or the message of the first parse error.
pub open spec fn load_spec(c: CorpusM, path: Seq<char>, text: Seq<char>) -> Result<
    CorpusM,
    Seq<char>,
> {
    let lines = spec_split_lines(text);
    let cons = is_consolidated(lines);
    let st0 = TyState {
        types: c.types,
        remap: Map::empty(),
        records: Map::empty(),
        expos: Set::empty(),
    };
    match ty_fold(st0, lines, path, 1, cons) {
        Err(e) => Err(e),
        Ok(st) => if cons {
            let f0 = FsState { files: c.files, exports: c.exports, seen: Set::empty() };
            match fs_fold(st.types, st.remap, f0, lines, path, 1) {
                Err(e) => Err(e),
                Ok(fst) => Ok(CorpusM { types: st.types, exports: fst.exports, files: fst.files }),
            }
        } else {
            let nf = c.files.len() as int;
            let newexp = Map::new(
                |k: Seq<char>| c.exports.contains_key(k) || st.expos.contains(k),
                |k: Seq<char>|
                    if st.expos.contains(k) {
                        nf
                    } else {
                        c.exports[k]
                    },
            );
            Ok(
                CorpusM {
                    types: st.types,
                    exports: newexp,
                    files: c.files.push(FileM { path: path, records: st.records }),
                },
            )
        },
    }
}

// ---------------------------------------------------------------------------
// Variant deduplication
// ---------------------------------------------------------------------------

/// Every known name has at least one variant and no two equal ones.
pub open spec fn types_wf(tm: Map<Seq<char>, Seq<Seq<TokenM>>>) -> bool {
    forall|n: Seq<char>| #[trigger] tm.contains_key(n) ==> crate::sym::variants_wf(tm[n])
}

proof fn lemma_ty_step_types_wf(st: TyState, line: Seq<char>, path: Seq<char>, ln: int, cons: bool)
    requires
        types_wf(st.types),
        ty_step(st, line, path, ln, cons) is Ok,
    ensures
        types_wf(ty_step(st, line, path, ln, cons)->Ok_0.types),
{
    let ws = spec_words(line);
    let (base, _) = tag_split(ws[0]);
    crate::sym::lemma_intern_spec(st.types, base, line_tokens(ws));
}

proof fn lemma_ty_fold_types_wf(
    st: TyState,
    lines: Seq<Seq<char>>,
    path: Seq<char>,
    ln: int,
    cons: bool,
)
    requires
        types_wf(st.types),
        ty_fold(st, lines, path, ln, cons) is Ok,
    ensures
        types_wf(ty_fold(st, lines, path, ln, cons)->Ok_0.types),
    decreases lines.len(),
{
    if lines.len() == 0 {
    } else if is_file_decl_name(lines.first()) {
        lemma_ty_fold_types_wf(st, lines.drop_first(), path, ln + 1, cons);
    } else {
        let r = ty_step(st, lines.first(), path, ln, cons);
        match r {
            Ok(st2) => {
                lemma_ty_step_types_wf(st, lines.first(), path, ln, cons);
                lemma_ty_fold_types_wf(st2, lines.drop_first(), path, ln + 1, cons);
            },
            Err(_) => {},
        }
    }
}

/// Variant deduplication: whatever inputs are loaded, no type name ever
/// carries two elementwise-equal variants.
pub proof fn lemma_load_variants_distinct(c: CorpusM, path: Seq<char>, text: Seq<char>)
    requires
        types_wf(c.types),
        load_spec(c, path, text) is Ok,
    ensures
        types_wf(load_spec(c, path, text)->Ok_0.types),
{
    let lines = spec_split_lines(text);
    let cons = is_consolidated(lines);
    let st0 = TyState {
        types: c.types,
        remap: Map::empty(),
        records: Map::empty(),
        expos: Set::empty(),
    };
    lemma_ty_fold_types_wf(st0, lines, path, 1, cons);
}

// ---------------------------------------------------------------------------
// Corpus invariants through loading
// ---------------------------------------------------------------------------

/// Every remap binding names a known type and a valid variant of it.
pub open spec fn remap_valid(
    tm: Map<Seq<char>, Seq<Seq<TokenM>>>,
    remap: Map<Seq<char>, Map<Seq<char>, int>>,
) -> bool {
    forall|n: Seq<char>| #[trigger]
        remap.contains_key(n) ==> tm.contains_key(n) && (forall|t: Seq<char>| #[trigger]
            remap[n].contains_key(t) ==> 0 <= remap[n][t] < tm[n].len())
}

/// Every record names a known type and a valid variant of it.
pub open spec fn records_valid(
    tm: Map<Seq<char>, Seq<Seq<TokenM>>>,
    recs: Map<Seq<char>, int>,
) -> bool {
    forall|n: Seq<char>| #[trigger]
        recs.contains_key(n) ==> tm.contains_key(n) && 0 <= recs[n] < tm[n].len()
}

/// The type table only ever grows, and existing variants keep their places.
pub open spec fn types_extends(
    a: Map<Seq<char>, Seq<Seq<TokenM>>>,
    b: Map<Seq<char>, Seq<Seq<TokenM>>>,
) -> bool {
    forall|n: Seq<char>| #[trigger]
        a.contains_key(n) ==> b.contains_key(n) && a[n].len() <= b[n].len() && (forall|j: int|
            0 <= j < a[n].len() ==> b[n][j] == #[trigger] a[n][j])
}

pub open spec fn tystate_inv(st: TyState) -> bool {
    &&& types_wf(st.types)
    &&& remap_valid(st.types, st.remap)
    &&& records_valid(st.types, st.records)
    &&& forall|n: Seq<char>| #[trigger] st.expos.contains(n) ==> st.records.contains_key(n)
}

proof fn lemma_ty_step_inv(st: TyState, line: Seq<char>, path: Seq<char>, ln: int, cons: bool)
    requires
        tystate_inv(st),
        ty_step(st, line, path, ln, cons) is Ok,
    ensures
        tystate_inv(ty_step(st, line, path, ln, cons)->Ok_0),
        types_extends(st.types, ty_step(st, line, path, ln, cons)->Ok_0.types),
{
    let ws = spec_words(line);
    let (base, _) = tag_split(ws[0]);
    crate::sym::lemma_intern_spec(st.types, base, line_tokens(ws));
}

proof fn lemma_types_extends_trans(
    a: Map<Seq<char>, Seq<Seq<TokenM>>>,
    b: Map<Seq<char>, Seq<Seq<TokenM>>>,
    c: Map<Seq<char>, Seq<Seq<TokenM>>>,
)
    requires
        types_extends(a, b),
        types_extends(b, c),
    ensures
        types_extends(a, c),
{
}

proof fn lemma_ty_fold_inv(
    st: TyState,
    lines: Seq<Seq<char>>,
    path: Seq<char>,
    ln: int,
    cons: bool,
)
    requires
        tystate_inv(st),
        ty_fold(st, lines, path, ln, cons) is Ok,
    ensures
        tystate_inv(ty_fold(st, lines, path, ln, cons)->Ok_0),
        types_extends(st.types, ty_fold(st, lines, path, ln, cons)->Ok_0.types),
    decreases lines.len(),
{
    if lines.len() == 0 {
    } else if is_file_decl_name(lines.first()) {
        lemma_ty_fold_inv(st, lines.drop_first(), path, ln + 1, cons);
    } else {
        match ty_step(st, lines.first(), path, ln, cons) {
            Ok(st2) => {
                lemma_ty_step_inv(st, lines.first(), path, ln, cons);
                lemma_ty_fold_inv(st2, lines.drop_first(), path, ln + 1, cons);
                lemma_types_extends_trans(
                    st.types,
                    st2.types,
                    ty_fold(st, lines, path, ln, cons)->Ok_0.types,
                );
            },
            Err(_) => {},
        }
    }
}

proof fn lemma_fs_toks_valid(
    tm: Map<Seq<char>, Seq<Seq<TokenM>>>,
    remap: Map<Seq<char>, Map<Seq<char>, int>>,
    records: Map<Seq<char>, int>,
    order: Seq<Seq<char>>,
    exports: Map<Seq<char>, int>,
    fidx: int,
    ws: Seq<Seq<char>>,
    j: int,
)
    requires
        remap_valid(tm, remap),
        records_valid(tm, records),
        fs_toks(remap, records, order, exports, fidx, ws, j) is Ok,
    ensures
        ({
            let (r2, o2, e2) = fs_toks(remap, records, order, exports, fidx, ws, j)->Ok_0;
            &&& records_valid(tm, r2)
            &&& forall|k: Seq<char>| #[trigger] records.contains_key(k) ==> r2.contains_key(k)
            &&& forall|k: Seq<char>| #[trigger]
                e2.contains_key(k) ==> ((exports.contains_key(k) && e2[k] == exports[k]) || (e2[k]
                    == fidx && r2.contains_key(k)))
        }),
    decreases ws.len() - j,
{
    if j < 1 || j >= ws.len() {
    } else {
        let w = ws[j];
        let (base, tag) = tag_split(w);
        let tg = tag_str(tag);
        if remap.contains_key(base) && remap[base].contains_key(tg) {
            let idx = remap[base][tg];
            let order2 = if records.contains_key(base) {
                order
            } else {
                order.push(base)
            };
            let records2 = records.insert(base, idx);
            let exports2 = if is_export_name(base) {
                exports.insert(base, fidx)
            } else {
                exports
            };
            assert(records_valid(tm, records2)) by {
                assert(remap.contains_key(base));
                assert(remap[base].contains_key(tg));
            }
            lemma_fs_toks_valid(tm, remap, records2, order2, exports2, fidx, ws, j + 1);
            let (r2, o2, e2) = fs_toks(remap, records, order, exports, fidx, ws, j)->Ok_0;
            assert forall|k: Seq<char>| #[trigger] records.contains_key(k) implies r2.contains_key(
                k,
            ) by {
                assert(records2.contains_key(k));
            }
            assert forall|k: Seq<char>| #[trigger] e2.contains_key(k) implies ((exports.contains_key(
                k,
            ) && e2[k] == exports[k]) || (e2[k] == fidx && r2.contains_key(k))) by {
                if exports2.contains_key(k) && e2[k] == exports2[k] {
                    if is_export_name(base) && k == base {
                        assert(e2[k] == fidx);
                        assert(records2.contains_key(base));
                        assert(r2.contains_key(base));
                    }
                }
            }
        }
    }
}

proof fn lemma_expand_refs_valid(
    tm: Map<Seq<char>, Seq<Seq<TokenM>>>,
    records: Map<Seq<char>, int>,
    order: Seq<Seq<char>>,
    toks: Seq<TokenM>,
    j: int,
)
    requires
        records_valid(tm, records),
        expand_refs(tm, records, order, toks, j) is Ok,
    ensures
        ({
            let (r2, o2) = expand_refs(tm, records, order, toks, j)->Ok_0;
            &&& records_valid(tm, r2)
            &&& forall|k: Seq<char>| #[trigger] records.contains_key(k) ==> r2.contains_key(k)
                && r2[k] == records[k]
        }),
    decreases toks.len() - j,
{
    if j < 0 || j >= toks.len() {
    } else {
        let t = toks[j];
        if !t.is_ref() {
            lemma_expand_refs_valid(tm, records, order, toks, j + 1);
        } else {
            let r = t.word();
            if records.contains_key(r) {
                lemma_expand_refs_valid(tm, records, order, toks, j + 1);
            } else if tm.contains_key(r) && tm[r].len() == 1 {
                lemma_expand_refs_valid(tm, records.insert(r, 0), order.push(r), toks, j + 1);
                let (r2, o2) = expand_refs(tm, records, order, toks, j)->Ok_0;
                assert forall|k: Seq<char>| #[trigger] records.contains_key(k) implies r2.contains_key(
                    k,
                ) && r2[k] == records[k] by {
                    assert(records.insert(r, 0).contains_key(k));
                    assert(records.insert(r, 0)[k] == records[k]);
                }
            }
        }
    }
}

proof fn lemma_expand_rec_valid(
    tm: Map<Seq<char>, Seq<Seq<TokenM>>>,
    records: Map<Seq<char>, int>,
    order: Seq<Seq<char>>,
    i: int,
    fuel: nat,
)
    requires
        records_valid(tm, records),
        expand_rec(tm, records, order, i, fuel) is Ok,
    ensures
        ({
            let r2 = expand_rec(tm, records, order, i, fuel)->Ok_0;
            &&& records_valid(tm, r2)
            &&& forall|k: Seq<char>| #[trigger] records.contains_key(k) ==> r2.contains_key(k)
                && r2[k] == records[k]
        }),
    decreases fuel,
{
    if i < 0 || i >= order.len() || fuel == 0 {
    } else {
        let n = order[i];
        if records.contains_key(n) && tm.contains_key(n) && 0 <= records[n] < tm[n].len() {
            match expand_refs(tm, records, order, tm[n][records[n]], 0) {
                Ok((rec2, ord2)) => {
                    lemma_expand_refs_valid(tm, records, order, tm[n][records[n]], 0);
                    lemma_expand_rec_valid(tm, rec2, ord2, i + 1, (fuel - 1) as nat);
                },
                Err(_) => {},
            }
        }
    }
}

/// The invariants of the file-reading phase: every file resolves in the type
/// table, and every export names a file that records it.
pub open spec fn fsstate_inv(tm: Map<Seq<char>, Seq<Seq<TokenM>>>, fst: FsState) -> bool {
    &&& forall|i: int|
        0 <= i < fst.files.len() ==> records_valid(tm, (#[trigger] fst.files[i]).records)
    &&& forall|n: Seq<char>| #[trigger]
        fst.exports.contains_key(n) ==> 0 <= fst.exports[n] < fst.files.len()
            && fst.files[fst.exports[n]].records.contains_key(n)
}

proof fn lemma_fs_line_inv(
    tm: Map<Seq<char>, Seq<Seq<TokenM>>>,
    remap: Map<Seq<char>, Map<Seq<char>, int>>,
    fst: FsState,
    line: Seq<char>,
    path: Seq<char>,
    ln: int,
)
    requires
        remap_valid(tm, remap),
        fsstate_inv(tm, fst),
        fs_line(tm, remap, fst, line, path, ln) is Ok,
    ensures
        fsstate_inv(tm, fs_line(tm, remap, fst, line, path, ln)->Ok_0),
{
    let ws = spec_words(line);
    let fidx = fst.files.len() as int;
    match fs_toks(remap, Map::empty(), Seq::empty(), fst.exports, fidx, ws, 1) {
        Err(_) => {},
        Ok((rec0, ord0, exp2)) => {
            assert(records_valid(tm, Map::<Seq<char>, int>::empty()));
            lemma_fs_toks_valid(tm, remap, Map::empty(), Seq::empty(), fst.exports, fidx, ws, 1);
            match expand_rec(tm, rec0, ord0, 0, expand_fuel(tm, ord0)) {
                Err(_) => {},
                Ok(rec1) => {
                    lemma_expand_rec_valid(tm, rec0, ord0, 0, expand_fuel(tm, ord0));
                    let fst2 = fs_line(tm, remap, fst, line, path, ln)->Ok_0;
                    assert(fst2.files.last().records == rec1);
                    assert forall|n: Seq<char>| #[trigger]
                        fst2.exports.contains_key(n) implies 0 <= fst2.exports[n]
                        < fst2.files.len() && fst2.files[fst2.exports[n]].records.contains_key(
                        n,
                    ) by {
                        if fst.exports.contains_key(n) && fst2.exports[n] == fst.exports[n] {
                            assert(fst2.files[fst2.exports[n]] == fst.files[fst.exports[n]]);
                        } else {
                            assert(fst2.exports[n] == fidx && rec0.contains_key(n));
                            assert(fst2.files[fidx] == fst2.files.last());
                        }
                    }
                },
            }
        },
    }
}

proof fn lemma_fs_fold_inv(
    tm: Map<Seq<char>, Seq<Seq<TokenM>>>,
    remap: Map<Seq<char>, Map<Seq<char>, int>>,
    fst: FsState,
    lines: Seq<Seq<char>>,
    path: Seq<char>,
    ln: int,
)
    requires
        remap_valid(tm, remap),
        fsstate_inv(tm, fst),
        fs_fold(tm, remap, fst, lines, path, ln) is Ok,
    ensures
        fsstate_inv(tm, fs_fold(tm, remap, fst, lines, path, ln)->Ok_0),
    decreases lines.len(),
{
    if lines.len() == 0 {
    } else if !is_file_decl_name(lines.first()) {
        lemma_fs_fold_inv(tm, remap, fst, lines.drop_first(), path, ln + 1);
    } else {
        match fs_line(tm, remap, fst, lines.first(), path, ln) {
            Ok(fst2) => {
                lemma_fs_line_inv(tm, remap, fst, lines.first(), path, ln);
                lemma_fs_fold_inv(tm, remap, fst2, lines.drop_first(), path, ln + 1);
            },
            Err(_) => {},
        }
    }
}

/// Loading preserves the corpus invariants: variants stay deduplicated,
/// records keep resolving, and exports keep naming files that record them.
pub proof fn lemma_load_preserves_wf(c: CorpusM, path: Seq<char>, text: Seq<char>)
    requires
        crate::sym::corpus_wf(c),
        load_spec(c, path, text) is Ok,
    ensures
        crate::sym::corpus_wf(load_spec(c, path, text)->Ok_0),
{
    let lines = spec_split_lines(text);
    let cons = is_consolidated(lines);
    let st0 = TyState {
        types: c.types,
        remap: Map::empty(),
        records: Map::empty(),
        expos: Set::empty(),
    };
    assert(tystate_inv(st0));
    let st = ty_fold(st0, lines, path, 1, cons)->Ok_0;
    lemma_ty_fold_inv(st0, lines, path, 1, cons);
    let c2 = load_spec(c, path, text)->Ok_0;
    if cons {
        let f0 = FsState { files: c.files, exports: c.exports, seen: Set::empty() };
        assert(fsstate_inv(st.types, f0)) by {
            assert forall|i: int| 0 <= i < f0.files.len() implies records_valid(
                st.types,
                (#[trigger] f0.files[i]).records,
            ) by {
                assert(crate::sym::file_records_wf(c, c.files[i]));
            }
        }
        lemma_fs_fold_inv(st.types, st.remap, f0, lines, path, 1);
        let fst = fs_fold(st.types, st.remap, f0, lines, path, 1)->Ok_0;
        assert forall|i: int| 0 <= i < c2.files.len() implies crate::sym::file_records_wf(
            c2,
            #[trigger] c2.files[i],
        ) by {
            assert(records_valid(st.types, fst.files[i].records));
        }
    } else {
        assert forall|i: int| 0 <= i < c2.files.len() implies crate::sym::file_records_wf(
            c2,
            #[trigger] c2.files[i],
        ) by {
            if i < c.files.len() {
                assert(crate::sym::file_records_wf(c, c.files[i]));
                assert(c2.files[i] == c.files[i]);
            } else {
                assert(c2.files[i].records == st.records);
            }
        }
        assert forall|n: Seq<char>| #[trigger] c2.exports.contains_key(n) implies 0 <= c2.exports[n]
            < c2.files.len() && c2.files[c2.exports[n]].records.contains_key(n) by {
            if st.expos.contains(n) {
                assert(c2.exports[n] == c.files.len() as int);
                assert(c2.files[c.files.len() as int].records == st.records);
            } else {
                assert(c.exports.contains_key(n) && c2.exports[n] == c.exports[n]);
                assert(c2.files[c.exports[n]] == c.files[c.exports[n]]);
            }
        }
    }
}

// ---------------------------------------------------------------------------
// Implicit-reference closure
// ---------------------------------------------------------------------------

/// Every reference that a recorded type's tokens carry is itself recorded.
pub open spec fn recs_closed(
    tm: Map<Seq<char>, Seq<Seq<TokenM>>>,
    recs: Map<Seq<char>, int>,
) -> bool {
    forall|n: Seq<char>, p: int|
        recs.contains_key(n) && 0 <= p < tm[n][recs[n]].len() && (#[trigger] tm[n][recs[n]][p]).is_ref()
            ==> recs.contains_key(tm[n][recs[n]][p].word())
}

/// The names walked so far are closed: what their tokens reference is
/// recorded.
pub open spec fn walked_closed(
    tm: Map<Seq<char>, Seq<Seq<TokenM>>>,
    recs: Map<Seq<char>, int>,
    order: Seq<Seq<char>>,
    i: int,
) -> bool {
    forall|j: int, p: int|
        0 <= j < i && recs.contains_key(order[j]) && 0 <= p < tm[order[j]][recs[order[j]]].len()
            && (#[trigger] tm[order[j]][recs[order[j]]][p]).is_ref() ==> recs.contains_key(
            tm[order[j]][recs[order[j]]][p].word(),
        )
}

proof fn lemma_expand_refs_closed(
    tm: Map<Seq<char>, Seq<Seq<TokenM>>>,
    records: Map<Seq<char>, int>,
    order: Seq<Seq<char>>,
    toks: Seq<TokenM>,
    j: int,
)
    requires
        0 <= j,
        records_valid(tm, records),
        order.no_duplicates(),
        forall|k: Seq<char>| #[trigger] records.contains_key(k) <==> order.to_set().contains(k),
        expand_refs(tm, records, order, toks, j) is Ok,
    ensures
        ({
            let (r2, o2) = expand_refs(tm, records, order, toks, j)->Ok_0;
            &&& order.is_prefix_of(o2)
            &&& o2.no_duplicates()
            &&& forall|k: Seq<char>| #[trigger] r2.contains_key(k) <==> o2.to_set().contains(k)
            &&& forall|m: int| order.len() <= m < o2.len() ==> tm.dom().contains(#[trigger] o2[m])
            &&& forall|p: int|
                j <= p < toks.len() && (#[trigger] toks[p]).is_ref() ==> r2.contains_key(
                    toks[p].word(),
                )
        }),
    decreases toks.len() - j,
{
    broadcast use vstd::seq_lib::group_seq_properties;

    if j < 0 || j >= toks.len() {
        assert(order.is_prefix_of(order)) by {
            assert(order.subrange(0, order.len() as int) =~= order);
        }
    } else {
        let t = toks[j];
        if !t.is_ref() {
            lemma_expand_refs_closed(tm, records, order, toks, j + 1);
            let (r2, o2) = expand_refs(tm, records, order, toks, j)->Ok_0;
            assert forall|p: int|
                j <= p < toks.len() && (#[trigger] toks[p]).is_ref() implies r2.contains_key(
                toks[p].word(),
            ) by {
                assert(p != j);
            }
        } else {
            let r = t.word();
            if records.contains_key(r) {
                lemma_expand_refs_closed(tm, records, order, toks, j + 1);
                let (r2, o2) = expand_refs(tm, records, order, toks, j)->Ok_0;
                lemma_expand_refs_valid(tm, records, order, toks, j + 1);
                assert(records.contains_key(r));
                assert(r2.contains_key(r));
                assert forall|p: int|
                    j <= p < toks.len() && (#[trigger] toks[p]).is_ref() implies r2.contains_key(
                    toks[p].word(),
                ) by {
                    if p == j {
                        assert(toks[p].word() == r);
                    }
                }
            } else if !(tm.contains_key(r) && tm[r].len() == 1) {
                assert(expand_refs(tm, records, order, toks, j) is Err);
                assert(false);
            } else {
                let records2 = records.insert(r, 0);
                let order2 = order.push(r);
                assert(order2.no_duplicates()) by {
                    assert(!order.to_set().contains(r));
                    assert(forall|m: int|
                        0 <= m < order.len() ==> #[trigger] order2[m] == order[m]);
                    assert forall|m: int, w: int|
                        0 <= m < w < order2.len() implies order2[m] != order2[w] by {
                        if w < order.len() {
                        } else {
                            assert(order2[w] == r);
                            if order2[m] == r {
                                assert(order.to_set().contains(r));
                            }
                        }
                    }
                }
                assert forall|k: Seq<char>|
                    #[trigger] records2.contains_key(k) <==> order2.to_set().contains(k) by {
                    if k == r {
                        assert(order2[order2.len() - 1] == r);
                        assert(order2.to_set().contains(r));
                    } else {
                        assert(order2.to_set().contains(k) == order.to_set().contains(k)) by {
                            if order2.to_set().contains(k) {
                                let m = choose|m: int|
                                    0 <= m < order2.len() && order2[m] == k;
                                assert(m < order.len());
                                assert(order[m] == k);
                            }
                            if order.to_set().contains(k) {
                                let m = choose|m: int| 0 <= m < order.len() && order[m] == k;
                                assert(order2[m] == k);
                            }
                        }
                    }
                }
                assert(records_valid(tm, records2));
                lemma_expand_refs_closed(tm, records2, order2, toks, j + 1);
                let (r2, o2) = expand_refs(tm, records, order, toks, j)->Ok_0;
                lemma_expand_refs_valid(tm, records2, order2, toks, j + 1);
                assert(records2.contains_key(r));
                assert(r2.contains_key(r));
                assert(order.is_prefix_of(order2)) by {
                    assert(order =~= order2.subrange(0, order.len() as int));
                }
                assert(order2.is_prefix_of(o2));
                assert(order.is_prefix_of(o2)) by {
                    assert(order2 =~= o2.subrange(0, order2.len() as int));
                    assert(order =~= o2.subrange(0, order.len() as int));
                }
                assert forall|m: int|
                    order.len() <= m < o2.len() implies tm.dom().contains(#[trigger] o2[m]) by {
                    if m == order.len() {
                        assert(order2 =~= o2.subrange(0, order2.len() as int));
                        assert(o2[m] == order2[m]);
                        assert(order2[m] == r);
                    }
                }
                assert forall|p: int|
                    j <= p < toks.len() && (#[trigger] toks[p]).is_ref() implies r2.contains_key(
                    toks[p].word(),
                ) by {
                    if p == j {
                        assert(toks[p].word() == r);
                    }
                }
            }
        }
    }
}

proof fn lemma_expand_rec_closed(
    tm: Map<Seq<char>, Seq<Seq<TokenM>>>,
    records: Map<Seq<char>, int>,
    order: Seq<Seq<char>>,
    order0: Seq<Seq<char>>,
    i: int,
    fuel: nat,
)
    requires
        tm.dom().finite(),
        records_valid(tm, records),
        order.no_duplicates(),
        forall|k: Seq<char>| #[trigger] records.contains_key(k) <==> order.to_set().contains(k),
        order0.is_prefix_of(order),
        forall|m: int| order0.len() <= m < order.len() ==> tm.dom().contains(#[trigger] order[m]),
        0 <= i <= order.len(),
        walked_closed(tm, records, order, i),
        fuel == expand_fuel(tm, order0) - i,
        i <= expand_fuel(tm, order0),
        expand_rec(tm, records, order, i, fuel) is Ok,
    ensures
        recs_closed(tm, expand_rec(tm, records, order, i, fuel)->Ok_0),
    decreases fuel,
{
    broadcast use vstd::seq_lib::group_seq_properties;

    if i >= order.len() {
        // Everything recorded has been walked; the records are closed.
        let r1 = expand_rec(tm, records, order, i, fuel)->Ok_0;
        assert(r1 == records);
        assert forall|n: Seq<char>, p: int|
            r1.contains_key(n) && 0 <= p < tm[n][r1[n]].len() && (#[trigger] tm[n][r1[n]][p]).is_ref()
                implies r1.contains_key(tm[n][r1[n]][p].word()) by {
            assert(order.to_set().contains(n));
            let j = choose|j: int| 0 <= j < order.len() && order[j] == n;
        }
    } else {
        // The fuel cannot run out before the walk is done.
        assert(fuel > 0) by {
            order.unique_seq_to_set();
            assert(order.to_set().subset_of(order0.to_set().union(tm.dom()))) by {
                assert forall|k: Seq<char>| order.to_set().contains(k) implies order0.to_set()
                    .union(tm.dom()).contains(k) by {
                    let m = choose|m: int| 0 <= m < order.len() && order[m] == k;
                    if m < order0.len() {
                        assert(order0[m] == k);
                        assert(order0.to_set().contains(k));
                    } else {
                        assert(tm.dom().contains(k));
                    }
                }
            }
            assert(order0.no_duplicates()) by {
                assert(forall|m: int|
                    0 <= m < order0.len() ==> #[trigger] order0[m] == order[m]);
            }
            order0.unique_seq_to_set();
            vstd::set_lib::lemma_len_union::<Seq<char>>(order0.to_set(), tm.dom());
            vstd::set_lib::lemma_len_subset::<Seq<char>>(
                order.to_set(),
                order0.to_set().union(tm.dom()),
            );
            assert(order.len() <= expand_fuel(tm, order0));
        }
        let n = order[i];
        assert(records.contains_key(n)) by {
            assert(order.to_set().contains(n));
        }
        assert(tm.contains_key(n) && 0 <= records[n] < tm[n].len());
        let toks = tm[n][records[n]];
        match expand_refs(tm, records, order, toks, 0) {
            Ok((rec2, ord2)) => {
                lemma_expand_refs_closed(tm, records, order, toks, 0);
                lemma_expand_refs_valid(tm, records, order, toks, 0);
                assert(walked_closed(tm, rec2, ord2, i + 1)) by {
                    assert(rec2[n] == records[n]);
                    assert forall|j: int, p: int|
                        0 <= j < i + 1 && rec2.contains_key(ord2[j]) && 0 <= p
                            < tm[ord2[j]][rec2[ord2[j]]].len() && (#[trigger] tm[ord2[j]][rec2[ord2[j]]][p]).is_ref()
                            implies rec2.contains_key(tm[ord2[j]][rec2[ord2[j]]][p].word()) by {
                        assert(ord2[j] == order[j]);
                        assert(order.to_set().contains(order[j]));
                        assert(records.contains_key(order[j]));
                        assert(rec2[ord2[j]] == records[order[j]]);
                        if j < i {
                            assert(records.contains_key(tm[order[j]][records[order[j]]][p].word()));
                        }
                    }
                }
                assert(order.is_prefix_of(ord2));
                assert(order0.is_prefix_of(ord2)) by {
                    assert(order =~= ord2.subrange(0, order.len() as int));
                    assert(order0 =~= order.subrange(0, order0.len() as int));
                    assert(order0 =~= ord2.subrange(0, order0.len() as int));
                }
                assert forall|m: int|
                    order0.len() <= m < ord2.len() implies tm.dom().contains(
                    #[trigger] ord2[m],
                ) by {
                    if m < order.len() {
                        assert(order =~= ord2.subrange(0, order.len() as int));
                        assert(ord2[m] == order[m]);
                    }
                }
                lemma_expand_rec_closed(tm, rec2, ord2, order0, i + 1, (fuel - 1) as nat);
            },
            Err(_) => {},
        }
    }
}

proof fn lemma_ty_step_dom_finite(st: TyState, line: Seq<char>, path: Seq<char>, ln: int, cons: bool)
    requires
        st.types.dom().finite(),
        ty_step(st, line, path, ln, cons) is Ok,
    ensures
        ty_step(st, line, path, ln, cons)->Ok_0.types.dom().finite(),
{
    let ws = spec_words(line);
    let (base, _) = tag_split(ws[0]);
    let (t2, _) = intern_spec(st.types, base, line_tokens(ws));
    if !st.types.contains_key(base) || crate::sym::find_variant(st.types[base], line_tokens(ws)) < 0 {
        assert(t2.dom() =~= st.types.dom().insert(base));
    } else {
        assert(t2.dom() =~= st.types.dom());
    }
}

proof fn lemma_ty_fold_dom_finite(
    st: TyState,
    lines: Seq<Seq<char>>,
    path: Seq<char>,
    ln: int,
    cons: bool,
)
    requires
        st.types.dom().finite(),
        ty_fold(st, lines, path, ln, cons) is Ok,
    ensures
        ty_fold(st, lines, path, ln, cons)->Ok_0.types.dom().finite(),
    decreases lines.len(),
{
    if lines.len() == 0 {
    } else if is_file_decl_name(lines.first()) {
        lemma_ty_fold_dom_finite(st, lines.drop_first(), path, ln + 1, cons);
    } else {
        match ty_step(st, lines.first(), path, ln, cons) {
            Ok(st2) => {
                lemma_ty_step_dom_finite(st, lines.first(), path, ln, cons);
                lemma_ty_fold_dom_finite(st2, lines.drop_first(), path, ln + 1, cons);
            },
            Err(_) => {},
        }
    }
}

/// Loading a consolidated stream leaves every file of the corpus closed
/// under type references: whatever a record's tokens reach, the file
/// records.
pub proof fn lemma_load_consolidated_closed(c: CorpusM, path: Seq<char>, text: Seq<char>)
    requires
        crate::sym::corpus_wf(c),
        crate::sym::corpus_closed(c),
        c.types.dom().finite(),
        is_consolidated(spec_split_lines(text)),
        load_spec(c, path, text) is Ok,
    ensures
        crate::sym::corpus_closed(load_spec(c, path, text)->Ok_0),
{
    let lines = spec_split_lines(text);
    let st0 = TyState {
        types: c.types,
        remap: Map::empty(),
        records: Map::empty(),
        expos: Set::empty(),
    };
    lemma_ty_fold_inv(st0, lines, path, 1, true);
    lemma_ty_fold_dom_finite(st0, lines, path, 1, true);
    let st = ty_fold(st0, lines, path, 1, true)->Ok_0;
    let f0 = FsState { files: c.files, exports: c.exports, seen: Set::empty() };
    assert(forall|i: int|
        0 <= i < f0.files.len() ==> recs_closed(st.types, (#[trigger] f0.files[i]).records)) by {
        assert forall|i: int| 0 <= i < f0.files.len() implies recs_closed(
            st.types,
            (#[trigger] f0.files[i]).records,
        ) by {
            assert(crate::sym::file_closed(c, c.files[i]));
            assert(crate::sym::file_records_wf(c, c.files[i]));
            let fr = c.files[i].records;
            assert forall|n: Seq<char>, p: int|
                fr.contains_key(n) && 0 <= p < st.types[n][fr[n]].len() && (#[trigger] st.types[n][fr[n]][p]).is_ref()
                    implies fr.contains_key(st.types[n][fr[n]][p].word()) by {
                assert(c.types.contains_key(n) && 0 <= fr[n] < c.types[n].len());
                assert(st.types[n][fr[n]] == c.types[n][fr[n]]);
                assert(c.types[n][fr[n]][p].is_ref());
            }
        }
    }
    lemma_fs_fold_closed(st.types, st.remap, f0, lines, path, 1);
    let fst = fs_fold(st.types, st.remap, f0, lines, path, 1)->Ok_0;
    let c2 = load_spec(c, path, text)->Ok_0;
    assert forall|i: int| 0 <= i < c2.files.len() implies crate::sym::file_closed(
        c2,
        #[trigger] c2.files[i],
    ) by {
        assert(recs_closed(st.types, fst.files[i].records));
    }
}

proof fn lemma_fs_line_closed(
    tm: Map<Seq<char>, Seq<Seq<TokenM>>>,
    remap: Map<Seq<char>, Map<Seq<char>, int>>,
    fst: FsState,
    line: Seq<char>,
    path: Seq<char>,
    ln: int,
)
    requires
        tm.dom().finite(),
        remap_valid(tm, remap),
        forall|i: int|
            0 <= i < fst.files.len() ==> recs_closed(tm, (#[trigger] fst.files[i]).records),
        fs_line(tm, remap, fst, line, path, ln) is Ok,
    ensures
        ({
            let fst2 = fs_line(tm, remap, fst, line, path, ln)->Ok_0;
            forall|i: int|
                0 <= i < fst2.files.len() ==> recs_closed(tm, (#[trigger] fst2.files[i]).records)
        }),
{
    let ws = spec_words(line);
    let fidx = fst.files.len() as int;
    match fs_toks(remap, Map::empty(), Seq::empty(), fst.exports, fidx, ws, 1) {
        Err(_) => {},
        Ok((rec0, ord0, _)) => {
            assert(Seq::<Seq<char>>::empty().to_set() =~= Set::<Seq<char>>::empty());
            assert forall|k: Seq<char>| #[trigger] Map::<Seq<char>, int>::empty().contains_key(k)
                <==> Seq::<Seq<char>>::empty().to_set().contains(k) by {}
            lemma_fs_toks_order(tm, remap, Map::empty(), Seq::empty(), fst.exports, fidx, ws, 1);
            lemma_fs_toks_valid(tm, remap, Map::empty(), Seq::empty(), fst.exports, fidx, ws, 1);
            match expand_rec(tm, rec0, ord0, 0, expand_fuel(tm, ord0)) {
                Err(_) => {},
                Ok(rec1) => {
                    lemma_expand_rec_closed(tm, rec0, ord0, ord0, 0, expand_fuel(tm, ord0));
                    let fst2 = fs_line(tm, remap, fst, line, path, ln)->Ok_0;
                    assert forall|i: int| 0 <= i < fst2.files.len() implies recs_closed(
                        tm,
                        (#[trigger] fst2.files[i]).records,
                    ) by {
                        if i < fst.files.len() {
                            assert(fst2.files[i] == fst.files[i]);
                        } else {
                            assert(fst2.files[i].records == rec1);
                        }
                    }
                },
            }
        },
    }
}

proof fn lemma_fs_fold_closed(
    tm: Map<Seq<char>, Seq<Seq<TokenM>>>,
    remap: Map<Seq<char>, Map<Seq<char>, int>>,
    fst: FsState,
    lines: Seq<Seq<char>>,
    path: Seq<char>,
    ln: int,
)
    requires
        tm.dom().finite(),
        remap_valid(tm, remap),
        forall|i: int|
            0 <= i < fst.files.len() ==> recs_closed(tm, (#[trigger] fst.files[i]).records),
        fs_fold(tm, remap, fst, lines, path, ln) is Ok,
    ensures
        ({
            let fst2 = fs_fold(tm, remap, fst, lines, path, ln)->Ok_0;
            forall|i: int|
                0 <= i < fst2.files.len() ==> recs_closed(tm, (#[trigger] fst2.files[i]).records)
        }),
    decreases lines.len(),
{
    if lines.len() == 0 {
    } else if !is_file_decl_name(lines.first()) {
        lemma_fs_fold_closed(tm, remap, fst, lines.drop_first(), path, ln + 1);
    } else {
        match fs_line(tm, remap, fst, lines.first(), path, ln) {
            Ok(fst2) => {
                lemma_fs_line_closed(tm, remap, fst, lines.first(), path, ln);
                lemma_fs_fold_closed(tm, remap, fst2, lines.drop_first(), path, ln + 1);
            },
            Err(_) => {},
        }
    }
}

proof fn lemma_fs_toks_order(
    tm: Map<Seq<char>, Seq<Seq<TokenM>>>,
    remap: Map<Seq<char>, Map<Seq<char>, int>>,
    records: Map<Seq<char>, int>,
    order: Seq<Seq<char>>,
    exports: Map<Seq<char>, int>,
    fidx: int,
    ws: Seq<Seq<char>>,
    j: int,
)
    requires
        order.no_duplicates(),
        forall|k: Seq<char>| #[trigger] records.contains_key(k) <==> order.to_set().contains(k),
        fs_toks(remap, records, order, exports, fidx, ws, j) is Ok,
    ensures
        ({
            let (r2, o2, _) = fs_toks(remap, records, order, exports, fidx, ws, j)->Ok_0;
            &&& o2.no_duplicates()
            &&& forall|k: Seq<char>| #[trigger] r2.contains_key(k) <==> o2.to_set().contains(k)
        }),
    decreases ws.len() - j,
{
    if j < 1 || j >= ws.len() {
    } else {
        let w = ws[j];
        let (base, tag) = tag_split(w);
        let tg = tag_str(tag);
        if remap.contains_key(base) && remap[base].contains_key(tg) {
            let idx = remap[base][tg];
            let order2 = if records.contains_key(base) {
                order
            } else {
                order.push(base)
            };
            let records2 = records.insert(base, idx);
            let exports2 = if is_export_name(base) {
                exports.insert(base, fidx)
            } else {
                exports
            };
            if records.contains_key(base) {
                assert forall|k: Seq<char>|
                    #[trigger] records2.contains_key(k) <==> order2.to_set().contains(k) by {}
            } else {
                assert(order2.no_duplicates()) by {
                    assert(!order.to_set().contains(base));
                    assert(forall|m: int|
                        0 <= m < order.len() ==> #[trigger] order2[m] == order[m]);
                    assert forall|m: int, v: int|
                        0 <= m < v < order2.len() implies order2[m] != order2[v] by {
                        if v < order.len() {
                        } else {
                            assert(order2[v] == base);
                            if order2[m] == base {
                                assert(order.to_set().contains(base));
                            }
                        }
                    }
                }
                assert forall|k: Seq<char>|
                    #[trigger] records2.contains_key(k) <==> order2.to_set().contains(k) by {
                    if k == base {
                        assert(order2[order2.len() - 1] == base);
                        assert(order2.to_set().contains(base));
                    } else {
                        assert(order2.to_set().contains(k) == order.to_set().contains(k)) by {
                            if order2.to_set().contains(k) {
                                let m = choose|m: int|
                                    0 <= m < order2.len() && order2[m] == k;
                                assert(m < order.len());
                                assert(order[m] == k);
                            }
                            if order.to_set().contains(k) {
                                let m = choose|m: int| 0 <= m < order.len() && order[m] == k;
                                assert(order2[m] == k);
                            }
                        }
                    }
                }
            }
            lemma_fs_toks_order(tm, remap, records2, order2, exports2, fidx, ws, j + 1);
        }
    }
}

// ---------------------------------------------------------------------------
// The per-stream remap table, executable
// ---------------------------------------------------------------------------

/// The tag-to-variant bindings of one base name in this stream.
pub struct RemapEntry {
    pub base: String,
    pub tags: Vec<NameIdx>,
}

/// The mapping held by a remap list; a later entry wins.
pub open spec fn remap_map(rs: Seq<RemapEntry>) -> Map<Seq<char>, Map<Seq<char>, int>>
    decreases rs.len(),
{
    if rs.len() == 0 {
        Map::empty()
    } else {
        remap_map(rs.drop_last()).insert(rs.last().base@, nameidx_map(rs.last().tags@))
    }
}

proof fn lemma_remap_map_contains(rs: Seq<RemapEntry>, k: Seq<char>)
    ensures
        remap_map(rs).contains_key(k) <==> exists|i: int|
            0 <= i < rs.len() && #[trigger] rs[i].base@ == k,
    decreases rs.len(),
{
    if rs.len() > 0 {
        lemma_remap_map_contains(rs.drop_last(), k);
        if k == rs.last().base@ {
            assert(rs[rs.len() - 1].base@ == k);
        } else {
            if remap_map(rs).contains_key(k) {
                assert(remap_map(rs.drop_last()).contains_key(k));
                let i = choose|i: int|
                    0 <= i < rs.len() - 1 && #[trigger] rs.drop_last()[i].base@ == k;
                assert(rs[i] == rs.drop_last()[i]);
                assert(rs[i].base@ == k);
            }
            if exists|i: int| 0 <= i < rs.len() && #[trigger] rs[i].base@ == k {
                let i = choose|i: int| 0 <= i < rs.len() && #[trigger] rs[i].base@ == k;
                assert(i < rs.len() - 1);
                assert(rs.drop_last()[i].base@ == k);
            }
        }
    }
}

proof fn lemma_remap_map_last(rs: Seq<RemapEntry>, i: int)
    requires
        0 <= i < rs.len(),
        forall|j: int| i < j < rs.len() ==> #[trigger] rs[j].base@ != rs[i].base@,
    ensures
        remap_map(rs).contains_key(rs[i].base@),
        remap_map(rs)[rs[i].base@] == nameidx_map(rs[i].tags@),
    decreases rs.len(),
{
    if i < rs.len() - 1 {
        assert(rs.drop_last()[i] == rs[i]);
        lemma_remap_map_last(rs.drop_last(), i);
    }
}

proof fn lemma_remap_map_update_last(rs: Seq<RemapEntry>, i: int, e: RemapEntry)
    requires
        0 <= i < rs.len(),
        e.base@ == rs[i].base@,
        forall|j: int| i < j < rs.len() ==> #[trigger] rs[j].base@ != rs[i].base@,
    ensures
        remap_map(rs.update(i, e)) == remap_map(rs).insert(e.base@, nameidx_map(e.tags@)),
    decreases rs.len(),
{
    let rs2 = rs.update(i, e);
    if i == rs.len() - 1 {
        assert(rs2.drop_last() =~= rs.drop_last());
        assert(rs2.last() == e);
        assert(remap_map(rs2) =~= remap_map(rs).insert(e.base@, nameidx_map(e.tags@)));
    } else {
        assert(rs2.drop_last() =~= rs.drop_last().update(i, e));
        assert(rs.drop_last()[i] == rs[i]);
        lemma_remap_map_update_last(rs.drop_last(), i, e);
        assert(rs2.last() == rs.last());
        assert(remap_map(rs2) =~= remap_map(rs).insert(e.base@, nameidx_map(e.tags@)));
    }
}

/// Finds the winning list index of a base name.
fn remap_find(rs: &Vec<RemapEntry>, base: &str) -> (r: Option<usize>)
    ensures
        match r {
            Some(i) => {
                &&& i < rs@.len()
                &&& rs@[i as int].base@ == base@
                &&& forall|j: int| i < j < rs@.len() ==> #[trigger] rs@[j].base@ != base@
                &&& remap_map(rs@).contains_key(base@)
                &&& remap_map(rs@)[base@] == nameidx_map(rs@[i as int].tags@)
            },
            None => !remap_map(rs@).contains_key(base@),
        },
{
    let mut j: usize = rs.len();
    while j > 0
        invariant
            j <= rs@.len(),
            forall|m: int| j <= m < rs@.len() ==> #[trigger] rs@[m].base@ != base@,
        decreases j,
    {
        if crate::text::str_eq_str(rs[j - 1].base.as_str(), base) {
            proof {
                lemma_remap_map_last(rs@, j - 1);
            }
            return Some(j - 1);
        }
        j = j - 1;
    }
    proof {
        lemma_remap_map_contains(rs@, base@);
    }
    None
}

/// Binds `base@tag` to a variant index in the stream's remap table.
fn remap_add(rs: &mut Vec<RemapEntry>, base: &str, tag: &str, idx: usize)
    ensures
        remap_map(final(rs)@) == remap_map(old(rs)@).insert(
            base@,
            (if remap_map(old(rs)@).contains_key(base@) {
                remap_map(old(rs)@)[base@]
            } else {
                Map::empty()
            }).insert(tag@, idx as int),
        ),
{
    let ghost orig = rs@;
    match remap_find(rs, base) {
        Some(i) => {
            let mut e = rs.remove(i);
            nameidx_set(&mut e.tags, tag, idx);
            rs.insert(i, e);
            proof {
                assert(rs@ =~= orig.update(i as int, rs@[i as int]));
                lemma_remap_map_update_last(orig, i as int, rs@[i as int]);
            }
        },
        None => {
            let mut tags: Vec<NameIdx> = Vec::new();
            nameidx_set(&mut tags, tag, idx);
            rs.push(RemapEntry { base: base.to_owned(), tags });
            proof {
                assert(rs@.drop_last() =~= orig);
                assert(nameidx_map(rs@.last().tags@) =~= Map::<Seq<char>, int>::empty().insert(
                    tag@,
                    idx as int,
                ));
            }
        },
    }
}

/// Resolves `base@tag` in the stream's remap table.
fn remap_get(rs: &Vec<RemapEntry>, base: &str, tag: &str) -> (r: Option<usize>)
    ensures
        match r {
            Some(v) => {
                &&& remap_map(rs@).contains_key(base@)
                &&& remap_map(rs@)[base@].contains_key(tag@)
                &&& remap_map(rs@)[base@][tag@] == v as int
            },
            None => !(remap_map(rs@).contains_key(base@) && remap_map(rs@)[base@].contains_key(
                tag@,
            )),
        },
{
    match remap_find(rs, base) {
        Some(i) => nameidx_get(&rs[i].tags, tag),
        None => None,
    }
}

// ---------------------------------------------------------------------------
// String sets
// ---------------------------------------------------------------------------

/// The set of the views of a list of strings.
pub open spec fn strset(ss: Seq<String>) -> Set<Seq<char>> {
    Set::new(|k: Seq<char>| exists|i: int| 0 <= i < ss.len() && #[trigger] ss[i]@ == k)
}

pub(crate) fn strset_contains(ss: &Vec<String>, name: &str) -> (r: bool)
    ensures
        r == strset(ss@).contains(name@),
{
    let mut i: usize = 0;
    while i < ss.len()
        invariant
            i <= ss@.len(),
            forall|m: int| 0 <= m < i ==> #[trigger] ss@[m]@ != name@,
        decreases ss@.len() - i,
    {
        if crate::text::str_eq_str(ss[i].as_str(), name) {
            return true;
        }
        i = i + 1;
    }
    false
}

pub(crate) fn strset_insert(ss: &mut Vec<String>, name: &str)
    ensures
        strset(final(ss)@) == strset(old(ss)@).insert(name@),
        final(ss)@.len() == old(ss)@.len() + 1,
        final(ss)@.drop_last() == old(ss)@,
        final(ss)@.last()@ == name@,
{
    let ghost orig = ss@;
    ss.push(name.to_owned());
    proof {
        assert forall|k: Seq<char>| strset(ss@).contains(k) <==> strset(orig).insert(
            name@,
        ).contains(k) by {
            if strset(ss@).contains(k) {
                let i = choose|i: int| 0 <= i < ss@.len() && #[trigger] ss@[i]@ == k;
                if i < orig.len() {
                    assert(orig[i]@ == k);
                }
            }
            if strset(orig).contains(k) {
                let i = choose|i: int| 0 <= i < orig.len() && #[trigger] orig[i]@ == k;
                assert(ss@[i]@ == k);
            }
            if k == name@ {
                assert(ss@[ss@.len() - 1]@ == k);
            }
        }
        assert(strset(ss@) =~= strset(orig).insert(name@));
    }
}

// ---------------------------------------------------------------------------
// Deep copies
// ---------------------------------------------------------------------------

pub(crate) fn clone_string(s: &String) -> (r: String)
    ensures
        r == *s,
{
    s.clone()
}

pub(crate) fn clone_tokens(v: &Vec<Token>) -> (r: Vec<Token>)
    ensures
        r@ == v@,
{
    let mut r: Vec<Token> = Vec::new();
    let mut i: usize = 0;
    while i < v.len()
        invariant
            i <= v@.len(),
            r@ =~= v@.take(i as int),
        decreases v@.len() - i,
    {
        let t = match &v[i] {
            Token::TypeRef(s) => Token::TypeRef(clone_string(s)),
            Token::Atom(s) => Token::Atom(clone_string(s)),
        };
        r.push(t);
        proof {
            assert(r@ =~= v@.take(i + 1));
        }
        i = i + 1;
    }
    proof {
        assert(v@.take(v@.len() as int) =~= v@);
    }
    r
}

proof fn lemma_types_map_congruence(a: Seq<TypeEntry>, b: Seq<TypeEntry>)
    requires
        a.len() == b.len(),
        forall|i: int|
            0 <= i < a.len() ==> (#[trigger] a[i]).name@ == b[i].name@ && variants_view(
                a[i].variants@,
            ) == variants_view(b[i].variants@),
    ensures
        types_map(a) == types_map(b),
    decreases a.len(),
{
    if a.len() > 0 {
        assert(forall|i: int|
            0 <= i < a.len() - 1 ==> #[trigger] a.drop_last()[i] == a[i] && b.drop_last()[i]
                == b[i]);
        lemma_types_map_congruence(a.drop_last(), b.drop_last());
        assert(a[a.len() - 1].name@ == b[b.len() - 1].name@);
        assert(variants_view(a[a.len() - 1].variants@) == variants_view(b[b.len() - 1].variants@));
    }
}

fn clone_types(ts: &Vec<TypeEntry>) -> (r: Vec<TypeEntry>)
    ensures
        types_map(r@) == types_map(ts@),
{
    let mut r: Vec<TypeEntry> = Vec::new();
    let mut i: usize = 0;
    while i < ts.len()
        invariant
            i <= ts@.len(),
            r@.len() == i,
            forall|m: int|
                0 <= m < i ==> (#[trigger] r@[m]).name@ == ts@[m].name@ && variants_view(
                    r@[m].variants@,
                ) == variants_view(ts@[m].variants@),
        decreases ts@.len() - i,
    {
        let mut variants: Vec<Vec<Token>> = Vec::new();
        let mut j: usize = 0;
        while j < ts[i].variants.len()
            invariant
                i < ts@.len(),
                j <= ts@[i as int].variants@.len(),
                variants@.len() == j,
                forall|m: int|
                    0 <= m < j ==> (#[trigger] variants@[m])@ == ts@[i as int].variants@[m]@,
            decreases ts@[i as int].variants@.len() - j,
        {
            variants.push(clone_tokens(&ts[i].variants[j]));
            j = j + 1;
        }
        proof {
            assert(variants_view(variants@) =~= variants_view(ts@[i as int].variants@));
        }
        r.push(TypeEntry { name: clone_string(&ts[i].name), variants });
        i = i + 1;
    }
    proof {
        lemma_types_map_congruence(r@, ts@);
    }
    r
}

fn clone_nameidx(rs: &Vec<NameIdx>) -> (r: Vec<NameIdx>)
    ensures
        r@ == rs@,
{
    let mut r: Vec<NameIdx> = Vec::new();
    let mut i: usize = 0;
    while i < rs.len()
        invariant
            i <= rs@.len(),
            r@ =~= rs@.take(i as int),
        decreases rs@.len() - i,
    {
        r.push(NameIdx { name: clone_string(&rs[i].name), idx: rs[i].idx });
        proof {
            assert(r@[i as int] == rs@[i as int]);
            assert(r@ =~= rs@.take(i + 1));
        }
        i = i + 1;
    }
    proof {
        assert(rs@.take(rs@.len() as int) =~= rs@);
    }
    r
}

// ---------------------------------------------------------------------------
// Decoding
// ---------------------------------------------------------------------------

/// Relies on `core::str::from_utf8`: it succeeds exactly on valid UTF-8 and
/// returns the decoded characters; on failure an `InvalidData` OS error is
/// built with `std::io::Error::new`.
#[verifier::external_body]
fn decode_bytes(data: &[u8]) -> (r: Result<String, std::io::Error>)
    ensures
        match r {
            Ok(s) => vstd::utf8::valid_utf8(data@) && s@ == vstd::utf8::decode_utf8(data@),
            Err(_) => !vstd::utf8::valid_utf8(data@),
        },
{
    match core::str::from_utf8(data) {
        Ok(s) => Ok(s.to_string()),
        Err(e) => Err(std::io::Error::new(std::io::ErrorKind::InvalidData, e)),
    }
}

// ---------------------------------------------------------------------------
// Building error messages
// ---------------------------------------------------------------------------

/// `"<path>:<line>: <detail>"`, executable ([`err_msg`]).
fn build_err(path: &str, ln: usize, detail: &str) -> (r: String)
    ensures
        r@ == err_msg(path@, ln as int, detail@),
{
    proof {
        reveal_strlit(":");
        reveal_strlit(": ");
    }
    let mut r = path.to_owned();
    r.append(":");
    let num = crate::text::usize_to_string(ln);
    r.append(num.as_str());
    r.append(": ");
    r.append(detail);
    proof {
        assert(":"@ =~= seq![':']);
        assert(": "@ =~= seq![':', ' ']);
        assert(r@ =~= err_msg(path@, ln as int, detail@));
    }
    r
}

/// `"Duplicate record '<name>'"` and the like: a detail around one name.
fn build_detail(prefix: &str, name: &str, suffix: &str) -> (r: String)
    ensures
        r@ == prefix@ + name@ + suffix@,
{
    let mut r = prefix.to_owned();
    r.append(name);
    r.append(suffix);
    proof {
        assert(r@ =~= prefix@ + name@ + suffix@);
    }
    r
}

// ---------------------------------------------------------------------------
// Record names, executable
// ---------------------------------------------------------------------------

/// Whether a line opens an `F#` file record.
pub fn line_is_file_decl(s: &str) -> (r: bool)
    ensures
        r == is_file_decl_name(s@),
{
    let n = s.unicode_len();
    n >= 2 && s.get_char(0) == 'F' && s.get_char(1) == '#'
}

/// Splits an optional `@<tag>` suffix off a record name ([`tag_split`]).
fn split_tag(name: &str) -> (r: (String, Option<String>))
    ensures
        ({
            let (b, t) = tag_split(name@);
            &&& r.0@ == b
            &&& match (r.1, t) {
                (Some(x), Some(y)) => x@ == y,
                (None, None) => true,
                _ => false,
            }
        }),
{
    let n = name.unicode_len();
    match crate::text::find_last_at(name) {
        Some(k) => {
            let base = name.substring_char(0, k).to_owned();
            let tag = name.substring_char(k + 1, n).to_owned();
            proof {
                assert(base@ =~= name@.take(last_at_idx(name@)));
                assert(tag@ =~= name@.skip(last_at_idx(name@) + 1));
            }
            (base, Some(tag))
        },
        None => (name.to_owned(), None),
    }
}

// ---------------------------------------------------------------------------
// Reading a stream, executable
// ---------------------------------------------------------------------------

/// Whether any line opens an `F#` record.
fn scan_consolidated(lines: &Vec<String>) -> (r: bool)
    ensures
        r == is_consolidated(crate::text::str_views(lines@)),
{
    let ghost lv = crate::text::str_views(lines@);
    let mut i: usize = 0;
    while i < lines.len()
        invariant
            i <= lines@.len(),
            lv == crate::text::str_views(lines@),
            forall|m: int| 0 <= m < i ==> !is_file_decl_name(#[trigger] lv[m]),
        decreases lines@.len() - i,
    {
        if line_is_file_decl(lines[i].as_str()) {
            proof {
                assert(is_file_decl_name(lv[i as int]));
            }
            return true;
        }
        i = i + 1;
    }
    false
}

/// Classifies every word of a record line but the head.
fn tokenize_line(words: &Vec<String>) -> (r: Vec<Token>)
    requires
        words@.len() >= 1,
    ensures
        crate::sym::toks_view(r@) == line_tokens(crate::text::str_views(words@)),
{
    let ghost ws = crate::text::str_views(words@);
    let mut r: Vec<Token> = Vec::new();
    let mut j: usize = 1;
    while j < words.len()
        invariant
            1 <= j <= words@.len(),
            ws == crate::text::str_views(words@),
            r@.len() == j - 1,
            forall|m: int| 0 <= m < j - 1 ==> #[trigger] r@[m]@ == classify(ws[m + 1]),
        decreases words@.len() - j,
    {
        r.push(Token::from_word(words[j].clone()));
        j = j + 1;
    }
    proof {
        assert(crate::sym::toks_view(r@) =~= line_tokens(ws));
    }
    r
}

/// The head word of an `F#` line: it exists and starts with `F#`.
proof fn lemma_fsharp_words(line: Seq<char>)
    requires
        is_file_decl_name(line),
    ensures
        spec_words(line).len() >= 1,
        spec_words(line)[0].len() >= 2,
        spec_words(line)[0] == line.take(crate::text::word_len(line)),
{
    assert(!crate::text::is_ws_char(line[0]));
    let d = line.drop_first();
    assert(d[0] == line[1]);
    assert(!crate::text::is_ws_char(d[0]));
    crate::text::lemma_word_len_bounds(d.drop_first());
    assert(crate::text::word_len(d) == 1 + crate::text::word_len(d.drop_first()));
    assert(crate::text::word_len(line) == 1 + crate::text::word_len(d));
    assert(crate::text::word_len(line) >= 2);
    crate::text::lemma_word_len_bounds(line);
}

/// Reads every type record line of a stream ([`ty_fold`]), growing the type
/// table and gathering the stream's remap table, single-file records and
/// exports.
#[verifier::loop_isolation(false)]
fn read_type_records(
    ntypes: &mut Vec<TypeEntry>,
    lines: &Vec<String>,
    path: &str,
    cons: bool,
) -> (r: Result<(Vec<RemapEntry>, Vec<NameIdx>, Vec<String>), String>)
    ensures
        ({
            let st0 = TyState {
                types: types_map(old(ntypes)@),
                remap: Map::empty(),
                records: Map::empty(),
                expos: Set::empty(),
            };
            let f = ty_fold(st0, crate::text::str_views(lines@), path@, 1, cons);
            match r {
                Ok((remap, records, expos)) => f == Ok::<TyState, Seq<char>>(
                    TyState {
                        types: types_map(final(ntypes)@),
                        remap: remap_map(remap@),
                        records: nameidx_map(records@),
                        expos: strset(expos@),
                    },
                ),
                Err(m) => f == Err::<TyState, Seq<char>>(m@),
            }
        }),
{
    let ghost lv = crate::text::str_views(lines@);
    let ghost st0 = TyState {
        types: types_map(ntypes@),
        remap: Map::empty(),
        records: Map::empty(),
        expos: Set::empty(),
    };
    let mut remap: Vec<RemapEntry> = Vec::new();
    let mut records: Vec<NameIdx> = Vec::new();
    let mut expos: Vec<String> = Vec::new();
    let n = lines.len();
    let mut i: usize = 0;
    proof {
        assert(lv.skip(0) == lv);
        assert(remap_map(remap@) =~= Map::<Seq<char>, Map<Seq<char>, int>>::empty());
        assert(nameidx_map(records@) =~= Map::<Seq<char>, int>::empty());
        assert(strset(expos@) =~= Set::<Seq<char>>::empty());
    }
    while i < n
        invariant
            i <= n,
            ty_fold(
                TyState {
                    types: types_map(ntypes@),
                    remap: remap_map(remap@),
                    records: nameidx_map(records@),
                    expos: strset(expos@),
                },
                lv.skip(i as int),
                path@,
                i + 1,
                cons,
            ) == ty_fold(st0, lv, path@, 1, cons),
        decreases n - i,
    {
        let ghost stcur = TyState {
            types: types_map(ntypes@),
            remap: remap_map(remap@),
            records: nameidx_map(records@),
            expos: strset(expos@),
        };
        proof {
            assert(lv.skip(i as int).first() == lv[i as int]);
            assert(lv.skip(i as int).drop_first() == lv.skip(i + 1)) by {
                lv.lemma_seq_skip_skip(i as int);
            }
            assert(lv[i as int] == lines@[i as int]@);
        }
        if line_is_file_decl(lines[i].as_str()) {
            i = i + 1;
            continue ;
        }
        let words = split_words(lines[i].as_str());
        let ghost ws = crate::text::str_views(words@);
        if words.len() == 0 {
            let msg = build_err(path, i + 1, "Expected a record name");
            proof {
                assert(ws.len() == 0);
                assert(ty_step(stcur, lv[i as int], path@, i + 1, cons) == Err::<
                    TyState,
                    Seq<char>,
                >(err_msg(path@, i + 1, detail_expected_name())));
            }
            return Err(msg);
        }
        let (base, tagopt) = split_tag(words[0].as_str());
        let toks = tokenize_line(&words);
        proof {
            assert(ws[0] == words@[0]@);
            assert(ws.len() > 0);
        }
        if !cons && tagopt.is_some() {
            let detail = build_detail("Unexpected variant suffix in record '", words[0].as_str(), "'");
            let msg = build_err(path, i + 1, detail.as_str());
            proof {
                assert(tag_split(ws[0]).1 is Some);
                assert(ty_step(stcur, lv[i as int], path@, i + 1, cons) == Err::<
                    TyState,
                    Seq<char>,
                >(err_msg(path@, i + 1, detail_tag_single(ws[0]))));
            }
            return Err(msg);
        }
        if !cons && nameidx_contains(&records, base.as_str()) {
            let detail = build_detail("Duplicate record '", base.as_str(), "'");
            let msg = build_err(path, i + 1, detail.as_str());
            proof {
                assert(ty_step(stcur, lv[i as int], path@, i + 1, cons) == Err::<
                    TyState,
                    Seq<char>,
                >(err_msg(path@, i + 1, detail_dup(tag_split(ws[0]).0))));
            }
            return Err(msg);
        }
        let idx = SymCorpus::merge_type(ntypes, base.as_str(), toks);
        if cons {
            let tg: &str = match &tagopt {
                Some(t) => t.as_str(),
                None => "",
            };
            proof {
                reveal_strlit("");
                assert(""@ =~= Seq::<char>::empty());
                assert(tg@ == tag_str(tag_split(ws[0]).1));
            }
            remap_add(&mut remap, base.as_str(), tg, idx);
        } else {
            nameidx_set(&mut records, base.as_str(), idx);
            if SymCorpus::is_export(base.as_str()) {
                strset_insert(&mut expos, base.as_str());
            }
        }
        proof {
            let stnext = TyState {
                types: types_map(ntypes@),
                remap: remap_map(remap@),
                records: nameidx_map(records@),
                expos: strset(expos@),
            };
            assert(stnext == ty_step(stcur, lv[i as int], path@, i + 1, cons)->Ok_0);
            assert(ty_step(stcur, lv[i as int], path@, i + 1, cons) is Ok);
        }
        i = i + 1;
    }
    proof {
        assert(lv.skip(n as int) =~= Seq::<Seq<char>>::empty());
    }
    Ok((remap, records, expos))
}

impl SymCorpus {
    /// Expands the implicit references of one `F#` file record
    /// ([`expand_rec`]): every type reachable from the explicit records is
    /// added at variant index `0`, provided it has exactly one variant.
    #[verifier::loop_isolation(false)]
    pub fn extrapolate_file_record(
        types: &Vec<TypeEntry>,
        records: &mut Vec<NameIdx>,
        order: Vec<String>,
    ) -> (r: Result<(), String>)
        requires
            crate::text::str_views(order@).no_duplicates(),
            forall|k: Seq<char>|
                nameidx_map(old(records)@).contains_key(k) <==> crate::text::str_views(
                    order@,
                ).to_set().contains(k),
        ensures
            ({
                let f = expand_rec(
                    types_map(types@),
                    nameidx_map(old(records)@),
                    crate::text::str_views(order@),
                    0,
                    expand_fuel(types_map(types@), crate::text::str_views(order@)),
                );
                match r {
                    Ok(()) => f == Ok::<Map<Seq<char>, int>, Seq<char>>(
                        nameidx_map(final(records)@),
                    ),
                    Err(m) => f == Err::<Map<Seq<char>, int>, Seq<char>>(m@),
                }
            }),
    {
        let ghost tm = types_map(types@);
        let ghost ord0 = crate::text::str_views(order@);
        let ghost rec0 = nameidx_map(records@);
        let ghost fuel0 = expand_fuel(tm, ord0);
        let mut order = order;
        let mut i: usize = 0;
        proof {
            crate::sym::lemma_types_map_dom_finite(types@);
        }
        while i < order.len()
            invariant
                i <= order@.len(),
                crate::text::str_views(order@).no_duplicates(),
                forall|k: Seq<char>|
                    nameidx_map(records@).contains_key(k) <==> crate::text::str_views(
                        order@,
                    ).to_set().contains(k),
                ord0.is_prefix_of(crate::text::str_views(order@)),
                forall|j: int|
                    ord0.len() <= j < order@.len() ==> tm.dom().contains(
                        #[trigger] crate::text::str_views(order@)[j],
                    ),
                expand_rec(
                    tm,
                    nameidx_map(records@),
                    crate::text::str_views(order@),
                    i as int,
                    (fuel0 - i) as nat,
                ) == expand_rec(tm, rec0, ord0, 0, fuel0),
            decreases fuel0 - i,
        {
            let ghost ordv = crate::text::str_views(order@);
            let ghost recv = nameidx_map(records@);
            proof {
                // The fuel never runs out: `order` never exceeds it.
                crate::text::str_views(order@).unique_seq_to_set();
                assert(ordv.to_set().subset_of(ord0.to_set().union(tm.dom()))) by {
                    assert forall|k: Seq<char>| ordv.to_set().contains(k) implies ord0.to_set()
                        .union(tm.dom()).contains(k) by {
                        let j = choose|j: int| 0 <= j < ordv.len() && ordv[j] == k;
                        if j < ord0.len() {
                            assert(ord0[j] == k);
                            assert(ord0.to_set().contains(k));
                        } else {
                            assert(tm.dom().contains(k));
                        }
                    }
                }
                ord0.unique_seq_to_set();
                vstd::set_lib::lemma_len_union::<Seq<char>>(ord0.to_set(), tm.dom());
                vstd::set_lib::lemma_len_subset::<Seq<char>>(
                    ordv.to_set(),
                    ord0.to_set().union(tm.dom()),
                );
                assert(ordv.len() <= fuel0);
                assert(fuel0 - i > 0);
            }
            let nm = clone_string(&order[i]);
            let vidx_opt = nameidx_get(records, nm.as_str());
            let vidx = match vidx_opt {
                Some(v) => v,
                None => {
                    proof {
                        assert(ordv.to_set().contains(ordv[i as int]));
                    }
                    return Ok(());
                },
            };
            let ti = match crate::sym::types_find(types, nm.as_str()) {
                Some(t) => t,
                None => {
                    return Ok(());
                },
            };
            if !(vidx < types[ti].variants.len()) {
                return Ok(());
            }
            let toks = &types[ti].variants[vidx];
            let ghost toksv = crate::sym::toks_view(toks@);
            proof {
                assert(tm[nm@] == variants_view(types@[ti as int].variants@));
                assert(toksv == tm[nm@][vidx as int]);
            }
            let mut j: usize = 0;
            while j < toks.len()
                invariant
                    j <= toks@.len(),
                    ti < types@.len(),
                    vidx < types@[ti as int].variants@.len(),
                    toksv == crate::sym::toks_view(types@[ti as int].variants@[vidx as int]@),
                    ordv.is_prefix_of(crate::text::str_views(order@)),
                    crate::text::str_views(order@).no_duplicates(),
                    forall|k: Seq<char>|
                        nameidx_map(records@).contains_key(k) <==> crate::text::str_views(
                            order@,
                        ).to_set().contains(k),
                    ord0.is_prefix_of(crate::text::str_views(order@)),
                    forall|m: int|
                        ord0.len() <= m < order@.len() ==> tm.dom().contains(
                            #[trigger] crate::text::str_views(order@)[m],
                        ),
                    expand_refs(
                        tm,
                        nameidx_map(records@),
                        crate::text::str_views(order@),
                        toksv,
                        j as int,
                    ) == expand_refs(tm, recv, ordv, toksv, 0),
                decreases toks@.len() - j,
            {
                let ghost ordv2 = crate::text::str_views(order@);
                match &types[ti].variants[vidx][j] {
                    Token::Atom(_) => {},
                    Token::TypeRef(rn) => {
                        proof {
                            assert(toksv[j as int] == types@[ti as int].variants@[vidx as int]@[j as int]@);
                            assert(toksv[j as int].is_ref() && toksv[j as int].word() == rn@);
                        }
                        if !nameidx_contains(records, rn.as_str()) {
                            match crate::sym::types_find(types, rn.as_str()) {
                                None => {
                                    let detail = build_detail("Type ", rn.as_str(), " is not known");
                                    return Err(detail);
                                },
                                Some(ti2) => {
                                    if types[ti2].variants.len() != 1 {
                                        let detail = build_detail(
                                            "Type ",
                                            rn.as_str(),
                                            " is implicitly referenced but has multiple variants",
                                        );
                                        proof {
                                            assert(tm[rn@].len() == types@[ti2 as int].variants@.len());
                                        }
                                        return Err(detail);
                                    }
                                    proof {
                                        assert(tm[rn@].len() == types@[ti2 as int].variants@.len());
                                    }
                                    nameidx_set(records, rn.as_str(), 0);
                                    let rnc = clone_string(rn);
                                    strvec_push(&mut order, rnc);
                                    proof {
                                        let ordv3 = crate::text::str_views(order@);
                                        assert(ordv3 =~= ordv2.push(rn@));
                                        assert(!ordv2.to_set().contains(rn@));
                                        assert(ordv3.no_duplicates()) by {
                                            assert(forall|m: int|
                                                0 <= m < ordv2.len() ==> #[trigger] ordv2[m]
                                                    != rn@ && ordv3[m] == ordv2[m]);
                                        }
                                        assert forall|k: Seq<char>|
                                            nameidx_map(records@).contains_key(k) <==> ordv3.to_set()
                                                .contains(k) by {
                                            if k != rn@ {
                                                assert(ordv3.to_set().contains(k) == ordv2.to_set()
                                                    .contains(k)) by {
                                                    if ordv3.to_set().contains(k) {
                                                        let m = choose|m: int|
                                                            0 <= m < ordv3.len() && ordv3[m] == k;
                                                        assert(m < ordv2.len());
                                                        assert(ordv2[m] == k);
                                                        assert(ordv2.to_set().contains(k));
                                                    }
                                                    if ordv2.to_set().contains(k) {
                                                        let m = choose|m: int|
                                                            0 <= m < ordv2.len() && ordv2[m] == k;
                                                        assert(ordv3[m] == k);
                                                        assert(ordv3.to_set().contains(k));
                                                    }
                                                }
                                            } else {
                                                assert(ordv3[ordv3.len() - 1] == rn@);
                                            }
                                        }
                                        assert(ordv2.is_prefix_of(ordv3));
                                    }
                                },
                            }
                        }
                    },
                }
                j = j + 1;
            }
            proof {
                let ordv4 = crate::text::str_views(order@);
                assert(expand_refs(tm, recv, ordv, toksv, 0) == Ok::<
                    (Map<Seq<char>, int>, Seq<Seq<char>>),
                    Seq<char>,
                >((nameidx_map(records@), ordv4)));
            }
            i = i + 1;
        }
        proof {
            assert(expand_rec(
                tm,
                nameidx_map(records@),
                crate::text::str_views(order@),
                i as int,
                (fuel0 - i) as nat,
            ) == Ok::<Map<Seq<char>, int>, Seq<char>>(nameidx_map(records@)));
        }
        Ok(())
    }
}

/// Pushes one string, for use where the views are tracked by the caller.
pub(crate) fn strvec_push(ss: &mut Vec<String>, s: String)
    ensures
        final(ss)@ == old(ss)@.push(s),
{
    ss.push(s);
}

/// Reads every `F#` record line of a consolidated stream ([`fs_fold`]),
/// appending the declared files and installing their exports.
#[verifier::loop_isolation(false)]
fn read_file_decls(
    files: &mut Vec<crate::sym::SymFile>,
    nexports: &mut Vec<NameIdx>,
    ntypes: &Vec<TypeEntry>,
    remap: &Vec<RemapEntry>,
    lines: &Vec<String>,
    path: &str,
) -> (r: Result<(), String>)
    ensures
        ({
            let f0 = FsState {
                files: crate::sym::files_views(old(files)@),
                exports: nameidx_map(old(nexports)@),
                seen: Set::empty(),
            };
            let f = fs_fold(
                types_map(ntypes@),
                remap_map(remap@),
                f0,
                crate::text::str_views(lines@),
                path@,
                1,
            );
            match r {
                Ok(()) => f matches Ok(fst) && fst.files == crate::sym::files_views(final(files)@)
                    && fst.exports == nameidx_map(final(nexports)@),
                Err(m) => f == Err::<FsState, Seq<char>>(m@) && old(files)@.is_prefix_of(
                    final(files)@,
                ),
            }
        }),
{
    let ghost lv = crate::text::str_views(lines@);
    let ghost tm = types_map(ntypes@);
    let ghost rm = remap_map(remap@);
    let ghost fst0 = FsState {
        files: crate::sym::files_views(files@),
        exports: nameidx_map(nexports@),
        seen: Set::empty(),
    };
    let mut seen: Vec<String> = Vec::new();
    let n = lines.len();
    let mut i: usize = 0;
    proof {
        assert(lv.skip(0) == lv);
        assert(strset(seen@) =~= Set::<Seq<char>>::empty());
    }
    while i < n
        invariant
            i <= n,
            old(files)@.is_prefix_of(files@),
            fs_fold(
                tm,
                rm,
                FsState {
                    files: crate::sym::files_views(files@),
                    exports: nameidx_map(nexports@),
                    seen: strset(seen@),
                },
                lv.skip(i as int),
                path@,
                i + 1,
            ) == fs_fold(tm, rm, fst0, lv, path@, 1),
        decreases n - i,
    {
        let ghost stcur = FsState {
            files: crate::sym::files_views(files@),
            exports: nameidx_map(nexports@),
            seen: strset(seen@),
        };
        proof {
            assert(lv.skip(i as int).first() == lv[i as int]);
            assert(lv.skip(i as int).drop_first() == lv.skip(i + 1)) by {
                lv.lemma_seq_skip_skip(i as int);
            }
            assert(lv[i as int] == lines@[i as int]@);
        }
        if !line_is_file_decl(lines[i].as_str()) {
            i = i + 1;
            continue ;
        }
        let words = split_words(lines[i].as_str());
        let ghost ws = crate::text::str_views(words@);
        proof {
            lemma_fsharp_words(lv[i as int]);
            assert(ws[0] == words@[0]@);
        }
        let n0 = words[0].as_str().unicode_len();
        let fname = words[0].as_str().substring_char(2, n0).to_owned();
        proof {
            assert(fname@ =~= ws[0].skip(2));
        }
        if strset_contains(&seen, fname.as_str()) {
            let detail = build_detail("Duplicate record '", words[0].as_str(), "'");
            let msg = build_err(path, i + 1, detail.as_str());
            proof {
                assert(fs_line(tm, rm, stcur, lv[i as int], path@, i + 1) == Err::<
                    FsState,
                    Seq<char>,
                >(err_msg(path@, i + 1, detail_dup(ws[0]))));
            }
            return Err(msg);
        }
        let fidx = files.len();
        let mut frecords: Vec<NameIdx> = Vec::new();
        let mut order: Vec<String> = Vec::new();
        let ghost exp_in = nameidx_map(nexports@);
        proof {
            assert(nameidx_map(frecords@) =~= Map::<Seq<char>, int>::empty());
            assert(crate::text::str_views(order@) =~= Seq::<Seq<char>>::empty());
            assert(crate::text::str_views(order@).to_set() =~= Set::<Seq<char>>::empty());
        }
        let nw = words.len();
        let mut j: usize = 1;
        while j < nw
            invariant
                1 <= j <= nw,
                crate::text::str_views(order@).no_duplicates(),
                forall|k: Seq<char>|
                    nameidx_map(frecords@).contains_key(k) <==> crate::text::str_views(
                        order@,
                    ).to_set().contains(k),
                fs_toks(
                    rm,
                    nameidx_map(frecords@),
                    crate::text::str_views(order@),
                    nameidx_map(nexports@),
                    fidx as int,
                    ws,
                    j as int,
                ) == fs_toks(
                    rm,
                    Map::empty(),
                    Seq::empty(),
                    exp_in,
                    fidx as int,
                    ws,
                    1,
                ),
            decreases nw - j,
        {
            proof {
                assert(ws[j as int] == words@[j as int]@);
            }
            let (base, tagopt) = split_tag(words[j].as_str());
            let tg: &str = match &tagopt {
                Some(t) => t.as_str(),
                None => "",
            };
            proof {
                reveal_strlit("");
                assert(""@ =~= Seq::<char>::empty());
                assert(tg@ == tag_str(tag_split(ws[j as int]).1));
            }
            let idx = match remap_get(remap, base.as_str(), tg) {
                Some(v) => v,
                None => {
                    let detail = build_detail("Type ", words[j].as_str(), " is not known");
                    let msg = build_err(path, i + 1, detail.as_str());
                    proof {
                        assert(fs_line(tm, rm, stcur, lv[i as int], path@, i + 1) == Err::<
                            FsState,
                            Seq<char>,
                        >(err_msg(path@, i + 1, detail_unknown(ws[j as int]))));
                    }
                    return Err(msg);
                },
            };
            let ghost ordv2 = crate::text::str_views(order@);
            if !nameidx_contains(&frecords, base.as_str()) {
                strvec_push(&mut order, clone_string(&base));
                proof {
                    let ordv3 = crate::text::str_views(order@);
                    assert(ordv3 =~= ordv2.push(base@));
                    assert(!ordv2.to_set().contains(base@));
                    assert(ordv3.no_duplicates()) by {
                        assert(forall|m: int|
                            0 <= m < ordv2.len() ==> #[trigger] ordv2[m] != base@ && ordv3[m]
                                == ordv2[m]);
                    }
                }
            }
            nameidx_set(&mut frecords, base.as_str(), idx);
            if SymCorpus::is_export(base.as_str()) {
                nameidx_set(nexports, base.as_str(), fidx);
            }
            proof {
                let ordv4 = crate::text::str_views(order@);
                assert forall|k: Seq<char>|
                    nameidx_map(frecords@).contains_key(k) <==> ordv4.to_set().contains(k) by {
                    if k != base@ {
                        assert(ordv4.to_set().contains(k) == ordv2.to_set().contains(k)) by {
                            if ordv4.to_set().contains(k) {
                                let m = choose|m: int| 0 <= m < ordv4.len() && ordv4[m] == k;
                                assert(m < ordv2.len());
                                assert(ordv2[m] == k);
                                assert(ordv2.to_set().contains(k));
                            }
                            if ordv2.to_set().contains(k) {
                                let m = choose|m: int| 0 <= m < ordv2.len() && ordv2[m] == k;
                                assert(ordv4[m] == k);
                                assert(ordv4.to_set().contains(k));
                            }
                        }
                    } else {
                        assert(ordv4.to_set().contains(base@)) by {
                            if ordv2.to_set().contains(base@) {
                                let m = choose|m: int| 0 <= m < ordv2.len() && ordv2[m] == base@;
                                assert(ordv4[m] == base@);
                            } else {
                                assert(ordv4[ordv4.len() - 1] == base@);
                            }
                        }
                    }
                }
            }
            j = j + 1;
        }
        match SymCorpus::extrapolate_file_record(ntypes, &mut frecords, order) {
            Err(detail) => {
                let msg = build_err(path, i + 1, detail.as_str());
                proof {
                    assert(fs_line(tm, rm, stcur, lv[i as int], path@, i + 1) == Err::<
                        FsState,
                        Seq<char>,
                    >(err_msg(path@, i + 1, detail@)));
                }
                return Err(msg);
            },
            Ok(()) => {},
        }
        strset_insert(&mut seen, fname.as_str());
        let ghost files_before = files@;
        files.push(crate::sym::SymFile { path: fname, records: frecords });
        proof {
            assert(crate::sym::files_views(files@) =~= crate::sym::files_views(
                files_before,
            ).push(files@.last()@));
            assert(old(files)@.is_prefix_of(files@)) by {
                assert(forall|m: int|
                    0 <= m < old(files)@.len() ==> old(files)@[m] == #[trigger] files@[m]);
            }
            let stnext = FsState {
                files: crate::sym::files_views(files@),
                exports: nameidx_map(nexports@),
                seen: strset(seen@),
            };
            assert(fs_line(tm, rm, stcur, lv[i as int], path@, i + 1) is Ok);
            assert(stnext == fs_line(tm, rm, stcur, lv[i as int], path@, i + 1)->Ok_0);
        }
        i = i + 1;
    }
    proof {
        assert(lv.skip(n as int) =~= Seq::<Seq<char>>::empty());
    }
    Ok(())
}

impl SymCorpus {
    /// Appends one `.symtypes` stream — single-file or consolidated — to the
    /// corpus ([`load_spec`]). On a parse error or undecodable bytes the
    /// corpus is left unchanged and the error is returned.
    pub fn load_buffer(&mut self, path: &str, data: &[u8]) -> (r: Result<(), crate::Error>)
        ensures
            match r {
                Ok(()) => vstd::utf8::valid_utf8(data@) && load_spec(
                    old(self)@,
                    path@,
                    vstd::utf8::decode_utf8(data@),
                ) == Ok::<CorpusM, Seq<char>>(final(self)@),
                Err(e) => final(self)@ == old(self)@ && match e {
                    crate::Error::Parse(m) => vstd::utf8::valid_utf8(data@) && load_spec(
                        old(self)@,
                        path@,
                        vstd::utf8::decode_utf8(data@),
                    ) == Err::<CorpusM, Seq<char>>(m@),
                    crate::Error::IO { .. } => !vstd::utf8::valid_utf8(data@),
                },
            },
            old(self).wf() && r is Ok ==> final(self).wf(),
            old(self).wf() && old(self).closed() && r is Ok && is_consolidated(
                spec_split_lines(vstd::utf8::decode_utf8(data@)),
            ) ==> final(self).closed(),
    {
        let ghost c0 = self@;
        proof {
            if self.wf() {
                crate::sym::lemma_types_map_dom_finite(self.types@);
            }
        }
        let text = match decode_bytes(data) {
            Ok(t) => t,
            Err(ioe) => {
                let desc = build_detail("Failed to read data from file '", path, "'");
                proof {
                    assert(self@ =~~= c0);
                }
                return Err(crate::Error::new_io(desc.as_str(), ioe));
            },
        };
        let lines = split_lines(text.as_str());
        let ghost lv = crate::text::str_views(lines@);
        let cons = scan_consolidated(&lines);
        let mut ntypes = clone_types(&self.types);
        let (remap, records, expos) = match read_type_records(&mut ntypes, &lines, path, cons) {
            Ok(t) => t,
            Err(m) => {
                proof {
                    assert(self@ =~~= c0);
                }
                return Err(crate::Error::new_parse(m.as_str()));
            },
        };
        if !cons {
            let nf = self.files.len();
            let ghost exp0 = nameidx_map(self.exports@);
            let ghost expos_v = strset(expos@);
            let mut p: usize = 0;
            while p < expos.len()
                invariant
                    p <= expos@.len(),
                    nf == self.files@.len(),
                    forall|k: Seq<char>| #![trigger nameidx_map(self.exports@).contains_key(k)]
                        nameidx_map(self.exports@).contains_key(k) <==> (exp0.contains_key(k)
                            || exists|q: int| 0 <= q < p && #[trigger] expos@[q]@ == k),
                    forall|k: Seq<char>| #[trigger]
                        nameidx_map(self.exports@).contains_key(k) ==> nameidx_map(self.exports@)[k]
                            == (if exists|q: int| 0 <= q < p && #[trigger] expos@[q]@ == k {
                            nf as int
                        } else {
                            exp0[k]
                        }),
                    self.types@ == old(self).types@,
                    self.files@ == old(self).files@,
                decreases expos@.len() - p,
            {
                let ghost em0 = nameidx_map(self.exports@);
                nameidx_set(&mut self.exports, expos[p].as_str(), nf);
                proof {
                    let kk = expos@[p as int]@;
                    let em1 = nameidx_map(self.exports@);
                    assert(em1 == em0.insert(kk, nf as int));
                    assert forall|k: Seq<char>| #[trigger]
                        em1.contains_key(k) implies (exp0.contains_key(k) || exists|q: int|
                        0 <= q < p + 1 && #[trigger] expos@[q]@ == k) by {
                        if k == kk {
                            assert(expos@[p as int]@ == k);
                        } else {
                            assert(em0.contains_key(k));
                            if !exp0.contains_key(k) {
                                let q = choose|q: int| 0 <= q < p && #[trigger] expos@[q]@ == k;
                                assert(expos@[q]@ == k);
                            }
                        }
                    }
                    assert forall|k: Seq<char>|
                        (exp0.contains_key(k) || exists|q: int|
                            0 <= q < p + 1 && #[trigger] expos@[q]@ == k) implies #[trigger] em1.contains_key(
                        k,
                    ) by {
                        if k != kk {
                            if exp0.contains_key(k) {
                                assert(em0.contains_key(k));
                            } else {
                                let q = choose|q: int|
                                    0 <= q < p + 1 && #[trigger] expos@[q]@ == k;
                                assert(q < p);
                                assert(em0.contains_key(k));
                            }
                        }
                    }
                    assert forall|k: Seq<char>| #[trigger]
                        em1.contains_key(k) implies em1[k] == (if exists|q: int|
                        0 <= q < p + 1 && #[trigger] expos@[q]@ == k {
                        nf as int
                    } else {
                        exp0[k]
                    }) by {
                        if k == kk {
                            assert(expos@[p as int]@ == k);
                        } else {
                            assert(em1[k] == em0[k]);
                            if exists|q: int| 0 <= q < p + 1 && #[trigger] expos@[q]@ == k {
                                let q = choose|q: int|
                                    0 <= q < p + 1 && #[trigger] expos@[q]@ == k;
                                assert(q < p);
                                assert(exists|q2: int| 0 <= q2 < p && #[trigger] expos@[q2]@ == k);
                            }
                        }
                    }
                }
                p = p + 1;
            }
            self.types = ntypes;
            self.files.push(SymFile { path: path.to_owned(), records });
            proof {
                let newexp = Map::new(
                    |k: Seq<char>| c0.exports.contains_key(k) || expos_v.contains(k),
                    |k: Seq<char>|
                        if expos_v.contains(k) {
                            c0.files.len() as int
                        } else {
                            c0.exports[k]
                        },
                );
                assert(nameidx_map(self.exports@) =~= newexp) by {
                    assert(c0.files.len() == nf as int);
                    let em = nameidx_map(self.exports@);
                    assert forall|k: Seq<char>| #[trigger] em.contains_key(k) implies newexp.dom()
                        .contains(k) && em[k] == newexp[k] by {
                        assert(exp0.contains_key(k) || exists|q: int|
                            0 <= q < p && #[trigger] expos@[q]@ == k);
                        if exists|q: int| 0 <= q < p && #[trigger] expos@[q]@ == k {
                            let q = choose|q: int| 0 <= q < p && #[trigger] expos@[q]@ == k;
                            assert(expos_v.contains(k));
                            assert(em[k] == nf as int);
                        } else {
                            assert(exp0.contains_key(k));
                            assert(!expos_v.contains(k)) by {
                                if expos_v.contains(k) {
                                    let q = choose|q: int|
                                        0 <= q < expos@.len() && #[trigger] expos@[q]@ == k;
                                    assert(expos@[q]@ == k && 0 <= q < p);
                                }
                            }
                            assert(em[k] == exp0[k]);
                        }
                    }
                    assert forall|k: Seq<char>| #[trigger] newexp.dom().contains(k) implies em.contains_key(
                        k,
                    ) by {
                        assert(c0.exports == exp0);
                        if expos_v.contains(k) {
                            let q = choose|q: int|
                                0 <= q < expos@.len() && #[trigger] expos@[q]@ == k;
                            assert(0 <= q < p && expos@[q]@ == k);
                            assert(exists|q2: int| 0 <= q2 < p && #[trigger] expos@[q2]@ == k);
                            assert(em.contains_key(k));
                        } else {
                            assert(exp0.contains_key(k));
                            assert(em.contains_key(k));
                        }
                    }
                }
                assert(crate::sym::files_views(self.files@) =~= c0.files.push(
                    FileM { path: path@, records: nameidx_map(records@) },
                ));
                assert(self@ =~~= load_spec(c0, path@, text@)->Ok_0);
                if crate::sym::corpus_wf(c0) {
                    lemma_load_preserves_wf(c0, path@, text@);
                }
            }
            return Ok(());
        }
        let l1 = self.files.len();
        let mut nexports = clone_nameidx(&self.exports);
        match read_file_decls(&mut self.files, &mut nexports, &ntypes, &remap, &lines, path) {
            Err(m) => {
                self.files.truncate(l1);
                proof {
                    assert(self.files@ =~= old(self).files@);
                    assert(self@ =~~= c0);
                }
                return Err(crate::Error::new_parse(m.as_str()));
            },
            Ok(()) => {
                self.types = ntypes;
                self.exports = nexports;
                proof {
                    assert(self@ =~~= load_spec(c0, path@, text@)->Ok_0);
                    if crate::sym::corpus_wf(c0) {
                        lemma_load_preserves_wf(c0, path@, text@);
                        if crate::sym::corpus_closed(c0) && is_consolidated(
                            spec_split_lines(text@),
                        ) {
                            lemma_load_consolidated_closed(c0, path@, text@);
                        }
                    }
                }
                Ok(())
            },
        }
    }
}

} // verus!

//! Structural comparison of two corpora, restricted to the types reachable
//! from their shared exports.

use vstd::prelude::*;

use crate::sym::{
    nameidx_contains, nameidx_get, nameidx_map, toks_view, types_map, CorpusM, NameIdx, SymCorpus,
    SymFile, Token, TokenM, TypeEntry,
};
use crate::sym::write::{sort_strings, str_le_fn};
use crate::text::{str_views, str_eq_str};

verus! {

// ---------------------------------------------------------------------------
// Comparing two token sequences
// ---------------------------------------------------------------------------

/// Whether two resolved token sequences compare equal: equal length, and at
/// every position equal atoms, or references to the same name (whose own
/// difference, if any, is reported under that name).
pub open spec fn toks_cmp_eq(ta: Seq<TokenM>, tb: Seq<TokenM>) -> bool {
    &&& ta.len() == tb.len()
    &&& forall|i: int| 0 <= i < ta.len() ==> tok_pos_eq(#[trigger] ta[i], tb[i])
}

/// Positionwise token comparison.
pub open spec fn tok_pos_eq(a: TokenM, b: TokenM) -> bool {
    match (a, b) {
        (TokenM::TypeRef(r1), TokenM::TypeRef(r2)) => r1 == r2,
        (TokenM::Atom(w1), TokenM::Atom(w2)) => w1 == w2,
        _ => false,
    }
}

/// The names referenced at positions where both sides carry the same
/// reference; these are the comparison's recursion points.
pub open spec fn shared_refs(ta: Seq<TokenM>, tb: Seq<TokenM>, i: int) -> Seq<Seq<char>>
    decreases ta.len() - i,
{
    if i < 0 || i >= ta.len() {
        Seq::empty()
    } else {
        let head: Seq<Seq<char>> = if i < tb.len() && ta[i].is_ref() && tb[i].is_ref()
            && ta[i].word() == tb[i].word() {
            seq![ta[i].word()]
        } else {
            Seq::empty()
        };
        head + shared_refs(ta, tb, i + 1)
    }
}

// ---------------------------------------------------------------------------
// Reported changes
// ---------------------------------------------------------------------------

/// One reported structural difference.
#[verifier::ext_equal]
pub struct ChangeM {
    pub name: Seq<char>,
    pub tokens: Seq<TokenM>,
    pub other_tokens: Seq<TokenM>,
}

/// Appends a difference unless the same one was already recorded.
pub open spec fn record_change(cs: Seq<ChangeM>, c: ChangeM) -> Seq<ChangeM> {
    if exists|i: int| 0 <= i < cs.len() && cs[i] == c {
        cs
    } else {
        cs.push(c)
    }
}

/// One reported difference, executable.
pub struct TypeChange {
    pub name: String,
    pub tokens: Vec<Token>,
    pub other_tokens: Vec<Token>,
}

impl View for TypeChange {
    type V = ChangeM;

    open spec fn view(&self) -> ChangeM {
        ChangeM {
            name: self.name@,
            tokens: toks_view(self.tokens@),
            other_tokens: toks_view(self.other_tokens@),
        }
    }
}

pub open spec fn changes_views(cs: Seq<TypeChange>) -> Seq<ChangeM> {
    cs.map_values(|c: TypeChange| c@)
}

// ---------------------------------------------------------------------------
// The comparison walk
// ---------------------------------------------------------------------------

/// Resolution of one name inside one file of one corpus.
pub open spec fn resolves(c: CorpusM, fr: Map<Seq<char>, int>, n: Seq<char>) -> bool {
    fr.contains_key(n) && c.types.contains_key(n) && 0 <= fr[n] < c.types[n].len()
}

pub open spec fn resolve(c: CorpusM, fr: Map<Seq<char>, int>, n: Seq<char>) -> Seq<TokenM> {
    c.types[n][fr[n]]
}

pub open spec fn cmp_guard(a: CorpusM, fa: Map<Seq<char>, int>, processed: Set<Seq<char>>) -> bool {
    &&& a.types.dom().finite()
    &&& processed.subset_of(fa.dom())
    &&& fa.dom().subset_of(a.types.dom())
    &&& forall|n: Seq<char>, p: int|
        resolves(a, fa, n) && 0 <= p < resolve(a, fa, n).len() && (#[trigger] resolve(
            a,
            fa,
            n,
        )[p]).is_ref() ==> fa.contains_key(resolve(a, fa, n)[p].word())
}

#[via_fn]
proof fn cmp_walk_decreases(
    a: CorpusM,
    fa: Map<Seq<char>, int>,
    b: CorpusM,
    fb: Map<Seq<char>, int>,
    stack: Seq<Seq<char>>,
    processed: Set<Seq<char>>,
    changes: Seq<ChangeM>,
)
{
    if stack.len() > 0 {
        let name = stack.last();
        if !processed.contains(name) && fa.contains_key(name) {
            assert(fa.dom().contains(name));
            vstd::set_lib::lemma_len_subset::<Seq<char>>(processed, fa.dom());
            vstd::set_lib::lemma_len_subset::<Seq<char>>(fa.dom(), a.types.dom());
            assert(processed.insert(name).subset_of(fa.dom()));
            vstd::set_lib::lemma_len_subset::<Seq<char>>(processed.insert(name), fa.dom());
            assert(processed.insert(name).len() == processed.len() + 1);
        }
    }
}

/// The comparison walk over one export's reachable types: each visited name
/// is compared once; unequal sides are recorded; shared references are
/// followed depth-first.
pub open spec fn cmp_walk(
    a: CorpusM,
    fa: Map<Seq<char>, int>,
    b: CorpusM,
    fb: Map<Seq<char>, int>,
    stack: Seq<Seq<char>>,
    processed: Set<Seq<char>>,
    changes: Seq<ChangeM>,
) -> (Set<Seq<char>>, Seq<ChangeM>)
    decreases fa.dom().len() - processed.len(), stack.len(),
        when cmp_guard(a, fa, processed)
    via cmp_walk_decreases
{
    if stack.len() == 0 {
        (processed, changes)
    } else {
        let name = stack.last();
        let rest = stack.drop_last();
        if processed.contains(name) || !fa.contains_key(name) {
            cmp_walk(a, fa, b, fb, rest, processed, changes)
        } else {
            let processed2 = processed.insert(name);
            if !(resolves(a, fa, name) && resolves(b, fb, name)) {
                cmp_walk(a, fa, b, fb, rest, processed2, changes)
            } else {
                let ta = resolve(a, fa, name);
                let tb = resolve(b, fb, name);
                let changes2 = if !toks_cmp_eq(ta, tb) {
                    record_change(changes, ChangeM { name, tokens: ta, other_tokens: tb })
                } else {
                    changes
                };
                cmp_walk(a, fa, b, fb, rest + shared_refs(ta, tb, 0).reverse(), processed2, changes2)
            }
        }
    }
}

/// The first-kept occurrences of a name list, in order.
pub open spec fn dedup_first(ns: Seq<Seq<char>>) -> Seq<Seq<char>>
    decreases ns.len(),
{
    if ns.len() == 0 {
        Seq::empty()
    } else {
        dedup_first(ns.drop_last()) + (if ns.drop_last().contains(ns.last()) {
            Seq::empty()
        } else {
            seq![ns.last()]
        })
    }
}

/// The export names of a corpus in comparison order: first occurrences,
/// sorted.
pub open spec fn export_order(exports: Seq<NameIdx>) -> Seq<Seq<char>> {
    dedup_first(exports.map_values(|e: NameIdx| e.name@)).sort_by(str_le_fn())
}

/// Compares every export of `A` in order: a missing one is reported, a
/// shared one is walked.
pub open spec fn cmp_exports(
    a: CorpusM,
    b: CorpusM,
    names: Seq<Seq<char>>,
    k: int,
    missing: Seq<Seq<char>>,
    changes: Seq<ChangeM>,
) -> (Seq<Seq<char>>, Seq<ChangeM>)
    decreases names.len() - k,
{
    if k < 0 || k >= names.len() {
        (missing, changes)
    } else {
        let n = names[k];
        if !b.exports.contains_key(n) {
            cmp_exports(a, b, names, k + 1, missing.push(n), changes)
        } else if !(a.exports.contains_key(n) && 0 <= a.exports[n] < a.files.len() && 0 <= b.exports[n]
            < b.files.len()) {
            cmp_exports(a, b, names, k + 1, missing, changes)
        } else {
            let fa = a.files[a.exports[n]].records;
            let fb = b.files[b.exports[n]].records;
            let (_, changes2) = cmp_walk(a, fa, b, fb, seq![n], Set::empty(), changes);
            cmp_exports(a, b, names, k + 1, missing, changes2)
        }
    }
}

/// The exports of `B` that `A` lacks, in order.
pub open spec fn cmp_missing(a: CorpusM, names: Seq<Seq<char>>, k: int) -> Seq<Seq<char>>
    decreases names.len() - k,
{
    if k < 0 || k >= names.len() {
        Seq::empty()
    } else {
        (if !a.exports.contains_key(names[k]) {
            seq![names[k]]
        } else {
            Seq::empty()
        }) + cmp_missing(a, names, k + 1)
    }
}

// ---------------------------------------------------------------------------
// Results
// ---------------------------------------------------------------------------

/// What a comparison reports: exports only one side has, and the
/// deduplicated structural differences in walk order.
pub struct CompareResult {
    pub missing_a: Vec<String>,
    pub missing_b: Vec<String>,
    pub changes: Vec<TypeChange>,
}

impl SymCorpus {
    /// Resolves a name through a file's records into its token sequence.
    pub fn get_type_tokens<'a>(symtypes: &'a SymCorpus, file: &SymFile, name: &str) -> (r: Option<
        &'a Vec<Token>,
    >)
        ensures
            match r {
                Some(t) => resolves(symtypes@, file@.records, name@) && toks_view(t@) == resolve(
                    symtypes@,
                    file@.records,
                    name@,
                ),
                None => !resolves(symtypes@, file@.records, name@),
            },
    {
        let vidx = match nameidx_get(&file.records, name) {
            Some(v) => v,
            None => {
                return None;
            },
        };
        let ti = match crate::sym::types_find(&symtypes.types, name) {
            Some(t) => t,
            None => {
                return None;
            },
        };
        if vidx < symtypes.types[ti].variants.len() {
            proof {
                assert(symtypes@.types[name@] == crate::sym::variants_view(
                    symtypes.types@[ti as int].variants@,
                ));
            }
            Some(&symtypes.types[ti].variants[vidx])
        } else {
            None
        }
    }

    /// Records a structural difference unless the same one is already
    /// present ([`record_change`]).
    #[verifier::loop_isolation(false)]
    pub fn record_type_change(
        changes: &mut Vec<TypeChange>,
        name: &str,
        tokens: Vec<Token>,
        other_tokens: Vec<Token>,
    )
        ensures
            changes_views(final(changes)@) == record_change(
                changes_views(old(changes)@),
                ChangeM {
                    name: name@,
                    tokens: toks_view(tokens@),
                    other_tokens: toks_view(other_tokens@),
                },
            ),
    {
        let ghost c = ChangeM {
            name: name@,
            tokens: toks_view(tokens@),
            other_tokens: toks_view(other_tokens@),
        };
        let mut i: usize = 0;
        while i < changes.len()
            invariant
                i <= changes@.len(),
                forall|m: int| 0 <= m < i ==> changes_views(changes@)[m] != c,
                toks_view(tokens@) == c.tokens,
                toks_view(other_tokens@) == c.other_tokens,
            decreases changes@.len() - i,
        {
            proof {
                assert(changes_views(changes@)[i as int] == changes@[i as int]@);
            }
            if str_eq_str(changes[i].name.as_str(), name) && SymCorpus::are_tokens_eq(
                &changes[i].tokens,
                &tokens,
            ) && SymCorpus::are_tokens_eq(&changes[i].other_tokens, &other_tokens) {
                proof {
                    assert(changes@[i as int]@ =~= c);
                    assert(changes_views(changes@)[i as int] == c);
                }
                return ;
            }
            proof {
                assert(changes_views(changes@)[i as int] != c);
            }
            i = i + 1;
        }
        let ghost before = changes_views(changes@);
        proof {
            assert(forall|m: int| 0 <= m < before.len() ==> #[trigger] before[m] != c);
        }
        changes.push(TypeChange { name: name.to_owned(), tokens, other_tokens });
        proof {
            assert(changes_views(changes@) =~= before.push(c));
        }
    }

    /// Compares two resolved token sequences, returning whether they are
    /// structurally equal and the shared references to follow.
    fn compare_tokens(ta: &Vec<Token>, tb: &Vec<Token>) -> (r: (bool, Vec<String>))
        ensures
            r.0 == toks_cmp_eq(toks_view(ta@), toks_view(tb@)),
            str_views(r.1@) == shared_refs(toks_view(ta@), toks_view(tb@), 0),
    {
        let ghost va = toks_view(ta@);
        let ghost vb = toks_view(tb@);
        let mut eq = ta.len() == tb.len();
        let mut shared: Vec<String> = Vec::new();
        let mut i: usize = 0;
        proof {
            assert(str_views(shared@) =~= Seq::<Seq<char>>::empty());
            if va.len() != vb.len() {
                assert(!toks_cmp_eq(va, vb));
            }
        }
        while i < ta.len()
            invariant
                i <= ta@.len(),
                va == toks_view(ta@),
                vb == toks_view(tb@),
                eq ==> va.len() == vb.len(),
                eq == (va.len() == vb.len() && forall|m: int|
                    0 <= m < i ==> tok_pos_eq(#[trigger] va[m], vb[m])),
                str_views(shared@) + shared_refs(va, vb, i as int) == shared_refs(va, vb, 0),
            decreases ta@.len() - i,
        {
            proof {
                assert(va[i as int] == ta@[i as int]@);
                if (i as int) < vb.len() {
                    assert(vb[i as int] == tb@[i as int]@);
                }
            }
            let mut pos_eq = false;
            if i < tb.len() {
                match (&ta[i], &tb[i]) {
                    (Token::TypeRef(r1), Token::TypeRef(r2)) => {
                        if str_eq_str(r1.as_str(), r2.as_str()) {
                            pos_eq = true;
                            let ghost before = str_views(shared@);
                            crate::sym::load::strvec_push(
                                &mut shared,
                                crate::sym::load::clone_string(r1),
                            );
                            proof {
                                assert(str_views(shared@) =~= before.push(r1@));
                            }
                        }
                    },
                    (Token::Atom(w1), Token::Atom(w2)) => {
                        pos_eq = str_eq_str(w1.as_str(), w2.as_str());
                    },
                    _ => {},
                }
            }
            proof {
                if (i as int) < vb.len() {
                    assert(pos_eq == tok_pos_eq(va[i as int], vb[i as int]));
                }
                assert(shared_refs(va, vb, i as int) == (if (i as int) < vb.len()
                    && va[i as int].is_ref() && vb[i as int].is_ref() && va[i as int].word()
                    == vb[i as int].word() {
                    seq![va[i as int].word()]
                } else {
                    Seq::<Seq<char>>::empty()
                }) + shared_refs(va, vb, i + 1));
            }
            if !pos_eq {
                eq = false;
            }
            i = i + 1;
        }
        proof {
            assert(shared_refs(va, vb, va.len() as int) =~= Seq::<Seq<char>>::empty());
            if eq {
                assert(toks_cmp_eq(va, vb));
            }
        }
        (eq, shared)
    }

    /// The comparison walk from the names on `stack` ([`cmp_walk`]): every
    /// reachable shared type is compared once and differences are recorded.
    #[verifier::loop_isolation(false)]
    pub fn compare_types(
        &self,
        other: &SymCorpus,
        file: &SymFile,
        other_file: &SymFile,
        stack: Vec<String>,
        processed: &mut Vec<String>,
        changes: &mut Vec<TypeChange>,
    )
        requires
            cmp_guard(self@, file@.records, crate::sym::load::strset(old(processed)@)),
            str_views(old(processed)@).no_duplicates(),
        ensures
            ({
                let (p2, c2) = cmp_walk(
                    self@,
                    file@.records,
                    other@,
                    other_file@.records,
                    str_views(stack@),
                    crate::sym::load::strset(old(processed)@),
                    changes_views(old(changes)@),
                );
                &&& p2 == crate::sym::load::strset(final(processed)@)
                &&& c2 == changes_views(final(changes)@)
            }),
    {
        let ghost a = self@;
        let ghost fa = file@.records;
        let ghost b = other@;
        let ghost fb = other_file@.records;
        let ghost pr0 = crate::sym::load::strset(processed@);
        let ghost ch0 = changes_views(changes@);
        let ghost sv0 = str_views(stack@);
        let mut stack = stack;
        loop
            invariant
                cmp_guard(a, fa, crate::sym::load::strset(processed@)),
                str_views(processed@).no_duplicates(),
                cmp_walk(
                    a,
                    fa,
                    b,
                    fb,
                    str_views(stack@),
                    crate::sym::load::strset(processed@),
                    changes_views(changes@),
                ) == cmp_walk(a, fa, b, fb, sv0, pr0, ch0),
            decreases fa.dom().len() - processed@.len(), stack@.len(),
        {
            if stack.len() == 0 {
                break ;
            }
            let ghost prcur = crate::sym::load::strset(processed@);
            let ghost sv = str_views(stack@);
            proof {
                // The processed list never outgrows the file's records.
                let pv = str_views(processed@);
                pv.unique_seq_to_set();
                assert(pv.to_set() =~= prcur) by {
                    assert forall|k: Seq<char>| pv.to_set().contains(k) <==> prcur.contains(k) by {
                        if pv.to_set().contains(k) {
                            let m = choose|m: int| 0 <= m < pv.len() && pv[m] == k;
                            assert(processed@[m]@ == k);
                        }
                        if prcur.contains(k) {
                            let m = choose|m: int|
                                0 <= m < processed@.len() && #[trigger] processed@[m]@ == k;
                            assert(pv[m] == k);
                        }
                    }
                }
                vstd::set_lib::lemma_len_subset::<Seq<char>>(prcur, fa.dom());
                assert(processed@.len() <= fa.dom().len()) by {
                    crate::sym::lemma_nameidx_map_contains(file.records@, sv.last());
                    vstd::set_lib::lemma_len_subset::<Seq<char>>(fa.dom(), a.types.dom());
                }
                assert(sv.last() == stack@.last()@);
                assert(sv.drop_last() =~= str_views(stack@.drop_last()));
            }
            let nm_opt = stack.pop();
            let nm = match nm_opt {
                Some(s) => s,
                None => {
                    proof {
                        assert(false);
                    }
                    break ;
                },
            };
            if crate::sym::load::strset_contains(processed, nm.as_str()) {
                continue ;
            }
            let ghost prnext = prcur.insert(nm@);
            if !nameidx_contains(&file.records, nm.as_str()) {
                continue ;
            }
            crate::sym::load::strset_insert(processed, nm.as_str());
            proof {
                assert(str_views(processed@).no_duplicates()) by {
                    let pv2 = str_views(processed@);
                    let pv = pv2.drop_last();
                    assert(pv =~= str_views(processed@.drop_last()));
                    assert(pv2.last() == nm@);
                    assert forall|m: int| 0 <= m < pv.len() implies #[trigger] pv[m] != nm@ by {
                        if pv[m] == nm@ {
                            assert(processed@.drop_last()[m]@ == nm@);
                            assert(prcur.contains(nm@));
                        }
                    }
                    assert(forall|m: int|
                        0 <= m < pv.len() ==> #[trigger] pv2[m] == pv[m]);
                }
                let pv2 = str_views(processed@);
                pv2.unique_seq_to_set();
                assert(pv2.to_set() =~= prnext) by {
                    assert forall|kk: Seq<char>| pv2.to_set().contains(kk) <==> prnext.contains(
                        kk,
                    ) by {
                        if pv2.to_set().contains(kk) {
                            let m = choose|m: int| 0 <= m < pv2.len() && pv2[m] == kk;
                            assert(processed@[m]@ == kk);
                        }
                        if prnext.contains(kk) && kk != nm@ {
                            let m = choose|m: int|
                                0 <= m < processed@.drop_last().len()
                                    && #[trigger] processed@.drop_last()[m]@ == kk;
                            assert(processed@[m]@ == kk);
                            assert(pv2[m] == kk);
                        }
                        if kk == nm@ {
                            assert(pv2[pv2.len() - 1] == kk);
                        }
                    }
                }
                assert(processed@.len() <= fa.dom().len()) by {
                    vstd::set_lib::lemma_len_subset::<Seq<char>>(prnext, fa.dom());
                    vstd::set_lib::lemma_len_subset::<Seq<char>>(fa.dom(), a.types.dom());
                }
                assert(prnext.subset_of(fa.dom()));
                assert(prnext.len() == prcur.len() + 1) by {
                    vstd::set_lib::lemma_len_subset::<Seq<char>>(prcur, fa.dom());
                    vstd::set_lib::lemma_len_subset::<Seq<char>>(fa.dom(), a.types.dom());
                }
            }
            let ta = match SymCorpus::get_type_tokens(self, file, nm.as_str()) {
                Some(t) => t,
                None => {
                    continue ;
                },
            };
            let tb = match SymCorpus::get_type_tokens(other, other_file, nm.as_str()) {
                Some(t) => t,
                None => {
                    continue ;
                },
            };
            let (eq, shared) = SymCorpus::compare_tokens(ta, tb);
            if !eq {
                let tac = crate::sym::load::clone_tokens(ta);
                let tbc = crate::sym::load::clone_tokens(tb);
                SymCorpus::record_type_change(changes, nm.as_str(), tac, tbc);
            }
            // Push the shared references, nearest on top.
            let ghost rest_v = str_views(stack@);
            let ghost sh_v = str_views(shared@);
            let ns = shared.len();
            let mut j: usize = ns;
            proof {
                assert(sh_v.skip(ns as int) =~= Seq::<Seq<char>>::empty());
                assert(sh_v.skip(ns as int).reverse() =~= Seq::<Seq<char>>::empty());
                assert(str_views(stack@) =~= rest_v + sh_v.skip(ns as int).reverse());
            }
            while j > 0
                invariant
                    j <= ns,
                    ns == shared@.len(),
                    sh_v == str_views(shared@),
                    str_views(stack@) == rest_v + sh_v.skip(j as int).reverse(),
                decreases j,
            {
                j = j - 1;
                let ghost before = str_views(stack@);
                crate::sym::load::strvec_push(
                    &mut stack,
                    crate::sym::load::clone_string(&shared[j]),
                );
                proof {
                    assert(str_views(stack@) =~= before.push(sh_v[j as int]));
                    assert(sh_v.skip(j as int) =~= seq![sh_v[j as int]] + sh_v.skip(j + 1));
                    assert(sh_v.skip(j as int).reverse() =~= sh_v.skip(j + 1).reverse().push(
                        sh_v[j as int],
                    ));
                }
            }
            proof {
                assert(sh_v.skip(0) =~= sh_v);
                assert(str_views(stack@) == rest_v + shared_refs(
                    resolve(a, fa, nm@),
                    resolve(b, fb, nm@),
                    0,
                ).reverse());
            }
        }
        proof {
            assert(str_views(stack@).len() == 0);
        }
    }

    /// Compares this corpus (`A`) with another (`B`): reports exports that
    /// only one side has and, for every shared export, the structural
    /// differences among the types it reaches ([`cmp_exports`],
    /// [`cmp_missing`]).
    #[verifier::loop_isolation(false)]
    pub fn compare_with(&self, other: &SymCorpus) -> (r: CompareResult)
        requires
            self.wf(),
            self.closed(),
            other.wf(),
            other.closed(),
        ensures
            ({
                let (missing, changes) = cmp_exports(
                    self@,
                    other@,
                    export_order(self.exports@),
                    0,
                    Seq::empty(),
                    Seq::empty(),
                );
                &&& str_views(r.missing_a@) == missing
                &&& changes_views(r.changes@) == changes
                &&& str_views(r.missing_b@) == cmp_missing(self@, export_order(other.exports@), 0)
            }),
    {
        let a_names = export_names(&self.exports);
        let b_names = export_names(&other.exports);
        let ghost av = str_views(a_names@);
        let ghost bv = str_views(b_names@);
        let mut missing_a: Vec<String> = Vec::new();
        let mut changes: Vec<TypeChange> = Vec::new();
        let mut k: usize = 0;
        proof {
            assert(str_views(missing_a@) =~= Seq::<Seq<char>>::empty());
            assert(changes_views(changes@) =~= Seq::<ChangeM>::empty());
        }
        while k < a_names.len()
            invariant
                k <= a_names@.len(),
                av == str_views(a_names@),
                cmp_exports(
                    self@,
                    other@,
                    av,
                    k as int,
                    str_views(missing_a@),
                    changes_views(changes@),
                ) == cmp_exports(self@, other@, av, 0, Seq::empty(), Seq::empty()),
            decreases a_names@.len() - k,
        {
            let n = &a_names[k];
            proof {
                assert(av[k as int] == a_names@[k as int]@);
            }
            if !nameidx_contains(&other.exports, n.as_str()) {
                let ghost before = str_views(missing_a@);
                crate::sym::load::strvec_push(
                    &mut missing_a,
                    crate::sym::load::clone_string(n),
                );
                proof {
                    assert(str_views(missing_a@) =~= before.push(av[k as int]));
                }
            } else {
                let ai = match nameidx_get(&self.exports, n.as_str()) {
                    Some(v) => v,
                    None => {
                        k = k + 1;
                        continue ;
                    },
                };
                let bi = match nameidx_get(&other.exports, n.as_str()) {
                    Some(v) => v,
                    None => {
                        proof {
                            assert(false);
                        }
                        k = k + 1;
                        continue ;
                    },
                };
                if ai < self.files.len() && bi < other.files.len() {
                    let mut stack: Vec<String> = Vec::new();
                    stack.push(crate::sym::load::clone_string(n));
                    let mut processed: Vec<String> = Vec::new();
                    proof {
                        assert(str_views(stack@) =~= seq![av[k as int]]);
                        assert(str_views(processed@) =~= Seq::<Seq<char>>::empty());
                        assert(crate::sym::load::strset(processed@) =~= Set::<Seq<char>>::empty());
                        // The corpus invariants give the walk its guard.
                        crate::sym::lemma_types_map_dom_finite(self.types@);
                        let fm = self@.files[ai as int];
                        assert(fm == self.files@[ai as int]@);
                        assert(crate::sym::file_records_wf(self@, fm));
                        assert(crate::sym::file_closed(self@, fm));
                        assert forall|q: Seq<char>| #[trigger] fm.records.contains_key(q) implies self@.types.dom().contains(
                            q,
                        ) by {}
                        assert(fm.records.dom().subset_of(self@.types.dom()));
                        assert forall|q: Seq<char>, p: int|
                            resolves(self@, fm.records, q) && 0 <= p < resolve(
                                self@,
                                fm.records,
                                q,
                            ).len() && (#[trigger] resolve(self@, fm.records, q)[p]).is_ref() implies fm.records.contains_key(
                            resolve(self@, fm.records, q)[p].word(),
                        ) by {
                            assert(self@.types[q][fm.records[q]][p].is_ref());
                        }
                        assert(cmp_guard(self@, fm.records, crate::sym::load::strset(processed@)));
                    }
                    self.compare_types(
                        other,
                        &self.files[ai],
                        &other.files[bi],
                        stack,
                        &mut processed,
                        &mut changes,
                    );
                } else {
                    proof {
                        assert(false);
                    }
                }
            }
            k = k + 1;
        }
        // Exports of B that A lacks.
        let mut missing_b: Vec<String> = Vec::new();
        let mut q: usize = 0;
        proof {
            assert(str_views(missing_b@) =~= Seq::<Seq<char>>::empty());
        }
        while q < b_names.len()
            invariant
                q <= b_names@.len(),
                bv == str_views(b_names@),
                str_views(missing_b@) + cmp_missing(self@, bv, q as int) == cmp_missing(
                    self@,
                    bv,
                    0,
                ),
            decreases b_names@.len() - q,
        {
            proof {
                assert(bv[q as int] == b_names@[q as int]@);
            }
            let ghost before = str_views(missing_b@);
            if !nameidx_contains(&self.exports, b_names[q].as_str()) {
                crate::sym::load::strvec_push(
                    &mut missing_b,
                    crate::sym::load::clone_string(&b_names[q]),
                );
                proof {
                    assert(str_views(missing_b@) =~= before.push(bv[q as int]));
                    assert(cmp_missing(self@, bv, q as int) == seq![bv[q as int]] + cmp_missing(
                        self@,
                        bv,
                        q + 1,
                    ));
                }
            } else {
                proof {
                    assert(cmp_missing(self@, bv, q as int) == Seq::<Seq<char>>::empty()
                        + cmp_missing(self@, bv, q + 1));
                }
            }
            q = q + 1;
        }
        proof {
            assert(cmp_missing(self@, bv, bv.len() as int) =~= Seq::<Seq<char>>::empty());
            assert(str_views(missing_b@) + Seq::<Seq<char>>::empty() =~= str_views(missing_b@));
            assert(cmp_exports(self@, other@, av, av.len() as int, str_views(missing_a@), changes_views(changes@))
                == (str_views(missing_a@), changes_views(changes@)));
        }
        CompareResult { missing_a, missing_b, changes }
    }
}

/// The export names of a corpus in comparison order ([`export_order`]).
#[verifier::loop_isolation(false)]
fn export_names(exports: &Vec<NameIdx>) -> (r: Vec<String>)
    ensures
        str_views(r@) == export_order(exports@),
{
    let ghost nm = exports@.map_values(|e: NameIdx| e.name@);
    let mut acc: Vec<String> = Vec::new();
    let mut i: usize = 0;
    proof {
        assert(nm.take(0) =~= Seq::<Seq<char>>::empty());
        assert(str_views(acc@) =~= dedup_first(nm.take(0)));
    }
    while i < exports.len()
        invariant
            i <= exports@.len(),
            str_views(acc@) == dedup_first(nm.take(i as int)),
        decreases exports@.len() - i,
    {
        proof {
            assert(nm.take(i + 1).drop_last() =~= nm.take(i as int));
            assert(nm.take(i + 1).last() == nm[i as int]);
            assert(nm[i as int] == exports@[i as int].name@);
        }
        let ghost before = str_views(acc@);
        let seen = contains_name(&acc, exports[i].name.as_str());
        proof {
            assert(seen == before.contains(nm[i as int]));
            assert(before.contains(nm[i as int]) == nm.take(i as int).contains(nm[i as int])) by {
                lemma_dedup_first_same_set(nm.take(i as int));
            }
        }
        if !seen {
            crate::sym::load::strvec_push(
                &mut acc,
                crate::sym::load::clone_string(&exports[i].name),
            );
            proof {
                assert(str_views(acc@) =~= before.push(nm[i as int]));
                assert(str_views(acc@) =~= dedup_first(nm.take(i + 1)));
            }
        } else {
            proof {
                assert(dedup_first(nm.take(i + 1)) =~= before);
            }
        }
        i = i + 1;
    }
    proof {
        assert(nm.take(exports@.len() as int) =~= nm);
    }
    sort_strings(acc)
}

/// Whether a string list holds a name.
fn contains_name(ss: &Vec<String>, name: &str) -> (r: bool)
    ensures
        r == str_views(ss@).contains(name@),
{
    let mut i: usize = 0;
    while i < ss.len()
        invariant
            i <= ss@.len(),
            forall|m: int| 0 <= m < i ==> #[trigger] ss@[m]@ != name@,
        decreases ss@.len() - i,
    {
        if str_eq_str(ss[i].as_str(), name) {
            proof {
                assert(str_views(ss@)[i as int] == name@);
            }
            return true;
        }
        i = i + 1;
    }
    proof {
        assert(forall|m: int|
            0 <= m < str_views(ss@).len() ==> #[trigger] str_views(ss@)[m] != name@);
    }
    false
}

// ---------------------------------------------------------------------------
// Comparator symmetry
// ---------------------------------------------------------------------------

/// A walk of a corpus against itself records no difference.
proof fn lemma_cmp_walk_self(
    c: CorpusM,
    fa: Map<Seq<char>, int>,
    stack: Seq<Seq<char>>,
    processed: Set<Seq<char>>,
    changes: Seq<ChangeM>,
)
    requires
        cmp_guard(c, fa, processed),
    ensures
        cmp_walk(c, fa, c, fa, stack, processed, changes).1 == changes,
    decreases fa.dom().len() - processed.len(), stack.len(),
{
    if stack.len() == 0 {
    } else {
        let name = stack.last();
        let rest = stack.drop_last();
        if processed.contains(name) || !fa.contains_key(name) {
            lemma_cmp_walk_self(c, fa, rest, processed, changes);
        } else {
            let processed2 = processed.insert(name);
            assert(fa.dom().contains(name));
            assert(processed2.subset_of(fa.dom()));
            vstd::set_lib::lemma_len_subset::<Seq<char>>(processed, fa.dom());
            vstd::set_lib::lemma_len_subset::<Seq<char>>(processed2, fa.dom());
            vstd::set_lib::lemma_len_subset::<Seq<char>>(fa.dom(), c.types.dom());
            assert(processed2.len() == processed.len() + 1);
            if !(resolves(c, fa, name) && resolves(c, fa, name)) {
                lemma_cmp_walk_self(c, fa, rest, processed2, changes);
            } else {
                let ta = resolve(c, fa, name);
                assert(toks_cmp_eq(ta, ta)) by {
                    assert forall|i: int| 0 <= i < ta.len() implies tok_pos_eq(
                        #[trigger] ta[i],
                        ta[i],
                    ) by {}
                }
                lemma_cmp_walk_self(
                    c,
                    fa,
                    rest + shared_refs(ta, ta, 0).reverse(),
                    processed2,
                    changes,
                );
            }
        }
    }
}

/// The names produced by [`export_order`] all come from the export table.
proof fn lemma_export_order_in_dom(exports: Seq<NameIdx>)
    ensures
        forall|m: int|
            0 <= m < export_order(exports).len() ==> nameidx_map(exports).contains_key(
                #[trigger] export_order(exports)[m],
            ),
{
    broadcast use vstd::seq_lib::group_to_multiset_ensures;

    let nm = exports.map_values(|e: NameIdx| e.name@);
    let dd = dedup_first(nm);
    lemma_dedup_first_same_set(nm);
    assert forall|m: int|
        0 <= m < export_order(exports).len() implies nameidx_map(exports).contains_key(
        #[trigger] export_order(exports)[m],
    ) by {
        crate::sym::write::lemma_str_le_total_ordering();
        dd.lemma_sort_by_ensures(str_le_fn());
        let k = export_order(exports)[m];
        assert(dd.sort_by(str_le_fn()).contains(k));
        assert(dd.contains(k)) by {
            if !dd.contains(k) {
                assert(!dd.sort_by(str_le_fn()).contains(k));
            }
        }
        assert(nm.contains(k));
        let w = choose|w: int| 0 <= w < nm.len() && nm[w] == k;
        assert(exports[w].name@ == k);
        crate::sym::lemma_nameidx_map_contains(exports, k);
    }
}

/// Comparing a corpus with itself reports nothing: no export is missing on
/// either side and no structural difference is recorded.
pub proof fn lemma_compare_with_self(c: CorpusM, exports: Seq<NameIdx>)
    requires
        crate::sym::corpus_wf(c),
        crate::sym::corpus_closed(c),
        c.types.dom().finite(),
        nameidx_map(exports) == c.exports,
    ensures
        cmp_exports(c, c, export_order(exports), 0, Seq::empty(), Seq::empty()) == (
            Seq::<Seq<char>>::empty(),
            Seq::<ChangeM>::empty(),
        ),
        cmp_missing(c, export_order(exports), 0) == Seq::<Seq<char>>::empty(),
{
    lemma_export_order_in_dom(exports);
    let names = export_order(exports);
    lemma_cmp_exports_self(c, names, 0, Seq::empty(), Seq::empty());
    lemma_cmp_missing_none(c, names, 0);
}

proof fn lemma_cmp_exports_self(
    c: CorpusM,
    names: Seq<Seq<char>>,
    k: int,
    missing: Seq<Seq<char>>,
    changes: Seq<ChangeM>,
)
    requires
        crate::sym::corpus_wf(c),
        crate::sym::corpus_closed(c),
        c.types.dom().finite(),
        forall|m: int| 0 <= m < names.len() ==> c.exports.contains_key(#[trigger] names[m]),
    ensures
        cmp_exports(c, c, names, k, missing, changes) == (missing, changes),
    decreases names.len() - k,
{
    if 0 <= k < names.len() {
        let n = names[k];
        assert(c.exports.contains_key(n));
        assert(0 <= c.exports[n] < c.files.len());
        let fa = c.files[c.exports[n]].records;
        assert(crate::sym::file_records_wf(c, c.files[c.exports[n]]));
        assert(crate::sym::file_closed(c, c.files[c.exports[n]]));
        assert(cmp_guard(c, fa, Set::empty())) by {
            assert(Set::<Seq<char>>::empty().subset_of(fa.dom()));
            assert forall|q: Seq<char>| #[trigger] fa.contains_key(q) implies c.types.dom().contains(
                q,
            ) by {}
            assert(fa.dom().subset_of(c.types.dom()));
            assert forall|q: Seq<char>, p: int|
                resolves(c, fa, q) && 0 <= p < resolve(c, fa, q).len() && (#[trigger] resolve(
                    c,
                    fa,
                    q,
                )[p]).is_ref() implies fa.contains_key(resolve(c, fa, q)[p].word()) by {
                assert(c.types[q][fa[q]][p].is_ref());
            }
        }
        lemma_cmp_walk_self(c, fa, seq![n], Set::empty(), changes);
        lemma_cmp_exports_self(c, names, k + 1, missing, changes);
    }
}

proof fn lemma_cmp_missing_none(c: CorpusM, names: Seq<Seq<char>>, k: int)
    requires
        forall|m: int| 0 <= m < names.len() ==> c.exports.contains_key(#[trigger] names[m]),
    ensures
        cmp_missing(c, names, k) == Seq::<Seq<char>>::empty(),
    decreases names.len() - k,
{
    if 0 <= k < names.len() {
        lemma_cmp_missing_none(c, names, k + 1);
        assert(cmp_missing(c, names, k) =~= Seq::<Seq<char>>::empty());
    } else {
    }
}

/// What a name list keeps is exactly what it held.
proof fn lemma_dedup_first_same_set(ns: Seq<Seq<char>>)
    ensures
        forall|k: Seq<char>| dedup_first(ns).contains(k) <==> ns.contains(k),
    decreases ns.len(),
{
    if ns.len() > 0 {
        lemma_dedup_first_same_set(ns.drop_last());
        assert forall|k: Seq<char>| dedup_first(ns).contains(k) <==> ns.contains(k) by {
            if dedup_first(ns).contains(k) {
                let m = choose|m: int|
                    0 <= m < dedup_first(ns).len() && dedup_first(ns)[m] == k;
                if m < dedup_first(ns.drop_last()).len() {
                    assert(dedup_first(ns.drop_last()).contains(k));
                    assert(ns.drop_last().contains(k));
                    let w = choose|w: int|
                        0 <= w < ns.drop_last().len() && ns.drop_last()[w] == k;
                    assert(ns[w] == k);
                } else {
                    assert(k == ns.last());
                    assert(ns[ns.len() - 1] == k);
                }
            }
            if ns.contains(k) {
                let m = choose|m: int| 0 <= m < ns.len() && ns[m] == k;
                if m < ns.len() - 1 {
                    assert(ns.drop_last()[m] == k);
                    assert(ns.drop_last().contains(k));
                    assert(dedup_first(ns.drop_last()).contains(k));
                    let w = choose|w: int|
                        0 <= w < dedup_first(ns.drop_last()).len() && dedup_first(
                            ns.drop_last(),
                        )[w] == k;
                    assert(dedup_first(ns)[w] == k);
                } else {
                    if ns.drop_last().contains(k) {
                        assert(dedup_first(ns.drop_last()).contains(k));
                        let w = choose|w: int|
                            0 <= w < dedup_first(ns.drop_last()).len() && dedup_first(
                                ns.drop_last(),
                            )[w] == k;
                        assert(dedup_first(ns)[w] == k);
                    } else {
                        assert(dedup_first(ns)[dedup_first(ns).len() - 1] == k);
                    }
                }
            }
        }
    }
}

} // verus!

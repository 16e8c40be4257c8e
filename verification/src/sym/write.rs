//! Writing a corpus in the consolidated form.

use vstd::prelude::*;

use vstd::relations::{sorted_by, total_ordering};

use crate::sym::{
    is_export_name, nameidx_contains, nameidx_get, nameidx_map, nameidx_set, types_map,
    variants_view, CorpusM, NameIdx, SymCorpus, SymFile, Token, TokenM, TypeEntry,
};
use crate::text::{dec_str, seq_char_lt, str_lt, str_views};

verus! {

// ---------------------------------------------------------------------------
// Orders
// ---------------------------------------------------------------------------

/// Non-strict lexicographic order on character sequences.
pub open spec fn str_le_fn() -> spec_fn(Seq<char>, Seq<char>) -> bool {
    |a: Seq<char>, b: Seq<char>| seq_char_lt(a, b) || a == b
}

pub proof fn lemma_str_le_total_ordering()
    ensures
        total_ordering(str_le_fn()),
{
    let r = str_le_fn();
    assert forall|a: Seq<char>, b: Seq<char>| #[trigger] r(a, b) && #[trigger] r(b, a) implies a
        == b by {
        crate::text::lemma_seq_char_lt_asym(a, b);
    }
    assert forall|a: Seq<char>, b: Seq<char>, c: Seq<char>|
        #[trigger] r(a, b) && #[trigger] r(b, c) implies r(a, c) by {
        if seq_char_lt(a, b) && seq_char_lt(b, c) {
            crate::text::lemma_seq_char_lt_trans(a, b, c);
        }
    }
    assert forall|a: Seq<char>, b: Seq<char>| #[trigger] r(a, b) || #[trigger] r(b, a) by {
        crate::text::lemma_seq_char_lt_total(a, b);
    }
}

/// Order of the corpus files for writing: by path, ties by position.
pub open spec fn file_le_fn(files: Seq<SymFile>) -> spec_fn(int, int) -> bool {
    |i: int, j: int|
        seq_char_lt(files[i].path@, files[j].path@) || (files[i].path@ == files[j].path@ && i <= j)
}

pub proof fn lemma_file_le_total_ordering(files: Seq<SymFile>)
    ensures
        total_ordering(file_le_fn(files)),
{
    let r = file_le_fn(files);
    assert forall|a: int, b: int| #[trigger] r(a, b) && #[trigger] r(b, a) implies a == b by {
        crate::text::lemma_seq_char_lt_asym(files[a].path@, files[b].path@);
    }
    assert forall|a: int, b: int, c: int| #[trigger] r(a, b) && #[trigger] r(b, c) implies r(
        a,
        c,
    ) by {
        let pa = files[a].path@;
        let pb = files[b].path@;
        let pc = files[c].path@;
        if seq_char_lt(pa, pb) && seq_char_lt(pb, pc) {
            crate::text::lemma_seq_char_lt_trans(pa, pb, pc);
        }
    }
    assert forall|a: int, b: int| #[trigger] r(a, b) || #[trigger] r(b, a) by {
        crate::text::lemma_seq_char_lt_total(files[a].path@, files[b].path@);
    }
}

// ---------------------------------------------------------------------------
// Sorting, executable
// ---------------------------------------------------------------------------

proof fn lemma_multiset_seq_insert<A>(s: Seq<A>, i: int, v: A)
    requires
        0 <= i <= s.len(),
    ensures
        s.insert(i, v).to_multiset() == s.to_multiset().insert(v),
{
    broadcast use vstd::seq_lib::group_to_multiset_ensures;

    let t = s.insert(i, v);
    assert(t.remove(i) =~= s);
    assert(t[i] == v);
    assert(t.remove(i).to_multiset() =~= t.to_multiset().remove(v));
    assert(t.to_multiset() =~= s.to_multiset().insert(v));
}

/// Sorts a list of strings by [`str_le_fn`], as `Seq::sort_by` does.
#[verifier::loop_isolation(false)]
pub fn sort_strings(v: Vec<String>) -> (r: Vec<String>)
    ensures
        str_views(r@) == str_views(v@).sort_by(str_le_fn()),
{
    let ghost leq = str_le_fn();
    proof {
        lemma_str_le_total_ordering();
    }
    let mut r: Vec<String> = Vec::new();
    let mut i: usize = 0;
    let n = v.len();
    proof {
        broadcast use vstd::seq_lib::group_to_multiset_ensures;

        assert(str_views(r@) =~= Seq::<Seq<char>>::empty());
        assert(str_views(v@).take(0) =~= Seq::<Seq<char>>::empty());
    }
    while i < n
        invariant
            i <= n,
            n == v@.len(),
            sorted_by(str_views(r@), leq),
            str_views(r@).to_multiset() == str_views(v@).take(i as int).to_multiset(),
        decreases n - i,
    {
        // find the insertion position
        let mut j: usize = 0;
        let ghost rv = str_views(r@);
        while j < r.len() && str_lt(r[j].as_str(), v[i].as_str())
            invariant
                j <= r@.len(),
                rv == str_views(r@),
                forall|m: int| 0 <= m < j ==> seq_char_lt(#[trigger] rv[m], v@[i as int]@),
            decreases r@.len() - j,
        {
            j = j + 1;
        }
        proof {
            if j < r@.len() {
                assert(!seq_char_lt(rv[j as int], v@[i as int]@));
            }
        }
        let x = crate::sym::load::clone_string(&v[i]);
        r.insert(j, x);
        proof {
            assert(str_views(r@) =~= rv.insert(j as int, v@[i as int]@));
            lemma_multiset_seq_insert(rv, j as int, v@[i as int]@);
            assert(str_views(v@).take(i + 1) =~= str_views(v@).take(i as int).push(v@[i as int]@));
            broadcast use vstd::seq_lib::group_to_multiset_ensures;

            let nv = str_views(r@);
            let x = v@[i as int]@;
            assert(sorted_by(nv, leq)) by {
                if (j as int) < rv.len() {
                    crate::text::lemma_seq_char_lt_total(x, rv[j as int]);
                    assert(leq(x, rv[j as int]));
                }
                assert forall|a: int, b: int| 0 <= a < b < nv.len() implies leq(nv[a], nv[b]) by {
                    if b < j {
                        assert(nv[a] == rv[a] && nv[b] == rv[b]);
                    } else if a < j && b == j {
                        assert(nv[a] == rv[a] && nv[b] == x);
                        assert(leq(rv[a], x));
                    } else if a < j && b > j {
                        assert(nv[a] == rv[a] && nv[b] == rv[b - 1]);
                        assert(leq(rv[a], rv[b - 1]));
                    } else if a == j {
                        assert(nv[a] == x && nv[b] == rv[b - 1]);
                        assert(leq(x, rv[j as int]));
                        if b - 1 > j {
                            assert(leq(rv[j as int], rv[b - 1]));
                        }
                    } else {
                        assert(nv[a] == rv[a - 1] && nv[b] == rv[b - 1]);
                        assert(leq(rv[a - 1], rv[b - 1]));
                    }
                }
            }
        }
        i = i + 1;
    }
    proof {
        assert(str_views(v@).take(n as int) =~= str_views(v@));
        str_views(v@).lemma_sort_by_ensures(leq);
        vstd::seq_lib::lemma_sorted_unique(str_views(r@), str_views(v@).sort_by(leq), leq);
        assert(str_views(r@) =~= str_views(v@).sort_by(leq));
    }
    r
}

/// The sequence `0, 1, …, n-1`.
pub open spec fn index_seq(n: int) -> Seq<int> {
    Seq::new(n as nat, |i: int| i)
}

/// The order in which the corpus files are written: their indices sorted by
/// path, ties kept in position order.
pub open spec fn spec_file_order(files: Seq<SymFile>) -> Seq<int> {
    index_seq(files.len() as int).sort_by(file_le_fn(files))
}

/// Compares two file positions in the order of [`file_le_fn`].
fn file_le_exec(files: &Vec<SymFile>, a: usize, b: usize) -> (r: bool)
    requires
        a < files@.len(),
        b < files@.len(),
    ensures
        r == file_le_fn(files@)(a as int, b as int),
{
    if str_lt(files[a].path.as_str(), files[b].path.as_str()) {
        true
    } else if crate::text::str_eq_str(files[a].path.as_str(), files[b].path.as_str()) {
        a <= b
    } else {
        false
    }
}

/// Sorts the file indices by path ([`spec_file_order`]).
#[verifier::loop_isolation(false)]
pub fn sort_file_indices(files: &Vec<SymFile>) -> (r: Vec<usize>)
    ensures
        r@.map_values(|u: usize| u as int) == spec_file_order(files@),
        forall|m: int| 0 <= m < r@.len() ==> (#[trigger] r@[m]) < files@.len(),
{
    let ghost leq = file_le_fn(files@);
    proof {
        lemma_file_le_total_ordering(files@);
    }
    let mut r: Vec<usize> = Vec::new();
    let n = files.len();
    let mut i: usize = 0;
    proof {
        broadcast use vstd::seq_lib::group_to_multiset_ensures;

        assert(r@.map_values(|u: usize| u as int) =~= Seq::<int>::empty());
        assert(index_seq(0) =~= Seq::<int>::empty());
    }
    while i < n
        invariant
            i <= n,
            n == files@.len(),
            forall|m: int| 0 <= m < r@.len() ==> 0 <= #[trigger] r@[m] < n,
            sorted_by(r@.map_values(|u: usize| u as int), leq),
            r@.map_values(|u: usize| u as int).to_multiset() == index_seq(i as int).to_multiset(),
        decreases n - i,
    {
        let ghost rv = r@.map_values(|u: usize| u as int);
        let mut j: usize = 0;
        while j < r.len() && file_le_exec(files, r[j], i)
            invariant
                j <= r@.len(),
                rv == r@.map_values(|u: usize| u as int),
                forall|m: int| 0 <= m < j ==> #[trigger] leq(rv[m], i as int),
            decreases r@.len() - j,
        {
            j = j + 1;
        }
        proof {
            if j < r@.len() {
                assert(!leq(rv[j as int], i as int));
            }
        }
        r.insert(j, i);
        proof {
            assert(r@.map_values(|u: usize| u as int) =~= rv.insert(j as int, i as int));
            lemma_multiset_seq_insert(rv, j as int, i as int);
            assert(index_seq(i + 1) =~= index_seq(i as int).push(i as int));
            broadcast use vstd::seq_lib::group_to_multiset_ensures;

            let nv = r@.map_values(|u: usize| u as int);
            let x = i as int;
            assert(sorted_by(nv, leq)) by {
                if (j as int) < rv.len() {
                    assert(!leq(rv[j as int], x));
                    assert(leq(x, rv[j as int]));
                }
                assert forall|a: int, b: int| 0 <= a < b < nv.len() implies leq(nv[a], nv[b]) by {
                    if b < j {
                        assert(nv[a] == rv[a] && nv[b] == rv[b]);
                    } else if a < j && b == j {
                        assert(nv[a] == rv[a] && nv[b] == x);
                        assert(leq(rv[a], x));
                    } else if a < j && b > j {
                        assert(nv[a] == rv[a] && nv[b] == rv[b - 1]);
                        assert(leq(rv[a], rv[b - 1]));
                    } else if a == j {
                        assert(nv[a] == x && nv[b] == rv[b - 1]);
                        assert(leq(x, rv[j as int]));
                        if b - 1 > j {
                            assert(leq(rv[j as int], rv[b - 1]));
                        }
                    } else {
                        assert(nv[a] == rv[a - 1] && nv[b] == rv[b - 1]);
                        assert(leq(rv[a - 1], rv[b - 1]));
                    }
                }
            }
        }
        i = i + 1;
    }
    proof {
        index_seq(n as int).lemma_sort_by_ensures(leq);
        vstd::seq_lib::lemma_sorted_unique(
            r@.map_values(|u: usize| u as int),
            index_seq(n as int).sort_by(leq),
            leq,
        );
        assert(r@.map_values(|u: usize| u as int) =~= spec_file_order(files@));
    }
    r
}

// ---------------------------------------------------------------------------
// The consolidation walk
// ---------------------------------------------------------------------------

/// The first position of `x` in `vs`, or `-1`.
pub open spec fn find_int(vs: Seq<int>, x: int) -> int
    decreases vs.len(),
{
    if vs.len() == 0 {
        -1
    } else if vs.first() == x {
        0
    } else {
        let r = find_int(vs.drop_first(), x);
        if r < 0 {
            -1
        } else {
            1 + r
        }
    }
}

pub proof fn lemma_find_int(vs: Seq<int>, x: int)
    ensures
        find_int(vs, x) == -1 ==> forall|i: int| 0 <= i < vs.len() ==> vs[i] != x,
        find_int(vs, x) >= 0 ==> {
            let r = find_int(vs, x);
            &&& r < vs.len()
            &&& vs[r] == x
            &&& forall|i: int| 0 <= i < r ==> vs[i] != x
        },
    decreases vs.len(),
{
    if vs.len() > 0 && vs.first() != x {
        lemma_find_int(vs.drop_first(), x);
        assert(forall|i: int| 1 <= i < vs.len() ==> vs[i] == vs.drop_first()[i - 1]);
    }
}

/// The referenced names among a token sequence, in order.
pub open spec fn ref_words(toks: Seq<TokenM>) -> Seq<Seq<char>> {
    toks.filter(|t: TokenM| t.is_ref()).map_values(|t: TokenM| t.word())
}

/// The walk state: for every name reached so far, its variant indices in
/// output order; the names in first-seen order; and the current file's
/// processed names with their output indices.
pub struct WalkSt {
    pub out: Map<Seq<char>, Seq<int>>,
    pub out_names: Seq<Seq<char>>,
    pub proc: Map<Seq<char>, int>,
    pub proc_names: Seq<Seq<char>>,
}

/// What the walk needs of the corpus: a finite type table that the file's
/// records resolve in, records closed under type references, and a processed
/// set drawn from the table.
pub open spec fn walk_guard(
    tm: Map<Seq<char>, Seq<Seq<TokenM>>>,
    fr: Map<Seq<char>, int>,
    proc: Map<Seq<char>, int>,
) -> bool {
    &&& tm.dom().finite()
    &&& proc.dom().subset_of(tm.dom())
    &&& forall|n: Seq<char>| #[trigger] fr.contains_key(n) ==> tm.contains_key(n) && 0 <= fr[n] < tm[n].len()
    &&& forall|n: Seq<char>, p: int|
        fr.contains_key(n) && 0 <= p < tm[n][fr[n]].len() && (#[trigger] tm[n][fr[n]][p]).is_ref()
            ==> fr.contains_key(tm[n][fr[n]][p].word())
}

#[via_fn]
proof fn cons_walk_decreases(
    tm: Map<Seq<char>, Seq<Seq<TokenM>>>,
    fr: Map<Seq<char>, int>,
    stack: Seq<Seq<char>>,
    st: WalkSt,
)
{
    if stack.len() > 0 {
        let name = stack.last();
        if !(st.proc.contains_key(name) || !fr.contains_key(name)) {
            let proc2 = st.proc.insert(name, 0);
            assert(tm.dom().contains(name));
            vstd::set_lib::lemma_len_subset::<Seq<char>>(st.proc.dom(), tm.dom());
            assert(st.proc.dom().insert(name).len() == st.proc.dom().len() + 1);
            assert(st.proc.dom().insert(name).subset_of(tm.dom()));
            vstd::set_lib::lemma_len_subset::<Seq<char>>(st.proc.dom().insert(name), tm.dom());
        }
    }
}

/// The depth-first consolidation walk: names are popped off the stack; a new
/// name records its variant's output index (first-seen numbering per name)
/// and pushes its references, nearest first.
pub open spec fn cons_walk(
    tm: Map<Seq<char>, Seq<Seq<TokenM>>>,
    fr: Map<Seq<char>, int>,
    stack: Seq<Seq<char>>,
    st: WalkSt,
) -> WalkSt
    decreases tm.dom().len() - st.proc.dom().len(), stack.len(),
        when walk_guard(tm, fr, st.proc)
    via cons_walk_decreases
{
    if stack.len() == 0 {
        st
    } else {
        let name = stack.last();
        let rest = stack.drop_last();
        if st.proc.contains_key(name) || !fr.contains_key(name) {
            cons_walk(tm, fr, rest, st)
        } else {
            let vidx = fr[name];
            let olds = if st.out.contains_key(name) {
                st.out[name]
            } else {
                Seq::empty()
            };
            let f = find_int(olds, vidx);
            let ridx = if f >= 0 {
                f
            } else {
                olds.len() as int
            };
            let st2 = WalkSt {
                out: st.out.insert(
                    name,
                    if f >= 0 {
                        olds
                    } else {
                        olds.push(vidx)
                    },
                ),
                out_names: if st.out.contains_key(name) {
                    st.out_names
                } else {
                    st.out_names.push(name)
                },
                proc: st.proc.insert(name, ridx),
                proc_names: st.proc_names.push(name),
            };
            cons_walk(tm, fr, rest + ref_words(tm[name][vidx]).reverse(), st2)
        }
    }
}

// ---------------------------------------------------------------------------
// Rendering
// ---------------------------------------------------------------------------

/// `" w1 w2 …"`: each token word with one leading space.
pub open spec fn render_toks(toks: Seq<TokenM>, j: int) -> Seq<char>
    decreases toks.len() - j,
{
    if j < 0 || j >= toks.len() {
        Seq::empty()
    } else {
        seq![' '] + toks[j].word() + render_toks(toks, j + 1)
    }
}

/// The declaration lines of one name: one per output variant, tagged with
/// `@<k>` when the name has more than one.
pub open spec fn render_variants(
    tm: Map<Seq<char>, Seq<Seq<TokenM>>>,
    name: Seq<char>,
    vidxs: Seq<int>,
    r: int,
) -> Seq<char>
    decreases vidxs.len() - r,
{
    if r < 0 || r >= vidxs.len() {
        Seq::empty()
    } else {
        let toks = if tm.contains_key(name) && 0 <= vidxs[r] < tm[name].len() {
            tm[name][vidxs[r]]
        } else {
            Seq::empty()
        };
        let head = if vidxs.len() > 1 {
            name + seq!['@'] + dec_str(r as nat)
        } else {
            name
        };
        head + render_toks(toks, 0) + seq!['\n'] + render_variants(tm, name, vidxs, r + 1)
    }
}

/// The type blocks, one name after the other.
pub open spec fn render_blocks(
    tm: Map<Seq<char>, Seq<Seq<TokenM>>>,
    out: Map<Seq<char>, Seq<int>>,
    names: Seq<Seq<char>>,
    k: int,
) -> Seq<char>
    decreases names.len() - k,
{
    if k < 0 || k >= names.len() {
        Seq::empty()
    } else {
        let vidxs = if out.contains_key(names[k]) {
            out[names[k]]
        } else {
            Seq::empty()
        };
        render_variants(tm, names[k], vidxs, 0) + render_blocks(tm, out, names, k + 1)
    }
}

/// The members of one `F#` record: single-variant exports bare,
/// single-variant non-exports omitted, the rest as `<name>@<k>`.
pub open spec fn render_fs_parts(
    out: Map<Seq<char>, Seq<int>>,
    proc: Map<Seq<char>, int>,
    names: Seq<Seq<char>>,
    k: int,
) -> Seq<char>
    decreases names.len() - k,
{
    if k < 0 || k >= names.len() {
        Seq::empty()
    } else {
        let n = names[k];
        let single = out.contains_key(n) && out[n].len() == 1;
        let v = if proc.contains_key(n) {
            proc[n]
        } else {
            0
        };
        let part = if single {
            if is_export_name(n) {
                seq![' '] + n
            } else {
                Seq::empty()
            }
        } else {
            seq![' '] + n + seq!['@'] + dec_str(v as nat)
        };
        part + render_fs_parts(out, proc, names, k + 1)
    }
}

/// One file's walk result.
pub struct FileOut {
    pub fidx: int,
    pub proc: Map<Seq<char>, int>,
    pub proc_names: Seq<Seq<char>>,
}

/// The names of one file record, ordered for writing: non-exports sorted
/// first, then exports sorted.
pub open spec fn write_name_order(names: Seq<Seq<char>>) -> Seq<Seq<char>> {
    names.filter(|n: Seq<char>| !is_export_name(n)).sort_by(str_le_fn()) + names.filter(
        |n: Seq<char>| is_export_name(n),
    ).sort_by(str_le_fn())
}

/// The `F#` lines, in file order.
pub open spec fn render_files(
    files: Seq<SymFile>,
    out: Map<Seq<char>, Seq<int>>,
    fouts: Seq<FileOut>,
    k: int,
) -> Seq<char>
    decreases fouts.len() - k,
{
    if k < 0 || k >= fouts.len() {
        Seq::empty()
    } else {
        let fo = fouts[k];
        let names = write_name_order(fo.proc_names);
        seq!['F', '#'] + files[fo.fidx].path@ + render_fs_parts(out, fo.proc, names, 0)
            + seq!['\n'] + render_files(files, out, fouts, k + 1)
    }
}

/// The sorted export names of one file's records.
pub open spec fn spec_roots(records: Seq<NameIdx>) -> Seq<Seq<char>> {
    records.map_values(|e: NameIdx| e.name@).filter(|n: Seq<char>| is_export_name(n)).sort_by(
        str_le_fn(),
    )
}

/// Walks the files in writing order, accumulating the output tables and each
/// file's processed names.
pub open spec fn walk_files(
    tm: Map<Seq<char>, Seq<Seq<TokenM>>>,
    files: Seq<SymFile>,
    order: Seq<int>,
    k: int,
    out: Map<Seq<char>, Seq<int>>,
    out_names: Seq<Seq<char>>,
    acc: Seq<FileOut>,
) -> (Map<Seq<char>, Seq<int>>, Seq<Seq<char>>, Seq<FileOut>)
    decreases order.len() - k,
{
    if k < 0 || k >= order.len() {
        (out, out_names, acc)
    } else {
        let fi = order[k];
        let fr = nameidx_map(files[fi].records@);
        let roots = spec_roots(files[fi].records@);
        let st = cons_walk(
            tm,
            fr,
            roots.reverse(),
            WalkSt { out, out_names, proc: Map::empty(), proc_names: Seq::empty() },
        );
        walk_files(
            tm,
            files,
            order,
            k + 1,
            st.out,
            st.out_names,
            acc.push(FileOut { fidx: fi, proc: st.proc, proc_names: st.proc_names }),
        )
    }
}

/// The consolidated text of a corpus: deduplicated type declarations —
/// non-exports first, then exports, each sorted — followed by one `F#`
/// record per file in path order.
pub open spec fn write_spec(types: Seq<TypeEntry>, files: Seq<SymFile>) -> Seq<char> {
    let tm = types_map(types);
    let order = spec_file_order(files);
    let (out, out_names, fouts) = walk_files(
        tm,
        files,
        order,
        0,
        Map::empty(),
        Seq::empty(),
        Seq::empty(),
    );
    render_blocks(tm, out, write_name_order(out_names), 0) + render_files(files, out, fouts, 0)
}

// ---------------------------------------------------------------------------
// The output table, executable
// ---------------------------------------------------------------------------

/// The output variants of one name, in output order.
pub struct OutEntry {
    pub name: String,
    pub vidxs: Vec<usize>,
}

pub open spec fn idxs_view(vs: Seq<usize>) -> Seq<int> {
    vs.map_values(|u: usize| u as int)
}

/// The mapping held by an output table; a later entry wins.
pub open spec fn out_map(os: Seq<OutEntry>) -> Map<Seq<char>, Seq<int>>
    decreases os.len(),
{
    if os.len() == 0 {
        Map::empty()
    } else {
        out_map(os.drop_last()).insert(os.last().name@, idxs_view(os.last().vidxs@))
    }
}

/// The names of an output table, in first-seen order.
pub open spec fn out_names_of(os: Seq<OutEntry>) -> Seq<Seq<char>> {
    os.map_values(|e: OutEntry| e.name@)
}

proof fn lemma_out_map_contains(os: Seq<OutEntry>, k: Seq<char>)
    ensures
        out_map(os).contains_key(k) <==> exists|i: int|
            0 <= i < os.len() && #[trigger] os[i].name@ == k,
    decreases os.len(),
{
    if os.len() > 0 {
        lemma_out_map_contains(os.drop_last(), k);
        if k == os.last().name@ {
            assert(os[os.len() - 1].name@ == k);
        } else {
            if out_map(os).contains_key(k) {
                assert(out_map(os.drop_last()).contains_key(k));
                let i = choose|i: int|
                    0 <= i < os.len() - 1 && #[trigger] os.drop_last()[i].name@ == k;
                assert(os[i] == os.drop_last()[i]);
                assert(os[i].name@ == k);
            }
            if exists|i: int| 0 <= i < os.len() && #[trigger] os[i].name@ == k {
                let i = choose|i: int| 0 <= i < os.len() && #[trigger] os[i].name@ == k;
                assert(i < os.len() - 1);
                assert(os.drop_last()[i].name@ == k);
            }
        }
    }
}

proof fn lemma_out_map_last(os: Seq<OutEntry>, i: int)
    requires
        0 <= i < os.len(),
        forall|j: int| i < j < os.len() ==> #[trigger] os[j].name@ != os[i].name@,
    ensures
        out_map(os).contains_key(os[i].name@),
        out_map(os)[os[i].name@] == idxs_view(os[i].vidxs@),
    decreases os.len(),
{
    if i < os.len() - 1 {
        assert(os.drop_last()[i] == os[i]);
        lemma_out_map_last(os.drop_last(), i);
    }
}

proof fn lemma_out_map_update_last(os: Seq<OutEntry>, i: int, e: OutEntry)
    requires
        0 <= i < os.len(),
        e.name@ == os[i].name@,
        forall|j: int| i < j < os.len() ==> #[trigger] os[j].name@ != os[i].name@,
    ensures
        out_map(os.update(i, e)) == out_map(os).insert(e.name@, idxs_view(e.vidxs@)),
    decreases os.len(),
{
    let os2 = os.update(i, e);
    if i == os.len() - 1 {
        assert(os2.drop_last() =~= os.drop_last());
        assert(os2.last() == e);
        assert(out_map(os2) =~= out_map(os).insert(e.name@, idxs_view(e.vidxs@)));
    } else {
        assert(os2.drop_last() =~= os.drop_last().update(i, e));
        assert(os.drop_last()[i] == os[i]);
        lemma_out_map_update_last(os.drop_last(), i, e);
        assert(os2.last() == os.last());
        assert(out_map(os2) =~= out_map(os).insert(e.name@, idxs_view(e.vidxs@)));
    }
}

/// Finds the winning list index for a name in the output table.
fn out_find(os: &Vec<OutEntry>, name: &str) -> (r: Option<usize>)
    ensures
        match r {
            Some(i) => {
                &&& i < os@.len()
                &&& os@[i as int].name@ == name@
                &&& forall|j: int| i < j < os@.len() ==> #[trigger] os@[j].name@ != name@
                &&& out_map(os@).contains_key(name@)
                &&& out_map(os@)[name@] == idxs_view(os@[i as int].vidxs@)
            },
            None => !out_map(os@).contains_key(name@),
        },
{
    let mut j: usize = os.len();
    while j > 0
        invariant
            j <= os@.len(),
            forall|m: int| j <= m < os@.len() ==> #[trigger] os@[m].name@ != name@,
        decreases j,
    {
        if crate::text::str_eq_str(os[j - 1].name.as_str(), name) {
            proof {
                lemma_out_map_last(os@, j - 1);
            }
            return Some(j - 1);
        }
        j = j - 1;
    }
    proof {
        lemma_out_map_contains(os@, name@);
    }
    None
}

/// Whether no two entries of a name list share a name.
pub open spec fn nameidx_distinct(rs: Seq<NameIdx>) -> bool {
    forall|i: int, j: int| 0 <= i < j < rs.len() ==> rs[i].name@ != rs[j].name@
}

// ---------------------------------------------------------------------------
// The walk, executable
// ---------------------------------------------------------------------------

impl SymCorpus {
    /// Runs the consolidation walk ([`cons_walk`]) from the names on
    /// `stack`, growing the output table and this file's processed set.
    #[verifier::loop_isolation(false)]
    pub fn consolidate_type(
        types: &Vec<TypeEntry>,
        records: &Vec<NameIdx>,
        stack: Vec<String>,
        out: &mut Vec<OutEntry>,
        proc: &mut Vec<NameIdx>,
        proc_names: &mut Vec<String>,
    )
        requires
            walk_guard(types_map(types@), nameidx_map(records@), nameidx_map(old(proc)@)),
            nameidx_distinct(old(proc)@),
        ensures
            ({
                let st = cons_walk(
                    types_map(types@),
                    nameidx_map(records@),
                    str_views(stack@),
                    WalkSt {
                        out: out_map(old(out)@),
                        out_names: out_names_of(old(out)@),
                        proc: nameidx_map(old(proc)@),
                        proc_names: str_views(old(proc_names)@),
                    },
                );
                &&& st.out == out_map(final(out)@)
                &&& st.out_names == out_names_of(final(out)@)
                &&& st.proc == nameidx_map(final(proc)@)
                &&& st.proc_names == str_views(final(proc_names)@)
            }),
    {
        let ghost tm = types_map(types@);
        let ghost fr = nameidx_map(records@);
        let ghost st0 = WalkSt {
            out: out_map(out@),
            out_names: out_names_of(out@),
            proc: nameidx_map(proc@),
            proc_names: str_views(proc_names@),
        };
        let mut stack = stack;
        let ghost sv0 = str_views(stack@);
        proof {
            crate::sym::lemma_types_map_dom_finite(types@);
            assert forall|m: int| 0 <= m < proc@.len() implies tm.dom().contains(
                #[trigger] proc@[m].name@,
            ) by {
                crate::sym::lemma_nameidx_map_contains(proc@, proc@[m].name@);
            }
        }
        loop
            invariant
                walk_guard(tm, fr, nameidx_map(proc@)),
                nameidx_distinct(proc@),
                forall|m: int| 0 <= m < proc@.len() ==> tm.dom().contains(#[trigger] proc@[m].name@),
                cons_walk(
                    tm,
                    fr,
                    str_views(stack@),
                    WalkSt {
                        out: out_map(out@),
                        out_names: out_names_of(out@),
                        proc: nameidx_map(proc@),
                        proc_names: str_views(proc_names@),
                    },
                ) == cons_walk(tm, fr, sv0, st0),
            decreases tm.dom().len() - proc@.len(), stack@.len(),
        {
            if stack.len() == 0 {
                break ;
            }
            let ghost stcur = WalkSt {
                out: out_map(out@),
                out_names: out_names_of(out@),
                proc: nameidx_map(proc@),
                proc_names: str_views(proc_names@),
            };
            let ghost sv = str_views(stack@);
            proof {
                // The processed set never outgrows the type table.
                let pv = proc@.map_values(|e: NameIdx| e.name@);
                assert(pv.no_duplicates());
                pv.unique_seq_to_set();
                assert(pv.to_set().subset_of(tm.dom())) by {
                    assert forall|k: Seq<char>| pv.to_set().contains(k) implies tm.dom().contains(
                        k,
                    ) by {
                        let m = choose|m: int| 0 <= m < pv.len() && pv[m] == k;
                        assert(proc@[m].name@ == k);
                    }
                }
                vstd::set_lib::lemma_len_subset::<Seq<char>>(pv.to_set(), tm.dom());
                assert(proc@.len() <= tm.dom().len());
                assert(sv.last() == stack@.last()@);
                assert(sv.drop_last() =~= str_views(stack@.drop_last()));
            }
            let nm_opt = stack.pop();
            let nm = match nm_opt {
                Some(s) => s,
                None => {
                    proof {
                        assert(false);
                    }
                    break ;
                },
            };
            if nameidx_contains(proc, nm.as_str()) {
                continue ;
            }
            let vidx = match nameidx_get(records, nm.as_str()) {
                Some(v) => v,
                None => {
                    continue ;
                },
            };
            // Record the output variant index for this name.
            let ghost out0 = out@;
            let mut ridx: usize = 0;
            match out_find(out, nm.as_str()) {
                Some(oi) => {
                    let nvar = out[oi].vidxs.len();
                    let ghost olds = idxs_view(out@[oi as int].vidxs@);
                    let mut f: usize = 0;
                    let mut found = false;
                    while f < nvar && !found
                        invariant
                            oi < out@.len(),
                            out@ == out0,
                            f <= nvar,
                            nvar == out@[oi as int].vidxs@.len(),
                            olds == idxs_view(out@[oi as int].vidxs@),
                            !found ==> forall|m: int| 0 <= m < f ==> #[trigger] olds[m] != vidx as int,
                            found ==> f < nvar && olds[f as int] == vidx as int && (forall|m: int|
                                0 <= m < f ==> #[trigger] olds[m] != vidx as int),
                        decreases nvar - f, (if found { 0int } else { 1int }),
                    {
                        if out[oi].vidxs[f] == vidx {
                            found = true;
                        } else {
                            f = f + 1;
                        }
                    }
                    proof {
                        lemma_find_int(olds, vidx as int);
                        if found {
                            let r = find_int(olds, vidx as int);
                            if r == -1 {
                                assert(olds[f as int] != vidx as int);
                            } else if r < f as int {
                                assert(olds[r] != vidx as int);
                            } else if r > f as int {
                                assert(olds[f as int] != vidx as int);
                            }
                            assert(find_int(olds, vidx as int) == f as int);
                        } else {
                            assert(find_int(olds, vidx as int) == -1) by {
                                if find_int(olds, vidx as int) >= 0 {
                                    lemma_find_int(olds, vidx as int);
                                }
                            }
                        }
                    }
                    if found {
                        ridx = f;
                        proof {
                            assert(stcur.out.insert(nm@, olds) =~= stcur.out);
                            assert(out_map(out@) == stcur.out.insert(nm@, olds));
                        }
                    } else {
                        ridx = nvar;
                        let mut e = out.remove(oi);
                        e.vidxs.push(vidx);
                        out.insert(oi, e);
                        proof {
                            assert(out@ =~= out0.update(oi as int, out@[oi as int]));
                            assert(idxs_view(out@[oi as int].vidxs@) =~= olds.push(vidx as int));
                            lemma_out_map_update_last(out0, oi as int, out@[oi as int]);
                            assert(out_names_of(out@) =~= out_names_of(out0));
                        }
                    }
                },
                None => {
                    ridx = 0;
                    let mut vs: Vec<usize> = Vec::new();
                    vs.push(vidx);
                    out.push(OutEntry { name: crate::sym::load::clone_string(&nm), vidxs: vs });
                    proof {
                        assert(out@.drop_last() =~= out0);
                        assert(idxs_view(out@.last().vidxs@) =~= Seq::<int>::empty().push(
                            vidx as int,
                        ));
                        assert(find_int(Seq::<int>::empty(), vidx as int) == -1);
                        assert(out_names_of(out@) =~= out_names_of(out0).push(nm@));
                    }
                },
            }
            nameidx_set(proc, nm.as_str(), ridx);
            super::load::strvec_push(proc_names, crate::sym::load::clone_string(&nm));
            proof {
                assert(str_views(proc_names@) =~= stcur.proc_names.push(nm@));
                assert(nameidx_distinct(proc@)) by {
                    assert(forall|m: int|
                        0 <= m < proc@.len() - 1 ==> #[trigger] proc@[m] == proc@.drop_last()[m]);
                    crate::sym::lemma_nameidx_map_contains(proc@.drop_last(), nm@);
                    assert(forall|m: int|
                        0 <= m < proc@.len() - 1 ==> #[trigger] proc@[m].name@ != nm@);
                    assert(proc@.last().name@ == nm@);
                }
                assert(fr.contains_key(nm@));
                assert(tm.dom().contains(nm@));
                assert forall|m: int| 0 <= m < proc@.len() implies tm.dom().contains(
                    #[trigger] proc@[m].name@,
                ) by {
                    if m < proc@.len() - 1 {
                        assert(proc@[m] == proc@.drop_last()[m]);
                    }
                }
                assert(proc@.len() == stcur.proc.dom().len() + 1) by {
                    let pv0 = proc@.drop_last().map_values(|e: NameIdx| e.name@);
                    assert(pv0.no_duplicates());
                    pv0.unique_seq_to_set();
                    assert forall|k: Seq<char>| pv0.to_set().contains(k) <==> stcur.proc.contains_key(
                        k,
                    ) by {
                        crate::sym::lemma_nameidx_map_contains(proc@.drop_last(), k);
                        if pv0.to_set().contains(k) {
                            let m = choose|m: int| 0 <= m < pv0.len() && pv0[m] == k;
                            assert(proc@.drop_last()[m].name@ == k);
                        }
                        if stcur.proc.contains_key(k) {
                            let m = choose|m: int|
                                0 <= m < proc@.drop_last().len() && #[trigger] proc@.drop_last()[m].name@
                                    == k;
                            assert(pv0[m] == k);
                        }
                    }
                    assert(pv0.to_set() =~= stcur.proc.dom());
                }
                assert(proc@.len() <= tm.dom().len()) by {
                    assert(stcur.proc.dom().insert(nm@).subset_of(tm.dom()));
                    assert(stcur.proc.dom().insert(nm@).len() == stcur.proc.dom().len() + 1);
                    vstd::set_lib::lemma_len_subset::<Seq<char>>(
                        stcur.proc.dom().insert(nm@),
                        tm.dom(),
                    );
                }
            }
            // Push the referenced names, nearest reference on top.
            let ti = match crate::sym::types_find(types, nm.as_str()) {
                Some(t) => t,
                None => {
                    proof {
                        assert(false);
                    }
                    break ;
                },
            };
            proof {
                assert(vidx < types@[ti as int].variants@.len()) by {
                    assert(tm[nm@] == variants_view(types@[ti as int].variants@));
                }
            }
            let ghost toksv = crate::sym::toks_view(types@[ti as int].variants@[vidx as int]@);
            let ghost rest_v = str_views(stack@);
            let ntk = types[ti].variants[vidx].len();
            let mut j: usize = ntk;
            proof {
                assert(toksv == tm[nm@][vidx as int]);
                assert(toksv.skip(ntk as int) =~= Seq::<TokenM>::empty());
                assert(ref_words(Seq::<TokenM>::empty()) =~= Seq::<Seq<char>>::empty());
                assert(ref_words(toksv.skip(ntk as int)).reverse() =~= Seq::<Seq<char>>::empty());
                assert(str_views(stack@) =~= rest_v + ref_words(toksv.skip(ntk as int)).reverse());
            }
            while j > 0
                invariant
                    j <= ntk,
                    ti < types@.len(),
                    vidx < types@[ti as int].variants@.len(),
                    ntk == types@[ti as int].variants@[vidx as int]@.len(),
                    toksv == crate::sym::toks_view(types@[ti as int].variants@[vidx as int]@),
                    str_views(stack@) == rest_v + ref_words(toksv.skip(j as int)).reverse(),
                decreases j,
            {
                j = j - 1;
                let ghost before = str_views(stack@);
                match &types[ti].variants[vidx][j] {
                    Token::Atom(_) => {
                        proof {
                            assert(toksv[j as int] == types@[ti as int].variants@[vidx as int]@[j as int]@);
                            assert(!toksv[j as int].is_ref());
                            lemma_ref_words_skip(toksv, j as int);
                            assert(ref_words(toksv.skip(j as int)).reverse() =~= ref_words(
                                toksv.skip(j + 1),
                            ).reverse());
                        }
                    },
                    Token::TypeRef(rn) => {
                        let rnc = crate::sym::load::clone_string(rn);
                        stack.push(rnc);
                        proof {
                            assert(toksv[j as int] == types@[ti as int].variants@[vidx as int]@[j as int]@);
                            assert(toksv[j as int].is_ref() && toksv[j as int].word() == rn@);
                            lemma_ref_words_skip(toksv, j as int);
                            assert(str_views(stack@) =~= before.push(rn@));
                            assert(ref_words(toksv.skip(j as int)).reverse() =~= ref_words(
                                toksv.skip(j + 1),
                            ).reverse().push(rn@));
                        }
                    },
                }
            }
            proof {
                assert(toksv.skip(0) =~= toksv);
                assert(str_views(stack@) == rest_v + ref_words(tm[nm@][vidx as int]).reverse());
                let stnext = WalkSt {
                    out: out_map(out@),
                    out_names: out_names_of(out@),
                    proc: nameidx_map(proc@),
                    proc_names: str_views(proc_names@),
                };
                assert(cons_walk(tm, fr, sv, stcur) == cons_walk(tm, fr, str_views(stack@), stnext));
            }
        }
        proof {
            assert(str_views(stack@).len() == 0);
        }
    }
}

// ---------------------------------------------------------------------------
// Assembling and emitting
// ---------------------------------------------------------------------------

/// One file's walk result, executable.
pub struct FileRes {
    pub fidx: usize,
    pub proc: Vec<NameIdx>,
    pub proc_names: Vec<String>,
}

pub open spec fn fileres_views(fs: Seq<FileRes>) -> Seq<FileOut> {
    fs.map_values(
        |f: FileRes|
            FileOut {
                fidx: f.fidx as int,
                proc: nameidx_map(f.proc@),
                proc_names: str_views(f.proc_names@),
            },
    )
}

/// Deep copy of a string list.
fn clone_strings(v: &Vec<String>) -> (r: Vec<String>)
    ensures
        str_views(r@) == str_views(v@),
{
    let mut r: Vec<String> = Vec::new();
    let mut i: usize = 0;
    while i < v.len()
        invariant
            i <= v@.len(),
            r@.len() == i,
            forall|m: int| 0 <= m < i ==> #[trigger] r@[m]@ == v@[m]@,
        decreases v@.len() - i,
    {
        r.push(crate::sym::load::clone_string(&v[i]));
        i = i + 1;
    }
    proof {
        assert(str_views(r@) =~= str_views(v@));
    }
    r
}

/// A string list in reverse order.
fn reversed(v: &Vec<String>) -> (r: Vec<String>)
    ensures
        str_views(r@) == str_views(v@).reverse(),
{
    let n = v.len();
    let mut r: Vec<String> = Vec::new();
    let mut j: usize = n;
    while j > 0
        invariant
            j <= n,
            n == v@.len(),
            r@.len() == n - j,
            forall|m: int| 0 <= m < n - j ==> #[trigger] r@[m]@ == v@[n - 1 - m]@,
        decreases j,
    {
        r.push(crate::sym::load::clone_string(&v[j - 1]));
        j = j - 1;
    }
    proof {
        assert(str_views(r@) =~= str_views(v@).reverse());
    }
    r
}

/// The export names among a file's records ([`spec_roots`], unsorted part).
#[verifier::loop_isolation(false)]
fn collect_roots(records: &Vec<NameIdx>) -> (r: Vec<String>)
    ensures
        str_views(r@) == records@.map_values(|e: NameIdx| e.name@).filter(
            |n: Seq<char>| is_export_name(n),
        ),
{
    broadcast use vstd::prelude::Seq::lemma_filter_push;

    let ghost nm = records@.map_values(|e: NameIdx| e.name@);
    let ghost p = |n: Seq<char>| is_export_name(n);
    let mut r: Vec<String> = Vec::new();
    let mut i: usize = 0;
    proof {
        reveal(Seq::filter);
        assert(nm.take(0) =~= Seq::<Seq<char>>::empty());
        assert(str_views(r@) =~= nm.take(0).filter(p));
    }
    while i < records.len()
        invariant
            i <= records@.len(),
            str_views(r@) == nm.take(i as int).filter(p),
        decreases records@.len() - i,
    {
        proof {
            assert(nm.take(i + 1) =~= nm.take(i as int).push(nm[i as int]));
            assert(nm[i as int] == records@[i as int].name@);
        }
        let ghost before = str_views(r@);
        if SymCorpus::is_export(records[i].name.as_str()) {
            r.push(crate::sym::load::clone_string(&records[i].name));
            proof {
                assert(str_views(r@) =~= before.push(records@[i as int].name@));
            }
        }
        i = i + 1;
    }
    proof {
        assert(nm.take(records@.len() as int) =~= nm);
    }
    r
}

/// Splits names into non-exports then exports, each sorted
/// ([`write_name_order`]).
#[verifier::loop_isolation(false)]
fn order_names(names: &Vec<String>) -> (r: Vec<String>)
    ensures
        str_views(r@) == write_name_order(str_views(names@)),
{
    broadcast use vstd::prelude::Seq::lemma_filter_push;

    let ghost nv = str_views(names@);
    let ghost pn = |n: Seq<char>| !is_export_name(n);
    let ghost pe = |n: Seq<char>| is_export_name(n);
    let mut ne: Vec<String> = Vec::new();
    let mut ex: Vec<String> = Vec::new();
    let mut i: usize = 0;
    proof {
        reveal(Seq::filter);
        assert(nv.take(0) =~= Seq::<Seq<char>>::empty());
        assert(str_views(ne@) =~= nv.take(0).filter(pn));
        assert(str_views(ex@) =~= nv.take(0).filter(pe));
    }
    while i < names.len()
        invariant
            i <= names@.len(),
            str_views(ne@) == nv.take(i as int).filter(pn),
            str_views(ex@) == nv.take(i as int).filter(pe),
        decreases names@.len() - i,
    {
        proof {
            assert(nv.take(i + 1) =~= nv.take(i as int).push(nv[i as int]));
            assert(nv[i as int] == names@[i as int]@);
        }
        let ghost bn = str_views(ne@);
        let ghost be = str_views(ex@);
        if SymCorpus::is_export(names[i].as_str()) {
            ex.push(crate::sym::load::clone_string(&names[i]));
            proof {
                assert(str_views(ex@) =~= be.push(names@[i as int]@));
            }
        } else {
            ne.push(crate::sym::load::clone_string(&names[i]));
            proof {
                assert(str_views(ne@) =~= bn.push(names@[i as int]@));
            }
        }
        i = i + 1;
    }
    proof {
        assert(nv.take(names@.len() as int) =~= nv);
    }
    let mut sn = sort_strings(ne);
    let se = sort_strings(ex);
    let ghost snv = str_views(sn@);
    let ghost sev = str_views(se@);
    let mut q: usize = 0;
    while q < se.len()
        invariant
            q <= se@.len(),
            sev == str_views(se@),
            str_views(sn@) == snv + sev.take(q as int),
        decreases se@.len() - q,
    {
        let ghost b = str_views(sn@);
        sn.push(crate::sym::load::clone_string(&se[q]));
        proof {
            assert(str_views(sn@) =~= b.push(sev[q as int]));
            assert(b.push(sev[q as int]) =~= snv + sev.take(q + 1));
        }
        q = q + 1;
    }
    proof {
        assert(sev.take(se@.len() as int) =~= sev);
        assert(str_views(sn@) =~= write_name_order(nv));
    }
    sn
}

/// Appends `" w"` for each token ([`render_toks`]).
#[verifier::loop_isolation(false)]
fn append_toks(s: &mut String, toks: &Vec<Token>)
    ensures
        final(s)@ == old(s)@ + render_toks(crate::sym::toks_view(toks@), 0),
{
    proof {
        reveal_strlit(" ");
        assert(" "@ =~= seq![' ']);
    }
    let ghost tv = crate::sym::toks_view(toks@);
    let mut j: usize = 0;
    while j < toks.len()
        invariant
            j <= toks@.len(),
            old(s)@ + render_toks(tv, 0) == s@ + render_toks(tv, j as int),
        decreases toks@.len() - j,
    {
        proof {
            assert(tv[j as int] == toks@[j as int]@);
        }
        s.append(" ");
        s.append(toks[j].as_str());
        proof {
            assert(render_toks(tv, j as int) == seq![' '] + tv[j as int].word() + render_toks(
                tv,
                j + 1,
            ));
        }
        j = j + 1;
    }
}

/// Appends the declaration lines of one name ([`render_variants`]).
#[verifier::loop_isolation(false)]
fn append_variants(s: &mut String, types: &Vec<TypeEntry>, name: &str, vidxs: &Vec<usize>)
    ensures
        final(s)@ == old(s)@ + render_variants(
            types_map(types@),
            name@,
            idxs_view(vidxs@),
            0,
        ),
{
    proof {
        reveal_strlit("@");
        reveal_strlit("\n");
        assert("@"@ =~= seq!['@']);
        assert("\n"@ =~= seq!['\n']);
    }
    let ghost tm = types_map(types@);
    let ghost iv = idxs_view(vidxs@);
    let tagged = vidxs.len() > 1;
    let mut r: usize = 0;
    while r < vidxs.len()
        invariant
            r <= vidxs@.len(),
            iv == idxs_view(vidxs@),
            old(s)@ + render_variants(tm, name@, iv, 0) == s@ + render_variants(
                tm,
                name@,
                iv,
                r as int,
            ),
        decreases vidxs@.len() - r,
    {
        s.append(name);
        if tagged {
            s.append("@");
            let num = crate::text::usize_to_string(r);
            s.append(num.as_str());
        }
        match crate::sym::types_find(types, name) {
            Some(ti) => {
                let v = vidxs[r];
                if v < types[ti].variants.len() {
                    proof {
                        assert(crate::sym::toks_view(types@[ti as int].variants@[v as int]@)
                            == tm[name@][iv[r as int]]);
                    }
                    append_toks(s, &types[ti].variants[v]);
                } else {
                    proof {
                        assert(!(0 <= iv[r as int] < tm[name@].len()));
                    }
                }
            },
            None => {
            },
        }
        s.append("\n");
        proof {
            assert(render_toks(Seq::<TokenM>::empty(), 0) =~= Seq::<char>::empty());
        }
        r = r + 1;
    }
}

/// Appends the type blocks ([`render_blocks`]).
#[verifier::loop_isolation(false)]
fn append_blocks(s: &mut String, types: &Vec<TypeEntry>, out: &Vec<OutEntry>, names: &Vec<String>)
    ensures
        final(s)@ == old(s)@ + render_blocks(
            types_map(types@),
            out_map(out@),
            str_views(names@),
            0,
        ),
{
    let ghost tm = types_map(types@);
    let ghost om = out_map(out@);
    let ghost nv = str_views(names@);
    let mut k: usize = 0;
    let empty_idxs: Vec<usize> = Vec::new();
    proof {
        assert(idxs_view(empty_idxs@) =~= Seq::<int>::empty());
    }
    while k < names.len()
        invariant
            k <= names@.len(),
            idxs_view(empty_idxs@) == Seq::<int>::empty(),
            old(s)@ + render_blocks(tm, om, nv, 0) == s@ + render_blocks(tm, om, nv, k as int),
        decreases names@.len() - k,
    {
        proof {
            assert(nv[k as int] == names@[k as int]@);
        }
        match out_find(out, names[k].as_str()) {
            Some(oi) => {
                append_variants(s, types, names[k].as_str(), &out[oi].vidxs);
            },
            None => {
                append_variants(s, types, names[k].as_str(), &empty_idxs);
                proof {
                    assert(render_variants(tm, nv[k as int], Seq::<int>::empty(), 0)
                        =~= Seq::<char>::empty());
                }
            },
        }
        k = k + 1;
    }
}

/// Appends the members of one `F#` record ([`render_fs_parts`]).
#[verifier::loop_isolation(false)]
fn append_fs_parts(s: &mut String, out: &Vec<OutEntry>, proc: &Vec<NameIdx>, names: &Vec<String>)
    ensures
        final(s)@ == old(s)@ + render_fs_parts(
            out_map(out@),
            nameidx_map(proc@),
            str_views(names@),
            0,
        ),
{
    proof {
        reveal_strlit(" ");
        reveal_strlit("@");
        assert(" "@ =~= seq![' ']);
        assert("@"@ =~= seq!['@']);
    }
    let ghost om = out_map(out@);
    let ghost pm = nameidx_map(proc@);
    let ghost nv = str_views(names@);
    let mut k: usize = 0;
    while k < names.len()
        invariant
            k <= names@.len(),
            old(s)@ + render_fs_parts(om, pm, nv, 0) == s@ + render_fs_parts(om, pm, nv, k as int),
        decreases names@.len() - k,
    {
        proof {
            assert(nv[k as int] == names@[k as int]@);
        }
        let single = match out_find(out, names[k].as_str()) {
            Some(oi) => out[oi].vidxs.len() == 1,
            None => false,
        };
        let v = match nameidx_get(proc, names[k].as_str()) {
            Some(v) => v,
            None => 0,
        };
        if single {
            if SymCorpus::is_export(names[k].as_str()) {
                s.append(" ");
                s.append(names[k].as_str());
            }
        } else {
            s.append(" ");
            s.append(names[k].as_str());
            s.append("@");
            let num = crate::text::usize_to_string(v);
            s.append(num.as_str());
        }
        k = k + 1;
    }
}

impl SymCorpus {
    /// Writes the corpus in the consolidated form, appending the text's
    /// bytes to `out` ([`write_spec`]): deduplicated type declarations first
    /// (non-exports, then exports, each sorted by name), then one `F#`
    /// record per file in path order, with single-variant non-exports left
    /// implicit.
    #[verifier::loop_isolation(false)]
    pub fn write_consolidated(&self, out: &mut Vec<u8>) -> (r: Result<(), crate::Error>)
        requires
            self.wf(),
            self.closed(),
        ensures
            r is Ok,
            final(out)@ == old(out)@ + vstd::utf8::encode_utf8(
                write_spec(self.types@, self.files@),
            ),
    {
        let ghost tm = types_map(self.types@);
        let ghost order = spec_file_order(self.files@);
        let findices = sort_file_indices(&self.files);
        let mut wout: Vec<OutEntry> = Vec::new();
        let mut fouts: Vec<FileRes> = Vec::new();
        let nf = findices.len();
        let mut k: usize = 0;
        proof {
            assert(out_map(wout@) =~= Map::<Seq<char>, Seq<int>>::empty());
            assert(out_names_of(wout@) =~= Seq::<Seq<char>>::empty());
            assert(fileres_views(fouts@) =~= Seq::<FileOut>::empty());
            assert(order.len() == nf);
        }
        while k < nf
            invariant
                k <= nf,
                nf == order.len(),
                forall|m: int| 0 <= m < fouts@.len() ==> (#[trigger] fouts@[m]).fidx < self.files@.len(),
                walk_files(
                    tm,
                    self.files@,
                    order,
                    k as int,
                    out_map(wout@),
                    out_names_of(wout@),
                    fileres_views(fouts@),
                ) == walk_files(
                    tm,
                    self.files@,
                    order,
                    0,
                    Map::empty(),
                    Seq::empty(),
                    Seq::empty(),
                ),
            decreases nf - k,
        {
            let fi = findices[k];
            proof {
                assert(findices@.map_values(|u: usize| u as int)[k as int] == order[k as int]);
                assert(fi < self.files@.len());
            }
            let roots = sort_strings(collect_roots(&self.files[fi].records));
            let stack = reversed(&roots);
            let mut proc: Vec<NameIdx> = Vec::new();
            let mut pnames: Vec<String> = Vec::new();
            let ghost fr = nameidx_map(self.files@[fi as int].records@);
            proof {
                assert(str_views(roots@) == spec_roots(self.files@[fi as int].records@));
                assert(nameidx_map(proc@) =~= Map::<Seq<char>, int>::empty());
                assert(str_views(pnames@) =~= Seq::<Seq<char>>::empty());
                // The corpus invariants give the walk its guard.
                crate::sym::lemma_types_map_dom_finite(self.types@);
                assert(self@.files[fi as int] == self.files@[fi as int]@);
                assert(crate::sym::file_records_wf(self@, self@.files[fi as int]));
                assert(crate::sym::file_closed(self@, self@.files[fi as int]));
                assert(self@.files[fi as int].records == fr);
                assert(self@.types == tm);
                assert(nameidx_map(proc@).dom() =~= Set::<Seq<char>>::empty());
                assert(nameidx_map(proc@).dom().subset_of(tm.dom()));
                assert forall|n: Seq<char>| #[trigger] fr.contains_key(n) implies tm.contains_key(
                    n,
                ) && 0 <= fr[n] < tm[n].len() by {
                    assert(self@.files[fi as int].records.contains_key(n));
                }
                assert forall|n: Seq<char>, p: int|
                    fr.contains_key(n) && 0 <= p < tm[n][fr[n]].len() && (#[trigger] tm[n][fr[n]][p]).is_ref()
                        implies fr.contains_key(tm[n][fr[n]][p].word()) by {
                    assert(self@.files[fi as int].records.contains_key(n));
                    assert(self@.types[n][self@.files[fi as int].records[n]][p].is_ref());
                }
                assert(walk_guard(tm, fr, nameidx_map(proc@)));
            }
            SymCorpus::consolidate_type(
                &self.types,
                &self.files[fi].records,
                stack,
                &mut wout,
                &mut proc,
                &mut pnames,
            );
            let ghost before = fileres_views(fouts@);
            fouts.push(FileRes { fidx: fi, proc, proc_names: pnames });
            proof {
                assert(fileres_views(fouts@) =~= before.push(
                    FileOut {
                        fidx: fi as int,
                        proc: nameidx_map(fouts@.last().proc@),
                        proc_names: str_views(fouts@.last().proc_names@),
                    },
                ));
            }
            k = k + 1;
        }
        // Emit the type blocks.
        let ghost womap = out_map(wout@);
        let mut all_names: Vec<String> = Vec::new();
        let mut q: usize = 0;
        while q < wout.len()
            invariant
                q <= wout@.len(),
                all_names@.len() == q,
                forall|m: int| 0 <= m < q ==> #[trigger] all_names@[m]@ == wout@[m].name@,
            decreases wout@.len() - q,
        {
            all_names.push(crate::sym::load::clone_string(&wout[q].name));
            q = q + 1;
        }
        proof {
            assert(str_views(all_names@) =~= out_names_of(wout@));
        }
        let onames = order_names(&all_names);
        let mut res = String::new();
        append_blocks(&mut res, &self.types, &wout, &onames);
        // Emit the `F#` records.
        proof {
            reveal_strlit("F#");
            reveal_strlit("\n");
            assert("F#"@ =~= seq!['F', '#']);
            assert("\n"@ =~= seq!['\n']);
        }
        let ghost fov = fileres_views(fouts@);
        let ghost blocks = res@;
        let mut w: usize = 0;
        while w < fouts.len()
            invariant
                w <= fouts@.len(),
                fov == fileres_views(fouts@),
                forall|m: int| 0 <= m < fouts@.len() ==> (#[trigger] fouts@[m]).fidx < self.files@.len(),
                blocks + render_files(self.files@, womap, fov, 0) == res@ + render_files(
                    self.files@,
                    womap,
                    fov,
                    w as int,
                ),
            decreases fouts@.len() - w,
        {
            proof {
                assert(fov[w as int] == (FileOut {
                    fidx: fouts@[w as int].fidx as int,
                    proc: nameidx_map(fouts@[w as int].proc@),
                    proc_names: str_views(fouts@[w as int].proc_names@),
                }));
            }
            res.append("F#");
            let fi = fouts[w].fidx;
            res.append(self.files[fi].path.as_str());
            let fnames = order_names(&fouts[w].proc_names);
            append_fs_parts(&mut res, &wout, &fouts[w].proc, &fnames);
            res.append("\n");
            w = w + 1;
        }
        proof {
            assert(res@ == blocks + render_files(self.files@, womap, fov, 0));
            assert(res@ == write_spec(self.types@, self.files@));
        }
        let bytes = res.as_str().as_bytes();
        out.extend_from_slice(bytes);
        Ok(())
    }
}

/// One reference step of [`ref_words`] over a suffix.
proof fn lemma_ref_words_skip(toks: Seq<TokenM>, j: int)
    requires
        0 <= j < toks.len(),
    ensures
        ref_words(toks.skip(j)) == (if toks[j].is_ref() {
            seq![toks[j].word()]
        } else {
            Seq::empty()
        }) + ref_words(toks.skip(j + 1)),
        toks[j].is_ref() ==> ref_words(toks.skip(j)).reverse() == ref_words(
            toks.skip(j + 1),
        ).reverse().push(toks[j].word()),
        !toks[j].is_ref() ==> ref_words(toks.skip(j)).reverse() == ref_words(
            toks.skip(j + 1),
        ).reverse(),
{
    reveal(Seq::filter);
    let a = seq![toks[j]];
    let b = toks.skip(j + 1);
    let p = |t: TokenM| t.is_ref();
    assert(toks.skip(j) =~= a + b);
    assert(a.filter(p) =~= (if toks[j].is_ref() {
        a
    } else {
        Seq::empty()
    })) by {
        assert(a.len() == 1);
        assert(a.last() == toks[j]);
        assert(a.drop_last() =~= Seq::<TokenM>::empty());
        assert(a.drop_last().len() == 0);
        assert(a.drop_last().filter(p) =~= Seq::<TokenM>::empty());
    }
    Seq::<TokenM>::filter_distributes_over_add(a, b, p);
    assert(toks.skip(j).filter(p) == a.filter(p) + b.filter(p));
    let x = ref_words(toks.skip(j));
    let y = ref_words(b);
    assert(x =~= (if toks[j].is_ref() {
        seq![toks[j].word()]
    } else {
        Seq::<Seq<char>>::empty()
    }) + y);
    if toks[j].is_ref() {
        assert(x.reverse() =~= y.reverse().push(toks[j].word()));
    } else {
        assert(x =~= y);
        assert(x.reverse() =~= y.reverse());
    }
}

} // verus!

//! The symbol-type corpus: tokens, per-file records, deduplicated type
//! variants, and exports.

use vstd::prelude::*;

use crate::text::str_eq_str;

pub mod compare;
pub mod load;
pub mod pretty;
pub mod write;

pub use pretty::pretty_format_type;

verus! {

// ---------------------------------------------------------------------------
// Tokens
// ---------------------------------------------------------------------------

/// One whitespace-delimited token of a type declaration: a reference to
/// another record, or an opaque word.
pub enum Token {
    TypeRef(String),
    Atom(String),
}

/// The mathematical value of a [`Token`].
pub enum TokenM {
    TypeRef(Seq<char>),
    Atom(Seq<char>),
}

impl TokenM {
    /// The characters of the token, whatever its kind.
    pub open spec fn word(self) -> Seq<char> {
        match self {
            TokenM::TypeRef(w) => w,
            TokenM::Atom(w) => w,
        }
    }

    /// Whether the token names another record.
    pub open spec fn is_ref(self) -> bool {
        self is TypeRef
    }
}

impl View for Token {
    type V = TokenM;

    open spec fn view(&self) -> TokenM {
        match self {
            Token::TypeRef(s) => TokenM::TypeRef(s@),
            Token::Atom(s) => TokenM::Atom(s@),
        }
    }
}

/// The values of a token sequence.
pub open spec fn toks_view(ts: Seq<Token>) -> Seq<TokenM> {
    ts.map_values(|t: Token| t@)
}

/// A word is a type reference iff its second character is `'#'`.
pub open spec fn word_is_ref(w: Seq<char>) -> bool {
    w.len() >= 2 && w[1] == '#'
}

/// Lexical token classification.
pub open spec fn classify(w: Seq<char>) -> TokenM {
    if word_is_ref(w) {
        TokenM::TypeRef(w)
    } else {
        TokenM::Atom(w)
    }
}

/// A record name is an export iff its second character is not `'#'`.
pub open spec fn is_export_name(n: Seq<char>) -> bool {
    !(n.len() >= 2 && n[1] == '#')
}

/// A line introduces a file record iff it starts with `F#`.
pub open spec fn is_file_decl_name(n: Seq<char>) -> bool {
    n.len() >= 2 && n[0] == 'F' && n[1] == '#'
}

impl Token {
    /// Builds a type-reference token.
    pub fn new_typeref(name: &str) -> (t: Token)
        ensures
            t@ == TokenM::TypeRef(name@),
    {
        Token::TypeRef(name.to_owned())
    }

    /// Builds an atom token.
    pub fn new_atom(word: &str) -> (t: Token)
        ensures
            t@ == TokenM::Atom(word@),
    {
        Token::Atom(word.to_owned())
    }

    /// The characters of the token.
    pub fn as_str(&self) -> (r: &str)
        ensures
            r@ == self@.word(),
    {
        match self {
            Token::TypeRef(ref_name) => ref_name.as_str(),
            Token::Atom(word) => word.as_str(),
        }
    }

    /// Classifies one word of a record line.
    pub fn from_word(w: String) -> (t: Token)
        ensures
            t@ == classify(w@),
    {
        let n = w.as_str().unicode_len();
        if n >= 2 && w.as_str().get_char(1) == '#' {
            Token::TypeRef(w)
        } else {
            Token::Atom(w)
        }
    }

    /// Structural equality of two tokens.
    pub fn eq_token(&self, other: &Token) -> (r: bool)
        ensures
            r == (self@ == other@),
    {
        match (self, other) {
            (Token::TypeRef(x), Token::TypeRef(y)) => str_eq_str(x.as_str(), y.as_str()),
            (Token::Atom(x), Token::Atom(y)) => str_eq_str(x.as_str(), y.as_str()),
            _ => false,
        }
    }
}

// ---------------------------------------------------------------------------
// Name-to-index association lists
// ---------------------------------------------------------------------------

/// One `name -> index` association, used for file records and for exports.
pub struct NameIdx {
    pub name: String,
    pub idx: usize,
}

/// The mapping held by an association list; a later entry wins over an
/// earlier one with the same name.
pub open spec fn nameidx_map(rs: Seq<NameIdx>) -> Map<Seq<char>, int>
    decreases rs.len(),
{
    if rs.len() == 0 {
        Map::empty()
    } else {
        nameidx_map(rs.drop_last()).insert(rs.last().name@, rs.last().idx as int)
    }
}

pub proof fn lemma_nameidx_map_contains(rs: Seq<NameIdx>, k: Seq<char>)
    ensures
        nameidx_map(rs).contains_key(k) <==> exists|i: int|
            0 <= i < rs.len() && #[trigger] rs[i].name@ == k,
    decreases rs.len(),
{
    if rs.len() > 0 {
        lemma_nameidx_map_contains(rs.drop_last(), k);
        if k == rs.last().name@ {
            assert(rs[rs.len() - 1].name@ == k);
        } else {
            if nameidx_map(rs).contains_key(k) {
                assert(nameidx_map(rs.drop_last()).contains_key(k));
                let i = choose|i: int|
                    0 <= i < rs.len() - 1 && #[trigger] rs.drop_last()[i].name@ == k;
                assert(rs[i] == rs.drop_last()[i]);
                assert(rs[i].name@ == k);
            }
            if exists|i: int| 0 <= i < rs.len() && #[trigger] rs[i].name@ == k {
                let i = choose|i: int| 0 <= i < rs.len() && #[trigger] rs[i].name@ == k;
                assert(i < rs.len() - 1);
                assert(rs.drop_last()[i].name@ == k);
            }
        }
    }
}

/// The winning entry for a key is the last one that carries it.
pub proof fn lemma_nameidx_map_last(rs: Seq<NameIdx>, i: int)
    requires
        0 <= i < rs.len(),
        forall|j: int| i < j < rs.len() ==> #[trigger] rs[j].name@ != rs[i].name@,
    ensures
        nameidx_map(rs).contains_key(rs[i].name@),
        nameidx_map(rs)[rs[i].name@] == rs[i].idx as int,
    decreases rs.len(),
{
    if i == rs.len() - 1 {
    } else {
        assert(rs.drop_last()[i] == rs[i]);
        lemma_nameidx_map_last(rs.drop_last(), i);
    }
}

/// Looks a name up, later entries winning.
pub fn nameidx_get(rs: &Vec<NameIdx>, name: &str) -> (r: Option<usize>)
    ensures
        match r {
            Some(v) => nameidx_map(rs@).contains_key(name@) && nameidx_map(rs@)[name@] == v as int,
            None => !nameidx_map(rs@).contains_key(name@),
        },
{
    let mut j: usize = rs.len();
    while j > 0
        invariant
            j <= rs@.len(),
            forall|m: int| j <= m < rs@.len() ==> #[trigger] rs@[m].name@ != name@,
        decreases j,
    {
        if str_eq_str(rs[j - 1].name.as_str(), name) {
            proof {
                lemma_nameidx_map_last(rs@, j - 1);
            }
            return Some(rs[j - 1].idx);
        }
        j = j - 1;
    }
    proof {
        lemma_nameidx_map_contains(rs@, name@);
    }
    None
}

/// Whether a name is present.
pub fn nameidx_contains(rs: &Vec<NameIdx>, name: &str) -> (r: bool)
    ensures
        r == nameidx_map(rs@).contains_key(name@),
{
    nameidx_get(rs, name).is_some()
}

/// Binds a name to an index, overwriting an earlier binding.
pub fn nameidx_set(rs: &mut Vec<NameIdx>, name: &str, idx: usize)
    ensures
        nameidx_map(final(rs)@) == nameidx_map(old(rs)@).insert(name@, idx as int),
        final(rs)@.len() == old(rs)@.len() + 1,
        final(rs)@.drop_last() == old(rs)@,
        final(rs)@.last().name@ == name@,
        final(rs)@.last().idx == idx,
{
    let ghost orig = rs@;
    let e = NameIdx { name: name.to_owned(), idx };
    rs.push(e);
    proof {
        assert(rs@.drop_last() =~= orig);
    }
}

// ---------------------------------------------------------------------------
// Types: name-to-variant-list association
// ---------------------------------------------------------------------------

/// The declared variants of one type name, in insertion order.
pub struct TypeEntry {
    pub name: String,
    pub variants: Vec<Vec<Token>>,
}

/// The values of a variant list.
pub open spec fn variants_view(vs: Seq<Vec<Token>>) -> Seq<Seq<TokenM>> {
    vs.map_values(|v: Vec<Token>| toks_view(v@))
}

/// The mapping held by a type list; a later entry wins.
pub open spec fn types_map(ts: Seq<TypeEntry>) -> Map<Seq<char>, Seq<Seq<TokenM>>>
    decreases ts.len(),
{
    if ts.len() == 0 {
        Map::empty()
    } else {
        types_map(ts.drop_last()).insert(ts.last().name@, variants_view(ts.last().variants@))
    }
}

pub proof fn lemma_types_map_contains(ts: Seq<TypeEntry>, k: Seq<char>)
    ensures
        types_map(ts).contains_key(k) <==> exists|i: int|
            0 <= i < ts.len() && #[trigger] ts[i].name@ == k,
    decreases ts.len(),
{
    if ts.len() > 0 {
        lemma_types_map_contains(ts.drop_last(), k);
        if k == ts.last().name@ {
            assert(ts[ts.len() - 1].name@ == k);
        } else {
            if types_map(ts).contains_key(k) {
                assert(types_map(ts.drop_last()).contains_key(k));
                let i = choose|i: int|
                    0 <= i < ts.len() - 1 && #[trigger] ts.drop_last()[i].name@ == k;
                assert(ts[i] == ts.drop_last()[i]);
                assert(ts[i].name@ == k);
            }
            if exists|i: int| 0 <= i < ts.len() && #[trigger] ts[i].name@ == k {
                let i = choose|i: int| 0 <= i < ts.len() && #[trigger] ts[i].name@ == k;
                assert(i < ts.len() - 1);
                assert(ts.drop_last()[i].name@ == k);
            }
        }
    }
}

pub proof fn lemma_types_map_last(ts: Seq<TypeEntry>, i: int)
    requires
        0 <= i < ts.len(),
        forall|j: int| i < j < ts.len() ==> #[trigger] ts[j].name@ != ts[i].name@,
    ensures
        types_map(ts).contains_key(ts[i].name@),
        types_map(ts)[ts[i].name@] == variants_view(ts[i].variants@),
    decreases ts.len(),
{
    if i == ts.len() - 1 {
    } else {
        assert(ts.drop_last()[i] == ts[i]);
        lemma_types_map_last(ts.drop_last(), i);
    }
}

/// Replacing the winning entry for a key updates the mapping at that key.
pub proof fn lemma_types_map_update_last(ts: Seq<TypeEntry>, i: int, e: TypeEntry)
    requires
        0 <= i < ts.len(),
        e.name@ == ts[i].name@,
        forall|j: int| i < j < ts.len() ==> #[trigger] ts[j].name@ != ts[i].name@,
    ensures
        types_map(ts.update(i, e)) == types_map(ts).insert(e.name@, variants_view(e.variants@)),
    decreases ts.len(),
{
    let ts2 = ts.update(i, e);
    if i == ts.len() - 1 {
        assert(ts2.drop_last() =~= ts.drop_last());
        assert(ts2.last() == e);
        assert(types_map(ts.update(i, e)) =~= types_map(ts).insert(
            e.name@,
            variants_view(e.variants@),
        ));
    } else {
        assert(ts2.drop_last() =~= ts.drop_last().update(i, e));
        assert(ts.drop_last()[i] == ts[i]);
        lemma_types_map_update_last(ts.drop_last(), i, e);
        assert(ts2.last() == ts.last());
        assert(types_map(ts2) == types_map(ts.drop_last()).insert(
            e.name@,
            variants_view(e.variants@),
        ).insert(ts.last().name@, variants_view(ts.last().variants@)));
        assert(types_map(ts2) =~= types_map(ts).insert(e.name@, variants_view(e.variants@)));
    }
}

/// Finds the winning list index for a type name.
pub fn types_find(ts: &Vec<TypeEntry>, name: &str) -> (r: Option<usize>)
    ensures
        match r {
            Some(i) => {
                &&& i < ts@.len()
                &&& ts@[i as int].name@ == name@
                &&& forall|j: int| i < j < ts@.len() ==> #[trigger] ts@[j].name@ != name@
                &&& types_map(ts@).contains_key(name@)
                &&& types_map(ts@)[name@] == variants_view(ts@[i as int].variants@)
            },
            None => !types_map(ts@).contains_key(name@),
        },
{
    let mut j: usize = ts.len();
    while j > 0
        invariant
            j <= ts@.len(),
            forall|m: int| j <= m < ts@.len() ==> #[trigger] ts@[m].name@ != name@,
        decreases j,
    {
        if str_eq_str(ts[j - 1].name.as_str(), name) {
            proof {
                lemma_types_map_last(ts@, j - 1);
            }
            return Some(j - 1);
        }
        j = j - 1;
    }
    proof {
        lemma_types_map_contains(ts@, name@);
    }
    None
}

// ---------------------------------------------------------------------------
// Deciding the invariants
// ---------------------------------------------------------------------------

/// Decides [`variants_wf`] of one variant list.
#[verifier::loop_isolation(false)]
fn check_variants_distinct(vs: &Vec<Vec<Token>>) -> (r: bool)
    ensures
        r == variants_wf(variants_view(vs@)),
{
    let ghost vv = variants_view(vs@);
    if vs.len() == 0 {
        return false;
    }
    let mut p: usize = 0;
    while p < vs.len()
        invariant
            p <= vs@.len(),
            forall|a: int, b: int| 0 <= a < b < p ==> vv[a] != vv[b],
        decreases vs@.len() - p,
    {
        let mut q: usize = 0;
        while q < p
            invariant
                q <= p < vs@.len(),
                forall|b: int| 0 <= b < q ==> vv[b] != vv[p as int],
            decreases p - q,
        {
            if SymCorpus::are_tokens_eq(&vs[q], &vs[p]) {
                proof {
                    assert(vv[q as int] == vv[p as int]);
                    assert(!variants_wf(vv));
                }
                return false;
            }
            q = q + 1;
        }
        p = p + 1;
    }
    true
}

/// Decides whether every record resolves in the type table.
#[verifier::loop_isolation(false)]
fn check_records_valid(types: &Vec<TypeEntry>, records: &Vec<NameIdx>) -> (r: bool)
    ensures
        r == (forall|n: Seq<char>| #[trigger]
            nameidx_map(records@).contains_key(n) ==> types_map(types@).contains_key(n) && 0
                <= nameidx_map(records@)[n] < types_map(types@)[n].len()),
{
    let ghost tm = types_map(types@);
    let ghost fr = nameidx_map(records@);
    let mut j: usize = 0;
    while j < records.len()
        invariant
            j <= records@.len(),
            forall|m: int|
                0 <= m < j ==> {
                    let n = (#[trigger] records@[m]).name@;
                    &&& tm.contains_key(n)
                    &&& 0 <= fr[n] < tm[n].len()
                },
        decreases records@.len() - j,
    {
        let v = match nameidx_get(records, records[j].name.as_str()) {
            Some(v) => v,
            None => {
                proof {
                    assert(exists|m: int|
                        0 <= m < records@.len() && #[trigger] records@[m].name@
                            == records@[j as int].name@);
                    lemma_nameidx_map_contains(records@, records@[j as int].name@);
                    assert(false);
                }
                return false;
            },
        };
        match types_find(types, records[j].name.as_str()) {
            None => {
                proof {
                    assert(exists|m: int|
                        0 <= m < records@.len() && #[trigger] records@[m].name@
                            == records@[j as int].name@);
                    lemma_nameidx_map_contains(records@, records@[j as int].name@);
                }
                return false;
            },
            Some(ti) => {
                if !(v < types[ti].variants.len()) {
                    proof {
                        assert(exists|m: int|
                            0 <= m < records@.len() && #[trigger] records@[m].name@
                                == records@[j as int].name@);
                        lemma_nameidx_map_contains(records@, records@[j as int].name@);
                    }
                    return false;
                }
            },
        }
        j = j + 1;
    }
    proof {
        assert forall|n: Seq<char>| #[trigger] fr.contains_key(n) implies tm.contains_key(n) && 0
            <= fr[n] < tm[n].len() by {
            lemma_nameidx_map_contains(records@, n);
            let m = choose|m: int| 0 <= m < records@.len() && #[trigger] records@[m].name@ == n;
        }
    }
    true
}

/// Decides whether a resolving record set is closed under type references.
#[verifier::loop_isolation(false)]
fn check_records_closed(types: &Vec<TypeEntry>, records: &Vec<NameIdx>) -> (r: bool)
    requires
        forall|n: Seq<char>| #[trigger]
            nameidx_map(records@).contains_key(n) ==> types_map(types@).contains_key(n) && 0
                <= nameidx_map(records@)[n] < types_map(types@)[n].len(),
    ensures
        r == (forall|n: Seq<char>, p: int|
            nameidx_map(records@).contains_key(n) && 0 <= p < types_map(
                types@,
            )[n][nameidx_map(records@)[n]].len() && (#[trigger] types_map(
                types@,
            )[n][nameidx_map(records@)[n]][p]).is_ref() ==> nameidx_map(records@).contains_key(
                types_map(types@)[n][nameidx_map(records@)[n]][p].word(),
            )),
{
    let ghost tm = types_map(types@);
    let ghost fr = nameidx_map(records@);
    let mut j: usize = 0;
    while j < records.len()
        invariant
            j <= records@.len(),
            forall|m: int, p: int|
                0 <= m < j && 0 <= p < tm[(#[trigger] records@[m]).name@][fr[records@[m].name@]].len()
                    && (#[trigger] tm[records@[m].name@][fr[records@[m].name@]][p]).is_ref()
                    ==> fr.contains_key(tm[records@[m].name@][fr[records@[m].name@]][p].word()),
        decreases records@.len() - j,
    {
        let nm = records[j].name.as_str();
        proof {
            assert(exists|m: int|
                0 <= m < records@.len() && #[trigger] records@[m].name@ == nm@);
            lemma_nameidx_map_contains(records@, nm@);
        }
        let v = match nameidx_get(records, nm) {
            Some(v) => v,
            None => {
                proof {
                    assert(false);
                }
                return false;
            },
        };
        let ti = match types_find(types, nm) {
            Some(t) => t,
            None => {
                proof {
                    assert(false);
                }
                return false;
            },
        };
        let toks = &types[ti].variants[v];
        let ghost tv = toks_view(toks@);
        proof {
            assert(tv == tm[nm@][fr[nm@]]);
        }
        let mut p: usize = 0;
        while p < toks.len()
            invariant
                p <= toks@.len(),
                ti < types@.len(),
                v < types@[ti as int].variants@.len(),
                tv == toks_view(types@[ti as int].variants@[v as int]@),
                forall|w: int|
                    0 <= w < p && (#[trigger] tv[w]).is_ref() ==> fr.contains_key(tv[w].word()),
            decreases toks@.len() - p,
        {
            match &types[ti].variants[v][p] {
                Token::Atom(_) => {
                    proof {
                        assert(tv[p as int] == types@[ti as int].variants@[v as int]@[p as int]@);
                        assert(!tv[p as int].is_ref());
                    }
                },
                Token::TypeRef(rn) => {
                    proof {
                        assert(tv[p as int] == types@[ti as int].variants@[v as int]@[p as int]@);
                        assert(tv[p as int].is_ref() && tv[p as int].word() == rn@);
                    }
                    if !nameidx_contains(records, rn.as_str()) {
                        proof {
                            assert(fr.contains_key(nm@));
                            assert(tv[p as int].is_ref());
                            assert(!fr.contains_key(tv[p as int].word()));
                        }
                        return false;
                    }
                },
            }
            p = p + 1;
        }
        j = j + 1;
    }
    proof {
        assert forall|n: Seq<char>, p: int|
            fr.contains_key(n) && 0 <= p < tm[n][fr[n]].len() && (#[trigger] tm[n][fr[n]][p]).is_ref()
                implies fr.contains_key(tm[n][fr[n]][p].word()) by {
            lemma_nameidx_map_contains(records@, n);
            let m = choose|m: int| 0 <= m < records@.len() && #[trigger] records@[m].name@ == n;
        }
    }
    true
}

// ---------------------------------------------------------------------------
// Interning
// ---------------------------------------------------------------------------

/// The first position of `t` among `vs`, or `-1`.
pub open spec fn find_variant(vs: Seq<Seq<TokenM>>, t: Seq<TokenM>) -> int
    decreases vs.len(),
{
    if vs.len() == 0 {
        -1
    } else if vs.first() == t {
        0
    } else {
        let r = find_variant(vs.drop_first(), t);
        if r < 0 {
            -1
        } else {
            1 + r
        }
    }
}

pub proof fn lemma_find_variant(vs: Seq<Seq<TokenM>>, t: Seq<TokenM>)
    ensures
        find_variant(vs, t) == -1 ==> forall|i: int| 0 <= i < vs.len() ==> vs[i] != t,
        find_variant(vs, t) >= 0 ==> {
            let r = find_variant(vs, t);
            &&& r < vs.len()
            &&& vs[r] == t
            &&& forall|i: int| 0 <= i < r ==> vs[i] != t
        },
    decreases vs.len(),
{
    if vs.len() > 0 && vs.first() != t {
        lemma_find_variant(vs.drop_first(), t);
        assert(forall|i: int| 1 <= i < vs.len() ==> vs[i] == vs.drop_first()[i - 1]);
    }
}

/// What interning does: absent names gain a single variant; a known token
/// sequence is found at its first position; a new one is appended.
pub open spec fn intern_spec(
    m: Map<Seq<char>, Seq<Seq<TokenM>>>,
    n: Seq<char>,
    t: Seq<TokenM>,
) -> (Map<Seq<char>, Seq<Seq<TokenM>>>, int) {
    if !m.contains_key(n) {
        (m.insert(n, seq![t]), 0)
    } else {
        let r = find_variant(m[n], t);
        if r >= 0 {
            (m, r)
        } else {
            (m.insert(n, m[n].push(t)), m[n].len() as int)
        }
    }
}

/// Interning preserves existing variants and their deduplication, and the
/// returned index names exactly the interned token sequence.
pub proof fn lemma_intern_spec(m: Map<Seq<char>, Seq<Seq<TokenM>>>, n: Seq<char>, t: Seq<TokenM>)
    requires
        forall|k: Seq<char>| #[trigger] m.contains_key(k) ==> variants_wf(m[k]),
    ensures
        ({
            let (m2, i) = intern_spec(m, n, t);
            &&& forall|k: Seq<char>| #[trigger] m2.contains_key(k) <==> (m.contains_key(k) || k == n)
            &&& forall|k: Seq<char>| #[trigger]
                m.contains_key(k) ==> m[k].len() <= m2[k].len() && (forall|j: int|
                    0 <= j < m[k].len() ==> m2[k][j] == #[trigger] m[k][j])
            &&& forall|k: Seq<char>| #[trigger] m2.contains_key(k) ==> variants_wf(m2[k])
            &&& 0 <= i < m2[n].len()
            &&& m2[n][i] == t
        }),
{
    lemma_find_variant(if m.contains_key(n) {
        m[n]
    } else {
        Seq::empty()
    }, t);
    let (m2, i) = intern_spec(m, n, t);
    if !m.contains_key(n) {
        assert(m2[n] == seq![t]);
        assert(variants_wf(seq![t]));
        assert(m2[n][0] == t);
    } else {
        let r = find_variant(m[n], t);
        if r < 0 {
            let vs2 = m[n].push(t);
            assert(forall|j: int| 0 <= j < m[n].len() ==> vs2[j] == #[trigger] m[n][j]);
            assert(vs2[m[n].len() as int] == t);
            assert(variants_wf(vs2)) by {
                assert(forall|j: int| 0 <= j < m[n].len() ==> #[trigger] vs2[j] != t);
            }
        }
    }
}

impl SymCorpus {
    /// Interns one token sequence under a name, returning the variant index
    /// it ends up with ([`intern_spec`]).
    #[verifier::loop_isolation(false)]
    pub fn merge_type(types: &mut Vec<TypeEntry>, name: &str, tokens: Vec<Token>) -> (idx: usize)
        ensures
            ({
                let (m2, i) = intern_spec(types_map(old(types)@), name@, toks_view(tokens@));
                &&& types_map(final(types)@) == m2
                &&& idx as int == i
            }),
    {
        let ghost m = types_map(types@);
        let ghost t = toks_view(tokens@);
        match types_find(types, name) {
            Some(ei) => {
                let n = types[ei].variants.len();
                let ghost vs = variants_view(types@[ei as int].variants@);
                let mut i: usize = 0;
                while i < n
                    invariant
                        i <= n,
                        ei < types@.len(),
                        n == types@[ei as int].variants@.len(),
                        vs == variants_view(types@[ei as int].variants@),
                        forall|j: int| 0 <= j < i ==> vs[j] != t,
                        t == toks_view(tokens@),
                    decreases n - i,
                {
                    if SymCorpus::are_tokens_eq(&types[ei].variants[i], &tokens) {
                        proof {
                            assert(vs[i as int] == t);
                            lemma_find_variant(vs, t);
                            let r = find_variant(vs, t);
                            if r == -1 {
                                assert(vs[i as int] != t);
                            } else if r < i as int {
                                assert(vs[r] != t);
                            } else if r > i as int {
                                assert(vs[i as int] != t);
                            }
                            assert(r == i as int);
                        }
                        return i;
                    }
                    i = i + 1;
                }
                proof {
                    lemma_find_variant(vs, t);
                    assert(find_variant(vs, t) == -1) by {
                        if find_variant(vs, t) >= 0 {
                            lemma_find_variant(vs, t);
                        }
                    }
                }
                let ghost orig = types@;
                let mut e = types.remove(ei);
                e.variants.push(tokens);
                types.insert(ei, e);
                proof {
                    assert(types@ =~= orig.update(ei as int, types@[ei as int]));
                    assert(variants_view(types@[ei as int].variants@) =~= vs.push(t));
                    lemma_types_map_update_last(orig, ei as int, types@[ei as int]);
                }
                return n;
            },
            None => {
                let mut variants: Vec<Vec<Token>> = Vec::new();
                variants.push(tokens);
                let ghost orig = types@;
                types.push(TypeEntry { name: name.to_owned(), variants });
                proof {
                    assert(types@.drop_last() =~= orig);
                    assert(variants_view(types@.last().variants@) =~= seq![t]);
                    assert(types_map(types@) == m.insert(name@, seq![t]));
                }
                return 0;
            },
        }
    }
}

// ---------------------------------------------------------------------------
// Files and the corpus
// ---------------------------------------------------------------------------

/// The records of one input file: every declaration that appears in, or is
/// implied by, that file, each mapped to its variant index.
pub struct SymFile {
    pub path: String,
    pub records: Vec<NameIdx>,
}

/// The mathematical value of a [`SymFile`].
pub struct FileM {
    pub path: Seq<char>,
    pub records: Map<Seq<char>, int>,
}

impl View for SymFile {
    type V = FileM;

    open spec fn view(&self) -> FileM {
        FileM { path: self.path@, records: nameidx_map(self.records@) }
    }
}

/// A corpus of symbol types: deduplicated type variants, exports, and
/// per-file records.
pub struct SymCorpus {
    pub types: Vec<TypeEntry>,
    pub exports: Vec<NameIdx>,
    pub files: Vec<SymFile>,
}

/// The mathematical value of a [`SymCorpus`].
pub struct CorpusM {
    pub types: Map<Seq<char>, Seq<Seq<TokenM>>>,
    pub exports: Map<Seq<char>, int>,
    pub files: Seq<FileM>,
}

/// The values of a file list.
pub open spec fn files_views(fs: Seq<SymFile>) -> Seq<FileM> {
    fs.map_values(|f: SymFile| f@)
}

impl View for SymCorpus {
    type V = CorpusM;

    open spec fn view(&self) -> CorpusM {
        CorpusM {
            types: types_map(self.types@),
            exports: nameidx_map(self.exports@),
            files: files_views(self.files@),
        }
    }
}

/// The domain of a type table is finite, no larger than the list behind it.
pub proof fn lemma_types_map_dom_finite(ts: Seq<TypeEntry>)
    ensures
        types_map(ts).dom().finite(),
        types_map(ts).dom().len() <= ts.len(),
    decreases ts.len(),
{
    if ts.len() == 0 {
        assert(types_map(ts).dom() =~= Set::<Seq<char>>::empty());
    } else {
        lemma_types_map_dom_finite(ts.drop_last());
        let d0 = types_map(ts.drop_last()).dom();
        assert(types_map(ts).dom() =~= d0.insert(ts.last().name@));
        if d0.contains(ts.last().name@) {
            assert(d0.insert(ts.last().name@) =~= d0);
        }
    }
}

// ---------------------------------------------------------------------------
// Well-formedness
// ---------------------------------------------------------------------------

/// No two variants of one name are equal, and a name never has zero variants.
pub open spec fn variants_wf(vs: Seq<Seq<TokenM>>) -> bool {
    &&& vs.len() >= 1
    &&& forall|i: int, j: int| 0 <= i < j < vs.len() ==> vs[i] != vs[j]
}

/// Every record of the file names a known type and a valid variant of it.
pub open spec fn file_records_wf(c: CorpusM, f: FileM) -> bool {
    forall|n: Seq<char>| #[trigger]
        f.records.contains_key(n) ==> c.types.contains_key(n) && 0 <= f.records[n]
            < c.types[n].len()
}

/// The invariants of a corpus: variants are deduplicated, file records
/// resolve, and every export names a file that records it.
pub open spec fn corpus_wf(c: CorpusM) -> bool {
    &&& forall|n: Seq<char>| #[trigger] c.types.contains_key(n) ==> variants_wf(c.types[n])
    &&& forall|i: int| 0 <= i < c.files.len() ==> file_records_wf(c, #[trigger] c.files[i])
    &&& forall|n: Seq<char>| #[trigger]
        c.exports.contains_key(n) ==> 0 <= c.exports[n] < c.files.len()
            && c.files[c.exports[n]].records.contains_key(n)
}

/// Every reference that a record's tokens carry is itself recorded by the
/// file.
pub open spec fn file_closed(c: CorpusM, f: FileM) -> bool {
    forall|n: Seq<char>, p: int|
        f.records.contains_key(n) && 0 <= p < c.types[n][f.records[n]].len()
            && (#[trigger] c.types[n][f.records[n]][p]).is_ref() ==> f.records.contains_key(
            c.types[n][f.records[n]][p].word(),
        )
}

/// Every file of the corpus is closed under type references.
pub open spec fn corpus_closed(c: CorpusM) -> bool {
    forall|i: int| 0 <= i < c.files.len() ==> file_closed(c, #[trigger] c.files[i])
}

impl SymCorpus {
    /// Well-formedness of the corpus.
    pub open spec fn wf(&self) -> bool {
        corpus_wf(self@)
    }

    /// Closure of all files under type references.
    pub open spec fn closed(&self) -> bool {
        corpus_closed(self@)
    }

    /// Creates an empty corpus.
    pub fn new() -> (r: SymCorpus)
        ensures
            r@.types =~= Map::<Seq<char>, Seq<Seq<TokenM>>>::empty(),
            r@.exports =~= Map::<Seq<char>, int>::empty(),
            r@.files =~= Seq::<FileM>::empty(),
            r.wf(),
            r.closed(),
    {
        SymCorpus { types: Vec::new(), exports: Vec::new(), files: Vec::new() }
    }

    /// Whether a record name is an export.
    pub fn is_export(name: &str) -> (r: bool)
        ensures
            r == is_export_name(name@),
    {
        let n = name.unicode_len();
        !(n >= 2 && name.get_char(1) == '#')
    }

    /// Decides [`SymCorpus::wf`] and [`SymCorpus::closed`] at run time, so
    /// that unverified callers can test them before writing or comparing.
    #[verifier::loop_isolation(false)]
    pub fn check_invariants(&self) -> (r: bool)
        ensures
            r == (self.wf() && self.closed()),
    {
        let ghost c = self@;
        // Variants are deduplicated.
        let mut i: usize = 0;
        while i < self.types.len()
            invariant
                i <= self.types@.len(),
                forall|m: int|
                    0 <= m < i ==> variants_wf(
                        types_map(self.types@)[(#[trigger] self.types@[m]).name@],
                    ),
            decreases self.types@.len() - i,
        {
            let wi = match types_find(&self.types, self.types[i].name.as_str()) {
                Some(w) => w,
                None => {
                    proof {
                        assert(exists|m: int|
                            0 <= m < self.types@.len() && #[trigger] self.types@[m].name@
                                == self.types@[i as int].name@);
                        lemma_types_map_contains(self.types@, self.types@[i as int].name@);
                        assert(false);
                    }
                    return false;
                },
            };
            if !check_variants_distinct(&self.types[wi].variants) {
                proof {
                    let n = self.types@[i as int].name@;
                    assert(c.types.contains_key(n));
                    assert(c.types[n] == variants_view(self.types@[wi as int].variants@));
                    assert(!variants_wf(c.types[n]));
                    assert(!corpus_wf(c));
                }
                return false;
            }
            i = i + 1;
        }
        proof {
            assert forall|n: Seq<char>| #[trigger] c.types.contains_key(n) implies variants_wf(
                c.types[n],
            ) by {
                lemma_types_map_contains(self.types@, n);
                let m = choose|m: int|
                    0 <= m < self.types@.len() && #[trigger] self.types@[m].name@ == n;
            }
        }
        // File records resolve against the type table.
        let mut fi: usize = 0;
        while fi < self.files.len()
            invariant
                fi <= self.files@.len(),
                forall|m: int|
                    0 <= m < fi ==> file_records_wf(c, (#[trigger] self.files@[m])@),
                c == self@,
            decreases self.files@.len() - fi,
        {
            if !check_records_valid(&self.types, &self.files[fi].records) {
                proof {
                    assert(self.files@[fi as int]@.records == nameidx_map(
                        self.files@[fi as int].records@,
                    ));
                    assert(c.files[fi as int] == self.files@[fi as int]@);
                    assert(!file_records_wf(c, c.files[fi as int]));
                    assert(!corpus_wf(c));
                }
                return false;
            }
            proof {
                assert(self.files@[fi as int]@.records == nameidx_map(
                    self.files@[fi as int].records@,
                ));
            }
            fi = fi + 1;
        }
        proof {
            assert forall|m: int| 0 <= m < c.files.len() implies file_records_wf(
                c,
                #[trigger] c.files[m],
            ) by {
                assert(c.files[m] == self.files@[m]@);
            }
        }
        // Exports name files that record them.
        let mut ei: usize = 0;
        while ei < self.exports.len()
            invariant
                ei <= self.exports@.len(),
                forall|m: int|
                    0 <= m < ei ==> {
                        let n = (#[trigger] self.exports@[m]).name@;
                        &&& 0 <= c.exports[n] < c.files.len()
                        &&& c.files[c.exports[n]].records.contains_key(n)
                    },
                c == self@,
            decreases self.exports@.len() - ei,
        {
            let v = match nameidx_get(&self.exports, self.exports[ei].name.as_str()) {
                Some(v) => v,
                None => {
                    proof {
                        assert(exists|m: int|
                            0 <= m < self.exports@.len() && #[trigger] self.exports@[m].name@
                                == self.exports@[ei as int].name@);
                        lemma_nameidx_map_contains(self.exports@, self.exports@[ei as int].name@);
                        assert(false);
                    }
                    return false;
                },
            };
            if !(v < self.files.len()) {
                return false;
            }
            if !nameidx_contains(&self.files[v].records, self.exports[ei].name.as_str()) {
                proof {
                    assert(c.files[v as int] == self.files@[v as int]@);
                }
                return false;
            }
            proof {
                assert(c.files[v as int] == self.files@[v as int]@);
            }
            ei = ei + 1;
        }
        proof {
            assert forall|n: Seq<char>| #[trigger] c.exports.contains_key(n) implies 0
                <= c.exports[n] < c.files.len() && c.files[c.exports[n]].records.contains_key(
                n,
            ) by {
                lemma_nameidx_map_contains(self.exports@, n);
                let m = choose|m: int|
                    0 <= m < self.exports@.len() && #[trigger] self.exports@[m].name@ == n;
            }
            assert(corpus_wf(c));
        }
        // Every file is closed under type references.
        let mut ci: usize = 0;
        while ci < self.files.len()
            invariant
                ci <= self.files@.len(),
                corpus_wf(c),
                forall|m: int| 0 <= m < ci ==> file_closed(c, (#[trigger] self.files@[m])@),
                c == self@,
            decreases self.files@.len() - ci,
        {
            proof {
                assert(file_records_wf(c, c.files[ci as int]));
                assert(self.files@[ci as int]@.records == nameidx_map(
                    self.files@[ci as int].records@,
                ));
            }
            if !check_records_closed(&self.types, &self.files[ci].records) {
                proof {
                    assert(c.files[ci as int] == self.files@[ci as int]@);
                    assert(!file_closed(c, c.files[ci as int]));
                    assert(!corpus_closed(c));
                }
                return false;
            }
            proof {
                assert(c.files[ci as int] == self.files@[ci as int]@);
                assert(file_closed(c, c.files[ci as int]));
            }
            ci = ci + 1;
        }
        proof {
            assert forall|m: int| 0 <= m < c.files.len() implies file_closed(
                c,
                #[trigger] c.files[m],
            ) by {
                assert(c.files[m] == self.files@[m]@);
            }
        }
        true
    }

    /// Elementwise structural equality of two token sequences.
    pub fn are_tokens_eq(a: &Vec<Token>, b: &Vec<Token>) -> (r: bool)
        ensures
            r == (toks_view(a@) == toks_view(b@)),
    {
        if a.len() != b.len() {
            proof {
                assert(toks_view(a@).len() == a@.len());
                assert(toks_view(b@).len() == b@.len());
            }
            return false;
        }
        let mut i: usize = 0;
        while i < a.len()
            invariant
                i <= a@.len(),
                a@.len() == b@.len(),
                forall|m: int| 0 <= m < i ==> #[trigger] a@[m]@ == b@[m]@,
            decreases a@.len() - i,
        {
            if !a[i].eq_token(&b[i]) {
                proof {
                    assert(toks_view(a@)[i as int] != toks_view(b@)[i as int]);
                }
                return false;
            }
            i = i + 1;
        }
        proof {
            assert(toks_view(a@) =~= toks_view(b@));
        }
        true
    }
}

} // verus!

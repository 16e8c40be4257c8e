//! Verified text utilities: line and word splitting, character classes,
//! lexicographic ordering of character sequences, and decimal rendering.

use vstd::prelude::*;

verus! {

/// The views of a sequence of owned strings.
pub open spec fn str_views(ss: Seq<String>) -> Seq<Seq<char>> {
    ss.map_values(|s: String| s@)
}

// ---------------------------------------------------------------------------
// Character classes
// ---------------------------------------------------------------------------

/// ASCII whitespace, as understood by record tokenization.
pub open spec fn is_ws_char(c: char) -> bool {
    c == ' ' || c == '\t' || c == '\n' || c == '\r' || c == '\u{c}'
}

/// Runtime test for [`is_ws_char`].
pub fn is_ws(c: char) -> (r: bool)
    ensures
        r == is_ws_char(c),
{
    c == ' ' || c == '\t' || c == '\n' || c == '\r' || c == '\u{c}'
}

// ---------------------------------------------------------------------------
// Word splitting
// ---------------------------------------------------------------------------

/// Length of the maximal non-whitespace prefix of `s`.
pub open spec fn word_len(s: Seq<char>) -> int
    decreases s.len(),
{
    if s.len() == 0 || is_ws_char(s[0]) {
        0
    } else {
        1 + word_len(s.drop_first())
    }
}

pub proof fn lemma_word_len_bounds(s: Seq<char>)
    ensures
        0 <= word_len(s) <= s.len(),
    decreases s.len(),
{
    if !(s.len() == 0 || is_ws_char(s[0])) {
        lemma_word_len_bounds(s.drop_first());
    }
}

/// `word_len` is pinned by pointwise facts about `s`.
pub proof fn lemma_word_len_is(s: Seq<char>, k: int)
    requires
        0 <= k <= s.len(),
        forall|m: int| 0 <= m < k ==> !is_ws_char(#[trigger] s[m]),
        k == s.len() || is_ws_char(s[k]),
    ensures
        word_len(s) == k,
    decreases s.len(),
{
    if k == 0 {
    } else {
        assert(!is_ws_char(s[0]));
        let t = s.drop_first();
        assert(forall|m: int| 0 <= m < k - 1 ==> t[m] == s[m + 1] && !is_ws_char(#[trigger] t[m]));
        if k - 1 < t.len() {
            assert(t[k - 1] == s[k]);
        }
        lemma_word_len_is(t, k - 1);
    }
}

#[via_fn]
proof fn spec_words_decreases(s: Seq<char>) {
    if s.len() > 0 && !is_ws_char(s[0]) {
        lemma_word_len_bounds(s.drop_first());
        assert(1 <= word_len(s) <= s.len());
    }
}

/// The whitespace-separated words of `s`, in order.
pub open spec fn spec_words(s: Seq<char>) -> Seq<Seq<char>>
    decreases s.len(),
    via spec_words_decreases
{
    if s.len() == 0 {
        Seq::empty()
    } else if is_ws_char(s[0]) {
        spec_words(s.drop_first())
    } else {
        seq![s.take(word_len(s))] + spec_words(s.skip(word_len(s)))
    }
}

proof fn lemma_words_skip_ws(s: Seq<char>, i: int)
    requires
        0 <= i <= s.len(),
        forall|m: int| 0 <= m < i ==> is_ws_char(#[trigger] s[m]),
    ensures
        spec_words(s) == spec_words(s.skip(i)),
    decreases i,
{
    if i > 0 {
        assert(is_ws_char(s[0]));
        assert(s.drop_first() == s.skip(1));
        lemma_words_skip_ws(s.skip(1), i - 1);
        assert(s.skip(1).skip(i - 1) == s.skip(i)) by {
            s.lemma_seq_skip_skip(1);
        }
    } else {
        assert(s.skip(0) == s);
    }
}

/// Splits a line into its whitespace-separated words.
pub fn split_words(line: &str) -> (ws: Vec<String>)
    ensures
        str_views(ws@) == spec_words(line@),
{
    let n = line.unicode_len();
    let mut ws: Vec<String> = Vec::new();
    let mut i: usize = 0;
    assert(line@.skip(0) == line@);
    assert(str_views(ws@) =~= Seq::<Seq<char>>::empty());
    while i < n
        invariant
            i <= n,
            n == line@.len(),
            str_views(ws@) + spec_words(line@.skip(i as int)) == spec_words(line@),
        decreases n - i,
    {
        if is_ws(line.get_char(i)) {
            proof {
                let rest = line@.skip(i as int);
                assert(rest[0] == line@[i as int]);
                lemma_words_skip_ws(rest, 1);
                assert(rest.skip(1) == line@.skip(i + 1)) by {
                    line@.lemma_seq_skip_skip(i as int);
                }
            }
            i = i + 1;
        } else {
            let mut j: usize = i + 1;
            while j < n && !is_ws(line.get_char(j))
                invariant
                    i < j <= n,
                    n == line@.len(),
                    forall|m: int| i <= m < j ==> !is_ws_char(#[trigger] line@[m]),
                decreases n - j,
            {
                j = j + 1;
            }
            let w = line.substring_char(i, j).to_owned();
            proof {
                let rest = line@.skip(i as int);
                assert(forall|m: int|
                    0 <= m < j - i ==> rest[m] == line@[m + i] && !is_ws_char(#[trigger] rest[m]));
                if j - i < rest.len() {
                    assert(rest[j - i] == line@[j as int]);
                    assert(is_ws_char(rest[j - i]));
                }
                lemma_word_len_is(rest, j - i);
                assert(!is_ws_char(rest[0]));
                assert(rest.take(j - i) =~= line@.subrange(i as int, j as int));
                assert(spec_words(rest) == seq![rest.take(j - i)] + spec_words(rest.skip(j - i)));
                assert(rest.skip(j - i) == line@.skip(j as int)) by {
                    line@.lemma_seq_skip_skip(i as int);
                }
                assert(w@ == line@.subrange(i as int, j as int));
            }
            let ghost old_ws = ws@;
            ws.push(w);
            proof {
                assert(str_views(ws@) =~= str_views(old_ws).push(w@));
                assert(str_views(old_ws).push(w@) =~= str_views(old_ws) + seq![w@]);
                assert(str_views(ws@) + spec_words(line@.skip(j as int)) =~= str_views(old_ws)
                    + spec_words(line@.skip(i as int)));
            }
            i = j;
        }
    }
    proof {
        assert(line@.skip(n as int) =~= Seq::<char>::empty());
        assert(spec_words(line@.skip(n as int)) =~= Seq::<Seq<char>>::empty());
        assert(str_views(ws@) + Seq::<Seq<char>>::empty() =~= str_views(ws@));
    }
    ws
}

// ---------------------------------------------------------------------------
// Line splitting
// ---------------------------------------------------------------------------

/// Number of characters before the first `'\n'` of `s` (or all of `s`).
pub open spec fn line_len(s: Seq<char>) -> int
    decreases s.len(),
{
    if s.len() == 0 || s[0] == '\n' {
        0
    } else {
        1 + line_len(s.drop_first())
    }
}

pub proof fn lemma_line_len_bounds(s: Seq<char>)
    ensures
        0 <= line_len(s) <= s.len(),
    decreases s.len(),
{
    if !(s.len() == 0 || s[0] == '\n') {
        lemma_line_len_bounds(s.drop_first());
    }
}

pub proof fn lemma_line_len_is(s: Seq<char>, k: int)
    requires
        0 <= k <= s.len(),
        forall|m: int| 0 <= m < k ==> #[trigger] s[m] != '\n',
        k == s.len() || s[k] == '\n',
    ensures
        line_len(s) == k,
    decreases s.len(),
{
    if k == 0 {
    } else {
        let t = s.drop_first();
        assert(forall|m: int| 0 <= m < k - 1 ==> t[m] == s[m + 1] && #[trigger] t[m] != '\n');
        if k - 1 < t.len() {
            assert(t[k - 1] == s[k]);
        }
        lemma_line_len_is(t, k - 1);
    }
}

/// One raw line with a trailing carriage return removed.
pub open spec fn strip_cr(l: Seq<char>) -> Seq<char> {
    if l.len() > 0 && l[l.len() - 1] == '\r' {
        l.drop_last()
    } else {
        l
    }
}

#[via_fn]
proof fn spec_split_lines_decreases(s: Seq<char>) {
    lemma_line_len_bounds(s);
    if s.len() > 0 && s[0] != '\n' {
        lemma_line_len_bounds(s.drop_first());
        assert(1 <= line_len(s) <= s.len());
    }
}

/// The lines of `s`: maximal runs split at `'\n'`, each with one trailing
/// `'\r'` removed; a final newline terminates the last line without opening a
/// new empty one.
pub open spec fn spec_split_lines(s: Seq<char>) -> Seq<Seq<char>>
    decreases s.len(),
    via spec_split_lines_decreases
{
    if s.len() == 0 {
        Seq::empty()
    } else {
        let k = line_len(s);
        let rest = if k < s.len() {
            spec_split_lines(s.skip(k + 1))
        } else {
            Seq::empty()
        };
        seq![strip_cr(s.take(k))] + rest
    }
}

// ---------------------------------------------------------------------------
// Variant-tag suffix search
// ---------------------------------------------------------------------------

/// Index of the last `'@'` in `s`, or `-1` when there is none.
pub open spec fn last_at_idx(s: Seq<char>) -> int
    decreases s.len(),
{
    if s.len() == 0 {
        -1
    } else if s[s.len() - 1] == '@' {
        s.len() - 1
    } else {
        last_at_idx(s.drop_last())
    }
}

pub proof fn lemma_last_at_idx_is(s: Seq<char>, k: int)
    requires
        -1 <= k < s.len(),
        k >= 0 ==> s[k] == '@',
        forall|m: int| k < m < s.len() ==> #[trigger] s[m] != '@',
    ensures
        last_at_idx(s) == k,
    decreases s.len(),
{
    if s.len() == 0 {
    } else if s[s.len() - 1] == '@' {
        assert(k == s.len() - 1);
    } else {
        let t = s.drop_last();
        assert(k < s.len() - 1);
        assert(forall|m: int| k < m < t.len() ==> t[m] == s[m] && #[trigger] t[m] != '@');
        if k >= 0 {
            assert(t[k] == s[k]);
        }
        lemma_last_at_idx_is(t, k);
    }
}

/// Finds the last `'@'` of `s`, mirroring [`last_at_idx`].
pub fn find_last_at(s: &str) -> (r: Option<usize>)
    ensures
        match r {
            Some(k) => (k as int) < s@.len() && last_at_idx(s@) == k as int,
            None => last_at_idx(s@) == -1,
        },
{
    let n = s.unicode_len();
    let mut j: usize = n;
    while j > 0
        invariant
            j <= n,
            n == s@.len(),
            forall|m: int| j <= m < n ==> #[trigger] s@[m] != '@',
        decreases j,
    {
        if s.get_char(j - 1) == '@' {
            proof {
                lemma_last_at_idx_is(s@, j - 1);
            }
            return Some(j - 1);
        }
        j = j - 1;
    }
    proof {
        lemma_last_at_idx_is(s@, -1);
    }
    None
}

// ---------------------------------------------------------------------------
// Lexicographic order on character sequences
// ---------------------------------------------------------------------------

/// Strict lexicographic order on character sequences, by Unicode code point.
pub open spec fn seq_char_lt(a: Seq<char>, b: Seq<char>) -> bool
    decreases a.len(),
{
    if b.len() == 0 {
        false
    } else if a.len() == 0 {
        true
    } else if a[0] == b[0] {
        seq_char_lt(a.drop_first(), b.drop_first())
    } else {
        (a[0] as u32) < (b[0] as u32)
    }
}

/// The order is total: two sequences compare, or are equal.
pub proof fn lemma_seq_char_lt_total(a: Seq<char>, b: Seq<char>)
    ensures
        seq_char_lt(a, b) || seq_char_lt(b, a) || a == b,
    decreases a.len() + b.len(),
{
    if a.len() == 0 || b.len() == 0 {
        if a.len() == 0 && b.len() == 0 {
            assert(a =~= b);
        }
    } else if a[0] == b[0] {
        lemma_seq_char_lt_total(a.drop_first(), b.drop_first());
        if a.drop_first() == b.drop_first() {
            assert(a =~= b) by {
                assert(a.drop_first().len() == b.drop_first().len());
                assert(a.drop_first().len() == a.len() - 1);
                assert(b.drop_first().len() == b.len() - 1);
                assert(a.len() == b.len());
                assert forall|i: int| 0 <= i < a.len() implies a[i] == b[i] by {
                    if i > 0 {
                        assert(a.drop_first()[i - 1] == a[i]);
                        assert(b.drop_first()[i - 1] == b[i]);
                    }
                }
            }
        }
    } else {
        assert((a[0] as u32) != (b[0] as u32)) by {
            vstd::utf8::char_u32_cast(a[0], a[0] as u32);
            vstd::utf8::char_u32_cast(b[0], b[0] as u32);
        }
    }
}

/// The order is asymmetric.
pub proof fn lemma_seq_char_lt_asym(a: Seq<char>, b: Seq<char>)
    ensures
        !(seq_char_lt(a, b) && seq_char_lt(b, a)),
    decreases a.len(),
{
    if a.len() > 0 && b.len() > 0 && a[0] == b[0] {
        lemma_seq_char_lt_asym(a.drop_first(), b.drop_first());
    }
}

/// The order is transitive.
pub proof fn lemma_seq_char_lt_trans(a: Seq<char>, b: Seq<char>, c: Seq<char>)
    requires
        seq_char_lt(a, b),
        seq_char_lt(b, c),
    ensures
        seq_char_lt(a, c),
    decreases a.len() + b.len() + c.len(),
{
    if b.len() == 0 {
    } else if c.len() == 0 {
    } else if a.len() == 0 {
    } else {
        if a[0] == b[0] && b[0] == c[0] {
            lemma_seq_char_lt_trans(a.drop_first(), b.drop_first(), c.drop_first());
        }
    }
}

/// Compares two strings in the order of [`seq_char_lt`].
pub fn str_lt(a: &str, b: &str) -> (r: bool)
    ensures
        r == seq_char_lt(a@, b@),
{
    let na = a.unicode_len();
    let nb = b.unicode_len();
    let mut i: usize = 0;
    assert(a@.skip(0) == a@);
    assert(b@.skip(0) == b@);
    loop
        invariant
            i <= na,
            i <= nb,
            na == a@.len(),
            nb == b@.len(),
            seq_char_lt(a@, b@) == seq_char_lt(a@.skip(i as int), b@.skip(i as int)),
            forall|m: int| 0 <= m < i ==> a@[m] == b@[m],
        decreases na - i,
    {
        if i >= nb {
            // `b` is a prefix of `a`.
            return false;
        }
        if i >= na {
            return true;
        }
        let ca = a.get_char(i);
        let cb = b.get_char(i);
        proof {
            let ra = a@.skip(i as int);
            let rb = b@.skip(i as int);
            assert(ra[0] == a@[i as int] && rb[0] == b@[i as int]);
            if ca == cb {
                assert(ra.drop_first() == a@.skip(i + 1)) by {
                    a@.lemma_seq_skip_skip(i as int);
                }
                assert(rb.drop_first() == b@.skip(i + 1)) by {
                    b@.lemma_seq_skip_skip(i as int);
                }
            }
        }
        if ca == cb {
            i = i + 1;
        } else {
            return (ca as u32) < (cb as u32);
        }
    }
}

/// String equality as view equality.
pub fn str_eq_str(a: &str, b: &str) -> (r: bool)
    ensures
        r == (a@ == b@),
{
    let na = a.unicode_len();
    let nb = b.unicode_len();
    if na != nb {
        proof {
            assert(a@ != b@);
        }
        return false;
    }
    let mut i: usize = 0;
    while i < na
        invariant
            i <= na,
            na == a@.len(),
            na == b@.len(),
            forall|m: int| 0 <= m < i ==> a@[m] == b@[m],
        decreases na - i,
    {
        if !(a.get_char(i) == b.get_char(i)) {
            return false;
        }
        i = i + 1;
    }
    proof {
        assert(a@ =~= b@);
    }
    true
}

// ---------------------------------------------------------------------------
// Decimal rendering
// ---------------------------------------------------------------------------

/// The decimal digit character for `d`.
pub open spec fn digit_char(d: int) -> char {
    if d == 0 {
        '0'
    } else if d == 1 {
        '1'
    } else if d == 2 {
        '2'
    } else if d == 3 {
        '3'
    } else if d == 4 {
        '4'
    } else if d == 5 {
        '5'
    } else if d == 6 {
        '6'
    } else if d == 7 {
        '7'
    } else if d == 8 {
        '8'
    } else {
        '9'
    }
}

/// The usual decimal rendering of `n`, most significant digit first.
pub open spec fn dec_str(n: nat) -> Seq<char>
    decreases n,
{
    if n < 10 {
        seq![digit_char(n as int)]
    } else {
        dec_str(n / 10) + seq![digit_char((n % 10) as int)]
    }
}

fn digit_str(d: usize) -> (s: &'static str)
    requires
        d < 10,
    ensures
        s@ == seq![digit_char(d as int)],
{
    proof {
        reveal_strlit("0");
        reveal_strlit("1");
        reveal_strlit("2");
        reveal_strlit("3");
        reveal_strlit("4");
        reveal_strlit("5");
        reveal_strlit("6");
        reveal_strlit("7");
        reveal_strlit("8");
        reveal_strlit("9");
    }
    let s = match d {
        0 => "0",
        1 => "1",
        2 => "2",
        3 => "3",
        4 => "4",
        5 => "5",
        6 => "6",
        7 => "7",
        8 => "8",
        _ => "9",
    };
    proof {
        assert(s@ =~= seq![digit_char(d as int)]);
    }
    s
}

/// Renders `n` in decimal.
pub fn usize_to_string(n: usize) -> (s: String)
    ensures
        s@ == dec_str(n as nat),
    decreases n,
{
    if n < 10 {
        digit_str(n).to_owned()
    } else {
        let mut s = usize_to_string(n / 10);
        s.append(digit_str(n % 10));
        proof {
            assert(s@ =~= dec_str(n as nat));
        }
        s
    }
}

/// Splits a whole text into its lines.
pub fn split_lines(text: &str) -> (ls: Vec<String>)
    ensures
        str_views(ls@) == spec_split_lines(text@),
{
    let n = text.unicode_len();
    let mut ls: Vec<String> = Vec::new();
    let mut i: usize = 0;
    assert(text@.skip(0) == text@);
    assert(str_views(ls@) =~= Seq::<Seq<char>>::empty());
    while i < n
        invariant
            i <= n,
            n == text@.len(),
            str_views(ls@) + spec_split_lines(text@.skip(i as int)) == spec_split_lines(text@),
        decreases n - i,
    {
        let mut j: usize = i;
        while j < n && !(text.get_char(j) == '\n')
            invariant
                i <= j <= n,
                n == text@.len(),
                forall|m: int| i <= m < j ==> #[trigger] text@[m] != '\n',
            decreases n - j,
        {
            j = j + 1;
        }
        let line_end = if j > i && text.get_char(j - 1) == '\r' {
            j - 1
        } else {
            j
        };
        let line = text.substring_char(i, line_end).to_owned();
        let next = if j < n {
            j + 1
        } else {
            n
        };
        proof {
            let rest = text@.skip(i as int);
            assert(forall|m: int|
                0 <= m < j - i ==> rest[m] == text@[m + i] && #[trigger] rest[m] != '\n');
            if j - i < rest.len() {
                assert(rest[j - i] == text@[j as int]);
            }
            lemma_line_len_is(rest, j - i);
            assert(rest.len() > 0);
            assert(rest.take(j - i) =~= text@.subrange(i as int, j as int));
            if j > i && text@[j - 1] == '\r' {
                assert(strip_cr(rest.take(j - i)) =~= text@.subrange(i as int, line_end as int));
            } else {
                assert(strip_cr(rest.take(j - i)) =~= text@.subrange(i as int, line_end as int));
            }
            assert(line@ == strip_cr(rest.take(j - i)));
            if j < n {
                assert(rest.skip(j - i + 1) == text@.skip(next as int)) by {
                    text@.lemma_seq_skip_skip(i as int);
                }
                assert(spec_split_lines(rest) == seq![strip_cr(rest.take(j - i))]
                    + spec_split_lines(text@.skip(next as int)));
            } else {
                assert(spec_split_lines(rest) == seq![strip_cr(rest.take(j - i))]
                    + Seq::<Seq<char>>::empty());
                assert(text@.skip(next as int) =~= Seq::<char>::empty());
                assert(spec_split_lines(text@.skip(next as int)) =~= Seq::<Seq<char>>::empty());
            }
        }
        let ghost old_ls = ls@;
        ls.push(line);
        proof {
            assert(str_views(ls@) =~= str_views(old_ls).push(line@));
            assert(str_views(old_ls).push(line@) =~= str_views(old_ls) + seq![line@]);
            assert(str_views(ls@) + spec_split_lines(text@.skip(next as int)) =~= str_views(old_ls)
                + spec_split_lines(text@.skip(i as int)));
        }
        i = next;
    }
    proof {
        assert(text@.skip(n as int) =~= Seq::<char>::empty());
        assert(spec_split_lines(text@.skip(n as int)) =~= Seq::<Seq<char>>::empty());
        assert(str_views(ls@) + Seq::<Seq<char>>::empty() =~= str_views(ls@));
    }
    ls
}

} // verus!

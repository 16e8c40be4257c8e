//! Pretty-printing of token sequences into indented multi-line form.

use vstd::prelude::*;

use crate::sym::{toks_view, Token, TokenM};
use crate::text::str_views;

verus! {

// ---------------------------------------------------------------------------
// Specification
// ---------------------------------------------------------------------------

pub open spec fn s_open() -> Seq<char> {
    seq!['{']
}

pub open spec fn s_close() -> Seq<char> {
    seq!['}']
}

pub open spec fn s_semi() -> Seq<char> {
    seq![';']
}

pub open spec fn s_comma() -> Seq<char> {
    seq![',']
}

/// `n` tab characters.
pub open spec fn indent_seq(n: nat) -> Seq<char>
    decreases n,
{
    if n == 0 {
        Seq::empty()
    } else {
        indent_seq((n - 1) as nat) + seq!['\t']
    }
}

/// The printer state: finished lines, the open line, and the indent level.
pub struct PpState {
    pub lines: Seq<Seq<char>>,
    pub cur: Seq<char>,
    pub indent: nat,
}

pub open spec fn pp_init() -> PpState {
    PpState { lines: Seq::empty(), cur: Seq::empty(), indent: 0 }
}

/// One token of the printer: `{` opens an indented block, `}` closes one
/// (clamped at zero), `;` and `,` terminate the line, and any other word is
/// joined with a single space.
pub open spec fn pp_step(st: PpState, w: Seq<char>) -> PpState {
    let st1 = if w == s_close() {
        PpState {
            lines: if st.cur.len() > 0 {
                st.lines.push(st.cur)
            } else {
                st.lines
            },
            cur: Seq::empty(),
            indent: if st.indent > 0 {
                (st.indent - 1) as nat
            } else {
                0
            },
        }
    } else {
        st
    };
    let is_first = st1.cur.len() == 0;
    let base = if is_first {
        indent_seq(st1.indent)
    } else {
        st1.cur
    };
    if w == s_open() {
        PpState {
            lines: st1.lines.push(
                if is_first {
                    base + s_open()
                } else {
                    base + seq![' '] + s_open()
                },
            ),
            cur: Seq::empty(),
            indent: st1.indent + 1,
        }
    } else if w == s_close() {
        PpState { lines: st1.lines, cur: base + s_close(), indent: st1.indent }
    } else if w == s_semi() {
        PpState { lines: st1.lines.push(base + s_semi()), cur: Seq::empty(), indent: st1.indent }
    } else if w == s_comma() {
        PpState { lines: st1.lines.push(base + s_comma()), cur: Seq::empty(), indent: st1.indent }
    } else {
        PpState {
            lines: st1.lines,
            cur: if is_first {
                base + w
            } else {
                base + seq![' '] + w
            },
            indent: st1.indent,
        }
    }
}

pub open spec fn pp_fold(ws: Seq<Seq<char>>, st: PpState) -> PpState
    decreases ws.len(),
{
    if ws.len() == 0 {
        st
    } else {
        pp_fold(ws.drop_first(), pp_step(st, ws.first()))
    }
}

/// A trailing non-empty line is flushed at the end of the output.
pub open spec fn pp_finish(st: PpState) -> Seq<Seq<char>> {
    if st.cur.len() > 0 {
        st.lines.push(st.cur)
    } else {
        st.lines
    }
}

/// The words of a token sequence.
pub open spec fn tok_words(ts: Seq<TokenM>) -> Seq<Seq<char>> {
    ts.map_values(|t: TokenM| t.word())
}

/// The pretty-printed lines of a token sequence.
pub open spec fn pp_result(ts: Seq<TokenM>) -> Seq<Seq<char>> {
    pp_finish(pp_fold(tok_words(ts), pp_init()))
}

// ---------------------------------------------------------------------------
// Implementation
// ---------------------------------------------------------------------------

/// Appends `indent` tabs to a line.
#[verifier::loop_isolation(false)]
fn push_indent(line: &mut String, indent: usize)
    ensures
        final(line)@ == old(line)@ + indent_seq(indent as nat),
{
    proof {
        reveal_strlit("\t");
    }
    let mut k: usize = 0;
    assert(line@ =~= old(line)@ + indent_seq(0));
    while k < indent
        invariant
            k <= indent,
            line@ == old(line)@ + indent_seq(k as nat),
        decreases indent - k,
    {
        line.append("\t");
        proof {
            assert(line@ =~= old(line)@ + indent_seq((k + 1) as nat));
        }
        k = k + 1;
    }
}

/// Processes tokens describing a type and produces its pretty-formatted
/// version as a `Vec` of `String` lines ([`pp_result`]).
#[verifier::loop_isolation(false)]
pub fn pretty_format_type(tokens: &Vec<Token>) -> (res: Vec<String>)
    ensures
        str_views(res@) == pp_result(toks_view(tokens@)),
{
    proof {
        reveal_strlit("{");
        reveal_strlit("}");
        reveal_strlit(";");
        reveal_strlit(",");
        reveal_strlit(" ");
        assert("{"@ =~= s_open());
        assert("}"@ =~= s_close());
        assert(";"@ =~= s_semi());
        assert(","@ =~= s_comma());
        assert(" "@ =~= seq![' ']);
    }
    let ghost words = tok_words(toks_view(tokens@));
    let n = tokens.len();
    let mut res: Vec<String> = Vec::new();
    let mut line = String::new();
    let mut indent: usize = 0;
    let mut i: usize = 0;
    proof {
        assert(words.len() == n);
        assert(words.skip(0) == words);
        assert(str_views(res@) =~= Seq::<Seq<char>>::empty());
    }
    while i < n
        invariant
            i <= n,
            indent <= i,
            pp_fold(words.skip(i as int), PpState { lines: str_views(res@), cur: line@, indent: indent as nat })
                == pp_fold(words, pp_init()),
        decreases n - i,
    {
        let ghost st0 = PpState { lines: str_views(res@), cur: line@, indent: indent as nat };
        let ghost w = words[i as int];
        proof {
            assert(w == toks_view(tokens@)[i as int].word());
            assert(words.skip(i as int).first() == w);
            assert(words.skip(i as int).drop_first() == words.skip(i + 1)) by {
                words.lemma_seq_skip_skip(i as int);
            }
        }
        let tk = tokens[i].as_str();
        proof {
            assert(toks_view(tokens@)[i as int] == tokens@[i as int]@);
            assert(tk@ == w);
        }
        let is_close = crate::text::str_eq_str(tk, "}");
        proof {
            assert(is_close == (w == s_close()));
        }
        if is_close {
            if line.as_str().unicode_len() > 0 {
                res.push(line);
            }
            line = String::new();
            if indent > 0 {
                indent = indent - 1;
            }
        }
        let ghost st1 = PpState { lines: str_views(res@), cur: line@, indent: indent as nat };
        proof {
            if w == s_close() {
                if st0.cur.len() > 0 {
                    assert(str_views(res@) =~~= st0.lines.push(st0.cur));
                }
                assert(st1 == (PpState {
                    lines: if st0.cur.len() > 0 {
                        st0.lines.push(st0.cur)
                    } else {
                        st0.lines
                    },
                    cur: Seq::<char>::empty(),
                    indent: if st0.indent > 0 {
                        (st0.indent - 1) as nat
                    } else {
                        0
                    },
                }));
            } else {
                assert(st1 == st0);
            }
        }
        let is_first = line.as_str().is_empty();
        if is_first {
            push_indent(&mut line, indent);
        }
        let ghost base = line@;
        proof {
            if is_first {
                assert(base == indent_seq(st1.indent));
            } else {
                assert(base == st1.cur);
            }
        }
        if crate::text::str_eq_str(tk, "{") {
            if !is_first {
                line.append(" ");
                proof {
                    assert(line@ =~= base + seq![' ']);
                }
            }
            line.append("{");
            let ghost before = str_views(res@);
            res.push(line);
            proof {
                assert(str_views(res@) =~= before.push(
                    if is_first {
                        base + s_open()
                    } else {
                        base + seq![' '] + s_open()
                    },
                ));
            }
            line = String::new();
            indent = indent + 1;
        } else if is_close {
            line.append("}");
            proof {
                assert(line@ =~= base + s_close());
            }
        } else if crate::text::str_eq_str(tk, ";") {
            line.append(";");
            let ghost before = str_views(res@);
            res.push(line);
            proof {
                assert(str_views(res@) =~= before.push(base + s_semi()));
            }
            line = String::new();
        } else if crate::text::str_eq_str(tk, ",") {
            line.append(",");
            let ghost before = str_views(res@);
            res.push(line);
            proof {
                assert(str_views(res@) =~= before.push(base + s_comma()));
            }
            line = String::new();
        } else {
            if !is_first {
                line.append(" ");
                proof {
                    assert(line@ =~= base + seq![' ']);
                }
            }
            line.append(tokens[i].as_str());
            proof {
                if is_first {
                    assert(line@ =~= base + w);
                } else {
                    assert(line@ =~= base + seq![' '] + w);
                }
            }
        }
        proof {
            let stn = PpState { lines: str_views(res@), cur: line@, indent: indent as nat };
            assert(stn == pp_step(st0, w));
        }
        i = i + 1;
    }
    if line.as_str().unicode_len() > 0 {
        let ghost before = str_views(res@);
        let ghost lv = line@;
        res.push(line);
        proof {
            assert(str_views(res@) =~= before.push(lv));
            assert(words.skip(n as int) =~= Seq::<Seq<char>>::empty());
        }
    } else {
        proof {
            assert(words.skip(n as int) =~= Seq::<Seq<char>>::empty());
        }
    }
    res
}

// ---------------------------------------------------------------------------
// The indentation law
// ---------------------------------------------------------------------------

/// How many elements of `ws` equal `w`.
pub open spec fn count_eq(ws: Seq<Seq<char>>, w: Seq<char>) -> int
    decreases ws.len(),
{
    if ws.len() == 0 {
        0
    } else {
        (if ws.first() == w {
            1int
        } else {
            0int
        }) + count_eq(ws.drop_first(), w)
    }
}

/// A word sequence is bracket-balanced when no prefix closes more blocks
/// than it opened, and the whole opens as many as it closes.
pub open spec fn balanced_words(ws: Seq<Seq<char>>) -> bool {
    &&& forall|k: int|
        0 <= k <= ws.len() ==> count_eq(#[trigger] ws.take(k), s_close()) <= count_eq(
            ws.take(k),
            s_open(),
        )
    &&& count_eq(ws, s_close()) == count_eq(ws, s_open())
}

proof fn lemma_count_take_unfold(ws: Seq<Seq<char>>, w: Seq<char>, k: int)
    requires
        0 <= k < ws.len(),
    ensures
        count_eq(ws.take(k + 1), w) == (if ws.first() == w {
            1int
        } else {
            0int
        }) + count_eq(ws.drop_first().take(k), w),
{
    assert(ws.take(k + 1).len() == k + 1);
    assert(ws.take(k + 1).first() == ws.first());
    assert(ws.take(k + 1).drop_first() =~= ws.drop_first().take(k));
}

/// As long as no prefix over-closes, the printer's indent tracks the excess
/// of opened over closed blocks exactly.
proof fn lemma_pp_fold_indent(ws: Seq<Seq<char>>, st: PpState)
    requires
        forall|k: int|
            0 <= k <= ws.len() ==> count_eq(#[trigger] ws.take(k), s_close()) <= st.indent
                + count_eq(ws.take(k), s_open()),
    ensures
        pp_fold(ws, st).indent == st.indent + count_eq(ws, s_open()) - count_eq(ws, s_close()),
    decreases ws.len(),
{
    if ws.len() == 0 {
    } else {
        let w = ws.first();
        let st2 = pp_step(st, w);
        assert(ws.take(1).first() == w);
        assert(ws.take(1).drop_first() =~= Seq::<Seq<char>>::empty());
        assert(count_eq(Seq::<Seq<char>>::empty(), s_close()) == 0);
        assert(count_eq(Seq::<Seq<char>>::empty(), s_open()) == 0);
        if w == s_close() {
            assert(count_eq(ws.take(1), s_close()) == 1);
            assert(count_eq(ws.take(1), s_open()) == 0) by {
                assert(s_open() != s_close()) by {
                    assert(s_open()[0] == '{' && s_close()[0] == '}');
                }
            }
            assert(st.indent >= 1);
            assert(st2.indent == st.indent - 1);
        } else if w == s_open() {
            assert(st2.indent == st.indent + 1);
        } else {
            assert(st2.indent == st.indent);
        }
        assert forall|k: int| 0 <= k <= ws.drop_first().len() implies count_eq(
            #[trigger] ws.drop_first().take(k),
            s_close(),
        ) <= st2.indent + count_eq(ws.drop_first().take(k), s_open()) by {
            lemma_count_take_unfold(ws, s_close(), k);
            lemma_count_take_unfold(ws, s_open(), k);
            assert(count_eq(ws.take(k + 1), s_close()) <= st.indent + count_eq(
                ws.take(k + 1),
                s_open(),
            ));
        }
        lemma_pp_fold_indent(ws.drop_first(), st2);
        assert(count_eq(ws, s_open()) == (if w == s_open() {
            1int
        } else {
            0int
        }) + count_eq(ws.drop_first(), s_open()));
    }
}

/// The pretty-printer's indentation discipline: the indent level is clamped
/// at zero (it is a natural number by construction, so it can never go
/// negative), and on a balanced bracket sequence it returns to zero at
/// end-of-output.
pub proof fn lemma_pretty_balanced_indent_zero(ts: Seq<TokenM>)
    requires
        balanced_words(tok_words(ts)),
    ensures
        pp_fold(tok_words(ts), pp_init()).indent == 0,
{
    lemma_pp_fold_indent(tok_words(ts), pp_init());
}

} // verus!

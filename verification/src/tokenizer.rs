//! Splitting a raw line into tokens.
//!
//! A two-state scanner walks the line once. Whitespace ends an unquoted
//! word; a quote character opening a word starts a quoted word that only the
//! same quote character ends, with the quotes themselves left out of the
//! token; a line that ends mid-word still yields the word read so far.

use crate::error::Span;
use crate::is_space_char;
use vstd::prelude::*;

verus! {

/// One token of the input line: its text and the character span it was read
/// from.
#[verifier::ext_equal]
pub struct TokenV {
    pub text: Seq<char>,
    pub span: Span,
}

/// The scanner's state: between words, or inside a word begun at `start`
/// (with the quote character that must end it, if the word was quoted).
pub enum ScanS {
    End,
    Word { start: int, quote: Option<char> },
}

/// The token covering `line[start..end]`.
pub open spec fn tok(line: Seq<char>, start: int, end: int) -> TokenV {
    TokenV {
        text: line.subrange(start, end),
        span: Span { begin: start as usize, end: end as usize },
    }
}

/// The tokens that the scanner, standing at position `i` in state `st`,
/// reads from the rest of the line.
pub open spec fn scan(line: Seq<char>, i: int, st: ScanS) -> Seq<TokenV>
    decreases line.len() - i,
{
    if i < 0 || i >= line.len() {
        match st {
            ScanS::End => Seq::empty(),
            ScanS::Word { start, quote } => seq![tok(line, start, line.len() as int)],
        }
    } else {
        let c = line[i];
        if !is_space_char(c) {
            match st {
                ScanS::End => {
                    let q = c == '\'' || c == '"';
                    scan(
                        line,
                        i + 1,
                        ScanS::Word {
                            start: if q {
                                i + 1
                            } else {
                                i
                            },
                            quote: if q {
                                Some(c)
                            } else {
                                None
                            },
                        },
                    )
                },
                ScanS::Word { start, quote } => {
                    if quote == Some(c) {
                        seq![tok(line, start, i)] + scan(line, i + 1, ScanS::End)
                    } else {
                        scan(line, i + 1, st)
                    }
                },
            }
        } else {
            match st {
                ScanS::End => scan(line, i + 1, ScanS::End),
                ScanS::Word { start, quote } => {
                    if quote is None {
                        seq![tok(line, start, i)] + scan(line, i + 1, ScanS::End)
                    } else {
                        scan(line, i + 1, st)
                    }
                },
            }
        }
    }
}

/// The tokens of a whole line.
pub open spec fn spec_split(line: Seq<char>) -> Seq<TokenV> {
    scan(line, 0, ScanS::End)
}

/// The mathematical value of a produced token list.
pub open spec fn tokens_view(v: Seq<(String, Span)>) -> Seq<TokenV> {
    Seq::new(v.len(), |i: int| TokenV { text: v[i].0@, span: v[i].1 })
}

/// The scanner's exec state; [`state_view`] maps it onto [`ScanS`].
enum LineState {
    End,
    Word { start: usize, quote: Option<char> },
}

spec fn state_view(st: LineState) -> ScanS {
    match st {
        LineState::End => ScanS::End,
        LineState::Word { start, quote } => ScanS::Word { start: start as int, quote },
    }
}

/// Splits `line` into tokens, each paired with the character span it was
/// read from.
#[verifier::loop_isolation(false)]
#[verifier::rlimit(50)]
pub fn split_line(line: &str) -> (r: Vec<(String, Span)>)
    ensures
        tokens_view(r@) == spec_split(line@),
{
    let n = line.unicode_len();
    let mut r: Vec<(String, Span)> = Vec::new();
    let mut state = LineState::End;
    let mut i: usize = 0;
    while i < n
        invariant
            i <= n,
            state matches LineState::Word { start, quote } ==> start <= i,
            tokens_view(r@) + scan(line@, i as int, state_view(state)) == spec_split(line@),
        decreases n - i,
    {
        let c = line.get_char(i);
        let ghost pre_tokens = tokens_view(r@);
        let ghost pre_state = state_view(state);
        if !crate::is_space(c) {
            match state {
                LineState::End => {
                    let q = c == '\'' || c == '"';
                    state = LineState::Word {
                        start: if q {
                            i + 1
                        } else {
                            i
                        },
                        quote: if q {
                            Some(c)
                        } else {
                            None
                        },
                    };
                    proof {
                        assert(scan(line@, i as int, pre_state) == scan(
                            line@,
                            i + 1,
                            state_view(state),
                        ));
                    }
                },
                LineState::Word { start, quote } => {
                    if quote == Some(c) {
                        let text = line.substring_char(start, i).to_owned();
                        r.push((text, Span { begin: start, end: i }));
                        state = LineState::End;
                        proof {
                            assert(tokens_view(r@) =~= pre_tokens + seq![
                                tok(line@, start as int, i as int),
                            ]);
                            assert(scan(line@, i as int, pre_state) == seq![
                                tok(line@, start as int, i as int),
                            ] + scan(line@, i + 1, ScanS::End));
                            assert(tokens_view(r@) + scan(line@, i + 1, state_view(state))
                                =~= spec_split(line@));
                        }
                    } else {
                        proof {
                            assert(scan(line@, i as int, pre_state) == scan(
                                line@,
                                i + 1,
                                pre_state,
                            ));
                        }
                    }
                },
            }
        } else {
            match state {
                LineState::End => {
                    proof {
                        assert(scan(line@, i as int, pre_state) == scan(line@, i + 1, pre_state));
                    }
                },
                LineState::Word { start, quote } => {
                    if quote.is_none() {
                        let text = line.substring_char(start, i).to_owned();
                        r.push((text, Span { begin: start, end: i }));
                        state = LineState::End;
                        proof {
                            assert(tokens_view(r@) =~= pre_tokens + seq![
                                tok(line@, start as int, i as int),
                            ]);
                            assert(scan(line@, i as int, pre_state) == seq![
                                tok(line@, start as int, i as int),
                            ] + scan(line@, i + 1, ScanS::End));
                            assert(tokens_view(r@) + scan(line@, i + 1, state_view(state))
                                =~= spec_split(line@));
                        }
                    } else {
                        proof {
                            assert(scan(line@, i as int, pre_state) == scan(
                                line@,
                                i + 1,
                                pre_state,
                            ));
                        }
                    }
                },
            }
        }
        i = i + 1;
    }
    match state {
        LineState::End => {
            proof {
                assert(scan(line@, n as int, ScanS::End) == Seq::<TokenV>::empty());
                assert(tokens_view(r@) =~= tokens_view(r@) + Seq::<TokenV>::empty());
            }
        },
        LineState::Word { start, quote } => {
            let text = line.substring_char(start, n).to_owned();
            r.push((text, Span { begin: start, end: n }));
            proof {
                assert(tokens_view(r@) =~= tokens_view(r@.drop_last()) + seq![
                    tok(line@, start as int, n as int),
                ]);
            }
        },
    }
    r
}

/// A plain, unquoted word: nonempty, free of whitespace, and not opening
/// with a quote character.
pub open spec fn plain_word(w: Seq<char>) -> bool {
    &&& w.len() > 0
    &&& forall|i: int| 0 <= i < w.len() ==> !is_space_char(#[trigger] w[i])
    &&& w[0] != '\''
    &&& w[0] != '"'
}

/// The words joined into one line with single spaces between them.
pub open spec fn join_words(ws: Seq<Seq<char>>) -> Seq<char>
    decreases ws.len(),
{
    if ws.len() == 0 {
        Seq::empty()
    } else if ws.len() == 1 {
        ws[0]
    } else {
        ws[0] + seq![' '] + join_words(ws.drop_first())
    }
}

/// The texts of a token list, in order.
pub open spec fn token_texts(ts: Seq<TokenV>) -> Seq<Seq<char>> {
    Seq::new(ts.len(), |i: int| ts[i].text)
}

/// Inside an unquoted word, the scanner runs to the word's end `j` (the
/// next whitespace character, or the end of the line) and emits the word.
proof fn lemma_scan_plain_word(line: Seq<char>, start: int, i: int, j: int)
    requires
        0 <= start <= i <= j <= line.len(),
        forall|k: int| i <= k < j ==> !is_space_char(#[trigger] line[k]),
        j == line.len() || is_space_char(line[j]),
    ensures
        scan(line, i, ScanS::Word { start, quote: None }) == if j == line.len() {
            seq![tok(line, start, line.len() as int)]
        } else {
            seq![tok(line, start, j)] + scan(line, j + 1, ScanS::End)
        },
    decreases j - i,
{
    if i == j {
    } else {
        lemma_scan_plain_word(line, start, i + 1, j);
    }
}

/// `token_texts` distributes over concatenation.
proof fn lemma_token_texts_add(a: Seq<TokenV>, b: Seq<TokenV>)
    ensures
        token_texts(a + b) == token_texts(a) + token_texts(b),
{
    assert(token_texts(a + b) =~= token_texts(a) + token_texts(b));
}

/// From between words, the scanner reads exactly the remaining words.
proof fn lemma_split_words(line: Seq<char>, i: int, ws: Seq<Seq<char>>)
    requires
        0 <= i <= line.len(),
        line.subrange(i, line.len() as int) == join_words(ws),
        forall|k: int| 0 <= k < ws.len() ==> plain_word(#[trigger] ws[k]),
    ensures
        token_texts(scan(line, i, ScanS::End)) == ws,
    decreases ws.len(),
{
    if ws.len() == 0 {
        assert(line.len() - i == 0);
        assert(token_texts(scan(line, i, ScanS::End)) =~= ws);
    } else {
        let w = ws[0];
        let j = i + w.len();
        assert(plain_word(w));
        if ws.len() == 1 {
            assert(join_words(ws) == w);
        } else {
            assert(join_words(ws) == w + seq![' '] + join_words(ws.drop_first()));
        }
        assert(line.len() - i == join_words(ws).len());
        assert(j <= line.len());
        assert forall|k: int| i <= k < j implies !is_space_char(#[trigger] line[k]) by {
            assert(line[k] == line.subrange(i, line.len() as int)[k - i]);
            assert(join_words(ws)[k - i] == w[k - i]);
        }
        assert(line[i] == w[0]) by {
            assert(line[i] == line.subrange(i, line.len() as int)[0]);
            assert(join_words(ws)[0] == w[0]);
        }
        assert(scan(line, i, ScanS::End) == scan(
            line,
            i + 1,
            ScanS::Word { start: i, quote: None },
        ));
        if ws.len() == 1 {
            assert(line.len() == j);
            lemma_scan_plain_word(line, i, i + 1, j);
            assert(tok(line, i, j).text =~= w);
            assert(token_texts(seq![tok(line, i, line.len() as int)]) =~= ws);
        } else {
            assert(join_words(ws) == w + seq![' '] + join_words(ws.drop_first()));
            assert(is_space_char(line[j])) by {
                assert(line[j] == line.subrange(i, line.len() as int)[j - i]);
                assert(join_words(ws)[w.len() as int] == ' ');
                reveal_strlit(" ");
                assert(is_space_char(' '));
            }
            lemma_scan_plain_word(line, i, i + 1, j);
            assert(line.subrange(j + 1, line.len() as int) =~= join_words(ws.drop_first())) by {
                assert forall|k: int| 0 <= k < line.len() - j - 1 implies line.subrange(
                    j + 1,
                    line.len() as int,
                )[k] == join_words(ws.drop_first())[k] by {
                    assert(line[j + 1 + k] == line.subrange(i, line.len() as int)[
                        j + 1 + k - i
                    ]);
                    assert(join_words(ws)[w.len() + 1 + k] == join_words(ws.drop_first())[k]);
                }
            }
            lemma_split_words(line, j + 1, ws.drop_first());
            lemma_token_texts_add(
                seq![tok(line, i, j)],
                scan(line, j + 1, ScanS::End),
            );
            assert(tok(line, i, j).text =~= w);
            assert(token_texts(seq![tok(line, i, j)]) =~= seq![w]);
            assert(seq![w] + ws.drop_first() =~= ws);
        }
    }
}

/// Round trip for plain lines: a line made of space-separated unquoted
/// words splits into exactly those words, in order.
pub proof fn lemma_tokenizer_round_trip(ws: Seq<Seq<char>>)
    requires
        forall|k: int| 0 <= k < ws.len() ==> plain_word(#[trigger] ws[k]),
    ensures
        token_texts(spec_split(join_words(ws))) == ws,
{
    let line = join_words(ws);
    assert(line.subrange(0, line.len() as int) =~= line);
    lemma_split_words(line, 0, ws);
}

/// Whitespace only, possibly empty.
pub open spec fn space_run(s: Seq<char>) -> bool {
    forall|i: int| 0 <= i < s.len() ==> is_space_char(#[trigger] s[i])
}

/// The words joined into one line: `seps[k]` is the whitespace standing
/// before `ws[k]`, and `seps[ws.len()]` the whitespace after the last word.
pub open spec fn join_words_spaced(ws: Seq<Seq<char>>, seps: Seq<Seq<char>>) -> Seq<char>
    decreases ws.len(),
{
    if ws.len() == 0 {
        seps[0]
    } else {
        seps[0] + ws[0] + join_words_spaced(ws.drop_first(), seps.drop_first())
    }
}

/// A well-formed spacing for `ws`: one separator around each word, all of
/// them whitespace, and the ones standing between two words nonempty.
pub open spec fn spaced_ok(ws: Seq<Seq<char>>, seps: Seq<Seq<char>>) -> bool {
    &&& seps.len() == ws.len() + 1
    &&& forall|k: int| 0 <= k < seps.len() ==> space_run(#[trigger] seps[k])
    &&& forall|k: int| 1 <= k < ws.len() ==> (#[trigger] seps[k]).len() > 0
    &&& forall|k: int| 0 <= k < ws.len() ==> plain_word(#[trigger] ws[k])
}

/// Between words, the scanner passes over whitespace without emitting.
proof fn lemma_scan_spaces(line: Seq<char>, i: int, j: int)
    requires
        0 <= i <= j <= line.len(),
        forall|k: int| i <= k < j ==> is_space_char(#[trigger] line[k]),
    ensures
        scan(line, i, ScanS::End) == scan(line, j, ScanS::End),
    decreases j - i,
{
    if i < j {
        lemma_scan_spaces(line, i + 1, j);
    }
}

/// From between words, the scanner reads exactly the remaining words,
/// whatever whitespace stands around them.
#[verifier::rlimit(50)]
proof fn lemma_split_words_spaced(line: Seq<char>, i: int, ws: Seq<Seq<char>>, seps: Seq<
    Seq<char>,
>)
    requires
        0 <= i <= line.len(),
        line.subrange(i, line.len() as int) == join_words_spaced(ws, seps),
        spaced_ok(ws, seps),
    ensures
        token_texts(scan(line, i, ScanS::End)) == ws,
    decreases ws.len(),
{
    if ws.len() == 0 {
        assert(line.len() - i == seps[0].len());
        assert forall|k: int| i <= k < line.len() implies is_space_char(#[trigger] line[k]) by {
            assert(line[k] == line.subrange(i, line.len() as int)[k - i]);
        }
        lemma_scan_spaces(line, i, line.len() as int);
        assert(token_texts(scan(line, line.len() as int, ScanS::End)) =~= ws);
    } else {
        let s0 = seps[0];
        let w = ws[0];
        let rest = join_words_spaced(ws.drop_first(), seps.drop_first());
        assert(join_words_spaced(ws, seps) == s0 + w + rest);
        let j0 = i + s0.len();
        let j1 = j0 + w.len();
        assert(line.len() - i == s0.len() + w.len() + rest.len());
        assert forall|k: int| i <= k < j0 implies is_space_char(#[trigger] line[k]) by {
            assert(line[k] == line.subrange(i, line.len() as int)[k - i]);
            assert((s0 + w + rest)[k - i] == s0[k - i]);
        }
        lemma_scan_spaces(line, i, j0);
        assert forall|k: int| j0 <= k < j1 implies !is_space_char(#[trigger] line[k]) by {
            assert(line[k] == line.subrange(i, line.len() as int)[k - i]);
            assert((s0 + w + rest)[k - i] == w[k - i - s0.len()]);
        }
        assert(line[j0] == w[0]) by {
            assert(line[j0] == line.subrange(i, line.len() as int)[j0 - i]);
            assert((s0 + w + rest)[s0.len() as int] == w[0]);
        }
        assert(scan(line, j0, ScanS::End) == scan(
            line,
            j0 + 1,
            ScanS::Word { start: j0, quote: None },
        ));
        assert forall|k: int| 0 <= k < w.len() implies line[j0 + k] == w[k] by {
            assert(line[j0 + k] == line.subrange(i, line.len() as int)[j0 + k - i]);
            assert((s0 + w + rest)[j0 + k - i] == w[k]);
        }
        // What follows the word: nothing, or whitespace opening the next
        // separator.
        let tail = seps.drop_first();
        if ws.len() == 1 {
            assert(rest == tail[0]);
            assert(tail[0] == seps[1]);
        } else {
            assert(rest == tail[0] + ws.drop_first()[0] + join_words_spaced(
                ws.drop_first().drop_first(),
                tail.drop_first(),
            ));
            assert(tail[0] == seps[1]);
            assert(seps[1].len() > 0);
        }
        if rest.len() == 0 {
            assert(j1 == line.len());
            lemma_scan_plain_word(line, j0, j0 + 1, j1);
            assert(line.subrange(j0, line.len() as int) =~= w);
            assert(token_texts(seq![tok(line, j0, line.len() as int)]) =~= ws);
        } else {
            assert(seps[1].len() > 0) by {
                if ws.len() == 1 {
                    assert(rest == seps[1]);
                }
            }
            assert(is_space_char(line[j1])) by {
                assert(line[j1] == line.subrange(i, line.len() as int)[j1 - i]);
                assert((s0 + w + rest)[j1 - i] == rest[0]);
                assert(rest[0] == seps[1][0]);
                assert(space_run(seps[1]));
            }
            lemma_scan_plain_word(line, j0, j0 + 1, j1);
            let seps2 = tail.update(0, seps[1].drop_first());
            assert(line.subrange(j1 + 1, line.len() as int) =~= join_words_spaced(
                ws.drop_first(),
                seps2,
            )) by {
                assert(seps2.drop_first() =~= tail.drop_first());
                if ws.drop_first().len() == 0 {
                    assert(join_words_spaced(ws.drop_first(), seps2) == seps2[0]);
                    assert(seps2[0] =~= seps[1].drop_first());
                } else {
                    assert(join_words_spaced(ws.drop_first(), seps2) == seps2[0]
                        + ws.drop_first()[0] + join_words_spaced(
                        ws.drop_first().drop_first(),
                        seps2.drop_first(),
                    ));
                    assert(join_words_spaced(
                        ws.drop_first().drop_first(),
                        seps2.drop_first(),
                    ) == join_words_spaced(ws.drop_first().drop_first(), tail.drop_first()));
                }
                assert forall|k: int| 0 <= k < line.len() - j1 - 1 implies line.subrange(
                    j1 + 1,
                    line.len() as int,
                )[k] == join_words_spaced(ws.drop_first(), seps2)[k] by {
                    assert(line[j1 + 1 + k] == line.subrange(i, line.len() as int)[
                        j1 + 1 + k - i
                    ]);
                    assert((s0 + w + rest)[j1 + 1 + k - i] == rest[1 + k]);
                    assert(rest.drop_first() =~= join_words_spaced(ws.drop_first(), seps2));
                    assert(rest[1 + k] == rest.drop_first()[k]);
                }
            }
            assert(spaced_ok(ws.drop_first(), seps2)) by {
                assert(space_run(seps2[0]));
                assert forall|k: int| 0 <= k < seps2.len() implies space_run(
                    #[trigger] seps2[k],
                ) by {
                    if k > 0 {
                        assert(seps2[k] == seps[k + 1]);
                    }
                }
                assert forall|k: int| 1 <= k < ws.drop_first().len() implies (
                #[trigger] seps2[k]).len() > 0 by {
                    assert(seps2[k] == seps[k + 1]);
                }
            }
            lemma_split_words_spaced(line, j1 + 1, ws.drop_first(), seps2);
            lemma_token_texts_add(seq![tok(line, j0, j1)], scan(line, j1 + 1, ScanS::End));
            assert(tok(line, j0, j1).text =~= w);
            assert(token_texts(seq![tok(line, j0, j1)]) =~= seq![w]);
            assert(seq![w] + ws.drop_first() =~= ws);
        }
    }
}

/// Round trip for plain lines in general: a line made of unquoted words
/// separated by whitespace runs, with any whitespace before and after,
/// splits into exactly those words, in order.
pub proof fn lemma_tokenizer_round_trip_spaced(ws: Seq<Seq<char>>, seps: Seq<Seq<char>>)
    requires
        spaced_ok(ws, seps),
    ensures
        token_texts(spec_split(join_words_spaced(ws, seps))) == ws,
{
    let line = join_words_spaced(ws, seps);
    assert(line.subrange(0, line.len() as int) =~= line);
    lemma_split_words_spaced(line, 0, ws, seps);
}

} // verus!

//! The character-level tokeniser.
//!
//! A token is a maximal run of numeric codepoints or a maximal run of
//! alphabetic codepoints; whitespace and other non-alphanumeric codepoints
//! separate tokens and are discarded.

use vstd::prelude::*;
use crate::chars::char_is_whitespace;
use crate::chars::char_is_alphabetic;
use crate::chars::char_is_numeric;
use crate::chars::char_is_alphanumeric;
use crate::chars::is_whitespace;
use crate::chars::is_alphabetic;
use crate::chars::is_numeric;
use crate::chars::is_alphanumeric;

verus! {

/// Length of the maximal leading whitespace run, which
/// `Lexer::trim_whitespace` discards.
pub open spec fn ws_run(s: Seq<char>) -> nat
    decreases s.len(),
{
    if s.len() > 0 && char_is_whitespace(s[0]) {
        (1 + ws_run(s.drop_first())) as nat
    } else {
        0
    }
}

/// Length of the maximal leading non-alphanumeric run, which
/// `Lexer::trim_non_alphanumeric` discards.
pub open spec fn sep_run(s: Seq<char>) -> nat
    decreases s.len(),
{
    if s.len() > 0 && !char_is_alphanumeric(s[0]) {
        (1 + sep_run(s.drop_first())) as nat
    } else {
        0
    }
}

/// Length of the maximal leading numeric run.
pub open spec fn num_run(s: Seq<char>) -> nat
    decreases s.len(),
{
    if s.len() > 0 && char_is_numeric(s[0]) {
        (1 + num_run(s.drop_first())) as nat
    } else {
        0
    }
}

/// Length of the maximal leading alphabetic run.
pub open spec fn alpha_run(s: Seq<char>) -> nat
    decreases s.len(),
{
    if s.len() > 0 && char_is_alphabetic(s[0]) {
        (1 + alpha_run(s.drop_first())) as nat
    } else {
        0
    }
}

pub proof fn lemma_ws_run(s: Seq<char>)
    ensures
        ws_run(s) <= s.len(),
        forall|j: int| 0 <= j < ws_run(s) ==> char_is_whitespace(#[trigger] s[j]),
        ws_run(s) < s.len() ==> !char_is_whitespace(s[ws_run(s) as int]),
    decreases s.len(),
{
    if s.len() > 0 && char_is_whitespace(s[0]) {
        lemma_ws_run(s.drop_first());
        assert forall|j: int| 0 <= j < ws_run(s) implies char_is_whitespace(#[trigger] s[j]) by {
            if j > 0 {
                assert(char_is_whitespace(s.drop_first()[j - 1]));
            }
        }
        if ws_run(s) < s.len() {
            assert(s.drop_first()[ws_run(s) - 1] == s[ws_run(s) as int]);
        }
    }
}

pub proof fn lemma_sep_run(s: Seq<char>)
    ensures
        sep_run(s) <= s.len(),
        forall|j: int| 0 <= j < sep_run(s) ==> !char_is_alphanumeric(#[trigger] s[j]),
        sep_run(s) < s.len() ==> char_is_alphanumeric(s[sep_run(s) as int]),
    decreases s.len(),
{
    if s.len() > 0 && !char_is_alphanumeric(s[0]) {
        lemma_sep_run(s.drop_first());
        assert forall|j: int| 0 <= j < sep_run(s) implies !char_is_alphanumeric(
            #[trigger] s[j],
        ) by {
            if j > 0 {
                assert(!char_is_alphanumeric(s.drop_first()[j - 1]));
            }
        }
        if sep_run(s) < s.len() {
            assert(s.drop_first()[sep_run(s) - 1] == s[sep_run(s) as int]);
        }
    }
}

pub proof fn lemma_num_run(s: Seq<char>)
    ensures
        num_run(s) <= s.len(),
        forall|j: int| 0 <= j < num_run(s) ==> char_is_numeric(#[trigger] s[j]),
        num_run(s) < s.len() ==> !char_is_numeric(s[num_run(s) as int]),
    decreases s.len(),
{
    if s.len() > 0 && char_is_numeric(s[0]) {
        lemma_num_run(s.drop_first());
        assert forall|j: int| 0 <= j < num_run(s) implies char_is_numeric(#[trigger] s[j]) by {
            if j > 0 {
                assert(char_is_numeric(s.drop_first()[j - 1]));
            }
        }
        if num_run(s) < s.len() {
            assert(s.drop_first()[num_run(s) - 1] == s[num_run(s) as int]);
        }
    }
}

pub proof fn lemma_alpha_run(s: Seq<char>)
    ensures
        alpha_run(s) <= s.len(),
        forall|j: int| 0 <= j < alpha_run(s) ==> char_is_alphabetic(#[trigger] s[j]),
        alpha_run(s) < s.len() ==> !char_is_alphabetic(s[alpha_run(s) as int]),
    decreases s.len(),
{
    if s.len() > 0 && char_is_alphabetic(s[0]) {
        lemma_alpha_run(s.drop_first());
        assert forall|j: int| 0 <= j < alpha_run(s) implies char_is_alphabetic(
            #[trigger] s[j],
        ) by {
            if j > 0 {
                assert(char_is_alphabetic(s.drop_first()[j - 1]));
            }
        }
        if alpha_run(s) < s.len() {
            assert(s.drop_first()[alpha_run(s) - 1] == s[alpha_run(s) as int]);
        }
    }
}

/// How many codepoints one `next_token` step discards before its token:
/// first the whitespace run, then the non-alphanumeric run after it.
pub open spec fn discard_len(s: Seq<char>) -> nat {
    ws_run(s) + sep_run(s.skip(ws_run(s) as int))
}

/// The token taken from an already trimmed remainder: the maximal numeric run
/// if the head is numeric, else the maximal alphabetic run if the head is
/// alphabetic, else nothing.
pub open spec fn token_run(s: Seq<char>) -> nat {
    if s.len() == 0 {
        0
    } else if char_is_numeric(s[0]) {
        num_run(s)
    } else if char_is_alphabetic(s[0]) {
        alpha_run(s)
    } else {
        0
    }
}

/// What one `next_token` step consumes in total.
pub open spec fn step_len(s: Seq<char>) -> nat {
    discard_len(s) + token_run(s.skip(discard_len(s) as int))
}

/// The token one `next_token` step emits, if any.
pub open spec fn next_token_of(s: Seq<char>) -> Option<Seq<char>> {
    let t = s.skip(discard_len(s) as int);
    if token_run(t) == 0 {
        None
    } else {
        Some(t.take(token_run(t) as int))
    }
}

/// The remainder after one `next_token` step.
pub open spec fn lex_rest(s: Seq<char>) -> Seq<char> {
    s.skip(step_len(s) as int)
}

pub proof fn lemma_step_len(s: Seq<char>)
    ensures
        discard_len(s) <= s.len(),
        step_len(s) <= s.len(),
        next_token_of(s) is Some ==> step_len(s) > discard_len(s),
        next_token_of(s) is None ==> discard_len(s) == s.len() && step_len(s) == s.len(),
{
    lemma_ws_run(s);
    let t0 = s.skip(ws_run(s) as int);
    lemma_sep_run(t0);
    let t = s.skip(discard_len(s) as int);
    assert(t =~= t0.skip(sep_run(t0) as int));
    lemma_num_run(t);
    lemma_alpha_run(t);
    if t.len() > 0 {
        // after both trims the head is alphanumeric, so a token is emitted
        assert(t[0] == t0[sep_run(t0) as int]);
        assert(char_is_alphanumeric(t[0]));
        assert(token_run(t) >= 1);
    }
}

/// Every token the lexer ever emits from `s`, in order.
pub open spec fn lex_tokens(s: Seq<char>) -> Seq<Seq<char>>
    decreases s.len(),
    via lex_tokens_decreases
{
    match next_token_of(s) {
        None => Seq::empty(),
        Some(tok) => seq![tok] + lex_tokens(lex_rest(s)),
    }
}

#[via_fn]
proof fn lex_tokens_decreases(s: Seq<char>) {
    lemma_step_len(s);
}

/// Every run of codepoints the lexer ever discards from `s`: one run before
/// each token, and the trailing run after the last token.
pub open spec fn lex_discards(s: Seq<char>) -> Seq<Seq<char>>
    decreases s.len(),
    via lex_discards_decreases
{
    match next_token_of(s) {
        None => seq![s],
        Some(tok) => seq![s.take(discard_len(s) as int)] + lex_discards(lex_rest(s)),
    }
}

#[via_fn]
proof fn lex_discards_decreases(s: Seq<char>) {
    lemma_step_len(s);
}

/// Discard runs and tokens, interleaved in the order the lexer met them:
/// `d[0] + t[0] + d[1] + t[1] + ... + d[t.len()]`.
pub open spec fn interleave(d: Seq<Seq<char>>, t: Seq<Seq<char>>) -> Seq<char>
    decreases t.len(),
{
    if t.len() == 0 {
        d.flatten()
    } else if d.len() == 0 {
        t.flatten()
    } else {
        d[0] + t[0] + interleave(d.drop_first(), t.drop_first())
    }
}

/// Lexing partitions the input: concatenating the emitted tokens and the
/// discarded separator runs, in order, reconstructs the input exactly.
pub proof fn lemma_lex_partition(s: Seq<char>)
    ensures
        interleave(lex_discards(s), lex_tokens(s)) == s,
    decreases s.len(),
{
    lemma_step_len(s);
    match next_token_of(s) {
        None => {
            assert(seq![s].drop_first() =~= Seq::<Seq<char>>::empty());
            assert(Seq::<Seq<char>>::empty().flatten() =~= Seq::<char>::empty());
            assert(seq![s].flatten() =~= s);
            assert(interleave(lex_discards(s), lex_tokens(s)) =~= s);
        },
        Some(tok) => {
            lemma_lex_partition(lex_rest(s));
            let d = discard_len(s) as int;
            let k = step_len(s) as int;
            assert(tok =~= s.subrange(d, k));
            assert(lex_discards(s).drop_first() =~= lex_discards(lex_rest(s)));
            assert(lex_tokens(s).drop_first() =~= lex_tokens(lex_rest(s)));
            assert(s.take(d) + s.subrange(d, k) + s.skip(k) =~= s);
            assert(interleave(lex_discards(s), lex_tokens(s)) =~= s);
        },
    }
}

/// No token is empty, and every codepoint of every token is alphanumeric
/// (so no token holds whitespace or punctuation).
pub proof fn lemma_lex_tokens_wf(s: Seq<char>)
    ensures
        forall|i: int| 0 <= i < lex_tokens(s).len() ==> #[trigger] lex_tokens(s)[i].len() > 0,
        forall|i: int, j: int|
            0 <= i < lex_tokens(s).len() && 0 <= j < lex_tokens(s)[i].len()
                ==> char_is_alphanumeric(#[trigger] lex_tokens(s)[i][j]),
    decreases s.len(),
{
    lemma_step_len(s);
    match next_token_of(s) {
        None => {},
        Some(tok) => {
            lemma_lex_tokens_wf(lex_rest(s));
            let t = s.skip(discard_len(s) as int);
            lemma_num_run(t);
            lemma_alpha_run(t);
            assert forall|j: int| 0 <= j < tok.len() implies char_is_alphanumeric(tok[j]) by {
                assert(tok[j] == t[j]);
            }
            assert forall|i: int, j: int|
                0 <= i < lex_tokens(s).len() && 0 <= j < lex_tokens(s)[i].len() implies
                char_is_alphanumeric(#[trigger] lex_tokens(s)[i][j]) by {
                if i > 0 {
                    assert(lex_tokens(s)[i] == lex_tokens(lex_rest(s))[i - 1]);
                } else {
                    assert(lex_tokens(s)[0] == tok);
                }
            }
            assert forall|i: int| 0 <= i < lex_tokens(s).len() implies #[trigger] lex_tokens(
                s,
            )[i].len() > 0 by {
                if i > 0 {
                    assert(lex_tokens(s)[i] == lex_tokens(lex_rest(s))[i - 1]);
                } else {
                    assert(lex_tokens(s)[0] == tok);
                }
            }
        },
    }
}

/// Every discarded codepoint is whitespace or non-alphanumeric: nothing that
/// belongs in a token is ever discarded.
pub proof fn lemma_lex_discards_wf(s: Seq<char>)
    ensures
        forall|i: int, j: int|
            0 <= i < lex_discards(s).len() && 0 <= j < lex_discards(s)[i].len()
                ==> char_is_whitespace(#[trigger] lex_discards(s)[i][j]) || !char_is_alphanumeric(
                lex_discards(s)[i][j],
            ),
    decreases s.len(),
{
    lemma_step_len(s);
    lemma_ws_run(s);
    let t0 = s.skip(ws_run(s) as int);
    lemma_sep_run(t0);
    let run = lex_discards(s)[0];
    assert(run.len() == discard_len(s) || (next_token_of(s) is None && run == s));
    assert forall|j: int| 0 <= j < run.len() implies char_is_whitespace(run[j])
        || !char_is_alphanumeric(run[j]) by {
        // the run is the whitespace trim followed by the separator trim
        assert(run[j] == s[j]);
        if j >= ws_run(s) {
            assert(s[j] == t0[j - ws_run(s)]);
            assert(!char_is_alphanumeric(t0[j - ws_run(s)]));
        }
    }
    match next_token_of(s) {
        None => {},
        Some(tok) => {
            lemma_lex_discards_wf(lex_rest(s));
            assert forall|i: int, j: int|
                0 <= i < lex_discards(s).len() && 0 <= j < lex_discards(s)[i].len() implies
                char_is_whitespace(#[trigger] lex_discards(s)[i][j]) || !char_is_alphanumeric(
                lex_discards(s)[i][j],
            ) by {
                if i > 0 {
                    assert(lex_discards(s)[i] == lex_discards(lex_rest(s))[i - 1]);
                } else {
                    assert(lex_discards(s)[0] == run);
                }
            }
        },
    }
}

/// Pull-based tokeniser over a finite sequence of codepoints.
pub struct Lexer {
    content: Vec<char>,
    pos: usize,
}

impl Lexer {
    pub closed spec fn wf(&self) -> bool {
        self.pos <= self.content@.len()
    }

    /// The codepoints not yet consumed.
    pub closed spec fn remaining(&self) -> Seq<char> {
        self.content@.skip(self.pos as int)
    }

    pub fn new(content: Vec<char>) -> (r: Self)
        ensures
            r.wf(),
            r.remaining() == content@,
    {
        let r = Lexer { content, pos: 0 };
        proof {
            assert(r.remaining() =~= r.content@);
        }
        r
    }

    /// Discards the leading whitespace run.
    pub fn trim_whitespace(&mut self)
        requires
            old(self).wf(),
        ensures
            final(self).wf(),
            final(self).remaining() == old(self).remaining().skip(
                ws_run(old(self).remaining()) as int,
            ),
    {
        let ghost c0 = self.content@;
        let ghost p0 = self.pos as int;
        while self.pos < self.content.len() && is_whitespace(self.content[self.pos])
            invariant
                self.content@ == c0,
                p0 <= self.pos <= c0.len(),
                ws_run(c0.skip(p0)) == (self.pos - p0) + ws_run(c0.skip(self.pos as int)),
            decreases c0.len() - self.pos,
        {
            proof {
                assert(c0.skip(self.pos as int)[0] == c0[self.pos as int]);
                assert(c0.skip(self.pos as int).drop_first() =~= c0.skip(self.pos + 1));
            }
            self.pos = self.pos + 1;
        }
        proof {
            if self.pos < self.content@.len() {
                assert(c0.skip(self.pos as int)[0] == c0[self.pos as int]);
                assert(ws_run(c0.skip(self.pos as int)) == 0);
            } else {
                assert(c0.skip(self.pos as int).len() == 0);
            }
            assert(self.remaining() =~= old(self).remaining().skip(
                ws_run(old(self).remaining()) as int,
            ));
        }
    }

    /// Discards the leading non-alphanumeric run.
    pub fn trim_non_alphanumeric(&mut self)
        requires
            old(self).wf(),
        ensures
            final(self).wf(),
            final(self).remaining() == old(self).remaining().skip(
                sep_run(old(self).remaining()) as int,
            ),
    {
        let ghost c0 = self.content@;
        let ghost p0 = self.pos as int;
        while self.pos < self.content.len() && !is_alphanumeric(self.content[self.pos])
            invariant
                self.content@ == c0,
                p0 <= self.pos <= c0.len(),
                sep_run(c0.skip(p0)) == (self.pos - p0) + sep_run(c0.skip(self.pos as int)),
            decreases c0.len() - self.pos,
        {
            proof {
                assert(c0.skip(self.pos as int)[0] == c0[self.pos as int]);
                assert(c0.skip(self.pos as int).drop_first() =~= c0.skip(self.pos + 1));
            }
            self.pos = self.pos + 1;
        }
        proof {
            if self.pos < self.content@.len() {
                assert(c0.skip(self.pos as int)[0] == c0[self.pos as int]);
                assert(sep_run(c0.skip(self.pos as int)) == 0);
            } else {
                assert(c0.skip(self.pos as int).len() == 0);
            }
            assert(self.remaining() =~= old(self).remaining().skip(
                sep_run(old(self).remaining()) as int,
            ));
        }
    }

    /// Takes the maximal numeric or alphabetic run at the head as a token;
    /// yields nothing when the head is neither (in particular at the end).
    pub fn tokenise(&mut self) -> (r: Option<Vec<char>>)
        requires
            old(self).wf(),
        ensures
            final(self).wf(),
            final(self).remaining() == old(self).remaining().skip(
                token_run(old(self).remaining()) as int,
            ),
            match r {
                None => token_run(old(self).remaining()) == 0,
                Some(t) => token_run(old(self).remaining()) > 0 && t@ == old(
                    self,
                ).remaining().take(token_run(old(self).remaining()) as int),
            },
    {
        let ghost rem = self.remaining();
        if self.pos == self.content.len() {
            proof {
                assert(rem.len() == 0);
                assert(self.remaining() =~= rem.skip(0));
            }
            return None;
        }
        let ghost c0 = self.content@;
        let ghost p0 = self.pos as int;
        proof {
            assert(rem[0] == c0[p0]);
        }
        let head = self.content[self.pos];
        if is_numeric(head) {
            let mut i: usize = self.pos;
            while i < self.content.len() && is_numeric(self.content[i])
                invariant
                    self.content@ == c0,
                    self.pos == p0,
                    p0 <= i <= c0.len(),
                    num_run(c0.skip(p0)) == (i - p0) + num_run(c0.skip(i as int)),
                decreases c0.len() - i,
            {
                proof {
                    assert(c0.skip(i as int)[0] == c0[i as int]);
                    assert(c0.skip(i as int).drop_first() =~= c0.skip(i + 1));
                }
                i = i + 1;
            }
            proof {
                if i < self.content@.len() {
                    assert(c0.skip(i as int)[0] == c0[i as int]);
                    assert(num_run(c0.skip(i as int)) == 0);
                } else {
                    assert(c0.skip(i as int).len() == 0);
                }
                assert(num_run(rem) == i - p0);
            }
            let token = self.copy_range(self.pos, i);
            self.pos = i;
            proof {
                assert(token@ =~= rem.take(token_run(rem) as int));
                assert(self.remaining() =~= rem.skip(token_run(rem) as int));
            }
            return Some(token);
        }
        if is_alphabetic(head) {
            let mut i: usize = self.pos;
            while i < self.content.len() && is_alphabetic(self.content[i])
                invariant
                    self.content@ == c0,
                    self.pos == p0,
                    p0 <= i <= c0.len(),
                    alpha_run(c0.skip(p0)) == (i - p0) + alpha_run(c0.skip(i as int)),
                decreases c0.len() - i,
            {
                proof {
                    assert(c0.skip(i as int)[0] == c0[i as int]);
                    assert(c0.skip(i as int).drop_first() =~= c0.skip(i + 1));
                }
                i = i + 1;
            }
            proof {
                if i < self.content@.len() {
                    assert(c0.skip(i as int)[0] == c0[i as int]);
                    assert(alpha_run(c0.skip(i as int)) == 0);
                } else {
                    assert(c0.skip(i as int).len() == 0);
                }
                assert(alpha_run(rem) == i - p0);
            }
            let token = self.copy_range(self.pos, i);
            self.pos = i;
            proof {
                assert(token@ =~= rem.take(token_run(rem) as int));
                assert(self.remaining() =~= rem.skip(token_run(rem) as int));
            }
            return Some(token);
        }
        proof {
            assert(token_run(rem) == 0);
            assert(self.remaining() =~= rem.skip(0));
        }
        None
    }

    /// Copies `self.content[from..to]` into an owned token.
    fn copy_range(&self, from: usize, to: usize) -> (r: Vec<char>)
        requires
            from <= to <= self.content@.len(),
        ensures
            r@ == self.content@.subrange(from as int, to as int),
    {
        let mut r: Vec<char> = Vec::new();
        proof {
            assert(r@ =~= self.content@.subrange(from as int, from as int));
        }
        let mut j: usize = from;
        while j < to
            invariant
                from <= j <= to <= self.content@.len(),
                r@ == self.content@.subrange(from as int, j as int),
            decreases to - j,
        {
            r.push(self.content[j]);
            proof {
                assert(r@ =~= self.content@.subrange(from as int, j + 1));
            }
            j = j + 1;
        }
        r
    }

    /// One pull step: trims whitespace, trims separators, then takes a token.
    /// Yields `None` exactly when only separators remain, and then forever.
    pub fn next_token(&mut self) -> (r: Option<Vec<char>>)
        requires
            old(self).wf(),
        ensures
            final(self).wf(),
            final(self).remaining() == lex_rest(old(self).remaining()),
            match r {
                None => next_token_of(old(self).remaining()) is None,
                Some(t) => next_token_of(old(self).remaining()) == Some(t@),
            },
    {
        let ghost s = self.remaining();
        proof {
            lemma_step_len(s);
            lemma_ws_run(s);
            lemma_sep_run(s.skip(ws_run(s) as int));
        }
        self.trim_whitespace();
        self.trim_non_alphanumeric();
        proof {
            assert(self.remaining() =~= s.skip(discard_len(s) as int));
        }
        let r = self.tokenise();
        proof {
            assert(self.remaining() =~= s.skip(step_len(s) as int));
        }
        r
    }
}

/// One when a token is still in hand, zero once the lexer has signalled the
/// end: the tail of the measure for the collecting loop.
spec fn in_hand(fetched: Option<Vec<char>>) -> nat {
    match fetched {
        Some(_) => 1,
        None => 0,
    }
}

/// The views of a sequence of owned tokens.
pub open spec fn token_views(ts: Seq<Vec<char>>) -> Seq<Seq<char>> {
    ts.map_values(|t: Vec<char>| t@)
}

/// Runs a fresh `Lexer` over `text` to exhaustion and collects every token.
pub fn tokenize(text: Vec<char>) -> (toks: Vec<Vec<char>>)
    ensures
        token_views(toks@) == lex_tokens(text@),
{
    let ghost whole = text@;
    let mut lexer = Lexer::new(text);
    let mut toks: Vec<Vec<char>> = Vec::new();
    let mut fetched = lexer.next_token();
    proof {
        lemma_step_len(whole);
        assert(token_views(toks@) =~= Seq::<Seq<char>>::empty());
        match &fetched {
            Some(t) => {
                assert(lex_tokens(whole) =~= token_views(toks@) + seq![t@] + lex_tokens(
                    lexer.remaining(),
                ));
            },
            None => {
                assert(lexer.remaining().len() == 0);
                assert(lex_tokens(whole) =~= token_views(toks@) + Seq::<Seq<char>>::empty()
                    + lex_tokens(lexer.remaining()));
            },
        }
    }
    while fetched.is_some()
        invariant
            lexer.wf(),
            fetched is None ==> lexer.remaining().len() == 0,
            lex_tokens(whole) == token_views(toks@) + (match fetched {
                Some(t) => seq![t@],
                None => Seq::<Seq<char>>::empty(),
            }) + lex_tokens(lexer.remaining()),
        decreases lexer.remaining().len() + in_hand(fetched),
    {
        let t = fetched.unwrap();
        let ghost tv0 = toks@;
        toks.push(t);
        proof {
            assert(token_views(toks@) =~= token_views(tv0) + seq![t@]);
        }
        let ghost before = lexer.remaining();
        fetched = lexer.next_token();
        proof {
            lemma_step_len(before);
            match &fetched {
                Some(t2) => {
                    assert(lex_tokens(before) =~= seq![t2@] + lex_tokens(lexer.remaining()));
                    assert(lex_tokens(whole) =~= token_views(toks@) + seq![t2@] + lex_tokens(
                        lexer.remaining(),
                    ));
                },
                None => {
                    assert(lexer.remaining().len() == 0);
                    assert(lex_tokens(before) =~= Seq::<Seq<char>>::empty() + lex_tokens(
                        lexer.remaining(),
                    ));
                    assert(lex_tokens(whole) =~= token_views(toks@)
                        + Seq::<Seq<char>>::empty() + lex_tokens(lexer.remaining()));
                },
            }
        }
    }
    proof {
        assert(lex_tokens(lexer.remaining()) =~= Seq::<Seq<char>>::empty());
        assert(lex_tokens(whole) =~= token_views(toks@));
    }
    toks
}

} // verus!

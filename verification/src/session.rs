//! The session store and its operations: ingestion (free-text and
//! structured), history replay, windowed retention, the read helpers, and
//! the canonical serializer.

use vstd::prelude::*;

use crate::SessionError;
use crate::codec::{
    block_fits, enc_session, lemma_parse_blocks_wf, lemma_parse_session_wf, lemma_parse_turn_wf,
    parse_blocks, parse_session, parse_turn, push_all, read_blocks, read_num, read_turn,
    read_turns, session_fits, turn_fits, write_num, write_turns,
};
use crate::labels::{join_labels, label_chars, pending_of, pending_ids};
use crate::model::{
    BlockView, ContentBlock, Role, SessionView, Turn, TurnView, append_turn_model, blocks_view,
    display_of, has_text, lemma_display_no_text, model_text_turn, session_wf, turn_wf, turns_view,
    user_text_turn,
};
use crate::text::{chars_of_str, string_of_chars};

verus! {

/// A complete blocks payload: the block list with nothing left over,
/// holding at least one block.
pub open spec fn parse_blocks_full(p: Seq<char>) -> Option<Seq<BlockView>> {
    match parse_blocks(p) {
        Some((bs, r)) => if r.len() == 0 && bs.len() > 0 {
            Some(bs)
        } else {
            None
        },
        None => None,
    }
}

/// A complete turn payload: one turn with nothing left over.
pub open spec fn parse_turn_full(p: Seq<char>) -> Option<TurnView> {
    match parse_turn(p) {
        Some((t, r)) => if r.len() == 0 {
            Some(t)
        } else {
            None
        },
        None => None,
    }
}

/// The views of a sequence of strings.
pub open spec fn string_views(xs: Seq<String>) -> Seq<Seq<char>> {
    xs.map_values(|s: String| s@)
}

/// The chat-structure rule for replayed history: a replayed turn must not
/// repeat the role of the latest retained turn.
pub open spec fn protocol_ok(sv: SessionView, t: TurnView) -> bool {
    sv.turns.len() == 0 || sv.turns.last().role != t.role
}

/// The in-band report of a malformed ask payload.
pub open spec fn invalid_response_text() -> Seq<char> {
    "INVALID_RESPONSE:\nmalformed content blocks payload"@
}

/// The in-band diagnostic for a malformed history payload.
pub open spec fn format_error_text() -> Seq<char> {
    "ERROR: INVALID RESPONSE FORMAT\nmalformed turn payload"@
}

/// The in-band diagnostic for history that breaks the chat-structure rules.
pub open spec fn history_error_text() -> Seq<char> {
    "ERROR: INVALID SESSION HISTORY\nrole repeats the previous turn"@
}

impl Turn {
    /// The user-visible text of this turn: its `Text` blocks joined by
    /// `sep`; thoughts, calls and responses are excluded.
    pub fn display_text(&self, sep: &str) -> (r: String)
        ensures
            r@ == display_of(self@.blocks, sep@),
    {
        let sepc = chars_of_str(sep);
        let ghost bv = self@.blocks;
        let mut out: Vec<char> = Vec::new();
        let mut any = false;
        let mut i: usize = 0;
        while i < self.blocks.len()
            invariant
                i <= self.blocks.len(),
                bv == blocks_view(self.blocks@),
                sepc@ == sep@,
                out@ == display_of(bv.take(i as int), sep@),
                any == has_text(bv.take(i as int)),
            decreases self.blocks.len() - i,
        {
            match &self.blocks[i] {
                ContentBlock::Text { text } => {
                    if any {
                        push_all(&mut out, &sepc);
                    }
                    push_all(&mut out, text);
                    any = true;
                },
                _ => {},
            }
            i = i + 1;
            proof {
                let t1 = bv.take(i as int - 1);
                let t2 = bv.take(i as int);
                assert(t2.drop_last() =~= t1);
                assert(t2.last() == bv[i as int - 1]);
                assert(bv[i as int - 1] == self.blocks@[i as int - 1]@);
                if has_text(t1) {
                    let w = choose|w: int| 0 <= w < t1.len() && t1[w] is Text;
                    assert(t2[w] is Text);
                    assert(has_text(t2));
                }
                match bv[i as int - 1] {
                    BlockView::Text { text } => {
                        assert(t2[i as int - 1] is Text);
                        assert(has_text(t2));
                        if !has_text(t1) {
                            lemma_display_no_text(t1, sep@);
                            assert(out@ =~= Seq::<char>::empty() + text);
                            assert(out@ =~= text);
                        } else {
                            assert(out@ =~= (display_of(t1, sep@) + sep@) + text);
                            assert(out@ =~= display_of(t1, sep@) + sep@ + text);
                        }
                    },
                    _ => {
                        if has_text(t2) {
                            let w = choose|w: int| 0 <= w < t2.len() && t2[w] is Text;
                            assert(w < t1.len() && t1[w] is Text);
                            assert(has_text(t1));
                        }
                    },
                }
            }
        }
        proof {
            assert(bv.take(self.blocks.len() as int) =~= bv);
        }
        string_of_chars(&out)
    }
}

/// The session store: a positive retention capacity and the retained
/// turns, oldest first.
pub struct Session {
    window: usize,
    turns: Vec<Turn>,
}

impl View for Session {
    type V = SessionView;

    closed spec fn view(&self) -> SessionView {
        SessionView { window: self.window as nat, turns: turns_view(self.turns@) }
    }
}

impl Session {
    /// Every reachable session is well formed.
    pub open spec fn wf(&self) -> bool {
        session_wf(self@)
    }

    /// A fresh session with the given retention capacity and no turns.
    pub fn new(window: usize) -> (r: Session)
        requires
            window >= 1,
        ensures
            r.wf(),
            r@.window == window as nat,
            r@.turns == Seq::<TurnView>::empty(),
    {
        let s = Session { window, turns: Vec::new() };
        proof {
            assert(s@.turns =~= Seq::<TurnView>::empty());
        }
        s
    }

    /// The retention capacity.
    pub fn window(&self) -> (r: usize)
        ensures
            r as nat == self@.window,
    {
        self.window
    }

    /// How many turns are retained.
    pub fn turn_count(&self) -> (r: usize)
        ensures
            r as nat == self@.turns.len(),
    {
        self.turns.len()
    }

    /// Append a turn, then evict oldest-first until the capacity holds.
    fn push_turn(&mut self, t: Turn)
        requires
            old(self).wf(),
            turn_wf(t@),
        ensures
            final(self).wf(),
            final(self)@ == append_turn_model(old(self)@, t@),
    {
        let ghost tv = t@;
        let ghost sv0 = old(self)@;
        self.turns.push(t);
        proof {
            assert(turns_view(self.turns@) =~= sv0.turns.push(tv));
        }
        if self.turns.len() > self.window {
            self.turns.remove(0);
            proof {
                assert(turns_view(self.turns@) =~= sv0.turns.push(tv).skip(1));
                assert(sv0.turns.push(tv).len() - sv0.window == 1);
            }
        }
        proof {
            assert(self@ =~= append_turn_model(sv0, tv));
            let fin = append_turn_model(sv0, tv);
            assert forall|i: int| 0 <= i < fin.turns.len() implies turn_wf(
                #[trigger] fin.turns[i],
            ) by {
                let ts = sv0.turns.push(tv);
                if fin.turns.len() == ts.len() {
                    assert(fin.turns[i] == ts[i]);
                } else {
                    assert(fin.turns[i] == ts[i + 1]);
                }
            }
        }
    }

    /// Append a turn of the given role holding the text as its single block.
    fn push_text_turn(&mut self, role: Role, text: &str)
        requires
            old(self).wf(),
        ensures
            final(self).wf(),
            final(self)@ == append_turn_model(
                old(self)@,
                TurnView { role, blocks: seq![BlockView::Text { text: text@ }] },
            ),
    {
        let chars = chars_of_str(text);
        let mut blocks: Vec<ContentBlock> = Vec::new();
        blocks.push(ContentBlock::Text { text: chars });
        let t = Turn { role, blocks };
        proof {
            assert(t@.blocks =~= seq![BlockView::Text { text: text@ }]);
            assert(t@ =~= TurnView { role, blocks: seq![BlockView::Text { text: text@ }] });
            assert(turn_wf(t@));
        }
        self.push_turn(t);
    }

    /// Append a user turn holding the given text. Always succeeds.
    pub fn ask(&mut self, text: &str)
        requires
            old(self).wf(),
        ensures
            final(self).wf(),
            final(self)@ == append_turn_model(old(self)@, user_text_turn(text@)),
    {
        self.push_text_turn(Role::User, text);
    }

    /// Append a model turn holding the given text. Always succeeds.
    pub fn reply(&mut self, text: &str)
        requires
            old(self).wf(),
        ensures
            final(self).wf(),
            final(self)@ == append_turn_model(old(self)@, model_text_turn(text@)),
    {
        self.push_text_turn(Role::Model, text);
    }

    /// Parse a blocks payload and append it as a user turn. On parse
    /// failure the call still succeeds: the malformed payload is reported
    /// in-band, as a user turn whose text starts with `INVALID_RESPONSE:`,
    /// so the model can correct itself on its next turn.
    pub fn ask_structured(&mut self, payload: &str)
        requires
            old(self).wf(),
        ensures
            final(self).wf(),
            match parse_blocks_full(payload@) {
                Some(bs) => final(self)@ == append_turn_model(
                    old(self)@,
                    TurnView { role: Role::User, blocks: bs },
                ),
                None => final(self)@ == append_turn_model(
                    old(self)@,
                    user_text_turn(invalid_response_text()),
                ),
            },
    {
        let chars = chars_of_str(payload);
        proof {
            assert(chars@.skip(0) =~= payload@);
        }
        let mut ok = false;
        match read_blocks(&chars, 0) {
            Some((bs, j)) => {
                if j == chars.len() && bs.len() > 0 {
                    proof {
                        assert(chars@.skip(j as int) =~= Seq::<char>::empty());
                        lemma_parse_blocks_wf(payload@);
                    }
                    let t = Turn { role: Role::User, blocks: bs };
                    proof {
                        assert(turn_wf(t@));
                        assert(t@ =~= TurnView {
                            role: Role::User,
                            blocks: parse_blocks_full(payload@)->Some_0,
                        });
                    }
                    self.push_turn(t);
                    ok = true;
                }
            },
            None => {},
        }
        if !ok {
            self.push_text_turn(
                Role::User,
                "INVALID_RESPONSE:\nmalformed content blocks payload",
            );
        }
    }

    /// Parse a blocks payload and append it as a model turn. On parse
    /// failure nothing is appended — the model did not say the malformed
    /// text — and the failure is surfaced to the caller.
    pub fn reply_structured(&mut self, payload: &str) -> (r: Result<(), SessionError>)
        requires
            old(self).wf(),
        ensures
            final(self).wf(),
            match parse_blocks_full(payload@) {
                Some(bs) => r is Ok && final(self)@ == append_turn_model(
                    old(self)@,
                    TurnView { role: Role::Model, blocks: bs },
                ),
                None => r == Err::<(), SessionError>(SessionError::ParseError) && final(self)@
                    == old(self)@,
            },
    {
        let chars = chars_of_str(payload);
        proof {
            assert(chars@.skip(0) =~= payload@);
        }
        match read_blocks(&chars, 0) {
            Some((bs, j)) => {
                if j == chars.len() && bs.len() > 0 {
                    proof {
                        assert(chars@.skip(j as int) =~= Seq::<char>::empty());
                        lemma_parse_blocks_wf(payload@);
                    }
                    let t = Turn { role: Role::Model, blocks: bs };
                    proof {
                        assert(turn_wf(t@));
                        assert(t@ =~= TurnView {
                            role: Role::Model,
                            blocks: parse_blocks_full(payload@)->Some_0,
                        });
                    }
                    self.push_turn(t);
                    Ok(())
                } else {
                    Err(SessionError::ParseError)
                }
            },
            None => Err(SessionError::ParseError),
        }
    }

    /// Replay one persisted turn. A payload that does not parse appends an
    /// in-band `ERROR: INVALID RESPONSE FORMAT` diagnostic; one that parses
    /// but repeats the previous turn's role appends an in-band
    /// `ERROR: INVALID SESSION HISTORY` diagnostic; replay itself never
    /// fails, and either diagnostic is an ordinary retained turn.
    pub fn append_turn(&mut self, payload: &str)
        requires
            old(self).wf(),
        ensures
            final(self).wf(),
            match parse_turn_full(payload@) {
                Some(t) => if protocol_ok(old(self)@, t) {
                    final(self)@ == append_turn_model(old(self)@, t)
                } else {
                    final(self)@ == append_turn_model(
                        old(self)@,
                        model_text_turn(history_error_text()),
                    )
                },
                None => final(self)@ == append_turn_model(
                    old(self)@,
                    model_text_turn(format_error_text()),
                ),
            },
    {
        let chars = chars_of_str(payload);
        proof {
            assert(chars@.skip(0) =~= payload@);
        }
        let mut appended = false;
        let mut violated = false;
        match read_turn(&chars, 0) {
            Some((t, j)) => {
                if j == chars.len() {
                    proof {
                        assert(chars@.skip(j as int) =~= Seq::<char>::empty());
                    }
                    let violates = if self.turns.len() > 0 {
                        let n = self.turns.len();
                        self.turns[n - 1].role == t.role
                    } else {
                        false
                    };
                    proof {
                        if self.turns.len() > 0 {
                            assert(self@.turns.last() == self.turns@[self.turns@.len() - 1]@);
                        }
                    }
                    if violates {
                        violated = true;
                    } else {
                        proof {
                            lemma_parse_turn_wf(payload@);
                            assert(turn_wf(t@));
                        }
                        self.push_turn(t);
                        appended = true;
                    }
                }
            },
            None => {},
        }
        if violated {
            self.push_text_turn(
                Role::Model,
                "ERROR: INVALID SESSION HISTORY\nrole repeats the previous turn",
            );
        } else if !appended {
            self.push_text_turn(Role::Model, "ERROR: INVALID RESPONSE FORMAT\nmalformed turn payload");
        }
    }

    /// The most recent turn.
    pub fn last_turn(&self) -> (r: Result<&Turn, SessionError>)
        ensures
            match r {
                Ok(t) => self@.turns.len() > 0 && t@ == self@.turns.last(),
                Err(e) => e == SessionError::EmptySession && self@.turns.len() == 0,
            },
    {
        let n = self.turns.len();
        if n > 0 {
            let t = &self.turns[n - 1];
            proof {
                assert(self@.turns.last() == self.turns@[n - 1 as int]@);
            }
            Ok(t)
        } else {
            Err(SessionError::EmptySession)
        }
    }

    /// The user-visible text of the most recent turn: its `Text` blocks
    /// joined by `sep`, thoughts excluded.
    pub fn display_text(&self, sep: &str) -> (r: Result<String, SessionError>)
        ensures
            match r {
                Ok(s) => self@.turns.len() > 0 && s@ == display_of(
                    self@.turns.last().blocks,
                    sep@,
                ),
                Err(e) => e == SessionError::EmptySession && self@.turns.len() == 0,
            },
    {
        match self.last_turn() {
            Ok(t) => Ok(t.display_text(sep)),
            Err(e) => Err(e),
        }
    }

    /// The status labels of the function calls pending in the most recent
    /// turn: each label exactly once, sorted lexicographically.
    pub fn pending_labels(&self) -> (r: Result<Vec<String>, SessionError>)
        ensures
            match r {
                Ok(ls) => self@.turns.len() > 0 && string_views(ls@) == pending_of(
                    self@.turns.last().blocks,
                ),
                Err(e) => e == SessionError::EmptySession && self@.turns.len() == 0,
            },
    {
        let n = self.turns.len();
        if n == 0 {
            return Err(SessionError::EmptySession);
        }
        let t = &self.turns[n - 1];
        proof {
            assert(self@.turns.last() == self.turns@[n - 1 as int]@);
        }
        let ids = pending_ids(&t.blocks);
        let ghost pend = pending_of(self@.turns.last().blocks);
        proof {
            assert(pend.len() == ids@.len());
        }
        let mut out: Vec<String> = Vec::new();
        let mut k: usize = 0;
        while k < ids.len()
            invariant
                k <= ids.len(),
                forall|j: int| 0 <= j < ids@.len() ==> ids@[j] < 11,
                pend.len() == ids@.len(),
                forall|j: int|
                    0 <= j < ids@.len() ==> pend[j] == crate::labels::label_text(ids@[j] as nat),
                string_views(out@) == pend.take(k as int),
            decreases ids.len() - k,
        {
            let lc = label_chars(ids[k]);
            let s = string_of_chars(&lc);
            let ghost o0 = out@;
            out.push(s);
            k = k + 1;
            proof {
                assert(out@ == o0.push(s));
                assert(string_views(out@) =~= string_views(o0).push(s@));
                assert(pend.take(k as int) =~= pend.take(k as int - 1).push(pend[k as int - 1]));
                assert(string_views(out@) =~= pend.take(k as int));
            }
        }
        proof {
            assert(pend.take(ids@.len() as int) =~= pend);
        }
        Ok(out)
    }

    /// The pending status labels as one comma-joined string, under the same
    /// sort and dedup rule.
    pub fn pending_labels_joined(&self) -> (r: Result<String, SessionError>)
        ensures
            match r {
                Ok(s) => self@.turns.len() > 0 && s@ == join_labels(
                    pending_of(self@.turns.last().blocks),
                ),
                Err(e) => e == SessionError::EmptySession && self@.turns.len() == 0,
            },
    {
        let n = self.turns.len();
        if n == 0 {
            return Err(SessionError::EmptySession);
        }
        let t = &self.turns[n - 1];
        proof {
            assert(self@.turns.last() == self.turns@[n - 1 as int]@);
        }
        let ids = pending_ids(&t.blocks);
        let ghost pend = pending_of(self@.turns.last().blocks);
        proof {
            assert(pend.len() == ids@.len());
        }
        let sep = chars_of_str(", ");
        let mut out: Vec<char> = Vec::new();
        let mut k: usize = 0;
        while k < ids.len()
            invariant
                k <= ids.len(),
                forall|j: int| 0 <= j < ids@.len() ==> ids@[j] < 11,
                pend.len() == ids@.len(),
                forall|j: int|
                    0 <= j < ids@.len() ==> pend[j] == crate::labels::label_text(ids@[j] as nat),
                sep@ == ", "@,
                out@ == join_labels(pend.take(k as int)),
            decreases ids.len() - k,
        {
            if k > 0 {
                push_all(&mut out, &sep);
            }
            let lc = label_chars(ids[k]);
            push_all(&mut out, &lc);
            k = k + 1;
            proof {
                assert(pend.take(k as int).drop_last() =~= pend.take(k as int - 1));
                assert(pend.take(k as int).last() == pend[k as int - 1]);
                if k == 1 {
                    assert(out@ =~= join_labels(pend.take(k as int)));
                } else {
                    assert(out@ =~= (join_labels(pend.take(k as int - 1)) + ", "@) + pend[k as int
                        - 1]);
                    assert(out@ =~= join_labels(pend.take(k as int)));
                }
            }
        }
        proof {
            assert(pend.take(ids@.len() as int) =~= pend);
        }
        Ok(string_of_chars(&out))
    }

    /// The canonical textual form of the whole session: capacity and every
    /// retained turn, in order.
    pub fn serialize(&self) -> (r: String)
        ensures
            r@ == enc_session(self@),
    {
        let mut out: Vec<char> = Vec::new();
        out.push('S');
        write_num(self.window, &mut out);
        write_turns(&self.turns, 0, &mut out);
        proof {
            assert(turns_view(self.turns@).skip(0) =~= self@.turns);
            assert(out@ =~= enc_session(self@));
        }
        string_of_chars(&out)
    }

    /// Rebuild a session from its canonical textual form. Succeeds exactly
    /// on a complete well-formed encoding; everything else is a parse
    /// error.
    pub fn deserialize(text: &str) -> (r: Result<Session, SessionError>)
        ensures
            match r {
                Ok(s) => s.wf() && parse_session(text@) == Some((s@, Seq::<char>::empty())),
                Err(e) => {
                    &&& e == SessionError::ParseError
                    &&& (parse_session(text@) matches Some(p) ==> p.1.len() > 0)
                },
            },
    {
        let chars = chars_of_str(text);
        if chars.len() == 0 {
            return Err(SessionError::ParseError);
        }
        if chars[0] != 'S' {
            return Err(SessionError::ParseError);
        }
        proof {
            assert(text@.drop_first() =~= chars@.skip(1));
        }
        match read_num(&chars, 1) {
            Some((w, j)) => {
                if w >= 1 {
                    match read_turns(&chars, j) {
                        Some((ts, j2)) => {
                            if ts.len() <= w && j2 == chars.len() {
                                proof {
                                    assert(chars@.skip(j2 as int) =~= Seq::<char>::empty());
                                    lemma_parse_session_wf(text@);
                                }
                                let s = Session { window: w, turns: ts };
                                Ok(s)
                            } else {
                                Err(SessionError::ParseError)
                            }
                        },
                        None => Err(SessionError::ParseError),
                    }
                } else {
                    Err(SessionError::ParseError)
                }
            },
            None => Err(SessionError::ParseError),
        }
    }

    /// Every actual session's capacity and strings fit `usize` lengths.
    pub proof fn lemma_fits(&self)
        ensures
            session_fits(self@),
    {
        broadcast use vstd::std_specs::vec::axiom_spec_len;

        assert forall|i: int| 0 <= i < self@.turns.len() implies turn_fits(
            #[trigger] self@.turns[i],
        ) by {
            let t = self.turns@[i];
            assert(self@.turns[i] == t@);
            assert forall|j: int| 0 <= j < t@.blocks.len() implies block_fits(
                #[trigger] t@.blocks[j],
            ) by {
                let b = t.blocks@[j];
                assert(t@.blocks[j] == b@);
                match b {
                    ContentBlock::Text { text } => {
                        assert(text.len() == text@.len());
                    },
                    ContentBlock::Thought { text } => {
                        assert(text.len() == text@.len());
                    },
                    ContentBlock::FunctionCall { name, arguments } => {
                        assert(name.len() == name@.len());
                        assert(arguments.len() == arguments@.len());
                    },
                    ContentBlock::FunctionResponse { name, result } => {
                        assert(name.len() == name@.len());
                        assert(result.len() == result@.len());
                    },
                }
            }
        }
    }
}

} // verus!

//! Session-wide laws: the window invariant over arbitrary call sequences,
//! and the serializer round trip over every reachable session state.

use vstd::prelude::*;

use crate::codec::{enc_session, lemma_parse_session_of_enc, parse_session, session_fits};
use crate::model::{SessionView, TurnView, append_turn_model, session_wf};
use crate::session::Session;

verus! {

/// The session reached by appending each of the turns, in order, starting
/// from `sv`. Every mutating call of the store appends exactly one turn.
pub open spec fn append_all(sv: SessionView, ts: Seq<TurnView>) -> SessionView
    decreases ts.len(),
{
    if ts.len() == 0 {
        sv
    } else {
        append_turn_model(append_all(sv, ts.drop_last()), ts.last())
    }
}

/// The window invariant: after any sequence of appends to a fresh session
/// of positive capacity `window`, the retained turns are exactly the
/// `window` most recently appended ones, in their original order, and the
/// count is the minimum of the append count and the capacity.
pub proof fn lemma_window_invariant(window: nat, ts: Seq<TurnView>)
    requires
        window >= 1,
    ensures
        ({
            let s = append_all(SessionView { window, turns: Seq::empty() }, ts);
            &&& s.window == window
            &&& s.turns.len() == if ts.len() <= window {
                ts.len()
            } else {
                window
            }
            &&& s.turns =~= ts.skip(
                if ts.len() <= window {
                    0
                } else {
                    ts.len() - window
                },
            )
        }),
    decreases ts.len(),
{
    if ts.len() > 0 {
        lemma_window_invariant(window, ts.drop_last());
        let prev = append_all(SessionView { window, turns: Seq::empty() }, ts.drop_last());
        let k0: int = if ts.len() - 1 <= window {
            0
        } else {
            ts.len() - 1 - window
        };
        assert(prev.turns =~= ts.drop_last().skip(k0));
        let pushed = prev.turns.push(ts.last());
        assert(pushed =~= ts.skip(k0));
        let s = append_turn_model(prev, ts.last());
        if pushed.len() > window {
            assert(s.turns =~= pushed.skip(pushed.len() - window));
            assert(pushed.len() - window == 1);
            assert(pushed.skip(1) =~= ts.skip(k0 + 1));
        }
    }
}

/// The serializer round trip: parsing the canonical form of any reachable
/// (well-formed) session state yields an identical session — same
/// capacity, same turns — with nothing left over.
pub proof fn lemma_round_trip(sv: SessionView)
    requires
        session_wf(sv),
        session_fits(sv),
    ensures
        parse_session(enc_session(sv)) == Some((sv, Seq::<char>::empty())),
{
    lemma_parse_session_of_enc(sv);
}

/// The round trip holds of every actual session value: what `serialize`
/// produces, `deserialize` accepts, and it yields the same session.
pub proof fn lemma_serialize_round_trip(s: &Session)
    requires
        s.wf(),
    ensures
        parse_session(enc_session(s@)) == Some((s@, Seq::<char>::empty())),
{
    s.lemma_fits();
    lemma_round_trip(s@);
}

} // verus!

//! The canonical textual form of a session and its parser.
//!
//! Grammar, over characters:
//!   session := 'S' num turn* 'E'        (num is the retention capacity)
//!   turn    := 'T' ('u' | 'm') block* 'E'
//!   block   := 't' str | 'h' str | 'c' str str | 'r' str str
//!   str     := num c^n                  (n raw characters, n the num's value)
//!   num     := digit+ ':'
//!
//! The spec encoder is the canonical form; the spec parser accepts it (and
//! nothing that decodes differently), and the round-trip lemmas below prove
//! that parsing an encoding yields the encoded value exactly.

use vstd::prelude::*;

use crate::model::{BlockView, ContentBlock, Role, SessionView, Turn, TurnView, block_wf, blocks_view, session_wf, turn_wf, turns_view};
use vstd::arithmetic::div_mod::lemma_fundamental_div_mod;

verus! {

// ---------------------------------------------------------------------------
// Digits and numbers
// ---------------------------------------------------------------------------

/// The numeric value of a digit character; 10 marks a non-digit.
pub open spec fn digit_val(c: char) -> nat {
    if c == '0' {
        0
    } else if c == '1' {
        1
    } else if c == '2' {
        2
    } else if c == '3' {
        3
    } else if c == '4' {
        4
    } else if c == '5' {
        5
    } else if c == '6' {
        6
    } else if c == '7' {
        7
    } else if c == '8' {
        8
    } else if c == '9' {
        9
    } else {
        10
    }
}

pub open spec fn is_digit_char(c: char) -> bool {
    digit_val(c) < 10
}

/// The digit character of a value below ten.
pub open spec fn digit_char(d: nat) -> char {
    if d == 0 {
        '0'
    } else if d == 1 {
        '1'
    } else if d == 2 {
        '2'
    } else if d == 3 {
        '3'
    } else if d == 4 {
        '4'
    } else if d == 5 {
        '5'
    } else if d == 6 {
        '6'
    } else if d == 7 {
        '7'
    } else if d == 8 {
        '8'
    } else {
        '9'
    }
}

/// The decimal digits of `n`, most significant first.
pub open spec fn dig_seq(n: nat) -> Seq<char>
    decreases n,
{
    if n < 10 {
        seq![digit_char(n)]
    } else {
        dig_seq(n / 10) + seq![digit_char(n % 10)]
    }
}

/// The encoding of a number: its digits, terminated by ':'.
pub open spec fn enc_num(n: nat) -> Seq<char> {
    dig_seq(n) + seq![':']
}

/// Parse digits into an accumulator until the ':' terminator.
pub open spec fn parse_num_acc(s: Seq<char>, acc: nat) -> Option<(nat, Seq<char>)>
    decreases s.len(),
{
    if s.len() == 0 {
        None
    } else if s[0] == ':' {
        Some((acc, s.drop_first()))
    } else if is_digit_char(s[0]) {
        parse_num_acc(s.drop_first(), acc * 10 + digit_val(s[0]))
    } else {
        None
    }
}

/// Parse a number: at least one digit, then ':'. Values that do not fit a
/// `usize` are rejected.
pub open spec fn parse_num(s: Seq<char>) -> Option<(nat, Seq<char>)> {
    if s.len() > 0 && is_digit_char(s[0]) {
        match parse_num_acc(s, 0) {
            Some((n, r)) => if n <= usize::MAX as nat {
                Some((n, r))
            } else {
                None
            },
            None => None,
        }
    } else {
        None
    }
}

// ---------------------------------------------------------------------------
// Strings
// ---------------------------------------------------------------------------

/// The encoding of a character string: its length, then its characters raw.
pub open spec fn enc_str(v: Seq<char>) -> Seq<char> {
    enc_num(v.len()) + v
}

/// Parse a length-prefixed character string.
pub open spec fn parse_str(s: Seq<char>) -> Option<(Seq<char>, Seq<char>)> {
    match parse_num(s) {
        Some((n, r)) => if n <= r.len() {
            Some((r.take(n as int), r.skip(n as int)))
        } else {
            None
        },
        None => None,
    }
}

// ---------------------------------------------------------------------------
// Blocks
// ---------------------------------------------------------------------------

/// The encoding of one content block.
pub open spec fn enc_block(b: BlockView) -> Seq<char> {
    match b {
        BlockView::Text { text } => seq!['t'] + enc_str(text),
        BlockView::Thought { text } => seq!['h'] + enc_str(text),
        BlockView::FunctionCall { name, arguments } => seq!['c'] + enc_str(name) + enc_str(
            arguments,
        ),
        BlockView::FunctionResponse { name, result } => seq!['r'] + enc_str(name) + enc_str(result),
    }
}

/// Parse one content block; function calls and responses must carry a
/// non-empty name.
pub open spec fn parse_block(s: Seq<char>) -> Option<(BlockView, Seq<char>)> {
    if s.len() == 0 {
        None
    } else if s[0] == 't' {
        match parse_str(s.drop_first()) {
            Some((text, r)) => Some((BlockView::Text { text }, r)),
            None => None,
        }
    } else if s[0] == 'h' {
        match parse_str(s.drop_first()) {
            Some((text, r)) => Some((BlockView::Thought { text }, r)),
            None => None,
        }
    } else if s[0] == 'c' {
        match parse_str(s.drop_first()) {
            Some((name, r1)) => if name.len() > 0 {
                match parse_str(r1) {
                    Some((arguments, r2)) => Some(
                        (BlockView::FunctionCall { name, arguments }, r2),
                    ),
                    None => None,
                }
            } else {
                None
            },
            None => None,
        }
    } else if s[0] == 'r' {
        match parse_str(s.drop_first()) {
            Some((name, r1)) => if name.len() > 0 {
                match parse_str(r1) {
                    Some((result, r2)) => Some((BlockView::FunctionResponse { name, result }, r2)),
                    None => None,
                }
            } else {
                None
            },
            None => None,
        }
    } else {
        None
    }
}

/// The encoding of a block list: each block in order, then 'E'.
pub open spec fn enc_blocks(bs: Seq<BlockView>) -> Seq<char>
    decreases bs.len(),
{
    if bs.len() == 0 {
        seq!['E']
    } else {
        enc_block(bs[0]) + enc_blocks(bs.drop_first())
    }
}

/// Parse blocks until the 'E' terminator.
pub open spec fn parse_blocks(s: Seq<char>) -> Option<(Seq<BlockView>, Seq<char>)>
    decreases s.len(),
    via parse_blocks_dec
{
    if s.len() == 0 {
        None
    } else if s[0] == 'E' {
        Some((Seq::empty(), s.drop_first()))
    } else {
        match parse_block(s) {
            Some((b, r)) => match parse_blocks(r) {
                Some((bs, r2)) => Some((seq![b] + bs, r2)),
                None => None,
            },
            None => None,
        }
    }
}

#[via_fn]
proof fn parse_blocks_dec(s: Seq<char>) {
    if s.len() != 0 && s[0] != 'E' {
        lemma_parse_block_shrinks(s);
    }
}

// ---------------------------------------------------------------------------
// Turns and sessions
// ---------------------------------------------------------------------------

/// The tag character of a role.
pub open spec fn role_char(role: Role) -> char {
    if role is User {
        'u'
    } else {
        'm'
    }
}

/// The encoding of one turn.
pub open spec fn enc_turn(t: TurnView) -> Seq<char> {
    seq!['T', role_char(t.role)] + enc_blocks(t.blocks)
}

/// Parse one turn; a turn must hold at least one block.
pub open spec fn parse_turn(s: Seq<char>) -> Option<(TurnView, Seq<char>)> {
    if s.len() >= 2 && s[0] == 'T' && (s[1] == 'u' || s[1] == 'm') {
        let role = if s[1] == 'u' {
            Role::User
        } else {
            Role::Model
        };
        match parse_blocks(s.skip(2)) {
            Some((bs, r)) => if bs.len() > 0 {
                Some((TurnView { role, blocks: bs }, r))
            } else {
                None
            },
            None => None,
        }
    } else {
        None
    }
}

/// The encoding of a turn list: each turn in order, then 'E'.
pub open spec fn enc_turns(ts: Seq<TurnView>) -> Seq<char>
    decreases ts.len(),
{
    if ts.len() == 0 {
        seq!['E']
    } else {
        enc_turn(ts[0]) + enc_turns(ts.drop_first())
    }
}

/// Parse turns until the 'E' terminator.
pub open spec fn parse_turns(s: Seq<char>) -> Option<(Seq<TurnView>, Seq<char>)>
    decreases s.len(),
    via parse_turns_dec
{
    if s.len() == 0 {
        None
    } else if s[0] == 'E' {
        Some((Seq::empty(), s.drop_first()))
    } else {
        match parse_turn(s) {
            Some((t, r)) => match parse_turns(r) {
                Some((ts, r2)) => Some((seq![t] + ts, r2)),
                None => None,
            },
            None => None,
        }
    }
}

#[via_fn]
proof fn parse_turns_dec(s: Seq<char>) {
    if s.len() != 0 && s[0] != 'E' {
        lemma_parse_turn_shrinks(s);
    }
}

/// The canonical form of a whole session.
pub open spec fn enc_session(sv: SessionView) -> Seq<char> {
    seq!['S'] + enc_num(sv.window) + enc_turns(sv.turns)
}

/// Parse a whole session; the capacity must be positive and must not be
/// exceeded by the retained turns.
pub open spec fn parse_session(s: Seq<char>) -> Option<(SessionView, Seq<char>)> {
    if s.len() > 0 && s[0] == 'S' {
        match parse_num(s.drop_first()) {
            Some((w, r)) => if w >= 1 {
                match parse_turns(r) {
                    Some((ts, r2)) => if ts.len() <= w {
                        Some((SessionView { window: w, turns: ts }, r2))
                    } else {
                        None
                    },
                    None => None,
                }
            } else {
                None
            },
            None => None,
        }
    } else {
        None
    }
}

// ---------------------------------------------------------------------------
// Every parser consumes input
// ---------------------------------------------------------------------------

proof fn lemma_parse_num_acc_shrinks(s: Seq<char>, acc: nat)
    ensures
        parse_num_acc(s, acc) matches Some(p) ==> p.1.len() < s.len(),
    decreases s.len(),
{
    if s.len() > 0 && s[0] != ':' && is_digit_char(s[0]) {
        lemma_parse_num_acc_shrinks(s.drop_first(), acc * 10 + digit_val(s[0]));
    }
}

proof fn lemma_parse_str_shrinks(s: Seq<char>)
    ensures
        parse_str(s) matches Some(p) ==> p.1.len() < s.len(),
{
    lemma_parse_num_acc_shrinks(s, 0);
}

proof fn lemma_parse_block_shrinks(s: Seq<char>)
    ensures
        parse_block(s) matches Some(p) ==> p.1.len() < s.len(),
{
    if s.len() > 0 {
        lemma_parse_str_shrinks(s.drop_first());
        if let Some((_, r1)) = parse_str(s.drop_first()) {
            lemma_parse_str_shrinks(r1);
        }
    }
}

proof fn lemma_parse_blocks_shrinks(s: Seq<char>)
    ensures
        parse_blocks(s) matches Some(p) ==> p.1.len() < s.len(),
    decreases s.len(),
{
    if s.len() != 0 && s[0] != 'E' {
        lemma_parse_block_shrinks(s);
        if let Some((_, r)) = parse_block(s) {
            lemma_parse_blocks_shrinks(r);
        }
    }
}

proof fn lemma_parse_turn_shrinks(s: Seq<char>)
    ensures
        parse_turn(s) matches Some(p) ==> p.1.len() < s.len(),
{
    if s.len() >= 2 {
        lemma_parse_blocks_shrinks(s.skip(2));
    }
}

/// A parsed number is at least the accumulator it started from.
proof fn lemma_parse_num_acc_min(s: Seq<char>, acc: nat)
    ensures
        parse_num_acc(s, acc) matches Some(p) ==> p.0 >= acc,
    decreases s.len(),
{
    if s.len() > 0 && s[0] != ':' && is_digit_char(s[0]) {
        assert(acc * 10 >= acc) by (nonlinear_arith);
        lemma_parse_num_acc_min(s.drop_first(), acc * 10 + digit_val(s[0]));
    }
}

// ---------------------------------------------------------------------------
// Fitting: every encoded length must fit a usize
// ---------------------------------------------------------------------------

/// Every character string of the block fits a `usize` length.
pub open spec fn block_fits(b: BlockView) -> bool {
    match b {
        BlockView::Text { text } => text.len() <= usize::MAX,
        BlockView::Thought { text } => text.len() <= usize::MAX,
        BlockView::FunctionCall { name, arguments } => name.len() <= usize::MAX
            && arguments.len() <= usize::MAX,
        BlockView::FunctionResponse { name, result } => name.len() <= usize::MAX && result.len()
            <= usize::MAX,
    }
}

pub open spec fn turn_fits(t: TurnView) -> bool {
    forall|i: int| 0 <= i < t.blocks.len() ==> block_fits(#[trigger] t.blocks[i])
}

pub open spec fn session_fits(sv: SessionView) -> bool {
    &&& sv.window <= usize::MAX
    &&& forall|i: int| 0 <= i < sv.turns.len() ==> turn_fits(#[trigger] sv.turns[i])
}

// ---------------------------------------------------------------------------
// Round trip: parsing an encoding yields the encoded value
// ---------------------------------------------------------------------------

pub open spec fn pow10(k: nat) -> nat
    decreases k,
{
    if k == 0 {
        1
    } else {
        10 * pow10((k - 1) as nat)
    }
}

proof fn lemma_dig_seq_first(n: nat)
    ensures
        dig_seq(n).len() > 0,
        is_digit_char(dig_seq(n)[0]),
        dig_seq(n)[0] != ':',
    decreases n,
{
    if n >= 10 {
        lemma_dig_seq_first(n / 10);
    }
}

/// Parsing the digits of `n` folds them into the accumulator.
proof fn lemma_parse_acc_digits(n: nat, rest: Seq<char>, acc: nat)
    ensures
        parse_num_acc(dig_seq(n) + rest, acc) == parse_num_acc(
            rest,
            acc * pow10(dig_seq(n).len()) + n,
        ),
    decreases n,
{
    if n < 10 {
        let s = dig_seq(n) + rest;
        assert(s[0] == digit_char(n));
        assert(is_digit_char(digit_char(n)) && digit_char(n) != ':');
        assert(digit_val(digit_char(n)) == n);
        assert(s.drop_first() =~= rest);
        assert(pow10(0) == 1);
        assert(pow10(1) == 10);
    } else {
        let d = digit_char(n % 10);
        let rest1 = seq![d] + rest;
        assert(dig_seq(n) + rest =~= dig_seq(n / 10) + rest1);
        lemma_parse_acc_digits(n / 10, rest1, acc);
        let k = dig_seq(n / 10).len();
        let a1 = acc * pow10(k) + n / 10;
        // parse_num_acc(rest1, a1) steps over the digit d
        assert(rest1[0] == d);
        assert(is_digit_char(d) && d != ':');
        assert(digit_val(d) == n % 10);
        assert(rest1.drop_first() =~= rest);
        assert(parse_num_acc(rest1, a1) == parse_num_acc(rest, a1 * 10 + n % 10));
        // a1 * 10 + n % 10 == acc * pow10(k + 1) + n
        lemma_fundamental_div_mod(n as int, 10);
        assert((acc * pow10(k)) * 10 == acc * (pow10(k) * 10)) by (nonlinear_arith);
        assert(pow10(k) * 10 == pow10(k + 1)) by {
            assert(pow10(k + 1) == 10 * pow10(k));
        };
        assert(dig_seq(n).len() == k + 1);
        assert(a1 * 10 + n % 10 == acc * pow10(k + 1) + n);
    }
}

/// Round trip of a number encoding.
proof fn lemma_parse_num_of_enc(n: nat, rest: Seq<char>)
    requires
        n <= usize::MAX,
    ensures
        parse_num(enc_num(n) + rest) == Some((n, rest)),
{
    let tail = seq![':'] + rest;
    assert(enc_num(n) + rest =~= dig_seq(n) + tail);
    lemma_dig_seq_first(n);
    lemma_parse_acc_digits(n, tail, 0);
    assert(tail.drop_first() =~= rest);
    assert(parse_num_acc(tail, n) == Some((n, rest)));
    assert((dig_seq(n) + tail)[0] == dig_seq(n)[0]);
}

/// Round trip of a string encoding.
proof fn lemma_parse_str_of_enc(v: Seq<char>, rest: Seq<char>)
    requires
        v.len() <= usize::MAX,
    ensures
        parse_str(enc_str(v) + rest) == Some((v, rest)),
{
    assert(enc_str(v) + rest =~= enc_num(v.len()) + (v + rest));
    lemma_parse_num_of_enc(v.len(), v + rest);
    assert((v + rest).take(v.len() as int) =~= v);
    assert((v + rest).skip(v.len() as int) =~= rest);
}

proof fn lemma_enc_block_first(b: BlockView)
    ensures
        enc_block(b)[0] == 't' || enc_block(b)[0] == 'h' || enc_block(b)[0] == 'c' || enc_block(
            b,
        )[0] == 'r',
        enc_block(b).len() > 0,
{
}

/// Round trip of one block encoding.
proof fn lemma_parse_block_of_enc(b: BlockView, rest: Seq<char>)
    requires
        block_wf(b),
        block_fits(b),
    ensures
        parse_block(enc_block(b) + rest) == Some((b, rest)),
{
    let s = enc_block(b) + rest;
    match b {
        BlockView::Text { text } => {
            assert(s.drop_first() =~= enc_str(text) + rest);
            lemma_parse_str_of_enc(text, rest);
        },
        BlockView::Thought { text } => {
            assert(s.drop_first() =~= enc_str(text) + rest);
            lemma_parse_str_of_enc(text, rest);
        },
        BlockView::FunctionCall { name, arguments } => {
            assert(s.drop_first() =~= enc_str(name) + (enc_str(arguments) + rest));
            lemma_parse_str_of_enc(name, enc_str(arguments) + rest);
            lemma_parse_str_of_enc(arguments, rest);
        },
        BlockView::FunctionResponse { name, result } => {
            assert(s.drop_first() =~= enc_str(name) + (enc_str(result) + rest));
            lemma_parse_str_of_enc(name, enc_str(result) + rest);
            lemma_parse_str_of_enc(result, rest);
        },
    }
}

/// Round trip of a block-list encoding.
proof fn lemma_parse_blocks_of_enc(bs: Seq<BlockView>, rest: Seq<char>)
    requires
        forall|i: int| 0 <= i < bs.len() ==> block_wf(#[trigger] bs[i]),
        forall|i: int| 0 <= i < bs.len() ==> block_fits(#[trigger] bs[i]),
    ensures
        parse_blocks(enc_blocks(bs) + rest) == Some((bs, rest)),
    decreases bs.len(),
{
    if bs.len() == 0 {
        let s = enc_blocks(bs) + rest;
        assert(s[0] == 'E');
        assert(s.drop_first() =~= rest);
        assert(bs =~= Seq::<BlockView>::empty());
    } else {
        let s = enc_blocks(bs) + rest;
        let mid = enc_blocks(bs.drop_first()) + rest;
        assert(s =~= enc_block(bs[0]) + mid);
        lemma_enc_block_first(bs[0]);
        assert(s[0] == enc_block(bs[0])[0]);
        lemma_parse_block_of_enc(bs[0], mid);
        lemma_parse_blocks_of_enc(bs.drop_first(), rest);
        assert(seq![bs[0]] + bs.drop_first() =~= bs);
    }
}

/// Round trip of one turn encoding.
proof fn lemma_parse_turn_of_enc(t: TurnView, rest: Seq<char>)
    requires
        turn_wf(t),
        turn_fits(t),
    ensures
        parse_turn(enc_turn(t) + rest) == Some((t, rest)),
{
    let s = enc_turn(t) + rest;
    assert(s[0] == 'T');
    assert(s[1] == role_char(t.role));
    assert(s.skip(2) =~= enc_blocks(t.blocks) + rest);
    lemma_parse_blocks_of_enc(t.blocks, rest);
    let parsed_role = if s[1] == 'u' {
        Role::User
    } else {
        Role::Model
    };
    assert(parsed_role == t.role);
    assert(TurnView { role: parsed_role, blocks: t.blocks } =~= t);
}

proof fn lemma_enc_turn_first(t: TurnView)
    ensures
        enc_turn(t)[0] == 'T',
        enc_turn(t).len() > 0,
{
}

/// Round trip of a turn-list encoding.
proof fn lemma_parse_turns_of_enc(ts: Seq<TurnView>, rest: Seq<char>)
    requires
        forall|i: int| 0 <= i < ts.len() ==> turn_wf(#[trigger] ts[i]),
        forall|i: int| 0 <= i < ts.len() ==> turn_fits(#[trigger] ts[i]),
    ensures
        parse_turns(enc_turns(ts) + rest) == Some((ts, rest)),
    decreases ts.len(),
{
    if ts.len() == 0 {
        let s = enc_turns(ts) + rest;
        assert(s[0] == 'E');
        assert(s.drop_first() =~= rest);
        assert(ts =~= Seq::<TurnView>::empty());
    } else {
        let s = enc_turns(ts) + rest;
        let mid = enc_turns(ts.drop_first()) + rest;
        assert(s =~= enc_turn(ts[0]) + mid);
        lemma_enc_turn_first(ts[0]);
        assert(s[0] == enc_turn(ts[0])[0]);
        lemma_parse_turn_of_enc(ts[0], mid);
        lemma_parse_turns_of_enc(ts.drop_first(), rest);
        assert(seq![ts[0]] + ts.drop_first() =~= ts);
    }
}

/// Round trip of a whole session encoding: parsing the canonical form of a
/// well-formed session yields that session exactly, with nothing left over.
pub proof fn lemma_parse_session_of_enc(sv: SessionView)
    requires
        session_wf(sv),
        session_fits(sv),
    ensures
        parse_session(enc_session(sv)) == Some((sv, Seq::<char>::empty())),
{
    let s = enc_session(sv);
    let empty = Seq::<char>::empty();
    assert(s[0] == 'S');
    assert(s.drop_first() =~= enc_num(sv.window) + (enc_turns(sv.turns) + empty));
    lemma_parse_num_of_enc(sv.window, enc_turns(sv.turns) + empty);
    lemma_parse_turns_of_enc(sv.turns, empty);
    assert(SessionView { window: sv.window, turns: sv.turns } =~= sv);
}

// ---------------------------------------------------------------------------
// Whatever parses is well formed
// ---------------------------------------------------------------------------

proof fn lemma_parse_block_wf(s: Seq<char>)
    ensures
        parse_block(s) matches Some(p) ==> block_wf(p.0),
{
}

pub proof fn lemma_parse_blocks_wf(s: Seq<char>)
    ensures
        parse_blocks(s) matches Some(p) ==> forall|i: int|
            0 <= i < p.0.len() ==> block_wf(#[trigger] p.0[i]),
    decreases s.len(),
{
    if s.len() != 0 && s[0] != 'E' {
        lemma_parse_block_shrinks(s);
        lemma_parse_block_wf(s);
        if let Some((b, r)) = parse_block(s) {
            lemma_parse_blocks_wf(r);
        }
    }
}

pub proof fn lemma_parse_turn_wf(s: Seq<char>)
    ensures
        parse_turn(s) matches Some(p) ==> turn_wf(p.0),
{
    if s.len() >= 2 {
        lemma_parse_blocks_wf(s.skip(2));
    }
}

pub proof fn lemma_parse_turns_wf(s: Seq<char>)
    ensures
        parse_turns(s) matches Some(p) ==> forall|i: int|
            0 <= i < p.0.len() ==> turn_wf(#[trigger] p.0[i]),
    decreases s.len(),
{
    if s.len() != 0 && s[0] != 'E' {
        lemma_parse_turn_shrinks(s);
        lemma_parse_turn_wf(s);
        if let Some((t, r)) = parse_turn(s) {
            lemma_parse_turns_wf(r);
        }
    }
}

pub proof fn lemma_parse_session_wf(s: Seq<char>)
    ensures
        parse_session(s) matches Some(p) ==> session_wf(p.0),
{
    if s.len() > 0 && s[0] == 'S' {
        if let Some((w, r)) = parse_num(s.drop_first()) {
            lemma_parse_turns_wf(r);
        }
    }
}

// ---------------------------------------------------------------------------
// Executable serializer
// ---------------------------------------------------------------------------

/// The digit character of a value below ten.
fn char_of_digit(d: usize) -> (c: char)
    requires
        d < 10,
    ensures
        c == digit_char(d as nat),
{
    if d == 0 {
        '0'
    } else if d == 1 {
        '1'
    } else if d == 2 {
        '2'
    } else if d == 3 {
        '3'
    } else if d == 4 {
        '4'
    } else if d == 5 {
        '5'
    } else if d == 6 {
        '6'
    } else if d == 7 {
        '7'
    } else if d == 8 {
        '8'
    } else {
        '9'
    }
}

/// The value of a digit character, if it is one.
fn digit_of_char(c: char) -> (r: Option<usize>)
    ensures
        match r {
            Some(d) => d < 10 && d as nat == digit_val(c),
            None => !is_digit_char(c),
        },
{
    if c == '0' {
        Some(0)
    } else if c == '1' {
        Some(1)
    } else if c == '2' {
        Some(2)
    } else if c == '3' {
        Some(3)
    } else if c == '4' {
        Some(4)
    } else if c == '5' {
        Some(5)
    } else if c == '6' {
        Some(6)
    } else if c == '7' {
        Some(7)
    } else if c == '8' {
        Some(8)
    } else if c == '9' {
        Some(9)
    } else {
        None
    }
}

/// Append every character of `src` to `out`.
pub fn push_all(out: &mut Vec<char>, src: &Vec<char>)
    ensures
        final(out)@ == old(out)@ + src@,
{
    let mut k: usize = 0;
    while k < src.len()
        invariant
            k <= src.len(),
            out@ == old(out)@ + src@.take(k as int),
        decreases src.len() - k,
    {
        out.push(src[k]);
        k = k + 1;
        proof {
            assert(old(out)@ + src@.take(k as int) =~= (old(out)@ + src@.take(k as int - 1)).push(
                src@[k as int - 1],
            ));
        }
    }
    proof {
        assert(src@.take(src.len() as int) =~= src@);
    }
}

/// Append the decimal digits of `n`.
fn write_digits(n: usize, out: &mut Vec<char>)
    ensures
        final(out)@ == old(out)@ + dig_seq(n as nat),
    decreases n,
{
    if n < 10 {
        let c = char_of_digit(n);
        out.push(c);
        proof {
            assert(old(out)@ + dig_seq(n as nat) =~= old(out)@.push(digit_char(n as nat)));
        }
    } else {
        write_digits(n / 10, out);
        let c = char_of_digit(n % 10);
        out.push(c);
        proof {
            assert(old(out)@ + dig_seq(n as nat) =~= (old(out)@ + dig_seq((n / 10) as nat)).push(
                digit_char((n % 10) as nat),
            ));
        }
    }
}

/// Append the encoding of a number.
pub(crate) fn write_num(n: usize, out: &mut Vec<char>)
    ensures
        final(out)@ == old(out)@ + enc_num(n as nat),
{
    write_digits(n, out);
    out.push(':');
    proof {
        assert(old(out)@ + enc_num(n as nat) =~= (old(out)@ + dig_seq(n as nat)).push(':'));
    }
}

/// Append the encoding of a character string.
fn write_str(v: &Vec<char>, out: &mut Vec<char>)
    ensures
        final(out)@ == old(out)@ + enc_str(v@),
{
    write_num(v.len(), out);
    push_all(out, v);
    proof {
        assert(old(out)@ + enc_str(v@) =~= (old(out)@ + enc_num(v@.len())) + v@);
    }
}

/// Append the encoding of one block.
fn write_block(b: &ContentBlock, out: &mut Vec<char>)
    ensures
        final(out)@ == old(out)@ + enc_block(b@),
{
    match b {
        ContentBlock::Text { text } => {
            out.push('t');
            write_str(text, out);
            proof {
                assert(old(out)@ + enc_block(b@) =~= (old(out)@.push('t')) + enc_str(text@));
            }
        },
        ContentBlock::Thought { text } => {
            out.push('h');
            write_str(text, out);
            proof {
                assert(old(out)@ + enc_block(b@) =~= (old(out)@.push('h')) + enc_str(text@));
            }
        },
        ContentBlock::FunctionCall { name, arguments } => {
            out.push('c');
            write_str(name, out);
            write_str(arguments, out);
            proof {
                assert(old(out)@ + enc_block(b@) =~= ((old(out)@.push('c')) + enc_str(name@))
                    + enc_str(arguments@));
            }
        },
        ContentBlock::FunctionResponse { name, result } => {
            out.push('r');
            write_str(name, out);
            write_str(result, out);
            proof {
                assert(old(out)@ + enc_block(b@) =~= ((old(out)@.push('r')) + enc_str(name@))
                    + enc_str(result@));
            }
        },
    }
}

/// Append the encodings of the blocks from index `i` on, then 'E'.
pub fn write_blocks(bs: &Vec<ContentBlock>, i: usize, out: &mut Vec<char>)
    requires
        i <= bs.len(),
    ensures
        final(out)@ == old(out)@ + enc_blocks(blocks_view(bs@).skip(i as int)),
    decreases bs.len() - i,
{
    let ghost bv = blocks_view(bs@);
    if i == bs.len() {
        out.push('E');
        proof {
            assert(bv.skip(i as int) =~= Seq::<BlockView>::empty());
            assert(old(out)@ + enc_blocks(bv.skip(i as int)) =~= old(out)@.push('E'));
        }
    } else {
        write_block(&bs[i], out);
        write_blocks(bs, i + 1, out);
        proof {
            assert(bv.skip(i as int)[0] == bv[i as int]);
            assert(bv.skip(i as int).drop_first() =~= bv.skip(i as int + 1));
            assert(old(out)@ + enc_blocks(bv.skip(i as int)) =~= (old(out)@ + enc_block(bs@[
                i as int]@)) + enc_blocks(bv.skip(i as int + 1)));
        }
    }
}

/// Append the encoding of one turn.
pub fn write_turn(t: &Turn, out: &mut Vec<char>)
    ensures
        final(out)@ == old(out)@ + enc_turn(t@),
{
    out.push('T');
    match t.role {
        Role::User => out.push('u'),
        Role::Model => out.push('m'),
    }
    write_blocks(&t.blocks, 0, out);
    proof {
        assert(blocks_view(t.blocks@).skip(0) =~= t@.blocks);
        assert(old(out)@ + enc_turn(t@) =~= (old(out)@.push('T').push(role_char(t.role)))
            + enc_blocks(t@.blocks));
    }
}

/// Append the encodings of the turns from index `i` on, then 'E'.
pub fn write_turns(ts: &Vec<Turn>, i: usize, out: &mut Vec<char>)
    requires
        i <= ts.len(),
    ensures
        final(out)@ == old(out)@ + enc_turns(turns_view(ts@).skip(i as int)),
    decreases ts.len() - i,
{
    let ghost tv = turns_view(ts@);
    if i == ts.len() {
        out.push('E');
        proof {
            assert(tv.skip(i as int) =~= Seq::<TurnView>::empty());
            assert(old(out)@ + enc_turns(tv.skip(i as int)) =~= old(out)@.push('E'));
        }
    } else {
        write_turn(&ts[i], out);
        write_turns(ts, i + 1, out);
        proof {
            assert(tv.skip(i as int)[0] == tv[i as int]);
            assert(tv.skip(i as int).drop_first() =~= tv.skip(i as int + 1));
            assert(old(out)@ + enc_turns(tv.skip(i as int)) =~= (old(out)@ + enc_turn(ts@[
                i as int]@)) + enc_turns(tv.skip(i as int + 1)));
        }
    }
}

// ---------------------------------------------------------------------------
// Executable parser
// ---------------------------------------------------------------------------

/// Read a number's digits into an accumulator up to the ':' terminator.
fn read_num_acc(v: &Vec<char>, i: usize, acc: usize) -> (r: Option<(usize, usize)>)
    requires
        i <= v.len(),
    ensures
        match r {
            Some(p) => i < p.1 && p.1 <= v.len() && parse_num_acc(v@.skip(i as int), acc as nat)
                == Some((p.0 as nat, v@.skip(p.1 as int))),
            None => parse_num_acc(v@.skip(i as int), acc as nat) is None || (parse_num_acc(
                v@.skip(i as int),
                acc as nat,
            ) matches Some(q) && q.0 > usize::MAX as nat),
        },
    decreases v.len() - i,
{
    if i == v.len() {
        None
    } else {
        let c = v[i];
        proof {
            assert(v@.skip(i as int)[0] == v@[i as int]);
            assert(v@.skip(i as int).drop_first() =~= v@.skip(i as int + 1));
        }
        if c == ':' {
            Some((acc, i + 1))
        } else {
            match digit_of_char(c) {
                Some(d) => {
                    let ghost acc2 = acc as nat * 10 + d as nat;
                    match acc.checked_mul(10) {
                        Some(m) => match m.checked_add(d) {
                            Some(a2) => read_num_acc(v, i + 1, a2),
                            None => {
                                proof {
                                    lemma_parse_num_acc_min(v@.skip(i as int + 1), acc2);
                                }
                                None
                            },
                        },
                        None => {
                            proof {
                                lemma_parse_num_acc_min(v@.skip(i as int + 1), acc2);
                            }
                            None
                        },
                    }
                },
                None => None,
            }
        }
    }
}

/// Read a number: at least one digit, then ':'.
pub(crate) fn read_num(v: &Vec<char>, i: usize) -> (r: Option<(usize, usize)>)
    requires
        i <= v.len(),
    ensures
        match r {
            Some(p) => i < p.1 && p.1 <= v.len() && parse_num(v@.skip(i as int)) == Some(
                (p.0 as nat, v@.skip(p.1 as int)),
            ),
            None => parse_num(v@.skip(i as int)) is None,
        },
{
    if i < v.len() {
        proof {
            assert(v@.skip(i as int)[0] == v@[i as int]);
        }
        match digit_of_char(v[i]) {
            Some(_) => read_num_acc(v, i, 0),
            None => None,
        }
    } else {
        None
    }
}

/// Read a length-prefixed character string.
fn read_str(v: &Vec<char>, i: usize) -> (r: Option<(Vec<char>, usize)>)
    requires
        i <= v.len(),
    ensures
        match r {
            Some(p) => i < p.1 && p.1 <= v.len() && parse_str(v@.skip(i as int)) == Some(
                (p.0@, v@.skip(p.1 as int)),
            ),
            None => parse_str(v@.skip(i as int)) is None,
        },
{
    match read_num(v, i) {
        Some((n, j)) => {
            proof {
                assert(v@.skip(j as int).len() == v@.len() - j);
            }
            if n <= v.len() - j {
                let mut out: Vec<char> = Vec::new();
                let mut k: usize = 0;
                while k < n
                    invariant
                        j + n <= v.len(),
                        k <= n,
                        out@ == v@.subrange(j as int, j as int + k as int),
                    decreases n - k,
                {
                    out.push(v[j + k]);
                    k = k + 1;
                    proof {
                        assert(v@.subrange(j as int, j as int + k as int) =~= v@.subrange(
                            j as int,
                            j as int + k as int - 1,
                        ).push(v@[j as int + k as int - 1]));
                    }
                }
                proof {
                    assert(v@.skip(j as int).take(n as int) =~= v@.subrange(
                        j as int,
                        j as int + n as int,
                    ));
                    assert(v@.skip(j as int).skip(n as int) =~= v@.skip(j as int + n as int));
                }
                Some((out, j + n))
            } else {
                None
            }
        },
        None => None,
    }
}

/// Read one content block.
fn read_block(v: &Vec<char>, i: usize) -> (r: Option<(ContentBlock, usize)>)
    requires
        i <= v.len(),
    ensures
        match r {
            Some(p) => i < p.1 && p.1 <= v.len() && parse_block(v@.skip(i as int)) == Some(
                (p.0@, v@.skip(p.1 as int)),
            ),
            None => parse_block(v@.skip(i as int)) is None,
        },
{
    if i == v.len() {
        None
    } else {
        let c = v[i];
        proof {
            assert(v@.skip(i as int)[0] == v@[i as int]);
            assert(v@.skip(i as int).drop_first() =~= v@.skip(i as int + 1));
        }
        if c == 't' {
            match read_str(v, i + 1) {
                Some((text, j)) => Some((ContentBlock::Text { text }, j)),
                None => None,
            }
        } else if c == 'h' {
            match read_str(v, i + 1) {
                Some((text, j)) => Some((ContentBlock::Thought { text }, j)),
                None => None,
            }
        } else if c == 'c' {
            match read_str(v, i + 1) {
                Some((name, j)) => if name.len() > 0 {
                    match read_str(v, j) {
                        Some((arguments, j2)) => Some(
                            (ContentBlock::FunctionCall { name, arguments }, j2),
                        ),
                        None => None,
                    }
                } else {
                    None
                },
                None => None,
            }
        } else if c == 'r' {
            match read_str(v, i + 1) {
                Some((name, j)) => if name.len() > 0 {
                    match read_str(v, j) {
                        Some((result, j2)) => Some(
                            (ContentBlock::FunctionResponse { name, result }, j2),
                        ),
                        None => None,
                    }
                } else {
                    None
                },
                None => None,
            }
        } else {
            None
        }
    }
}

/// Read blocks up to the 'E' terminator.
pub fn read_blocks(v: &Vec<char>, i: usize) -> (r: Option<(Vec<ContentBlock>, usize)>)
    requires
        i <= v.len(),
    ensures
        match r {
            Some(p) => i < p.1 && p.1 <= v.len() && parse_blocks(v@.skip(i as int)) == Some(
                (blocks_view(p.0@), v@.skip(p.1 as int)),
            ),
            None => parse_blocks(v@.skip(i as int)) is None,
        },
    decreases v.len() - i,
{
    if i == v.len() {
        None
    } else {
        proof {
            assert(v@.skip(i as int)[0] == v@[i as int]);
            assert(v@.skip(i as int).drop_first() =~= v@.skip(i as int + 1));
        }
        if v[i] == 'E' {
            let out: Vec<ContentBlock> = Vec::new();
            proof {
                assert(blocks_view(out@) =~= Seq::<BlockView>::empty());
            }
            Some((out, i + 1))
        } else {
            match read_block(v, i) {
                Some((b, j)) => match read_blocks(v, j) {
                    Some((bs, j2)) => {
                        let mut bs = bs;
                        let ghost obs = bs@;
                        bs.insert(0, b);
                        proof {
                            assert(bs@ =~= seq![b] + obs);
                            assert(blocks_view(bs@) =~= seq![b@] + blocks_view(obs));
                        }
                        Some((bs, j2))
                    },
                    None => None,
                },
                None => None,
            }
        }
    }
}

/// Read one turn.
pub fn read_turn(v: &Vec<char>, i: usize) -> (r: Option<(Turn, usize)>)
    requires
        i <= v.len(),
    ensures
        match r {
            Some(p) => i < p.1 && p.1 <= v.len() && parse_turn(v@.skip(i as int)) == Some(
                (p.0@, v@.skip(p.1 as int)),
            ),
            None => parse_turn(v@.skip(i as int)) is None,
        },
{
    if v.len() - i >= 2 {
        let c0 = v[i];
        let c1 = v[i + 1];
        proof {
            assert(v@.skip(i as int)[0] == v@[i as int]);
            assert(v@.skip(i as int)[1] == v@[i as int + 1]);
            assert(v@.skip(i as int).skip(2) =~= v@.skip(i as int + 2));
        }
        if c0 == 'T' && (c1 == 'u' || c1 == 'm') {
            let role = if c1 == 'u' {
                Role::User
            } else {
                Role::Model
            };
            match read_blocks(v, i + 2) {
                Some((bs, j)) => if bs.len() > 0 {
                    let t = Turn { role, blocks: bs };
                    Some((t, j))
                } else {
                    None
                },
                None => None,
            }
        } else {
            None
        }
    } else {
        None
    }
}

/// Read turns up to the 'E' terminator.
pub fn read_turns(v: &Vec<char>, i: usize) -> (r: Option<(Vec<Turn>, usize)>)
    requires
        i <= v.len(),
    ensures
        match r {
            Some(p) => i < p.1 && p.1 <= v.len() && parse_turns(v@.skip(i as int)) == Some(
                (turns_view(p.0@), v@.skip(p.1 as int)),
            ),
            None => parse_turns(v@.skip(i as int)) is None,
        },
    decreases v.len() - i,
{
    if i == v.len() {
        None
    } else {
        proof {
            assert(v@.skip(i as int)[0] == v@[i as int]);
            assert(v@.skip(i as int).drop_first() =~= v@.skip(i as int + 1));
        }
        if v[i] == 'E' {
            let out: Vec<Turn> = Vec::new();
            proof {
                assert(turns_view(out@) =~= Seq::<TurnView>::empty());
            }
            Some((out, i + 1))
        } else {
            match read_turn(v, i) {
                Some((t, j)) => match read_turns(v, j) {
                    Some((ts, j2)) => {
                        let mut ts = ts;
                        let ghost ots = ts@;
                        ts.insert(0, t);
                        proof {
                            assert(ts@ =~= seq![t] + ots);
                            assert(turns_view(ts@) =~= seq![t@] + turns_view(ots));
                        }
                        Some((ts, j2))
                    },
                    None => None,
                },
                None => None,
            }
        }
    }
}

} // verus!

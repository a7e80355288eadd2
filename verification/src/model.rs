//! The data model: roles, content blocks, turns, sessions, and their
//! mathematical views, together with well-formedness and the display-text
//! specification.

use vstd::prelude::*;

verus! {

/// Who a turn is attributed to.
#[derive(Clone, Copy, PartialEq, Eq, Structural, Debug)]
pub enum Role {
    User,
    Model,
}

/// One typed unit of turn content. Text is held as its characters.
pub enum ContentBlock {
    /// Plain, user-visible text.
    Text { text: Vec<char> },
    /// Model-internal reasoning; never part of the user-visible text.
    Thought { text: Vec<char> },
    /// A pending tool call; `arguments` is an opaque payload.
    FunctionCall { name: Vec<char>, arguments: Vec<char> },
    /// The result a tool handed back; `result` is an opaque payload.
    FunctionResponse { name: Vec<char>, result: Vec<char> },
}

/// The mathematical value of a content block.
pub enum BlockView {
    Text { text: Seq<char> },
    Thought { text: Seq<char> },
    FunctionCall { name: Seq<char>, arguments: Seq<char> },
    FunctionResponse { name: Seq<char>, result: Seq<char> },
}

impl View for ContentBlock {
    type V = BlockView;

    open spec fn view(&self) -> BlockView {
        match self {
            ContentBlock::Text { text } => BlockView::Text { text: text@ },
            ContentBlock::Thought { text } => BlockView::Thought { text: text@ },
            ContentBlock::FunctionCall { name, arguments } => BlockView::FunctionCall {
                name: name@,
                arguments: arguments@,
            },
            ContentBlock::FunctionResponse { name, result } => BlockView::FunctionResponse {
                name: name@,
                result: result@,
            },
        }
    }
}

/// One message of the conversation: a role and an ordered list of blocks.
pub struct Turn {
    pub role: Role,
    pub blocks: Vec<ContentBlock>,
}

/// The mathematical value of a turn.
#[verifier::ext_equal]
pub struct TurnView {
    pub role: Role,
    pub blocks: Seq<BlockView>,
}

/// The view of a sequence of content blocks.
pub open spec fn blocks_view(blocks: Seq<ContentBlock>) -> Seq<BlockView> {
    blocks.map_values(|b: ContentBlock| b@)
}

impl View for Turn {
    type V = TurnView;

    open spec fn view(&self) -> TurnView {
        TurnView { role: self.role, blocks: blocks_view(self.blocks@) }
    }
}

/// The mathematical value of a session: a retention capacity and the
/// retained turns, oldest first.
#[verifier::ext_equal]
pub struct SessionView {
    pub window: nat,
    pub turns: Seq<TurnView>,
}

/// The view of a sequence of turns.
pub open spec fn turns_view(turns: Seq<Turn>) -> Seq<TurnView> {
    turns.map_values(|t: Turn| t@)
}

/// A block is well formed when a function call or response carries a
/// non-empty name.
pub open spec fn block_wf(b: BlockView) -> bool {
    match b {
        BlockView::FunctionCall { name, .. } => name.len() > 0,
        BlockView::FunctionResponse { name, .. } => name.len() > 0,
        _ => true,
    }
}

/// A turn is well formed when it has at least one block and every block is
/// well formed.
pub open spec fn turn_wf(t: TurnView) -> bool {
    &&& t.blocks.len() > 0
    &&& forall|i: int| 0 <= i < t.blocks.len() ==> block_wf(#[trigger] t.blocks[i])
}

/// A session is well formed when its capacity is positive, it retains no
/// more turns than the capacity, and every retained turn is well formed.
pub open spec fn session_wf(sv: SessionView) -> bool {
    &&& sv.window >= 1
    &&& sv.turns.len() <= sv.window
    &&& forall|i: int| 0 <= i < sv.turns.len() ==> turn_wf(#[trigger] sv.turns[i])
}

/// Appending one turn, then evicting oldest-first until the capacity holds.
pub open spec fn append_turn_model(sv: SessionView, t: TurnView) -> SessionView {
    let ts = sv.turns.push(t);
    SessionView {
        window: sv.window,
        turns: if ts.len() <= sv.window {
            ts
        } else {
            ts.skip(ts.len() - sv.window)
        },
    }
}

/// A user turn holding a single text block.
pub open spec fn user_text_turn(text: Seq<char>) -> TurnView {
    TurnView { role: Role::User, blocks: seq![BlockView::Text { text }] }
}

/// A model turn holding a single text block.
pub open spec fn model_text_turn(text: Seq<char>) -> TurnView {
    TurnView { role: Role::Model, blocks: seq![BlockView::Text { text }] }
}

/// Whether some block of the sequence is plain text.
pub open spec fn has_text(blocks: Seq<BlockView>) -> bool {
    exists|i: int| 0 <= i < blocks.len() && blocks[i] is Text
}

/// The user-visible text of a sequence of blocks: the text of every `Text`
/// block in order, joined by `sep`. Thoughts, calls and responses
/// contribute nothing.
pub open spec fn display_of(blocks: Seq<BlockView>, sep: Seq<char>) -> Seq<char>
    decreases blocks.len(),
{
    if blocks.len() == 0 {
        Seq::empty()
    } else {
        let prefix = display_of(blocks.drop_last(), sep);
        match blocks.last() {
            BlockView::Text { text } => if has_text(blocks.drop_last()) {
                prefix + sep + text
            } else {
                text
            },
            _ => prefix,
        }
    }
}

/// Blocks without a `Text` block display as the empty string.
pub proof fn lemma_display_no_text(blocks: Seq<BlockView>, sep: Seq<char>)
    requires
        !has_text(blocks),
    ensures
        display_of(blocks, sep) == Seq::<char>::empty(),
    decreases blocks.len(),
{
    if blocks.len() > 0 {
        if has_text(blocks.drop_last()) {
            let w = choose|w: int|
                0 <= w < blocks.drop_last().len() && blocks.drop_last()[w] is Text;
            assert(blocks[w] is Text);
            assert(has_text(blocks));
        }
        lemma_display_no_text(blocks.drop_last(), sep);
        if blocks.last() is Text {
            assert(blocks[blocks.len() - 1] is Text);
            assert(has_text(blocks));
        }
    }
}

} // verus!

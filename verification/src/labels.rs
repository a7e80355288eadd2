//! The status labeler: a fixed mapping from known function names to short
//! present-tense phrases, and the pending-label summary of a turn — every
//! label of a pending function call, duplicates removed, sorted
//! lexicographically.
//!
//! Each label carries a fixed id, and the ids are assigned in the
//! lexicographic order of the label texts, which the lemmas below prove; the
//! ascending-id order of the summary is therefore the lexicographic order of
//! the labels.

use vstd::prelude::*;

use crate::model::{BlockView, ContentBlock, blocks_view};
use crate::text::chars_of_str;
use vstd::pervasive::VecAdditionalExecFns;
use vstd::string::StrSliceExecFns;

verus! {

/// The label id of a function name: each known name maps to its fixed
/// status phrase, every other name to the generic placeholder (id 5,
/// "Magic!").
pub open spec fn label_id(name: Seq<char>) -> nat {
    if name == "get_room_availability"@ {
        0
    } else if name == "train_seats_available"@ {
        1
    } else if name == "get_about_place"@ {
        2
    } else if name == "flight_booking_link"@ {
        3
    } else if name == "get_hotel_details"@ {
        4
    } else if name == "get_hotel_description"@ {
        6
    } else if name == "flight_booking_details"@ {
        7
    } else if name == "flights_between"@ {
        8
    } else if name == "get_hotel_by_coordinates"@ {
        9
    } else if name == "trains_between"@ {
        10
    } else {
        5
    }
}

/// The status phrase of a label id.
pub open spec fn label_text(id: nat) -> Seq<char> {
    if id == 0 {
        "Checking available rooms"@
    } else if id == 1 {
        "Checking seats available"@
    } else if id == 2 {
        "Finding best scenery"@
    } else if id == 3 {
        "Getting flight booking link"@
    } else if id == 4 {
        "Getting hotel booking link"@
    } else if id == 5 {
        "Magic!"@
    } else if id == 6 {
        "Reading about a hotel"@
    } else if id == 7 {
        "Reading flight details"@
    } else if id == 8 {
        "Searching flights"@
    } else if id == 9 {
        "Searching hotels"@
    } else {
        "Searching trains"@
    }
}

/// Whether the characters equal the string slice's characters.
fn vec_eq_str(v: &Vec<char>, s: &str) -> (b: bool)
    ensures
        b == (v@ == s@),
{
    let n = s.unicode_len();
    if v.len() != n {
        return false;
    }
    let mut k: usize = 0;
    while k < n
        invariant
            k <= n,
            n == v.len(),
            v@.len() == n,
            s@.len() == n,
            forall|j: int| 0 <= j < k ==> v@[j] == s@[j],
        decreases n - k,
    {
        if v[k] != s.get_char(k) {
            return false;
        }
        k = k + 1;
    }
    proof {
        assert(v@ =~= s@);
    }
    true
}

/// The label id of a function-call name.
pub fn label_id_of(name: &Vec<char>) -> (id: u8)
    ensures
        id < 11,
        id as nat == label_id(name@),
{
    if vec_eq_str(name, "get_room_availability") {
        0
    } else if vec_eq_str(name, "train_seats_available") {
        1
    } else if vec_eq_str(name, "get_about_place") {
        2
    } else if vec_eq_str(name, "flight_booking_link") {
        3
    } else if vec_eq_str(name, "get_hotel_details") {
        4
    } else if vec_eq_str(name, "get_hotel_description") {
        6
    } else if vec_eq_str(name, "flight_booking_details") {
        7
    } else if vec_eq_str(name, "flights_between") {
        8
    } else if vec_eq_str(name, "get_hotel_by_coordinates") {
        9
    } else if vec_eq_str(name, "trains_between") {
        10
    } else {
        5
    }
}

/// The status phrase of a label id, as characters.
pub fn label_chars(id: u8) -> (r: Vec<char>)
    requires
        id < 11,
    ensures
        r@ == label_text(id as nat),
{
    if id == 0 {
        chars_of_str("Checking available rooms")
    } else if id == 1 {
        chars_of_str("Checking seats available")
    } else if id == 2 {
        chars_of_str("Finding best scenery")
    } else if id == 3 {
        chars_of_str("Getting flight booking link")
    } else if id == 4 {
        chars_of_str("Getting hotel booking link")
    } else if id == 5 {
        chars_of_str("Magic!")
    } else if id == 6 {
        chars_of_str("Reading about a hotel")
    } else if id == 7 {
        chars_of_str("Reading flight details")
    } else if id == 8 {
        chars_of_str("Searching flights")
    } else if id == 9 {
        chars_of_str("Searching hotels")
    } else {
        chars_of_str("Searching trains")
    }
}

/// The set of label ids of the function calls among the blocks.
pub open spec fn call_ids(bs: Seq<BlockView>) -> Set<nat>
    decreases bs.len(),
{
    if bs.len() == 0 {
        Set::empty()
    } else {
        let rest = call_ids(bs.drop_last());
        match bs.last() {
            BlockView::FunctionCall { name, .. } => rest.insert(label_id(name)),
            _ => rest,
        }
    }
}

/// The ids below `k` that the set holds, in ascending order.
pub open spec fn id_filter(k: nat, s: Set<nat>) -> Seq<nat>
    decreases k,
{
    if k == 0 {
        Seq::empty()
    } else {
        id_filter((k - 1) as nat, s) + if s.contains((k - 1) as nat) {
            seq![(k - 1) as nat]
        } else {
            Seq::empty()
        }
    }
}

/// The pending status labels of a turn's blocks: the label of every pending
/// function call, each exactly once, in ascending id order.
pub open spec fn pending_of(bs: Seq<BlockView>) -> Seq<Seq<char>> {
    id_filter(11, call_ids(bs)).map_values(|i: nat| label_text(i))
}

/// The label ids pending among the blocks, ascending and duplicate-free.
pub fn pending_ids(blocks: &Vec<ContentBlock>) -> (ids: Vec<u8>)
    ensures
        ids@.map_values(|x: u8| x as nat) == id_filter(11, call_ids(blocks_view(blocks@))),
        forall|j: int| 0 <= j < ids@.len() ==> ids@[j] < 11,
{
    let ghost bv = blocks_view(blocks@);
    let mut present: Vec<bool> = Vec::new();
    let mut k: usize = 0;
    while k < 11
        invariant
            k <= 11,
            present.len() == k,
            forall|j: int| 0 <= j < k ==> present@[j] == false,
        decreases 11 - k,
    {
        present.push(false);
        k = k + 1;
    }
    let mut i: usize = 0;
    while i < blocks.len()
        invariant
            i <= blocks.len(),
            present.len() == 11,
            bv == blocks_view(blocks@),
            forall|id: int|
                0 <= id < 11 ==> (present@[id] == call_ids(bv.take(i as int)).contains(id as nat)),
        decreases blocks.len() - i,
    {
        match &blocks[i] {
            ContentBlock::FunctionCall { name, .. } => {
                let id = label_id_of(name);
                present.set(id as usize, true);
            },
            _ => {},
        }
        i = i + 1;
        proof {
            assert(bv.take(i as int).drop_last() =~= bv.take(i as int - 1));
            assert(bv.take(i as int).last() == blocks@[i as int - 1]@);
        }
    }
    proof {
        assert(bv.take(blocks.len() as int) =~= bv);
    }
    let mut ids: Vec<u8> = Vec::new();
    let mut id: usize = 0;
    while id < 11
        invariant
            id <= 11,
            present.len() == 11,
            forall|j: int| 0 <= j < 11 ==> (present@[j] == call_ids(bv).contains(j as nat)),
            ids@.map_values(|x: u8| x as nat) == id_filter(id as nat, call_ids(bv)),
            forall|j: int| 0 <= j < ids@.len() ==> ids@[j] < 11,
        decreases 11 - id,
    {
        if present[id] {
            ids.push(id as u8);
        }
        id = id + 1;
        proof {
            assert(ids@.map_values(|x: u8| x as nat) =~= id_filter(id as nat, call_ids(bv)));
        }
    }
    ids
}

// ---------------------------------------------------------------------------
// The summary is sorted and duplicate-free
// ---------------------------------------------------------------------------

/// Strict lexicographic order on character sequences, by code point; a
/// proper prefix comes first.
pub open spec fn lex_lt(a: Seq<char>, b: Seq<char>) -> bool
    decreases a.len(),
{
    if b.len() == 0 {
        false
    } else if a.len() == 0 {
        true
    } else if (a[0] as u32) < (b[0] as u32) {
        true
    } else if (b[0] as u32) < (a[0] as u32) {
        false
    } else {
        lex_lt(a.drop_first(), b.drop_first())
    }
}

/// Sequences that first differ at `p`, where `a` is below `b`, are ordered.
proof fn lemma_lex_lt_at(a: Seq<char>, b: Seq<char>, p: int)
    requires
        0 <= p < a.len(),
        p < b.len(),
        forall|j: int| 0 <= j < p ==> a[j] == b[j],
        (a[p] as u32) < (b[p] as u32),
    ensures
        lex_lt(a, b),
    decreases p,
{
    if p > 0 {
        assert(a[0] == b[0]);
        lemma_lex_lt_at(a.drop_first(), b.drop_first(), p - 1);
    }
}

/// Lexicographic order is transitive.
proof fn lemma_lex_lt_trans(a: Seq<char>, b: Seq<char>, c: Seq<char>)
    requires
        lex_lt(a, b),
        lex_lt(b, c),
    ensures
        lex_lt(a, c),
    decreases a.len(),
{
    if a.len() > 0 {
        if !((a[0] as u32) < (b[0] as u32)) && !((b[0] as u32) < (c[0] as u32)) {
            lemma_lex_lt_trans(a.drop_first(), b.drop_first(), c.drop_first());
        }
    }
}

/// Ordered sequences are distinct.
proof fn lemma_lex_lt_ne(a: Seq<char>, b: Seq<char>)
    requires
        lex_lt(a, b),
    ensures
        a != b,
    decreases a.len(),
{
    if a.len() > 0 && b.len() > 0 && !((a[0] as u32) < (b[0] as u32)) && !((b[0] as u32) < (a[0]
        as u32)) {
        lemma_lex_lt_ne(a.drop_first(), b.drop_first());
        if a == b {
            assert(a.drop_first() == b.drop_first());
        }
    }
}

/// Label ids are assigned in the lexicographic order of the label texts.
pub proof fn lemma_label_text_mono(i: nat, j: nat)
    requires
        i < j,
        j < 11,
    ensures
        lex_lt(label_text(i), label_text(j)),
    decreases j - i,
{
    if j == i + 1 {
        if i == 0 {
            reveal_strlit("Checking available rooms");
            reveal_strlit("Checking seats available");
            lemma_lex_lt_at("Checking available rooms"@, "Checking seats available"@, 9);
        } else if i == 1 {
            reveal_strlit("Checking seats available");
            reveal_strlit("Finding best scenery");
            lemma_lex_lt_at("Checking seats available"@, "Finding best scenery"@, 0);
        } else if i == 2 {
            reveal_strlit("Finding best scenery");
            reveal_strlit("Getting flight booking link");
            lemma_lex_lt_at("Finding best scenery"@, "Getting flight booking link"@, 0);
        } else if i == 3 {
            reveal_strlit("Getting flight booking link");
            reveal_strlit("Getting hotel booking link");
            lemma_lex_lt_at("Getting flight booking link"@, "Getting hotel booking link"@, 8);
        } else if i == 4 {
            reveal_strlit("Getting hotel booking link");
            reveal_strlit("Magic!");
            lemma_lex_lt_at("Getting hotel booking link"@, "Magic!"@, 0);
        } else if i == 5 {
            reveal_strlit("Magic!");
            reveal_strlit("Reading about a hotel");
            lemma_lex_lt_at("Magic!"@, "Reading about a hotel"@, 0);
        } else if i == 6 {
            reveal_strlit("Reading about a hotel");
            reveal_strlit("Reading flight details");
            lemma_lex_lt_at("Reading about a hotel"@, "Reading flight details"@, 8);
        } else if i == 7 {
            reveal_strlit("Reading flight details");
            reveal_strlit("Searching flights");
            lemma_lex_lt_at("Reading flight details"@, "Searching flights"@, 0);
        } else if i == 8 {
            reveal_strlit("Searching flights");
            reveal_strlit("Searching hotels");
            lemma_lex_lt_at("Searching flights"@, "Searching hotels"@, 10);
        } else {
            reveal_strlit("Searching hotels");
            reveal_strlit("Searching trains");
            lemma_lex_lt_at("Searching hotels"@, "Searching trains"@, 10);
        }
    } else {
        lemma_label_text_mono(i, (j - 1) as nat);
        lemma_label_text_mono((j - 1) as nat, j);
        lemma_lex_lt_trans(label_text(i), label_text((j - 1) as nat), label_text(j));
    }
}

/// The filtered ids are below the bound and strictly ascending.
proof fn lemma_id_filter_elems(k: nat, s: Set<nat>)
    ensures
        forall|j: int| 0 <= j < id_filter(k, s).len() ==> id_filter(k, s)[j] < k,
        forall|j1: int, j2: int|
            0 <= j1 < j2 < id_filter(k, s).len() ==> id_filter(k, s)[j1] < id_filter(k, s)[j2],
    decreases k,
{
    if k > 0 {
        lemma_id_filter_elems((k - 1) as nat, s);
        let prev = id_filter((k - 1) as nat, s);
        let cur = id_filter(k, s);
        assert forall|j: int| 0 <= j < cur.len() implies cur[j] < k by {
            if j < prev.len() {
                assert(cur[j] == prev[j]);
            } else {
                assert(cur[j] == (k - 1) as nat);
            }
        }
        assert forall|j1: int, j2: int| 0 <= j1 < j2 < cur.len() implies cur[j1] < cur[j2] by {
            if j2 < prev.len() {
                assert(cur[j1] == prev[j1] && cur[j2] == prev[j2]);
            } else {
                assert(cur[j2] == (k - 1) as nat);
                assert(cur[j1] == prev[j1] && prev[j1] < (k - 1) as nat);
            }
        }
    }
}

/// The pending labels are strictly sorted lexicographically; in particular
/// no label appears twice, however often and in whatever order the calls
/// occur.
pub proof fn lemma_pending_labels_sorted(bs: Seq<BlockView>)
    ensures
        forall|k1: int, k2: int|
            0 <= k1 < k2 < pending_of(bs).len() ==> lex_lt(
                #[trigger] pending_of(bs)[k1],
                #[trigger] pending_of(bs)[k2],
            ),
        forall|k1: int, k2: int|
            0 <= k1 < k2 < pending_of(bs).len() ==> #[trigger] pending_of(bs)[k1]
                != #[trigger] pending_of(bs)[k2],
{
    let ids = id_filter(11, call_ids(bs));
    lemma_id_filter_elems(11, call_ids(bs));
    assert forall|k1: int, k2: int| 0 <= k1 < k2 < pending_of(bs).len() implies lex_lt(
        pending_of(bs)[k1],
        pending_of(bs)[k2],
    ) by {
        lemma_label_text_mono(ids[k1], ids[k2]);
    }
    assert forall|k1: int, k2: int| 0 <= k1 < k2 < pending_of(bs).len() implies pending_of(bs)[k1]
        != pending_of(bs)[k2] by {
        lemma_label_text_mono(ids[k1], ids[k2]);
        lemma_lex_lt_ne(label_text(ids[k1]), label_text(ids[k2]));
    }
}

/// The labels joined by a comma and a space.
pub open spec fn join_labels(xs: Seq<Seq<char>>) -> Seq<char>
    decreases xs.len(),
{
    if xs.len() == 0 {
        Seq::empty()
    } else if xs.len() == 1 {
        xs[0]
    } else {
        join_labels(xs.drop_last()) + ", "@ + xs.last()
    }
}

/// Whether some function-call block among the blocks carries label `x`.
pub open spec fn has_call_with_id(bs: Seq<BlockView>, x: nat) -> bool {
    exists|i: int|
        {
            &&& 0 <= i < bs.len()
            &&& (#[trigger] bs[i]) matches BlockView::FunctionCall { name, .. } && label_id(name)
                == x
        }
}

/// An id below the bound is among the filtered ids exactly when the set
/// holds it.
proof fn lemma_id_filter_members(k: nat, s: Set<nat>)
    ensures
        forall|x: nat| id_filter(k, s).contains(x) <==> (s.contains(x) && x < k),
    decreases k,
{
    if k > 0 {
        lemma_id_filter_members((k - 1) as nat, s);
        let prev = id_filter((k - 1) as nat, s);
        let cur = id_filter(k, s);
        assert forall|x: nat| cur.contains(x) implies (s.contains(x) && x < k) by {
            let i = choose|i: int| 0 <= i < cur.len() && cur[i] == x;
            if i < prev.len() {
                assert(prev[i] == x);
                assert(prev.contains(x));
            } else {
                assert(x == (k - 1) as nat);
            }
        }
        assert forall|x: nat| s.contains(x) && x < k implies cur.contains(x) by {
            if x < (k - 1) as nat {
                assert(prev.contains(x));
                let i = choose|i: int| 0 <= i < prev.len() && prev[i] == x;
                assert(cur[i] == x);
            } else {
                assert(x == (k - 1) as nat);
                assert(cur[prev.len() as int] == x);
            }
        }
    }
}

/// An id is among the call ids exactly when some function-call block
/// carries a name with that label.
proof fn lemma_call_ids_members(bs: Seq<BlockView>)
    ensures
        forall|x: nat| call_ids(bs).contains(x) <==> has_call_with_id(bs, x),
    decreases bs.len(),
{
    if bs.len() > 0 {
        lemma_call_ids_members(bs.drop_last());
        let rest = bs.drop_last();
        assert forall|x: nat| call_ids(bs).contains(x) implies has_call_with_id(bs, x) by {
            if has_call_with_id(rest, x) {
                let i = choose|i: int|
                    {
                        &&& 0 <= i < rest.len()
                        &&& (#[trigger] rest[i]) matches BlockView::FunctionCall { name, .. }
                            && label_id(name) == x
                    };
                assert(bs[i] == rest[i]);
                assert(has_call_with_id(bs, x));
            } else {
                assert(bs[bs.len() - 1] == bs.last());
                assert(has_call_with_id(bs, x));
            }
        }
        assert forall|x: nat| has_call_with_id(bs, x) implies call_ids(bs).contains(x) by {
            let i = choose|i: int|
                {
                    &&& 0 <= i < bs.len()
                    &&& (#[trigger] bs[i]) matches BlockView::FunctionCall { name, .. }
                        && label_id(name) == x
                };
            if i < bs.len() - 1 {
                assert(rest[i] == bs[i]);
                assert(has_call_with_id(rest, x));
            } else {
                assert(bs.last() == bs[i]);
            }
        }
    }
}

/// The summary is exact: a label stands in it exactly when some pending
/// function call among the blocks maps to that label.
pub proof fn lemma_pending_labels_exact(bs: Seq<BlockView>)
    ensures
        forall|x: nat|
            x < 11 ==> (pending_of(bs).contains(#[trigger] label_text(x)) <==> has_call_with_id(
                bs,
                x,
            )),
{
    lemma_id_filter_members(11, call_ids(bs));
    lemma_call_ids_members(bs);
    let ids = id_filter(11, call_ids(bs));
    lemma_id_filter_elems(11, call_ids(bs));
    assert forall|x: nat| x < 11 && pending_of(bs).contains(label_text(x)) implies call_ids(
        bs,
    ).contains(x) by {
        let i = choose|i: int| 0 <= i < pending_of(bs).len() && pending_of(bs)[i] == label_text(x);
        let y = ids[i];
        assert(pending_of(bs)[i] == label_text(y));
        if y != x {
            if y < x {
                lemma_label_text_mono(y, x);
                lemma_lex_lt_ne(label_text(y), label_text(x));
            } else {
                lemma_label_text_mono(x, y);
                lemma_lex_lt_ne(label_text(x), label_text(y));
            }
            assert(false);
        }
    }
    assert forall|x: nat| x < 11 && call_ids(bs).contains(x) implies pending_of(bs).contains(
        label_text(x),
    ) by {
        assert(ids.contains(x));
        let i = choose|i: int| 0 <= i < ids.len() && ids[i] == x;
        assert(pending_of(bs)[i] == label_text(x));
    }
}

/// The pending labels depend only on which calls are pending, not on their
/// order or multiplicity among the blocks.
pub proof fn lemma_pending_depends_on_call_set(bs1: Seq<BlockView>, bs2: Seq<BlockView>)
    requires
        call_ids(bs1) == call_ids(bs2),
    ensures
        pending_of(bs1) == pending_of(bs2),
{
}

} // verus!

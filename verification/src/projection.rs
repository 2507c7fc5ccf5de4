//! The render projection: lays every addressable card slot of a percept out
//! on the abstract grid, computes drag grouping, and translates pointer
//! gestures into game actions.

use vstd::prelude::*;
use crate::cards::{Card, Ident};
use crate::grid::{GridLocation, GridValue};
use crate::render::{CardData, CardDisplay, MouseAction, Renderable};
use crate::solitaire::{CardGameAction, CardGamePercept, StackId};

verus! {

/// Stacks whose index or length exceeds this bound cannot be laid out: the
/// bound keeps every grid coordinate inside `i32` and lets a slot address
/// pack into one identity integer without overflow, on any machine. Any
/// playable game lies far below it.
pub const STACK_LIMIT: usize = 30000;

/// Whether one stack is small enough to lay out.
pub open spec fn slot_in_range(id: StackId, len: nat) -> bool {
    id.0 <= STACK_LIMIT && id.1 <= STACK_LIMIT && len <= STACK_LIMIT
}

/// Whether every stack of a percept is small enough to lay out; the layout
/// queries answer `None` beyond this bound instead of overflowing.
pub open spec fn layout_ready(stacks: Seq<(StackId, Seq<Option<Card>>)>) -> bool {
    forall|t: int| 0 <= t < stacks.len() ==> slot_in_range(#[trigger] stacks[t].0, stacks[t].1.len())
}

/// The stack stored under `id`, scanning from position `t`.
pub open spec fn lookup_from(
    stacks: Seq<(StackId, Seq<Option<Card>>)>,
    id: StackId,
    t: int,
) -> Option<Seq<Option<Card>>>
    decreases stacks.len() - t,
{
    if t < 0 || t >= stacks.len() {
        None
    } else if stacks[t].0 == id {
        Some(stacks[t].1)
    } else {
        lookup_from(stacks, id, t + 1)
    }
}

/// The stack a percept stores under `id`: the first entry with that key.
pub open spec fn lookup_stack(stacks: Seq<(StackId, Seq<Option<Card>>)>, id: StackId) -> Option<
    Seq<Option<Card>>,
> {
    lookup_from(stacks, id, 0)
}

/// The base grid location of a stack: deck and waste at major columns 0 and
/// 2, tableau columns at the same major columns two major units down, and
/// foundation piles to the right at major column `2 i + 5`. An unknown zone
/// is placed like a foundation.
pub open spec fn stack_location(id: StackId) -> GridLocation {
    if id.0 == 0 {
        GridLocation { x: GridValue((2 * id.1) as i32, 0), y: GridValue(0, 0), sort: 0 }
    } else if id.0 == 1 {
        GridLocation { x: GridValue((2 * id.1) as i32, 0), y: GridValue(2, 0), sort: 0 }
    } else {
        GridLocation { x: GridValue((2 * id.1 + 5) as i32, 0), y: GridValue(0, 0), sort: 0 }
    }
}

/// The identity token value minted for a slot: zone, stack index and slot
/// code (0 for the placeholder, position + 1 for a card) packed in mixed
/// radix, so distinct in-range addresses get distinct tokens.
pub open spec fn slot_code(slot: Option<usize>) -> int {
    match slot {
        None => 0,
        Some(j) => j + 1,
    }
}

pub open spec fn slot_ident_value(id: StackId, slot: Option<usize>) -> int {
    id.0 + 3 * (id.1 + (STACK_LIMIT + 1) * slot_code(slot))
}

/// The identity packing is injective: two in-range slot addresses with the
/// same token are the same address. Percepts produced by the engine use only
/// zones 0 to 2, so every slot a host sees carries its own token.
pub proof fn lemma_slot_ident_injective(
    id1: StackId,
    s1: Option<usize>,
    id2: StackId,
    s2: Option<usize>,
)
    requires
        id1.0 <= 2 && id1.1 <= STACK_LIMIT && slot_code(s1) <= STACK_LIMIT + 1,
        id2.0 <= 2 && id2.1 <= STACK_LIMIT && slot_code(s2) <= STACK_LIMIT + 1,
        slot_ident_value(id1, s1) == slot_ident_value(id2, s2),
    ensures
        id1 == id2,
        s1 == s2,
{
    let a1 = id1.1 + (STACK_LIMIT + 1) * slot_code(s1);
    let a2 = id2.1 + (STACK_LIMIT + 1) * slot_code(s2);
    assert(id1.0 == id2.0 && a1 == a2) by (nonlinear_arith)
        requires
            id1.0 + 3 * a1 == id2.0 + 3 * a2,
            0 <= id1.0 <= 2,
            0 <= id2.0 <= 2,
            0 <= a1,
            0 <= a2,
    ;
    assert(id1.1 == id2.1 && slot_code(s1) == slot_code(s2)) by (nonlinear_arith)
        requires
            id1.1 + (STACK_LIMIT + 1) * slot_code(s1) == id2.1 + (STACK_LIMIT + 1) * slot_code(
                s2,
            ),
            0 <= id1.1 <= STACK_LIMIT,
            0 <= id2.1 <= STACK_LIMIT,
            0 <= slot_code(s1),
            0 <= slot_code(s2),
    ;
}

/// The accumulated minor-unit stacking offset of the first `idx` cards of a
/// tableau column: a hidden card shows one minor unit of the card above, a
/// revealed card two, approximating the visual fan-out.
pub open spec fn tableau_minor_offset(stack: Seq<Option<Card>>, idx: int) -> int
    decreases idx,
{
    if idx <= 0 {
        0
    } else {
        tableau_minor_offset(stack, idx - 1) + (if stack[idx - 1] is None {
            1int
        } else {
            2int
        })
    }
}

/// The minor-unit fan-out of the waste pile, applied only to the last three
/// cards so that older waste cards stay unfanned underneath.
pub open spec fn waste_fan_offset(stack_len: int, idx: int) -> int {
    let start: int = if stack_len - 3 < 0 {
        0
    } else {
        stack_len - 3
    };
    if idx > start {
        (idx - start) * 2
    } else {
        0
    }
}

/// The grid position of card slot `idx` of stack `sid`: the stack's base
/// location, a draw-order key equal to the slot index, a minor-Y stacking
/// offset for tableau columns, and a minor-X fan-out for the waste pile.
pub open spec fn slot_position(sid: StackId, stack: Seq<Option<Card>>, idx: int) -> GridLocation {
    let base = stack_location(sid);
    let xoff: int = if sid == StackId(0, 1) {
        waste_fan_offset(stack.len() as int, idx)
    } else {
        0
    };
    let yoff: int = if sid.0 == 1 {
        tableau_minor_offset(stack, idx)
    } else {
        0
    };
    GridLocation {
        x: GridValue(base.x.0, (base.x.1 + xoff) as i32),
        y: GridValue(base.y.0, (base.y.1 + yoff) as i32),
        sort: (base.sort + idx) as i32,
    }
}

/// What a slot displays: the card's face when the observer may see it, the
/// card's back otherwise.
pub open spec fn slot_display(entry: Option<Card>) -> CardDisplay {
    match entry {
        Some(c) => CardDisplay::Front(c),
        None => CardDisplay::Back,
    }
}

/// The identities that must move together with slot `idx` of stack `sid`: for
/// a shown tableau card, every following slot of the same column; empty for
/// everything else.
pub open spec fn drag_children_of(sid: StackId, stack: Seq<Option<Card>>, idx: int) -> Seq<
    (StackId, Option<usize>),
> {
    if sid.0 == 1 && stack[idx] is Some {
        Seq::new((stack.len() - idx - 1) as nat, |u: int| (sid, Some((idx + 1 + u) as usize)))
    } else {
        Seq::empty()
    }
}

/// Whether slot `idx` of stack `sid` may be picked up: a tableau card with
/// cards above it, or the current top of the waste pile or of a tableau
/// column. Deck and foundation cards are never draggable.
pub open spec fn slot_draggable(sid: StackId, stack: Seq<Option<Card>>, idx: int) -> bool {
    drag_children_of(sid, stack, idx).len() > 0 || ((sid == StackId(0, 1) || sid.0 == 1) && idx
        == stack.len() - 1)
}

/// What `get_data_for` reports for the empty-slot placeholder of stack
/// `sid`: one draw-order unit behind the stack's base, never draggable.
pub open spec fn placeholder_matches(
    sid: StackId,
    data: CardData<(StackId, Option<usize>)>,
) -> bool {
    let base = stack_location(sid);
    &&& data.pos == (GridLocation { x: base.x, y: base.y, sort: (base.sort - 1) as i32 })
    &&& data.display == CardDisplay::Empty
    &&& data.drag_children is None
    &&& data.ident@ == slot_ident_value(sid, None)
}

/// What `get_data_for` reports for card slot `idx` of stack `sid`.
pub open spec fn slot_matches(
    sid: StackId,
    stack: Seq<Option<Card>>,
    idx: int,
    data: CardData<(StackId, Option<usize>)>,
) -> bool {
    &&& data.pos == slot_position(sid, stack, idx)
    &&& data.display == slot_display(stack[idx])
    &&& data.ident@ == slot_ident_value(sid, Some(idx as usize))
    &&& if slot_draggable(sid, stack, idx) {
        data.drag_children is Some && data.drag_children.unwrap()@ == drag_children_of(
            sid,
            stack,
            idx,
        )
    } else {
        data.drag_children is None
    }
}

/// The full answer of `get_data_for`: `None` exactly for a stack the percept
/// does not have or a slot beyond the stack's end; otherwise the placeholder
/// or card-slot facts above.
pub open spec fn data_matches(
    stacks: Seq<(StackId, Seq<Option<Card>>)>,
    id: (StackId, Option<usize>),
    r: Option<CardData<(StackId, Option<usize>)>>,
) -> bool {
    match lookup_stack(stacks, id.0) {
        None => r is None,
        Some(stack) => match id.1 {
            None => r is Some && placeholder_matches(id.0, r.unwrap()),
            Some(idx) => if idx < stack.len() {
                r is Some && slot_matches(id.0, stack, idx as int, r.unwrap())
            } else {
                r is None
            },
        },
    }
}

/// The slot identities of one percept entry: the empty-slot placeholder,
/// then one identity per card slot.
pub open spec fn stack_slots(entry: (StackId, Seq<Option<Card>>)) -> Seq<(StackId, Option<usize>)> {
    seq![(entry.0, None)] + Seq::new(entry.1.len(), |j: int| (entry.0, Some(j as usize)))
}

/// The slot identities of the first `t` percept entries.
pub open spec fn cards_list_upto(stacks: Seq<(StackId, Seq<Option<Card>>)>, t: int) -> Seq<
    (StackId, Option<usize>),
>
    decreases t,
{
    if t <= 0 {
        Seq::empty()
    } else {
        cards_list_upto(stacks, t - 1) + stack_slots(stacks[t - 1])
    }
}

/// Every addressable slot identity of a percept, in stack order.
pub open spec fn cards_list(stacks: Seq<(StackId, Seq<Option<Card>>)>) -> Seq<
    (StackId, Option<usize>),
> {
    cards_list_upto(stacks, stacks.len() as int)
}

/// Skipping entries whose key differs leaves the lookup unchanged.
proof fn lemma_lookup_skip(stacks: Seq<(StackId, Seq<Option<Card>>)>, id: StackId, t: int)
    requires
        0 <= t <= stacks.len(),
        forall|j: int| 0 <= j < t ==> (#[trigger] stacks[j].0) != id,
    ensures
        lookup_from(stacks, id, 0) == lookup_from(stacks, id, t),
    decreases t,
{
    if t > 0 {
        lemma_lookup_skip(stacks, id, t - 1);
        assert(lookup_from(stacks, id, t - 1) == lookup_from(stacks, id, t));
    }
}

/// Checks at run time that every stack is small enough to lay out.
fn layout_check(p: &CardGamePercept) -> (r: bool)
    ensures
        r == layout_ready(p@),
{
    for t in 0..p.stacks.len()
        invariant
            forall|j: int| 0 <= j < t ==> slot_in_range(#[trigger] p@[j].0, p@[j].1.len()),
    {
        let id = p.stacks[t].0;
        let len = p.stacks[t].1.len();
        if !(id.0 <= STACK_LIMIT && id.1 <= STACK_LIMIT && len <= STACK_LIMIT) {
            proof {
                assert(!slot_in_range(p@[t as int].0, p@[t as int].1.len()));
            }
            return false;
        }
    }
    true
}

/// The position of the first entry stored under `id`, by linear scan.
fn stack_index(p: &CardGamePercept, id: StackId) -> (r: Option<usize>)
    ensures
        match r {
            Some(t) => t < p@.len() && p@[t as int].0 == id && lookup_stack(p@, id) == Some(
                p@[t as int].1,
            ),
            None => lookup_stack(p@, id) is None,
        },
{
    for t in 0..p.stacks.len()
        invariant
            forall|j: int| 0 <= j < t ==> (#[trigger] p@[j].0) != id,
    {
        if p.stacks[t].0 == id {
            proof {
                lemma_lookup_skip(p@, id, t as int);
            }
            return Some(t);
        }
    }
    proof {
        lemma_lookup_skip(p@, id, p@.len() as int);
    }
    None
}

/// The base grid location of a stack (see [`stack_location`]).
fn get_stack_location(id: &StackId) -> (l: GridLocation)
    requires
        id.1 <= STACK_LIMIT,
    ensures
        l == stack_location(*id),
{
    let j = id.1;
    if id.0 == 0 {
        GridLocation::new(GridValue::new((2 * j) as i32, 0), GridValue::new(0, 0), 0)
    } else if id.0 == 1 {
        GridLocation::new(GridValue::new((2 * j) as i32, 0), GridValue::new(2, 0), 0)
    } else {
        GridLocation::new(GridValue::new((2 * j + 5) as i32, 0), GridValue::new(0, 0), 0)
    }
}

/// Mints the identity token of one slot (see [`slot_ident_value`]).
fn mint_ident(id: StackId, code: usize) -> (r: Ident)
    requires
        id.0 <= STACK_LIMIT,
        id.1 <= STACK_LIMIT,
        code <= STACK_LIMIT + 1,
    ensures
        r@ == id.0 + 3 * (id.1 + (STACK_LIMIT + 1) * code),
{
    proof {
        assert((STACK_LIMIT + 1) * code <= 900060001) by (nonlinear_arith)
            requires
                code <= STACK_LIMIT + 1,
                STACK_LIMIT == 30000,
        ;
    }
    Ident::new(id.0 + 3 * (id.1 + (STACK_LIMIT + 1) * code))
}

/// What a drop gesture resolves to: a move of the dragged card when the
/// dragged identity currently denotes a face-up card, nothing when it denotes
/// a hidden card, a placeholder, or a stale identity.
pub open spec fn drop_action(
    stacks: Seq<(StackId, Seq<Option<Card>>)>,
    dragged: (StackId, Option<usize>),
    target: (StackId, Option<usize>),
) -> Option<CardGameAction> {
    match lookup_stack(stacks, dragged.0) {
        None => None,
        Some(stack) => match dragged.1 {
            None => None,
            Some(idx) => if idx < stack.len() && stack[idx as int] is Some {
                Some(CardGameAction::Move(stack[idx as int].unwrap(), target.0))
            } else {
                None
            },
        },
    }
}

impl CardGamePercept {
    /// The observed column stored under `id`, if the percept has that stack.
    pub fn get_stack(&self, id: &StackId) -> (r: Option<&Vec<Option<Card>>>)
        ensures
            match r {
                Some(v) => lookup_stack(self@, *id) == Some(v@),
                None => lookup_stack(self@, *id) is None,
            },
    {
        match stack_index(self, *id) {
            Some(t) => Some(&self.stacks[t].1),
            None => None,
        }
    }
}

impl Renderable for CardGamePercept {
    type CardId = (StackId, Option<usize>);

    type Action = CardGameAction;

    /// Enumerates, for every stack, one empty-slot placeholder identity plus
    /// one identity per card slot, in stack order.
    fn get_cards(&self) -> (r: Vec<(StackId, Option<usize>)>)
        ensures
            r@ == cards_list(self@),
    {
        let mut out: Vec<(StackId, Option<usize>)> = Vec::new();
        let n = self.stacks.len();
        for t in 0..n
            invariant
                n == self@.len(),
                out@ == cards_list_upto(self@, t as int),
        {
            let sid = self.stacks[t].0;
            out.push((sid, None));
            let len = self.stacks[t].1.len();
            for j in 0..len
                invariant
                    n == self@.len(),
                    t < n,
                    sid == self@[t as int].0,
                    len == self@[t as int].1.len(),
                    out@ == cards_list_upto(self@, t as int) + seq![(sid, None::<usize>)]
                        + Seq::new(j as nat, |u: int| (sid, Some(u as usize))),
            {
                out.push((sid, Some(j)));
                proof {
                    assert(Seq::new((j + 1) as nat, |u: int| (sid, Some(u as usize))) =~= Seq::new(
                        j as nat,
                        |u: int| (sid, Some(u as usize)),
                    ).push((sid, Some(j))));
                }
            }
            proof {
                assert(out@ =~= cards_list_upto(self@, t as int) + stack_slots(self@[t as int]));
            }
        }
        proof {
            assert(out@ == cards_list(self@));
        }
        out
    }

    /// Computes the render facts of one slot. Answers `None` for a stale or
    /// out-of-range identity — and for a percept too large to lay out at all,
    /// which no playable game produces.
    fn get_data_for(&self, id: (StackId, Option<usize>)) -> (r: Option<
        CardData<(StackId, Option<usize>)>,
    >)
        ensures
            layout_ready(self@) ==> data_matches(self@, id, r),
            !layout_ready(self@) ==> r is None,
    {
        if !layout_check(self) {
            return None;
        }
        let t = match stack_index(self, id.0) {
            Some(t) => t,
            None => {
                return None;
            },
        };
        let ghost stack = self@[t as int].1;
        let stack_len = self.stacks[t].1.len();
        proof {
            assert(slot_in_range(self@[t as int].0, stack.len()));
        }
        match id.1 {
            None => {
                let base = get_stack_location(&id.0);
                let pos = base.sub(
                    GridLocation::new(GridValue::new(0, 0), GridValue::new(0, 0), 1),
                );
                let ident = mint_ident(id.0, 0);
                Some(CardData { pos, display: CardDisplay::Empty, drag_children: None, ident })
            },
            Some(idx) => {
                if idx >= stack_len {
                    return None;
                }
                let zone1 = id.0.0 == 1;
                let shown = self.stacks[t].1[idx].is_some();
                let mut children: Vec<(StackId, Option<usize>)> = Vec::new();
                if zone1 && shown {
                    let mut i = idx + 1;
                    while i < stack_len
                        invariant
                            idx < i <= stack_len,
                            children@.len() == i - idx - 1,
                            forall|u: int|
                                0 <= u < children@.len() ==> #[trigger] children@[u] == (
                                id.0,
                                Some((idx + 1 + u) as usize),
                                ),
                        decreases stack_len - i,
                    {
                        children.push((id.0, Some(i)));
                        i = i + 1;
                    }
                }
                proof {
                    assert(children@ =~= drag_children_of(id.0, stack, idx as int));
                }
                let mut yoff: usize = 0;
                if zone1 {
                    for j in 0..idx
                        invariant
                            idx < stack_len == stack.len(),
                            stack.len() <= STACK_LIMIT,
                            stack == self@[t as int].1,
                            t < self@.len(),
                            yoff == tableau_minor_offset(stack, j as int),
                            yoff <= 2 * j,
                    {
                        if self.stacks[t].1[j].is_some() {
                            yoff = yoff + 2;
                        } else {
                            yoff = yoff + 1;
                        }
                    }
                }
                let mut xoff: usize = 0;
                if id.0.0 == 0 && id.0.1 == 1 {
                    let start = if stack_len >= 3 {
                        stack_len - 3
                    } else {
                        0
                    };
                    if idx > start {
                        xoff = (idx - start) * 2;
                    }
                }
                let base = get_stack_location(&id.0);
                let offset = GridLocation::new(
                    GridValue::new(0, xoff as i32),
                    GridValue::new(0, yoff as i32),
                    idx as i32,
                );
                let pos = base.add(offset);
                let draggable = children.len() > 0 || ((id.0.0 == 0 && id.0.1 == 1) || id.0.0
                    == 1) && idx == stack_len - 1;
                let ident = mint_ident(id.0, idx + 1);
                let display = match self.stacks[t].1[idx] {
                    Some(c) => CardDisplay::Front(c),
                    None => CardDisplay::Back,
                };
                let data = CardData {
                    pos,
                    display,
                    drag_children: if draggable {
                        Some(children)
                    } else {
                        None
                    },
                    ident,
                };
                proof {
                    assert(data.pos == slot_position(id.0, stack, idx as int));
                    assert(draggable == slot_draggable(id.0, stack, idx as int));
                }
                Some(data)
            },
        }
    }

    /// Translates a pointer gesture: a drop of a face-up card becomes a move
    /// to the target's stack; a tap becomes a tap of the target's stack,
    /// validity being left to the engine's own action filter.
    fn get_action_for(&self, act: MouseAction<(StackId, Option<usize>)>) -> (r: Option<
        CardGameAction,
    >)
        ensures
            match act {
                MouseAction::Tap(target) => r == Some(CardGameAction::Tap(target.0)),
                MouseAction::Drop(dragged, target) => r == (if layout_ready(self@) {
                    drop_action(self@, dragged, target)
                } else {
                    None
                }),
            },
    {
        match act {
            MouseAction::Drop(dragged, target) => {
                match self.get_data_for(dragged) {
                    Some(data) => match data.display {
                        CardDisplay::Front(crd) => Some(CardGameAction::Move(crd, target.0)),
                        _ => None,
                    },
                    None => None,
                }
            },
            MouseAction::Tap(target) => Some(CardGameAction::Tap(target.0)),
        }
    }

    /// A static bounding box of the whole layout, for camera framing.
    fn get_grid_extents() -> (r: (GridLocation, GridLocation))
        ensures
            r.0 == (GridLocation { x: GridValue(-1i32, 0), y: GridValue(-1i32, 0), sort: -1i32 }),
            r.1 == (GridLocation { x: GridValue(13, 0), y: GridValue(3, 32), sort: 20 }),
    {
        (
            GridLocation::new(GridValue::new(-1, 0), GridValue::new(-1, 0), -1),
            GridLocation::new(GridValue::new(13, 0), GridValue::new(3, 32), 20),
        )
    }
}

} // verus!

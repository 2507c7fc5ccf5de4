use klondike::cards::{card_str, deck, Card, Ident};
use klondike::grid::{GridLocation, GridValue};
use klondike::problem::Problem;
use klondike::render::{get_card_asset_id, CardDisplay, MouseAction, Renderable};
use klondike::solitaire::{CardGameAction, CardGamePercept, Solitaire, StackId};

fn single_ace_percept() -> CardGamePercept {
    // One column holding the ace of spades, nothing drawn, four empty
    // foundations.
    let ace = Card::new(0, 0, 0);
    Solitaire::deal(vec![ace], 1, 4).percept()
}

#[test]
fn identities_descend_the_binary_tree() {
    let root = Ident::new(3);
    assert_eq!(root.expand(), Ident::new(6));
    assert_eq!(root.interleave(), Ident::new(7));
    assert_eq!(root.expand().interleave(), Ident::new(13));
    assert_ne!(root.expand(), root.interleave());
}

#[test]
fn grid_values_add_componentwise() {
    let a = GridValue::new(3, -1);
    let b = GridValue::new(2, 5);
    assert_eq!(a.add(b), GridValue::new(5, 4));
    assert_eq!(a.sub(b), GridValue::new(1, -6));
    let la = GridLocation::new(GridValue::new(1, 2), GridValue::new(3, 4), 5);
    let lb = GridLocation::new(GridValue::new(10, 20), GridValue::new(30, 40), 50);
    let sum = la.add(lb);
    assert_eq!(sum.x, GridValue::new(11, 22));
    assert_eq!(sum.y, GridValue::new(33, 44));
    assert_eq!(sum.sort, 55);
    let diff = lb.sub(la);
    assert_eq!(diff.x, GridValue::new(9, 18));
    assert_eq!(diff.y, GridValue::new(27, 36));
    assert_eq!(diff.sort, 45);
}

#[test]
fn grid_extents_frame_the_table() {
    let (low, high) = <CardGamePercept as Renderable>::get_grid_extents();
    assert_eq!(low, GridLocation::new(GridValue::new(-1, 0), GridValue::new(-1, 0), -1));
    assert_eq!(high, GridLocation::new(GridValue::new(13, 0), GridValue::new(3, 32), 20));
}

#[test]
fn get_cards_lists_placeholder_and_slots() {
    let p = single_ace_percept();
    let ids = p.get_cards();
    // Seven stacks, each with a placeholder, plus one card slot.
    assert_eq!(ids.len(), 8);
    assert!(ids.contains(&(StackId(1, 0), None)));
    assert!(ids.contains(&(StackId(1, 0), Some(0))));
    assert!(ids.contains(&(StackId(2, 3), None)));
    assert!(!ids.contains(&(StackId(1, 0), Some(1))));
}

#[test]
fn card_slot_data_positions_and_drag() {
    let ace = Card::new(0, 0, 0);
    let p = single_ace_percept();

    // The single tableau card: at the tableau base, a face, draggable with
    // no children.
    let data = p.get_data_for((StackId(1, 0), Some(0))).expect("slot data");
    assert_eq!(data.pos, GridLocation::new(GridValue::new(0, 0), GridValue::new(2, 0), 0));
    assert_eq!(data.display, CardDisplay::Front(ace));
    assert_eq!(data.drag_children, Some(vec![]));

    // The foundation placeholder: one draw-order unit behind its base, an
    // empty outline, never draggable.
    let data = p.get_data_for((StackId(2, 3), None)).expect("placeholder data");
    assert_eq!(data.pos, GridLocation::new(GridValue::new(11, 0), GridValue::new(0, 0), -1));
    assert_eq!(data.display, CardDisplay::Empty);
    assert_eq!(data.drag_children, None);

    // Stale identities answer nothing.
    assert!(p.get_data_for((StackId(1, 0), Some(5))).is_none());
    assert!(p.get_data_for((StackId(7, 7), None)).is_none());
}

#[test]
fn slot_identities_are_stable_and_distinct() {
    let p = single_ace_percept();
    let ids = p.get_cards();
    let mut tokens: Vec<Ident> = Vec::new();
    for id in &ids {
        tokens.push(p.get_data_for(*id).expect("data").ident);
    }
    for i in 0..tokens.len() {
        for j in 0..i {
            assert_ne!(tokens[i], tokens[j], "identity tokens must not collide");
        }
    }
    // Recomputing from an equal percept yields the same tokens.
    let p2 = single_ace_percept();
    for (id, tok) in ids.iter().zip(tokens.iter()) {
        assert_eq!(p2.get_data_for(*id).expect("data").ident, *tok);
    }
    // Exact packed values: zone + 3 * (index + 30001 * slot code), with
    // slot code 0 for a placeholder and position + 1 for a card.
    let deck_placeholder = p.get_data_for((StackId(0, 0), None)).expect("deck placeholder");
    assert_eq!(deck_placeholder.ident, Ident::new(0));
    let ace_slot = p.get_data_for((StackId(1, 0), Some(0))).expect("ace slot");
    assert_eq!(ace_slot.ident, Ident::new(1 + 3 * 30001));
}

#[test]
fn tableau_fan_out_offsets() {
    // A full deal: column 6 holds six hidden cards under one shown card.
    // Hidden cards contribute one minor unit each, so the top card sits at
    // minor offset 6 with draw order 6.
    let p = Solitaire::deal(deck(), 7, 4).percept();
    let data = p.get_data_for((StackId(1, 6), Some(6))).expect("top of column 6");
    assert_eq!(data.pos.x, GridValue::new(12, 0));
    assert_eq!(data.pos.y, GridValue::new(2, 6));
    assert_eq!(data.pos.sort, 6);
    // A hidden card is shown as a back and cannot be dragged.
    let hidden = p.get_data_for((StackId(1, 6), Some(0))).expect("bottom of column 6");
    assert_eq!(hidden.display, CardDisplay::Back);
    assert_eq!(hidden.drag_children, None);
    assert_eq!(hidden.pos.y, GridValue::new(2, 0));
}

#[test]
fn waste_fans_only_last_three() {
    // Draw five cards onto the waste, then inspect the fan-out: the oldest
    // three stay unfanned, the last two shift right by two and four minor
    // units.
    let supply: Vec<Card> = (0..6).map(|n| Card::new(n / 13, 0, n % 13)).collect();
    let mut s = Solitaire::deal(supply, 1, 4);
    s = s.result(CardGameAction::Tap(StackId(0, 0)));
    s = s.result(CardGameAction::Tap(StackId(0, 0)));
    let p = s.percept();
    let minor_x = |idx: usize| {
        p.get_data_for((StackId(0, 1), Some(idx))).expect("waste slot").pos.x.1
    };
    assert_eq!(minor_x(0), 0);
    assert_eq!(minor_x(1), 0);
    assert_eq!(minor_x(2), 0);
    assert_eq!(minor_x(3), 2);
    assert_eq!(minor_x(4), 4);
    // Only the waste top is draggable.
    let top = p.get_data_for((StackId(0, 1), Some(4))).expect("waste top");
    assert_eq!(top.drag_children, Some(vec![]));
    let below = p.get_data_for((StackId(0, 1), Some(3))).expect("below top");
    assert_eq!(below.drag_children, None);
}

#[test]
fn drag_children_cover_the_run() {
    // After stacking three face-up cards, dragging the lowest one groups
    // the two above it, in order.
    let four_clubs = Card::new(2, 0, 3);
    let five_hearts = Card::new(1, 1, 4);
    let ace_spades = Card::new(0, 0, 0);
    let six_clubs = Card::new(2, 0, 5);
    let s = Solitaire::deal(vec![four_clubs, five_hearts, ace_spades, six_clubs], 2, 4);
    let s = s.result(CardGameAction::Tap(StackId(0, 0)));
    let s = s.result(CardGameAction::Move(four_clubs, StackId(1, 1)));
    let s = s.result(CardGameAction::Move(five_hearts, StackId(1, 0)));
    let p = s.percept();
    let data = p.get_data_for((StackId(1, 0), Some(0))).expect("six of clubs");
    assert_eq!(
        data.drag_children,
        Some(vec![(StackId(1, 0), Some(1)), (StackId(1, 0), Some(2))])
    );
}

#[test]
fn gestures_resolve_to_actions() {
    let ace = Card::new(0, 0, 0);
    let p = single_ace_percept();
    // Dropping the face-up ace on a foundation resolves to a move there.
    let act = p.get_action_for(MouseAction::Drop(
        (StackId(1, 0), Some(0)),
        (StackId(2, 0), None),
    ));
    assert_eq!(act, Some(CardGameAction::Move(ace, StackId(2, 0))));
    // Dropping a placeholder resolves to nothing.
    let act = p.get_action_for(MouseAction::Drop(
        (StackId(1, 0), None),
        (StackId(2, 0), None),
    ));
    assert_eq!(act, None);
    // A tap resolves unconditionally to a tap of the target's stack.
    let act = p.get_action_for(MouseAction::Tap((StackId(0, 0), Some(3))));
    assert_eq!(act, Some(CardGameAction::Tap(StackId(0, 0))));
}

#[test]
fn hidden_cards_cannot_be_dropped() {
    // In a full deal, column 6 position 0 is hidden: dropping it resolves to
    // nothing.
    let p = Solitaire::deal(deck(), 7, 4).percept();
    let act = p.get_action_for(MouseAction::Drop(
        (StackId(1, 6), Some(0)),
        (StackId(1, 0), None),
    ));
    assert_eq!(act, None);
}

#[test]
fn card_text_shows_suit_and_rank() {
    assert_eq!(card_str(&Some(Card::new(0, 0, 0))), "\u{2660}A ");
    assert_eq!(card_str(&Some(Card::new(1, 1, 9))), "\u{2661}10");
    assert_eq!(card_str(&Some(Card::new(2, 0, 11))), "\u{2663}Q ");
    assert_eq!(card_str(&Some(Card::new(3, 1, 4))), "\u{2662}5 ");
    assert_eq!(card_str(&None), "###");
}

#[test]
fn asset_ids_name_faces_and_backs() {
    assert_eq!(
        get_card_asset_id(CardDisplay::Front(Card::new(0, 0, 0))),
        "cards/card_ace_spades"
    );
    assert_eq!(
        get_card_asset_id(CardDisplay::Front(Card::new(3, 1, 9))),
        "cards/card_10_diamonds"
    );
    assert_eq!(
        get_card_asset_id(CardDisplay::Front(Card::new(1, 1, 12))),
        "cards/card_king_hearts"
    );
    assert_eq!(get_card_asset_id(CardDisplay::Back), "white");
    assert_eq!(get_card_asset_id(CardDisplay::Empty), "gray");
}

#[test]
fn full_deck_is_distinct() {
    let cards = deck();
    assert_eq!(cards.len(), 52);
    assert_eq!(cards[0], Card::new(0, 0, 0));
    assert_eq!(cards[51], Card::new(3, 1, 12));
    for i in 0..52 {
        assert_eq!(cards[i].color, cards[i].suit % 2);
        for j in 0..i {
            assert_ne!(cards[i], cards[j]);
        }
    }
}

use klondike::cards::{deck, Card};
use klondike::problem::Problem;
use klondike::solitaire::{CardGameAction, CardGamePercept, Solitaire, StackId};

/// The n-th card of the fixed full deck: suits ascending, ace to king within
/// each suit.
fn nth(n: usize) -> Card {
    Card::new(n / 13, (n / 13) % 2, n % 13)
}

fn stack_of(p: &CardGamePercept, zone: usize, index: usize) -> Vec<Option<Card>> {
    p.get_stack(&StackId(zone, index)).expect("stack missing").clone()
}

#[test]
fn deal_fixed_layout() {
    let s = Solitaire::deal(deck(), 7, 4);
    let p = s.percept();
    assert_eq!(p.stacks.len(), 13);

    // The deck holds the 24 undealt cards, every face hidden.
    let d = stack_of(&p, 0, 0);
    assert_eq!(d.len(), 24);
    assert!(d.iter().all(|c| c.is_none()));

    // The waste starts empty.
    assert_eq!(stack_of(&p, 0, 1).len(), 0);

    // Column i holds i + 1 cards dealt from the tail of the supply; exactly
    // the first i are hidden, so the visibility vector reads 0..=6.
    let mut consumed = 0;
    for i in 0..7 {
        let col = stack_of(&p, 1, i);
        assert_eq!(col.len(), i + 1);
        for j in 0..=i {
            let expected = nth(51 - consumed - j);
            if j < i {
                assert_eq!(col[j], None, "column {} position {} must be hidden", i, j);
            } else {
                assert_eq!(col[j], Some(expected), "column {} top", i);
            }
        }
        consumed += i + 1;
    }

    // All four foundations start empty.
    for i in 0..4 {
        assert_eq!(stack_of(&p, 2, i).len(), 0);
    }

    assert!(!s.is_goal());
}

#[test]
fn deal_is_deterministic() {
    let a = Solitaire::deal(deck(), 7, 4);
    let b = Solitaire::deal(deck(), 7, 4);
    assert_eq!(a.percept(), b.percept());
    assert_eq!(a.actions(), b.actions());
}

#[test]
fn fresh_deal_offers_tap_first() {
    let s = Solitaire::deal(deck(), 7, 4);
    let acts = s.actions();
    assert!(!acts.is_empty());
    assert_eq!(acts[0], CardGameAction::Tap(StackId(0, 0)));
}

#[test]
fn single_card_game_reaches_goal() {
    // One column, one card: the ace of spades goes straight to its
    // foundation and wins.
    let ace = Card::new(0, 0, 0);
    let s = Solitaire::deal(vec![ace], 1, 4);
    assert!(!s.is_goal());
    let acts = s.actions();
    assert_eq!(acts, vec![CardGameAction::Move(ace, StackId(2, 0))]);
    let s2 = s.result(acts[0]);
    let p = s2.percept();
    assert_eq!(stack_of(&p, 1, 0).len(), 0);
    assert_eq!(stack_of(&p, 2, 0), vec![Some(ace)]);
    assert!(s2.is_goal());
    // The original snapshot is untouched.
    assert!(!s.is_goal());
}

#[test]
fn run_move_carries_cards_in_order() {
    // Column 1 holds a hidden ace of spades under the five of hearts; the
    // four of clubs arrives from the waste; then moving the five onto the
    // six of clubs carries the four along and reveals the ace.
    let four_clubs = Card::new(2, 0, 3);
    let five_hearts = Card::new(1, 1, 4);
    let ace_spades = Card::new(0, 0, 0);
    let six_clubs = Card::new(2, 0, 5);
    let s = Solitaire::deal(vec![four_clubs, five_hearts, ace_spades, six_clubs], 2, 4);

    let p = s.percept();
    assert_eq!(stack_of(&p, 1, 0), vec![Some(six_clubs)]);
    assert_eq!(stack_of(&p, 1, 1), vec![None, Some(five_hearts)]);
    assert_eq!(stack_of(&p, 0, 0), vec![None]);

    // Draw the four of clubs.
    let tap = CardGameAction::Tap(StackId(0, 0));
    assert!(s.actions().contains(&tap));
    let s = s.result(tap);
    assert_eq!(stack_of(&s.percept(), 0, 1), vec![Some(four_clubs)]);

    // Put it on the five of hearts.
    let drop_four = CardGameAction::Move(four_clubs, StackId(1, 1));
    assert!(s.actions().contains(&drop_four));
    let s = s.result(drop_four);
    let p = s.percept();
    assert_eq!(
        stack_of(&p, 1, 1),
        vec![None, Some(five_hearts), Some(four_clubs)]
    );

    // Move the five onto the six: the four rides along, in original order,
    // and the ace underneath becomes visible.
    let move_run = CardGameAction::Move(five_hearts, StackId(1, 0));
    assert!(s.actions().contains(&move_run));
    let s = s.result(move_run);
    let p = s.percept();
    assert_eq!(
        stack_of(&p, 1, 0),
        vec![Some(six_clubs), Some(five_hearts), Some(four_clubs)]
    );
    assert_eq!(stack_of(&p, 1, 1), vec![Some(ace_spades)]);
}

#[test]
fn deck_recycle_reverses_waste() {
    // Six cards: one is dealt to the single column, five stay in the deck.
    let supply: Vec<Card> = (0..6).map(nth).collect();
    let s = Solitaire::deal(supply, 1, 4);
    let tap = CardGameAction::Tap(StackId(0, 0));

    // First tap draws three cards, one at a time, deck top first.
    let s = s.result(tap);
    let p = s.percept();
    assert_eq!(stack_of(&p, 0, 0).len(), 2);
    assert_eq!(
        stack_of(&p, 0, 1),
        vec![Some(nth(0)), Some(nth(1)), Some(nth(2))]
    );

    // Second tap drains the deck.
    let s = s.result(tap);
    let p = s.percept();
    assert_eq!(stack_of(&p, 0, 0).len(), 0);
    assert_eq!(
        stack_of(&p, 0, 1),
        vec![
            Some(nth(0)),
            Some(nth(1)),
            Some(nth(2)),
            Some(nth(3)),
            Some(nth(4))
        ]
    );

    // Third tap recycles: the whole waste returns to the deck reversed, so
    // the old waste bottom is the new deck top, and the next draw repeats
    // the original order exactly.
    let s = s.result(tap);
    let p = s.percept();
    assert_eq!(stack_of(&p, 0, 0).len(), 5);
    assert_eq!(stack_of(&p, 0, 1).len(), 0);
    let s = s.result(tap);
    assert_eq!(
        stack_of(&s.percept(), 0, 1),
        vec![Some(nth(0)), Some(nth(1)), Some(nth(2))]
    );
}

#[test]
fn tapping_elsewhere_changes_nothing() {
    let s = Solitaire::deal(deck(), 7, 4);
    let s2 = s.result(CardGameAction::Tap(StackId(1, 3)));
    assert_eq!(s.percept(), s2.percept());
}

#[test]
fn moving_unknown_card_changes_nothing() {
    let s = Solitaire::deal((0..6).map(nth).collect(), 1, 4);
    // Rank 20 exists on no card of this supply.
    let ghost_card = Card::new(0, 0, 20);
    let s2 = s.result(CardGameAction::Move(ghost_card, StackId(1, 0)));
    assert_eq!(s.percept(), s2.percept());
}

#[test]
fn cards_conserved_along_play() {
    // Follow a deterministic play (always the last enumerated action, which
    // prefers foundation moves) and check conservation at every step: the
    // thirteen stacks always hold 52 cards in total.
    let mut s = Solitaire::deal(deck(), 7, 4);
    for _ in 0..60 {
        let acts = s.actions();
        if acts.is_empty() {
            break;
        }
        let act = acts[acts.len() - 1];
        s = s.result(act);
        let p = s.percept();
        let total: usize = p.stacks.iter().map(|e| e.1.len()).sum();
        assert_eq!(total, 52);
        assert_eq!(p.stacks.len(), 13);
    }
}

#[test]
fn every_legal_action_conserves() {
    // Legal-action soundness on concrete values: each enumerated action,
    // applied to the same fresh deal, keeps all 52 cards on the table and
    // every column's hidden prefix within its new length.
    let s = Solitaire::deal(deck(), 7, 4);
    let acts = s.actions();
    assert!(acts.len() > 1);
    for act in acts {
        let t = s.result(act);
        let p = t.percept();
        let total: usize = p.stacks.iter().map(|e| e.1.len()).sum();
        assert_eq!(total, 52);
        for i in 0..7 {
            let col = stack_of(&p, 1, i);
            // Never a shown card below a hidden one.
            let mut seen_shown = false;
            for entry in col {
                if entry.is_some() {
                    seen_shown = true;
                } else {
                    assert!(!seen_shown, "hidden card above a shown one");
                }
            }
        }
    }
}

#[test]
fn goal_ignores_foundations_until_all_stacks_empty() {
    let ace = Card::new(0, 0, 0);
    let two = Card::new(0, 0, 1);
    // Column 0 takes the two (the supply's last card); the ace stays in the
    // deck.
    let s = Solitaire::deal(vec![ace, two], 1, 4);
    // Draw the ace and send it to its foundation.
    let s = s.result(CardGameAction::Tap(StackId(0, 0)));
    let mv = CardGameAction::Move(ace, StackId(2, 0));
    assert!(s.actions().contains(&mv));
    let s = s.result(mv);
    // The column still holds the two, so the foundation's contents do not
    // make this a win yet.
    assert_eq!(stack_of(&s.percept(), 1, 0), vec![Some(two)]);
    assert!(!s.is_goal());
    let mv = CardGameAction::Move(two, StackId(2, 0));
    assert!(s.actions().contains(&mv));
    let s = s.result(mv);
    assert_eq!(
        stack_of(&s.percept(), 2, 0),
        vec![Some(ace), Some(two)]
    );
    assert!(s.is_goal());
}

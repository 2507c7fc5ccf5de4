//! Render-facing data types and the projection capability interface.

use vstd::prelude::*;
use crate::cards::{Card, Ident};
use crate::grid::GridLocation;

verus! {

/// What a rendering host should show for one card slot: a face, a card back,
/// or an empty placeholder outline.
#[derive(PartialEq, Eq, Structural, Clone, Copy, Debug)]
pub enum CardDisplay {
    Front(Card),
    Back,
    Empty,
}

/// Per-slot render facts, recomputed on demand from a percept and never
/// stored: a grid position with draw order, what to display, the identities
/// that must move together when this slot is dragged (`None` when the slot is
/// not draggable at all), and a stable identity token for the host to track a
/// persistent visual entity across refreshes.
pub struct CardData<CardId> {
    pub pos: GridLocation,
    pub display: CardDisplay,
    pub drag_children: Option<Vec<CardId>>,
    pub ident: Ident,
}

/// A discrete pointer gesture, already resolved to card identities by the
/// host's own picking mechanism.
pub enum MouseAction<CardId> {
    Drop(CardId, CardId),
    Tap(CardId),
}

/// The asset-name word of a suit; any unknown suit falls back to diamonds.
pub open spec fn suit_word(suit: usize) -> Seq<char> {
    if suit == 0 {
        "spades"@
    } else if suit == 1 {
        "hearts"@
    } else if suit == 2 {
        "clubs"@
    } else {
        "diamonds"@
    }
}

/// The asset-name word of a rank; ranks outside the deck show a question
/// mark.
pub open spec fn rank_word(rank: usize) -> Seq<char> {
    if rank == 0 {
        "ace"@
    } else if rank == 1 {
        "2"@
    } else if rank == 2 {
        "3"@
    } else if rank == 3 {
        "4"@
    } else if rank == 4 {
        "5"@
    } else if rank == 5 {
        "6"@
    } else if rank == 6 {
        "7"@
    } else if rank == 7 {
        "8"@
    } else if rank == 8 {
        "9"@
    } else if rank == 9 {
        "10"@
    } else if rank == 10 {
        "jack"@
    } else if rank == 11 {
        "queen"@
    } else if rank == 12 {
        "king"@
    } else {
        "?"@
    }
}

/// The asset name a host should load for a display state: a card face keyed
/// by rank and suit, a plain white back, or a gray empty outline.
pub open spec fn asset_id(card: CardDisplay) -> Seq<char> {
    match card {
        CardDisplay::Front(c) => "cards/card_"@ + rank_word(c.rank) + "_"@ + suit_word(c.suit),
        CardDisplay::Back => "white"@,
        CardDisplay::Empty => "gray"@,
    }
}

/// Maps a display state to its asset name (see [`asset_id`]).
pub fn get_card_asset_id(card: CardDisplay) -> (s: String)
    ensures
        s@ == asset_id(card),
{
    match card {
        CardDisplay::Front(c) => {
            let rank = if c.rank == 0 {
                "ace"
            } else if c.rank == 1 {
                "2"
            } else if c.rank == 2 {
                "3"
            } else if c.rank == 3 {
                "4"
            } else if c.rank == 4 {
                "5"
            } else if c.rank == 5 {
                "6"
            } else if c.rank == 6 {
                "7"
            } else if c.rank == 7 {
                "8"
            } else if c.rank == 8 {
                "9"
            } else if c.rank == 9 {
                "10"
            } else if c.rank == 10 {
                "jack"
            } else if c.rank == 11 {
                "queen"
            } else if c.rank == 12 {
                "king"
            } else {
                "?"
            };
            let suit = if c.suit == 0 {
                "spades"
            } else if c.suit == 1 {
                "hearts"
            } else if c.suit == 2 {
                "clubs"
            } else {
                "diamonds"
            };
            String::from_str("cards/card_").concat(rank).concat("_").concat(suit)
        },
        CardDisplay::Back => String::from_str("white"),
        CardDisplay::Empty => String::from_str("gray"),
    }
}

/// A view that can enumerate addressable card slots, lay each out on the
/// grid, and translate pointer gestures into game actions.
pub trait Renderable: Sized {
    type CardId;

    type Action;

    fn get_cards(&self) -> Vec<Self::CardId>;

    fn get_data_for(&self, id: Self::CardId) -> Option<CardData<Self::CardId>>;

    fn get_action_for(&self, act: MouseAction<Self::CardId>) -> Option<Self::Action>;

    fn get_grid_extents() -> (GridLocation, GridLocation);
}

} // verus!

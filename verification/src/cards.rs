//! Card and identity value types.

use vstd::prelude::*;

verus! {

/// An immutable playing card. `color` is derived from `suit` at construction
/// (`suit % 2`) and stored redundantly so that alternating-color checks need
/// no recomputation; `rank` runs from 0 (ace) to 12 (king).
#[derive(Clone, Copy, PartialEq, Eq, Structural, Debug, Hash)]
pub struct Card {
    pub suit: usize,
    pub color: usize,
    pub rank: usize,
}

impl Card {
    pub fn new(suit: usize, color: usize, rank: usize) -> (c: Card)
        ensures
            c == (Card { suit, color, rank }),
    {
        Card { suit, color, rank }
    }
}

/// An opaque, integer-backed identity token. Its two generative operations
/// descend an implicit infinite binary tree, so a consumer can mint stable,
/// collision-free sub-identities without a central registry.
#[derive(Clone, Copy, PartialEq, Eq, Structural, Debug, Hash)]
pub struct Ident(usize);

impl View for Ident {
    type V = usize;

    closed spec fn view(&self) -> usize {
        self.0
    }
}

impl Ident {
    pub fn new(x: usize) -> (r: Ident)
        ensures
            r@ == x,
    {
        Ident(x)
    }

    /// The right child in the identity tree: `n` maps to `2n + 1`.
    pub fn interleave(&self) -> (r: Ident)
        requires
            2 * self@ + 1 <= usize::MAX,
        ensures
            r@ == 2 * self@ + 1,
    {
        Ident(self.0 * 2 + 1)
    }

    /// The left child in the identity tree: `n` maps to `2n`.
    pub fn expand(&self) -> (r: Ident)
        requires
            2 * self@ <= usize::MAX,
        ensures
            r@ == 2 * self@,
    {
        Ident(self.0 * 2)
    }
}

/// The identity tree never collides: `expand` mints even tokens and
/// `interleave` odd ones, and each is injective, so distinct paths from
/// distinct parents always yield distinct identities.
pub proof fn lemma_ident_tree_disjoint(a: usize, b: usize)
    ensures
        2 * a != 2 * b + 1,
        (2 * a == 2 * b) <==> (a == b),
        (2 * a + 1 == 2 * b + 1) <==> (a == b),
{
}

/// The console glyph of a suit; an unknown suit shows a question mark.
pub open spec fn suit_glyph(suit: usize) -> Seq<char> {
    if suit == 0 {
        "\u{2660}"@
    } else if suit == 1 {
        "\u{2661}"@
    } else if suit == 2 {
        "\u{2663}"@
    } else if suit == 3 {
        "\u{2662}"@
    } else {
        "?"@
    }
}

/// The two-character rank label: ace, the numbers two to ten padded to width
/// two, jack, queen, king; ranks outside the deck show a question mark.
pub open spec fn rank_label(rank: usize) -> Seq<char> {
    if rank == 0 {
        "A "@
    } else if rank == 1 {
        "2 "@
    } else if rank == 2 {
        "3 "@
    } else if rank == 3 {
        "4 "@
    } else if rank == 4 {
        "5 "@
    } else if rank == 5 {
        "6 "@
    } else if rank == 6 {
        "7 "@
    } else if rank == 7 {
        "8 "@
    } else if rank == 8 {
        "9 "@
    } else if rank == 9 {
        "10"@
    } else if rank == 10 {
        "J "@
    } else if rank == 11 {
        "Q "@
    } else if rank == 12 {
        "K "@
    } else {
        "? "@
    }
}

/// The three-character console text of one observed card slot: suit glyph
/// plus rank label for a shown card, hash marks for a hidden one.
pub open spec fn card_label(card: Option<Card>) -> Seq<char> {
    match card {
        None => "###"@,
        Some(c) => suit_glyph(c.suit) + rank_label(c.rank),
    }
}

/// Renders one observed card slot for a text console (see [`card_label`]).
pub fn card_str(card: &Option<Card>) -> (s: String)
    ensures
        s@ == card_label(*card),
{
    match card {
        None => String::from_str("###"),
        Some(c) => {
            let glyph = if c.suit == 0 {
                "\u{2660}"
            } else if c.suit == 1 {
                "\u{2661}"
            } else if c.suit == 2 {
                "\u{2663}"
            } else if c.suit == 3 {
                "\u{2662}"
            } else {
                "?"
            };
            let label = if c.rank == 0 {
                "A "
            } else if c.rank == 1 {
                "2 "
            } else if c.rank == 2 {
                "3 "
            } else if c.rank == 3 {
                "4 "
            } else if c.rank == 4 {
                "5 "
            } else if c.rank == 5 {
                "6 "
            } else if c.rank == 6 {
                "7 "
            } else if c.rank == 7 {
                "8 "
            } else if c.rank == 8 {
                "9 "
            } else if c.rank == 9 {
                "10"
            } else if c.rank == 10 {
                "J "
            } else if c.rank == 11 {
                "Q "
            } else if c.rank == 12 {
                "K "
            } else {
                "? "
            };
            String::from_str(glyph).concat(label)
        },
    }
}

/// The full 52-card deck in a fixed order: suits 0 to 3, each ace to king.
pub open spec fn full_deck() -> Seq<Card> {
    Seq::new(
        52,
        |n: int|
            Card {
                suit: (n / 13) as usize,
                color: ((n / 13) % 2) as usize,
                rank: (n % 13) as usize,
            },
    )
}

/// Builds the unshuffled 52-card deck, suit by suit, ace first.
pub fn deck() -> (cards: Vec<Card>)
    ensures
        cards@ == full_deck(),
{
    let mut cards: Vec<Card> = Vec::new();
    for i in 0..4usize
        invariant
            cards@.len() == 13 * i,
            forall|n: int| 0 <= n < cards@.len() ==> cards@[n] == full_deck()[n],
    {
        for j in 0..13usize
            invariant
                i < 4,
                cards@.len() == 13 * i + j,
                forall|n: int| 0 <= n < cards@.len() ==> cards@[n] == full_deck()[n],
        {
            cards.push(Card::new(i, i % 2, j));
            assert(cards@.last() == full_deck()[13 * i + j]);
        }
    }
    assert(cards@ =~= full_deck());
    cards
}

} // verus!

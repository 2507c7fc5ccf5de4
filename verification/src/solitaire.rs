//! The solitaire rule engine: deck, waste, tableau and foundation stacks,
//! visibility tracking, legal-action enumeration, and a deterministic,
//! immutable state transition.

use vstd::prelude::*;
use vstd::pervasive::VecAdditionalExecFns;
use crate::cards::Card;

verus! {

/// Identifies one stack of cards: `StackId(0, 0)` is the deck, `StackId(0, 1)`
/// the waste pile, `StackId(1, i)` is tableau column `i`, and `StackId(2, i)`
/// is foundation pile `i` (one pile per suit, addressed by suit number).
#[derive(Hash, PartialEq, Eq, Structural, Clone, Copy, Debug)]
pub struct StackId(pub usize, pub usize);

/// One discrete game action.
#[derive(Hash, PartialEq, Eq, Structural, Clone, Copy, Debug)]
pub enum CardGameAction {
    /// Move the named card, together with every card above it on its source
    /// stack, onto the destination stack.
    Move(Card, StackId),
    /// Tap a stack; meaningful only for the deck, where it draws up to three
    /// cards onto the waste, or recycles the waste when the deck is empty.
    Tap(StackId),
}

/// The authoritative game snapshot, as mathematical sequences. `row[i]` lists
/// tableau column `i` bottom-up; cards of column `i` at positions below
/// `visibility[i]` are face-down. The top of `deck`, `runoff` and every pile
/// is the sequence's end.
#[verifier::ext_equal]
pub ghost struct GameView {
    pub deck: Seq<Card>,
    pub runoff: Seq<Card>,
    pub row: Seq<Seq<Card>>,
    pub visibility: Seq<usize>,
    pub goal: Seq<Seq<Card>>,
}

/// The sequence of column contents held by a vector of card vectors.
pub open spec fn cols_view(cols: Seq<Vec<Card>>) -> Seq<Seq<Card>> {
    cols.map_values(|col: Vec<Card>| col@)
}

/// The authoritative, immutable game state. Constructed once by [`Solitaire::deal`];
/// every transition returns a fresh snapshot and never mutates the receiver.
#[derive(PartialEq, Eq, Debug)]
pub struct Solitaire {
    deck: Vec<Card>,
    runoff: Vec<Card>,
    row: Vec<Vec<Card>>,
    visibility: Vec<usize>,
    goal: Vec<Vec<Card>>,
}

impl View for Solitaire {
    type V = GameView;

    closed spec fn view(&self) -> GameView {
        GameView {
            deck: self.deck@,
            runoff: self.runoff@,
            row: cols_view(self.row@),
            visibility: self.visibility@,
            goal: cols_view(self.goal@),
        }
    }
}

/// The structural well-formedness of a state: every tableau column has a
/// visibility entry. `deal` establishes it and `result` preserves it.
pub open spec fn shaped(g: GameView) -> bool {
    g.visibility.len() == g.row.len()
}

/// The `n`-th triangular number `1 + 2 + ... + n`: how many cards dealing the
/// first `n` tableau columns consumes, since column `i` receives `i + 1` cards.
pub open spec fn triangle(n: int) -> int
    decreases n,
{
    if n <= 0 {
        0
    } else {
        n + triangle(n - 1)
    }
}

pub proof fn lemma_triangle_nonneg(n: int)
    ensures
        0 <= triangle(n),
    decreases n,
{
    if n > 0 {
        lemma_triangle_nonneg(n - 1);
    }
}

pub proof fn lemma_triangle_mono(a: int, b: int)
    requires
        a <= b,
    ensures
        triangle(a) <= triangle(b),
    decreases b - a,
{
    if a < b {
        lemma_triangle_mono(a, b - 1);
    }
}

/// The familiar closed form of the triangular numbers.
pub proof fn lemma_triangle_value(n: int)
    requires
        0 <= n,
    ensures
        2 * triangle(n) == n * (n + 1),
    decreases n,
{
    if n > 0 {
        lemma_triangle_value(n - 1);
        assert(2 * triangle(n) == n * (n + 1)) by (nonlinear_arith)
            requires
                triangle(n) == n + triangle(n - 1),
                2 * triangle(n - 1) == (n - 1) * n,
        ;
    } else {
        assert(2 * triangle(n) == n * (n + 1)) by (nonlinear_arith)
            requires
                n == 0,
                triangle(n) == 0,
        ;
    }
}

/// Tableau column `i` as dealt from the tail of `cards`: its `i + 1` cards are
/// popped one at a time, so the column holds them in reverse draw order with
/// the last-drawn card on top.
pub open spec fn dealt_column(cards: Seq<Card>, i: int) -> Seq<Card> {
    cards.subrange(cards.len() - triangle(i + 1), cards.len() - triangle(i)).reverse()
}

/// The state produced by dealing `cards` into `row_count` tableau columns and
/// `suits` empty foundation piles: column `i` receives `i + 1` cards with only
/// the last visible, and the rest of the supply is flipped over into the deck.
pub open spec fn deal_view(cards: Seq<Card>, row_count: int, suits: int) -> GameView {
    GameView {
        deck: cards.subrange(0, cards.len() - triangle(row_count)).reverse(),
        runoff: Seq::empty(),
        row: Seq::new(row_count as nat, |i: int| dealt_column(cards, i)),
        visibility: Seq::new(row_count as nat, |i: int| i as usize),
        goal: Seq::new(suits as nat, |i: int| Seq::<Card>::empty()),
    }
}

impl Solitaire {
    /// Deals a full shuffled supply of cards. Shuffling is the caller's
    /// responsibility; dealing is deterministic in its input. At least
    /// `triangle(row_count)`, that is `row_count * (row_count + 1) / 2`,
    /// cards must be supplied or the deal would run out mid-column.
    pub fn deal(cards: Vec<Card>, row_count: usize, suits: usize) -> (s: Solitaire)
        requires
            triangle(row_count as int) <= cards@.len(),
        ensures
            s@ == deal_view(cards@, row_count as int, suits as int),
    {
        let ghost orig = cards@;
        let mut cards = cards;
        let mut row: Vec<Vec<Card>> = Vec::new();
        let mut visibility: Vec<usize> = Vec::new();
        proof {
            lemma_triangle_mono(0, row_count as int);
            assert(cards@ =~= orig.take(orig.len() - triangle(0)));
        }
        for i in 0..row_count
            invariant
                triangle(row_count as int) <= orig.len(),
                triangle(i as int) <= triangle(row_count as int),
                cards@ == orig.take(orig.len() - triangle(i as int)),
                row@.len() == i,
                forall|n: int| 0 <= n < i ==> #[trigger] row@[n]@ == dealt_column(orig, n),
                visibility@.len() == i,
                forall|n: int| 0 <= n < i ==> #[trigger] visibility@[n] == n as usize,
        {
            let ghost top: int = orig.len() - triangle(i as int);
            proof {
                lemma_triangle_nonneg(i as int);
                lemma_triangle_mono(i as int + 1, row_count as int);
                assert(triangle(i as int + 1) == (i + 1) + triangle(i as int));
            }
            let mut stack: Vec<Card> = Vec::new();
            let mut j: usize = 0;
            proof {
                assert(stack@ =~= orig.subrange(top, top).reverse());
            }
            while j < i + 1
                invariant
                    j <= i + 1,
                    i < row_count,
                    top == orig.len() - triangle(i as int),
                    0 <= top - (i + 1) && top <= orig.len(),
                    cards@ == orig.take(top - j),
                    stack@ == orig.subrange(top - j, top).reverse(),
                decreases i + 1 - j,
            {
                let c = cards.pop().unwrap();
                stack.push(c);
                j = j + 1;
                proof {
                    assert(c == orig[top - j]);
                    assert(orig.subrange(top - j, top).reverse() =~= orig.subrange(
                        top - (j - 1),
                        top,
                    ).reverse().push(orig[top - j]));
                    assert(cards@ =~= orig.take(top - j));
                }
            }
            row.push(stack);
            visibility.push(i);
            proof {
                assert(row@.last()@ =~= dealt_column(orig, i as int));
                assert(cards@ =~= orig.take(orig.len() - triangle(i as int + 1)));
            }
        }
        let mut goal: Vec<Vec<Card>> = Vec::new();
        for i in 0..suits
            invariant
                goal@.len() == i,
                forall|n: int| 0 <= n < i ==> #[trigger] goal@[n]@ == Seq::<Card>::empty(),
        {
            goal.push(Vec::new());
        }
        let ghost rest: int = orig.len() - triangle(row_count as int);
        let mut deck: Vec<Card> = Vec::new();
        proof {
            assert(cards@.len() == rest);
            assert(deck@ =~= orig.subrange(rest, rest).reverse());
        }
        while cards.len() > 0
            invariant
                0 <= cards@.len() <= rest <= orig.len(),
                cards@ == orig.take(cards@.len() as int),
                deck@ == orig.subrange(cards@.len() as int, rest).reverse(),
            decreases cards@.len(),
        {
            let ghost m: int = cards@.len() as int;
            let c = cards.pop().unwrap();
            deck.push(c);
            proof {
                assert(c == orig[m - 1]);
                assert(orig.subrange(m - 1, rest).reverse() =~= orig.subrange(m, rest).reverse().push(
                    orig[m - 1],
                ));
                assert(cards@ =~= orig.take(m - 1));
            }
        }
        let s = Solitaire { deck, runoff: Vec::new(), row, visibility, goal };
        proof {
            let target = deal_view(orig, row_count as int, suits as int);
            assert(s@.deck =~= target.deck);
            assert(s@.row =~= target.row);
            assert(s@.visibility =~= target.visibility);
            assert(s@.goal =~= target.goal);
            assert(s@.runoff =~= target.runoff);
            assert(s@ =~= target);
        }
        s
    }
}

/// A fully hidden stack, as the observer sees the deck.
pub open spec fn hidden_column(col: Seq<Card>) -> Seq<Option<Card>> {
    Seq::new(col.len(), |j: int| None::<Card>)
}

/// A fully shown stack, as the observer sees the waste and the foundations.
pub open spec fn shown_column(col: Seq<Card>) -> Seq<Option<Card>> {
    col.map_values(|c: Card| Some(c))
}

/// A tableau column as the observer sees it: positions below the visibility
/// index are hidden, the rest are shown.
pub open spec fn masked_column(col: Seq<Card>, vis: usize) -> Seq<Option<Card>> {
    Seq::new(col.len(), |j: int| if j < vis { None } else { Some(col[j]) })
}

/// The observer view of a state: one entry per stack, in the fixed order
/// deck, waste, tableau columns, foundation piles. `None` marks a card whose
/// face the observer may not see.
pub open spec fn percept_view(g: GameView) -> Seq<(StackId, Seq<Option<Card>>)> {
    seq![(StackId(0, 0), hidden_column(g.deck)), (StackId(0, 1), shown_column(g.runoff))]
        + Seq::new(g.row.len(), |i: int| (StackId(1, i as usize), masked_column(g.row[i], g.visibility[i])))
        + Seq::new(g.goal.len(), |i: int| (StackId(2, i as usize), shown_column(g.goal[i])))
}

/// A derived, read-only projection of the state for a non-privileged
/// observer: the faces of deck cards and of tableau cards below the
/// visibility threshold are masked as `None`. This is the only view a driver
/// or rendering layer inspects, matching physical solitaire, where a player
/// cannot see face-down cards.
#[derive(PartialEq, Eq, Clone, Debug)]
pub struct CardGamePercept {
    /// Association list from stack id to the observer-visible column, bottom
    /// card first; keys are distinct, in the order deck, waste, tableau
    /// columns, foundation piles.
    pub stacks: Vec<(StackId, Vec<Option<Card>>)>,
}

impl View for CardGamePercept {
    type V = Seq<(StackId, Seq<Option<Card>>)>;

    open spec fn view(&self) -> Seq<(StackId, Seq<Option<Card>>)> {
        self.stacks@.map_values(|p: (StackId, Vec<Option<Card>>)| (p.0, p.1@))
    }
}

fn copy_cards(v: &Vec<Card>) -> (r: Vec<Card>)
    ensures
        r@ == v@,
{
    let mut r: Vec<Card> = Vec::new();
    for i in 0..v.len()
        invariant
            r@.len() == i,
            forall|t: int| 0 <= t < i ==> r@[t] == v@[t],
    {
        r.push(v[i]);
    }
    proof {
        assert(r@ =~= v@);
    }
    r
}

fn copy_counts(v: &Vec<usize>) -> (r: Vec<usize>)
    ensures
        r@ == v@,
{
    let mut r: Vec<usize> = Vec::new();
    for i in 0..v.len()
        invariant
            r@.len() == i,
            forall|t: int| 0 <= t < i ==> r@[t] == v@[t],
    {
        r.push(v[i]);
    }
    proof {
        assert(r@ =~= v@);
    }
    r
}

fn reversed_cards(v: &Vec<Card>) -> (r: Vec<Card>)
    ensures
        r@ == v@.reverse(),
{
    let mut r: Vec<Card> = Vec::new();
    let mut i = v.len();
    proof {
        assert(r@ =~= v@.subrange(i as int, v@.len() as int).reverse());
    }
    while i > 0
        invariant
            i <= v@.len(),
            r@ == v@.subrange(i as int, v@.len() as int).reverse(),
        decreases i,
    {
        i = i - 1;
        r.push(v[i]);
        proof {
            assert(v@.subrange(i as int, v@.len() as int).reverse() =~= v@.subrange(
                i + 1,
                v@.len() as int,
            ).reverse().push(v@[i as int]));
        }
    }
    proof {
        assert(v@.subrange(0, v@.len() as int) =~= v@);
    }
    r
}

fn copy_cols(v: &Vec<Vec<Card>>) -> (r: Vec<Vec<Card>>)
    ensures
        r@.len() == v@.len(),
        cols_view(r@) == cols_view(v@),
{
    let mut r: Vec<Vec<Card>> = Vec::new();
    for i in 0..v.len()
        invariant
            r@.len() == i,
            forall|t: int| 0 <= t < i ==> #[trigger] r@[t]@ == v@[t]@,
    {
        r.push(copy_cards(&v[i]));
    }
    proof {
        assert(cols_view(r@) =~= cols_view(v@));
    }
    r
}

impl Clone for Solitaire {
    /// A deep, independent copy: snapshots share no mutable structure.
    fn clone(&self) -> (r: Self)
        ensures
            r@ == self@,
    {
        let r = Solitaire {
            deck: copy_cards(&self.deck),
            runoff: copy_cards(&self.runoff),
            row: copy_cols(&self.row),
            visibility: copy_counts(&self.visibility),
            goal: copy_cols(&self.goal),
        };
        proof {
            assert(r@ =~= self@);
        }
        r
    }
}

/// True exactly when the game is won as far as the engine checks: every
/// tableau column, the deck and the waste are empty. The foundations are not
/// inspected; with card conservation, emptiness everywhere else means every
/// card has reached a foundation.
pub open spec fn goal_reached(g: GameView) -> bool {
    g.deck.len() == 0 && g.runoff.len() == 0 && (forall|i: int|
        0 <= i < g.row.len() ==> #[trigger] g.row[i].len() == 0)
}

/// The standard tableau building rule: an empty column accepts anything; a
/// non-empty column accepts a card of the opposite color whose rank is exactly
/// one less than the column's top card.
pub open spec fn tableau_accepts(col: Seq<Card>, c: Card) -> bool {
    col.len() == 0 || (col.last().color != c.color && col.last().rank == c.rank + 1)
}

/// Foundation pile `k` accepts `c` when `c` is the pile's next rank and the
/// pile's own suit: piles build strictly ascending from rank 0, one suit per
/// pile, index-addressed by suit number.
pub open spec fn foundation_accepts(pile: Seq<Card>, k: int, c: Card) -> bool {
    c.rank == pile.len() && c.suit == k
}

/// The face-up suffix of a tableau column (empty when the visibility index
/// lies at or beyond the column's end).
pub open spec fn visible_run(col: Seq<Card>, vis: usize) -> Seq<Card> {
    if vis <= col.len() {
        col.subrange(vis as int, col.len() as int)
    } else {
        Seq::empty()
    }
}

/// The visible cards of the first `i` tableau columns, column by column,
/// bottom-up within a column.
pub open spec fn movable_upto(g: GameView, i: int) -> Seq<Card>
    decreases i,
{
    if i <= 0 {
        Seq::empty()
    } else {
        movable_upto(g, i - 1) + visible_run(g.row[i - 1], g.visibility[i - 1])
    }
}

/// Every card eligible for a tableau move, in enumeration order: the waste
/// top first, then every visible tableau card.
pub open spec fn movable_cards(g: GameView) -> Seq<Card> {
    (if g.runoff.len() > 0 {
        seq![g.runoff.last()]
    } else {
        Seq::empty()
    }) + movable_upto(g, g.row.len() as int)
}

/// The tableau moves of card `c` into the first `k` columns.
pub open spec fn tableau_moves_upto(g: GameView, c: Card, k: int) -> Seq<CardGameAction>
    decreases k,
{
    if k <= 0 {
        Seq::empty()
    } else {
        tableau_moves_upto(g, c, k - 1) + (if tableau_accepts(g.row[k - 1], c) {
            seq![CardGameAction::Move(c, StackId(1, (k - 1) as usize))]
        } else {
            Seq::empty()
        })
    }
}

/// The tableau moves of the first `t` candidate cards.
pub open spec fn tableau_moves_for_upto(g: GameView, cands: Seq<Card>, t: int) -> Seq<
    CardGameAction,
>
    decreases t,
{
    if t <= 0 {
        Seq::empty()
    } else {
        tableau_moves_for_upto(g, cands, t - 1) + tableau_moves_upto(
            g,
            cands[t - 1],
            g.row.len() as int,
        )
    }
}

/// The foundation moves of card `c` into the first `k` piles.
pub open spec fn foundation_moves_upto(g: GameView, c: Card, k: int) -> Seq<CardGameAction>
    decreases k,
{
    if k <= 0 {
        Seq::empty()
    } else {
        foundation_moves_upto(g, c, k - 1) + (if foundation_accepts(g.goal[k - 1], k - 1, c) {
            seq![CardGameAction::Move(c, StackId(2, (k - 1) as usize))]
        } else {
            Seq::empty()
        })
    }
}

/// The foundation moves of the first `t` candidate cards.
pub open spec fn foundation_moves_for_upto(g: GameView, cands: Seq<Card>, t: int) -> Seq<
    CardGameAction,
>
    decreases t,
{
    if t <= 0 {
        Seq::empty()
    } else {
        foundation_moves_for_upto(g, cands, t - 1) + foundation_moves_upto(
            g,
            cands[t - 1],
            g.goal.len() as int,
        )
    }
}

/// The top cards of the first `i` tableau columns, skipping empty columns.
pub open spec fn tops_upto(g: GameView, i: int) -> Seq<Card>
    decreases i,
{
    if i <= 0 {
        Seq::empty()
    } else {
        tops_upto(g, i - 1) + (if g.row[i - 1].len() > 0 {
            seq![g.row[i - 1].last()]
        } else {
            Seq::empty()
        })
    }
}

/// Every card eligible for a foundation move, in enumeration order: the waste
/// top first, then the top card of every non-empty tableau column.
pub open spec fn top_cards(g: GameView) -> Seq<Card> {
    (if g.runoff.len() > 0 {
        seq![g.runoff.last()]
    } else {
        Seq::empty()
    }) + tops_upto(g, g.row.len() as int)
}

/// The legal actions of a state, in a fixed order for determinism: first the
/// deck tap (when the deck or the waste holds a card), then every tableau move
/// of every movable card, then every foundation move of every top card.
pub open spec fn actions_view(g: GameView) -> Seq<CardGameAction> {
    (if g.deck.len() > 0 || g.runoff.len() > 0 {
        seq![CardGameAction::Tap(StackId(0, 0))]
    } else {
        Seq::empty()
    }) + tableau_moves_for_upto(g, movable_cards(g), movable_cards(g).len() as int)
        + foundation_moves_for_upto(g, top_cards(g), top_cards(g).len() as int)
}

/// Whether `id` names a stack this state actually has.
pub open spec fn valid_stack(g: GameView, id: StackId) -> bool {
    ||| id == StackId(0, 0)
    ||| id == StackId(0, 1)
    ||| (id.0 == 1 && (id.1 as int) < g.row.len())
    ||| (id.0 == 2 && (id.1 as int) < g.goal.len())
}

/// The cards of stack `id`, empty for an id the state does not have.
pub open spec fn stack_of(g: GameView, id: StackId) -> Seq<Card> {
    if id == StackId(0, 0) {
        g.deck
    } else if id == StackId(0, 1) {
        g.runoff
    } else if id.0 == 1 && (id.1 as int) < g.row.len() {
        g.row[id.1 as int]
    } else if id.0 == 2 && (id.1 as int) < g.goal.len() {
        g.goal[id.1 as int]
    } else {
        Seq::empty()
    }
}

/// The state with stack `id` replaced by `s`.
pub open spec fn replace_stack(g: GameView, id: StackId, s: Seq<Card>) -> GameView
    recommends
        valid_stack(g, id),
{
    if id == StackId(0, 0) {
        GameView { deck: s, runoff: g.runoff, row: g.row, visibility: g.visibility, goal: g.goal }
    } else if id == StackId(0, 1) {
        GameView { deck: g.deck, runoff: s, row: g.row, visibility: g.visibility, goal: g.goal }
    } else if id.0 == 1 {
        GameView {
            deck: g.deck,
            runoff: g.runoff,
            row: g.row.update(id.1 as int, s),
            visibility: g.visibility,
            goal: g.goal,
        }
    } else {
        GameView {
            deck: g.deck,
            runoff: g.runoff,
            row: g.row,
            visibility: g.visibility,
            goal: g.goal.update(id.1 as int, s),
        }
    }
}

/// The first column at or after `i` holding a card equal to `c`, with the
/// position of the first equal card in it.
pub open spec fn find_in_cols(cols: Seq<Seq<Card>>, c: Card, i: int) -> Option<(int, int)>
    decreases cols.len() - i,
{
    if i < 0 || i >= cols.len() {
        None
    } else if cols[i].contains(c) {
        Some((i, cols[i].index_of_first(c).unwrap()))
    } else {
        find_in_cols(cols, c, i + 1)
    }
}

/// Where a move of card `c` lifts from: the first stack holding a card equal
/// to `c` — the deck, the waste, the tableau columns, the foundation piles, in
/// that order — with the position of the first equal card in that stack. In a
/// full 52-card game no two distinct cards are value-equal, so ties never
/// arise.
pub open spec fn find_card(g: GameView, c: Card) -> Option<(StackId, int)> {
    if g.deck.contains(c) {
        Some((StackId(0, 0), g.deck.index_of_first(c).unwrap()))
    } else if g.runoff.contains(c) {
        Some((StackId(0, 1), g.runoff.index_of_first(c).unwrap()))
    } else {
        match find_in_cols(g.row, c, 0) {
            Some((i, k)) => Some((StackId(1, i as usize), k)),
            None => match find_in_cols(g.goal, c, 0) {
                Some((i, k)) => Some((StackId(2, i as usize), k)),
                None => None,
            },
        }
    }
}

/// One column's visibility index after a move: when the column has shrunk to
/// or below the index while staying non-empty, the index steps down by one,
/// revealing the new top card; it is then clamped to the column's length, so
/// an empty column counts as fully visible.
pub open spec fn adjusted_visibility(col: Seq<Card>, v: usize) -> usize {
    let stepped: int = if 0 < col.len() <= v {
        v - 1
    } else {
        v as int
    };
    if stepped > col.len() {
        col.len() as usize
    } else {
        stepped as usize
    }
}

/// The visibility adjustment applied to every tableau column after a move.
pub open spec fn adjust_visibility(row: Seq<Seq<Card>>, vis: Seq<usize>) -> Seq<usize> {
    Seq::new(vis.len(), |i: int| adjusted_visibility(row[i], vis[i]))
}

/// The state after `Move(c, dest)`: the stack found by [`find_card`] is cut
/// at the found position, the lifted run is appended to `dest` preserving its
/// order, and every tableau visibility index is adjusted. A move whose card is
/// nowhere to be found, or whose destination the state does not have, leaves
/// the state unchanged.
pub open spec fn move_view(g: GameView, c: Card, dest: StackId) -> GameView {
    match find_card(g, c) {
        None => g,
        Some((src, k)) => {
            if !valid_stack(g, dest) {
                g
            } else {
                let source = stack_of(g, src);
                let run = source.subrange(k, source.len() as int);
                let g1 = replace_stack(g, src, source.subrange(0, k));
                let g2 = replace_stack(g1, dest, stack_of(g1, dest) + run);
                GameView {
                    deck: g2.deck,
                    runoff: g2.runoff,
                    row: g2.row,
                    visibility: adjust_visibility(g2.row, g2.visibility),
                    goal: g2.goal,
                }
            }
        },
    }
}

/// The state after tapping the deck: an empty deck takes back the whole waste
/// reversed, so the waste bottom becomes the new deck top; otherwise up to
/// three cards move, one at a time, from the deck top to the waste top.
pub open spec fn tap_view(g: GameView) -> GameView {
    if g.deck.len() == 0 {
        GameView {
            deck: g.runoff.reverse(),
            runoff: Seq::empty(),
            row: g.row,
            visibility: g.visibility,
            goal: g.goal,
        }
    } else {
        let d: int = if g.deck.len() < 3 {
            g.deck.len() as int
        } else {
            3
        };
        GameView {
            deck: g.deck.take(g.deck.len() - d),
            runoff: g.runoff + g.deck.subrange(g.deck.len() - d, g.deck.len() as int).reverse(),
            row: g.row,
            visibility: g.visibility,
            goal: g.goal,
        }
    }
}

/// The deterministic transition: a tap on the deck draws or recycles, a move
/// lifts a run onto its destination, and anything else — a tap elsewhere, a
/// move of a card that is nowhere to be found or to a destination the state
/// does not have — returns the state unchanged.
pub open spec fn result_view(g: GameView, act: CardGameAction) -> GameView {
    match act {
        CardGameAction::Move(c, dest) => move_view(g, c, dest),
        CardGameAction::Tap(id) => if id == StackId(0, 0) {
            tap_view(g)
        } else {
            g
        },
    }
}

/// Skipping columns that do not hold `c` leaves the search result unchanged.
proof fn lemma_find_in_cols_skip(cols: Seq<Seq<Card>>, c: Card, i: int)
    requires
        0 <= i <= cols.len(),
        forall|j: int| 0 <= j < i ==> !(#[trigger] cols[j]).contains(c),
    ensures
        find_in_cols(cols, c, 0) == find_in_cols(cols, c, i),
    decreases i,
{
    if i > 0 {
        lemma_find_in_cols_skip(cols, c, i - 1);
        assert(find_in_cols(cols, c, i - 1) == find_in_cols(cols, c, i));
    }
}

/// A successful column search returns a column in range and the first
/// position of an equal card in it.
pub proof fn lemma_find_in_cols_props(cols: Seq<Seq<Card>>, c: Card, i: int)
    requires
        0 <= i,
        find_in_cols(cols, c, i) is Some,
    ensures
        ({
            let (j, k) = find_in_cols(cols, c, i).unwrap();
            &&& i <= j < cols.len()
            &&& 0 <= k < cols[j].len()
            &&& cols[j][k] == c
            &&& forall|t: int| 0 <= t < k ==> cols[j][t] != c
        }),
    decreases cols.len() - i,
{
    if i < cols.len() {
        if cols[i].contains(c) {
            cols[i].index_of_first_ensures(c);
        } else {
            lemma_find_in_cols_props(cols, c, i + 1);
        }
    }
}

/// A successful card search names a stack the state has and a position
/// holding an equal card.
pub proof fn lemma_find_card_props(g: GameView, c: Card)
    requires
        g.row.len() <= usize::MAX,
        g.goal.len() <= usize::MAX,
        find_card(g, c) is Some,
    ensures
        ({
            let (src, k) = find_card(g, c).unwrap();
            &&& valid_stack(g, src)
            &&& 0 <= k < stack_of(g, src).len()
            &&& stack_of(g, src)[k] == c
        }),
{
    if g.deck.contains(c) {
        g.deck.index_of_first_ensures(c);
    } else if g.runoff.contains(c) {
        g.runoff.index_of_first_ensures(c);
    } else if find_in_cols(g.row, c, 0) is Some {
        lemma_find_in_cols_props(g.row, c, 0);
    } else {
        lemma_find_in_cols_props(g.goal, c, 0);
    }
}

/// The first position in `v` holding a card equal to `c`, by linear scan.
fn index_of(v: &Vec<Card>, c: Card) -> (r: Option<usize>)
    ensures
        match r {
            Some(k) => v@.index_of_first(c) == Some(k as int),
            None => !v@.contains(c),
        },
{
    for k in 0..v.len()
        invariant
            forall|t: int| 0 <= t < k ==> v@[t] != c,
    {
        if v[k] == c {
            proof {
                assert(v@.contains(c)) by {
                    assert(v@[k as int] == c);
                }
                v@.index_of_first_ensures(c);
            }
            return Some(k);
        }
    }
    proof {
        assert(!v@.contains(c));
    }
    None
}

impl Solitaire {
    /// Scans the stacks in search order — deck, waste, tableau columns,
    /// foundation piles — for the first card equal to `c`.
    fn locate_card(&self, c: Card) -> (r: Option<(StackId, usize)>)
        ensures
            match r {
                Some(p) => find_card(self@, c) == Some((p.0, p.1 as int)),
                None => find_card(self@, c) is None,
            },
    {
        if let Some(k) = index_of(&self.deck, c) {
            proof {
                self@.deck.index_of_first_ensures(c);
            }
            return Some((StackId(0, 0), k));
        }
        if let Some(k) = index_of(&self.runoff, c) {
            proof {
                self@.runoff.index_of_first_ensures(c);
            }
            return Some((StackId(0, 1), k));
        }
        let rows = self.row.len();
        for i in 0..rows
            invariant
                rows == self@.row.len(),
                !self@.deck.contains(c),
                !self@.runoff.contains(c),
                forall|j: int| 0 <= j < i ==> !(#[trigger] self@.row[j]).contains(c),
        {
            if let Some(k) = index_of(&self.row[i], c) {
                proof {
                    self@.row[i as int].index_of_first_ensures(c);
                    lemma_find_in_cols_skip(self@.row, c, i as int);
                }
                return Some((StackId(1, i), k));
            }
        }
        proof {
            lemma_find_in_cols_skip(self@.row, c, rows as int);
        }
        let goals = self.goal.len();
        for i in 0..goals
            invariant
                goals == self@.goal.len(),
                !self@.deck.contains(c),
                !self@.runoff.contains(c),
                find_in_cols(self@.row, c, 0) is None,
                forall|j: int| 0 <= j < i ==> !(#[trigger] self@.goal[j]).contains(c),
        {
            if let Some(k) = index_of(&self.goal[i], c) {
                proof {
                    self@.goal[i as int].index_of_first_ensures(c);
                    lemma_find_in_cols_skip(self@.goal, c, i as int);
                }
                return Some((StackId(2, i), k));
            }
        }
        proof {
            lemma_find_in_cols_skip(self@.goal, c, goals as int);
        }
        None
    }

    /// Whether this state has a stack named `id`.
    fn has_stack(&self, id: StackId) -> (r: bool)
        ensures
            r == valid_stack(self@, id),
    {
        (id.0 == 0 && (id.1 == 0 || id.1 == 1)) || (id.0 == 1 && id.1 < self.row.len()) || (id.0
            == 2 && id.1 < self.goal.len())
    }

    /// Cuts stack `src` at position `k`, returning the lifted run in order.
    fn take_run(&mut self, src: StackId, k: usize) -> (run: Vec<Card>)
        requires
            valid_stack(old(self)@, src),
            k <= stack_of(old(self)@, src).len(),
        ensures
            final(self)@ == replace_stack(
                old(self)@,
                src,
                stack_of(old(self)@, src).subrange(0, k as int),
            ),
            run@ == stack_of(old(self)@, src).subrange(
                k as int,
                stack_of(old(self)@, src).len() as int,
            ),
    {
        let ghost g = self@;
        if src.0 == 0 && src.1 == 0 {
            let run = self.deck.split_off(k);
            proof {
                assert(self@ =~= replace_stack(g, src, stack_of(g, src).subrange(0, k as int)));
            }
            run
        } else if src.0 == 0 {
            let run = self.runoff.split_off(k);
            proof {
                assert(self@ =~= replace_stack(g, src, stack_of(g, src).subrange(0, k as int)));
            }
            run
        } else if src.0 == 1 {
            let x = src.1;
            let mut col = copy_cards(&self.row[x]);
            let run = col.split_off(k);
            self.row.set(x, col);
            proof {
                assert(cols_view(self.row@) =~= g.row.update(x as int, stack_of(g, src).subrange(0, k as int)));
                assert(self@ =~= replace_stack(g, src, stack_of(g, src).subrange(0, k as int)));
            }
            run
        } else {
            let x = src.1;
            let mut col = copy_cards(&self.goal[x]);
            let run = col.split_off(k);
            self.goal.set(x, col);
            proof {
                assert(cols_view(self.goal@) =~= g.goal.update(x as int, stack_of(g, src).subrange(0, k as int)));
                assert(self@ =~= replace_stack(g, src, stack_of(g, src).subrange(0, k as int)));
            }
            run
        }
    }

    /// Pushes the run, in order, onto the top of stack `dest`.
    fn place(&mut self, dest: StackId, run: Vec<Card>)
        requires
            valid_stack(old(self)@, dest),
        ensures
            final(self)@ == replace_stack(
                old(self)@,
                dest,
                stack_of(old(self)@, dest) + run@,
            ),
    {
        let ghost g = self@;
        let ghost r0 = run@;
        let mut run = run;
        if dest.0 == 0 && dest.1 == 0 {
            self.deck.append(&mut run);
            proof {
                assert(self@ =~= replace_stack(g, dest, stack_of(g, dest) + r0));
            }
        } else if dest.0 == 0 {
            self.runoff.append(&mut run);
            proof {
                assert(self@ =~= replace_stack(g, dest, stack_of(g, dest) + r0));
            }
        } else if dest.0 == 1 {
            let x = dest.1;
            let mut col = copy_cards(&self.row[x]);
            col.append(&mut run);
            self.row.set(x, col);
            proof {
                assert(cols_view(self.row@) =~= g.row.update(x as int, stack_of(g, dest) + r0));
                assert(self@ =~= replace_stack(g, dest, stack_of(g, dest) + r0));
            }
        } else {
            let x = dest.1;
            let mut col = copy_cards(&self.goal[x]);
            col.append(&mut run);
            self.goal.set(x, col);
            proof {
                assert(cols_view(self.goal@) =~= g.goal.update(x as int, stack_of(g, dest) + r0));
                assert(self@ =~= replace_stack(g, dest, stack_of(g, dest) + r0));
            }
        }
    }

    /// The per-column visibility adjustment pass run after every move.
    fn adjust(&mut self)
        requires
            shaped(old(self)@),
        ensures
            final(self)@ == (GameView {
                deck: old(self)@.deck,
                runoff: old(self)@.runoff,
                row: old(self)@.row,
                visibility: adjust_visibility(old(self)@.row, old(self)@.visibility),
                goal: old(self)@.goal,
            }),
    {
        let ghost g = self@;
        let rows = self.row.len();
        for i in 0..rows
            invariant
                rows == g.row.len(),
                g.visibility.len() == g.row.len(),
                self.deck@ == g.deck,
                self.runoff@ == g.runoff,
                cols_view(self.row@) == g.row,
                cols_view(self.goal@) == g.goal,
                self.visibility@.len() == g.visibility.len(),
                forall|t: int|
                    i <= t < g.visibility.len() ==> #[trigger] self.visibility@[t]
                        == g.visibility[t],
                forall|t: int|
                    0 <= t < i ==> #[trigger] self.visibility@[t] == adjusted_visibility(
                        g.row[t],
                        g.visibility[t],
                    ),
        {
            let clen = self.row[i].len();
            let v = self.visibility[i];
            let mut nv = v;
            if clen > 0 && clen <= v {
                nv = v - 1;
            }
            if nv > clen {
                nv = clen;
            }
            self.visibility.set(i, nv);
            proof {
                assert(self.row@[i as int]@ == g.row[i as int]);
                assert(nv == adjusted_visibility(g.row[i as int], g.visibility[i as int]));
            }
        }
        proof {
            assert(self.visibility@ =~= adjust_visibility(g.row, g.visibility));
            assert(self@ =~= (GameView {
                deck: g.deck,
                runoff: g.runoff,
                row: g.row,
                visibility: adjust_visibility(g.row, g.visibility),
                goal: g.goal,
            }));
        }
    }

}

impl crate::problem::Problem<CardGameAction, CardGamePercept> for Solitaire {
    /// The structural well-formedness a driver must maintain; `deal`
    /// establishes it and `result` preserves it.
    open spec fn inv(&self) -> bool {
        shaped(self@)
    }
    /// The observer projection: a pure function of the snapshot, with every
    /// face the observer may not see masked out.
    fn percept(&self) -> (p: CardGamePercept)
        ensures
            p@ == percept_view(self@),
    {
        let ghost target = percept_view(self@);
        let mut stacks: Vec<(StackId, Vec<Option<Card>>)> = Vec::new();

        let mut deckv: Vec<Option<Card>> = Vec::new();
        let decklen = self.deck.len();
        for j in 0..decklen
            invariant
                decklen == self.deck@.len(),
                deckv@.len() == j,
                forall|t: int| 0 <= t < j ==> deckv@[t] is None,
        {
            deckv.push(None);
        }
        proof {
            assert(deckv@ =~= hidden_column(self@.deck));
        }
        stacks.push((StackId(0, 0), deckv));

        let mut runv: Vec<Option<Card>> = Vec::new();
        let runlen = self.runoff.len();
        for j in 0..runlen
            invariant
                runlen == self.runoff@.len(),
                runv@.len() == j,
                forall|t: int| 0 <= t < j ==> runv@[t] == Some(self.runoff@[t]),
        {
            runv.push(Some(self.runoff[j]));
        }
        proof {
            assert(runv@ =~= shown_column(self@.runoff));
        }
        stacks.push((StackId(0, 1), runv));

        proof {
            assert(forall|t: int|
                0 <= t < stacks@.len() ==> (#[trigger] stacks@[t].0, stacks@[t].1@) == target[t]);
        }
        let rows = self.row.len();
        for i in 0..rows
            invariant
                rows == self@.row.len(),
                shaped(self@),
                stacks@.len() == 2 + i,
                forall|t: int|
                    0 <= t < stacks@.len() ==> (#[trigger] stacks@[t].0, stacks@[t].1@) == target[t],
                target == percept_view(self@),
        {
            let mut colv: Vec<Option<Card>> = Vec::new();
            let vis = self.visibility[i];
            let collen = self.row[i].len();
            for j in 0..collen
                invariant
                    rows == self@.row.len(),
                    i < rows,
                    vis == self@.visibility[i as int],
                    collen == self@.row[i as int].len(),
                    colv@.len() == j,
                    forall|t: int|
                        0 <= t < j ==> colv@[t] == (if t < vis {
                            None
                        } else {
                            Some(self@.row[i as int][t])
                        }),
            {
                if j < vis {
                    colv.push(None);
                } else {
                    colv.push(Some(self.row[i][j]));
                }
            }
            proof {
                assert(colv@ =~= masked_column(self@.row[i as int], self@.visibility[i as int]));
            }
            stacks.push((StackId(1, i), colv));
        }

        let goals = self.goal.len();
        for i in 0..goals
            invariant
                rows == self@.row.len(),
                goals == self@.goal.len(),
                stacks@.len() == 2 + rows + i,
                forall|t: int|
                    0 <= t < stacks@.len() ==> (#[trigger] stacks@[t].0, stacks@[t].1@) == target[t],
                target == percept_view(self@),
        {
            let mut pilev: Vec<Option<Card>> = Vec::new();
            let pilelen = self.goal[i].len();
            for j in 0..pilelen
                invariant
                    goals == self@.goal.len(),
                    i < goals,
                    pilelen == self@.goal[i as int].len(),
                    pilev@.len() == j,
                    forall|t: int| 0 <= t < j ==> pilev@[t] == Some(self@.goal[i as int][t]),
            {
                pilev.push(Some(self.goal[i][j]));
            }
            proof {
                assert(pilev@ =~= shown_column(self@.goal[i as int]));
            }
            stacks.push((StackId(2, i), pilev));
        }

        let p = CardGamePercept { stacks };
        proof {
            assert(p@ =~= target);
        }
        p
    }

    /// Enumerates the legal actions in the fixed order of [`actions_view`]:
    /// the deck tap, then tableau moves, then foundation moves. Only the
    /// waste top and visible tableau cards are ever considered movable.
    fn actions(&self) -> (acts: Vec<CardGameAction>)
        ensures
            acts@ == actions_view(self@),
    {
        let ghost g = self@;
        let mut out: Vec<CardGameAction> = Vec::new();
        if self.deck.len() > 0 || self.runoff.len() > 0 {
            out.push(CardGameAction::Tap(StackId(0, 0)));
        }
        let ghost tap_part = out@;

        let mut considerations: Vec<Card> = Vec::new();
        if self.runoff.len() > 0 {
            considerations.push(self.runoff[self.runoff.len() - 1]);
        }
        let ghost waste_part = considerations@;
        let rows = self.row.len();
        proof {
            assert(considerations@ == waste_part + movable_upto(g, 0));
        }
        for i in 0..rows
            invariant
                shaped(self@),
                g == self@,
                rows == g.row.len(),
                waste_part == (if g.runoff.len() > 0 {
                    seq![g.runoff.last()]
                } else {
                    Seq::<Card>::empty()
                }),
                considerations@ == waste_part + movable_upto(g, i as int),
        {
            let vis = self.visibility[i];
            let len = self.row[i].len();
            let ghost base = considerations@;
            let mut j = vis;
            while j < len
                invariant
                    shaped(self@),
                    g == self@,
                    i < rows == g.row.len(),
                    vis == g.visibility[i as int],
                    len == g.row[i as int].len(),
                    vis <= j,
                    j <= len || j == vis,
                    considerations@ == base + (if vis <= len {
                        g.row[i as int].subrange(vis as int, j as int)
                    } else {
                        Seq::<Card>::empty()
                    }),
                decreases len - j,
            {
                considerations.push(self.row[i][j]);
                j = j + 1;
                proof {
                    assert(g.row[i as int].subrange(vis as int, j as int) =~= g.row[i as int]
                        .subrange(vis as int, j - 1)
                        .push(g.row[i as int][j - 1]));
                }
            }
            proof {
                assert(considerations@ == base + visible_run(g.row[i as int], vis));
                assert(considerations@ == waste_part + movable_upto(g, i as int + 1));
            }
        }
        let ghost cands = considerations@;
        proof {
            assert(cands == movable_cards(g));
        }

        let clen = considerations.len();
        for t in 0..clen
            invariant
                shaped(self@),
                g == self@,
                rows == g.row.len(),
                clen == cands.len(),
                cands == considerations@,
                cands == movable_cards(g),
                out@ == tap_part + tableau_moves_for_upto(g, cands, t as int),
        {
            let current = considerations[t];
            for k in 0..rows
                invariant
                    shaped(self@),
                    g == self@,
                    rows == g.row.len(),
                    t < clen == cands.len(),
                    cands == considerations@,
                    current == cands[t as int],
                    out@ == tap_part + tableau_moves_for_upto(g, cands, t as int)
                        + tableau_moves_upto(g, current, k as int),
            {
                let collen = self.row[k].len();
                if collen == 0 {
                    out.push(CardGameAction::Move(current, StackId(1, k)));
                } else {
                    let test = self.row[k][collen - 1];
                    proof {
                        assert(test == g.row[k as int].last());
                    }
                    if test.color != current.color && test.rank > 0 && test.rank - 1
                        == current.rank {
                        out.push(CardGameAction::Move(current, StackId(1, k)));
                    }
                }
                proof {
                    assert(out@ =~= tap_part + tableau_moves_for_upto(g, cands, t as int)
                        + tableau_moves_upto(g, current, k as int + 1));
                }
            }
            proof {
                assert(out@ =~= tap_part + tableau_moves_for_upto(g, cands, t as int + 1));
            }
        }
        proof {
            assert(out@ == tap_part + tableau_moves_for_upto(g, cands, cands.len() as int));
        }
        let ghost mid_part = out@;

        let mut tops: Vec<Card> = Vec::new();
        if self.runoff.len() > 0 {
            tops.push(self.runoff[self.runoff.len() - 1]);
        }
        proof {
            assert(tops@ == waste_part + tops_upto(g, 0));
        }
        for i in 0..rows
            invariant
                shaped(self@),
                g == self@,
                rows == g.row.len(),
                waste_part == (if g.runoff.len() > 0 {
                    seq![g.runoff.last()]
                } else {
                    Seq::<Card>::empty()
                }),
                tops@ == waste_part + tops_upto(g, i as int),
        {
            let collen = self.row[i].len();
            if collen > 0 {
                let c = self.row[i][collen - 1];
                proof {
                    assert(c == g.row[i as int].last());
                }
                tops.push(c);
            }
            proof {
                assert(tops@ =~= waste_part + tops_upto(g, i as int + 1));
            }
        }
        let ghost topseq = tops@;
        proof {
            assert(topseq == top_cards(g));
        }

        let goals = self.goal.len();
        let tlen = tops.len();
        for t in 0..tlen
            invariant
                shaped(self@),
                g == self@,
                goals == g.goal.len(),
                tlen == topseq.len(),
                topseq == tops@,
                topseq == top_cards(g),
                out@ == mid_part + foundation_moves_for_upto(g, topseq, t as int),
        {
            let current = tops[t];
            for k in 0..goals
                invariant
                    shaped(self@),
                    g == self@,
                    goals == g.goal.len(),
                    t < tlen == topseq.len(),
                    topseq == tops@,
                    current == topseq[t as int],
                    out@ == mid_part + foundation_moves_for_upto(g, topseq, t as int)
                        + foundation_moves_upto(g, current, k as int),
            {
                if current.rank == self.goal[k].len() && current.suit == k {
                    out.push(CardGameAction::Move(current, StackId(2, k)));
                }
                proof {
                    assert(out@ =~= mid_part + foundation_moves_for_upto(g, topseq, t as int)
                        + foundation_moves_upto(g, current, k as int + 1));
                }
            }
            proof {
                assert(out@ =~= mid_part + foundation_moves_for_upto(g, topseq, t as int + 1));
            }
        }
        proof {
            assert(out@ =~= actions_view(g));
        }
        out
    }

    /// Applies an action and returns the successor snapshot; the receiver is
    /// never mutated. Every action is accepted: one that `actions` would not
    /// enumerate either still resolves (the engine does not re-validate) or,
    /// when its card is nowhere to be found or its destination does not
    /// exist, silently returns an unchanged clone.
    fn result(&self, act: CardGameAction) -> (r: Self)
        ensures
            r@ == result_view(self@, act),
            shaped(r@),
    {
        let ghost g = self@;
        let mut out = self.clone();
        match act {
            CardGameAction::Tap(StackId(0, 0)) => {
                if out.deck.len() == 0 {
                    out.deck = reversed_cards(&out.runoff);
                    out.runoff = Vec::new();
                    proof {
                        assert(out@ =~= tap_view(g));
                    }
                } else {
                    let mut t: usize = 0;
                    proof {
                        assert(out.deck@ =~= g.deck.take(g.deck.len() - 0));
                        assert(out.runoff@ =~= g.runoff + g.deck.subrange(
                            g.deck.len() as int,
                            g.deck.len() as int,
                        ).reverse());
                    }
                    while t < 3 && out.deck.len() > 0
                        invariant
                            t <= 3,
                            t <= g.deck.len(),
                            out.deck@ == g.deck.take(g.deck.len() - t),
                            out.runoff@ == g.runoff + g.deck.subrange(
                                g.deck.len() - t,
                                g.deck.len() as int,
                            ).reverse(),
                            cols_view(out.row@) == g.row,
                            out.visibility@ == g.visibility,
                            cols_view(out.goal@) == g.goal,
                        decreases 3 - t,
                    {
                        let c = out.deck.pop().unwrap();
                        out.runoff.push(c);
                        t = t + 1;
                        proof {
                            assert(c == g.deck[g.deck.len() - t]);
                            assert(out.deck@ =~= g.deck.take(g.deck.len() - t));
                            assert(g.deck.subrange(g.deck.len() - t, g.deck.len() as int).reverse()
                                =~= g.deck.subrange(
                                g.deck.len() - (t - 1),
                                g.deck.len() as int,
                            ).reverse().push(c));
                            assert(out.runoff@ =~= g.runoff + g.deck.subrange(
                                g.deck.len() - t,
                                g.deck.len() as int,
                            ).reverse());
                        }
                    }
                    proof {
                        assert(t as int == (if g.deck.len() < 3 {
                            g.deck.len() as int
                        } else {
                            3
                        }));
                        assert(out@ =~= tap_view(g));
                    }
                }
            },
            CardGameAction::Move(card, dest) => {
                let found = out.locate_card(card);
                match found {
                    None => {},
                    Some((src, k)) => {
                        let rows_bound = out.row.len();
                        let goals_bound = out.goal.len();
                        proof {
                            assert(g.row.len() == rows_bound as int);
                            assert(g.goal.len() == goals_bound as int);
                            lemma_find_card_props(g, card);
                        }
                        if out.has_stack(dest) {
                            let run = out.take_run(src, k);
                            out.place(dest, run);
                            out.adjust();
                            proof {
                                assert(out@ =~= move_view(g, card, dest));
                            }
                        }
                    },
                }
            },
            _ => {},
        }
        out
    }

    /// Goal test: all tableau columns empty and both deck and waste empty.
    fn is_goal(&self) -> (r: bool)
        ensures
            r == goal_reached(self@),
    {
        for i in 0..self.row.len()
            invariant
                forall|j: int| 0 <= j < i ==> #[trigger] self@.row[j].len() == 0,
        {
            if self.row[i].len() > 0 {
                proof {
                    assert(self@.row[i as int].len() > 0);
                }
                return false;
            }
        }
        self.deck.len() == 0 && self.runoff.len() == 0
    }
}

} // verus!

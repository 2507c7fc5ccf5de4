//! The engine's global guarantees, stated and proved over the state model:
//! card conservation, well-formedness preservation under legal actions,
//! visibility monotonicity, run-move atomicity, recycle determinism, and
//! percept information hiding.

use vstd::prelude::*;
use vstd::multiset::Multiset;
use vstd::seq_lib::lemma_multiset_commutative;
use crate::cards::Card;
use crate::solitaire::{
    actions_view, adjust_visibility, adjusted_visibility, deal_view, dealt_column, find_card,
    foundation_accepts, foundation_moves_for_upto, foundation_moves_upto, lemma_find_card_props,
    lemma_triangle_mono, lemma_triangle_nonneg, movable_cards, movable_upto, move_view,
    masked_column, percept_view, replace_stack, result_view, shaped, shown_column, stack_of,
    tableau_accepts, tableau_moves_for_upto, tableau_moves_upto, tap_view, top_cards, tops_upto,
    triangle, valid_stack, visible_run, CardGameAction, GameView, StackId,
};

verus! {

broadcast use vstd::multiset::group_multiset_axioms;

/// The multiset of cards held by a sequence of columns.
pub open spec fn cols_cards(cols: Seq<Seq<Card>>) -> Multiset<Card>
    decreases cols.len(),
{
    if cols.len() == 0 {
        Multiset::empty()
    } else {
        cols_cards(cols.drop_last()).add(cols.last().to_multiset())
    }
}

/// The multiset of every card a state holds, across the deck, the waste, the
/// tableau columns and the foundation piles.
pub open spec fn all_cards(g: GameView) -> Multiset<Card> {
    g.deck.to_multiset().add(g.runoff.to_multiset()).add(cols_cards(g.row)).add(
        cols_cards(g.goal),
    )
}

/// Two multisets with the same counts are equal.
proof fn lemma_multiset_eq(m1: Multiset<Card>, m2: Multiset<Card>)
    requires
        forall|v: Card| m1.count(v) == m2.count(v),
    ensures
        m1 == m2,
{
    assert(m1 =~= m2);
}

/// A state's card count is the sum over its four zones.
proof fn lemma_all_cards_count(g: GameView, v: Card)
    ensures
        all_cards(g).count(v) == g.deck.to_multiset().count(v) + g.runoff.to_multiset().count(v)
            + cols_cards(g.row).count(v) + cols_cards(g.goal).count(v),
{
    let a = g.deck.to_multiset();
    let b = g.runoff.to_multiset();
    let c = cols_cards(g.row);
    let d = cols_cards(g.goal);
    assert(a.add(b).count(v) == a.count(v) + b.count(v));
    assert(a.add(b).add(c).count(v) == a.add(b).count(v) + c.count(v));
    assert(a.add(b).add(c).add(d).count(v) == a.add(b).add(c).count(v) + d.count(v));
}

/// Replacing one column exchanges exactly that column's cards.
proof fn lemma_cols_cards_update(cols: Seq<Seq<Card>>, x: int, s: Seq<Card>)
    requires
        0 <= x < cols.len(),
    ensures
        cols_cards(cols.update(x, s)).add(cols[x].to_multiset()) == cols_cards(cols).add(
            s.to_multiset(),
        ),
    decreases cols.len(),
{
    let updated = cols.update(x, s);
    if x == cols.len() - 1 {
        assert(updated.drop_last() =~= cols.drop_last());
        assert(updated.last() == s);
        assert(cols_cards(updated) == cols_cards(cols.drop_last()).add(s.to_multiset()));
        assert(cols_cards(cols) == cols_cards(cols.drop_last()).add(cols[x].to_multiset()));
        assert forall|v: Card|
            cols_cards(updated).add(cols[x].to_multiset()).count(v) == cols_cards(cols).add(
                s.to_multiset(),
            ).count(v) by {}
        assert(cols_cards(updated).add(cols[x].to_multiset()) =~= cols_cards(cols).add(
            s.to_multiset(),
        ));
    } else {
        assert(updated.drop_last() =~= cols.drop_last().update(x, s));
        assert(updated.last() == cols.last());
        lemma_cols_cards_update(cols.drop_last(), x, s);
        assert(cols_cards(updated) == cols_cards(cols.drop_last().update(x, s)).add(
            cols.last().to_multiset(),
        ));
        assert(cols_cards(cols) == cols_cards(cols.drop_last()).add(cols.last().to_multiset()));
        assert forall|v: Card|
            cols_cards(updated).add(cols[x].to_multiset()).count(v) == cols_cards(cols).add(
                s.to_multiset(),
            ).count(v) by {
            assert(cols_cards(cols.drop_last().update(x, s)).add(
                cols.drop_last()[x].to_multiset(),
            ).count(v) == cols_cards(cols.drop_last()).add(s.to_multiset()).count(v));
            assert(cols.drop_last()[x] == cols[x]);
        }
        assert(cols_cards(updated).add(cols[x].to_multiset()) =~= cols_cards(cols).add(
            s.to_multiset(),
        ));
    }
}

/// A sequence's cards split at any point into the cards of its two halves.
proof fn lemma_split_cards(s: Seq<Card>, k: int)
    requires
        0 <= k <= s.len(),
    ensures
        s.to_multiset() == s.subrange(0, k).to_multiset().add(
            s.subrange(k, s.len() as int).to_multiset(),
        ),
{
    assert(s =~= s.subrange(0, k) + s.subrange(k, s.len() as int));
    lemma_multiset_commutative(s.subrange(0, k), s.subrange(k, s.len() as int));
}

/// Exchanging one stack for another exchanges exactly those cards.
proof fn lemma_all_cards_replace(g: GameView, id: StackId, s: Seq<Card>)
    requires
        valid_stack(g, id),
    ensures
        all_cards(replace_stack(g, id, s)).add(stack_of(g, id).to_multiset()) == all_cards(
            g,
        ).add(s.to_multiset()),
{
    let r = replace_stack(g, id, s);
    if id.0 == 1 && !(id == StackId(0, 0) || id == StackId(0, 1)) {
        lemma_cols_cards_update(g.row, id.1 as int, s);
    } else if id.0 == 2 && !(id == StackId(0, 0) || id == StackId(0, 1)) {
        lemma_cols_cards_update(g.goal, id.1 as int, s);
    }
    assert forall|v: Card|
        all_cards(r).add(stack_of(g, id).to_multiset()).count(v) == all_cards(g).add(
            s.to_multiset(),
        ).count(v) by {
        lemma_all_cards_count(r, v);
        lemma_all_cards_count(g, v);
        if id.0 == 1 && !(id == StackId(0, 0) || id == StackId(0, 1)) {
            assert(cols_cards(g.row.update(id.1 as int, s)).add(
                g.row[id.1 as int].to_multiset(),
            ).count(v) == cols_cards(g.row).add(s.to_multiset()).count(v));
        } else if id.0 == 2 && !(id == StackId(0, 0) || id == StackId(0, 1)) {
            assert(cols_cards(g.goal.update(id.1 as int, s)).add(
                g.goal[id.1 as int].to_multiset(),
            ).count(v) == cols_cards(g.goal).add(s.to_multiset()).count(v));
        }
        assert(all_cards(r).add(stack_of(g, id).to_multiset()).count(v) == all_cards(r).count(v)
            + stack_of(g, id).to_multiset().count(v));
        assert(all_cards(g).add(s.to_multiset()).count(v) == all_cards(g).count(v)
            + s.to_multiset().count(v));
    }
    lemma_multiset_eq(
        all_cards(r).add(stack_of(g, id).to_multiset()),
        all_cards(g).add(s.to_multiset()),
    );
}

/// The stacks after a replacement: the replaced one holds the new cards,
/// every other stack is untouched.
proof fn lemma_stack_of_replace(g: GameView, id: StackId, s: Seq<Card>, id2: StackId)
    requires
        valid_stack(g, id),
        valid_stack(g, id2),
    ensures
        valid_stack(replace_stack(g, id, s), id2),
        stack_of(replace_stack(g, id, s), id2) == (if id2 == id {
            s
        } else {
            stack_of(g, id2)
        }),
{
}

/// The columns dealt from the tail of `cards` hold exactly that tail.
proof fn lemma_dealt_cols_cards(cards: Seq<Card>, n: int)
    requires
        0 <= n,
        triangle(n) <= cards.len(),
    ensures
        cols_cards(Seq::new(n as nat, |i: int| dealt_column(cards, i))) == cards.subrange(
            cards.len() - triangle(n),
            cards.len() as int,
        ).to_multiset(),
    decreases n,
{
    let len = cards.len() as int;
    let cols = Seq::new(n as nat, |i: int| dealt_column(cards, i));
    if n == 0 {
        assert(cards.subrange(len, len) =~= Seq::<Card>::empty());
        assert(Seq::<Card>::empty().to_multiset() =~= Multiset::<Card>::empty()) by {
            Seq::<Card>::empty().to_multiset_ensures();
        }
    } else {
        lemma_triangle_nonneg(n - 1);
        lemma_dealt_cols_cards(cards, n - 1);
        assert(cols.drop_last() =~= Seq::new((n - 1) as nat, |i: int| dealt_column(cards, i)));
        assert(cols.last() == dealt_column(cards, n - 1));
        let lower = cards.subrange(len - triangle(n), len - triangle(n - 1));
        let upper = cards.subrange(len - triangle(n - 1), len);
        lower.lemma_reverse_to_multiset();
        assert(cols.last().to_multiset() == lower.to_multiset());
        assert(lower + upper =~= cards.subrange(len - triangle(n), len));
        lemma_multiset_commutative(lower, upper);
        assert(cols_cards(cols) =~= cards.subrange(len - triangle(n), len).to_multiset());
    }
}

/// Card conservation at the deal: the dealt state holds exactly the supplied
/// cards, each exactly as often as it was supplied.
pub proof fn lemma_deal_conserves(cards: Seq<Card>, row_count: int, suits: int)
    requires
        0 <= row_count,
        0 <= suits,
        triangle(row_count) <= cards.len(),
    ensures
        all_cards(deal_view(cards, row_count, suits)) == cards.to_multiset(),
{
    let len = cards.len() as int;
    let g = deal_view(cards, row_count, suits);
    lemma_triangle_nonneg(row_count);

    let kept = cards.subrange(0, len - triangle(row_count));
    kept.lemma_reverse_to_multiset();
    assert(g.deck.to_multiset() == kept.to_multiset());

    assert(g.runoff.to_multiset() =~= Multiset::<Card>::empty()) by {
        g.runoff.to_multiset_ensures();
    }

    lemma_dealt_cols_cards(cards, row_count);

    assert(cols_cards(g.goal) == Multiset::<Card>::empty()) by {
        lemma_empty_cols_cards(g.goal);
    }

    lemma_split_cards(cards, len - triangle(row_count));
    assert(all_cards(g) =~= cards.to_multiset());
}

/// Empty columns hold no cards.
proof fn lemma_empty_cols_cards(cols: Seq<Seq<Card>>)
    requires
        forall|i: int| 0 <= i < cols.len() ==> #[trigger] cols[i].len() == 0,
    ensures
        cols_cards(cols) == Multiset::<Card>::empty(),
    decreases cols.len(),
{
    if cols.len() > 0 {
        lemma_empty_cols_cards(cols.drop_last());
        assert(cols.last() =~= Seq::<Card>::empty());
        assert(cols.last().to_multiset() =~= Multiset::<Card>::empty()) by {
            cols.last().to_multiset_ensures();
        }
        assert(cols_cards(cols) =~= Multiset::<Card>::empty());
    }
}

/// Card conservation at every step: no transition — legal or not — ever
/// duplicates or loses a card.
pub proof fn lemma_result_conserves(g: GameView, act: CardGameAction)
    requires
        g.row.len() <= usize::MAX,
        g.goal.len() <= usize::MAX,
    ensures
        all_cards(result_view(g, act)) == all_cards(g),
{
    match act {
        CardGameAction::Tap(id) => {
            if id == StackId(0, 0) {
                lemma_tap_conserves(g);
            }
        },
        CardGameAction::Move(c, dest) => {
            lemma_move_conserves(g, c, dest);
        },
    }
}

proof fn lemma_tap_conserves(g: GameView)
    ensures
        all_cards(tap_view(g)) == all_cards(g),
{
    let r = tap_view(g);
    if g.deck.len() == 0 {
        g.runoff.lemma_reverse_to_multiset();
        assert(g.deck.to_multiset() =~= Multiset::<Card>::empty()) by {
            g.deck.to_multiset_ensures();
        }
        assert(r.runoff.to_multiset() =~= Multiset::<Card>::empty()) by {
            r.runoff.to_multiset_ensures();
        }
        assert(all_cards(r) =~= all_cards(g));
    } else {
        let len = g.deck.len() as int;
        let d: int = if g.deck.len() < 3 {
            len
        } else {
            3
        };
        let drawn = g.deck.subrange(len - d, len);
        lemma_split_cards(g.deck, len - d);
        lemma_multiset_commutative(g.runoff, drawn.reverse());
        drawn.lemma_reverse_to_multiset();
        assert(all_cards(r) =~= all_cards(g));
    }
}

proof fn lemma_move_conserves(g: GameView, c: Card, dest: StackId)
    requires
        g.row.len() <= usize::MAX,
        g.goal.len() <= usize::MAX,
    ensures
        all_cards(move_view(g, c, dest)) == all_cards(g),
{
    if find_card(g, c) is Some && valid_stack(g, dest) {
        let (src, k) = find_card(g, c).unwrap();
        crate::solitaire::lemma_find_card_props(g, c);
        let source = stack_of(g, src);
        let run = source.subrange(k, source.len() as int);
        let g1 = replace_stack(g, src, source.subrange(0, k));
        let g2 = replace_stack(g1, dest, stack_of(g1, dest) + run);
        let r = move_view(g, c, dest);

        lemma_all_cards_replace(g, src, source.subrange(0, k));
        lemma_stack_of_replace(g, src, source.subrange(0, k), dest);
        lemma_all_cards_replace(g1, dest, stack_of(g1, dest) + run);
        lemma_multiset_commutative(stack_of(g1, dest), run);
        lemma_split_cards(source, k);
        assert(all_cards(r) == all_cards(g2));

        let taken = source.subrange(0, k);
        let dest1 = stack_of(g1, dest);
        assert forall|x: Card| #[trigger] all_cards(r).count(x) == all_cards(g).count(x) by {
            assert(all_cards(g1).add(source.to_multiset()).count(x) == all_cards(g).add(
                taken.to_multiset(),
            ).count(x));
            assert(all_cards(g1).add(source.to_multiset()).count(x) == all_cards(g1).count(x)
                + source.to_multiset().count(x));
            assert(all_cards(g).add(taken.to_multiset()).count(x) == all_cards(g).count(x)
                + taken.to_multiset().count(x));
            assert(taken.to_multiset().add(run.to_multiset()).count(x) == taken.to_multiset().count(
                x,
            ) + run.to_multiset().count(x));
            assert(all_cards(g2).add(dest1.to_multiset()).count(x) == all_cards(g1).add(
                (dest1 + run).to_multiset(),
            ).count(x));
            assert(all_cards(g2).add(dest1.to_multiset()).count(x) == all_cards(g2).count(x)
                + dest1.to_multiset().count(x));
            assert(dest1.to_multiset().add(run.to_multiset()).count(x) == dest1.to_multiset().count(
                x,
            ) + run.to_multiset().count(x));
            assert(all_cards(g1).add((dest1 + run).to_multiset()).count(x) == all_cards(g1).count(x)
                + (dest1 + run).to_multiset().count(x));
        }
        assert(all_cards(r) =~= all_cards(g));
    }
}

/// A transition never changes how many stacks the state has.
proof fn lemma_result_dims(g: GameView, act: CardGameAction)
    requires
        g.row.len() <= usize::MAX,
        g.goal.len() <= usize::MAX,
    ensures
        result_view(g, act).row.len() == g.row.len(),
        result_view(g, act).goal.len() == g.goal.len(),
        result_view(g, act).visibility.len() == g.visibility.len(),
{
    match act {
        CardGameAction::Tap(id) => {
        },
        CardGameAction::Move(c, dest) => {
            if find_card(g, c) is Some && valid_stack(g, dest) {
                crate::solitaire::lemma_find_card_props(g, c);
                let (src, k) = find_card(g, c).unwrap();
                let source = stack_of(g, src);
                let g1 = replace_stack(g, src, source.subrange(0, k));
                let g2 = replace_stack(g1, dest, stack_of(g1, dest) + source.subrange(
                    k,
                    source.len() as int,
                ));
            }
        },
    }
}

/// The state after a whole sequence of actions, applied first to last.
pub open spec fn run_actions(g: GameView, acts: Seq<CardGameAction>) -> GameView
    decreases acts.len(),
{
    if acts.len() == 0 {
        g
    } else {
        run_actions(result_view(g, acts[0]), acts.drop_first())
    }
}

proof fn lemma_run_conserves(g: GameView, acts: Seq<CardGameAction>)
    requires
        g.row.len() <= usize::MAX,
        g.goal.len() <= usize::MAX,
    ensures
        all_cards(run_actions(g, acts)) == all_cards(g),
    decreases acts.len(),
{
    if acts.len() > 0 {
        lemma_result_conserves(g, acts[0]);
        lemma_result_dims(g, acts[0]);
        lemma_run_conserves(result_view(g, acts[0]), acts.drop_first());
    }
}

/// Card conservation along any play: every state reachable from a valid deal
/// by any sequence of actions holds exactly the dealt cards — none is ever
/// duplicated or lost.
pub proof fn lemma_play_conserves(
    cards: Seq<Card>,
    row_count: int,
    suits: int,
    acts: Seq<CardGameAction>,
)
    requires
        0 <= row_count <= usize::MAX,
        0 <= suits <= usize::MAX,
        triangle(row_count) <= cards.len(),
    ensures
        all_cards(run_actions(deal_view(cards, row_count, suits), acts)) == cards.to_multiset(),
{
    lemma_deal_conserves(cards, row_count, suits);
    lemma_run_conserves(deal_view(cards, row_count, suits), acts);
}

/// One column's visibility entry is sound: an empty column counts as fully
/// visible, a non-empty column has a face-up top card.
pub open spec fn column_ok(col: Seq<Card>, v: usize) -> bool {
    if col.len() == 0 {
        v == 0
    } else {
        (v as int) < col.len()
    }
}

/// Game well-formedness: the shape invariant plus a sound visibility entry
/// for every column. `deal` establishes it; every legal action preserves it.
pub open spec fn wf(g: GameView) -> bool {
    &&& shaped(g)
    &&& g.row.len() <= usize::MAX
    &&& g.goal.len() <= usize::MAX
    &&& forall|i: int| 0 <= i < g.row.len() ==> column_ok(#[trigger] g.row[i], g.visibility[i])
}

/// No card occurs twice in the state.
pub open spec fn distinct_cards(g: GameView) -> bool {
    forall|c: Card| #[trigger] all_cards(g).count(c) <= 1
}

/// A valid deal is well-formed: each column's last card is face-up.
pub proof fn lemma_deal_wf(cards: Seq<Card>, row_count: int, suits: int)
    requires
        0 <= row_count <= usize::MAX,
        0 <= suits <= usize::MAX,
        triangle(row_count) <= cards.len(),
    ensures
        wf(deal_view(cards, row_count, suits)),
{
    let g = deal_view(cards, row_count, suits);
    assert forall|i: int| 0 <= i < g.row.len() implies column_ok(#[trigger] g.row[i], g.visibility[i]) by {
        lemma_triangle_nonneg(i);
        lemma_triangle_mono(i + 1, row_count);
        assert(g.row[i] == dealt_column(cards, i));
        assert(triangle(i + 1) == (i + 1) + triangle(i));
        assert(g.row[i].len() == i + 1);
        assert(g.visibility[i] == i as usize);
    }
}

/// Whether a sequence of actions is a legal play from `g`: each action is
/// enumerated by the state it is applied to.
pub open spec fn legal_play(g: GameView, acts: Seq<CardGameAction>) -> bool
    decreases acts.len(),
{
    acts.len() == 0 || (actions_view(g).contains(acts[0]) && legal_play(
        result_view(g, acts[0]),
        acts.drop_first(),
    ))
}

/// A deal from a duplicate-free supply is duplicate-free.
pub proof fn lemma_deal_distinct(cards: Seq<Card>, row_count: int, suits: int)
    requires
        0 <= row_count,
        0 <= suits,
        triangle(row_count) <= cards.len(),
        forall|c: Card| #[trigger] cards.to_multiset().count(c) <= 1,
    ensures
        distinct_cards(deal_view(cards, row_count, suits)),
{
    lemma_deal_conserves(cards, row_count, suits);
}

/// Card `c` lies face-up in column `i` at position `j`.
pub open spec fn exposed_at(g: GameView, c: Card, i: int, j: int) -> bool {
    &&& 0 <= i < g.row.len()
    &&& g.visibility[i] <= j < g.row[i].len()
    &&& g.row[i][j] == c
}

/// Card `c` is open to play: the waste top, or a face-up tableau card.
pub open spec fn exposed(g: GameView, c: Card) -> bool {
    ||| (g.runoff.len() > 0 && c == g.runoff.last())
    ||| exists|i: int, j: int| exposed_at(g, c, i, j)
}

proof fn lemma_tableau_moves_upto_inv(g: GameView, c: Card, k: int, a: CardGameAction)
    requires
        tableau_moves_upto(g, c, k).contains(a),
    ensures
        exists|x: int|
            0 <= x < k && a == CardGameAction::Move(c, StackId(1, x as usize))
                && tableau_accepts(#[trigger] g.row[x], c),
    decreases k,
{
    if k > 0 {
        let s1 = tableau_moves_upto(g, c, k - 1);
        let whole = tableau_moves_upto(g, c, k);
        let idx = choose|idx: int| 0 <= idx < whole.len() && whole[idx] == a;
        if idx < s1.len() {
            assert(s1[idx] == a);
            lemma_tableau_moves_upto_inv(g, c, k - 1, a);
        } else {
            assert(a == CardGameAction::Move(c, StackId(1, (k - 1) as usize)));
            assert(tableau_accepts(g.row[k - 1], c));
        }
    }
}

proof fn lemma_foundation_moves_upto_inv(g: GameView, c: Card, k: int, a: CardGameAction)
    requires
        foundation_moves_upto(g, c, k).contains(a),
    ensures
        exists|x: int|
            0 <= x < k && a == CardGameAction::Move(c, StackId(2, x as usize))
                && foundation_accepts(#[trigger] g.goal[x], x, c),
    decreases k,
{
    if k > 0 {
        let s1 = foundation_moves_upto(g, c, k - 1);
        let whole = foundation_moves_upto(g, c, k);
        let idx = choose|idx: int| 0 <= idx < whole.len() && whole[idx] == a;
        if idx < s1.len() {
            assert(s1[idx] == a);
            lemma_foundation_moves_upto_inv(g, c, k - 1, a);
        } else {
            assert(a == CardGameAction::Move(c, StackId(2, (k - 1) as usize)));
            assert(foundation_accepts(g.goal[k - 1], k - 1, c));
        }
    }
}

proof fn lemma_tableau_moves_for_upto_inv(
    g: GameView,
    cands: Seq<Card>,
    t: int,
    a: CardGameAction,
)
    requires
        tableau_moves_for_upto(g, cands, t).contains(a),
        t <= cands.len(),
    ensures
        exists|x: int|
            0 <= x < t && tableau_moves_upto(g, #[trigger] cands[x], g.row.len() as int).contains(
                a,
            ),
    decreases t,
{
    if t > 0 {
        let s1 = tableau_moves_for_upto(g, cands, t - 1);
        let whole = tableau_moves_for_upto(g, cands, t);
        let idx = choose|idx: int| 0 <= idx < whole.len() && whole[idx] == a;
        if idx < s1.len() {
            assert(s1[idx] == a);
            lemma_tableau_moves_for_upto_inv(g, cands, t - 1, a);
        } else {
            assert(tableau_moves_upto(g, cands[t - 1], g.row.len() as int)[idx - s1.len()] == a);
            assert(tableau_moves_upto(g, cands[t - 1], g.row.len() as int).contains(a));
        }
    }
}

proof fn lemma_foundation_moves_for_upto_inv(
    g: GameView,
    cands: Seq<Card>,
    t: int,
    a: CardGameAction,
)
    requires
        foundation_moves_for_upto(g, cands, t).contains(a),
        t <= cands.len(),
    ensures
        exists|x: int|
            0 <= x < t && foundation_moves_upto(
                g,
                #[trigger] cands[x],
                g.goal.len() as int,
            ).contains(a),
    decreases t,
{
    if t > 0 {
        let s1 = foundation_moves_for_upto(g, cands, t - 1);
        let whole = foundation_moves_for_upto(g, cands, t);
        let idx = choose|idx: int| 0 <= idx < whole.len() && whole[idx] == a;
        if idx < s1.len() {
            assert(s1[idx] == a);
            lemma_foundation_moves_for_upto_inv(g, cands, t - 1, a);
        } else {
            assert(foundation_moves_upto(g, cands[t - 1], g.goal.len() as int)[idx - s1.len()]
                == a);
            assert(foundation_moves_upto(g, cands[t - 1], g.goal.len() as int).contains(a));
        }
    }
}

proof fn lemma_movable_upto_inv(g: GameView, i: int, c: Card)
    requires
        i <= g.row.len(),
        movable_upto(g, i).contains(c),
    ensures
        exists|x: int, j: int| 0 <= x < i && exposed_at(g, c, x, j),
    decreases i,
{
    if i > 0 {
        let s1 = movable_upto(g, i - 1);
        let whole = movable_upto(g, i);
        let idx = choose|idx: int| 0 <= idx < whole.len() && whole[idx] == c;
        if idx < s1.len() {
            assert(s1[idx] == c);
            lemma_movable_upto_inv(g, i - 1, c);
        } else {
            let vr = visible_run(g.row[i - 1], g.visibility[i - 1]);
            let off = idx - s1.len();
            assert(vr[off] == c);
            assert(g.visibility[i - 1] <= g.row[i - 1].len());
            let j = g.visibility[i - 1] + off;
            assert(g.row[i - 1][j] == c);
            assert(exposed_at(g, c, i - 1, j));
        }
    }
}

proof fn lemma_tops_upto_inv(g: GameView, i: int, c: Card)
    requires
        i <= g.row.len(),
        tops_upto(g, i).contains(c),
    ensures
        exists|x: int|
            0 <= x < i && (#[trigger] g.row[x]).len() > 0 && c == g.row[x].last(),
    decreases i,
{
    if i > 0 {
        let s1 = tops_upto(g, i - 1);
        let whole = tops_upto(g, i);
        let idx = choose|idx: int| 0 <= idx < whole.len() && whole[idx] == c;
        if idx < s1.len() {
            assert(s1[idx] == c);
            lemma_tops_upto_inv(g, i - 1, c);
        } else {
            assert(g.row[i - 1].len() > 0 && c == g.row[i - 1].last());
        }
    }
}

/// Every enumerated move targets a stack the state has, obeys that stack's
/// building rule, and lifts a card that is open to play.
pub proof fn lemma_legal_move_facts(g: GameView, c: Card, dest: StackId)
    requires
        wf(g),
        actions_view(g).contains(CardGameAction::Move(c, dest)),
    ensures
        valid_stack(g, dest),
        exposed(g, c),
        dest.0 == 1 || dest.0 == 2,
        dest.0 == 1 ==> tableau_accepts(g.row[dest.1 as int], c),
        dest.0 == 2 ==> foundation_accepts(g.goal[dest.1 as int], dest.1 as int, c),
{
    let a = CardGameAction::Move(c, dest);
    let tap_part: Seq<CardGameAction> = if g.deck.len() > 0 || g.runoff.len() > 0 {
        seq![CardGameAction::Tap(StackId(0, 0))]
    } else {
        Seq::empty()
    };
    let cands = movable_cards(g);
    let tops = top_cards(g);
    let tmoves = tableau_moves_for_upto(g, cands, cands.len() as int);
    let fmoves = foundation_moves_for_upto(g, tops, tops.len() as int);
    let whole = actions_view(g);
    let idx = choose|idx: int| 0 <= idx < whole.len() && whole[idx] == a;
    if idx < tap_part.len() {
        assert(false);
    } else if idx < tap_part.len() + tmoves.len() {
        assert(tmoves[idx - tap_part.len()] == a);
        assert(tmoves.contains(a));
        lemma_tableau_moves_for_upto_inv(g, cands, cands.len() as int, a);
        let x = choose|x: int|
            0 <= x < cands.len() && tableau_moves_upto(g, #[trigger] cands[x], g.row.len() as int).contains(a);
        lemma_tableau_moves_upto_inv(g, cands[x], g.row.len() as int, a);
        assert(cands.contains(cands[x]));
        lemma_movable_contains_exposed(g, cands[x]);
    } else {
        assert(fmoves[idx - tap_part.len() - tmoves.len()] == a);
        assert(fmoves.contains(a));
        lemma_foundation_moves_for_upto_inv(g, tops, tops.len() as int, a);
        let x = choose|x: int|
            0 <= x < tops.len() && foundation_moves_upto(g, #[trigger] tops[x], g.goal.len() as int).contains(a);
        lemma_foundation_moves_upto_inv(g, tops[x], g.goal.len() as int, a);
        assert(tops.contains(tops[x]));
        lemma_tops_contains_exposed(g, tops[x]);
    }
}

proof fn lemma_movable_contains_exposed(g: GameView, c: Card)
    requires
        movable_cards(g).contains(c),
    ensures
        exposed(g, c),
{
    let waste_part: Seq<Card> = if g.runoff.len() > 0 {
        seq![g.runoff.last()]
    } else {
        Seq::empty()
    };
    let rest = movable_upto(g, g.row.len() as int);
    let idx = choose|idx: int|
        0 <= idx < movable_cards(g).len() && movable_cards(g)[idx] == c;
    if idx < waste_part.len() {
        assert(c == g.runoff.last() && g.runoff.len() > 0);
    } else {
        assert(rest[idx - waste_part.len()] == c);
        assert(rest.contains(c));
        lemma_movable_upto_inv(g, g.row.len() as int, c);
    }
}

proof fn lemma_tops_contains_exposed(g: GameView, c: Card)
    requires
        wf(g),
        top_cards(g).contains(c),
    ensures
        exposed(g, c),
{
    let waste_part: Seq<Card> = if g.runoff.len() > 0 {
        seq![g.runoff.last()]
    } else {
        Seq::empty()
    };
    let rest = tops_upto(g, g.row.len() as int);
    let idx = choose|idx: int| 0 <= idx < top_cards(g).len() && top_cards(g)[idx] == c;
    if idx < waste_part.len() {
        assert(c == g.runoff.last() && g.runoff.len() > 0);
    } else {
        assert(rest[idx - waste_part.len()] == c);
        assert(rest.contains(c));
        lemma_tops_upto_inv(g, g.row.len() as int, c);
        let x = choose|x: int|
            0 <= x < g.row.len() && (#[trigger] g.row[x]).len() > 0 && c == g.row[x].last();
        assert(column_ok(g.row[x], g.visibility[x]));
        assert(exposed_at(g, c, x, g.row[x].len() - 1));
    }
}

proof fn lemma_contains_count(s: Seq<Card>, x: Card)
    ensures
        s.contains(x) <==> s.to_multiset().count(x) > 0,
{
    s.to_multiset_ensures();
}

proof fn lemma_two_positions(s: Seq<Card>, i: int, j: int)
    requires
        0 <= i < j < s.len(),
        s[i] == s[j],
    ensures
        s.to_multiset().count(s[i]) >= 2,
{
    lemma_split_cards(s, j);
    let a = s.subrange(0, j);
    let b = s.subrange(j, s.len() as int);
    assert(a[i] == s[i]);
    assert(a.contains(s[i]));
    assert(b[0] == s[j]);
    assert(b.contains(s[i]));
    lemma_contains_count(a, s[i]);
    lemma_contains_count(b, s[i]);
    assert(s.to_multiset().count(s[i]) == a.to_multiset().add(b.to_multiset()).count(s[i]));
}

proof fn lemma_cols_cards_ge(cols: Seq<Seq<Card>>, i: int, v: Card)
    requires
        0 <= i < cols.len(),
    ensures
        cols_cards(cols).count(v) >= cols[i].to_multiset().count(v),
    decreases cols.len(),
{
    assert(cols_cards(cols).count(v) == cols_cards(cols.drop_last()).count(v)
        + cols.last().to_multiset().count(v));
    if i == cols.len() - 1 {
    } else {
        lemma_cols_cards_ge(cols.drop_last(), i, v);
        assert(cols.drop_last()[i] == cols[i]);
    }
}

proof fn lemma_cols_cards_ge2(cols: Seq<Seq<Card>>, i1: int, i2: int, v: Card)
    requires
        0 <= i1 < i2 < cols.len(),
    ensures
        cols_cards(cols).count(v) >= cols[i1].to_multiset().count(v) + cols[i2].to_multiset().count(
            v,
        ),
    decreases cols.len(),
{
    assert(cols_cards(cols).count(v) == cols_cards(cols.drop_last()).count(v)
        + cols.last().to_multiset().count(v));
    if i2 == cols.len() - 1 {
        lemma_cols_cards_ge(cols.drop_last(), i1, v);
        assert(cols.drop_last()[i1] == cols[i1]);
    } else {
        lemma_cols_cards_ge2(cols.drop_last(), i1, i2, v);
        assert(cols.drop_last()[i1] == cols[i1]);
        assert(cols.drop_last()[i2] == cols[i2]);
    }
}

proof fn lemma_find_in_cols_hits(cols: Seq<Seq<Card>>, c: Card, t: int, i: int)
    requires
        0 <= t <= i < cols.len(),
        cols[i].contains(c),
    ensures
        crate::solitaire::find_in_cols(cols, c, t) is Some,
    decreases i - t,
{
    if !cols[t].contains(c) {
        lemma_find_in_cols_hits(cols, c, t + 1, i);
    }
}

/// In a duplicate-free state an exposed card is found exactly where it lies:
/// the waste top is found at the waste top, a face-up tableau card at its own
/// face-up position.
pub proof fn lemma_find_exposed(g: GameView, c: Card)
    requires
        wf(g),
        distinct_cards(g),
        exposed(g, c),
    ensures
        find_card(g, c) is Some,
        ({
            let (src, k) = find_card(g, c).unwrap();
            ||| (src == StackId(0, 1) && g.runoff.len() > 0 && k == g.runoff.len() - 1
                && g.runoff[k] == c)
            ||| (src.0 == 1 && exposed_at(g, c, src.1 as int, k))
        }),
{
    lemma_all_cards_count(g, c);
    assert(all_cards(g).count(c) <= 1);
    if g.runoff.len() > 0 && c == g.runoff.last() {
        assert(g.runoff.contains(c)) by {
            assert(g.runoff[g.runoff.len() - 1] == c);
        }
        lemma_contains_count(g.runoff, c);
        if g.deck.contains(c) {
            lemma_contains_count(g.deck, c);
            assert(false);
        }
        g.runoff.index_of_first_ensures(c);
        let k = g.runoff.index_of_first(c).unwrap();
        if k < g.runoff.len() - 1 {
            lemma_two_positions(g.runoff, k, g.runoff.len() - 1);
            assert(false);
        }
        assert(find_card(g, c) == Some((StackId(0, 1), k)));
    } else {
        let (i, j) = choose|i: int, j: int| exposed_at(g, c, i, j);
        assert(exposed_at(g, c, i, j));
        assert(g.row[i].contains(c)) by {
            assert(g.row[i][j] == c);
        }
        lemma_contains_count(g.row[i], c);
        lemma_cols_cards_ge(g.row, i, c);
        if g.deck.contains(c) {
            lemma_contains_count(g.deck, c);
            assert(false);
        }
        if g.runoff.contains(c) {
            lemma_contains_count(g.runoff, c);
            assert(false);
        }
        lemma_find_in_cols_hits(g.row, c, 0, i);
        crate::solitaire::lemma_find_in_cols_props(g.row, c, 0);
        let (i0, k0) = crate::solitaire::find_in_cols(g.row, c, 0).unwrap();
        assert(g.row[i0][k0] == c);
        if i0 != i {
            assert(g.row[i0].contains(c)) by {
                assert(g.row[i0][k0] == c);
            }
            lemma_contains_count(g.row[i0], c);
            if i0 < i {
                lemma_cols_cards_ge2(g.row, i0, i, c);
            } else {
                lemma_cols_cards_ge2(g.row, i, i0, c);
            }
            assert(false);
        }
        if k0 != j {
            if k0 < j {
                lemma_two_positions(g.row[i], k0, j);
            } else {
                lemma_two_positions(g.row[i], j, k0);
            }
            assert(false);
        }
        assert(find_card(g, c) == Some((StackId(1, i0 as usize), k0)));
        assert(exposed_at(g, c, i0, k0));
    }
}

/// The per-column effect of a legal move: every visibility index stays or
/// steps down by exactly one, and every column stays sound.
proof fn lemma_legal_move_columns(g: GameView, c: Card, dest: StackId)
    requires
        wf(g),
        distinct_cards(g),
        actions_view(g).contains(CardGameAction::Move(c, dest)),
    ensures
        find_card(g, c) is Some,
        ({
            let r = result_view(g, CardGameAction::Move(c, dest));
            &&& r.row.len() == g.row.len()
            &&& r.visibility.len() == g.visibility.len()
            &&& forall|i: int|
                0 <= i < g.row.len() ==> column_ok(#[trigger] r.row[i], r.visibility[i])
            &&& forall|i: int|
                0 <= i < g.row.len() ==> (#[trigger] r.visibility[i]) == g.visibility[i] || (
                r.visibility[i] as int) == g.visibility[i] - 1
        }),
{
    lemma_legal_move_facts(g, c, dest);
    lemma_find_exposed(g, c);
    lemma_find_card_props(g, c);
    lemma_result_dims(g, CardGameAction::Move(c, dest));
    let (src, k) = find_card(g, c).unwrap();
    let source = stack_of(g, src);
    let run = source.subrange(k, source.len() as int);
    let g1 = replace_stack(g, src, source.subrange(0, k));
    let g2 = replace_stack(g1, dest, stack_of(g1, dest) + run);
    let r = result_view(g, CardGameAction::Move(c, dest));
    lemma_stack_of_replace(g, src, source.subrange(0, k), dest);
    assert(r.row == g2.row);
    assert(g2.visibility == g.visibility);
    assert(r.visibility == adjust_visibility(g2.row, g.visibility));
    assert forall|i: int|
        0 <= i < g.row.len() implies column_ok(#[trigger] r.row[i], r.visibility[i]) && (
        r.visibility[i] == g.visibility[i] || (r.visibility[i] as int) == g.visibility[i]
            - 1) by {
        let v = g.visibility[i];
        let col2 = g2.row[i];
        assert(r.visibility[i] == adjusted_visibility(col2, v));
        assert(column_ok(g.row[i], v));
        if dest.0 == 1 && dest.1 as int == i {
            if src == dest {
                assert(col2 =~= g.row[i]);
                assert(g.row[i].len() > 0);
            } else {
                assert(col2 == g.row[i] + run);
                assert(run.len() >= 1);
            }
        } else if src.0 == 1 && src.1 as int == i {
            assert(col2 == source.subrange(0, k));
            assert(exposed_at(g, c, src.1 as int, k));
            assert(v <= k);
        } else {
            assert(col2 == g.row[i]);
        }
    }
}

/// Visibility monotonicity: after any legal move, every tableau column's
/// visibility index either stays the same or decreases by exactly one, and
/// never exceeds the column's new length.
pub proof fn lemma_move_visibility(g: GameView, c: Card, dest: StackId)
    requires
        wf(g),
        distinct_cards(g),
        actions_view(g).contains(CardGameAction::Move(c, dest)),
    ensures
        ({
            let r = result_view(g, CardGameAction::Move(c, dest));
            &&& r.row.len() == g.row.len()
            &&& forall|i: int|
                0 <= i < g.row.len() ==> (#[trigger] r.visibility[i]) == g.visibility[i] || (
                r.visibility[i] as int) == g.visibility[i] - 1
            &&& forall|i: int|
                0 <= i < g.row.len() ==> (#[trigger] r.visibility[i] as int) <= r.row[i].len()
        }),
{
    lemma_legal_move_columns(g, c, dest);
    let r = result_view(g, CardGameAction::Move(c, dest));
    assert forall|i: int|
        0 <= i < g.row.len() implies (#[trigger] r.visibility[i] as int) <= r.row[i].len() by {
        assert(column_ok(r.row[i], r.visibility[i]));
    }
}

/// Legal-action soundness: applying any enumerated action preserves
/// well-formedness, conserves the cards, and keeps them duplicate-free.
pub proof fn lemma_legal_result_wf(g: GameView, act: CardGameAction)
    requires
        wf(g),
        distinct_cards(g),
        actions_view(g).contains(act),
    ensures
        wf(result_view(g, act)),
        all_cards(result_view(g, act)) == all_cards(g),
        distinct_cards(result_view(g, act)),
{
    lemma_result_conserves(g, act);
    lemma_result_dims(g, act);
    let r = result_view(g, act);
    match act {
        CardGameAction::Tap(id) => {
            assert(r.row == g.row && r.visibility == g.visibility);
        },
        CardGameAction::Move(c, dest) => {
            lemma_legal_move_columns(g, c, dest);
        },
    }
}

/// Run-move atomicity: a legal move lifts every card from the found position
/// to the stack top, in their original relative order, onto the destination;
/// the source keeps exactly its prefix. A move whose destination is its own
/// source leaves every stack unchanged.
pub proof fn lemma_move_run(g: GameView, c: Card, dest: StackId)
    requires
        wf(g),
        distinct_cards(g),
        actions_view(g).contains(CardGameAction::Move(c, dest)),
    ensures
        find_card(g, c) is Some,
        ({
            let (src, k) = find_card(g, c).unwrap();
            let source = stack_of(g, src);
            let r = result_view(g, CardGameAction::Move(c, dest));
            &&& source[k] == c
            &&& valid_stack(g, dest)
            &&& (dest != src ==> stack_of(r, dest) == stack_of(g, dest) + source.subrange(
                k,
                source.len() as int,
            ))
            &&& (dest != src ==> stack_of(r, src) == source.subrange(0, k))
            &&& (dest == src ==> stack_of(r, dest) == stack_of(g, dest))
        }),
{
    lemma_legal_move_facts(g, c, dest);
    lemma_find_exposed(g, c);
    lemma_find_card_props(g, c);
    let (src, k) = find_card(g, c).unwrap();
    let source = stack_of(g, src);
    let run = source.subrange(k, source.len() as int);
    let g1 = replace_stack(g, src, source.subrange(0, k));
    let g2 = replace_stack(g1, dest, stack_of(g1, dest) + run);
    let r = result_view(g, CardGameAction::Move(c, dest));
    lemma_stack_of_replace(g, src, source.subrange(0, k), dest);
    lemma_stack_of_replace(g, src, source.subrange(0, k), src);
    lemma_stack_of_replace(g1, dest, stack_of(g1, dest) + run, dest);
    lemma_stack_of_replace(g1, dest, stack_of(g1, dest) + run, src);
    assert(stack_of(r, dest) == stack_of(g2, dest));
    assert(stack_of(r, src) == stack_of(g2, src));
    if dest == src {
        assert(stack_of(g2, dest) =~= stack_of(g, dest));
    }
}

/// Every state along a legal play from a well-formed, duplicate-free state
/// stays well-formed and holds exactly the same cards.
pub proof fn lemma_legal_play_wf(g: GameView, acts: Seq<CardGameAction>)
    requires
        wf(g),
        distinct_cards(g),
        legal_play(g, acts),
    ensures
        wf(run_actions(g, acts)),
        distinct_cards(run_actions(g, acts)),
        all_cards(run_actions(g, acts)) == all_cards(g),
    decreases acts.len(),
{
    if acts.len() > 0 {
        lemma_legal_result_wf(g, acts[0]);
        lemma_legal_play_wf(result_view(g, acts[0]), acts.drop_first());
    }
}

/// The whole soundness of a game: dealt from a duplicate-free supply and
/// driven only by enumerated actions, every reachable state is well-formed
/// and holds exactly the dealt cards.
pub proof fn lemma_play_sound(
    cards: Seq<Card>,
    row_count: int,
    suits: int,
    acts: Seq<CardGameAction>,
)
    requires
        0 <= row_count <= usize::MAX,
        0 <= suits <= usize::MAX,
        triangle(row_count) <= cards.len(),
        forall|c: Card| #[trigger] cards.to_multiset().count(c) <= 1,
        legal_play(deal_view(cards, row_count, suits), acts),
    ensures
        wf(run_actions(deal_view(cards, row_count, suits), acts)),
        distinct_cards(run_actions(deal_view(cards, row_count, suits), acts)),
        all_cards(run_actions(deal_view(cards, row_count, suits), acts)) == cards.to_multiset(),
{
    lemma_deal_wf(cards, row_count, suits);
    lemma_deal_distinct(cards, row_count, suits);
    lemma_deal_conserves(cards, row_count, suits);
    lemma_legal_play_wf(deal_view(cards, row_count, suits), acts);
}

/// Deck recycle determinism: tapping with an empty deck moves the entire
/// waste to the deck reversed — the waste bottom becomes the new deck top —
/// touching nothing else and losing no card.
pub proof fn lemma_tap_recycle(g: GameView)
    requires
        g.deck.len() == 0,
    ensures
        ({
            let r = result_view(g, CardGameAction::Tap(StackId(0, 0)));
            &&& r.deck == g.runoff.reverse()
            &&& r.runoff.len() == 0
            &&& r.row == g.row && r.visibility == g.visibility && r.goal == g.goal
            &&& g.runoff.len() > 0 ==> r.deck.last() == g.runoff.first()
            &&& all_cards(r) == all_cards(g)
        }),
{
    lemma_tap_conserves(g);
}

/// Percept information hiding: the observer view masks every deck card and
/// every tableau card below its column's visibility index, and shows
/// everything else exactly as the state holds it.
pub proof fn lemma_percept_hides(g: GameView)
    requires
        shaped(g),
    ensures
        percept_view(g).len() == 2 + g.row.len() + g.goal.len(),
        percept_view(g)[0].0 == StackId(0, 0),
        percept_view(g)[0].1.len() == g.deck.len(),
        forall|j: int| 0 <= j < g.deck.len() ==> percept_view(g)[0].1[j] is None,
        percept_view(g)[1].0 == StackId(0, 1),
        percept_view(g)[1].1.len() == g.runoff.len(),
        forall|j: int| 0 <= j < g.runoff.len() ==> percept_view(g)[1].1[j] == Some(g.runoff[j]),
        forall|i: int|
            0 <= i < g.row.len() ==> (#[trigger] percept_view(g)[2 + i]).0 == StackId(
                1,
                i as usize,
            ) && percept_view(g)[2 + i].1 == masked_column(g.row[i], g.visibility[i]),
        forall|i: int, j: int|
            0 <= i < g.row.len() && 0 <= j < g.row[i].len() ==> (#[trigger] percept_view(
                g,
            )[2 + i].1[j]) == (if j < g.visibility[i] {
                None
            } else {
                Some(g.row[i][j])
            }),
        forall|i: int|
            0 <= i < g.goal.len() ==> (#[trigger] percept_view(
                g,
            )[2 + g.row.len() + i]).0 == StackId(2, i as usize) && percept_view(g)[2 + g.row.len()
                + i].1 == shown_column(g.goal[i]),
{
    assert forall|i: int|
        0 <= i < g.row.len() implies (#[trigger] percept_view(g)[2 + i]).0 == StackId(1, i as usize)
        && percept_view(g)[2 + i].1 == masked_column(g.row[i], g.visibility[i]) by {
        assert(percept_view(g)[2 + i] == (StackId(1, i as usize), masked_column(
            g.row[i],
            g.visibility[i],
        )));
    }
    assert forall|i: int|
        0 <= i < g.goal.len() implies (#[trigger] percept_view(g)[2 + g.row.len() + i]).0
        == StackId(2, i as usize) && percept_view(g)[2 + g.row.len() + i].1 == shown_column(
        g.goal[i],
    ) by {
        assert(percept_view(g)[2 + g.row.len() + i] == (StackId(2, i as usize), shown_column(
            g.goal[i],
        )));
    }
}

} // verus!

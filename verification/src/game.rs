use vstd::prelude::*;

use crate::card::Card;
use crate::clock::now_instant;
use vstd::multiset::Multiset;

verus! {

/// Whether the distinct positions {i, j, k} of `cards` hold a valid set:
/// the third of the cards at i and j is the card at k.
pub open spec fn is_set_at(cards: Seq<Card>, i: int, j: int, k: int) -> bool {
    &&& 0 <= i < j < cards.len()
    &&& 0 <= k < cards.len()
    &&& k != i
    &&& k != j
    &&& cards[i].spec_third(cards[j]) == cards[k]
}

/// Whether some unordered triple of distinct positions of `cards` holds a
/// valid set.
pub open spec fn has_set_seq(cards: Seq<Card>) -> bool {
    exists|i: int, j: int, k: int| is_set_at(cards, i, j, k)
}

/// One replenishment round: while the board holds no set, three cards move
/// from the front of the pile to the end of the board; if the pile runs out
/// first, the game ends. Returns the new board, the new pile, and whether
/// the game ended in the attempt.
pub open spec fn refill_until_set(shown: Seq<Card>, pile: Seq<Card>) -> (Seq<Card>, Seq<Card>, bool)
    decreases pile.len(),
{
    if has_set_seq(shown) {
        (shown, pile, false)
    } else if pile.len() == 0 {
        (shown, pile, true)
    } else {
        let m = if pile.len() >= 3 {
            3int
        } else {
            pile.len() as int
        };
        refill_until_set(shown + pile.take(m), pile.skip(m))
    }
}

/// The whole replenishment procedure: first fill the board to 12 cards as
/// far as the pile allows, then draw in threes until a set is shown or the
/// pile is exhausted.
pub open spec fn replenish(shown: Seq<Card>, pile: Seq<Card>) -> (Seq<Card>, Seq<Card>, bool) {
    let m = if shown.len() < 12 {
        if pile.len() < 12 - shown.len() {
            pile.len() as int
        } else {
            12 - shown.len()
        }
    } else {
        0
    };
    refill_until_set(shown + pile.take(m), pile.skip(m))
}

/// What a replenishment round guarantees: it only ends the game on an empty
/// pile with no set shown, it never shrinks the board nor grows the pile,
/// it keeps both counts divisible by three, and whenever it stops short of
/// exhaustion a set is shown.
pub proof fn lemma_refill_props(shown: Seq<Card>, pile: Seq<Card>)
    ensures
        ({
            let r = refill_until_set(shown, pile);
            &&& !r.2 ==> has_set_seq(r.0)
            &&& r.2 ==> r.1.len() == 0 && !has_set_seq(r.0)
            &&& r.0.len() >= shown.len()
            &&& r.1.len() <= pile.len()
            &&& shown.len() % 3 == 0 && pile.len() % 3 == 0 ==> r.0.len() % 3 == 0 && r.1.len() % 3
                == 0
        }),
    decreases pile.len(),
{
    if !has_set_seq(shown) && pile.len() > 0 {
        let m = if pile.len() >= 3 {
            3int
        } else {
            pile.len() as int
        };
        lemma_refill_props(shown + pile.take(m), pile.skip(m));
    }
}

/// What the whole replenishment guarantees, on a board and pile whose
/// counts are divisible by three: divisibility is kept, the game only ends
/// on an exhausted pile, and if cards remain in the pile afterwards the
/// board shows a set and holds at least 12 cards.
pub proof fn lemma_replenish_props(shown: Seq<Card>, pile: Seq<Card>)
    ensures
        ({
            let r = replenish(shown, pile);
            &&& !r.2 ==> has_set_seq(r.0)
            &&& r.2 ==> r.1.len() == 0 && !has_set_seq(r.0)
            &&& r.0.len() >= shown.len()
            &&& r.1.len() <= pile.len()
            &&& r.1.len() > 0 ==> has_set_seq(r.0) && r.0.len() >= 12
            &&& shown.len() % 3 == 0 && pile.len() % 3 == 0 ==> r.0.len() % 3 == 0 && r.1.len() % 3
                == 0
        }),
{
    let m = if shown.len() < 12 {
        if pile.len() < 12 - shown.len() {
            pile.len() as int
        } else {
            12 - shown.len()
        }
    } else {
        0
    };
    lemma_refill_props(shown + pile.take(m), pile.skip(m));
    let r = replenish(shown, pile);
    if r.1.len() > 0 {
        assert(pile.skip(m).len() > 0);
        assert((shown + pile.take(m)).len() >= 12);
    }
}

/// The cards named by a sequence of identifiers, in the same order.
pub open spec fn decode_all(ids: Seq<u8>) -> Seq<Card> {
    ids.map(|i: int, n: u8| Card::of_index(n as int))
}

/// The selection after the player toggles a position: an already selected
/// position is removed (the last recorded one taking its place), a new one
/// is appended.
pub open spec fn toggle_spec(sel: Seq<usize>, index: usize) -> Seq<usize> {
    if sel.contains(index) {
        let p = choose|p: int| 0 <= p < sel.len() && sel[p] == index;
        sel.update(p, sel.last()).drop_last()
    } else {
        sel.push(index)
    }
}

/// Whether i1 < i2 < i3 are the three smallest positions recorded in the
/// selection.
pub open spec fn three_least(sel: Seq<usize>, i1: usize, i2: usize, i3: usize) -> bool {
    &&& sel.contains(i1)
    &&& sel.contains(i2)
    &&& sel.contains(i3)
    &&& i1 < i2 < i3
    &&& forall|x: usize| sel.contains(x) ==> x == i1 || x == i2 || x == i3 || x > i3
}

/// A sequence with position `i` removed by swapping the last element into
/// its place.
pub open spec fn swap_remove_seq(s: Seq<Card>, i: int) -> Seq<Card> {
    s.update(i, s.last()).drop_last()
}

/// The board after the cards at positions i1 < i2 < i3 are removed without
/// replacement, each by a swap with the current last card.
pub open spec fn swap_remove3(s: Seq<Card>, i1: int, i2: int, i3: int) -> Seq<Card> {
    swap_remove_seq(swap_remove_seq(swap_remove_seq(s, i3), i2), i1)
}

/// The board without the cards at positions i1 < i2 < i3, the order of the
/// others kept.
pub open spec fn without3(s: Seq<Card>, i1: int, i2: int, i3: int) -> Seq<Card> {
    s.subrange(0, i1) + s.subrange(i1 + 1, i2) + s.subrange(i2 + 1, i3) + s.subrange(
        i3 + 1,
        s.len() as int,
    )
}

/// The board after the cards at positions i1 < i2 < i3 are replaced by the
/// last three cards of the pile: the very last card fills i3, the next i2,
/// the third-from-last i1.
pub open spec fn replace3(s: Seq<Card>, pile: Seq<Card>, i1: int, i2: int, i3: int) -> Seq<Card> {
    s.update(i3, pile[pile.len() - 1]).update(i2, pile[pile.len() - 2]).update(
        i1,
        pile[pile.len() - 3],
    )
}

/// How the end marker may move across an operation: once set it is kept
/// unchanged, otherwise it is set exactly when the operation ended the
/// game.
pub open spec fn ended_after(pre: Game, post: Game, newly: bool) -> bool {
    if pre.spec_ended() is Some {
        post.spec_ended() == pre.spec_ended()
    } else {
        post.spec_ended() is Some <==> newly
    }
}

/// What evaluating a selection whose three smallest positions are
/// i1 < i2 < i3 does to the board, and what it returns. A mismatch returns
/// the three cards looked at and changes nothing else; a match removes
/// them, shrinking the board when a set remains on an oversized board or
/// the pile cannot refill, and otherwise replacing them from the end of the
/// pile; replenishment then restores the board where it may have been left
/// without a set.
pub open spec fn check_outcome(
    pre: Game,
    post: Game,
    r: Option<Result<(Card, Card, Card), (Card, Card, Card)>>,
    i1: usize,
    i2: usize,
    i3: usize,
) -> bool {
    let s = pre.spec_shown();
    let p = pre.spec_pile();
    let c1 = s[i1 as int];
    let c2 = s[i2 as int];
    let c3 = s[i3 as int];
    if c1.spec_third(c2) != c3 {
        &&& r == Some(Err::<(Card, Card, Card), (Card, Card, Card)>((c3, c2, c1)))
        &&& post.spec_shown() == s
        &&& post.spec_pile() == p
        &&& post.spec_ended() == pre.spec_ended()
    } else {
        let rem = without3(s, i1 as int, i2 as int, i3 as int);
        let shrink = (has_set_seq(rem) && s.len() > 12) || p.len() < 3;
        &&& r == Some(Ok::<(Card, Card, Card), (Card, Card, Card)>((c3, c2, c1)))
        &&& if shrink {
            let s1 = swap_remove3(s, i1 as int, i2 as int, i3 as int);
            if p.len() < 3 {
                let rr = replenish(s1, p);
                post.spec_shown() == rr.0 && post.spec_pile() == rr.1 && ended_after(
                    pre,
                    post,
                    rr.2,
                )
            } else {
                post.spec_shown() == s1 && post.spec_pile() == p && post.spec_ended()
                    == pre.spec_ended()
            }
        } else {
            let s1 = replace3(s, p, i1 as int, i2 as int, i3 as int);
            let rr = replenish(s1, p.take(p.len() - 3));
            post.spec_shown() == rr.0 && post.spec_pile() == rr.1 && ended_after(pre, post, rr.2)
        }
    }
}

/// Toggling the same position twice in a row returns the selection to its
/// original membership: the same positions are selected, each the same
/// number of times; when the position was not selected before, even the
/// recorded order is exactly restored.
pub proof fn lemma_toggle_twice(sel: Seq<usize>, index: usize)
    requires
        sel.no_duplicates(),
    ensures
        toggle_spec(toggle_spec(sel, index), index).to_multiset() == sel.to_multiset(),
        !sel.contains(index) ==> toggle_spec(toggle_spec(sel, index), index) == sel,
{
    broadcast use vstd::seq_lib::group_to_multiset_ensures;
    broadcast use vstd::multiset::group_multiset_axioms;

    if !sel.contains(index) {
        let t1 = sel.push(index);
        assert(t1[sel.len() as int] == index);
        assert(t1.contains(index));
        let p = choose|p: int| 0 <= p < t1.len() && t1[p] == index;
        assert(p == sel.len());
        assert(toggle_spec(t1, index) =~= sel);
    } else {
        let p1 = choose|p: int| 0 <= p < sel.len() && sel[p] == index;
        let last = sel.last();
        let t1 = sel.update(p1, last).drop_last();
        assert(toggle_spec(sel, index) == t1);
        assert(!t1.contains(index)) by {
            if t1.contains(index) {
                let k = choose|k: int| 0 <= k < t1.len() && t1[k] == index;
                if k != p1 {
                    assert(sel[k] == index);
                }
            }
        }
        assert(t1.to_multiset() =~= sel.to_multiset().remove(index)) by {
            if p1 == sel.len() - 1 {
                assert(t1 =~= sel.remove(p1));
                sel.to_multiset_ensures();
            } else {
                let a = sel.take(p1);
                let b = sel.subrange(p1 + 1, sel.len() - 1);
                assert(sel =~= a + (seq![index] + (b + seq![last])));
                assert(t1 =~= a + (seq![last] + b));
                vstd::seq_lib::lemma_multiset_commutative(a, seq![index] + (b + seq![last]));
                vstd::seq_lib::lemma_multiset_commutative(seq![index], b + seq![last]);
                vstd::seq_lib::lemma_multiset_commutative(b, seq![last]);
                vstd::seq_lib::lemma_multiset_commutative(a, seq![last] + b);
                vstd::seq_lib::lemma_multiset_commutative(seq![last], b);
                assert(seq![index].to_multiset() =~= Multiset::<usize>::empty().insert(index)) by {
                    assert(seq![index] =~= Seq::<usize>::empty().push(index));
                    Seq::<usize>::empty().to_multiset_ensures();
                }
                assert(seq![last].to_multiset() =~= Multiset::<usize>::empty().insert(last)) by {
                    assert(seq![last] =~= Seq::<usize>::empty().push(last));
                    Seq::<usize>::empty().to_multiset_ensures();
                }
            }
        }
        let t2 = t1.push(index);
        assert(toggle_spec(t1, index) == t2);
        t1.to_multiset_ensures();
        assert(sel.to_multiset().count(index) > 0) by {
            sel.to_multiset_ensures();
        }
        assert(t2.to_multiset() =~= sel.to_multiset());
    }
}

/// Sorts a list of positions ascending by repeatedly extracting the least
/// remaining one.
fn sort_positions(v: &mut Vec<usize>)
    ensures
        final(v)@.to_multiset() == old(v)@.to_multiset(),
        final(v)@.len() == old(v)@.len(),
        forall|i: int, j: int| 0 <= i < j < final(v)@.len() ==> final(v)@[i] <= final(v)@[j],
{
    broadcast use vstd::seq_lib::group_to_multiset_ensures;
    broadcast use vstd::multiset::group_multiset_axioms;

    let ghost orig = v@;
    let mut out: Vec<usize> = Vec::new();
    while v.len() > 0
        invariant
            out@.to_multiset().add(v@.to_multiset()) == orig.to_multiset(),
            out@.len() + v@.len() == orig.len(),
            forall|i: int, j: int| 0 <= i < j < out@.len() ==> out@[i] <= out@[j],
            forall|i: int, j: int| 0 <= i < out@.len() && 0 <= j < v@.len() ==> out@[i] <= v@[j],
        decreases v@.len(),
    {
        let mut m: usize = 0;
        let mut q: usize = 1;
        while q < v.len()
            invariant
                m < v@.len(),
                q <= v@.len(),
                forall|t: int| 0 <= t < q ==> v@[m as int] <= v@[t],
            decreases v@.len() - q,
        {
            if v[q] < v[m] {
                m = q;
            }
            q += 1;
        }
        let ghost before_v = v@;
        let ghost before_out = out@;
        let x = v.remove(m);
        out.push(x);
        proof {
            before_out.to_multiset_ensures();
            before_v.to_multiset_ensures();
            assert(out@ == before_out.push(x));
            assert(v@ == before_v.remove(m as int));
            assert(before_out.push(x).to_multiset() =~= before_out.to_multiset().insert(x));
            assert(before_v.remove(m as int).to_multiset() =~= before_v.to_multiset().remove(
                before_v[m as int],
            ));
            assert(out@.to_multiset().add(v@.to_multiset()) =~= orig.to_multiset());
        }
    }
    *v = out;
}

/// Appends the cards of `src` at positions [from, to) to `dst`.
fn push_range(dst: &mut Vec<Card>, src: &Vec<Card>, from: usize, to: usize)
    requires
        from <= to <= src@.len(),
    ensures
        final(dst)@ == old(dst)@ + src@.subrange(from as int, to as int),
{
    let mut i = from;
    while i < to
        invariant
            from <= i <= to <= src@.len(),
            dst@ == old(dst)@ + src@.subrange(from as int, i as int),
        decreases to - i,
    {
        dst.push(src[i]);
        i += 1;
        proof {
            assert(dst@ =~= old(dst)@ + src@.subrange(from as int, i as int));
        }
    }
    proof {
        assert(dst@ =~= old(dst)@ + src@.subrange(from as int, to as int));
    }
}

/// Represents the state of a set game.
pub struct Game {
    pub ended: Option<std::time::Instant>,
    selection: Vec<usize>,
    pile: Vec<Card>,
    shown: Vec<Card>,
}

impl Game {
    /// The cards currently laid out for the player, in display order.
    pub closed spec fn spec_shown(&self) -> Seq<Card> {
        self.shown@
    }

    /// The cards not yet shown, in draw order: the front is drawn next.
    pub closed spec fn spec_pile(&self) -> Seq<Card> {
        self.pile@
    }

    /// The positions of the shown cards the player has selected, in the
    /// order they were recorded.
    pub closed spec fn spec_selection(&self) -> Seq<usize> {
        self.selection@
    }

    /// The end marker, set the moment the game becomes unwinnable.
    pub closed spec fn spec_ended(&self) -> Option<std::time::Instant> {
        self.ended
    }

    /// Validity of the game state: cards enter and leave the board in
    /// threes, and the selection holds distinct positions of the board.
    pub open spec fn wf(&self) -> bool {
        &&& self.spec_shown().len() % 3 == 0
        &&& self.spec_pile().len() % 3 == 0
        &&& forall|i: int|
            0 <= i < self.spec_selection().len() ==> (#[trigger] self.spec_selection()[i])
                < self.spec_shown().len()
        &&& forall|i: int, j: int|
            0 <= i < j < self.spec_selection().len() ==> self.spec_selection()[i]
                != self.spec_selection()[j]
    }

    /// Builds a game from a permutation of the 81 card identifiers: the
    /// first 12 decoded cards form the board, the rest the pile, and one
    /// replenishment establishes that a set is shown or ends the game.
    pub fn new(card_ids: Vec<u8>) -> (g: Game)
        requires
            card_ids@.len() == 81,
            forall|i: int| 0 <= i < 81 ==> card_ids@[i] < 81,
        ensures
            g.wf(),
            ({
                let all = decode_all(card_ids@);
                let r = replenish(all.take(12), all.skip(12));
                &&& g.spec_shown() == r.0
                &&& g.spec_pile() == r.1
                &&& g.spec_selection() == Seq::<usize>::empty()
                &&& (g.spec_ended() is Some <==> r.2)
            }),
    {
        let mut list: Vec<Card> = Vec::new();
        let mut idx: usize = 0;
        while idx < card_ids.len()
            invariant
                card_ids@.len() == 81,
                forall|i: int| 0 <= i < 81 ==> card_ids@[i] < 81,
                idx <= 81,
                list@ == decode_all(card_ids@.take(idx as int)),
            decreases 81 - idx,
        {
            let card = Card::from_tile_number(card_ids[idx]).unwrap();
            list.push(card);
            idx += 1;
            proof {
                assert(list@ =~= decode_all(card_ids@.take(idx as int)));
            }
        }
        proof {
            assert(card_ids@.take(81) =~= card_ids@);
        }
        let pile = list.split_off(12);
        let mut game = Game { pile, shown: list, selection: Vec::new(), ended: None };
        proof {
            assert(game.shown@ =~= decode_all(card_ids@).take(12));
            assert(game.pile@ =~= decode_all(card_ids@).skip(12));
        }
        game.draw_as_needed();
        game
    }

    /// Toggles the select state for a card position. Returns Err(()) if the
    /// position is out of bounds; otherwise returns the affected card and a
    /// boolean which is true if the card is now selected.
    pub fn select_card(&mut self, index: usize) -> (r: Result<(Card, bool), ()>)
        requires
            old(self).wf(),
        ensures
            final(self).wf(),
            final(self).spec_shown() == old(self).spec_shown(),
            final(self).spec_pile() == old(self).spec_pile(),
            final(self).spec_ended() == old(self).spec_ended(),
            index >= old(self).spec_shown().len() ==> r is Err && final(self).spec_selection()
                == old(self).spec_selection(),
            index < old(self).spec_shown().len() ==> {
                &&& final(self).spec_selection() == toggle_spec(old(self).spec_selection(), index)
                &&& r == Ok::<(Card, bool), ()>(
                    (
                        old(self).spec_shown()[index as int],
                        !old(self).spec_selection().contains(index),
                    ),
                )
            },
    {
        if index >= self.shown.len() {
            return Err(());
        }
        let n = self.selection.len();
        let mut p: usize = 0;
        while p < n && self.selection[p] != index
            invariant
                n == self.selection@.len(),
                p <= n,
                forall|q: int| 0 <= q < p ==> self.selection@[q] != index,
            decreases n - p,
        {
            p += 1;
        }
        if p < n {
            let removed = self.selection.swap_remove(p);
            proof {
                let o = old(self).spec_selection();
                assert(o.contains(index)) by {
                    assert(o[p as int] == index);
                }
                let pp = choose|pp: int| 0 <= pp < o.len() && o[pp] == index;
                assert(pp == p);
                assert forall|i: int, j: int|
                    0 <= i < j < self.selection@.len() implies self.selection@[i]
                    != self.selection@[j] by {
                    assert(o[i] == o[i] && o[j] == o[j] && o[p as int] == o[p as int]);
                    assert(self.selection@[i] == (if i == p {
                        o[o.len() - 1]
                    } else {
                        o[i]
                    }));
                    assert(self.selection@[j] == (if j == p {
                        o[o.len() - 1]
                    } else {
                        o[j]
                    }));
                }
            }
            Ok((self.shown[removed], false))
        } else {
            self.selection.push(index);
            proof {
                assert(!old(self).spec_selection().contains(index));
            }
            Ok((self.shown[index], true))
        }
    }

    /// Deselects the most recently selected position, if any, and returns
    /// the card standing there.
    pub fn pop_last(&mut self) -> (r: Option<Card>)
        requires
            old(self).wf(),
        ensures
            final(self).wf(),
            final(self).spec_shown() == old(self).spec_shown(),
            final(self).spec_pile() == old(self).spec_pile(),
            final(self).spec_ended() == old(self).spec_ended(),
            old(self).spec_selection().len() == 0 ==> r is None && final(self).spec_selection()
                == old(self).spec_selection(),
            old(self).spec_selection().len() > 0 ==> r == Some(
                old(self).spec_shown()[old(self).spec_selection().last() as int],
            ) && final(self).spec_selection() == old(self).spec_selection().drop_last(),
    {
        match self.selection.pop() {
            Some(index) => {
                proof {
                    assert(old(self).spec_selection()[old(self).spec_selection().len() - 1]
                        < old(self).spec_shown().len());
                }
                Some(self.shown[index])
            },
            None => None,
        }
    }

    /// Checks if the selected cards form a set, and removes or replaces
    /// them as needed. Returns None if fewer than three cards are selected;
    /// otherwise the three cards at the three smallest selected positions,
    /// the one at the largest position first, as Ok for a match (the cards
    /// leave the board) or Err for a mismatch (the board is untouched). Any
    /// selection of three or more is cleared.
    pub fn check_selected_set(&mut self) -> (r: Option<
        Result<(Card, Card, Card), (Card, Card, Card)>,
    >)
        requires
            old(self).wf(),
        ensures
            final(self).wf(),
            old(self).spec_selection().len() < 3 ==> ({
                &&& r is None
                &&& final(self).spec_shown() == old(self).spec_shown()
                &&& final(self).spec_pile() == old(self).spec_pile()
                &&& final(self).spec_selection() == old(self).spec_selection()
                &&& final(self).spec_ended() == old(self).spec_ended()
            }),
            old(self).spec_selection().len() >= 3 ==> ({
                &&& final(self).spec_selection() == Seq::<usize>::empty()
                &&& forall|i1: usize, i2: usize, i3: usize|
                    three_least(old(self).spec_selection(), i1, i2, i3) ==> check_outcome(
                        *old(self),
                        *final(self),
                        r,
                        i1,
                        i2,
                        i3,
                    )
            }),
    {
        broadcast use vstd::seq_lib::group_to_multiset_ensures;

        if self.selection.len() < 3 {
            return None;
        }
        let ghost o_sel = self.selection@;
        sort_positions(&mut self.selection);
        proof {
            assert(o_sel.no_duplicates()) by {
                assert forall|x: int, y: int|
                    0 <= x < o_sel.len() && 0 <= y < o_sel.len() && x != y implies o_sel[x]
                    != o_sel[y] by {
                    if x < y {
                        assert(old(self).spec_selection()[x] != old(self).spec_selection()[y]);
                    } else {
                        assert(old(self).spec_selection()[y] != old(self).spec_selection()[x]);
                    }
                }
            }
            o_sel.lemma_multiset_has_no_duplicates();
            o_sel.to_multiset_ensures();
            self.selection@.to_multiset_ensures();
            self.selection@.lemma_multiset_has_no_duplicates_conv();
        }
        let ghost s_sel = self.selection@;
        proof {
            assert forall|x: usize| s_sel.contains(x) implies o_sel.contains(x) by {
                assert(s_sel.to_multiset().count(x) > 0);
                assert(o_sel.to_multiset().count(x) > 0);
            }
            assert forall|x: usize| o_sel.contains(x) implies s_sel.contains(x) by {
                assert(o_sel.to_multiset().count(x) > 0);
                assert(s_sel.to_multiset().count(x) > 0);
            }
            assert forall|k: int| 0 <= k < s_sel.len() implies (#[trigger] s_sel[k]) < old(
                self,
            ).spec_shown().len() by {
                assert(s_sel.contains(s_sel[k]));
                assert(o_sel.contains(s_sel[k]));
                let q = choose|q: int| 0 <= q < o_sel.len() && o_sel[q] == s_sel[k];
                assert(old(self).spec_selection()[q] < old(self).spec_shown().len());
            }
            assert(three_least(o_sel, s_sel[0], s_sel[1], s_sel[2])) by {
                assert(s_sel.contains(s_sel[0]) && s_sel.contains(s_sel[1]) && s_sel.contains(
                    s_sel[2],
                ));
                assert(o_sel.contains(s_sel[0]) && o_sel.contains(s_sel[1]) && o_sel.contains(
                    s_sel[2],
                ));
                assert forall|x: usize| o_sel.contains(x) implies x == s_sel[0] || x == s_sel[1]
                    || x == s_sel[2] || x > s_sel[2] by {
                    assert(s_sel.contains(x));
                    let k = choose|k: int| 0 <= k < s_sel.len() && s_sel[k] == x;
                    if k > 2 {
                        assert(s_sel[2] <= s_sel[k]);
                        assert(s_sel[2] != s_sel[k]);
                    }
                }
            }
            assert forall|a: usize, b: usize, c: usize| three_least(o_sel, a, b, c) implies a
                == s_sel[0] && b == s_sel[1] && c == s_sel[2] by {
                assert(o_sel.contains(a) && o_sel.contains(b) && o_sel.contains(c));
                assert(o_sel.contains(s_sel[0]) && o_sel.contains(s_sel[1]) && o_sel.contains(
                    s_sel[2],
                ));
            }
        }
        let i1 = self.selection[0];
        let i2 = self.selection[1];
        let i3 = self.selection[2];
        let c1 = self.shown[i1];
        let c2 = self.shown[i2];
        let c3 = self.shown[i3];
        let t = c1.third(&c2);
        if t == c3 {
            let mut remaining: Vec<Card> = Vec::new();
            push_range(&mut remaining, &self.shown, 0, i1);
            push_range(&mut remaining, &self.shown, i1 + 1, i2);
            push_range(&mut remaining, &self.shown, i2 + 1, i3);
            let shown_len = self.shown.len();
            push_range(&mut remaining, &self.shown, i3 + 1, shown_len);
            proof {
                assert(remaining@ =~= without3(
                    old(self).spec_shown(),
                    i1 as int,
                    i2 as int,
                    i3 as int,
                ));
            }
            let has = Game::has_set(&remaining);
            let pile_len = self.pile.len();
            if (has && shown_len > 12) || pile_len < 3 {
                let x3 = self.shown.swap_remove(i3);
                let x2 = self.shown.swap_remove(i2);
                let x1 = self.shown.swap_remove(i1);
                self.selection.clear();
                proof {
                    assert(self.shown@ == swap_remove3(
                        old(self).spec_shown(),
                        i1 as int,
                        i2 as int,
                        i3 as int,
                    ));
                    assert(x3 == c3 && x2 == c2 && x1 == c1);
                    assert(self.selection@ =~= Seq::<usize>::empty());
                }
                if pile_len < 3 {
                    self.draw_as_needed();
                }
                Some(Ok((x3, x2, x1)))
            } else {
                let split_at = pile_len - 3;
                let mut drawn = self.pile.split_off(split_at);
                let d3 = drawn.pop().unwrap();
                self.shown.set(i3, d3);
                let d2 = drawn.pop().unwrap();
                self.shown.set(i2, d2);
                let d1 = drawn.pop().unwrap();
                self.shown.set(i1, d1);
                self.selection.clear();
                proof {
                    assert(self.shown@ == replace3(
                        old(self).spec_shown(),
                        old(self).spec_pile(),
                        i1 as int,
                        i2 as int,
                        i3 as int,
                    ));
                    assert(self.pile@ =~= old(self).spec_pile().take(pile_len - 3));
                    assert(self.selection@ =~= Seq::<usize>::empty());
                }
                self.draw_as_needed();
                Some(Ok((c3, c2, c1)))
            }
        } else {
            self.selection.clear();
            proof {
                assert(self.selection@ =~= Seq::<usize>::empty());
            }
            Some(Err((c3, c2, c1)))
        }
    }

    /// Repeatedly draws cards from the front of the pile until the board
    /// holds 12 cards and a set, or the pile is exhausted; exhaustion with
    /// no set shown sets the end marker, once and permanently.
    pub fn draw_as_needed(&mut self)
        requires
            old(self).wf(),
        ensures
            final(self).wf(),
            ({
                let r = replenish(old(self).spec_shown(), old(self).spec_pile());
                &&& final(self).spec_shown() == r.0
                &&& final(self).spec_pile() == r.1
                &&& final(self).spec_selection() == old(self).spec_selection()
                &&& old(self).spec_ended() is Some ==> final(self).spec_ended() == old(
                    self,
                ).spec_ended()
                &&& old(self).spec_ended() is None ==> (final(self).spec_ended() is Some <==> r.2)
            }),
            final(self).spec_pile().len() > 0 ==> has_set_seq(final(self).spec_shown())
                && final(self).spec_shown().len() >= 12,
            final(self).spec_ended() is None ==> has_set_seq(final(self).spec_shown()),
    {
        let ghost orig_shown = self.shown@;
        let ghost orig_pile = self.pile@;
        let ghost m_target: int = if orig_shown.len() < 12 {
            if orig_pile.len() < 12 - orig_shown.len() {
                orig_pile.len() as int
            } else {
                12 - orig_shown.len()
            }
        } else {
            0
        };
        let ghost mut moved: int = 0;
        while self.shown.len() < 12 && self.pile.len() > 0
            invariant
                0 <= moved <= m_target <= orig_pile.len(),
                self.shown@ == orig_shown + orig_pile.take(moved),
                self.pile@ == orig_pile.skip(moved),
                self.selection@ == old(self).selection@,
                self.ended == old(self).ended,
                orig_shown == old(self).shown@,
                orig_pile == old(self).pile@,
                m_target == (if orig_shown.len() < 12 {
                    if orig_pile.len() < 12 - orig_shown.len() {
                        orig_pile.len() as int
                    } else {
                        12 - orig_shown.len()
                    }
                } else {
                    0int
                }),
            decreases self.pile@.len(),
        {
            let card = self.pile.remove(0);
            self.shown.push(card);
            proof {
                moved = moved + 1;
                assert(self.shown@ =~= orig_shown + orig_pile.take(moved));
                assert(self.pile@ =~= orig_pile.skip(moved));
            }
        }
        proof {
            assert(moved == m_target);
        }
        let ghost fill_shown = self.shown@;
        let ghost fill_pile = self.pile@;
        loop
            invariant_except_break
                self.ended == old(self).ended,
            invariant
                self.shown@.len() % 3 == 0,
                self.pile@.len() % 3 == 0,
                self.shown@.len() >= fill_shown.len(),
                self.selection@ == old(self).selection@,
                old(self).wf(),
                fill_shown.len() >= old(self).shown@.len(),
                refill_until_set(self.shown@, self.pile@) == refill_until_set(
                    fill_shown,
                    fill_pile,
                ),
            ensures
                ({
                    let r = refill_until_set(fill_shown, fill_pile);
                    &&& self.shown@ == r.0
                    &&& self.pile@ == r.1
                    &&& self.selection@ == old(self).selection@
                    &&& old(self).ended is Some ==> self.ended == old(self).ended
                    &&& old(self).ended is None ==> (self.ended is Some <==> r.2)
                    &&& self.shown@.len() % 3 == 0
                    &&& self.pile@.len() % 3 == 0
                    &&& self.shown@.len() >= old(self).shown@.len()
                }),
            decreases self.pile@.len(),
        {
            let has = Game::has_set(&self.shown);
            if has {
                break ;
            }
            if self.pile.len() == 0 {
                if self.ended.is_none() {
                    self.ended = Some(now_instant());
                }
                break ;
            }
            let ghost step_shown = self.shown@;
            let ghost step_pile = self.pile@;
            let c0 = self.pile.remove(0);
            self.shown.push(c0);
            let c1 = self.pile.remove(0);
            self.shown.push(c1);
            let c2 = self.pile.remove(0);
            self.shown.push(c2);
            proof {
                assert(self.shown@ =~= step_shown + step_pile.take(3));
                assert(self.pile@ =~= step_pile.skip(3));
            }
        }
        proof {
            lemma_replenish_props(orig_shown, orig_pile);
            assert forall|i: int| 0 <= i < self.spec_selection().len() implies (
            #[trigger] self.spec_selection()[i]) < self.spec_shown().len() by {
                assert(old(self).spec_selection()[i] < old(self).spec_shown().len());
            }
            assert forall|i: int, j: int| 0 <= i < j < self.spec_selection().len() implies self
                .spec_selection()[i] != self.spec_selection()[j] by {
                assert(old(self).spec_selection()[i] != old(self).spec_selection()[j]);
            }
        }
    }

    /// The number of cards currently shown.
    pub fn shown_count(&self) -> (n: usize)
        ensures
            n == self.spec_shown().len(),
    {
        self.shown.len()
    }

    /// The number of cards not yet shown.
    pub fn pile_count(&self) -> (n: usize)
        ensures
            n == self.spec_pile().len(),
    {
        self.pile.len()
    }

    /// The shown card at a position.
    pub fn card_at(&self, index: usize) -> (c: Card)
        requires
            index < self.spec_shown().len(),
        ensures
            c == self.spec_shown()[index as int],
    {
        self.shown[index]
    }

    /// How many positions are currently selected.
    pub fn selection_count(&self) -> (n: usize)
        ensures
            n == self.spec_selection().len(),
    {
        self.selection.len()
    }

    /// Whether the shown card at a position is currently selected.
    pub fn is_selected(&self, index: usize) -> (r: bool)
        ensures
            r == self.spec_selection().contains(index),
    {
        let n = self.selection.len();
        let mut p: usize = 0;
        while p < n
            invariant
                n == self.spec_selection().len(),
                p <= n,
                forall|q: int| 0 <= q < p ==> self.spec_selection()[q] != index,
            decreases n - p,
        {
            if self.selection[p] == index {
                return true;
            }
            p += 1;
        }
        false
    }

    /// Whether the game has ended.
    pub fn has_ended(&self) -> (r: bool)
        ensures
            r == (self.spec_ended() is Some),
    {
        self.ended.is_some()
    }

    /// Checks if the provided list of cards holds at least one set.
    pub fn has_set(cards: &Vec<Card>) -> (r: bool)
        ensures
            r == has_set_seq(cards@),
    {
        let len = cards.len();
        if len == 0 {
            return false;
        }
        let mut i: usize = 0;
        while i < len - 1
            invariant
                len == cards@.len(),
                len > 0,
                i <= len - 1,
                forall|a: int, b: int, c: int| is_set_at(cards@, a, b, c) ==> a >= i,
            decreases len - i,
        {
            let mut j: usize = i + 1;
            while j < len
                invariant
                    len == cards@.len(),
                    i < j <= len,
                    i < len - 1,
                    forall|a: int, b: int, c: int|
                        is_set_at(cards@, a, b, c) ==> a > i || (a == i && b >= j),
                decreases len - j,
            {
                let t = cards[i].third(&cards[j]);
                let mut k: usize = 0;
                while k < len
                    invariant
                        len == cards@.len(),
                        i < j < len,
                        k <= len,
                        t == cards@[i as int].spec_third(cards@[j as int]),
                        forall|c: int| 0 <= c < k && c != i && c != j ==> cards@[c] != t,
                    decreases len - k,
                {
                    if k != i && k != j && cards[k] == t {
                        assert(is_set_at(cards@, i as int, j as int, k as int));
                        return true;
                    }
                    k += 1;
                }
                j += 1;
            }
            i += 1;
        }
        false
    }
}

} // verus!

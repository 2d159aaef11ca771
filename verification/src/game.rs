use vstd::prelude::*;

use crate::bottle::{
    count_color, lemma_count_all, lemma_count_concat, lemma_count_multiset,
    lemma_count_no_duplicates, lemma_count_none, pour_outcome, spec_empty, spec_full, spec_min,
    spec_solved, top_color, top_run_len, Bottle, PourError,
};
use crate::color::Color;

verus! {

/// Total number of units of color `c` across all bottles of a board.
pub open spec fn board_count(bs: Seq<Seq<Color>>, c: Color) -> int
    decreases bs.len(),
{
    if bs.len() == 0 {
        0
    } else {
        board_count(bs.drop_last(), c) + count_color(bs.last(), c)
    }
}

pub proof fn lemma_board_count_update(bs: Seq<Seq<Color>>, c: Color, i: int, x: Seq<Color>)
    requires
        0 <= i < bs.len(),
    ensures
        board_count(bs.update(i, x), c) == board_count(bs, c) - count_color(bs[i], c)
            + count_color(x, c),
    decreases bs.len(),
{
    let t = bs.update(i, x);
    if i == bs.len() - 1 {
        assert(t.drop_last() =~= bs.drop_last());
        assert(t.last() == x);
    } else {
        assert(t.drop_last() =~= bs.drop_last().update(i, x));
        assert(t.last() == bs.last());
        lemma_board_count_update(bs.drop_last(), c, i, x);
    }
}

/// Every bottle is either full of one color or empty: the player has won.
pub open spec fn spec_won(bs: Seq<Seq<Color>>) -> bool {
    forall|k: int| 0 <= k < bs.len() ==> spec_solved(#[trigger] bs[k]) || spec_empty(bs[k])
}

/// Pouring `src` into `tgt` would be legal and the target could take the
/// source's whole top run: the target has room, the source has a movable run,
/// and the top colors agree (or the target is empty).
pub open spec fn feasible_pour(src: Seq<Color>, tgt: Seq<Color>) -> bool {
    &&& !spec_full(tgt)
    &&& !spec_solved(src)
    &&& !spec_empty(src)
    &&& (top_color(tgt) == Color::Transparent || top_color(tgt) == top_color(src))
    &&& count_color(tgt, Color::Transparent) >= top_run_len(src)
}

/// Deadlock: no bottle is empty, and no ordered pair of distinct bottles
/// admits a feasible pour.
pub open spec fn spec_lost(bs: Seq<Seq<Color>>) -> bool {
    &&& forall|k: int| 0 <= k < bs.len() ==> !spec_empty(#[trigger] bs[k])
    &&& forall|i: int, j: int|
        0 <= i < bs.len() && 0 <= j < bs.len() && i != j ==> !feasible_pour(bs[i], bs[j])
}

/// The ways board generation can fail.
#[derive(Copy, Clone, PartialEq, Eq, Structural, Debug)]
pub enum GenError {
    /// More full bottles were requested than there are distinct pigments.
    TooFewColors,
    /// No fair mixture was found within the retry budget.
    RetriesExhausted,
}

/// How many shuffles the generator tries before giving up. With a capacity of
/// at least two the odds that one shuffle is rejected are small, so running
/// out of this budget is overwhelmingly unlikely.
pub const MAX_GENERATION_ATTEMPTS: usize = 32;

/// Slots `start .. start + len` of `s` all hold one color.
pub open spec fn uniform_window(s: Seq<Color>, start: int, len: int) -> bool {
    forall|j: int| start <= j < start + len ==> s[j] == s[start]
}

/// Somewhere in `s`, `len` consecutive slots hold one color.
pub open spec fn has_equal_run(s: Seq<Color>, len: int) -> bool {
    exists|i: int| 0 <= i && i + len <= s.len() && uniform_window(s, i, len)
}

/// The board a row of bottles stands for: one slot sequence per bottle.
pub open spec fn bottle_views(bottles: Seq<Bottle>) -> Seq<Seq<Color>> {
    bottles.map_values(|b: Bottle| b@)
}

/// `mixture` is the recipe the bottles were dealt from: that many distinct
/// pigments, and the bottles together hold exactly `bottle_size` units of
/// each of them and no unit of any other color.
pub open spec fn fair_mixture(
    bottles: Seq<Seq<Color>>,
    mixture: Seq<Color>,
    bottle_count: int,
    bottle_size: int,
) -> bool {
    &&& mixture.len() == bottle_count
    &&& forall|c: Color| count_color(mixture, c) <= 1
    &&& forall|c: Color| board_count(bottles, c) == bottle_size * count_color(mixture, c)
}

/// `mixture` is the recipe a whole starting board was dealt from: the full
/// bottles were filled from that many distinct pigments, `bottle_size` units
/// of each, and the appended empty bottles add no unit of any real color.
pub open spec fn fair_start(
    board: Seq<Seq<Color>>,
    mixture: Seq<Color>,
    full_count: int,
    bottle_size: int,
) -> bool {
    &&& mixture.len() == full_count
    &&& forall|c: Color| count_color(mixture, c) <= 1
    &&& forall|c: Color|
        c != Color::Transparent ==> board_count(board, c) == bottle_size * count_color(mixture, c)
}

/// The pigments a board can draw from: every color except the sentinel.
fn color_palette() -> (r: Vec<Color>)
    ensures
        r@.len() == 7,
        forall|i: int| 0 <= i < r@.len() ==> (#[trigger] r@[i]) != Color::Transparent,
        r@.no_duplicates(),
{
    let mut v: Vec<Color> = Vec::new();
    v.push(Color::Red);
    v.push(Color::Green);
    v.push(Color::Yellow);
    v.push(Color::Blue);
    v.push(Color::Pink);
    v.push(Color::Cyan);
    v.push(Color::White);
    v
}

/// Relies on rand's `IteratorRandom::choose_multiple`: reservoir sampling
/// that returns `min(amount, items.len())` elements of the iterator, drawn
/// from pairwise distinct positions. Which elements come back is up to the
/// generator, so only membership, distinctness and the length are promised.
#[verifier::external_body]
fn choose_mixture_colors(items: &Vec<Color>, amount: usize) -> (r: Vec<Color>)
    ensures
        r@.len() == spec_min(amount as int, items@.len() as int),
        forall|i: int| 0 <= i < r@.len() ==> items@.contains(#[trigger] r@[i]),
        items@.no_duplicates() ==> r@.no_duplicates(),
{
    rand::seq::IteratorRandom::choose_multiple(
        items.iter().copied(),
        &mut rand::thread_rng(),
        amount,
    )
}

/// Relies on rand's `SliceRandom::shuffle`: a Fisher-Yates shuffle, which
/// permutes the slice in place. Which permutation comes out is up to the
/// generator, so only the multiset of elements is promised.
#[verifier::external_body]
fn shuffle_colors(v: &mut Vec<Color>)
    ensures
        final(v)@.len() == old(v)@.len(),
        final(v)@.to_multiset() == old(v)@.to_multiset(),
        forall|i: int| 0 <= i < final(v)@.len() ==> old(v)@.contains(#[trigger] final(v)@[i]),
{
    rand::seq::SliceRandom::shuffle(v.as_mut_slice(), &mut rand::thread_rng());
}

/// Whether any `run` consecutive slots of `v` hold one color. The generator
/// rejects shuffles where such a run is at least a bottle long, since the run
/// could land as an already-solved bottle.
#[verifier::loop_isolation(false)]
fn has_color_run(v: &Vec<Color>, run: usize) -> (r: bool)
    requires
        run >= 1,
    ensures
        r == has_equal_run(v@, run as int),
{
    if v.len() < run {
        return false;
    }
    let mut i: usize = 0;
    while i <= v.len() - run
        invariant
            i <= v.len(),
            forall|p: int| 0 <= p < i ==> !uniform_window(v@, p, run as int),
        decreases v.len() - i,
    {
        let mut ok = true;
        let mut j: usize = 1;
        while j < run
            invariant
                1 <= j <= run,
                ok == (forall|q: int| 0 <= q < j ==> (#[trigger] v@[i + q]) == v@[i as int]),
            decreases run - j,
        {
            ok = ok && (v[i + j] == v[i]);
            j = j + 1;
        }
        if ok {
            assert forall|w: int| i <= w < i + run implies v@[w] == v@[i as int] by {
                assert(v@[i + (w - i)] == v@[i as int]);
            }
            assert(uniform_window(v@, i as int, run as int));
            return true;
        }
        assert(!uniform_window(v@, i as int, run as int)) by {
            let q = choose|q: int| 0 <= q < run && (#[trigger] v@[i + q]) != v@[i as int];
            assert(v@[i + q] != v@[i as int]);
        }
        i = i + 1;
    }
    assert(!has_equal_run(v@, run as int)) by {
        if has_equal_run(v@, run as int) {
            let w = choose|w: int| 0 <= w && w + run <= v@.len() && uniform_window(v@, w, run as int);
            assert(!uniform_window(v@, w, run as int));
        }
    }
    false
}

/// Builds `bottle_count` full bottles of capacity `bottle_size`: it draws that
/// many distinct pigments, lays out `bottle_size` units of each, shuffles them
/// all, and deals the row out bottle by bottle. A shuffle that leaves a whole
/// bottle's worth of one color in a row is rejected and redrawn, so no bottle
/// of a returned board starts out solved; after a bounded number of rejected
/// shuffles the generator reports failure instead of looping forever.
#[verifier::loop_isolation(false)]
pub fn get_random_mixed_bottles(bottle_count: usize, bottle_size: usize) -> (r: Result<
    Vec<Bottle>,
    GenError,
>)
    requires
        bottle_size >= 1,
    ensures
        (r == Err::<Vec<Bottle>, GenError>(GenError::TooFewColors)) == (bottle_count > 7),
        r is Ok ==> bottle_count == 0 || bottle_size > 1,
        match r {
            Ok(bottles) => {
                &&& bottles@.len() == bottle_count
                &&& forall|k: int|
                    0 <= k < bottles@.len() ==> {
                        &&& (#[trigger] bottles@[k]).wf()
                        &&& bottles@[k].size == bottle_size
                        &&& spec_full(bottles@[k]@)
                        &&& !spec_solved(bottles@[k]@)
                    }
                &&& exists|mixture: Seq<Color>|
                    #[trigger] fair_mixture(
                        bottle_views(bottles@),
                        mixture,
                        bottle_count as int,
                        bottle_size as int,
                    )
            },
            Err(_) => true,
        },
{
    let palette = color_palette();
    if bottle_count > palette.len() {
        return Err(GenError::TooFewColors);
    }
    let mut attempt: usize = 0;
    while attempt < MAX_GENERATION_ATTEMPTS
        invariant
            attempt <= MAX_GENERATION_ATTEMPTS,
        decreases MAX_GENERATION_ATTEMPTS - attempt,
    {
        let colors_to_use = choose_mixture_colors(&palette, bottle_count);
        let mut colors_vec: Vec<Color> = Vec::new();
        let mut round: usize = 0;
        while round < bottle_size
            invariant
                round <= bottle_size,
                colors_vec@.len() == round * bottle_count,
                forall|q: int|
                    0 <= q < colors_vec@.len() ==> (#[trigger] colors_vec@[q])
                        != Color::Transparent,
                forall|c: Color|
                    count_color(colors_vec@, c) == round * count_color(colors_to_use@, c),
            decreases bottle_size - round,
        {
            let mut k: usize = 0;
            while k < colors_to_use.len()
                invariant
                    k <= bottle_count,
                    colors_vec@.len() == round * bottle_count + k,
                    forall|q: int|
                        0 <= q < colors_vec@.len() ==> (#[trigger] colors_vec@[q])
                            != Color::Transparent,
                    forall|c: Color|
                        count_color(colors_vec@, c) == round * count_color(colors_to_use@, c)
                            + count_color(colors_to_use@.take(k as int), c),
                decreases colors_to_use@.len() - k,
            {
                let ghost pre = colors_vec@;
                colors_vec.push(colors_to_use[k]);
                proof {
                    assert forall|c: Color| count_color(colors_vec@, c) == round * count_color(
                        colors_to_use@,
                        c,
                    ) + count_color(colors_to_use@.take(k + 1 as int), c) by {
                        assert(colors_vec@.drop_last() =~= pre);
                        assert(colors_vec@.last() == colors_to_use@[k as int]);
                        assert(count_color(colors_vec@, c) == count_color(pre, c) + (
                        if colors_to_use@[k as int] == c {
                            1int
                        } else {
                            0int
                        }));
                        crate::bottle::lemma_count_take_step(colors_to_use@, c, k as int);
                    }
                }
                k = k + 1;
            }
            proof {
                assert((round + 1) * bottle_count == round * bottle_count + bottle_count)
                    by (nonlinear_arith);
                assert forall|c: Color| count_color(colors_vec@, c) == (round + 1) * count_color(
                    colors_to_use@,
                    c,
                ) by {
                    assert(colors_to_use@.take(colors_to_use@.len() as int) =~= colors_to_use@);
                    let x = count_color(colors_to_use@, c);
                    assert((round + 1) * x == round * x + x) by (nonlinear_arith);
                }
            }
            round = round + 1;
        }
        let ghost dealt = colors_vec@;
        shuffle_colors(&mut colors_vec);
        proof {
            assert forall|c: Color| count_color(colors_vec@, c) == bottle_size * count_color(
                colors_to_use@,
                c,
            ) by {
                lemma_count_multiset(dealt, c);
                lemma_count_multiset(colors_vec@, c);
            }
        }
        if !has_color_run(&colors_vec, bottle_size) {
            proof {
                if bottle_count >= 1 && bottle_size == 1 {
                    assert(colors_vec@.len() >= 1) by (nonlinear_arith)
                        requires
                            colors_vec@.len() == bottle_size * bottle_count,
                            bottle_size == 1,
                            bottle_count >= 1,
                    ;
                    assert(uniform_window(colors_vec@, 0, 1));
                    assert(has_equal_run(colors_vec@, 1));
                }
            }
            let total = colors_vec.len();
            let mut bottles: Vec<Bottle> = Vec::new();
            let mut pos: usize = 0;
            let mut b: usize = 0;
            while b < bottle_count
                invariant
                    b <= bottle_count,
                    pos == b * bottle_size,
                    colors_vec@.len() == bottle_size * bottle_count,
                    colors_vec@.len() == total,
                    bottles@.len() == b,
                    forall|q: int|
                        0 <= q < bottles@.len() ==> {
                            &&& (#[trigger] bottles@[q]).wf()
                            &&& bottles@[q].size == bottle_size
                            &&& spec_full(bottles@[q]@)
                            &&& !spec_solved(bottles@[q]@)
                        },
                    forall|c: Color|
                        board_count(bottle_views(bottles@), c) == count_color(
                            colors_vec@.take(pos as int),
                            c,
                        ),
                decreases bottle_count - b,
            {
                assert(pos + bottle_size <= colors_vec@.len()) by (nonlinear_arith)
                    requires
                        pos == b * bottle_size,
                        b < bottle_count,
                        colors_vec@.len() == bottle_size * bottle_count,
                ;
                let ghost start = pos as int;
                let mut chunk: Vec<Color> = Vec::new();
                let mut j: usize = 0;
                while j < bottle_size
                    invariant
                        j <= bottle_size,
                        pos == start + j,
                        start + bottle_size <= colors_vec@.len(),
                        colors_vec@.len() == total,
                        chunk@.len() == j,
                        forall|q: int| 0 <= q < j ==> chunk@[q] == colors_vec@[start + q],
                    decreases bottle_size - j,
                {
                    chunk.push(colors_vec[pos]);
                    pos = pos + 1;
                    j = j + 1;
                }
                proof {
                    lemma_count_none(chunk@, Color::Transparent);
                    assert(!uniform_window(colors_vec@, start, bottle_size as int));
                    let w = choose|w: int|
                        start <= w < start + bottle_size && colors_vec@[w] != colors_vec@[start];
                    assert(chunk@[w - start] != chunk@[0]);
                }
                let bottle = Bottle { size: bottle_size, color_list: chunk };
                assert(bottle.wf() && spec_full(bottle@) && !spec_solved(bottle@));
                let ghost views_pre = bottle_views(bottles@);
                let ghost poured = bottle@;
                bottles.push(bottle);
                proof {
                    assert((b + 1) * bottle_size == b * bottle_size + bottle_size)
                        by (nonlinear_arith);
                    assert forall|c: Color| board_count(
                        bottle_views(bottles@),
                        c,
                    ) == count_color(colors_vec@.take(pos as int), c) by {
                        let views = bottle_views(bottles@);
                        assert(views.len() == b + 1);
                        assert(views.drop_last() =~= views_pre);
                        assert(views.last() == poured);
                        assert(board_count(views, c) == board_count(views_pre, c) + count_color(
                            poured,
                            c,
                        ));
                        assert(board_count(views_pre, c) == count_color(
                            colors_vec@.take(start),
                            c,
                        ));
                        assert(poured =~= colors_vec@.subrange(start, start + bottle_size));
                        assert(colors_vec@.take(pos as int) =~= colors_vec@.take(start)
                            + colors_vec@.subrange(start, start + bottle_size));
                        lemma_count_concat(
                            colors_vec@.take(start),
                            colors_vec@.subrange(start, start + bottle_size),
                            c,
                        );
                    }
                }
                b = b + 1;
            }
            proof {
                assert(bottle_count * bottle_size == bottle_size * bottle_count)
                    by (nonlinear_arith);
                assert(colors_vec@.take(pos as int) =~= colors_vec@);
                assert forall|c: Color| count_color(colors_to_use@, c) <= 1 by {
                    lemma_count_no_duplicates(colors_to_use@, c);
                }
                assert(fair_mixture(
                    bottle_views(bottles@),
                    colors_to_use@,
                    bottle_count as int,
                    bottle_size as int,
                ));
            }
            return Ok(bottles);
        }
        attempt = attempt + 1;
    }
    Err(GenError::RetriesExhausted)
}

/// A bottle of `size` slots holding nothing.
#[verifier::loop_isolation(false)]
fn empty_bottle(size: usize) -> (b: Bottle)
    requires
        size >= 1,
    ensures
        b.wf(),
        b.size == size,
        spec_empty(b@),
        forall|q: int| 0 <= q < b@.len() ==> (#[trigger] b@[q]) == Color::Transparent,
{
    let mut color_list: Vec<Color> = Vec::new();
    let mut i: usize = 0;
    while i < size
        invariant
            i <= size,
            color_list@.len() == i,
            forall|q: int| 0 <= q < i ==> (#[trigger] color_list@[q]) == Color::Transparent,
        decreases size - i,
    {
        color_list.push(Color::Transparent);
        i = i + 1;
    }
    proof {
        lemma_count_all(color_list@, Color::Transparent);
    }
    Bottle { size, color_list }
}

/// One play session's board: a row of bottles of one shared capacity,
/// addressed by 0-based index.
pub struct Game {
    pub bottles: Vec<Bottle>,
    pub bottle_size: usize,
}

impl Game {
    /// The board as mathematics: one slot sequence per bottle, bottom first.
    pub open spec fn board(self) -> Seq<Seq<Color>> {
        bottle_views(self.bottles@)
    }

    /// Every bottle is well formed and has the board's shared capacity.
    pub open spec fn wf(self) -> bool {
        &&& self.bottle_size >= 1
        &&& forall|k: int|
            0 <= k < self.bottles@.len() ==> (#[trigger] self.bottles@[k]).wf()
                && self.bottles@[k].size == self.bottle_size
    }

    /// Builds a fresh board: `full_count` randomized full bottles, none of
    /// them solved at the start, followed by `empty_count` empty bottles, all
    /// of capacity `bottle_size`.
    #[verifier::loop_isolation(false)]
    pub fn new(full_count: usize, empty_count: usize, bottle_size: usize) -> (r: Result<
        Game,
        GenError,
    >)
        requires
            bottle_size >= 1,
            full_count + empty_count <= usize::MAX,
        ensures
            (r == Err::<Game, GenError>(GenError::TooFewColors)) == (full_count > 7),
            match r {
                Ok(game) => {
                    &&& game.wf()
                    &&& game.bottle_size == bottle_size
                    &&& game.board().len() == full_count + empty_count
                    &&& forall|k: int|
                        0 <= k < full_count ==> spec_full(#[trigger] game.board()[k])
                            && !spec_solved(game.board()[k])
                    &&& forall|k: int|
                        full_count <= k < game.board().len() ==> spec_empty(
                            #[trigger] game.board()[k],
                        )
                    &&& exists|mixture: Seq<Color>|
                        #[trigger] fair_start(
                            game.board(),
                            mixture,
                            full_count as int,
                            bottle_size as int,
                        )
                },
                Err(_) => true,
            },
    {
        let mut bottles = match get_random_mixed_bottles(full_count, bottle_size) {
            Ok(b) => b,
            Err(e) => {
                return Err(e);
            },
        };
        let ghost mixture = choose|m: Seq<Color>|
            fair_mixture(bottle_views(bottles@), m, full_count as int, bottle_size as int);
        let mut k: usize = 0;
        while k < empty_count
            invariant
                k <= empty_count,
                bottles@.len() == full_count + k,
                mixture.len() == full_count,
                forall|c: Color| count_color(mixture, c) <= 1,
                forall|c: Color|
                    c != Color::Transparent ==> board_count(bottle_views(bottles@), c)
                        == bottle_size * count_color(mixture, c),
                forall|q: int|
                    0 <= q < full_count ==> {
                        &&& (#[trigger] bottles@[q]).wf()
                        &&& bottles@[q].size == bottle_size
                        &&& spec_full(bottles@[q]@)
                        &&& !spec_solved(bottles@[q]@)
                    },
                forall|q: int|
                    full_count <= q < bottles@.len() ==> (#[trigger] bottles@[q]).wf()
                        && bottles@[q].size == bottle_size && spec_empty(bottles@[q]@),
            decreases empty_count - k,
        {
            let fresh = empty_bottle(bottle_size);
            let ghost views_pre = bottle_views(bottles@);
            let ghost fresh_view = fresh@;
            bottles.push(fresh);
            proof {
                assert forall|c: Color| c != Color::Transparent implies board_count(
                    bottle_views(bottles@),
                    c,
                ) == bottle_size * count_color(mixture, c) by {
                    let views = bottle_views(bottles@);
                    assert(views.len() == views_pre.len() + 1);
                    assert(views.drop_last() =~= views_pre);
                    assert(views.last() == fresh_view);
                    assert(board_count(views, c) == board_count(views_pre, c) + count_color(
                        fresh_view,
                        c,
                    ));
                    lemma_count_none(fresh_view, c);
                }
            }
            k = k + 1;
        }
        assert(fair_start(
            bottle_views(bottles@),
            mixture,
            full_count as int,
            bottle_size as int,
        ));
        Ok(Game { bottles, bottle_size })
    }

    /// True exactly when every bottle is solved or empty.
    #[verifier::loop_isolation(false)]
    pub fn is_game_won(&self) -> (r: bool)
        requires
            self.wf(),
        ensures
            r == spec_won(self.board()),
    {
        let mut k: usize = 0;
        while k < self.bottles.len()
            invariant
                k <= self.bottles@.len(),
                forall|q: int|
                    0 <= q < k ==> spec_solved(#[trigger] self.board()[q]) || spec_empty(
                        self.board()[q],
                    ),
            decreases self.bottles@.len() - k,
        {
            let bottle = &self.bottles[k];
            if !bottle.is_complete() && !bottle.is_empty() {
                assert(!spec_solved(self.board()[k as int]) && !spec_empty(
                    self.board()[k as int],
                ));
                return false;
            }
            k = k + 1;
        }
        true
    }

    /// True exactly when the board is deadlocked: no bottle is empty and no
    /// ordered pair of distinct bottles admits a feasible pour. An empty
    /// bottle always leaves a way out, so the game is then never lost.
    #[verifier::loop_isolation(false)]
    pub fn is_game_lost(&self) -> (r: bool)
        requires
            self.wf(),
        ensures
            r == spec_lost(self.board()),
    {
        let n = self.bottles.len();
        let mut k: usize = 0;
        while k < n
            invariant
                k <= n,
                forall|q: int| 0 <= q < k ==> !spec_empty(#[trigger] self.board()[q]),
            decreases n - k,
        {
            if self.bottles[k].is_empty() {
                assert(spec_empty(self.board()[k as int]));
                return false;
            }
            k = k + 1;
        }
        let mut i: usize = 0;
        while i < n
            invariant
                i <= n,
                forall|q: int| 0 <= q < n ==> !spec_empty(#[trigger] self.board()[q]),
                forall|p: int, q: int|
                    0 <= p < i && 0 <= q < n && p != q ==> !feasible_pour(
                        self.board()[p],
                        self.board()[q],
                    ),
            decreases n - i,
        {
            let src = &self.bottles[i];
            if !src.is_complete() {
                let (sc, slen) = src.get_top_color_and_size();
                let mut j: usize = 0;
                while j < n
                    invariant
                        j <= n,
                        forall|q: int|
                            0 <= q < j && q != i ==> !feasible_pour(
                                self.board()[i as int],
                                self.board()[q],
                            ),
                    decreases n - j,
                {
                    if j != i {
                        let tgt = &self.bottles[j];
                        if !tgt.is_full() {
                            let (tc, _) = tgt.get_top_color_and_size();
                            let space = tgt.get_empty_space_count();
                            if (matches!(tc, Color::Transparent) || tc == sc) && space >= slen {
                                assert(feasible_pour(
                                    self.board()[i as int],
                                    self.board()[j as int],
                                ));
                                return false;
                            }
                        }
                    }
                    j = j + 1;
                }
            }
            i = i + 1;
        }
        true
    }

    /// Applies one player move: pour bottle `source_index` into bottle
    /// `target_index`. Equal indices are a silent no-op that changes nothing.
    /// Every bottle other than the two named keeps its contents, and the
    /// total amount of each color on the board never changes.
    pub fn play_move(&mut self, source_index: usize, target_index: usize) -> (r: Result<
        (),
        PourError,
    >)
        requires
            old(self).wf(),
            source_index < old(self).bottles@.len(),
            target_index < old(self).bottles@.len(),
        ensures
            final(self).wf(),
            final(self).board().len() == old(self).board().len(),
            final(self).bottle_size == old(self).bottle_size,
            source_index == target_index ==> r == Ok::<(), PourError>(()) && final(self).board()
                == old(self).board(),
            source_index != target_index ==> {
                &&& forall|k: int|
                    0 <= k < final(self).board().len() && k != source_index && k != target_index
                        ==> final(self).board()[k] == old(self).board()[k]
                &&& pour_outcome(
                    old(self).board()[source_index as int],
                    old(self).board()[target_index as int],
                    final(self).board()[source_index as int],
                    final(self).board()[target_index as int],
                    r,
                )
            },
            forall|c: Color|
                c != Color::Transparent ==> board_count(final(self).board(), c) == board_count(
                    old(self).board(),
                    c,
                ),
    {
        if source_index == target_index {
            return Ok(());
        }
        let ghost bs0 = self.bottles@;
        let (lo, hi) = if source_index < target_index {
            (source_index, target_index)
        } else {
            (target_index, source_index)
        };
        let mut high_b = self.bottles.remove(hi);
        let mut low_b = self.bottles.remove(lo);
        assert(low_b == bs0[lo as int] && high_b == bs0[hi as int]);
        let r = if source_index < target_index {
            low_b.pour_into(&mut high_b)
        } else {
            high_b.pour_into(&mut low_b)
        };
        let ghost low_fin = low_b;
        let ghost high_fin = high_b;
        self.bottles.insert(lo, low_b);
        self.bottles.insert(hi, high_b);
        proof {
            assert(self.bottles@ =~= bs0.update(lo as int, low_fin).update(hi as int, high_fin));
            assert(self.board() =~= old(self).board().update(lo as int, low_fin@).update(
                hi as int,
                high_fin@,
            ));
            assert forall|c: Color| c != Color::Transparent implies board_count(
                self.board(),
                c,
            ) == board_count(old(self).board(), c) by {
                lemma_board_count_update(old(self).board(), c, lo as int, low_fin@);
                lemma_board_count_update(
                    old(self).board().update(lo as int, low_fin@),
                    c,
                    hi as int,
                    high_fin@,
                );
            }
        }
        r
    }
}

} // verus!

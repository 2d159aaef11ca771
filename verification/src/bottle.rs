use vstd::pervasive::VecAdditionalExecFns;
use vstd::prelude::*;

use crate::color::Color;

verus! {

/// Number of slots of `s` that hold exactly the color `c`.
pub open spec fn count_color(s: Seq<Color>, c: Color) -> int
    decreases s.len(),
{
    if s.len() == 0 {
        0
    } else {
        count_color(s.drop_last(), c) + if s.last() == c {
            1int
        } else {
            0int
        }
    }
}

/// Number of occupied slots: everything that is not the `Transparent` sentinel.
pub open spec fn fill(s: Seq<Color>) -> int {
    s.len() - count_color(s, Color::Transparent)
}

/// The occupied slots form a contiguous prefix: slot `i` holds a unit exactly
/// when `i` lies below the fill line. No unit ever floats above an empty slot.
pub open spec fn packed(s: Seq<Color>) -> bool {
    forall|i: int| 0 <= i < s.len() ==> ((#[trigger] s[i]) != Color::Transparent <==> i < fill(s))
}

/// The topmost slot is occupied.
pub open spec fn spec_full(s: Seq<Color>) -> bool {
    s[s.len() - 1] != Color::Transparent
}

/// The bottom slot is unoccupied; under `packed` this means no slot is occupied.
pub open spec fn spec_empty(s: Seq<Color>) -> bool {
    s[0] == Color::Transparent
}

/// Every occupied slot above the bottom holds the same color as the bottom slot.
pub open spec fn spec_uniform(s: Seq<Color>) -> bool {
    forall|i: int| 1 <= i < s.len() && (#[trigger] s[i]) != Color::Transparent ==> s[i] == s[0]
}

/// Full of a single color.
pub open spec fn spec_solved(s: Seq<Color>) -> bool {
    spec_full(s) && spec_uniform(s)
}

/// The color of the topmost occupied slot, or `Transparent` if none is occupied.
pub open spec fn top_color(s: Seq<Color>) -> Color {
    if fill(s) == 0 {
        Color::Transparent
    } else {
        s[fill(s) - 1]
    }
}

/// Length of the contiguous run of slots equal to `c` that ends at index `i`
/// and extends downward.
pub open spec fn run_below(s: Seq<Color>, c: Color, i: int) -> int
    decreases i + 1,
{
    if i < 0 {
        0
    } else if s[i] == c {
        1 + run_below(s, c, i - 1)
    } else {
        0
    }
}

/// Length of the maximal run of one color at the top of the stack; zero when
/// nothing is stacked.
pub open spec fn top_run_len(s: Seq<Color>) -> int {
    run_below(s, top_color(s), fill(s) - 1)
}

pub proof fn lemma_count_bounds(s: Seq<Color>, c: Color)
    ensures
        0 <= count_color(s, c) <= s.len(),
    decreases s.len(),
{
    if s.len() > 0 {
        lemma_count_bounds(s.drop_last(), c);
    }
}

pub proof fn lemma_count_update(s: Seq<Color>, c: Color, i: int, x: Color)
    requires
        0 <= i < s.len(),
    ensures
        count_color(s.update(i, x), c) == count_color(s, c) - (if s[i] == c {
            1int
        } else {
            0int
        }) + (if x == c {
            1int
        } else {
            0int
        }),
    decreases s.len(),
{
    let t = s.update(i, x);
    assert(t.len() == s.len());
    if i == s.len() - 1 {
        assert(t.drop_last() =~= s.drop_last());
        assert(t.last() == x);
    } else {
        assert(t.drop_last() =~= s.drop_last().update(i, x));
        assert(t.last() == s.last());
        lemma_count_update(s.drop_last(), c, i, x);
    }
}

/// A sequence in which `c` never occurs counts zero of it.
pub proof fn lemma_count_none(s: Seq<Color>, c: Color)
    requires
        forall|i: int| 0 <= i < s.len() ==> (#[trigger] s[i]) != c,
    ensures
        count_color(s, c) == 0,
    decreases s.len(),
{
    if s.len() > 0 {
        lemma_count_none(s.drop_last(), c);
    }
}

/// A sequence made of nothing but `c` counts its whole length of it.
pub proof fn lemma_count_all(s: Seq<Color>, c: Color)
    requires
        forall|i: int| 0 <= i < s.len() ==> (#[trigger] s[i]) == c,
    ensures
        count_color(s, c) == s.len(),
    decreases s.len(),
{
    if s.len() > 0 {
        lemma_count_all(s.drop_last(), c);
    }
}

/// Counting a prefix one slot longer adds one exactly when that slot holds `c`.
pub proof fn lemma_count_take_step(s: Seq<Color>, c: Color, i: int)
    requires
        0 <= i < s.len(),
    ensures
        count_color(s.take(i + 1), c) == count_color(s.take(i), c) + (if s[i] == c {
            1int
        } else {
            0int
        }),
{
    assert(s.take(i + 1).drop_last() =~= s.take(i));
    assert(s.take(i + 1).last() == s[i]);
}

/// Counting distributes over concatenation.
pub proof fn lemma_count_concat(a: Seq<Color>, b: Seq<Color>, c: Color)
    ensures
        count_color(a + b, c) == count_color(a, c) + count_color(b, c),
    decreases b.len(),
{
    if b.len() == 0 {
        assert(a + b =~= a);
    } else {
        assert((a + b).drop_last() =~= a + b.drop_last());
        assert((a + b).last() == b.last());
        lemma_count_concat(a, b.drop_last(), c);
    }
}

/// A sequence without duplicates holds each color at most once.
pub proof fn lemma_count_no_duplicates(s: Seq<Color>, c: Color)
    requires
        s.no_duplicates(),
    ensures
        count_color(s, c) <= 1,
    decreases s.len(),
{
    if s.len() > 0 {
        assert(s.drop_last().no_duplicates());
        lemma_count_no_duplicates(s.drop_last(), c);
        if s.last() == c {
            assert forall|i: int| 0 <= i < s.drop_last().len() implies (#[trigger] s.drop_last()[i])
                != c by {
                assert(s[i] != s[s.len() - 1]);
            }
            lemma_count_none(s.drop_last(), c);
        }
    }
}

/// Counting a color agrees with the multiset view of the sequence, so two
/// sequences with equal multisets count every color alike.
pub proof fn lemma_count_multiset(s: Seq<Color>, c: Color)
    ensures
        count_color(s, c) == s.to_multiset().count(c),
    decreases s.len(),
{
    broadcast use vstd::multiset::group_multiset_axioms;
    broadcast use vstd::seq_lib::group_to_multiset_ensures;

    if s.len() == 0 {
        assert(!s.contains(c));
    } else {
        lemma_count_multiset(s.drop_last(), c);
        assert(s =~= s.drop_last().push(s.last()));
        vstd::seq_lib::to_multiset_build::<Color>(s.drop_last(), s.last());
    }
}

/// A run ending at index `i` is no longer than the `i + 1` slots below it.
pub proof fn lemma_run_below_bound(s: Seq<Color>, c: Color, i: int)
    ensures
        0 <= run_below(s, c, i),
        i >= -1 ==> run_below(s, c, i) <= i + 1,
    decreases i + 1,
{
    if i >= 0 && s[i] == c {
        lemma_run_below_bound(s, c, i - 1);
    }
}

/// Every slot within a run ending at index `i` holds the run's color.
pub proof fn lemma_run_below_members(s: Seq<Color>, c: Color, i: int, q: int)
    requires
        0 <= q < run_below(s, c, i),
    ensures
        s[i - q] == c,
    decreases q,
{
    lemma_run_below_bound(s, c, i);
    if q > 0 {
        lemma_run_below_members(s, c, i - 1, q - 1);
    }
}

/// The reasons a pour can be refused. A refused pour leaves both bottles
/// exactly as they were.
#[derive(Copy, Clone, PartialEq, Eq, Structural, Debug)]
pub enum PourError {
    /// The target has no free slot.
    TargetFull,
    /// The source is already full of a single color.
    SourceComplete,
    /// The source holds no unit to pour.
    SourceEmpty,
    /// Both bottles are topped by units, and the colors differ.
    ColorMismatch,
}

/// The message shown to the player for each refusal reason.
pub open spec fn spec_message(e: PourError) -> Seq<char> {
    match e {
        PourError::TargetFull => "Target cannot be a full bottle"@,
        PourError::SourceComplete => "Source cannot be a completed bottle"@,
        PourError::SourceEmpty => "Source cannot be empty"@,
        PourError::ColorMismatch => "Source and target colors must be the same"@,
    }
}

impl PourError {
    /// The message shown to the player for this refusal.
    pub fn message(&self) -> (r: &'static str)
        ensures
            r@ == spec_message(*self),
    {
        match *self {
            PourError::TargetFull => "Target cannot be a full bottle",
            PourError::SourceComplete => "Source cannot be a completed bottle",
            PourError::SourceEmpty => "Source cannot be empty",
            PourError::ColorMismatch => "Source and target colors must be the same",
        }
    }
}

/// The smaller of two quantities.
pub open spec fn spec_min(a: int, b: int) -> int {
    if a <= b {
        a
    } else {
        b
    }
}

/// The full outcome of `Bottle::pour_into`, relating the two bottles before
/// the call (`src0`, `tgt0`) to the two bottles after it (`src1`, `tgt1`).
/// The checks run in a fixed order, each refusal reason implies the earlier
/// checks passed, and every refusal leaves both bottles unchanged. On success
/// the transferred amount is the source's top run capped by the target's free
/// space: those units leave the top of the source and land on top of the
/// target, and no other slot moves.
pub open spec fn pour_outcome(
    src0: Seq<Color>,
    tgt0: Seq<Color>,
    src1: Seq<Color>,
    tgt1: Seq<Color>,
    r: Result<(), PourError>,
) -> bool {
    match r {
        Err(PourError::TargetFull) => spec_full(tgt0) && src1 == src0 && tgt1 == tgt0,
        Err(PourError::SourceComplete) => !spec_full(tgt0) && spec_solved(src0) && src1 == src0
            && tgt1 == tgt0,
        Err(PourError::SourceEmpty) => !spec_full(tgt0) && !spec_solved(src0) && spec_empty(src0)
            && src1 == src0 && tgt1 == tgt0,
        Err(PourError::ColorMismatch) => !spec_full(tgt0) && !spec_solved(src0) && !spec_empty(src0)
            && top_color(tgt0) != Color::Transparent && top_color(tgt0) != top_color(src0)
            && src1 == src0 && tgt1 == tgt0,
        Ok(()) => {
            let moved = spec_min(top_run_len(src0), count_color(tgt0, Color::Transparent));
            &&& !spec_full(tgt0)
            &&& !spec_solved(src0)
            &&& !spec_empty(src0)
            &&& (top_color(tgt0) == Color::Transparent || top_color(tgt0) == top_color(src0))
            &&& src1.len() == src0.len()
            &&& tgt1.len() == tgt0.len()
            &&& forall|i: int|
                0 <= i < src0.len() ==> src1[i] == (if i >= fill(src0) - moved {
                    Color::Transparent
                } else {
                    src0[i]
                })
            &&& forall|i: int|
                0 <= i < tgt0.len() ==> tgt1[i] == (if fill(tgt0) <= i < fill(tgt0) + moved {
                    top_color(src0)
                } else {
                    tgt0[i]
                })
        },
    }
}

/// A bottle: `size` slots stacked bottom to top, each either holding one unit
/// of color or standing empty. The occupied slots always form a contiguous
/// prefix from the bottom; the mutation primitives preserve that packing.
#[derive(Debug)]
pub struct Bottle {
    pub size: usize,
    pub color_list: Vec<Color>,
}

impl View for Bottle {
    type V = Seq<Color>;

    open spec fn view(&self) -> Seq<Color> {
        self.color_list@
    }
}

impl Bottle {
    /// The bottle's structural invariant: at least one slot, exactly `size`
    /// slots, and the units packed from the bottom with no gap.
    pub open spec fn wf(self) -> bool {
        &&& self.size >= 1
        &&& self@.len() == self.size
        &&& packed(self@)
    }

    /// True exactly when the topmost slot holds a unit.
    pub fn is_full(&self) -> (r: bool)
        requires
            self.wf(),
        ensures
            r == spec_full(self@),
    {
        self.color_list[self.size - 1] != Color::Transparent
    }

    /// True exactly when the bottom slot is empty; by packing, the whole
    /// bottle is then empty.
    pub fn is_empty(&self) -> (r: bool)
        requires
            self.wf(),
        ensures
            r == spec_empty(self@),
    {
        self.color_list[0] == Color::Transparent
    }

    /// True exactly when every occupied slot holds the same color as the
    /// bottom slot.
    pub fn is_one_color(&self) -> (r: bool)
        requires
            self.wf(),
        ensures
            r == spec_uniform(self@),
    {
        let first_color = self.color_list[0];
        let mut i: usize = 1;
        while i < self.size
            invariant
                self.wf(),
                1 <= i <= self.size,
                self@[0] == first_color,
                forall|j: int|
                    1 <= j < i && (#[trigger] self@[j]) != Color::Transparent ==> self@[j]
                        == first_color,
            decreases self.size - i,
        {
            let color = self.color_list[i];
            if color != first_color && color != Color::Transparent {
                return false;
            }
            i = i + 1;
        }
        true
    }

    /// Full of a single color: nothing can legally leave or enter the bottle.
    pub fn is_complete(&self) -> (r: bool)
        requires
            self.wf(),
        ensures
            r == spec_solved(self@),
    {
        self.is_full() && self.is_one_color()
    }

    /// How many slots are still unoccupied.
    pub fn get_empty_space_count(&self) -> (r: usize)
        requires
            self.wf(),
        ensures
            r == count_color(self@, Color::Transparent),
    {
        let mut count: usize = 0;
        let mut i: usize = 0;
        while i < self.size
            invariant
                self.wf(),
                i <= self.size,
                count == count_color(self@.take(i as int), Color::Transparent),
                count <= i,
            decreases self.size - i,
        {
            proof {
                lemma_count_take_step(self@, Color::Transparent, i as int);
            }
            if self.color_list[i] == Color::Transparent {
                count = count + 1;
            }
            i = i + 1;
        }
        proof {
            assert(self@.take(self.size as int) =~= self@);
        }
        count
    }

    /// Removes and returns the topmost unit, leaving its slot empty.
    /// The bottle must hold at least one unit.
    pub fn pop_color_unit(&mut self) -> (c: Color)
        requires
            old(self).wf(),
            !spec_empty(old(self)@),
        ensures
            final(self).wf(),
            final(self).size == old(self).size,
            c == top_color(old(self)@),
            c != Color::Transparent,
            final(self)@ == old(self)@.update(fill(old(self)@) - 1, Color::Transparent),
            fill(final(self)@) == fill(old(self)@) - 1,
    {
        proof {
            lemma_count_bounds(old(self)@, Color::Transparent);
        }
        let ghost s0 = self@;
        let mut ind: usize = self.size - 1;
        while self.color_list[ind] == Color::Transparent
            invariant
                self@ == s0,
                self.wf(),
                !spec_empty(self@),
                fill(self@) - 1 <= ind < self@.len(),
            decreases ind,
        {
            ind = ind - 1;
        }
        assert(ind == fill(s0) - 1);
        let removed_color = self.color_list[ind];
        self.color_list.set(ind, Color::Transparent);
        proof {
            lemma_count_update(s0, Color::Transparent, ind as int, Color::Transparent);
        }
        removed_color
    }

    /// Places one unit of `color_to_push` into the lowest empty slot.
    /// The bottle must have a free slot, and the sentinel is not a unit.
    pub fn push_color_unit(&mut self, color_to_push: Color)
        requires
            old(self).wf(),
            !spec_full(old(self)@),
            color_to_push != Color::Transparent,
        ensures
            final(self).wf(),
            final(self).size == old(self).size,
            final(self)@ == old(self)@.update(fill(old(self)@), color_to_push),
            fill(final(self)@) == fill(old(self)@) + 1,
    {
        proof {
            lemma_count_bounds(old(self)@, Color::Transparent);
        }
        let ghost s0 = self@;
        let mut ind: usize = 0;
        while self.color_list[ind] != Color::Transparent
            invariant
                self@ == s0,
                self.wf(),
                !spec_full(self@),
                0 <= ind <= fill(self@),
                ind < self@.len(),
            decreases self@.len() - ind,
        {
            ind = ind + 1;
        }
        assert(ind == fill(s0));
        self.color_list.set(ind, color_to_push);
        proof {
            lemma_count_update(s0, Color::Transparent, ind as int, color_to_push);
        }
    }

    /// The color topping the stack together with the length of its maximal
    /// contiguous run; `(Transparent, 0)` for an empty bottle.
    pub fn get_top_color_and_size(&self) -> (r: (Color, usize))
        requires
            self.wf(),
        ensures
            r.0 == top_color(self@),
            r.1 == top_run_len(self@),
    {
        if self.is_empty() {
            proof {
                lemma_count_all(self@, Color::Transparent);
            }
            return (Color::Transparent, 0);
        }
        proof {
            lemma_count_bounds(self@, Color::Transparent);
        }
        let mut ind: usize = self.size - 1;
        while self.color_list[ind] == Color::Transparent
            invariant
                self.wf(),
                !spec_empty(self@),
                fill(self@) - 1 <= ind < self@.len(),
            decreases ind,
        {
            ind = ind - 1;
        }
        assert(ind == fill(self@) - 1);
        let last_color = self.color_list[ind];
        let mut size: usize = 1;
        proof {
            lemma_run_below_bound(self@, last_color, ind as int);
        }
        while ind > 0 && self.color_list[ind - 1] == last_color
            invariant
                self.wf(),
                fill(self@) <= self@.len(),
                last_color == top_color(self@),
                0 <= ind < fill(self@),
                size == fill(self@) - ind,
                run_below(self@, last_color, fill(self@) - 1) == size + run_below(
                    self@,
                    last_color,
                    ind - 1,
                ),
            decreases ind,
        {
            ind = ind - 1;
            size = size + 1;
        }
        (last_color, size)
    }

    /// Pours the source's top run into `target`, capped by the target's free
    /// space, or refuses with the first failing legality check and changes
    /// nothing. Validation fully precedes mutation, and an accepted pour only
    /// moves units: it never creates or destroys them.
    #[verifier::loop_isolation(false)]
    pub fn pour_into(&mut self, target: &mut Bottle) -> (r: Result<(), PourError>)
        requires
            old(self).wf(),
            old(target).wf(),
        ensures
            final(self).wf(),
            final(target).wf(),
            final(self).size == old(self).size,
            final(target).size == old(target).size,
            pour_outcome(old(self)@, old(target)@, final(self)@, final(target)@, r),
            forall|c: Color|
                c != Color::Transparent ==> count_color(final(self)@, c) + count_color(
                    final(target)@,
                    c,
                ) == count_color(old(self)@, c) + count_color(old(target)@, c),
    {
        if target.is_full() {
            return Err(PourError::TargetFull);
        }
        if self.is_complete() {
            return Err(PourError::SourceComplete);
        }
        if self.is_empty() {
            return Err(PourError::SourceEmpty);
        }
        let (bottle_top_color, bottle_top_size) = self.get_top_color_and_size();
        let (target_top_color, _) = target.get_top_color_and_size();
        if target_top_color != Color::Transparent && target_top_color != bottle_top_color {
            return Err(PourError::ColorMismatch);
        }
        let target_space = target.get_empty_space_count();
        let moves_to_make = if bottle_top_size < target_space {
            bottle_top_size
        } else {
            target_space
        };
        let ghost src0 = self@;
        let ghost tgt0 = target@;
        let ghost c = top_color(src0);
        let ghost moved = spec_min(top_run_len(src0), count_color(tgt0, Color::Transparent));
        proof {
            lemma_run_below_bound(src0, c, fill(src0) - 1);
            lemma_count_bounds(src0, Color::Transparent);
            lemma_count_bounds(tgt0, Color::Transparent);
        }
        assert(moves_to_make == moved);
        let mut k: usize = 0;
        while k < moves_to_make
            invariant
                k <= moved,
                moved <= top_run_len(src0),
                top_run_len(src0) <= fill(src0),
                fill(src0) <= src0.len(),
                moved <= count_color(tgt0, Color::Transparent),
                self.wf(),
                target.wf(),
                self.size == src0.len(),
                target.size == tgt0.len(),
                fill(self@) == fill(src0) - k,
                fill(target@) == fill(tgt0) + k,
                forall|i: int|
                    0 <= i < src0.len() ==> self@[i] == (if i >= fill(src0) - k {
                        Color::Transparent
                    } else {
                        src0[i]
                    }),
                forall|i: int|
                    0 <= i < tgt0.len() ==> target@[i] == (if fill(tgt0) <= i < fill(tgt0) + k {
                        c
                    } else {
                        tgt0[i]
                    }),
                forall|cc: Color|
                    cc != Color::Transparent ==> count_color(self@, cc) + count_color(target@, cc)
                        == count_color(src0, cc) + count_color(tgt0, cc),
            decreases moves_to_make - k,
        {
            let ghost s_pre = self@;
            let ghost t_pre = target@;
            proof {
                lemma_run_below_members(src0, c, fill(src0) - 1, k as int);
                assert(s_pre[fill(src0) - 1 - k] == src0[fill(src0) - 1 - k]);
            }
            let popped = self.pop_color_unit();
            assert(popped == c);
            target.push_color_unit(popped);
            proof {
                assert forall|cc: Color| cc != Color::Transparent implies count_color(self@, cc)
                    + count_color(target@, cc) == count_color(src0, cc) + count_color(
                    tgt0,
                    cc,
                ) by {
                    lemma_count_update(s_pre, cc, fill(s_pre) - 1, Color::Transparent);
                    lemma_count_update(t_pre, cc, fill(t_pre), c);
                }
            }
            k = k + 1;
        }
        Ok(())
    }
}

} // verus!

use vstd::prelude::*;
use rand_pcg::Lcg128Xsl64;
use crate::rng::draw_below;

verus! {

pub open spec fn strictly_increasing(s: Seq<usize>) -> bool {
    forall|i: int, j: int| 0 <= i < j < s.len() ==> s[i] < s[j]
}

/// `s` is a selection set of `k` positions out of `[0, n)`, in ascending order.
pub open spec fn is_selection(s: Seq<usize>, n: nat, k: nat) -> bool {
    &&& s.len() == k
    &&& strictly_increasing(s)
    &&& forall|i: int| 0 <= i < s.len() ==> s[i] < n
}

/// The items at the selected positions, in the order of the selection.
pub open spec fn picked<T>(items: Seq<T>, selection: Seq<usize>) -> Seq<T> {
    selection.map_values(|p: usize| items[p as int])
}

/// Whether selection sampling takes the current position: `needed` positions
/// are still to be taken out of the `left` that remain, and `draw` is uniform
/// in `[0, left)`, so the position is taken with probability `needed / left`.
pub open spec fn takes(needed: nat, left: nat, draw: usize) -> bool {
    needed == left || draw < needed
}

/// The positions that selection sampling has taken among the first `i`, when
/// the draw made at position `p` is `draws[p]`.
pub open spec fn chosen_upto(n: nat, k: nat, draws: Seq<usize>, i: nat) -> Seq<usize>
    decreases i,
{
    if i == 0 {
        Seq::empty()
    } else {
        let c = chosen_upto(n, k, draws, (i - 1) as nat);
        let p = (i - 1) as nat;
        if c.len() < k && takes((k - c.len()) as nat, (n - p) as nat, draws[p as int]) {
            c.push(p as usize)
        } else {
            c
        }
    }
}

/// Draws that selection sampling over `[0, n)` can make: the one at
/// position `p` lies in `[0, n - p)`.
pub open spec fn valid_draws(n: nat, draws: Seq<usize>) -> bool {
    &&& draws.len() == n
    &&& forall|p: int| 0 <= p < n ==> #[trigger] draws[p] < n - p
}

/// Decides whether the current position is taken, given the draw for it.
pub fn take_next(needed: usize, left: usize, draw: usize) -> (r: bool)
    ensures
        r == takes(needed as nat, left as nat, draw),
{
    needed == left || draw < needed
}

proof fn lemma_chosen_prefix(n: nat, k: nat, a: Seq<usize>, b: Seq<usize>, i: nat)
    requires
        i <= a.len(),
        i <= b.len(),
        forall|p: int| 0 <= p < i ==> a[p] == b[p],
    ensures
        chosen_upto(n, k, a, i) == chosen_upto(n, k, b, i),
    decreases i,
{
    if i > 0 {
        lemma_chosen_prefix(n, k, a, b, (i - 1) as nat);
    }
}

proof fn lemma_chosen_stays(n: nat, k: nat, draws: Seq<usize>, i: nat, j: nat)
    requires
        i <= j,
        chosen_upto(n, k, draws, i).len() >= k,
    ensures
        chosen_upto(n, k, draws, j) == chosen_upto(n, k, draws, i),
    decreases j - i,
{
    if i < j {
        lemma_chosen_stays(n, k, draws, i, (j - 1) as nat);
    }
}

/// Chooses `k` distinct positions out of `[0, n)`, each set of `k` positions
/// being equally likely, and returns them in ascending order.
///
/// Positions are visited in turn; the one at `p` is taken with probability
/// `needed / (n - p)`, where `needed` is how many are still to be taken, as
/// `take_next` decides it from a draw in `[0, n - p)`. No draw is made once
/// that probability is 0 or 1, so `k == 0` makes none.
pub fn select_indices(n: usize, k: usize, rng: &mut Lcg128Xsl64) -> (r: Vec<usize>)
    requires
        k <= n,
    ensures
        is_selection(r@, n as nat, k as nat),
        exists|draws: Seq<usize>|
            valid_draws(n as nat, draws) && r@ == #[trigger] chosen_upto(
                n as nat,
                k as nat,
                draws,
                n as nat,
            ),
        k == 0 ==> *final(rng) == *old(rng),
{
    let mut chosen: Vec<usize> = Vec::new();
    let mut i: usize = 0;
    let ghost mut draws: Seq<usize> = Seq::empty();
    while chosen.len() < k
        invariant
            k <= n,
            i <= n,
            chosen.len() <= k,
            k - chosen.len() <= n - i,
            strictly_increasing(chosen@),
            forall|j: int| 0 <= j < chosen.len() ==> chosen[j] < i,
            draws.len() == i,
            forall|p: int| 0 <= p < i ==> #[trigger] draws[p] < n - p,
            chosen@ == chosen_upto(n as nat, k as nat, draws, i as nat),
            k == 0 ==> *rng == *old(rng),
        decreases n - i,
    {
        let needed = k - chosen.len();
        let left = n - i;
        let draw = if needed == left {
            0
        } else {
            draw_below(rng, left)
        };
        let take = take_next(needed, left, draw);
        proof {
            lemma_chosen_prefix(n as nat, k as nat, draws, draws.push(draw), i as nat);
            draws = draws.push(draw);
        }
        if take {
            chosen.push(i);
        }
        i = i + 1;
    }
    let ghost padded = draws + Seq::new((n - i) as nat, |p: int| 0usize);
    proof {
        lemma_chosen_prefix(n as nat, k as nat, draws, padded, i as nat);
        lemma_chosen_stays(n as nat, k as nat, padded, i as nat, n as nat);
        assert(valid_draws(n as nat, padded)) by {
            assert forall|p: int| 0 <= p < n implies #[trigger] padded[p] < n - p by {
                if p < i {
                    assert(padded[p] == draws[p]);
                }
            }
        }
    }
    chosen
}

/// Walks the positions of the eligible items in order, telling for each one
/// whether the selection holds it. It keeps one cursor into the selection, so
/// each step takes constant time.
pub struct Replay {
    selection: Vec<usize>,
    next: usize,
    position: usize,
}

impl Replay {
    pub closed spec fn selection(&self) -> Seq<usize> {
        self.selection@
    }

    /// The position of the item that the next call of `keep` is about.
    pub closed spec fn position(&self) -> nat {
        self.position as nat
    }

    pub closed spec fn wf(&self) -> bool {
        &&& strictly_increasing(self.selection@)
        &&& self.next <= self.selection.len()
        &&& forall|j: int| 0 <= j < self.next ==> self.selection@[j] < self.position
        &&& forall|j: int| self.next <= j < self.selection.len() ==> self.selection@[j] >= self.position
    }

    pub fn new(selection: Vec<usize>) -> (r: Replay)
        requires
            strictly_increasing(selection@),
        ensures
            r.wf(),
            r.selection() == selection@,
            r.position() == 0,
    {
        Replay { selection, next: 0, position: 0 }
    }

    /// Whether the item at the current position is selected; moves on to the
    /// next position.
    pub fn keep(&mut self) -> (r: bool)
        requires
            old(self).wf(),
            old(self).position() < usize::MAX,
        ensures
            final(self).wf(),
            final(self).selection() == old(self).selection(),
            final(self).position() == old(self).position() + 1,
            r == old(self).selection().contains(old(self).position() as usize),
    {
        let r = self.next < self.selection.len() && self.selection[self.next] == self.position;
        proof {
            if r {
                assert(self.selection@[self.next as int] == self.position);
            } else {
                assert forall|j: int| 0 <= j < self.selection.len() implies self.selection@[j]
                    != self.position by {
                    if j > self.next {
                        assert(self.selection@[self.next as int] < self.selection@[j]);
                    }
                }
            }
        }
        if r {
            self.next = self.next + 1;
        }
        self.position = self.position + 1;
        r
    }
}

/// The items at the selected positions, in ascending order of position.
pub fn select_lines(lines: &Vec<String>, selection: &Vec<usize>) -> (r: Vec<String>)
    requires
        forall|i: int| 0 <= i < selection.len() ==> selection[i] < lines.len(),
    ensures
        r@ == picked(lines@, selection@),
{
    let mut out: Vec<String> = Vec::new();
    let mut j: usize = 0;
    while j < selection.len()
        invariant
            j <= selection.len(),
            forall|i: int| 0 <= i < selection.len() ==> selection[i] < lines.len(),
            out@ == picked(lines@, selection@.take(j as int)),
        decreases selection.len() - j,
    {
        let line = lines[selection[j]].clone();
        out.push(line);
        proof {
            assert(selection@.take(j + 1).drop_last() =~= selection@.take(j as int));
        }
        j = j + 1;
        assert(out@ =~= picked(lines@, selection@.take(j as int)));
    }
    assert(selection@.take(j as int) =~= selection@);
    out
}

proof fn lemma_gaps(s: Seq<usize>, i: int, j: int)
    requires
        strictly_increasing(s),
        0 <= i <= j < s.len(),
    ensures
        s[j] - s[i] >= j - i,
    decreases j - i,
{
    if i < j {
        lemma_gaps(s, i, j - 1);
    }
}

/// Taking all `n` of `n` positions selects every position, in order: the
/// lines picked by such a selection are the whole population as it was.
pub proof fn lemma_take_all_keeps_order(lines: Seq<String>, selection: Seq<usize>)
    requires
        is_selection(selection, lines.len(), lines.len()),
    ensures
        forall|i: int| 0 <= i < selection.len() ==> selection[i] == i,
        picked(lines, selection) == lines,
{
    let n = selection.len() as int;
    assert forall|i: int| 0 <= i < n implies selection[i] == i by {
        lemma_gaps(selection, 0, i);
        lemma_gaps(selection, i, n - 1);
    }
    assert(picked(lines, selection) =~= lines);
}

} // verus!

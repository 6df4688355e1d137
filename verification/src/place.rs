use vstd::prelude::*;

use rand::seq::SliceRandom;

use crate::cell::Cell;
use crate::cell::Content;
use crate::field::MineField;
use crate::field::adjacent_mines;
use crate::field::count_mines;
use crate::field::lemma_adjacent_mines_same_mines;
use crate::field::lemma_count_mines_same_mines;
use crate::field::lemma_count_mines_update;
use crate::field::lemma_count_opened_all_closed;
use crate::field::lemma_dims_fit;
use crate::field::lemma_flat_coords;
use crate::field::lemma_fresh_cells;
use crate::field::lemma_rc_index;

verus! {

/// `x` occurs among the first `i` elements.
pub open spec fn in_prefix(order: Seq<usize>, i: int, x: usize) -> bool {
    exists|j: int| 0 <= j < i && #[trigger] order[j] == x
}

/// The elements are exactly `0..n`, each once: what shuffling a vector
/// that held `0..n` in order must leave behind.
pub open spec fn is_permutation(s: Seq<usize>, n: int) -> bool {
    &&& s.len() == n
    &&& forall|i: int| 0 <= i < s.len() ==> (#[trigger] s[i]) < n
    &&& forall|i: int, j: int| 0 <= i < s.len() && 0 <= j < s.len() && i != j ==> s[i] != s[j]
    &&& forall|v: int| 0 <= v < n ==> s.contains(#[trigger] (v as usize))
}

/// The first `budget` positions drawn from `order[i..]`, skipping
/// `skip`: the mine layout that a shuffled position order dictates.
pub open spec fn chosen_from(order: Seq<usize>, skip: usize, budget: int, i: int) -> Set<usize>
    decreases order.len() - i,
{
    if i < 0 || i >= order.len() || budget <= 0 {
        Set::empty()
    } else if order[i] == skip {
        chosen_from(order, skip, budget, i + 1)
    } else {
        chosen_from(order, skip, budget - 1, i + 1).insert(order[i])
    }
}

/// Every chosen position comes from `order[i..]` and is never `skip`.
pub proof fn lemma_chosen_from_elements(order: Seq<usize>, skip: usize, budget: int, i: int)
    ensures
        forall|x: usize|
            #[trigger] chosen_from(order, skip, budget, i).contains(x) ==> (x != skip && exists|
                j: int,
            | i <= j < order.len() && #[trigger] order[j] == x),
    decreases order.len() - i,
{
    if 0 <= i < order.len() && budget > 0 {
        lemma_chosen_from_elements(order, skip, budget, i + 1);
        lemma_chosen_from_elements(order, skip, budget - 1, i + 1);
        assert forall|x: usize| #[trigger] chosen_from(order, skip, budget, i).contains(
            x,
        ) implies (x != skip && exists|j: int|
            i <= j < order.len() && #[trigger] order[j] == x) by {
            if order[i] == skip {
                assert(chosen_from(order, skip, budget, i + 1).contains(x));
            } else if x == order[i] {
                assert(order[i] == x);
            } else {
                assert(chosen_from(order, skip, budget - 1, i + 1).contains(x));
            }
        }
    }
}

/// The content tag that an adjacency count of `n` encodes.
pub open spec fn content_of_count(n: int) -> Content {
    if n == 0 {
        Content::Empty
    } else {
        Content::Count(n as u8)
    }
}

/// Relies on rand's `SliceRandom::shuffle`: it permutes the slice in
/// place, so exactly the old elements remain, in some order.
#[verifier::external_body]
fn shuffle(v: &mut Vec<usize>)
    ensures
        final(v)@.to_multiset() == old(v)@.to_multiset(),
{
    v.shuffle(&mut rand::rng());
}

/// A shuffled copy of a sequence is still a permutation of `0..n`.
pub proof fn lemma_shuffle_keeps_permutation(s1: Seq<usize>, s2: Seq<usize>, n: int)
    requires
        is_permutation(s1, n),
        s2.to_multiset() == s1.to_multiset(),
    ensures
        is_permutation(s2, n),
{
    s1.to_multiset_ensures();
    s2.to_multiset_ensures();
    assert(s2.len() == n);
    assert forall|i: int| 0 <= i < s2.len() implies (#[trigger] s2[i]) < n by {
        assert(s2.contains(s2[i]));
        assert(s2.to_multiset().count(s2[i]) > 0);
        assert(s1.to_multiset().count(s2[i]) > 0);
        assert(s1.contains(s2[i]));
        let j = choose|j: int| 0 <= j < s1.len() && s1[j] == s2[i];
        assert(s1[j] < n);
    }
    assert(s1.no_duplicates());
    s1.lemma_multiset_has_no_duplicates();
    s2.lemma_multiset_has_no_duplicates_conv();
    assert(s2.no_duplicates());
    assert forall|v: int| 0 <= v < n implies s2.contains(#[trigger] (v as usize)) by {
        assert(s1.contains(v as usize));
        assert(s1.to_multiset().count(v as usize) > 0);
        assert(s2.to_multiset().count(v as usize) > 0);
    }
}

impl MineField {
    /// Lay the mines a shuffled position order dictates and fill in
    /// every adjacency count. The first `mine_count` positions of
    /// `order` become mines, skipping the focused cell — unless
    /// `mine_count` reaches the whole grid, in which case every cell
    /// becomes a mine, the focused cell included. Runs once, at the
    /// first activation, while no cell is opened yet.
    pub fn place_mines(&mut self, order: &Vec<usize>)
        requires
            old(self).wf(),
            !old(self).started,
            is_permutation(order@, old(self).total()),
        ensures
            final(self).wf(),
            final(self).started,
            *final(self) == (MineField { grid: final(self).grid, started: true, ..*old(self) }),
            forall|r: int, c: int|
                final(self).in_bounds(r, c) ==> !(#[trigger] final(self).cell_at(r, c)).opened
                    && !(final(self).cell_at(r, c).force_open_at_ending),
            (old(self).mine_count as int) >= old(self).total() ==> forall|r: int, c: int|
                final(self).in_bounds(r, c) ==> (#[trigger] final(self).cell_at(
                    r,
                    c,
                )).spec_is_mine(),
            (old(self).mine_count as int) < old(self).total() ==> forall|q: int|
                0 <= q < old(self).total() ==> (((#[trigger] final(self).grid@[q]).content is Mine)
                    <==> chosen_from(
                    order@,
                    old(self).spec_cursor_index(),
                    old(self).mine_count as int,
                    0,
                ).contains(q as usize)),
            (old(self).mine_count as int) < old(self).total() ==> !final(self).cell_at(
                old(self).cursor_row as int,
                old(self).cursor_col as int,
            ).spec_is_mine(),
    {
        let ghost a = *old(self);
        proof {
            lemma_dims_fit(self.width as int, self.height as int);
            lemma_rc_index(
                self.width as int,
                self.height as int,
                self.cursor_row as int,
                self.cursor_col as int,
            );
            lemma_fresh_cells(a);
        }
        let w = self.width;
        let h = self.height;
        let total: usize = (w as usize) * (h as usize);
        let skip: usize = (self.cursor_row as usize) * (w as usize) + (self.cursor_col as usize);
        let mc = self.mine_count;
        let fill_all = (mc as usize) >= total;
        let target: usize = if fill_all {
            total
        } else {
            mc as usize
        };
        let ghost n_int = a.total();
        let ghost mcs = mc as int;
        proof {
            lemma_chosen_from_elements(order@, skip, mcs, 0);
            assert forall|x: usize| #[trigger] chosen_from(order@, skip, mcs, 0).contains(
                x,
            ) implies (x as int) < n_int by {
                let j = choose|j: int| 0 <= j < order@.len() && #[trigger] order@[j] == x;
                assert(order@[j] < n_int);
            }
        }
        let mut placed: usize = 0;
        let mut i: usize = 0;
        while i < total && placed < target
            invariant
                a.wf(),
                !a.started,
                is_permutation(order@, n_int),
                n_int == a.total(),
                total as int == n_int,
                w == a.width,
                h == a.height,
                mc == a.mine_count,
                mcs == mc as int,
                skip == a.spec_cursor_index(),
                (skip as int) < n_int,
                fill_all == (mcs >= n_int),
                target as int == (if fill_all {
                    n_int
                } else {
                    mcs
                }),
                *self == (MineField { grid: self.grid, ..a }),
                self.grid@.len() == n_int,
                i <= total,
                placed <= target,
                forall|q: int|
                    0 <= q < n_int ==> (#[trigger] self.grid@[q] == Cell::spec_closed(
                        Content::Mine,
                    ) || self.grid@[q] == Cell::spec_closed(Content::Empty)),
                count_mines(self.grid@) == placed,
                fill_all ==> placed == i,
                fill_all ==> forall|q: int|
                    0 <= q < n_int ==> (((#[trigger] self.grid@[q]).content is Mine) <==> in_prefix(
                        order@,
                        i as int,
                        q as usize,
                    )),
                !fill_all ==> placed as int == i as int - (if in_prefix(order@, i as int, skip) {
                    1int
                } else {
                    0int
                }),
                !fill_all ==> forall|q: int|
                    0 <= q < n_int ==> (((#[trigger] self.grid@[q]).content is Mine)
                        ==> chosen_from(order@, skip, mcs, 0).contains(q as usize)),
                !fill_all ==> forall|x: usize|
                    #[trigger] chosen_from(order@, skip, mcs, 0).contains(x) ==> ((x as int) < n_int
                        && ((self.grid@[x as int].content is Mine) || chosen_from(
                        order@,
                        skip,
                        mcs - placed,
                        i as int,
                    ).contains(x))),
                !fill_all ==> forall|x: usize|
                    #[trigger] chosen_from(order@, skip, mcs - placed, i as int).contains(x) ==> ((
                    x as int) < n_int && !(self.grid@[x as int].content is Mine)),
                !fill_all ==> forall|x: usize|
                    #[trigger] chosen_from(order@, skip, mcs - placed, i as int).contains(x)
                        ==> chosen_from(order@, skip, mcs, 0).contains(x),
            decreases total - i,
        {
            let ghost g0 = self.grid@;
            let ghost placed0 = placed as int;
            let ghost i0 = i as int;
            let p = order[i];
            proof {
                assert(order@[i0] < n_int);
            }
            if fill_all || p != skip {
                proof {
                    if !fill_all {
                        assert(chosen_from(order@, skip, mcs - placed0, i0) == chosen_from(
                            order@,
                            skip,
                            mcs - placed0 - 1,
                            i0 + 1,
                        ).insert(order@[i0]));
                        assert(chosen_from(order@, skip, mcs - placed0, i0).contains(p));
                    } else {
                        if self.grid@[p as int].content is Mine {
                            let j = choose|j: int| 0 <= j < i0 && #[trigger] order@[j] == p;
                            assert(order@[j] == order@[i0]);
                            assert(false);
                        }
                    }
                }
                let mut cellv = self.grid[p];
                cellv.mark_mine();
                self.grid[p] = cellv;
                placed = placed + 1;
                proof {
                    assert(cellv == Cell::spec_closed(Content::Mine));
                    lemma_count_mines_update(g0, p as int, cellv);
                    if fill_all {
                        assert forall|q: int| 0 <= q < n_int implies (((
                        #[trigger] self.grid@[q]).content is Mine) <==> in_prefix(
                            order@,
                            i0 + 1,
                            q as usize,
                        )) by {
                            if q == p as int {
                                assert(order@[i0] == q as usize);
                            } else {
                                if in_prefix(order@, i0 + 1, q as usize) {
                                    let j = choose|j: int|
                                        0 <= j < i0 + 1 && #[trigger] order@[j] == q as usize;
                                    assert(j < i0);
                                }
                            }
                        }
                    } else {
                        lemma_chosen_from_elements(order@, skip, mcs - placed0 - 1, i0 + 1);
                        let full = chosen_from(order@, skip, mcs, 0);
                        let fut0 = chosen_from(order@, skip, mcs - placed0, i0);
                        let fut1 = chosen_from(order@, skip, mcs - placed0 - 1, i0 + 1);
                        assert(fut0 == fut1.insert(order@[i0]));
                        assert forall|x: usize| #[trigger] full.contains(x) implies ((x as int)
                            < n_int && ((self.grid@[x as int].content is Mine) || fut1.contains(
                            x,
                        ))) by {
                            if !(g0[x as int].content is Mine) {
                                assert(fut0.contains(x));
                                if x != p {
                                    assert(fut1.contains(x));
                                }
                            }
                        }
                        assert forall|x: usize| #[trigger] fut1.contains(x) implies ((x as int)
                            < n_int && !(self.grid@[x as int].content is Mine)) by {
                            assert(fut0.contains(x));
                            let j = choose|j: int|
                                i0 + 1 <= j < order@.len() && #[trigger] order@[j] == x;
                            assert(order@[j] != order@[i0]);
                        }
                        assert forall|x: usize| #[trigger] fut1.contains(x) implies full.contains(
                            x,
                        ) by {
                            assert(fut0.contains(x));
                        }
                        if in_prefix(order@, i0 + 1, skip) && !in_prefix(order@, i0, skip) {
                            let j = choose|j: int|
                                0 <= j < i0 + 1 && #[trigger] order@[j] == skip;
                            assert(j == i0);
                            assert(false);
                        }
                    }
                }
            } else {
                proof {
                    assert(chosen_from(order@, skip, mcs - placed0, i0) == chosen_from(
                        order@,
                        skip,
                        mcs - placed0,
                        i0 + 1,
                    ));
                    assert(order@[i0] == skip);
                    assert(in_prefix(order@, i0 + 1, skip));
                    if in_prefix(order@, i0, skip) {
                        let j = choose|j: int| 0 <= j < i0 && #[trigger] order@[j] == skip;
                        assert(order@[j] == order@[i0]);
                        assert(false);
                    }
                }
            }
            i = i + 1;
        }
        proof {
            if placed < target {
                assert(i == total);
                if fill_all {
                    assert(false);
                } else {
                    assert(order@.contains(#[trigger] ((skip as int) as usize)));
                    let j = choose|j: int| 0 <= j < order@.len() && order@[j] == skip;
                    assert(in_prefix(order@, total as int, skip));
                    assert(placed as int == total as int - 1);
                    assert(mcs <= n_int - 1);
                    assert(false);
                }
            }
            assert(placed == target);
            if fill_all {
                assert forall|q: int| 0 <= q < n_int implies ((#[trigger] self.grid@[q]).content
                    is Mine) by {
                    assert(order@.contains((q as usize)));
                    let j = choose|j: int| 0 <= j < order@.len() && #[trigger] order@[j] == (
                    q as usize);
                    assert(in_prefix(order@, i as int, q as usize));
                }
            } else {
                assert(chosen_from(order@, skip, mcs - placed, i as int) =~= Set::empty());
                assert forall|q: int| 0 <= q < n_int implies (((#[trigger] self.grid@[q]).content
                    is Mine) <==> chosen_from(order@, skip, mcs, 0).contains(q as usize)) by {
                    if chosen_from(order@, skip, mcs, 0).contains(q as usize) {
                        assert(!chosen_from(order@, skip, mcs - placed, i as int).contains(
                            q as usize,
                        ));
                    }
                }
            }
        }
        // second pass: write the adjacency counts of the laid mines
        let ghost gb = self.grid@;
        let mut q: usize = 0;
        while q < total
            invariant
                a.wf(),
                w == a.width,
                h == a.height,
                *self == (MineField { grid: self.grid, ..a }),
                n_int == a.total(),
                total as int == n_int,
                self.grid@.len() == n_int,
                gb.len() == n_int,
                q <= total,
                forall|p: int|
                    0 <= p < n_int ==> (#[trigger] gb[p] == Cell::spec_closed(Content::Mine)
                        || gb[p] == Cell::spec_closed(Content::Empty)),
                forall|p: int|
                    0 <= p < q ==> #[trigger] self.grid@[p] == (if gb[p].content is Mine {
                        gb[p]
                    } else {
                        Cell::spec_closed(
                            content_of_count(
                                adjacent_mines(
                                    gb,
                                    w as int,
                                    h as int,
                                    p / (w as int),
                                    p % (w as int),
                                ),
                            ),
                        )
                    }),
                forall|p: int| q <= p < n_int ==> #[trigger] self.grid@[p] == gb[p],
            decreases total - q,
        {
            let cellv = self.grid[q];
            if !cellv.is_mine() {
                proof {
                    lemma_flat_coords(w as int, h as int, q as int);
                }
                let qr: usize = q / (w as usize);
                let qc: usize = q % (w as usize);
                let n = self.count_adjacent_mines(qr as u16, qc as u16);
                proof {
                    lemma_adjacent_mines_same_mines(
                        gb,
                        self.grid@,
                        w as int,
                        h as int,
                        qr as int,
                        qc as int,
                    );
                }
                let newcell = Cell {
                    force_open_at_ending: false,
                    flagged: false,
                    questioned: false,
                    opened: false,
                    content: if n == 0 {
                        Content::Empty
                    } else {
                        Content::Count(n)
                    },
                };
                self.grid[q] = newcell;
                proof {
                    assert(newcell == Cell::spec_closed(
                        content_of_count(
                            adjacent_mines(gb, w as int, h as int, q as int / (w as int), q as int % (w as int)),
                        ),
                    ));
                }
            }
            q = q + 1;
        }
        self.started = true;
        proof {
            self.lemma_place_exit(a, order@, gb);
        }
    }

    /// Number of mines among the up-to-8 neighbors of `(r, c)`.
    pub fn count_adjacent_mines(&self, r: u16, c: u16) -> (n: u8)
        requires
            self.grid@.len() == self.total(),
            1 <= self.width,
            (r as int) < self.height as int,
            (c as int) < self.width as int,
        ensures
            n as int == adjacent_mines(
                self.grid@,
                self.width as int,
                self.height as int,
                r as int,
                c as int,
            ),
            n <= 8,
    {
        let ghost g = self.grid@;
        let ghost w = self.width as int;
        let ghost h = self.height as int;
        let mut n: u8 = 0;
        if r > 0 && c > 0 && self.get_cell(r - 1, c - 1).is_mine() {
            n = n + 1;
        }
        proof {
            assert(n as int == mine_sum1(g, w, h, r as int, c as int));
        }
        if r > 0 && self.get_cell(r - 1, c).is_mine() {
            n = n + 1;
        }
        if r > 0 && c + 1 < self.width && self.get_cell(r - 1, c + 1).is_mine() {
            n = n + 1;
        }
        proof {
            assert(n as int == mine_sum3(g, w, h, r as int, c as int));
        }
        if c > 0 && self.get_cell(r, c - 1).is_mine() {
            n = n + 1;
        }
        if c + 1 < self.width && self.get_cell(r, c + 1).is_mine() {
            n = n + 1;
        }
        proof {
            assert(n as int == mine_sum5(g, w, h, r as int, c as int));
        }
        if r + 1 < self.height && c > 0 && self.get_cell(r + 1, c - 1).is_mine() {
            n = n + 1;
        }
        if r + 1 < self.height && self.get_cell(r + 1, c).is_mine() {
            n = n + 1;
        }
        if r + 1 < self.height && c + 1 < self.width && self.get_cell(r + 1, c + 1).is_mine() {
            n = n + 1;
        }
        n
    }
}

impl MineField {
    /// After both placement passes the state is well-formed, every
    /// cell is closed, and the mine layout is the dictated one.
    #[verifier::rlimit(100)]
    proof fn lemma_place_exit(&self, a: MineField, order: Seq<usize>, gb: Seq<Cell>)
        requires
            a.wf(),
            !a.started,
            is_permutation(order, a.total()),
            *self == (MineField { grid: self.grid, started: true, ..a }),
            self.grid@.len() == a.total(),
            gb.len() == a.total(),
            forall|p: int|
                0 <= p < gb.len() ==> (#[trigger] gb[p] == Cell::spec_closed(Content::Mine)
                    || gb[p] == Cell::spec_closed(Content::Empty)),
            forall|p: int|
                0 <= p < gb.len() ==> #[trigger] self.grid@[p] == (if gb[p].content is Mine {
                    gb[p]
                } else {
                    Cell::spec_closed(
                        content_of_count(
                            adjacent_mines(
                                gb,
                                a.width as int,
                                a.height as int,
                                p / (a.width as int),
                                p % (a.width as int),
                            ),
                        ),
                    )
                }),
            count_mines(gb) == (if (a.mine_count as int) >= a.total() {
                a.total()
            } else {
                a.mine_count as int
            }),
            (a.mine_count as int) >= a.total() ==> forall|p: int|
                0 <= p < a.total() ==> ((#[trigger] gb[p]).content is Mine),
            (a.mine_count as int) < a.total() ==> forall|p: int|
                0 <= p < a.total() ==> (((#[trigger] gb[p]).content is Mine) <==> chosen_from(
                    order,
                    a.spec_cursor_index(),
                    a.mine_count as int,
                    0,
                ).contains(p as usize)),
        ensures
            self.wf(),
            forall|r: int, c: int|
                self.in_bounds(r, c) ==> !(#[trigger] self.cell_at(r, c)).opened && !self.cell_at(
                    r,
                    c,
                ).force_open_at_ending,
            (a.mine_count as int) >= a.total() ==> forall|r: int, c: int|
                self.in_bounds(r, c) ==> (#[trigger] self.cell_at(r, c)).spec_is_mine(),
            (a.mine_count as int) < a.total() ==> forall|q: int|
                0 <= q < a.total() ==> (((#[trigger] self.grid@[q]).content is Mine)
                    <==> chosen_from(
                    order,
                    a.spec_cursor_index(),
                    a.mine_count as int,
                    0,
                ).contains(q as usize)),
            (a.mine_count as int) < a.total() ==> !self.cell_at(
                a.cursor_row as int,
                a.cursor_col as int,
            ).spec_is_mine(),
    {
        let w = a.width as int;
        let h = a.height as int;
        let skip = a.spec_cursor_index();
        lemma_dims_fit(w, h);
        lemma_rc_index(w, h, a.cursor_row as int, a.cursor_col as int);
        assert(skip as int == a.cursor_row as int * w + a.cursor_col as int);
        // the final grid holds mines exactly where the first pass laid them
        assert forall|p: int| 0 <= p < gb.len() implies (((#[trigger] self.grid@[p]).content
            is Mine) == (gb[p].content is Mine)) by {}
        lemma_count_mines_same_mines(gb, self.grid@);
        // every cell is closed with flags clear
        assert forall|p: int| 0 <= p < self.grid@.len() implies !(#[trigger] self.grid@[p]).opened
            && !self.grid@[p].force_open_at_ending && !self.grid@[p].flagged
            && !self.grid@[p].questioned by {}
        lemma_count_opened_all_closed(self.grid@);
        assert forall|r: int, c: int| self.in_bounds(r, c) implies !(#[trigger] self.cell_at(
            r,
            c,
        )).opened && !self.cell_at(r, c).force_open_at_ending && !self.cell_at(r, c).flagged
            && !self.cell_at(r, c).questioned by {
            lemma_rc_index(w, h, r, c);
            assert(self.cell_at(r, c) == self.grid@[r * w + c]);
        }
        // adjacency counts are correct and in range
        assert forall|r: int, c: int|
            self.in_bounds(r, c) && !(#[trigger] self.cell_at(r, c)).spec_is_mine()
            implies self.cell_at(r, c).spec_content_value() == adjacent_mines(
            self.grid@,
            w,
            h,
            r,
            c,
        ) && self.cell_at(r, c).wf() by {
            lemma_rc_index(w, h, r, c);
            crate::field::lemma_rc_roundtrip(w, r, c);
            let p = r * w + c;
            assert(self.cell_at(r, c) == self.grid@[p]);
            assert(!(gb[p].content is Mine));
            let k = adjacent_mines(gb, w, h, r, c);
            assert(self.grid@[p] == Cell::spec_closed(content_of_count(k)));
            assert(crate::field::mine_at(gb, w, h, r - 1, c - 1) >= 0 && crate::field::mine_at(
                gb,
                w,
                h,
                r - 1,
                c - 1,
            ) <= 1);
            assert(0 <= k <= 8);
            lemma_adjacent_mines_same_mines(gb, self.grid@, w, h, r, c);
        }
        assert forall|r: int, c: int| self.in_bounds(r, c) implies (#[trigger] self.cell_at(
            r,
            c,
        )).wf() by {
            lemma_rc_index(w, h, r, c);
            assert(self.cell_at(r, c) == self.grid@[r * w + c]);
        }
        // the cursor cell carries no mine on a winnable grid
        if (a.mine_count as int) < a.total() {
            lemma_chosen_from_elements(order, skip, a.mine_count as int, 0);
            assert(!chosen_from(order, skip, a.mine_count as int, 0).contains(skip));
            assert(self.cell_at(a.cursor_row as int, a.cursor_col as int) == self.grid@[
                skip as int]);
        }
        if (a.mine_count as int) >= a.total() {
            assert forall|r: int, c: int| self.in_bounds(r, c) implies (#[trigger] self.cell_at(
                r,
                c,
            )).spec_is_mine() by {
                lemma_rc_index(w, h, r, c);
                assert(self.cell_at(r, c) == self.grid@[r * w + c]);
            }
        }
    }

    /// Place the mines for the first activation: build the positions
    /// `0..width*height`, shuffle them, and lay mines along the
    /// shuffled order, sparing the focused cell whenever the target
    /// leaves room for it.
    pub fn start(&mut self)
        requires
            old(self).wf(),
            !old(self).started,
        ensures
            final(self).wf(),
            final(self).started,
            *final(self) == (MineField { grid: final(self).grid, started: true, ..*old(self) }),
            forall|r: int, c: int|
                final(self).in_bounds(r, c) ==> !(#[trigger] final(self).cell_at(r, c)).opened
                    && !(final(self).cell_at(r, c).force_open_at_ending),
            (old(self).mine_count as int) >= old(self).total() ==> forall|r: int, c: int|
                final(self).in_bounds(r, c) ==> (#[trigger] final(self).cell_at(
                    r,
                    c,
                )).spec_is_mine(),
            (old(self).mine_count as int) < old(self).total() ==> !final(self).cell_at(
                old(self).cursor_row as int,
                old(self).cursor_col as int,
            ).spec_is_mine(),
    {
        proof {
            lemma_dims_fit(self.width as int, self.height as int);
        }
        let total: usize = (self.width as usize) * (self.height as usize);
        let mut order: Vec<usize> = Vec::new();
        let mut i: usize = 0;
        while i < total
            invariant
                i <= total,
                order@.len() == i,
                forall|j: int| 0 <= j < i ==> #[trigger] order@[j] == j as usize,
            decreases total - i,
        {
            order.push(i);
            i = i + 1;
        }
        proof {
            assert forall|v: int| 0 <= v < total as int implies order@.contains(
                #[trigger] (v as usize),
            ) by {
                assert(order@[v] == v as usize);
            }
            assert(is_permutation(order@, total as int));
        }
        let ghost before = order@;
        shuffle(&mut order);
        proof {
            lemma_shuffle_keeps_permutation(before, order@, total as int);
        }
        self.place_mines(&order);
    }

    /// The activation bound to the player's "activate" input. The very
    /// first activation places the mines first, sparing the focused
    /// cell. An already-open focused cell is a harmless no-op. Opening
    /// a mine sets the explosion flag; otherwise, when the opened count
    /// plus the mine target exactly equals the cell count, the success
    /// flag is set. Returns whether any state changed.
    pub fn click(&mut self) -> (changed: bool)
        requires
            old(self).wf(),
            !old(self).exploded,
            !old(self).succeeded,
        ensures
            final(self).wf(),
            !final(self).revealed,
            final(self).started,
            changed == !(old(self).started && old(self).cell_at(
                old(self).cursor_row as int,
                old(self).cursor_col as int,
            ).opened),
            !changed ==> *final(self) == *old(self),
            final(self).width == old(self).width,
            final(self).height == old(self).height,
            final(self).mine_count == old(self).mine_count,
            final(self).cursor_row == old(self).cursor_row,
            final(self).cursor_col == old(self).cursor_col,
            final(self).tick_count == old(self).tick_count,
            final(self).blink_period == old(self).blink_period,
            final(self).idle_timeout_ms == old(self).idle_timeout_ms,
            // in a running game, explosion happens exactly on a mine
            old(self).started ==> (final(self).exploded <==> old(self).cell_at(
                old(self).cursor_row as int,
                old(self).cursor_col as int,
            ).spec_is_mine()),
            // the first activation never explodes on a winnable grid
            !old(self).started && (old(self).mine_count as int) < old(self).total()
                ==> !(final(self).exploded),
            // with mines everywhere the first activation explodes at once
            !old(self).started && (old(self).mine_count as int) >= old(self).total()
                ==> final(self).exploded,
            // success is exact equality of accounted cells
            changed ==> (final(self).succeeded <==> (!final(self).exploded
                && final(self).opened_count + final(self).mine_count == final(self).total())),
            changed && !final(self).exploded ==> final(self).cell_at(
                old(self).cursor_row as int,
                old(self).cursor_col as int,
            ).opened,
    {
        let ghost a = *old(self);
        proof {
            assert(!a.revealed);
        }
        if !self.started {
            self.start();
        }
        let row = self.cursor_row;
        let col = self.cursor_col;
        let cur = self.get_cell(row, col);
        if cur.is_opened() {
            proof {
                assert(a.started);
            }
            return false;
        }
        let ok = self.open(row, col);
        if !ok {
            let ghost s2 = *self;
            self.exploded = true;
            proof {
                crate::field::lemma_wf_outcome(s2, *self);
            }
            return true;
        }
        proof {
            lemma_dims_fit(self.width as int, self.height as int);
        }
        let total: usize = (self.width as usize) * (self.height as usize);
        if self.opened_count + (self.mine_count as usize) == total {
            let ghost s2 = *self;
            self.succeeded = true;
            proof {
                crate::field::lemma_wf_outcome(s2, *self);
                assert(self.cell_at(row as int, col as int) == s2.cell_at(row as int, col as int));
            }
        }
        true
    }
}

/// The first addend of the adjacency sum.
pub open spec fn mine_sum1(g: Seq<Cell>, w: int, h: int, r: int, c: int) -> int {
    crate::field::mine_at(g, w, h, r - 1, c - 1)
}

/// The first three addends of the adjacency sum.
pub open spec fn mine_sum3(g: Seq<Cell>, w: int, h: int, r: int, c: int) -> int {
    mine_sum1(g, w, h, r, c) + crate::field::mine_at(g, w, h, r - 1, c) + crate::field::mine_at(
        g,
        w,
        h,
        r - 1,
        c + 1,
    )
}

/// The first five addends of the adjacency sum.
pub open spec fn mine_sum5(g: Seq<Cell>, w: int, h: int, r: int, c: int) -> int {
    mine_sum3(g, w, h, r, c) + crate::field::mine_at(g, w, h, r, c - 1) + crate::field::mine_at(
        g,
        w,
        h,
        r,
        c + 1,
    )
}

} // verus!

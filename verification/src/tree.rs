//! The tree itself: an array of nodes over a fixed range of coordinates.

use vstd::prelude::*;
use crate::crossing::{lower_envelope, pairwise_single_crossing};
use crate::layout::{lemma_children_fit, lemma_node_in_array, lemma_root_fits, midpoint, node_fits};
use crate::line::{Line, no_line};
use crate::laws::{lemma_stored_minimum_is_attained, lemma_stored_minimum_is_lower_envelope};
use crate::model::{
    inserted, lemma_inserted_frame, nodes_of, path_minimum, reported, stored_minimum,
};

verus! {

/// A Li Chao tree for the minimum of a growing set of lines at any
/// coordinate of a fixed range.
pub struct LiChaoTree {
    /// `no_line()` where a node is empty: an `Option` would cost a word per
    /// node.
    nodes: Vec<Line>,
    x_min_coord: i64,
    domain_size: usize,
    /// The lines inserted so far, the first one first.
    lines: Ghost<Seq<Line>>,
}

impl View for LiChaoTree {
    type V = Seq<Line>;

    /// The lines inserted so far, the first one first.
    closed spec fn view(&self) -> Seq<Line> {
        self.lines@
    }
}

impl LiChaoTree {
    /// The least coordinate of the domain.
    pub closed spec fn x_min(&self) -> int {
        self.x_min_coord as int
    }

    /// The greatest coordinate of the domain.
    pub closed spec fn x_max(&self) -> int {
        self.x_min_coord + self.domain_size - 1
    }

    /// The array has four nodes for each coordinate of the domain, and the
    /// domain lies within `i64`.
    spec fn sized(&self) -> bool {
        &&& 1 <= self.domain_size
        &&& self.x_min_coord + self.domain_size - 1 <= i64::MAX
        &&& self.nodes.len() == 4 * self.domain_size
    }

    /// The nodes are those that inserting the lines of the view in order into
    /// an empty tree over the domain gives.
    pub closed spec fn wf(&self) -> bool {
        &&& self.sized()
        &&& self.nodes@ == nodes_of(self.x_min(), self.x_max(), self.lines@)
    }

    /// Creates an empty tree for the coordinates `[x_min_coord, x_max_coord]`.
    pub fn new(x_min_coord: i64, x_max_coord: i64) -> (tree: LiChaoTree)
        requires
            x_min_coord <= x_max_coord,
            4 * (x_max_coord - x_min_coord + 1) <= usize::MAX,
        ensures
            tree.wf(),
            tree.x_min() == x_min_coord,
            tree.x_max() == x_max_coord,
            tree@ == Seq::<Line>::empty(),
    {
        let domain_size = (x_max_coord - x_min_coord + 1) as usize;
        let tree_array_size = 4 * domain_size;
        let nodes = vec![Line { m: 0, c: i64::MAX }; tree_array_size];
        let tree = LiChaoTree { nodes, x_min_coord, domain_size, lines: Ghost(Seq::empty()) };
        assert(tree.nodes@ =~= nodes_of(tree.x_min(), tree.x_max(), tree.lines@));
        tree
    }

    /// The coordinate that stands at `index` in the domain.
    fn get_x_coord_from_idx(&self, index: usize) -> (x: i64)
        requires
            self.sized(),
            index < self.domain_size,
        ensures
            x == self.x_min_coord + index,
    {
        self.x_min_coord + index as i64
    }

    /// Hands `line_to_add` to the node `node_v_idx`, which covers the indices
    /// `[range_l_idx, range_r_idx]` of the domain.
    fn add_line_internal(
        &mut self,
        line_to_add: Line,
        node_v_idx: usize,
        range_l_idx: usize,
        range_r_idx: usize,
        Ghost(p): Ghost<int>,
    )
        requires
            old(self).sized(),
            range_l_idx <= range_r_idx < old(self).domain_size,
            node_fits(
                node_v_idx as int,
                range_r_idx - range_l_idx,
                p,
                old(self).domain_size as int,
            ),
        ensures
            final(self).nodes@ == inserted(
                old(self).nodes@,
                line_to_add,
                node_v_idx as int,
                old(self).x_min_coord + range_l_idx,
                old(self).x_min_coord + range_r_idx,
            ),
            final(self).x_min_coord == old(self).x_min_coord,
            final(self).domain_size == old(self).domain_size,
            final(self).lines == old(self).lines,
        decreases range_r_idx - range_l_idx,
    {
        proof {
            lemma_node_in_array(
                node_v_idx as int,
                range_r_idx - range_l_idx,
                p,
                self.domain_size as int,
            );
            if range_l_idx < range_r_idx {
                lemma_children_fit(
                    node_v_idx as int,
                    range_l_idx as int,
                    range_r_idx as int,
                    p,
                    self.domain_size as int,
                );
            }
        }
        let mut line_to_add = line_to_add;
        let range_m_idx = range_l_idx + (range_r_idx - range_l_idx) / 2;

        let x_at_l = self.get_x_coord_from_idx(range_l_idx);
        let x_at_m = self.get_x_coord_from_idx(range_m_idx);
        let x_at_r = self.get_x_coord_from_idx(range_r_idx);
        assert(x_at_m == midpoint(x_at_l as int, x_at_r as int));

        let is_new_line_better_at_mid =
            line_to_add.eval(x_at_m) < self.nodes[node_v_idx].eval(x_at_m);

        if is_new_line_better_at_mid {
            std::mem::swap(&mut self.nodes[node_v_idx], &mut line_to_add);
        }
        assert(self.nodes@
            == old(self).nodes@.update(node_v_idx as int, self.nodes[node_v_idx as int]));

        // An empty node's value can improve on nothing below.
        if line_to_add.is_no_line() {
            return ;
        }
        if range_l_idx == range_r_idx {
            return ;
        }
        if line_to_add.eval(x_at_l) < self.nodes[node_v_idx].eval(x_at_l) {
            self.add_line_internal(
                line_to_add,
                2 * node_v_idx + 1,
                range_l_idx,
                range_m_idx,
                Ghost(2 * p),
            );
        } else if line_to_add.eval(x_at_r) < self.nodes[node_v_idx].eval(x_at_r) {
            self.add_line_internal(
                line_to_add,
                2 * node_v_idx + 2,
                range_m_idx + 1,
                range_r_idx,
                Ghost(2 * p),
            );
        }
    }

    /// Adds the line to the tree, in time logarithmic in the size of the
    /// domain.
    pub fn add_line(&mut self, line: Line)
        requires
            old(self).wf(),
            line != no_line(),
        ensures
            final(self).wf(),
            final(self).x_min() == old(self).x_min(),
            final(self).x_max() == old(self).x_max(),
            final(self)@ == old(self)@.push(line),
    {
        proof {
            lemma_root_fits(self.domain_size as int);
        }
        self.add_line_internal(line, 0, 0, self.domain_size - 1, Ghost(1));
        self.lines = Ghost(self.lines@.push(line));
        proof {
            let history = self.lines@;
            assert(history.drop_last() =~= old(self).lines@);
            assert(history.last() == line);
            lemma_inserted_frame(old(self).nodes@, line, 0, self.x_min(), self.x_max());
            assert(nodes_of(self.x_min(), self.x_max(), history) == inserted(
                nodes_of(self.x_min(), self.x_max(), history.drop_last()),
                history.last(),
                0,
                self.x_min(),
                self.x_max(),
            ));
        }
    }

    /// The least value at the coordinate of `query_idx` of the lines on the
    /// path from the node `node_v_idx`, which covers the indices
    /// `[range_l_idx, range_r_idx]`, down to the leaf of `query_idx`.
    fn query_internal(
        &self,
        node_v_idx: usize,
        range_l_idx: usize,
        range_r_idx: usize,
        query_idx: usize,
        Ghost(p): Ghost<int>,
    ) -> (minimum: i64)
        requires
            self.sized(),
            range_l_idx <= query_idx <= range_r_idx < self.domain_size,
            node_fits(node_v_idx as int, range_r_idx - range_l_idx, p, self.domain_size as int),
        ensures
            minimum == path_minimum(
                self.nodes@,
                node_v_idx as int,
                self.x_min_coord + range_l_idx,
                self.x_min_coord + range_r_idx,
                self.x_min_coord + query_idx,
            ),
        decreases range_r_idx - range_l_idx,
    {
        proof {
            lemma_node_in_array(
                node_v_idx as int,
                range_r_idx - range_l_idx,
                p,
                self.domain_size as int,
            );
            if range_l_idx < range_r_idx {
                lemma_children_fit(
                    node_v_idx as int,
                    range_l_idx as int,
                    range_r_idx as int,
                    p,
                    self.domain_size as int,
                );
            }
        }
        let query_x_coord = self.get_x_coord_from_idx(query_idx);
        let min_val_at_query_x = self.nodes[node_v_idx].eval(query_x_coord);

        if range_l_idx == range_r_idx {
            return min_val_at_query_x;
        }
        let range_m_idx = range_l_idx + (range_r_idx - range_l_idx) / 2;
        assert(self.x_min_coord + range_m_idx == midpoint(
            self.x_min_coord + range_l_idx,
            self.x_min_coord + range_r_idx,
        ));

        let child_res = if query_idx <= range_m_idx {
            self.query_internal(
                2 * node_v_idx + 1,
                range_l_idx,
                range_m_idx,
                query_idx,
                Ghost(2 * p),
            )
        } else {
            self.query_internal(
                2 * node_v_idx + 2,
                range_m_idx + 1,
                range_r_idx,
                query_idx,
                Ghost(2 * p),
            )
        };

        if child_res < min_val_at_query_x {
            child_res
        } else {
            min_val_at_query_x
        }
    }

    /// The least value at `x_coord` of the lines held for it, or `None`
    /// where that is `i64::MAX`: where no line was inserted, or none that
    /// stays below `i64::MAX` at `x_coord`. It takes time logarithmic in the
    /// size of the domain.
    ///
    /// Where the inserted lines cross each other at most once over the
    /// domain, as lines that do not saturate there do, the lines held for
    /// `x_coord` give the least value of all the inserted lines. Whatever
    /// the lines are, a value that is returned is one that an inserted line
    /// takes at `x_coord`, and so not less than the least.
    pub fn query(&self, x_coord: i64) -> (res: Option<i64>)
        requires
            self.wf(),
            self.x_min() <= x_coord <= self.x_max(),
        ensures
            res == reported(stored_minimum(self.x_min(), self.x_max(), self@, x_coord as int)),
            pairwise_single_crossing(self@, self.x_min(), self.x_max())
                ==> res == reported(lower_envelope(self@, x_coord as int)),
            res matches Some(value) ==> lower_envelope(self@, x_coord as int) <= value
                && exists|i: int|
                0 <= i < self@.len() && (#[trigger] self@[i]).value_at(x_coord as int) == value,
    {
        let query_idx = (x_coord - self.x_min_coord) as usize;
        proof {
            lemma_root_fits(self.domain_size as int);
            lemma_stored_minimum_is_attained(self.x_min(), self.x_max(), self@, x_coord as int);
            if pairwise_single_crossing(self@, self.x_min(), self.x_max()) {
                lemma_stored_minimum_is_lower_envelope(
                    self.x_min(),
                    self.x_max(),
                    self@,
                    x_coord as int,
                );
            }
        }
        let ret = self.query_internal(0, 0, self.domain_size - 1, query_idx, Ghost(1));
        if ret == i64::MAX {
            None
        } else {
            Some(ret)
        }
    }
}

} // verus!

//! Summary counts of a dependency graph over caller-supplied ids.
use crate::generic::{
    ancestors_by, dependency_table, descendants_by, is_table, item_keys, leaves_indexed, leaves_of,
    lookup, roots_indexed, roots_of, rows,
};
use core::hash::Hash;
use vstd::prelude::*;
use vstd::std_specs::cmp::PartialEqSpec;

verus! {

/// Sum of the row lengths of a table, saturated at `usize::MAX`.
pub open spec fn dependency_total(t: Seq<Seq<usize>>) -> nat
    decreases t.len(),
{
    if t.len() == 0 {
        0
    } else {
        let s = dependency_total(t.drop_last()) + t.last().len();
        if s > usize::MAX {
            usize::MAX as nat
        } else {
            s
        }
    }
}

/// Counts that describe a dependency graph.
#[derive(Debug, Clone)]
pub struct GraphMetrics {
    node_count: usize,
    edge_count: usize,
    root_count: usize,
    leaf_count: usize,
    max_depth: usize,
    max_descendants: usize,
}

impl GraphMetrics {
    pub closed spec fn spec_node_count(&self) -> usize {
        self.node_count
    }

    pub closed spec fn spec_edge_count(&self) -> usize {
        self.edge_count
    }

    pub closed spec fn spec_root_count(&self) -> usize {
        self.root_count
    }

    pub closed spec fn spec_leaf_count(&self) -> usize {
        self.leaf_count
    }

    pub closed spec fn spec_max_depth(&self) -> usize {
        self.max_depth
    }

    pub closed spec fn spec_max_descendants(&self) -> usize {
        self.max_descendants
    }

    /// Counts for the items and their dependencies: items, dependencies
    /// (saturated), items without dependencies, items nothing depends on,
    /// and the largest numbers of ancestors and of descendants of an item.
    pub fn compute<Id, F>(items: &[Id], get_dependencies: F) -> (r: Self)
        where
            Id: Clone + Eq + Hash,
            F: Fn(&Id) -> Vec<Id> + Clone,
        requires
            Id::obeys_eq_spec(),
            forall|x: &Id| #[trigger] get_dependencies.requires((x,)),
        ensures
            r.spec_node_count() == items@.len(),
            exists|t: Seq<Seq<usize>>|
                #[trigger] is_table(items@, get_dependencies, t) && r.spec_edge_count() == dependency_total(t)
                    && r.spec_root_count() == roots_of(t).len() && r.spec_leaf_count() == leaves_of(
                    t,
                    items@.map_values(|d: Id| lookup(items@, d) as usize),
                    items@.len() as int,
                ).len(),
            r.spec_max_depth() <= items@.len(),
            r.spec_max_descendants() <= items@.len(),
    {
        let node_count = items.len();
        let t = dependency_table(items, &get_dependencies);
        let ghost tv = rows(t@);
        let mut edge_count: usize = 0;
        let mut i: usize = 0;
        while i < t.len()
            invariant
                i <= t@.len(),
                tv == rows(t@),
                edge_count == dependency_total(tv.take(i as int)),
            decreases t@.len() - i,
        {
            proof {
                assert(tv.take(i as int + 1).drop_last() =~= tv.take(i as int));
                assert(tv.take(i as int + 1).last() == t@[i as int]@);
            }
            let len = t[i].len();
            edge_count = if edge_count <= usize::MAX - len {
                edge_count + len
            } else {
                usize::MAX
            };
            i = i + 1;
        }
        assert(tv.take(t@.len() as int) =~= tv);
        let roots = roots_indexed(&t);
        let keys = item_keys(items);
        let leaves = leaves_indexed(&t, &keys);
        let mut max_depth: usize = 0;
        let mut max_descendants: usize = 0;
        let mut k: usize = 0;
        while k < items.len()
            invariant
                k <= items@.len(),
                Id::obeys_eq_spec(),
                forall|x: &Id| #[trigger] get_dependencies.requires((x,)),
                max_depth <= items@.len(),
                max_descendants <= items@.len(),
            decreases items@.len() - k,
        {
            let a = ancestors_by(items, &items[k], &get_dependencies);
            if a.len() > max_depth {
                max_depth = a.len();
            }
            let d = descendants_by(items, &items[k], &get_dependencies);
            if d.len() > max_descendants {
                max_descendants = d.len();
            }
            k = k + 1;
        }
        assert(is_table(items@, get_dependencies, tv));
        GraphMetrics {
            node_count,
            edge_count,
            root_count: roots.len(),
            leaf_count: leaves.len(),
            max_depth,
            max_descendants,
        }
    }

    /// Number of items.
    pub fn node_count(&self) -> (r: usize)
        ensures
            r == self.spec_node_count(),
    {
        self.node_count
    }

    /// Number of dependencies.
    pub fn edge_count(&self) -> (r: usize)
        ensures
            r == self.spec_edge_count(),
    {
        self.edge_count
    }

    /// Number of items without dependencies.
    pub fn root_count(&self) -> (r: usize)
        ensures
            r == self.spec_root_count(),
    {
        self.root_count
    }

    /// Number of items that nothing depends on.
    pub fn leaf_count(&self) -> (r: usize)
        ensures
            r == self.spec_leaf_count(),
    {
        self.leaf_count
    }

    /// Largest number of ancestors of an item.
    pub fn max_depth(&self) -> (r: usize)
        ensures
            r == self.spec_max_depth(),
    {
        self.max_depth
    }

    /// Largest number of descendants of an item.
    pub fn max_descendants(&self) -> (r: usize)
        ensures
            r == self.spec_max_descendants(),
    {
        self.max_descendants
    }

    /// A single root, and one dependency fewer than items.
    pub fn is_tree(&self) -> (r: bool)
        ensures
            r == (self.spec_root_count() == 1 && self.spec_edge_count() == (if self.spec_node_count() > 0 {
                self.spec_node_count() - 1
            } else {
                0
            })),
    {
        let expected = if self.node_count > 0 {
            self.node_count - 1
        } else {
            0
        };
        self.root_count == 1 && self.edge_count == expected
    }

    /// As many dependencies as items that are not roots.
    pub fn is_forest(&self) -> (r: bool)
        ensures
            r == (self.spec_edge_count() == (if self.spec_node_count() > self.spec_root_count() {
                self.spec_node_count() - self.spec_root_count()
            } else {
                0
            })),
    {
        let expected = if self.node_count > self.root_count {
            self.node_count - self.root_count
        } else {
            0
        };
        self.edge_count == expected
    }

    /// Density below one tenth: with `n` items, at most one, or fewer than
    /// `n × (n - 1) / 10` dependencies.
    pub fn is_sparse(&self) -> (r: bool)
        ensures
            r == (self.spec_node_count() <= 1 || 10 * self.spec_edge_count() < self.spec_node_count() * (
            self.spec_node_count() - 1)),
    {
        if self.node_count <= 1 {
            true
        } else {
            let n = self.node_count as u128;
            assert(n * (n - 1) <= 0xffff_ffff_ffff_ffff_ffff_ffff_ffff_ffff) by (nonlinear_arith)
                requires
                    1 < n <= 0xffff_ffff_ffff_ffff,
            ;
            10 * (self.edge_count as u128) < n * (n - 1)
        }
    }

    /// Density above one half: with `n > 1` items, more than `n × (n - 1) / 2`
    /// dependencies.
    pub fn is_dense(&self) -> (r: bool)
        ensures
            r == (self.spec_node_count() > 1 && 2 * self.spec_edge_count() > self.spec_node_count() * (
            self.spec_node_count() - 1)),
    {
        if self.node_count <= 1 {
            false
        } else {
            let n = self.node_count as u128;
            assert(n * (n - 1) <= 0xffff_ffff_ffff_ffff_ffff_ffff_ffff_ffff) by (nonlinear_arith)
                requires
                    1 < n <= 0xffff_ffff_ffff_ffff,
            ;
            2 * (self.edge_count as u128) > n * (n - 1)
        }
    }
}

} // verus!

//! Edge costs: a table with one cost for every passage of an adjacency list,
//! and the drawing of such a table at random.

use crate::prim::cost_of;
use vstd::prelude::*;

verus! {

/// `rand::random::<u8>()`: a byte from the thread's random generator. The
/// contract says nothing of the byte: any value may come.
#[verifier::external_body]
fn random_cost() -> u8 {
    rand::random::<u8>()
}

/// The table has a cost for every passage of the adjacency list and for
/// nothing else.
pub open spec fn fits(costs: Seq<Seq<u8>>, adj: Seq<Seq<usize>>) -> bool {
    &&& costs.len() == adj.len()
    &&& forall|i: int| 0 <= i < adj.len() ==> (#[trigger] costs[i]).len() == adj[i].len()
}

/// The rows of a vector of vectors are the rows of its deep view.
pub proof fn lemma_rows_of_costs(table: &Vec<Vec<u8>>)
    ensures
        table.deep_view().len() == table@.len(),
        forall|i: int| 0 <= i < table@.len() ==> #[trigger] table.deep_view()[i] == table@[i]@,
{
    assert forall|i: int| 0 <= i < table@.len() implies #[trigger] table.deep_view()[i]
        == table@[i]@ by {
        assert(table.deep_view()[i] =~= table@[i]@);
    }
}

/// The rows of a vector of vectors are the rows of its deep view.
pub proof fn lemma_rows_of_adjacency(lists: &Vec<Vec<usize>>)
    ensures
        lists.deep_view().len() == lists@.len(),
        forall|i: int| 0 <= i < lists@.len() ==> #[trigger] lists.deep_view()[i] == lists@[i]@,
{
    assert forall|i: int| 0 <= i < lists@.len() implies #[trigger] lists.deep_view()[i]
        == lists@[i]@ by {
        assert(lists.deep_view()[i] =~= lists@[i]@);
    }
}

/// Returns what the table says the edge from `origin` to its neighbour
/// number `slot` costs, and 0 where the table does not list the edge.
pub fn cost_at(costs: &Vec<Vec<u8>>, origin: usize, slot: usize) -> (c: u8)
    ensures
        c == cost_of(costs.deep_view(), origin as int, slot as int),
{
    proof {
        lemma_rows_of_costs(costs);
    }
    if origin < costs.len() && slot < costs[origin].len() {
        costs[origin][slot]
    } else {
        0
    }
}

/// Draws a cost at random for every passage of the adjacency list: each
/// direction of a passage gets a cost of its own.
pub fn random_costs(adjacency: &Vec<Vec<usize>>) -> (costs: Vec<Vec<u8>>)
    ensures
        fits(costs.deep_view(), adjacency.deep_view()),
{
    let mut costs: Vec<Vec<u8>> = Vec::new();
    let mut i: usize = 0;
    while i < adjacency.len()
        invariant
            i <= adjacency@.len(),
            costs@.len() == i,
            forall|k: int| 0 <= k < i ==> (#[trigger] costs@[k])@.len() == adjacency@[k]@.len(),
        decreases adjacency@.len() - i,
    {
        let mut row: Vec<u8> = Vec::new();
        let mut j: usize = 0;
        while j < adjacency[i].len()
            invariant
                i < adjacency@.len(),
                j <= adjacency@[i as int]@.len(),
                row@.len() == j,
            decreases adjacency@[i as int]@.len() - j,
        {
            row.push(random_cost());
            j += 1;
        }
        costs.push(row);
        i += 1;
    }
    proof {
        lemma_rows_of_costs(&costs);
        lemma_rows_of_adjacency(adjacency);
    }
    costs
}

} // verus!

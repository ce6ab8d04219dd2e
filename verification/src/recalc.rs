//! What a recalculation has to do: which cells an edit reaches, and the
//! order to evaluate them in so that every formula comes after what it reads,
//! with the cells that cannot be ordered because they form a cycle set apart.
//!
//! Evaluating a cell is the caller's business; this decides only which cells
//! and when.

use vstd::prelude::*;

use crate::coord::CellAddr;
use crate::graph::{
    addr_key, ascending, insert_sorted, is_dependent, key_addr, key_of, lemma_addr_key,
    lemma_keys_match, DependencyGraph, Dependency,
};

verus! {

/// Each cell of the chain reads the one before it.
pub open spec fn chain(formulas: Map<u128, Seq<Dependency>>, p: Seq<CellAddr>) -> bool {
    forall|i: int| 0 <= i < p.len() - 1 ==> is_dependent(formulas, #[trigger] p[i + 1], p[i])
}

/// A cell an edit of the seeds reaches: a seed, or a formula reading, directly
/// or through others, something it reaches.
pub open spec fn reached(formulas: Map<u128, Seq<Dependency>>, seeds: Seq<CellAddr>, c: CellAddr) -> bool {
    exists|p: Seq<CellAddr>|
        #[trigger] chain(formulas, p) && p.len() >= 1 && seeds.contains(p[0]) && p.last() == c
}

/// The cells that hold formulas.
pub open spec fn formula_cells(formulas: Map<u128, Seq<Dependency>>) -> Set<CellAddr> {
    formulas.dom().map(|k: u128| key_addr(k))
}

/// Where a cell sits in an ascending list, found by bisection.
pub fn position_sorted(list: &Vec<CellAddr>, addr: CellAddr) -> (r: Option<usize>)
    requires
        ascending(list@),
    ensures
        r matches Some(i) ==> i < list@.len() && list@[i as int] == addr,
        r is None ==> !list@.contains(addr),
{
    let key = key_of(addr);
    let mut lo: usize = 0;
    let mut hi: usize = list.len();
    while lo < hi
        invariant
            lo <= hi <= list@.len(),
            key == addr_key(addr),
            ascending(list@),
            forall|i: int| 0 <= i < lo ==> addr_key(#[trigger] list@[i]) < key,
            forall|i: int| hi <= i < list@.len() ==> addr_key(#[trigger] list@[i]) > key,
        decreases hi - lo,
    {
        let mid = lo + (hi - lo) / 2;
        let k = key_of(list[mid]);
        if k == key {
            proof {
                lemma_keys_match(list@[mid as int], addr);
            }
            return Some(mid);
        } else if k < key {
            lo = mid + 1;
        } else {
            hi = mid;
        }
    }
    proof {
        if list@.contains(addr) {
            let w = choose|w: int| 0 <= w < list@.len() && list@[w] == addr;
            assert(addr_key(list@[w]) == key);
        }
    }
    None
}

proof fn lemma_ascending_no_duplicates(s: Seq<CellAddr>)
    requires
        ascending(s),
    ensures
        s.no_duplicates(),
{
    assert forall|i: int, j: int| 0 <= i < s.len() && 0 <= j < s.len() && i != j implies s[i] != s[j] by {
        if i < j {
            assert(addr_key(s[i]) < addr_key(s[j]));
        } else {
            assert(addr_key(s[j]) < addr_key(s[i]));
        }
    }
}

proof fn lemma_dependent_is_a_formula(formulas: Map<u128, Seq<Dependency>>, f: CellAddr, a: CellAddr)
    requires
        is_dependent(formulas, f, a),
    ensures
        formula_cells(formulas).contains(f),
{
    lemma_addr_key(f);
    assert(formulas.dom().contains(addr_key(f)));
}

proof fn lemma_extend_chain(formulas: Map<u128, Seq<Dependency>>, p: Seq<CellAddr>, f: CellAddr)
    requires
        chain(formulas, p),
        p.len() >= 1,
        is_dependent(formulas, f, p.last()),
    ensures
        chain(formulas, p.push(f)),
{
    assert forall|i: int| 0 <= i < p.push(f).len() - 1 implies is_dependent(formulas, #[trigger] p.push(f)[i + 1], p.push(f)[i]) by {
        if i < p.len() - 1 {
            assert(p.push(f)[i + 1] == p[i + 1]);
            assert(p.push(f)[i] == p[i]);
        }
    }
}

/// Every cell reached from the seeds by following who-reads-whom, in order
/// of sheet, row and column.
pub fn affected_by(graph: &DependencyGraph, seeds: &Vec<CellAddr>) -> (r: Vec<CellAddr>)
    requires
        graph.well_formed(),
    ensures
        ascending(r@),
        forall|c: CellAddr| #[trigger] r@.contains(c) <==> reached(graph.formulas(), seeds@, c),
{
    let ghost f = graph.formulas();
    let ghost universe = seeds@.to_set().union(formula_cells(f));
    proof {
        graph.lemma_formulas_finite();
        f.dom().lemma_map_finite(|k: u128| key_addr(k));
        assert(formula_cells(f).finite());
    }
    let mut seen: Vec<CellAddr> = Vec::new();
    let mut queue: Vec<CellAddr> = Vec::new();
    let mut k: usize = 0;
    while k < seeds.len()
        invariant
            k <= seeds@.len(),
            queue@ == seeds@.subrange(0, k as int),
        decreases seeds.len() - k,
    {
        queue.push(seeds[k]);
        k = k + 1;
        assert(queue@ =~= seeds@.subrange(0, k as int));
    }
    assert(queue@ =~= seeds@);
    proof {
        assert forall|c: CellAddr| #[trigger] queue@.contains(c) implies reached(f, seeds@, c) by {
            let p = seq![c];
            assert(chain(f, p));
        }
    }
    while queue.len() > 0
        invariant
            f == graph.formulas(),
            graph.well_formed(),
            universe == seeds@.to_set().union(formula_cells(f)),
            universe.finite(),
            ascending(seen@),
            forall|c: CellAddr| #[trigger] seen@.contains(c) ==> reached(f, seeds@, c),
            forall|c: CellAddr| #[trigger] queue@.contains(c) ==> reached(f, seeds@, c),
            forall|c: CellAddr| #[trigger] seeds@.contains(c) ==> seen@.contains(c) || queue@.contains(c),
            forall|s: CellAddr, d: CellAddr|
                #[trigger] seen@.contains(s) && #[trigger] is_dependent(f, d, s) ==> seen@.contains(d) || queue@.contains(d),
            seen@.to_set().subset_of(universe),
            seen@.len() <= universe.len(),
        decreases universe.len() - seen@.len(), queue@.len(),
    {
        let ghost before_seen = seen@;
        let ghost before_queue = queue@;
        let addr = queue.pop().unwrap();
        proof {
            assert(before_queue.contains(addr)) by {
                assert(before_queue[before_queue.len() - 1] == addr);
            }
            assert forall|c: CellAddr| #[trigger] before_queue.contains(c) implies queue@.contains(c) || c == addr by {
                let w = choose|w: int| 0 <= w < before_queue.len() && before_queue[w] == c;
                if w < before_queue.len() - 1 {
                    assert(queue@[w] == c);
                }
            }
            assert forall|c: CellAddr| #[trigger] queue@.contains(c) implies reached(f, seeds@, c) by {
                let w = choose|w: int| 0 <= w < queue@.len() && queue@[w] == c;
                assert(before_queue[w] == c);
                assert(before_queue.contains(c));
            }
        }
        let n = seen.len();
        insert_sorted(&mut seen, addr);
        if seen.len() == n {
            proof {
                if !before_seen.contains(addr) {
                    assert(seen@.contains(addr));
                    assert(seen@ != before_seen);
                }
            }
            continue;
        }
        proof {
            assert(!before_seen.contains(addr)) by {
                if before_seen.contains(addr) {
                    if seen@ != before_seen {
                        let i = choose|i: int| 0 <= i <= before_seen.len() && seen@ == before_seen.insert(i, addr);
                        let w = choose|w: int| 0 <= w < before_seen.len() && before_seen[w] == addr;
                        lemma_ascending_no_duplicates(seen@);
                        if w < i {
                            assert(seen@[w] == addr && seen@[i] == addr);
                        } else {
                            assert(seen@[w + 1] == addr && seen@[i] == addr);
                        }
                    }
                }
            }
            // The newcomer was in the universe and not yet seen, so the count
            // of unseen cells went down.
            let p = choose|p: Seq<CellAddr>| #[trigger] chain(f, p) && p.len() >= 1 && seeds@.contains(p[0]) && p.last() == addr;
            if p.len() == 1 {
                assert(seeds@.to_set().contains(addr));
            } else {
                let i = p.len() - 2;
                assert(is_dependent(f, p[i + 1], p[i]));
                lemma_dependent_is_a_formula(f, addr, p[i]);
            }
            assert(seen@.to_set() =~= before_seen.to_set().insert(addr));
            lemma_ascending_no_duplicates(seen@);
            seen@.unique_seq_to_set();
            vstd::set_lib::lemma_len_subset(seen@.to_set(), universe);
        }
        let readers = graph.dependents_of(addr);
        let mut j: usize = 0;
        while j < readers.len()
            invariant
                j <= readers@.len(),
                f == graph.formulas(),
                ascending(seen@),
                forall|d: CellAddr| #[trigger] readers@.contains(d) <==> is_dependent(f, d, addr),
                forall|c: CellAddr| #[trigger] queue@.contains(c) ==> reached(f, seeds@, c),
                reached(f, seeds@, addr),
                seen@.contains(addr),
                forall|c: CellAddr| #[trigger] before_queue.contains(c) ==> queue@.contains(c) || c == addr,
                forall|m: int| 0 <= m < j ==> seen@.contains(#[trigger] readers@[m]) || queue@.contains(readers@[m]),
            decreases readers.len() - j,
        {
            let d = readers[j];
            assert(readers@.contains(d));
            match position_sorted(&seen, d) {
                Some(_) => {},
                None => {
                    let ghost q = queue@;
                    queue.push(d);
                    proof {
                        let p = choose|p: Seq<CellAddr>| #[trigger] chain(f, p) && p.len() >= 1 && seeds@.contains(p[0]) && p.last() == addr;
                        lemma_extend_chain(f, p, d);
                        assert(p.push(d).last() == d);
                        assert(p.push(d)[0] == p[0]);
                        assert(reached(f, seeds@, d));
                        assert forall|c: CellAddr| #[trigger] queue@.contains(c) implies reached(f, seeds@, c) by {
                            if c != d {
                                let w = choose|w: int| 0 <= w < queue@.len() && queue@[w] == c;
                                assert(q[w] == c);
                                assert(q.contains(c));
                            }
                        }
                        assert forall|c: CellAddr| #[trigger] before_queue.contains(c) implies queue@.contains(c) || c == addr by {
                            if q.contains(c) {
                                let w = choose|w: int| 0 <= w < q.len() && q[w] == c;
                                assert(queue@[w] == c);
                            }
                        }
                        assert forall|m: int| 0 <= m < j + 1 implies seen@.contains(#[trigger] readers@[m]) || queue@.contains(readers@[m]) by {
                            if m < j && q.contains(readers@[m]) {
                                let w = choose|w: int| 0 <= w < q.len() && q[w] == readers@[m];
                                assert(queue@[w] == readers@[m]);
                            }
                            if m == j {
                                assert(queue@[q.len() as int] == d);
                            }
                        }
                    }
                },
            }
            j = j + 1;
        }
        proof {
            assert forall|s: CellAddr, d: CellAddr|
                #[trigger] seen@.contains(s) && #[trigger] is_dependent(f, d, s) implies seen@.contains(d) || queue@.contains(d) by {
                if s == addr {
                    assert(readers@.contains(d));
                    let w = choose|w: int| 0 <= w < readers@.len() && readers@[w] == d;
                } else {
                    assert(before_seen.contains(s));
                    if before_seen.contains(d) {
                    } else {
                        assert(before_queue.contains(d));
                    }
                }
            }
            assert forall|c: CellAddr| #[trigger] seeds@.contains(c) implies seen@.contains(c) || queue@.contains(c) by {
                if before_seen.contains(c) {
                } else {
                    assert(before_queue.contains(c));
                }
            }
        }
    }
    proof {
        assert forall|c: CellAddr| reached(f, seeds@, c) implies #[trigger] seen@.contains(c) by {
            let p = choose|p: Seq<CellAddr>| #[trigger] chain(f, p) && p.len() >= 1 && seeds@.contains(p[0]) && p.last() == c;
            lemma_closed_contains_chain(f, seeds@, seen@, p);
        }
    }
    seen
}

/// A set holding the seeds and every reader of its members holds every cell
/// a chain from a seed reaches.
proof fn lemma_closed_contains_chain(formulas: Map<u128, Seq<Dependency>>, seeds: Seq<CellAddr>, seen: Seq<CellAddr>, p: Seq<CellAddr>)
    requires
        chain(formulas, p),
        p.len() >= 1,
        seeds.contains(p[0]),
        forall|c: CellAddr| #[trigger] seeds.contains(c) ==> seen.contains(c),
        forall|s: CellAddr, d: CellAddr| #[trigger] seen.contains(s) && #[trigger] is_dependent(formulas, d, s) ==> seen.contains(d),
    ensures
        seen.contains(p.last()),
    decreases p.len(),
{
    if p.len() > 1 {
        let q = p.drop_last();
        assert forall|i: int| 0 <= i < q.len() - 1 implies is_dependent(formulas, #[trigger] q[i + 1], q[i]) by {
            assert(q[i + 1] == p[i + 1]);
            assert(q[i] == p[i]);
        }
        lemma_closed_contains_chain(formulas, seeds, seen, q);
        let i = p.len() - 2;
        assert(is_dependent(formulas, p[i + 1], p[i]));
    }
}

// ---------------------------------------------------------------------------
// The order of evaluation.

/// The cell at `j` among the affected reads the one at `i`.
pub open spec fn edge(formulas: Map<u128, Seq<Dependency>>, cells: Seq<CellAddr>, i: int, j: int) -> bool {
    0 <= i < cells.len() && 0 <= j < cells.len() && is_dependent(formulas, cells[j], cells[i])
}

/// A walk along reading edges among the affected cells.
pub open spec fn walk(formulas: Map<u128, Seq<Dependency>>, cells: Seq<CellAddr>, p: Seq<int>) -> bool {
    forall|k: int| 0 <= k < p.len() - 1 ==> #[trigger] edge(formulas, cells, p[k], p[k + 1])
}

/// The cell at `i` lies on a cycle of cells reading one another, every cell
/// of it marked.
pub open spec fn on_cycle(formulas: Map<u128, Seq<Dependency>>, cells: Seq<CellAddr>, marked: Seq<bool>, i: int) -> bool {
    exists|p: Seq<int>|
        #[trigger] walk(formulas, cells, p) && p.len() >= 2 && p[0] == i && p.last() == i && forall|k: int|
            0 <= k < p.len() ==> 0 <= #[trigger] p[k] < marked.len() && marked[p[k]]
}

/// A cell of the affected set that takes part in a cycle among the cells set
/// apart: there is a chain of affected cells, each reading the one before,
/// from it back to itself, and every cell of the chain is set apart.
pub open spec fn cyclic(
    formulas: Map<u128, Seq<Dependency>>,
    cells: Seq<CellAddr>,
    circular: Seq<CellAddr>,
    c: CellAddr,
) -> bool {
    exists|p: Seq<int>|
        #[trigger] walk(formulas, cells, p) && p.len() >= 2 && 0 <= p[0] < cells.len() && cells[p[0]] == c && p.last()
            == p[0] && forall|k: int| 0 <= k < p.len() ==> 0 <= #[trigger] p[k] < cells.len() && circular.contains(cells[p[k]])
}

/// Marking more cells keeps a marked cycle marked.
proof fn lemma_marked_cycle_grows(
    formulas: Map<u128, Seq<Dependency>>,
    cells: Seq<CellAddr>,
    before: Seq<bool>,
    after: Seq<bool>,
    i: int,
)
    requires
        on_cycle(formulas, cells, before, i),
        after.len() == before.len(),
        forall|j: int| 0 <= j < before.len() && before[j] ==> #[trigger] after[j],
    ensures
        on_cycle(formulas, cells, after, i),
{
    let p = choose|p: Seq<int>|
        #[trigger] walk(formulas, cells, p) && p.len() >= 2 && p[0] == i && p.last() == i && forall|k: int|
            0 <= k < p.len() ==> 0 <= #[trigger] p[k] < before.len() && before[p[k]];
    assert(forall|k: int| 0 <= k < p.len() ==> 0 <= #[trigger] p[k] < after.len() && after[p[k]]);
}

/// Whether the evaluation order and the circular cells answer for the
/// affected cells: together they are exactly the affected cells, each once;
/// every formula in the order comes after each cell it reads; and every cell
/// set apart lies on a cycle of cells set apart.
pub open spec fn schedules(
    formulas: Map<u128, Seq<Dependency>>,
    cells: Seq<CellAddr>,
    order: Seq<CellAddr>,
    circular: Seq<CellAddr>,
) -> bool {
    &&& order.no_duplicates()
    &&& ascending(circular)
    &&& forall|c: CellAddr| #[trigger] cells.contains(c) <==> order.contains(c) || circular.contains(c)
    &&& forall|c: CellAddr| #[trigger] order.contains(c) ==> !circular.contains(c)
    &&& forall|a: int, b: int|
        0 <= a < order.len() && 0 <= b < order.len() && is_dependent(formulas, #[trigger] order[a], #[trigger] order[b]) ==> b < a
    &&& forall|c: CellAddr| #[trigger] circular.contains(c) ==> cyclic(formulas, cells, circular, c)
}

/// The state of the depth-first walk, checked as it goes.
pub open spec fn dfs_state(
    formulas: Map<u128, Seq<Dependency>>,
    cells: Seq<CellAddr>,
    succ: Seq<Seq<usize>>,
    mark: Seq<u8>,
    next: Seq<usize>,
    circ: Seq<bool>,
    stack: Seq<usize>,
    finished: Seq<usize>,
) -> bool {
    let n = cells.len();
    &&& succ.len() == n && mark.len() == n && next.len() == n && circ.len() == n
    &&& forall|i: int, j: int| 0 <= i < n && 0 <= j < n ==> (#[trigger] succ[i].contains(j as usize) <==> edge(formulas, cells, i, j))
    &&& forall|i: int, k: int| 0 <= i < n && 0 <= k < succ[i].len() ==> #[trigger] succ[i][k] < n
    &&& forall|i: int| 0 <= i < n ==> #[trigger] next[i] <= succ[i].len()
    &&& forall|i: int| 0 <= i < n ==> #[trigger] mark[i] <= 2
    &&& forall|i: int| 0 <= i < n ==> (#[trigger] mark[i] == 1 <==> stack.contains(i as usize))
    &&& forall|i: int| 0 <= i < n ==> (#[trigger] mark[i] == 2 <==> finished.contains(i as usize))
    &&& forall|i: int| 0 <= i < n && #[trigger] mark[i] == 0 ==> next[i] == 0
    &&& stack.no_duplicates()
    &&& finished.no_duplicates()
    &&& forall|t: int| 0 <= t < stack.len() ==> #[trigger] stack[t] < n
    &&& forall|t: int| 0 <= t < finished.len() ==> #[trigger] finished[t] < n
    &&& forall|t: int| 0 <= t < stack.len() - 1 ==> #[trigger] edge(formulas, cells, stack[t] as int, stack[t + 1] as int)
    // A finished cell's readers are finished too, or it and they are circular.
    &&& forall|u: int, v: int|
        0 <= u < n && mark[u] == 2 && #[trigger] edge(formulas, cells, u, v) ==> mark[v] == 2 || (circ[u] && circ[v])
    // A cell finished no later than one that reads it: both circular.
    &&& forall|a: int, b: int|
        0 <= a <= b < finished.len() && #[trigger] edge(formulas, cells, finished[a] as int, finished[b] as int)
            ==> circ[finished[a] as int] && circ[finished[b] as int]
    // The readers of a cell on the walk already looked at: finished, circular
    // with it, or the one just above it on the walk.
    &&& forall|t: int, k: int|
        0 <= t < stack.len() && 0 <= k < next[stack[t] as int] ==> mark[#[trigger] succ[stack[t] as int][k] as int] == 2
            || (circ[stack[t] as int] && circ[succ[stack[t] as int][k] as int])
            || (t + 1 < stack.len() && stack[t + 1] == succ[stack[t] as int][k] && k == next[stack[t] as int] - 1)
    &&& forall|i: int| 0 <= i < n && #[trigger] circ[i] ==> on_cycle(formulas, cells, circ, i)
}

/// For each affected cell, where among the affected its readers are, in
/// order of sheet, row and column.
fn successors(graph: &DependencyGraph, cells: &Vec<CellAddr>) -> (succ: Vec<Vec<usize>>)
    requires
        graph.well_formed(),
        ascending(cells@),
    ensures
        succ@.len() == cells@.len(),
        forall|i: int, j: int| 0 <= i < cells@.len() && 0 <= j < cells@.len() ==> (#[trigger] succ@[i]@.contains(j as usize) <==> edge(graph.formulas(), cells@, i, j)),
        forall|i: int, k: int| 0 <= i < cells@.len() && 0 <= k < succ@[i]@.len() ==> #[trigger] succ@[i]@[k] < cells@.len(),
{
    let ghost f = graph.formulas();
    let n = cells.len();
    let mut succ: Vec<Vec<usize>> = Vec::new();
    let mut i: usize = 0;
    while i < n
        invariant
            i <= n == cells@.len(),
            f == graph.formulas(),
            graph.well_formed(),
            ascending(cells@),
            succ@.len() == i,
            forall|a: int, j: int| 0 <= a < i && 0 <= j < n ==> (#[trigger] succ@[a]@.contains(j as usize) <==> edge(f, cells@, a, j)),
            forall|a: int, k: int| 0 <= a < i && 0 <= k < succ@[a]@.len() ==> #[trigger] succ@[a]@[k] < n,
        decreases n - i,
    {
        let readers = graph.dependents_of(cells[i]);
        let mut list: Vec<usize> = Vec::new();
        let mut k: usize = 0;
        while k < readers.len()
            invariant
                k <= readers@.len(),
                i < n == cells@.len(),
                ascending(cells@),
                forall|d: CellAddr| #[trigger] readers@.contains(d) <==> is_dependent(f, d, cells@[i as int]),
                forall|m: int| 0 <= m < list@.len() ==> #[trigger] list@[m] < n,
                forall|j: int| 0 <= j < n ==> (#[trigger] list@.contains(j as usize) <==> exists|m: int| 0 <= m < k && readers@[m] == cells@[j]),
            decreases readers.len() - k,
        {
            let ghost before = list@;
            match position_sorted(cells, readers[k]) {
                Some(j) => {
                    list.push(j);
                    proof {
                        assert forall|jj: int| 0 <= jj < n implies (#[trigger] list@.contains(jj as usize) <==> exists|m: int| 0 <= m < k + 1 && readers@[m] == cells@[jj]) by {
                            if list@.contains(jj as usize) {
                                let w = choose|w: int| 0 <= w < list@.len() && list@[w] == jj as usize;
                                if w < before.len() {
                                    assert(before.contains(jj as usize));
                                } else {
                                    assert(readers@[k as int] == cells@[jj]);
                                }
                            }
                            if exists|m: int| 0 <= m < k + 1 && readers@[m] == cells@[jj] {
                                let m = choose|m: int| 0 <= m < k + 1 && readers@[m] == cells@[jj];
                                if m < k {
                                    assert(before.contains(jj as usize));
                                    let w = choose|w: int| 0 <= w < before.len() && before[w] == jj as usize;
                                    assert(list@[w] == jj as usize);
                                } else {
                                    lemma_ascending_no_duplicates(cells@);
                                    assert(cells@[j as int] == cells@[jj]);
                                    assert(list@[before.len() as int] == jj as usize);
                                }
                            }
                        }
                    }
                },
                None => {
                    proof {
                        assert forall|jj: int| 0 <= jj < n implies (#[trigger] list@.contains(jj as usize) <==> exists|m: int| 0 <= m < k + 1 && readers@[m] == cells@[jj]) by {
                            if exists|m: int| 0 <= m < k + 1 && readers@[m] == cells@[jj] {
                                let m = choose|m: int| 0 <= m < k + 1 && readers@[m] == cells@[jj];
                                if m == k {
                                    assert(cells@.contains(cells@[jj]));
                                }
                            }
                        }
                    }
                },
            }
            k = k + 1;
        }
        proof {
            assert forall|j: int| 0 <= j < n implies (#[trigger] list@.contains(j as usize) <==> edge(f, cells@, i as int, j)) by {
                if list@.contains(j as usize) {
                    let m = choose|m: int| 0 <= m < readers@.len() && readers@[m] == cells@[j];
                    assert(readers@.contains(cells@[j]));
                }
                if edge(f, cells@, i as int, j) {
                    assert(readers@.contains(cells@[j]));
                    let m = choose|m: int| 0 <= m < readers@.len() && readers@[m] == cells@[j];
                }
            }
        }
        let ghost old_succ = succ@;
        succ.push(list);
        proof {
            assert forall|a: int, j: int| 0 <= a < i + 1 && 0 <= j < n implies (#[trigger] succ@[a]@.contains(j as usize) <==> edge(f, cells@, a, j)) by {
                if a < i {
                    assert(succ@[a] == old_succ[a]);
                }
            }
            assert forall|a: int, kk: int| 0 <= a < i + 1 && 0 <= kk < succ@[a]@.len() implies #[trigger] succ@[a]@[kk] < n by {
                if a < i {
                    assert(succ@[a] == old_succ[a]);
                }
            }
        }
        i = i + 1;
    }
    succ
}

/// How many of the first `k` marks are `v`.
pub open spec fn count_upto(s: Seq<u8>, v: u8, k: int) -> int
    decreases k,
{
    if k <= 0 {
        0
    } else {
        count_upto(s, v, k - 1) + (if s[k - 1] == v { 1int } else { 0int })
    }
}

/// How many readers of the first `k` cells are still to be looked at.
pub open spec fn pending_upto(sv: Seq<Seq<usize>>, next: Seq<usize>, k: int) -> int
    decreases k,
{
    if k <= 0 {
        0
    } else {
        pending_upto(sv, next, k - 1) + (sv[k - 1].len() - next[k - 1])
    }
}

proof fn lemma_count_bounds(s: Seq<u8>, v: u8, k: int)
    requires
        0 <= k,
    ensures
        0 <= count_upto(s, v, k) <= k,
    decreases k,
{
    if k > 0 {
        lemma_count_bounds(s, v, k - 1);
    }
}

proof fn lemma_count_update(s: Seq<u8>, i: int, b: u8, v: u8, k: int)
    requires
        0 <= i < s.len(),
        0 <= k <= s.len(),
    ensures
        count_upto(s.update(i, b), v, k) == count_upto(s, v, k) - (if i < k && s[i] == v { 1int } else { 0int }) + (
        if i < k && b == v { 1int } else { 0int }),
    decreases k,
{
    if k > 0 {
        lemma_count_update(s, i, b, v, k - 1);
    }
}

proof fn lemma_pending_bounds(sv: Seq<Seq<usize>>, next: Seq<usize>, k: int)
    requires
        0 <= k <= next.len(),
        k <= sv.len(),
        forall|i: int| 0 <= i < k ==> #[trigger] next[i] <= sv[i].len(),
    ensures
        pending_upto(sv, next, k) >= 0,
    decreases k,
{
    if k > 0 {
        lemma_pending_bounds(sv, next, k - 1);
    }
}

proof fn lemma_pending_step(sv: Seq<Seq<usize>>, next: Seq<usize>, i: int, k: int)
    requires
        0 <= i < next.len(),
        0 <= k <= next.len(),
        next[i] < usize::MAX,
    ensures
        pending_upto(sv, next.update(i, (next[i] + 1) as usize), k) == pending_upto(sv, next, k) - (if i < k { 1int } else { 0int }),
    decreases k,
{
    if k > 0 {
        lemma_pending_step(sv, next, i, k - 1);
    }
}

/// The cycle through the walk from position `from` up to its top and back
/// along the reading edge from the top to where it started, seen from the
/// cell at position `t`.
proof fn lemma_cycle_on_walk(
    formulas: Map<u128, Seq<Dependency>>,
    cells: Seq<CellAddr>,
    stack: Seq<usize>,
    marked: Seq<bool>,
    from: int,
    t: int,
)
    requires
        0 <= from <= t < stack.len(),
        forall|m: int| from <= m < stack.len() ==> #[trigger] stack[m] < marked.len() && marked[stack[m] as int],
        forall|m: int| 0 <= m < stack.len() - 1 ==> #[trigger] edge(formulas, cells, stack[m] as int, stack[m + 1] as int),
        edge(formulas, cells, stack[stack.len() - 1] as int, stack[from] as int),
    ensures
        on_cycle(formulas, cells, marked, stack[t] as int),
{
    let top = stack.len() - 1;
    let up: Seq<int> = Seq::new((stack.len() - t) as nat, |m: int| stack[t + m] as int);
    let around: Seq<int> = Seq::new((t + 1 - from) as nat, |m: int| stack[from + m] as int);
    let p = up + around;
    assert forall|k: int| 0 <= k < p.len() - 1 implies #[trigger] edge(formulas, cells, p[k], p[k + 1]) by {
        if k < up.len() - 1 {
            assert(p[k] == stack[t + k] as int);
            assert(p[k + 1] == stack[t + k + 1] as int);
            assert(edge(formulas, cells, stack[t + k] as int, stack[t + k + 1] as int));
        } else if k == up.len() - 1 {
            assert(p[k] == stack[top] as int);
            assert(p[k + 1] == stack[from] as int);
        } else {
            let m = k - up.len();
            assert(p[k] == stack[from + m] as int);
            assert(p[k + 1] == stack[from + m + 1] as int);
            assert(edge(formulas, cells, stack[from + m] as int, stack[from + m + 1] as int));
        }
    }
    assert(p[0] == stack[t] as int);
    assert(p.last() == stack[t] as int);
    assert(walk(formulas, cells, p));
    assert forall|k: int| 0 <= k < p.len() implies 0 <= #[trigger] p[k] < marked.len() && marked[p[k]] by {
        if k < up.len() {
            assert(p[k] == stack[t + k] as int);
        } else {
            assert(p[k] == stack[from + (k - up.len())] as int);
        }
    }
}

/// The readers of each cell as positions.
pub open spec fn succ_view(succ: Seq<Vec<usize>>) -> Seq<Seq<usize>> {
    succ.map_values(|v: Vec<usize>| v@)
}

/// The top of the walk has no reader left to look at: it is finished.
#[verifier::rlimit(50)]
fn finish_top(
    succ: &Vec<Vec<usize>>,
    mark: &mut Vec<u8>,
    next: &Vec<usize>,
    circ: &Vec<bool>,
    stack: &mut Vec<usize>,
    finished: &mut Vec<usize>,
    Ghost(formulas): Ghost<Map<u128, Seq<Dependency>>>,
    Ghost(cells): Ghost<Seq<CellAddr>>,
)
    requires
        dfs_state(formulas, cells, succ_view(succ@), old(mark)@, next@, circ@, old(stack)@, old(finished)@),
        old(stack)@.len() > 0,
        next@[old(stack)@.last() as int] == succ@[old(stack)@.last() as int]@.len(),
    ensures
        dfs_state(formulas, cells, succ_view(succ@), final(mark)@, next@, circ@, final(stack)@, final(finished)@),
        final(stack)@ == old(stack)@.drop_last(),
        final(mark)@ == old(mark)@.update(old(stack)@.last() as int, 2u8),
        final(finished)@ == old(finished)@.push(old(stack)@.last()),
        old(mark)@[old(stack)@.last() as int] == 1,
{
    let ghost sv = succ_view(succ@);
    let ghost old_mark = mark@;
    let ghost old_stack = stack@;
    let ghost old_fin = finished@;
    let n = mark.len();
    let node = stack[stack.len() - 1];
    proof {
        assert(old_stack.contains(node));
        assert(old_mark[node as int] == 1);
    }
    mark.set(node, 2);
    finished.push(node);
    stack.pop();
    proof {
        let top = old_stack.len() - 1;
        let u = node as int;
        // Every reader of the finished cell is finished or circular with it.
        assert forall|v: int| #[trigger] edge(formulas, cells, u, v) implies mark@[v] == 2 || (circ@[u] && circ@[v]) by {
            assert(sv[u].contains(v as usize));
            let k = choose|k: int| 0 <= k < sv[u].len() && sv[u][k] == v as usize;
            assert(old_stack[top] == node);
            assert(0 <= k < next@[old_stack[top] as int]);
            assert(sv[old_stack[top] as int][k] == v as usize);
            if v != u {
                assert(old_mark[v] == 2 || (circ@[u] && circ@[v]));
            } else {
                assert(old_mark[u] == 1);
            }
        }
        assert forall|i: int| 0 <= i < n implies (#[trigger] mark@[i] == 1 <==> stack@.contains(i as usize)) by {
            if i == u {
                if stack@.contains(i as usize) {
                    let w = choose|w: int| 0 <= w < stack@.len() && stack@[w] == i as usize;
                    assert(old_stack[w] == old_stack[top]);
                }
            } else {
                if old_stack.contains(i as usize) {
                    let w = choose|w: int| 0 <= w < old_stack.len() && old_stack[w] == i as usize;
                    assert(w != top);
                    assert(stack@[w] == i as usize);
                }
                if stack@.contains(i as usize) {
                    let w = choose|w: int| 0 <= w < stack@.len() && stack@[w] == i as usize;
                    assert(old_stack[w] == i as usize);
                }
            }
        }
        assert forall|i: int| 0 <= i < n implies (#[trigger] mark@[i] == 2 <==> finished@.contains(i as usize)) by {
            if finished@.contains(i as usize) && i != u {
                let w = choose|w: int| 0 <= w < finished@.len() && finished@[w] == i as usize;
                assert(old_fin[w] == i as usize);
            }
            if old_fin.contains(i as usize) {
                let w = choose|w: int| 0 <= w < old_fin.len() && old_fin[w] == i as usize;
                assert(finished@[w] == i as usize);
            }
            if i == u {
                assert(finished@[old_fin.len() as int] == i as usize);
            }
        }
        assert(!old_fin.contains(node)) by {
            assert(old_mark[u] != 2);
        }
        assert forall|a: int, b: int|
            0 <= a <= b < finished@.len() && #[trigger] edge(formulas, cells, finished@[a] as int, finished@[b] as int)
                implies circ@[finished@[a] as int] && circ@[finished@[b] as int] by {
            if b < old_fin.len() {
                assert(finished@[a] == old_fin[a]);
                assert(finished@[b] == old_fin[b]);
            } else if a == b {
                assert(finished@[a] == node);
                assert(sv[u].contains(node));
                let k = choose|k: int| 0 <= k < sv[u].len() && sv[u][k] == node;
                assert(old_stack[top] == node);
                assert(0 <= k < next@[old_stack[top] as int]);
                assert(sv[old_stack[top] as int][k] == node);
                assert(old_mark[u] != 2);
            } else {
                let w = old_fin[a] as int;
                assert(finished@[a] == old_fin[a]);
                assert(old_fin.contains(old_fin[a]));
                assert(old_mark[w] == 2);
                assert(old_mark[u] != 2);
            }
        }
        assert forall|u2: int, v: int|
            0 <= u2 < n && mark@[u2] == 2 && #[trigger] edge(formulas, cells, u2, v) implies mark@[v] == 2 || (circ@[u2] && circ@[v]) by {
            if u2 != u {
                assert(old_mark[u2] == 2);
            }
        }
        assert forall|t: int, k: int|
            0 <= t < stack@.len() && 0 <= k < next@[stack@[t] as int] implies mark@[#[trigger] sv[stack@[t] as int][k] as int] == 2
                || (circ@[stack@[t] as int] && circ@[sv[stack@[t] as int][k] as int])
                || (t + 1 < stack@.len() && stack@[t + 1] == sv[stack@[t] as int][k] && k == next@[stack@[t] as int] - 1) by {
            assert(stack@[t] == old_stack[t]);
            let v = sv[stack@[t] as int][k] as int;
            if t + 1 < old_stack.len() && old_stack[t + 1] == v as usize && k == next@[old_stack[t] as int] - 1 {
                if t + 1 == top {
                    assert(v == u);
                } else {
                    assert(stack@[t + 1] == old_stack[t + 1]);
                }
            } else {
                if old_mark[v] == 2 {
                }
            }
        }
        assert forall|t: int| 0 <= t < stack@.len() - 1 implies #[trigger] edge(formulas, cells, stack@[t] as int, stack@[t + 1] as int) by {
            assert(stack@[t] == old_stack[t]);
            assert(stack@[t + 1] == old_stack[t + 1]);
            assert(edge(formulas, cells, old_stack[t] as int, old_stack[t + 1] as int));
        }
        assert forall|i: int| 0 <= i < n && #[trigger] mark@[i] == 0 implies next@[i] == 0 by {
            assert(old_mark[i] == 0);
        }
        assert forall|i: int| 0 <= i < n implies #[trigger] mark@[i] <= 2 by {
            if i != u {
                assert(old_mark[i] <= 2);
            }
        }
        assert forall|t: int| 0 <= t < finished@.len() implies #[trigger] finished@[t] < n by {
            if t < old_fin.len() {
                assert(finished@[t] == old_fin[t]);
            }
        }
        assert forall|t: int| 0 <= t < stack@.len() implies #[trigger] stack@[t] < n by {
            assert(stack@[t] == old_stack[t]);
        }
        assert(finished@.no_duplicates()) by {
            assert forall|a: int, b: int| 0 <= a < finished@.len() && 0 <= b < finished@.len() && a != b implies finished@[a] != finished@[b] by {
                if a < old_fin.len() && b < old_fin.len() {
                } else if a < old_fin.len() {
                    assert(old_fin.contains(old_fin[a]));
                } else if b < old_fin.len() {
                    assert(old_fin.contains(old_fin[b]));
                }
            }
        }
        assert(stack@.no_duplicates()) by {
            assert forall|a: int, b: int| 0 <= a < stack@.len() && 0 <= b < stack@.len() && a != b implies stack@[a] != stack@[b] by {
                assert(stack@[a] == old_stack[a]);
                assert(stack@[b] == old_stack[b]);
            }
        }
    }
}

/// What looking at `child`, a reader of the top of the walk, does: a
/// finished cell is left as it is; a cell on the walk closes a cycle, and
/// every cell from it to the top is set apart; a new cell is walked into.
pub open spec fn visited(
    mark: Seq<u8>,
    mark2: Seq<u8>,
    circ: Seq<bool>,
    circ2: Seq<bool>,
    stack: Seq<usize>,
    stack2: Seq<usize>,
    child: int,
) -> bool {
    &&& mark[child] == 2 ==> mark2 == mark && stack2 == stack && circ2 == circ
    &&& mark[child] == 1 ==> mark2 == mark && stack2 == stack && circ2.len() == circ.len() && (forall|i: int|
        0 <= i < circ.len() && circ[i] ==> #[trigger] circ2[i]) && (forall|t0: int, t: int|
        #![trigger stack[t0], circ2[stack[t] as int]]
        0 <= t0 <= t < stack.len() && stack[t0] as int == child ==> circ2[stack[t] as int])
    &&& mark[child] == 0 ==> mark2 == mark.update(child, 1u8) && stack2 == stack.push(child as usize) && circ2
        == circ
}

/// Look at the next reader of the top of the walk: a finished one needs
/// nothing, one already on the walk closes a cycle and everything on the walk
/// from it up is circular, and a new one is walked into.
#[verifier::rlimit(80)]
fn visit_next(
    succ: &Vec<Vec<usize>>,
    mark: &mut Vec<u8>,
    next: &mut Vec<usize>,
    circ: &mut Vec<bool>,
    stack: &mut Vec<usize>,
    finished: &Vec<usize>,
    Ghost(formulas): Ghost<Map<u128, Seq<Dependency>>>,
    Ghost(cells): Ghost<Seq<CellAddr>>,
)
    requires
        dfs_state(formulas, cells, succ_view(succ@), old(mark)@, old(next)@, old(circ)@, old(stack)@, finished@),
        old(stack)@.len() > 0,
        old(next)@[old(stack)@.last() as int] < succ@[old(stack)@.last() as int]@.len(),
    ensures
        dfs_state(formulas, cells, succ_view(succ@), final(mark)@, final(next)@, final(circ)@, final(stack)@, finished@),
        final(stack)@.len() > 0,
        final(stack)@[0] == old(stack)@[0],
        forall|i: int| 0 <= i < old(mark)@.len() && old(mark)@[i] == 2 ==> #[trigger] final(mark)@[i] == 2,
        final(mark)@.len() == old(mark)@.len(),
        // What it did: looked at the next reader of the top cell, and walked
        // into it, set apart the cycle it closes, or left it.
        final(next)@ == old(next)@.update(
            old(stack)@.last() as int,
            (old(next)@[old(stack)@.last() as int] + 1) as usize,
        ),
        visited(
            old(mark)@,
            final(mark)@,
            old(circ)@,
            final(circ)@,
            old(stack)@,
            final(stack)@,
            succ_view(succ@)[old(stack)@.last() as int][old(next)@[old(stack)@.last() as int] as int] as int,
        ),
        // Either a new cell was walked into, or one more reader was looked at.
        (count_upto(final(mark)@, 0, final(mark)@.len() as int) < count_upto(old(mark)@, 0, old(mark)@.len() as int))
            || (count_upto(final(mark)@, 0, final(mark)@.len() as int) == count_upto(old(mark)@, 0, old(mark)@.len() as int)
                && pending_upto(succ_view(succ@), final(next)@, final(next)@.len() as int)
                    < pending_upto(succ_view(succ@), old(next)@, old(next)@.len() as int)),
{
    let ghost sv = succ_view(succ@);
    let ghost old_mark = mark@;
    let ghost old_next = next@;
    let ghost old_circ = circ@;
    let ghost old_stack = stack@;
    let n = mark.len();
    let top = stack.len() - 1;
    let node = stack[top];
    let k0 = next[node];
    let len = succ[node].len();
    let child = succ[node][k0];
    proof {
        assert(succ@[node as int]@ == sv[node as int]);
        assert(k0 < usize::MAX);
        assert(sv[node as int][k0 as int] < n);
        assert(sv[node as int][k0 as int] == child);
    }
    next.set(node, k0 + 1);
    proof {
        lemma_pending_step(sv, old_next, node as int, n as int);
        assert(next@ == old_next.update(node as int, (old_next[node as int] + 1) as usize));
        assert(sv[node as int].contains(child));
        assert(sv[node as int].contains((child as int) as usize));
        assert(edge(formulas, cells, node as int, child as int));
    }
    if mark[child] == 2 {
        proof {
            assert forall|t: int, k: int|
                0 <= t < stack@.len() && 0 <= k < next@[stack@[t] as int] implies mark@[#[trigger] sv[stack@[t] as int][k] as int] == 2
                    || (circ@[stack@[t] as int] && circ@[sv[stack@[t] as int][k] as int])
                    || (t + 1 < stack@.len() && stack@[t + 1] == sv[stack@[t] as int][k] && k == next@[stack@[t] as int] - 1) by {
                if stack@[t] == node {
                    assert(t == top);
                    if k < k0 {
                        assert(k < old_next[stack@[t] as int]);
                    }
                } else {
                    assert(next@[stack@[t] as int] == old_next[stack@[t] as int]);
                }
            }
            assert forall|i: int| 0 <= i < n && #[trigger] mark@[i] == 0 implies next@[i] == 0 by {
                if i == node {
                    assert(old_stack.contains(node));
                }
            }
            assert forall|i: int| 0 <= i < n implies #[trigger] next@[i] <= sv[i].len() by {
                if i != node {
                    assert(next@[i] == old_next[i]);
                }
            }
        }
        return;
    }
    if mark[child] == 1 {
        // The reader is on the walk: from it up to the top is a cycle.
        proof {
            assert(old_stack.contains(child));
        }
        let mut from: usize = 0;
        while from < stack.len() && stack[from] != child
            invariant
                from <= stack@.len(),
                stack@ == old_stack,
                stack@.contains(child),
                forall|m: int| 0 <= m < from ==> stack@[m] != child,
            decreases stack.len() - from,
        {
            from = from + 1;
        }
        proof {
            if from == stack@.len() {
                let w = choose|w: int| 0 <= w < stack@.len() && stack@[w] == child;
                assert(stack@[w] != child);
            }
        }
        let mut t = from;
        while t < stack.len()
            invariant
                from <= t <= stack@.len(),
                from < stack@.len(),
                stack@ == old_stack,
                stack@[from as int] == child,
                circ@.len() == n,
                n == old_circ.len(),
                forall|i: int| 0 <= i < n && old_circ[i] ==> #[trigger] circ@[i],
                forall|m: int| from <= m < t ==> #[trigger] circ@[stack@[m] as int],
                forall|i: int| 0 <= i < n && old_circ[i] ==> #[trigger] on_cycle(formulas, cells, circ@, i),
                forall|i: int|
                    0 <= i < n && #[trigger] circ@[i] ==> old_circ[i] || exists|m: int| from <= m < t && stack@[m] == i,
                forall|m: int| 0 <= m < stack@.len() - 1 ==> #[trigger] edge(formulas, cells, stack@[m] as int, stack@[m + 1] as int),
                forall|m: int| 0 <= m < stack@.len() ==> #[trigger] stack@[m] < n,
                edge(formulas, cells, stack@[stack@.len() - 1] as int, stack@[from as int] as int),
            decreases stack.len() - t,
        {
            let member = stack[t];
            let ghost before = circ@;
            circ.set(member, true);
            proof {
                assert forall|i: int| 0 <= i < n && old_circ[i] implies #[trigger] on_cycle(formulas, cells, circ@, i) by {
                    lemma_marked_cycle_grows(formulas, cells, before, circ@, i);
                }
                assert forall|i: int|
                    0 <= i < n && #[trigger] circ@[i] implies old_circ[i] || exists|m: int| from <= m < t + 1 && stack@[m] == i by {
                    if i == member {
                        assert(stack@[t as int] == i);
                    } else {
                        assert(before[i]);
                    }
                }
                assert forall|m: int| from <= m < t + 1 implies #[trigger] circ@[stack@[m] as int] by {
                    if m < t {
                        assert(before[stack@[m] as int]);
                    }
                }
            }
            t = t + 1;
        }
        proof {
            assert forall|i: int| 0 <= i < n && #[trigger] circ@[i] implies on_cycle(formulas, cells, circ@, i) by {
                if !old_circ[i] {
                    let m = choose|m: int| from <= m < stack@.len() && stack@[m] == i;
                    lemma_cycle_on_walk(formulas, cells, stack@, circ@, from as int, m);
                }
            }
            assert(circ@[node as int]) by {
                assert(stack@[top as int] == node);
            }
            assert(circ@[child as int]) by {
                assert(stack@[from as int] == child);
            }
            assert forall|t2: int, k: int|
                0 <= t2 < stack@.len() && 0 <= k < next@[stack@[t2] as int] implies mark@[#[trigger] sv[stack@[t2] as int][k] as int] == 2
                    || (circ@[stack@[t2] as int] && circ@[sv[stack@[t2] as int][k] as int])
                    || (t2 + 1 < stack@.len() && stack@[t2 + 1] == sv[stack@[t2] as int][k] && k == next@[stack@[t2] as int] - 1) by {
                let v = sv[stack@[t2] as int][k] as int;
                if stack@[t2] == node {
                    assert(t2 == top);
                    if k < k0 {
                        assert(k < old_next[stack@[t2] as int]);
                        assert(old_mark[v] == 2 || (old_circ[stack@[t2] as int] && old_circ[v]));
                    }
                } else {
                    assert(next@[stack@[t2] as int] == old_next[stack@[t2] as int]);
                    if old_circ[stack@[t2] as int] && old_circ[v] {
                    }
                }
            }
            assert forall|u: int, v: int|
                0 <= u < n && mark@[u] == 2 && #[trigger] edge(formulas, cells, u, v) implies mark@[v] == 2 || (circ@[u] && circ@[v]) by {
                if old_circ[u] && old_circ[v] {
                }
            }
            assert forall|a: int, b: int|
                0 <= a <= b < finished@.len() && #[trigger] edge(formulas, cells, finished@[a] as int, finished@[b] as int)
                    implies circ@[finished@[a] as int] && circ@[finished@[b] as int] by {
                assert(old_circ[finished@[a] as int] && old_circ[finished@[b] as int]);
            }
            assert forall|i: int| 0 <= i < n && #[trigger] mark@[i] == 0 implies next@[i] == 0 by {
                if i == node {
                    assert(old_stack.contains(node));
                }
            }
            assert forall|i: int| 0 <= i < n implies #[trigger] next@[i] <= sv[i].len() by {
                if i != node {
                    assert(next@[i] == old_next[i]);
                }
            }
        }
        return;
    }
    // A reader not yet reached: walk into it.
    proof {
        assert(old_mark[child as int] == 0);
        assert(!old_stack.contains(child));
        lemma_count_update(old_mark, child as int, 1u8, 0u8, n as int);
    }
    mark.set(child, 1);
    stack.push(child);
    proof {
        assert forall|i: int| 0 <= i < n implies (#[trigger] mark@[i] == 1 <==> stack@.contains(i as usize)) by {
            if i == child {
                assert(stack@[stack@.len() - 1] == child);
            } else {
                if old_stack.contains(i as usize) {
                    let w = choose|w: int| 0 <= w < old_stack.len() && old_stack[w] == i as usize;
                    assert(stack@[w] == i as usize);
                }
                if stack@.contains(i as usize) {
                    let w = choose|w: int| 0 <= w < stack@.len() && stack@[w] == i as usize;
                    assert(w < old_stack.len());
                    assert(old_stack[w] == i as usize);
                }
            }
        }
        assert forall|i: int| 0 <= i < n implies (#[trigger] mark@[i] == 2 <==> finished@.contains(i as usize)) by {
            if i != child {
                assert(mark@[i] == old_mark[i]);
            }
        }
        assert(stack@.no_duplicates()) by {
            assert forall|a: int, b: int| 0 <= a < stack@.len() && 0 <= b < stack@.len() && a != b implies stack@[a] != stack@[b] by {
                if a < old_stack.len() && b < old_stack.len() {
                    assert(stack@[a] == old_stack[a]);
                    assert(stack@[b] == old_stack[b]);
                } else if a < old_stack.len() {
                    assert(old_stack.contains(old_stack[a]));
                } else if b < old_stack.len() {
                    assert(old_stack.contains(old_stack[b]));
                }
            }
        }
        assert forall|t: int| 0 <= t < stack@.len() - 1 implies #[trigger] edge(formulas, cells, stack@[t] as int, stack@[t + 1] as int) by {
            if t < top {
                assert(stack@[t] == old_stack[t]);
                assert(stack@[t + 1] == old_stack[t + 1]);
                assert(edge(formulas, cells, old_stack[t] as int, old_stack[t + 1] as int));
            } else {
                assert(stack@[t] == node);
                assert(stack@[t + 1] == child);
            }
        }
        assert forall|t: int| 0 <= t < stack@.len() implies #[trigger] stack@[t] < n by {
            if t < old_stack.len() {
                assert(stack@[t] == old_stack[t]);
            }
        }
        assert forall|t2: int, k: int|
            0 <= t2 < stack@.len() && 0 <= k < next@[stack@[t2] as int] implies mark@[#[trigger] sv[stack@[t2] as int][k] as int] == 2
                || (circ@[stack@[t2] as int] && circ@[sv[stack@[t2] as int][k] as int])
                || (t2 + 1 < stack@.len() && stack@[t2 + 1] == sv[stack@[t2] as int][k] && k == next@[stack@[t2] as int] - 1) by {
            let v = sv[stack@[t2] as int][k] as int;
            if t2 == stack@.len() - 1 {
                assert(stack@[t2] == child);
                assert(old_mark[child as int] == 0);
                assert(next@[child as int] == 0);
            } else {
                assert(stack@[t2] == old_stack[t2]);
                if stack@[t2] == node {
                    assert(t2 == top);
                    if k < k0 {
                        assert(k < old_next[stack@[t2] as int]);
                        assert(old_mark[v] == 2 || (old_circ[stack@[t2] as int] && old_circ[v]));
                        if old_mark[v] == 2 {
                            assert(v != child);
                        }
                    } else {
                        assert(stack@[t2 + 1] == child);
                    }
                } else {
                    assert(next@[stack@[t2] as int] == old_next[stack@[t2] as int]);
                    if old_mark[v] == 2 {
                        assert(v != child);
                    }
                    if t2 + 1 < old_stack.len() && old_stack[t2 + 1] == v as usize {
                        assert(stack@[t2 + 1] == old_stack[t2 + 1]);
                    }
                }
            }
        }
        assert forall|u: int, v: int|
            0 <= u < n && mark@[u] == 2 && #[trigger] edge(formulas, cells, u, v) implies mark@[v] == 2 || (circ@[u] && circ@[v]) by {
            assert(u != child);
            assert(old_mark[u] == 2);
            if old_mark[v] == 2 {
                assert(v != child);
            }
        }
        assert forall|i: int| 0 <= i < n && #[trigger] mark@[i] == 0 implies next@[i] == 0 by {
            if i == node {
                assert(old_stack.contains(node));
            }
            assert(i != child);
        }
        assert forall|i: int| 0 <= i < n implies #[trigger] next@[i] <= sv[i].len() by {
            if i != node {
                assert(next@[i] == old_next[i]);
            }
        }
        assert forall|i: int| 0 <= i < n implies #[trigger] mark@[i] <= 2 by {
            if i != child {
                assert(old_mark[i] <= 2);
            }
        }
        assert(stack@[0] == old_stack[0]);
    }
}

// ---------------------------------------------------------------------------
// Cycles the walk sets apart whole.

/// Positions among the affected cells that form a cycle in which each cell
/// reads the one before it and no other affected cell: `c[1]` reads `c[0]`,
/// and so on round to `c[0]`, which reads the last.
pub open spec fn lone_cycle(formulas: Map<u128, Seq<Dependency>>, cells: Seq<CellAddr>, c: Seq<int>) -> bool {
    let k = c.len() as int;
    &&& k >= 1
    &&& forall|m: int| 0 <= m < k ==> 0 <= #[trigger] c[m] < cells.len()
    &&& forall|a: int, b: int| 0 <= a < k && 0 <= b < k && #[trigger] c[a] == #[trigger] c[b] ==> a == b
    &&& forall|m: int| 0 <= m < k - 1 ==> edge(formulas, cells, #[trigger] c[m], c[m + 1])
    &&& edge(formulas, cells, c[k - 1], c[0])
    &&& forall|m: int, j: int| 1 <= m < k && #[trigger] edge(formulas, cells, j, c[m]) ==> j == c[m - 1]
    &&& forall|j: int| #[trigger] edge(formulas, cells, j, c[0]) ==> j == c[k - 1]
}

/// The `q`-th cell of the cycle counting from `c[s]`, round the end.
pub open spec fn walked(c: Seq<int>, s: int, q: int) -> int {
    if s + q < c.len() {
        c[s + q]
    } else {
        c[s + q - c.len()]
    }
}

proof fn lemma_walked_edge(f: Map<u128, Seq<Dependency>>, cells: Seq<CellAddr>, c: Seq<int>, s: int, q: int)
    requires
        lone_cycle(f, cells, c),
        0 <= s < c.len(),
        0 <= q < c.len(),
    ensures
        edge(f, cells, walked(c, s, q), walked(c, s, q + 1)),
{
    let k = c.len() as int;
    let a = if s + q < k { s + q } else { s + q - k };
    if a < k - 1 {
        assert(edge(f, cells, c[a], c[a + 1]));
    }
}

proof fn lemma_walked_reader(f: Map<u128, Seq<Dependency>>, cells: Seq<CellAddr>, c: Seq<int>, s: int, q: int, j: int)
    requires
        lone_cycle(f, cells, c),
        0 <= s < c.len(),
        0 <= q < c.len(),
        edge(f, cells, j, walked(c, s, q + 1)),
    ensures
        j == walked(c, s, q),
{
    let k = c.len() as int;
    let b = if s + q + 1 < k { s + q + 1 } else { s + q + 1 - k };
    assert(walked(c, s, q + 1) == c[b]);
    if b >= 1 {
        assert(edge(f, cells, j, c[b]));
    } else {
        assert(edge(f, cells, j, c[0]));
    }
}

proof fn lemma_walked_distinct(f: Map<u128, Seq<Dependency>>, cells: Seq<CellAddr>, c: Seq<int>, s: int, q: int, p: int)
    requires
        lone_cycle(f, cells, c),
        0 <= s < c.len(),
        0 <= q < c.len(),
        0 <= p < c.len(),
        walked(c, s, q) == walked(c, s, p),
    ensures
        q == p,
{
    let k = c.len() as int;
    let a = if s + q < k { s + q } else { s + q - k };
    let b = if s + p < k { s + p } else { s + p - k };
    assert(c[a] == c[b]);
}

/// Where in the cycle, counting from `c[s]`, the cell `c[m]` stands.
proof fn lemma_walked_index(c: Seq<int>, s: int, m: int) -> (q: int)
    requires
        0 <= s < c.len(),
        0 <= m < c.len(),
    ensures
        0 <= q < c.len(),
        walked(c, s, q) == c[m],
{
    if m >= s {
        m - s
    } else {
        m - s + c.len()
    }
}

/// No cell of the cycle has been reached.
pub open spec fn cycle_unmarked(mark: Seq<u8>, c: Seq<int>) -> bool {
    forall|m: int| 0 <= m < c.len() ==> mark[#[trigger] c[m]] == 0
}

/// Every cell of the cycle is set apart.
pub open spec fn cycle_set_apart(circ: Seq<bool>, c: Seq<int>) -> bool {
    forall|m: int| 0 <= m < c.len() ==> circ[#[trigger] c[m]]
}

/// The walk is in the cycle: from `c[s]` on, `r` of its cells lie one above
/// the other on the walk from position `t0`, the rest are not reached, and
/// the top one has not yet looked at the next.
pub open spec fn cycle_walking(
    sv: Seq<Seq<usize>>,
    mark: Seq<u8>,
    next: Seq<usize>,
    stack: Seq<usize>,
    c: Seq<int>,
    s: int,
    t0: int,
    r: int,
) -> bool {
    let k = c.len() as int;
    let top = walked(c, s, r - 1);
    &&& 0 <= s < k
    &&& 1 <= r <= k
    &&& 0 <= t0
    &&& t0 + r <= stack.len()
    &&& forall|q: int| 0 <= q < r ==> stack[t0 + q] as int == #[trigger] walked(c, s, q)
    &&& forall|q: int| r <= q < k ==> mark[#[trigger] walked(c, s, q)] == 0
    &&& forall|x: int| 0 <= x < next[top] ==> sv[top][x] as int != walked(c, s, r)
}

/// What the walk keeps true of a cycle: not reached, set apart whole, or
/// being walked.
pub open spec fn cycle_kept(
    sv: Seq<Seq<usize>>,
    mark: Seq<u8>,
    next: Seq<usize>,
    circ: Seq<bool>,
    stack: Seq<usize>,
    c: Seq<int>,
) -> bool {
    ||| cycle_unmarked(mark, c)
    ||| cycle_set_apart(circ, c)
    ||| exists|s: int, t0: int, r: int| #[trigger] cycle_walking(sv, mark, next, stack, c, s, t0, r)
}

/// Starting the walk at a new root keeps each cycle.
proof fn lemma_cycle_root(
    f: Map<u128, Seq<Dependency>>,
    cells: Seq<CellAddr>,
    sv: Seq<Seq<usize>>,
    mark: Seq<u8>,
    next: Seq<usize>,
    circ: Seq<bool>,
    c: Seq<int>,
    root: usize,
)
    requires
        lone_cycle(f, cells, c),
        mark.len() == cells.len(),
        next.len() == cells.len(),
        circ.len() == cells.len(),
        0 <= root < cells.len(),
        mark[root as int] == 0,
        next[root as int] == 0,
        cycle_unmarked(mark, c) || cycle_set_apart(circ, c),
    ensures
        cycle_kept(sv, mark.update(root as int, 1u8), next, circ, seq![root], c),
{
    let mark2 = mark.update(root as int, 1u8);
    let stack2 = seq![root];
    if cycle_set_apart(circ, c) {
    } else if exists|m: int| 0 <= m < c.len() && c[m] == root as int {
        let m = choose|m: int| 0 <= m < c.len() && c[m] == root as int;
        assert forall|q: int| 1 <= q < c.len() implies mark2[#[trigger] walked(c, m, q)] == 0 by {
            let a = if m + q < c.len() { m + q } else { m + q - c.len() };
            assert(c[a] != c[m]);
            assert(mark[c[a]] == 0);
        }
        assert(walked(c, m, 0) == root as int);
        assert(stack2[0] as int == root as int);
        assert forall|q: int| 0 <= q < 1 implies stack2[0 + q] as int == #[trigger] walked(c, m, q) by {
            assert(q == 0);
        }
        assert forall|x: int| 0 <= x < next[walked(c, m, 0)] implies sv[walked(c, m, 0)][x] as int != walked(c, m, 1) by {
            assert(next[root as int] == 0);
        }
        assert(cycle_walking(sv, mark2, next, stack2, c, m, 0, 1));
    } else {
        assert forall|m: int| 0 <= m < c.len() implies mark2[#[trigger] c[m]] == 0 by {
            assert(c[m] != root as int);
        }
    }
}

/// What the cycle lemmas need of the walk's state.
pub open spec fn walk_facts(
    formulas: Map<u128, Seq<Dependency>>,
    cells: Seq<CellAddr>,
    sv: Seq<Seq<usize>>,
    mark: Seq<u8>,
    next: Seq<usize>,
    circ: Seq<bool>,
    stack: Seq<usize>,
) -> bool {
    let n = cells.len();
    &&& n <= usize::MAX
    &&& sv.len() == n && mark.len() == n && next.len() == n && circ.len() == n
    &&& forall|i: int, j: int| 0 <= i < n && 0 <= j < n ==> (#[trigger] sv[i].contains(j as usize) <==> edge(formulas, cells, i, j))
    &&& forall|i: int, k: int| 0 <= i < n && 0 <= k < sv[i].len() ==> #[trigger] sv[i][k] < n
    &&& forall|i: int| 0 <= i < n ==> #[trigger] mark[i] <= 2
    &&& forall|i: int| 0 <= i < n ==> (#[trigger] mark[i] == 1 <==> stack.contains(i as usize))
    &&& forall|i: int| 0 <= i < n && #[trigger] mark[i] == 0 ==> next[i] == 0
    &&& stack.no_duplicates()
    &&& forall|t: int| 0 <= t < stack.len() ==> #[trigger] stack[t] < n
}

proof fn lemma_walk_facts(
    formulas: Map<u128, Seq<Dependency>>,
    cells: Seq<CellAddr>,
    sv: Seq<Seq<usize>>,
    mark: Seq<u8>,
    next: Seq<usize>,
    circ: Seq<bool>,
    stack: Seq<usize>,
    finished: Seq<usize>,
)
    requires
        dfs_state(formulas, cells, sv, mark, next, circ, stack, finished),
        cells.len() <= usize::MAX,
    ensures
        walk_facts(formulas, cells, sv, mark, next, circ, stack),
{
}

/// A cell on the walk is reached.
proof fn lemma_on_stack_marked(
    f: Map<u128, Seq<Dependency>>,
    cells: Seq<CellAddr>,
    sv: Seq<Seq<usize>>,
    mark: Seq<u8>,
    next: Seq<usize>,
    circ: Seq<bool>,
    stack: Seq<usize>,
    t: int,
)
    requires
        walk_facts(f, cells, sv, mark, next, circ, stack),
        0 <= t < stack.len(),
    ensures
        mark[stack[t] as int] == 1,
{
    assert(stack.contains(stack[t]));
    assert(stack[t] as int as usize == stack[t]);
}

/// A cell whose readers have all been looked at is not a cell of a cycle
/// being walked: the top one of those has yet to look at the next.
#[verifier::rlimit(30)]
proof fn lemma_finished_top_not_walked(
    f: Map<u128, Seq<Dependency>>,
    cells: Seq<CellAddr>,
    sv: Seq<Seq<usize>>,
    mark: Seq<u8>,
    next: Seq<usize>,
    circ: Seq<bool>,
    stack: Seq<usize>,
    c: Seq<int>,
    s: int,
    t0: int,
    r: int,
)
    requires
        lone_cycle(f, cells, c),
        walk_facts(f, cells, sv, mark, next, circ, stack),
        stack.len() > 0,
        next[stack.last() as int] == sv[stack.last() as int].len(),
        cycle_walking(sv, mark, next, stack, c, s, t0, r),
    ensures
        forall|q: int| 0 <= q < c.len() ==> #[trigger] walked(c, s, q) != stack.last() as int,
{
    let node = stack.last() as int;
    let top_t = stack.len() - 1;
    let k = c.len() as int;
    lemma_on_stack_marked(f, cells, sv, mark, next, circ, stack, top_t);
    assert forall|q: int| 0 <= q < k implies #[trigger] walked(c, s, q) != node by {
        if q < r {
            if walked(c, s, q) == node {
                assert(stack[t0 + q] as int == walked(c, s, q));
                assert(stack[t0 + q] == stack[top_t]);
                assert(t0 + q == top_t);
                assert(q == r - 1);
                lemma_walked_edge(f, cells, c, s, r - 1);
                let w = walked(c, s, r);
                assert(0 <= w < cells.len()) by {
                    let a = if s + r < k { s + r } else { s + r - k };
                    assert(0 <= c[a] < cells.len());
                }
                assert(sv[node].contains(w as usize));
                let x = choose|x: int| 0 <= x < sv[node].len() && sv[node][x] == w as usize;
                assert(sv[node][x] as int == w);
            }
        } else {
            assert(mark[walked(c, s, q)] == 0);
        }
    }
}

/// Finishing the top of the walk keeps each cycle.
proof fn lemma_cycle_finish(
    f: Map<u128, Seq<Dependency>>,
    cells: Seq<CellAddr>,
    sv: Seq<Seq<usize>>,
    mark: Seq<u8>,
    next: Seq<usize>,
    circ: Seq<bool>,
    stack: Seq<usize>,
    c: Seq<int>,
)
    requires
        lone_cycle(f, cells, c),
        walk_facts(f, cells, sv, mark, next, circ, stack),
        stack.len() > 0,
        next[stack.last() as int] == sv[stack.last() as int].len(),
        cycle_kept(sv, mark, next, circ, stack, c),
    ensures
        cycle_kept(sv, mark.update(stack.last() as int, 2u8), next, circ, stack.drop_last(), c),
{
    let node = stack.last() as int;
    let top_t = stack.len() - 1;
    let mark2 = mark.update(node, 2u8);
    let stack2 = stack.drop_last();
    lemma_on_stack_marked(f, cells, sv, mark, next, circ, stack, top_t);
    if cycle_set_apart(circ, c) {
    } else if cycle_unmarked(mark, c) {
        assert forall|m: int| 0 <= m < c.len() implies mark2[#[trigger] c[m]] == 0 by {
            assert(mark[c[m]] == 0);
        }
    } else {
        let (s, t0, r) = choose|s: int, t0: int, r: int| #[trigger] cycle_walking(sv, mark, next, stack, c, s, t0, r);
        let k = c.len() as int;
        lemma_finished_top_not_walked(f, cells, sv, mark, next, circ, stack, c, s, t0, r);
        assert(t0 + r <= stack2.len()) by {
            if t0 + r - 1 == top_t {
                assert(stack[t0 + r - 1] as int == walked(c, s, r - 1));
            }
        }
        assert forall|q: int| 0 <= q < r implies stack2[t0 + q] as int == #[trigger] walked(c, s, q) by {
            assert(stack[t0 + q] as int == walked(c, s, q));
        }
        assert forall|q: int| r <= q < k implies mark2[#[trigger] walked(c, s, q)] == 0 by {
            assert(mark[walked(c, s, q)] == 0);
        }
        assert(cycle_walking(sv, mark2, next, stack2, c, s, t0, r));
    }
}

/// Looking at a finished reader keeps each cycle.
#[verifier::rlimit(30)]
proof fn lemma_cycle_visit_done(
    f: Map<u128, Seq<Dependency>>,
    cells: Seq<CellAddr>,
    sv: Seq<Seq<usize>>,
    mark: Seq<u8>,
    next: Seq<usize>,
    circ: Seq<bool>,
    stack: Seq<usize>,
    mark2: Seq<u8>,
    next2: Seq<usize>,
    circ2: Seq<bool>,
    stack2: Seq<usize>,
    c: Seq<int>,
)
    requires
        lone_cycle(f, cells, c),
        walk_facts(f, cells, sv, mark, next, circ, stack),
        stack.len() > 0,
        next[stack.last() as int] < sv[stack.last() as int].len(),
        next2 == next.update(stack.last() as int, (next[stack.last() as int] + 1) as usize),
        visited(mark, mark2, circ, circ2, stack, stack2, sv[stack.last() as int][next[stack.last() as int] as int] as int),
        cycle_kept(sv, mark, next, circ, stack, c),
        mark[sv[stack.last() as int][next[stack.last() as int] as int] as int] == 2,
    ensures
        cycle_kept(sv, mark2, next2, circ2, stack2, c),
{
    let node = stack.last() as int;
    let k0 = next[node] as int;
    let child = sv[node][k0] as int;
    if cycle_set_apart(circ, c) || cycle_unmarked(mark, c) {
    } else {
        let (s, t0, r) = choose|s: int, t0: int, r: int| #[trigger] cycle_walking(sv, mark, next, stack, c, s, t0, r);
        let k = c.len() as int;
        let top = walked(c, s, r - 1);
        assert forall|x: int| 0 <= x < next2[top] implies sv[top][x] as int != walked(c, s, r) by {
            if top == node && x == k0 {
                if r < k {
                    assert(mark[walked(c, s, r)] == 0);
                } else {
                    assert(walked(c, s, r) == walked(c, s, 0));
                    assert(stack[t0 + 0] as int == walked(c, s, 0));
                    lemma_on_stack_marked(f, cells, sv, mark, next, circ, stack, t0);
                }
            }
        }
        assert(cycle_walking(sv, mark2, next2, stack2, c, s, t0, r));
    }
}

/// Looking at a reader already on the walk keeps each cycle: when it is the
/// cycle's first cell and the top cell of the cycle looked, the whole cycle
/// is set apart.
#[verifier::rlimit(40)]
proof fn lemma_cycle_visit_open(
    f: Map<u128, Seq<Dependency>>,
    cells: Seq<CellAddr>,
    sv: Seq<Seq<usize>>,
    mark: Seq<u8>,
    next: Seq<usize>,
    circ: Seq<bool>,
    stack: Seq<usize>,
    mark2: Seq<u8>,
    next2: Seq<usize>,
    circ2: Seq<bool>,
    stack2: Seq<usize>,
    c: Seq<int>,
)
    requires
        lone_cycle(f, cells, c),
        walk_facts(f, cells, sv, mark, next, circ, stack),
        stack.len() > 0,
        next[stack.last() as int] < sv[stack.last() as int].len(),
        next2 == next.update(stack.last() as int, (next[stack.last() as int] + 1) as usize),
        visited(mark, mark2, circ, circ2, stack, stack2, sv[stack.last() as int][next[stack.last() as int] as int] as int),
        cycle_kept(sv, mark, next, circ, stack, c),
        mark[sv[stack.last() as int][next[stack.last() as int] as int] as int] == 1,
    ensures
        cycle_kept(sv, mark2, next2, circ2, stack2, c),
{
    let node = stack.last() as int;
    let k0 = next[node] as int;
    let child = sv[node][k0] as int;
    if cycle_set_apart(circ, c) {
        assert forall|m: int| 0 <= m < c.len() implies circ2[#[trigger] c[m]] by {
            assert(circ[c[m]]);
            assert(0 <= c[m] < cells.len());
        }
    } else if cycle_unmarked(mark, c) {
    } else {
        let (s, t0, r) = choose|s: int, t0: int, r: int| #[trigger] cycle_walking(sv, mark, next, stack, c, s, t0, r);
        let k = c.len() as int;
        let top = walked(c, s, r - 1);
        if top == node && child == walked(c, s, r) {
            // The cycle closes: its first cell is met again on the walk.
            if r < k {
                assert(mark[walked(c, s, r)] == 0);
            }
            assert(r == k);
            assert(walked(c, s, r) == walked(c, s, 0));
            assert(stack[t0 + 0] as int == walked(c, s, 0));
            assert forall|m: int| 0 <= m < k implies circ2[#[trigger] c[m]] by {
                let q = lemma_walked_index(c, s, m);
                assert(stack[t0 + q] as int == walked(c, s, q));
                assert(circ2[stack[t0 + q] as int]);
            }
        } else {
            assert forall|x: int| 0 <= x < next2[top] implies sv[top][x] as int != walked(c, s, r) by {
            }
            assert(cycle_walking(sv, mark2, next2, stack2, c, s, t0, r));
        }
    }
}

/// Walking into a new reader keeps each cycle: if it is the next cell of a
/// cycle being walked, the walk goes one further round it.
#[verifier::rlimit(40)]
proof fn lemma_cycle_visit_new(
    f: Map<u128, Seq<Dependency>>,
    cells: Seq<CellAddr>,
    sv: Seq<Seq<usize>>,
    mark: Seq<u8>,
    next: Seq<usize>,
    circ: Seq<bool>,
    stack: Seq<usize>,
    mark2: Seq<u8>,
    next2: Seq<usize>,
    circ2: Seq<bool>,
    stack2: Seq<usize>,
    c: Seq<int>,
)
    requires
        lone_cycle(f, cells, c),
        walk_facts(f, cells, sv, mark, next, circ, stack),
        stack.len() > 0,
        next[stack.last() as int] < sv[stack.last() as int].len(),
        next2 == next.update(stack.last() as int, (next[stack.last() as int] + 1) as usize),
        visited(mark, mark2, circ, circ2, stack, stack2, sv[stack.last() as int][next[stack.last() as int] as int] as int),
        cycle_kept(sv, mark, next, circ, stack, c),
        mark[sv[stack.last() as int][next[stack.last() as int] as int] as int] == 0,
    ensures
        cycle_kept(sv, mark2, next2, circ2, stack2, c),
{
    let node = stack.last() as int;
    let top_t = stack.len() - 1;
    let k0 = next[node] as int;
    let child = sv[node][k0] as int;
    let n = cells.len();
    let k = c.len() as int;
    lemma_on_stack_marked(f, cells, sv, mark, next, circ, stack, top_t);
    assert(0 <= child < n);
    assert(sv[node].contains(child as usize));
    assert(edge(f, cells, node, child));
    if cycle_set_apart(circ, c) {
    } else if cycle_unmarked(mark, c) {
        assert forall|m: int| 0 <= m < k implies mark2[#[trigger] c[m]] == 0 by {
            if c[m] == child {
                if m >= 1 {
                    assert(edge(f, cells, node, c[m]));
                    assert(node == c[m - 1]);
                    assert(mark[c[m - 1]] == 0);
                } else {
                    assert(edge(f, cells, node, c[0]));
                    assert(node == c[k - 1]);
                    assert(mark[c[k - 1]] == 0);
                }
            }
            assert(mark[c[m]] == 0);
        }
    } else {
        let (s, t0, r) = choose|s: int, t0: int, r: int| #[trigger] cycle_walking(sv, mark, next, stack, c, s, t0, r);
        let top = walked(c, s, r - 1);
        if exists|m: int| 0 <= m < k && c[m] == child {
            let m = choose|m: int| 0 <= m < k && c[m] == child;
            let qq = lemma_walked_index(c, s, m);
            if qq < r {
                assert(stack[t0 + qq] as int == walked(c, s, qq));
                lemma_on_stack_marked(f, cells, sv, mark, next, circ, stack, t0 + qq);
            }
            assert(qq >= r);
            lemma_walked_reader(f, cells, c, s, qq - 1, node);
            assert(node == walked(c, s, qq - 1));
            if qq - 1 >= r {
                assert(mark[walked(c, s, qq - 1)] == 0);
            }
            assert(qq == r);
            assert(stack[t0 + r - 1] as int == top);
            assert(stack[t0 + r - 1] == stack[top_t]);
            assert(t0 + r - 1 == top_t);
            assert forall|q: int| 0 <= q < r + 1 implies stack2[t0 + q] as int == #[trigger] walked(c, s, q) by {
                if q < r {
                    assert(stack[t0 + q] as int == walked(c, s, q));
                } else {
                    assert(stack2[t0 + r] == child as usize);
                }
            }
            assert forall|q: int| r + 1 <= q < k implies mark2[#[trigger] walked(c, s, q)] == 0 by {
                if walked(c, s, q) == child {
                    lemma_walked_distinct(f, cells, c, s, q, r);
                }
                assert(mark[walked(c, s, q)] == 0);
            }
            assert(child != node);
            assert(next2[child] == next[child]);
            assert(next[child] == 0);
            assert(walked(c, s, r + 1 - 1) == child);
            assert(cycle_walking(sv, mark2, next2, stack2, c, s, t0, r + 1));
        } else {
            assert forall|q: int| 0 <= q < r implies stack2[t0 + q] as int == #[trigger] walked(c, s, q) by {
                assert(stack[t0 + q] as int == walked(c, s, q));
            }
            assert forall|q: int| r <= q < k implies mark2[#[trigger] walked(c, s, q)] == 0 by {
                let a = if s + q < k { s + q } else { s + q - k };
                assert(walked(c, s, q) == c[a]);
                assert(mark[walked(c, s, q)] == 0);
            }
            assert forall|x: int| 0 <= x < next2[top] implies sv[top][x] as int != walked(c, s, r) by {
                if top == node && x == k0 {
                    let a = if s + r < k { s + r } else { s + r - k };
                    assert(walked(c, s, r) == c[a]);
                }
            }
            assert(cycle_walking(sv, mark2, next2, stack2, c, s, t0, r));
        }
    }
}

/// Every cycle of affected cells, each reading the one before it and no
/// other affected cell, is set apart whole.
pub open spec fn sets_apart_lone_cycles(
    formulas: Map<u128, Seq<Dependency>>,
    cells: Seq<CellAddr>,
    circular: Seq<CellAddr>,
) -> bool {
    forall|c: Seq<int>|
        #[trigger] lone_cycle(formulas, cells, c) ==> forall|m: int| 0 <= m < c.len() ==> circular.contains(#[trigger] cells[c[m]])
}

/// Order the affected cells so that everything is evaluated after what it
/// reads, and set apart the cells that cannot be ordered because they form a
/// cycle: they are left showing zero, and the caller is told which they were.
///
/// The cells are walked depth first, roots in order of sheet, row and
/// column and readers in the same order, so the result is the same run to
/// run; the evaluation order is the order the walk finished them in,
/// reversed. A cell is set apart when the walk meets it again while it is
/// still being walked, together with everything walked since.
pub fn evaluation_order(graph: &DependencyGraph, cells: &Vec<CellAddr>) -> (r: (Vec<CellAddr>, Vec<CellAddr>))
    requires
        graph.well_formed(),
        ascending(cells@),
    ensures
        schedules(graph.formulas(), cells@, r.0@, r.1@),
        sets_apart_lone_cycles(graph.formulas(), cells@, r.1@),
{
    let ghost f = graph.formulas();
    let n = cells.len();
    let succ = successors(graph, cells);
    let ghost sv = succ_view(succ@);
    proof {
        assert forall|i: int, j: int| 0 <= i < n && 0 <= j < n implies (#[trigger] sv[i].contains(j as usize) <==> edge(f, cells@, i, j)) by {
            assert(sv[i] == succ@[i]@);
        }
        assert forall|i: int, k: int| 0 <= i < n && 0 <= k < sv[i].len() implies #[trigger] sv[i][k] < n by {
            assert(sv[i] == succ@[i]@);
        }
    }
    let mut mark: Vec<u8> = Vec::new();
    let mut next: Vec<usize> = Vec::new();
    let mut circ: Vec<bool> = Vec::new();
    let mut k: usize = 0;
    while k < n
        invariant
            k <= n,
            mark@.len() == k && next@.len() == k && circ@.len() == k,
            forall|i: int| 0 <= i < k ==> #[trigger] mark@[i] == 0,
            forall|i: int| 0 <= i < k ==> #[trigger] next@[i] == 0,
            forall|i: int| 0 <= i < k ==> !#[trigger] circ@[i],
        decreases n - k,
    {
        mark.push(0);
        next.push(0);
        circ.push(false);
        k = k + 1;
    }
    let mut finished: Vec<usize> = Vec::new();
    let ghost empty: Seq<usize> = Seq::empty();
    proof {
        assert forall|i: int| 0 <= i < n implies (#[trigger] mark@[i] == 1 <==> empty.contains(i as usize)) by {
            assert(mark@[i] == 0);
        }
        assert forall|i: int| 0 <= i < n implies (#[trigger] mark@[i] == 2 <==> finished@.contains(i as usize)) by {
            assert(mark@[i] == 0);
        }
        assert forall|i: int| 0 <= i < n implies #[trigger] next@[i] <= sv[i].len() by {
            assert(next@[i] == 0);
        }
        assert forall|u: int, v: int| 0 <= u < n && mark@[u] == 2 && #[trigger] edge(f, cells@, u, v) implies mark@[v] == 2 || (circ@[u] && circ@[v]) by {
            assert(mark@[u] == 0);
        }
        assert forall|i: int| 0 <= i < n && #[trigger] circ@[i] implies on_cycle(f, cells@, circ@, i) by {
            assert(!circ@[i]);
        }
    }
    assert(dfs_state(f, cells@, sv, mark@, next@, circ@, empty, finished@));
    let mut root: usize = 0;
    while root < n
        invariant
            root <= n == cells@.len(),
            f == graph.formulas(),
            sv == succ_view(succ@),
            dfs_state(f, cells@, sv, mark@, next@, circ@, empty, finished@),
            forall|i: int| 0 <= i < root ==> #[trigger] mark@[i] == 2,
            empty == Seq::<usize>::empty(),
            forall|c: Seq<int>| #[trigger] lone_cycle(f, cells@, c) ==> cycle_unmarked(mark@, c) || cycle_set_apart(circ@, c),
        decreases n - root,
    {
        if mark[root] == 0 {
            proof {
                lemma_count_update(mark@, root as int, 1u8, 0u8, n as int);
                assert(next@[root as int] == 0);
                assert forall|c: Seq<int>| #[trigger] lone_cycle(f, cells@, c) implies cycle_kept(
                    sv,
                    mark@.update(root as int, 1u8),
                    next@,
                    circ@,
                    seq![root],
                    c,
                ) by {
                    lemma_cycle_root(f, cells@, sv, mark@, next@, circ@, c, root);
                }
            }
            mark.set(root, 1);
            let mut stack: Vec<usize> = Vec::new();
            stack.push(root);
            proof {
                assert(stack@ == seq![root]);
                assert forall|i: int| 0 <= i < n implies (#[trigger] mark@[i] == 1 <==> stack@.contains(i as usize)) by {
                    if i == root {
                        assert(stack@[0] == root);
                    } else {
                        assert(!empty.contains(i as usize));
                        if stack@.contains(i as usize) {
                            let w = choose|w: int| 0 <= w < stack@.len() && stack@[w] == i as usize;
                            assert(w == 0);
                        }
                    }
                }
                assert forall|i: int| 0 <= i < n implies (#[trigger] mark@[i] == 2 <==> finished@.contains(i as usize)) by {
                    if i == root {
                        assert(!finished@.contains(root)) by {
                            if finished@.contains(root) {
                            }
                        }
                    }
                }
                assert(stack@.no_duplicates());
            }
            while stack.len() > 0
                invariant
                    root < n == cells@.len(),
                    f == graph.formulas(),
                    sv == succ_view(succ@),
                    dfs_state(f, cells@, sv, mark@, next@, circ@, stack@, finished@),
                    stack@.len() > 0 ==> stack@[0] == root,
                    mark@[root as int] != 0,
                    empty == Seq::<usize>::empty(),
                    forall|i: int| 0 <= i < root ==> #[trigger] mark@[i] == 2,
                    forall|c: Seq<int>| #[trigger] lone_cycle(f, cells@, c) ==> cycle_kept(sv, mark@, next@, circ@, stack@, c),
                decreases count_upto(mark@, 0, n as int), pending_upto(sv, next@, n as int), n - count_upto(mark@, 2, n as int),
            {
                let top = stack[stack.len() - 1];
                proof {
                    lemma_count_bounds(mark@, 0u8, n as int);
                    lemma_count_bounds(mark@, 2u8, n as int);
                    lemma_pending_bounds(sv, next@, n as int);
                    assert(sv[top as int] == succ@[top as int]@);
                }
                let ghost before_mark = mark@;
                let ghost before_next = next@;
                let ghost before_circ = circ@;
                let ghost before_stack = stack@;
                proof {
                    lemma_walk_facts(f, cells@, sv, mark@, next@, circ@, stack@, finished@);
                }
                if next[top] < succ[top].len() {
                    visit_next(&succ, &mut mark, &mut next, &mut circ, &mut stack, &finished, Ghost(f), Ghost(cells@));
                    proof {
                        lemma_count_bounds(mark@, 0u8, n as int);
                        lemma_pending_bounds(sv, next@, n as int);
                        if mark@[root as int] == 0 {
                            assert(before_mark[root as int] != 0);
                        }
                        assert forall|i: int| 0 <= i < root implies #[trigger] mark@[i] == 2 by {
                            assert(before_mark[i] == 2);
                        }
                        let child = sv[top as int][before_next[top as int] as int] as int;
                        assert(0 <= child < n);
                        assert forall|c: Seq<int>| #[trigger] lone_cycle(f, cells@, c) implies cycle_kept(
                            sv,
                            mark@,
                            next@,
                            circ@,
                            stack@,
                            c,
                        ) by {
                            if before_mark[child] == 2 {
                                lemma_cycle_visit_done(f, cells@, sv, before_mark, before_next, before_circ, before_stack, mark@, next@, circ@, stack@, c);
                            } else if before_mark[child] == 1 {
                                lemma_cycle_visit_open(f, cells@, sv, before_mark, before_next, before_circ, before_stack, mark@, next@, circ@, stack@, c);
                            } else {
                                lemma_cycle_visit_new(f, cells@, sv, before_mark, before_next, before_circ, before_stack, mark@, next@, circ@, stack@, c);
                            }
                        }
                    }
                } else {
                    proof {
                        assert(before_mark[top as int] == 1) by {
                            assert(stack@.contains(top));
                        }
                        lemma_count_update(before_mark, top as int, 2u8, 0u8, n as int);
                        lemma_count_update(before_mark, top as int, 2u8, 2u8, n as int);
                    }
                    finish_top(&succ, &mut mark, &next, &circ, &mut stack, &mut finished, Ghost(f), Ghost(cells@));
                    proof {
                        lemma_count_bounds(mark@, 2u8, n as int);
                        assert forall|i: int| 0 <= i < root implies #[trigger] mark@[i] == 2 by {
                            assert(before_mark[i] == 2);
                        }
                        if stack@.len() > 0 {
                            assert(stack@[0] == root);
                        }
                        assert forall|c: Seq<int>| #[trigger] lone_cycle(f, cells@, c) implies cycle_kept(
                            sv,
                            mark@,
                            next@,
                            circ@,
                            stack@,
                            c,
                        ) by {
                            lemma_cycle_finish(f, cells@, sv, before_mark, before_next, before_circ, before_stack, c);
                        }
                    }
                }
            }
            proof {
                assert(mark@[root as int] == 2) by {
                    assert(!stack@.contains(root));
                }
                assert(stack@.len() == 0);
                assert(stack@ =~= empty);
                assert forall|c: Seq<int>| #[trigger] lone_cycle(f, cells@, c) implies cycle_unmarked(mark@, c)
                    || cycle_set_apart(circ@, c) by {
                    if !cycle_unmarked(mark@, c) && !cycle_set_apart(circ@, c) {
                        let (s0, t0, r) = choose|s0: int, t0: int, r: int| #[trigger] cycle_walking(sv, mark@, next@, stack@, c, s0, t0, r);
                    }
                }
            }
        }
        root = root + 1;
    }
    proof {
        assert forall|i: int| 0 <= i < n implies finished@.contains(#[trigger] (i as usize)) by {
            assert(mark@[i] == 2);
        }
        assert forall|c: Seq<int>| #[trigger] lone_cycle(f, cells@, c) implies cycle_set_apart(circ@, c) by {
            assert(0 <= c[0] < n);
            assert(mark@[c[0]] == 2);
        }
    }
    // The finishing order, reversed, without the circular cells.
    let mut order: Vec<CellAddr> = Vec::new();
    let ghost mut at: Seq<int> = Seq::empty();
    let mut j: usize = finished.len();
    while j > 0
        invariant
            j <= finished@.len(),
            n == cells@.len(),
            empty == Seq::<usize>::empty(),
            dfs_state(f, cells@, sv, mark@, next@, circ@, empty, finished@),
            forall|c: Seq<int>| #[trigger] lone_cycle(f, cells@, c) ==> cycle_set_apart(circ@, c),
            order@.len() == at.len(),
            forall|m: int| 0 <= m < at.len() ==> j <= #[trigger] at[m] < finished@.len(),
            forall|m: int| 0 <= m < at.len() ==> order@[m] == cells@[finished@[#[trigger] at[m]] as int] && !circ@[finished@[at[m]] as int],
            forall|a: int, b: int| 0 <= a < b < at.len() ==> #[trigger] at[a] > #[trigger] at[b],
            forall|p: int| j <= p < finished@.len() && !circ@[finished@[p] as int] ==> exists|m: int| 0 <= m < at.len() && #[trigger] at[m] == p,
        decreases j,
    {
        j = j - 1;
        let x = finished[j];
        let ghost prev = at;
        let ghost prev_len = order@.len();
        if !circ[x] {
            order.push(cells[x]);
            proof {
                at = at.push(j as int);
            }
        }
        proof {
            assert forall|p: int| j <= p < finished@.len() && !circ@[finished@[p] as int] implies exists|m: int| 0 <= m < at.len() && #[trigger] at[m] == p by {
                if p > j {
                    let m = choose|m: int| 0 <= m < prev.len() && #[trigger] prev[m] == p;
                    assert(at[m] == p);
                } else {
                    assert(at[prev_len as int] == p);
                }
            }
        }
    }
    // The circular cells, in order of sheet, row and column.
    let mut circular: Vec<CellAddr> = Vec::new();
    let ghost mut idx: Seq<int> = Seq::empty();
    let mut i: usize = 0;
    while i < n
        invariant
            i <= n == cells@.len(),
            circ@.len() == n,
            f == graph.formulas(),
            forall|c: Seq<int>| #[trigger] lone_cycle(f, cells@, c) ==> cycle_set_apart(circ@, c),
            circular@.len() == idx.len(),
            forall|m: int| 0 <= m < idx.len() ==> 0 <= #[trigger] idx[m] < i && circular@[m] == cells@[idx[m]] && circ@[idx[m]],
            forall|a: int, b: int| 0 <= a < b < idx.len() ==> #[trigger] idx[a] < #[trigger] idx[b],
            forall|q: int| 0 <= q < i && circ@[q] ==> exists|m: int| 0 <= m < idx.len() && #[trigger] idx[m] == q,
        decreases n - i,
    {
        let ghost prev = idx;
        let ghost prev_len = circular@.len();
        if circ[i] {
            circular.push(cells[i]);
            proof {
                idx = idx.push(i as int);
            }
        }
        proof {
            assert forall|q: int| 0 <= q < i + 1 && circ@[q] implies exists|m: int| 0 <= m < idx.len() && #[trigger] idx[m] == q by {
                if q < i {
                    let m = choose|m: int| 0 <= m < prev.len() && #[trigger] prev[m] == q;
                    assert(idx[m] == q);
                } else {
                    assert(idx[prev_len as int] == q);
                }
            }
        }
        i = i + 1;
    }
    proof {
        lemma_ascending_no_duplicates(cells@);
        // The order holds each cell once.
        assert(order@.no_duplicates()) by {
            assert forall|a: int, b: int| 0 <= a < order@.len() && 0 <= b < order@.len() && a != b implies order@[a] != order@[b] by {
                assert(at[a] != at[b]) by {
                    if a < b {
                        assert(at[a] > at[b]);
                    } else {
                        assert(at[b] > at[a]);
                    }
                }
                assert(finished@[at[a]] != finished@[at[b]]);
            }
        }
        assert(ascending(circular@)) by {
            assert forall|a: int, b: int| 0 <= a < b < circular@.len() implies addr_key(#[trigger] circular@[a]) < addr_key(#[trigger] circular@[b]) by {
                assert(idx[a] < idx[b]);
            }
        }
        assert forall|c: CellAddr| #[trigger] cells@.contains(c) <==> order@.contains(c) || circular@.contains(c) by {
            if cells@.contains(c) {
                let q = choose|q: int| 0 <= q < n && cells@[q] == c;
                if circ@[q] {
                    let m = choose|m: int| 0 <= m < idx.len() && #[trigger] idx[m] == q;
                    assert(circular@[m] == c);
                } else {
                    assert(finished@.contains(q as usize));
                    let p = choose|p: int| 0 <= p < finished@.len() && finished@[p] == q as usize;
                    let m = choose|m: int| 0 <= m < at.len() && #[trigger] at[m] == p;
                    assert(order@[m] == c);
                }
            }
            if order@.contains(c) {
                let m = choose|m: int| 0 <= m < order@.len() && order@[m] == c;
                assert(cells@[finished@[at[m]] as int] == c);
            }
            if circular@.contains(c) {
                let m = choose|m: int| 0 <= m < circular@.len() && circular@[m] == c;
                assert(cells@[idx[m]] == c);
            }
        }
        assert forall|c: CellAddr| #[trigger] order@.contains(c) implies !circular@.contains(c) by {
            let m = choose|m: int| 0 <= m < order@.len() && order@[m] == c;
            if circular@.contains(c) {
                let w = choose|w: int| 0 <= w < circular@.len() && circular@[w] == c;
                assert(cells@[idx[w]] == cells@[finished@[at[m]] as int]);
                assert(idx[w] == finished@[at[m]] as int);
            }
        }
        assert forall|a: int, b: int|
            0 <= a < order@.len() && 0 <= b < order@.len() && is_dependent(f, #[trigger] order@[a], #[trigger] order@[b]) implies b < a by {
            let xa = finished@[at[a]] as int;
            let xb = finished@[at[b]] as int;
            assert(edge(f, cells@, xb, xa));
            if at[b] <= at[a] {
                assert(edge(f, cells@, finished@[at[b]] as int, finished@[at[a]] as int));
                assert(circ@[xb] && circ@[xa]);
            }
            if a <= b {
                if a < b {
                    assert(at[a] > at[b]);
                }
            }
        }
        assert forall|c: CellAddr| #[trigger] circular@.contains(c) implies cyclic(f, cells@, circular@, c) by {
            let m = choose|m: int| 0 <= m < circular@.len() && circular@[m] == c;
            assert(circ@[idx[m]]);
            assert(on_cycle(f, cells@, circ@, idx[m]));
            let p = choose|p: Seq<int>|
                #[trigger] walk(f, cells@, p) && p.len() >= 2 && p[0] == idx[m] && p.last() == idx[m] && forall|k: int|
                    0 <= k < p.len() ==> 0 <= #[trigger] p[k] < circ@.len() && circ@[p[k]];
            assert forall|k: int| 0 <= k < p.len() implies 0 <= #[trigger] p[k] < cells@.len() && circular@.contains(cells@[p[k]]) by {
                let q = p[k];
                assert(circ@[q]);
                let w = choose|w: int| 0 <= w < idx.len() && #[trigger] idx[w] == q;
                assert(circular@[w] == cells@[q]);
            }
        }
    }
    proof {
        assert forall|c: Seq<int>| #[trigger] lone_cycle(f, cells@, c) implies forall|m: int|
            0 <= m < c.len() ==> circular@.contains(#[trigger] cells@[c[m]]) by {
            assert forall|m: int| 0 <= m < c.len() implies circular@.contains(#[trigger] cells@[c[m]]) by {
                let q = c[m];
                assert(0 <= q < n);
                assert(circ@[q]);
                let w = choose|w: int| 0 <= w < idx.len() && #[trigger] idx[w] == q;
                assert(circular@[w] == cells@[q]);
            }
        }
    }
    (order, circular)
}

/// What a recalculation after editing the seeds has to do: the cells the
/// edit reaches, in the order to evaluate them, and those set apart because
/// they form a cycle. Both are empty when the edit reaches nothing.
pub fn recalculation_plan(graph: &DependencyGraph, seeds: &Vec<CellAddr>) -> (r: (Vec<CellAddr>, Vec<CellAddr>))
    requires
        graph.well_formed(),
    ensures
        exists|cells: Seq<CellAddr>|
            #![trigger schedules(graph.formulas(), cells, r.0@, r.1@)]
            ascending(cells) && (forall|c: CellAddr| #[trigger] cells.contains(c) <==> reached(graph.formulas(), seeds@, c))
                && schedules(graph.formulas(), cells, r.0@, r.1@) && sets_apart_lone_cycles(
                graph.formulas(),
                cells,
                r.1@,
            ),
{
    let affected = affected_by(graph, seeds);
    evaluation_order(graph, &affected)
}

} // verus!

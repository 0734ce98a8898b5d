//! Separate masses of a footprint: the grounded columns of a grid, split
//! into the parts that touch side by side.
//!
//! A spire tapers, so its outer columns are short while it is plainly one
//! shape; only a frame stands on two feet. Counting masses rather than
//! columns is what tells the two apart.

use vstd::prelude::*;

verus! {

/// A grounded column, by index into a footprint's column table.
pub open spec fn spec_node(table: Seq<Option<i64>>, i: int) -> bool {
    0 <= i < table.len() && table[i] is Some
}

/// Columns `a` and `b` of a grid `sx` columns wide stand side by side: next
/// to each other in a row, or at the same place in neighbouring rows.
pub open spec fn spec_side_by_side(sx: int, n: int, a: int, b: int) -> bool {
    &&& 0 <= a < n
    &&& 0 <= b < n
    &&& {
        ||| b == a + 1 && b % sx != 0
        ||| a == b + 1 && a % sx != 0
        ||| b == a + sx
        ||| a == b + sx
    }
}

/// Two grounded columns that touch.
pub open spec fn spec_link(table: Seq<Option<i64>>, sx: int, a: int, b: int) -> bool {
    spec_node(table, a) && spec_node(table, b) && spec_side_by_side(sx, table.len() as int, a, b)
}

/// Whether the member at `i` touches one listed before it.
pub open spec fn spec_links_earlier(table: Seq<Option<i64>>, sx: int, order: Seq<usize>, i: int) -> bool {
    exists|j: int| 0 <= j < i && #[trigger] spec_link(table, sx, order[j] as int, order[i] as int)
}

/// A listing in which each member after the first touches an earlier one.
pub open spec fn spec_chained(table: Seq<Option<i64>>, sx: int, order: Seq<usize>) -> bool {
    &&& order.len() > 0
    &&& forall|i: int| 0 < i < order.len() ==> #[trigger] spec_links_earlier(table, sx, order, i)
}

/// Whether `members` form one connected mass.
pub open spec fn spec_one_mass(table: Seq<Option<i64>>, sx: int, members: Seq<usize>) -> bool {
    exists|order: Seq<usize>|
        spec_chained(table, sx, order) && forall|c: usize| #[trigger] order.contains(c) <==> members.contains(c)
}

/// Whether indices are held in strictly ascending order.
pub open spec fn spec_ascending(s: Seq<usize>) -> bool {
    forall|i: int, j: int| 0 <= i < j < s.len() ==> #[trigger] s[i] < #[trigger] s[j]
}

/// The tallest column height among `members`.
pub open spec fn spec_tallest(table: Seq<Option<i64>>, members: Seq<usize>) -> i64
    decreases members.len(),
{
    if members.len() == 0 {
        0
    } else {
        let rest = spec_tallest(table, members.drop_last());
        let here = table[members.last() as int]->0;
        if here > rest {
            here
        } else {
            rest
        }
    }
}

/// One separate mass: its columns in ascending order and its height.
#[derive(Clone, Debug, PartialEq, Eq)]
pub struct GroundedMass {
    pub columns: Vec<usize>,
    pub height: i64,
}

/// `masses` are the separate masses of the footprint `table`, `w` columns to
/// a row: every grounded column lies in exactly one, each is connected and
/// takes in every grounded column touching it, lists its columns in
/// ascending order with its tallest column height, and they come in the
/// order of their first column.
pub open spec fn spec_masses(t: Seq<Option<i64>>, w: int, masses: Seq<GroundedMass>) -> bool {
    &&& forall|g: int|
        0 <= g < masses.len() ==> (#[trigger] masses[g]).columns@.len() > 0 && spec_ascending(
            masses[g].columns@,
        )
    &&& forall|g: int, c: usize|
        0 <= g < masses.len() && #[trigger] masses[g].columns@.contains(c) ==> spec_node(t, c as int)
    &&& forall|c: usize|
        spec_node(t, c as int) ==> exists|g: int| 0 <= g < masses.len() && #[trigger] masses[g].columns@.contains(c)
    &&& forall|g: int, h: int, c: usize|
        0 <= g < masses.len() && 0 <= h < masses.len() && g != h && #[trigger] masses[g].columns@.contains(c)
            ==> !#[trigger] masses[h].columns@.contains(c)
    &&& forall|g: int, c: usize, d: usize|
        0 <= g < masses.len() && #[trigger] masses[g].columns@.contains(c) && #[trigger] spec_link(
            t,
            w,
            c as int,
            d as int,
        ) ==> masses[g].columns@.contains(d)
    &&& forall|g: int| 0 <= g < masses.len() ==> spec_one_mass(t, w, #[trigger] masses[g].columns@)
    &&& forall|g: int, h: int|
        0 <= g < h < masses.len() ==> (#[trigger] masses[g]).columns@[0] < (#[trigger] masses[h]).columns@[0]
    &&& forall|g: int| 0 <= g < masses.len() ==> (#[trigger] masses[g]).height == spec_tallest(t, masses[g].columns@)
}

/// The neighbour of column `c` in direction `m` of four, inside the grid.
pub open spec fn spec_step(sx: int, n: int, c: int, m: int) -> Option<int> {
    if m == 0 {
        if c + 1 < n && (c + 1) % sx != 0 {
            Some(c + 1)
        } else {
            None
        }
    } else if m == 1 {
        if c % sx != 0 && c >= 1 {
            Some(c - 1)
        } else {
            None
        }
    } else if m == 2 {
        if c + sx < n {
            Some(c + sx)
        } else {
            None
        }
    } else {
        if c >= sx {
            Some(c - sx)
        } else {
            None
        }
    }
}

proof fn lemma_link_step(table: Seq<Option<i64>>, sx: int, a: int, b: int)
    requires
        sx > 0,
        spec_link(table, sx, a, b),
    ensures
        exists|m: int| 0 <= m < 4 && #[trigger] spec_step(sx, table.len() as int, a, m) == Some(b),
{
    let n = table.len() as int;
    if b == a + 1 && b % sx != 0 {
        assert(spec_step(sx, n, a, 0) == Some(b));
    } else if a == b + 1 && a % sx != 0 {
        assert(spec_step(sx, n, a, 1) == Some(b));
    } else if b == a + sx {
        assert(spec_step(sx, n, a, 2) == Some(b));
    } else {
        assert(spec_step(sx, n, a, 3) == Some(b));
    }
}

proof fn lemma_link_symmetric(table: Seq<Option<i64>>, sx: int, a: int, b: int)
    requires
        spec_link(table, sx, a, b),
    ensures
        spec_link(table, sx, b, a),
{
}

/// The shape of a mass while it grows: the seen list is the earlier one
/// followed by the mass, which starts at `start`, repeats nothing, holds
/// grounded columns only, met nothing seen before and is chained.
#[verifier::opaque]
spec fn mass_shape(
    table: Seq<Option<i64>>,
    sx: int,
    seen_before: Seq<usize>,
    start: usize,
    seen: Seq<usize>,
    group: Seq<usize>,
) -> bool {
    &&& seen == seen_before + group
    &&& group.len() > 0
    &&& group[0] == start
    &&& group.no_duplicates()
    &&& forall|c: usize| #[trigger] group.contains(c) ==> spec_node(table, c as int) && !seen_before.contains(c)
    &&& spec_chained(table, sx, group)
}

/// Every member off the stack, other than `current` beyond direction `k`,
/// has every grounded neighbour seen.
#[verifier::opaque]
spec fn mass_closed(
    table: Seq<Option<i64>>,
    sx: int,
    seen: Seq<usize>,
    group: Seq<usize>,
    stack: Seq<usize>,
    current: Option<usize>,
    k: int,
) -> bool {
    forall|c: usize, m: int|
        #[trigger] group.contains(c) && !stack.contains(c) && (current != Some(c) || m < k) && 0 <= m < 4
            && spec_step(sx, table.len() as int, c as int, m) is Some && spec_node(
            table,
            spec_step(sx, table.len() as int, c as int, m)->0,
        ) ==> #[trigger] seen.contains(spec_step(sx, table.len() as int, c as int, m)->0 as usize)
}

/// What growing a mass keeps: its shape, a stack and a current member inside
/// it, and closure of everything already expanded.
spec fn mass_inv(
    table: Seq<Option<i64>>,
    sx: int,
    seen_before: Seq<usize>,
    start: usize,
    seen: Seq<usize>,
    group: Seq<usize>,
    stack: Seq<usize>,
    current: Option<usize>,
    k: int,
) -> bool {
    &&& mass_shape(table, sx, seen_before, start, seen, group)
    &&& forall|c: usize| #[trigger] stack.contains(c) ==> group.contains(c)
    &&& current is Some ==> group.contains(current->0)
    &&& mass_closed(table, sx, seen, group, stack, current, k)
}

proof fn lemma_mass_init(
    table: Seq<Option<i64>>,
    sx: int,
    seen_before: Seq<usize>,
    start: usize,
    seen: Seq<usize>,
    group: Seq<usize>,
    stack: Seq<usize>,
)
    requires
        spec_node(table, start as int),
        !seen_before.contains(start),
        seen == seen_before.push(start),
        group == seq![start],
        stack == seq![start],
    ensures
        mass_inv(table, sx, seen_before, start, seen, group, stack, None, 0),
{
    reveal(mass_shape);
    reveal(mass_closed);
    assert(seen =~= seen_before + group);
    assert forall|c: usize| #[trigger] group.contains(c) implies c == start by {
        let j = choose|j: int| 0 <= j < group.len() && group[j] == c;
    }
    assert forall|c: usize| #[trigger] stack.contains(c) implies group.contains(c) by {
        let j = choose|j: int| 0 <= j < stack.len() && stack[j] == c;
        assert(group[0] == c);
    }
    assert(stack.contains(start)) by {
        assert(stack[0] == start);
    }
}

proof fn lemma_mass_bounded(
    table: Seq<Option<i64>>,
    sx: int,
    seen_before: Seq<usize>,
    start: usize,
    seen: Seq<usize>,
    group: Seq<usize>,
    stack: Seq<usize>,
    current: Option<usize>,
    k: int,
)
    requires
        mass_inv(table, sx, seen_before, start, seen, group, stack, current, k),
    ensures
        group.len() <= table.len(),
{
    reveal(mass_shape);
    let all = Seq::new(table.len(), |i: int| i as usize);
    assert forall|c: usize| #[trigger] group.contains(c) implies all.contains(c) by {
        assert(all[c as int] == c);
    }
    group.unique_seq_to_set();
    all.lemma_cardinality_of_set();
    vstd::seq_lib::seq_to_set_is_finite(all);
    assert(group.to_set().subset_of(all.to_set())) by {
        assert forall|c: usize| group.to_set().contains(c) implies all.to_set().contains(c) by {
            assert(group.contains(c));
        }
    }
    vstd::set_lib::lemma_len_subset(group.to_set(), all.to_set());
}

proof fn lemma_mass_pop(
    table: Seq<Option<i64>>,
    sx: int,
    seen_before: Seq<usize>,
    start: usize,
    seen: Seq<usize>,
    group: Seq<usize>,
    stack: Seq<usize>,
    coord: usize,
)
    requires
        mass_inv(table, sx, seen_before, start, seen, group, stack.push(coord), None, 0),
    ensures
        mass_inv(table, sx, seen_before, start, seen, group, stack, Some(coord), 0),
        spec_node(table, coord as int),
{
    reveal(mass_shape);
    reveal(mass_closed);
    let full = stack.push(coord);
    assert(full.contains(coord)) by {
        assert(full[stack.len() as int] == coord);
    }
    assert forall|c: usize| #[trigger] stack.contains(c) implies group.contains(c) by {
        let j = choose|j: int| 0 <= j < stack.len() && stack[j] == c;
        assert(full[j] == c);
        assert(full.contains(c));
    }
    assert forall|c: usize, m: int|
        #[trigger] group.contains(c) && !stack.contains(c) && (Some(coord) != Some(c) || m < 0) && 0 <= m < 4
            && spec_step(sx, table.len() as int, c as int, m) is Some && spec_node(
            table,
            spec_step(sx, table.len() as int, c as int, m)->0,
        ) implies #[trigger] seen.contains(spec_step(sx, table.len() as int, c as int, m)->0 as usize) by {
        assert(!full.contains(c)) by {
            if full.contains(c) {
                let j = choose|j: int| 0 <= j < full.len() && full[j] == c;
                if j < stack.len() {
                    assert(stack[j] == c);
                }
            }
        }
    }
}

#[verifier::spinoff_prover]
proof fn lemma_mass_shape_push(
    table: Seq<Option<i64>>,
    sx: int,
    seen_before: Seq<usize>,
    start: usize,
    coord: usize,
    n: usize,
    seen0: Seq<usize>,
    group0: Seq<usize>,
    seen1: Seq<usize>,
    group1: Seq<usize>,
)
    requires
        seen1 == seen0.push(n),
        group1 == group0.push(n),
        mass_shape(table, sx, seen_before, start, seen0, group0),
        group0.contains(coord),
        !seen0.contains(n),
        spec_link(table, sx, coord as int, n as int),
    ensures
        mass_shape(table, sx, seen_before, start, seen1, group1),
        forall|c: usize| #[trigger] group1.contains(c) <==> group0.contains(c) || c == n,
        forall|c: usize| #[trigger] seen0.contains(c) ==> seen1.contains(c),
{
    reveal(mass_shape);
    assert(seen1 =~= seen_before + group1);
    assert(!group0.contains(n)) by {
        if group0.contains(n) {
            let j = choose|j: int| 0 <= j < group0.len() && group0[j] == n;
            assert(seen0[seen_before.len() + j] == n);
        }
    }
    assert(!seen_before.contains(n)) by {
        if seen_before.contains(n) {
            let j = choose|j: int| 0 <= j < seen_before.len() && seen_before[j] == n;
            assert(seen0[j] == n);
        }
    }
    assert(group1[group0.len() as int] == n);
    assert forall|c: usize| #[trigger] group1.contains(c) <==> group0.contains(c) || c == n by {
        if group1.contains(c) {
            let j = choose|j: int| 0 <= j < group1.len() && group1[j] == c;
            if j < group0.len() {
                assert(group0[j] == c);
            }
        }
        if group0.contains(c) {
            let j = choose|j: int| 0 <= j < group0.len() && group0[j] == c;
            assert(group1[j] == c);
        }
    }
    assert forall|c: usize| #[trigger] seen0.contains(c) implies seen1.contains(c) by {
        let j = choose|j: int| 0 <= j < seen0.len() && seen0[j] == c;
        assert(seen1[j] == c);
    }
    assert forall|a: int, b: int| 0 <= a < b < group1.len() implies group1[a] != group1[b] by {
        if b == group0.len() {
            assert(group0.contains(group1[a])) by {
                assert(group0[a] == group1[a]);
            }
        } else {
            assert(group0[a] != group0[b]);
        }
    }
    assert forall|i: int| 0 < i < group1.len() implies #[trigger] spec_links_earlier(table, sx, group1, i) by {
        if i < group0.len() {
            assert(spec_links_earlier(table, sx, group0, i));
            let j = choose|j: int| 0 <= j < i && #[trigger] spec_link(table, sx, group0[j] as int, group0[i] as int);
            assert(group1[j] == group0[j] && group1[i] == group0[i]);
        } else {
            let j = choose|j: int| 0 <= j < group0.len() && group0[j] == coord;
            assert(group1[j] == coord);
            assert(spec_link(table, sx, group1[j] as int, group1[i] as int));
        }
    }
    assert(spec_chained(table, sx, group1));
}

proof fn lemma_mass_closed_push(
    table: Seq<Option<i64>>,
    sx: int,
    coord: usize,
    k: int,
    n: usize,
    seen0: Seq<usize>,
    group0: Seq<usize>,
    stack0: Seq<usize>,
    seen1: Seq<usize>,
    group1: Seq<usize>,
    stack1: Seq<usize>,
)
    requires
        0 <= k < 4,
        seen1 == seen0.push(n),
        group1 == group0.push(n),
        stack1 == stack0.push(n),
        mass_closed(table, sx, seen0, group0, stack0, Some(coord), k),
        forall|c: usize| #[trigger] group1.contains(c) ==> group0.contains(c) || c == n,
        forall|c: usize| #[trigger] seen0.contains(c) ==> seen1.contains(c),
        ({
            let next = spec_step(sx, table.len() as int, coord as int, k);
            next is Some && spec_node(table, next->0) ==> seen1.contains(next->0 as usize)
        }),
    ensures
        mass_closed(table, sx, seen1, group1, stack1, Some(coord), k + 1),
{
    reveal(mass_closed);
    assert(stack1.contains(n)) by {
        assert(stack1[stack0.len() as int] == n);
    }
    assert forall|c: usize, m: int|
        #[trigger] group1.contains(c) && !stack1.contains(c) && (Some(coord) != Some(c) || m < k + 1) && 0 <= m < 4
            && spec_step(sx, table.len() as int, c as int, m) is Some && spec_node(
            table,
            spec_step(sx, table.len() as int, c as int, m)->0,
        ) implies #[trigger] seen1.contains(spec_step(sx, table.len() as int, c as int, m)->0 as usize) by {
        if c == coord && m == k {
        } else {
            assert(c != n);
            assert(group0.contains(c));
            assert(!stack0.contains(c)) by {
                if stack0.contains(c) {
                    let j = choose|j: int| 0 <= j < stack0.len() && stack0[j] == c;
                    assert(stack1[j] == c);
                }
            }
            assert(seen0.contains(spec_step(sx, table.len() as int, c as int, m)->0 as usize));
        }
    }
}

proof fn lemma_mass_expand(
    table: Seq<Option<i64>>,
    sx: int,
    seen_before: Seq<usize>,
    start: usize,
    coord: usize,
    k: int,
    seen0: Seq<usize>,
    group0: Seq<usize>,
    stack0: Seq<usize>,
    seen1: Seq<usize>,
    group1: Seq<usize>,
    stack1: Seq<usize>,
)
    requires
        0 <= k < 4,
        table.len() <= usize::MAX,
        mass_inv(table, sx, seen_before, start, seen0, group0, stack0, Some(coord), k),
        ({
            let next = spec_step(sx, table.len() as int, coord as int, k);
            &&& (seen1 == seen0 && group1 == group0 && stack1 == stack0) || (next is Some && 0 <= next->0
                && seen1 == seen0.push(next->0 as usize) && group1 == group0.push(next->0 as usize)
                && stack1 == stack0.push(next->0 as usize) && !seen0.contains(next->0 as usize)
                && spec_link(table, sx, coord as int, next->0))
            &&& next is Some && spec_node(table, next->0) ==> seen1.contains(next->0 as usize)
        }),
    ensures
        mass_inv(table, sx, seen_before, start, seen1, group1, stack1, Some(coord), k + 1),
        group1.len() >= group0.len(),
        group1.len() == group0.len() ==> stack1 == stack0,
{
    if seen1 == seen0 && group1 == group0 && stack1 == stack0 {
        reveal(mass_closed);
    } else {
        let n = spec_step(sx, table.len() as int, coord as int, k)->0 as usize;
        assert(n as int == spec_step(sx, table.len() as int, coord as int, k)->0);
        lemma_mass_shape_push(table, sx, seen_before, start, coord, n, seen0, group0, seen1, group1);
        lemma_mass_closed_push(table, sx, coord, k, n, seen0, group0, stack0, seen1, group1, stack1);
        assert forall|c: usize| #[trigger] stack1.contains(c) implies group1.contains(c) by {
            let j = choose|j: int| 0 <= j < stack1.len() && stack1[j] == c;
            if j < stack0.len() {
                assert(stack0[j] == c);
                assert(stack0.contains(c));
            }
        }
        assert(group1.contains(coord));
    }
}

proof fn lemma_mass_finish(
    table: Seq<Option<i64>>,
    sx: int,
    seen_before: Seq<usize>,
    start: usize,
    seen: Seq<usize>,
    group: Seq<usize>,
    stack: Seq<usize>,
    coord: usize,
)
    requires
        mass_inv(table, sx, seen_before, start, seen, group, stack, Some(coord), 4),
    ensures
        mass_inv(table, sx, seen_before, start, seen, group, stack, None, 0),
{
    reveal(mass_closed);
}

proof fn lemma_mass_closed_one(
    table: Seq<Option<i64>>,
    sx: int,
    seen_before: Seq<usize>,
    start: usize,
    seen: Seq<usize>,
    group: Seq<usize>,
    c: usize,
    d: usize,
)
    requires
        sx > 0,
        mass_inv(table, sx, seen_before, start, seen, group, Seq::empty(), None, 0),
        forall|a: usize, b: usize|
            #[trigger] seen_before.contains(a) && #[trigger] spec_link(table, sx, a as int, b as int)
                ==> seen_before.contains(b),
        group.contains(c),
        spec_link(table, sx, c as int, d as int),
    ensures
        group.contains(d),
{
    lemma_link_step(table, sx, c as int, d as int);
    let m = choose|m: int| 0 <= m < 4 && #[trigger] spec_step(sx, table.len() as int, c as int, m) == Some(
        d as int,
    );
    assert(seen.contains(d)) by {
        reveal(mass_closed);
        assert(!Seq::<usize>::empty().contains(c));
        assert(seen.contains(spec_step(sx, table.len() as int, c as int, m)->0 as usize));
    }
    reveal(mass_shape);
    if seen_before.contains(d) {
        lemma_link_symmetric(table, sx, c as int, d as int);
        assert(seen_before.contains(c));
    }
    let j = choose|j: int| 0 <= j < seen.len() && seen[j] == d;
    if j < seen_before.len() {
        assert(seen_before[j] == d);
    } else {
        assert(group[j - seen_before.len()] == d);
    }
}

/// The neighbour of `coord` in direction `k`, if it is grounded and not
/// seen yet, is seen and joins the mass and the stack.
fn expand_mass(
    table: &Vec<Option<i64>>,
    sx: usize,
    coord: usize,
    k: usize,
    seen: &mut Vec<bool>,
    group: &mut Vec<usize>,
    stack: &mut Vec<usize>,
    Ghost(seen_list): Ghost<Seq<usize>>,
) -> (next_list: Ghost<Seq<usize>>)
    requires
        sx > 0,
        k < 4,
        coord < table@.len(),
        spec_node(table@, coord as int),
        old(seen)@.len() == table@.len(),
        forall|i: int| 0 <= i < table@.len() ==> old(seen)@[i] == seen_list.contains(i as usize),
    ensures
        final(seen)@.len() == table@.len(),
        forall|i: int| 0 <= i < table@.len() ==> final(seen)@[i] == next_list@.contains(i as usize),
        ({
            let next = spec_step(sx as int, table@.len() as int, coord as int, k as int);
            &&& (next_list@ == seen_list && final(group)@ == old(group)@ && final(stack)@ == old(stack)@)
                || (next is Some && 0 <= next->0 && next_list@ == seen_list.push(next->0 as usize)
                && final(group)@ == old(group)@.push(next->0 as usize) && final(stack)@ == old(stack)@.push(
                next->0 as usize,
            ) && !seen_list.contains(next->0 as usize) && spec_link(
                table@,
                sx as int,
                coord as int,
                next->0,
            ))
            &&& next is Some && spec_node(table@, next->0) ==> next_list@.contains(next->0 as usize)
        }),
{
    let n = table.len();
    let ghost next = spec_step(sx as int, n as int, coord as int, k as int);
    let neighbour: usize = if k == 0 {
        if coord + 1 < n && (coord + 1) % sx != 0 {
            coord + 1
        } else {
            return Ghost(seen_list);
        }
    } else if k == 1 {
        if coord % sx != 0 && coord >= 1 {
            coord - 1
        } else {
            return Ghost(seen_list);
        }
    } else if k == 2 {
        if sx < n - coord {
            coord + sx
        } else {
            return Ghost(seen_list);
        }
    } else {
        if coord >= sx {
            coord - sx
        } else {
            return Ghost(seen_list);
        }
    };
    proof {
        assert(next == Some(neighbour as int));
    }
    if table[neighbour].is_none() {
        return Ghost(seen_list);
    }
    if seen[neighbour] {
        proof {
            assert(seen_list.contains(neighbour));
        }
        return Ghost(seen_list);
    }
    seen.set(neighbour, true);
    group.push(neighbour);
    stack.push(neighbour);
    let ghost after = seen_list.push(neighbour);
    proof {
        assert(after[seen_list.len() as int] == neighbour);
        assert forall|i: int| 0 <= i < table@.len() implies seen@[i] == after.contains(i as usize) by {
            if i == neighbour as int {
                assert(after.contains(neighbour));
            } else {
                if after.contains(i as usize) {
                    let j = choose|j: int| 0 <= j < after.len() && after[j] == i as usize;
                    assert(j < seen_list.len());
                    assert(seen_list[j] == i as usize);
                }
                if seen_list.contains(i as usize) {
                    let j = choose|j: int| 0 <= j < seen_list.len() && seen_list[j] == i as usize;
                    assert(after[j] == i as usize);
                }
            }
        }
    }
    Ghost(after)
}

/// Grows the mass of `start` over touching grounded columns, taking in
/// every one it reaches that is not seen yet.
fn grow_mass(
    table: &Vec<Option<i64>>,
    sx: usize,
    start: usize,
    seen: &mut Vec<bool>,
    Ghost(seen_before): Ghost<Seq<usize>>,
) -> (grown: (Vec<usize>, Ghost<Seq<usize>>))
    requires
        sx > 0,
        start < table@.len(),
        spec_node(table@, start as int),
        !seen_before.contains(start),
        old(seen)@.len() == table@.len(),
        forall|i: int| 0 <= i < table@.len() ==> old(seen)@[i] == seen_before.contains(i as usize),
    ensures
        final(seen)@.len() == table@.len(),
        forall|i: int| 0 <= i < table@.len() ==> final(seen)@[i] == grown.1@.contains(i as usize),
        mass_inv(table@, sx as int, seen_before, start, grown.1@, grown.0@, Seq::empty(), None, 0),
{
    let ghost t = table@;
    let n = table.len();
    proof {
        assert(t.len() == n);
    }
    let mut group: Vec<usize> = Vec::new();
    group.push(start);
    seen.set(start, true);
    let ghost mut seen_list = seen_before.push(start);
    proof {
        assert(seen_list[seen_before.len() as int] == start);
        assert forall|i: int| 0 <= i < t.len() implies seen@[i] == seen_list.contains(i as usize) by {
            if i == start as int {
                assert(seen_list.contains(start));
            } else {
                if seen_list.contains(i as usize) {
                    let j = choose|j: int| 0 <= j < seen_list.len() && seen_list[j] == i as usize;
                    assert(seen_before[j] == i as usize);
                }
                if seen_before.contains(i as usize) {
                    let j = choose|j: int| 0 <= j < seen_before.len() && seen_before[j] == i as usize;
                    assert(seen_list[j] == i as usize);
                }
            }
        }
    }
    let mut stack: Vec<usize> = Vec::new();
    stack.push(start);
    proof {
        lemma_mass_init(t, sx as int, seen_before, start, seen_list, group@, stack@);
    }
    while stack.len() > 0
        invariant
            sx > 0,
            t == table@,
            t.len() <= usize::MAX,
            seen@.len() == t.len(),
            forall|i: int| 0 <= i < t.len() ==> seen@[i] == seen_list.contains(i as usize),
            mass_inv(t, sx as int, seen_before, start, seen_list, group@, stack@, None, 0),
        decreases t.len() - group@.len(), stack@.len(),
    {
        proof {
            lemma_mass_bounded(t, sx as int, seen_before, start, seen_list, group@, stack@, None, 0);
        }
        let ghost stack_before = stack@;
        let ghost group_before = group@;
        let coord = stack.pop().unwrap();
        proof {
            assert(stack_before == stack@.push(coord));
            lemma_mass_pop(t, sx as int, seen_before, start, seen_list, group@, stack@, coord);
        }
        let mut k: usize = 0;
        while k < 4
            invariant
                sx > 0,
                t == table@,
                t.len() <= usize::MAX,
                k <= 4,
                coord < t.len(),
                spec_node(t, coord as int),
                seen@.len() == t.len(),
                forall|i: int| 0 <= i < t.len() ==> seen@[i] == seen_list.contains(i as usize),
                mass_inv(t, sx as int, seen_before, start, seen_list, group@, stack@, Some(coord), k as int),
                group@.len() >= group_before.len(),
                group@.len() == group_before.len() ==> stack@.len() + 1 == stack_before.len(),
            decreases 4 - k,
        {
            let ghost (seen0, group0, stack0) = (seen_list, group@, stack@);
            let grown = expand_mass(table, sx, coord, k, seen, &mut group, &mut stack, Ghost(seen_list));
            proof {
                seen_list = grown@;
                lemma_mass_expand(
                    t,
                    sx as int,
                    seen_before,
                    start,
                    coord,
                    k as int,
                    seen0,
                    group0,
                    stack0,
                    seen_list,
                    group@,
                    stack@,
                );
            }
            k = k + 1;
        }
        proof {
            lemma_mass_finish(t, sx as int, seen_before, start, seen_list, group@, stack@, coord);
            lemma_mass_bounded(t, sx as int, seen_before, start, seen_list, group@, stack@, None, 0);
        }
    }
    proof {
        assert(stack@.len() == 0);
        assert(stack@ =~= Seq::<usize>::empty());
    }
    (group, Ghost(seen_list))
}

/// The same indices in ascending order.
fn sort_columns(columns: &Vec<usize>) -> (sorted: Vec<usize>)
    requires
        columns@.no_duplicates(),
    ensures
        spec_ascending(sorted@),
        sorted@.len() == columns@.len(),
        forall|c: usize| #[trigger] sorted@.contains(c) <==> columns@.contains(c),
{
    let mut sorted: Vec<usize> = Vec::new();
    let mut i: usize = 0;
    while i < columns.len()
        invariant
            columns@.no_duplicates(),
            i <= columns@.len(),
            spec_ascending(sorted@),
            sorted@.len() == i,
            forall|c: usize| #[trigger] sorted@.contains(c) <==> columns@.take(i as int).contains(c),
        decreases columns@.len() - i,
    {
        let x = columns[i];
        proof {
            assert(!columns@.take(i as int).contains(x)) by {
                if columns@.take(i as int).contains(x) {
                    let j = choose|j: int| 0 <= j < i && columns@.take(i as int)[j] == x;
                    assert(columns@[j] == columns@[i as int]);
                }
            }
            assert(!sorted@.contains(x));
        }
        let mut p: usize = 0;
        while p < sorted.len() && sorted[p] < x
            invariant
                p <= sorted@.len(),
                !sorted@.contains(x),
                forall|k: int| 0 <= k < p ==> #[trigger] sorted@[k] < x,
            decreases sorted@.len() - p,
        {
            p = p + 1;
        }
        let ghost before = sorted@;
        proof {
            if p < before.len() {
                assert(before[p as int] != x);
            }
        }
        sorted.insert(p, x);
        proof {
            assert forall|k: int| p <= k < before.len() implies x < #[trigger] before[k] by {
                if k > p {
                    assert(before[p as int] < before[k]);
                }
            }
            assert forall|a: int, b: int| 0 <= a < b < sorted@.len() implies #[trigger] sorted@[a]
                < #[trigger] sorted@[b] by {
                if b < p {
                    assert(before[a] < before[b]);
                } else if b == p {
                } else if a < p {
                    assert(before[a] < x);
                    assert(x < before[b - 1]);
                } else if a == p {
                    assert(x < before[b - 1]);
                } else {
                    assert(before[a - 1] < before[b - 1]);
                }
            }
            assert(columns@.take(i + 1) =~= columns@.take(i as int).push(x));
            assert forall|c: usize| #[trigger] sorted@.contains(c) <==> columns@.take(i + 1).contains(c) by {
                if sorted@.contains(c) {
                    let k = choose|k: int| 0 <= k < sorted@.len() && sorted@[k] == c;
                    if k < p {
                        assert(before[k] == c);
                        assert(before.contains(c));
                    } else if k > p {
                        assert(before[k - 1] == c);
                        assert(before.contains(c));
                    } else {
                        assert(columns@.take(i + 1)[i as int] == c);
                    }
                }
                if columns@.take(i + 1).contains(c) {
                    if c == x {
                        assert(sorted@[p as int] == x);
                    } else {
                        assert(columns@.take(i as int).contains(c)) by {
                            let k = choose|k: int| 0 <= k < i + 1 && #[trigger] columns@.take(i + 1)[k] == c;
                            assert(k < i);
                            assert(columns@.take(i as int)[k] == c);
                        }
                        assert(before.contains(c));
                        let k = choose|k: int| 0 <= k < before.len() && before[k] == c;
                        if k < p {
                            assert(sorted@[k] == c);
                        } else {
                            assert(sorted@[k + 1] == c);
                        }
                    }
                }
            }
        }
        i = i + 1;
    }
    proof {
        assert(columns@.take(i as int) =~= columns@);
    }
    sorted
}

/// The tallest column among `columns`.
fn tallest_of(table: &Vec<Option<i64>>, columns: &Vec<usize>) -> (tallest: i64)
    requires
        forall|k: int| 0 <= k < columns@.len() ==> spec_node(table@, #[trigger] columns@[k] as int),
    ensures
        tallest == spec_tallest(table@, columns@),
{
    let mut tallest: i64 = 0;
    let mut k: usize = 0;
    while k < columns.len()
        invariant
            k <= columns@.len(),
            forall|j: int| 0 <= j < columns@.len() ==> spec_node(table@, #[trigger] columns@[j] as int),
            tallest == spec_tallest(table@, columns@.take(k as int)),
        decreases columns@.len() - k,
    {
        proof {
            assert(columns@.take(k + 1).drop_last() =~= columns@.take(k as int));
            assert(spec_node(table@, columns@[k as int] as int));
        }
        let height = match table[columns[k]] {
            Some(height) => height,
            None => 0,
        };
        if height > tallest {
            tallest = height;
        }
        k = k + 1;
    }
    proof {
        assert(columns@.take(k as int) =~= columns@);
    }
    tallest
}

proof fn lemma_mass_first(s: int, seen_before: Seq<usize>, group: Seq<usize>, sorted: Seq<usize>)
    requires
        group.contains(s as usize),
        0 <= s <= usize::MAX,
        forall|c: usize| #[trigger] group.contains(c) ==> c >= s,
        spec_ascending(sorted),
        forall|c: usize| #[trigger] sorted.contains(c) <==> group.contains(c),
    ensures
        sorted.len() > 0,
        sorted[0] == s,
{
    assert(sorted.contains(s as usize));
    let j = choose|j: int| 0 <= j < sorted.len() && sorted[j] == s as usize;
    assert(sorted.contains(sorted[0]));
    if j > 0 {
        assert(sorted[0] < sorted[j]);
    }
}

/// The separate masses of a footprint whose column table is `table`, `sx`
/// columns to a row: every grounded column lies in exactly one mass, a mass
/// is connected and takes in every grounded column touching it, each lists
/// its columns in ascending order with its tallest column height, and the
/// masses come in the order of their first column.
pub fn masses_of(table: &Vec<Option<i64>>, sx: usize) -> (masses: Vec<GroundedMass>)
    requires
        sx > 0,
    ensures
        spec_masses(table@, sx as int, masses@),
{
    let ghost t = table@;
    let ghost w = sx as int;
    let n = table.len();
    let mut seen: Vec<bool> = Vec::new();
    let mut fill: usize = 0;
    while fill < n
        invariant
            fill <= n,
            seen@.len() == fill,
            forall|i: int| 0 <= i < fill ==> !seen@[i],
        decreases n - fill,
    {
        seen.push(false);
        fill = fill + 1;
    }
    let ghost mut seen_list: Seq<usize> = Seq::empty();
    let ghost mut orders: Seq<Seq<usize>> = Seq::empty();
    let mut masses: Vec<GroundedMass> = Vec::new();
    let mut s: usize = 0;
    while s < n
        invariant
            sx > 0,
            t == table@,
            w == sx as int,
            n == t.len(),
            s <= n,
            seen@.len() == n,
            forall|i: int| 0 <= i < n ==> seen@[i] == seen_list.contains(i as usize),
            masses@.len() == orders.len(),
            forall|g: int|
                0 <= g < masses@.len() ==> (#[trigger] masses@[g]).columns@.len() > 0 && spec_ascending(
                    masses@[g].columns@,
                ) && masses@[g].height == spec_tallest(t, masses@[g].columns@),
            forall|g: int| 0 <= g < masses@.len() ==> spec_chained(t, w, #[trigger] orders[g]),
            forall|g: int, c: usize|
                0 <= g < masses@.len() ==> (#[trigger] orders[g].contains(c) <==> masses@[g].columns@.contains(c)),
            forall|g: int, c: usize|
                0 <= g < masses@.len() && #[trigger] masses@[g].columns@.contains(c) ==> spec_node(t, c as int),
            forall|g: int, c: usize, d: usize|
                0 <= g < masses@.len() && #[trigger] masses@[g].columns@.contains(c) && #[trigger] spec_link(
                    t,
                    w,
                    c as int,
                    d as int,
                ) ==> masses@[g].columns@.contains(d),
            forall|c: usize|
                #[trigger] seen_list.contains(c) <==> exists|g: int|
                    0 <= g < masses@.len() && #[trigger] masses@[g].columns@.contains(c),
            forall|g: int, h: int, c: usize|
                0 <= g < masses@.len() && 0 <= h < masses@.len() && g != h
                    && #[trigger] masses@[g].columns@.contains(c) ==> !#[trigger] masses@[h].columns@.contains(c),
            forall|i: int| 0 <= i < s && spec_node(t, i) ==> #[trigger] seen_list.contains(i as usize),
            forall|g: int| 0 <= g < masses@.len() ==> (#[trigger] masses@[g]).columns@[0] < s,
            forall|g: int, h: int|
                0 <= g < h < masses@.len() ==> (#[trigger] masses@[g]).columns@[0]
                    < (#[trigger] masses@[h]).columns@[0],
        decreases n - s,
    {
        if seen[s] || table[s].is_none() {
            proof {
                assert forall|i: int| 0 <= i < s + 1 && spec_node(t, i) implies #[trigger] seen_list.contains(
                    i as usize,
                ) by {
                    if i == s as int {
                        assert(seen@[i] == seen_list.contains(i as usize));
                    }
                }
            }
            s = s + 1;
            continue;
        }
        let ghost seen_before = seen_list;
        proof {
            assert(!seen_before.contains(s)) by {
                assert(seen@[s as int] == seen_list.contains(s));
            }
            assert forall|c: usize, d: usize|
                #[trigger] seen_before.contains(c) && #[trigger] spec_link(t, w, c as int, d as int)
                    implies seen_before.contains(d) by {
                let g = choose|g: int| 0 <= g < masses@.len() && #[trigger] masses@[g].columns@.contains(c);
                assert(masses@[g].columns@.contains(d));
            }
        }
        let grown = grow_mass(table, sx, s, &mut seen, Ghost(seen_list));
        let group = grown.0;
        proof {
            seen_list = grown.1@;
            assert forall|c: usize, d: usize|
                #[trigger] group@.contains(c) && #[trigger] spec_link(t, w, c as int, d as int)
                    implies group@.contains(d) by {
                lemma_mass_closed_one(t, w, seen_before, s, seen_list, group@, c, d);
            }
            reveal(mass_shape);
            assert forall|c: usize| #[trigger] group@.contains(c) implies c >= s by {
                if c < s {
                    assert(spec_node(t, c as int));
                    assert(seen_before.contains(c as usize));
                }
            }
            assert(group@.contains(s)) by {
                assert(group@[0] == s);
            }
        }
        let columns = sort_columns(&group);
        proof {
            lemma_mass_first(s as int, seen_before, group@, columns@);
            assert forall|k: int| 0 <= k < columns@.len() implies spec_node(t, #[trigger] columns@[k] as int) by {
                assert(columns@.contains(columns@[k]));
            }
        }
        let height = tallest_of(table, &columns);
        let ghost old_masses = masses@;
        masses.push(GroundedMass { columns, height });
        proof {
            let m = old_masses.len() as int;
            assert(masses@[m].columns@ == columns@);
            assert forall|g: int| 0 <= g < m implies #[trigger] masses@[g] == old_masses[g] by {}
            orders = orders.push(group@);
            assert forall|c: usize| #[trigger] seen_before.contains(c) implies seen_list.contains(c) by {
                let j = choose|j: int| 0 <= j < seen_before.len() && seen_before[j] == c;
                assert(seen_list[j] == c);
            }
            assert forall|c: usize| #[trigger] group@.contains(c) implies seen_list.contains(c) by {
                let j = choose|j: int| 0 <= j < group@.len() && group@[j] == c;
                assert(seen_list[seen_before.len() + j] == c);
            }
            assert forall|c: usize| #[trigger] seen_list.contains(c) <==> exists|g: int|
                0 <= g < masses@.len() && #[trigger] masses@[g].columns@.contains(c) by {
                if seen_list.contains(c) {
                    let j = choose|j: int| 0 <= j < seen_list.len() && seen_list[j] == c;
                    if j < seen_before.len() {
                        assert(seen_before[j] == c);
                        assert(seen_before.contains(c));
                        let g = choose|g: int| 0 <= g < old_masses.len() && #[trigger] old_masses[g].columns@.contains(c);
                        assert(masses@[g].columns@.contains(c));
                    } else {
                        assert(group@[j - seen_before.len()] == c);
                        assert(group@.contains(c));
                        assert(masses@[m].columns@.contains(c));
                    }
                }
                if exists|g: int| 0 <= g < masses@.len() && #[trigger] masses@[g].columns@.contains(c) {
                    let g = choose|g: int| 0 <= g < masses@.len() && #[trigger] masses@[g].columns@.contains(c);
                    if g < m {
                        assert(old_masses[g].columns@.contains(c));
                        assert(seen_before.contains(c));
                    } else {
                        assert(group@.contains(c));
                    }
                }
            }
            assert forall|g: int, h: int, c: usize|
                0 <= g < masses@.len() && 0 <= h < masses@.len() && g != h
                    && #[trigger] masses@[g].columns@.contains(c) implies !#[trigger] masses@[h].columns@.contains(c) by {
                if g == m {
                    assert(group@.contains(c));
                    if masses@[h].columns@.contains(c) {
                        assert(old_masses[h].columns@.contains(c));
                        assert(seen_before.contains(c));
                    }
                } else if h == m {
                    assert(old_masses[g].columns@.contains(c));
                    assert(seen_before.contains(c));
                } else {
                    assert(old_masses[g].columns@.contains(c));
                }
            }
            assert forall|i: int| 0 <= i < s + 1 && spec_node(t, i) implies #[trigger] seen_list.contains(i as usize) by {
                if i < s {
                    assert(seen_before.contains(i as usize));
                } else {
                    assert(group@.contains(s));
                }
            }
            assert forall|g: int, c: usize, d: usize|
                0 <= g < masses@.len() && #[trigger] masses@[g].columns@.contains(c) && #[trigger] spec_link(
                    t,
                    w,
                    c as int,
                    d as int,
                ) implies masses@[g].columns@.contains(d) by {
                if g == m {
                    assert(group@.contains(c));
                    assert(group@.contains(d));
                } else {
                    assert(old_masses[g].columns@.contains(c));
                }
            }
            assert forall|g: int, c: usize|
                0 <= g < masses@.len() implies (#[trigger] orders[g].contains(c) <==> masses@[g].columns@.contains(c)) by {
                if g < m {
                    assert(old_masses[g] == masses@[g]);
                }
            }
        }
        s = s + 1;
    }
    proof {
        assert forall|c: usize| spec_node(t, c as int) implies exists|g: int|
            0 <= g < masses@.len() && #[trigger] masses@[g].columns@.contains(c) by {
            let i: int = c as int;
            assert(0 <= i < s && spec_node(t, i));
            assert(seen_list.contains(i as usize));
            assert(i as usize == c);
            assert(seen_list.contains(c));
        }
        assert forall|g: int| 0 <= g < masses@.len() implies spec_one_mass(t, w, #[trigger] masses@[g].columns@) by {
            assert(spec_chained(t, w, orders[g]));
            assert(forall|c: usize| #[trigger] orders[g].contains(c) <==> masses@[g].columns@.contains(c));
        }
    }
    masses
}

} // verus!

use vstd::prelude::*;

verus! {

// Intersections are handed to this module as two parallel pieces of data:
// the ray parameter `t` of each one, as an order key, and the object that
// the ray meets there, as an index into the scene's list of objects.
//
// An order key is an integer that orders as the ray parameter does, with the
// non-negative parameters mapped to exactly the non-negative keys.

/// Whether `i` is the index of the visible intersection: the first of those
/// with the smallest non-negative key.
pub open spec fn is_hit(ts: Seq<i64>, i: int) -> bool {
    &&& 0 <= i < ts.len()
    &&& ts[i] >= 0
    &&& forall|j: int| 0 <= j < ts.len() && ts[j] >= 0 ==> ts[i] <= #[trigger] ts[j]
    &&& forall|j: int| 0 <= j < i && ts[j] >= 0 ==> ts[i] < #[trigger] ts[j]
}

/// Whether any intersection lies at or in front of the ray's origin.
pub open spec fn any_ahead(ts: Seq<i64>) -> bool {
    exists|j: int| 0 <= j < ts.len() && #[trigger] ts[j] >= 0
}

/// Selects the visible intersection: the one with the smallest non-negative
/// ray parameter. Among several with that same parameter the first in the
/// list is taken. Returns `None` where every parameter is negative.
pub fn hit(ts: &Vec<i64>) -> (r: Option<usize>)
    ensures
        r.is_none() <==> !any_ahead(ts@),
        r matches Some(i) ==> is_hit(ts@, i as int),
{
    let mut best: Option<usize> = None;
    let mut j: usize = 0;
    while j < ts.len()
        invariant
            j <= ts.len(),
            best.is_none() <==> forall|k: int| 0 <= k < j ==> #[trigger] ts@[k] < 0,
            best matches Some(b) ==> {
                &&& b < j
                &&& ts@[b as int] >= 0
                &&& forall|k: int| 0 <= k < j && ts@[k] >= 0 ==> ts@[b as int] <= #[trigger] ts@[k]
                &&& forall|k: int| 0 <= k < b && ts@[k] >= 0 ==> ts@[b as int] < #[trigger] ts@[k]
            },
        decreases ts.len() - j,
    {
        let t = ts[j];
        if t >= 0 {
            match best {
                None => {
                    best = Some(j);
                },
                Some(b) => {
                    if t < ts[b] {
                        best = Some(j);
                    }
                },
            }
        }
        j = j + 1;
    }
    best
}

/// Whether something blocks the way from a point to a light `distance` away:
/// `ts` are the intersections of the ray cast from the point toward the
/// light, and the nearest one ahead of the point lies short of the light.
pub fn is_shadowed(ts: &Vec<i64>, distance: i64) -> (r: bool)
    ensures
        r <==> exists|j: int| 0 <= j < ts@.len() && 0 <= #[trigger] ts@[j] < distance,
{
    match hit(ts) {
        None => false,
        Some(h) => ts[h] < distance,
    }
}

/// The objects that enclose a point after the ray has crossed, in order, the
/// surfaces of `objects`: entering an object puts it on top, leaving it takes
/// it out wherever it stands.
pub open spec fn containers(objects: Seq<usize>) -> Seq<usize>
    decreases objects.len(),
{
    if objects.len() == 0 {
        Seq::empty()
    } else {
        toggled(containers(objects.drop_last()), objects.last())
    }
}

/// `stack` after the ray crosses a surface of object `o`.
pub open spec fn toggled(stack: Seq<usize>, o: usize) -> Seq<usize> {
    if stack.contains(o) {
        stack.remove_value(o)
    } else {
        stack.push(o)
    }
}

/// The innermost of the enclosing objects, if any.
pub open spec fn innermost(stack: Seq<usize>) -> Option<usize> {
    if stack.len() == 0 {
        None
    } else {
        Some(stack.last())
    }
}

/// An object encloses the ray at most once, however its surfaces are crossed.
pub proof fn lemma_containers_unique(objects: Seq<usize>)
    ensures
        containers(objects).no_duplicates(),
    decreases objects.len(),
{
    if objects.len() > 0 {
        let before = containers(objects.drop_last());
        let o = objects.last();
        lemma_containers_unique(objects.drop_last());
        if before.contains(o) {
            before.index_of_first_ensures(o);
            let i = before.index_of_first(o).unwrap();
            let after = before.remove(i);
            assert forall|a: int, b: int|
                0 <= a < after.len() && 0 <= b < after.len() && a != b implies after[a]
                != after[b] by {
                let a0 = if a < i {
                    a
                } else {
                    a + 1
                };
                let b0 = if b < i {
                    b
                } else {
                    b + 1
                };
                assert(after[a] == before[a0]);
                assert(after[b] == before[b0]);
            }
        } else {
            let after = before.push(o);
            assert forall|a: int, b: int|
                0 <= a < after.len() && 0 <= b < after.len() && a != b implies after[a]
                != after[b] by {
                if a == before.len() as int {
                    assert(!before.contains(o));
                    assert(before[b] != o);
                } else if b == before.len() as int {
                    assert(!before.contains(o));
                    assert(before[a] != o);
                }
            }
        }
    }
}

/// Crossing a surface of `o`: takes `o` out where it stands, else pushes it.
fn toggle(stack: &mut Vec<usize>, o: usize)
    ensures
        final(stack)@ == toggled(old(stack)@, o),
{
    let mut j: usize = 0;
    while j < stack.len()
        invariant
            j <= stack.len(),
            stack@ == old(stack)@,
            forall|k: int| 0 <= k < j ==> #[trigger] stack@[k] != o,
        decreases stack.len() - j,
    {
        if stack[j] == o {
            proof {
                let s = stack@;
                s.index_of_first_ensures(o);
                assert(s.contains(o));
                let f = s.index_of_first(o).unwrap();
                assert(f == j as int) by {
                    if f < j as int {
                        assert(s[f] != o);
                    } else if f > j as int {
                        assert(s[j as int] != o);
                    }
                };
                assert(s.remove_value(o) == s.remove(j as int));
            }
            stack.remove(j);
            return;
        }
        j = j + 1;
    }
    proof {
        assert(!stack@.contains(o));
    }
    stack.push(o);
}

/// The innermost object of `stack`.
fn top(stack: &Vec<usize>) -> (r: Option<usize>)
    ensures
        r == innermost(stack@),
{
    if stack.len() == 0 {
        None
    } else {
        Some(stack[stack.len() - 1])
    }
}

/// The media on either side of the surface at intersection `hit`, for the
/// intersections of one ray in ascending order, given as the objects that
/// they belong to. The first is the medium the ray leaves, the second the
/// one it enters; `None` stands for empty space.
pub fn refraction_media(objects: &Vec<usize>, hit: usize) -> (r: (Option<usize>, Option<usize>))
    requires
        hit < objects@.len(),
    ensures
        r.0 == innermost(containers(objects@.take(hit as int))),
        r.1 == innermost(containers(objects@.take(hit as int + 1))),
{
    let mut stack: Vec<usize> = Vec::new();
    let mut i: usize = 0;
    proof {
        assert(objects@.take(0) =~= Seq::<usize>::empty());
    }
    while i < hit
        invariant
            i <= hit < objects@.len(),
            stack@ == containers(objects@.take(i as int)),
        decreases hit - i,
    {
        toggle(&mut stack, objects[i]);
        proof {
            assert(objects@.take(i as int + 1).drop_last() =~= objects@.take(i as int));
        }
        i = i + 1;
    }
    let leaving = top(&stack);
    toggle(&mut stack, objects[hit]);
    proof {
        assert(objects@.take(hit as int + 1).drop_last() =~= objects@.take(hit as int));
    }
    let entering = top(&stack);
    (leaving, entering)
}


/// `order` lists each index of `ts` exactly once, by ascending key; indices
/// with equal keys keep their relative order.
pub open spec fn sorts(ts: Seq<i64>, order: Seq<usize>) -> bool {
    &&& order.len() == ts.len()
    &&& order.no_duplicates()
    &&& forall|a: int| 0 <= a < order.len() ==> #[trigger] order[a] < ts.len()
    &&& forall|a: int, b: int|
        0 <= a < b < order.len() ==> {
            ||| ts[order[a] as int] < ts[order[b] as int]
            ||| (ts[order[a] as int] == ts[order[b] as int] && order[a] < order[b])
        }
}

/// The order in which to walk the intersections `ts` so that their keys
/// ascend, as a list of their indices. Intersections with equal keys keep
/// the order in which they were given.
pub fn sorted_order(ts: &Vec<i64>) -> (order: Vec<usize>)
    ensures
        sorts(ts@, order@),
{
    let mut order: Vec<usize> = Vec::new();
    let mut i: usize = 0;
    while i < ts.len()
        invariant
            i <= ts@.len(),
            order@.len() == i,
            order@.no_duplicates(),
            forall|a: int| 0 <= a < order@.len() ==> #[trigger] order@[a] < i,
            forall|a: int, b: int|
                0 <= a < b < order@.len() ==> {
                    ||| ts@[order@[a] as int] < ts@[order@[b] as int]
                    ||| (ts@[order@[a] as int] == ts@[order@[b] as int] && order@[a] < order@[b])
                },
        decreases ts.len() - i,
    {
        let t = ts[i];
        let mut p: usize = 0;
        while p < order.len() && ts[order[p]] <= t
            invariant
                p <= order@.len(),
                order@.len() == i,
                i < ts@.len(),
                t == ts@[i as int],
                forall|a: int| 0 <= a < order@.len() ==> #[trigger] order@[a] < i,
                forall|a: int| 0 <= a < p ==> ts@[#[trigger] order@[a] as int] <= t,
            decreases order@.len() - p,
        {
            p = p + 1;
        }
        let ghost before = order@;
        proof {
            assert forall|a: int| p <= a < before.len() implies t < ts@[#[trigger] before[a] as int] by {
                if p < before.len() {
                    assert(t < ts@[before[p as int] as int]);
                    if a > p {
                        assert(ts@[before[p as int] as int] <= ts@[before[a] as int]);
                    }
                }
            }
        }
        order.insert(p, i);
        proof {
            let after = order@;
            assert(after =~= before.insert(p as int, i));
            assert forall|a: int| 0 <= a < after.len() implies #[trigger] after[a] < i + 1 by {
                if a < p {
                    assert(after[a] == before[a]);
                } else if a > p {
                    assert(after[a] == before[a - 1]);
                }
            }
            assert forall|a: int, b: int| 0 <= a < after.len() && 0 <= b < after.len() && a != b implies after[a] != after[b] by {
                if a != p && b != p {
                    let a0 = if a < p { a } else { a - 1 };
                    let b0 = if b < p { b } else { b - 1 };
                    assert(after[a] == before[a0]);
                    assert(after[b] == before[b0]);
                } else if a == p {
                    let b0 = if b < p { b } else { b - 1 };
                    assert(after[b] == before[b0]);
                } else {
                    let a0 = if a < p { a } else { a - 1 };
                    assert(after[a] == before[a0]);
                }
            }
            assert forall|a: int, b: int| 0 <= a < b < after.len() implies {
                ||| ts@[after[a] as int] < ts@[after[b] as int]
                ||| (ts@[after[a] as int] == ts@[after[b] as int] && after[a] < after[b])
            } by {
                if b < p {
                    assert(after[a] == before[a] && after[b] == before[b]);
                } else if b == p {
                    assert(after[a] == before[a]);
                    assert(ts@[before[a] as int] <= t);
                } else if a == p {
                    assert(after[b] == before[b - 1]);
                    assert(t < ts@[before[b - 1] as int]);
                } else if a < p {
                    assert(after[a] == before[a] && after[b] == before[b - 1]);
                } else {
                    assert(after[a] == before[a - 1] && after[b] == before[b - 1]);
                }
            }
        }
        i = i + 1;
    }
    order
}

} // verus!

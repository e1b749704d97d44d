//! A stable sort by keys that are sequences of numbers.
use vstd::prelude::*;

verus! {

/// Whether `a` comes before `b` in lexicographic order, or is the same.
pub open spec fn key_le(a: Seq<u32>, b: Seq<u32>) -> bool
    decreases a.len(),
{
    if a.len() == 0 {
        true
    } else if b.len() == 0 {
        false
    } else {
        a[0] < b[0] || (a[0] == b[0] && key_le(a.drop_first(), b.drop_first()))
    }
}

/// Whether the item at `i`, with key `a`, comes before the item at `j`, with key `b`: by key, and
/// by position where the keys are the same.
pub open spec fn comes_before(a: Seq<u32>, i: int, b: Seq<u32>, j: int) -> bool {
    key_le(a, b) && (a == b ==> i < j)
}

/// Whether `p` names every position of `keys` once, in the order in which a stable sort by these
/// keys puts them.
pub open spec fn stable_order(keys: Seq<Seq<u32>>, p: Seq<int>) -> bool {
    &&& p.len() == keys.len()
    &&& p.no_duplicates()
    &&& forall|i: int| 0 <= i < p.len() ==> 0 <= #[trigger] p[i] < keys.len()
    &&& forall|i: int, j: int|
        #![trigger p[i], p[j]]
        0 <= i < j < p.len() ==> comes_before(keys[p[i]], p[i], keys[p[j]], p[j])
}

/// Whether `output` is `input`, sorted stably by `keys`.
pub open spec fn sorted_by<A>(input: Seq<A>, keys: Seq<Seq<u32>>, output: Seq<A>) -> bool {
    exists|p: Seq<int>|
        #[trigger] stable_order(keys, p) && output == p.map_values(|i: int| input[i])
}

/// The order of keys is reflexive.
pub proof fn lemma_key_le_same(a: Seq<u32>)
    ensures
        key_le(a, a),
    decreases a.len(),
{
    if a.len() > 0 {
        lemma_key_le_same(a.drop_first());
    }
}

/// The order of keys is total.
pub proof fn lemma_key_le_total(a: Seq<u32>, b: Seq<u32>)
    ensures
        key_le(a, b) || key_le(b, a),
    decreases a.len(),
{
    if a.len() > 0 && b.len() > 0 {
        lemma_key_le_total(a.drop_first(), b.drop_first());
    }
}

/// The order of keys is transitive.
pub proof fn lemma_key_le_through(a: Seq<u32>, b: Seq<u32>, c: Seq<u32>)
    requires
        key_le(a, b),
        key_le(b, c),
    ensures
        key_le(a, c),
    decreases a.len(),
{
    if a.len() > 0 && a[0] == b[0] && b[0] == c[0] {
        lemma_key_le_through(a.drop_first(), b.drop_first(), c.drop_first());
    }
}

/// Two keys that come before one another are the same.
pub proof fn lemma_key_le_both(a: Seq<u32>, b: Seq<u32>)
    requires
        key_le(a, b),
        key_le(b, a),
    ensures
        a == b,
    decreases a.len(),
{
    if a.len() > 0 && b.len() > 0 {
        lemma_key_le_both(a.drop_first(), b.drop_first());
        assert(a =~= seq![a[0]] + a.drop_first());
        assert(b =~= seq![b[0]] + b.drop_first());
    } else {
        assert(a =~= b);
    }
}

/// Whether `a` comes before `b`, or is the same.
fn compare_keys(a: &Vec<u32>, b: &Vec<u32>) -> (le: bool)
    ensures
        le == key_le(a@, b@),
{
    let mut i: usize = 0;
    assert(a@.skip(0) =~= a@);
    assert(b@.skip(0) =~= b@);
    while i < a.len() && i < b.len()
        invariant
            i <= a@.len(),
            i <= b@.len(),
            key_le(a@, b@) == key_le(a@.skip(i as int), b@.skip(i as int)),
        decreases a@.len() - i,
    {
        if a[i] != b[i] {
            return a[i] < b[i];
        }
        assert(a@.skip(i as int).drop_first() =~= a@.skip(i + 1));
        assert(b@.skip(i as int).drop_first() =~= b@.skip(i + 1));
        i = i + 1;
    }
    i == a.len()
}

/// The keys of a list of keys.
pub open spec fn key_views(keys: Seq<Vec<u32>>) -> Seq<Seq<u32>> {
    keys.map_values(|k: Vec<u32>| k@)
}

/// `items`, sorted stably by their `keys`.
pub fn stable_sort<T>(items: Vec<T>, keys: Vec<Vec<u32>>) -> (sorted: Vec<T>)
    requires
        items@.len() == keys@.len(),
    ensures
        sorted_by(items@, key_views(keys@), sorted@),
{
    let ghost input = items@;
    let ghost all = key_views(keys@);
    let ghost mut p: Seq<int> = Seq::empty();
    let mut items = items;
    let mut keys = keys;
    let mut sorted: Vec<T> = Vec::new();
    let mut sorted_keys: Vec<Vec<u32>> = Vec::new();
    while items.len() > 0
        invariant
            input.len() == all.len(),
            items@.len() == keys@.len(),
            items@.len() <= input.len(),
            items@ == input.take(items@.len() as int),
            key_views(keys@) == all.take(items@.len() as int),
            p.len() == input.len() - items@.len(),
            sorted@.len() == p.len(),
            sorted_keys@.len() == p.len(),
            p.no_duplicates(),
            forall|i: int| 0 <= i < p.len() ==> items@.len() <= #[trigger] p[i] < input.len(),
            forall|i: int| 0 <= i < p.len() ==> sorted@[i] == input[#[trigger] p[i]],
            forall|i: int| 0 <= i < p.len() ==> sorted_keys@[i]@ == all[#[trigger] p[i]],
            forall|i: int, j: int|
                #![trigger p[i], p[j]]
                0 <= i < j < p.len() ==> comes_before(all[p[i]], p[i], all[p[j]], p[j]),
        decreases items@.len(),
    {
        let ghost last = items@.len() - 1;
        let item = items.pop().unwrap();
        let key = keys.pop().unwrap();
        proof {
            assert(item == input[last]);
            assert(key@ == all[last]) by {
                assert(all.take(last + 1)[last] == all[last]);
            }
            assert(items@ =~= input.take(last));
            assert(key_views(keys@) =~= all.take(last)) by {
                assert forall|i: int| 0 <= i < last implies key_views(keys@)[i] == all.take(last)[i] by {
                    assert(all.take(last + 1)[i] == all[i]);
                }
            }
        }
        let mut at: usize = 0;
        while at < sorted_keys.len() && !compare_keys(&key, &sorted_keys[at])
            invariant
                at <= sorted_keys@.len(),
                forall|i: int| 0 <= i < at ==> !key_le(key@, #[trigger] sorted_keys@[i]@),
            decreases sorted_keys@.len() - at,
        {
            at = at + 1;
        }
        let ghost q = p.insert(at as int, last);
        proof {
            assert forall|i: int, j: int|
                #![trigger q[i], q[j]]
                0 <= i < j < q.len() implies comes_before(all[q[i]], q[i], all[q[j]], q[j]) by {
                let i0 = if i < at {
                    i
                } else {
                    i - 1
                };
                let j0 = if j < at {
                    j
                } else {
                    j - 1
                };
                if i != at {
                    assert(q[i] == p[i0]);
                }
                if j != at {
                    assert(q[j] == p[j0]);
                }
                if i == at {
                    assert(key_le(key@, sorted_keys@[at as int]@));
                    assert(sorted_keys@[at as int]@ == all[p[at as int]]);
                    if j0 > at {
                        assert(comes_before(all[p[at as int]], p[at as int], all[p[j0]], p[j0]));
                        lemma_key_le_through(key@, all[p[at as int]], all[p[j0]]);
                    }
                } else if j == at {
                    assert(!key_le(key@, sorted_keys@[i]@));
                    assert(sorted_keys@[i]@ == all[p[i]]);
                    lemma_key_le_total(key@, all[p[i]]);
                    lemma_key_le_same(key@);
                } else {
                    assert(comes_before(all[p[i0]], p[i0], all[p[j0]], p[j0]));
                }
            }
            assert(q.no_duplicates()) by {
                assert forall|i: int, j: int| 0 <= i < q.len() && 0 <= j < q.len() && i != j implies q[i]
                    != q[j] by {
                    let i0 = if i < at {
                        i
                    } else {
                        i - 1
                    };
                    let j0 = if j < at {
                        j
                    } else {
                        j - 1
                    };
                    if i != at {
                        assert(q[i] == p[i0]);
                    }
                    if j != at {
                        assert(q[j] == p[j0]);
                    }
                }
            }
        }
        sorted.insert(at, item);
        sorted_keys.insert(at, key);
        proof {
            assert forall|i: int| 0 <= i < q.len() implies {
                &&& last <= #[trigger] q[i] < input.len()
                &&& sorted@[i] == input[q[i]]
                &&& sorted_keys@[i]@ == all[q[i]]
            } by {
                if i < at {
                    assert(q[i] == p[i]);
                } else if i > at {
                    assert(q[i] == p[i - 1]);
                }
            }
            p = q;
        }
    }
    assert(stable_order(all, p));
    assert(sorted@ =~= p.map_values(|i: int| input[i]));
    sorted
}

} // verus!

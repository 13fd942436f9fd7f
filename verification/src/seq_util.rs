//! Small helpers on sequences and vectors shared across the engine.

use vstd::prelude::*;

verus! {

/// Taking one more element adds exactly that element to the prefix's set.
pub proof fn lemma_take_to_set_step<T>(s: Seq<T>, i: int)
    requires
        0 <= i < s.len(),
    ensures
        s.take(i + 1).to_set() =~= s.take(i).to_set().insert(s[i]),
{
    let longer = s.take(i + 1);
    let prefix = s.take(i);
    assert forall|x: T| longer.to_set().contains(x) implies prefix.to_set().insert(s[i]).contains(
        x,
    ) by {
        let j = choose|j: int| 0 <= j < longer.len() && longer[j] == x;
        if j < i {
            assert(prefix[j] == x);
        }
    }
    assert forall|x: T| prefix.to_set().insert(s[i]).contains(x) implies longer.to_set().contains(
        x,
    ) by {
        if prefix.to_set().contains(x) {
            let j = choose|j: int| 0 <= j < prefix.len() && prefix[j] == x;
            assert(longer[j] == x);
        } else {
            assert(longer[i] == x);
        }
    }
}

/// The whole sequence is its own full prefix.
pub proof fn lemma_take_full<T>(s: Seq<T>)
    ensures
        s.take(s.len() as int) =~= s,
{
}

/// Appending an element adds exactly it to the sequence's set.
pub proof fn lemma_push_to_set<T>(s: Seq<T>, x: T)
    ensures
        s.push(x).to_set() =~= s.to_set().insert(x),
{
    let p = s.push(x);
    assert(p.take(p.len() - 1) =~= s);
    lemma_take_to_set_step(p, p.len() - 1);
    lemma_take_full(p);
    assert(p[p.len() - 1] == x);
}

/// Whether a vector of pairs holds the given pair.
pub fn pair_vec_contains(v: &Vec<(usize, usize)>, x: (usize, usize)) -> (r: bool)
    ensures
        r == v@.contains(x),
{
    let mut i: usize = 0;
    while i < v.len()
        invariant
            0 <= i <= v@.len(),
            forall|j: int| 0 <= j < i ==> v@[j] != x,
        decreases v@.len() - i,
    {
        if v[i].0 == x.0 && v[i].1 == x.1 {
            assert(v@[i as int] == x);
            return true;
        }
        i = i + 1;
    }
    proof {
        if v@.contains(x) {
            let j = choose|j: int| 0 <= j < v@.len() && v@[j] == x;
            assert(v@[j] != x);
        }
    }
    false
}

/// Whether a vector of ids holds the given id.
pub fn id_vec_contains(v: &Vec<usize>, x: usize) -> (r: bool)
    ensures
        r == v@.contains(x),
{
    let mut i: usize = 0;
    while i < v.len()
        invariant
            0 <= i <= v@.len(),
            forall|j: int| 0 <= j < i ==> v@[j] != x,
        decreases v@.len() - i,
    {
        if v[i] == x {
            assert(v@[i as int] == x);
            return true;
        }
        i = i + 1;
    }
    proof {
        if v@.contains(x) {
            let j = choose|j: int| 0 <= j < v@.len() && v@[j] == x;
            assert(v@[j] != x);
        }
    }
    false
}

/// Append `x` unless it is already present, keeping the list duplicate-free.
pub fn push_unique(v: &mut Vec<usize>, x: usize)
    requires
        old(v)@.no_duplicates(),
    ensures
        final(v)@.no_duplicates(),
        final(v)@.to_set() == old(v)@.to_set().insert(x),
        old(v)@.is_prefix_of(final(v)@),
{
    let ghost prev_seq = v@;
    if !id_vec_contains(v, x) {
        v.push(x);
        proof {
            lemma_push_to_set(prev_seq, x);
            assert forall|p: int, q: int| 0 <= p < q < v@.len() implies v@[p] != v@[q] by {
                if q == v@.len() - 1 {
                    if v@[p] == x {
                        assert(prev_seq[p] == x);
                        assert(prev_seq.contains(x));
                    }
                }
            }
        }
    } else {
        proof {
            assert(prev_seq.to_set().insert(x) =~= prev_seq.to_set());
        }
    }
}

/// Whether a pair list holds no duplicate pairs.
#[verifier::loop_isolation(false)]
pub fn pairs_unique(v: &Vec<(usize, usize)>) -> (r: bool)
    ensures
        r == v@.no_duplicates(),
{
    let mut i: usize = 0;
    while i < v.len()
        invariant
            0 <= i <= v@.len(),
            forall|p: int, q: int| 0 <= p < q < i ==> v@[p] != v@[q],
        decreases v@.len() - i,
    {
        let mut j: usize = 0;
        while j < i
            invariant
                0 <= j <= i < v@.len(),
                forall|p: int| 0 <= p < j ==> v@[p] != v@[i as int],
            decreases i - j,
        {
            if v[j].0 == v[i].0 && v[j].1 == v[i].1 {
                proof {
                    assert(v@[j as int] == v@[i as int]);
                }
                return false;
            }
            j = j + 1;
        }
        i = i + 1;
    }
    true
}

/// An owned copy of a pair list.
pub fn copy_pairs(v: &Vec<(usize, usize)>) -> (r: Vec<(usize, usize)>)
    ensures
        r@ == v@,
{
    let mut r: Vec<(usize, usize)> = Vec::new();
    let mut i: usize = 0;
    while i < v.len()
        invariant
            0 <= i <= v@.len(),
            r@ == v@.take(i as int),
        decreases v@.len() - i,
    {
        r.push(v[i]);
        proof {
            assert(v@.take(i as int + 1) =~= v@.take(i as int).push(v@[i as int]));
        }
        i = i + 1;
    }
    proof {
        lemma_take_full(v@);
    }
    r
}

/// Copy of a pair list with duplicates dropped, keeping first occurrences.
pub fn dedup_pairs(v: &Vec<(usize, usize)>) -> (r: Vec<(usize, usize)>)
    ensures
        r@.no_duplicates(),
        r@.to_set() == v@.to_set(),
{
    let mut r: Vec<(usize, usize)> = Vec::new();
    let mut i: usize = 0;
    proof {
        assert(r@.to_set() =~= v@.take(0).to_set());
    }
    while i < v.len()
        invariant
            0 <= i <= v@.len(),
            r@.no_duplicates(),
            r@.to_set() == v@.take(i as int).to_set(),
        decreases v@.len() - i,
    {
        let e = v[i];
        let ghost prev_seq = r@;
        if !pair_vec_contains(&r, e) {
            r.push(e);
            proof {
                assert(r@.take(r@.len() - 1) =~= prev_seq);
                lemma_take_to_set_step(r@, r@.len() - 1);
                lemma_take_full(r@);
                assert forall|p: int, q: int| 0 <= p < q < r@.len() implies r@[p] != r@[q] by {
                    if q == r@.len() - 1 {
                        if r@[p] == e {
                            assert(prev_seq[p] == e);
                            assert(prev_seq.contains(e));
                        }
                    }
                }
            }
        } else {
            proof {
                assert(prev_seq.to_set().insert(e) =~= prev_seq.to_set());
            }
        }
        proof {
            lemma_take_to_set_step(v@, i as int);
        }
        i = i + 1;
    }
    proof {
        lemma_take_full(v@);
    }
    r
}

} // verus!

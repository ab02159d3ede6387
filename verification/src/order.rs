//! Lexicographic order on character sequences: the order in which `String`s compare
//! (UTF-8 byte order agrees with code point order), with sorting and searching.

use vstd::prelude::*;

verus! {

/// Strictly before in lexicographic order, comparing characters by code point.
pub open spec fn lex_lt(a: Seq<char>, b: Seq<char>) -> bool
    decreases a.len(),
{
    if a.len() == 0 {
        b.len() > 0
    } else if b.len() == 0 {
        false
    } else if a[0] != b[0] {
        (a[0] as int) < (b[0] as int)
    } else {
        lex_lt(a.drop_first(), b.drop_first())
    }
}

pub proof fn lemma_lex_irreflexive(a: Seq<char>)
    ensures
        !lex_lt(a, a),
    decreases a.len(),
{
    if a.len() > 0 {
        lemma_lex_irreflexive(a.drop_first());
    }
}

pub proof fn lemma_lex_asymmetric(a: Seq<char>, b: Seq<char>)
    ensures
        !(lex_lt(a, b) && lex_lt(b, a)),
    decreases a.len(),
{
    if a.len() > 0 && b.len() > 0 && a[0] == b[0] {
        lemma_lex_asymmetric(a.drop_first(), b.drop_first());
    }
}

pub proof fn lemma_lex_transitive(a: Seq<char>, b: Seq<char>, c: Seq<char>)
    requires
        lex_lt(a, b),
        lex_lt(b, c),
    ensures
        lex_lt(a, c),
    decreases a.len(),
{
    if a.len() > 0 && b.len() > 0 && c.len() > 0 && a[0] == b[0] && b[0] == c[0] {
        lemma_lex_transitive(a.drop_first(), b.drop_first(), c.drop_first());
    }
}

pub proof fn lemma_lex_total(a: Seq<char>, b: Seq<char>)
    requires
        a != b,
    ensures
        lex_lt(a, b) || lex_lt(b, a),
    decreases a.len(),
{
    if a.len() > 0 && b.len() > 0 && a[0] == b[0] {
        if a.drop_first() == b.drop_first() {
            assert(a =~= seq![a[0]] + a.drop_first());
            assert(b =~= seq![b[0]] + b.drop_first());
        }
        lemma_lex_total(a.drop_first(), b.drop_first());
    } else if a.len() > 0 && b.len() > 0 {
        assert(a[0] as int != b[0] as int);
    } else if a.len() == 0 && b.len() == 0 {
        assert(a =~= b);
    }
}

/// The outcome of comparing two sequences.
#[derive(PartialEq, Eq, Structural, Clone, Copy, Debug)]
pub enum Order {
    Less,
    Equal,
    Greater,
}

/// Compares two character sequences lexicographically.
pub fn compare_chars(a: &[char], b: &[char]) -> (res: Order)
    ensures
        res == Order::Less <==> lex_lt(a@, b@),
        res == Order::Equal <==> a@ == b@,
        res == Order::Greater <==> lex_lt(b@, a@),
{
    let mut i: usize = 0;
    proof {
        assert(a@.skip(0) =~= a@);
        assert(b@.skip(0) =~= b@);
    }
    while i < a.len() && i < b.len()
        invariant
            i <= a.len(),
            i <= b.len(),
            a@.subrange(0, i as int) == b@.subrange(0, i as int),
            lex_lt(a@, b@) == lex_lt(a@.skip(i as int), b@.skip(i as int)),
            lex_lt(b@, a@) == lex_lt(b@.skip(i as int), a@.skip(i as int)),
        decreases a.len() - i,
    {
        if a[i] != b[i] {
            proof {
                assert(a@.skip(i as int)[0] == a@[i as int]);
                assert(b@.skip(i as int)[0] == b@[i as int]);
                if a@ == b@ {
                    assert(a@[i as int] == b@[i as int]);
                }
            }
            if a[i] < b[i] {
                return Order::Less;
            } else {
                return Order::Greater;
            }
        }
        proof {
            assert(a@.skip(i as int).drop_first() =~= a@.skip(i + 1));
            assert(b@.skip(i as int).drop_first() =~= b@.skip(i + 1));
            assert(a@.subrange(0, i + 1) =~= a@.subrange(0, i as int).push(a@[i as int]));
            assert(b@.subrange(0, i + 1) =~= b@.subrange(0, i as int).push(b@[i as int]));
        }
        i = i + 1;
    }
    proof {
        if i == a.len() && i == b.len() {
            assert(a@ =~= a@.subrange(0, i as int));
            assert(b@ =~= b@.subrange(0, i as int));
        } else if i == a.len() {
            assert(a@.len() != b@.len());
        } else {
            assert(a@.len() != b@.len());
        }
    }
    if a.len() < b.len() {
        Order::Less
    } else if a.len() == b.len() {
        Order::Equal
    } else {
        Order::Greater
    }
}

/// A key that sorts by a strict order, with an executable comparison.
pub trait SortKey: Sized {
    spec fn before(self, other: Self) -> bool;

    proof fn lemma_transitive(a: Self, b: Self, c: Self)
        requires
            a.before(b),
            b.before(c),
        ensures
            a.before(c),
    ;

    proof fn lemma_irreflexive(a: Self)
        ensures
            !a.before(a),
    ;

    fn compare(&self, other: &Self) -> (res: Order)
        ensures
            res == Order::Less <==> self.before(*other),
            res == Order::Greater <==> other.before(*self),
            res == Order::Equal <==> (!self.before(*other) && !other.before(*self)),
    ;
}

/// Every key differs from every other.
pub open spec fn distinct_keys<K: SortKey>(keys: Seq<K>) -> bool {
    forall|i: int, j: int| 0 <= i < keys.len() && 0 <= j < keys.len() && i != j ==> #[trigger] keys[i].before(keys[j]) || #[trigger] keys[j].before(keys[i])
}

/// `order` lists indices into `keys` in strictly increasing order of their keys.
pub open spec fn sorted_by_keys<K: SortKey>(keys: Seq<K>, order: Seq<usize>) -> bool {
    &&& forall|i: int| 0 <= i < order.len() ==> #[trigger] order[i] < keys.len()
    &&& forall|i: int, j: int| 0 <= i < j < order.len() ==> (#[trigger] keys[order[i] as int]).before(#[trigger] keys[order[j] as int])
}

pub proof fn lemma_push_contains<T>(s: Seq<T>, x: T)
    ensures
        forall|y: T| #[trigger] s.push(x).contains(y) <==> (s.contains(y) || y == x),
{
    assert forall|y: T| #[trigger] s.push(x).contains(y) <==> (s.contains(y) || y == x) by {
        if s.push(x).contains(y) {
            let k = choose|k: int| 0 <= k < s.push(x).len() && s.push(x)[k] == y;
            if k < s.len() {
                assert(s[k] == y);
            }
        }
        if s.contains(y) {
            let k = choose|k: int| 0 <= k < s.len() && s[k] == y;
            assert(s.push(x)[k] == y);
        }
        if y == x {
            assert(s.push(x)[s.len() as int] == x);
        }
    }
}

/// Merges two sorted lists of indices into one.
fn merge<K: SortKey>(keys: &Vec<K>, a: Vec<usize>, b: Vec<usize>) -> (res: Vec<usize>)
    requires
        distinct_keys(keys@),
        sorted_by_keys(keys@, a@),
        sorted_by_keys(keys@, b@),
        forall|x: usize| !(a@.contains(x) && b@.contains(x)),
    ensures
        sorted_by_keys(keys@, res@),
        res@.len() == a@.len() + b@.len(),
        forall|x: usize| res@.contains(x) <==> (a@.contains(x) || b@.contains(x)),
{
    let mut res: Vec<usize> = Vec::new();
    let mut i: usize = 0;
    let mut j: usize = 0;
    while i < a.len() || j < b.len()
        invariant
            distinct_keys(keys@),
            sorted_by_keys(keys@, a@),
            sorted_by_keys(keys@, b@),
            forall|x: usize| !(a@.contains(x) && b@.contains(x)),
            i <= a@.len(),
            j <= b@.len(),
            sorted_by_keys(keys@, res@),
            res@.len() == i + j,
            forall|x: usize| res@.contains(x) <==> (a@.subrange(0, i as int).contains(x) || b@.subrange(0, j as int).contains(x)),
            forall|k: int| 0 <= k < res@.len() && i < a@.len() ==> (#[trigger] keys@[res@[k] as int]).before(keys@[a@[i as int] as int]),
            forall|k: int| 0 <= k < res@.len() && j < b@.len() ==> (#[trigger] keys@[res@[k] as int]).before(keys@[b@[j as int] as int]),
        decreases a@.len() + b@.len() - i - j,
    {
        let mut take_a = false;
        if i < a.len() && j < b.len() {
            let c = keys[a[i]].compare(&keys[b[j]]);
            take_a = c == Order::Less;
            proof {
                let ka = keys@[a@[i as int] as int];
                let kb = keys@[b@[j as int] as int];
                if !take_a && c == Order::Equal {
                    assert(a@.contains(a@[i as int]));
                    assert(b@.contains(b@[j as int]));
                    assert(a@[i as int] != b@[j as int]);
                    assert(false);
                }
                if !take_a {
                    assert(kb.before(ka));
                }
            }
        } else if i < a.len() {
            take_a = true;
        }
        let ghost old_res = res@;
        if take_a {
            let x = a[i];
            res.push(x);
            proof {
                assert forall|p: int, q: int| 0 <= p < q < res@.len() implies (#[trigger] keys@[res@[p] as int]).before(#[trigger] keys@[res@[q] as int]) by {
                    if q == old_res.len() {
                        assert(res@[p] == old_res[p]);
                    } else {
                        assert(res@[p] == old_res[p] && res@[q] == old_res[q]);
                    }
                }
                assert forall|k: int| 0 <= k < res@.len() && i + 1 < a@.len() implies (#[trigger] keys@[res@[k] as int]).before(keys@[a@[i + 1] as int]) by {
                    assert((keys@[a@[i as int] as int]).before(keys@[a@[i + 1] as int]));
                    if k < old_res.len() {
                        assert(res@[k] == old_res[k]);
                        K::lemma_transitive(keys@[res@[k] as int], keys@[a@[i as int] as int], keys@[a@[i + 1] as int]);
                    }
                }
                assert forall|k: int| 0 <= k < res@.len() && j < b@.len() implies (#[trigger] keys@[res@[k] as int]).before(keys@[b@[j as int] as int]) by {
                    if k < old_res.len() {
                        assert(res@[k] == old_res[k]);
                    }
                }
                assert(a@.subrange(0, i + 1) =~= a@.subrange(0, i as int).push(x));
                lemma_push_contains(old_res, x);
                lemma_push_contains(a@.subrange(0, i as int), x);
            }
            i = i + 1;
        } else {
            let x = b[j];
            res.push(x);
            proof {
                assert forall|p: int, q: int| 0 <= p < q < res@.len() implies (#[trigger] keys@[res@[p] as int]).before(#[trigger] keys@[res@[q] as int]) by {
                    if q == old_res.len() {
                        assert(res@[p] == old_res[p]);
                    } else {
                        assert(res@[p] == old_res[p] && res@[q] == old_res[q]);
                    }
                }
                assert forall|k: int| 0 <= k < res@.len() && j + 1 < b@.len() implies (#[trigger] keys@[res@[k] as int]).before(keys@[b@[j + 1] as int]) by {
                    assert((keys@[b@[j as int] as int]).before(keys@[b@[j + 1] as int]));
                    if k < old_res.len() {
                        assert(res@[k] == old_res[k]);
                        K::lemma_transitive(keys@[res@[k] as int], keys@[b@[j as int] as int], keys@[b@[j + 1] as int]);
                    }
                }
                assert forall|k: int| 0 <= k < res@.len() && i < a@.len() implies (#[trigger] keys@[res@[k] as int]).before(keys@[a@[i as int] as int]) by {
                    if k < old_res.len() {
                        assert(res@[k] == old_res[k]);
                    }
                }
                assert(b@.subrange(0, j + 1) =~= b@.subrange(0, j as int).push(x));
                lemma_push_contains(old_res, x);
                lemma_push_contains(b@.subrange(0, j as int), x);
            }
            j = j + 1;
        }
    }
    proof {
        assert(a@.subrange(0, i as int) =~= a@);
        assert(b@.subrange(0, j as int) =~= b@);
    }
    res
}


/// Sorts the indices `lo..hi` by their keys.
fn sort_range<K: SortKey>(keys: &Vec<K>, lo: usize, hi: usize) -> (res: Vec<usize>)
    requires
        distinct_keys(keys@),
        lo <= hi <= keys@.len(),
    ensures
        sorted_by_keys(keys@, res@),
        res@.len() == hi - lo,
        forall|x: usize| res@.contains(x) <==> lo <= x < hi,
    decreases hi - lo,
{
    if hi - lo == 0 {
        Vec::new()
    } else if hi - lo == 1 {
        let res = vec![lo];
        proof {
            assert forall|x: usize| res@.contains(x) <==> lo <= x < hi by {
                if res@.contains(x) {
                    let k = choose|k: int| 0 <= k < res@.len() && res@[k] == x;
                }
                if lo <= x < hi {
                    assert(res@[0] == x);
                }
            }
        }
        res
    } else {
        let mid = lo + (hi - lo) / 2;
        let a = sort_range(keys, lo, mid);
        let b = sort_range(keys, mid, hi);
        merge(keys, a, b)
    }
}

/// The indices of `keys` in strictly increasing order of their keys.
pub fn sorted_order<K: SortKey>(keys: &Vec<K>) -> (res: Vec<usize>)
    requires
        distinct_keys(keys@),
    ensures
        sorted_by_keys(keys@, res@),
        res@.len() == keys@.len(),
        forall|x: usize| res@.contains(x) <==> x < keys@.len(),
{
    sort_range(keys, 0, keys.len())
}

/// Finds the key `target` among sorted keys, returning its position.
pub fn search_sorted(keys: &Vec<Vec<char>>, target: &[char]) -> (res: Option<usize>)
    requires
        forall|i: int, j: int| 0 <= i < j < keys@.len() ==> lex_lt(#[trigger] keys@[i]@, #[trigger] keys@[j]@),
    ensures
        match res {
            Some(p) => p < keys@.len() && keys@[p as int]@ == target@,
            None => forall|p: int| 0 <= p < keys@.len() ==> #[trigger] keys@[p]@ != target@,
        },
{
    let mut lo: usize = 0;
    let mut hi: usize = keys.len();
    while lo < hi
        invariant
            forall|i: int, j: int| 0 <= i < j < keys@.len() ==> lex_lt(#[trigger] keys@[i]@, #[trigger] keys@[j]@),
            lo <= hi <= keys@.len(),
            forall|p: int| 0 <= p < lo ==> lex_lt(#[trigger] keys@[p]@, target@),
            forall|p: int| hi <= p < keys@.len() ==> lex_lt(target@, #[trigger] keys@[p]@),
        decreases hi - lo,
    {
        let mid = lo + (hi - lo) / 2;
        match compare_chars(keys[mid].as_slice(), target) {
            Order::Equal => {
                return Some(mid);
            },
            Order::Less => {
                proof {
                    assert forall|p: int| 0 <= p < mid + 1 implies lex_lt(#[trigger] keys@[p]@, target@) by {
                        if p < mid {
                            lemma_lex_transitive(keys@[p]@, keys@[mid as int]@, target@);
                        }
                    }
                }
                lo = mid + 1;
            },
            Order::Greater => {
                proof {
                    assert forall|p: int| mid <= p < keys@.len() implies lex_lt(target@, #[trigger] keys@[p]@) by {
                        if p > mid {
                            lemma_lex_transitive(target@, keys@[mid as int]@, keys@[p]@);
                        }
                    }
                }
                hi = mid;
            },
        }
    }
    proof {
        assert forall|p: int| 0 <= p < keys@.len() implies #[trigger] keys@[p]@ != target@ by {
            if p < lo {
                lemma_lex_irreflexive(target@);
            } else {
                lemma_lex_irreflexive(target@);
            }
        }
    }
    None
}

} // verus!

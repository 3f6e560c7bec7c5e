//! Conversions between strings and character vectors, and the predicates on
//! character sequences that the rest of the crate is specified with.

use vstd::prelude::*;

verus! {

/// Collects the characters of `s`.
pub fn chars_of(s: &str) -> (v: Vec<char>)
    ensures
        v@ == s@,
{
    let mut v: Vec<char> = Vec::new();
    for c in it: s.chars()
        invariant
            it.seq() == s@,
            v@ == it.seq().take(it.index() as int),
    {
        assert(it.seq().take(it.index() + 1) =~= it.seq().take(it.index() as int).push(c));
        v.push(c);
    }
    assert(s@.take(s@.len() as int) =~= s@);
    v
}

/// Appends the characters of `s` to `out`.
pub fn append_str(out: &mut Vec<char>, s: &str)
    ensures
        final(out)@ == old(out)@ + s@,
{
    let ghost before = out@;
    for c in it: s.chars()
        invariant
            it.seq() == s@,
            out@ == before + it.seq().take(it.index() as int),
    {
        assert(it.seq().take(it.index() + 1) =~= it.seq().take(it.index() as int).push(c));
        out.push(c);
    }
    assert(s@.take(s@.len() as int) =~= s@);
}

/// Builds a string from characters with `String::from_iter`, which the
/// standard library documents as collecting the characters in order; the
/// contract claims exactly that.
#[verifier::external_body]
pub(crate) fn string_from_chars(v: &Vec<char>) -> (s: String)
    ensures
        s@ == v@,
{
    String::from_iter(v.iter())
}

/// Whether `sub` stands in `s` at index `i`.
pub open spec fn occurs_at(s: Seq<char>, sub: Seq<char>, i: int) -> bool {
    0 <= i && i + sub.len() <= s.len() && s.subrange(i, i + sub.len()) == sub
}

/// Whether `sub` stands somewhere in `s`.
pub open spec fn contains_seq(s: Seq<char>, sub: Seq<char>) -> bool {
    exists|i: int| occurs_at(s, sub, i)
}

/// Whether `a` and `b` agree on their first `k` characters.
pub open spec fn agree_before(a: Seq<char>, b: Seq<char>, k: int) -> bool {
    0 <= k <= a.len() && k <= b.len() && a.take(k) == b.take(k)
}

/// Whether `a` comes before `b` where they first part ways at index `k`:
/// `a` ends there and `b` goes on, or `a` has the smaller code point.
pub open spec fn parts_before(a: Seq<char>, b: Seq<char>, k: int) -> bool {
    agree_before(a, b, k) && k < b.len() && (k == a.len() || (a[k] as int) < (b[k] as int))
}

/// Whether `a` comes before `b` in dictionary order by code point.
pub open spec fn lex_lt(a: Seq<char>, b: Seq<char>) -> bool {
    exists|k: int| parts_before(a, b, k)
}

/// How two sequences stand to each other in dictionary order.
#[derive(Clone, Copy, Debug, PartialEq, Eq, Structural)]
pub enum Order {
    Before,
    Same,
    After,
}

/// Two sequences that agree before `i` and before `k`, and differ at `i`,
/// cannot agree beyond `i`.
proof fn lemma_agreement_stops(a: Seq<char>, b: Seq<char>, i: int, k: int)
    requires
        agree_before(a, b, i),
        agree_before(a, b, k),
        i == a.len() || i == b.len() || a[i] != b[i],
    ensures
        k <= i,
{
    if k > i {
        assert(a.take(k)[i] == a[i]);
        assert(b.take(k)[i] == b[i]);
    }
}

/// Sequences that agree before `k` agree before every earlier index.
proof fn lemma_agreement_shrinks(a: Seq<char>, b: Seq<char>, k: int, i: int)
    requires
        agree_before(a, b, k),
        0 <= i <= k,
    ensures
        agree_before(a, b, i),
        i < k ==> a[i] == b[i],
{
    assert(a.take(i) =~= a.take(k).take(i));
    assert(b.take(i) =~= b.take(k).take(i));
    if i < k {
        assert(a.take(k)[i] == a[i]);
        assert(b.take(k)[i] == b[i]);
    }
}

/// Dictionary order is a strict total order: of two sequences exactly one
/// comes first unless they are equal, and the order is transitive.
pub proof fn lemma_lex_order(a: Seq<char>, b: Seq<char>, c: Seq<char>)
    ensures
        !lex_lt(a, a),
        lex_lt(a, b) ==> !lex_lt(b, a),
        a != b ==> lex_lt(a, b) || lex_lt(b, a),
        lex_lt(a, b) && lex_lt(b, c) ==> lex_lt(a, c),
{
    if lex_lt(a, a) {
        let k = choose|k: int| parts_before(a, a, k);
        assert(false);
    }
    if lex_lt(a, b) && lex_lt(b, a) {
        let k = choose|k: int| parts_before(a, b, k);
        let m = choose|m: int| parts_before(b, a, m);
        lemma_agreement_stops(a, b, k, m);
        assert(agree_before(a, b, m)) by {
            assert(a.take(m) == b.take(m));
        }
        lemma_agreement_stops(b, a, m, k);
        assert(false);
    }
    if a != b && !lex_lt(a, b) && !lex_lt(b, a) {
        lemma_first_difference(a, b);
        let k = choose|k: int| first_difference(a, b, k);
        assert(parts_before(a, b, k) || parts_before(b, a, k));
        assert(false);
    }
    if lex_lt(a, b) && lex_lt(b, c) {
        let k = choose|k: int| parts_before(a, b, k);
        let m = choose|m: int| parts_before(b, c, m);
        let i = if k <= m { k } else { m };
        lemma_agreement_shrinks(a, b, k, i);
        lemma_agreement_shrinks(b, c, m, i);
        assert(a.take(i) == c.take(i));
        assert(parts_before(a, c, i));
    }
}

/// Whether `k` is the first index at which `a` and `b` differ or one of them
/// ends while the other goes on.
spec fn first_difference(a: Seq<char>, b: Seq<char>, k: int) -> bool {
    &&& agree_before(a, b, k)
    &&& (k < a.len() || k < b.len())
    &&& (k == a.len() || k == b.len() || a[k] != b[k])
}

/// Two different sequences have a first difference.
proof fn lemma_first_difference(a: Seq<char>, b: Seq<char>)
    requires
        a != b,
    ensures
        exists|k: int| first_difference(a, b, k),
{
    assert(a.take(0) =~= b.take(0));
    lemma_first_difference_from(a, b, 0);
}

proof fn lemma_first_difference_from(a: Seq<char>, b: Seq<char>, i: int)
    requires
        a != b,
        agree_before(a, b, i),
    ensures
        exists|k: int| first_difference(a, b, k),
    decreases a.len() - i,
{
    if i == a.len() && i == b.len() {
        assert(a.take(i) =~= a);
        assert(b.take(i) =~= b);
        assert(false);
    } else if i == a.len() || i == b.len() || a[i] != b[i] {
        assert(first_difference(a, b, i));
    } else {
        assert(a.take(i + 1) =~= a.take(i).push(a[i]));
        assert(b.take(i + 1) =~= b.take(i).push(b[i]));
        lemma_first_difference_from(a, b, i + 1);
    }
}

/// Compares two character vectors in dictionary order by code point.
pub fn lex_order(a: &Vec<char>, b: &Vec<char>) -> (order: Order)
    ensures
        order == Order::Before <==> lex_lt(a@, b@),
        order == Order::Same <==> a@ == b@,
        order == Order::After <==> lex_lt(b@, a@),
{
    let mut i: usize = 0;
    assert(a@.take(0) =~= b@.take(0));
    while i < a.len() && i < b.len() && a[i] == b[i]
        invariant
            agree_before(a@, b@, i as int),
        decreases a.len() - i,
    {
        assert(a@.take(i + 1) =~= a@.take(i as int).push(a@[i as int]));
        assert(b@.take(i + 1) =~= b@.take(i as int).push(b@[i as int]));
        i += 1;
    }
    proof {
        lemma_lex_order(a@, b@, a@);
        lemma_lex_order(b@, a@, a@);
    }
    if i == a.len() && i == b.len() {
        assert(a@.take(i as int) =~= a@);
        assert(b@.take(i as int) =~= b@);
        Order::Same
    } else if i == a.len() {
        assert(parts_before(a@, b@, i as int));
        Order::Before
    } else if i == b.len() {
        assert(b@.take(i as int) == a@.take(i as int));
        assert(parts_before(b@, a@, i as int));
        Order::After
    } else if a[i] < b[i] {
        assert(parts_before(a@, b@, i as int));
        Order::Before
    } else {
        assert(b@.take(i as int) == a@.take(i as int));
        assert(parts_before(b@, a@, i as int));
        Order::After
    }
}

/// Whether `sub` stands in `s` at index `i`.
pub fn matches_at(s: &Vec<char>, sub: &Vec<char>, i: usize) -> (found: bool)
    ensures
        found == occurs_at(s@, sub@, i as int),
{
    if sub.len() > s.len() || i > s.len() - sub.len() {
        return false;
    }
    let mut j: usize = 0;
    while j < sub.len()
        invariant
            j <= sub.len(),
            i + sub.len() <= s.len(),
            s@.subrange(i as int, i + j) == sub@.take(j as int),
        decreases sub.len() - j,
    {
        if s[i + j] != sub[j] {
            assert(s@.subrange(i as int, i + sub.len())[j as int] != sub@[j as int]);
            return false;
        }
        assert(s@.subrange(i as int, i + j + 1) =~= s@.subrange(i as int, i + j).push(s@[i + j]));
        assert(sub@.take(j + 1) =~= sub@.take(j as int).push(sub@[j as int]));
        j += 1;
    }
    assert(sub@.take(sub.len() as int) =~= sub@);
    true
}

/// Whether `sub` stands somewhere in `s`.
pub fn contains(s: &Vec<char>, sub: &Vec<char>) -> (found: bool)
    ensures
        found == contains_seq(s@, sub@),
{
    if sub.len() > s.len() {
        return false;
    }
    let last: usize = s.len() - sub.len();
    let mut i: usize = 0;
    loop
        invariant
            last == s.len() - sub.len(),
            i <= last,
            forall|k: int| 0 <= k < i ==> !occurs_at(s@, sub@, k),
        decreases last - i,
    {
        if matches_at(s, sub, i) {
            return true;
        }
        if i == last {
            return false;
        }
        i += 1;
    }
}

/// Whether `s` begins with `prefix`.
pub fn starts_with(s: &Vec<char>, prefix: &Vec<char>) -> (found: bool)
    ensures
        found == prefix@.is_prefix_of(s@),
{
    if prefix.len() > s.len() {
        return false;
    }
    matches_at(s, prefix, 0)
}

} // verus!

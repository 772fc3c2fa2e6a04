//! Unique names made by numbering: `prefix` + `name`, then `prefix` +
//! `2_` + `name`, `3_` …, until one is free.

use vstd::prelude::*;
use crate::text::{push_char, push_decimal, decimal_chars, decimal_value, lemma_decimal_roundtrip};

verus! {

/// The `n`-th name tried for `name` under `prefix`: `prefix name` first,
/// then `prefix 2_name`, `prefix 3_name`, …
pub open spec fn numbered(prefix: Seq<char>, name: Seq<char>, n: nat) -> Seq<char> {
    if n == 0 {
        prefix + name
    } else {
        prefix + decimal_chars(n + 1) + seq!['_'] + name
    }
}

/// Different attempts give different names.
pub proof fn lemma_numbered_distinct(prefix: Seq<char>, name: Seq<char>, a: nat, b: nat)
    requires
        a != b,
    ensures
        numbered(prefix, name, a) != numbered(prefix, name, b),
{
    lemma_decimal_roundtrip(a + 1);
    lemma_decimal_roundtrip(b + 1);
    let pa = numbered(prefix, name, a);
    let pb = numbered(prefix, name, b);
    let k = prefix.len() as int;
    if pa == pb {
        if a == 0 || b == 0 {
            assert(pa.len() != pb.len());
        } else {
            let da = decimal_chars(a + 1);
            let db = decimal_chars(b + 1);
            assert(pa.len() == k + da.len() + 1 + name.len());
            assert(pb.len() == k + db.len() + 1 + name.len());
            assert(da.len() == db.len());
            assert(pa.subrange(k, k + da.len() as int) =~= da);
            assert(pb.subrange(k, k + db.len() as int) =~= db);
            assert(decimal_value(da) == decimal_value(db));
        }
    }
}

/// The first `n` names tried, as a set.
spec fn first_numbered(prefix: Seq<char>, name: Seq<char>, n: nat) -> Set<Seq<char>>
    decreases n,
{
    if n == 0 {
        Set::empty()
    } else {
        first_numbered(prefix, name, (n - 1) as nat).insert(numbered(prefix, name, (n - 1) as nat))
    }
}

proof fn lemma_first_numbered(prefix: Seq<char>, name: Seq<char>, n: nat)
    ensures
        first_numbered(prefix, name, n).finite(),
        first_numbered(prefix, name, n).len() == n,
        forall|p: Seq<char>| #[trigger] first_numbered(prefix, name, n).contains(p)
            ==> exists|m: nat| m < n && p == numbered(prefix, name, m),
    decreases n,
{
    if n > 0 {
        let m = (n - 1) as nat;
        lemma_first_numbered(prefix, name, m);
        if first_numbered(prefix, name, m).contains(numbered(prefix, name, m)) {
            let j = choose|j: nat| j < m && numbered(prefix, name, m) == numbered(prefix, name, j);
            lemma_numbered_distinct(prefix, name, j, m);
        }
    }
}

/// If the first `n` names are all in the finite set `taken`, it holds at
/// least `n` names.
pub proof fn lemma_taken_numbered(taken: Set<Seq<char>>, prefix: Seq<char>, name: Seq<char>, n: nat)
    requires
        taken.finite(),
        forall|j: nat| j < n ==> taken.contains(#[trigger] numbered(prefix, name, j)),
    ensures
        n <= taken.len(),
{
    lemma_first_numbered(prefix, name, n);
    assert(first_numbered(prefix, name, n).subset_of(taken)) by {
        assert forall|p: Seq<char>| #[trigger] first_numbered(prefix, name, n).contains(p) implies taken.contains(p) by {
            let j = choose|j: nat| j < n && p == numbered(prefix, name, j);
            assert(taken.contains(numbered(prefix, name, j)));
        }
    }
    vstd::set_lib::lemma_len_subset(first_numbered(prefix, name, n), taken);
}

/// The `n`-th name tried for `name` under `prefix`, as a string.
pub fn make_numbered(prefix: &Vec<char>, name: &Vec<char>, n: u128) -> (s: String)
    requires
        n < u128::MAX,
    ensures
        s@ == numbered(prefix@, name@, n as nat),
{
    let mut s: String = String::new();
    let mut i: usize = 0;
    while i < prefix.len()
        invariant
            i <= prefix@.len(),
            s@ == prefix@.take(i as int),
        decreases prefix@.len() - i,
    {
        push_char(&mut s, prefix[i]);
        i += 1;
        assert(s@ =~= prefix@.take(i as int));
    }
    assert(prefix@.take(prefix@.len() as int) =~= prefix@);
    if n > 0 {
        push_decimal(&mut s, n + 1);
        push_char(&mut s, '_');
    }
    let mut i: usize = 0;
    let ghost base = s@;
    while i < name.len()
        invariant
            i <= name@.len(),
            s@ == base + name@.take(i as int),
        decreases name@.len() - i,
    {
        push_char(&mut s, name[i]);
        i += 1;
        assert(s@ =~= base + name@.take(i as int));
    }
    assert(name@.take(name@.len() as int) =~= name@);
    assert(s@ =~= numbered(prefix@, name@, n as nat));
    s
}

} // verus!

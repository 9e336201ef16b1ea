//! Strictly increasing sequences of IP addresses: each address once, in
//! order, and one such listing for each set of addresses.
use vstd::prelude::*;
use crate::ip::{IpAddress, ip_lt, lemma_ip_order};

verus! {

/// Each address comes before every later one: in order, no repetition.
pub open spec fn strictly_sorted(s: Seq<IpAddress>) -> bool {
    forall|i: int, j: int| 0 <= i < j < s.len() ==> ip_lt(#[trigger] s[i], #[trigger] s[j])
}

/// Two strictly sorted sequences with the same addresses are the same
/// sequence: a set of addresses has exactly one sorted listing.
pub proof fn lemma_sorted_listing_unique(a: Seq<IpAddress>, b: Seq<IpAddress>)
    requires
        strictly_sorted(a),
        strictly_sorted(b),
        a.to_set() == b.to_set(),
    ensures
        a == b,
    decreases a.len() + b.len(),
{
    if a.len() == 0 {
        if b.len() > 0 {
            assert(b.to_set().contains(b[0]));
            assert(!a.to_set().contains(b[0]));
        }
        assert(a =~= b);
    } else if b.len() == 0 {
        assert(a.to_set().contains(a[0]));
        assert(!b.to_set().contains(a[0]));
    } else {
        let x = a.last();
        let y = b.last();
        assert(a.to_set().contains(x));
        assert(b.to_set().contains(y));
        let ia = choose|i: int| 0 <= i < a.len() && a[i] == y;
        let ib = choose|i: int| 0 <= i < b.len() && b[i] == x;
        lemma_ip_order(x, y, x);
        if ip_lt(x, y) {
            assert(ia < a.len() - 1 ==> ip_lt(a[ia], x));
            lemma_ip_order(y, x, y);
            assert(false);
        }
        if ip_lt(y, x) {
            assert(ib < b.len() - 1 ==> ip_lt(b[ib], y));
            lemma_ip_order(x, y, x);
            assert(false);
        }
        assert(x == y);
        let a2 = a.drop_last();
        let b2 = b.drop_last();
        assert(strictly_sorted(a2));
        assert(strictly_sorted(b2));
        assert forall|z: IpAddress| a2.to_set().contains(z) implies b2.to_set().contains(z) by {
            let i = choose|i: int| 0 <= i < a2.len() && a2[i] == z;
            assert(a.to_set().contains(z));
            assert(ip_lt(a[i], x));
            let j = choose|j: int| 0 <= j < b.len() && b[j] == z;
            if j == b.len() - 1 {
                lemma_ip_order(z, x, z);
            }
            assert(b2[j] == z);
        }
        assert forall|z: IpAddress| b2.to_set().contains(z) implies a2.to_set().contains(z) by {
            let j = choose|j: int| 0 <= j < b2.len() && b2[j] == z;
            assert(b.to_set().contains(z));
            assert(ip_lt(b[j], y));
            let i = choose|i: int| 0 <= i < a.len() && a[i] == z;
            if i == a.len() - 1 {
                lemma_ip_order(z, y, z);
            }
            assert(a2[i] == z);
        }
        assert(a2.to_set() =~= b2.to_set());
        lemma_sorted_listing_unique(a2, b2);
        assert(a =~= a2.push(x));
        assert(b =~= b2.push(y));
    }
}

} // verus!

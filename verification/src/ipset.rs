//! Sets of IP addresses held in a `BTreeSet`, keyed by (family, value) so
//! that the set's own order is the order of addresses.
use vstd::prelude::*;
use std::collections::BTreeSet;
use vstd::std_specs::btree::{increasing_seq, key_obeys_cmp_spec, spec_btree_keys_iter, axiom_spec_btree_keys_iter};
use vstd::laws_cmp::obeys_cmp;
use vstd::std_specs::cmp::OrdSpec;
use vstd::std_specs::iter::IteratorSpec;
use crate::ip::{IpAddress, ip_lt};
use crate::sorted::strictly_sorted;

verus! {

/// The key of an address: family 0 for IPv4, 1 for IPv6, then the value.
pub open spec fn ip_key(ip: IpAddress) -> (u8, u128) {
    match ip {
        IpAddress::V4(v) => (0u8, v as u128),
        IpAddress::V6(v) => (1u8, v),
    }
}

/// A key that stands for an address.
pub open spec fn valid_key(k: (u8, u128)) -> bool {
    (k.0 == 0 && k.1 <= 0xffff_ffff) || k.0 == 1
}

/// The address that a valid key stands for.
pub open spec fn key_ip(k: (u8, u128)) -> IpAddress {
    if k.0 == 0 {
        IpAddress::V4(k.1 as u32)
    } else {
        IpAddress::V6(k.1)
    }
}

proof fn lemma_key_round_trip(ip: IpAddress, k: (u8, u128))
    ensures
        valid_key(ip_key(ip)),
        key_ip(ip_key(ip)) == ip,
        valid_key(k) ==> ip_key(key_ip(k)) == k,
{
}

/// The keys obey the order laws that the `BTreeSet` contracts rely on.
proof fn lemma_key_laws()
    ensures
        obeys_cmp::<(u8, u128)>(),
        key_obeys_cmp_spec::<(u8, u128)>(),
{
    broadcast use vstd::laws_cmp::group_laws_cmp;
    broadcast use vstd::std_specs::btree::group_btree_axioms;

}

/// Keys in increasing order stand for addresses in increasing order.
proof fn lemma_increasing_keys(r: Seq<&(u8, u128)>)
    requires
        increasing_seq(r),
        forall|i: int| 0 <= i < r.len() ==> valid_key(#[trigger] r.unref()[i]),
    ensures
        strictly_sorted(r.unref().map_values(|k: (u8, u128)| key_ip(k))),
{
    broadcast use vstd::laws_cmp::group_laws_cmp;
    broadcast use vstd::std_specs::btree::group_btree_axioms;

    assert(obeys_cmp::<u8>());
    assert(obeys_cmp::<u128>());
    assert(obeys_cmp::<(u8, u128)>());
    assert(obeys_cmp::<&(u8, u128)>());
    let s = r.unref();
    let out = s.map_values(|k: (u8, u128)| key_ip(k));
    assert forall|i: int, j: int| 0 <= i < j < out.len() implies ip_lt(#[trigger] out[i], #[trigger] out[j]) by {
        let a = s[i];
        let b = s[j];
        let ra = &r[i];
        let rb = &r[j];
        assert(ra.cmp_spec(rb) is Less);
        assert(a == *r[i] && b == *r[j]);
        assert(a.cmp_spec(&b) is Less);
        lemma_key_round_trip(out[i], a);
        lemma_key_round_trip(out[j], b);
    }
}

/// A set of addresses.
pub struct IpSet {
    keys: BTreeSet<(u8, u128)>,
}

impl View for IpSet {
    type V = Set<IpAddress>;

    closed spec fn view(&self) -> Set<IpAddress> {
        Set::new(|ip: IpAddress| self.keys@.contains(ip_key(ip)))
    }
}

impl IpSet {
    /// Every key of the set stands for an address.
    pub closed spec fn wf(&self) -> bool {
        forall|k: (u8, u128)| #[trigger] self.keys@.contains(k) ==> valid_key(k)
    }

    /// The empty set.
    pub fn new() -> (s: IpSet)
        ensures
            s.wf(),
            s@ == Set::<IpAddress>::empty(),
    {
        let s = IpSet { keys: BTreeSet::new() };
        assert(s@ =~= Set::<IpAddress>::empty());
        s
    }

    /// Adds `ip` to the set.
    pub fn insert(&mut self, ip: IpAddress)
        requires
            old(self).wf(),
        ensures
            final(self).wf(),
            final(self)@ == old(self)@.insert(ip),
    {
        proof {
            lemma_key_laws();
        }
        let k = key_of(ip);
        let ghost before = self.keys@;
        self.keys.insert(k);
        proof {
            assert forall|x: (u8, u128)| #[trigger] self.keys@.contains(x) implies valid_key(x) by {
                lemma_key_round_trip(ip, x);
            }
            assert forall|z: IpAddress| #[trigger] self@.contains(z) == old(self)@.insert(ip).contains(z) by {
                lemma_key_round_trip(z, k);
                lemma_key_round_trip(ip, k);
            }
            assert(self@ =~= old(self)@.insert(ip));
        }
    }

    /// The addresses of the set, in increasing order.
    pub fn to_sorted_vec(&self) -> (v: Vec<IpAddress>)
        requires
            self.wf(),
        ensures
            strictly_sorted(v@),
            v@.to_set() == self@,
    {
        proof {
            lemma_key_laws();
        }
        let mut out: Vec<IpAddress> = Vec::new();
        let ghost mut keys: Seq<(u8, u128)> = Seq::empty();
        let ghost all = spec_btree_keys_iter(&self.keys).remaining().unref();
        proof {
            axiom_spec_btree_keys_iter(&self.keys);
        }
        for k in it: self.keys.iter()
            invariant
                self.wf(),
                it.seq().unref() == all,
                it.seq().unref().to_set() == self.keys@,
                increasing_seq(it.seq()),
                it.seq() == spec_btree_keys_iter(&self.keys).remaining(),
                keys == it.seq().unref().take(it.index() as int),
                out@ == keys.map_values(|x: (u8, u128)| key_ip(x)),
        {
            let ghost pos = it.index();
            assert(it.seq().unref()[pos as int] == *k);
            assert(self.keys@.contains(*k)) by {
                assert(it.seq().unref().to_set().contains(*k));
            }
            out.push(ip_of_key(*k));
            proof {
                keys = keys.push(*k);
                assert(keys =~= it.seq().unref().take(pos + 1));
                assert(out@ =~= keys.map_values(|x: (u8, u128)| key_ip(x)));
            }
        }
        proof {
            let s = all;
            assert(keys =~= s);
            assert forall|i: int| 0 <= i < s.len() implies valid_key(#[trigger] s[i]) by {
                assert(s.to_set().contains(s[i]));
            }
            lemma_increasing_keys(spec_btree_keys_iter(&self.keys).remaining());
            assert forall|z: IpAddress| #[trigger] out@.to_set().contains(z) == self@.contains(z) by {
                lemma_key_round_trip(z, ip_key(z));
                if out@.to_set().contains(z) {
                    let i = choose|i: int| 0 <= i < out@.len() && out@[i] == z;
                    assert(s.to_set().contains(s[i]));
                    lemma_key_round_trip(z, s[i]);
                }
                if self@.contains(z) {
                    assert(s.to_set().contains(ip_key(z)));
                    let i = choose|i: int| 0 <= i < s.len() && s[i] == ip_key(z);
                    assert(out@[i] == key_ip(s[i]));
                }
            }
            assert(out@.to_set() =~= self@);
        }
        out
    }
}

fn key_of(ip: IpAddress) -> (k: (u8, u128))
    ensures
        k == ip_key(ip),
{
    match ip {
        IpAddress::V4(v) => (0u8, v as u128),
        IpAddress::V6(v) => (1u8, v),
    }
}

fn ip_of_key(k: (u8, u128)) -> (ip: IpAddress)
    requires
        valid_key(k),
    ensures
        ip == key_ip(k),
{
    if k.0 == 0 {
        IpAddress::V4(k.1 as u32)
    } else {
        IpAddress::V6(k.1)
    }
}

} // verus!

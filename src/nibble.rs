//! Keys as radix-16 paths.

use vstd::prelude::*;

verus! {

/// The radix-16 path of a key: each byte gives its high nibble, then its
/// low nibble.
pub open spec fn nibbles(k: Seq<u8>) -> Seq<u8> {
    Seq::new(2 * k.len(), |j: int| if j % 2 == 0 { (k[j / 2] / 16) as u8 } else { (k[j / 2] % 16) as u8 })
}

/// `p` is a prefix of `s`.
pub open spec fn has_prefix(s: Seq<u8>, p: Seq<u8>) -> bool {
    p.len() <= s.len() && s.take(p.len() as int) =~= p
}

/// Nibble `j` of key `k`.
pub fn nibble_at(k: &Vec<u8>, j: usize) -> (r: u8)
    requires
        j < 2 * k@.len(),
    ensures
        r == nibbles(k@)[j as int],
        r < 16,
{
    let b = k[j / 2];
    if j % 2 == 0 {
        b / 16
    } else {
        b % 16
    }
}

/// Two keys with the same path are the same key.
pub proof fn lemma_nibbles_injective(a: Seq<u8>, b: Seq<u8>)
    requires
        nibbles(a) == nibbles(b),
    ensures
        a == b,
{
    assert(nibbles(a).len() == 2 * a.len());
    assert(a.len() == b.len());
    assert forall|i: int| 0 <= i < a.len() implies a[i] == b[i] by {
        assert((2 * i) / 2 == i && (2 * i) % 2 == 0);
        assert((2 * i + 1) / 2 == i && (2 * i + 1) % 2 == 1);
        assert(nibbles(a)[2 * i] == nibbles(b)[2 * i]);
        assert(nibbles(a)[2 * i + 1] == nibbles(b)[2 * i + 1]);
        assert(nibbles(a)[2 * i] == (a[i] / 16) as u8);
        assert(nibbles(b)[2 * i] == (b[i] / 16) as u8);
        assert(nibbles(a)[2 * i + 1] == (a[i] % 16) as u8);
        assert(nibbles(b)[2 * i + 1] == (b[i] % 16) as u8);
        let x = a[i];
        let y = b[i];
        assert(x / 16 == y / 16 && x % 16 == y % 16);
        assert(x == y) by (nonlinear_arith)
            requires
                x / 16 == y / 16,
                x % 16 == y % 16,
        ;
    }
    assert(a =~= b);
}

} // verus!

verus! {

pub proof fn lemma_prefix_push(s: Seq<u8>, p: Seq<u8>, c: u8)
    ensures
        has_prefix(s, p.push(c)) == (has_prefix(s, p) && s.len() > p.len() && s[p.len() as int] == c),
{
    if has_prefix(s, p.push(c)) {
        assert(s.take(p.len() as int) =~= s.take(p.len() as int + 1).take(p.len() as int));
        assert(p.push(c).take(p.len() as int) =~= p);
        assert(s.take(p.len() as int + 1)[p.len() as int] == c);
    }
    if has_prefix(s, p) && s.len() > p.len() && s[p.len() as int] == c {
        assert(s.take(p.len() as int + 1) =~= s.take(p.len() as int).push(c));
    }
}

/// A path that has a prefix as long as itself is that prefix.
pub proof fn lemma_prefix_full(s: Seq<u8>, p: Seq<u8>)
    requires
        has_prefix(s, p),
        s.len() <= p.len(),
    ensures
        s == p,
{
    assert(s =~= s.take(p.len() as int));
}

} // verus!

//! Natural numbers as little-endian byte sequences.
//!
//! An atom's value is an unbounded natural number. In memory it is a run of
//! bytes, least significant first; zero bytes at the high end do not change
//! the value, and the canonical run has none.

use vstd::prelude::*;

verus! {

/// 256 to the power `e`.
pub open spec fn pow256(e: nat) -> nat
    decreases e,
{
    if e == 0 {
        1
    } else {
        256 * pow256((e - 1) as nat)
    }
}

/// The number that a little-endian byte sequence denotes.
pub open spec fn le_value(bytes: Seq<u8>) -> nat
    decreases bytes.len(),
{
    if bytes.len() == 0 {
        0
    } else {
        bytes[0] as nat + 256 * le_value(bytes.skip(1))
    }
}

/// The canonical little-endian bytes of a number: the shortest run that
/// denotes it. Zero is the empty run.
pub open spec fn le_bytes(n: nat) -> Seq<u8>
    decreases n,
{
    if n == 0 {
        Seq::empty()
    } else {
        seq![(n % 256) as u8] + le_bytes(n / 256)
    }
}

/// A byte run is canonical when its most significant byte is not zero.
pub open spec fn canonical(bytes: Seq<u8>) -> bool {
    bytes.len() == 0 || bytes.last() != 0
}

/// The length of a byte run once its zero bytes at the high end are dropped.
pub open spec fn significant(bytes: Seq<u8>) -> nat
    decreases bytes.len(),
{
    if bytes.len() == 0 {
        0
    } else if bytes.last() != 0 {
        bytes.len()
    } else {
        significant(bytes.drop_last())
    }
}

/// Appending a byte at the high end adds that byte, scaled by its position.
pub proof fn lemma_value_push(bytes: Seq<u8>, top: u8)
    ensures
        le_value(bytes.push(top)) == le_value(bytes) + top * pow256(bytes.len()),
    decreases bytes.len(),
{
    let longer = bytes.push(top);
    if bytes.len() == 0 {
        assert(longer.skip(1) =~= Seq::<u8>::empty());
        assert(le_value(longer.skip(1)) == 0);
        assert(pow256(0) == 1);
    } else {
        let rest = bytes.skip(1);
        assert(longer.skip(1) =~= rest.push(top));
        lemma_value_push(rest, top);
        let a = le_value(rest);
        let p = pow256(rest.len());
        let t = top as nat;
        assert(pow256(bytes.len()) == 256 * p);
        assert(256 * (a + t * p) == 256 * a + t * (256 * p)) by (nonlinear_arith);
    }
}

/// A single byte denotes itself.
pub proof fn lemma_value_single(byte: u8)
    ensures
        le_value(seq![byte]) == byte,
{
    let one = seq![byte];
    assert(one.skip(1) =~= Seq::<u8>::empty());
    assert(le_value(one.skip(1)) == 0);
}

/// A run whose top byte is not zero denotes at least 256 to its length less one.
pub proof fn lemma_value_floor(bytes: Seq<u8>)
    requires
        bytes.len() > 0,
        bytes.last() != 0,
    ensures
        le_value(bytes) >= pow256((bytes.len() - 1) as nat),
{
    let low = bytes.drop_last();
    let top = bytes.last();
    assert(bytes =~= low.push(top));
    lemma_value_push(low, top);
    let p = pow256(low.len());
    assert(top * p >= p) by (nonlinear_arith)
        requires
            top >= 1,
            p >= 0,
    ;
}

/// The canonical bytes of a number denote that number.
pub proof fn lemma_value_of_bytes(n: nat)
    ensures
        le_value(le_bytes(n)) == n,
    decreases n,
{
    if n > 0 {
        let bytes = le_bytes(n);
        assert(bytes.skip(1) =~= le_bytes(n / 256));
        lemma_value_of_bytes(n / 256);
    }
}

/// The canonical bytes of a number end in a byte that is not zero.
pub proof fn lemma_bytes_canonical(n: nat)
    ensures
        canonical(le_bytes(n)),
        n > 0 ==> le_bytes(n).len() > 0,
    decreases n,
{
    if n > 0 {
        lemma_bytes_canonical(n / 256);
        let high = le_bytes(n / 256);
        let bytes = le_bytes(n);
        if n / 256 == 0 {
            assert(bytes =~= seq![(n % 256) as u8]);
        } else {
            assert(bytes.last() == high.last());
        }
    }
}

/// A canonical run is the canonical bytes of the number it denotes.
pub proof fn lemma_bytes_of_value(bytes: Seq<u8>)
    requires
        canonical(bytes),
    ensures
        le_bytes(le_value(bytes)) == bytes,
    decreases bytes.len(),
{
    if bytes.len() == 0 {
        assert(le_bytes(0) =~= bytes);
    } else {
        let rest = bytes.skip(1);
        if rest.len() > 0 {
            assert(rest.last() == bytes.last());
            lemma_value_floor(rest);
        }
        lemma_bytes_of_value(rest);
        let v = le_value(bytes);
        assert(v > 0);
        assert(v % 256 == bytes[0] as nat);
        assert(v / 256 == le_value(rest));
        assert(seq![bytes[0]] + rest =~= bytes);
    }
}

/// Zero bytes at the high end do not count: a run denotes what its
/// significant part denotes, and that part is canonical.
pub proof fn lemma_significant(bytes: Seq<u8>)
    ensures
        significant(bytes) <= bytes.len(),
        canonical(bytes.take(significant(bytes) as int)),
        le_value(bytes.take(significant(bytes) as int)) == le_value(bytes),
        le_bytes(le_value(bytes)) == bytes.take(significant(bytes) as int),
        forall|i: int| significant(bytes) <= i < bytes.len() ==> bytes[i] == 0,
    decreases bytes.len(),
{
    let k = significant(bytes) as int;
    if bytes.len() == 0 {
        assert(bytes.take(k) =~= bytes);
    } else if bytes.last() != 0 {
        assert(bytes.take(k) =~= bytes);
    } else {
        let low = bytes.drop_last();
        lemma_significant(low);
        assert(bytes.take(k) =~= low.take(k));
        assert(bytes =~= low.push(0u8));
        lemma_value_push(low, 0u8);
    }
    lemma_bytes_of_value(bytes.take(k));
}

/// The significant length is where the last byte that is not zero ends.
pub proof fn lemma_significant_is(bytes: Seq<u8>, k: nat)
    requires
        k <= bytes.len(),
        k > 0 ==> bytes[k - 1] != 0,
        forall|i: int| k <= i < bytes.len() ==> bytes[i] == 0,
    ensures
        significant(bytes) == k,
    decreases bytes.len(),
{
    if bytes.len() > k {
        lemma_significant_is(bytes.drop_last(), k);
    }
}

/// Two runs denote the same number exactly when their significant parts are
/// the same bytes.
pub proof fn lemma_same_value(a: Seq<u8>, b: Seq<u8>)
    ensures
        le_value(a) == le_value(b) <==> a.take(significant(a) as int) == b.take(
            significant(b) as int,
        ),
{
    lemma_significant(a);
    lemma_significant(b);
}

/// The number of bytes of `bytes` up to its last byte that is not zero.
pub fn significant_len(bytes: &[u8]) -> (k: usize)
    ensures
        k == significant(bytes@),
        k <= bytes@.len(),
{
    let mut k: usize = bytes.len();
    while k > 0 && bytes[k - 1] == 0
        invariant
            k <= bytes@.len(),
            forall|i: int| k <= i < bytes@.len() ==> bytes@[i] == 0,
        decreases k,
    {
        k = k - 1;
    }
    proof {
        lemma_significant_is(bytes@, k as nat);
    }
    k
}

/// The canonical bytes of the number that `bytes` denotes.
pub fn canonical_bytes(bytes: &[u8]) -> (out: Vec<u8>)
    ensures
        out@ == le_bytes(le_value(bytes@)),
{
    let k: usize = significant_len(bytes);
    let mut out: Vec<u8> = Vec::new();
    let mut i: usize = 0;
    while i < k
        invariant
            i <= k <= bytes@.len(),
            out@ == bytes@.take(i as int),
        decreases k - i,
    {
        out.push(bytes[i]);
        assert(bytes@.take(i + 1) =~= bytes@.take(i as int).push(bytes@[i as int]));
        i = i + 1;
    }
    proof {
        lemma_significant(bytes@);
    }
    out
}

/// Every positive power of 256 is at least 256.
pub proof fn lemma_pow256_floor(e: nat)
    ensures
        pow256(e) >= 1,
        e >= 1 ==> pow256(e) >= 256,
    decreases e,
{
    if e > 0 {
        lemma_pow256_floor((e - 1) as nat);
    }
}

/// The number that `bytes` denotes, if it fits in one byte.
pub fn byte_of(bytes: &[u8]) -> (r: Option<u8>)
    ensures
        match r {
            Some(v) => le_value(bytes@) == v,
            None => le_value(bytes@) >= 256,
        },
{
    let k: usize = significant_len(bytes);
    proof {
        lemma_significant(bytes@);
    }
    let ghost part = bytes@.take(k as int);
    if k == 0 {
        Some(0)
    } else if k == 1 {
        proof {
            lemma_value_single(bytes@[0]);
            assert(part =~= seq![bytes@[0]]);
        }
        Some(bytes[0])
    } else {
        proof {
            lemma_value_floor(part);
            lemma_pow256_floor((k - 1) as nat);
        }
        None
    }
}

/// Whether two byte runs denote the same number.
pub fn same_number(a: &[u8], b: &[u8]) -> (r: bool)
    ensures
        r == (le_value(a@) == le_value(b@)),
{
    let ka: usize = significant_len(a);
    let kb: usize = significant_len(b);
    proof {
        lemma_same_value(a@, b@);
    }
    let ghost pa = a@.take(ka as int);
    let ghost pb = b@.take(kb as int);
    if ka != kb {
        assert(pa.len() != pb.len());
        return false;
    }
    let mut i: usize = 0;
    while i < ka
        invariant
            i <= ka,
            ka == kb,
            ka <= a@.len(),
            kb <= b@.len(),
            pa == a@.take(ka as int),
            pb == b@.take(kb as int),
            (le_value(a@) == le_value(b@)) <==> pa == pb,
            forall|j: int| 0 <= j < i ==> a@[j] == b@[j],
        decreases ka - i,
    {
        if a[i] != b[i] {
            assert(pa[i as int] != pb[i as int]);
            return false;
        }
        i = i + 1;
    }
    assert(pa =~= pb);
    true
}

} // verus!

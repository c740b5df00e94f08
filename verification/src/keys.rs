//! Keys made of byte-sized edge symbols.

use vstd::prelude::*;
use crate::text::{
    binary, digits_of, hex_pair, hex_short, push_binary, push_hex_pair, push_hex_short,
};

verus! {

/// How much of two keys is a shared prefix: the outcome of comparing a key that is in the trie
/// with a new key. The number is the length of the shared prefix.
pub enum KeyMatch {
    /// The keys are exactly the same.
    Exact,
    /// The key in the trie is fully matched, the new key has more symbols.
    FullSelf(usize),
    /// The new key is fully matched, the key in the trie has more symbols.
    FullOther(usize),
    /// Both keys match on a non-empty prefix, and both have further symbols.
    Partial(usize),
    /// The keys share no prefix, and neither is empty.
    NoMatch,
}

/// Length of the longest common prefix of `a` and `b`.
pub open spec fn common_prefix_len(a: Seq<u8>, b: Seq<u8>) -> nat
    decreases a.len(),
{
    if a.len() > 0 && b.len() > 0 && a[0] == b[0] {
        1 + common_prefix_len(a.skip(1), b.skip(1))
    } else {
        0
    }
}

/// What holds of a length `p` exactly when it is the common prefix length.
pub open spec fn is_common_prefix_len(a: Seq<u8>, b: Seq<u8>, p: nat) -> bool {
    &&& p <= a.len()
    &&& p <= b.len()
    &&& a.take(p as int) == b.take(p as int)
    &&& (p < a.len() && p < b.len() ==> a[p as int] != b[p as int])
}

/// The common prefix length is the one length at which the keys agree up to it
/// and differ, or one of them ends, right after.
pub proof fn lemma_common_prefix_unique(a: Seq<u8>, b: Seq<u8>, p: nat)
    requires
        is_common_prefix_len(a, b, p),
    ensures
        p == common_prefix_len(a, b),
    decreases a.len(),
{
    if a.len() > 0 && b.len() > 0 && a[0] == b[0] {
        if p == 0 {
            assert(false);
        } else {
            let q = (p - 1) as nat;
            assert(a.take(p as int)[0] == b.take(p as int)[0]);
            assert(a.skip(1).take(q as int) == a.take(p as int).skip(1));
            assert(b.skip(1).take(q as int) == b.take(p as int).skip(1));
            lemma_common_prefix_unique(a.skip(1), b.skip(1), q);
        }
    } else {
        if p > 0 {
            assert(a.take(p as int)[0] == b.take(p as int)[0]);
        }
    }
}

/// Up to the common prefix length the keys agree, and right after it they differ or one ends.
pub proof fn lemma_common_prefix(a: Seq<u8>, b: Seq<u8>)
    ensures
        is_common_prefix_len(a, b, common_prefix_len(a, b)),
    decreases a.len(),
{
    let p = common_prefix_len(a, b);
    if a.len() > 0 && b.len() > 0 && a[0] == b[0] {
        lemma_common_prefix(a.skip(1), b.skip(1));
        let q = (p - 1) as nat;
        assert(a.take(p as int) =~= seq![a[0]] + a.skip(1).take(q as int));
        assert(b.take(p as int) =~= seq![b[0]] + b.skip(1).take(q as int));
    } else {
        assert(a.take(0) =~= b.take(0));
    }
}

/// The relation between a key `a` that is in the trie and a new key `b`.
pub open spec fn key_match(a: Seq<u8>, b: Seq<u8>) -> KeyMatch {
    let prefix = common_prefix_len(a, b);
    if prefix == a.len() && prefix == b.len() {
        KeyMatch::Exact
    } else if prefix == a.len() {
        KeyMatch::FullSelf(prefix as usize)
    } else if prefix == b.len() {
        KeyMatch::FullOther(prefix as usize)
    } else if prefix > 0 {
        KeyMatch::Partial(prefix as usize)
    } else {
        KeyMatch::NoMatch
    }
}

/// The two symbols of a byte as nibbles: the high nibble, then the low nibble.
pub open spec fn nibbles(byte: u8) -> Seq<u8> {
    seq![byte >> 4, byte & 0x0F]
}

/// The eight symbols of a byte as bits, from the most significant bit to the least
/// significant. A symbol is the byte masked to the one bit, not 0 or 1.
pub open spec fn bits(byte: u8) -> Seq<u8> {
    seq![
        byte & 0x80,
        byte & 0x40,
        byte & 0x20,
        byte & 0x10,
        byte & 0x08,
        byte & 0x04,
        byte & 0x02,
        byte & 0x01,
    ]
}

/// The symbols of each byte in turn, one after the other.
pub open spec fn expand(bytes: Seq<u8>, symbols: spec_fn(u8) -> Seq<u8>) -> Seq<u8>
    decreases bytes.len(),
{
    if bytes.len() == 0 {
        Seq::empty()
    } else {
        expand(bytes.drop_last(), symbols) + symbols(bytes.last())
    }
}

/// Where every byte has `count` symbols, `bytes` has `count` symbols for each of its bytes.
pub proof fn lemma_expand_len(bytes: Seq<u8>, symbols: spec_fn(u8) -> Seq<u8>, count: nat)
    requires
        forall|byte: u8| (#[trigger] symbols(byte)).len() == count,
    ensures
        expand(bytes, symbols).len() == count * bytes.len(),
    decreases bytes.len(),
{
    if bytes.len() > 0 {
        lemma_expand_len(bytes.drop_last(), symbols, count);
        assert(count * bytes.len() == count * (bytes.len() - 1) + count) by (nonlinear_arith);
    }
}

/// Where every byte has the same number of symbols, at least one, and no two bytes have the
/// same symbols, no two byte sequences have the same symbols.
pub proof fn lemma_expand_injective(
    a: Seq<u8>,
    b: Seq<u8>,
    symbols: spec_fn(u8) -> Seq<u8>,
    count: nat,
)
    requires
        count > 0,
        forall|byte: u8| (#[trigger] symbols(byte)).len() == count,
        forall|x: u8, y: u8| #[trigger] symbols(x) == #[trigger] symbols(y) ==> x == y,
        expand(a, symbols) == expand(b, symbols),
    ensures
        a == b,
    decreases a.len(),
{
    lemma_expand_len(a, symbols, count);
    lemma_expand_len(b, symbols, count);
    assert(a.len() == b.len()) by (nonlinear_arith)
        requires
            count * a.len() == count * b.len(),
            count > 0,
    ;
    if a.len() > 0 {
        let front_a = expand(a.drop_last(), symbols);
        let front_b = expand(b.drop_last(), symbols);
        lemma_expand_len(a.drop_last(), symbols, count);
        lemma_expand_len(b.drop_last(), symbols, count);
        let whole = expand(a, symbols);
        assert(front_a =~= whole.take(front_a.len() as int));
        assert(front_b =~= whole.take(front_b.len() as int));
        assert(symbols(a.last()) =~= whole.skip(front_a.len() as int));
        assert(symbols(b.last()) =~= whole.skip(front_b.len() as int));
        lemma_expand_injective(a.drop_last(), b.drop_last(), symbols, count);
        assert(a =~= a.drop_last().push(a.last()));
        assert(b =~= b.drop_last().push(b.last()));
    } else {
        assert(a =~= b);
    }
}

/// No two bytes have the same nibbles.
pub proof fn lemma_nibbles_injective(x: u8, y: u8)
    requires
        nibbles(x) == nibbles(y),
    ensures
        x == y,
{
    assert(nibbles(x)[0] == nibbles(y)[0]);
    assert(nibbles(x)[1] == nibbles(y)[1]);
    assert(x >> 4 == y >> 4 && x & 0x0F == y & 0x0F ==> x == y) by (bit_vector);
}

/// No two bytes have the same bits.
pub proof fn lemma_bits_injective(x: u8, y: u8)
    requires
        bits(x) == bits(y),
    ensures
        x == y,
{
    assert(bits(x)[0] == bits(y)[0]);
    assert(bits(x)[1] == bits(y)[1]);
    assert(bits(x)[2] == bits(y)[2]);
    assert(bits(x)[3] == bits(y)[3]);
    assert(bits(x)[4] == bits(y)[4]);
    assert(bits(x)[5] == bits(y)[5]);
    assert(bits(x)[6] == bits(y)[6]);
    assert(bits(x)[7] == bits(y)[7]);
    assert(x & 0x80 == y & 0x80 && x & 0x40 == y & 0x40 && x & 0x20 == y & 0x20 && x & 0x10 == y
        & 0x10 && x & 0x08 == y & 0x08 && x & 0x04 == y & 0x04 && x & 0x02 == y & 0x02 && x & 0x01
        == y & 0x01 ==> x == y) by (bit_vector);
}

/// A key: a sequence of edge symbols that each fit a `u8`.
pub trait BytesKey: View<V = Seq<u8>> + Sized {
    /// The symbols that stand for a sequence of whole bytes.
    spec fn encode(bytes: Seq<u8>) -> Seq<u8>;

    /// The text that stands for a sequence of symbols.
    spec fn text(symbols: Seq<u8>) -> Seq<char>;

    /// Create a key from symbols that are already in the key's representation.
    fn new(vec: Vec<u8>) -> (key: Self)
        ensures
            key@ == vec@,
    ;

    /// Create a key from whole bytes.
    fn from_bytes(bytes: &[u8]) -> (key: Self)
        ensures
            key@ == Self::encode(bytes@),
    ;

    /// The symbols of the key.
    fn get(&self) -> (symbols: &[u8])
        ensures
            symbols@ == self@,
    ;

    /// The symbols of the key, open to change.
    fn get_mut(&mut self) -> (symbols: &mut Vec<u8>)
        ensures
            symbols@ == old(self)@,
            final(self)@ == final(symbols)@,
    ;

    /// The key as text.
    fn to_string(&self) -> (text: String)
        ensures
            text@ == Self::text(self@),
    ;

    /// Compare the shared prefix of two keys. Both keys are in memory, so the length of
    /// either fits a `usize`.
    fn compare(&self, other: &Self) -> (m: KeyMatch)
        ensures
            m == key_match(self@, other@),
            self@.len() <= usize::MAX,
            other@.len() <= usize::MAX,
    {
        let lhs = self.get();
        let rhs = other.get();
        let mut prefix: usize = 0;
        while prefix < lhs.len() && prefix < rhs.len() && lhs[prefix] == rhs[prefix]
            invariant
                prefix <= lhs.len(),
                prefix <= rhs.len(),
                lhs@ == self@,
                rhs@ == other@,
                lhs@.take(prefix as int) == rhs@.take(prefix as int),
            decreases lhs.len() - prefix,
        {
            proof {
                assert(lhs@.take(prefix + 1) == lhs@.take(prefix as int).push(lhs@[prefix as int]));
                assert(rhs@.take(prefix + 1) == rhs@.take(prefix as int).push(rhs@[prefix as int]));
            }
            prefix += 1;
        }
        let self_len = lhs.len();
        let other_len = rhs.len();
        proof {
            lemma_common_prefix_unique(self@, other@, prefix as nat);
        }
        if prefix == self_len && prefix == other_len {
            KeyMatch::Exact
        } else if prefix == self_len && other_len > self_len {
            KeyMatch::FullSelf(prefix)
        } else if prefix == other_len && self_len > other_len {
            KeyMatch::FullOther(prefix)
        } else if prefix > 0 {
            KeyMatch::Partial(prefix)
        } else {
            KeyMatch::NoMatch
        }
    }
}

/// A key whose symbols are whole bytes.
#[derive(Debug)]
pub struct ByteKey(Vec<u8>);

impl View for ByteKey {
    type V = Seq<u8>;

    closed spec fn view(&self) -> Seq<u8> {
        self.0@
    }
}

impl BytesKey for ByteKey {
    open spec fn encode(bytes: Seq<u8>) -> Seq<u8> {
        bytes
    }

    open spec fn text(symbols: Seq<u8>) -> Seq<char> {
        digits_of(symbols, |symbol: u8| hex_pair(symbol))
    }

    fn new(vec: Vec<u8>) -> Self {
        ByteKey(vec)
    }

    fn from_bytes(bytes: &[u8]) -> Self {
        let mut symbols: Vec<u8> = Vec::new();
        let mut i: usize = 0;
        while i < bytes.len()
            invariant
                i <= bytes.len(),
                symbols@ == bytes@.take(i as int),
            decreases bytes.len() - i,
        {
            symbols.push(bytes[i]);
            proof {
                assert(bytes@.take(i + 1) == bytes@.take(i as int).push(bytes@[i as int]));
            }
            i += 1;
        }
        proof {
            assert(bytes@.take(bytes@.len() as int) == bytes@);
        }
        ByteKey(symbols)
    }

    fn get(&self) -> &[u8] {
        self.0.as_slice()
    }

    fn get_mut(&mut self) -> &mut Vec<u8> {
        &mut self.0
    }

    fn to_string(&self) -> String {
        let mut text = String::new();
        let mut i: usize = 0;
        while i < self.0.len()
            invariant
                i <= self.0.len(),
                text@ == digits_of(self.0@.take(i as int), |symbol: u8| hex_pair(symbol)),
            decreases self.0.len() - i,
        {
            push_hex_pair(&mut text, self.0[i]);
            proof {
                let next = self.0@.take(i + 1);
                assert(next.drop_last() == self.0@.take(i as int));
            }
            i += 1;
        }
        proof {
            assert(self.0@.take(self.0@.len() as int) == self.0@);
        }
        text
    }
}

/// A key whose symbols are nibbles: two for each byte.
#[derive(Debug)]
pub struct NibbleKey(Vec<u8>);

impl View for NibbleKey {
    type V = Seq<u8>;

    closed spec fn view(&self) -> Seq<u8> {
        self.0@
    }
}

impl BytesKey for NibbleKey {
    open spec fn encode(bytes: Seq<u8>) -> Seq<u8> {
        expand(bytes, |byte: u8| nibbles(byte))
    }

    open spec fn text(symbols: Seq<u8>) -> Seq<char> {
        digits_of(symbols, |symbol: u8| hex_short(symbol))
    }

    fn new(nibble_vec: Vec<u8>) -> Self {
        NibbleKey(nibble_vec)
    }

    fn from_bytes(bytes: &[u8]) -> Self {
        let mut symbols: Vec<u8> = Vec::new();
        let mut i: usize = 0;
        while i < bytes.len()
            invariant
                i <= bytes.len(),
                symbols@ == expand(bytes@.take(i as int), |byte: u8| nibbles(byte)),
            decreases bytes.len() - i,
        {
            let byte = bytes[i];
            symbols.push(byte >> 4);
            symbols.push(byte & 0x0F);
            proof {
                let next = bytes@.take(i + 1);
                assert(next.drop_last() == bytes@.take(i as int));
                assert(symbols@ =~= expand(next.drop_last(), |byte: u8| nibbles(byte)) + nibbles(
                    next.last(),
                ));
            }
            i += 1;
        }
        proof {
            assert(bytes@.take(bytes@.len() as int) == bytes@);
        }
        NibbleKey(symbols)
    }

    fn get(&self) -> &[u8] {
        self.0.as_slice()
    }

    fn get_mut(&mut self) -> &mut Vec<u8> {
        &mut self.0
    }

    fn to_string(&self) -> String {
        let mut text = String::new();
        let mut i: usize = 0;
        while i < self.0.len()
            invariant
                i <= self.0.len(),
                text@ == digits_of(self.0@.take(i as int), |symbol: u8| hex_short(symbol)),
            decreases self.0.len() - i,
        {
            push_hex_short(&mut text, self.0[i]);
            proof {
                let next = self.0@.take(i + 1);
                assert(next.drop_last() == self.0@.take(i as int));
            }
            i += 1;
        }
        proof {
            assert(self.0@.take(self.0@.len() as int) == self.0@);
        }
        text
    }
}

/// A key whose symbols stand for bits: eight for each byte.
#[derive(Debug)]
pub struct BitKey(Vec<u8>);

impl View for BitKey {
    type V = Seq<u8>;

    closed spec fn view(&self) -> Seq<u8> {
        self.0@
    }
}

impl BytesKey for BitKey {
    open spec fn encode(bytes: Seq<u8>) -> Seq<u8> {
        expand(bytes, |byte: u8| bits(byte))
    }

    open spec fn text(symbols: Seq<u8>) -> Seq<char> {
        digits_of(symbols, |symbol: u8| binary(symbol as nat))
    }

    fn new(bit_vec: Vec<u8>) -> Self {
        BitKey(bit_vec)
    }

    fn from_bytes(bytes: &[u8]) -> Self {
        let mut symbols: Vec<u8> = Vec::new();
        let mut i: usize = 0;
        while i < bytes.len()
            invariant
                i <= bytes.len(),
                symbols@ == expand(bytes@.take(i as int), |byte: u8| bits(byte)),
            decreases bytes.len() - i,
        {
            let byte = bytes[i];
            symbols.push(byte & 0x80);
            symbols.push(byte & 0x40);
            symbols.push(byte & 0x20);
            symbols.push(byte & 0x10);
            symbols.push(byte & 0x08);
            symbols.push(byte & 0x04);
            symbols.push(byte & 0x02);
            symbols.push(byte & 0x01);
            proof {
                let next = bytes@.take(i + 1);
                assert(next.drop_last() == bytes@.take(i as int));
                assert(symbols@ =~= expand(next.drop_last(), |byte: u8| bits(byte)) + bits(
                    next.last(),
                ));
            }
            i += 1;
        }
        proof {
            assert(bytes@.take(bytes@.len() as int) == bytes@);
        }
        BitKey(symbols)
    }

    fn get(&self) -> &[u8] {
        self.0.as_slice()
    }

    fn get_mut(&mut self) -> &mut Vec<u8> {
        &mut self.0
    }

    fn to_string(&self) -> String {
        let mut text = String::new();
        let mut i: usize = 0;
        while i < self.0.len()
            invariant
                i <= self.0.len(),
                text@ == digits_of(self.0@.take(i as int), |symbol: u8| binary(symbol as nat)),
            decreases self.0.len() - i,
        {
            push_binary(&mut text, self.0[i]);
            proof {
                let next = self.0@.take(i + 1);
                assert(next.drop_last() == self.0@.take(i as int));
            }
            i += 1;
        }
        proof {
            assert(self.0@.take(self.0@.len() as int) == self.0@);
        }
        text
    }
}

/// No two byte sequences have the same nibbles.
pub proof fn lemma_nibble_encode_injective(a: Seq<u8>, b: Seq<u8>)
    requires
        NibbleKey::encode(a) == NibbleKey::encode(b),
    ensures
        a == b,
{
    let symbols = |byte: u8| nibbles(byte);
    assert forall|x: u8, y: u8| #[trigger] symbols(x) == #[trigger] symbols(y) implies x == y by {
        lemma_nibbles_injective(x, y);
    }
    lemma_expand_injective(a, b, symbols, 2);
}

/// No two byte sequences have the same bits.
pub proof fn lemma_bit_encode_injective(a: Seq<u8>, b: Seq<u8>)
    requires
        BitKey::encode(a) == BitKey::encode(b),
    ensures
        a == b,
{
    let symbols = |byte: u8| bits(byte);
    assert forall|x: u8, y: u8| #[trigger] symbols(x) == #[trigger] symbols(y) implies x == y by {
        lemma_bits_injective(x, y);
    }
    lemma_expand_injective(a, b, symbols, 8);
}

} // verus!

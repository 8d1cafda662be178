//! Byte-string keys: their lexicographic order and how a storage key is derived.

use vstd::prelude::*;
use crate::common_metric_data::Lifetime;

verus! {

/// Byte that separates the ping name from the metric key in a ping-scoped storage key.
pub const KEY_SEPARATOR: u8 = 35;

/// Strict lexicographic order on byte strings: a proper prefix sorts first,
/// otherwise the first differing byte decides.
pub open spec fn lex_lt(a: Seq<u8>, b: Seq<u8>) -> bool
    decreases a.len(),
{
    if b.len() == 0 {
        false
    } else if a.len() == 0 {
        true
    } else if a[0] == b[0] {
        lex_lt(a.drop_first(), b.drop_first())
    } else {
        a[0] < b[0]
    }
}

/// No byte string sorts before itself.
pub proof fn lemma_lex_irreflexive(a: Seq<u8>)
    ensures
        !lex_lt(a, a),
    decreases a.len(),
{
    if a.len() > 0 {
        lemma_lex_irreflexive(a.drop_first());
    }
}

/// Two byte strings never sort before each other.
pub proof fn lemma_lex_asymmetric(a: Seq<u8>, b: Seq<u8>)
    requires
        lex_lt(a, b),
    ensures
        !lex_lt(b, a),
    decreases a.len(),
{
    if a.len() > 0 && b.len() > 0 && a[0] == b[0] {
        lemma_lex_asymmetric(a.drop_first(), b.drop_first());
    }
}

/// Any two distinct byte strings are ordered one way or the other.
pub proof fn lemma_lex_total(a: Seq<u8>, b: Seq<u8>)
    ensures
        lex_lt(a, b) || a == b || lex_lt(b, a),
    decreases a.len(),
{
    if a.len() == 0 || b.len() == 0 {
        if a.len() == 0 && b.len() == 0 {
            assert(a =~= b);
        }
    } else if a[0] == b[0] {
        lemma_lex_total(a.drop_first(), b.drop_first());
        if a.drop_first() == b.drop_first() {
            assert(a =~= seq![a[0]] + a.drop_first());
            assert(b =~= seq![b[0]] + b.drop_first());
        }
    }
}

/// The strict order is transitive.
pub proof fn lemma_lex_transitive(a: Seq<u8>, b: Seq<u8>, c: Seq<u8>)
    requires
        lex_lt(a, b),
        lex_lt(b, c),
    ensures
        lex_lt(a, c),
    decreases a.len(),
{
    if a.len() > 0 && a[0] == b[0] && b[0] == c[0] {
        lemma_lex_transitive(a.drop_first(), b.drop_first(), c.drop_first());
    }
}

/// How one key stands to another in lexicographic order.
#[derive(Clone, Copy, Debug, PartialEq, Eq, Structural)]
pub enum KeyOrder {
    Less,
    Equal,
    Greater,
}

/// Compares two keys lexicographically.
pub fn compare_keys(a: &[u8], b: &[u8]) -> (r: KeyOrder)
    ensures
        r is Less <==> lex_lt(a@, b@),
        r is Equal <==> a@ == b@,
        r is Greater <==> lex_lt(b@, a@),
{
    let mut i: usize = 0;
    proof {
        assert(a@.skip(0) =~= a@);
        assert(b@.skip(0) =~= b@);
    }
    while i < a.len() && i < b.len()
        invariant
            i <= a.len(),
            i <= b.len(),
            forall|j: int| 0 <= j < i ==> a@[j] == b@[j],
            lex_lt(a@, b@) == lex_lt(a@.skip(i as int), b@.skip(i as int)),
            lex_lt(b@, a@) == lex_lt(b@.skip(i as int), a@.skip(i as int)),
        decreases a.len() - i,
    {
        let x: u8 = a[i];
        let y: u8 = b[i];
        proof {
            assert(a@.skip(i as int)[0] == x);
            assert(b@.skip(i as int)[0] == y);
            assert(a@.skip(i as int).drop_first() =~= a@.skip(i as int + 1));
            assert(b@.skip(i as int).drop_first() =~= b@.skip(i as int + 1));
        }
        if x < y {
            return KeyOrder::Less;
        }
        if y < x {
            return KeyOrder::Greater;
        }
        i = i + 1;
    }
    if i < b.len() {
        KeyOrder::Less
    } else if i < a.len() {
        KeyOrder::Greater
    } else {
        assert(a@ =~= b@);
        proof {
            lemma_lex_irreflexive(a@);
        }
        KeyOrder::Equal
    }
}

/// The storage key of a value: ping-scoped values are keyed by ping name, separator
/// and metric key; values of the other scopes by the metric key alone.
pub open spec fn storage_key(lifetime: Lifetime, ping_name: Seq<u8>, key: Seq<u8>) -> Seq<u8> {
    match lifetime {
        Lifetime::Ping => ping_name + seq![KEY_SEPARATOR] + key,
        _ => key,
    }
}

/// Ping names that do not hold the separator keep their metrics apart: two
/// ping-scoped storage keys are equal only where both the ping names and the metric
/// keys are.
pub proof fn lemma_ping_keys_apart(ping_a: Seq<u8>, key_a: Seq<u8>, ping_b: Seq<u8>, key_b: Seq<u8>)
    requires
        !ping_a.contains(KEY_SEPARATOR),
        !ping_b.contains(KEY_SEPARATOR),
        storage_key(Lifetime::Ping, ping_a, key_a) == storage_key(Lifetime::Ping, ping_b, key_b),
    ensures
        ping_a == ping_b,
        key_a == key_b,
{
    let a = storage_key(Lifetime::Ping, ping_a, key_a);
    let b = storage_key(Lifetime::Ping, ping_b, key_b);
    assert(a[ping_a.len() as int] == KEY_SEPARATOR);
    assert(b[ping_b.len() as int] == KEY_SEPARATOR);
    if ping_a.len() < ping_b.len() {
        assert(b[ping_a.len() as int] == ping_b[ping_a.len() as int]);
    } else if ping_b.len() < ping_a.len() {
        assert(a[ping_b.len() as int] == ping_a[ping_b.len() as int]);
    }
    assert(ping_a =~= a.subrange(0, ping_a.len() as int));
    assert(ping_b =~= b.subrange(0, ping_b.len() as int));
    assert(key_a =~= a.subrange(ping_a.len() as int + 1, a.len() as int));
    assert(key_b =~= b.subrange(ping_b.len() as int + 1, b.len() as int));
}

/// Appends the bytes of `src` to `dst`.
pub fn append_bytes(dst: &mut Vec<u8>, src: &[u8])
    ensures
        final(dst)@ == old(dst)@ + src@,
{
    let mut i: usize = 0;
    while i < src.len()
        invariant
            i <= src.len(),
            dst@ == old(dst)@ + src@.take(i as int),
        decreases src.len() - i,
    {
        dst.push(src[i]);
        proof {
            assert(src@.take(i as int + 1) =~= src@.take(i as int).push(src@[i as int]));
        }
        i = i + 1;
    }
    proof {
        assert(src@.take(i as int) =~= src@);
    }
}

/// Derives the storage key of `key` recorded for `ping_name` under `lifetime`.
pub fn build_storage_key(lifetime: Lifetime, ping_name: &[u8], key: &[u8]) -> (r: Vec<u8>)
    ensures
        r@ == storage_key(lifetime, ping_name@, key@),
{
    let mut out: Vec<u8> = Vec::new();
    match lifetime {
        Lifetime::Ping => {
            append_bytes(&mut out, ping_name);
            out.push(KEY_SEPARATOR);
            append_bytes(&mut out, key);
        },
        _ => {
            append_bytes(&mut out, key);
        },
    }
    out
}

} // verus!

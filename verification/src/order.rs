use vstd::prelude::*;

verus! {

/// Strict lexicographic order on raw byte sequences. Keys and values are
/// arbitrary bytes, and the sorted index orders its entries purely by this
/// relation on their keys.
pub open spec fn key_lt(a: Seq<u8>, b: Seq<u8>) -> bool
    decreases a.len(),
{
    if b.len() == 0 {
        false
    } else if a.len() == 0 {
        true
    } else if a[0] < b[0] {
        true
    } else if b[0] < a[0] {
        false
    } else {
        key_lt(a.drop_first(), b.drop_first())
    }
}

pub proof fn lemma_key_lt_irrefl(a: Seq<u8>)
    ensures
        !key_lt(a, a),
    decreases a.len(),
{
    if a.len() > 0 {
        lemma_key_lt_irrefl(a.drop_first());
    }
}

pub proof fn lemma_key_lt_trans(a: Seq<u8>, b: Seq<u8>, c: Seq<u8>)
    requires
        key_lt(a, b),
        key_lt(b, c),
    ensures
        key_lt(a, c),
    decreases a.len(),
{
    if a.len() > 0 && b.len() > 0 && c.len() > 0 && a[0] == b[0] && b[0] == c[0] {
        lemma_key_lt_trans(a.drop_first(), b.drop_first(), c.drop_first());
    }
}

/// Two keys that neither order below the other are the same key.
pub proof fn lemma_key_lt_connected(a: Seq<u8>, b: Seq<u8>)
    requires
        !key_lt(a, b),
        !key_lt(b, a),
    ensures
        a == b,
    decreases a.len(),
{
    if a.len() > 0 && b.len() > 0 {
        if a[0] == b[0] {
            lemma_key_lt_connected(a.drop_first(), b.drop_first());
            assert forall|i: int| 0 <= i < a.len() implies a[i] == b[i] by {
                if i > 0 {
                    assert(a[i] == a.drop_first()[i - 1]);
                    assert(b[i] == b.drop_first()[i - 1]);
                }
            }
            assert(a =~= b);
        }
    } else {
        assert(a =~= b);
    }
}

proof fn lemma_key_lt_prefix(a: Seq<u8>, b: Seq<u8>)
    requires
        a.len() < b.len(),
        forall|j: int| 0 <= j < a.len() ==> a[j] == b[j],
    ensures
        key_lt(a, b),
    decreases a.len(),
{
    if a.len() > 0 {
        assert forall|j: int| 0 <= j < a.drop_first().len() implies a.drop_first()[j]
            == b.drop_first()[j] by {
            assert(a[j + 1] == b[j + 1]);
        }
        lemma_key_lt_prefix(a.drop_first(), b.drop_first());
    }
}

proof fn lemma_key_lt_diff(a: Seq<u8>, b: Seq<u8>, i: int)
    requires
        0 <= i < a.len(),
        i < b.len(),
        forall|j: int| 0 <= j < i ==> a[j] == b[j],
        a[i] < b[i],
    ensures
        key_lt(a, b),
    decreases i,
{
    if i > 0 {
        assert forall|j: int| 0 <= j < i - 1 implies a.drop_first()[j] == b.drop_first()[j] by {
            assert(a[j + 1] == b[j + 1]);
        }
        assert(a.drop_first()[i - 1] == a[i]);
        assert(b.drop_first()[i - 1] == b[i]);
        lemma_key_lt_diff(a.drop_first(), b.drop_first(), i - 1);
    }
}

/// Outcome of a three-way key comparison.
pub enum KeyOrder {
    Less,
    Equal,
    Greater,
}

/// Three-way comparison of two byte keys, lexicographic on raw bytes.
pub fn key_cmp(a: &[u8], b: &[u8]) -> (r: KeyOrder)
    ensures
        match r {
            KeyOrder::Less => key_lt(a@, b@),
            KeyOrder::Equal => a@ == b@,
            KeyOrder::Greater => key_lt(b@, a@),
        },
{
    let mut i: usize = 0;
    loop
        invariant
            i <= a@.len(),
            i <= b@.len(),
            forall|j: int| 0 <= j < i ==> a@[j] == b@[j],
        decreases a@.len() - i,
    {
        if i == a.len() {
            if i == b.len() {
                proof {
                    assert(a@ =~= b@);
                }
                return KeyOrder::Equal;
            } else {
                proof {
                    lemma_key_lt_prefix(a@, b@);
                }
                return KeyOrder::Less;
            }
        }
        if i == b.len() {
            proof {
                lemma_key_lt_prefix(b@, a@);
            }
            return KeyOrder::Greater;
        }
        let x = a[i];
        let y = b[i];
        if x < y {
            proof {
                lemma_key_lt_diff(a@, b@, i as int);
            }
            return KeyOrder::Less;
        }
        if y < x {
            proof {
                lemma_key_lt_diff(b@, a@, i as int);
            }
            return KeyOrder::Greater;
        }
        i = i + 1;
    }
}

} // verus!

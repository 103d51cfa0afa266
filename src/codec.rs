use vstd::prelude::*;

use crate::error::Error;

verus! {

/// The eight bytes of `x`, most significant first.
pub open spec fn be_bytes(x: u64) -> Seq<u8> {
    seq![
        (x >> 56u64) as u8,
        (x >> 48u64) as u8,
        (x >> 40u64) as u8,
        (x >> 32u64) as u8,
        (x >> 24u64) as u8,
        (x >> 16u64) as u8,
        (x >> 8u64) as u8,
        x as u8,
    ]
}

/// The integer whose big-endian bytes are the first eight of `b`.
pub open spec fn be_value(b: Seq<u8>) -> u64
    recommends
        b.len() >= 8,
{
    ((b[0] as u64) << 56u64) | ((b[1] as u64) << 48u64) | ((b[2] as u64) << 40u64) | ((
    b[3] as u64) << 32u64) | ((b[4] as u64) << 24u64) | ((b[5] as u64) << 16u64) | ((
    b[6] as u64) << 8u64) | (b[7] as u64)
}

/// The single byte that stores a boolean.
pub open spec fn bool_byte(b: bool) -> u8 {
    if b {
        1u8
    } else {
        0u8
    }
}

/// The sixteen-byte key under which a prefix store keeps `(prefix, key)`.
pub open spec fn composite_bytes(prefix: u64, key: u64) -> Seq<u8> {
    be_bytes(prefix) + be_bytes(key)
}

/// Decoding the big-endian bytes of an integer gives the integer back.
pub proof fn lemma_be_round_trip(x: u64)
    ensures
        be_value(be_bytes(x)) == x,
{
    let b = be_bytes(x);
    let b0 = (x >> 56u64) as u8;
    let b1 = (x >> 48u64) as u8;
    let b2 = (x >> 40u64) as u8;
    let b3 = (x >> 32u64) as u8;
    let b4 = (x >> 24u64) as u8;
    let b5 = (x >> 16u64) as u8;
    let b6 = (x >> 8u64) as u8;
    let b7 = x as u8;
    assert(b[0] == b0 && b[1] == b1 && b[2] == b2 && b[3] == b3);
    assert(b[4] == b4 && b[5] == b5 && b[6] == b6 && b[7] == b7);
    assert(((b0 as u64) << 56u64) | ((b1 as u64) << 48u64) | ((b2 as u64) << 40u64) | ((
    b3 as u64) << 32u64) | ((b4 as u64) << 24u64) | ((b5 as u64) << 16u64) | ((b6 as u64)
        << 8u64) | (b7 as u64) == x) by (bit_vector)
        requires
            b0 == (x >> 56u64) as u8,
            b1 == (x >> 48u64) as u8,
            b2 == (x >> 40u64) as u8,
            b3 == (x >> 32u64) as u8,
            b4 == (x >> 24u64) as u8,
            b5 == (x >> 16u64) as u8,
            b6 == (x >> 8u64) as u8,
            b7 == x as u8,
    ;
}

/// Encodes an integer as its eight big-endian bytes.
pub fn integer_to_bytes(x: u64) -> (r: Vec<u8>)
    ensures
        r@ == be_bytes(x),
{
    let r: Vec<u8> = vec![
        (x >> 56u64) as u8,
        (x >> 48u64) as u8,
        (x >> 40u64) as u8,
        (x >> 32u64) as u8,
        (x >> 24u64) as u8,
        (x >> 16u64) as u8,
        (x >> 8u64) as u8,
        x as u8,
    ];
    assert(r@ =~= be_bytes(x));
    r
}

/// Decodes the first eight bytes as a big-endian integer; fewer than eight
/// bytes are refused.
pub fn integer_from_bytes(bytes: &Vec<u8>) -> (r: Result<u64, Error>)
    ensures
        bytes@.len() >= 8 <==> r is Ok,
        r is Ok ==> r->Ok_0 == be_value(bytes@),
        r is Err ==> r->Err_0 matches Error::Standard { .. },
{
    if bytes.len() < 8 {
        return Err(Error::new(String::from_str("Item not a valid integer")));
    }
    let v: u64 = ((bytes[0] as u64) << 56u64) | ((bytes[1] as u64) << 48u64) | ((
    bytes[2] as u64) << 40u64) | ((bytes[3] as u64) << 32u64) | ((bytes[4] as u64) << 24u64)
        | ((bytes[5] as u64) << 16u64) | ((bytes[6] as u64) << 8u64) | (bytes[7] as u64);
    Ok(v)
}

/// Encodes a boolean as one byte, 1 for true and 0 for false.
pub fn bool_to_bytes(b: bool) -> (r: Vec<u8>)
    ensures
        r@ == seq![bool_byte(b)],
{
    let r: Vec<u8> = if b {
        vec![1u8]
    } else {
        vec![0u8]
    };
    assert(r@ =~= seq![bool_byte(b)]);
    r
}

/// Decodes a boolean from exactly one byte that is 0 or 1.
pub fn bool_from_bytes(bytes: &Vec<u8>) -> (r: Result<bool, Error>)
    ensures
        r is Ok <==> (bytes@ == seq![1u8] || bytes@ == seq![0u8]),
        r is Ok ==> r->Ok_0 == (bytes@ == seq![1u8]),
        r is Err ==> r->Err_0 matches Error::Standard { .. },
{
    if bytes.len() == 1 && bytes[0] == 1u8 {
        assert(bytes@ =~= seq![1u8]);
        Ok(true)
    } else if bytes.len() == 1 && bytes[0] == 0u8 {
        assert(bytes@ =~= seq![0u8]);
        Ok(false)
    } else {
        proof {
            if bytes@ == seq![1u8] || bytes@ == seq![0u8] {
                assert(bytes@.len() == 1);
            }
        }
        Err(Error::new(String::from_str("Item not a valid boolean")))
    }
}

/// The sixteen-byte key `prefix ‖ key`, both halves big-endian, so that a
/// byte-ordered store iterates keys grouped by prefix.
pub fn create_composite_key(prefix: &u64, key: &u64) -> (r: [u8; 16])
    ensures
        r@ == composite_bytes(*prefix, *key),
{
    let mut composite_key: [u8; 16] = [0u8; 16];
    let prefix_bytes = integer_to_bytes(*prefix);
    let key_bytes = integer_to_bytes(*key);
    let mut i: usize = 0;
    while i < 8
        invariant
            0 <= i <= 8,
            prefix_bytes@ == be_bytes(*prefix),
            key_bytes@ == be_bytes(*key),
            composite_key@.len() == 16,
            forall|j: int| 0 <= j < i ==> composite_key@[j] == prefix_bytes@[j],
            forall|j: int| 0 <= j < i ==> composite_key@[j + 8] == key_bytes@[j],
        decreases 8 - i,
    {
        composite_key[i] = prefix_bytes[i];
        composite_key[i + 8] = key_bytes[i];
        i = i + 1;
    }
    assert(composite_key@ =~= composite_bytes(*prefix, *key));
    composite_key
}

/// The prefix and the key of a sixteen-byte composite key; any other length
/// is refused.
pub fn split_composite_key(key: &Vec<u8>) -> (r: Result<(u64, u64), Error>)
    ensures
        key@.len() == 16 <==> r is Ok,
        r matches Ok(pair) ==> pair.0 == be_value(key@) && pair.1 == be_value(
            key@.subrange(8, 16),
        ),
        r is Err ==> r->Err_0 matches Error::Standard { .. },
{
    if key.len() != 16 {
        return Err(Error::new(String::from_str("Stored key is not a prefix and a key")));
    }
    let mut front: Vec<u8> = Vec::new();
    let mut back: Vec<u8> = Vec::new();
    let mut i: usize = 0;
    while i < 8
        invariant
            0 <= i <= 8,
            key@.len() == 16,
            front@ == key@.subrange(0, i as int),
            back@ == key@.subrange(8, 8 + i),
        decreases 8 - i,
    {
        front.push(key[i]);
        back.push(key[i + 8]);
        assert(front@ =~= key@.subrange(0, i + 1));
        assert(back@ =~= key@.subrange(8, 8 + i + 1));
        i = i + 1;
    }
    let prefix = integer_from_bytes(&front).unwrap();
    let sub_key = integer_from_bytes(&back).unwrap();
    Ok((prefix, sub_key))
}

/// Splitting a composite key gives back the prefix and the key it was made of.
pub proof fn lemma_composite_round_trip(prefix: u64, key: u64)
    ensures
        be_value(composite_bytes(prefix, key)) == prefix,
        be_value(composite_bytes(prefix, key).subrange(8, 16)) == key,
{
    let c = composite_bytes(prefix, key);
    lemma_be_round_trip(prefix);
    lemma_be_round_trip(key);
    assert(c.subrange(8, 16) =~= be_bytes(key));
    assert(forall|i: int| 0 <= i < 8 ==> c[i] == be_bytes(prefix)[i]);
}

} // verus!

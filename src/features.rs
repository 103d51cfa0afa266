use vstd::prelude::*;

use std::collections::hash_map::DefaultHasher;
use std::hash::Hasher;
use vstd::std_specs::hash::DefaultHasherAdditionalSpecFns;
use vstd::utf8::encode_utf8;

verus! {

/// One categorical feature of an item: a feature name and its value.
#[derive(Debug, Clone)]
pub struct FeatureValue {
    feature_name: String,
    value: usize,
}

impl View for FeatureValue {
    type V = (Seq<char>, usize);

    closed spec fn view(&self) -> (Seq<char>, usize) {
        (self.feature_name@, self.value)
    }
}

/// The eight bytes of `x`, least significant first.
pub open spec fn le_bytes(x: u64) -> Seq<u8> {
    seq![
        x as u8,
        (x >> 8u64) as u8,
        (x >> 16u64) as u8,
        (x >> 24u64) as u8,
        (x >> 32u64) as u8,
        (x >> 40u64) as u8,
        (x >> 48u64) as u8,
        (x >> 56u64) as u8,
    ]
}

/// What hashing a name feeds the hasher: its UTF-8 bytes, then `0xff`.
pub open spec fn name_writes(name: Seq<char>) -> Seq<Seq<u8>> {
    seq![encode_utf8(name), seq![0xffu8]]
}

/// What hashing a feature value feeds the hasher: the value first, then the name.
pub open spec fn feature_writes(f: (Seq<char>, usize)) -> Seq<Seq<u8>> {
    seq![le_bytes(f.1 as u64)] + name_writes(f.0)
}

/// What hashing a sequence of names feeds the hasher, name after name.
pub open spec fn names_writes(names: Seq<Seq<char>>) -> Seq<Seq<u8>>
    decreases names.len(),
{
    if names.len() == 0 {
        Seq::empty()
    } else {
        names_writes(names.drop_last()) + name_writes(names.last())
    }
}

/// What hashing a sequence of feature values feeds the hasher, one after another.
pub open spec fn features_writes(fs: Seq<(Seq<char>, usize)>) -> Seq<Seq<u8>>
    decreases fs.len(),
{
    if fs.len() == 0 {
        Seq::empty()
    } else {
        features_writes(fs.drop_last()) + feature_writes(fs.last())
    }
}

/// The stable hash of one feature value.
pub open spec fn value_hash(f: (Seq<char>, usize)) -> u64 {
    DefaultHasher::spec_finish(feature_writes(f))
}

/// The stable hash of an ordered sequence of feature values.
pub open spec fn features_hash(fs: Seq<(Seq<char>, usize)>) -> u64 {
    DefaultHasher::spec_finish(features_writes(fs))
}

/// The stable hash of an ordered sequence of feature names.
pub open spec fn names_hash(names: Seq<Seq<char>>) -> u64 {
    DefaultHasher::spec_finish(names_writes(names))
}

/// The views of a sequence of feature values.
pub open spec fn views_of(fs: Seq<FeatureValue>) -> Seq<(Seq<char>, usize)> {
    fs.map_values(|f: FeatureValue| f@)
}

/// The names of a sequence of feature values, in order.
pub open spec fn names_of(fs: Seq<(Seq<char>, usize)>) -> Seq<Seq<char>> {
    fs.map_values(|f: (Seq<char>, usize)| f.0)
}

/// The views of a sequence of strings.
pub open spec fn strings_of(names: Seq<String>) -> Seq<Seq<char>> {
    names.map_values(|n: String| n@)
}

fn le_bytes_of(x: u64) -> (r: Vec<u8>)
    ensures
        r@ == le_bytes(x),
{
    let r: Vec<u8> = vec![
        x as u8,
        (x >> 8u64) as u8,
        (x >> 16u64) as u8,
        (x >> 24u64) as u8,
        (x >> 32u64) as u8,
        (x >> 40u64) as u8,
        (x >> 48u64) as u8,
        (x >> 56u64) as u8,
    ];
    assert(r@ =~= le_bytes(x));
    r
}

fn write_name(hasher: &mut DefaultHasher, name: &String)
    ensures
        final(hasher)@ == old(hasher)@ + name_writes(name@),
{
    let bytes = name.as_str().as_bytes();
    hasher.write(bytes);
    let terminator: Vec<u8> = vec![0xffu8];
    hasher.write(terminator.as_slice());
    assert(terminator@ =~= seq![0xffu8]);
    assert(final(hasher)@ =~= old(hasher)@ + name_writes(name@));
}

fn write_feature(hasher: &mut DefaultHasher, f: &FeatureValue)
    ensures
        final(hasher)@ == old(hasher)@ + feature_writes(f@),
{
    let value_bytes = le_bytes_of(f.value as u64);
    hasher.write(value_bytes.as_slice());
    write_name(hasher, &f.feature_name);
    assert(final(hasher)@ =~= old(hasher)@ + feature_writes(f@));
}

impl FeatureValue {
    pub fn new(feature_name: String, value: usize) -> (r: FeatureValue)
        ensures
            r@ == (feature_name@, value),
    {
        FeatureValue { feature_name, value }
    }

    pub fn get_name(&self) -> (r: &String)
        ensures
            r@ == self@.0,
    {
        &self.feature_name
    }

    pub fn get_value(&self) -> (r: usize)
        ensures
            r == self@.1,
    {
        self.value
    }

    /// The stable hash of this feature value, which keys its slot in every node.
    pub fn get_hash(&self) -> (r: u64)
        ensures
            r == value_hash(self@),
    {
        let mut hasher = DefaultHasher::new();
        write_feature(&mut hasher, self);
        assert(hasher@ =~= feature_writes(self@));
        hasher.finish()
    }
}

/// The stable hash of an ordered sequence of feature values: the identity of
/// a full path's bucket, or of an inner node's prefix.
pub fn create_hash(features: &[FeatureValue]) -> (r: u64)
    ensures
        r == features_hash(views_of(features@)),
{
    let mut hasher = DefaultHasher::new();
    let mut i: usize = 0;
    while i < features.len()
        invariant
            0 <= i <= features@.len(),
            hasher@ == features_writes(views_of(features@.take(i as int))),
        decreases features@.len() - i,
    {
        write_feature(&mut hasher, &features[i]);
        proof {
            let next = views_of(features@.take(i + 1));
            assert(next.drop_last() =~= views_of(features@.take(i as int)));
            assert(next.last() == features@[i as int]@);
        }
        i = i + 1;
    }
    assert(features@.take(features@.len() as int) =~= features@);
    hasher.finish()
}

/// The stable hash of an ordered sequence of feature names: a schema's
/// fingerprint, and the identity of its root node.
pub fn create_names_hash(names: &[String]) -> (r: u64)
    ensures
        r == names_hash(strings_of(names@)),
{
    let mut hasher = DefaultHasher::new();
    let mut i: usize = 0;
    while i < names.len()
        invariant
            0 <= i <= names@.len(),
            hasher@ == names_writes(strings_of(names@.take(i as int))),
        decreases names@.len() - i,
    {
        write_name(&mut hasher, &names[i]);
        proof {
            let next = strings_of(names@.take(i + 1));
            assert(next.drop_last() =~= strings_of(names@.take(i as int)));
            assert(next.last() == names@[i as int]@);
        }
        i = i + 1;
    }
    assert(names@.take(names@.len() as int) =~= names@);
    hasher.finish()
}

/// The stable hash of the names of a sequence of feature values, in order.
pub fn create_feature_names_hash(features: &[FeatureValue]) -> (r: u64)
    ensures
        r == names_hash(names_of(views_of(features@))),
{
    let mut hasher = DefaultHasher::new();
    let mut i: usize = 0;
    while i < features.len()
        invariant
            0 <= i <= features@.len(),
            hasher@ == names_writes(names_of(views_of(features@.take(i as int)))),
        decreases features@.len() - i,
    {
        write_name(&mut hasher, features[i].get_name());
        proof {
            let next = names_of(views_of(features@.take(i + 1)));
            assert(next.drop_last() =~= names_of(views_of(features@.take(i as int))));
            assert(next.last() == features@[i as int]@.0);
        }
        i = i + 1;
    }
    assert(features@.take(features@.len() as int) =~= features@);
    hasher.finish()
}


/// The hash of every prefix of `features`, the empty one first.
pub fn prefix_hashes(features: &[FeatureValue]) -> (r: Vec<u64>)
    ensures
        r@.len() == features@.len() + 1,
        forall|i: int|
            0 <= i <= features@.len() ==> r@[i] == features_hash(
                #[trigger] views_of(features@).take(i),
            ),
{
    let ghost fs = views_of(features@);
    let mut hasher = DefaultHasher::new();
    let mut r: Vec<u64> = Vec::new();
    let mut i: usize = 0;
    assert(fs.take(0) =~= Seq::<(Seq<char>, usize)>::empty());
    while i < features.len()
        invariant
            0 <= i <= features@.len(),
            fs == views_of(features@),
            hasher@ == features_writes(fs.take(i as int)),
            r@.len() == i,
            forall|j: int| 0 <= j < i ==> r@[j] == features_hash(#[trigger] fs.take(j)),
        decreases features@.len() - i,
    {
        r.push(hasher.finish());
        write_feature(&mut hasher, &features[i]);
        proof {
            let next = fs.take(i + 1);
            assert(next.drop_last() =~= fs.take(i as int));
            assert(next.last() == features@[i as int]@);
        }
        i = i + 1;
    }
    r.push(hasher.finish());
    r
}

} // verus!

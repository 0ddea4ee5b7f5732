//! The XOR fold of a byte buffer through a key sequence.
use vstd::prelude::*;

verus! {

/// Which way a buffer is folded through the key sequence.
#[derive(Clone, Copy, Debug, PartialEq, Eq, Structural)]
pub enum Direction {
    /// Keys are applied first to last.
    Encrypt,
    /// Keys are applied last to first.
    Decrypt,
}

/// The byte `b` XOR-ed with every key of `keys`, first to last.
pub open spec fn fold_keys(b: u8, keys: Seq<u8>) -> u8
    decreases keys.len(),
{
    if keys.len() == 0 {
        b
    } else {
        fold_keys(b, keys.drop_last()) ^ keys.last()
    }
}

/// Every byte of `data` folded through `keys`, each byte on its own.
pub open spec fn fold_bytes(data: Seq<u8>, keys: Seq<u8>) -> Seq<u8> {
    Seq::new(data.len(), |i: int| fold_keys(data[i], keys))
}

/// The order in which the keys are applied for `direction`.
pub open spec fn key_order(keys: Seq<u8>, direction: Direction) -> Seq<u8> {
    match direction {
        Direction::Encrypt => keys,
        Direction::Decrypt => keys.reverse(),
    }
}

/// What `transform` makes of `data` with `keys` in `direction`.
pub open spec fn transformed(data: Seq<u8>, keys: Seq<u8>, direction: Direction) -> Seq<u8> {
    fold_bytes(data, key_order(keys, direction))
}

/// XORs every byte of `data` with each key of `keys`, in the order given.
pub fn process_file_data(data: Vec<u8>, keys: Vec<u8>) -> (r: Vec<u8>)
    ensures
        r@ == fold_bytes(data@, keys@),
{
    let mut processed: Vec<u8> = Vec::new();
    let mut i: usize = 0;
    while i < data.len()
        invariant
            i <= data.len(),
            processed@ == fold_bytes(data@.take(i as int), keys@),
        decreases data.len() - i,
    {
        let mut byte = data[i];
        let mut j: usize = 0;
        while j < keys.len()
            invariant
                j <= keys.len(),
                i < data.len(),
                byte == fold_keys(data@[i as int], keys@.take(j as int)),
            decreases keys.len() - j,
        {
            assert(keys@.take(j + 1).drop_last() =~= keys@.take(j as int));
            byte = byte ^ keys[j];
            j += 1;
        }
        assert(keys@.take(keys.len() as int) =~= keys@);
        processed.push(byte);
        i += 1;
        assert(processed@ =~= fold_bytes(data@.take(i as int), keys@));
    }
    assert(data@.take(data.len() as int) =~= data@);
    processed
}

/// A new vector holding the elements of `keys` last to first.
pub fn reversed(keys: &Vec<u8>) -> (r: Vec<u8>)
    ensures
        r@ == keys@.reverse(),
{
    let mut r: Vec<u8> = Vec::new();
    let n = keys.len();
    let mut i: usize = 0;
    while i < n
        invariant
            i <= n,
            n == keys.len(),
            r@.len() == i,
            forall|k: int| 0 <= k < i ==> r@[k] == keys@[n - 1 - k],
        decreases n - i,
    {
        r.push(keys[n - 1 - i]);
        i += 1;
    }
    assert(r@ =~= keys@.reverse());
    r
}

/// Folds every byte of `data` through `keys`: in sequence order for
/// `Encrypt`, in reverse order for `Decrypt`. The output has the length of
/// the input, and byte `i` of it depends on byte `i` of `data` alone.
pub fn transform(data: Vec<u8>, keys: Vec<u8>, direction: Direction) -> (r: Vec<u8>)
    ensures
        r@ == transformed(data@, keys@, direction),
        r@.len() == data@.len(),
{
    match direction {
        Direction::Encrypt => process_file_data(data, keys),
        Direction::Decrypt => {
            let backwards = reversed(&keys);
            process_file_data(data, backwards)
        },
    }
}

/// Folding through `[a] ++ rest` is XOR-ing with `a`, then folding through `rest`.
proof fn lemma_fold_prepend(b: u8, a: u8, rest: Seq<u8>)
    ensures
        fold_keys(b, seq![a] + rest) == fold_keys(b ^ a, rest),
    decreases rest.len(),
{
    let ks = seq![a] + rest;
    assert(ks.len() > 0);
    if rest.len() == 0 {
        assert(ks.drop_last() =~= Seq::<u8>::empty());
        assert(fold_keys(b, ks) == fold_keys(b, ks.drop_last()) ^ ks.last());
        assert(fold_keys(b, ks.drop_last()) == b);
        assert(ks.last() == a);
    } else {
        assert(ks.drop_last() =~= seq![a] + rest.drop_last());
        assert(ks.last() == rest.last());
        lemma_fold_prepend(b, a, rest.drop_last());
        assert(fold_keys(b, ks) == fold_keys(b, ks.drop_last()) ^ ks.last());
        assert(fold_keys(b ^ a, rest) == fold_keys(b ^ a, rest.drop_last()) ^ rest.last());
    }
}

/// Folding through the reversed keys undoes folding through the keys.
proof fn lemma_fold_undo(b: u8, keys: Seq<u8>)
    ensures
        fold_keys(fold_keys(b, keys), keys.reverse()) == b,
    decreases keys.len(),
{
    if keys.len() > 0 {
        let front = keys.drop_last();
        let a = keys.last();
        assert(keys.reverse() =~= seq![a] + front.reverse());
        lemma_fold_prepend(fold_keys(b, keys), a, front.reverse());
        let x = fold_keys(b, front);
        assert((x ^ a) ^ a == x) by (bit_vector);
        lemma_fold_undo(b, front);
    }
}

/// Decrypting what was encrypted with the same key sequence gives back the
/// original buffer, and so does encrypting what was decrypted.
pub proof fn lemma_round_trip(data: Seq<u8>, keys: Seq<u8>)
    ensures
        transformed(transformed(data, keys, Direction::Encrypt), keys, Direction::Decrypt)
            == data,
        transformed(transformed(data, keys, Direction::Decrypt), keys, Direction::Encrypt)
            == data,
{
    assert forall|i: int| 0 <= i < data.len() implies fold_keys(
        fold_keys(data[i], keys),
        keys.reverse(),
    ) == data[i] && fold_keys(fold_keys(data[i], keys.reverse()), keys) == data[i] by {
        lemma_fold_undo(data[i], keys);
        lemma_fold_undo(data[i], keys.reverse());
        assert(keys.reverse().reverse() =~= keys);
    }
    assert(transformed(transformed(data, keys, Direction::Encrypt), keys, Direction::Decrypt)
        =~= data);
    assert(transformed(transformed(data, keys, Direction::Decrypt), keys, Direction::Encrypt)
        =~= data);
}

/// With no keys the transform leaves every buffer as it is, in both directions.
pub proof fn lemma_identity(data: Seq<u8>, direction: Direction)
    ensures
        transformed(data, Seq::empty(), direction) == data,
{
    assert(Seq::<u8>::empty().reverse() =~= Seq::<u8>::empty());
    assert(transformed(data, Seq::empty(), direction) =~= data);
}

/// The transform keeps the length of the buffer, whatever the keys and direction.
pub proof fn lemma_length(data: Seq<u8>, keys: Seq<u8>, direction: Direction)
    ensures
        transformed(data, keys, direction).len() == data.len(),
{
}

} // verus!

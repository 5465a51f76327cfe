//! The phrase table shared in layout by both sides, and byte-sequence helpers.
use vstd::prelude::*;
use crate::codes::{MAX_DICT_SIZE, LITERALS};

verus! {

/// The table after a reset: code `i` holds the single byte `i`, for every byte.
pub open spec fn initial_dict() -> Seq<Seq<u8>> {
    Seq::new(256, |i: int| seq![i as u8])
}

/// A table whose first 256 codes are the literals and whose size stays within
/// the admission bound.
pub open spec fn dict_wf(d: Seq<Seq<u8>>) -> bool {
    &&& 256 <= d.len() <= MAX_DICT_SIZE + 1
    &&& forall|i: int| 0 <= i < 256 ==> #[trigger] d[i] == seq![i as u8]
}

/// The table after offering `k` as a new phrase: admitted while the table has at
/// most `MAX_DICT_SIZE` entries.
pub open spec fn with_phrase(d: Seq<Seq<u8>>, k: Seq<u8>) -> Seq<Seq<u8>> {
    if d.len() <= MAX_DICT_SIZE {
        d.push(k)
    } else {
        d
    }
}

/// The first code at or after `i` whose phrase is `k`.
pub open spec fn lookup_from(d: Seq<Seq<u8>>, k: Seq<u8>, i: int) -> Option<int>
    decreases d.len() - i,
{
    if i < 0 || i >= d.len() {
        None
    } else if d[i] == k {
        Some(i)
    } else {
        lookup_from(d, k, i + 1)
    }
}

/// The first code whose phrase is `k`, if any.
pub open spec fn lookup(d: Seq<Seq<u8>>, k: Seq<u8>) -> Option<int> {
    lookup_from(d, k, 0)
}

pub proof fn lemma_lookup_from(d: Seq<Seq<u8>>, k: Seq<u8>, i: int)
    requires
        0 <= i,
    ensures
        lookup_from(d, k, i) matches Some(j) ==> i <= j < d.len() && d[j] == k,
        lookup_from(d, k, i) is None ==> forall|j: int| i <= j < d.len() ==> d[j] != k,
    decreases d.len() - i,
{
    if i < d.len() && d[i] != k {
        lemma_lookup_from(d, k, i + 1);
    }
}

/// What a lookup in a well-formed table tells: a found code holds the phrase,
/// and a single byte is always found.
pub proof fn lemma_lookup(d: Seq<Seq<u8>>, k: Seq<u8>)
    requires
        dict_wf(d),
    ensures
        lookup(d, k) matches Some(j) ==> 0 <= j < d.len() && d[j] == k,
        lookup(d, k) is None ==> k.len() != 1,
{
    lemma_lookup_from(d, k, 0);
    if lookup(d, k) is None && k.len() == 1 {
        assert(d[k[0] as int] == seq![k[0]]);
        assert(seq![k[0]] =~= k);
    }
}

pub proof fn lemma_initial_wf()
    ensures
        dict_wf(initial_dict()),
{
}

pub proof fn lemma_with_phrase_wf(d: Seq<Seq<u8>>, k: Seq<u8>)
    requires
        dict_wf(d),
    ensures
        dict_wf(with_phrase(d, k)),
{
    let e = with_phrase(d, k);
    assert forall|i: int| 0 <= i < 256 implies #[trigger] e[i] == seq![i as u8] by {
        assert(d[i] == seq![i as u8]);
    }
}

/// A fresh table holding the 256 literals.
pub fn new_dict() -> (d: Vec<Vec<u8>>)
    ensures
        d@.map_values(|p: Vec<u8>| p@) == initial_dict(),
{
    let mut d: Vec<Vec<u8>> = Vec::with_capacity(MAX_DICT_SIZE + 1);
    let mut n: usize = 0;
    while n < LITERALS
        invariant
            n <= LITERALS,
            d@.len() == n,
            forall|i: int| 0 <= i < n ==> #[trigger] d@[i]@ == seq![i as u8],
        decreases LITERALS - n,
    {
        let mut p: Vec<u8> = Vec::new();
        p.push(n as u8);
        assert(p@ =~= seq![n as u8]);
        d.push(p);
        n = n + 1;
    }
    assert(d@.map_values(|p: Vec<u8>| p@) =~= initial_dict());
    d
}

/// Whether two byte vectors hold the same bytes.
pub fn same_bytes(a: &Vec<u8>, b: &Vec<u8>) -> (r: bool)
    ensures
        r == (a@ == b@),
{
    if a.len() != b.len() {
        return false;
    }
    let mut i: usize = 0;
    while i < a.len()
        invariant
            i <= a.len(),
            a@.len() == b@.len(),
            forall|j: int| 0 <= j < i ==> a@[j] == b@[j],
        decreases a.len() - i,
    {
        if a[i] != b[i] {
            return false;
        }
        i = i + 1;
    }
    assert(a@ =~= b@);
    true
}

/// Appends the bytes of `src` to `dst`.
pub fn append_bytes(dst: &mut Vec<u8>, src: &Vec<u8>)
    ensures
        final(dst)@ == old(dst)@ + src@,
{
    let mut i: usize = 0;
    while i < src.len()
        invariant
            i <= src.len(),
            dst@ == old(dst)@ + src@.take(i as int),
        decreases src.len() - i,
    {
        dst.push(src[i]);
        i = i + 1;
        assert(dst@ =~= old(dst)@ + src@.take(i as int));
    }
    assert(src@.take(src@.len() as int) =~= src@);
}

/// A copy of the bytes of `src`.
pub fn copy_bytes(src: &Vec<u8>) -> (r: Vec<u8>)
    ensures
        r@ == src@,
{
    let mut r: Vec<u8> = Vec::new();
    append_bytes(&mut r, src);
    assert(r@ =~= src@);
    r
}

/// The first code whose phrase is `key`, by a scan from code 0.
pub fn find(dict: &Vec<Vec<u8>>, key: &Vec<u8>) -> (r: Option<usize>)
    ensures
        r matches Some(i) ==> lookup(dict@.map_values(|p: Vec<u8>| p@), key@) == Some(i as int),
        r is None ==> lookup(dict@.map_values(|p: Vec<u8>| p@), key@) is None,
{
    let ghost d = dict@.map_values(|p: Vec<u8>| p@);
    let mut i: usize = 0;
    while i < dict.len()
        invariant
            i <= dict.len(),
            d == dict@.map_values(|p: Vec<u8>| p@),
            lookup(d, key@) == lookup_from(d, key@, i as int),
        decreases dict.len() - i,
    {
        if same_bytes(&dict[i], key) {
            return Some(i);
        }
        i = i + 1;
    }
    None
}

} // verus!

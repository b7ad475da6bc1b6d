use vstd::prelude::*;

verus! {

// Lane-wise operations on short vectors of bytes and of flags, one lane per
// element.

/// `x - y` modulo 256.
pub open spec fn sub_wrap(x: u8, y: u8) -> u8 {
    if x >= y {
        (x - y) as u8
    } else {
        (x - y + 256) as u8
    }
}

/// The number of set flags in `m`.
pub open spec fn count_true(m: Seq<bool>) -> nat
    decreases m.len(),
{
    if m.len() == 0 {
        0
    } else {
        count_true(m.drop_last()) + if m.last() {
            1nat
        } else {
            0nat
        }
    }
}

/// For each lane of `bytes`, whether it equals `value`.
pub fn lanes_eq(bytes: &[u8], value: u8) -> (r: Vec<bool>)
    ensures
        r@.len() == bytes@.len(),
        forall|i: int| 0 <= i < bytes@.len() ==> r@[i] == (bytes@[i] == value),
{
    let mut r: Vec<bool> = Vec::new();
    let mut i: usize = 0;
    while i < bytes.len()
        invariant
            i <= bytes@.len(),
            r@.len() == i,
            forall|k: int| 0 <= k < i ==> r@[k] == (bytes@[k] == value),
        decreases bytes@.len() - i,
    {
        r.push(bytes[i] == value);
        i = i + 1;
    }
    r
}

/// Lane-wise or of two masks of one length.
pub fn mask_or(a: &[bool], b: &[bool]) -> (r: Vec<bool>)
    requires
        a@.len() == b@.len(),
    ensures
        r@.len() == a@.len(),
        forall|i: int| 0 <= i < a@.len() ==> r@[i] == (a@[i] || b@[i]),
{
    let mut r: Vec<bool> = Vec::new();
    let mut i: usize = 0;
    while i < a.len()
        invariant
            a@.len() == b@.len(),
            i <= a@.len(),
            r@.len() == i,
            forall|k: int| 0 <= k < i ==> r@[k] == (a@[k] || b@[k]),
        decreases a@.len() - i,
    {
        r.push(a[i] || b[i]);
        i = i + 1;
    }
    r
}

/// Whether every lane of `mask` is set.
pub fn mask_all(mask: &[bool]) -> (r: bool)
    ensures
        r == forall|i: int| 0 <= i < mask@.len() ==> #[trigger] mask@[i],
{
    let mut i: usize = 0;
    while i < mask.len()
        invariant
            i <= mask@.len(),
            forall|k: int| 0 <= k < i ==> #[trigger] mask@[k],
        decreases mask@.len() - i,
    {
        if !mask[i] {
            return false;
        }
        i = i + 1;
    }
    true
}

/// Lane-wise bitwise or of two vectors of one length.
pub fn lanes_or(a: &[u8], b: &[u8]) -> (r: Vec<u8>)
    requires
        a@.len() == b@.len(),
    ensures
        r@.len() == a@.len(),
        forall|i: int| 0 <= i < a@.len() ==> r@[i] == a@[i] | b@[i],
{
    let mut r: Vec<u8> = Vec::new();
    let mut i: usize = 0;
    while i < a.len()
        invariant
            a@.len() == b@.len(),
            i <= a@.len(),
            r@.len() == i,
            forall|k: int| 0 <= k < i ==> r@[k] == a@[k] | b@[k],
        decreases a@.len() - i,
    {
        r.push(a[i] | b[i]);
        i = i + 1;
    }
    r
}

/// Lane-wise subtraction modulo 256 of two vectors of one length.
pub fn lanes_sub(a: &[u8], b: &[u8]) -> (r: Vec<u8>)
    requires
        a@.len() == b@.len(),
    ensures
        r@.len() == a@.len(),
        forall|i: int| 0 <= i < a@.len() ==> r@[i] == sub_wrap(a@[i], b@[i]),
{
    let mut r: Vec<u8> = Vec::new();
    let mut i: usize = 0;
    while i < a.len()
        invariant
            a@.len() == b@.len(),
            i <= a@.len(),
            r@.len() == i,
            forall|k: int| 0 <= k < i ==> r@[k] == sub_wrap(a@[k], b@[k]),
        decreases a@.len() - i,
    {
        r.push(a[i].wrapping_sub(b[i]));
        i = i + 1;
    }
    r
}

/// Whether any lane of `mask` is set.
pub fn mask_any(mask: &[bool]) -> (r: bool)
    ensures
        r == exists|i: int| 0 <= i < mask@.len() && #[trigger] mask@[i],
{
    let mut i: usize = 0;
    while i < mask.len()
        invariant
            i <= mask@.len(),
            forall|k: int| 0 <= k < i ==> !#[trigger] mask@[k],
        decreases mask@.len() - i,
    {
        if mask[i] {
            return true;
        }
        i = i + 1;
    }
    false
}

/// The index of the first set lane of `mask`, if any.
pub fn first_set(mask: &[bool]) -> (r: Option<usize>)
    ensures
        r matches Some(i) ==> i < mask@.len() && mask@[i as int] && forall|k: int|
            0 <= k < i ==> !#[trigger] mask@[k],
        r is None ==> forall|k: int| 0 <= k < mask@.len() ==> !#[trigger] mask@[k],
{
    let mut i: usize = 0;
    while i < mask.len()
        invariant
            i <= mask@.len(),
            forall|k: int| 0 <= k < i ==> !#[trigger] mask@[k],
        decreases mask@.len() - i,
    {
        if mask[i] {
            return Some(i);
        }
        i = i + 1;
    }
    None
}

/// The number of set lanes of `mask`.
pub fn mask_count(mask: &[bool]) -> (r: u32)
    requires
        mask@.len() <= u32::MAX,
    ensures
        r == count_true(mask@),
        r <= mask@.len(),
{
    let mut i: usize = 0;
    let mut n: u32 = 0;
    while i < mask.len()
        invariant
            i <= mask@.len() <= u32::MAX,
            n == count_true(mask@.take(i as int)),
            n <= i,
        decreases mask@.len() - i,
    {
        assert(mask@.take(i + 1).drop_last() =~= mask@.take(i as int));
        if mask[i] {
            n = n + 1;
        }
        i = i + 1;
    }
    assert(mask@.take(mask@.len() as int) =~= mask@);
    n
}

/// `n` lanes holding `value`.
pub fn splat(value: u8, n: usize) -> (r: Vec<u8>)
    ensures
        r@ == Seq::new(n as nat, |i: int| value),
{
    let mut r: Vec<u8> = Vec::new();
    let mut i: usize = 0;
    while i < n
        invariant
            i <= n,
            r@ == Seq::new(i as nat, |k: int| value),
        decreases n - i,
    {
        r.push(value);
        i = i + 1;
        assert(r@ =~= Seq::new(i as nat, |k: int| value));
    }
    r
}

/// For each of `n` lanes, whether its index is below `idx`.
pub fn index_lt(n: usize, idx: usize) -> (r: Vec<bool>)
    ensures
        r@ == Seq::new(n as nat, |i: int| i < idx),
{
    let mut r: Vec<bool> = Vec::new();
    let mut i: usize = 0;
    while i < n
        invariant
            i <= n,
            r@ == Seq::new(i as nat, |k: int| k < idx),
        decreases n - i,
    {
        r.push(i < idx);
        i = i + 1;
        assert(r@ =~= Seq::new(i as nat, |k: int| k < idx));
    }
    r
}

/// The lanes of `a` where `mask` is set and those of `b` elsewhere.
pub fn select(mask: &[bool], a: &[u8], b: &[u8]) -> (r: Vec<u8>)
    requires
        mask@.len() == a@.len(),
        a@.len() == b@.len(),
    ensures
        r@.len() == a@.len(),
        forall|i: int| 0 <= i < a@.len() ==> r@[i] == if mask@[i] { a@[i] } else { b@[i] },
{
    let mut r: Vec<u8> = Vec::new();
    let mut i: usize = 0;
    while i < a.len()
        invariant
            mask@.len() == a@.len(),
            a@.len() == b@.len(),
            i <= a@.len(),
            r@.len() == i,
            forall|k: int| 0 <= k < i ==> r@[k] == if mask@[k] { a@[k] } else { b@[k] },
        decreases a@.len() - i,
    {
        r.push(if mask[i] { a[i] } else { b[i] });
        i = i + 1;
    }
    r
}

} // verus!

//! Arrays of small numbers, packed into words that no number straddles, and the
//! lists that such numbers may index.
use vstd::prelude::*;
use vstd::arithmetic::power2::pow2;
use crate::shape;
use crate::wire;
use crate::wire::ReadingError;

verus! {

// --- packed words ----------------------------------------------------------------------

/// The entries in a word.
#[verifier::allow_in_spec]
pub fn per_long(bits: u8) -> usize
    requires
        bits > 0,
    returns
        ((64u8 / bits) as usize),
{
    (64 / bits) as usize
}

/// The words that a number of entries takes.
pub open spec fn long_count(count: nat, bits: u8) -> nat {
    if bits == 0 || bits > 64 {
        0
    } else {
        (count + per_long(bits) - 1) as nat / per_long(bits) as nat
    }
}

pub fn packed_long_count(count: usize, bits: u8) -> (res: usize)
    requires
        bits <= 64,
    ensures
        res == long_count(count as nat, bits),
{
    if bits == 0 {
        return 0;
    }
    let per: usize = per_long(bits);
    proof {
        assert(per >= 1) by (nonlinear_arith)
            requires
                per == 64u8 / bits,
                1 <= bits <= 64,
        ;
    }
    let full: usize = count / per;
    let over: usize = count % per;
    proof {
        let (c, p) = (count as int, per as int);
        assert((c + p - 1) / p == c / p + (if c % p == 0 { 0int } else { 1int }) && c / p + 1 <= c + 1 && (c % p != 0
            ==> c / p < c)) by (nonlinear_arith)
            requires
                c >= 0,
                p >= 1,
        ;
    }
    if over == 0 {
        full
    } else {
        full + 1
    }
}

/// The entry in a place of a word.
pub open spec fn entry(word: u64, bits: nat, slot: nat) -> nat {
    word as nat / pow2(bits * slot) % pow2(bits)
}

proof fn lemma_shift(bits: u8, slot: int)
    requires
        1 <= bits <= 63,
        0 <= slot < 64int / bits as int,
    ensures
        0 <= bits * slot <= 64 - bits,
        1u64 << (bits as u64) == pow2(bits as nat),
        1u64 << (bits as u64) > 0,
{
    assert(0 <= bits * slot <= 64 - bits) by (nonlinear_arith)
        requires
            1 <= bits <= 63,
            0 <= slot < 64int / bits as int,
    ;
    vstd::bits::lemma_u64_pow2_no_overflow(bits as nat);
    vstd::arithmetic::power2::lemma_pow2_pos(bits as nat);
    vstd::bits::lemma_u64_shl_is_mul(1, bits as u64);
}

pub fn get_entry(word: u64, bits: u8, slot: usize) -> (res: u64)
    requires
        1 <= bits <= 63,
        slot < per_long(bits),
    ensures
        res == entry(word, bits as nat, slot as nat),
{
    proof {
        lemma_shift(bits, slot as int);
    }
    let shift: u64 = bits as u64 * slot as u64;
    proof {
        vstd::bits::lemma_u64_shr_is_div(word, shift);
        vstd::arithmetic::power2::lemma_pow2_pos(shift as nat);
    }
    (word >> shift) % (1u64 << bits as u64)
}

/// The first `count` entries of packed words, cut to thirty-two bits.
pub open spec fn entries(words: Seq<u64>, bits: u8, count: nat) -> Seq<u32> {
    Seq::new(
        count,
        |i: int|
            (entry(words[i / per_long(bits) as int], bits as nat, (i % per_long(bits) as int) as nat)
                % 0x1_0000_0000) as u32,
    )
}

/// The entries of packed words; nothing where there are too few words.
pub open spec fn unpacked(words: Seq<u64>, bits: u8, count: nat) -> Option<Seq<u32>> {
    if words.len() < long_count(count, bits) {
        None
    } else {
        Some(entries(words, bits, count))
    }
}

proof fn lemma_word_of(i: int, count: int, per: int)
    requires
        0 <= i < count,
        per > 0,
    ensures
        0 <= i / per < (count + per - 1) / per,
        0 <= i % per < per,
        i == i / per * per + i % per,
{
    assert(0 <= i / per < (count + per - 1) / per) by (nonlinear_arith)
        requires
            0 <= i < count,
            per > 0,
    ;
    assert(0 <= i % per < per && i == i / per * per + i % per) by (nonlinear_arith)
        requires
            0 <= i,
            per > 0,
    ;
}

#[verifier::loop_isolation(false)]
pub fn unpack(words: &Vec<u64>, bits: u8, count: usize) -> (res: Option<Vec<u32>>)
    requires
        1 <= bits <= 63,
    ensures
        match res {
            Some(found) => unpacked(words@, bits, count as nat) == Some(found@),
            None => unpacked(words@, bits, count as nat) is None,
        },
{
    if words.len() < packed_long_count(count, bits) {
        return None;
    }
    let per: usize = per_long(bits);
    let mut found: Vec<u32> = Vec::new();
    let mut i: usize = 0;
    while i < count
        invariant
            i <= count,
            found@ == entries(words@, bits, count as nat).take(i as int),
        decreases count - i,
    {
        proof {
            assert(per >= 1) by (nonlinear_arith)
                requires
                    per == 64u8 / bits,
                    1 <= bits <= 63,
            ;
            lemma_word_of(i as int, count as int, per as int);
        }
        let value: u64 = get_entry(words[i / per], bits, i % per);
        found.push((value % 0x1_0000_0000) as u32);
        assert(found@ =~= entries(words@, bits, count as nat).take(i + 1));
        i = i + 1;
    }
    assert(found@ =~= entries(words@, bits, count as nat));
    Some(found)
}

/// `n` entries from the `first` on, in one word.
pub open spec fn packed_word(values: Seq<u32>, bits: nat, first: int, n: nat) -> nat
    decreases n,
{
    if n == 0 {
        0
    } else {
        packed_word(values, bits, first, (n - 1) as nat) + values[first + n - 1] as nat * pow2(
            bits * ((n - 1) as nat),
        )
    }
}

/// The entries of the i-th word.
pub open spec fn filled(count: nat, bits: u8, word: int) -> nat {
    let left = count - word * per_long(bits);
    if left < 0 {
        0
    } else if left < per_long(bits) {
        left as nat
    } else {
        per_long(bits) as nat
    }
}

/// Numbers packed into words.
pub open spec fn packed(values: Seq<u32>, bits: u8) -> Seq<u64> {
    Seq::new(
        long_count(values.len(), bits),
        |w: int| packed_word(values, bits as nat, w * per_long(bits), filled(values.len(), bits, w)) as u64,
    )
}

/// Whether every number takes no more than the given bits.
pub open spec fn all_fit(values: Seq<u32>, bits: nat) -> bool {
    forall|i: int| 0 <= i < values.len() ==> (#[trigger] values[i] as nat) < pow2(bits)
}

proof fn lemma_word_is_bounded(values: Seq<u32>, bits: nat, first: int, n: nat)
    requires
        0 <= first,
        first + n <= values.len(),
        all_fit(values, bits),
    ensures
        packed_word(values, bits, first, n) < pow2(bits * n),
    decreases n,
{
    vstd::arithmetic::power2::lemma_pow2_pos(bits * n);
    if n > 0 {
        let m = (n - 1) as nat;
        lemma_word_is_bounded(values, bits, first, m);
        vstd::arithmetic::power2::lemma_pow2_adds(bits, bits * m);
        assert(bits + bits * m == bits * n) by (nonlinear_arith)
            requires
                n == m + 1,
        ;
        let p = pow2(bits * m);
        let v = values[first + m] as nat;
        assert(v < pow2(bits));
        assert(packed_word(values, bits, first, m) + v * p < pow2(bits) * p) by (nonlinear_arith)
            requires
                packed_word(values, bits, first, m) < p,
                v < pow2(bits),
        ;
    }
}

/// Every entry comes back out of the word it was packed into.
proof fn lemma_entry_of_word(values: Seq<u32>, bits: nat, first: int, n: nat, k: nat)
    requires
        0 <= first,
        first + n <= values.len(),
        all_fit(values, bits),
        k < n,
    ensures
        packed_word(values, bits, first, n) / pow2(bits * k) % pow2(bits) == values[first + k] as nat,
    decreases n,
{
    let m = (n - 1) as nat;
    let p = pow2(bits * m);
    let v = values[first + m] as nat;
    let low = packed_word(values, bits, first, m);
    lemma_word_is_bounded(values, bits, first, m);
    vstd::arithmetic::power2::lemma_pow2_pos(bits * m);
    vstd::arithmetic::power2::lemma_pow2_pos(bits);
    assert(v < pow2(bits));
    if k == m {
        assert((low + v * p) / p == v) by (nonlinear_arith)
            requires
                low < p,
                p > 0,
        ;
        vstd::arithmetic::div_mod::lemma_small_mod(v, pow2(bits));
    } else {
        lemma_entry_of_word(values, bits, first, m, k);
        let q = pow2(bits * k);
        let gap = (m - k - 1) as nat;
        let r = pow2(bits * gap);
        vstd::arithmetic::power2::lemma_pow2_pos(bits * k);
        vstd::arithmetic::power2::lemma_pow2_adds(bits, bits * gap);
        vstd::arithmetic::power2::lemma_pow2_adds(bits * k, bits + bits * gap);
        assert(bits * k + (bits + bits * gap) == bits * m) by (nonlinear_arith)
            requires
                m == k + 1 + gap,
        ;
        assert(p == q * (pow2(bits) * r));
        let up = v * r;
        assert(low + v * p == low + q * (pow2(bits) * up)) by (nonlinear_arith)
            requires
                p == q * (pow2(bits) * r),
                up == v * r,
        ;
        vstd::arithmetic::div_mod::lemma_hoist_over_denominator(low as int, (pow2(bits) * up) as int, q);
        assert(q * (pow2(bits) * up) == (pow2(bits) * up) * q) by (nonlinear_arith);
        assert((low + v * p) / q == low / q + pow2(bits) * up);
        vstd::arithmetic::div_mod::lemma_mod_multiples_vanish(up as int, (low / q) as int, pow2(bits) as int);
    }
}

#[verifier::loop_isolation(false)]
fn pack_word(values: &Vec<u32>, bits: u8, first: usize, n: usize) -> (res: u64)
    requires
        1 <= bits <= 32,
        n <= per_long(bits),
        first + n <= values.len(),
        all_fit(values@, bits as nat),
    ensures
        res == packed_word(values@, bits as nat, first as int, n as nat),
{
    let mut word: u64 = 0;
    let mut k: usize = 0;
    while k < n
        invariant
            k <= n,
            word == packed_word(values@, bits as nat, first as int, k as nat),
        decreases n - k,
    {
        proof {
            lemma_shift(bits, k as int);
            lemma_word_is_bounded(values@, bits as nat, first as int, (k + 1) as nat);
            lemma_word_is_bounded(values@, bits as nat, first as int, k as nat);
        }
        let shift: u64 = bits as u64 * k as u64;
        let value: u64 = values[first + k] as u64;
        proof {
            let b = bits as nat;
            assert(b * (k + 1) as nat <= 64) by (nonlinear_arith)
                requires
                    b * k as nat <= 64 - b,
            ;
            if (b * (k + 1) as nat) < 64 {
                vstd::bits::lemma_u64_pow2_no_overflow(b * (k + 1) as nat);
            } else {
                vstd::arithmetic::power2::lemma2_to64();
            }
            let low = packed_word(values@, b, first as int, k as nat);
            assert(low + value * pow2(b * k as nat) == packed_word(values@, b, first as int, (k + 1) as nat));
            assert(value * pow2(shift as nat) <= u64::MAX) by {
                assert(shift as nat == b * k as nat);
                assert(value as nat * pow2(b * k as nat) >= 0) by (nonlinear_arith);
            }
            vstd::bits::lemma_u64_shl_is_mul(value, shift);
        }
        word = word + (value << shift);
        k = k + 1;
    }
    word
}

#[verifier::loop_isolation(false)]
pub fn pack(values: &Vec<u32>, bits: u8) -> (res: Vec<u64>)
    requires
        1 <= bits <= 32,
        all_fit(values@, bits as nat),
    ensures
        res@ == packed(values@, bits),
{
    let per: usize = per_long(bits);
    let words: usize = packed_long_count(values.len(), bits);
    proof {
        assert(2 <= per <= 64) by (nonlinear_arith)
            requires
                per == 64u8 / bits,
                1 <= bits <= 32,
        ;
        lemma_words_fit(values.len() as int, words as int, per as int);
    }
    let mut out: Vec<u64> = Vec::new();
    let mut w: usize = 0;
    while w < words
        invariant
            w <= words,
            out@ == packed(values@, bits).take(w as int),
        decreases words - w,
    {
        proof {
            lemma_word_starts(values.len() as int, words as int, per as int, w as int);
        }
        let first: usize = w * per;
        let left: usize = values.len() - first;
        let n: usize = if left < per { left } else { per };
        out.push(pack_word(values, bits, first, n));
        assert(out@ =~= packed(values@, bits).take(w + 1));
        w = w + 1;
    }
    assert(out@ =~= packed(values@, bits));
    out
}

proof fn lemma_words_fit(count: int, words: int, per: int)
    requires
        0 <= count,
        per > 0,
        words == (count + per - 1) / per,
    ensures
        words * per < count + per,
        words * per >= count,
{
    assert(words * per < count + per && words * per >= count) by (nonlinear_arith)
        requires
            0 <= count,
            per > 0,
            words == (count + per - 1) / per,
    ;
}

proof fn lemma_word_starts(count: int, words: int, per: int, w: int)
    requires
        0 <= count,
        0 < per <= 64,
        words == (count + per - 1) / per,
        0 <= w < words,
    ensures
        0 <= w * per < count,
{
    lemma_words_fit(count, words, per);
    assert(0 <= w * per && w * per + per <= words * per) by (nonlinear_arith)
        requires
            0 <= w < words,
            per > 0,
    ;
}

/// Packed numbers come back: unpacking the words gives the numbers.
pub proof fn packed_numbers_come_back(values: Seq<u32>, bits: u8)
    requires
        1 <= bits <= 32,
        all_fit(values, bits as nat),
    ensures
        unpacked(packed(values, bits), bits, values.len()) == Some(values),
{
    let words = packed(values, bits);
    let per = per_long(bits) as int;
    assert(per >= 2) by (nonlinear_arith)
        requires
            per == 64int / bits as int,
            1 <= bits <= 32,
    ;
    vstd::arithmetic::power2::lemma2_to64();
    assert forall|i: int| 0 <= i < values.len() implies entries(words, bits, values.len())[i] == values[i] by {
        lemma_word_of(i, values.len() as int, per);
        let w = i / per;
        let k = (i % per) as nat;
        let n = filled(values.len(), bits, w);
        assert(0 <= w * per) by (nonlinear_arith)
            requires
                w >= 0,
                per >= 0,
        ;
        assert(k < n);
        lemma_entry_of_word(values, bits as nat, w * per, n, k);
        lemma_word_is_bounded(values, bits as nat, w * per, n);
        assert(bits * n <= 64) by (nonlinear_arith)
            requires
                n <= per,
                per == 64int / bits as int,
                1 <= bits <= 32,
        ;
        if (bits as nat * n) < 64 {
            vstd::bits::lemma_u64_pow2_no_overflow(bits as nat * n);
        }
        assert(words[w] == packed_word(values, bits as nat, w * per, n));
        assert(entry(words[w], bits as nat, k) == values[i]);
    }
    assert(entries(words, bits, values.len()) =~= values);
}

// --- lists on the wire -------------------------------------------------------------------

/// `n` words, behind those that were read.
pub open spec fn take_words(words: Seq<u64>, n: nat, s: Seq<u8>) -> Option<(Seq<u64>, Seq<u8>)>
    decreases n,
{
    if n == 0 {
        Some((words, s))
    } else {
        match wire::take_u64(s) {
            Some((word, rest)) => take_words(words.push(word), (n - 1) as nat, rest),
            None => None,
        }
    }
}

/// A list of words with its length in front.
pub open spec fn take_longs(s: Seq<u8>) -> Option<(Seq<u64>, Seq<u8>)> {
    match wire::take_var_int(s) {
        Some((n, rest)) => if n < 0 {
            None
        } else {
            take_words(seq![], n as nat, rest)
        },
        None => None,
    }
}

/// Whether a list was read as wanted.
pub open spec fn gave_words(res: Result<Vec<u64>, ReadingError>, end: Seq<u8>, wanted: Option<(Seq<u64>, Seq<u8>)>) -> bool {
    match wanted {
        Some((words, rest)) => res is Ok && res->Ok_0@ == words && end == rest,
        None => res is Err,
    }
}

#[verifier::loop_isolation(false)]
pub fn get_words(n: usize, r: &mut &[u8]) -> (res: Result<Vec<u64>, ReadingError>)
    ensures
        gave_words(res, final(r)@, take_words(seq![], n as nat, old(r)@)),
{
    let ghost wanted = take_words(seq![], n as nat, r@);
    let mut words: Vec<u64> = Vec::new();
    let mut left: usize = n;
    while left > 0
        invariant
            wanted == take_words(words@, left as nat, r@),
        decreases left,
    {
        let word: u64 = wire::get_u64(r)?;
        words.push(word);
        left = left - 1;
    }
    Ok(words)
}

pub fn read_longs(r: &mut &[u8]) -> (res: Result<Vec<u64>, ReadingError>)
    ensures
        gave_words(res, final(r)@, take_longs(old(r)@)),
{
    let n: i32 = wire::get_var_int(r)?;
    if n < 0 {
        return Err(ReadingError::Malformed);
    }
    get_words(n as usize, r)
}

pub open spec fn enc_words(words: Seq<u64>) -> Seq<u8>
    decreases words.len(),
{
    if words.len() == 0 {
        seq![]
    } else {
        wire::enc_u64(words[0]) + enc_words(words.drop_first())
    }
}

pub open spec fn enc_longs(words: Seq<u64>) -> Seq<u8> {
    wire::enc_len(words.len()) + enc_words(words)
}

#[verifier::loop_isolation(false)]
pub fn write_words(out: &mut Vec<u8>, words: &Vec<u64>)
    ensures
        final(out)@ == old(out)@ + enc_words(words@),
{
    let ghost before = out@;
    let mut i: usize = 0;
    assert(words@.skip(0) =~= words@);
    while i < words.len()
        invariant
            i <= words.len(),
            before + enc_words(words@) == out@ + enc_words(words@.skip(i as int)),
        decreases words.len() - i,
    {
        let ghost start = out@;
        wire::write_u64(out, words[i]);
        proof {
            let rest = words@.skip(i as int);
            assert(rest.drop_first() =~= words@.skip(i + 1));
            assert(start + enc_words(rest) =~= out@ + enc_words(words@.skip(i + 1)));
        }
        i = i + 1;
    }
    assert(out@ + enc_words(words@.skip(i as int)) =~= out@);
}

pub fn write_longs(out: &mut Vec<u8>, words: &Vec<u64>)
    ensures
        final(out)@ == old(out)@ + enc_longs(words@),
{
    let ghost before = out@;
    wire::write_len(out, words.len());
    write_words(out, words);
    assert(out@ =~= before + enc_longs(words@));
}

/// `n` numbers that are not negative, behind those that were read.
pub open spec fn take_ids(ids: Seq<u32>, n: nat, s: Seq<u8>) -> Option<(Seq<u32>, Seq<u8>)>
    decreases n,
{
    if n == 0 {
        Some((ids, s))
    } else {
        match wire::take_var_int(s) {
            Some((id, rest)) => if id < 0 {
                None
            } else {
                take_ids(ids.push(id as u32), (n - 1) as nat, rest)
            },
            None => None,
        }
    }
}

/// A list of numbers that are not negative, with its length in front.
pub open spec fn take_palette(s: Seq<u8>) -> Option<(Seq<u32>, Seq<u8>)> {
    match wire::take_var_int(s) {
        Some((n, rest)) => if n < 0 {
            None
        } else {
            take_ids(seq![], n as nat, rest)
        },
        None => None,
    }
}

#[verifier::loop_isolation(false)]
pub fn read_palette(r: &mut &[u8]) -> (res: Result<Vec<u32>, ReadingError>)
    ensures
        match take_palette(old(r)@) {
            Some((ids, rest)) => res is Ok && res->Ok_0@ == ids && final(r)@ == rest,
            None => res is Err,
        },
{
    let ghost wanted = take_palette(r@);
    let n: i32 = wire::get_var_int(r)?;
    if n < 0 {
        return Err(ReadingError::Malformed);
    }
    let mut ids: Vec<u32> = Vec::new();
    let mut left: i32 = n;
    while left > 0
        invariant
            left >= 0,
            wanted == take_ids(ids@, left as nat, r@),
        decreases left,
    {
        let id: i32 = wire::get_var_int(r)?;
        if id < 0 {
            return Err(ReadingError::Malformed);
        }
        ids.push(id as u32);
        left = left - 1;
    }
    Ok(ids)
}

/// The numbers that a list of small numbers indexes; nothing where one points past
/// the list.
pub open spec fn looked_up(indices: Seq<u32>, palette: Seq<u32>) -> Option<Seq<u32>> {
    if forall|i: int| 0 <= i < indices.len() ==> (#[trigger] indices[i]) < palette.len() {
        Some(Seq::new(indices.len(), |i: int| palette[indices[i] as int]))
    } else {
        None
    }
}

#[verifier::loop_isolation(false)]
pub fn look_up(indices: &Vec<u32>, palette: &Vec<u32>) -> (res: Option<Vec<u32>>)
    ensures
        match res {
            Some(found) => looked_up(indices@, palette@) == Some(found@),
            None => looked_up(indices@, palette@) is None,
        },
{
    let mut found: Vec<u32> = Vec::new();
    let mut i: usize = 0;
    while i < indices.len()
        invariant
            i <= indices.len(),
            found.len() == i,
            forall|k: int| 0 <= k < i ==> (#[trigger] indices@[k]) < palette.len() && found@[k] == palette@[indices@[k] as int],
        decreases indices.len() - i,
    {
        if indices[i] as u64 >= palette.len() as u64 {
            return None;
        }
        found.push(palette[indices[i] as usize]);
        i = i + 1;
    }
    assert(found@ =~= looked_up(indices@, palette@).unwrap());
    Some(found)
}

// --- laws -------------------------------------------------------------------------------------

#[verifier::spinoff_prover]
pub proof fn lemma_words_read_back(words: Seq<u64>, left: Seq<u64>, rest: Seq<u8>)
    ensures
        take_words(words, left.len(), enc_words(left) + rest) == Some((words + left, rest)),
    decreases left.len(),
{
    if left.len() == 0 {
        assert(enc_words(left) + rest =~= rest);
        assert(words + left =~= words);
    } else {
        let tail = left.drop_first();
        let behind = enc_words(tail) + rest;
        assert(wire::take_u64(enc_words(left) + rest) == Some((left[0], behind))) by {
            assert(enc_words(left) + rest =~= wire::enc_u64(left[0]) + behind);
            wire::u64_round_trip(left[0], behind);
        }
        lemma_words_read_back(words.push(left[0]), tail, rest);
        assert(words.push(left[0]) + tail =~= words + left);
    }
}

/// A list of words reads back as it was written, whatever stands behind it.
pub proof fn longs_round_trip(words: Seq<u64>, rest: Seq<u8>)
    requires
        words.len() <= i32::MAX,
    ensures
        take_longs(enc_longs(words) + rest) == Some((words, rest)),
{
    let n = words.len() as i32;
    assert(enc_longs(words) + rest =~= wire::enc_var_int(n) + (enc_words(words) + rest));
    wire::var_int_round_trip(n, enc_words(words) + rest);
    lemma_words_read_back(seq![], words, rest);
    assert(Seq::<u64>::empty() + words =~= words);
}

pub open spec fn enc_ids(ids: Seq<u32>) -> Seq<u8>
    decreases ids.len(),
{
    if ids.len() == 0 {
        seq![]
    } else {
        wire::enc_var_int(ids[0] as i32) + enc_ids(ids.drop_first())
    }
}

/// A list of numbers with its length in front.
pub open spec fn enc_palette(ids: Seq<u32>) -> Seq<u8> {
    wire::enc_len(ids.len()) + enc_ids(ids)
}

/// Whether every number is one of those that a signed field holds.
pub open spec fn all_signed(ids: Seq<u32>) -> bool {
    forall|i: int| 0 <= i < ids.len() ==> (#[trigger] ids[i]) <= i32::MAX
}

/// Writes numbers, each in its own field; `false` where one does not fit.
#[verifier::loop_isolation(false)]
pub fn write_ids(out: &mut Vec<u8>, ids: &Vec<u32>) -> (res: bool)
    ensures
        res == all_signed(ids@),
        res ==> final(out)@ == old(out)@ + enc_ids(ids@),
{
    let ghost before = out@;
    let mut i: usize = 0;
    assert(ids@.skip(0) =~= ids@);
    while i < ids.len()
        invariant
            i <= ids.len(),
            forall|k: int| 0 <= k < i ==> (#[trigger] ids@[k]) <= i32::MAX,
            before + enc_ids(ids@) == out@ + enc_ids(ids@.skip(i as int)),
        decreases ids.len() - i,
    {
        if ids[i] > 0x7fff_ffff {
            return false;
        }
        let ghost start = out@;
        wire::write_var_int(out, ids[i] as i32);
        proof {
            let rest = ids@.skip(i as int);
            assert(rest.drop_first() =~= ids@.skip(i + 1));
            assert(start + enc_ids(rest) =~= out@ + enc_ids(ids@.skip(i + 1)));
        }
        i = i + 1;
    }
    assert(out@ + enc_ids(ids@.skip(i as int)) =~= out@);
    true
}

proof fn lemma_ids_read_back(ids: Seq<u32>, left: Seq<u32>, rest: Seq<u8>)
    requires
        all_signed(left),
    ensures
        take_ids(ids, left.len(), enc_ids(left) + rest) == Some((ids + left, rest)),
    decreases left.len(),
{
    if left.len() == 0 {
        assert(enc_ids(left) + rest =~= rest);
        assert(ids + left =~= ids);
    } else {
        let tail = left.drop_first();
        assert(enc_ids(left) + rest =~= wire::enc_var_int(left[0] as i32) + (enc_ids(tail) + rest));
        wire::var_int_round_trip(left[0] as i32, enc_ids(tail) + rest);
        lemma_ids_read_back(ids.push(left[0]), tail, rest);
        assert(ids.push(left[0]) + tail =~= ids + left);
    }
}

/// A list of numbers reads back as it was written.
pub proof fn palette_round_trip(ids: Seq<u32>, rest: Seq<u8>)
    requires
        ids.len() <= i32::MAX,
        all_signed(ids),
    ensures
        take_palette(enc_palette(ids) + rest) == Some((ids, rest)),
{
    let n = ids.len() as i32;
    assert(enc_palette(ids) + rest =~= wire::enc_var_int(n) + (enc_ids(ids) + rest));
    wire::var_int_round_trip(n, enc_ids(ids) + rest);
    lemma_ids_read_back(seq![], ids, rest);
    assert(Seq::<u32>::empty() + ids =~= ids);
}

} // verus!

//! The run configuration and its persistence codec.
//!
//! The configuration is persisted as one canonical JSON object with fixed
//! field order and no whitespace, e.g.
//! `{"num_epochs":10,...,"weight_decay_nano":50000}`. Optimizer rates are
//! fixed-point integers in nano-units (billionths), so the whole record is
//! exact integers. The parser accepts exactly the canonical form: anything
//! else is a configuration error, which is fatal before any epoch runs.

use vstd::prelude::*;

verus! {

/// The hyperparameter bundle of one training run, constructed once per run
/// and persisted beside the trained artifact.
#[derive(Clone, Copy, Debug, PartialEq, Eq, Structural)]
pub struct MnistTrainingConfig {
    /// Number of epochs to run.
    pub num_epochs: usize,
    /// Number of items per batch.
    pub batch_size: usize,
    /// Number of assembly workers (0 means synchronous assembly).
    pub num_workers: usize,
    /// Seed for subsampling and shuffling.
    pub seed: u64,
    /// Requested size of the training subset.
    pub subset_size: usize,
    /// Optimizer learning rate in nano-units (e.g. 100000 for 1e-4).
    pub learning_rate_nano: u64,
    /// Optimizer weight decay in nano-units (e.g. 50000 for 5e-5).
    pub weight_decay_nano: u64,
}

impl Default for MnistTrainingConfig {
    /// The default hyperparameters of a run.
    fn default() -> (r: MnistTrainingConfig)
        ensures
            r == (MnistTrainingConfig {
                num_epochs: 10,
                batch_size: 128,
                num_workers: 8,
                seed: 42,
                subset_size: 4096,
                learning_rate_nano: 100000,
                weight_decay_nano: 50000,
            }),
    {
        MnistTrainingConfig {
            num_epochs: 10,
            batch_size: 128,
            num_workers: 8,
            seed: 42,
            subset_size: 4096,
            learning_rate_nano: 100000,
            weight_decay_nano: 50000,
        }
    }
}

/// Why a persisted configuration failed to load.
#[derive(Clone, Copy, Debug, PartialEq, Eq, Structural)]
pub enum ConfigError {
    /// The bytes are not the canonical encoding of any configuration.
    Malformed,
    /// The record is well formed but a size field exceeds this machine's
    /// address range.
    ValueOutOfRange,
}

/// Whether a byte is an ASCII decimal digit.
pub open spec fn is_digit(b: u8) -> bool {
    48 <= b <= 57
}

/// The canonical decimal digits of `n`: no leading zeros, `0` itself as one
/// digit.
pub open spec fn dec_digits(n: nat) -> Seq<u8>
    decreases n,
{
    if n < 10 {
        seq![(48 + n) as u8]
    } else {
        dec_digits(n / 10).push((48 + n % 10) as u8)
    }
}

/// The numeric value of a sequence of ASCII digits.
pub open spec fn digits_value(ds: Seq<u8>) -> int
    decreases ds.len(),
{
    if ds.len() == 0 {
        0
    } else {
        digits_value(ds.drop_last()) * 10 + (ds.last() - 48)
    }
}

/// The bytes of the literal text `{"num_epochs":`.
#[verifier::opaque]
pub open spec fn seg_num_epochs() -> Seq<u8> {
    seq![123u8, 34u8, 110u8, 117u8, 109u8, 95u8, 101u8, 112u8, 111u8, 99u8, 104u8, 115u8, 34u8, 58u8]
}

/// The bytes of the literal text `,"batch_size":`.
#[verifier::opaque]
pub open spec fn seg_batch_size() -> Seq<u8> {
    seq![44u8, 34u8, 98u8, 97u8, 116u8, 99u8, 104u8, 95u8, 115u8, 105u8, 122u8, 101u8, 34u8, 58u8]
}

/// The bytes of the literal text `,"num_workers":`.
#[verifier::opaque]
pub open spec fn seg_num_workers() -> Seq<u8> {
    seq![44u8, 34u8, 110u8, 117u8, 109u8, 95u8, 119u8, 111u8, 114u8, 107u8, 101u8, 114u8, 115u8, 34u8, 58u8]
}

/// The bytes of the literal text `,"seed":`.
#[verifier::opaque]
pub open spec fn seg_seed() -> Seq<u8> {
    seq![44u8, 34u8, 115u8, 101u8, 101u8, 100u8, 34u8, 58u8]
}

/// The bytes of the literal text `,"subset_size":`.
#[verifier::opaque]
pub open spec fn seg_subset_size() -> Seq<u8> {
    seq![44u8, 34u8, 115u8, 117u8, 98u8, 115u8, 101u8, 116u8, 95u8, 115u8, 105u8, 122u8, 101u8, 34u8, 58u8]
}

/// The bytes of the literal text `,"learning_rate_nano":`.
#[verifier::opaque]
pub open spec fn seg_learning_rate() -> Seq<u8> {
    seq![44u8, 34u8, 108u8, 101u8, 97u8, 114u8, 110u8, 105u8, 110u8, 103u8, 95u8, 114u8, 97u8, 116u8, 101u8, 95u8, 110u8, 97u8, 110u8, 111u8, 34u8, 58u8]
}

/// The bytes of the literal text `,"weight_decay_nano":`.
#[verifier::opaque]
pub open spec fn seg_weight_decay() -> Seq<u8> {
    seq![44u8, 34u8, 119u8, 101u8, 105u8, 103u8, 104u8, 116u8, 95u8, 100u8, 101u8, 99u8, 97u8, 121u8, 95u8, 110u8, 97u8, 110u8, 111u8, 34u8, 58u8]
}

/// The bytes of the literal text `}`.
#[verifier::opaque]
pub open spec fn seg_close() -> Seq<u8> {
    seq![125u8]
}

/// The fixed segments' lengths and first bytes (no segment begins with a
/// digit).
pub proof fn lemma_seg_shapes()
    ensures
        seg_num_epochs().len() == 14,
        seg_num_epochs()[0] == 123,
        seg_batch_size().len() == 14,
        seg_batch_size()[0] == 44,
        seg_num_workers().len() == 15,
        seg_num_workers()[0] == 44,
        seg_seed().len() == 8,
        seg_seed()[0] == 44,
        seg_subset_size().len() == 15,
        seg_subset_size()[0] == 44,
        seg_learning_rate().len() == 22,
        seg_learning_rate()[0] == 44,
        seg_weight_decay().len() == 21,
        seg_weight_decay()[0] == 44,
        seg_close().len() == 1,
        seg_close()[0] == 125,
{
    reveal(seg_num_epochs);
    reveal(seg_batch_size);
    reveal(seg_num_workers);
    reveal(seg_seed);
    reveal(seg_subset_size);
    reveal(seg_learning_rate);
    reveal(seg_weight_decay);
    reveal(seg_close);
}

/// The record's bytes from the weight-decay field on.
pub open spec fn tail_weight_decay(weight_decay_nano: u64) -> Seq<u8> {
    seg_weight_decay() + dec_digits(weight_decay_nano as nat) + seg_close()
}

/// The record's bytes from the learning-rate field on.
pub open spec fn tail_learning_rate(learning_rate_nano: u64, weight_decay_nano: u64) -> Seq<u8> {
    seg_learning_rate() + dec_digits(learning_rate_nano as nat) + tail_weight_decay(
        weight_decay_nano,
    )
}

/// The record's bytes from the subset-size field on.
pub open spec fn tail_subset_size(
    subset_size: u64,
    learning_rate_nano: u64,
    weight_decay_nano: u64,
) -> Seq<u8> {
    seg_subset_size() + dec_digits(subset_size as nat) + tail_learning_rate(
        learning_rate_nano,
        weight_decay_nano,
    )
}

/// The record's bytes from the seed field on.
pub open spec fn tail_seed(
    seed: u64,
    subset_size: u64,
    learning_rate_nano: u64,
    weight_decay_nano: u64,
) -> Seq<u8> {
    seg_seed() + dec_digits(seed as nat) + tail_subset_size(
        subset_size,
        learning_rate_nano,
        weight_decay_nano,
    )
}

/// The record's bytes from the worker-count field on.
pub open spec fn tail_num_workers(
    num_workers: u64,
    seed: u64,
    subset_size: u64,
    learning_rate_nano: u64,
    weight_decay_nano: u64,
) -> Seq<u8> {
    seg_num_workers() + dec_digits(num_workers as nat) + tail_seed(
        seed,
        subset_size,
        learning_rate_nano,
        weight_decay_nano,
    )
}

/// The record's bytes from the batch-size field on.
pub open spec fn tail_batch_size(
    batch_size: u64,
    num_workers: u64,
    seed: u64,
    subset_size: u64,
    learning_rate_nano: u64,
    weight_decay_nano: u64,
) -> Seq<u8> {
    seg_batch_size() + dec_digits(batch_size as nat) + tail_num_workers(
        num_workers,
        seed,
        subset_size,
        learning_rate_nano,
        weight_decay_nano,
    )
}

/// The canonical encoding of seven field values, in fixed order.
pub open spec fn config_bytes_fields(
    num_epochs: u64,
    batch_size: u64,
    num_workers: u64,
    seed: u64,
    subset_size: u64,
    learning_rate_nano: u64,
    weight_decay_nano: u64,
) -> Seq<u8> {
    seg_num_epochs() + dec_digits(num_epochs as nat) + tail_batch_size(
        batch_size,
        num_workers,
        seed,
        subset_size,
        learning_rate_nano,
        weight_decay_nano,
    )
}

/// The canonical encoding of a configuration.
pub open spec fn config_bytes(c: MnistTrainingConfig) -> Seq<u8> {
    config_bytes_fields(
        c.num_epochs as u64,
        c.batch_size as u64,
        c.num_workers as u64,
        c.seed,
        c.subset_size as u64,
        c.learning_rate_nano,
        c.weight_decay_nano,
    )
}

/// Appends a byte slice to a vector.
fn push_bytes(out: &mut Vec<u8>, bytes: &[u8])
    ensures
        final(out)@ == old(out)@ + bytes@,
{
    let mut k: usize = 0;
    while k < bytes.len()
        invariant
            k <= bytes@.len(),
            out@ == old(out)@ + bytes@.take(k as int),
        decreases bytes@.len() - k,
    {
        out.push(bytes[k]);
        proof {
            assert(out@ =~= old(out)@ + bytes@.take(k + 1));
        }
        k = k + 1;
    }
    proof {
        assert(old(out)@ + bytes@.take(bytes@.len() as int) =~= old(out)@ + bytes@);
    }
}

/// Appends the canonical decimal digits of `n` to a vector.
fn push_u64_decimal(out: &mut Vec<u8>, n: u64)
    ensures
        final(out)@ == old(out)@ + dec_digits(n as nat),
    decreases n,
{
    if n < 10 {
        out.push(48 + n as u8);
        proof {
            assert(out@ =~= old(out)@ + dec_digits(n as nat));
        }
    } else {
        push_u64_decimal(out, n / 10);
        out.push(48 + (n % 10) as u8);
        proof {
            assert(out@ =~= old(out)@ + dec_digits(n as nat));
        }
    }
}

/// Encodes a configuration as its canonical JSON record.
#[verifier::rlimit(50)]
pub fn encode_config(c: &MnistTrainingConfig) -> (r: Vec<u8>)
    ensures
        r@ == config_bytes(*c),
{
    let mut out: Vec<u8> = Vec::new();
    let seg_num_epochs_a: [u8; 14] = [123u8, 34u8, 110u8, 117u8, 109u8, 95u8, 101u8, 112u8, 111u8, 99u8, 104u8, 115u8, 34u8, 58u8];
    let seg_batch_size_a: [u8; 14] = [44u8, 34u8, 98u8, 97u8, 116u8, 99u8, 104u8, 95u8, 115u8, 105u8, 122u8, 101u8, 34u8, 58u8];
    let seg_num_workers_a: [u8; 15] = [44u8, 34u8, 110u8, 117u8, 109u8, 95u8, 119u8, 111u8, 114u8, 107u8, 101u8, 114u8, 115u8, 34u8, 58u8];
    let seg_seed_a: [u8; 8] = [44u8, 34u8, 115u8, 101u8, 101u8, 100u8, 34u8, 58u8];
    let seg_subset_size_a: [u8; 15] = [44u8, 34u8, 115u8, 117u8, 98u8, 115u8, 101u8, 116u8, 95u8, 115u8, 105u8, 122u8, 101u8, 34u8, 58u8];
    let seg_learning_rate_a: [u8; 22] = [44u8, 34u8, 108u8, 101u8, 97u8, 114u8, 110u8, 105u8, 110u8, 103u8, 95u8, 114u8, 97u8, 116u8, 101u8, 95u8, 110u8, 97u8, 110u8, 111u8, 34u8, 58u8];
    let seg_weight_decay_a: [u8; 21] = [44u8, 34u8, 119u8, 101u8, 105u8, 103u8, 104u8, 116u8, 95u8, 100u8, 101u8, 99u8, 97u8, 121u8, 95u8, 110u8, 97u8, 110u8, 111u8, 34u8, 58u8];
    let seg_close_a: [u8; 1] = [125u8];
    proof {
        assert(seg_num_epochs_a@ =~= seg_num_epochs()) by {
            reveal(seg_num_epochs);
        }
    }
    push_bytes(&mut out, seg_num_epochs_a.as_slice());
    push_u64_decimal(&mut out, c.num_epochs as u64);
    proof {
        assert(seg_batch_size_a@ =~= seg_batch_size()) by {
            reveal(seg_batch_size);
        }
    }
    push_bytes(&mut out, seg_batch_size_a.as_slice());
    push_u64_decimal(&mut out, c.batch_size as u64);
    proof {
        assert(seg_num_workers_a@ =~= seg_num_workers()) by {
            reveal(seg_num_workers);
        }
    }
    push_bytes(&mut out, seg_num_workers_a.as_slice());
    push_u64_decimal(&mut out, c.num_workers as u64);
    proof {
        assert(seg_seed_a@ =~= seg_seed()) by {
            reveal(seg_seed);
        }
    }
    push_bytes(&mut out, seg_seed_a.as_slice());
    push_u64_decimal(&mut out, c.seed);
    proof {
        assert(seg_subset_size_a@ =~= seg_subset_size()) by {
            reveal(seg_subset_size);
        }
    }
    push_bytes(&mut out, seg_subset_size_a.as_slice());
    push_u64_decimal(&mut out, c.subset_size as u64);
    proof {
        assert(seg_learning_rate_a@ =~= seg_learning_rate()) by {
            reveal(seg_learning_rate);
        }
    }
    push_bytes(&mut out, seg_learning_rate_a.as_slice());
    push_u64_decimal(&mut out, c.learning_rate_nano);
    proof {
        assert(seg_weight_decay_a@ =~= seg_weight_decay()) by {
            reveal(seg_weight_decay);
        }
    }
    push_bytes(&mut out, seg_weight_decay_a.as_slice());
    push_u64_decimal(&mut out, c.weight_decay_nano);
    proof {
        assert(seg_close_a@ =~= seg_close()) by {
            reveal(seg_close);
        }
    }
    push_bytes(&mut out, seg_close_a.as_slice());
    proof {
        assert(out@ =~= config_bytes(*c));
    }
    out
}

/// Where the maximal digit run starting at `pos` ends: the first position at
/// or after `pos` holding no digit.
pub open spec fn digit_run_end(s: Seq<u8>, pos: int) -> int
    decreases s.len() - pos,
{
    if pos < 0 || pos >= s.len() || !is_digit(s[pos]) {
        pos
    } else {
        digit_run_end(s, pos + 1)
    }
}

/// Why no canonical `u64` literal starts at `pos`: no digit there, a leading
/// zero, or a value past `u64::MAX`.
pub open spec fn no_canonical_u64_at(s: Seq<u8>, pos: int) -> bool {
    ||| pos >= s.len()
    ||| !is_digit(s[pos])
    ||| (s[pos] == 48 && digit_run_end(s, pos) > pos + 1)
    ||| digits_value(s.subrange(pos, digit_run_end(s, pos))) > u64::MAX
}

/// The canonical digits of a number: nonempty, all digits, no leading zero,
/// and they evaluate back to the number.
pub proof fn lemma_dec_digits(n: nat)
    ensures
        dec_digits(n).len() >= 1,
        forall|i: int| 0 <= i < dec_digits(n).len() ==> is_digit(#[trigger] dec_digits(n)[i]),
        dec_digits(n).len() == 1 || dec_digits(n)[0] != 48,
        digits_value(dec_digits(n)) == n,
    decreases n,
{
    if n < 10 {
        let ds = dec_digits(n);
        assert(ds =~= seq![(48 + n) as u8]);
        assert(ds.drop_last() =~= Seq::<u8>::empty());
        assert(digits_value(ds) == digits_value(ds.drop_last()) * 10 + (ds.last() - 48));
    } else {
        lemma_dec_digits(n / 10);
        let pre = dec_digits(n / 10);
        let ds = dec_digits(n);
        assert(ds == pre.push((48 + n % 10) as u8));
        assert(ds.drop_last() =~= pre);
        assert(ds.last() == (48 + n % 10) as u8);
        vstd::arithmetic::div_mod::lemma_fundamental_div_mod(n as int, 10);
        assert(n / 10 >= 1) by {
            vstd::arithmetic::div_mod::lemma_div_by_self(10);
            vstd::arithmetic::div_mod::lemma_div_is_ordered(10, n as int, 10);
        }
        assert(ds[0] == pre[0]);
        if pre.len() == 1 {
            assert(pre.drop_last() =~= Seq::<u8>::empty());
            assert(digits_value(Seq::<u8>::empty()) == 0);
            assert(digits_value(pre) == pre[0] - 48);
        }
        assert(ds[0] != 48);
    }
}

/// A nonempty digit sequence that does not start with `0` evaluates to a
/// positive number.
pub proof fn lemma_digits_value_pos(ds: Seq<u8>)
    requires
        ds.len() >= 1,
        forall|i: int| 0 <= i < ds.len() ==> is_digit(#[trigger] ds[i]),
        ds[0] != 48,
    ensures
        digits_value(ds) >= 1,
    decreases ds.len(),
{
    if ds.len() == 1 {
        assert(ds.drop_last() =~= Seq::<u8>::empty());
        assert(digits_value(Seq::<u8>::empty()) == 0);
        assert(digits_value(ds) == ds[0] - 48);
    } else {
        let pre = ds.drop_last();
        assert(pre[0] == ds[0]);
        assert(forall|i: int| 0 <= i < pre.len() ==> is_digit(#[trigger] pre[i])) by {
            assert(forall|i: int| 0 <= i < pre.len() ==> pre[i] == ds[i]);
        }
        lemma_digits_value_pos(pre);
        assert(is_digit(ds.last()));
    }
}

/// Digit sequences evaluate to non-negative numbers.
pub proof fn lemma_digits_value_nonneg(ds: Seq<u8>)
    requires
        forall|i: int| 0 <= i < ds.len() ==> is_digit(#[trigger] ds[i]),
    ensures
        digits_value(ds) >= 0,
    decreases ds.len(),
{
    if ds.len() > 0 {
        let pre = ds.drop_last();
        assert(forall|i: int| 0 <= i < pre.len() ==> pre[i] == ds[i]);
        lemma_digits_value_nonneg(pre);
        assert(is_digit(ds.last()));
    }
}

/// A nonempty digit sequence without a leading zero is canonical: it is the
/// digit sequence of its own value.
pub proof fn lemma_canonical_run(ds: Seq<u8>)
    requires
        ds.len() >= 1,
        forall|i: int| 0 <= i < ds.len() ==> is_digit(#[trigger] ds[i]),
        ds[0] != 48 || ds.len() == 1,
    ensures
        digits_value(ds) >= 0,
        dec_digits(digits_value(ds) as nat) == ds,
    decreases ds.len(),
{
    lemma_digits_value_nonneg(ds);
    if ds.len() == 1 {
        assert(ds.drop_last() =~= Seq::<u8>::empty());
        assert(digits_value(Seq::<u8>::empty()) == 0);
        assert(digits_value(ds) == ds[0] - 48);
        assert(dec_digits((ds[0] - 48) as nat) =~= ds);
    } else {
        let pre = ds.drop_last();
        assert(pre[0] == ds[0]);
        assert(forall|i: int| 0 <= i < pre.len() ==> pre[i] == ds[i]);
        lemma_canonical_run(pre);
        lemma_digits_value_pos(pre);
        let d = ds.last() - 48;
        let v = digits_value(ds);
        assert(v == digits_value(pre) * 10 + d);
        assert(v >= 10) by (nonlinear_arith)
            requires
                digits_value(pre) >= 1,
                d >= 0,
                v == digits_value(pre) * 10 + d,
        ;
        vstd::arithmetic::div_mod::lemma_fundamental_div_mod_converse(
            v,
            10,
            digits_value(pre),
            d,
        );
        assert(v / 10 == digits_value(pre) && v % 10 == d);
        assert(dec_digits(v as nat) == dec_digits((v / 10) as nat).push((48 + v % 10) as u8));
        assert(dec_digits(v as nat) =~= ds);
    }
}

/// The maximal digit run at `pos` lies between `pos` and the end, holds only
/// digits, and stops at the end or at a non-digit.
pub proof fn lemma_run_props(s: Seq<u8>, pos: int)
    requires
        0 <= pos <= s.len(),
    ensures
        pos <= digit_run_end(s, pos) <= s.len(),
        forall|i: int| pos <= i < digit_run_end(s, pos) ==> is_digit(#[trigger] s[i]),
        digit_run_end(s, pos) == s.len() || !is_digit(s[digit_run_end(s, pos)]),
    decreases s.len() - pos,
{
    if pos < s.len() && is_digit(s[pos]) {
        lemma_run_props(s, pos + 1);
    }
}

/// If a nonempty digit sequence sits at `pos` and the byte right after it
/// (if any) is not a digit, the maximal run at `pos` is exactly it.
pub proof fn lemma_run_at(s: Seq<u8>, pos: int, ds: Seq<u8>)
    requires
        0 <= pos,
        pos + ds.len() <= s.len(),
        ds.len() >= 1,
        forall|i: int| 0 <= i < ds.len() ==> is_digit(#[trigger] ds[i]),
        s.subrange(pos, pos + ds.len()) == ds,
        pos + ds.len() == s.len() || !is_digit(s[pos + ds.len()]),
    ensures
        digit_run_end(s, pos) == pos + ds.len(),
{
    lemma_run_props(s, pos);
    let e = digit_run_end(s, pos);
    assert(forall|i: int| pos <= i < pos + ds.len() ==> s[i] == ds[i - pos]);
    if e < pos + ds.len() {
        assert(is_digit(s[e]));
        assert(false);
    }
    if e > pos + ds.len() {
        assert(is_digit(s[pos + ds.len()]));
        assert(false);
    }
}

/// A digit prefix of a digit sequence evaluates to at most the whole.
pub proof fn lemma_digits_value_prefix(ds: Seq<u8>, i: int)
    requires
        0 <= i <= ds.len(),
        forall|k: int| 0 <= k < ds.len() ==> is_digit(#[trigger] ds[k]),
    ensures
        digits_value(ds.take(i)) <= digits_value(ds),
    decreases ds.len() - i,
{
    if i == ds.len() {
        assert(ds.take(i) =~= ds);
    } else {
        lemma_digits_value_prefix(ds, i + 1);
        let a = ds.take(i);
        let b = ds.take(i + 1);
        assert(b.drop_last() =~= a);
        assert(b.last() == ds[i]);
        assert(forall|k: int| 0 <= k < a.len() ==> a[k] == ds[k]);
        lemma_digits_value_nonneg(a);
        assert(digits_value(b) == digits_value(a) * 10 + (ds[i] - 48));
        assert(digits_value(a) * 10 >= digits_value(a)) by (nonlinear_arith)
            requires
                digits_value(a) >= 0,
        ;
        assert(is_digit(ds[i]));
    }
}

/// Reads a maximal canonical `u64` literal at `pos`: nonempty digits with no
/// leading zero, stopping at the first non-digit, rejecting values past
/// `u64::MAX`.
fn parse_u64_at(input: &Vec<u8>, pos: usize) -> (r: Option<(u64, usize)>)
    requires
        pos <= input@.len(),
    ensures
        r matches Some(p) ==> pos < p.1 <= input@.len() && p.1 as int == digit_run_end(
            input@,
            pos as int,
        ) && input@.subrange(pos as int, p.1 as int) == dec_digits(p.0 as nat),
        r is None ==> no_canonical_u64_at(input@, pos as int),
{
    let ghost s = input@;
    if pos >= input.len() {
        return None;
    }
    let b0 = input[pos];
    if b0 < 48 || b0 > 57 {
        return None;
    }
    proof {
        lemma_run_props(s, pos as int);
    }
    if b0 == 48 {
        let mut next_digit = false;
        if pos + 1 < input.len() {
            let b1 = input[pos + 1];
            next_digit = 48 <= b1 && b1 <= 57;
        }
        if next_digit {
            proof {
                lemma_run_props(s, pos as int + 2);
                assert(digit_run_end(s, pos as int) == digit_run_end(s, pos as int + 1));
                assert(digit_run_end(s, pos as int + 1) == digit_run_end(s, pos as int + 2));
            }
            return None;
        }
        proof {
            assert(digit_run_end(s, pos as int) == digit_run_end(s, pos as int + 1));
            assert(digit_run_end(s, pos as int + 1) == pos as int + 1);
            assert(s.subrange(pos as int, pos as int + 1) =~= dec_digits(0));
        }
        return Some((0, pos + 1));
    }
    let mut end = pos;
    let mut acc: u64 = 0;
    while end < input.len() && 48 <= input[end] && input[end] <= 57
        invariant
            pos <= end <= input@.len(),
            s == input@,
            pos < input@.len(),
            input@[pos as int] == b0,
            48 < b0 <= 57,
            forall|i: int| pos <= i < end ==> is_digit(#[trigger] input@[i]),
            digit_run_end(s, pos as int) == digit_run_end(s, end as int),
            acc as int == digits_value(s.subrange(pos as int, end as int)),
        decreases input@.len() - end,
    {
        let d = input[end] - 48;
        let wide = (acc as u128) * 10 + (d as u128);
        proof {
            assert(s.subrange(pos as int, end as int + 1).drop_last() =~= s.subrange(
                pos as int,
                end as int,
            ));
            assert(digits_value(s.subrange(pos as int, end as int + 1)) == acc as int * 10
                + d as int);
        }
        if wide > 0xffff_ffff_ffff_ffffu128 {
            proof {
                lemma_run_props(s, pos as int);
                let re = digit_run_end(s, pos as int);
                assert(digit_run_end(s, end as int) == digit_run_end(s, end as int + 1));
                lemma_run_props(s, end as int + 1);
                assert(end as int + 1 <= re);
                let full = s.subrange(pos as int, re);
                assert(forall|i: int| 0 <= i < full.len() ==> is_digit(#[trigger] full[i]));
                assert(full.take(end as int + 1 - pos as int) =~= s.subrange(
                    pos as int,
                    end as int + 1,
                ));
                lemma_digits_value_prefix(full, end as int + 1 - pos as int);
                assert(digits_value(full) > u64::MAX);
            }
            return None;
        }
        acc = wide as u64;
        end = end + 1;
        proof {
            assert(digit_run_end(s, end as int - 1) == digit_run_end(s, end as int));
        }
    }
    proof {
        assert(digit_run_end(s, end as int) == end as int);
        let ds = s.subrange(pos as int, end as int);
        assert(end > pos);
        assert(ds[0] == b0 && b0 != 48);
        assert(forall|i: int| 0 <= i < ds.len() ==> is_digit(#[trigger] ds[i]));
        lemma_canonical_run(ds);
    }
    Some((acc, end))
}

/// Checks that `expected` sits at `pos` in `input`.
fn expect_bytes(input: &Vec<u8>, pos: usize, expected: &[u8]) -> (r: Option<usize>)
    requires
        pos <= input@.len(),
    ensures
        r is Some <==> pos + expected@.len() <= input@.len() && input@.subrange(
            pos as int,
            pos + expected@.len(),
        ) == expected@,
        r matches Some(end) ==> end == pos + expected@.len(),
{
    if expected.len() > input.len() - pos {
        return None;
    }
    let n = expected.len();
    let mut k: usize = 0;
    while k < n
        invariant
            k <= n,
            n == expected@.len(),
            pos + n <= input@.len(),
            pos + n <= usize::MAX,
            forall|i: int| 0 <= i < k ==> input@[pos + i] == expected@[i],
        decreases n - k,
    {
        if input[pos + k] != expected[k] {
            proof {
                assert(input@.subrange(pos as int, pos + expected@.len())[k as int]
                    != expected@[k as int]);
            }
            return None;
        }
        k = k + 1;
    }
    proof {
        assert(input@.subrange(pos as int, pos + expected@.len()) =~= expected@);
    }
    Some(pos + n)
}

/// Reads one `"key":value` step: the fixed segment bytes, then a canonical
/// `u64` literal.
fn parse_field(input: &Vec<u8>, pos: usize, seg: &[u8]) -> (r: Option<(u64, usize)>)
    requires
        pos <= input@.len(),
    ensures
        r matches Some(p) ==> {
            &&& pos + seg@.len() <= input@.len()
            &&& input@.subrange(pos as int, pos + seg@.len()) == seg@
            &&& pos + seg@.len() < p.1 <= input@.len()
            &&& p.1 as int == digit_run_end(input@, pos + seg@.len())
            &&& input@.subrange(pos + seg@.len(), p.1 as int) == dec_digits(p.0 as nat)
        },
        r is None ==> !(pos + seg@.len() <= input@.len() && input@.subrange(
            pos as int,
            pos + seg@.len(),
        ) == seg@) || no_canonical_u64_at(input@, pos + seg@.len()),
{
    match expect_bytes(input, pos, seg) {
        Some(q) => parse_u64_at(input, q),
        None => None,
    }
}


/// If, from `pos` on, `s` holds a fixed segment, then the canonical digits
/// of `f`, then a rest that does not begin with a digit, each piece sits at
/// its place and the digit run at the field position is maximal, canonical
/// and within `u64` range.
pub proof fn lemma_field_present(s: Seq<u8>, pos: int, seg: Seq<u8>, f: u64, rest: Seq<u8>)
    requires
        0 <= pos <= s.len(),
        s.subrange(pos, s.len() as int) == seg + dec_digits(f as nat) + rest,
        rest.len() >= 1,
        !is_digit(rest[0]),
    ensures
        pos + seg.len() + dec_digits(f as nat).len() + rest.len() == s.len(),
        s.subrange(pos, pos + seg.len()) == seg,
        s.subrange(pos + seg.len(), pos + seg.len() + dec_digits(f as nat).len()) == dec_digits(
            f as nat,
        ),
        digit_run_end(s, pos + seg.len()) == pos + seg.len() + dec_digits(f as nat).len(),
        !no_canonical_u64_at(s, pos + seg.len()),
        s.subrange(pos + seg.len() + dec_digits(f as nat).len(), s.len() as int) == rest,
{
    lemma_dec_digits(f as nat);
    let ds = dec_digits(f as nat);
    let suffix = s.subrange(pos, s.len() as int);
    let q = pos + seg.len();
    let e = q + ds.len();
    assert(suffix.len() == seg.len() + ds.len() + rest.len());
    assert(forall|i: int| 0 <= i < suffix.len() ==> suffix[i] == s[pos + i]);
    assert forall|i: int| 0 <= i < seg.len() implies s[pos + i] == seg[i] by {
        assert(suffix[i] == seg[i]);
    }
    assert(s.subrange(pos, q) =~= seg);
    assert forall|i: int| 0 <= i < ds.len() implies s[q + i] == ds[i] by {
        assert(suffix[seg.len() + i] == ds[i]);
    }
    assert(s.subrange(q, e) =~= ds);
    assert forall|i: int| 0 <= i < rest.len() implies s[e + i] == rest[i] by {
        assert(suffix[seg.len() + ds.len() + i] == rest[i]);
    }
    assert(s.subrange(e, s.len() as int) =~= rest);
    assert(s[e] == rest[0]);
    lemma_run_at(s, q, ds);
    assert(digit_run_end(s, q) == e);
    assert(s[q] == ds[0] && is_digit(ds[0]));
    if ds[0] == 48 {
        assert(ds.len() == 1);
        assert(digit_run_end(s, q) == q + 1);
    }
    assert(digits_value(s.subrange(q, digit_run_end(s, q))) == f);
}

/// The boundary positions of the canonical record of `c`: `enc_q` is where
/// a field's digits start, `enc_e` where they end.
pub open spec fn enc_q1() -> int {
    seg_num_epochs().len() as int
}

/// End of the digits of field 1 of the record of `c`.
pub open spec fn enc_e1(c: MnistTrainingConfig) -> int {
    enc_q1() + dec_digits((c.num_epochs as u64) as nat).len()
}

/// Start of the digits of field 2 of the record of `c`.
pub open spec fn enc_q2(c: MnistTrainingConfig) -> int {
    enc_e1(c) + seg_batch_size().len()
}

/// End of the digits of field 2 of the record of `c`.
pub open spec fn enc_e2(c: MnistTrainingConfig) -> int {
    enc_q2(c) + dec_digits((c.batch_size as u64) as nat).len()
}

/// Start of the digits of field 3 of the record of `c`.
pub open spec fn enc_q3(c: MnistTrainingConfig) -> int {
    enc_e2(c) + seg_num_workers().len()
}

/// End of the digits of field 3 of the record of `c`.
pub open spec fn enc_e3(c: MnistTrainingConfig) -> int {
    enc_q3(c) + dec_digits((c.num_workers as u64) as nat).len()
}

/// Start of the digits of field 4 of the record of `c`.
pub open spec fn enc_q4(c: MnistTrainingConfig) -> int {
    enc_e3(c) + seg_seed().len()
}

/// End of the digits of field 4 of the record of `c`.
pub open spec fn enc_e4(c: MnistTrainingConfig) -> int {
    enc_q4(c) + dec_digits((c.seed) as nat).len()
}

/// Start of the digits of field 5 of the record of `c`.
pub open spec fn enc_q5(c: MnistTrainingConfig) -> int {
    enc_e4(c) + seg_subset_size().len()
}

/// End of the digits of field 5 of the record of `c`.
pub open spec fn enc_e5(c: MnistTrainingConfig) -> int {
    enc_q5(c) + dec_digits((c.subset_size as u64) as nat).len()
}

/// Start of the digits of field 6 of the record of `c`.
pub open spec fn enc_q6(c: MnistTrainingConfig) -> int {
    enc_e5(c) + seg_learning_rate().len()
}

/// End of the digits of field 6 of the record of `c`.
pub open spec fn enc_e6(c: MnistTrainingConfig) -> int {
    enc_q6(c) + dec_digits((c.learning_rate_nano) as nat).len()
}

/// Start of the digits of field 7 of the record of `c`.
pub open spec fn enc_q7(c: MnistTrainingConfig) -> int {
    enc_e6(c) + seg_weight_decay().len()
}

/// End of the digits of field 7 of the record of `c`.
pub open spec fn enc_e7(c: MnistTrainingConfig) -> int {
    enc_q7(c) + dec_digits((c.weight_decay_nano) as nat).len()
}

/// How the canonical record of `c` decomposes: each fixed segment and each
/// field's canonical digit run sit at their boundary positions, each digit
/// run is maximal and canonical, and the closing brace ends the record.
#[verifier::rlimit(100)]
pub proof fn lemma_encoding_decomposition(s: Seq<u8>, c: MnistTrainingConfig)
    requires
        s == config_bytes(c),
    ensures
        s.subrange(0, enc_q1()) == seg_num_epochs(),
        s.subrange(enc_q1(), enc_e1(c)) == dec_digits((c.num_epochs as u64) as nat),
        digit_run_end(s, enc_q1()) == enc_e1(c),
        !no_canonical_u64_at(s, enc_q1()),
        s.subrange(enc_e1(c), enc_q2(c)) == seg_batch_size(),
        s.subrange(enc_q2(c), enc_e2(c)) == dec_digits((c.batch_size as u64) as nat),
        digit_run_end(s, enc_q2(c)) == enc_e2(c),
        !no_canonical_u64_at(s, enc_q2(c)),
        s.subrange(enc_e2(c), enc_q3(c)) == seg_num_workers(),
        s.subrange(enc_q3(c), enc_e3(c)) == dec_digits((c.num_workers as u64) as nat),
        digit_run_end(s, enc_q3(c)) == enc_e3(c),
        !no_canonical_u64_at(s, enc_q3(c)),
        s.subrange(enc_e3(c), enc_q4(c)) == seg_seed(),
        s.subrange(enc_q4(c), enc_e4(c)) == dec_digits((c.seed) as nat),
        digit_run_end(s, enc_q4(c)) == enc_e4(c),
        !no_canonical_u64_at(s, enc_q4(c)),
        s.subrange(enc_e4(c), enc_q5(c)) == seg_subset_size(),
        s.subrange(enc_q5(c), enc_e5(c)) == dec_digits((c.subset_size as u64) as nat),
        digit_run_end(s, enc_q5(c)) == enc_e5(c),
        !no_canonical_u64_at(s, enc_q5(c)),
        s.subrange(enc_e5(c), enc_q6(c)) == seg_learning_rate(),
        s.subrange(enc_q6(c), enc_e6(c)) == dec_digits((c.learning_rate_nano) as nat),
        digit_run_end(s, enc_q6(c)) == enc_e6(c),
        !no_canonical_u64_at(s, enc_q6(c)),
        s.subrange(enc_e6(c), enc_q7(c)) == seg_weight_decay(),
        s.subrange(enc_q7(c), enc_e7(c)) == dec_digits((c.weight_decay_nano) as nat),
        digit_run_end(s, enc_q7(c)) == enc_e7(c),
        !no_canonical_u64_at(s, enc_q7(c)),
        s.len() == enc_e7(c) + 1,
        s.subrange(enc_e7(c), s.len() as int) == seg_close(),
{
    lemma_seg_shapes();
    assert(s.subrange(0, s.len() as int) =~= s);
    // field 1: num_epochs
    assert(s.subrange(0, s.len() as int) == seg_num_epochs() + dec_digits((c.num_epochs as u64) as nat)
        + tail_batch_size(c.batch_size as u64, c.num_workers as u64, c.seed, c.subset_size as u64, c.learning_rate_nano, c.weight_decay_nano));
    assert((tail_batch_size(c.batch_size as u64, c.num_workers as u64, c.seed, c.subset_size as u64, c.learning_rate_nano, c.weight_decay_nano))[0] == 44);
    lemma_field_present(s, 0, seg_num_epochs(), c.num_epochs as u64, tail_batch_size(c.batch_size as u64, c.num_workers as u64, c.seed, c.subset_size as u64, c.learning_rate_nano, c.weight_decay_nano));
    // field 2: batch_size
    assert(s.subrange(enc_e1(c), s.len() as int) == seg_batch_size() + dec_digits((c.batch_size as u64) as nat)
        + tail_num_workers(c.num_workers as u64, c.seed, c.subset_size as u64, c.learning_rate_nano, c.weight_decay_nano));
    assert((tail_num_workers(c.num_workers as u64, c.seed, c.subset_size as u64, c.learning_rate_nano, c.weight_decay_nano))[0] == 44);
    lemma_field_present(s, enc_e1(c), seg_batch_size(), c.batch_size as u64, tail_num_workers(c.num_workers as u64, c.seed, c.subset_size as u64, c.learning_rate_nano, c.weight_decay_nano));
    // field 3: num_workers
    assert(s.subrange(enc_e2(c), s.len() as int) == seg_num_workers() + dec_digits((c.num_workers as u64) as nat)
        + tail_seed(c.seed, c.subset_size as u64, c.learning_rate_nano, c.weight_decay_nano));
    assert((tail_seed(c.seed, c.subset_size as u64, c.learning_rate_nano, c.weight_decay_nano))[0] == 44);
    lemma_field_present(s, enc_e2(c), seg_num_workers(), c.num_workers as u64, tail_seed(c.seed, c.subset_size as u64, c.learning_rate_nano, c.weight_decay_nano));
    // field 4: seed
    assert(s.subrange(enc_e3(c), s.len() as int) == seg_seed() + dec_digits((c.seed) as nat)
        + tail_subset_size(c.subset_size as u64, c.learning_rate_nano, c.weight_decay_nano));
    assert((tail_subset_size(c.subset_size as u64, c.learning_rate_nano, c.weight_decay_nano))[0] == 44);
    lemma_field_present(s, enc_e3(c), seg_seed(), c.seed, tail_subset_size(c.subset_size as u64, c.learning_rate_nano, c.weight_decay_nano));
    // field 5: subset_size
    assert(s.subrange(enc_e4(c), s.len() as int) == seg_subset_size() + dec_digits((c.subset_size as u64) as nat)
        + tail_learning_rate(c.learning_rate_nano, c.weight_decay_nano));
    assert((tail_learning_rate(c.learning_rate_nano, c.weight_decay_nano))[0] == 44);
    lemma_field_present(s, enc_e4(c), seg_subset_size(), c.subset_size as u64, tail_learning_rate(c.learning_rate_nano, c.weight_decay_nano));
    // field 6: learning_rate_nano
    assert(s.subrange(enc_e5(c), s.len() as int) == seg_learning_rate() + dec_digits((c.learning_rate_nano) as nat)
        + tail_weight_decay(c.weight_decay_nano));
    assert((tail_weight_decay(c.weight_decay_nano))[0] == 44);
    lemma_field_present(s, enc_e5(c), seg_learning_rate(), c.learning_rate_nano, tail_weight_decay(c.weight_decay_nano));
    // field 7: weight_decay_nano
    assert(s.subrange(enc_e6(c), s.len() as int) == seg_weight_decay() + dec_digits((c.weight_decay_nano) as nat)
        + seg_close());
    assert((seg_close())[0] == 125);
    lemma_field_present(s, enc_e6(c), seg_weight_decay(), c.weight_decay_nano, seg_close());
    assert(s.subrange(enc_e7(c), s.len() as int) =~= seg_close());
}


/// Stitches the parsed pieces back together: if every fixed segment and
/// every parsed digit run sits at its place and the record ends right after
/// the closing brace, the whole input is the canonical record of the parsed
/// values.
#[verifier::rlimit(100)]
pub proof fn lemma_reassemble(
    s: Seq<u8>,
    p1: int, p2: int, p3: int, p4: int, p5: int, p6: int, p7: int,
    v1: u64, v2: u64, v3: u64, v4: u64, v5: u64, v6: u64, v7: u64,
)
    requires
        0 <= 0 && 0 + seg_num_epochs().len() <= p1 <= s.len(),
        s.subrange(0 as int, 0 + seg_num_epochs().len() as int) == seg_num_epochs(),
        s.subrange(0 + seg_num_epochs().len() as int, p1) == dec_digits(v1 as nat),
        0 <= p1 && p1 + seg_batch_size().len() <= p2 <= s.len(),
        s.subrange(p1 as int, p1 + seg_batch_size().len() as int) == seg_batch_size(),
        s.subrange(p1 + seg_batch_size().len() as int, p2) == dec_digits(v2 as nat),
        0 <= p2 && p2 + seg_num_workers().len() <= p3 <= s.len(),
        s.subrange(p2 as int, p2 + seg_num_workers().len() as int) == seg_num_workers(),
        s.subrange(p2 + seg_num_workers().len() as int, p3) == dec_digits(v3 as nat),
        0 <= p3 && p3 + seg_seed().len() <= p4 <= s.len(),
        s.subrange(p3 as int, p3 + seg_seed().len() as int) == seg_seed(),
        s.subrange(p3 + seg_seed().len() as int, p4) == dec_digits(v4 as nat),
        0 <= p4 && p4 + seg_subset_size().len() <= p5 <= s.len(),
        s.subrange(p4 as int, p4 + seg_subset_size().len() as int) == seg_subset_size(),
        s.subrange(p4 + seg_subset_size().len() as int, p5) == dec_digits(v5 as nat),
        0 <= p5 && p5 + seg_learning_rate().len() <= p6 <= s.len(),
        s.subrange(p5 as int, p5 + seg_learning_rate().len() as int) == seg_learning_rate(),
        s.subrange(p5 + seg_learning_rate().len() as int, p6) == dec_digits(v6 as nat),
        0 <= p6 && p6 + seg_weight_decay().len() <= p7 <= s.len(),
        s.subrange(p6 as int, p6 + seg_weight_decay().len() as int) == seg_weight_decay(),
        s.subrange(p6 + seg_weight_decay().len() as int, p7) == dec_digits(v7 as nat),
        s.len() == p7 + 1,
        s.subrange(p7, p7 + 1) == seg_close(),
    ensures
        s == config_bytes_fields(v1, v2, v3, v4, v5, v6, v7),
{
        // reassemble: the whole input is the canonical record of the parsed values
        assert(s.subrange(p7, s.len() as int) =~= seg_close());
        assert(s.subrange(p6, s.len() as int) =~= s.subrange(
            p6,
            p6 + seg_weight_decay().len() as int,
        ) + s.subrange(p6 + seg_weight_decay().len() as int, p7) + s.subrange(
            p7,
            s.len() as int,
        ));
        assert(s.subrange(p6, s.len() as int) == tail_weight_decay(v7));
        assert(s.subrange(p5, s.len() as int) =~= s.subrange(
            p5,
            p5 + seg_learning_rate().len() as int,
        ) + s.subrange(p5 + seg_learning_rate().len() as int, p6) + s.subrange(
            p6,
            s.len() as int,
        ));
        assert(s.subrange(p5, s.len() as int) == tail_learning_rate(v6, v7));
        assert(s.subrange(p4, s.len() as int) =~= s.subrange(
            p4,
            p4 + seg_subset_size().len() as int,
        ) + s.subrange(p4 + seg_subset_size().len() as int, p5) + s.subrange(
            p5,
            s.len() as int,
        ));
        assert(s.subrange(p4, s.len() as int) == tail_subset_size(v5, v6, v7));
        assert(s.subrange(p3, s.len() as int) =~= s.subrange(
            p3,
            p3 + seg_seed().len() as int,
        ) + s.subrange(p3 + seg_seed().len() as int, p4) + s.subrange(
            p4,
            s.len() as int,
        ));
        assert(s.subrange(p3, s.len() as int) == tail_seed(v4, v5, v6, v7));
        assert(s.subrange(p2, s.len() as int) =~= s.subrange(
            p2,
            p2 + seg_num_workers().len() as int,
        ) + s.subrange(p2 + seg_num_workers().len() as int, p3) + s.subrange(
            p3,
            s.len() as int,
        ));
        assert(s.subrange(p2, s.len() as int) == tail_num_workers(v3, v4, v5, v6, v7));
        assert(s.subrange(p1, s.len() as int) =~= s.subrange(
            p1,
            p1 + seg_batch_size().len() as int,
        ) + s.subrange(p1 + seg_batch_size().len() as int, p2) + s.subrange(
            p2,
            s.len() as int,
        ));
        assert(s.subrange(p1, s.len() as int) == tail_batch_size(v2, v3, v4, v5, v6, v7));
        assert(s.subrange(0, s.len() as int) =~= s.subrange(0, 0 + seg_num_epochs().len() as int)
            + s.subrange(0 + seg_num_epochs().len() as int, p1) + s.subrange(
            p1,
            s.len() as int,
        ));
        assert(s.subrange(0, s.len() as int) == config_bytes_fields(v1, v2, v3, v4, v5, v6, v7));
        assert(s.subrange(0, s.len() as int) =~= s);
        assert(s == config_bytes_fields(v1, v2, v3, v4, v5, v6, v7));
        assert(s == config_bytes_fields(v1, v2, v3, v4, v5, v6, v7));
}

/// Parses the canonical configuration record. It returns the configuration
/// exactly when the input is the canonical encoding of one whose size
/// fields fit this machine; a well-formed record with an oversized size
/// field is a range error, anything else is malformed. In particular,
/// parsing what `encode_config` produced for `c` yields exactly `Ok(c)`:
/// persisting and reloading restores every field.
#[verifier::rlimit(100)]
pub fn parse_config(input: &Vec<u8>) -> (r: Result<MnistTrainingConfig, ConfigError>)
    ensures
        r matches Ok(c) ==> input@ == config_bytes(c),
        forall|c: MnistTrainingConfig| input@ == config_bytes(c) ==> r == Ok::<
            MnistTrainingConfig,
            ConfigError,
        >(c),
        r == Err::<MnistTrainingConfig, ConfigError>(ConfigError::ValueOutOfRange)
            ==> exists|t: (u64, u64, u64, u64, u64, u64, u64)|
            input@ == config_bytes_fields(t.0, t.1, t.2, t.3, t.4, t.5, t.6),
{
    let ghost s = input@;
    let seg_num_epochs_a: [u8; 14] = [123u8, 34u8, 110u8, 117u8, 109u8, 95u8, 101u8, 112u8, 111u8, 99u8, 104u8, 115u8, 34u8, 58u8];
    let seg_batch_size_a: [u8; 14] = [44u8, 34u8, 98u8, 97u8, 116u8, 99u8, 104u8, 95u8, 115u8, 105u8, 122u8, 101u8, 34u8, 58u8];
    let seg_num_workers_a: [u8; 15] = [44u8, 34u8, 110u8, 117u8, 109u8, 95u8, 119u8, 111u8, 114u8, 107u8, 101u8, 114u8, 115u8, 34u8, 58u8];
    let seg_seed_a: [u8; 8] = [44u8, 34u8, 115u8, 101u8, 101u8, 100u8, 34u8, 58u8];
    let seg_subset_size_a: [u8; 15] = [44u8, 34u8, 115u8, 117u8, 98u8, 115u8, 101u8, 116u8, 95u8, 115u8, 105u8, 122u8, 101u8, 34u8, 58u8];
    let seg_learning_rate_a: [u8; 22] = [44u8, 34u8, 108u8, 101u8, 97u8, 114u8, 110u8, 105u8, 110u8, 103u8, 95u8, 114u8, 97u8, 116u8, 101u8, 95u8, 110u8, 97u8, 110u8, 111u8, 34u8, 58u8];
    let seg_weight_decay_a: [u8; 21] = [44u8, 34u8, 119u8, 101u8, 105u8, 103u8, 104u8, 116u8, 95u8, 100u8, 101u8, 99u8, 97u8, 121u8, 95u8, 110u8, 97u8, 110u8, 111u8, 34u8, 58u8];
    let seg_close_a: [u8; 1] = [125u8];
    proof {
        assert(seg_num_epochs_a@ =~= seg_num_epochs()) by {
            reveal(seg_num_epochs);
        }
    }
    proof {
        assert(seg_batch_size_a@ =~= seg_batch_size()) by {
            reveal(seg_batch_size);
        }
    }
    proof {
        assert(seg_num_workers_a@ =~= seg_num_workers()) by {
            reveal(seg_num_workers);
        }
    }
    proof {
        assert(seg_seed_a@ =~= seg_seed()) by {
            reveal(seg_seed);
        }
    }
    proof {
        assert(seg_subset_size_a@ =~= seg_subset_size()) by {
            reveal(seg_subset_size);
        }
    }
    proof {
        assert(seg_learning_rate_a@ =~= seg_learning_rate()) by {
            reveal(seg_learning_rate);
        }
    }
    proof {
        assert(seg_weight_decay_a@ =~= seg_weight_decay()) by {
            reveal(seg_weight_decay);
        }
    }
    proof {
        assert(seg_close_a@ =~= seg_close()) by {
            reveal(seg_close);
        }
    }
    let (v1, p1) = match parse_field(input, 0, seg_num_epochs_a.as_slice()) {
        Some(p) => p,
        None => {
            proof {
                assert forall|c: MnistTrainingConfig| s == config_bytes(c) implies false by {
                lemma_encoding_decomposition(s, c);
                    assert(0 as int == 0);
                    assert(s.subrange(0 as int, 0 + seg_num_epochs().len() as int) == seg_num_epochs());
                    assert(!no_canonical_u64_at(s, enc_q1()));
                }
            }
            return Err(ConfigError::Malformed);
        },
    };

    let (v2, p2) = match parse_field(input, p1, seg_batch_size_a.as_slice()) {
        Some(p) => p,
        None => {
            proof {
                assert forall|c: MnistTrainingConfig| s == config_bytes(c) implies false by {
                lemma_encoding_decomposition(s, c);
                assert(0 + seg_num_epochs().len() as int == enc_q1());
                assert(p1 as int == enc_e1(c));
                assert(dec_digits(v1 as nat) == dec_digits((c.num_epochs as u64) as nat));
                lemma_dec_digits(v1 as nat);
                lemma_dec_digits((c.num_epochs as u64) as nat);
                assert(v1 == c.num_epochs as u64);
                    assert(p1 as int == enc_e1(c));
                    assert(s.subrange(p1 as int, p1 + seg_batch_size().len()) == seg_batch_size());
                    assert(!no_canonical_u64_at(s, enc_q2(c)));
                }
            }
            return Err(ConfigError::Malformed);
        },
    };

    let (v3, p3) = match parse_field(input, p2, seg_num_workers_a.as_slice()) {
        Some(p) => p,
        None => {
            proof {
                assert forall|c: MnistTrainingConfig| s == config_bytes(c) implies false by {
                lemma_encoding_decomposition(s, c);
                assert(0 + seg_num_epochs().len() as int == enc_q1());
                assert(p1 as int == enc_e1(c));
                assert(dec_digits(v1 as nat) == dec_digits((c.num_epochs as u64) as nat));
                lemma_dec_digits(v1 as nat);
                lemma_dec_digits((c.num_epochs as u64) as nat);
                assert(v1 == c.num_epochs as u64);
                assert(p1 + seg_batch_size().len() == enc_q2(c));
                assert(p2 as int == enc_e2(c));
                assert(dec_digits(v2 as nat) == dec_digits((c.batch_size as u64) as nat));
                lemma_dec_digits(v2 as nat);
                lemma_dec_digits((c.batch_size as u64) as nat);
                assert(v2 == c.batch_size as u64);
                    assert(p2 as int == enc_e2(c));
                    assert(s.subrange(p2 as int, p2 + seg_num_workers().len()) == seg_num_workers());
                    assert(!no_canonical_u64_at(s, enc_q3(c)));
                }
            }
            return Err(ConfigError::Malformed);
        },
    };

    let (v4, p4) = match parse_field(input, p3, seg_seed_a.as_slice()) {
        Some(p) => p,
        None => {
            proof {
                assert forall|c: MnistTrainingConfig| s == config_bytes(c) implies false by {
                lemma_encoding_decomposition(s, c);
                assert(0 + seg_num_epochs().len() as int == enc_q1());
                assert(p1 as int == enc_e1(c));
                assert(dec_digits(v1 as nat) == dec_digits((c.num_epochs as u64) as nat));
                lemma_dec_digits(v1 as nat);
                lemma_dec_digits((c.num_epochs as u64) as nat);
                assert(v1 == c.num_epochs as u64);
                assert(p1 + seg_batch_size().len() == enc_q2(c));
                assert(p2 as int == enc_e2(c));
                assert(dec_digits(v2 as nat) == dec_digits((c.batch_size as u64) as nat));
                lemma_dec_digits(v2 as nat);
                lemma_dec_digits((c.batch_size as u64) as nat);
                assert(v2 == c.batch_size as u64);
                assert(p2 + seg_num_workers().len() == enc_q3(c));
                assert(p3 as int == enc_e3(c));
                assert(dec_digits(v3 as nat) == dec_digits((c.num_workers as u64) as nat));
                lemma_dec_digits(v3 as nat);
                lemma_dec_digits((c.num_workers as u64) as nat);
                assert(v3 == c.num_workers as u64);
                    assert(p3 as int == enc_e3(c));
                    assert(s.subrange(p3 as int, p3 + seg_seed().len()) == seg_seed());
                    assert(!no_canonical_u64_at(s, enc_q4(c)));
                }
            }
            return Err(ConfigError::Malformed);
        },
    };

    let (v5, p5) = match parse_field(input, p4, seg_subset_size_a.as_slice()) {
        Some(p) => p,
        None => {
            proof {
                assert forall|c: MnistTrainingConfig| s == config_bytes(c) implies false by {
                lemma_encoding_decomposition(s, c);
                assert(0 + seg_num_epochs().len() as int == enc_q1());
                assert(p1 as int == enc_e1(c));
                assert(dec_digits(v1 as nat) == dec_digits((c.num_epochs as u64) as nat));
                lemma_dec_digits(v1 as nat);
                lemma_dec_digits((c.num_epochs as u64) as nat);
                assert(v1 == c.num_epochs as u64);
                assert(p1 + seg_batch_size().len() == enc_q2(c));
                assert(p2 as int == enc_e2(c));
                assert(dec_digits(v2 as nat) == dec_digits((c.batch_size as u64) as nat));
                lemma_dec_digits(v2 as nat);
                lemma_dec_digits((c.batch_size as u64) as nat);
                assert(v2 == c.batch_size as u64);
                assert(p2 + seg_num_workers().len() == enc_q3(c));
                assert(p3 as int == enc_e3(c));
                assert(dec_digits(v3 as nat) == dec_digits((c.num_workers as u64) as nat));
                lemma_dec_digits(v3 as nat);
                lemma_dec_digits((c.num_workers as u64) as nat);
                assert(v3 == c.num_workers as u64);
                assert(p3 + seg_seed().len() == enc_q4(c));
                assert(p4 as int == enc_e4(c));
                assert(dec_digits(v4 as nat) == dec_digits((c.seed) as nat));
                lemma_dec_digits(v4 as nat);
                lemma_dec_digits((c.seed) as nat);
                assert(v4 == c.seed);
                    assert(p4 as int == enc_e4(c));
                    assert(s.subrange(p4 as int, p4 + seg_subset_size().len()) == seg_subset_size());
                    assert(!no_canonical_u64_at(s, enc_q5(c)));
                }
            }
            return Err(ConfigError::Malformed);
        },
    };

    let (v6, p6) = match parse_field(input, p5, seg_learning_rate_a.as_slice()) {
        Some(p) => p,
        None => {
            proof {
                assert forall|c: MnistTrainingConfig| s == config_bytes(c) implies false by {
                lemma_encoding_decomposition(s, c);
                assert(0 + seg_num_epochs().len() as int == enc_q1());
                assert(p1 as int == enc_e1(c));
                assert(dec_digits(v1 as nat) == dec_digits((c.num_epochs as u64) as nat));
                lemma_dec_digits(v1 as nat);
                lemma_dec_digits((c.num_epochs as u64) as nat);
                assert(v1 == c.num_epochs as u64);
                assert(p1 + seg_batch_size().len() == enc_q2(c));
                assert(p2 as int == enc_e2(c));
                assert(dec_digits(v2 as nat) == dec_digits((c.batch_size as u64) as nat));
                lemma_dec_digits(v2 as nat);
                lemma_dec_digits((c.batch_size as u64) as nat);
                assert(v2 == c.batch_size as u64);
                assert(p2 + seg_num_workers().len() == enc_q3(c));
                assert(p3 as int == enc_e3(c));
                assert(dec_digits(v3 as nat) == dec_digits((c.num_workers as u64) as nat));
                lemma_dec_digits(v3 as nat);
                lemma_dec_digits((c.num_workers as u64) as nat);
                assert(v3 == c.num_workers as u64);
                assert(p3 + seg_seed().len() == enc_q4(c));
                assert(p4 as int == enc_e4(c));
                assert(dec_digits(v4 as nat) == dec_digits((c.seed) as nat));
                lemma_dec_digits(v4 as nat);
                lemma_dec_digits((c.seed) as nat);
                assert(v4 == c.seed);
                assert(p4 + seg_subset_size().len() == enc_q5(c));
                assert(p5 as int == enc_e5(c));
                assert(dec_digits(v5 as nat) == dec_digits((c.subset_size as u64) as nat));
                lemma_dec_digits(v5 as nat);
                lemma_dec_digits((c.subset_size as u64) as nat);
                assert(v5 == c.subset_size as u64);
                    assert(p5 as int == enc_e5(c));
                    assert(s.subrange(p5 as int, p5 + seg_learning_rate().len()) == seg_learning_rate());
                    assert(!no_canonical_u64_at(s, enc_q6(c)));
                }
            }
            return Err(ConfigError::Malformed);
        },
    };

    let (v7, p7) = match parse_field(input, p6, seg_weight_decay_a.as_slice()) {
        Some(p) => p,
        None => {
            proof {
                assert forall|c: MnistTrainingConfig| s == config_bytes(c) implies false by {
                lemma_encoding_decomposition(s, c);
                assert(0 + seg_num_epochs().len() as int == enc_q1());
                assert(p1 as int == enc_e1(c));
                assert(dec_digits(v1 as nat) == dec_digits((c.num_epochs as u64) as nat));
                lemma_dec_digits(v1 as nat);
                lemma_dec_digits((c.num_epochs as u64) as nat);
                assert(v1 == c.num_epochs as u64);
                assert(p1 + seg_batch_size().len() == enc_q2(c));
                assert(p2 as int == enc_e2(c));
                assert(dec_digits(v2 as nat) == dec_digits((c.batch_size as u64) as nat));
                lemma_dec_digits(v2 as nat);
                lemma_dec_digits((c.batch_size as u64) as nat);
                assert(v2 == c.batch_size as u64);
                assert(p2 + seg_num_workers().len() == enc_q3(c));
                assert(p3 as int == enc_e3(c));
                assert(dec_digits(v3 as nat) == dec_digits((c.num_workers as u64) as nat));
                lemma_dec_digits(v3 as nat);
                lemma_dec_digits((c.num_workers as u64) as nat);
                assert(v3 == c.num_workers as u64);
                assert(p3 + seg_seed().len() == enc_q4(c));
                assert(p4 as int == enc_e4(c));
                assert(dec_digits(v4 as nat) == dec_digits((c.seed) as nat));
                lemma_dec_digits(v4 as nat);
                lemma_dec_digits((c.seed) as nat);
                assert(v4 == c.seed);
                assert(p4 + seg_subset_size().len() == enc_q5(c));
                assert(p5 as int == enc_e5(c));
                assert(dec_digits(v5 as nat) == dec_digits((c.subset_size as u64) as nat));
                lemma_dec_digits(v5 as nat);
                lemma_dec_digits((c.subset_size as u64) as nat);
                assert(v5 == c.subset_size as u64);
                assert(p5 + seg_learning_rate().len() == enc_q6(c));
                assert(p6 as int == enc_e6(c));
                assert(dec_digits(v6 as nat) == dec_digits((c.learning_rate_nano) as nat));
                lemma_dec_digits(v6 as nat);
                lemma_dec_digits((c.learning_rate_nano) as nat);
                assert(v6 == c.learning_rate_nano);
                    assert(p6 as int == enc_e6(c));
                    assert(s.subrange(p6 as int, p6 + seg_weight_decay().len()) == seg_weight_decay());
                    assert(!no_canonical_u64_at(s, enc_q7(c)));
                }
            }
            return Err(ConfigError::Malformed);
        },
    };

    let p8 = match expect_bytes(input, p7, seg_close_a.as_slice()) {
        Some(p) => p,
        None => {
            proof {
                assert forall|c: MnistTrainingConfig| s == config_bytes(c) implies false by {
                lemma_encoding_decomposition(s, c);
                assert(0 + seg_num_epochs().len() as int == enc_q1());
                assert(p1 as int == enc_e1(c));
                assert(dec_digits(v1 as nat) == dec_digits((c.num_epochs as u64) as nat));
                lemma_dec_digits(v1 as nat);
                lemma_dec_digits((c.num_epochs as u64) as nat);
                assert(v1 == c.num_epochs as u64);
                assert(p1 + seg_batch_size().len() == enc_q2(c));
                assert(p2 as int == enc_e2(c));
                assert(dec_digits(v2 as nat) == dec_digits((c.batch_size as u64) as nat));
                lemma_dec_digits(v2 as nat);
                lemma_dec_digits((c.batch_size as u64) as nat);
                assert(v2 == c.batch_size as u64);
                assert(p2 + seg_num_workers().len() == enc_q3(c));
                assert(p3 as int == enc_e3(c));
                assert(dec_digits(v3 as nat) == dec_digits((c.num_workers as u64) as nat));
                lemma_dec_digits(v3 as nat);
                lemma_dec_digits((c.num_workers as u64) as nat);
                assert(v3 == c.num_workers as u64);
                assert(p3 + seg_seed().len() == enc_q4(c));
                assert(p4 as int == enc_e4(c));
                assert(dec_digits(v4 as nat) == dec_digits((c.seed) as nat));
                lemma_dec_digits(v4 as nat);
                lemma_dec_digits((c.seed) as nat);
                assert(v4 == c.seed);
                assert(p4 + seg_subset_size().len() == enc_q5(c));
                assert(p5 as int == enc_e5(c));
                assert(dec_digits(v5 as nat) == dec_digits((c.subset_size as u64) as nat));
                lemma_dec_digits(v5 as nat);
                lemma_dec_digits((c.subset_size as u64) as nat);
                assert(v5 == c.subset_size as u64);
                assert(p5 + seg_learning_rate().len() == enc_q6(c));
                assert(p6 as int == enc_e6(c));
                assert(dec_digits(v6 as nat) == dec_digits((c.learning_rate_nano) as nat));
                lemma_dec_digits(v6 as nat);
                lemma_dec_digits((c.learning_rate_nano) as nat);
                assert(v6 == c.learning_rate_nano);
                assert(p6 + seg_weight_decay().len() == enc_q7(c));
                assert(p7 as int == enc_e7(c));
                assert(dec_digits(v7 as nat) == dec_digits((c.weight_decay_nano) as nat));
                lemma_dec_digits(v7 as nat);
                lemma_dec_digits((c.weight_decay_nano) as nat);
                assert(v7 == c.weight_decay_nano);
                    assert(p7 as int == enc_e7(c));
                    assert(s.subrange(p7 as int, p7 + 1) == seg_close());
                }
            }
            return Err(ConfigError::Malformed);
        },
    };
    if p8 != input.len() {
        proof {
            assert forall|c: MnistTrainingConfig| s == config_bytes(c) implies false by {
                lemma_encoding_decomposition(s, c);
                assert(0 + seg_num_epochs().len() as int == enc_q1());
                assert(p1 as int == enc_e1(c));
                assert(dec_digits(v1 as nat) == dec_digits((c.num_epochs as u64) as nat));
                lemma_dec_digits(v1 as nat);
                lemma_dec_digits((c.num_epochs as u64) as nat);
                assert(v1 == c.num_epochs as u64);
                assert(p1 + seg_batch_size().len() == enc_q2(c));
                assert(p2 as int == enc_e2(c));
                assert(dec_digits(v2 as nat) == dec_digits((c.batch_size as u64) as nat));
                lemma_dec_digits(v2 as nat);
                lemma_dec_digits((c.batch_size as u64) as nat);
                assert(v2 == c.batch_size as u64);
                assert(p2 + seg_num_workers().len() == enc_q3(c));
                assert(p3 as int == enc_e3(c));
                assert(dec_digits(v3 as nat) == dec_digits((c.num_workers as u64) as nat));
                lemma_dec_digits(v3 as nat);
                lemma_dec_digits((c.num_workers as u64) as nat);
                assert(v3 == c.num_workers as u64);
                assert(p3 + seg_seed().len() == enc_q4(c));
                assert(p4 as int == enc_e4(c));
                assert(dec_digits(v4 as nat) == dec_digits((c.seed) as nat));
                lemma_dec_digits(v4 as nat);
                lemma_dec_digits((c.seed) as nat);
                assert(v4 == c.seed);
                assert(p4 + seg_subset_size().len() == enc_q5(c));
                assert(p5 as int == enc_e5(c));
                assert(dec_digits(v5 as nat) == dec_digits((c.subset_size as u64) as nat));
                lemma_dec_digits(v5 as nat);
                lemma_dec_digits((c.subset_size as u64) as nat);
                assert(v5 == c.subset_size as u64);
                assert(p5 + seg_learning_rate().len() == enc_q6(c));
                assert(p6 as int == enc_e6(c));
                assert(dec_digits(v6 as nat) == dec_digits((c.learning_rate_nano) as nat));
                lemma_dec_digits(v6 as nat);
                lemma_dec_digits((c.learning_rate_nano) as nat);
                assert(v6 == c.learning_rate_nano);
                assert(p6 + seg_weight_decay().len() == enc_q7(c));
                assert(p7 as int == enc_e7(c));
                assert(dec_digits(v7 as nat) == dec_digits((c.weight_decay_nano) as nat));
                lemma_dec_digits(v7 as nat);
                lemma_dec_digits((c.weight_decay_nano) as nat);
                assert(v7 == c.weight_decay_nano);
                assert(p7 as int == enc_e7(c));
                assert(s.len() == p7 + 1);
            }
        }
        return Err(ConfigError::Malformed);
    }
    proof {
        lemma_seg_shapes();
        lemma_reassemble(
            s,
            p1 as int, p2 as int, p3 as int, p4 as int, p5 as int, p6 as int, p7 as int,
            v1, v2, v3, v4, v5, v6, v7,
        );
    }
    let max_size = usize::MAX as u64;
    if v1 > max_size || v2 > max_size || v3 > max_size || v5 > max_size {
        proof {
            let ghost t = (v1, v2, v3, v4, v5, v6, v7);
            assert(s == config_bytes_fields(t.0, t.1, t.2, t.3, t.4, t.5, t.6));
            assert forall|c: MnistTrainingConfig| s == config_bytes(c) implies false by {
                lemma_encoding_decomposition(s, c);
                assert(0 + seg_num_epochs().len() as int == enc_q1());
                assert(p1 as int == enc_e1(c));
                assert(dec_digits(v1 as nat) == dec_digits((c.num_epochs as u64) as nat));
                lemma_dec_digits(v1 as nat);
                lemma_dec_digits((c.num_epochs as u64) as nat);
                assert(v1 == c.num_epochs as u64);
                assert(p1 + seg_batch_size().len() == enc_q2(c));
                assert(p2 as int == enc_e2(c));
                assert(dec_digits(v2 as nat) == dec_digits((c.batch_size as u64) as nat));
                lemma_dec_digits(v2 as nat);
                lemma_dec_digits((c.batch_size as u64) as nat);
                assert(v2 == c.batch_size as u64);
                assert(p2 + seg_num_workers().len() == enc_q3(c));
                assert(p3 as int == enc_e3(c));
                assert(dec_digits(v3 as nat) == dec_digits((c.num_workers as u64) as nat));
                lemma_dec_digits(v3 as nat);
                lemma_dec_digits((c.num_workers as u64) as nat);
                assert(v3 == c.num_workers as u64);
                assert(p3 + seg_seed().len() == enc_q4(c));
                assert(p4 as int == enc_e4(c));
                assert(dec_digits(v4 as nat) == dec_digits((c.seed) as nat));
                lemma_dec_digits(v4 as nat);
                lemma_dec_digits((c.seed) as nat);
                assert(v4 == c.seed);
                assert(p4 + seg_subset_size().len() == enc_q5(c));
                assert(p5 as int == enc_e5(c));
                assert(dec_digits(v5 as nat) == dec_digits((c.subset_size as u64) as nat));
                lemma_dec_digits(v5 as nat);
                lemma_dec_digits((c.subset_size as u64) as nat);
                assert(v5 == c.subset_size as u64);
                assert(p5 + seg_learning_rate().len() == enc_q6(c));
                assert(p6 as int == enc_e6(c));
                assert(dec_digits(v6 as nat) == dec_digits((c.learning_rate_nano) as nat));
                lemma_dec_digits(v6 as nat);
                lemma_dec_digits((c.learning_rate_nano) as nat);
                assert(v6 == c.learning_rate_nano);
                assert(p6 + seg_weight_decay().len() == enc_q7(c));
                assert(p7 as int == enc_e7(c));
                assert(dec_digits(v7 as nat) == dec_digits((c.weight_decay_nano) as nat));
                lemma_dec_digits(v7 as nat);
                lemma_dec_digits((c.weight_decay_nano) as nat);
                assert(v7 == c.weight_decay_nano);
            }
        }
        return Err(ConfigError::ValueOutOfRange);
    }
    let parsed = MnistTrainingConfig {
        num_epochs: v1 as usize,
        batch_size: v2 as usize,
        num_workers: v3 as usize,
        seed: v4,
        subset_size: v5 as usize,
        learning_rate_nano: v6,
        weight_decay_nano: v7,
    };
    proof {
        assert(config_bytes(parsed) == config_bytes_fields(v1, v2, v3, v4, v5, v6, v7));
        assert forall|c: MnistTrainingConfig| s == config_bytes(c) implies Ok::<
            MnistTrainingConfig,
            ConfigError,
        >(parsed) == Ok::<MnistTrainingConfig, ConfigError>(c) by {
                lemma_encoding_decomposition(s, c);
                assert(0 + seg_num_epochs().len() as int == enc_q1());
                assert(p1 as int == enc_e1(c));
                assert(dec_digits(v1 as nat) == dec_digits((c.num_epochs as u64) as nat));
                lemma_dec_digits(v1 as nat);
                lemma_dec_digits((c.num_epochs as u64) as nat);
                assert(v1 == c.num_epochs as u64);
                assert(p1 + seg_batch_size().len() == enc_q2(c));
                assert(p2 as int == enc_e2(c));
                assert(dec_digits(v2 as nat) == dec_digits((c.batch_size as u64) as nat));
                lemma_dec_digits(v2 as nat);
                lemma_dec_digits((c.batch_size as u64) as nat);
                assert(v2 == c.batch_size as u64);
                assert(p2 + seg_num_workers().len() == enc_q3(c));
                assert(p3 as int == enc_e3(c));
                assert(dec_digits(v3 as nat) == dec_digits((c.num_workers as u64) as nat));
                lemma_dec_digits(v3 as nat);
                lemma_dec_digits((c.num_workers as u64) as nat);
                assert(v3 == c.num_workers as u64);
                assert(p3 + seg_seed().len() == enc_q4(c));
                assert(p4 as int == enc_e4(c));
                assert(dec_digits(v4 as nat) == dec_digits((c.seed) as nat));
                lemma_dec_digits(v4 as nat);
                lemma_dec_digits((c.seed) as nat);
                assert(v4 == c.seed);
                assert(p4 + seg_subset_size().len() == enc_q5(c));
                assert(p5 as int == enc_e5(c));
                assert(dec_digits(v5 as nat) == dec_digits((c.subset_size as u64) as nat));
                lemma_dec_digits(v5 as nat);
                lemma_dec_digits((c.subset_size as u64) as nat);
                assert(v5 == c.subset_size as u64);
                assert(p5 + seg_learning_rate().len() == enc_q6(c));
                assert(p6 as int == enc_e6(c));
                assert(dec_digits(v6 as nat) == dec_digits((c.learning_rate_nano) as nat));
                lemma_dec_digits(v6 as nat);
                lemma_dec_digits((c.learning_rate_nano) as nat);
                assert(v6 == c.learning_rate_nano);
                assert(p6 + seg_weight_decay().len() == enc_q7(c));
                assert(p7 as int == enc_e7(c));
                assert(dec_digits(v7 as nat) == dec_digits((c.weight_decay_nano) as nat));
                lemma_dec_digits(v7 as nat);
                lemma_dec_digits((c.weight_decay_nano) as nat);
                assert(v7 == c.weight_decay_nano);
            assert(c == parsed);
        }
    }
    Ok(parsed)
}


/// The canonical encoding is injective: equal records mean equal
/// configurations, field for field.
pub proof fn lemma_config_bytes_injective(a: MnistTrainingConfig, b: MnistTrainingConfig)
    requires
        config_bytes(a) == config_bytes(b),
    ensures
        a == b,
{
    let s = config_bytes(a);
    lemma_seg_shapes();
    lemma_encoding_decomposition(s, a);
    lemma_encoding_decomposition(s, b);
    assert(enc_q1() == enc_q1());
    assert(dec_digits((a.num_epochs as u64) as nat) == dec_digits((b.num_epochs as u64) as nat));
    lemma_dec_digits((a.num_epochs as u64) as nat);
    lemma_dec_digits((b.num_epochs as u64) as nat);
    assert(a.num_epochs as u64 == b.num_epochs as u64);
    assert(enc_q2(a) == enc_q2(b));
    assert(dec_digits((a.batch_size as u64) as nat) == dec_digits((b.batch_size as u64) as nat));
    lemma_dec_digits((a.batch_size as u64) as nat);
    lemma_dec_digits((b.batch_size as u64) as nat);
    assert(a.batch_size as u64 == b.batch_size as u64);
    assert(enc_q3(a) == enc_q3(b));
    assert(dec_digits((a.num_workers as u64) as nat) == dec_digits((b.num_workers as u64) as nat));
    lemma_dec_digits((a.num_workers as u64) as nat);
    lemma_dec_digits((b.num_workers as u64) as nat);
    assert(a.num_workers as u64 == b.num_workers as u64);
    assert(enc_q4(a) == enc_q4(b));
    assert(dec_digits((a.seed) as nat) == dec_digits((b.seed) as nat));
    lemma_dec_digits((a.seed) as nat);
    lemma_dec_digits((b.seed) as nat);
    assert(a.seed == b.seed);
    assert(enc_q5(a) == enc_q5(b));
    assert(dec_digits((a.subset_size as u64) as nat) == dec_digits((b.subset_size as u64) as nat));
    lemma_dec_digits((a.subset_size as u64) as nat);
    lemma_dec_digits((b.subset_size as u64) as nat);
    assert(a.subset_size as u64 == b.subset_size as u64);
    assert(enc_q6(a) == enc_q6(b));
    assert(dec_digits((a.learning_rate_nano) as nat) == dec_digits((b.learning_rate_nano) as nat));
    lemma_dec_digits((a.learning_rate_nano) as nat);
    lemma_dec_digits((b.learning_rate_nano) as nat);
    assert(a.learning_rate_nano == b.learning_rate_nano);
    assert(enc_q7(a) == enc_q7(b));
    assert(dec_digits((a.weight_decay_nano) as nat) == dec_digits((b.weight_decay_nano) as nat));
    lemma_dec_digits((a.weight_decay_nano) as nat);
    lemma_dec_digits((b.weight_decay_nano) as nat);
    assert(a.weight_decay_nano == b.weight_decay_nano);
}

} // verus!

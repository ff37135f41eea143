//! The arithmetic around Linux system calls: decoding their return values, the
//! capability bounding set as a bit mask, C strings for `execve`, and wait statuses.

use vstd::prelude::*;
use vstd::string::StringSliceAdditionalSpecFns;

verus! {

/// `RLIMIT_RSS`: the resident set size.
pub const RLIMIT_RSS: isize = 5;

/// `RLIMIT_AS`: the address space.
pub const RLIMIT_AS: isize = 9;

/// `RLIMIT_MEMLOCK`: locked memory.
pub const RLIMIT_MEMLOCK: isize = 8;

/// `RLIMIT_NOFILE`: open files.
pub const RLIMIT_NOFILE: isize = 7;

/// `RLIMIT_NPROC`: processes.
pub const RLIMIT_NPROC: isize = 6;

/// The number of capabilities that the bounding set is read and written for: the bits
/// of a 64-bit word.
pub const CAP_BITS: u64 = 64;

/// The result of a raw system call: a negative return value is the negated error number,
/// anything else is the result.
pub open spec fn syscall_outcome(ret: isize) -> Result<isize, i32> {
    if ret < 0 {
        Err((-ret) as i32)
    } else {
        Ok(ret)
    }
}

/// Decodes the return value of a raw system call.
pub fn syscall_result(ret: isize) -> (r: Result<isize, i32>)
    requires
        ret > isize::MIN,
    ensures
        r == syscall_outcome(ret),
{
    if ret < 0 {
        Err((-ret) as i32)
    } else {
        Ok(ret)
    }
}

/// Every negative return value is an error and every other one a result: a
/// non-negative value is the result itself, and a negative one is an error whose number
/// is positive and, where it fits in an `i32` (as every kernel error number does), is
/// the value negated.
pub proof fn law_negative_return_is_error(ret: isize)
    requires
        ret > isize::MIN,
    ensures
        ret >= 0 ==> syscall_outcome(ret) == Ok::<isize, i32>(ret),
        ret < 0 <==> syscall_outcome(ret) is Err,
        -0x8000_0000 < ret < 0 ==> (syscall_outcome(ret) matches Err(e) && e > 0 && e + ret
            == 0),
{
}

/// Whether bit `i` of `m` is set.
pub open spec fn bit(m: u64, i: u64) -> bool {
    (m >> i) & 1u64 == 1u64
}

/// Whether a read of one capability of the bounding set answered that it is there.
pub open spec fn answered_present(r: Result<isize, i32>) -> bool {
    r == Ok::<isize, i32>(1isize)
}

proof fn lemma_set_bit(b: u64, i: u64, j: u64)
    requires
        i < 64,
        j < 64,
    ensures
        bit(b | (1u64 << i), j) == (bit(b, j) || j == i),
{
    assert(((b | (1u64 << i)) >> j) & 1u64 == 1u64 <==> (((b >> j) & 1u64 == 1u64) || j == i))
        by (bit_vector)
        requires
            i < 64,
            j < 64,
    ;
}

/// The capability bounding set as a mask, from the answers to reading each capability
/// in turn: bit `i` is set exactly where the `i`-th read answered 1.
pub fn getbcap(reads: &[Result<isize, i32>]) -> (m: u64)
    requires
        reads@.len() <= CAP_BITS,
    ensures
        forall|i: u64| #![trigger bit(m, i)]
            i < CAP_BITS ==> (bit(m, i) <==> (i < reads@.len() && answered_present(reads@[i as int]))),
{
    let mut bnd: u64 = 0;
    let mut i: usize = 0;
    assert forall|j: u64| j < 64 implies !bit(0u64, j) by {
        assert((0u64 >> j) & 1u64 == 0u64) by (bit_vector);
    }
    while i < reads.len()
        invariant
            i <= reads@.len() <= 64,
            forall|j: u64| #![trigger bit(bnd, j)]
                j < 64 ==> (bit(bnd, j) <==> (j < i && answered_present(reads@[j as int]))),
        decreases reads@.len() - i,
    {
        let present = match reads[i] {
            Ok(v) => v == 1,
            Err(_) => false,
        };
        if present {
            let ghost old_bnd = bnd;
            bnd = bnd | (1u64 << (i as u64));
            assert forall|j: u64| j < 64 implies (bit(bnd, j) <==> (j < i + 1 && answered_present(
                reads@[j as int],
            ))) by {
                lemma_set_bit(old_bnd, i as u64, j);
            }
        }
        i = i + 1;
    }
    bnd
}

/// The capabilities below `n` whose bit in `caps` is clear, in increasing order.
pub open spec fn dropped_below(caps: u64, n: nat) -> Seq<u64>
    decreases n,
{
    if n == 0 {
        Seq::empty()
    } else {
        let rest = dropped_below(caps, (n - 1) as nat);
        if bit(caps, (n - 1) as u64) {
            rest
        } else {
            rest.push((n - 1) as u64)
        }
    }
}

/// The capabilities to drop from the bounding set so that only those of `caps` stay:
/// each capability whose bit is clear, in increasing order.
pub fn caps_to_drop(caps: u64) -> (r: Vec<u64>)
    ensures
        r@ == dropped_below(caps, CAP_BITS as nat),
{
    let mut r: Vec<u64> = Vec::new();
    let mut i: u64 = 0;
    while i < CAP_BITS
        invariant
            i <= CAP_BITS,
            r@ == dropped_below(caps, i as nat),
        decreases CAP_BITS - i,
    {
        let clear = (caps >> i) & 1u64 == 0u64;
        assert(clear <==> !bit(caps, i)) by (bit_vector)
            requires
                clear == ((caps >> i) & 1u64 == 0u64),
        ;
        if clear {
            r.push(i);
        }
        assert(dropped_below(caps, (i + 1) as nat) == if bit(caps, i) {
            dropped_below(caps, i as nat)
        } else {
            dropped_below(caps, i as nat).push(i)
        });
        i = i + 1;
    }
    r
}

/// The capabilities that `dropped_below` lists are exactly those below `n` whose bit is
/// clear.
pub proof fn lemma_dropped_below(caps: u64, n: nat)
    requires
        n <= 64,
    ensures
        forall|i: u64| #![trigger dropped_below(caps, n).contains(i)]
            dropped_below(caps, n).contains(i) <==> (i < n && !bit(caps, i)),
    decreases n,
{
    if n > 0 {
        lemma_dropped_below(caps, (n - 1) as nat);
        let rest = dropped_below(caps, (n - 1) as nat);
        assert forall|i: u64| #![trigger dropped_below(caps, n).contains(i)]
            dropped_below(caps, n).contains(i) <==> (i < n && !bit(caps, i)) by {
            assert(rest.contains(i) <==> (i < n - 1 && !bit(caps, i)));
            if bit(caps, (n - 1) as u64) {
                assert(dropped_below(caps, n) == rest);
                if i == (n - 1) as u64 {
                    assert(!rest.contains(i));
                }
            } else {
                assert(dropped_below(caps, n) == rest.push((n - 1) as u64));
                if i == (n - 1) as u64 {
                    assert(dropped_below(caps, n)[rest.len() as int] == i);
                } else if dropped_below(caps, n).contains(i) {
                    let k = choose|k: int|
                        0 <= k < dropped_below(caps, n).len() && dropped_below(caps, n)[k] == i;
                    assert(k < rest.len());
                    assert(rest[k] == i);
                } else if rest.contains(i) {
                    let k = choose|k: int| 0 <= k < rest.len() && rest[k] == i;
                    assert(dropped_below(caps, n)[k] == i);
                }
            }
        }
    }
}

/// Two words that agree above bit `k` and at bit `k` agree from bit `k` up.
proof fn lemma_shift_step(a: u64, b: u64, k: u64)
    requires
        k < 63,
        a >> (k + 1) == b >> (k + 1),
        bit(a, k) == bit(b, k),
    ensures
        a >> k == b >> k,
{
    assert(a >> (k + 1) == b >> (k + 1) && (((a >> k) & 1u64 == 1u64) == ((b >> k) & 1u64
        == 1u64)) ==> a >> k == b >> k) by (bit_vector)
        requires
            k < 63,
    ;
}

/// Two words with the same bits from `k` up agree from bit `k` up.
proof fn lemma_same_bits_from(a: u64, b: u64, k: u64)
    requires
        k < 64,
        forall|i: u64| #![trigger bit(a, i), bit(b, i)] k <= i < 64 ==> bit(a, i) == bit(b, i),
    ensures
        a >> k == b >> k,
    decreases 64 - k,
{
    if k == 63 {
        assert(bit(a, 63) == bit(b, 63));
        assert((((a >> 63u64) & 1u64 == 1u64) == ((b >> 63u64) & 1u64 == 1u64)) ==> a >> 63u64
            == b >> 63u64) by (bit_vector);
    } else {
        lemma_same_bits_from(a, b, (k + 1) as u64);
        assert(bit(a, k) == bit(b, k));
        lemma_shift_step(a, b, k);
    }
}

/// Two words with the same 64 bits are equal.
proof fn lemma_same_bits(a: u64, b: u64)
    requires
        forall|i: u64| #![trigger bit(a, i), bit(b, i)] i < 64 ==> bit(a, i) == bit(b, i),
    ensures
        a == b,
{
    lemma_same_bits_from(a, b, 0);
    assert(a >> 0u64 == a && b >> 0u64 == b) by (bit_vector);
}

/// Keeping the capabilities of `caps` and reading the set back gives `caps`: where the
/// reads answer 1 exactly for the capabilities that `caps_to_drop` does not drop, the
/// mask that `getbcap` rebuilds from them is `caps` itself.
pub proof fn law_drop_then_read(caps: u64, reads: Seq<Result<isize, i32>>, m: u64)
    requires
        reads.len() == CAP_BITS,
        forall|i: int| #![trigger reads[i]]
            0 <= i < 64 ==> (answered_present(reads[i]) <==> !dropped_below(
                caps,
                CAP_BITS as nat,
            ).contains(i as u64)),
        forall|i: u64| #![trigger bit(m, i)]
            i < CAP_BITS ==> (bit(m, i) <==> (i < reads.len() && answered_present(reads[i as int]))),
    ensures
        m == caps,
{
    lemma_dropped_below(caps, 64);
    assert forall|i: u64| #![trigger bit(m, i), bit(caps, i)] i < 64 implies bit(m, i) == bit(
        caps,
        i,
    ) by {
        assert(answered_present(reads[i as int]) <==> !dropped_below(caps, 64).contains(i));
    }
    lemma_same_bits(m, caps);
}

/// A NUL-terminated copy of a string, as C expects it.
pub fn str_as_cstr(s: &str) -> (r: Vec<u8>)
    ensures
        r@ == s.spec_bytes().push(0u8),
{
    let bytes = s.as_bytes();
    let mut r: Vec<u8> = Vec::new();
    let mut i: usize = 0;
    while i < bytes.len()
        invariant
            i <= bytes@.len(),
            bytes@ == s.spec_bytes(),
            r@ == bytes@.subrange(0, i as int),
        decreases bytes@.len() - i,
    {
        r.push(bytes[i]);
        i = i + 1;
        assert(r@ =~= bytes@.subrange(0, i as int));
    }
    assert(bytes@.subrange(0, bytes@.len() as int) =~= bytes@);
    r.push(0u8);
    r
}

/// The C strings of a list of strings, in order. The pointer array handed to `execve`
/// is these strings' addresses followed by a null pointer.
pub fn to_str_vec(arr: &[&str]) -> (r: Vec<Vec<u8>>)
    ensures
        r@.len() == arr@.len(),
        forall|i: int| 0 <= i < arr@.len() ==> #[trigger] r@[i]@ == arr@[i].spec_bytes().push(0u8),
{
    let mut r: Vec<Vec<u8>> = Vec::new();
    let mut i: usize = 0;
    while i < arr.len()
        invariant
            i <= arr@.len(),
            r@.len() == i,
            forall|k: int| 0 <= k < i ==> #[trigger] r@[k]@ == arr@[k].spec_bytes().push(0u8),
        decreases arr@.len() - i,
    {
        r.push(str_as_cstr(arr[i]));
        i = i + 1;
    }
    r
}

/// The exit code in a wait status: bits 8 to 15.
pub fn wexitstatus(status: i64) -> (r: i64)
    ensures
        0 <= r < 256,
        r == (status >> 8i64) & 0xffi64,
{
    let r = (status & 0xff00) >> 8;
    assert((status & 0xff00i64) >> 8i64 == (status >> 8i64) & 0xffi64) by (bit_vector);
    assert(0 <= (status >> 8i64) & 0xffi64 < 256) by (bit_vector);
    r
}

}

//! Deltas: an object stored as the instructions that make it out of
//! another, its base. A delta names the length of the base and of the
//! result, and then says, piece by piece, what to copy from the base and
//! what to insert.

use crate::bytes::append_bytes;
use crate::error::Error;
use vstd::prelude::*;

verus! {

/// The most bytes that a length in a delta or a pack may take.
pub const MAX_SIZE_BYTES: usize = 9;

/// The number that starts at `at`, written in at most `groups` bytes of
/// seven bits each, the lowest first, each byte but the last with its top
/// bit set; and where the bytes after it start.
pub open spec fn number_at(d: Seq<u8>, at: int, groups: nat) -> Option<(nat, int)>
    decreases groups,
{
    if groups == 0 || at < 0 || at >= d.len() {
        None
    } else if d[at] < 128 {
        Some((d[at] as nat, at + 1))
    } else {
        match number_at(d, at + 1, (groups - 1) as nat) {
            Some((rest, next)) => Some(((d[at] - 128) as nat + 128 * rest, next)),
            None => None,
        }
    }
}

/// The length that starts at `at`.
pub open spec fn size_at(d: Seq<u8>, at: int) -> Option<(nat, int)> {
    number_at(d, at, MAX_SIZE_BYTES as nat)
}

/// One more than the largest number of `groups` bytes.
pub open spec fn span(groups: nat) -> nat
    decreases groups,
{
    if groups == 0 {
        1
    } else {
        128 * span((groups - 1) as nat)
    }
}

proof fn lemma_span_nine()
    ensures
        span(9) == 0x8000_0000_0000_0000,
{
    reveal_with_fuel(span, 10);
}

proof fn lemma_span_grows(a: nat, b: nat)
    requires
        a <= b,
    ensures
        0 < span(a) <= span(b),
    decreases b,
{
    if a < b {
        lemma_span_grows(a, (b - 1) as nat);
    } else if b > 0 {
        lemma_span_grows((a - 1) as nat, (b - 1) as nat);
    }
}

/// Reads the number that starts at `at`.
pub fn read_number(d: &[u8], at: usize, groups: usize) -> (r: Option<(u64, usize)>)
    requires
        groups <= MAX_SIZE_BYTES,
    ensures
        match r {
            Some((value, next)) => number_at(d@, at as int, groups as nat) == Some(
                (value as nat, next as int),
            ) && at < next <= d@.len() && value < span(groups as nat),
            None => number_at(d@, at as int, groups as nat) is None,
        },
    decreases groups,
{
    if groups == 0 || at >= d.len() {
        return None;
    }
    let b: u8 = d[at];
    proof {
        lemma_span_grows(1, groups as nat);
        lemma_span_grows((groups - 1) as nat, 8);
        lemma_span_nine();
        assert(span(1) == 128) by {
            reveal_with_fuel(span, 2);
        }
    }
    if b < 128 {
        return Some((b as u64, at + 1));
    }
    match read_number(d, at + 1, groups - 1) {
        Some((rest, next)) => {
            Some(((b - 128) as u64 + 128 * rest, next))
        },
        None => None,
    }
}

/// `x` without `weight`, where it holds it.
pub open spec fn without(x: int, weight: int) -> int {
    if x >= weight {
        x - weight
    } else {
        x
    }
}

/// The part of an instruction byte below the bit of weight `weight`: what
/// is left of the byte when the bits from 128 down to `weight` are taken
/// off one after the other.
pub open spec fn below(cmd: u8, weight: int) -> int
    decreases 128 - weight,
{
    if weight > 64 || weight <= 0 {
        without(cmd as int, 128)
    } else {
        without(below(cmd, 2 * weight), weight)
    }
}

/// Whether the bit of weight `weight`, one of 1, 2, 4, 8, 16, 32 and 64,
/// is set in an instruction byte.
pub open spec fn has_bit(cmd: u8, weight: int) -> bool {
    below(cmd, 2 * weight) >= weight
}

/// A byte of a copy instruction: the byte at `at` where the instruction
/// has one, and zero where it has none; and where the next one may lie.
pub open spec fn field_at(d: Seq<u8>, at: int, present: bool) -> Option<(nat, int)> {
    if !present {
        Some((0, at))
    } else if 0 <= at < d.len() {
        Some((d[at] as nat, at + 1))
    } else {
        None
    }
}

/// The offset of a copy instruction: up to four bytes from `at` on, the
/// lowest first, as the four lowest bits of the instruction byte announce.
pub open spec fn offset_at(d: Seq<u8>, at: int, cmd: u8) -> Option<(nat, int)> {
    match field_at(d, at, has_bit(cmd, 1)) {
        Some((o0, at1)) => match field_at(d, at1, has_bit(cmd, 2)) {
            Some((o1, at2)) => match field_at(d, at2, has_bit(cmd, 4)) {
                Some((o2, at3)) => match field_at(d, at3, has_bit(cmd, 8)) {
                    Some((o3, at4)) => Some((o0 + 256 * o1 + 65536 * o2 + 16777216 * o3, at4)),
                    None => None,
                },
                None => None,
            },
            None => None,
        },
        None => None,
    }
}

/// The size of a copy instruction: up to three bytes from `at` on, the
/// lowest first, as the next three bits of the instruction byte announce.
/// A size of zero stands for 65536.
pub open spec fn length_at(d: Seq<u8>, at: int, cmd: u8) -> Option<(nat, int)> {
    match field_at(d, at, has_bit(cmd, 16)) {
        Some((s0, at1)) => match field_at(d, at1, has_bit(cmd, 32)) {
            Some((s1, at2)) => match field_at(d, at2, has_bit(cmd, 64)) {
                Some((s2, at3)) => {
                    let size = s0 + 256 * s1 + 65536 * s2;
                    Some((if size == 0 {
                        65536
                    } else {
                        size
                    }, at3))
                },
                None => None,
            },
            None => None,
        },
        None => None,
    }
}

/// What a copy instruction asks for.
pub struct CopyView {
    /// Where in the base the piece starts.
    pub offset: nat,
    /// How many bytes it has.
    pub size: nat,
    /// Where the next instruction starts.
    pub next: int,
}

/// The copy instruction at `at`: the instruction byte, the bytes of the
/// offset, the bytes of the size.
#[verifier::opaque]
pub open spec fn copy_at(d: Seq<u8>, at: int) -> Option<CopyView> {
    match offset_at(d, at + 1, d[at]) {
        Some((offset, p)) => match length_at(d, p, d[at]) {
            Some((size, next)) => Some(CopyView { offset, size, next }),
            None => None,
        },
        None => None,
    }
}

/// What the instructions from `at` on make of `out`: an instruction byte
/// below 128 inserts that many of the bytes after it, one of 128 and more
/// copies a piece of the base, and zero is no instruction. Nothing is
/// made where an instruction is cut short or asks for bytes that the base
/// does not have.
pub open spec fn applied_from(base: Seq<u8>, d: Seq<u8>, at: int, out: Seq<u8>) -> Option<Seq<u8>>
    decreases d.len() - at,
{
    if at < 0 {
        None
    } else if at >= d.len() {
        Some(out)
    } else if d[at] == 0 {
        None
    } else if d[at] < 128 {
        if at + 1 + d[at] <= d.len() {
            applied_from(base, d, at + 1 + d[at], out + d.subrange(at + 1, at + 1 + d[at]))
        } else {
            None
        }
    } else {
        match copy_at(d, at) {
            Some(copy) => if copy.offset + copy.size <= base.len() && at < copy.next <= d.len() {
                applied_from(
                    base,
                    d,
                    copy.next,
                    out + base.subrange(copy.offset as int, (copy.offset + copy.size) as int),
                )
            } else {
                None
            },
            None => None,
        }
    }
}

/// What a delta makes out of its base: the result of its instructions,
/// where the delta names the length of the base and of the result rightly.
pub open spec fn delta_result(base: Seq<u8>, d: Seq<u8>) -> Option<Seq<u8>> {
    match size_at(d, 0) {
        Some((base_size, a)) => match size_at(d, a) {
            Some((result_size, b)) => match applied_from(base, d, b, Seq::empty()) {
                Some(out) => if base_size == base.len() && result_size == out.len() {
                    Some(out)
                } else {
                    None
                },
                None => None,
            },
            None => None,
        },
        None => None,
    }
}

/// Instructions take nothing away: what they make is no shorter than what
/// they started from.
pub proof fn lemma_applied_grows(base: Seq<u8>, d: Seq<u8>, at: int, out: Seq<u8>)
    requires
        applied_from(base, d, at, out) is Some,
    ensures
        applied_from(base, d, at, out)->0.len() >= out.len(),
    decreases d.len() - at,
{
    if 0 <= at < d.len() {
        if d[at] < 128 {
            lemma_applied_grows(
                base,
                d,
                at + 1 + d[at],
                out + d.subrange(at + 1, at + 1 + d[at]),
            );
        } else {
            let copy = copy_at(d, at)->0;
            lemma_applied_grows(
                base,
                d,
                copy.next,
                out + base.subrange(copy.offset as int, (copy.offset + copy.size) as int),
            );
        }
    }
}

fn field(d: &[u8], at: usize, present: bool) -> (r: Option<(u64, usize)>)
    requires
        at <= d@.len(),
    ensures
        match r {
            Some((value, next)) => field_at(d@, at as int, present) == Some(
                (value as nat, next as int),
            ) && value < 256 && at <= next <= d@.len(),
            None => field_at(d@, at as int, present) is None,
        },
{
    if !present {
        Some((0, at))
    } else if at < d.len() {
        Some((d[at] as u64, at + 1))
    } else {
        None
    }
}

fn strip(x: u8, weight: u8) -> (r: u8)
    ensures
        r == without(x as int, weight as int),
{
    if x >= weight {
        x - weight
    } else {
        x
    }
}

fn read_offset(d: &[u8], at: usize, cmd: u8) -> (r: Option<(u64, usize)>)
    requires
        at <= d@.len(),
    ensures
        match r {
            Some((offset, next)) => offset_at(d@, at as int, cmd) == Some(
                (offset as nat, next as int),
            ) && at <= next <= d@.len() && offset < 0x1_0000_0000,
            None => offset_at(d@, at as int, cmd) is None,
        },
{
    reveal_with_fuel(below, 8);
    let r16: u8 = strip(strip(strip(strip(cmd, 128), 64), 32), 16);
    let r8: u8 = strip(r16, 8);
    let r4: u8 = strip(r8, 4);
    let r2: u8 = strip(r4, 2);
    let (o0, at1) = match field(d, at, r2 >= 1) {
        Some(f) => f,
        None => {
            return None;
        },
    };
    let (o1, at2) = match field(d, at1, r4 >= 2) {
        Some(f) => f,
        None => {
            return None;
        },
    };
    let (o2, at3) = match field(d, at2, r8 >= 4) {
        Some(f) => f,
        None => {
            return None;
        },
    };
    let (o3, at4) = match field(d, at3, r16 >= 8) {
        Some(f) => f,
        None => {
            return None;
        },
    };
    Some((o0 + 256 * o1 + 65536 * o2 + 16777216 * o3, at4))
}

fn read_length(d: &[u8], at: usize, cmd: u8) -> (r: Option<(u64, usize)>)
    requires
        at <= d@.len(),
    ensures
        match r {
            Some((size, next)) => length_at(d@, at as int, cmd) == Some((size as nat, next as int))
                && at <= next <= d@.len() && 0 < size <= 0x100_0000,
            None => length_at(d@, at as int, cmd) is None,
        },
{
    reveal_with_fuel(below, 4);
    let r128: u8 = strip(cmd, 128);
    let r64: u8 = strip(r128, 64);
    let r32: u8 = strip(r64, 32);
    let (s0, at1) = match field(d, at, r32 >= 16) {
        Some(f) => f,
        None => {
            return None;
        },
    };
    let (s1, at2) = match field(d, at1, r64 >= 32) {
        Some(f) => f,
        None => {
            return None;
        },
    };
    let (s2, at3) = match field(d, at2, r128 >= 64) {
        Some(f) => f,
        None => {
            return None;
        },
    };
    let size: u64 = s0 + 256 * s1 + 65536 * s2;
    Some((if size == 0 {
        65536
    } else {
        size
    }, at3))
}

/// A copy instruction, read.
struct Copy {
    offset: u64,
    size: u64,
    next: usize,
}

fn read_copy(d: &[u8], at: usize) -> (r: Option<Copy>)
    requires
        at < d@.len(),
    ensures
        match r {
            Some(copy) => copy_at(d@, at as int) == Some(
                CopyView { offset: copy.offset as nat, size: copy.size as nat, next: copy.next as int },
            ) && at < copy.next <= d@.len() && copy.offset < 0x1_0000_0000 && 0 < copy.size
                <= 0x100_0000,
            None => copy_at(d@, at as int) is None,
        },
{
    reveal(copy_at);
    let cmd: u8 = d[at];
    let (offset, p) = match read_offset(d, at + 1, cmd) {
        Some(found) => found,
        None => {
            return None;
        },
    };
    match read_length(d, p, cmd) {
        Some((size, next)) => Some(Copy { offset, size, next }),
        None => None,
    }
}

/// Makes the object that the delta `d` describes out of `base`. A delta
/// that is cut short, that names a wrong length, that asks for bytes the
/// base does not have, or whose result is longer than `limit`, is corrupt.
pub fn apply_delta(base: &[u8], d: &[u8], limit: usize) -> (r: Result<Vec<u8>, Error>)
    ensures
        match r {
            Ok(out) => delta_result(base@, d@) == Some(out@) && out@.len() <= limit,
            Err(e) => e == Error::CorruptObject && (delta_result(base@, d@) matches Some(out)
                ==> out.len() > limit),
        },
{
    let n: usize = d.len();
    let (base_size, a) = match read_number(d, 0, MAX_SIZE_BYTES) {
        Some(found) => found,
        None => {
            return Err(Error::CorruptObject);
        },
    };
    let (result_size, b) = match read_number(d, a, MAX_SIZE_BYTES) {
        Some(found) => found,
        None => {
            return Err(Error::CorruptObject);
        },
    };
    if base_size != base.len() as u64 {
        return Err(Error::CorruptObject);
    }
    if result_size > limit as u64 {
        return Err(Error::CorruptObject);
    }
    let mut out: Vec<u8> = Vec::new();
    let mut at: usize = b;
    let ghost whole = applied_from(base@, d@, b as int, Seq::empty());
    while at < n
        invariant
            n == d@.len(),
            at <= n,
            out@.len() <= result_size <= limit,
            base@.len() == base_size,
            base@.len() <= usize::MAX,
            whole == applied_from(base@, d@, at as int, out@),
            delta_result(base@, d@) == (if whole is Some && whole->0.len() == result_size {
                whole
            } else {
                None
            }),
        decreases n - at,
    {
        let cmd: u8 = d[at];
        if cmd == 0 {
            return Err(Error::CorruptObject);
        }
        if cmd < 128 {
            let count: usize = cmd as usize;
            if count > n - at - 1 {
                return Err(Error::CorruptObject);
            }
            if count as u64 > result_size - out.len() as u64 {
                proof {
                    let longer = out@ + d@.subrange(at + 1, at + 1 + count);
                    if whole is Some {
                        lemma_applied_grows(base@, d@, at + 1 + count, longer);
                    }
                }
                return Err(Error::CorruptObject);
            }
            append_bytes(&mut out, vstd::slice::slice_subrange(d, at + 1, at + 1 + count));
            at = at + 1 + count;
        } else {
            let copy = match read_copy(d, at) {
                Some(copy) => copy,
                None => {
                    return Err(Error::CorruptObject);
                },
            };
            if copy.offset + copy.size > base_size {
                return Err(Error::CorruptObject);
            }
            if copy.size > result_size - out.len() as u64 {
                proof {
                    let longer = out@ + base@.subrange(
                        copy.offset as int,
                        (copy.offset + copy.size) as int,
                    );
                    if whole is Some {
                        lemma_applied_grows(base@, d@, copy.next as int, longer);
                    }
                }
                return Err(Error::CorruptObject);
            }
            let from: usize = copy.offset as usize;
            let to: usize = (copy.offset + copy.size) as usize;
            append_bytes(&mut out, vstd::slice::slice_subrange(base, from, to));
            at = copy.next;
        }
    }
    if out.len() as u64 != result_size {
        return Err(Error::CorruptObject);
    }
    Ok(out)
}

} // verus!

//! Planning of flash rows for the PIC16F18877: image bytes become 14-bit
//! program words (little-endian byte pairs), grouped into aligned rows whose
//! other words hold the fill word.
use crate::hex::HexImage;
use crate::order::{lemma_increasing_keys, lemma_u32_laws};
use crate::text::{hex_padded, push_hex};
use crate::{is_device_error, Error, Result};
use std::collections::BTreeMap;
use vstd::arithmetic::div_mod::{
    lemma_div_is_ordered, lemma_fundamental_div_mod, lemma_fundamental_div_mod_converse,
    lemma_mod_bound,
};
use vstd::arithmetic::mul::{lemma_mul_inequality, lemma_mul_is_commutative};
use vstd::prelude::*;
use vstd::std_specs::iter::IteratorSpec;

verus! {

pub const F18877_PFM_WORDS: u32 = 0x8000;

pub const F18877_ROW_WORDS: usize = 32;

pub const F18877_ERASED_WORD: u16 = 0x3fff;

pub const F18877_PFM_BYTES: u32 = F18877_PFM_WORDS * 2;

/// One row of program words, starting at a word address.
#[derive(Debug, Clone, PartialEq, Eq)]
pub struct FlashRow {
    pub base_word_address: u32,
    pub words: Vec<u16>,
}

/// The rows to program, in increasing address order.
#[derive(Debug, Clone, PartialEq, Eq)]
pub struct FlashPlan {
    pub row_words: usize,
    pub fill_word: u16,
    pub rows: Vec<FlashRow>,
}

/// Whether `n` is a power of two.
pub open spec fn is_power_of_two(n: nat) -> bool
    decreases n,
{
    if n == 0 {
        false
    } else if n == 1 {
        true
    } else {
        n % 2 == 0 && is_power_of_two(n / 2)
    }
}

/// The first word address of the row of `rw` words that holds word `w`.
pub open spec fn row_base(w: int, rw: int) -> int {
    w - w % rw
}

/// Whether the image holds the byte at address `a` (which may lie outside
/// the 32-bit range, where the image holds nothing).
pub open spec fn has_byte(image: Map<u32, u8>, a: int) -> bool {
    0 <= a < 0x1_0000_0000 && image.contains_key(a as u32)
}

/// The planned value of program word `w`: the low byte from the image byte
/// at `2w`, the low six bits of the high byte from the image byte at `2w+1`
/// (bits 14 and 15 cleared); a missing byte keeps the matching part of the
/// fill word, and a word with no image byte is the fill word.
pub open spec fn plan_word(image: Map<u32, u8>, fill: u16, w: int) -> u16 {
    let low = has_byte(image, 2 * w);
    let high = has_byte(image, 2 * w + 1);
    if low && high {
        (image[(2 * w) as u32] + (image[(2 * w + 1) as u32] % 64) * 256) as u16
    } else if low {
        ((fill / 256 % 64) * 256 + image[(2 * w) as u32]) as u16
    } else if high {
        (fill % 256 + (image[(2 * w + 1) as u32] % 64) * 256) as u16
    } else {
        fill
    }
}

/// The first address of program flash that is not program memory.
pub open spec fn flash_limit() -> u32 {
    F18877_PFM_BYTES
}

/// The lowest image address at or beyond program flash, if any.
pub open spec fn first_outside_address(image: Map<u32, u8>) -> Option<u32> {
    if exists|a: u32| image.contains_key(a) && a >= flash_limit() {
        Some(
            choose|a: u32|
                image.contains_key(a) && a >= flash_limit() && forall|b: u32|
                    image.contains_key(b) && b >= flash_limit() ==> a <= b,
        )
    } else {
        None
    }
}

/// Message of the error for an image byte beyond program flash.
pub open spec fn outside_flash_message(a: u32) -> Seq<char> {
    "HEX address 0x"@ + hex_padded(a as nat, 8)
        + " is outside PIC16F18877 program flash; config/user/eeprom writes are intentionally rejected"@
}

/// Message of the error for a row size that is not a non-zero power of two.
pub open spec fn row_size_message() -> Seq<char> {
    "row word count must be a non-zero power of two"@
}

/// The row that starts at `base` is the base of some image byte's word.
pub open spec fn row_is_needed(image: Map<u32, u8>, rw: nat, base: u32) -> bool {
    exists|a: u32| #[trigger] image.contains_key(a) && row_base((a / 2) as int, rw as int) == base
}

/// Some row of `rows` starts at `base`.
pub open spec fn has_row(rows: Seq<FlashRow>, base: int) -> bool {
    exists|j: int| 0 <= j < rows.len() && #[trigger] rows[j].base_word_address == base
}

/// `rows` is the plan for `image` with rows of `rw` words and fill word
/// `fill`: one row, in increasing address order, for each aligned block of
/// `rw` words that holds an image byte, each word as `plan_word` says.
pub open spec fn plan_rows(rows: Seq<FlashRow>, image: Map<u32, u8>, rw: nat, fill: u16) -> bool {
    &&& forall|j: int|
        0 <= j < rows.len() ==> {
            &&& #[trigger] rows[j].words@.len() == rw
            &&& rows[j].base_word_address as int % rw as int == 0
            &&& row_is_needed(image, rw, rows[j].base_word_address)
            &&& forall|i: int|
                0 <= i < rw ==> #[trigger] rows[j].words@[i] == plan_word(
                    image,
                    fill,
                    rows[j].base_word_address + i,
                )
        }
    &&& forall|j: int, k: int|
        0 <= j < k < rows.len() ==> rows[j].base_word_address < rows[k].base_word_address
    &&& forall|a: u32| #[trigger] image.contains_key(a) ==> has_row(rows, row_base((a / 2) as int, rw as int))
}

/// What planning `image` gives: the error message, or that the plan must
/// satisfy `plan_rows`.
pub open spec fn plan_error(image: Map<u32, u8>, rw: nat) -> Option<Seq<char>> {
    if rw == 0 || !is_power_of_two(rw) {
        Some(row_size_message())
    } else {
        match first_outside_address(image) {
            Some(a) => Some(outside_flash_message(a)),
            None => None,
        }
    }
}

/// The inputs on which planning would divide by zero: a row size that is a
/// power of two of at least 2^32 words, with an image byte inside flash.
pub open spec fn plan_divides_by_zero(image: Map<u32, u8>, rw: nat) -> bool {
    &&& is_power_of_two(rw)
    &&& rw >= 0x1_0000_0000
    &&& exists|a: u32| image.contains_key(a) && a < flash_limit()
}

proof fn lemma_row_base(w: int, rw: int)
    requires
        rw > 0,
        w >= 0,
    ensures
        row_base(w, rw) % rw == 0,
        0 <= row_base(w, rw) <= w < row_base(w, rw) + rw,
        row_base(w, rw) == rw * (w / rw),
{
    lemma_fundamental_div_mod(w, rw);
    lemma_mod_bound(w, rw);
    let q = w / rw;
    assert(row_base(w, rw) == rw * q);
    lemma_mul_is_commutative(rw, q);
    lemma_fundamental_div_mod_converse(q * rw, rw, q, 0);
    assert(q >= 0) by {
        lemma_div_is_ordered(0, w, rw);
    }
    lemma_mul_inequality(0, q, rw);
}

proof fn lemma_row_base_unique(w: int, b: int, rw: int)
    requires
        rw > 0,
        b >= 0,
        b % rw == 0,
        b <= w < b + rw,
    ensures
        row_base(w, rw) == b,
{
    lemma_fundamental_div_mod(b, rw);
    let q = b / rw;
    lemma_mul_is_commutative(rw, q);
    lemma_fundamental_div_mod_converse(w, rw, q, w - b);
}

proof fn lemma_row_base_monotone(w1: int, w2: int, rw: int)
    requires
        rw > 0,
        0 <= w1 <= w2,
    ensures
        row_base(w1, rw) <= row_base(w2, rw),
        row_base(w1, rw) < row_base(w2, rw) ==> w1 < row_base(w2, rw),
{
    lemma_row_base(w1, rw);
    lemma_row_base(w2, rw);
    let q1 = w1 / rw;
    let q2 = w2 / rw;
    lemma_div_is_ordered(w1, w2, rw);
    lemma_mul_inequality(q1, q2, rw);
    lemma_mul_is_commutative(q1, rw);
    lemma_mul_is_commutative(q2, rw);
    if q1 < q2 {
        lemma_mul_inequality(q1 + 1, q2, rw);
        lemma_mul_is_commutative(q1 + 1, rw);
        assert((q1 + 1) * rw == q1 * rw + rw) by (nonlinear_arith);
    }
}

proof fn lemma_power_of_two_fits(n: nat)
    requires
        is_power_of_two(n),
    ensures
        n > 0,
    decreases n,
{
    if n > 1 {
        lemma_power_of_two_fits(n / 2);
    }
}

} // verus!

verus! {

/// Merges image byte `value` at address `addr` into program word `word`.
fn merge_byte(word: u16, addr: u32, value: u8) -> (r: u16)
    ensures
        addr % 2 == 0 ==> r == (word / 256 % 64) * 256 + value,
        addr % 2 == 1 ==> r == word % 256 + (value % 64) * 256,
{
    if addr % 2 == 0 {
        let r = (word & 0x3f00u16) | (value as u16);
        assert((word & 0x3f00u16) | (value as u16) == (word / 256 % 64) * 256 + value) by (bit_vector);
        r
    } else {
        let r = (word & 0x00ffu16) | (((value as u16) & 0x3fu16) << 8u16);
        assert((word & 0x00ffu16) | (((value as u16) & 0x3fu16) << 8u16) == word % 256 + (value
            % 64) * 256) by (bit_vector);
        r
    }
}

proof fn lemma_plan_word_insert_other(image: Map<u32, u8>, a: u32, v: u8, fill: u16, w: int)
    requires
        a / 2 != w,
    ensures
        plan_word(image.insert(a, v), fill, w) == plan_word(image, fill, w),
{
    let m2 = image.insert(a, v);
    assert(has_byte(m2, 2 * w) == has_byte(image, 2 * w));
    assert(has_byte(m2, 2 * w + 1) == has_byte(image, 2 * w + 1));
}

/// The word of `a` merged with `v`, from what it was before `a` was read.
proof fn lemma_plan_word_insert_own(image: Map<u32, u8>, a: u32, v: u8, fill: u16)
    requires
        !image.contains_key(a),
        a % 2 == 0 ==> !image.contains_key((a + 1) as u32),
    ensures
        a % 2 == 0 ==> plan_word(image.insert(a, v), fill, (a / 2) as int) == (plan_word(
            image,
            fill,
            (a / 2) as int,
        ) / 256 % 64) * 256 + v,
        a % 2 == 1 ==> plan_word(image.insert(a, v), fill, (a / 2) as int) == plan_word(
            image,
            fill,
            (a / 2) as int,
        ) % 256 + (v % 64) * 256,
{
    let w = (a / 2) as int;
    let m2 = image.insert(a, v);
    if a % 2 == 0 {
        assert(2 * w == a);
        if a + 1 < 0x1_0000_0000 {
            assert(!has_byte(image, 2 * w + 1));
            assert(!has_byte(m2, 2 * w + 1));
        }
        assert(plan_word(image, fill, w) == fill);
        assert(plan_word(m2, fill, w) == ((fill / 256 % 64) * 256 + v) as u16);
    } else {
        assert(2 * w + 1 == a);
        assert(has_byte(m2, 2 * w) == has_byte(image, 2 * w));
        if has_byte(image, 2 * w) {
            let lo = image[(2 * w) as u32];
            assert(plan_word(image, fill, w) == ((fill / 256 % 64) * 256 + lo) as u16);
            assert(((fill / 256 % 64) * 256 + lo) % 256 == lo as int) by (nonlinear_arith)
                requires
                    lo < 256,
            ;
        }
    }
}

} // verus!

verus! {

/// Every key of `done` is below `a`.
spec fn keys_below(done: Map<u32, u8>, a: u32) -> bool {
    forall|c: u32| #[trigger] done.contains_key(c) ==> c < a
}

/// A word of a planned row lies below any later row's base.
proof fn lemma_word_below_later_row(w: int, base: int, later: int, rw: int)
    requires
        rw > 0,
        base >= 0,
        base % rw == 0,
        later % rw == 0,
        base < later,
        base <= w < base + rw,
    ensures
        w < later,
{
    lemma_row_base_unique(w, base, rw);
    if w >= later {
        lemma_row_base_monotone(later, w, rw);
        lemma_row_base_unique(later, later, rw);
    }
}

/// Merging byte `v` at address `a` into the last row, which holds `a`'s word,
/// keeps the rows a plan of the bytes read so far.
proof fn lemma_step_same_row(
    all: Seq<FlashRow>,
    new_all: Seq<FlashRow>,
    done: Map<u32, u8>,
    a: u32,
    v: u8,
    rw: nat,
    fill: u16,
)
    requires
        rw > 0,
        plan_rows(all, done, rw, fill),
        all.len() > 0,
        keys_below(done, a),
        row_base((a / 2) as int, rw as int) == all.last().base_word_address,
        new_all.len() == all.len(),
        forall|j: int| 0 <= j < all.len() - 1 ==> new_all[j] == all[j],
        new_all.last().base_word_address == all.last().base_word_address,
        ({
            let idx = (a / 2) - all.last().base_word_address;
            let old = all.last().words@[idx];
            new_all.last().words@ == all.last().words@.update(
                idx,
                if a % 2 == 0 {
                    ((old / 256 % 64) * 256 + v) as u16
                } else {
                    (old % 256 + (v % 64) * 256) as u16
                },
            )
        }),
    ensures
        plan_rows(new_all, done.insert(a, v), rw, fill),
{
    let done2 = done.insert(a, v);
    let last = all.len() - 1;
    let base = all.last().base_word_address as int;
    let w_a = (a / 2) as int;
    lemma_row_base(w_a, rw as int);
    assert(all[last] == all.last());
    assert forall|j: int| 0 <= j < new_all.len() implies {
        &&& #[trigger] new_all[j].words@.len() == rw
        &&& new_all[j].base_word_address as int % rw as int == 0
        &&& row_is_needed(done2, rw, new_all[j].base_word_address)
        &&& forall|i: int|
            0 <= i < rw ==> #[trigger] new_all[j].words@[i] == plan_word(
                done2,
                fill,
                new_all[j].base_word_address + i,
            )
    } by {
        assert(all[j].words@.len() == rw);
        assert(row_is_needed(done, rw, all[j].base_word_address));
        let c = choose|c: u32|
            #[trigger] done.contains_key(c) && row_base((c / 2) as int, rw as int)
                == all[j].base_word_address;
        assert(done2.contains_key(c));
        assert forall|i: int| 0 <= i < rw implies #[trigger] new_all[j].words@[i] == plan_word(
            done2,
            fill,
            new_all[j].base_word_address + i,
        ) by {
            let w = all[j].base_word_address + i;
            assert(all[j].words@[i] == plan_word(done, fill, w));
            if j < last {
                assert(all[j].base_word_address < all[last].base_word_address);
                lemma_word_below_later_row(
                    w,
                    all[j].base_word_address as int,
                    base,
                    rw as int,
                );
                lemma_plan_word_insert_other(done, a, v, fill, w);
            } else if w != w_a {
                lemma_plan_word_insert_other(done, a, v, fill, w);
            } else {
                assert(!done.contains_key(a));
                if a % 2 == 0 {
                    assert(!done.contains_key((a + 1) as u32));
                }
                lemma_plan_word_insert_own(done, a, v, fill);
            }
        }
    }
    assert forall|c: u32| #[trigger] done2.contains_key(c) implies has_row(
        new_all,
        row_base((c / 2) as int, rw as int),
    ) by {
        if c == a {
            assert(new_all[last].base_word_address == row_base((c / 2) as int, rw as int));
        } else {
            assert(done.contains_key(c));
            assert(has_row(all, row_base((c / 2) as int, rw as int)));
            let j = choose|j: int|
                0 <= j < all.len() && #[trigger] all[j].base_word_address == row_base(
                    (c / 2) as int,
                    rw as int,
                );
            assert(new_all[j].base_word_address == all[j].base_word_address);
        }
    }
    assert forall|j: int, k: int|
        0 <= j < k < new_all.len() implies new_all[j].base_word_address
        < new_all[k].base_word_address by {
        assert(all[j].base_word_address < all[k].base_word_address);
    }
}

/// Starting a new row for byte `v` at address `a`, beyond every row so far,
/// keeps the rows a plan of the bytes read so far.
proof fn lemma_step_new_row(
    all: Seq<FlashRow>,
    new_all: Seq<FlashRow>,
    done: Map<u32, u8>,
    a: u32,
    v: u8,
    rw: nat,
    fill: u16,
)
    requires
        rw > 0,
        plan_rows(all, done, rw, fill),
        keys_below(done, a),
        all.len() == 0 ==> done == Map::<u32, u8>::empty(),
        all.len() > 0 ==> all.last().base_word_address < row_base((a / 2) as int, rw as int),
        all.len() > 0 ==> forall|c: u32|
            #[trigger] done.contains_key(c) ==> row_base((c / 2) as int, rw as int)
                <= all.last().base_word_address,
        new_all.len() == all.len() + 1,
        forall|j: int| 0 <= j < all.len() ==> new_all[j] == all[j],
        new_all.last().base_word_address == row_base((a / 2) as int, rw as int),
        ({
            let idx = (a / 2) - row_base((a / 2) as int, rw as int);
            new_all.last().words@ == Seq::new(rw, |i: int| fill).update(
                idx,
                if a % 2 == 0 {
                    ((fill / 256 % 64) * 256 + v) as u16
                } else {
                    (fill % 256 + (v % 64) * 256) as u16
                },
            )
        }),
    ensures
        plan_rows(new_all, done.insert(a, v), rw, fill),
{
    let done2 = done.insert(a, v);
    let last = all.len() as int;
    let w_a = (a / 2) as int;
    let base = row_base(w_a, rw as int);
    lemma_row_base(w_a, rw as int);
    assert(new_all[last] == new_all.last());
    // Every word of a byte read so far lies below the new row.
    assert forall|c: u32| #[trigger] done.contains_key(c) implies (c / 2) < base by {
        assert(all.len() > 0);
        lemma_row_base_monotone((c / 2) as int, w_a, rw as int);
    }
    assert forall|j: int| 0 <= j < new_all.len() implies {
        &&& #[trigger] new_all[j].words@.len() == rw
        &&& new_all[j].base_word_address as int % rw as int == 0
        &&& row_is_needed(done2, rw, new_all[j].base_word_address)
        &&& forall|i: int|
            0 <= i < rw ==> #[trigger] new_all[j].words@[i] == plan_word(
                done2,
                fill,
                new_all[j].base_word_address + i,
            )
    } by {
        if j < last {
            assert(all[j].words@.len() == rw);
            assert(row_is_needed(done, rw, all[j].base_word_address));
            let c = choose|c: u32|
                #[trigger] done.contains_key(c) && row_base((c / 2) as int, rw as int)
                    == all[j].base_word_address;
            assert(done2.contains_key(c));
            assert forall|i: int| 0 <= i < rw implies #[trigger] new_all[j].words@[i]
                == plan_word(done2, fill, new_all[j].base_word_address + i) by {
                let w = all[j].base_word_address + i;
                assert(all[j].words@[i] == plan_word(done, fill, w));
                assert(all.last() == all[last - 1]);
                if j < last - 1 {
                    assert(all[j].base_word_address < all[last - 1].base_word_address);
                }
                lemma_word_below_later_row(w, all[j].base_word_address as int, base, rw as int);
                lemma_plan_word_insert_other(done, a, v, fill, w);
            }
        } else {
            assert(done2.contains_key(a));
            assert forall|i: int| 0 <= i < rw implies #[trigger] new_all[j].words@[i]
                == plan_word(done2, fill, new_all[j].base_word_address + i) by {
                let w = base + i;
                assert(!has_byte(done, 2 * w)) by {
                    if has_byte(done, 2 * w) {
                        assert(done.contains_key((2 * w) as u32));
                    }
                }
                assert(!has_byte(done, 2 * w + 1)) by {
                    if has_byte(done, 2 * w + 1) {
                        assert(done.contains_key((2 * w + 1) as u32));
                    }
                }
                assert(plan_word(done, fill, w) == fill);
                if w != w_a {
                    lemma_plan_word_insert_other(done, a, v, fill, w);
                } else {
                    assert(!done.contains_key(a));
                    if a % 2 == 0 {
                        assert(!done.contains_key((a + 1) as u32));
                    }
                    lemma_plan_word_insert_own(done, a, v, fill);
                }
            }
        }
    }
    assert forall|c: u32| #[trigger] done2.contains_key(c) implies has_row(
        new_all,
        row_base((c / 2) as int, rw as int),
    ) by {
        if c == a {
            assert(new_all[last].base_word_address == row_base((c / 2) as int, rw as int));
        } else {
            assert(done.contains_key(c));
            assert(has_row(all, row_base((c / 2) as int, rw as int)));
            let j = choose|j: int|
                0 <= j < all.len() && #[trigger] all[j].base_word_address == row_base(
                    (c / 2) as int,
                    rw as int,
                );
            assert(new_all[j].base_word_address == all[j].base_word_address);
        }
    }
    assert forall|j: int, k: int|
        0 <= j < k < new_all.len() implies new_all[j].base_word_address
        < new_all[k].base_word_address by {
        if k < last {
            assert(all[j].base_word_address < all[k].base_word_address);
        } else {
            assert(all.last() == all[last - 1]);
            if j < last - 1 {
                assert(all[j].base_word_address < all[last - 1].base_word_address);
            }
        }
    }
}

} // verus!

verus! {

fn power_of_two(n: usize) -> (b: bool)
    ensures
        b == is_power_of_two(n as nat),
{
    let mut k = n;
    while k > 1 && k % 2 == 0
        invariant
            k <= n,
            is_power_of_two(n as nat) == is_power_of_two(k as nat),
        decreases k,
    {
        k = k / 2;
    }
    k == 1
}

fn outside_flash_error(a: u32) -> (e: Error)
    ensures
        is_device_error(e, outside_flash_message(a)),
{
    let mut m = String::new();
    m.append("HEX address 0x");
    push_hex(&mut m, a as u64, 8);
    m.append(
        " is outside PIC16F18877 program flash; config/user/eeprom writes are intentionally rejected",
    );
    Error::Device(m)
}

fn fill_words(fill: u16, n: usize) -> (v: Vec<u16>)
    ensures
        v@ == Seq::new(n as nat, |i: int| fill),
{
    let mut v: Vec<u16> = Vec::new();
    let mut i: usize = 0;
    while i < n
        invariant
            i <= n,
            v@ == Seq::new(i as nat, |j: int| fill),
        decreases n - i,
    {
        v.push(fill);
        i = i + 1;
        assert(v@ =~= Seq::new(i as nat, |j: int| fill));
    }
    v
}

/// The rows read so far: the completed ones, then the current one.
spec fn rows_so_far(rows: Seq<FlashRow>, has_cur: bool, cur: FlashRow) -> Seq<FlashRow> {
    if has_cur {
        rows.push(cur)
    } else {
        rows
    }
}

impl FlashPlan {
    /// Plans the rows of `row_words` words (a non-zero power of two) for an
    /// image: every image byte must lie below program flash's end (0x10000,
    /// 0x8000 words); a byte at address `a` goes into word `a / 2`, low byte
    /// for even `a`, low six bits of the high byte for odd `a`; rows are
    /// aligned to `row_words` words, in increasing address order, one for
    /// each block that holds an image byte, and their other words hold
    /// `fill_word`. The first refusal is reported: a bad row size, else the
    /// lowest address beyond program flash.
    pub fn from_image(image: &HexImage, row_words: usize, fill_word: u16) -> (r: Result<Self>)
        requires
            !plan_divides_by_zero(image@, row_words as nat),
        ensures
            match plan_error(image@, row_words as nat) {
                Some(msg) => r matches Err(e) && is_device_error(e, msg),
                None => r matches Ok(plan) && plan.row_words == row_words && plan.fill_word
                    == fill_word && plan_rows(plan.rows@, image@, row_words as nat, fill_word),
            },
    {
        if row_words == 0 || !power_of_two(row_words) {
            return Err(Error::Device(
                String::from_str("row word count must be a non-zero power of two"),
            ));
        }
        broadcast use vstd::std_specs::btree::group_btree_axioms;

        proof {
            lemma_u32_laws();
        }
        let ghost rw = row_words as nat;
        let bytes = image.bytes();
        let it0 = bytes.iter();
        let ghost r0 = it0.remaining();
        let ghost ks = r0.map_values(|kv: (&u32, &u8)| *kv.0);
        proof {
            lemma_increasing_keys(ks);
            assert forall|i: int, j: int| 0 <= i < j < r0.len() implies *r0[i].0 < *r0[j].0 by {
                assert(ks[i] == *r0[i].0);
                assert(ks[j] == *r0[j].0);
            }
            assert(forall|b: u32| image@.contains_key(b) ==> r0.contains((&b, &image@[b])));
        }
        let mut rows: Vec<FlashRow> = Vec::new();
        let mut has_cur = false;
        let mut cur_base: u32 = 0;
        let mut cur_words: Vec<u16> = Vec::new();
        let ghost mut done: Map<u32, u8> = Map::empty();
        for entry in it: it0
            invariant
                rw == row_words,
                rw > 0,
                is_power_of_two(rw),
                !plan_divides_by_zero(image@, rw),
                bytes@ == image@,
                r0 == it.seq(),
                r0.len() == image@.dom().len(),
                forall|i: int| 0 <= i < r0.len() ==> image@.contains_key(*r0[i].0) && image@[*r0[i].0] == *r0[i].1,
                forall|i: int, j: int| 0 <= i < j < r0.len() ==> *r0[i].0 < *r0[j].0,
                forall|b: u32| image@.contains_key(b) ==> r0.contains((&b, &image@[b])),
                forall|i: int| 0 <= i < it.index() ==> *r0[i].0 < flash_limit(),
                forall|i: int| 0 <= i < it.index() ==> done.contains_key(*r0[i].0) && done[*r0[i].0] == *r0[i].1,
                forall|c: u32| #[trigger] done.contains_key(c) ==> exists|i: int| 0 <= i < it.index() && *r0[i].0 == c,
                has_cur == (it.index() > 0),
                !has_cur ==> done == Map::<u32, u8>::empty() && rows@.len() == 0,
                has_cur ==> forall|c: u32| #[trigger] done.contains_key(c) ==> row_base((c / 2) as int, rw as int) <= cur_base,
                plan_rows(
                    rows_so_far(rows@, has_cur, FlashRow { base_word_address: cur_base, words: cur_words }),
                    done,
                    rw,
                    fill_word,
                ),
                has_cur ==> forall|j: int| 0 <= j < rows@.len() ==> rows@[j].base_word_address < cur_base,
                has_cur ==> cur_base == row_base((*r0[it.index() - 1].0 / 2) as int, rw as int),
        {
            let (addr_ref, value_ref) = entry;
            let addr = *addr_ref;
            let value = *value_ref;
            let ghost k = it.index();
            if addr >= F18877_PFM_BYTES {
                proof {
                    assert(addr == *r0[k].0);
                    assert forall|b: u32| image@.contains_key(b) && b >= flash_limit() implies addr <= b by {
                        assert(r0.contains((&b, &image@[b])));
                        let i = choose|i: int| 0 <= i < r0.len() && r0[i] == (&b, &image@[b]);
                        if i < k {
                            assert(*r0[i].0 < flash_limit());
                        } else if i > k {
                            assert(*r0[k].0 < *r0[i].0);
                        }
                    }
                    assert(image@.contains_key(addr));
                    let chosen = first_outside_address(image@)->Some_0;
                    assert(first_outside_address(image@) is Some);
                    assert(chosen <= addr && addr <= chosen);
                }
                return Err(outside_flash_error(addr));
            }
            proof {
                assert(addr == *r0[k].0);
                assert(image@.contains_key(addr) && addr < flash_limit());
                assert(row_words < 0x1_0000_0000);
                lemma_row_base((addr / 2) as int, rw as int);
                assert forall|c: u32| #[trigger] done.contains_key(c) implies c < addr by {
                    let i = choose|i: int| 0 <= i < k && *r0[i].0 == c;
                }
            }
            let word = addr / 2;
            let rw32 = row_words as u32;
            let base = word - word % rw32;
            let index = (word - base) as usize;
            assert(base as int == row_base((addr / 2) as int, rw as int));
            let ghost all = rows_so_far(rows@, has_cur, FlashRow { base_word_address: cur_base, words: cur_words });
            if has_cur && base == cur_base {
                assert(all.last().words@.len() == rw);
                let old = cur_words[index];
                let merged = merge_byte(old, addr, value);
                cur_words.set(index, merged);
                proof {
                    let new_all = rows_so_far(rows@, has_cur, FlashRow { base_word_address: cur_base, words: cur_words });
                    lemma_step_same_row(all, new_all, done, addr, value, rw, fill_word);
                }
            } else {
                proof {
                    if has_cur {
                        let prev = *r0[k - 1].0;
                        assert(done.contains_key(prev));
                        assert(prev < addr);
                        lemma_row_base_monotone((prev / 2) as int, (addr / 2) as int, rw as int);
                        assert(cur_base <= base);
                        assert(all.last().base_word_address == cur_base);
                    }
                }
                if has_cur {
                    rows.push(FlashRow { base_word_address: cur_base, words: cur_words });
                }
                let mut fresh = fill_words(fill_word, row_words);
                let merged = merge_byte(fill_word, addr, value);
                fresh.set(index, merged);
                cur_words = fresh;
                cur_base = base;
                has_cur = true;
                proof {
                    let new_all = rows_so_far(rows@, true, FlashRow { base_word_address: cur_base, words: cur_words });
                    lemma_step_new_row(all, new_all, done, addr, value, rw, fill_word);
                }
            }
            proof {
                done = done.insert(addr, value);
            }
        }
        let ghost all = rows_so_far(rows@, has_cur, FlashRow { base_word_address: cur_base, words: cur_words });
        if has_cur {
            rows.push(FlashRow { base_word_address: cur_base, words: cur_words });
        }
        proof {
            assert(rows@ == all);
            assert forall|a: u32| image@.contains_key(a) implies #[trigger] done.contains_key(a) by {
                assert(r0.contains((&a, &image@[a])));
            }
            assert(done =~= image@);
            assert(first_outside_address(image@) is None);
        }
        Ok(FlashPlan { row_words, fill_word, rows })
    }

    /// The plan for the PIC16F18877: rows of 32 words, erased word `0x3fff`.
    pub fn f18877_from_image(image: &HexImage) -> (r: Result<Self>)
        ensures
            match plan_error(image@, F18877_ROW_WORDS as nat) {
                Some(msg) => r matches Err(e) && is_device_error(e, msg),
                None => r matches Ok(plan) && plan.row_words == F18877_ROW_WORDS && plan.fill_word
                    == F18877_ERASED_WORD && plan_rows(
                    plan.rows@,
                    image@,
                    F18877_ROW_WORDS as nat,
                    F18877_ERASED_WORD,
                ),
            },
    {
        Self::from_image(image, F18877_ROW_WORDS, F18877_ERASED_WORD)
    }
}

} // verus!

verus! {

/// The 14-bit value of program word `w`.
pub open spec fn word14(w: u16) -> u16 {
    (w % 0x4000) as u16
}

/// The little-endian bytes of the 14-bit values of `words`.
pub open spec fn packed(words: Seq<u16>) -> Seq<u8> {
    Seq::new(
        2 * words.len(),
        |k: int|
            if k % 2 == 0 {
                (word14(words[k / 2]) % 256) as u8
            } else {
                (word14(words[k / 2]) / 256) as u8
            },
    )
}

/// The 14-bit words of one row, by word address.
pub open spec fn row_word_map(row: FlashRow) -> Map<u32, u16> {
    Map::new(
        |a: u32| row.base_word_address <= a < row.base_word_address + row.words@.len(),
        |a: u32| word14(row.words@[a - row.base_word_address]),
    )
}

/// The 14-bit words of all rows, by word address; a later row's word
/// replaces an earlier one at the same address.
pub open spec fn verify_map(rows: Seq<FlashRow>) -> Map<u32, u16>
    decreases rows.len(),
{
    if rows.len() == 0 {
        Map::empty()
    } else {
        verify_map(rows.drop_last()).union_prefer_right(row_word_map(rows.last()))
    }
}

/// Every row's words have 32-bit addresses.
pub open spec fn rows_addressable(rows: Seq<FlashRow>) -> bool {
    forall|j: int|
        0 <= j < rows.len() ==> rows[j].base_word_address + rows[j].words@.len()
            <= 0x1_0000_0000
}

fn mask14(w: u16) -> (r: u16)
    ensures
        r == word14(w),
{
    let r = w & F18877_ERASED_WORD;
    assert(w & 0x3fffu16 == w % 0x4000) by (bit_vector);
    r
}

impl FlashPlan {
    /// The 14-bit value of every planned word, by word address.
    pub fn verify_words(&self) -> (r: BTreeMap<u32, u16>)
        requires
            rows_addressable(self.rows@),
        ensures
            r@ == verify_map(self.rows@),
    {
        broadcast use vstd::std_specs::btree::group_btree_axioms;

        proof {
            lemma_u32_laws();
        }
        let mut words: BTreeMap<u32, u16> = BTreeMap::new();
        let mut j: usize = 0;
        while j < self.rows.len()
            invariant
                j <= self.rows@.len(),
                rows_addressable(self.rows@),
                words@ == verify_map(self.rows@.take(j as int)),
            decreases self.rows@.len() - j,
        {
            let row = &self.rows[j];
            let ghost before = words@;
            let mut i: usize = 0;
            while i < row.words.len()
                invariant
                    i <= row.words@.len(),
                    row.base_word_address + row.words@.len() <= 0x1_0000_0000,
                    words@ == before.union_prefer_right(
                        row_word_map(FlashRow { base_word_address: row.base_word_address, words: row.words }).restrict(
                            Set::new(|a: u32| a < row.base_word_address + i),
                        ),
                    ),
                decreases row.words@.len() - i,
            {
                words.insert(row.base_word_address + i as u32, mask14(row.words[i]));
                i = i + 1;
                assert(words@ =~= before.union_prefer_right(
                    row_word_map(FlashRow { base_word_address: row.base_word_address, words: row.words }).restrict(
                        Set::new(|a: u32| a < row.base_word_address + i),
                    ),
                ));
            }
            proof {
                let rm = row_word_map(FlashRow { base_word_address: row.base_word_address, words: row.words });
                assert(rm.restrict(Set::new(|a: u32| a < row.base_word_address + i)) =~= rm);
                assert(self.rows@.take(j + 1).drop_last() =~= self.rows@.take(j as int));
                assert(self.rows@.take(j + 1).last() == self.rows@[j as int]);
                assert(rm == row_word_map(self.rows@[j as int]));
            }
            j = j + 1;
        }
        assert(self.rows@.take(self.rows@.len() as int) =~= self.rows@);
        words
    }
}

impl FlashRow {
    /// The 14-bit value of each word as two bytes, low byte first.
    pub fn packed_bytes(&self) -> (r: Vec<u8>)
        ensures
            r@ == packed(self.words@),
    {
        let mut bytes: Vec<u8> = Vec::new();
        let mut i: usize = 0;
        while i < self.words.len()
            invariant
                i <= self.words@.len(),
                bytes@ == packed(self.words@.take(i as int)),
            decreases self.words@.len() - i,
        {
            let masked = mask14(self.words[i]);
            let low = (masked & 0x00ff) as u8;
            let high = (masked >> 8) as u8;
            assert(masked & 0x00ffu16 == masked % 256) by (bit_vector);
            assert(masked >> 8u16 == masked / 256) by (bit_vector);
            bytes.push(low);
            bytes.push(high);
            i = i + 1;
            assert(bytes@ =~= packed(self.words@.take(i as int)));
        }
        assert(self.words@.take(self.words@.len() as int) =~= self.words@);
        bytes
    }
}

} // verus!

verus! {

/// Every image byte lands in the row of its word: the byte at an even
/// address is that word's low byte, and the low six bits of the byte at an
/// odd address are the word's bits 8 to 13.
pub proof fn lemma_plan_places_image_bytes(
    rows: Seq<FlashRow>,
    image: Map<u32, u8>,
    rw: nat,
    fill: u16,
    a: u32,
)
    requires
        rw > 0,
        plan_rows(rows, image, rw, fill),
        image.contains_key(a),
    ensures
        exists|j: int|
            0 <= j < rows.len() && #[trigger] rows[j].base_word_address == row_base(
                (a / 2) as int,
                rw as int,
            ) && ({
                let word = rows[j].words@[a / 2 - rows[j].base_word_address];
                &&& a % 2 == 0 ==> word % 256 == image[a]
                &&& a % 2 == 1 ==> word / 256 % 64 == image[a] % 64
            }),
{
    let w = (a / 2) as int;
    lemma_row_base(w, rw as int);
    assert(has_row(rows, row_base(w, rw as int)));
    let j = choose|j: int|
        0 <= j < rows.len() && #[trigger] rows[j].base_word_address == row_base(w, rw as int);
    let i = w - rows[j].base_word_address;
    assert(rows[j].words@.len() == rw);
    assert(rows[j].words@[i] == plan_word(image, fill, rows[j].base_word_address + i));
    if a % 2 == 0 {
        assert(2 * w == a);
        assert(has_byte(image, 2 * w));
        let lo = image[a] as int;
        if has_byte(image, 2 * w + 1) {
            let hi = image[(2 * w + 1) as u32] as int;
            assert((lo + (hi % 64) * 256) % 256 == lo) by (nonlinear_arith)
                requires
                    0 <= lo < 256,
                    0 <= hi,
            ;
        } else {
            let f = fill as int;
            assert(((f / 256 % 64) * 256 + lo) % 256 == lo) by (nonlinear_arith)
                requires
                    0 <= lo < 256,
                    0 <= f,
            ;
        }
    } else {
        assert(2 * w + 1 == a);
        assert(has_byte(image, 2 * w + 1));
        let hi = image[a] as int;
        if has_byte(image, 2 * w) {
            let lo = image[(2 * w) as u32] as int;
            assert((lo + (hi % 64) * 256) / 256 % 64 == hi % 64) by (nonlinear_arith)
                requires
                    0 <= lo < 256,
                    0 <= hi,
            ;
        } else {
            let f = fill as int;
            assert((f % 256 + (hi % 64) * 256) / 256 % 64 == hi % 64) by (nonlinear_arith)
                requires
                    0 <= f,
                    0 <= hi,
            ;
        }
    }
}

/// Every word of a planned row that holds no image byte is the fill word.
pub proof fn lemma_plan_gap_words_are_fill(
    rows: Seq<FlashRow>,
    image: Map<u32, u8>,
    rw: nat,
    fill: u16,
    j: int,
    i: int,
)
    requires
        plan_rows(rows, image, rw, fill),
        0 <= j < rows.len(),
        0 <= i < rw,
        !has_byte(image, 2 * (rows[j].base_word_address + i)),
        !has_byte(image, 2 * (rows[j].base_word_address + i) + 1),
    ensures
        rows[j].words@[i] == fill,
{
    assert(rows[j].words@.len() == rw);
    assert(rows[j].words@[i] == plan_word(image, fill, rows[j].base_word_address + i));
}

/// The packed bytes of a row, read back as little-endian pairs, give each
/// word's 14-bit value.
pub proof fn lemma_packed_pairs(words: Seq<u16>, i: int)
    requires
        0 <= i < words.len(),
    ensures
        (packed(words)[2 * i + 1] * 256 + packed(words)[2 * i]) % 0x4000 == word14(words[i]),
{
    let v = word14(words[i]) as int;
    assert(packed(words)[2 * i] == (v % 256) as u8);
    assert(packed(words)[2 * i + 1] == (v / 256) as u8);
    assert(0 <= v < 0x4000);
    assert(((v / 256) * 256 + v % 256) % 0x4000 == v) by (nonlinear_arith)
        requires
            0 <= v < 0x4000,
    ;
}

/// Planning for the PIC16F18877 with 32-word rows refuses exactly the
/// images with a byte at or beyond byte address 0x10000, the end of its
/// 32K words of program flash: every image that lies below it plans without
/// error, and the refusal names the lowest byte address beyond it.
pub proof fn lemma_plan_accepts_program_flash(image: Map<u32, u8>)
    ensures
        (forall|a: u32| image.contains_key(a) ==> a < 0x10000) ==> plan_error(image, 32) is None,
        (exists|a: u32| image.contains_key(a) && a >= 0x10000) ==> plan_error(image, 32) is Some,
        forall|a: u32|
            image.contains_key(a) && a >= 0x10000 && (forall|b: u32|
                image.contains_key(b) && b >= 0x10000 ==> a <= b) ==> plan_error(image, 32) == Some(
                outside_flash_message(a),
            ),
{
    reveal_with_fuel(is_power_of_two, 7);
    assert(is_power_of_two(32));
    assert(flash_limit() == 0x10000);
    assert forall|a: u32|
        image.contains_key(a) && a >= 0x10000 && (forall|b: u32|
            image.contains_key(b) && b >= 0x10000 ==> a <= b) implies plan_error(image, 32) == Some(
        outside_flash_message(a),
    ) by {
        let c = first_outside_address(image)->Some_0;
        assert(image.contains_key(c) && c >= 0x10000);
        assert(a <= c && c <= a);
    }
}

/// The PIC16F18877's program flash: 0x8000 words (0x10000 bytes), rows of
/// 32 words, erased words read 0x3fff; a word is packed as its low 14 bits,
/// low byte first.
pub proof fn lemma_flash_geometry(words: Seq<u16>, i: int)
    requires
        0 <= i < words.len(),
    ensures
        F18877_PFM_WORDS == 0x8000,
        F18877_PFM_BYTES == 0x10000,
        F18877_ROW_WORDS == 32,
        F18877_ERASED_WORD == 0x3fff,
        packed(words).len() == 2 * words.len(),
        packed(words)[2 * i] == (words[i] % 0x4000) % 256,
        packed(words)[2 * i + 1] == (words[i] % 0x4000) / 256,
{
    assert((2 * i) % 2 == 0);
    assert((2 * i + 1) % 2 == 1);
    assert((2 * i) / 2 == i);
    assert((2 * i + 1) / 2 == i);
}

} // verus!

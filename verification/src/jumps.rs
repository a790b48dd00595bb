//! Chains of compression pointers.
//!
//! The bound on the number of compression pointers that follow one another
//! changes nothing for names that can be decoded at all: a chain that
//! follows more pointers than the buffer has bytes has come to one target
//! twice and never ends. And along the chain of a name that is decoded, the
//! positions of the pointers strictly decrease.

use crate::domain_name::{
    checked_name, decode_labels, decode_name, decode_name_within, lemma_valid_name_is_ascii,
    pointer_after_labels, pointer_target, pointers_met, valid_name,
};
use crate::error::DnsError;
use vstd::prelude::*;
use vstd::set_lib::{lemma_int_range, lemma_len_subset, set_int_range};

verus! {

/// The target of the compression pointer that ends the labels at `start`,
/// if a pointer ends them that lies inside the buffer and points strictly
/// backwards.
pub open spec fn next_target(buf: Seq<u8>, start: int) -> Option<int> {
    match pointer_after_labels(buf, start) {
        Some(at) => if at + 1 < buf.len() && pointer_target(buf, at) < at {
            Some(pointer_target(buf, at))
        } else {
            None
        },
        None => None,
    }
}

/// Where the chain of pointers that begins with the name at `start` stands
/// after `count` jumps, if it has that many.
pub open spec fn target_after(buf: Seq<u8>, start: int, count: nat) -> Option<int>
    decreases count,
{
    if count == 0 {
        Some(start)
    } else {
        match next_target(buf, start) {
            Some(target) => target_after(buf, target, (count - 1) as nat),
            None => None,
        }
    }
}

/// The chain of pointers that begins with the name at `start` has more than
/// `jumps` jumps.
pub open spec fn out_of_jumps(buf: Seq<u8>, start: int, jumps: nat) -> bool {
    target_after(buf, start, jumps + 1) is Some
}

proof fn lemma_pointer_after_labels(buf: Seq<u8>, at: int)
    requires
        0 <= at,
    ensures
        pointer_after_labels(buf, at) matches Some(pointer) ==> at <= pointer < buf.len()
            && buf[pointer] >= 0xC0,
    decreases buf.len() - at,
{
    if at < buf.len() && buf[at] != 0 && buf[at] < 0xC0 && at + buf[at] < buf.len() {
        lemma_pointer_after_labels(buf, at + 1 + buf[at]);
    }
}

/// A target lies inside the buffer.
proof fn lemma_next_target_in_buffer(buf: Seq<u8>, start: int)
    requires
        0 <= start,
    ensures
        next_target(buf, start) matches Some(target) ==> 0 <= target < buf.len(),
{
    lemma_pointer_after_labels(buf, start);
}

/// Every target of a chain lies inside the buffer.
proof fn lemma_target_after_in_buffer(buf: Seq<u8>, start: int, count: nat)
    requires
        0 <= start,
        count >= 1,
    ensures
        target_after(buf, start, count) matches Some(target) ==> 0 <= target < buf.len(),
    decreases count,
{
    lemma_next_target_in_buffer(buf, start);
    match next_target(buf, start) {
        Some(target) => {
            if count > 1 {
                lemma_target_after_in_buffer(buf, target, (count - 1) as nat);
            }
        },
        None => {},
    }
}

/// A chain that makes `first + then` jumps makes `first` jumps, and from
/// where it stands then, `then` jumps more.
proof fn lemma_target_after_sum(buf: Seq<u8>, start: int, first: nat, then: nat)
    ensures
        target_after(buf, start, first + then) == (match target_after(buf, start, first) {
            Some(middle) => target_after(buf, middle, then),
            None => None,
        }),
    decreases first,
{
    if first > 0 {
        match next_target(buf, start) {
            Some(target) => {
                lemma_target_after_sum(buf, target, (first - 1) as nat, then);
                assert(((first - 1) as nat + then) as nat == (first + then - 1) as nat);
            },
            None => {},
        }
    }
}

/// A chain that makes some number of jumps makes every smaller number.
proof fn lemma_target_after_fewer(buf: Seq<u8>, start: int, count: nat, fewer: nat)
    requires
        fewer <= count,
        target_after(buf, start, count) is Some,
    ensures
        target_after(buf, start, fewer) is Some,
{
    lemma_target_after_sum(buf, start, fewer, (count - fewer) as nat);
}

/// From a place to which it comes back, a chain makes any number of jumps.
proof fn lemma_cycle_never_ends(buf: Seq<u8>, place: int, period: nat, count: nat)
    requires
        period > 0,
        target_after(buf, place, period) == Some(place),
    ensures
        target_after(buf, place, count) is Some,
    decreases count,
{
    if count < period {
        lemma_target_after_fewer(buf, place, period, count);
    } else {
        lemma_target_after_sum(buf, place, period, (count - period) as nat);
        lemma_cycle_never_ends(buf, place, period, (count - period) as nat);
    }
}

/// A chain that makes more jumps than the buffer has bytes comes to one
/// place twice.
proof fn lemma_long_chain_repeats(buf: Seq<u8>, start: int, count: nat) -> (r: (nat, nat))
    requires
        0 <= start,
        count > buf.len(),
        target_after(buf, start, count) is Some,
    ensures
        1 <= r.0 < r.1 <= count,
        target_after(buf, start, r.0) is Some,
        target_after(buf, start, r.0) == target_after(buf, start, r.1),
{
    let n = buf.len();
    let targets = Seq::new((n + 1) as nat, |i: int| target_after(buf, start, (i + 1) as nat)->0);
    assert forall|i: int| 0 <= i < targets.len() implies target_after(
        buf,
        start,
        (i + 1) as nat,
    ) is Some && 0 <= #[trigger] targets[i] < n by {
        lemma_target_after_fewer(buf, start, count, (i + 1) as nat);
        lemma_target_after_in_buffer(buf, start, (i + 1) as nat);
    }
    if targets.no_duplicates() {
        targets.unique_seq_to_set();
        lemma_int_range(0, n as int);
        assert(targets.to_set().subset_of(set_int_range(0, n as int))) by {
            assert forall|x: int| targets.to_set().contains(x) implies set_int_range(
                0,
                n as int,
            ).contains(x) by {
                let i = choose|i: int| 0 <= i < targets.len() && targets[i] == x;
                assert(0 <= targets[i] < n);
            }
        }
        lemma_len_subset(targets.to_set(), set_int_range(0, n as int));
        assert(false);
    }
    let (i, j) = choose|i: int, j: int|
        0 <= i < targets.len() && 0 <= j < targets.len() && i != j && targets[i] == targets[j];
    assert(0 <= targets[i] < n && 0 <= targets[j] < n);
    if i < j {
        ((i + 1) as nat, (j + 1) as nat)
    } else {
        ((j + 1) as nat, (i + 1) as nat)
    }
}

/// A chain that makes more jumps than the buffer has bytes makes any number
/// of jumps.
proof fn lemma_long_chain_never_ends(buf: Seq<u8>, start: int, count: nat, other: nat)
    requires
        0 <= start,
        count > buf.len(),
        target_after(buf, start, count) is Some,
    ensures
        target_after(buf, start, other) is Some,
{
    let (first, second) = lemma_long_chain_repeats(buf, start, count);
    let place = target_after(buf, start, first)->0;
    lemma_target_after_sum(buf, start, first, (second - first) as nat);
    if other <= first {
        lemma_target_after_fewer(buf, start, first, other);
    } else {
        lemma_cycle_never_ends(buf, place, (second - first) as nat, (other - first) as nat);
        lemma_target_after_sum(buf, start, first, (other - first) as nat);
    }
}

/// With more jumps allowed, labels decode to the same, unless the chain of
/// pointers is longer than the smaller number of jumps.
proof fn lemma_labels_with_more_jumps(buf: Seq<u8>, at: int, jumps: nat, more: nat)
    requires
        0 <= at,
        jumps <= more,
        !out_of_jumps(buf, at, jumps),
    ensures
        decode_labels(buf, at, more) == decode_labels(buf, at, jumps),
    decreases jumps, buf.len() - at,
{
    if at >= buf.len() || buf[at] == 0 {
    } else if buf[at] >= 0xC0 {
        if at + 1 < buf.len() && pointer_target(buf, at) < at {
            let target = pointer_target(buf, at);
            assert(next_target(buf, at) == Some(target));
            assert(target_after(buf, at, jumps + 1) == target_after(buf, target, jumps));
            assert(jumps > 0) by {
                if jumps == 0 {
                    assert(target_after(buf, target, 0) == Some(target));
                }
            }
            lemma_labels_with_more_jumps(buf, target, (jumps - 1) as nat, (more - 1) as nat);
            assert(decode_name_within(buf, target, at, (jumps - 1) as nat) == checked_name(
                decode_labels(buf, target, (jumps - 1) as nat),
            ));
            assert(decode_name_within(buf, target, at, (more - 1) as nat) == checked_name(
                decode_labels(buf, target, (more - 1) as nat),
            ));
        }
    } else if at + buf[at] >= buf.len() {
    } else {
        let next = at + 1 + buf[at];
        assert(next_target(buf, at) == next_target(buf, next));
        assert(target_after(buf, at, jumps + 1) == target_after(buf, next, jumps + 1));
        lemma_labels_with_more_jumps(buf, next, jumps, more);
    }
}

/// Where the chain of pointers is longer than the jumps allowed, labels are
/// not decoded.
proof fn lemma_labels_out_of_jumps(buf: Seq<u8>, at: int, jumps: nat)
    requires
        0 <= at,
        out_of_jumps(buf, at, jumps),
    ensures
        decode_labels(buf, at, jumps) == Err::<(Seq<char>, int), DnsError>(
            DnsError::PointerOffsetInvalid,
        ),
    decreases jumps, buf.len() - at,
{
    assert(next_target(buf, at) is Some);
    if at >= buf.len() || buf[at] == 0 {
    } else if buf[at] >= 0xC0 {
        let target = pointer_target(buf, at);
        assert(next_target(buf, at) == Some(target));
        assert(target_after(buf, at, jumps + 1) == target_after(buf, target, jumps));
        if jumps > 0 {
            lemma_labels_out_of_jumps(buf, target, (jumps - 1) as nat);
            assert(decode_name_within(buf, target, at, (jumps - 1) as nat) == checked_name(
                decode_labels(buf, target, (jumps - 1) as nat),
            ));
        }
    } else if at + buf[at] >= buf.len() {
    } else {
        let next = at + 1 + buf[at];
        assert(next_target(buf, at) == next_target(buf, next));
        assert(target_after(buf, at, jumps + 1) == target_after(buf, next, jumps + 1));
        lemma_labels_out_of_jumps(buf, next, jumps);
    }
}

/// To allow more jumps than the buffer has bytes changes nothing: a name is
/// decoded with any such number of jumps as it is with as many jumps as the
/// buffer has bytes, and fails with any such number as it fails with that
/// one.
pub proof fn lemma_jumps_suffice(buf: Seq<u8>, start: int, limit: int, jumps: nat)
    requires
        jumps >= buf.len(),
    ensures
        decode_name_within(buf, start, limit, jumps) == decode_name(buf, start, limit),
{
    if 0 <= start < buf.len() && start < limit {
        if out_of_jumps(buf, start, buf.len()) {
            lemma_long_chain_never_ends(buf, start, buf.len() + 1, jumps + 1);
            lemma_labels_out_of_jumps(buf, start, buf.len());
            lemma_labels_out_of_jumps(buf, start, jumps);
        } else {
            lemma_labels_with_more_jumps(buf, start, buf.len(), jumps);
        }
    }
}

/// A name that cannot be decoded for want of jumps could not be decoded
/// however many jumps were allowed: its chain of pointers never ends.
pub proof fn lemma_out_of_jumps_never_ends(buf: Seq<u8>, start: int, jumps: nat)
    requires
        0 <= start,
        out_of_jumps(buf, start, buf.len()),
    ensures
        out_of_jumps(buf, start, jumps),
{
    lemma_long_chain_never_ends(buf, start, buf.len() + 1, jumps + 1);
}

/// The character of a byte has the code of the byte.
proof fn lemma_code_of_byte(b: u8)
    ensures
        (b as char) as int == b as int,
{
}

/// Where labels decode to characters below 0xC0, no byte from their start
/// up to the pointer that ends them is a pointer's first byte, and that
/// pointer is followed: it lies inside the buffer, points strictly backwards,
/// and the name at its target is decoded.
proof fn lemma_labels_before_pointer(buf: Seq<u8>, at: int, jumps: nat)
    requires
        0 <= at,
        decode_labels(buf, at, jumps) matches Ok((name, _)) && (forall|i: int|
            0 <= i < name.len() ==> ((#[trigger] name[i]) as int) < 0xC0),
    ensures
        pointer_after_labels(buf, at) matches Some(pointer) ==> {
            &&& at <= pointer
            &&& pointer + 1 < buf.len()
            &&& buf[pointer] >= 0xC0
            &&& forall|q: int| at <= q < pointer ==> #[trigger] buf[q] < 0xC0
            &&& pointer_target(buf, pointer) < pointer
            &&& jumps > 0
            &&& decode_name_within(
                buf,
                pointer_target(buf, pointer),
                pointer,
                (jumps - 1) as nat,
            ) is Ok
        },
    decreases buf.len() - at,
{
    if at >= buf.len() || buf[at] == 0 || buf[at] >= 0xC0 {
    } else if at + buf[at] >= buf.len() {
    } else {
        let d = buf[at] as int;
        let next = at + 1 + d;
        let name = decode_labels(buf, at, jumps)->Ok_0.0;
        let rest = decode_labels(buf, next, jumps)->Ok_0.0;
        let label = buf.subrange(at + 1, next);
        assert(name == label.map_values(|b: u8| b as char).push('.') + rest);
        assert forall|i: int| 0 <= i < rest.len() implies ((#[trigger] rest[i]) as int) < 0xC0 by {
            assert(rest[i] == name[d + 1 + i]);
        }
        lemma_labels_before_pointer(buf, next, jumps);
        assert forall|q: int| at <= q < next implies #[trigger] buf[q] < 0xC0 by {
            if q > at {
                let i = q - at - 1;
                assert(name[i] == label[i] as char);
                assert(label[i] == buf[q]);
                lemma_code_of_byte(buf[q]);
            }
        }
    }
}

/// The pointers that are met from the target of a pointer on, where the
/// name at that target is decoded, lie below that pointer, each below the
/// one before it.
proof fn lemma_pointers_met_below(buf: Seq<u8>, start: int, limit: int, jumps: nat, above: int)
    requires
        0 <= start < above,
        above + 1 < buf.len(),
        buf[above] >= 0xC0,
        pointer_target(buf, above) == start,
        start < limit,
        decode_name_within(buf, start, limit, jumps) is Ok,
    ensures
        forall|i: int|
            0 <= i < pointers_met(buf, start, jumps).len() ==> #[trigger] pointers_met(
                buf,
                start,
                jumps,
            )[i] < above,
        forall|i: int, k: int|
            0 <= i < k < pointers_met(buf, start, jumps).len() ==> #[trigger] pointers_met(
                buf,
                start,
                jumps,
            )[k] < #[trigger] pointers_met(buf, start, jumps)[i],
    decreases jumps,
{
    let met = pointers_met(buf, start, jumps);
    let name = decode_labels(buf, start, jumps)->Ok_0.0;
    assert(valid_name(name));
    lemma_valid_name_is_ascii(name);
    lemma_labels_before_pointer(buf, start, jumps);
    match pointer_after_labels(buf, start) {
        None => {},
        Some(pointer) => {
            let target = pointer_target(buf, pointer);
            assert(pointer <= above) by {
                if above < pointer {
                    assert(buf[above] < 0xC0);
                }
            }
            if pointer == above {
                // The chain would come back to where it is.
                lemma_pointers_met_below(buf, start, pointer, (jumps - 1) as nat, above);
                assert(pointers_met(buf, start, (jumps - 1) as nat)[0] == pointer);
                assert(false);
            }
            let rest = pointers_met(buf, target, (jumps - 1) as nat);
            lemma_pointers_met_below(buf, target, pointer, (jumps - 1) as nat, pointer);
            assert(met == seq![pointer] + rest);
            assert forall|i: int| 0 <= i < met.len() implies #[trigger] met[i] < above by {
                if i > 0 {
                    assert(met[i] == rest[i - 1]);
                }
            }
            assert forall|i: int, k: int| 0 <= i < k < met.len() implies #[trigger] met[k]
                < #[trigger] met[i] by {
                assert(met[k] == rest[k - 1]);
                if i > 0 {
                    assert(met[i] == rest[i - 1]);
                }
            }
        },
    }
}

/// Along the chain of pointers of a name that is decoded, the positions of
/// the pointers strictly decrease: each pointer that is met lies below the
/// one that led to it.
pub proof fn lemma_pointer_positions_decrease(buf: Seq<u8>, start: int, limit: int)
    requires
        decode_name(buf, start, limit) is Ok,
    ensures
        forall|i: int, k: int|
            0 <= i < k < pointers_met(buf, start, buf.len()).len() ==> #[trigger] pointers_met(
                buf,
                start,
                buf.len(),
            )[k] < #[trigger] pointers_met(buf, start, buf.len())[i],
{
    let jumps = buf.len();
    let met = pointers_met(buf, start, jumps);
    let name = decode_labels(buf, start, jumps)->Ok_0.0;
    assert(valid_name(name));
    lemma_valid_name_is_ascii(name);
    lemma_labels_before_pointer(buf, start, jumps);
    match pointer_after_labels(buf, start) {
        None => {},
        Some(pointer) => {
            let target = pointer_target(buf, pointer);
            let rest = pointers_met(buf, target, (jumps - 1) as nat);
            lemma_pointers_met_below(buf, target, pointer, (jumps - 1) as nat, pointer);
            assert(met == seq![pointer] + rest);
            assert forall|i: int, k: int| 0 <= i < k < met.len() implies #[trigger] met[k]
                < #[trigger] met[i] by {
                assert(met[k] == rest[k - 1]);
                if i > 0 {
                    assert(met[i] == rest[i - 1]);
                }
            }
        },
    }
}

} // verus!

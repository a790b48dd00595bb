use crate::error::DnsError;
use crate::name_offsets::NameOffsets;
use vstd::prelude::*;
use vstd::string::*;

verus! {

// ---------------------------------------------------------------------------
// Label syntax
// ---------------------------------------------------------------------------

/// An ASCII letter.
pub open spec fn is_letter(c: char) -> bool {
    ('a' <= c && c <= 'z') || ('A' <= c && c <= 'Z')
}

/// An ASCII letter or digit.
pub open spec fn is_letter_or_digit(c: char) -> bool {
    is_letter(c) || ('0' <= c && c <= '9')
}

/// A character that may stand inside a label: a letter, a digit or a hyphen.
pub open spec fn is_label_char(c: char) -> bool {
    is_letter_or_digit(c) || c == '-'
}

/// The label syntax of RFC 1035: 1 to 63 characters, the first a letter, the
/// last a letter or digit, all of them letters, digits or hyphens.
pub open spec fn valid_label(label: Seq<char>) -> bool {
    &&& 1 <= label.len() <= 63
    &&& is_letter(label.first())
    &&& is_letter_or_digit(label.last())
    &&& forall|i: int| 0 <= i < label.len() ==> is_label_char(#[trigger] label[i])
}

/// The index of the first dot of `s`, or the length of `s` where it has none.
pub open spec fn first_dot(s: Seq<char>) -> int
    decreases s.len(),
{
    if s.len() == 0 || s[0] == '.' {
        0
    } else {
        1 + first_dot(s.skip(1))
    }
}

/// `s` is a run of valid labels, each followed by its dot.
pub open spec fn valid_labels(s: Seq<char>) -> bool
    decreases s.len(),
{
    if s.len() == 0 {
        true
    } else {
        let d = first_dot(s);
        &&& 0 <= d < s.len()
        &&& valid_label(s.take(d))
        &&& valid_labels(s.skip(d + 1))
    }
}

/// A valid domain name: the root `"."`, or one or more valid labels, each
/// followed by a dot.
pub open spec fn valid_name(name: Seq<char>) -> bool {
    name == seq!['.'] || (name.len() > 0 && valid_labels(name))
}

/// What `normalize_domain_name` makes of a name: the empty string and the
/// root stay; otherwise one leading dot goes and a trailing dot is added where
/// there is none.
pub open spec fn normalized(name: Seq<char>) -> Seq<char> {
    if name.len() == 0 || name == seq!['.'] {
        name
    } else {
        let body = if name[0] == '.' {
            name.skip(1)
        } else {
            name
        };
        if body.last() == '.' {
            body
        } else {
            body.push('.')
        }
    }
}

/// `first_dot` is within the string, no dot stands before it, and a dot
/// stands at it unless it is the length.
pub proof fn lemma_first_dot(s: Seq<char>)
    ensures
        0 <= first_dot(s) <= s.len(),
        forall|j: int| 0 <= j < first_dot(s) ==> #[trigger] s[j] != '.',
        first_dot(s) < s.len() ==> s[first_dot(s)] == '.',
    decreases s.len(),
{
    if s.len() == 0 || s[0] == '.' {
    } else {
        let t = s.skip(1);
        lemma_first_dot(t);
        assert forall|j: int| 0 <= j < first_dot(s) implies #[trigger] s[j] != '.' by {
            if j > 0 {
                assert(t[j - 1] == s[j]);
            }
        }
    }
}

/// The first dot is at `d` if no dot stands before `d` and one stands at `d`
/// (or `d` is the length).
pub proof fn lemma_first_dot_is(s: Seq<char>, d: int)
    requires
        0 <= d <= s.len(),
        forall|j: int| 0 <= j < d ==> #[trigger] s[j] != '.',
        d < s.len() ==> s[d] == '.',
    ensures
        first_dot(s) == d,
{
    lemma_first_dot(s);
    let f = first_dot(s);
    if f < d {
        assert(s[f] != '.');
    } else if f > d {
        assert(s[d] != '.');
    }
}

/// Every character of a run of valid labels is a letter, a digit, a hyphen
/// or a dot.
pub proof fn lemma_valid_labels_chars(s: Seq<char>)
    requires
        valid_labels(s),
    ensures
        forall|i: int| 0 <= i < s.len() ==> is_label_char(#[trigger] s[i]) || s[i] == '.',
    decreases s.len(),
{
    if s.len() > 0 {
        let d = first_dot(s);
        lemma_first_dot(s);
        lemma_valid_labels_chars(s.skip(d + 1));
        assert forall|i: int| 0 <= i < s.len() implies is_label_char(#[trigger] s[i]) || s[i]
            == '.' by {
            if i < d {
                assert(s.take(d)[i] == s[i]);
            } else if i > d {
                assert(s.skip(d + 1)[i - d - 1] == s[i]);
            }
        }
    }
}

/// A valid name is made of ASCII characters.
pub proof fn lemma_valid_name_is_ascii(name: Seq<char>)
    requires
        valid_name(name),
    ensures
        vstd::utf8::is_ascii_chars(name),
{
    if name == seq!['.'] {
        assert(name[0] == '.');
    } else {
        lemma_valid_labels_chars(name);
    }
}

fn is_letter_byte(b: u8) -> (r: bool)
    ensures
        r == is_letter(b as char),
{
    (b >= 0x61 && b <= 0x7a) || (b >= 0x41 && b <= 0x5a)
}

fn is_letter_or_digit_byte(b: u8) -> (r: bool)
    ensures
        r == is_letter_or_digit(b as char),
{
    is_letter_byte(b) || (b >= 0x30 && b <= 0x39)
}

/// Returns true if `domain_name` is a valid DNS domain name.
pub fn is_domain_name_valid(domain_name: &String) -> (valid: bool)
    ensures
        valid == valid_name(domain_name@),
{
    if !domain_name.is_ascii() {
        proof {
            if valid_name(domain_name@) {
                lemma_valid_name_is_ascii(domain_name@);
            }
        }
        return false;
    }
    let text = domain_name.as_str();
    let bytes = text.as_bytes();
    let n = bytes.len();
    let ghost s = domain_name@;
    proof {
        is_ascii_spec_bytes(text);
        assert(bytes@.len() == s.len());
        assert(forall|j: int| 0 <= j < s.len() ==> (#[trigger] bytes@[j]) as char == s[j]);
    }
    if n == 0 {
        return false;
    }
    if n == 1 && bytes[0] == 0x2e {
        assert(s =~= seq!['.']);
        return true;
    }
    proof {
        if s == seq!['.'] {
            assert(s.len() == 1 && s[0] == '.');
        }
        assert(s.skip(0) =~= s);
    }
    let mut start: usize = 0;
    while start < n
        invariant
            n == s.len(),
            n == bytes@.len(),
            start <= n,
            s == domain_name@,
            s != seq!['.'],
            forall|j: int| 0 <= j < s.len() ==> (#[trigger] bytes@[j]) as char == s[j],
            valid_labels(s) == valid_labels(s.skip(start as int)),
        decreases n - start,
    {
        let ghost rest = s.skip(start as int);
        let mut end: usize = start;
        while end < n && bytes[end] != 0x2e
            invariant
                n == s.len(),
                n == bytes@.len(),
                start <= end <= n,
                s == domain_name@,
                s != seq!['.'],
                rest == s.skip(start as int),
                valid_labels(s) == valid_labels(rest),
                forall|j: int| 0 <= j < s.len() ==> (#[trigger] bytes@[j]) as char == s[j],
                forall|j: int| start <= j < end ==> s[j] != '.' && is_label_char(#[trigger] s[j]),
            decreases n - end,
        {
            let b = bytes[end];
            if !(is_letter_or_digit_byte(b) || b == 0x2d) {
                proof {
                    // The label that holds this character is not valid.
                    lemma_first_dot(rest);
                    let d = first_dot(rest);
                    if d < rest.len() {
                        assert(rest[end - start] == s[end as int]);
                        assert(d > end - start) by {
                            assert forall|j: int| 0 <= j <= end - start implies #[trigger] rest[j]
                                != '.' by {
                                assert(rest[j] == s[start + j]);
                            }
                        }
                        assert(rest.take(d)[end - start] == s[end as int]);
                    }
                }
                return false;
            }
            end += 1;
        }
        proof {
            assert forall|j: int| 0 <= j < end - start implies #[trigger] rest[j] != '.' by {
                assert(rest[j] == s[start + j]);
            }
            if end < n {
                assert(rest[end - start] == s[end as int]);
            }
            lemma_first_dot_is(rest, end - start);
        }
        if end == n {
            return false;
        }
        let len = end - start;
        if len == 0 || len > 63 || !is_letter_byte(bytes[start]) || !is_letter_or_digit_byte(
            bytes[end - 1],
        ) {
            proof {
                let label = rest.take(len as int);
                if len > 0 {
                    assert(label.first() == s[start as int]);
                    assert(label.last() == s[end - 1]);
                }
            }
            return false;
        }
        proof {
            let label = rest.take(len as int);
            assert(label.first() == s[start as int]);
            assert(label.last() == s[end - 1]);
            assert forall|j: int| 0 <= j < label.len() implies is_label_char(
                #[trigger] label[j],
            ) by {
                assert(label[j] == s[start + j]);
            }
            assert(valid_label(label));
            assert(rest.skip(len + 1) =~= s.skip(end + 1));
        }
        start = end + 1;
    }
    proof {
        assert(s.skip(n as int) =~= Seq::<char>::empty());
    }
    true
}

/// Massages a name towards a valid one: removes one leading dot and appends a
/// dot at the end where none stands. The empty string and the root pass
/// through unchanged.
pub fn normalize_domain_name(domain_name: &String) -> (normal: String)
    ensures
        normal@ == normalized(domain_name@),
{
    let text = domain_name.as_str();
    let n = text.unicode_len();
    if n == 0 {
        return domain_name.clone();
    }
    let first = text.get_char(0);
    if n == 1 && first == '.' {
        assert(domain_name@ =~= seq!['.']);
        return domain_name.clone();
    }
    proof {
        if domain_name@ == seq!['.'] {
            assert(domain_name@.len() == 1);
        }
    }
    let body = if first == '.' {
        text.substring_char(1, n)
    } else {
        text
    };
    let last = text.get_char(n - 1);
    let mut normal = body.to_owned();
    if last != '.' {
        normal.push('.');
    }
    proof {
        if first == '.' {
            assert(body@ =~= domain_name@.skip(1));
        }
    }
    normal
}

// ---------------------------------------------------------------------------
// Decoding
// ---------------------------------------------------------------------------

/// The text of a label: each byte stands for the character with its code.
pub open spec fn label_text(bytes: Seq<u8>) -> Seq<char> {
    bytes.map_values(|b: u8| b as char)
}

/// The offset held by the compression pointer at `at`: the low six bits of
/// its first byte, then its second byte.
pub open spec fn pointer_target(buf: Seq<u8>, at: int) -> int {
    (buf[at] - 0xC0) * 256 + buf[at + 1]
}

/// `rest` with `prefix` put before its name.
pub open spec fn with_prefix(
    prefix: Seq<char>,
    rest: Result<(Seq<char>, int), DnsError>,
) -> Result<(Seq<char>, int), DnsError> {
    match rest {
        Ok((name, end)) => Ok((prefix + name, end)),
        Err(e) => Err(e),
    }
}

/// `raw`, unless its name is not valid.
pub open spec fn checked_name(raw: Result<(Seq<char>, int), DnsError>) -> Result<
    (Seq<char>, int),
    DnsError,
> {
    match raw {
        Ok((name, end)) => if valid_name(name) {
            Ok((name, end))
        } else {
            Err(DnsError::InvalidDomainName)
        },
        Err(e) => Err(e),
    }
}

/// The labels that start at `at`, each with its dot, and the position after
/// what ends them: a zero byte, or a compression pointer, which stands for
/// the name at its target. Labels that run to the end of the buffer with
/// neither after them are an error. At most `jumps` pointers are followed in
/// a row.
pub open spec fn decode_labels(buf: Seq<u8>, at: int, jumps: nat) -> Result<
    (Seq<char>, int),
    DnsError,
>
    decreases jumps, buf.len() - at,
{
    if at < 0 || at >= buf.len() {
        Err(DnsError::LabelOverrun)
    } else if buf[at] == 0 {
        Ok((Seq::<char>::empty(), at + 1))
    } else if buf[at] >= 0xC0 {
        if at + 1 >= buf.len() {
            Err(DnsError::LabelOverrun)
        } else if pointer_target(buf, at) >= at || jumps == 0 {
            Err(DnsError::PointerOffsetInvalid)
        } else {
            match decode_name_within(buf, pointer_target(buf, at), at, (jumps - 1) as nat) {
                Ok((suffix, _)) => Ok((suffix, at + 2)),
                Err(e) => Err(e),
            }
        }
    } else if at + buf[at] >= buf.len() {
        Err(DnsError::LabelOverrun)
    } else {
        with_prefix(
            label_text(buf.subrange(at + 1, at + 1 + buf[at])).push('.'),
            decode_labels(buf, at + 1 + buf[at], jumps),
        )
    }
}

/// The name that starts at `start`, which must lie below `limit` and inside
/// the buffer, and the position after it. The name must be valid.
pub open spec fn decode_name_within(buf: Seq<u8>, start: int, limit: int, jumps: nat) -> Result<
    (Seq<char>, int),
    DnsError,
>
    decreases jumps, buf.len() + 1,
{
    if start < 0 || start >= buf.len() || start >= limit {
        Err(DnsError::TooShort)
    } else {
        checked_name(decode_labels(buf, start, jumps))
    }
}

/// What `parse_domain_name` returns for a name at `start`.
///
/// A compression pointer must point strictly backwards: the name at its
/// target is decoded with the pointer's own position as the limit. Pointers
/// that follow one another are followed as long as they are no more than
/// the buffer has bytes: a longer chain has come to one target twice and
/// never ends (`jumps::lemma_jumps_suffice`), and is rejected.
pub open spec fn decode_name(buf: Seq<u8>, start: int, limit: int) -> Result<
    (Seq<char>, int),
    DnsError,
> {
    decode_name_within(buf, start, limit, buf.len())
}

/// The view of what a parse returned.
pub open spec fn parsed_text(r: Result<(String, usize), DnsError>) -> Result<
    (Seq<char>, int),
    DnsError,
> {
    match r {
        Ok((name, end)) => Ok((name@, end as int)),
        Err(e) => Err(e),
    }
}

/// Labels end after where they start, and inside the buffer.
pub proof fn lemma_decode_labels_end(buf: Seq<u8>, at: int, jumps: nat)
    requires
        0 <= at,
    ensures
        decode_labels(buf, at, jumps) matches Ok((_, end)) ==> at < end <= buf.len(),
    decreases buf.len() - at,
{
    if at < buf.len() && buf[at] != 0 && buf[at] < 0xC0 && at + buf[at] < buf.len() {
        lemma_decode_labels_end(buf, at + 1 + buf[at], jumps);
    }
}

/// A name ends after where it starts, and inside the buffer.
pub proof fn lemma_decode_name_end(buf: Seq<u8>, start: int, limit: int)
    ensures
        decode_name(buf, start, limit) matches Ok((_, end)) ==> 0 <= start < end <= buf.len(),
{
    if 0 <= start < buf.len() {
        lemma_decode_labels_end(buf, start, buf.len());
    }
}

/// The position of the compression pointer that ends the labels starting at
/// `at`, if a pointer ends them.
pub open spec fn pointer_after_labels(buf: Seq<u8>, at: int) -> Option<int>
    decreases buf.len() - at,
{
    if at < 0 || at >= buf.len() || buf[at] == 0 {
        None
    } else if buf[at] >= 0xC0 {
        Some(at)
    } else if at + buf[at] >= buf.len() {
        None
    } else {
        pointer_after_labels(buf, at + 1 + buf[at])
    }
}

/// The positions of the compression pointers that the decoding of a name at
/// `start` meets, in the order in which it meets them: the pointer that ends
/// the labels at `start`, then the pointer that ends the labels at its
/// target, and so on, as long as pointers are followed.
pub open spec fn pointers_met(buf: Seq<u8>, start: int, jumps: nat) -> Seq<int>
    decreases jumps,
{
    match pointer_after_labels(buf, start) {
        None => Seq::<int>::empty(),
        Some(at) => if at + 1 >= buf.len() || pointer_target(buf, at) >= at || jumps == 0 {
            seq![at]
        } else {
            seq![at] + pointers_met(buf, pointer_target(buf, at), (jumps - 1) as nat)
        },
    }
}

proof fn lemma_labels_end_in_pointer(buf: Seq<u8>, at: int, jumps: nat)
    requires
        0 <= at,
    ensures
        match pointer_after_labels(buf, at) {
            None => true,
            Some(pointer) => {
                &&& at <= pointer < buf.len()
                &&& buf[pointer] >= 0xC0
                &&& decode_labels(buf, at, jumps) is Ok ==> decode_labels(buf, pointer, jumps)
                    is Ok
                &&& decode_labels(buf, pointer, jumps) matches Err(e) ==> decode_labels(
                    buf,
                    at,
                    jumps,
                ) == Err::<(Seq<char>, int), DnsError>(e)
            },
        },
    decreases buf.len() - at,
{
    if at < buf.len() && buf[at] != 0 && buf[at] < 0xC0 && at + buf[at] < buf.len() {
        lemma_labels_end_in_pointer(buf, at + 1 + buf[at], jumps);
    }
}

proof fn lemma_pointers_met(buf: Seq<u8>, start: int, limit: int, jumps: nat)
    requires
        0 <= start < buf.len(),
        start < limit,
    ensures
        decode_name_within(buf, start, limit, jumps) is Ok ==> forall|i: int|
            0 <= i < pointers_met(buf, start, jumps).len() ==> {
                let at = #[trigger] pointers_met(buf, start, jumps)[i];
                0 <= at && at + 1 < buf.len() && pointer_target(buf, at) < at
            },
        pointers_met(buf, start, jumps).len() > 0 && pointers_met(buf, start, jumps).last() + 1
            < buf.len() && pointer_target(buf, pointers_met(buf, start, jumps).last())
            >= pointers_met(buf, start, jumps).last() ==> decode_name_within(
            buf,
            start,
            limit,
            jumps,
        ) == Err::<(Seq<char>, int), DnsError>(DnsError::PointerOffsetInvalid),
    decreases jumps,
{
    lemma_labels_end_in_pointer(buf, start, jumps);
    match pointer_after_labels(buf, start) {
        None => {},
        Some(at) => {
            let met = pointers_met(buf, start, jumps);
            if at + 1 >= buf.len() || pointer_target(buf, at) >= at || jumps == 0 {
                assert(met.last() == at);
            } else {
                let target = pointer_target(buf, at);
                let rest = pointers_met(buf, target, (jumps - 1) as nat);
                lemma_pointers_met(buf, target, at, (jumps - 1) as nat);
                assert(met == seq![at] + rest);
                if rest.len() > 0 {
                    assert(met.last() == rest.last());
                } else {
                    assert(met.last() == at);
                }
                if decode_name_within(buf, start, limit, jumps) is Ok {
                    assert forall|i: int| 0 <= i < met.len() implies {
                        let p = #[trigger] met[i];
                        0 <= p && p + 1 < buf.len() && pointer_target(buf, p) < p
                    } by {
                        if i > 0 {
                            assert(met[i] == rest[i - 1]);
                        }
                    }
                }
            }
        },
    }
}

/// Every compression pointer that a successful parse meets points strictly
/// backwards: its target is below its own position. (That the pointers of a
/// chain lie one below the other is `jumps::lemma_pointer_positions_decrease`.)
pub proof fn lemma_pointers_point_backwards(buf: Seq<u8>, start: int, limit: int)
    requires
        decode_name(buf, start, limit) is Ok,
    ensures
        forall|i: int|
            0 <= i < pointers_met(buf, start, buf.len()).len() ==> {
                let at = #[trigger] pointers_met(buf, start, buf.len())[i];
                0 <= at && at + 1 < buf.len() && pointer_target(buf, at) < at
            },
{
    lemma_pointers_met(buf, start, limit, buf.len());
}

/// A name whose decoding meets a compression pointer that points at itself
/// or forwards is rejected.
pub proof fn lemma_forward_pointer_is_rejected(buf: Seq<u8>, start: int, limit: int)
    requires
        0 <= start < buf.len(),
        start < limit,
        pointers_met(buf, start, buf.len()).len() > 0,
        pointers_met(buf, start, buf.len()).last() + 1 < buf.len(),
        pointer_target(buf, pointers_met(buf, start, buf.len()).last()) >= pointers_met(
            buf,
            start,
            buf.len(),
        ).last(),
    ensures
        decode_name(buf, start, limit) == Err::<(Seq<char>, int), DnsError>(
            DnsError::PointerOffsetInvalid,
        ),
{
    lemma_pointers_met(buf, start, limit, buf.len());
}

/// Of the limit, a name only asks whether it starts below it.
pub proof fn lemma_decode_name_limit(buf: Seq<u8>, start: int, limit: int, other: int)
    requires
        start < buf.len() ==> ((start < limit) == (start < other)),
    ensures
        decode_name(buf, start, limit) == decode_name(buf, start, other),
{
}

proof fn lemma_with_prefix_twice(
    a: Seq<char>,
    b: Seq<char>,
    rest: Result<(Seq<char>, int), DnsError>,
)
    ensures
        with_prefix(a, with_prefix(b, rest)) == with_prefix(a + b, rest),
{
    match rest {
        Ok((name, end)) => {
            assert(a + (b + name) =~= (a + b) + name);
        },
        Err(e) => {},
    }
}

proof fn lemma_pointer_tag(b: u8)
    by (bit_vector)
    ensures
        (b & 0xC0 == 0xC0) <==> b >= 0xC0,
{
}

proof fn lemma_pointer_offset(b: u8, c: u8)
    by (bit_vector)
    requires
        b >= 0xC0,
    ensures
        (((b & 0x3F) as u16) << 8 | (c as u16)) == ((b - 0xC0) as u16) * 256 + (c as u16),
{
}

fn finish_name(name: String, end: usize) -> (r: Result<(String, usize), DnsError>)
    ensures
        parsed_text(r) == checked_name(Ok((name@, end as int))),
{
    if is_domain_name_valid(&name) {
        Ok((name, end))
    } else {
        Err(DnsError::InvalidDomainName)
    }
}

fn parse_name(buf: &Vec<u8>, start: usize, limit: usize, jumps: usize) -> (r: Result<
    (String, usize),
    DnsError,
>)
    ensures
        parsed_text(r) == decode_name_within(buf@, start as int, limit as int, jumps as nat),
    decreases jumps,
{
    if start >= buf.len() || start >= limit {
        return Err(DnsError::TooShort);
    }
    let mut name = String::new();
    let mut at: usize = start;
    proof {
        lemma_with_prefix_twice(
            Seq::<char>::empty(),
            Seq::<char>::empty(),
            decode_labels(buf@, start as int, jumps as nat),
        );
        assert(Seq::<char>::empty() + Seq::<char>::empty() =~= Seq::<char>::empty());
        assert(with_prefix(Seq::<char>::empty(), decode_labels(buf@, start as int, jumps as nat))
            == decode_labels(buf@, start as int, jumps as nat)) by {
            match decode_labels(buf@, start as int, jumps as nat) {
                Ok((n, e)) => {
                    assert(Seq::<char>::empty() + n =~= n);
                },
                Err(e) => {},
            }
        }
    }
    while at < buf.len()
        invariant
            start <= at <= buf.len(),
            start < limit,
            start < buf.len(),
            decode_labels(buf@, start as int, jumps as nat) == with_prefix(
                name@,
                decode_labels(buf@, at as int, jumps as nat),
            ),
        decreases buf.len() - at,
    {
        let b = buf[at];
        if b == 0 {
            assert(name@ + Seq::<char>::empty() =~= name@);
            return finish_name(name, at + 1);
        }
        proof {
            lemma_pointer_tag(b);
        }
        if b & 0xC0 == 0xC0 {
            if at + 1 >= buf.len() {
                return Err(DnsError::LabelOverrun);
            }
            proof {
                lemma_pointer_offset(b, buf[at + 1]);
            }
            let target = (((b & 0x3F) as u16) << 8 | (buf[at + 1] as u16)) as usize;
            if target >= at || jumps == 0 {
                return Err(DnsError::PointerOffsetInvalid);
            }
            let (suffix, _) = parse_name(buf, target, at, jumps - 1)?;
            name.append(suffix.as_str());
            return finish_name(name, at + 2);
        }
        let len = b as usize;
        if len >= buf.len() - at {
            return Err(DnsError::LabelOverrun);
        }
        let stop = at + 1 + len;
        let ghost before = name@;
        let mut i: usize = at + 1;
        while i < stop
            invariant
                at + 1 <= i <= stop <= buf.len(),
                name@ == before + label_text(buf@.subrange(at + 1, i as int)),
            decreases stop - i,
        {
            name.push(buf[i] as char);
            assert(buf@.subrange(at + 1, i + 1) =~= buf@.subrange(at + 1, i as int).push(
                buf@[i as int],
            ));
            assert(name@ =~= before + label_text(buf@.subrange(at + 1, i + 1)));
            i += 1;
        }
        name.push('.');
        proof {
            let label = label_text(buf@.subrange(at + 1, stop as int)).push('.');
            assert(name@ =~= before + label);
            lemma_with_prefix_twice(before, label, decode_labels(buf@, stop as int, jumps as nat));
        }
        at = stop;
    }
    Err(DnsError::LabelOverrun)
}

/// Parses the domain name at `start` of a raw DNS message, following
/// compression pointers, and returns it with the position after it.
pub fn parse_domain_name(buf: &Vec<u8>, start: usize, limit: usize) -> (r: Result<
    (String, usize),
    DnsError,
>)
    ensures
        parsed_text(r) == decode_name(buf@, start as int, limit as int),
        r matches Ok((_, end)) ==> start < end <= buf.len(),
{
    proof {
        lemma_decode_name_end(buf@, start as int, limit as int);
    }
    parse_name(buf, start, limit, buf.len())
}

// ---------------------------------------------------------------------------
// Encoding
// ---------------------------------------------------------------------------

/// The bytes of a label's text: each character by its code.
pub open spec fn label_wire(label: Seq<char>) -> Seq<u8> {
    label.map_values(|c: char| c as u8)
}

/// A compression pointer to `offset`: the two high bits set, then the low
/// fourteen bits of the offset, big-endian.
pub open spec fn pointer_wire(offset: u16) -> Seq<u8> {
    seq![(0xC0 + (offset / 256) % 64) as u8, (offset % 256) as u8]
}

/// The largest offset that a compression pointer can hold.
pub const MAX_POINTER_OFFSET: usize = 0x3FFF;

/// `table` after `name` was written at `pos`: the name is recorded where a
/// pointer can reach `pos`.
pub open spec fn with_offset(table: Map<Seq<char>, u16>, name: Seq<char>, pos: int) -> Map<
    Seq<char>,
    u16,
> {
    if pos <= MAX_POINTER_OFFSET {
        table.insert(name, pos as u16)
    } else {
        table
    }
}

/// The bytes that a valid name takes when it is written at `pos` of a message
/// whose earlier names are recorded in `table`: label after label, until the
/// rest of the name is found in the table and a pointer ends the name, or
/// until the name ends with the zero byte.
pub open spec fn name_wire(name: Seq<char>, pos: int, table: Map<Seq<char>, u16>) -> Seq<u8>
    decreases name.len(),
{
    if name.len() == 0 || name == seq!['.'] {
        seq![0u8]
    } else if table.contains_key(name) {
        pointer_wire(table[name])
    } else {
        let d = first_dot(name);
        if 0 <= d < name.len() {
            seq![d as u8] + label_wire(name.take(d)) + name_wire(
                name.skip(d + 1),
                pos + 1 + d,
                with_offset(table, name, pos),
            )
        } else {
            Seq::<u8>::empty()
        }
    }
}

/// The table after a valid name was written at `pos`: each suffix of the name
/// that was written out in full is recorded with its position.
pub open spec fn offsets_after_name(
    name: Seq<char>,
    pos: int,
    table: Map<Seq<char>, u16>,
) -> Map<Seq<char>, u16>
    decreases name.len(),
{
    if name.len() == 0 || name == seq!['.'] {
        table
    } else if table.contains_key(name) {
        table
    } else {
        let d = first_dot(name);
        if 0 <= d < name.len() {
            offsets_after_name(name.skip(d + 1), pos + 1 + d, with_offset(table, name, pos))
        } else {
            table
        }
    }
}

proof fn lemma_pointer_high_bits(offset: u16)
    by (bit_vector)
    ensures
        (((offset >> 8) & 0x3F) as u8) == ((offset / 256) % 64) as u8,
{
}

proof fn lemma_low_byte_bits(offset: u16)
    by (bit_vector)
    ensures
        ((offset & 0xFF) as u8) == (offset % 256) as u8,
{
}

proof fn lemma_pointer_tag_bits(x: u8)
    by (bit_vector)
    requires
        x < 64,
    ensures
        (x | 0xC0) == 0xC0 + x,
{
}

/// Appends the wire form of `domain_name` to `buf`, whose first byte stands
/// at offset `start` of the message, using and extending the table of the
/// names written so far.
pub fn serialize_domain_name_at(
    domain_name: &String,
    buf: &mut Vec<u8>,
    start: usize,
    domain_name_offsets: &mut NameOffsets,
) -> (r: Result<(), DnsError>)
    ensures
        valid_name(domain_name@) ==> {
            &&& r == Ok::<(), DnsError>(())
            &&& final(buf)@ == old(buf)@ + name_wire(
                domain_name@,
                start + old(buf)@.len(),
                old(domain_name_offsets)@,
            )
            &&& final(domain_name_offsets)@ == offsets_after_name(
                domain_name@,
                start + old(buf)@.len(),
                old(domain_name_offsets)@,
            )
        },
        !valid_name(domain_name@) ==> {
            &&& r == Err::<(), DnsError>(DnsError::InvalidDomainName)
            &&& final(buf)@ == old(buf)@
            &&& final(domain_name_offsets)@ == old(domain_name_offsets)@
        },
{
    if !is_domain_name_valid(domain_name) {
        return Err(DnsError::InvalidDomainName);
    }
    let text = domain_name.as_str();
    let bytes = text.as_bytes();
    let n = bytes.len();
    let ghost s = domain_name@;
    let ghost pos0 = start + old(buf)@.len();
    let ghost table0 = old(domain_name_offsets)@;
    proof {
        lemma_valid_name_is_ascii(s);
        is_ascii_spec_bytes(text);
        assert(bytes@.len() == s.len());
        assert(forall|j: int| 0 <= j < s.len() ==> #[trigger] bytes@[j] == s[j] as u8);
    }
    if n == 1 {
        proof {
            if s != seq!['.'] {
                lemma_first_dot(s);
            }
        }
        buf.push(0);
        return Ok(());
    }
    proof {
        if s == seq!['.'] {
            assert(s.len() == 1);
        }
        assert(s.skip(0) =~= s);
        assert(buf@ + name_wire(s, pos0, table0) =~= old(buf)@ + name_wire(s, pos0, table0));
    }
    let mut i: usize = 0;
    while i < n
        invariant
            i <= n,
            n == s.len(),
            n == bytes@.len(),
            s == domain_name@,
            pos0 == start + old(buf)@.len(),
            table0 == old(domain_name_offsets)@,
            valid_name(s),
            text@ == s,
            text.is_ascii(),
            forall|j: int| 0 <= j < s.len() ==> #[trigger] bytes@[j] == s[j] as u8,
            valid_labels(s.skip(i as int)),
            old(buf)@ + name_wire(s, pos0, table0) == buf@ + name_wire(
                s.skip(i as int),
                start + buf@.len(),
                domain_name_offsets@,
            ),
            offsets_after_name(s, pos0, table0) == offsets_after_name(
                s.skip(i as int),
                start + buf@.len(),
                domain_name_offsets@,
            ),
        decreases n - i,
    {
        let ghost rest = s.skip(i as int);
        let ghost pos = start + buf@.len();
        let ghost table = domain_name_offsets@;
        let ghost written = buf@;
        let key = text.substring_ascii(i, n).to_owned();
        proof {
            assert(key@ =~= rest);
            lemma_first_dot(rest);
            assert(rest != seq!['.']);
        }
        match domain_name_offsets.get(&key) {
            Some(offset) => {
                let high = ((offset >> 8) & 0x3F) as u8;
                proof {
                    lemma_pointer_high_bits(offset);
                    lemma_low_byte_bits(offset);
                    lemma_pointer_tag_bits(high);
                }
                buf.push(high | 0xC0);
                buf.push((offset & 0xFF) as u8);
                assert(buf@ =~= written + pointer_wire(offset));
                return Ok(());
            },
            None => {},
        }
        let mut end: usize = i;
        while bytes[end] != 0x2e
            invariant
                i <= end < n,
                n == s.len(),
                n == bytes@.len(),
                rest == s.skip(i as int),
                first_dot(rest) < rest.len(),
                forall|j: int| 0 <= j < first_dot(rest) ==> #[trigger] rest[j] != '.',
                rest[first_dot(rest)] == '.',
                forall|j: int| 0 <= j < s.len() ==> #[trigger] bytes@[j] == s[j] as u8,
                forall|j: int| 0 <= j < s.len() ==> '\0' <= #[trigger] s[j] <= '\u{7f}',
                forall|j: int| i <= j < end ==> s[j] != '.',
                end - i <= first_dot(rest),
            decreases n - end,
        {
            proof {
                assert(s[end as int] != '.');
                assert(rest[end - i] == s[end as int]);
            }
            end += 1;
        }
        let len = end - i;
        proof {
            assert(s[end as int] == '.');
            assert(rest[end - i] == s[end as int]);
            assert(first_dot(rest) == len) by {
                if first_dot(rest) > len {
                    assert(rest[len as int] != '.');
                }
            }
            assert(rest.take(len as int).len() == len);
        }
        match start.checked_add(buf.len()) {
            Some(position) => {
                if position <= MAX_POINTER_OFFSET {
                    domain_name_offsets.insert(key, position as u16);
                }
            },
            None => {},
        }
        buf.push(len as u8);
        let mut j: usize = i;
        while j < end
            invariant
                i <= j <= end < n,
                n == s.len(),
                n == bytes@.len(),
                rest == s.skip(i as int),
                forall|j: int| 0 <= j < s.len() ==> #[trigger] bytes@[j] == s[j] as u8,
                buf@ == written.push((end - i) as u8) + label_wire(rest.take(j - i)),
            decreases end - j,
        {
            buf.push(bytes[j]);
            proof {
                assert(rest.take(j - i + 1) =~= rest.take(j - i).push(s[j as int]));
                assert(buf@ =~= written.push((end - i) as u8) + label_wire(rest.take(j - i + 1)));
            }
            j += 1;
        }
        proof {
            assert(rest.skip(len + 1) =~= s.skip(end + 1));
            let tail = name_wire(rest.skip(len + 1), pos + 1 + len, with_offset(table, rest, pos));
            assert(name_wire(rest, pos, table) == seq![len as u8] + label_wire(
                rest.take(len as int),
            ) + tail);
            assert(written + (seq![len as u8] + label_wire(rest.take(len as int)) + tail) =~= (
            written.push(len as u8) + label_wire(rest.take(len as int))) + tail);
        }
        i = end + 1;
    }
    proof {
        assert(s.skip(n as int) =~= Seq::<char>::empty());
    }
    buf.push(0);
    Ok(())
}

/// Appends the wire form of `domain_name` to `buf`, which holds the message
/// from its first byte on, using and extending the table of the names written
/// so far.
pub fn serialize_domain_name(
    domain_name: &String,
    buf: &mut Vec<u8>,
    domain_name_offsets: &mut NameOffsets,
) -> (r: Result<(), DnsError>)
    ensures
        valid_name(domain_name@) ==> {
            &&& r == Ok::<(), DnsError>(())
            &&& final(buf)@ == old(buf)@ + name_wire(
                domain_name@,
                old(buf)@.len() as int,
                old(domain_name_offsets)@,
            )
            &&& final(domain_name_offsets)@ == offsets_after_name(
                domain_name@,
                old(buf)@.len() as int,
                old(domain_name_offsets)@,
            )
        },
        !valid_name(domain_name@) ==> {
            &&& r == Err::<(), DnsError>(DnsError::InvalidDomainName)
            &&& final(buf)@ == old(buf)@
            &&& final(domain_name_offsets)@ == old(domain_name_offsets)@
        },
{
    serialize_domain_name_at(domain_name, buf, 0, domain_name_offsets)
}

/// `String::push` of std: the character is appended at the end of the string.
pub assume_specification[ String::push ](s: &mut String, ch: char)
    ensures
        final(s)@ == old(s)@.push(ch),
;

} // verus!

//! MongoDB-style object ids: 12 bytes written as 24 lowercase hex digits.
//!
//! The bytes are a 4-byte big-endian unix timestamp in seconds, a 3-byte
//! machine id drawn once, a 2-byte big-endian process id, and a 3-byte
//! big-endian counter seeded at random and advanced once per id.

use vstd::prelude::*;
use vstd::string::StringSliceAdditionalSpecFns;
use std::time::{Duration, SystemTime, UNIX_EPOCH};

use crate::loot::random_util::random_u32_inclusive;
use crate::strings::push_char;

verus! {

/// A byte is an ASCII hex digit, of either case.
pub open spec fn is_hex_byte(b: u8) -> bool {
    (48 <= b <= 57) || (65 <= b <= 70) || (97 <= b <= 102)
}

/// The bytes of a text that reads as an object id: 24 hex digits.
pub open spec fn is_id_text(bytes: Seq<u8>) -> bool {
    &&& bytes.len() == 24
    &&& forall|i: int| 0 <= i < bytes.len() ==> #[trigger] is_hex_byte(bytes[i])
}

/// Reports whether `s` is 24 hex digits of either case, the text form an object
/// id is accepted in.
pub fn is_valid(s: &str) -> (valid: bool)
    ensures
        valid == is_id_text(s.spec_bytes()),
{
    let bytes = s.as_bytes();
    if bytes.len() != 24 {
        return false;
    }
    let mut i: usize = 0;
    while i < bytes.len()
        invariant
            bytes@ == s.spec_bytes(),
            i <= bytes@.len(),
            forall|k: int| 0 <= k < i ==> #[trigger] is_hex_byte(bytes@[k]),
        decreases bytes@.len() - i,
    {
        let b = bytes[i];
        if !((48 <= b && b <= 57) || (65 <= b && b <= 70) || (97 <= b && b <= 102)) {
            assert(!is_hex_byte(bytes@[i as int]));
            return false;
        }
        i += 1;
    }
    true
}

/// The lowercase hex digit of `n` (below 16).
pub open spec fn hex_digit(n: int) -> char {
    if n < 10 {
        (48 + n) as char
    } else {
        (87 + n) as char
    }
}

/// Each byte as two lowercase hex digits, high nibble first.
pub open spec fn hex_lower(bytes: Seq<u8>) -> Seq<char>
    decreases bytes.len(),
{
    if bytes.len() == 0 {
        Seq::empty()
    } else {
        hex_lower(bytes.drop_last()) + seq![
            hex_digit(bytes.last() as int / 16),
            hex_digit(bytes.last() as int % 16),
        ]
    }
}

/// The 12 bytes of an id: big-endian timestamp, the low three bytes of the
/// machine id, big-endian process id, the low three bytes of the counter.
pub open spec fn id_bytes(timestamp: u32, machine: u32, process_id: u16, counter: u32) -> Seq<u8> {
    seq![
        (timestamp / 0x100_0000 % 0x100) as u8,
        (timestamp / 0x1_0000 % 0x100) as u8,
        (timestamp / 0x100 % 0x100) as u8,
        (timestamp % 0x100) as u8,
        (machine / 0x1_0000 % 0x100) as u8,
        (machine / 0x100 % 0x100) as u8,
        (machine % 0x100) as u8,
        (process_id / 0x100 % 0x100) as u8,
        (process_id % 0x100) as u8,
        (counter / 0x1_0000 % 0x100) as u8,
        (counter / 0x100 % 0x100) as u8,
        (counter % 0x100) as u8,
    ]
}

/// The text of the id made at `timestamp` by a generator in the given state.
pub open spec fn id_text(timestamp: u32, machine: u32, process_id: u16, counter: u32) -> Seq<char> {
    hex_lower(id_bytes(timestamp, machine, process_id, counter % 0x100_0000))
}

/// The counter after one id: one more, wrapping at `u32::MAX`.
pub open spec fn next_counter(counter: u32) -> u32 {
    if counter == u32::MAX { 0 } else { (counter + 1) as u32 }
}

/// A character is a lowercase hex digit.
pub open spec fn is_lower_hex_char(c: char) -> bool {
    ('0' <= c <= '9') || ('a' <= c <= 'f')
}

/// The source of fresh ids: the machine id and the counter are drawn once, the
/// process id is given, and every id takes the clock's current second.
pub struct MongoIdGenerator {
    pub machine: u32,
    pub counter: u32,
    pub process_id: u16,
}

/// `SystemTime`, a reading of the system clock.
#[verifier::external_type_specification]
#[verifier::external_body]
pub struct ExSystemTime(SystemTime);

/// `SystemTime::now`: the current reading of the system clock. It depends on
/// the time alone, so nothing is said of it.
#[verifier::external_body]
fn system_time_now() -> SystemTime {
    SystemTime::now()
}

/// `SystemTime::duration_since(UNIX_EPOCH)`: how long after the unix epoch the
/// reading lies, or `None` when it lies before it. Nothing is said of which.
#[verifier::external_body]
fn since_unix_epoch(t: &SystemTime) -> Option<Duration> {
    t.duration_since(UNIX_EPOCH).ok()
}

/// `Duration::as_secs`: whole seconds of a duration, which this library cannot
/// see into, so nothing is said of the value.
#[verifier::external_body]
fn whole_seconds(d: &Duration) -> u64 {
    d.as_secs()
}

impl MongoIdGenerator {
    /// A generator for the given process, with the machine id drawn from
    /// `0..=0xFF_FFFF` and the counter from `0..0xFF_FFFF`.
    pub fn new(process_id: u16) -> (g: Self)
        ensures
            g.process_id == process_id,
            g.machine <= 0xFF_FFFF,
            g.counter < 0xFF_FFFF,
    {
        let machine = random_u32_inclusive(0, 0xFF_FFFF);
        let counter = random_u32_inclusive(0, 0xFF_FFFE);
        MongoIdGenerator { machine, counter, process_id }
    }

    /// The id stamped with `timestamp`, after which the counter moves on by one.
    pub fn generate_at(&mut self, timestamp: u32) -> (id: String)
        ensures
            id@ == id_text(timestamp, old(self).machine, old(self).process_id, old(self).counter),
            final(self).machine == old(self).machine,
            final(self).process_id == old(self).process_id,
            final(self).counter == next_counter(old(self).counter),
    {
        let increment = self.counter % 0x100_0000;
        self.counter = if self.counter == u32::MAX { 0 } else { self.counter + 1 };
        let machine = self.machine;
        let process_id = self.process_id;

        let mut bytes: Vec<u8> = Vec::new();
        bytes.push((timestamp / 0x100_0000 % 0x100) as u8);
        bytes.push((timestamp / 0x1_0000 % 0x100) as u8);
        bytes.push((timestamp / 0x100 % 0x100) as u8);
        bytes.push((timestamp % 0x100) as u8);
        bytes.push((machine / 0x1_0000 % 0x100) as u8);
        bytes.push((machine / 0x100 % 0x100) as u8);
        bytes.push((machine % 0x100) as u8);
        bytes.push((process_id / 0x100 % 0x100) as u8);
        bytes.push((process_id % 0x100) as u8);
        bytes.push((increment / 0x1_0000 % 0x100) as u8);
        bytes.push((increment / 0x100 % 0x100) as u8);
        bytes.push((increment % 0x100) as u8);
        assert(bytes@ =~= id_bytes(timestamp, machine, process_id, increment));

        let mut id = String::new();
        let mut i: usize = 0;
        while i < bytes.len()
            invariant
                i <= bytes@.len(),
                id@ == hex_lower(bytes@.take(i as int)),
            decreases bytes@.len() - i,
        {
            let b = bytes[i];
            push_char(&mut id, hex_char(b / 16));
            push_char(&mut id, hex_char(b % 16));
            assert(bytes@.take(i + 1).drop_last() =~= bytes@.take(i as int));
            i += 1;
        }
        assert(bytes@.take(bytes@.len() as int) =~= bytes@);
        id
    }

    /// A fresh id stamped with the current unix time in seconds (0 when the
    /// clock reads before the epoch; truncated to 32 bits), after which the
    /// counter moves on by one.
    pub fn generate(&mut self) -> (id: String)
        ensures
            exists|timestamp: u32|
                id@ == #[trigger] id_text(timestamp, old(self).machine, old(self).process_id, old(self).counter),
            final(self).machine == old(self).machine,
            final(self).process_id == old(self).process_id,
            final(self).counter == next_counter(old(self).counter),
    {
        let now = system_time_now();
        let timestamp: u32 = match since_unix_epoch(&now) {
            Some(elapsed) => (whole_seconds(&elapsed) % 0x1_0000_0000) as u32,
            None => 0,
        };
        self.generate_at(timestamp)
    }
}

/// The counter after `n` ids.
pub open spec fn advance(counter: u32, n: nat) -> u32
    decreases n,
{
    if n == 0 {
        counter
    } else {
        next_counter(advance(counter, (n - 1) as nat))
    }
}

/// `fresh` are ids a generator in state `g` hands out, in order: the `i`-th is
/// stamped with some second and the counter as it stands after `i` ids.
pub open spec fn handed_out(g: MongoIdGenerator, fresh: Seq<Seq<char>>) -> bool {
    forall|i: int| 0 <= i < fresh.len() ==> #[trigger] nth_id(g, fresh[i], i as nat)
}

/// `id` is the id a generator in state `g` hands out `n`-th, stamped with some
/// second.
pub open spec fn nth_id(g: MongoIdGenerator, id: Seq<char>, n: nat) -> bool {
    exists|ts: u32| id == #[trigger] id_text(ts, g.machine, g.process_id, advance(g.counter, n))
}

/// The generator state after `n` ids from `g`.
pub open spec fn advanced(g: MongoIdGenerator, n: nat) -> MongoIdGenerator {
    MongoIdGenerator { machine: g.machine, counter: advance(g.counter, n), process_id: g.process_id }
}

/// The lowercase hex digit of `n` (below 16).
fn hex_char(n: u8) -> (c: char)
    requires
        n < 16,
    ensures
        c == hex_digit(n as int),
{
    if n < 10 {
        (48u8 + n) as char
    } else {
        (87u8 + n) as char
    }
}

/// Every id text is 24 lowercase hex digits.
pub proof fn lemma_id_text_is_lower_hex(timestamp: u32, machine: u32, process_id: u16, counter: u32)
    ensures
        id_text(timestamp, machine, process_id, counter).len() == 24,
        forall|i: int|
            0 <= i < 24 ==> #[trigger] is_lower_hex_char(id_text(timestamp, machine, process_id, counter)[i]),
{
    lemma_hex_lower_digits(id_bytes(timestamp, machine, process_id, counter % 0x100_0000));
}

/// Hex text is two lowercase hex digits per byte.
proof fn lemma_hex_lower_digits(bytes: Seq<u8>)
    ensures
        hex_lower(bytes).len() == 2 * bytes.len(),
        forall|i: int| 0 <= i < hex_lower(bytes).len() ==> #[trigger] is_lower_hex_char(hex_lower(bytes)[i]),
    decreases bytes.len(),
{
    if bytes.len() > 0 {
        lemma_hex_lower_digits(bytes.drop_last());
        let b = bytes.last() as int;
        assert(is_lower_hex_char(hex_digit(b / 16)));
        assert(is_lower_hex_char(hex_digit(b % 16)));
    }
}

/// Every generated id is accepted by [`is_valid`]: a text whose characters
/// are an id text reads as 24 hex digits.
pub proof fn lemma_generated_ids_are_valid(s: &str, timestamp: u32, machine: u32, process_id: u16, counter: u32)
    requires
        s@ == id_text(timestamp, machine, process_id, counter),
    ensures
        is_id_text(s.spec_bytes()),
{
    lemma_id_text_is_lower_hex(timestamp, machine, process_id, counter);
    assert forall|i: int| 0 <= i < s@.len() implies '\0' <= #[trigger] s@[i] <= '\u{7f}' by {
        assert(is_lower_hex_char(s@[i]));
    }
    assert(vstd::string::is_ascii(s));
    vstd::string::is_ascii_spec_bytes(s);
    assert forall|i: int| 0 <= i < s.spec_bytes().len() implies #[trigger] is_hex_byte(s.spec_bytes()[i]) by {
        assert(is_lower_hex_char(s@[i]));
    }
}


/// Positions `2k` and `2k + 1` of hex text hold the two digits of byte `k`.
proof fn lemma_hex_lower_at(bytes: Seq<u8>, k: int)
    requires
        0 <= k < bytes.len(),
    ensures
        hex_lower(bytes).len() == 2 * bytes.len(),
        hex_lower(bytes)[2 * k] == hex_digit(bytes[k] as int / 16),
        hex_lower(bytes)[2 * k + 1] == hex_digit(bytes[k] as int % 16),
    decreases bytes.len(),
{
    lemma_hex_lower_digits(bytes);
    let init = bytes.drop_last();
    lemma_hex_lower_digits(init);
    if k < bytes.len() - 1 {
        lemma_hex_lower_at(init, k);
    }
}

/// Different digit values below 16 have different hex digits.
proof fn lemma_hex_digit_injective(a: int, b: int)
    requires
        0 <= a < 16,
        0 <= b < 16,
        hex_digit(a) == hex_digit(b),
    ensures
        a == b,
{
    assert(hex_digit(a) as int == if a < 10 { 48 + a } else { 87 + a });
    assert(hex_digit(b) as int == if b < 10 { 48 + b } else { 87 + b });
}


/// A value below 2^24 is its three low bytes, most significant first.
proof fn lemma_three_bytes(x: u32)
    requires
        x < 0x100_0000,
    ensures
        x == (x / 0x1_0000 % 0x100) * 0x1_0000 + (x / 0x100 % 0x100) * 0x100 + x % 0x100,
{
    assert(x < 0x100_0000 ==> x == (x / 0x1_0000 % 0x100) * 0x1_0000 + (x / 0x100 % 0x100) * 0x100 + x % 0x100)
        by (bit_vector);
}

/// Equal id texts have equal bytes at `k`.
proof fn lemma_same_text_same_byte(b1: Seq<u8>, b2: Seq<u8>, k: int)
    requires
        b1.len() == b2.len(),
        0 <= k < b1.len(),
        hex_lower(b1) == hex_lower(b2),
    ensures
        b1[k] == b2[k],
{
    lemma_hex_lower_at(b1, k);
    lemma_hex_lower_at(b2, k);
    lemma_hex_digit_injective(b1[k] as int / 16, b2[k] as int / 16);
    lemma_hex_digit_injective(b1[k] as int % 16, b2[k] as int % 16);
}

/// Two ids whose counters differ in their low 24 bits differ, whatever
/// seconds they are stamped with: the ids of one generator do not repeat
/// before its counter has come round.
pub proof fn lemma_ids_differ_with_the_counter(t1: u32, t2: u32, machine: u32, process_id: u16, c1: u32, c2: u32)
    requires
        c1 % 0x100_0000 != c2 % 0x100_0000,
    ensures
        id_text(t1, machine, process_id, c1) != id_text(t2, machine, process_id, c2),
{
    let x1 = c1 % 0x100_0000;
    let x2 = c2 % 0x100_0000;
    let b1 = id_bytes(t1, machine, process_id, x1);
    let b2 = id_bytes(t2, machine, process_id, x2);
    if hex_lower(b1) == hex_lower(b2) {
        lemma_same_text_same_byte(b1, b2, 9);
        lemma_same_text_same_byte(b1, b2, 10);
        lemma_same_text_same_byte(b1, b2, 11);
        lemma_three_bytes(x1);
        lemma_three_bytes(x2);
        assert(x1 == x2);
    }
}


/// After `n` ids the counter has moved on by `n`, wrapping at 2^32.
proof fn lemma_advance_wraps(counter: u32, n: nat)
    ensures
        advance(counter, n) as int == (counter + n) % 0x1_0000_0000,
    decreases n,
{
    if n > 0 {
        let m = (n - 1) as nat;
        lemma_advance_wraps(counter, m);
        let before = advance(counter, m) as int;
        let total = counter + n;
        vstd::arithmetic::div_mod::lemma_fundamental_div_mod(total - 1, 0x1_0000_0000);
        vstd::arithmetic::div_mod::lemma_fundamental_div_mod(total, 0x1_0000_0000);
        assert(before == (total - 1) % 0x1_0000_0000);
        if before == u32::MAX {
            assert((total - 1) / 0x1_0000_0000 + 1 == total / 0x1_0000_0000) by (nonlinear_arith)
                requires
                    total - 1 == 0x1_0000_0000 * ((total - 1) / 0x1_0000_0000) + 0xFFFF_FFFF,
                    total == 0x1_0000_0000 * (total / 0x1_0000_0000) + total % 0x1_0000_0000,
                    0 <= total % 0x1_0000_0000 < 0x1_0000_0000,
            ;
        } else {
            assert((total - 1) / 0x1_0000_0000 == total / 0x1_0000_0000) by (nonlinear_arith)
                requires
                    total - 1 == 0x1_0000_0000 * ((total - 1) / 0x1_0000_0000) + (total - 1) % 0x1_0000_0000,
                    (total - 1) % 0x1_0000_0000 < 0xFFFF_FFFF,
                    0 <= (total - 1) % 0x1_0000_0000,
                    total == 0x1_0000_0000 * (total / 0x1_0000_0000) + total % 0x1_0000_0000,
                    0 <= total % 0x1_0000_0000 < 0x1_0000_0000,
            ;
        }
    }
}

/// Two numbers less than `m` apart, and not equal, differ modulo `m`.
proof fn lemma_close_numbers_differ_mod(a: int, b: int, m: int)
    requires
        0 < m,
        a < b < a + m,
    ensures
        a % m != b % m,
{
    vstd::arithmetic::div_mod::lemma_fundamental_div_mod(a, m);
    vstd::arithmetic::div_mod::lemma_fundamental_div_mod(b, m);
    if a % m == b % m {
        assert(false) by (nonlinear_arith)
            requires
                a == m * (a / m) + a % m,
                b == m * (b / m) + b % m,
                a % m == b % m,
                0 < m,
                a < b < a + m,
        ;
    }
}

/// The ids a generator hands out are all different, as long as there are
/// no more than 2^24 of them.
pub proof fn lemma_handed_out_ids_are_distinct(g: MongoIdGenerator, fresh: Seq<Seq<char>>)
    requires
        handed_out(g, fresh),
        fresh.len() <= 0x100_0000,
    ensures
        forall|i: int, j: int| 0 <= i < j < fresh.len() ==> fresh[i] != fresh[j],
{
    assert forall|i: int, j: int| 0 <= i < j < fresh.len() implies fresh[i] != fresh[j] by {
        assert(nth_id(g, fresh[i], i as nat));
        assert(nth_id(g, fresh[j], j as nat));
        let t1 = choose|ts: u32| fresh[i] == #[trigger] id_text(ts, g.machine, g.process_id, advance(g.counter, i as nat));
        let t2 = choose|ts: u32| fresh[j] == #[trigger] id_text(ts, g.machine, g.process_id, advance(g.counter, j as nat));
        let ci = advance(g.counter, i as nat);
        let cj = advance(g.counter, j as nat);
        lemma_advance_wraps(g.counter, i as nat);
        lemma_advance_wraps(g.counter, j as nat);
        vstd::arithmetic::div_mod::lemma_mod_mod(g.counter + i, 0x100_0000, 0x100);
        vstd::arithmetic::div_mod::lemma_mod_mod(g.counter + j, 0x100_0000, 0x100);
        lemma_close_numbers_differ_mod(g.counter + i, g.counter + j, 0x100_0000);
        lemma_ids_differ_with_the_counter(t1, t2, g.machine, g.process_id, ci, cj);
    }
}


/// Moving the counter on by `a` ids and then by `b` is moving it on by `a + b`.
pub proof fn lemma_advance_adds(counter: u32, a: nat, b: nat)
    ensures
        advance(advance(counter, a), b) == advance(counter, a + b),
    decreases b,
{
    if b > 0 {
        lemma_advance_adds(counter, a, (b - 1) as nat);
        assert(advance(counter, a + b) == next_counter(advance(counter, (a + b - 1) as nat)));
    }
}

} // verus!

//! A corpus made from a seed, with the sizes of real store paths: many small
//! ones, a fat tail, and some that do not compress. The same seed gives the
//! same corpus on every machine, so that results can be compared.

use vstd::prelude::*;
use vstd::string::*;
use vstd::utf8::{encode_utf8, is_char_boundary};

use crate::nix_base32::alphabet;
use crate::number::{decimal, show};
use crate::text::{from_range, to_chars};

verus! {

/// The state behind `x` in the sequence of states.
pub open spec fn next_state(x: u64) -> u64 {
    let a = x ^ (x >> 12);
    let b = a ^ (a << 25);
    b ^ (b >> 27)
}

/// The number that comes with a state.
pub open spec fn number_at(x: u64) -> u64 {
    x.wrapping_mul(0x2545F4914F6CDD1D)
}

/// The first state for a seed.
pub open spec fn first_state(seed: u64) -> u64 {
    if seed == 0 {
        1
    } else {
        seed
    }
}

/// The generator never reaches the state that it could not leave.
pub proof fn states_stay_alive(x: u64)
    requires
        x != 0,
    ensures
        next_state(x) != 0,
{
    let a = x ^ (x >> 12);
    let b = a ^ (a << 25);
    let c = b ^ (b >> 27);
    assert(x != 0 ==> x ^ (x >> 12) != 0) by (bit_vector);
    assert(a != 0 ==> a ^ (a << 25) != 0) by (bit_vector);
    assert(b != 0 ==> b ^ (b >> 27) != 0) by (bit_vector);
}

/// xorshift64*: reproducible everywhere, which is all that is asked of it.
pub struct Rng {
    /// Never zero.
    pub state: u64,
}

impl Rng {
    /// The generator has a state to go on from.
    pub open spec fn wf(self) -> bool {
        self.state != 0
    }

    /// A generator for a seed.
    pub fn new(seed: u64) -> (r: Self)
        ensures
            r.wf(),
            r.state == first_state(seed),
    {
        Rng {
            state: if seed == 0 {
                1
            } else {
                seed
            },
        }
    }

    /// The next number.
    pub fn next_u64(&mut self) -> (r: u64)
        requires
            old(self).wf(),
        ensures
            final(self).wf(),
            final(self).state == next_state(old(self).state),
            r == number_at(final(self).state),
    {
        proof {
            states_stay_alive(self.state);
        }
        let mut x: u64 = self.state;
        x = x ^ (x >> 12);
        x = x ^ (x << 25);
        x = x ^ (x >> 27);
        self.state = x;
        x.wrapping_mul(0x2545F4914F6CDD1D)
    }

    /// A number below `n`, or 0 where there is none.
    pub fn below(&mut self, n: u64) -> (r: u64)
        requires
            old(self).wf(),
        ensures
            final(self).wf(),
            n == 0 ==> r == 0 && final(self).state == old(self).state,
            n > 0 ==> final(self).state == next_state(old(self).state) && r == number_at(
                final(self).state,
            ) % n,
    {
        if n == 0 {
            0
        } else {
            self.next_u64() % n
        }
    }
}

/// One path of a corpus.
#[derive(Debug, Clone, PartialEq, Eq)]
pub struct Entry {
    /// Store path hash.
    pub hash: String,
    /// Store path name.
    pub name: String,
    /// Bytes of its body.
    pub size: usize,
    /// From 0, which does not compress, to 100, which compresses to nothing.
    pub compressibility: u8,
}

/// What an [`Entry`] holds.
#[verifier::ext_equal]
pub struct EntryView {
    /// Store path hash.
    pub hash: Seq<char>,
    /// Store path name.
    pub name: Seq<char>,
    /// Bytes of its body.
    pub size: usize,
    /// From 0 to 100.
    pub compressibility: u8,
}

impl View for Entry {
    type V = EntryView;

    open spec fn view(&self) -> EntryView {
        EntryView {
            hash: self.hash@,
            name: self.name@,
            size: self.size,
            compressibility: self.compressibility,
        }
    }
}

/// What a corpus holds.
pub open spec fn entries(v: Seq<Entry>) -> Seq<EntryView> {
    v.map_values(|e: Entry| e@)
}

/// The lowest `n` bytes of `x`, the lowest first.
pub open spec fn low_bytes(x: int, n: nat) -> Seq<u8>
    decreases n,
{
    if n == 0 {
        Seq::empty()
    } else {
        seq![(x % 256) as u8] + low_bytes(x / 256, (n - 1) as nat)
    }
}

/// How many bytes one step of a body adds at most: a run of one letter, which
/// compresses, or a random number, which does not.
pub open spec fn step_len(compresses: bool) -> int {
    if compresses {
        64
    } else {
        8
    }
}

/// The step from `state` on is a run of one letter.
pub open spec fn compresses_at(state: u64, compressibility: u8) -> bool {
    number_at(next_state(state)) % 100 < compressibility
}

/// The bytes of one whole step.
pub open spec fn step_bytes(state: u64, compressibility: u8) -> Seq<u8> {
    if compresses_at(state, compressibility) {
        Seq::new(64, |i: int| 97u8)
    } else {
        low_bytes(number_at(next_state(next_state(state))) as int, 8)
    }
}

/// The state behind one step.
pub open spec fn step_state(state: u64, compressibility: u8) -> u64 {
    if compresses_at(state, compressibility) {
        next_state(state)
    } else {
        next_state(next_state(state))
    }
}

/// The shorter of a step and what is left.
pub open spec fn step_take(state: u64, left: int, compressibility: u8) -> int {
    let whole = step_len(compresses_at(state, compressibility));
    if whole <= left {
        whole
    } else {
        left
    }
}

/// `left` bytes, drawn from `state` on.
pub open spec fn filling(state: u64, left: int, compressibility: u8) -> Seq<u8>
    decreases left,
{
    if left <= 0 {
        Seq::empty()
    } else {
        let n = step_take(state, left, compressibility);
        step_bytes(state, compressibility).take(n) + filling(
            step_state(state, compressibility),
            left - n,
            compressibility,
        )
    }
}

/// A body has the length that it was asked for.
pub proof fn filling_length(state: u64, left: int, compressibility: u8)
    requires
        left >= 0,
    ensures
        filling(state, left, compressibility).len() == left,
    decreases left,
{
    if left > 0 {
        let n = step_take(state, left, compressibility);
        filling_length(step_state(state, compressibility), left - n, compressibility);
        reveal_with_fuel(low_bytes, 9);
    }
}

/// The value of a digit of base 32, as numbers write it.
pub open spec fn radix_digit(b: u8) -> Option<int> {
    if 48 <= b <= 57 {
        Some(b - 48)
    } else if 97 <= b <= 118 {
        Some(b - 87)
    } else if 65 <= b <= 86 {
        Some(b - 55)
    } else {
        None
    }
}

/// The number that `digits` write in base 32.
pub open spec fn radix_value(digits: Seq<u8>) -> Option<int>
    decreases digits.len(),
{
    if digits.len() == 0 {
        Some(0)
    } else {
        match (radix_value(digits.drop_last()), radix_digit(digits.last())) {
            (Some(n), Some(d)) => Some(n * 32 + d),
            _ => None,
        }
    }
}

/// The digits of a number that may have a sign in front.
pub open spec fn unsigned_part(text: Seq<u8>) -> Seq<u8> {
    if text.len() > 1 && text[0] == 43 {
        text.skip(1)
    } else {
        text
    }
}

/// The seed that the start of a hash stands for; 1 where it is no number of
/// base 32, or none that fits.
pub open spec fn hash_seed(hash: Seq<char>) -> u64 {
    let text = unsigned_part(encode_utf8(hash).take(16));
    match radix_value(text) {
        Some(n) if n <= u64::MAX => n as u64,
        _ => 1,
    }
}

/// The hash can be cut behind 16 bytes.
pub open spec fn has_seed(hash: Seq<char>) -> bool {
    &&& encode_utf8(hash).len() >= 16
    &&& is_char_boundary(encode_utf8(hash), 16)
}

/// A number too large stays too large.
proof fn radix_grows(digits: Seq<u8>, from: int)
    requires
        0 <= from <= digits.len(),
        radix_value(digits.take(from)) is None || radix_value(digits.take(from))->0 > u64::MAX,
    ensures
        radix_value(digits) is None || radix_value(digits)->0 > u64::MAX,
    decreases digits.len() - from,
{
    if from == digits.len() {
        assert(digits.take(from) =~= digits);
    } else {
        assert(digits.take(from + 1).drop_last() =~= digits.take(from));
        radix_grows(digits, from + 1);
    }
}

fn read_digit(b: u8) -> (r: Option<u64>)
    ensures
        match r {
            Some(d) => radix_digit(b) == Some(d as int) && d < 32,
            None => radix_digit(b) is None,
        },
{
    if 48 <= b && b <= 57 {
        Some((b - 48) as u64)
    } else if 97 <= b && b <= 118 {
        Some((b - 87) as u64)
    } else if 65 <= b && b <= 86 {
        Some((b - 55) as u64)
    } else {
        None
    }
}

fn read_seed(hash: &str) -> (r: u64)
    requires
        has_seed(hash@),
    ensures
        r == hash_seed(hash@),
{
    let all = hash.as_bytes();
    let from: usize = if all[0] == 43 {
        1
    } else {
        0
    };
    let ghost text = unsigned_part(encode_utf8(hash@).take(16));
    assert(text =~= all@.subrange(from as int, 16));
    let mut n: u64 = 0;
    let mut i: usize = from;
    assert(text.take(0) =~= Seq::<u8>::empty());
    while i < 16
        invariant
            from <= i <= 16,
            from <= 1,
            all@.len() >= 16,
            text == all@.subrange(from as int, 16),
            text == unsigned_part(encode_utf8(hash@).take(16)),
            radix_value(text.take(i - from)) == Some(n as int),
        decreases 16 - i,
    {
        let ghost k = i - from;
        assert(text.take(k + 1).drop_last() =~= text.take(k));
        assert(text.take(k + 1).last() == all@[i as int]);
        match read_digit(all[i]) {
            None => {
                proof {
                    radix_grows(text, k + 1);
                }
                return 1;
            },
            Some(d) => {
                if n > (u64::MAX - d) / 32 {
                    proof {
                        radix_grows(text, k + 1);
                    }
                    return 1;
                }
                n = n * 32 + d;
            },
        }
        i += 1;
    }
    assert(text.take(16 - from) =~= text);
    n
}

/// The body of an entry. The same entry has the same body, always.
pub open spec fn body_of(e: EntryView) -> Seq<u8> {
    filling(first_state(hash_seed(e.hash)), e.size as int, e.compressibility)
}

/// A body in the making, of which no more is held than is asked for.
pub struct Filler {
    rng: Rng,
    left: usize,
    compressibility: u8,
    held: Vec<u8>,
}

impl Filler {
    /// The fields fit together.
    pub closed spec fn wf(self) -> bool {
        self.rng.wf() && self.held@.len() + self.left <= usize::MAX
    }

    /// What has not been handed out yet.
    pub closed spec fn rest(self) -> Seq<u8> {
        self.held@ + filling(self.rng.state, self.left as int, self.compressibility)
    }

    /// The body of an entry, from its start.
    pub fn new(entry: &Entry) -> (r: Self)
        requires
            has_seed(entry.hash@),
        ensures
            r.wf(),
            r.rest() == body_of(entry@),
    {
        let r = Filler {
            rng: Rng::new(read_seed(entry.hash.as_str())),
            left: entry.size,
            compressibility: entry.compressibility,
            held: Vec::new(),
        };
        assert(r.rest() =~= body_of(entry@));
        r
    }

    fn step(&mut self)
        requires
            old(self).wf(),
            old(self).left > 0,
        ensures
            final(self).wf(),
            final(self).rest() == old(self).rest(),
            final(self).left < old(self).left,
            final(self).compressibility == old(self).compressibility,
    {
        let ghost state = self.rng.state;
        let ghost c = self.compressibility;
        let ghost before = self.held@;
        let ghost left = self.left as int;
        let ghost n = step_take(state, left, c);
        if self.rng.below(100) < self.compressibility as u64 {
            let run: usize = if self.left < 64 {
                self.left
            } else {
                64
            };
            let mut i: usize = 0;
            while i < run
                invariant
                    i <= run,
                    before.len() + run <= usize::MAX,
                    self.held@ == before + Seq::new(i as nat, |k: int| 97u8),
                    self.rng.wf(),
                    self.rng.state == next_state(state),
                    self.left == left,
                    self.compressibility == c,
                decreases run - i,
            {
                self.held.push(97);
                assert(self.held@ =~= before + Seq::new((i + 1) as nat, |k: int| 97u8));
                i += 1;
            }
            self.left = self.left - run;
            assert(step_bytes(state, c).take(n) =~= Seq::new(run as nat, |k: int| 97u8));
        } else {
            let number: u64 = self.rng.next_u64();
            let take: usize = if self.left < 8 {
                self.left
            } else {
                8
            };
            let mut x: u64 = number;
            let mut i: usize = 0;
            let ghost bytes = low_bytes(number as int, 8);
            proof {
                reveal_with_fuel(low_bytes, 9);
            }
            while i < take
                invariant
                    i <= take <= 8,
                    before.len() + take <= usize::MAX,
                    bytes.len() == 8,
                    bytes.skip(i as int) == low_bytes(x as int, (8 - i) as nat),
                    self.held@ == before + bytes.take(i as int),
                    self.rng.wf(),
                    self.rng.state == next_state(next_state(state)),
                    self.left == left,
                    self.compressibility == c,
                decreases take - i,
            {
                let ghost rest = bytes.skip(i as int);
                self.held.push((x % 256) as u8);
                x = x / 256;
                proof {
                    assert(rest[0] == bytes[i as int]);
                    assert(rest.skip(1) =~= bytes.skip(i + 1));
                    assert(rest.skip(1) =~= low_bytes(x as int, (7 - i) as nat));
                    assert(self.held@ =~= before + bytes.take(i + 1));
                }
                i += 1;
            }
            self.left = self.left - take;
        }
        assert(self.held@ =~= before + step_bytes(state, c).take(n));
        assert(self.rest() =~= before + filling(state, left, c));
    }

    /// The next `n` bytes, or all that are left.
    pub fn next(&mut self, n: usize) -> (r: Vec<u8>)
        requires
            old(self).wf(),
        ensures
            final(self).wf(),
            r@ + final(self).rest() == old(self).rest(),
            r@.len() == n || (r@.len() < n && final(self).rest().len() == 0),
    {
        while self.held.len() < n && self.left > 0
            invariant
                self.wf(),
                self.rest() == old(self).rest(),
            decreases self.left,
        {
            self.step();
        }
        let cut: usize = if n < self.held.len() {
            n
        } else {
            self.held.len()
        };
        let ghost whole = self.held@;
        let mut out = self.held.split_off(cut);
        std::mem::swap(&mut out, &mut self.held);
        assert(out@ + self.held@ =~= whole);
        assert(out@ + self.rest() =~= old(self).rest());
        out
    }
}

impl Entry {
    /// Where the store has it.
    pub fn store_path(&self) -> (r: String)
        ensures
            r@ == "/nix/store/"@ + self.hash@ + "-"@ + self.name@,
    {
        "/nix/store/".to_owned().concat(self.hash.as_str()).concat("-").concat(self.name.as_str())
    }

    /// The whole body.
    pub fn body(&self) -> (r: Vec<u8>)
        requires
            has_seed(self.hash@),
        ensures
            r@ == body_of(self@),
            r@.len() == self.size,
    {
        let mut filler = Filler::new(self);
        proof {
            filling_length(first_state(hash_seed(self.hash@)), self.size as int, self.compressibility);
        }
        let r = filler.next(self.size);
        assert(r@ + filler.rest() =~= r@);
        r
    }
}

/// `n` digits drawn from `state` on, and the state behind them.
pub open spec fn drawn_digits(state: u64, n: nat) -> (Seq<char>, u64)
    decreases n,
{
    if n == 0 {
        (Seq::empty(), state)
    } else {
        let (front, s) = drawn_digits(state, (n - 1) as nat);
        let t = next_state(s);
        (front.push(alphabet()[number_at(t) as int % 32]), t)
    }
}

/// The least size of a magnitude: each is eight times the one before.
pub open spec fn least_size(magnitude: nat) -> int
    decreases magnitude,
{
    if magnitude == 0 {
        4096
    } else {
        8 * least_size((magnitude - 1) as nat)
    }
}

/// Entry `i`, drawn from `state` on, and the state behind it. Sizes spread from
/// 4 KiB to 16 MiB, most of them small, and one in five does not compress.
pub open spec fn drawn_entry(state: u64, i: nat) -> (EntryView, u64) {
    let (hash, s0) = drawn_digits(state, 32);
    let s1 = next_state(s0);
    let s2 = next_state(s1);
    let s3 = next_state(s2);
    (
        EntryView {
            hash,
            name: "bench-"@ + decimal(i),
            size: (least_size(number_at(s1) as nat % 5) + number_at(s2) % 4096) as usize,
            compressibility: if number_at(s3) % 5 == 0 {
                0
            } else {
                70
            },
        },
        s3,
    )
}

/// `count` entries drawn from `state` on, and the state behind them.
pub open spec fn drawn_entries(state: u64, count: nat) -> (Seq<EntryView>, u64)
    decreases count,
{
    if count == 0 {
        (Seq::empty(), state)
    } else {
        let (front, s) = drawn_entries(state, (count - 1) as nat);
        let (e, t) = drawn_entry(s, (count - 1) as nat);
        (front.push(e), t)
    }
}

/// The corpus of a seed.
pub open spec fn corpus(seed: u64, count: nat, with_giant: bool) -> Seq<EntryView> {
    let (all, s) = drawn_entries(first_state(seed), count);
    if with_giant {
        all.push(
            EntryView {
                hash: drawn_digits(s, 32).0,
                name: "bench-giant"@,
                size: 2147483648,
                compressibility: 0,
            },
        )
    } else {
        all
    }
}

fn draw_hash(rng: &mut Rng, digits: &Vec<char>) -> (r: String)
    requires
        old(rng).wf(),
        digits@ == alphabet(),
    ensures
        final(rng).wf(),
        (r@, final(rng).state) == drawn_digits(old(rng).state, 32),
{
    proof {
        reveal_strlit("0123456789abcdfghijklmnpqrsvwxyz");
    }
    let mut out: Vec<char> = Vec::new();
    let mut i: usize = 0;
    while i < 32
        invariant
            i <= 32,
            rng.wf(),
            digits@ == alphabet(),
            digits@.len() == 32,
            out@.len() == i,
            (out@, rng.state) == drawn_digits(old(rng).state, i as nat),
        decreases 32 - i,
    {
        let d: usize = rng.below(32) as usize;
        out.push(digits[d]);
        i += 1;
    }
    from_range(&out, 0, 32)
}

fn least(magnitude: u64) -> (r: u64)
    requires
        magnitude < 5,
    ensures
        r == least_size(magnitude as nat),
        r <= 16777216,
{
    let mut r: u64 = 4096;
    let mut i: u64 = 0;
    proof {
        reveal_with_fuel(least_size, 6);
    }
    while i < magnitude
        invariant
            i <= magnitude < 5,
            r == least_size(i as nat),
            least_size(4) == 16777216,
            least_size(3) == 2097152,
            least_size(2) == 262144,
            least_size(1) == 32768,
            least_size(0) == 4096,
        decreases magnitude - i,
    {
        r = r * 8;
        i += 1;
    }
    r
}

/// The corpus of a seed: `count` entries and, where asked for, one of two
/// gibibytes.
pub fn generate(seed: u64, count: usize, with_giant: bool) -> (r: Vec<Entry>)
    ensures
        entries(r@) == corpus(seed, count as nat, with_giant),
{
    let digits = to_chars("0123456789abcdfghijklmnpqrsvwxyz");
    let mut rng = Rng::new(seed);
    let mut out: Vec<Entry> = Vec::new();
    let mut i: usize = 0;
    assert(entries(out@) =~= Seq::<EntryView>::empty());
    while i < count
        invariant
            i <= count,
            rng.wf(),
            digits@ == alphabet(),
            (entries(out@), rng.state) == drawn_entries(first_state(seed), i as nat),
        decreases count - i,
    {
        let ghost prior = out@;
        let hash = draw_hash(&mut rng, &digits);
        let magnitude: u64 = rng.below(5);
        let size: u64 = least(magnitude) + rng.below(4096);
        let solid: u64 = rng.below(5);
        out.push(
            Entry {
                hash,
                name: "bench-".to_owned().concat(show(i as u64).as_str()),
                size: size as usize,
                compressibility: if solid == 0 {
                    0
                } else {
                    70
                },
            },
        );
        assert(entries(out@) =~= entries(prior).push(out@.last()@));
        i += 1;
    }
    if with_giant {
        let ghost prior = out@;
        let hash = draw_hash(&mut rng, &digits);
        out.push(
            Entry { hash, name: "bench-giant".to_owned(), size: 2147483648, compressibility: 0 },
        );
        assert(entries(out@) =~= entries(prior).push(out@.last()@));
    }
    out
}

/// The digit behind `c`, and behind the last the first. What is no digit counts
/// as the first.
pub open spec fn digit_after(c: char) -> char {
    if alphabet().contains(c) {
        alphabet()[(alphabet().index_of_first(c)->0 + 1) % 32]
    } else {
        '1'
    }
}

/// The digit behind the first character of `hash`.
pub fn next_char(hash: &str) -> (r: char)
    ensures
        r == if hash@.len() > 0 {
            digit_after(hash@[0])
        } else {
            '1'
        },
{
    let digits = to_chars("0123456789abcdfghijklmnpqrsvwxyz");
    proof {
        reveal_strlit("0123456789abcdfghijklmnpqrsvwxyz");
    }
    let chars = to_chars(hash);
    if chars.len() == 0 {
        return '1';
    }
    let first = chars[0];
    let mut i: usize = 0;
    while i < 32
        invariant
            i <= 32,
            digits@ == alphabet(),
            digits@.len() == 32,
            chars@ == hash@,
            chars@.len() > 0,
            first == chars@[0],
            forall|k: int| 0 <= k < i ==> digits@[k] != first,
        decreases 32 - i,
    {
        if digits[i] == first {
            proof {
                assert(alphabet().contains(first));
                alphabet().index_of_first_ensures(first);
            }
            return digits[(i + 1) % 32];
        }
        i += 1;
    }
    '1'
}

/// The same entry under another key.
pub open spec fn rekeyed(e: EntryView) -> EntryView {
    EntryView {
        hash: seq![digit_after(e.hash[0])] + e.hash.skip(1),
        name: e.name + "-baseline"@,
        size: e.size,
        compressibility: e.compressibility,
    }
}

/// The hash can be cut behind its first byte.
pub open spec fn has_first(hash: Seq<char>) -> bool {
    hash.len() > 0 && hash[0] <= '\u{7f}'
}

/// The same corpus under other keys, so that a run over it does the same work
/// and skips nothing as present.
pub fn rekey(all: &Vec<Entry>) -> (r: Vec<Entry>)
    requires
        forall|i: int| 0 <= i < all@.len() ==> has_first((#[trigger] all@[i]).hash@),
    ensures
        entries(r@) == entries(all@).map_values(|e: EntryView| rekeyed(e)),
{
    let mut out: Vec<Entry> = Vec::new();
    let mut i: usize = 0;
    while i < all.len()
        invariant
            i <= all@.len(),
            forall|k: int| 0 <= k < all@.len() ==> has_first((#[trigger] all@[k]).hash@),
            out@.len() == i,
            forall|k: int| 0 <= k < i ==> (#[trigger] out@[k])@ == rekeyed(all@[k]@),
        decreases all@.len() - i,
    {
        let hash = all[i].hash.as_str();
        let mut chars = to_chars(hash);
        chars.set(0, next_char(hash));
        let n: usize = chars.len();
        let made = Entry {
            hash: from_range(&chars, 0, n),
            name: all[i].name.clone().concat("-baseline"),
            size: all[i].size,
            compressibility: all[i].compressibility,
        };
        assert(made@.hash =~= rekeyed(all@[i as int]@).hash);
        out.push(made);
        i += 1;
    }
    assert(entries(out@) =~= entries(all@).map_values(|e: EntryView| rekeyed(e)));
    out
}

/// Under its other key no entry has the hash that it had.
pub proof fn rekeying_changes_every_hash(e: EntryView)
    requires
        has_first(e.hash),
    ensures
        rekeyed(e).hash.len() == e.hash.len(),
        rekeyed(e).hash[0] != e.hash[0],
        rekeyed(e).hash.skip(1) == e.hash.skip(1),
{
    reveal_strlit("0123456789abcdfghijklmnpqrsvwxyz");
    let c = e.hash[0];
    if alphabet().contains(c) {
        alphabet().index_of_first_ensures(c);
        assert(alphabet().no_duplicates());
    } else {
        assert(alphabet()[1] == '1');
        assert(alphabet().contains('1'));
    }
    assert(rekeyed(e).hash.skip(1) =~= e.hash.skip(1));
}

/// Every digit that is drawn is one of the alphabet.
proof fn digits_are_drawn(state: u64, n: nat)
    ensures
        drawn_digits(state, n).0.len() == n,
        forall|i: int|
            0 <= i < n ==> alphabet().contains(#[trigger] drawn_digits(state, n).0[i]),
    decreases n,
{
    reveal_strlit("0123456789abcdfghijklmnpqrsvwxyz");
    if n > 0 {
        digits_are_drawn(state, (n - 1) as nat);
    }
}

/// Every entry of a corpus has a hash that the cache takes for one.
pub proof fn corpus_has_store_hashes(seed: u64, count: nat, with_giant: bool)
    ensures
        corpus(seed, count, with_giant).len() == count + if with_giant {
            1int
        } else {
            0
        },
        forall|i: int|
            0 <= i < corpus(seed, count, with_giant).len() ==> crate::nix_base32::store_hash(
                (#[trigger] corpus(seed, count, with_giant)[i]).hash,
            ),
{
    entries_have_store_hashes(first_state(seed), count);
    digits_are_drawn(drawn_entries(first_state(seed), count).1, 32);
}

proof fn entries_have_store_hashes(state: u64, count: nat)
    ensures
        drawn_entries(state, count).0.len() == count,
        forall|i: int|
            0 <= i < count ==> crate::nix_base32::store_hash(
                (#[trigger] drawn_entries(state, count).0[i]).hash,
            ),
    decreases count,
{
    if count > 0 {
        let n = (count - 1) as nat;
        entries_have_store_hashes(state, n);
        digits_are_drawn(drawn_entries(state, n).1, 32);
    }
}

/// A path of `size` bytes that do not compress, for one of several pushes of
/// that size; `salt` keeps a later run from finding it present.
pub fn stream_entry(seed: u64, size: usize, rep: usize, salt: u64) -> (r: Entry)
    ensures
        r.hash@ == drawn_digits(first_state(seed ^ salt ^ (size as u64) ^ (rep as u64)), 32).0,
        r.name@ == "bench-stream-"@ + decimal(size as nat) + "-"@ + decimal(rep as nat),
        r.size == size,
        r.compressibility == 0,
{
    let digits = to_chars("0123456789abcdfghijklmnpqrsvwxyz");
    let mut rng = Rng::new(seed ^ salt ^ (size as u64) ^ (rep as u64));
    let hash = draw_hash(&mut rng, &digits);
    Entry {
        hash,
        name: "bench-stream-".to_owned().concat(show(size as u64).as_str()).concat("-").concat(
            show(rep as u64).as_str(),
        ),
        size,
        compressibility: 0,
    }
}

/// The states follow each other by three shifts, and a number is the state times
/// an odd constant.
pub proof fn states_follow_by_shifts(x: u64, a: u64, b: u64)
    requires
        a == x ^ (x >> 12),
        b == a ^ (a << 25),
    ensures
        next_state(x) == b ^ (b >> 27),
        number_at(x) == x.wrapping_mul(2685821657736338717),
        first_state(0) == 1,
        x != 0 ==> first_state(x) == x,
{
}

/// Entries are drawn as they are meant to be: sizes from 4 KiB to a little over
/// 16 MiB, names by their number, and either nothing in them compresses or most
/// of it does.
pub proof fn entries_are_of_all_sizes(state: u64, i: nat)
    ensures
        ({
            let e = drawn_entry(state, i).0;
            &&& 4096 <= e.size < 16777216 + 4096
            &&& e.name == "bench-"@ + decimal(i)
            &&& e.compressibility == 0 || e.compressibility == 70
            &&& e.hash.len() == 32
        }),
{
    reveal_with_fuel(least_size, 6);
    digits_are_drawn(state, 32);
    let s1 = next_state(drawn_digits(state, 32).1);
    let m = number_at(s1) as nat % 5;
    assert(m == 0 || m == 1 || m == 2 || m == 3 || m == 4);
}

/// A larger corpus of a seed begins with the smaller one, and the giant comes
/// last.
pub proof fn corpora_grow_at_the_end(seed: u64, count: nat)
    ensures
        corpus(seed, 0, false).len() == 0,
        corpus(seed, count + 1, false).drop_last() == corpus(seed, count, false),
        corpus(seed, count, true).drop_last() == corpus(seed, count, false),
        corpus(seed, count, true).last().name == "bench-giant"@,
        corpus(seed, count, true).last().size == 2147483648,
        corpus(seed, count, true).last().compressibility == 0,
        corpus(seed, count + 1, false).last().name == "bench-"@ + decimal(count),
{
    let n = count + 1;
    let all = corpus(seed, n, false);
    let some = corpus(seed, count, false);
    assert(all.drop_last() =~= some);
    assert(corpus(seed, count, true).drop_last() =~= some);
}

/// A body that compresses throughout is one letter; of one that does not compress
/// each step is a number, its lowest byte first.
pub proof fn bodies_compress_as_asked(state: u64, left: int, k: int)
    requires
        0 <= k < left,
    ensures
        filling(state, left, 100)[k] == 97,
        left >= 8 ==> filling(state, left, 0).take(8) == low_bytes(
            number_at(next_state(next_state(state))) as int,
            8,
        ),
    decreases left,
{
    filling_length(state, left, 100);
    let n = step_take(state, left, 100);
    let rest = filling(step_state(state, 100), left - n, 100);
    let first = step_bytes(state, 100).take(n);
    assert(filling(state, left, 100) == first + rest);
    assert(compresses_at(state, 100));
    if k < n {
        assert(first[k] == 97);
    } else {
        bodies_compress_as_asked(step_state(state, 100), left - n, k - n);
        assert(filling(state, left, 100)[k] == rest[k - n]);
    }
    if left >= 8 {
        let x = number_at(next_state(next_state(state))) as int;
        reveal_with_fuel(low_bytes, 9);
        assert(!compresses_at(state, 0));
        assert(step_take(state, left, 0) == 8);
        let head = step_bytes(state, 0).take(8);
        assert(head =~= low_bytes(x, 8));
        assert(filling(state, left, 0).take(8) =~= head);
    }
}

/// The bytes of a number are those that it is made of, the lowest first.
pub proof fn low_bytes_come_first(x: int, n: nat)
    requires
        0 <= x,
        n > 0,
    ensures
        low_bytes(x, n).len() == n,
        low_bytes(x, n)[0] == x % 256,
        low_bytes(x, n).skip(1) == low_bytes(x / 256, (n - 1) as nat),
    decreases n,
{
    let rest = low_bytes(x / 256, (n - 1) as nat);
    if n > 1 {
        low_bytes_come_first(x / 256, (n - 1) as nat);
    }
    assert(low_bytes(x, n).skip(1) =~= rest);
}

/// Each digit has the next of the alphabet behind it, and the last the first.
pub proof fn digits_follow_in_a_circle(k: int)
    requires
        0 <= k < 32,
    ensures
        digit_after("0123456789abcdfghijklmnpqrsvwxyz"@[k]) == if k == 31 {
            '0'
        } else {
            "0123456789abcdfghijklmnpqrsvwxyz"@[k + 1]
        },
{
    reveal_strlit("0123456789abcdfghijklmnpqrsvwxyz");
    let c = alphabet()[k];
    assert(alphabet().contains(c));
    alphabet().index_of_first_ensures(c);
    assert(alphabet().no_duplicates());
}

/// A digit adds its value to 32 times what stands in front of it: the ten digits
/// and the letters up to v in either case are worth what they are in base 32, and
/// anything else spoils the number.
pub proof fn seeds_are_read_in_base_32(digits: Seq<u8>, b: u8)
    ensures
        radix_value(Seq::empty()) == Some(0int),
        radix_value(digits) is Some && '0' as int <= b <= '9' as int ==> radix_value(
            digits.push(b),
        ) == Some(radix_value(digits)->0 * 32 + (b - '0' as int)),
        radix_value(digits) is Some && 'a' as int <= b <= 'v' as int ==> radix_value(
            digits.push(b),
        ) == Some(radix_value(digits)->0 * 32 + (b - 'a' as int + 10)),
        radix_value(digits) is Some && 'A' as int <= b <= 'V' as int ==> radix_value(
            digits.push(b),
        ) == Some(radix_value(digits)->0 * 32 + (b - 'A' as int + 10)),
        radix_value(digits) is None || b < '0' as int || b > 'v' as int ==> radix_value(
            digits.push(b),
        ) is None,
{
    assert(digits.push(b).drop_last() =~= digits);
}

/// The body of an entry is as long as the entry says and depends on nothing but
/// the start of its hash, its length and how well it is to compress.
pub proof fn bodies_are_reproducible(a: EntryView, b: EntryView)
    requires
        encode_utf8(a.hash).take(16) == encode_utf8(b.hash).take(16),
        a.size == b.size,
        a.compressibility == b.compressibility,
    ensures
        body_of(a).len() == a.size,
        body_of(a) == body_of(b),
{
    filling_length(first_state(hash_seed(a.hash)), a.size as int, a.compressibility);
}

/// A start of a hash that is a number of base 32 is the seed, and any other
/// stands for 1.
pub proof fn seeds_are_the_start_of_the_hash(hash: Seq<char>, digits: Seq<u8>)
    requires
        digits == encode_utf8(hash).take(16),
        digits.len() > 0,
        digits[0] != '+' as int,
    ensures
        radix_value(digits) is None ==> hash_seed(hash) == 1,
        radix_value(digits) is Some && 0 <= radix_value(digits)->0 <= u64::MAX ==> hash_seed(hash)
            == radix_value(digits)->0,
        radix_value(digits) is Some && radix_value(digits)->0 > u64::MAX ==> hash_seed(hash) == 1,
{
}

/// Each of five magnitudes of size is as likely as the others, with up to 4 KiB on
/// top, and one entry in five does not compress.
pub proof fn entries_are_spread(state: u64, i: nat, s1: u64, s2: u64, s3: u64)
    requires
        s1 == next_state(drawn_digits(state, 32).1),
        s2 == next_state(s1),
        s3 == next_state(s2),
    ensures
        ({
            let (e, after) = drawn_entry(state, i);
            let m = number_at(s1) as nat % 5;
            let base = if m == 0 {
                4096int
            } else if m == 1 {
                32768
            } else if m == 2 {
                262144
            } else if m == 3 {
                2097152
            } else {
                16777216
            };
            &&& e.size == base + number_at(s2) % 4096
            &&& e.compressibility == 0 <==> number_at(s3) % 5 == 0
            &&& after == s3
            &&& e.hash == drawn_digits(state, 32).0
        }),
{
    reveal_with_fuel(least_size, 6);
}

/// Each digit of a hash is drawn with the next state.
pub proof fn digits_are_drawn_one_by_one(state: u64, n: nat)
    ensures
        ({
            let (front, s) = drawn_digits(state, n);
            let (all, t) = drawn_digits(state, n + 1);
            &&& t == next_state(s)
            &&& all == front.push("0123456789abcdfghijklmnpqrsvwxyz"@[number_at(t) as int % 32])
        }),
        drawn_digits(state, 0) == (Seq::<char>::empty(), state),
{
}

} // verus!

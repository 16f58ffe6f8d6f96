//! Identity: a strictly additive layer over a path-only workspace.
//!
//! The graph and mutation layers operate on paths and never require an ID. This
//! module only decides when a document earns a stable ID (the trigger set) and
//! what that ID looks like (the mint). Where IDs are stored is the business of
//! the `index` module.
//!
//! An ID is [`BLADE_RANDOM_LEN`] characters of the betanumeric [`ALPHABET`]
//! (no vowels, so no accidental words; no `0`, `1` or `l`, so no ambiguity)
//! plus one check character.
use vstd::prelude::*;

use crate::text::chars_of;

verus! {

/// A stable, opaque document identifier.
#[derive(Debug, Clone, PartialEq, Eq, Hash, PartialOrd, Ord)]
pub struct Id(pub String);

impl View for Id {
    type V = Seq<char>;

    open spec fn view(&self) -> Seq<char> {
        self.0@
    }
}

impl Id {
    /// The id as a string slice.
    pub fn as_str(&self) -> (r: &str)
        ensures
            r@ == self@,
    {
        self.0.as_str()
    }

    /// A copy of this id.
    pub fn copy(&self) -> (r: Id)
        ensures
            r@ == self@,
    {
        Id(self.0.clone())
    }
}

/// The 28-character betanumeric alphabet: no vowels, no `0`, `1` or `l`,
/// includes `y`.
pub const ALPHABET: [char; 28] = [
    'b', 'c', 'd', 'f', 'g', 'h', 'j', 'k', 'm', 'n', 'p', 'q', 'r', 's', 't',
    'v', 'w', 'x', 'y', 'z', '2', '3', '4', '5', '6', '7', '8', '9',
];

/// Number of symbols in [`ALPHABET`]: the radix for the check character.
pub const RADIX: usize = 28;

/// Random characters per ID, excluding the check character.
pub const BLADE_RANDOM_LEN: usize = 6;

/// Total ID length: the random body plus one check character.
pub const BLADE_LEN: usize = BLADE_RANDOM_LEN + 1;

/// The character of the alphabet with ordinal `i`.
pub open spec fn symbol(i: int) -> char {
    ALPHABET@[i]
}

/// Whether `i` is the ordinal of `c`.
pub open spec fn has_ordinal(c: char, i: int) -> bool {
    0 <= i < RADIX && symbol(i) == c
}

/// Whether `c` stands in the alphabet.
pub open spec fn in_alphabet(c: char) -> bool {
    exists|i: int| has_ordinal(c, i)
}

/// The ordinal of `c`, or 0 for a character outside the alphabet.
pub open spec fn weight(c: char) -> int {
    if in_alphabet(c) {
        choose|i: int| has_ordinal(c, i)
    } else {
        0
    }
}

/// The sum of ordinal times 1-based position over `body`.
pub open spec fn weighted_sum(body: Seq<char>) -> int
    decreases body.len(),
{
    if body.len() == 0 {
        0
    } else {
        weighted_sum(body.drop_last()) + weight(body.last()) * body.len()
    }
}

/// The check character of `body`.
pub open spec fn check_of(body: Seq<char>) -> char {
    symbol(weighted_sum(body) % (RADIX as int))
}

/// Whether `t` is a well-formed ID: the right length, alphabet only, and a
/// matching check character at the end.
pub open spec fn well_formed_id(t: Seq<char>) -> bool {
    &&& t.len() == BLADE_LEN
    &&& forall|i: int| 0 <= i < t.len() ==> in_alphabet(#[trigger] t[i])
    &&& t.last() == check_of(t.drop_last())
}

/// Each symbol occurs once in the alphabet.
proof fn lemma_symbols_distinct(i: int, j: int)
    requires
        0 <= i < RADIX,
        0 <= j < RADIX,
        symbol(i) == symbol(j),
    ensures
        i == j,
{
}

/// The 0-based ordinal of `c` in [`ALPHABET`], or `None` if absent.
fn ordinal(c: char) -> (r: Option<usize>)
    ensures
        match r {
            Some(i) => has_ordinal(c, i as int) && weight(c) == i,
            None => !in_alphabet(c),
        },
{
    let mut i: usize = 0;
    while i < RADIX
        invariant
            i <= RADIX,
            forall|j: int| 0 <= j < i ==> !has_ordinal(c, j),
        decreases RADIX - i,
    {
        if ALPHABET[i] == c {
            proof {
                assert(has_ordinal(c, i as int));
                lemma_symbols_distinct(i as int, weight(c));
            }
            return Some(i);
        }
        i += 1;
    }
    None
}

proof fn lemma_weight_bounds(c: char)
    ensures
        0 <= weight(c) < RADIX,
{
}

/// One step of a sum of products, taken modulo the radix as it goes.
proof fn lemma_sum_step(sum: int, w: int, n: int)
    requires
        0 <= w,
        0 <= n,
    ensures
        (sum + w * n) % 28 == (sum % 28 + w * (n % 28)) % 28,
{
    vstd::arithmetic::div_mod::lemma_fundamental_div_mod(n, 28);
    let q = n / 28;
    assert(w * n == w * (n % 28) + 28 * (w * q)) by (nonlinear_arith)
        requires
            n == 28 * q + n % 28,
    ;
    let x = sum + w * (n % 28);
    vstd::arithmetic::div_mod::lemma_mod_multiples_vanish(w * q, x, 28);
    vstd::arithmetic::div_mod::lemma_add_mod_noop(sum, w * (n % 28), 28);
    vstd::arithmetic::div_mod::lemma_add_mod_noop(sum % 28, w * (n % 28), 28);
}

/// The check character over `body`: each character contributes its ordinal
/// times its 1-based position (characters outside the alphabet contribute 0 but
/// still advance the position); the sum modulo [`RADIX`] indexes the check
/// character.
pub fn check_char(body: &str) -> (r: char)
    ensures
        r == check_of(body@),
{
    let cs = chars_of(body);
    let mut sum: usize = 0;
    let mut i: usize = 0;
    assert(cs@.take(0) == Seq::<char>::empty());
    while i < cs.len()
        invariant
            i <= cs@.len(),
            sum < RADIX,
            sum == weighted_sum(cs@.take(i as int)) % (RADIX as int),
        decreases cs.len() - i,
    {
        let c = cs[i];
        let w: usize = match ordinal(c) {
            Some(k) => k,
            None => 0,
        };
        let n: usize = (i + 1) % RADIX;
        proof {
            lemma_weight_bounds(c);
            assert(cs@.take(i + 1).drop_last() == cs@.take(i as int));
            lemma_sum_step(weighted_sum(cs@.take(i as int)), w as int, i + 1);
            assert(w * n <= 27 * 27) by (nonlinear_arith)
                requires
                    0 <= w < 28,
                    0 <= n < 28,
            ;
        }
        sum = (sum + w * n) % RADIX;
        i += 1;
    }
    assert(cs@.take(i as int) == body@);
    ALPHABET[sum]
}

/// Whether `id` is a well-formed ID: correct length, alphabet only, and a
/// matching trailing check character.
pub fn verify(id: &str) -> (r: bool)
    ensures
        r == well_formed_id(id@),
{
    let cs = chars_of(id);
    if cs.len() != BLADE_LEN {
        return false;
    }
    let mut i: usize = 0;
    while i < BLADE_LEN
        invariant
            cs@.len() == BLADE_LEN,
            cs@ == id@,
            i <= BLADE_LEN,
            forall|j: int| 0 <= j < i ==> in_alphabet(#[trigger] id@[j]),
        decreases BLADE_LEN - i,
    {
        if ordinal(cs[i]).is_none() {
            assert(!in_alphabet(id@[i as int]));
            return false;
        }
        i += 1;
    }
    let body = id.substring_char(0, BLADE_RANDOM_LEN);
    assert(body@ == id@.drop_last());
    cs[BLADE_RANDOM_LEN] == check_char(body)
}

/// Which events cause a document to be assigned (registered) an ID.
#[derive(Debug, Clone, Copy, PartialEq, Eq, Structural)]
pub struct Registration {
    /// Register every document at creation time (eager).
    pub on_create: bool,
    /// Register when a document is first referenced by ID.
    pub on_link: bool,
    /// Register when a document is published.
    pub on_publish: bool,
}

/// The registration event a caller is asking about.
#[derive(Debug, Clone, Copy, PartialEq, Eq, Structural)]
pub enum Trigger {
    /// A document was created.
    Create,
    /// Something is about to link to the document by ID.
    Link,
    /// The document is being published.
    Publish,
}

impl Registration {
    /// Never register: identity is effectively off.
    #[verifier::allow_in_spec]
    pub fn off() -> Registration
        returns
            (Registration { on_create: false, on_link: false, on_publish: false }),
    {
        Registration { on_create: false, on_link: false, on_publish: false }
    }

    /// Register only on a durable reference (link by ID or publish).
    #[verifier::allow_in_spec]
    pub fn lazy() -> Registration
        returns
            (Registration { on_create: false, on_link: true, on_publish: true }),
    {
        Registration { on_create: false, on_link: true, on_publish: true }
    }

    /// Register every document the moment it is created.
    #[verifier::allow_in_spec]
    pub fn eager() -> Registration
        returns
            (Registration { on_create: true, on_link: true, on_publish: true }),
    {
        Registration { on_create: true, on_link: true, on_publish: true }
    }

    /// Whether this trigger set fires for `event`.
    pub open spec fn fires(self, event: Trigger) -> bool {
        match event {
            Trigger::Create => self.on_create,
            Trigger::Link => self.on_link,
            Trigger::Publish => self.on_publish,
        }
    }

    /// Whether any trigger is active.
    pub fn is_active(&self) -> (r: bool)
        ensures
            r == exists|event: Trigger| self.fires(event),
    {
        proof {
            assert(self.fires(Trigger::Create) == self.on_create);
            assert(self.fires(Trigger::Link) == self.on_link);
            assert(self.fires(Trigger::Publish) == self.on_publish);
        }
        self.on_create || self.on_link || self.on_publish
    }

    /// Whether this trigger set fires for `event`.
    pub fn fires_on(&self, event: Trigger) -> (r: bool)
        ensures
            r == self.fires(event),
    {
        match event {
            Trigger::Create => self.on_create,
            Trigger::Link => self.on_link,
            Trigger::Publish => self.on_publish,
        }
    }
}

/// A policy deciding when to register documents and how their IDs are minted.
pub trait IdentityPolicy {
    /// The trigger set of this policy, as a mathematical value.
    spec fn triggers(&self) -> Registration;

    /// Whether this policy may mint `id` for the document at `path`.
    spec fn may_mint(path: Seq<char>, id: Seq<char>) -> bool;

    /// The registration trigger set for this policy.
    fn registration(&self) -> (r: Registration)
        ensures
            r == self.triggers(),
    ;

    /// Mint a fresh ID for the document at `path`. Only called when a trigger
    /// fires. Uniqueness is the caller's job; a mint may repeat.
    fn mint(&mut self, path: &str) -> (r: Id)
        ensures
            Self::may_mint(path@, r@),
    ;
}

/// Identity disabled: paths only, no ID is ever minted or written.
#[derive(Debug, Clone, Copy)]
pub struct NoIdentity;

impl IdentityPolicy for NoIdentity {
    open spec fn triggers(&self) -> Registration {
        Registration::off()
    }

    open spec fn may_mint(path: Seq<char>, id: Seq<char>) -> bool {
        id.len() == 0
    }

    fn registration(&self) -> (r: Registration) {
        Registration::off()
    }

    fn mint(&mut self, path: &str) -> (r: Id) {
        Id(String::new())
    }
}

// ---- the generator ----

/// One xorshift step.
pub open spec fn xorshift(s: u64) -> u64 {
    let a = s ^ (s << 13u64);
    let b = a ^ (a >> 7u64);
    b ^ (b << 17u64)
}

/// The state `n` steps after `s`.
pub open spec fn nth(s: u64, n: nat) -> u64
    decreases n,
{
    if n == 0 {
        s
    } else {
        xorshift(nth(s, (n - 1) as nat))
    }
}

/// The top byte of a state.
pub open spec fn top_byte(s: u64) -> int {
    (s >> 56u64) as int
}

/// Whether a state's top byte is used: the bytes from 252 up are discarded, so
/// that the rest divide evenly over the alphabet.
pub open spec fn accepted(s: u64) -> bool {
    top_byte(s) < 252
}

/// Whether the `n`th state after `s` is the first accepted one.
pub open spec fn is_first_accepted(s: u64, n: nat) -> bool {
    &&& n >= 1
    &&& accepted(nth(s, n))
    &&& forall|k: nat| 1 <= k < n ==> !accepted(#[trigger] nth(s, k))
}

/// The first accepted state after `s`.
pub open spec fn next_accepted(s: u64) -> u64 {
    nth(s, choose|n: nat| is_first_accepted(s, n))
}

/// The character that an accepted state stands for.
pub open spec fn letter(s: u64) -> char {
    symbol(top_byte(s) % (RADIX as int))
}

/// The state after drawing `k` characters from `s`.
pub open spec fn state_after(s: u64, k: nat) -> u64
    decreases k,
{
    if k == 0 {
        s
    } else {
        next_accepted(state_after(s, (k - 1) as nat))
    }
}

/// The `k` characters drawn from `s`.
pub open spec fn drawn(s: u64, k: nat) -> Seq<char> {
    Seq::new(k, |i: int| letter(state_after(s, (i + 1) as nat)))
}

/// The ID minted from the state `s`.
pub open spec fn minted(s: u64) -> Seq<char> {
    let body = drawn(s, BLADE_RANDOM_LEN as nat);
    body.push(check_of(body))
}

/// The `k`th of the accepted top bytes that stand for an ordinal.
pub open spec fn byte_for(ordinal: int, k: int) -> int {
    ordinal + RADIX * k
}

/// Law: each ordinal stands for nine of the accepted top bytes, so every symbol
/// of the alphabet is as likely as any other.
pub proof fn accepted_bytes_divide_evenly(ordinal: int, byte: int)
    requires
        0 <= ordinal < RADIX,
        0 <= byte < 256,
    ensures
        (byte < 252 && byte % (RADIX as int) == ordinal) <==> exists|k: int|
            0 <= k < 9 && byte == #[trigger] byte_for(ordinal, k),
{
    if byte < 252 && byte % 28 == ordinal {
        assert(byte == byte_for(ordinal, byte / 28));
    }
}

/// Bit `i` of `x`.
spec fn bit(x: u64, i: u64) -> bool {
    (x >> i) & 1 == 1
}

/// The inner product of the low `n` bits of `x` and `m` over the two-element
/// field.
spec fn dot(x: u64, m: u64, n: nat) -> bool
    decreases n,
{
    if n == 0 {
        false
    } else {
        let i = (n - 1) as u64;
        dot(x, m, (n - 1) as nat) != (bit(x, i) && bit(m, i))
    }
}

/// The mask that reads from a state what `m` reads from the state after it.
spec fn pull(m: u64) -> u64 {
    let a = m ^ (m >> 17u64);
    let b = a ^ (a << 7u64);
    b ^ (b >> 13u64)
}

/// Whether an odd number of the top six bits of `c` are ones.
spec fn top_odd(c: u64) -> bool {
    (bit(c, 58) != bit(c, 59)) != ((bit(c, 60) != bit(c, 61)) != (bit(c, 62) != bit(c, 63)))
}

proof fn lemma_bit_xor(a: u64, b: u64, i: u64)
    requires
        i < 64,
    ensures
        bit(a ^ b, i) == (bit(a, i) != bit(b, i)),
{
    assert((((a ^ b) >> i) & 1 == 1) == (((a >> i) & 1 == 1) != ((b >> i) & 1 == 1)))
        by (bit_vector)
        requires
            i < 64,
    ;
}

proof fn lemma_bit_shl(a: u64, k: u64, i: u64)
    requires
        i < 64,
        k < 64,
    ensures
        bit(a << k, i) == (i >= k && bit(a, (i - k) as u64)),
{
    assert(i < k ==> (((a << k) >> i) & 1 == 0)) by (bit_vector)
        requires
            i < 64,
            k < 64,
    ;
    if i >= k {
        let j = (i - k) as u64;
        assert(((a << k) >> i) & 1 == (a >> j) & 1) by (bit_vector)
            requires
                i < 64,
                k < 64,
                i >= k,
                j == i - k,
        ;
    }
}

proof fn lemma_bit_shr(a: u64, k: u64, i: u64)
    requires
        i < 64,
        k < 64,
    ensures
        bit(a >> k, i) == (i + k < 64 && bit(a, (i + k) as u64)),
{
    if i + k < 64 {
        let j = (i + k) as u64;
        assert(((a >> k) >> i) & 1 == (a >> j) & 1) by (bit_vector)
            requires
                i < 64,
                k < 64,
                j < 64,
                j == i + k,
        ;
    } else {
        assert(((a >> k) >> i) & 1 == 0) by (bit_vector)
            requires
                i < 64,
                k < 64,
                i + k >= 64,
        ;
    }
}

proof fn lemma_dot_xor_left(a: u64, b: u64, m: u64, n: nat)
    requires
        n <= 64,
    ensures
        dot(a ^ b, m, n) == (dot(a, m, n) != dot(b, m, n)),
    decreases n,
{
    if n > 0 {
        lemma_dot_xor_left(a, b, m, (n - 1) as nat);
        lemma_bit_xor(a, b, (n - 1) as u64);
    }
}

proof fn lemma_dot_commutes(a: u64, b: u64, n: nat)
    ensures
        dot(a, b, n) == dot(b, a, n),
    decreases n,
{
    if n > 0 {
        lemma_dot_commutes(a, b, (n - 1) as nat);
    }
}

proof fn lemma_dot_shift(x: u64, m: u64, k: u64, n: nat)
    requires
        k < 64,
        n <= 64,
    ensures
        n <= k ==> !dot(x << k, m, n),
        n >= k ==> dot(x << k, m, n) == dot(x, m >> k, (n - k) as nat),
    decreases n,
{
    if n > 0 {
        lemma_dot_shift(x, m, k, (n - 1) as nat);
        let i = (n - 1) as u64;
        lemma_bit_shl(x, k, i);
        if n > k {
            lemma_bit_shr(m, k, (i - k) as u64);
        }
    }
}

proof fn lemma_dot_high_zero(x: u64, m: u64, k: u64, n: nat)
    requires
        k < 64,
        64 - k <= n <= 64,
    ensures
        dot(x, m >> k, n) == dot(x, m >> k, (64 - k) as nat),
    decreases n,
{
    if n > 64 - k {
        lemma_dot_high_zero(x, m, k, (n - 1) as nat);
        lemma_bit_shr(m, k, (n - 1) as u64);
    }
}

proof fn lemma_dot_shl(x: u64, m: u64, k: u64)
    requires
        k < 64,
    ensures
        dot(x << k, m, 64) == dot(x, m >> k, 64),
{
    lemma_dot_shift(x, m, k, 64);
    lemma_dot_high_zero(x, m, k, 64);
}

proof fn lemma_dot_shr(x: u64, m: u64, k: u64)
    requires
        k < 64,
    ensures
        dot(x >> k, m, 64) == dot(x, m << k, 64),
{
    lemma_dot_commutes(x >> k, m, 64);
    lemma_dot_shl(m, x, k);
    lemma_dot_commutes(m << k, x, 64);
}

proof fn lemma_dot_xor_right(x: u64, a: u64, b: u64)
    ensures
        dot(x, a ^ b, 64) == (dot(x, a, 64) != dot(x, b, 64)),
{
    lemma_dot_commutes(x, a ^ b, 64);
    lemma_dot_commutes(x, a, 64);
    lemma_dot_commutes(x, b, 64);
    lemma_dot_xor_left(a, b, x, 64);
}

/// Reading a state through `m` is reading the state before through `pull(m)`.
proof fn lemma_pull(s: u64, m: u64)
    ensures
        dot(xorshift(s), m, 64) == dot(s, pull(m), 64),
{
    let s1 = s ^ (s << 13u64);
    let s2 = s1 ^ (s1 >> 7u64);
    let m1 = m ^ (m >> 17u64);
    let m2 = m1 ^ (m1 << 7u64);
    lemma_dot_xor_left(s2, s2 << 17u64, m, 64);
    lemma_dot_shl(s2, m, 17);
    lemma_dot_xor_right(s2, m, m >> 17u64);
    lemma_dot_xor_left(s1, s1 >> 7u64, m1, 64);
    lemma_dot_shr(s1, m1, 7);
    lemma_dot_xor_right(s1, m1, m1 << 7u64);
    lemma_dot_xor_left(s, s << 13u64, m2, 64);
    lemma_dot_shl(s, m2, 13);
    lemma_dot_xor_right(s, m2, m2 >> 13u64);
}

/// What `m` reads from the next state and `c` from this one, read at once.
proof fn lemma_fold(s: u64, m: u64, c: u64)
    ensures
        (dot(xorshift(s), m, 64) != dot(s, c, 64)) == dot(s, pull(m) ^ c, 64),
{
    lemma_pull(s, m);
    lemma_dot_xor_right(s, pull(m), c);
}

proof fn lemma_dot_zero(x: u64, n: nat)
    requires
        n <= 64,
    ensures
        !dot(x, 0, n),
    decreases n,
{
    if n > 0 {
        lemma_dot_zero(x, (n - 1) as nat);
        let i = (n - 1) as u64;
        assert((0u64 >> i) & 1 == 0) by (bit_vector);
    }
}

proof fn lemma_dot_low_zero(x: u64, c: u64, n: nat)
    requires
        n <= 58,
        c & 0x03ff_ffff_ffff_ffffu64 == 0,
    ensures
        !dot(x, c, n),
    decreases n,
{
    if n > 0 {
        lemma_dot_low_zero(x, c, (n - 1) as nat);
        let i = (n - 1) as u64;
        assert((c >> i) & 1 == 0) by (bit_vector)
            requires
                i < 58,
                c & 0x03ff_ffff_ffff_ffffu64 == 0,
        ;
    }
}

/// Through a mask of top bits, a state that is rejected reads as the number of
/// ones in the mask.
proof fn lemma_top_dot(x: u64, c: u64)
    requires
        !accepted(x),
        c & 0x03ff_ffff_ffff_ffffu64 == 0,
    ensures
        dot(x, c, 64) == top_odd(c),
{
    assert((x >> 58) & 1 == 1 && (x >> 59) & 1 == 1 && (x >> 60) & 1 == 1 && (x >> 61) & 1 == 1
        && (x >> 62) & 1 == 1 && (x >> 63) & 1 == 1) by (bit_vector)
        requires
            x >> 56u64 >= 252,
    ;
    lemma_dot_low_zero(x, c, 58);
    reveal_with_fuel(dot, 7);
}

/// Among any twelve states in a row, one has a top byte that is accepted. Each
/// state is a linear function of the one before over the two-element field, so
/// the top six bits of all twelve being ones would make an odd number of ones
/// add up to nothing.
proof fn lemma_rejections_end(s: u64)
    ensures
        exists|n: nat| 1 <= n <= 12 && accepted(nth(s, n)),
{
    if forall|n: nat| 1 <= n <= 12 ==> !accepted(#[trigger] nth(s, n)) {
        assert(0xb800000000000000u64 & 0x03ff_ffff_ffff_ffffu64 == 0 && top_odd(0xb800000000000000u64) == false) by (bit_vector);
        assert(0xb400000000000000u64 & 0x03ff_ffff_ffff_ffffu64 == 0 && top_odd(0xb400000000000000u64) == false) by (bit_vector);
        assert(0xc800000000000000u64 & 0x03ff_ffff_ffff_ffffu64 == 0 && top_odd(0xc800000000000000u64) == true) by (bit_vector);
        assert(0xd000000000000000u64 & 0x03ff_ffff_ffff_ffffu64 == 0 && top_odd(0xd000000000000000u64) == true) by (bit_vector);
        assert(0x8000000000000000u64 & 0x03ff_ffff_ffff_ffffu64 == 0 && top_odd(0x8000000000000000u64) == true) by (bit_vector);
        assert(0xe400000000000000u64 & 0x03ff_ffff_ffff_ffffu64 == 0 && top_odd(0xe400000000000000u64) == false) by (bit_vector);
        assert(0x4c00000000000000u64 & 0x03ff_ffff_ffff_ffffu64 == 0 && top_odd(0x4c00000000000000u64) == true) by (bit_vector);
        assert(0xf800000000000000u64 & 0x03ff_ffff_ffff_ffffu64 == 0 && top_odd(0xf800000000000000u64) == true) by (bit_vector);
        assert(0xfc00000000000000u64 & 0x03ff_ffff_ffff_ffffu64 == 0 && top_odd(0xfc00000000000000u64) == false) by (bit_vector);
        assert(0x7000000000000000u64 & 0x03ff_ffff_ffff_ffffu64 == 0 && top_odd(0x7000000000000000u64) == true) by (bit_vector);
        assert(0x0c00000000000000u64 & 0x03ff_ffff_ffff_ffffu64 == 0 && top_odd(0x0c00000000000000u64) == false) by (bit_vector);
        assert(0x0800000000000000u64 & 0x03ff_ffff_ffff_ffffu64 == 0 && top_odd(0x0800000000000000u64) == true) by (bit_vector);
        assert(pull(0x0800000000000000u64) ^ 0x0c00000000000000u64 == 0x0402441020000000u64) by (bit_vector);
        assert(pull(0x0402441020000000u64) ^ 0x7000000000000000u64 == 0x7521679a72802000u64) by (bit_vector);
        assert(pull(0x7521679a72802000u64) ^ 0xfc00000000000000u64 == 0x1988f414a492874du64) by (bit_vector);
        assert(pull(0x1988f414a492874du64) ^ 0xf800000000000000u64 == 0x25f27f1b170ec096u64) by (bit_vector);
        assert(pull(0x25f27f1b170ec096u64) ^ 0x4c00000000000000u64 == 0x90c27ad28e958aa7u64) by (bit_vector);
        assert(pull(0x90c27ad28e958aa7u64) ^ 0xe400000000000000u64 == 0x15dce5b116c857bcu64) by (bit_vector);
        assert(pull(0x15dce5b116c857bcu64) ^ 0x8000000000000000u64 == 0x7bac9db76b15d32du64) by (bit_vector);
        assert(pull(0x7bac9db76b15d32du64) ^ 0xd000000000000000u64 == 0x7df9ff17456322ceu64) by (bit_vector);
        assert(pull(0x7df9ff17456322ceu64) ^ 0xc800000000000000u64 == 0x491d3cff6f1ecabau64) by (bit_vector);
        assert(pull(0x491d3cff6f1ecabau64) ^ 0xb400000000000000u64 == 0x73971c004595e94au64) by (bit_vector);
        assert(pull(0x73971c004595e94au64) ^ 0xb800000000000000u64 == 0x0000000000000000u64) by (bit_vector);
        lemma_top_dot(nth(s, 1), 0xb800000000000000u64);
        lemma_top_dot(nth(s, 2), 0xb400000000000000u64);
        lemma_top_dot(nth(s, 3), 0xc800000000000000u64);
        lemma_top_dot(nth(s, 4), 0xd000000000000000u64);
        lemma_top_dot(nth(s, 5), 0x8000000000000000u64);
        lemma_top_dot(nth(s, 6), 0xe400000000000000u64);
        lemma_top_dot(nth(s, 7), 0x4c00000000000000u64);
        lemma_top_dot(nth(s, 8), 0xf800000000000000u64);
        lemma_top_dot(nth(s, 9), 0xfc00000000000000u64);
        lemma_top_dot(nth(s, 10), 0x7000000000000000u64);
        lemma_top_dot(nth(s, 11), 0x0c00000000000000u64);
        lemma_top_dot(nth(s, 12), 0x0800000000000000u64);
        lemma_fold(nth(s, 11), 0x0800000000000000u64, 0x0c00000000000000u64);
        assert(nth(s, 12) == xorshift(nth(s, 11)));
        lemma_fold(nth(s, 10), 0x0402441020000000u64, 0x7000000000000000u64);
        assert(nth(s, 11) == xorshift(nth(s, 10)));
        lemma_fold(nth(s, 9), 0x7521679a72802000u64, 0xfc00000000000000u64);
        assert(nth(s, 10) == xorshift(nth(s, 9)));
        lemma_fold(nth(s, 8), 0x1988f414a492874du64, 0xf800000000000000u64);
        assert(nth(s, 9) == xorshift(nth(s, 8)));
        lemma_fold(nth(s, 7), 0x25f27f1b170ec096u64, 0x4c00000000000000u64);
        assert(nth(s, 8) == xorshift(nth(s, 7)));
        lemma_fold(nth(s, 6), 0x90c27ad28e958aa7u64, 0xe400000000000000u64);
        assert(nth(s, 7) == xorshift(nth(s, 6)));
        lemma_fold(nth(s, 5), 0x15dce5b116c857bcu64, 0x8000000000000000u64);
        assert(nth(s, 6) == xorshift(nth(s, 5)));
        lemma_fold(nth(s, 4), 0x7bac9db76b15d32du64, 0xd000000000000000u64);
        assert(nth(s, 5) == xorshift(nth(s, 4)));
        lemma_fold(nth(s, 3), 0x7df9ff17456322ceu64, 0xc800000000000000u64);
        assert(nth(s, 4) == xorshift(nth(s, 3)));
        lemma_fold(nth(s, 2), 0x491d3cff6f1ecabau64, 0xb400000000000000u64);
        assert(nth(s, 3) == xorshift(nth(s, 2)));
        lemma_fold(nth(s, 1), 0x73971c004595e94au64, 0xb800000000000000u64);
        assert(nth(s, 2) == xorshift(nth(s, 1)));
        lemma_dot_zero(nth(s, 1), 64);
        assert(false);
    }
}

/// Some state after `s` is accepted, and the first of them is what the choice
/// picks.
proof fn lemma_first_accepted(s: u64, n: nat)
    requires
        is_first_accepted(s, n),
    ensures
        next_accepted(s) == nth(s, n),
{
    let m = choose|m: nat| is_first_accepted(s, m);
    assert(is_first_accepted(s, m));
    if m < n {
        assert(!accepted(nth(s, m)));
    }
    if n < m {
        assert(!accepted(nth(s, n)));
    }
}

/// The bundled minting policy: betanumeric IDs with a check character, from a
/// seeded xorshift64 generator.
#[derive(Debug, Clone)]
pub struct Minter {
    registration: Registration,
    state: u64,
}

impl Minter {
    /// The state of the generator.
    pub closed spec fn generator(&self) -> u64 {
        self.state
    }

    /// The generator state that a seed stands for: the seed itself, nudged off
    /// the generator's single fixed point at 0.
    pub open spec fn seeded(seed: u64) -> u64 {
        if seed == 0 {
            0x9E37_79B9_7F4A_7C15
        } else {
            seed
        }
    }

    /// Register only on a durable reference, randomizing from `seed`.
    pub fn lazy(seed: u64) -> (r: Minter)
        ensures
            r.triggers() == Registration::lazy(),
            r.generator() == Minter::seeded(seed),
    {
        Minter::with(Registration::lazy(), seed)
    }

    /// Register every document at creation, randomizing from `seed`.
    pub fn eager(seed: u64) -> (r: Minter)
        ensures
            r.triggers() == Registration::eager(),
            r.generator() == Minter::seeded(seed),
    {
        Minter::with(Registration::eager(), seed)
    }

    /// Register on a custom trigger set, randomizing from `seed`.
    pub fn with(registration: Registration, seed: u64) -> (r: Minter)
        ensures
            r.triggers() == registration,
            r.generator() == Minter::seeded(seed),
    {
        Minter {
            registration,
            state: if seed == 0 {
                0x9E37_79B9_7F4A_7C15
            } else {
                seed
            },
        }
    }

    /// The next character, rejection-sampled so that the alphabet mapping stays
    /// uniform.
    fn next_alphabet_char(&mut self) -> (r: char)
        ensures
            final(self).triggers() == old(self).triggers(),
            final(self).generator() == next_accepted(old(self).generator()),
            r == letter(final(self).generator()),
            in_alphabet(r),
    {
        let ghost start = self.state;
        let ghost mut n: nat = 0;
        proof {
            lemma_rejections_end(start);
        }
        loop
            invariant
                self.registration == old(self).registration,
                start == old(self).state,
                exists|k: nat| 1 <= k <= 12 && accepted(nth(start, k)),
                self.state == nth(start, n),
                forall|k: nat| 1 <= k <= n ==> !accepted(#[trigger] nth(start, k)),
                n <= 12,
            decreases 12 - n,
        {
            let a = self.state ^ (self.state << 13);
            let b = a ^ (a >> 7);
            self.state = b ^ (b << 17);
            proof {
                if n == 12 {
                    let k = choose|k: nat| 1 <= k <= 12 && accepted(nth(start, k));
                    assert(!accepted(nth(start, k)));
                }
                n = n + 1;
                assert(self.state == nth(start, n));
            }
            let x = self.state;
            let byte: u64 = x >> 56;
            assert(byte < 256) by (bit_vector)
                requires
                    byte == x >> 56u64,
            ;
            if byte < 252 {
                let i: usize = (byte % 28) as usize;
                proof {
                    assert(is_first_accepted(start, n));
                    lemma_first_accepted(start, n);
                    assert(has_ordinal(symbol(i as int), i as int));
                }
                return ALPHABET[i];
            }
        }
    }
}

impl IdentityPolicy for Minter {
    closed spec fn triggers(&self) -> Registration {
        self.registration
    }

    open spec fn may_mint(path: Seq<char>, id: Seq<char>) -> bool {
        well_formed_id(id)
    }

    fn registration(&self) -> (r: Registration) {
        self.registration
    }

    fn mint(&mut self, path: &str) -> (r: Id)
        ensures
            r@ == minted(old(self).generator()),
            final(self).triggers() == old(self).triggers(),
            final(self).generator() == state_after(
                old(self).generator(),
                BLADE_RANDOM_LEN as nat,
            ),
    {
        let ghost start = self.generator();
        let mut body = String::new();
        let mut i: usize = 0;
        while i < BLADE_RANDOM_LEN
            invariant
                i <= BLADE_RANDOM_LEN,
                start == old(self).generator(),
                self.triggers() == old(self).triggers(),
                self.generator() == state_after(start, i as nat),
                body@ == drawn(start, i as nat),
                forall|j: int| 0 <= j < i ==> in_alphabet(#[trigger] body@[j]),
            decreases BLADE_RANDOM_LEN - i,
        {
            let c = self.next_alphabet_char();
            body.push(c);
            i += 1;
            assert(body@ == drawn(start, i as nat));
        }
        let ghost front = body@;
        let check = check_char(body.as_str());
        body.push(check);
        proof {
            assert(body@ == minted(start));
            assert(body@.drop_last() == front);
            let k = weighted_sum(front) % (RADIX as int);
            assert(has_ordinal(check, k));
            assert forall|j: int| 0 <= j < body@.len() implies in_alphabet(#[trigger] body@[j]) by {
                if j < BLADE_RANDOM_LEN {
                    assert(body@[j] == front[j]);
                }
            }
        }
        Id(body)
    }
}

// ---- typos ----

/// Replacing the character at `p` moves the weighted sum by the difference of
/// the two ordinals, times the position.
proof fn lemma_sum_of_update(body: Seq<char>, p: int, c: char)
    requires
        0 <= p < body.len(),
    ensures
        weighted_sum(body.update(p, c)) == weighted_sum(body) + (weight(c) - weight(body[p])) * (p
            + 1),
    decreases body.len(),
{
    let new = body.update(p, c);
    if p == body.len() - 1 {
        assert(new.drop_last() == body.drop_last());
        assert(weight(c) * (p + 1) == weight(body[p]) * (p + 1) + (weight(c) - weight(body[p])) * (p
            + 1)) by (nonlinear_arith);
    } else {
        lemma_sum_of_update(body.drop_last(), p, c);
        assert(new.drop_last() == body.drop_last().update(p, c));
    }
}

/// Two bodies with the same check character have sums that agree modulo the
/// radix.
proof fn lemma_same_check(a: Seq<char>, b: Seq<char>)
    requires
        check_of(a) == check_of(b),
    ensures
        (weighted_sum(a) - weighted_sum(b)) % (RADIX as int) == 0,
{
    let x = weighted_sum(a);
    let y = weighted_sum(b);
    lemma_symbols_distinct(x % 28, y % 28);
    vstd::arithmetic::div_mod::lemma_fundamental_div_mod(x, 28);
    vstd::arithmetic::div_mod::lemma_fundamental_div_mod(y, 28);
    assert((x - y) % 28 == 0);
}

/// Law: an ID with one character replaced by another is not well-formed, so the
/// typo is detected. At a position that shares a factor with the radix this
/// leaves out the replacements whose effect on the weighted sum is a multiple of
/// the radix.
pub proof fn replaced_character_is_detected(id: Seq<char>, p: int, c: char)
    requires
        well_formed_id(id),
        0 <= p < BLADE_LEN,
        c != id[p],
        p < BLADE_RANDOM_LEN && in_alphabet(c) ==> ((weight(c) - weight(id[p])) * (p + 1)) % (
        RADIX as int) != 0,
    ensures
        !well_formed_id(id.update(p, c)),
{
    let typo = id.update(p, c);
    if well_formed_id(typo) {
        assert(in_alphabet(typo[p]));
        let body = id.drop_last();
        if p == BLADE_RANDOM_LEN {
            assert(typo.drop_last() == body);
        } else {
            assert(typo.drop_last() == body.update(p, c));
            lemma_sum_of_update(body, p, c);
            lemma_same_check(typo.drop_last(), body);
        }
    }
}

/// Law: a replacement is always detected at a position coprime to the radix:
/// the first, the third, the fifth and the check character's.
pub proof fn replaced_character_is_detected_at_odd_positions(id: Seq<char>, p: int, c: char)
    requires
        well_formed_id(id),
        p == 0 || p == 2 || p == 4 || p == 6,
        c != id[p],
    ensures
        !well_formed_id(id.update(p, c)),
{
    lemma_weight_bounds(c);
    lemma_weight_bounds(id[p]);
    let d = weight(c) - weight(id[p]);
    if in_alphabet(c) {
        assert(in_alphabet(id[p]));
        assert(has_ordinal(c, weight(c)));
        assert(has_ordinal(id[p], weight(id[p])));
        assert(d != 0);
        assert(-28 < d < 28);
        assert((d * 1) % 28 != 0 && (d * 3) % 28 != 0 && (d * 5) % 28 != 0);
    }
    replaced_character_is_detected(id, p, c);
}

/// Law: swapping two neighbouring characters of the body is detected.
pub proof fn swapped_neighbours_are_detected(id: Seq<char>, p: int)
    requires
        well_formed_id(id),
        0 <= p < BLADE_RANDOM_LEN - 1,
        id[p] != id[p + 1],
    ensures
        !well_formed_id(id.update(p, id[p + 1]).update(p + 1, id[p])),
{
    let typo = id.update(p, id[p + 1]).update(p + 1, id[p]);
    if well_formed_id(typo) {
        let body = id.drop_last();
        let once = body.update(p, id[p + 1]);
        assert(in_alphabet(id[p]) && in_alphabet(id[p + 1]));
        let a = weight(id[p]);
        let b = weight(id[p + 1]);
        assert(has_ordinal(id[p], a) && has_ordinal(id[p + 1], b));
        assert(typo.drop_last() == once.update(p + 1, id[p]));
        lemma_sum_of_update(body, p, id[p + 1]);
        lemma_sum_of_update(once, p + 1, id[p]);
        assert((b - a) * (p + 1) + (a - b) * (p + 2) == a - b) by (nonlinear_arith);
        lemma_same_check(typo.drop_last(), body);
        assert((a - b) % 28 == 0);
    }
}

// ---- laws of minting ----

/// Law: a character counts in the sum by its ordinal times its place, whatever the others are.
pub proof fn place_weighs_the_character(body: Seq<char>, p: int, c: char)
    requires
        0 <= p < body.len(),
    ensures
        weighted_sum(body.update(p, c)) - weighted_sum(body) == (weight(c) - weight(body[p])) * (p
            + 1),
        weighted_sum(Seq::empty()) == 0,
        weighted_sum(body.push(c)) == weighted_sum(body) + weight(c) * (body.len() + 1),
{
    lemma_sum_of_update(body, p, c);
    assert(body.push(c).drop_last() =~= body);
}

/// Law: each body of the right length over the alphabet has one check character, that of its
/// weighted sum, and no other makes it an ID. A text of another length, or with a character
/// from outside the alphabet, is none.
pub proof fn one_character_checks_a_body(body: Seq<char>, c: char)
    ensures
        well_formed_id(body.push(c)) ==> body.len() == BLADE_RANDOM_LEN && c == symbol(
            weighted_sum(body) % (RADIX as int),
        ),
        body.len() == BLADE_RANDOM_LEN && (forall|i: int|
            0 <= i < body.len() ==> in_alphabet(#[trigger] body[i])) ==> well_formed_id(
            body.push(symbol(weighted_sum(body) % (RADIX as int))),
        ),
        forall|i: int|
            0 <= i < body.len() && !in_alphabet(#[trigger] body[i]) ==> !well_formed_id(
                body.push(c),
            ),
{
    assert(body.push(c).drop_last() =~= body);
    let k = weighted_sum(body) % (RADIX as int);
    let id = body.push(symbol(k));
    assert(id.drop_last() =~= body);
    assert(has_ordinal(symbol(k), k));
    if body.len() == BLADE_RANDOM_LEN && (forall|i: int|
        0 <= i < body.len() ==> in_alphabet(#[trigger] body[i])) {
        assert forall|i: int| 0 <= i < id.len() implies in_alphabet(#[trigger] id[i]) by {
            if i < body.len() {
                assert(id[i] == body[i]);
            }
        }
    }
    assert forall|i: int|
        0 <= i < body.len() && !in_alphabet(#[trigger] body[i]) implies !well_formed_id(
        body.push(c),
    ) by {
        assert(body.push(c)[i] == body[i]);
    }
}

/// Law: a step of the generator takes a mix of two states to the mix of their successors, and
/// only 0 to 0, so that no two states have the same successor.
pub proof fn generator_steps_are_linear(a: u64, b: u64)
    ensures
        xorshift(a ^ b) == xorshift(a) ^ xorshift(b),
        xorshift(a) == 0 <==> a == 0,
        xorshift(a) == xorshift(b) ==> a == b,
{
    let x = xorshift(a);
    let y = xorshift(b);
    lemma_step_mixes(a, b);
    lemma_step_keeps_off_zero(a);
    lemma_step_keeps_off_zero(a ^ b);
    if x == y {
        assert(x ^ x == 0) by (bit_vector);
        assert(a ^ b == 0 ==> a == b) by (bit_vector);
    }
}

proof fn lemma_step_mixes(s: u64, t: u64)
    ensures
        xorshift(s ^ t) == xorshift(s) ^ xorshift(t),
{
    let a = s ^ (s << 13u64);
    let b = a ^ (a >> 7u64);
    let c = t ^ (t << 13u64);
    let d = c ^ (c >> 7u64);
    let m = (s ^ t) ^ ((s ^ t) << 13u64);
    assert(m == a ^ c) by (bit_vector)
        requires
            a == s ^ (s << 13u64),
            c == t ^ (t << 13u64),
            m == (s ^ t) ^ ((s ^ t) << 13u64),
    ;
    let n = m ^ (m >> 7u64);
    assert(n == b ^ d) by (bit_vector)
        requires
            b == a ^ (a >> 7u64),
            d == c ^ (c >> 7u64),
            m == a ^ c,
            n == m ^ (m >> 7u64),
    ;
    assert(n ^ (n << 17u64) == (b ^ (b << 17u64)) ^ (d ^ (d << 17u64))) by (bit_vector)
        requires
            n == b ^ d,
    ;
}

proof fn lemma_step_keeps_off_zero(s: u64)
    ensures
        xorshift(s) == 0 <==> s == 0,
{
    let a = s ^ (s << 13u64);
    let b = a ^ (a >> 7u64);
    assert(b ^ (b << 17u64) == 0 <==> b == 0) by (bit_vector);
    assert(b == 0 <==> a == 0) by (bit_vector)
        requires
            b == a ^ (a >> 7u64),
    ;
    assert(a == 0 <==> s == 0) by (bit_vector)
        requires
            a == s ^ (s << 13u64),
    ;
}

/// Law: a character is drawn from the top byte of a state: the one whose ordinal the byte
/// leaves over, if the byte is one of the nine that stand for that ordinal, and none from any
/// other byte.
pub proof fn characters_come_from_the_top_byte(s: u64, ordinal: int)
    requires
        0 <= ordinal < RADIX,
    ensures
        accepted(s) && letter(s) == symbol(ordinal) <==> exists|k: int|
            0 <= k < 9 && (s as int) / 0x100_0000_0000_0000 == #[trigger] byte_for(ordinal, k),
{
    let byte = s >> 56u64;
    assert(byte == s / 0x100_0000_0000_0000u64 && byte < 256) by (bit_vector)
        requires
            byte == s >> 56u64,
    ;
    accepted_bytes_divide_evenly(ordinal, byte as int);
    if letter(s) == symbol(ordinal) {
        lemma_symbols_distinct(top_byte(s) % (RADIX as int), ordinal);
    }
}

/// Law: the state that is drawn from is the first behind `s` whose top byte is used.
pub proof fn first_usable_state_is_drawn_from(s: u64, n: nat)
    requires
        n >= 1,
        accepted(nth(s, n)),
        forall|k: nat| 1 <= k < n ==> !accepted(#[trigger] nth(s, k)),
    ensures
        next_accepted(s) == nth(s, n),
{
    assert(is_first_accepted(s, n));
    lemma_first_accepted(s, n);
}

/// Law: the characters of an ID are drawn one after another: to draw some and then more is to
/// draw all of them, the first from the state that follows.
pub proof fn drawing_goes_on_where_it_stopped(s: u64, a: nat, b: nat)
    ensures
        state_after(s, a + b) == state_after(state_after(s, a), b),
        drawn(s, a + b) == drawn(s, a) + drawn(state_after(s, a), b),
        drawn(s, 1) == seq![letter(next_accepted(s))],
        state_after(s, 1) == next_accepted(s),
        drawn(s, 0).len() == 0,
{
    assert(state_after(s, 0) == s);
    assert(state_after(s, 1) == next_accepted(s));
    assert(drawn(s, 1) =~= seq![letter(next_accepted(s))]);
    lemma_states_in_turn(s, a, b);
    assert forall|i: int| 0 <= i < b implies letter(state_after(s, (a + i + 1) as nat)) == letter(
        #[trigger] state_after(state_after(s, a), (i + 1) as nat),
    ) by {
        lemma_states_in_turn(s, a, (i + 1) as nat);
    }
    let whole = drawn(s, a + b);
    let parts = drawn(s, a) + drawn(state_after(s, a), b);
    assert forall|i: int| 0 <= i < whole.len() implies whole[i] == parts[i] by {
        if i >= a {
            let k = i - a;
            assert(parts[i] == letter(state_after(state_after(s, a), (k + 1) as nat)));
        }
    }
    assert(whole =~= parts);
}

proof fn lemma_states_in_turn(s: u64, a: nat, b: nat)
    ensures
        state_after(s, a + b) == state_after(state_after(s, a), b),
    decreases b,
{
    if b > 0 {
        lemma_states_in_turn(s, a, (b - 1) as nat);
    }
}

/// Law: an ID that is minted is the characters drawn and their check character.
pub proof fn minted_id_is_drawn_and_checked(s: u64)
    ensures
        minted(s).drop_last() == drawn(s, BLADE_RANDOM_LEN as nat),
        minted(s).last() == check_of(drawn(s, BLADE_RANDOM_LEN as nat)),
        minted(s).len() == BLADE_LEN,
{
    assert(minted(s).drop_last() =~= drawn(s, BLADE_RANDOM_LEN as nat));
}

/// Law: a seed is the state to start from, but for 0, from which the generator would never
/// move.
pub proof fn seed_is_the_state_to_start_from(seed: u64)
    ensures
        seed != 0 ==> Minter::seeded(seed) == seed,
        Minter::seeded(seed) != 0,
{
}

/// Law: each event has a switch of its own: it is the only one that the event asks about.
pub proof fn each_event_has_its_own_switch(r: Registration, on: bool)
    ensures
        (Registration { on_create: on, ..r }).fires(Trigger::Create) == on,
        (Registration { on_link: on, ..r }).fires(Trigger::Link) == on,
        (Registration { on_publish: on, ..r }).fires(Trigger::Publish) == on,
        (Registration { on_create: on, ..r }).fires(Trigger::Link) == r.fires(Trigger::Link),
        (Registration { on_create: on, ..r }).fires(Trigger::Publish) == r.fires(Trigger::Publish),
        (Registration { on_link: on, ..r }).fires(Trigger::Create) == r.fires(Trigger::Create),
        (Registration { on_link: on, ..r }).fires(Trigger::Publish) == r.fires(Trigger::Publish),
        (Registration { on_publish: on, ..r }).fires(Trigger::Create) == r.fires(Trigger::Create),
        (Registration { on_publish: on, ..r }).fires(Trigger::Link) == r.fires(Trigger::Link),
{
}

} // verus!

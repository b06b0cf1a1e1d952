//! Strongly typed 128-bit identifiers.
//!
//! Every identifier is a 128-bit value tagged, at the type level, with the
//! kind of entity it names. The tag keeps an identifier of one kind from
//! being handed to code that expects another.

use std::marker::PhantomData;
use vstd::prelude::*;

verus! {

/// What went wrong when a value was turned into an identifier.
#[derive(Debug, Clone, PartialEq, Eq)]
pub enum UuidConversionError {
    /// The text is not that of an identifier of the type named `ty`.
    InvalidUuid { ty: &'static str, value: String },
    /// The text is neither `*` nor that of a machine identifier.
    InvalidMachineId(String),
    /// No identifier was given where one is needed.
    MissingArgument(&'static str),
}

/// The tag of an identifier type: its printable name, and the name of the
/// database column that holds it where it is a primary key.
pub trait UuidSubtype {
    /// The name of the identifier type.
    const TYPE_NAME: &'static str;

    /// The name of the primary-key column.
    const DB_COLUMN_NAME: &'static str = "id";
}

/// A 128-bit identifier of the kind that `M` tags.
#[derive(Debug, Eq, Ord, Hash)]
pub struct TypedUuid<M: UuidSubtype> {
    value: u128,
    marker: PhantomData<M>,
}

impl<M: UuidSubtype> TypedUuid<M> {
    /// The 128 bits of the identifier, most significant first.
    pub closed spec fn bits(self) -> u128 {
        self.value
    }

    /// The identifier with the given bits.
    pub fn from_u128(value: u128) -> (r: Self)
        ensures
            r.bits() == value,
    {
        TypedUuid { value, marker: PhantomData }
    }

    /// The bits of the identifier.
    pub fn as_u128(&self) -> (r: u128)
        ensures
            r == self.bits(),
    {
        self.value
    }

    /// A new identifier, drawn at random.
    pub fn new() -> (r: Self)
        ensures
            r.bits() & 0x0000_0000_0000_f000_c000_0000_0000_0000
                == 0x0000_0000_0000_4000_8000_0000_0000_0000,
    {
        TypedUuid { value: random_uuid_bits(), marker: PhantomData }
    }

    /// The canonical text of the identifier.
    pub fn to_string(&self) -> (s: String)
        ensures
            s@ == hyphenated_text(self.bits()),
    {
        hyphenated(self.value)
    }

    /// The identifier to which a text was read: `parsed` is what the reader
    /// made of `text`. Where it made nothing of it, the error names the
    /// type and holds the text.
    pub fn from_parsed(parsed: Option<u128>, text: &str) -> (r: Result<Self, UuidConversionError>)
        ensures
            match parsed {
                Some(v) => r is Ok && r->Ok_0.bits() == v,
                None => r matches Err(UuidConversionError::InvalidUuid { ty, value }) && ty@
                    == M::TYPE_NAME@ && value@ == text@,
            },
    {
        match parsed {
            Some(v) => Ok(TypedUuid { value: v, marker: PhantomData }),
            None => Err(UuidConversionError::InvalidUuid { ty: M::TYPE_NAME, value: text.to_owned() }),
        }
    }

    /// Reads an identifier from its text. Every text that the `uuid` crate
    /// reads is accepted; the canonical text of an identifier gives that
    /// identifier back.
    pub fn from_str(text: &str) -> (r: Result<Self, UuidConversionError>)
        ensures
            match uuid_text_value(text@) {
                Some(v) => r is Ok && r->Ok_0.bits() == v,
                None => r matches Err(UuidConversionError::InvalidUuid { ty, value }) && ty@
                    == M::TYPE_NAME@ && value@ == text@,
            },
            forall|v: u128| text@ == #[trigger] hyphenated_text(v) ==> r is Ok && r->Ok_0.bits() == v,
    {
        Self::from_parsed(parse_uuid_text(text), text)
    }

    /// The nil identifier, all of whose bits are zero.
    pub fn nil() -> (r: Self)
        ensures
            r.bits() == 0,
    {
        TypedUuid { value: 0, marker: PhantomData }
    }
}

impl<M: UuidSubtype> Clone for TypedUuid<M> {
    fn clone(&self) -> (r: Self)
        ensures
            r == *self,
    {
        TypedUuid { value: self.value, marker: PhantomData }
    }
}

impl<M: UuidSubtype> Copy for TypedUuid<M> {

}

impl<M: UuidSubtype> PartialEq for TypedUuid<M> {
    fn eq(&self, other: &Self) -> (r: bool) {
        self.value == other.value
    }
}

impl<M: UuidSubtype> vstd::std_specs::cmp::PartialEqSpecImpl for TypedUuid<M> {
    open spec fn obeys_eq_spec() -> bool {
        true
    }

    open spec fn eq_spec(&self, other: &Self) -> bool {
        self.bits() == other.bits()
    }
}

impl<M: UuidSubtype> PartialOrd for TypedUuid<M> {
    fn partial_cmp(&self, other: &Self) -> (r: Option<std::cmp::Ordering>) {
        if self.value < other.value {
            Some(std::cmp::Ordering::Less)
        } else if self.value == other.value {
            Some(std::cmp::Ordering::Equal)
        } else {
            Some(std::cmp::Ordering::Greater)
        }
    }
}

impl<M: UuidSubtype> vstd::std_specs::cmp::PartialOrdSpecImpl for TypedUuid<M> {
    open spec fn obeys_partial_cmp_spec() -> bool {
        true
    }

    open spec fn partial_cmp_spec(&self, other: &Self) -> Option<std::cmp::Ordering> {
        if self.bits() < other.bits() {
            Some(std::cmp::Ordering::Less)
        } else if self.bits() == other.bits() {
            Some(std::cmp::Ordering::Equal)
        } else {
            Some(std::cmp::Ordering::Greater)
        }
    }
}

impl<M: UuidSubtype> From<uuid::Uuid> for TypedUuid<M> {
    /// The identifier whose bits are those of `u`.
    fn from(u: uuid::Uuid) -> (r: Self)
        ensures
            r.bits() == uuid_bits_of(u),
    {
        TypedUuid { value: uuid_to_bits(u), marker: PhantomData }
    }
}

impl<M: UuidSubtype> vstd::std_specs::convert::FromSpecImpl<uuid::Uuid> for TypedUuid<M> {
    open spec fn obeys_from_spec() -> bool {
        true
    }

    closed spec fn from_spec(u: uuid::Uuid) -> Self {
        TypedUuid { value: uuid_bits_of(u), marker: PhantomData }
    }
}

impl<M: UuidSubtype> From<TypedUuid<M>> for uuid::Uuid {
    /// The `uuid::Uuid` whose bits are those of `id`: the one there is.
    fn from(id: TypedUuid<M>) -> (r: uuid::Uuid)
        ensures
            uuid_bits_of(r) == id.bits(),
            forall|u: uuid::Uuid| #![trigger uuid_bits_of(u)] uuid_bits_of(u) == id.bits() ==> r == u,
    {
        uuid_from_bits(id.value)
    }
}

impl<M: UuidSubtype> vstd::std_specs::convert::FromSpecImpl<TypedUuid<M>> for uuid::Uuid {
    open spec fn obeys_from_spec() -> bool {
        false
    }

    open spec fn from_spec(id: TypedUuid<M>) -> Self {
        arbitrary()
    }
}

/// The name of the database column that holds an identifier where it is a
/// primary key.
pub trait DbPrimaryUuid {
    /// The name of the column, as a sequence of characters.
    spec fn spec_db_primary_uuid_name() -> Seq<char>;

    /// The name of the column.
    fn db_primary_uuid_name() -> (r: &'static str)
        ensures
            r@ == Self::spec_db_primary_uuid_name(),
    ;
}

impl<M: UuidSubtype> DbPrimaryUuid for TypedUuid<M> {
    open spec fn spec_db_primary_uuid_name() -> Seq<char> {
        M::DB_COLUMN_NAME@
    }

    fn db_primary_uuid_name() -> (r: &'static str) {
        M::DB_COLUMN_NAME
    }
}

impl<M: UuidSubtype> Default for TypedUuid<M> {
    fn default() -> (r: Self)
        ensures
            r.bits() == 0,
    {
        TypedUuid { value: 0, marker: PhantomData }
    }
}


/// The sixteen hexadecimal digits, in the lower case.
pub open spec fn hex_digits() -> Seq<char> {
    seq!['0', '1', '2', '3', '4', '5', '6', '7', '8', '9', 'a', 'b', 'c', 'd', 'e', 'f']
}

/// Sixteen to the power of `n`.
pub open spec fn pow16(n: nat) -> nat
    decreases n,
{
    if n == 0 {
        1
    } else {
        16 * pow16((n - 1) as nat)
    }
}

/// The `n` least significant hexadecimal digits of `v`, most significant
/// first.
pub open spec fn hex_text(v: nat, n: nat) -> Seq<char>
    decreases n,
{
    if n == 0 {
        Seq::empty()
    } else {
        seq![hex_digits()[((v / pow16((n - 1) as nat)) % 16) as int]] + hex_text(v, (n - 1) as nat)
    }
}

/// The canonical text of an identifier: its 32 hexadecimal digits in the
/// lower case, most significant first, in groups of 8, 4, 4, 4 and 12 with
/// a hyphen between two groups.
pub open spec fn hyphenated_text(v: u128) -> Seq<char> {
    let h = hex_text(v as nat, 32);
    h.subrange(0, 8) + seq!['-'] + h.subrange(8, 12) + seq!['-'] + h.subrange(12, 16) + seq!['-']
        + h.subrange(16, 20) + seq!['-'] + h.subrange(20, 32)
}

/// `uuid::Uuid`, the identifier type of the `uuid` crate. What a value of
/// it holds is known here by the name `uuid_bits_of` alone: it is turned
/// into its 128 bits where it comes in, and made from them where it goes
/// out.
#[verifier::external_type_specification]
#[verifier::external_body]
pub struct ExUuid(uuid::Uuid);

/// What `uuid::Uuid::parse_str` makes of a text: the 128 bits of the
/// identifier that it reads, or `None` where it reports an error.
pub uninterp spec fn uuid_text_value(text: Seq<char>) -> Option<u128>;

/// Calls `uuid::Uuid::parse_str` and turns the identifier into its bits with
/// `uuid::Uuid::as_u128`. The outcome is a function of the text alone. The
/// hyphenated lower-case text of 32 digits, as `hyphenated_text` gives it,
/// is read as the value whose digits it holds.
#[verifier::external_body]
fn parse_uuid_text(text: &str) -> (r: Option<u128>)
    ensures
        r == uuid_text_value(text@),
        forall|v: u128| text@ == #[trigger] hyphenated_text(v) ==> r == Some(v),
{
    match uuid::Uuid::parse_str(text) {
        Ok(u) => Some(u.as_u128()),
        Err(_) => None,
    }
}

/// Calls `uuid::Uuid::new_v4`, which draws a random identifier, and turns
/// it into its bits with `uuid::Uuid::as_u128`. Whatever was drawn, the
/// version digit is 4 and the two variant bits are `10`.
#[verifier::external_body]
fn random_uuid_bits() -> (r: u128)
    ensures
        r & 0x0000_0000_0000_f000_c000_0000_0000_0000 == 0x0000_0000_0000_4000_8000_0000_0000_0000,
{
    uuid::Uuid::new_v4().as_u128()
}

/// What `uuid::Uuid::as_u128` makes of a `uuid::Uuid`: its sixteen bytes
/// as one number, the first byte the most significant.
pub uninterp spec fn uuid_bits_of(u: uuid::Uuid) -> u128;

/// Calls `uuid::Uuid::as_u128`, which packs the sixteen bytes of the
/// identifier into one number, the first byte the most significant.
#[verifier::external_body]
fn uuid_to_bits(u: uuid::Uuid) -> (r: u128)
    ensures
        r == uuid_bits_of(u),
{
    u.as_u128()
}

/// Calls `uuid::Uuid::from_u128`, which makes the identifier whose sixteen
/// bytes are those of the number, the most significant first. A
/// `uuid::Uuid` is those sixteen bytes and nothing else, so that the one
/// made is the only one with these bits.
#[verifier::external_body]
fn uuid_from_bits(v: u128) -> (r: uuid::Uuid)
    ensures
        uuid_bits_of(r) == v,
        forall|u: uuid::Uuid| #![trigger uuid_bits_of(u)] uuid_bits_of(u) == v ==> r == u,
{
    uuid::Uuid::from_u128(v)
}

fn hex_digit(d: u8) -> (c: char)
    requires
        d < 16,
    ensures
        c == hex_digits()[d as int],
{
    match d {
        0 => '0',
        1 => '1',
        2 => '2',
        3 => '3',
        4 => '4',
        5 => '5',
        6 => '6',
        7 => '7',
        8 => '8',
        9 => '9',
        10 => 'a',
        11 => 'b',
        12 => 'c',
        13 => 'd',
        14 => 'e',
        _ => 'f',
    }
}

/// The text of `n` digits has `n` characters.
pub proof fn lemma_hex_text_len(v: nat, n: nat)
    ensures
        hex_text(v, n).len() == n,
    decreases n,
{
    if n > 0 {
        lemma_hex_text_len(v, (n - 1) as nat);
    }
}

/// The canonical text of an identifier has 36 characters.
pub proof fn lemma_hyphenated_text_len(v: u128)
    ensures
        hyphenated_text(v).len() == 36,
{
    lemma_hex_text_len(v as nat, 32);
}

proof fn lemma_pow16_values()
    ensures
        pow16(31) == 0x1000_0000_0000_0000_0000_0000_0000_0000,
        pow16(32) == 0x1_0000_0000_0000_0000_0000_0000_0000_0000,
{
    reveal_with_fuel(pow16, 33);
}

/// The 32 hexadecimal digits of `v`, most significant first.
fn hex_digits_of(v: u128) -> (digits: Vec<char>)
    ensures
        digits@ == hex_text(v as nat, 32),
        digits@.len() == 32,
{
    let mut digits: Vec<char> = Vec::new();
    let mut n: usize = 32;
    let mut divisor: u128 = 0x1000_0000_0000_0000_0000_0000_0000_0000;
    proof {
        lemma_pow16_values();
    }
    while n > 0
        invariant
            n <= 32,
            n > 0 ==> divisor as nat == pow16((n - 1) as nat),
            n > 0 ==> divisor > 0,
            digits@ + hex_text(v as nat, n as nat) == hex_text(v as nat, 32),
        decreases n,
    {
        let d = ((v / divisor) % 16) as u8;
        let ghost before = digits@;
        digits.push(hex_digit(d));
        proof {
            assert(hex_text(v as nat, n as nat) == seq![hex_digits()[d as int]] + hex_text(
                v as nat,
                (n - 1) as nat,
            ));
            assert(digits@ + hex_text(v as nat, (n - 1) as nat) =~= before + hex_text(
                v as nat,
                n as nat,
            ));
            if n > 1 {
                assert(pow16((n - 1) as nat) == 16 * pow16((n - 2) as nat));
                assert(divisor / 16 > 0);
            }
        }
        n = n - 1;
        if n > 0 {
            divisor = divisor / 16;
        }
    }
    proof {
        assert(digits@ + hex_text(v as nat, 0) =~= digits@);
        lemma_hex_text_len(v as nat, 32);
    }
    digits
}

/// Appends the characters of `digits` from `from` up to `to` to `s`.
fn push_digits(s: &mut String, digits: &Vec<char>, from: usize, to: usize)
    requires
        from <= to <= digits.len(),
    ensures
        final(s)@ == old(s)@ + digits@.subrange(from as int, to as int),
{
    let mut i: usize = from;
    while i < to
        invariant
            from <= i <= to <= digits.len(),
            s@ == old(s)@ + digits@.subrange(from as int, i as int),
        decreases to - i,
    {
        s.push(digits[i]);
        i = i + 1;
        proof {
            assert(s@ =~= old(s)@ + digits@.subrange(from as int, i as int));
        }
    }
}

/// The canonical text of the identifier whose bits are `v`.
pub fn hyphenated(v: u128) -> (s: String)
    ensures
        s@ == hyphenated_text(v),
{
    let digits = hex_digits_of(v);
    let mut s = String::new();
    proof {
        assert(s@ + digits@.subrange(0, 0) =~= s@);
    }
    push_digits(&mut s, &digits, 0, 8);
    s.push('-');
    push_digits(&mut s, &digits, 8, 12);
    s.push('-');
    push_digits(&mut s, &digits, 12, 16);
    s.push('-');
    push_digits(&mut s, &digits, 16, 20);
    s.push('-');
    push_digits(&mut s, &digits, 20, 32);
    proof {
        assert(s@ =~= hyphenated_text(v));
    }
    s
}

} // verus!

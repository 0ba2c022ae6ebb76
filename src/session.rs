//! Session identifiers: 128-bit values written as hyphenated lower-case UUIDs.
use vstd::prelude::*;
use crate::text::{hex_digit, hex_fixed};

verus! {

/// The hyphenated lower-case text of the 128-bit value `v`:
/// 32 hexadecimal digits, most significant first, in groups of 8-4-4-4-12.
pub open spec fn uuid_text(v: u128) -> Seq<u8> {
    let h = hex_fixed(v as nat, 32);
    h.subrange(0, 8) + seq![45u8] + h.subrange(8, 12) + seq![45u8] + h.subrange(12, 16)
        + seq![45u8] + h.subrange(16, 20) + seq![45u8] + h.subrange(20, 32)
}

/// What uuid's parser reads from `b`: a value, or `None` where it refuses `b`.
pub uninterp spec fn uuid_read(b: Seq<u8>) -> Option<u128>;

/// `b` is the hyphenated lower-case text of some value.
pub open spec fn is_uuid_text(b: Seq<u8>) -> bool {
    exists|v: u128| #[trigger] uuid_text(v) == b
}

/// The value whose hyphenated lower-case text is `b`.
pub open spec fn uuid_value(b: Seq<u8>) -> u128 {
    choose|v: u128| #[trigger] uuid_text(v) == b
}

pub open spec fn pow16(n: nat) -> nat
    decreases n,
{
    if n == 0 {
        1
    } else {
        16 * pow16((n - 1) as nat)
    }
}

proof fn lemma_hex_fixed_injective(a: nat, b: nat, n: nat)
    requires
        a < pow16(n),
        b < pow16(n),
        hex_fixed(a, n) == hex_fixed(b, n),
    ensures
        a == b,
    decreases n,
{
    if n > 0 {
        let ha = hex_fixed(a, n);
        assert(ha.drop_last() == hex_fixed(a / 16, (n - 1) as nat));
        assert(hex_fixed(b, n).drop_last() == hex_fixed(b / 16, (n - 1) as nat));
        assert(ha.last() == hex_digit(a % 16));
        assert(hex_fixed(b, n).last() == hex_digit(b % 16));
        assert(a % 16 == b % 16);
        assert(a / 16 < pow16((n - 1) as nat)) by (nonlinear_arith)
            requires
                a < 16 * pow16((n - 1) as nat),
        ;
        assert(b / 16 < pow16((n - 1) as nat)) by (nonlinear_arith)
            requires
                b < 16 * pow16((n - 1) as nat),
        ;
        lemma_hex_fixed_injective(a / 16, b / 16, (n - 1) as nat);
        assert(a == 16 * (a / 16) + a % 16);
        assert(b == 16 * (b / 16) + b % 16);
    }
}

proof fn lemma_hex_fixed_len(v: nat, n: nat)
    ensures
        hex_fixed(v, n).len() == n,
    decreases n,
{
    if n > 0 {
        lemma_hex_fixed_len(v / 16, (n - 1) as nat);
    }
}

/// Distinct values have distinct texts.
pub proof fn lemma_uuid_text_injective(a: u128, b: u128)
    requires
        uuid_text(a) == uuid_text(b),
    ensures
        a == b,
{
    let ha = hex_fixed(a as nat, 32);
    let hb = hex_fixed(b as nat, 32);
    lemma_hex_fixed_len(a as nat, 32);
    lemma_hex_fixed_len(b as nat, 32);
    let t = uuid_text(a);
    assert(ha =~= t.subrange(0, 8) + t.subrange(9, 13) + t.subrange(14, 18) + t.subrange(19, 23)
        + t.subrange(24, 36));
    assert(hb =~= t.subrange(0, 8) + t.subrange(9, 13) + t.subrange(14, 18) + t.subrange(19, 23)
        + t.subrange(24, 36));
    reveal_with_fuel(pow16, 33);
    assert(pow16(32) == 0x1_0000_0000_0000_0000_0000_0000_0000_0000nat);
    lemma_hex_fixed_injective(a as nat, b as nat, 32);
}

pub proof fn lemma_uuid_value(v: u128)
    ensures
        is_uuid_text(uuid_text(v)),
        uuid_value(uuid_text(v)) == v,
{
    assert(is_uuid_text(uuid_text(v)));
    lemma_uuid_text_injective(uuid_value(uuid_text(v)), v);
}

/// A session of a repository: a UUID held as its 128-bit value.
#[derive(Clone, Copy, Debug, PartialEq, Eq, Structural, Hash)]
pub struct SessionId {
    pub id: u128,
}

/// Relies on uuid's `Uuid::from_u128` and its `Display`, which writes the 16 big-endian
/// bytes of the value as hyphenated lower-case hexadecimal, which the parser reads back.
#[verifier::external_body]
fn uuid_to_text(v: u128) -> (r: Vec<u8>)
    ensures
        r@ == uuid_text(v),
{
    uuid::Uuid::from_u128(v).hyphenated().to_string().into_bytes()
}

/// Relies on uuid's `Uuid::try_parse_ascii` and `Uuid::as_u128`: it accepts the
/// hyphenated lower-case form (among others) and reads the value it stands for. Its
/// error carries no more than the failure, so it becomes `None`.
#[verifier::external_body]
fn uuid_from_text(b: &[u8]) -> (r: Option<u128>)
    ensures
        r == uuid_read(b@),
        is_uuid_text(b@) ==> r == Some(uuid_value(b@)),
{
    uuid::Uuid::try_parse_ascii(b).ok().map(|u| u.as_u128())
}

impl SessionId {
    pub fn new(id: u128) -> (r: Self)
        ensures
            r.id == id,
    {
        SessionId { id }
    }

    pub fn as_u128(&self) -> (r: u128)
        ensures
            r == self.id,
    {
        self.id
    }

    /// The hyphenated text of this session, as used in file names and XML.
    pub fn text(&self) -> (r: Vec<u8>)
        ensures
            r@ == uuid_text(self.id),
    {
        uuid_to_text(self.id)
    }

    /// Reads a session from its UUID text; `None` where the text is no UUID. The
    /// text that `text` writes is read back as the same session.
    pub fn parse(b: &[u8]) -> (r: Option<SessionId>)
        ensures
            r == match uuid_read(b@) {
                Some(v) => Some(SessionId { id: v }),
                None => None,
            },
            forall|v: u128| #[trigger] uuid_text(v) == b@ ==> r == Some(SessionId { id: v }),
    {
        proof {
            assert forall|v: u128| #[trigger] uuid_text(v) == b@ implies uuid_value(b@) == v by {
                lemma_uuid_value(v);
            }
        }
        match uuid_from_text(b) {
            Some(v) => Some(SessionId { id: v }),
            None => None,
        }
    }
}

} // verus!

use vstd::prelude::*;

verus! {

/// Identity of an edge node: the 128-bit value of its UUID.
#[derive(Clone, Copy, PartialEq, Eq, Structural, Hash, Debug, PartialOrd, Ord)]
pub struct NodeId(pub u128);

/// Identity of a service definition: the 128-bit value of its UUID.
#[derive(Clone, Copy, PartialEq, Eq, Structural, Hash, Debug, PartialOrd, Ord)]
pub struct ServiceId(pub u128);

/// What `uuid::Uuid::parse_str` yields for a text: the UUID's 128-bit value, or the
/// text of the parse error.
pub uninterp spec fn uuid_parse(text: Seq<char>) -> Result<u128, Seq<char>>;

/// The lower-case hexadecimal digit of a value below 16.
pub open spec fn hex_digit(n: int) -> char {
    if n < 10 {
        (48 + n) as char
    } else {
        (87 + n) as char
    }
}

/// The `i`-th hexadecimal digit of a 128-bit value, the most significant first.
pub open spec fn hex_digit_at(value: u128, i: int) -> char {
    hex_digit(((value >> ((124 - 4 * i) as u128)) & 0xfu128) as int)
}

/// The 32 lower-case hexadecimal digits of a 128-bit value, the most significant first.
pub open spec fn hex_digits(value: u128) -> Seq<char> {
    Seq::new(32, |i: int| hex_digit_at(value, i))
}

/// The hyphenated lower-case text that `uuid::Uuid`'s `Display` writes for a value: its 32
/// hexadecimal digits in groups of 8, 4, 4, 4 and 12, joined by `'-'`.
pub open spec fn uuid_text(value: u128) -> Seq<char> {
    let h = hex_digits(value);
    h.subrange(0, 8) + seq!['-'] + h.subrange(8, 12) + seq!['-'] + h.subrange(12, 16) + seq!['-']
        + h.subrange(16, 20) + seq!['-'] + h.subrange(20, 32)
}

/// Calls `uuid::Uuid::new_v4`. The value is random; the contract states only the
/// version nibble (4) and the RFC 4122 variant bits (0b10) that every v4 UUID carries.
#[verifier::external_body]
fn random_uuid_v4() -> (value: u128)
    ensures
        (value >> 76u128) & 0xfu128 == 4u128,
        (value >> 62u128) & 0x3u128 == 2u128,
{
    uuid::Uuid::new_v4().as_u128()
}

/// Calls `uuid::Uuid::parse_str`; the result is the named result `uuid_parse` of the text,
/// the error carried as the text its `Display` writes.
#[verifier::external_body]
pub(crate) fn parse_uuid(text: &str) -> (parsed: Result<u128, String>)
    ensures
        match parsed {
            Ok(v) => uuid_parse(text@) == Ok::<u128, Seq<char>>(v),
            Err(e) => uuid_parse(text@) == Err::<u128, Seq<char>>(e@),
        },
{
    match uuid::Uuid::parse_str(text) {
        Ok(u) => Ok(u.as_u128()),
        Err(e) => Err(e.to_string()),
    }
}

/// Calls `uuid::Uuid::from_u128` and formats it with `Display`; the text is the named
/// result `uuid_text` of the value.
#[verifier::external_body]
pub(crate) fn format_uuid(value: u128) -> (text: String)
    ensures
        text@ == uuid_text(value),
{
    uuid::Uuid::from_u128(value).to_string()
}

impl NodeId {
    /// A fresh random node identity: a version 4 UUID.
    pub fn new() -> (id: NodeId)
        ensures
            (id.0 >> 76u128) & 0xfu128 == 4u128,
            (id.0 >> 62u128) & 0x3u128 == 2u128,
    {
        NodeId(random_uuid_v4())
    }

    /// The hyphenated text of the identity.
    pub fn to_text(&self) -> (text: String)
        ensures
            text@ == uuid_text(self.0),
    {
        format_uuid(self.0)
    }
}

impl ServiceId {
    /// A fresh random service identity: a version 4 UUID.
    pub fn new() -> (id: ServiceId)
        ensures
            (id.0 >> 76u128) & 0xfu128 == 4u128,
            (id.0 >> 62u128) & 0x3u128 == 2u128,
    {
        ServiceId(random_uuid_v4())
    }

    /// The hyphenated text of the identity.
    pub fn to_text(&self) -> (text: String)
        ensures
            text@ == uuid_text(self.0),
    {
        format_uuid(self.0)
    }
}

impl Default for ServiceId {
    /// A fresh random service identity: a version 4 UUID.
    fn default() -> (id: ServiceId)
        ensures
            (id.0 >> 76u128) & 0xfu128 == 4u128,
            (id.0 >> 62u128) & 0x3u128 == 2u128,
    {
        ServiceId::new()
    }
}

} // verus!

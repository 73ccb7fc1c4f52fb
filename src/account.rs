//! Account identifiers of the host network, validated on construction.
use vstd::prelude::*;
use vstd::utf8::encode_utf8;

verus! {

/// `-`, `_` and `.` separate the parts of an account identifier.
pub open spec fn is_account_separator(c: u8) -> bool {
    c == 45u8 || c == 95u8 || c == 46u8
}

/// Lower-case ASCII letters, ASCII digits and separators.
pub open spec fn is_account_char(c: u8) -> bool {
    (97u8 <= c && c <= 122u8) || (48u8 <= c && c <= 57u8) || is_account_separator(c)
}

/// A valid account identifier: 2 to 64 bytes of lower-case letters, digits
/// and separators, neither starting nor ending with a separator, and with no
/// two separators in a row.
pub open spec fn valid_account_id(b: Seq<u8>) -> bool {
    &&& 2 <= b.len() <= 64
    &&& forall|i: int| 0 <= i < b.len() ==> is_account_char(#[trigger] b[i])
    &&& !is_account_separator(b[0])
    &&& !is_account_separator(b.last())
    &&& forall|i: int|
        0 <= i < b.len() - 1 ==> !(is_account_separator(#[trigger] b[i]) && is_account_separator(
            b[i + 1],
        ))
}

/// Relies on `near_sdk::env::is_valid_account_id`, which checks the length
/// bounds and the separator rules above, byte by byte.
#[verifier::external_body]
fn check_account_id(id: &str) -> (r: bool)
    ensures
        r == valid_account_id(encode_utf8(id@)),
{
    near_sdk::env::is_valid_account_id(id.as_bytes())
}

/// The text was not a valid account identifier.
#[derive(Debug, Clone, Copy, PartialEq, Eq, Structural)]
pub struct InvalidAccountId;

/// An account identifier of the host network.
#[derive(Debug)]
pub struct AccountId {
    id: String,
}

impl View for AccountId {
    type V = Seq<char>;

    closed spec fn view(&self) -> Seq<char> {
        self.id@
    }
}

/// The texts of a sequence of identifiers.
pub open spec fn account_views(ids: Seq<AccountId>) -> Seq<Seq<char>> {
    ids.map_values(|t: AccountId| t@)
}

impl AccountId {
    #[verifier::type_invariant]
    closed spec fn inv(&self) -> bool {
        valid_account_id(encode_utf8(self.id@))
    }

    /// Validates `s` as an account identifier.
    pub fn parse(s: &str) -> (r: Result<AccountId, InvalidAccountId>)
        ensures
            r is Ok <==> valid_account_id(encode_utf8(s@)),
            r matches Ok(a) ==> a@ == s@,
    {
        if check_account_id(s) {
            Ok(AccountId { id: s.to_owned() })
        } else {
            Err(InvalidAccountId)
        }
    }

    /// The identifier's text.
    pub fn as_str(&self) -> (r: &str)
        ensures
            r@ == self@,
    {
        self.id.as_str()
    }

    /// The same identifier, in a value of its own.
    pub fn duplicate(&self) -> (r: AccountId)
        ensures
            r@ == self@,
    {
        proof {
            use_type_invariant(self);
        }
        AccountId { id: self.id.clone() }
    }
}

impl PartialEq for AccountId {
    fn eq(&self, other: &AccountId) -> (r: bool) {
        self.id == other.id
    }
}

impl vstd::std_specs::cmp::PartialEqSpecImpl for AccountId {
    open spec fn obeys_eq_spec() -> bool {
        true
    }

    open spec fn eq_spec(&self, other: &AccountId) -> bool {
        self@ == other@
    }
}

impl Eq for AccountId {

}

} // verus!

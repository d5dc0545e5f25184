//! The passphrase newtype.

use vstd::prelude::*;

verus! {

/// A secret passphrase entered by the user.  Never spill this or mix it with
/// anything else.
pub struct Passphrase(String);

impl View for Passphrase {
    type V = Seq<char>;

    closed spec fn view(&self) -> Seq<char> {
        self.0@
    }
}

impl Passphrase {
    pub fn as_str(&self) -> (r: &str)
        ensures
            r@ == self@,
    {
        self.0.as_str()
    }

    pub fn as_bytes(&self) -> (r: &[u8])
        ensures
            r@ == vstd::utf8::encode_utf8(self@),
    {
        self.0.as_str().as_bytes()
    }
}

impl From<String> for Passphrase {
    fn from(value: String) -> (r: Passphrase)
        ensures
            r@ == value@,
    {
        Passphrase(value)
    }
}

impl vstd::std_specs::convert::FromSpecImpl<String> for Passphrase {
    open spec fn obeys_from_spec() -> bool {
        true
    }

    closed spec fn from_spec(value: String) -> Passphrase {
        Passphrase(value)
    }
}

} // verus!

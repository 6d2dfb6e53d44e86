use vstd::prelude::*;

verus! {

/// A symbol name that some archive member exports, identified by its raw
/// byte sequence. The bytes are not guaranteed to be valid text; they are
/// decoded only for diagnostics.
#[derive(Debug)]
pub struct DefinedSymbol {
    pub symbol: Vec<u8>,
}

/// A symbol name that some archive member references but does not supply;
/// it must be satisfied by another library. Identified by its raw bytes,
/// exactly as a defined symbol is.
#[derive(Debug)]
pub struct UnDefinedSymbol {
    pub symbol: Vec<u8>,
}

impl View for DefinedSymbol {
    type V = Seq<u8>;

    open spec fn view(&self) -> Seq<u8> {
        self.symbol@
    }
}

impl View for UnDefinedSymbol {
    type V = Seq<u8>;

    open spec fn view(&self) -> Seq<u8> {
        self.symbol@
    }
}

impl DeepView for DefinedSymbol {
    type V = Seq<u8>;

    open spec fn deep_view(&self) -> Seq<u8> {
        self.symbol@
    }
}

impl DeepView for UnDefinedSymbol {
    type V = Seq<u8>;

    open spec fn deep_view(&self) -> Seq<u8> {
        self.symbol@
    }
}

impl DefinedSymbol {
    pub fn new(symbol: Vec<u8>) -> (r: DefinedSymbol)
        ensures
            r@ == symbol@,
    {
        DefinedSymbol { symbol }
    }
}

impl UnDefinedSymbol {
    pub fn new(symbol: Vec<u8>) -> (r: UnDefinedSymbol)
        ensures
            r@ == symbol@,
    {
        UnDefinedSymbol { symbol }
    }
}

impl Clone for DefinedSymbol {
    fn clone(&self) -> (r: Self)
        ensures
            r@ == self@,
    {
        DefinedSymbol { symbol: clone_bytes(&self.symbol) }
    }
}

impl Clone for UnDefinedSymbol {
    fn clone(&self) -> (r: Self)
        ensures
            r@ == self@,
    {
        UnDefinedSymbol { symbol: clone_bytes(&self.symbol) }
    }
}

impl From<UnDefinedSymbol> for DefinedSymbol {
    fn from(value: UnDefinedSymbol) -> (r: DefinedSymbol)
    {
        DefinedSymbol { symbol: value.symbol }
    }
}

impl vstd::std_specs::convert::FromSpecImpl<UnDefinedSymbol> for DefinedSymbol {
    open spec fn obeys_from_spec() -> bool {
        true
    }

    open spec fn from_spec(value: UnDefinedSymbol) -> DefinedSymbol {
        DefinedSymbol { symbol: value.symbol }
    }
}

impl<'a> From<&'a UnDefinedSymbol> for DefinedSymbol {
    fn from(value: &'a UnDefinedSymbol) -> (r: DefinedSymbol)
        ensures
            r@ == value@,
    {
        DefinedSymbol { symbol: clone_bytes(&value.symbol) }
    }
}

impl<'a> vstd::std_specs::convert::FromSpecImpl<&'a UnDefinedSymbol> for DefinedSymbol {
    // The conversion copies the bytes, so only the views agree; contracts
    // therefore do not rely on this conversion's value.
    open spec fn obeys_from_spec() -> bool {
        false
    }

    open spec fn from_spec(value: &'a UnDefinedSymbol) -> DefinedSymbol {
        DefinedSymbol { symbol: value.symbol }
    }
}

impl From<DefinedSymbol> for UnDefinedSymbol {
    fn from(value: DefinedSymbol) -> (r: UnDefinedSymbol)
    {
        UnDefinedSymbol { symbol: value.symbol }
    }
}

impl<'a> From<&'a DefinedSymbol> for UnDefinedSymbol {
    fn from(value: &'a DefinedSymbol) -> (r: UnDefinedSymbol)
        ensures
            r@ == value@,
    {
        UnDefinedSymbol { symbol: clone_bytes(&value.symbol) }
    }
}

impl<'a> vstd::std_specs::convert::FromSpecImpl<&'a DefinedSymbol> for UnDefinedSymbol {
    // The conversion copies the bytes, so only the views agree; contracts
    // therefore do not rely on this conversion's value.
    open spec fn obeys_from_spec() -> bool {
        false
    }

    open spec fn from_spec(value: &'a DefinedSymbol) -> UnDefinedSymbol {
        UnDefinedSymbol { symbol: value.symbol }
    }
}

impl vstd::std_specs::convert::FromSpecImpl<DefinedSymbol> for UnDefinedSymbol {
    open spec fn obeys_from_spec() -> bool {
        true
    }

    open spec fn from_spec(value: DefinedSymbol) -> UnDefinedSymbol {
        UnDefinedSymbol { symbol: value.symbol }
    }
}

/// The text form of a byte sequence: its characters when the bytes are
/// valid text, and nothing otherwise.
pub uninterp spec fn utf8_of(b: Seq<u8>) -> Option<Seq<char>>;

/// Relies on `String::from_utf8`: the bytes decode to a string exactly
/// when they are valid text, and the outcome is a function of the bytes
/// alone, which `utf8_of` names.
#[verifier::external_body]
fn bytes_to_text(b: &Vec<u8>) -> (r: Option<String>)
    ensures
        r.deep_view() == utf8_of(b@),
{
    String::from_utf8(b.clone()).ok()
}

impl DefinedSymbol {
    /// The symbol rendered best-effort as text, for diagnostics only:
    /// bytes that are not valid text lose fidelity here and nowhere else.
    pub fn display_string(&self) -> (r: String)
        ensures
            match utf8_of(self@) {
                Some(cs) => r@ == cs,
                None => r@ == "Not utf8"@,
            },
    {
        match bytes_to_text(&self.symbol) {
            Some(text) => text,
            None => "Not utf8".to_owned(),
        }
    }
}

impl UnDefinedSymbol {
    /// The symbol rendered best-effort as text, for diagnostics only.
    pub fn display_string(&self) -> (r: String)
        ensures
            match utf8_of(self@) {
                Some(cs) => r@ == cs,
                None => r@ == "Not utf8"@,
            },
    {
        match bytes_to_text(&self.symbol) {
            Some(text) => text,
            None => "Not utf8".to_owned(),
        }
    }
}

/// Copies a byte vector; the copy holds the same bytes.
pub fn clone_bytes(b: &Vec<u8>) -> (r: Vec<u8>)
    ensures
        r@ == b@,
{
    let mut out: Vec<u8> = Vec::new();
    let mut i: usize = 0;
    while i < b.len()
        invariant
            i <= b.len(),
            out@ == b@.subrange(0, i as int),
        decreases b.len() - i,
    {
        out.push(b[i]);
        i = i + 1;
    }
    assert(out@ == b@);
    out
}

/// Compares two byte vectors for equality of their contents.
pub fn bytes_eq(a: &Vec<u8>, b: &Vec<u8>) -> (r: bool)
    ensures
        r == (a@ == b@),
{
    if a.len() != b.len() {
        assert(a@ != b@) by {
            assert(a@.len() != b@.len());
        }
        return false;
    }
    let mut i: usize = 0;
    while i < a.len()
        invariant
            i <= a.len(),
            a@.len() == b@.len(),
            forall|k: int| 0 <= k < i ==> a@[k] == b@[k],
        decreases a.len() - i,
    {
        if a[i] != b[i] {
            return false;
        }
        i = i + 1;
    }
    assert(a@ =~= b@);
    true
}

} // verus!

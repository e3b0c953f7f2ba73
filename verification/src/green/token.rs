use crate::utils::{Kind, TextSize};
use vstd::prelude::*;

verus! {

/// A leaf token in the immutable green tree.
///
/// Tokens are created through [`Builder::token`](crate::green::Builder::token),
/// which hands out shared `Arc<Token>` handles and deduplicates tokens with
/// equal kind and text. The `id` field records the handle's identity within
/// the builder that interned it: the builder assigns each allocation a fresh
/// id, so two handles from one builder carry the same id exactly when they
/// share one allocation.
#[derive(Debug, Hash)]
pub struct Token {
    /// Identity of this token within the builder that interned it.
    pub id: u64,
    /// The kind tag of this token.
    pub kind: Kind,
    /// The text this token covers, as UTF-8 bytes.
    pub text: Vec<u8>,
}

/// The mathematical value of a [`Token`]: its identity, kind and text.
#[verifier::ext_equal]
pub struct TokenView {
    pub id: u64,
    pub kind: Kind,
    pub text: Seq<u8>,
}

impl View for Token {
    type V = TokenView;

    open spec fn view(&self) -> TokenView {
        TokenView { id: self.id, kind: self.kind, text: self.text@ }
    }
}

impl TokenView {
    /// The text of a token fits in a [`TextSize`].
    pub open spec fn wf(self) -> bool {
        self.text.len() <= u32::MAX
    }
}

impl Token {
    pub(crate) fn make(id: u64, kind: Kind, text: Vec<u8>) -> (r: Token)
        requires
            text@.len() <= u32::MAX,
        ensures
            r@ == (TokenView { id, kind, text: text@ }),
    {
        Token { id, kind, text }
    }

    /// The kind of this token.
    pub fn kind(&self) -> (r: Kind)
        ensures
            r == self@.kind,
    {
        self.kind
    }

    /// The text of this token.
    pub fn text(&self) -> (r: Option<&Vec<u8>>)
        ensures
            r matches Some(t) && t@ == self@.text,
    {
        Some(&self.text)
    }

    /// Whether this token withholds its text and records only a length.
    ///
    /// Every token built through this library carries its full text, so this
    /// is always false; the query is part of the public face of the type.
    pub fn is_thunk(&self) -> (r: bool)
        ensures
            !r,
    {
        false
    }

    /// The length in bytes of the text of this token.
    pub fn len(&self) -> (r: TextSize)
        requires
            self@.wf(),
        ensures
            r == self@.text.len(),
    {
        self.text.len() as u32
    }
}

impl PartialEq for Token {
    /// Tokens are equal exactly when their kinds and texts are equal;
    /// identity does not enter into it.
    fn eq(&self, other: &Token) -> (r: bool) {
        let text_eq = self.text == other.text;
        proof {
            if self.text@.len() == other.text@.len() && (forall|i: int|
                #![auto]
                0 <= i < self.text@.len() ==> self.text@[i] == other.text@[i]) {
                assert(self.text@ =~= other.text@);
            }
        }
        self.kind == other.kind && text_eq
    }
}

impl vstd::std_specs::cmp::PartialEqSpecImpl for Token {
    open spec fn obeys_eq_spec() -> bool {
        true
    }

    open spec fn eq_spec(&self, other: &Token) -> bool {
        self@.kind == other@.kind && self@.text == other@.text
    }
}

impl Eq for Token {

}

} // verus!

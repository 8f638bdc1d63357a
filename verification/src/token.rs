//! Descriptor for one added/special token and its matching flags.

use vstd::prelude::*;

verus! {

/// Describes one added token: its surface content (the identity key) and
/// the flags that drive matching and formatting.
///
/// `content` is kept as raw bytes of the token's text, so that match
/// offsets into input text are byte offsets.
#[derive(Debug)]
pub struct TokenExtension {
    /// The token's text, as bytes. Identity key: two descriptors with the
    /// same content denote the same token.
    pub content: Vec<u8>,
    /// The token must not merge into a surrounding word: a match adjacent
    /// to a word character on a side where the token itself does not
    /// start/end with a word character is rejected.
    pub is_single: bool,
    /// Match against normalized text (second matching pass) rather than
    /// the raw text.
    pub is_normalized: bool,
    /// Special tokens are excluded from plain-text matching unless
    /// explicitly enabled, and from decode output unless requested.
    pub is_special: bool,
    /// Absorb adjacent whitespace (left, right) into the match span.
    pub is_stripped: (bool, bool),
}

impl Clone for TokenExtension {
    fn clone(&self) -> (r: Self)
        ensures
            r.content@ == self.content@,
            r.is_single == self.is_single,
            r.is_normalized == self.is_normalized,
            r.is_special == self.is_special,
            r.is_stripped == self.is_stripped,
    {
        Self {
            content: self.content.clone(),
            is_single: self.is_single,
            is_normalized: self.is_normalized,
            is_special: self.is_special,
            is_stripped: self.is_stripped,
        }
    }
}

impl Default for TokenExtension {
    /// The default descriptor: empty content, every flag off.
    fn default() -> (r: Self)
        ensures
            r.content@ == Seq::<u8>::empty(),
            !r.is_single,
            !r.is_normalized,
            !r.is_special,
            r.is_stripped == (false, false),
    {
        Self {
            content: Vec::new(),
            is_single: false,
            is_normalized: false,
            is_special: false,
            is_stripped: (false, false),
        }
    }
}

impl TokenExtension {
    /// Builds a descriptor from its content. A special token starts out
    /// non-normalized; an ordinary token starts out normalized.
    pub fn from(content: Vec<u8>, special: bool) -> (r: Self)
        ensures
            r.content@ == content@,
            r.is_special == special,
            r.is_normalized == !special,
            !r.is_single,
            r.is_stripped == (false, false),
    {
        Self {
            content,
            is_single: false,
            is_normalized: !special,
            is_special: special,
            is_stripped: (false, false),
        }
    }

    /// Returns the descriptor with `is_single` replaced.
    pub fn set_single(self, single: bool) -> (r: Self)
        ensures
            r == (Self { is_single: single, ..self }),
    {
        Self { is_single: single, ..self }
    }

    /// Returns the descriptor with `is_normalized` replaced.
    pub fn set_normalized(self, normalized: bool) -> (r: Self)
        ensures
            r == (Self { is_normalized: normalized, ..self }),
    {
        Self { is_normalized: normalized, ..self }
    }

    /// Returns the descriptor with `is_special` replaced.
    pub fn is_special(self, special: bool) -> (r: Self)
        ensures
            r == (Self { is_special: special, ..self }),
    {
        Self { is_special: special, ..self }
    }

    /// Returns the descriptor with the whitespace-absorption pair replaced.
    pub fn is_stripped(self, left: bool, right: bool) -> (r: Self)
        ensures
            r == (Self { is_stripped: (left, right), ..self }),
    {
        Self { is_stripped: (left, right), ..self }
    }
}

/// A descriptor paired with its assigned id, as the added-vocabulary
/// table serializes it: an ordered list of these, sorted by id.
#[derive(Debug)]
pub struct TokenExtensionID {
    pub id: u32,
    pub token: TokenExtension,
}

impl Clone for TokenExtensionID {
    fn clone(&self) -> (r: Self)
        ensures
            r.id == self.id,
            r.token.content@ == self.token.content@,
            r.token.is_single == self.token.is_single,
            r.token.is_normalized == self.token.is_normalized,
            r.token.is_special == self.token.is_special,
            r.token.is_stripped == self.token.is_stripped,
    {
        Self { id: self.id, token: self.token.clone() }
    }
}

} // verus!

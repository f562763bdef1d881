//! The keyboard: scancodes from the PS/2 controller decoded into characters,
//! with the US 104-key layout and scancode set 1.
use vstd::prelude::*;
use pc_keyboard::layouts::Us104Key;
use pc_keyboard::{DecodedKey, HandleControl, KeyEvent, Keyboard, ScancodeSet1};

verus! {

#[verifier::external_type_specification]
#[verifier::external_body]
pub struct ExKeyEvent(KeyEvent);

#[verifier::external_type_specification]
#[verifier::external_body]
pub struct ExKeyboardError(pc_keyboard::Error);

/// A key as the layout decodes it: a character, or a key that has none.
#[derive(Debug, Clone, Copy, PartialEq, Eq)]
pub enum KeyPress {
    Unicode(char),
    Raw,
}

/// Turns scancodes into the characters typed. It holds a `pc_keyboard`
/// decoder, whose state Verus does not see.
#[verifier::external_body]
pub struct KeyDecoder {
    kb: Keyboard<Us104Key, ScancodeSet1>,
}

impl KeyDecoder {
    /// `pc_keyboard::Keyboard::new` with scancode set 1, the US 104-key layout,
    /// and Ctrl combinations decoded as the keys they modify. Nothing is
    /// claimed of the decoder's state.
    #[verifier::external_body]
    pub fn new() -> Self {
        KeyDecoder { kb: Keyboard::new(ScancodeSet1::new(), Us104Key, HandleControl::Ignore) }
    }

    /// `pc_keyboard::Keyboard::add_byte`: feeds one scancode to the decoder,
    /// which answers with a key event once the scancode completes one. What
    /// comes back depends on the decoder's hidden state (the prefixes of
    /// extended keys), so no clause is claimed of it.
    #[verifier::external_body]
    fn add_byte(&mut self, byte: u8) -> Result<Option<KeyEvent>, pc_keyboard::Error> {
        self.kb.add_byte(byte)
    }

    /// `pc_keyboard::Keyboard::process_keyevent`: turns a key event into the
    /// key the layout gives, with the character it stands for where it has
    /// one. What comes back depends on the decoder's hidden state (shift,
    /// caps lock), so no clause is claimed of it.
    #[verifier::external_body]
    fn process_keyevent(&mut self, ev: KeyEvent) -> Option<KeyPress> {
        match self.kb.process_keyevent(ev) {
            Some(DecodedKey::Unicode(c)) => Some(KeyPress::Unicode(c)),
            Some(DecodedKey::RawKey(_)) => Some(KeyPress::Raw),
            None => None,
        }
    }

    /// The character that `scancode` completes, if it completes a key that
    /// stands for one; scancodes that are not understood give none.
    pub fn decode(&mut self, scancode: u8) -> Option<char> {
        match self.add_byte(scancode) {
            Ok(Some(ev)) => match self.process_keyevent(ev) {
                Some(KeyPress::Unicode(c)) => Some(c),
                Some(KeyPress::Raw) => None,
                None => None,
            },
            Ok(None) => None,
            Err(_) => None,
        }
    }
}

} // verus!

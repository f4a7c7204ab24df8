//! Keys as the configuration file names them, and what the main loop tells
//! the part that reads the keyboard.

use crate::conf::is_text;
use vstd::prelude::*;
use vstd::string::StringExecFns;
use vstd::string::StringSliceAdditionalSpecFns;

verus! {

#[derive(Debug, Clone, Copy, PartialEq, Eq, Hash, Structural)]
pub enum MouseButton {
    Left,
    Right,
    Middle,
    WheelUp,
    WheelDown,
}

/// What the mouse did, and in which cell of the terminal.
#[derive(Debug, Clone, Copy, PartialEq, Eq, Hash, Structural)]
pub enum MouseEvent {
    Press(MouseButton, u16, u16),
    Release(u16, u16),
    Hold(u16, u16),
}

#[derive(Debug, PartialEq, Eq, Clone, Hash)]
pub enum Key {
    Backspace,
    Left,
    Right,
    Up,
    Down,
    Home,
    End,
    PageUp,
    PageDown,
    Delete,
    Insert,
    /// A function key, of which there are twelve.
    F(u8),
    Char(char),
    Alt(char),
    Ctrl(char),
    Null,
    Esc,
    Mouse(MouseEvent),
    Paste(String),
    ChordTimeout,
}

/// Why a name stands for no key. The first two say from which byte on the
/// name is at fault.
#[derive(Debug, Clone, Copy, PartialEq, Eq, Structural)]
pub enum KeyError {
    /// Behind the `F` stands no number from 1 to 12.
    NotFunctionKey(usize),
    /// Behind `M-` or `C-` stands neither a small letter nor a digit.
    NotLowercase(usize),
    /// The name has none of the forms that a key can have.
    Unknown,
}

impl KeyError {
    pub open spec fn explained(self) -> Seq<char> {
        match self {
            KeyError::NotFunctionKey(_) => " should be a number 1 <= n <= 12 instead."@,
            KeyError::NotLowercase(_) => " should be a lowercase and alphanumeric character instead."@,
            KeyError::Unknown => ". Please consult the manual for valid key inputs."@,
        }
    }

    /// What is said of the part of the name that is at fault.
    pub fn explanation(&self) -> (r: &'static str)
        ensures
            r@ == self.explained(),
    {
        match self {
            KeyError::NotFunctionKey(_) => " should be a number 1 <= n <= 12 instead.",
            KeyError::NotLowercase(_) => " should be a lowercase and alphanumeric character instead.",
            KeyError::Unknown => ". Please consult the manual for valid key inputs.",
        }
    }

    pub open spec fn headed(self) -> Seq<char> {
        match self {
            KeyError::Unknown => "Cannot derive shortcut from "@,
            _ => ""@,
        }
    }

    /// What is said before the part of the name that is at fault.
    pub fn heading(&self) -> (r: &'static str)
        ensures
            r@ == self.headed(),
    {
        match self {
            KeyError::Unknown => "Cannot derive shortcut from ",
            _ => "",
        }
    }

    /// From which byte on the name is quoted to the user.
    pub fn quoted_from(&self) -> (r: usize)
        ensures
            r == match *self {
                KeyError::NotFunctionKey(at) => at,
                KeyError::NotLowercase(at) => at,
                KeyError::Unknown => 0,
            },
    {
        match self {
            KeyError::NotFunctionKey(at) => *at,
            KeyError::NotLowercase(at) => *at,
            KeyError::Unknown => 0,
        }
    }
}

/// The key that a word names, written with a capital or a small first
/// letter.
pub open spec fn named_key(text: Seq<char>) -> Option<Key> {
    if text == "Backspace"@ || text == "backspace"@ {
        Some(Key::Backspace)
    } else if text == "Left"@ || text == "left"@ {
        Some(Key::Left)
    } else if text == "Right"@ || text == "right"@ {
        Some(Key::Right)
    } else if text == "Up"@ || text == "up"@ {
        Some(Key::Up)
    } else if text == "Down"@ || text == "down"@ {
        Some(Key::Down)
    } else if text == "Home"@ || text == "home"@ {
        Some(Key::Home)
    } else if text == "End"@ || text == "end"@ {
        Some(Key::End)
    } else if text == "PageUp"@ || text == "pageup"@ {
        Some(Key::PageUp)
    } else if text == "PageDown"@ || text == "pagedown"@ {
        Some(Key::PageDown)
    } else if text == "Delete"@ || text == "delete"@ {
        Some(Key::Delete)
    } else if text == "Insert"@ || text == "insert"@ {
        Some(Key::Insert)
    } else if text == "Enter"@ || text == "enter"@ {
        Some(Key::Char('\n'))
    } else if text == "Tab"@ || text == "tab"@ {
        Some(Key::Char('\t'))
    } else if text == "Esc"@ || text == "esc"@ {
        Some(Key::Esc)
    } else {
        None
    }
}

pub open spec fn is_digit(b: u8) -> bool {
    48 <= b && b <= 57
}

/// Whether a byte is a small ASCII letter or a digit.
pub open spec fn small_or_digit(b: u8) -> bool {
    (97 <= b && b <= 122) || is_digit(b)
}

/// The number that one or two bytes spell: one digit, two digits, or a
/// plus sign and a digit.
pub open spec fn small_number(bytes: Seq<u8>) -> Option<u8> {
    if bytes.len() == 1 && is_digit(bytes[0]) {
        Some((bytes[0] - 48) as u8)
    } else if bytes.len() == 2 && is_digit(bytes[0]) && is_digit(bytes[1]) {
        Some(((bytes[0] - 48) * 10 + (bytes[1] - 48)) as u8)
    } else if bytes.len() == 2 && bytes[0] == 43 && is_digit(bytes[1]) {
        Some((bytes[1] - 48) as u8)
    } else {
        None
    }
}

/// The key that a name spells which is no word: a single byte is that
/// character; `F` with a number from 1 to 12 is a function key; `M-` and
/// `C-` with a small letter or a digit are that character with Alt or Ctrl.
pub open spec fn coded_key(bytes: Seq<u8>) -> Result<Key, KeyError> {
    if bytes.len() == 1 {
        Ok(Key::Char(bytes[0] as char))
    } else if (bytes.len() == 2 || bytes.len() == 3) && bytes[0] == 70 {
        match small_number(bytes.subrange(1, bytes.len() as int)) {
            Some(n) => if 1 <= n && n <= 12 {
                Ok(Key::F(n))
            } else {
                Err(KeyError::NotFunctionKey(1))
            },
            None => Err(KeyError::NotFunctionKey(1)),
        }
    } else if bytes.len() == 3 && bytes[0] == 77 && bytes[1] == 45 {
        if small_or_digit(bytes[2]) {
            Ok(Key::Alt(bytes[2] as char))
        } else {
            Err(KeyError::NotLowercase(2))
        }
    } else if bytes.len() == 3 && bytes[0] == 67 && bytes[1] == 45 {
        if small_or_digit(bytes[2]) {
            Ok(Key::Ctrl(bytes[2] as char))
        } else {
            Err(KeyError::NotLowercase(2))
        }
    } else {
        Err(KeyError::Unknown)
    }
}

/// The key that a name stands for.
pub open spec fn key_of(text: Seq<char>, bytes: Seq<u8>) -> Result<Key, KeyError> {
    match named_key(text) {
        Some(key) => Ok(key),
        None => coded_key(bytes),
    }
}

fn word_key(name: &str) -> (r: Option<Key>)
    ensures
        r == named_key(name@),
{
    if is_text(name, "Backspace") || is_text(name, "backspace") {
        Some(Key::Backspace)
    } else if is_text(name, "Left") || is_text(name, "left") {
        Some(Key::Left)
    } else if is_text(name, "Right") || is_text(name, "right") {
        Some(Key::Right)
    } else if is_text(name, "Up") || is_text(name, "up") {
        Some(Key::Up)
    } else if is_text(name, "Down") || is_text(name, "down") {
        Some(Key::Down)
    } else if is_text(name, "Home") || is_text(name, "home") {
        Some(Key::Home)
    } else if is_text(name, "End") || is_text(name, "end") {
        Some(Key::End)
    } else if is_text(name, "PageUp") || is_text(name, "pageup") {
        Some(Key::PageUp)
    } else if is_text(name, "PageDown") || is_text(name, "pagedown") {
        Some(Key::PageDown)
    } else if is_text(name, "Delete") || is_text(name, "delete") {
        Some(Key::Delete)
    } else if is_text(name, "Insert") || is_text(name, "insert") {
        Some(Key::Insert)
    } else if is_text(name, "Enter") || is_text(name, "enter") {
        Some(Key::Char('\n'))
    } else if is_text(name, "Tab") || is_text(name, "tab") {
        Some(Key::Char('\t'))
    } else if is_text(name, "Esc") || is_text(name, "esc") {
        Some(Key::Esc)
    } else {
        None
    }
}

fn digit(b: u8) -> (r: bool)
    ensures
        r == is_digit(b),
{
    48 <= b && b <= 57
}

fn number_behind_f(bytes: &[u8]) -> (r: Option<u8>)
    requires
        bytes@.len() == 2 || bytes@.len() == 3,
    ensures
        r == small_number(bytes@.subrange(1, bytes@.len() as int)),
{
    let ghost rest = bytes@.subrange(1, bytes@.len() as int);
    if bytes.len() == 2 {
        assert(rest[0] == bytes@[1]);
        if digit(bytes[1]) {
            Some(bytes[1] - 48)
        } else {
            None
        }
    } else {
        assert(rest[0] == bytes@[1]);
        assert(rest[1] == bytes@[2]);
        if digit(bytes[1]) && digit(bytes[2]) {
            Some((bytes[1] - 48) * 10 + (bytes[2] - 48))
        } else if bytes[1] == 43 && digit(bytes[2]) {
            Some(bytes[2] - 48)
        } else {
            None
        }
    }
}

impl Key {
    /// Reads a key from its name in the configuration file.
    pub fn from_name(name: &str) -> (r: Result<Key, KeyError>)
        ensures
            r == key_of(name@, name.spec_bytes()),
    {
        match word_key(name) {
            Some(key) => {
                return Ok(key);
            },
            None => {},
        }
        let bytes = name.as_bytes();
        let size = bytes.len();
        if size == 1 {
            Ok(Key::Char(bytes[0] as char))
        } else if (size == 2 || size == 3) && bytes[0] == 70 {
            match number_behind_f(bytes) {
                Some(n) => if 1 <= n && n <= 12 {
                    Ok(Key::F(n))
                } else {
                    Err(KeyError::NotFunctionKey(1))
                },
                None => Err(KeyError::NotFunctionKey(1)),
            }
        } else if size == 3 && bytes[0] == 77 && bytes[1] == 45 {
            let c = bytes[2];
            if (97 <= c && c <= 122) || digit(c) {
                Ok(Key::Alt(c as char))
            } else {
                Err(KeyError::NotLowercase(2))
            }
        } else if size == 3 && bytes[0] == 67 && bytes[1] == 45 {
            let c = bytes[2];
            if (97 <= c && c <= 122) || digit(c) {
                Ok(Key::Ctrl(c as char))
            } else {
                Err(KeyError::NotLowercase(2))
            }
        } else {
            Err(KeyError::Unknown)
        }
    }
}

/// Calls `String::push`: the character is added at the end of the text.
#[verifier::external_body]
pub(crate) fn push_char(text: &mut String, c: char)
    ensures
        final(text)@ == old(text)@.push(c),
{
    text.push(c)
}

/// The character of a digit.
pub open spec fn digit_char(d: int) -> char {
    ((48 + d) as u8) as char
}

/// A number in decimal digits.
pub open spec fn decimal(n: u8) -> Seq<char> {
    if n >= 100 {
        seq![digit_char(n as int / 100), digit_char(n as int / 10 % 10), digit_char(n as int % 10)]
    } else if n >= 10 {
        seq![digit_char(n as int / 10), digit_char(n as int % 10)]
    } else {
        seq![digit_char(n as int)]
    }
}

fn push_digit(text: &mut String, d: u8)
    requires
        d < 10,
    ensures
        final(text)@ == old(text)@.push(digit_char(d as int)),
{
    push_char(text, (48 + d) as char);
}

pub(crate) fn push_decimal(text: &mut String, n: u8)
    ensures
        final(text)@ == old(text)@ + decimal(n),
{
    let ghost before = text@;
    if n >= 100 {
        push_digit(text, n / 100);
        push_digit(text, n / 10 % 10);
        push_digit(text, n % 10);
    } else if n >= 10 {
        push_digit(text, n / 10);
        push_digit(text, n % 10);
    } else {
        push_digit(text, n);
    }
    assert(text@ =~= before + decimal(n));
}

fn with_char(head: &str, c: char) -> (r: String)
    ensures
        r@ == head@.push(c),
{
    let mut text = String::from_str(head);
    push_char(&mut text, c);
    text
}

impl Key {
    /// How a key is shown to the user.
    pub open spec fn shown(self) -> Seq<char> {
        match self {
            Key::F(n) => "F"@ + decimal(n),
            Key::Char(c) => if c == ' ' {
                "Space"@
            } else if c == '\t' {
                "Tab"@
            } else if c == '\n' {
                "Enter"@
            } else {
                ""@.push(c)
            },
            Key::Alt(c) => "M-"@.push(c),
            Key::Ctrl(c) => "C-"@.push(c),
            Key::Paste(_) => "Pasted buf"@,
            Key::Null => "Null byte"@,
            Key::Esc => "Esc"@,
            Key::Backspace => "Backspace"@,
            Key::Left => "Left"@,
            Key::Right => "Right"@,
            Key::Up => "Up"@,
            Key::Down => "Down"@,
            Key::Home => "Home"@,
            Key::End => "End"@,
            Key::PageUp => "PageUp"@,
            Key::PageDown => "PageDown"@,
            Key::Delete => "Delete"@,
            Key::Insert => "Insert"@,
            Key::Mouse(_) => "Mouse"@,
            Key::ChordTimeout => "Chord timeout"@,
        }
    }

    /// How a key is written to the configuration file. A pasted text is
    /// written as it is.
    pub open spec fn written(self) -> Seq<char> {
        match self {
            Key::F(n) => "F"@ + decimal(n),
            Key::Char(c) => if c == '\n' {
                "Enter"@
            } else if c == '\t' {
                "Tab"@
            } else {
                ""@.push(c)
            },
            Key::Alt(c) => "M-"@.push(c),
            Key::Ctrl(c) => "C-"@.push(c),
            Key::Paste(text) => text@,
            Key::Null => "Null"@,
            Key::Esc => "Esc"@,
            Key::Backspace => "Backspace"@,
            Key::Left => "Left"@,
            Key::Right => "Right"@,
            Key::Up => "Up"@,
            Key::Down => "Down"@,
            Key::Home => "Home"@,
            Key::End => "End"@,
            Key::PageUp => "PageUp"@,
            Key::PageDown => "PageDown"@,
            Key::Delete => "Delete"@,
            Key::Insert => "Insert"@,
            Key::Mouse(_) => ""@,
            Key::ChordTimeout => ""@,
        }
    }

    /// The text that shows the key to the user.
    pub fn display_name(&self) -> (r: String)
        ensures
            r@ == self.shown(),
    {
        match self {
            Key::F(n) => {
                let mut text = String::from_str("F");
                push_decimal(&mut text, *n);
                text
            },
            Key::Char(c) => {
                if *c == ' ' {
                    String::from_str("Space")
                } else if *c == '\t' {
                    String::from_str("Tab")
                } else if *c == '\n' {
                    String::from_str("Enter")
                } else {
                    with_char("", *c)
                }
            },
            Key::Alt(c) => with_char("M-", *c),
            Key::Ctrl(c) => with_char("C-", *c),
            Key::Paste(_) => String::from_str("Pasted buf"),
            Key::Null => String::from_str("Null byte"),
            Key::Esc => String::from_str("Esc"),
            Key::Backspace => String::from_str("Backspace"),
            Key::Left => String::from_str("Left"),
            Key::Right => String::from_str("Right"),
            Key::Up => String::from_str("Up"),
            Key::Down => String::from_str("Down"),
            Key::Home => String::from_str("Home"),
            Key::End => String::from_str("End"),
            Key::PageUp => String::from_str("PageUp"),
            Key::PageDown => String::from_str("PageDown"),
            Key::Delete => String::from_str("Delete"),
            Key::Insert => String::from_str("Insert"),
            Key::Mouse(_) => String::from_str("Mouse"),
            Key::ChordTimeout => String::from_str("Chord timeout"),
        }
    }

    /// The text that stands for the key in the configuration file. The
    /// mouse and the end of a chord are never written there.
    pub fn config_name(&self) -> (r: String)
        requires
            !(self is Mouse),
            !(self is ChordTimeout),
        ensures
            r@ == self.written(),
    {
        match self {
            Key::F(n) => {
                let mut text = String::from_str("F");
                push_decimal(&mut text, *n);
                text
            },
            Key::Char(c) => {
                if *c == '\n' {
                    String::from_str("Enter")
                } else if *c == '\t' {
                    String::from_str("Tab")
                } else {
                    with_char("", *c)
                }
            },
            Key::Alt(c) => with_char("M-", *c),
            Key::Ctrl(c) => with_char("C-", *c),
            Key::Paste(text) => text.clone(),
            Key::Null => String::from_str("Null"),
            Key::Esc => String::from_str("Esc"),
            Key::Backspace => String::from_str("Backspace"),
            Key::Left => String::from_str("Left"),
            Key::Right => String::from_str("Right"),
            Key::Up => String::from_str("Up"),
            Key::Down => String::from_str("Down"),
            Key::Home => String::from_str("Home"),
            Key::End => String::from_str("End"),
            Key::PageUp => String::from_str("PageUp"),
            Key::PageDown => String::from_str("PageDown"),
            Key::Delete => String::from_str("Delete"),
            Key::Insert => String::from_str("Insert"),
            Key::Mouse(_) => String::new(),
            Key::ChordTimeout => String::new(),
        }
    }

    /// The key that stands for a pasted text.
    pub fn pasted(text: &String) -> (r: Key)
        ensures
            r == Key::Paste(*text),
    {
        Key::Paste(text.clone())
    }
}

/// A command for the reader of the keyboard.
#[derive(Debug, Clone, Copy, PartialEq, Eq, Structural)]
pub enum InputCommand {
    /// Stop reading.
    Kill,
    /// Stop waiting for the next key of a chord.
    ChordTimeout,
}

} // verus!

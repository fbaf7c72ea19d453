//! The bytes that mean something in a command line.

use vstd::prelude::*;

verus! {

pub const TAB: u8 = 0x09;

pub const LINE_FEED: u8 = 0x0a;

pub const FORM_FEED: u8 = 0x0c;

pub const SPACE: u8 = 0x20;

pub const DOUBLE_QUOTE: u8 = 0x22;

pub const HASH: u8 = 0x23;

pub const DOLLAR: u8 = 0x24;

pub const AMPERSAND: u8 = 0x26;

pub const SINGLE_QUOTE: u8 = 0x27;

pub const LEFT_PAREN: u8 = 0x28;

pub const RIGHT_PAREN: u8 = 0x29;

pub const STAR: u8 = 0x2a;

pub const DIGIT_ZERO: u8 = 0x30;

pub const DIGIT_NINE: u8 = 0x39;

pub const SEMICOLON: u8 = 0x3b;

pub const LESS: u8 = 0x3c;

pub const EQUALS: u8 = 0x3d;

pub const GREATER: u8 = 0x3e;

pub const QUESTION: u8 = 0x3f;

pub const AT: u8 = 0x40;

pub const BACKSLASH: u8 = 0x5c;

pub const BACKTICK: u8 = 0x60;

pub const LEFT_BRACE: u8 = 0x7b;

pub const BAR: u8 = 0x7c;

pub const RIGHT_BRACE: u8 = 0x7d;

} // verus!

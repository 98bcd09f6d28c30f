//! The error renderer. Given a parse error and the source it came
//! from, it produces the source line, a caret line whose arrow sits
//! under the error's byte offset, and the error's message.
use vstd::prelude::*;
use vstd::slice::slice_to_vec;
use crate::lexer::TokenKind;
use crate::parser::{ErrorKind, TokenKindAt};

verus! {

/// The decimal digits of `n`, most significant first.
pub open spec fn dec_digits(n: int) -> Seq<u8>
    decreases n,
{
    if n < 10 {
        seq![(48 + if n >= 0 { n } else { 0 }) as u8]
    } else {
        dec_digits(n / 10).push((48 + n % 10) as u8)
    }
}

/// Renders `n` in decimal.
fn dec_digits_x(n: usize) -> (r: Vec<u8>)
    ensures
        r@ == dec_digits(n as int),
    decreases n,
{
    if n < 10 {
        let d: u8 = 48 + (n as u8);
        let v: Vec<u8> = vec![d];
        proof {
            assert(v@ == dec_digits(n as int));
        }
        v
    } else {
        let mut v = dec_digits_x(n / 10);
        v.push(48 + ((n % 10) as u8));
        v
    }
}

/// A token kind's display name.
pub open spec fn kind_name(k: TokenKind) -> Seq<u8> {
    match k {
        TokenKind::Ident => seq![73u8, 100, 101, 110, 116],
        TokenKind::Integer => seq![73u8, 110, 116, 101, 103, 101, 114],
        TokenKind::Float => seq![70u8, 108, 111, 97, 116],
        TokenKind::Minus => seq![77u8, 105, 110, 117, 115],
        TokenKind::Times => seq![84u8, 105, 109, 101, 115],
        TokenKind::Over => seq![79u8, 118, 101, 114],
        TokenKind::Plus => seq![80u8, 108, 117, 115],
        TokenKind::Eof => seq![69u8, 111, 102],
        TokenKind::Illegal => seq![73u8, 108, 108, 101, 103, 97, 108],
    }
}

fn kind_name_x(k: TokenKind) -> (r: Vec<u8>)
    ensures
        r@ == kind_name(k),
{
    match k {
        TokenKind::Ident => {
            let v: Vec<u8> = vec![73u8, 100, 101, 110, 116];
            proof {
                assert(v@ == kind_name(k));
            }
            v
        },
        TokenKind::Integer => {
            let v: Vec<u8> = vec![73u8, 110, 116, 101, 103, 101, 114];
            proof {
                assert(v@ == kind_name(k));
            }
            v
        },
        TokenKind::Float => {
            let v: Vec<u8> = vec![70u8, 108, 111, 97, 116];
            proof {
                assert(v@ == kind_name(k));
            }
            v
        },
        TokenKind::Minus => {
            let v: Vec<u8> = vec![77u8, 105, 110, 117, 115];
            proof {
                assert(v@ == kind_name(k));
            }
            v
        },
        TokenKind::Times => {
            let v: Vec<u8> = vec![84u8, 105, 109, 101, 115];
            proof {
                assert(v@ == kind_name(k));
            }
            v
        },
        TokenKind::Over => {
            let v: Vec<u8> = vec![79u8, 118, 101, 114];
            proof {
                assert(v@ == kind_name(k));
            }
            v
        },
        TokenKind::Plus => {
            let v: Vec<u8> = vec![80u8, 108, 117, 115];
            proof {
                assert(v@ == kind_name(k));
            }
            v
        },
        TokenKind::Eof => {
            let v: Vec<u8> = vec![69u8, 111, 102];
            proof {
                assert(v@ == kind_name(k));
            }
            v
        },
        TokenKind::Illegal => {
            let v: Vec<u8> = vec![73u8, 108, 108, 101, 103, 97, 108];
            proof {
                assert(v@ == kind_name(k));
            }
            v
        },
    }
}

/// The byte offset an error points at.
pub open spec fn error_location(e: ErrorKind) -> usize {
    match e {
        ErrorKind::UnexpectedToken { token } => token.position,
        ErrorKind::UnexpectedEnd { at } => at,
    }
}

/// An error's message line.
pub open spec fn error_message(e: ErrorKind) -> Seq<u8> {
    match e {
        ErrorKind::UnexpectedToken { token } => seq![117u8, 110, 101, 120, 112, 101, 99, 116, 101, 100, 32, 116, 111, 107, 101, 110, 32] + kind_name(token.kind)
            + seq![32u8, 97, 116, 32, 112, 111, 115, 105, 116, 105, 111, 110, 32] + dec_digits(token.position as int),
        ErrorKind::UnexpectedEnd { at } => seq![117u8, 110, 101, 120, 112, 101, 99, 116, 101, 100, 32, 101, 110, 100, 32, 111, 102, 32, 101, 120, 112, 114, 101, 115, 115, 105, 111, 110, 32, 101, 110, 99, 111, 117, 110, 116, 101, 114, 101, 100, 32, 97, 116, 32, 112, 111, 115, 105, 116, 105, 111, 110, 32] + dec_digits(at as int),
    }
}

/// Builds an error's message line.
fn error_message_x(e: ErrorKind) -> (r: Vec<u8>)
    ensures
        r@ == error_message(e),
{
    match e {
        ErrorKind::UnexpectedToken { token } => {
            let mut m: Vec<u8> = vec![117u8, 110, 101, 120, 112, 101, 99, 116, 101, 100, 32, 116, 111, 107, 101, 110, 32];
            proof {
                assert(m@ == seq![117u8, 110, 101, 120, 112, 101, 99, 116, 101, 100, 32, 116, 111, 107, 101, 110, 32]);
            }
            let mut kn = kind_name_x(token.kind);
            m.append(&mut kn);
            let mut ap: Vec<u8> = vec![32u8, 97, 116, 32, 112, 111, 115, 105, 116, 105, 111, 110, 32];
            proof {
                assert(ap@ == seq![32u8, 97, 116, 32, 112, 111, 115, 105, 116, 105, 111, 110, 32]);
            }
            m.append(&mut ap);
            let mut d = dec_digits_x(token.position);
            m.append(&mut d);
            proof {
                assert(m@ =~= error_message(e));
            }
            m
        },
        ErrorKind::UnexpectedEnd { at } => {
            let mut m: Vec<u8> = vec![117u8, 110, 101, 120, 112, 101, 99, 116, 101, 100, 32, 101, 110, 100, 32, 111, 102, 32, 101, 120, 112, 114, 101, 115, 115, 105, 111, 110, 32, 101, 110, 99, 111, 117, 110, 116, 101, 114, 101, 100, 32, 97, 116, 32, 112, 111, 115, 105, 116, 105, 111, 110, 32];
            proof {
                assert(m@ == seq![117u8, 110, 101, 120, 112, 101, 99, 116, 101, 100, 32, 101, 110, 100, 32, 111, 102, 32, 101, 120, 112, 114, 101, 115, 115, 105, 111, 110, 32, 101, 110, 99, 111, 117, 110, 116, 101, 114, 101, 100, 32, 97, 116, 32, 112, 111, 115, 105, 116, 105, 111, 110, 32]);
            }
            let mut d = dec_digits_x(at);
            m.append(&mut d);
            proof {
                assert(m@ =~= error_message(e));
            }
            m
        },
    }
}

/// A run of `n` spaces.
pub open spec fn spaces(n: int) -> Seq<u8> {
    Seq::new(if n >= 0 { n as nat } else { 0 }, |i: int| 32u8)
}

/// The arrow glyph that points at the error, in its byte encoding.
pub open spec fn arrow() -> Seq<u8> {
    seq![226u8, 134, 179]
}

/// What rendering produces: the source, a line break, spaces up to the
/// error's offset, the arrow, one space, and the message. Rendering is
/// a function of the error and source alone, so rendering the same
/// pair twice gives byte-identical output.
pub open spec fn spec_render(e: ErrorKind, s: Seq<u8>) -> Seq<u8> {
    s + seq![10u8] + spaces(error_location(e) as int) + arrow() + seq![32u8] + error_message(e)
}

/// Renders `error` under its source line with a positioned arrow.
pub fn render_error(error: ErrorKind, source: &[u8]) -> (r: Vec<u8>)
    ensures
        r@ == spec_render(error, source@),
{
    let mut output: Vec<u8> = slice_to_vec(source);
    output.push(10);
    let location = match error {
        ErrorKind::UnexpectedToken { token } => token.position,
        ErrorKind::UnexpectedEnd { at } => at,
    };
    proof {
        assert(location == error_location(error));
        assert(output@ =~= source@ + seq![10u8] + spaces(0));
    }
    let mut i: usize = 0;
    while i < location
        invariant
            0 <= i <= location,
            output@ == source@ + seq![10u8] + spaces(i as int),
        decreases location - i,
    {
        output.push(32);
        proof {
            assert(output@ =~= source@ + seq![10u8] + spaces(i + 1));
        }
        i = i + 1;
    }
    output.push(226);
    output.push(134);
    output.push(179);
    output.push(32);
    let mut m = error_message_x(error);
    output.append(&mut m);
    proof {
        assert(output@ =~= spec_render(error, source@));
    }
    output
}

} // verus!

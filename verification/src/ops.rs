//! The instruction set: decoding one source byte, and filtering a raw
//! program text down to its instruction bytes.

use vstd::prelude::*;

verus! {

/// The eight instructions of the language, one per recognized source byte.
#[derive(Clone, Copy, Debug, PartialEq, Eq, Structural)]
pub enum Operator {
    /// `+`: add one to the current cell, wrapping past 255 to 0.
    Increase,
    /// `-`: subtract one from the current cell, wrapping below 0 to 255.
    Decrease,
    /// `>`: move the tape pointer right, wrapping at the end of the tape.
    MoveRight,
    /// `<`: move the tape pointer left, wrapping at the start of the tape.
    MoveLeft,
    /// `.`: emit the current cell as one output byte.
    Output,
    /// `,`: store one input byte into the current cell.
    Input,
    /// `[`: jump past the matching `]` when the current cell is zero.
    JumpRight,
    /// `]`: jump back past the matching `[` when the current cell is nonzero.
    JumpLeft,
}

/// What a source byte means: the instruction it names, or nothing.
pub open spec fn decode(b: u8) -> Option<Operator> {
    if b == 43 {
        Some(Operator::Increase)
    } else if b == 45 {
        Some(Operator::Decrease)
    } else if b == 62 {
        Some(Operator::MoveRight)
    } else if b == 60 {
        Some(Operator::MoveLeft)
    } else if b == 46 {
        Some(Operator::Output)
    } else if b == 44 {
        Some(Operator::Input)
    } else if b == 91 {
        Some(Operator::JumpRight)
    } else if b == 93 {
        Some(Operator::JumpLeft)
    } else {
        None
    }
}

/// Whether a byte is one of the eight instruction characters.
pub open spec fn is_instruction(b: u8) -> bool {
    decode(b) is Some
}

impl Operator {
    /// Decode one source byte.  Every byte outside the eight instruction
    /// characters is rejected, never treated as a no-op, always with the
    /// same one error message.
    pub fn try_from(value: u8) -> (r: Result<Operator, &'static str>)
        ensures
            match decode(value) {
                Some(op) => r == Ok::<Operator, &'static str>(op),
                None => r matches Err(m) && m@ == "unknown operator!"@,
            },
    {
        if value == 43 {
            Ok(Operator::Increase)
        } else if value == 45 {
            Ok(Operator::Decrease)
        } else if value == 62 {
            Ok(Operator::MoveRight)
        } else if value == 60 {
            Ok(Operator::MoveLeft)
        } else if value == 46 {
            Ok(Operator::Output)
        } else if value == 44 {
            Ok(Operator::Input)
        } else if value == 91 {
            Ok(Operator::JumpRight)
        } else if value == 93 {
            Ok(Operator::JumpLeft)
        } else {
            Err("unknown operator!")
        }
    }
}

/// Keep exactly the instruction bytes of a raw program text, in order,
/// silently dropping everything else (whitespace, comments, and so on).
pub fn filter_program(text: &Vec<u8>) -> (r: Vec<u8>)
    ensures
        r@ == text@.filter(|b: u8| is_instruction(b)),
{
    let mut r: Vec<u8> = Vec::new();
    let mut i: usize = 0;
    while i < text.len()
        invariant
            i <= text@.len(),
            r@ == text@.subrange(0, i as int).filter(|b: u8| is_instruction(b)),
        decreases text@.len() - i,
    {
        let b = text[i];
        proof {
            reveal(Seq::filter);
            assert(text@.subrange(0, i + 1).drop_last() =~= text@.subrange(0, i as int));
            assert(text@.subrange(0, i + 1).last() == b);
        }
        if Operator::try_from(b).is_ok() {
            r.push(b);
        }
        i = i + 1;
    }
    proof {
        assert(text@.subrange(0, text@.len() as int) =~= text@);
    }
    r
}

} // verus!

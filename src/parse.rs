use vstd::prelude::*;
use vstd::utf8::*;

use crate::frame::{copy_bytes, decimal_in, lemma_view_items, view_items, Frame, FrameV};

verus! {

broadcast use vstd::std_specs::vec::group_vec_axioms, vstd::seq::group_seq_axioms;

/// Why the arguments of a command frame cannot be read.
#[derive(Debug, Clone, Copy, PartialEq, Eq, Structural)]
pub enum ParseError {
    /// No argument is left.
    EndOfStream,
    /// The argument, or the whole frame, is of another kind than asked for.
    TypeMismatch,
    /// The argument is not valid UTF-8 where text was asked for.
    Utf8,
    /// The arguments break the command's grammar.
    Invalid,
}

/// A cursor over the parts of an array frame.
pub struct Parse {
    parts: Vec<Frame>,
    pos: usize,
}

/// The text an argument stands for.
pub open spec fn string_of(f: FrameV) -> Result<Seq<char>, ParseError> {
    match f {
        FrameV::Simple(s) => Ok(s),
        FrameV::Bulk(b) => if valid_utf8(b) {
            Ok(decode_utf8(b))
        } else {
            Err(ParseError::Utf8)
        },
        _ => Err(ParseError::TypeMismatch),
    }
}

/// The bytes an argument stands for.
pub open spec fn bytes_of(f: FrameV) -> Result<Seq<u8>, ParseError> {
    match f {
        FrameV::Simple(s) => Ok(encode_utf8(s)),
        FrameV::Bulk(b) => Ok(b),
        _ => Err(ParseError::TypeMismatch),
    }
}

/// The unsigned number an argument stands for.
pub open spec fn int_of(f: FrameV) -> Result<u64, ParseError> {
    match f {
        FrameV::Integer(n) => Ok(n),
        FrameV::Simple(s) => match decimal_in(encode_utf8(s)) {
            Some(n) => Ok(n),
            None => Err(ParseError::Invalid),
        },
        FrameV::Bulk(b) => match decimal_in(b) {
            Some(n) => Ok(n),
            None => Err(ParseError::Invalid),
        },
        _ => Err(ParseError::TypeMismatch),
    }
}

/// Tells whether two strings hold the same characters.
pub fn text_eq(a: &str, b: &str) -> (r: bool)
    ensures
        r == (a@ == b@),
{
    let n = a.unicode_len();
    if n != b.unicode_len() {
        return false;
    }
    let mut i: usize = 0;
    while i < n
        invariant
            n == a@.len() == b@.len(),
            i <= n,
            forall|j: int| 0 <= j < i ==> a@[j] == b@[j],
        decreases n - i,
    {
        if a.get_char(i) != b.get_char(i) {
            return false;
        }
        i += 1;
    }
    assert(a@ =~= b@);
    true
}

impl Parse {
    /// The parts of the frame, as values.
    pub closed spec fn parts(&self) -> Seq<FrameV> {
        view_items(self.parts@)
    }

    /// How many parts have been read.
    pub closed spec fn position(&self) -> int {
        self.pos as int
    }

    /// The cursor stands within the parts.
    pub open spec fn inv(&self) -> bool {
        0 <= self.position() <= self.parts().len()
    }

    /// The parts not yet read.
    pub open spec fn remaining(&self) -> Seq<FrameV> {
        self.parts().subrange(self.position(), self.parts().len() as int)
    }

    /// Starts reading an array frame; any other frame is refused.
    pub fn new(frame: Frame) -> (r: Result<Parse, ParseError>)
        ensures
            match (frame@, r) {
                (FrameV::Array(items), Ok(p)) => p.inv() && p.parts() == items && p.position() == 0,
                (FrameV::Array(_), Err(_)) => false,
                (_, Err(e)) => e == ParseError::TypeMismatch,
                (_, Ok(_)) => false,
            },
    {
        match frame {
            Frame::Array(parts) => {
                proof {
                    lemma_view_items(parts@);
                }
                Ok(Parse { parts, pos: 0 })
            },
            _ => Err(ParseError::TypeMismatch),
        }
    }

    /// The next part as text.
    pub fn next_string(&mut self) -> (r: Result<String, ParseError>)
        requires
            old(self).inv(),
        ensures
            final(self).inv(),
            final(self).parts() == old(self).parts(),
            old(self).remaining().len() == 0 ==> r == Err::<String, ParseError>(ParseError::EndOfStream)
                && final(self).position() == old(self).position(),
            old(self).remaining().len() > 0 ==> final(self).position() == old(self).position() + 1
                && match (r, string_of(old(self).remaining()[0])) {
                (Ok(s), Ok(t)) => s@ == t,
                (Err(e1), Err(e2)) => e1 == e2,
                _ => false,
            },
    {
        proof {
            lemma_view_items(self.parts@);
        }
        if self.pos >= self.parts.len() {
            return Err(ParseError::EndOfStream);
        }
        let i = self.pos;
        self.pos = self.pos + 1;
        match &self.parts[i] {
            Frame::Simple(s) => Ok(s.clone()),
            Frame::Bulk(b) => {
                let copy = copy_bytes(b.as_slice());
                match crate::frame::string_from_utf8(copy) {
                    Some(s) => Ok(s),
                    None => Err(ParseError::Utf8),
                }
            },
            _ => Err(ParseError::TypeMismatch),
        }
    }

    /// The next part as bytes.
    pub fn next_bytes(&mut self) -> (r: Result<Vec<u8>, ParseError>)
        requires
            old(self).inv(),
        ensures
            final(self).inv(),
            final(self).parts() == old(self).parts(),
            old(self).remaining().len() == 0 ==> r == Err::<Vec<u8>, ParseError>(ParseError::EndOfStream)
                && final(self).position() == old(self).position(),
            old(self).remaining().len() > 0 ==> final(self).position() == old(self).position() + 1
                && match (r, bytes_of(old(self).remaining()[0])) {
                (Ok(s), Ok(t)) => s@ == t,
                (Err(e1), Err(e2)) => e1 == e2,
                _ => false,
            },
    {
        proof {
            lemma_view_items(self.parts@);
        }
        if self.pos >= self.parts.len() {
            return Err(ParseError::EndOfStream);
        }
        let i = self.pos;
        self.pos = self.pos + 1;
        match &self.parts[i] {
            Frame::Simple(s) => Ok(copy_bytes(s.as_str().as_bytes())),
            Frame::Bulk(b) => Ok(copy_bytes(b.as_slice())),
            _ => Err(ParseError::TypeMismatch),
        }
    }

    /// The next part as an unsigned number.
    pub fn next_int(&mut self) -> (r: Result<u64, ParseError>)
        requires
            old(self).inv(),
        ensures
            final(self).inv(),
            final(self).parts() == old(self).parts(),
            old(self).remaining().len() == 0 ==> r == Err::<u64, ParseError>(ParseError::EndOfStream)
                && final(self).position() == old(self).position(),
            old(self).remaining().len() > 0 ==> final(self).position() == old(self).position() + 1
                && r == int_of(old(self).remaining()[0]),
    {
        proof {
            lemma_view_items(self.parts@);
        }
        if self.pos >= self.parts.len() {
            return Err(ParseError::EndOfStream);
        }
        let i = self.pos;
        self.pos = self.pos + 1;
        match &self.parts[i] {
            Frame::Integer(n) => Ok(*n),
            Frame::Simple(s) => match crate::frame::parse_decimal(s.as_str().as_bytes()) {
                Some(n) => Ok(n),
                None => Err(ParseError::Invalid),
            },
            Frame::Bulk(b) => match crate::frame::parse_decimal(b.as_slice()) {
                Some(n) => Ok(n),
                None => Err(ParseError::Invalid),
            },
            _ => Err(ParseError::TypeMismatch),
        }
    }

    /// Checks that every part has been read.
    pub fn finish(&self) -> (r: Result<(), ParseError>)
        requires
            self.inv(),
        ensures
            r is Ok <==> self.remaining().len() == 0,
            r is Err ==> r == Err::<(), ParseError>(ParseError::Invalid),
    {
        proof {
            lemma_view_items(self.parts@);
        }
        if self.pos == self.parts.len() {
            Ok(())
        } else {
            Err(ParseError::Invalid)
        }
    }
}

} // verus!

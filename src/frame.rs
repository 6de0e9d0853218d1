use vstd::prelude::*;
use vstd::utf8::*;

verus! {

broadcast use vstd::std_specs::vec::group_vec_axioms, vstd::seq::group_seq_axioms;

/// Largest length a bulk string or an array may declare on the wire.
pub const MAX_FRAME_LEN: u64 = 536870912;

/// One protocol message.
#[derive(Debug)]
pub enum Frame {
    Simple(String),
    Error(String),
    Integer(u64),
    Bulk(Vec<u8>),
    Null,
    Array(Vec<Frame>),
}

/// The mathematical value of a frame.
pub enum FrameV {
    Simple(Seq<char>),
    Error(Seq<char>),
    Integer(u64),
    Bulk(Seq<u8>),
    Null,
    Array(Seq<FrameV>),
}

/// Why a byte buffer does not start with a frame.
#[derive(Debug, Clone, Copy, PartialEq, Eq, Structural)]
pub enum FrameError {
    /// More bytes are needed before a frame can be read.
    Incomplete,
    /// The bytes break the wire format.
    Protocol,
    /// A status or error line is not valid UTF-8.
    Utf8,
    /// A number does not fit, or a declared length is above `MAX_FRAME_LEN`.
    Overflow,
}

impl View for Frame {
    type V = FrameV;

    open spec fn view(&self) -> FrameV
        decreases self,
    {
        match self {
            Frame::Simple(s) => FrameV::Simple(s@),
            Frame::Error(s) => FrameV::Error(s@),
            Frame::Integer(n) => FrameV::Integer(*n),
            Frame::Bulk(b) => FrameV::Bulk(b@),
            Frame::Null => FrameV::Null,
            Frame::Array(v) => FrameV::Array(view_items(v@)),
        }
    }
}

/// The values of a sequence of frames.
pub open spec fn view_items(v: Seq<Frame>) -> Seq<FrameV>
    decreases v,
{
    if v.len() == 0 {
        Seq::empty()
    } else {
        view_items(v.drop_last()).push(v.last().view())
    }
}

pub open spec fn crlf() -> Seq<u8> {
    seq![13u8, 10u8]
}

/// No carriage return and no line feed among the bytes.
pub open spec fn no_crlf(b: Seq<u8>) -> bool {
    forall|i: int| 0 <= i < b.len() ==> b[i] != 13u8 && b[i] != 10u8
}

/// The ASCII decimal digits of `n`, most significant first, without leading zeros.
pub open spec fn digits(n: nat) -> Seq<u8>
    decreases n,
{
    if n < 10 {
        seq![(48 + n) as u8]
    } else {
        digits(n / 10).push((48 + n % 10) as u8)
    }
}

pub open spec fn is_digit(c: u8) -> bool {
    48 <= c <= 57
}

pub open spec fn all_digits(s: Seq<u8>) -> bool {
    forall|i: int| 0 <= i < s.len() ==> is_digit(#[trigger] s[i])
}

/// The number that a string of decimal digits spells.
pub open spec fn dec_value(s: Seq<u8>) -> nat
    decreases s.len(),
{
    if s.len() == 0 {
        0
    } else {
        dec_value(s.drop_last()) * 10 + (s.last() - 48) as nat
    }
}

/// A frame that can travel on the wire: status lines hold no line break and
/// declared lengths stay within `MAX_FRAME_LEN`.
pub open spec fn well_formed(f: FrameV) -> bool
    decreases f,
{
    match f {
        FrameV::Simple(s) => no_crlf(encode_utf8(s)),
        FrameV::Error(s) => no_crlf(encode_utf8(s)),
        FrameV::Bulk(b) => b.len() <= MAX_FRAME_LEN,
        FrameV::Array(items) => items.len() <= MAX_FRAME_LEN && forall|i: int|
            0 <= i < items.len() ==> well_formed(#[trigger] items[i]),
        _ => true,
    }
}

/// The bytes that stand for a frame on the wire.
pub open spec fn encode(f: FrameV) -> Seq<u8>
    decreases f,
{
    match f {
        FrameV::Simple(s) => seq![43u8] + encode_utf8(s) + crlf(),
        FrameV::Error(s) => seq![45u8] + encode_utf8(s) + crlf(),
        FrameV::Integer(n) => seq![58u8] + digits(n as nat) + crlf(),
        FrameV::Bulk(b) => seq![36u8] + digits(b.len()) + crlf() + b + crlf(),
        FrameV::Null => seq![36u8, 45u8, 49u8] + crlf(),
        FrameV::Array(items) => seq![42u8] + digits(items.len()) + crlf() + encode_items(items),
    }
}

/// The frames of a sequence, encoded one after another.
pub open spec fn encode_items(items: Seq<FrameV>) -> Seq<u8>
    decreases items,
{
    if items.len() == 0 {
        Seq::empty()
    } else {
        encode_items(items.drop_last()) + encode(items.last())
    }
}

pub proof fn lemma_view_items(v: Seq<Frame>)
    ensures
        view_items(v).len() == v.len(),
        forall|i: int| 0 <= i < v.len() ==> #[trigger] view_items(v)[i] == v[i]@,
    decreases v.len(),
{
    if v.len() > 0 {
        lemma_view_items(v.drop_last());
        assert(view_items(v) == view_items(v.drop_last()).push(v.last().view()));
    } else {
        assert(view_items(v) == Seq::<FrameV>::empty());
    }
}

pub proof fn lemma_digits(n: nat)
    ensures
        digits(n).len() >= 1,
        all_digits(digits(n)),
        dec_value(digits(n)) == n,
    decreases n,
{
    let d = digits(n);
    if n >= 10 {
        lemma_digits(n / 10);
        assert(d.drop_last() =~= digits(n / 10));
        assert(d.last() == (48 + n % 10) as u8);
        assert(dec_value(d) == dec_value(digits(n / 10)) * 10 + n % 10);
        assert(n == (n / 10) * 10 + n % 10);
    } else {
        assert(d.drop_last() =~= Seq::<u8>::empty());
        assert(dec_value(d) == dec_value(d.drop_last()) * 10 + (d.last() - 48) as nat);
    }
}

pub proof fn lemma_all_digits_no_crlf(s: Seq<u8>)
    requires
        all_digits(s),
    ensures
        no_crlf(s),
{
    assert forall|i: int| 0 <= i < s.len() implies s[i] != 13u8 && s[i] != 10u8 by {
        assert(is_digit(s[i]));
    }
}

/// Appends the decimal digits of `n`.
fn write_decimal(n: u64, out: &mut Vec<u8>)
    ensures
        final(out)@ == old(out)@ + digits(n as nat),
    decreases n,
{
    if n >= 10 {
        write_decimal(n / 10, out);
    }
    out.push((48 + n % 10) as u8);
    assert(final(out)@ =~= old(out)@ + digits(n as nat));
}

fn write_crlf(out: &mut Vec<u8>)
    ensures
        final(out)@ == old(out)@ + crlf(),
{
    out.push(13u8);
    out.push(10u8);
    assert(final(out)@ =~= old(out)@ + crlf());
}

fn write_bytes(b: &[u8], out: &mut Vec<u8>)
    ensures
        final(out)@ == old(out)@ + b@,
{
    let mut i: usize = 0;
    while i < b.len()
        invariant
            i <= b.len(),
            out@ == old(out)@ + b@.subrange(0, i as int),
        decreases b.len() - i,
    {
        out.push(b[i]);
        i += 1;
        assert(out@ =~= old(out)@ + b@.subrange(0, i as int));
    }
    assert(b@.subrange(0, b.len() as int) =~= b@);
}

/// A copy of the bytes.
pub(crate) fn copy_bytes(b: &[u8]) -> (r: Vec<u8>)
    ensures
        r@ == b@,
{
    let mut out: Vec<u8> = Vec::new();
    write_bytes(b, &mut out);
    assert(out@ =~= b@);
    out
}

/// The UTF-8 bytes of a text.
pub(crate) fn text_bytes(s: &str) -> (r: Vec<u8>)
    ensures
        r@ == encode_utf8(s@),
{
    copy_bytes(s.as_bytes())
}

impl Frame {
    /// An empty array frame, to be filled with `push_bulk` and `push_int`.
    pub fn array() -> (r: Frame)
        ensures
            r@ == FrameV::Array(Seq::empty()),
    {
        let r = Frame::Array(Vec::new());
        assert(r@->Array_0 =~= Seq::<FrameV>::empty());
        r
    }

    /// Appends a bulk string to an array frame.
    pub fn push_bulk(&mut self, b: Vec<u8>)
        requires
            old(self)@ is Array,
        ensures
            final(self)@ == FrameV::Array(old(self)@->Array_0.push(FrameV::Bulk(b@))),
    {
        let ghost items = old(self)@->Array_0;
        let ghost bv = b@;
        match self {
            Frame::Array(v) => {
                let ghost before = v@;
                let item = Frame::Bulk(b);
                assert(item@ == FrameV::Bulk(bv));
                v.push(item);
                assert(v@.drop_last() =~= before);
            },
            _ => {},
        }
    }

    /// Appends an integer to an array frame.
    pub fn push_int(&mut self, n: u64)
        requires
            old(self)@ is Array,
        ensures
            final(self)@ == FrameV::Array(old(self)@->Array_0.push(FrameV::Integer(n))),
    {
        match self {
            Frame::Array(v) => {
                let ghost before = v@;
                let item = Frame::Integer(n);
                assert(item@ == FrameV::Integer(n));
                v.push(item);
                assert(v@.drop_last() =~= before);
            },
            _ => {},
        }
    }

    /// Appends the wire form of the frame.
    pub fn write_to(&self, out: &mut Vec<u8>)
        ensures
            final(out)@ == old(out)@ + encode(self@),
        decreases self,
    {
        match self {
            Frame::Simple(s) => {
                out.push(43u8);
                write_bytes(s.as_str().as_bytes(), out);
                write_crlf(out);
            },
            Frame::Error(s) => {
                out.push(45u8);
                write_bytes(s.as_str().as_bytes(), out);
                write_crlf(out);
            },
            Frame::Integer(n) => {
                out.push(58u8);
                write_decimal(*n, out);
                write_crlf(out);
            },
            Frame::Bulk(b) => {
                out.push(36u8);
                write_decimal(b.len() as u64, out);
                write_crlf(out);
                write_bytes(b.as_slice(), out);
                write_crlf(out);
            },
            Frame::Null => {
                out.push(36u8);
                out.push(45u8);
                out.push(49u8);
                write_crlf(out);
            },
            Frame::Array(v) => {
                out.push(42u8);
                write_decimal(v.len() as u64, out);
                write_crlf(out);
                let ghost head = out@;
                let ghost items = self@->Array_0;
                proof {
                    lemma_view_items(v@);
                }
                let mut i: usize = 0;
                while i < v.len()
                    invariant
                        *self == Frame::Array(*v),
                        i <= v.len(),
                        items.len() == v.len(),
                        forall|j: int| 0 <= j < v.len() ==> items[j] == (#[trigger] v[j])@,
                        out@ == head + encode_items(items.subrange(0, i as int)),
                    decreases v.len() - i,
                {
                    assert(decreases_to!(self->Array_0 => self->Array_0@));
                    assert(decreases_to!(self->Array_0@ => self->Array_0@[i as int]));
                    assert(decreases_to!(*self => self->Array_0));
                    assert(decreases_to!(*self => self->Array_0@[i as int]));
                    v[i].write_to(out);
                    proof {
                        let s = items.subrange(0, i + 1);
                        assert(s.drop_last() =~= items.subrange(0, i as int));
                    }
                    i += 1;
                }
                assert(items.subrange(0, v.len() as int) =~= items);
            },
        }
        assert(final(out)@ =~= old(out)@ + encode(self@));
    }

    /// The wire form of the frame.
    pub fn encode(&self) -> (r: Vec<u8>)
        ensures
            r@ == encode(self@),
    {
        let mut out: Vec<u8> = Vec::new();
        self.write_to(&mut out);
        assert(out@ =~= encode(self@));
        out
    }
}

/// Where the first CR LF pair at or after `i` begins.
pub open spec fn find_crlf(b: Seq<u8>, i: int) -> Option<int>
    decreases b.len() - i,
{
    if i < 0 || i + 1 >= b.len() {
        None
    } else if b[i] == 13u8 && b[i + 1] == 10u8 {
        Some(i)
    } else {
        find_crlf(b, i + 1)
    }
}

/// The unsigned number that a line spells.
pub open spec fn decimal(line: Seq<u8>) -> Result<u64, FrameError> {
    if line.len() == 0 || !all_digits(line) {
        Err(FrameError::Protocol)
    } else if dec_value(line) > u64::MAX {
        Err(FrameError::Overflow)
    } else {
        Ok(dec_value(line) as u64)
    }
}

/// The text that a status or error line holds.
pub open spec fn text_line(line: Seq<u8>) -> Result<Seq<char>, FrameError> {
    if !no_crlf(line) {
        Err(FrameError::Protocol)
    } else if !valid_utf8(line) {
        Err(FrameError::Utf8)
    } else {
        Ok(decode_utf8(line))
    }
}

/// What reading one frame at a position of a buffer gives: the frame and the
/// position just past it, or the reason it cannot be read.
pub enum Decoded {
    Done(FrameV, int),
    Fail(FrameError),
}

pub enum DecodedItems {
    Done(Seq<FrameV>, int),
    Fail(FrameError),
}

/// Reads the frame that starts at `pos`.
pub open spec fn decode_at(b: Seq<u8>, pos: int) -> Decoded
    decreases b.len() - pos, 0int,
{
    if pos < 0 || pos >= b.len() {
        Decoded::Fail(FrameError::Incomplete)
    } else {
        match find_crlf(b, pos + 1) {
            None => Decoded::Fail(FrameError::Incomplete),
            Some(e) => {
                let line = b.subrange(pos + 1, e);
                let next = e + 2;
                let tag = b[pos];
                if e < pos + 1 || next > b.len() {
                    Decoded::Fail(FrameError::Protocol)
                } else if tag == 43u8 {
                    match text_line(line) {
                        Ok(t) => Decoded::Done(FrameV::Simple(t), next),
                        Err(k) => Decoded::Fail(k),
                    }
                } else if tag == 45u8 {
                    match text_line(line) {
                        Ok(t) => Decoded::Done(FrameV::Error(t), next),
                        Err(k) => Decoded::Fail(k),
                    }
                } else if tag == 58u8 {
                    match decimal(line) {
                        Ok(n) => Decoded::Done(FrameV::Integer(n), next),
                        Err(k) => Decoded::Fail(k),
                    }
                } else if tag == 36u8 {
                    if line == seq![45u8, 49u8] {
                        Decoded::Done(FrameV::Null, next)
                    } else {
                        match decimal(line) {
                            Err(k) => Decoded::Fail(k),
                            Ok(n) => if n > MAX_FRAME_LEN {
                                Decoded::Fail(FrameError::Overflow)
                            } else if next + n + 2 > b.len() {
                                Decoded::Fail(FrameError::Incomplete)
                            } else if b[next + n] == 13u8 && b[next + n + 1] == 10u8 {
                                Decoded::Done(FrameV::Bulk(b.subrange(next, next + n)), next + n + 2)
                            } else {
                                Decoded::Fail(FrameError::Protocol)
                            },
                        }
                    }
                } else if tag == 42u8 {
                    match decimal(line) {
                        Err(k) => Decoded::Fail(k),
                        Ok(n) => if n > MAX_FRAME_LEN {
                            Decoded::Fail(FrameError::Overflow)
                        } else {
                            match decode_items(b, next, n as nat) {
                                DecodedItems::Done(items, end) => Decoded::Done(FrameV::Array(items), end),
                                DecodedItems::Fail(k) => Decoded::Fail(k),
                            }
                        },
                    }
                } else {
                    Decoded::Fail(FrameError::Protocol)
                }
            },
        }
    }
}

/// Reads `count` frames one after another from `pos`.
pub open spec fn decode_items(b: Seq<u8>, pos: int, count: nat) -> DecodedItems
    decreases b.len() - pos, count + 1,
{
    if count == 0 {
        DecodedItems::Done(Seq::empty(), pos)
    } else {
        match decode_at(b, pos) {
            Decoded::Fail(k) => DecodedItems::Fail(k),
            Decoded::Done(f, p) => if p <= pos || p > b.len() {
                DecodedItems::Fail(FrameError::Protocol)
            } else {
                match decode_items(b, p, (count - 1) as nat) {
                    DecodedItems::Done(rest, end) => DecodedItems::Done(seq![f] + rest, end),
                    DecodedItems::Fail(k) => DecodedItems::Fail(k),
                }
            },
        }
    }
}

/// Relies on `String::from_utf8`: it accepts exactly the valid UTF-8 byte
/// strings, and the string it returns holds the characters those bytes encode.
#[verifier::external_body]
pub(crate) fn string_from_utf8(b: Vec<u8>) -> (r: Option<String>)
    ensures
        r is Some <==> valid_utf8(b@),
        r is Some ==> r->0@ == decode_utf8(b@),
{
    String::from_utf8(b).ok()
}

fn find_crlf_exec(buf: &[u8], start: usize) -> (r: Option<usize>)
    requires
        start <= buf.len(),
    ensures
        match r {
            Some(e) => find_crlf(buf@, start as int) == Some(e as int) && start <= e && e + 2
                <= buf.len(),
            None => find_crlf(buf@, start as int) is None,
        },
{
    let mut i: usize = start;
    while buf.len() - i >= 2
        invariant
            start <= i <= buf.len(),
            find_crlf(buf@, start as int) == find_crlf(buf@, i as int),
        decreases buf.len() - i,
    {
        if buf[i] == 13u8 && buf[i + 1] == 10u8 {
            return Some(i);
        }
        i += 1;
    }
    None
}

fn copy_range(buf: &[u8], a: usize, e: usize) -> (r: Vec<u8>)
    requires
        a <= e <= buf.len(),
    ensures
        r@ == buf@.subrange(a as int, e as int),
{
    let mut out: Vec<u8> = Vec::new();
    let mut i: usize = a;
    while i < e
        invariant
            a <= i <= e <= buf.len(),
            out@ == buf@.subrange(a as int, i as int),
        decreases e - i,
    {
        out.push(buf[i]);
        i += 1;
        assert(out@ =~= buf@.subrange(a as int, i as int));
    }
    out
}

pub proof fn lemma_dec_value_prefix(s: Seq<u8>, k: int)
    requires
        0 <= k <= s.len(),
    ensures
        dec_value(s.subrange(0, k)) <= dec_value(s),
    decreases s.len(),
{
    if k < s.len() {
        lemma_dec_value_prefix(s.drop_last(), k);
        assert(s.drop_last().subrange(0, k) =~= s.subrange(0, k));
    } else {
        assert(s.subrange(0, k) =~= s);
    }
}

fn decimal_exec(buf: &[u8], a: usize, e: usize) -> (r: Result<u64, FrameError>)
    requires
        a <= e <= buf.len(),
    ensures
        r == decimal(buf@.subrange(a as int, e as int)),
{
    let ghost line = buf@.subrange(a as int, e as int);
    if a == e {
        return Err(FrameError::Protocol);
    }
    let mut i: usize = a;
    while i < e
        invariant
            a <= i <= e <= buf.len(),
            line == buf@.subrange(a as int, e as int),
            forall|j: int| 0 <= j < i - a ==> is_digit(#[trigger] line[j]),
        decreases e - i,
    {
        if buf[i] < 48u8 || buf[i] > 57u8 {
            assert(!is_digit(line[i - a]));
            return Err(FrameError::Protocol);
        }
        i += 1;
    }
    let mut acc: u64 = 0;
    i = a;
    while i < e
        invariant
            a <= i <= e <= buf.len(),
            line == buf@.subrange(a as int, e as int),
            all_digits(line),
            acc as nat == dec_value(line.subrange(0, i - a)),
        decreases e - i,
    {
        assert(line[i - a] == buf@[i as int]);
        assert(is_digit(line[i - a]));
        let d = (buf[i] - 48u8) as u64;
        proof {
            let s = line.subrange(0, i + 1 - a);
            assert(s.drop_last() =~= line.subrange(0, i - a));
            assert(is_digit(line[i - a]));
        }
        match acc.checked_mul(10) {
            None => {
                proof {
                    lemma_dec_value_prefix(line, i + 1 - a);
                }
                return Err(FrameError::Overflow);
            },
            Some(m) => match m.checked_add(d) {
                None => {
                    proof {
                        lemma_dec_value_prefix(line, i + 1 - a);
                    }
                    return Err(FrameError::Overflow);
                },
                Some(v) => {
                    acc = v;
                },
            },
        }
        i += 1;
    }
    assert(line.subrange(0, e - a) =~= line);
    Ok(acc)
}

fn text_exec(buf: &[u8], a: usize, e: usize) -> (r: Result<String, FrameError>)
    requires
        a <= e <= buf.len(),
    ensures
        match (r, text_line(buf@.subrange(a as int, e as int))) {
            (Ok(s), Ok(t)) => s@ == t,
            (Err(k1), Err(k2)) => k1 == k2,
            _ => false,
        },
{
    let ghost line = buf@.subrange(a as int, e as int);
    let mut i: usize = a;
    while i < e
        invariant
            a <= i <= e <= buf.len(),
            line == buf@.subrange(a as int, e as int),
            forall|j: int| 0 <= j < i - a ==> line[j] != 13u8 && line[j] != 10u8,
        decreases e - i,
    {
        if buf[i] == 13u8 || buf[i] == 10u8 {
            assert(line[i - a] == buf@[i as int]);
            return Err(FrameError::Protocol);
        }
        i += 1;
    }
    let bytes = copy_range(buf, a, e);
    match string_from_utf8(bytes) {
        Some(s) => Ok(s),
        None => Err(FrameError::Utf8),
    }
}

/// Reads the frame that starts at `pos` of `buf`.
fn parse_at(buf: &[u8], pos: usize) -> (r: Result<(Frame, usize), FrameError>)
    requires
        pos <= buf.len(),
    ensures
        match (r, decode_at(buf@, pos as int)) {
            (Ok((f, n)), Decoded::Done(fv, end)) => f@ == fv && n == end && pos < n <= buf.len(),
            (Err(k1), Decoded::Fail(k2)) => k1 == k2,
            _ => false,
        },
    decreases buf.len() - pos,
{
    if pos >= buf.len() {
        return Err(FrameError::Incomplete);
    }
    let e = match find_crlf_exec(buf, pos + 1) {
        None => {
            return Err(FrameError::Incomplete);
        },
        Some(e) => e,
    };
    let ghost line = buf@.subrange(pos + 1, e as int);
    let next = e + 2;
    let tag = buf[pos];
    if tag == 43u8 {
        match text_exec(buf, pos + 1, e) {
            Ok(s) => Ok((Frame::Simple(s), next)),
            Err(k) => Err(k),
        }
    } else if tag == 45u8 {
        match text_exec(buf, pos + 1, e) {
            Ok(s) => Ok((Frame::Error(s), next)),
            Err(k) => Err(k),
        }
    } else if tag == 58u8 {
        match decimal_exec(buf, pos + 1, e) {
            Ok(n) => Ok((Frame::Integer(n), next)),
            Err(k) => Err(k),
        }
    } else if tag == 36u8 {
        if e == pos + 3 && buf[pos + 1] == 45u8 && buf[pos + 2] == 49u8 {
            assert(line =~= seq![45u8, 49u8]);
            return Ok((Frame::Null, next));
        }
        assert(line != seq![45u8, 49u8]) by {
            if line == seq![45u8, 49u8] {
                assert(line.len() == 2);
                assert(line[0] == buf@[pos + 1]);
                assert(line[1] == buf@[pos + 2]);
            }
        }
        match decimal_exec(buf, pos + 1, e) {
            Err(k) => Err(k),
            Ok(n) => {
                if n > MAX_FRAME_LEN {
                    Err(FrameError::Overflow)
                } else if n as usize > buf.len() - next || buf.len() - next - (n as usize) < 2 {
                    Err(FrameError::Incomplete)
                } else {
                    let end = next + n as usize;
                    if buf[end] == 13u8 && buf[end + 1] == 10u8 {
                        let body = copy_range(buf, next, end);
                        Ok((Frame::Bulk(body), end + 2))
                    } else {
                        Err(FrameError::Protocol)
                    }
                }
            },
        }
    } else if tag == 42u8 {
        match decimal_exec(buf, pos + 1, e) {
            Err(k) => Err(k),
            Ok(n) => {
                if n > MAX_FRAME_LEN {
                    return Err(FrameError::Overflow);
                }
                let mut items: Vec<Frame> = Vec::new();
                let mut p: usize = next;
                let mut k: u64 = 0;
                assert(view_items(items@) =~= Seq::<FrameV>::empty());
                assert forall|rest: Seq<FrameV>| #[trigger] (Seq::<FrameV>::empty() + rest) == rest by {
                    assert(Seq::<FrameV>::empty() + rest =~= rest);
                }
                while k < n
                    invariant
                        decode_at(buf@, pos as int) == match decode_items(buf@, next as int, n as nat) {
                            DecodedItems::Done(items, end) => Decoded::Done(FrameV::Array(items), end),
                            DecodedItems::Fail(k) => Decoded::Fail(k),
                        },
                        pos < next <= p <= buf.len(),
                        k <= n,
                        items.len() == k,
                        decode_items(buf@, next as int, n as nat) == match decode_items(
                            buf@,
                            p as int,
                            (n - k) as nat,
                        ) {
                            DecodedItems::Done(rest, end) => DecodedItems::Done(
                                view_items(items@) + rest,
                                end,
                            ),
                            DecodedItems::Fail(k) => DecodedItems::Fail(k),
                        },
                    decreases n - k,
                {
                    match parse_at(buf, p) {
                        Err(err) => {
                            return Err(err);
                        },
                        Ok((f, p2)) => {
                            let ghost before = items@;
                            items.push(f);
                            proof {
                                assert(items@.drop_last() =~= before);
                                assert(view_items(items@) == view_items(before).push(f@));
                                assert forall|rest: Seq<FrameV>|
                                    view_items(before) + (seq![f@] + rest) == #[trigger] (
                                    view_items(items@) + rest) by {
                                    assert(view_items(before) + (seq![f@] + rest) =~= view_items(
                                        before,
                                    ).push(f@) + rest);
                                }
                            }
                            p = p2;
                            k += 1;
                        },
                    }
                }
                let r = Frame::Array(items);
                assert(decode_items(buf@, p as int, 0) == DecodedItems::Done(Seq::<FrameV>::empty(), p as int));
                assert(view_items(items@) + Seq::<FrameV>::empty() =~= view_items(items@));
                Ok((r, p))
            },
        }
    } else {
        Err(FrameError::Protocol)
    }
}

impl Frame {
    /// Reads the frame at the start of `buf`: the frame and how many bytes it
    /// took, or why no frame can be read there yet.
    pub fn parse(buf: &[u8]) -> (r: Result<(Frame, usize), FrameError>)
        ensures
            match (r, decode_at(buf@, 0)) {
                (Ok((f, n)), Decoded::Done(fv, end)) => f@ == fv && n == end && 0 < n <= buf.len(),
                (Err(k1), Decoded::Fail(k2)) => k1 == k2,
                _ => false,
            },
    {
        parse_at(buf, 0)
    }
}

/// From `pos` on, `b` holds the bytes of `x`, for as far as `b` goes.
pub open spec fn agrees(b: Seq<u8>, pos: int, x: Seq<u8>) -> bool {
    0 <= pos <= b.len() && forall|j: int|
        0 <= j < x.len() && pos + j < b.len() ==> b[pos + j] == #[trigger] x[j]
}

proof fn lemma_agrees_split(b: Seq<u8>, pos: int, x: Seq<u8>, y: Seq<u8>)
    requires
        agrees(b, pos, x + y),
        pos + x.len() <= b.len(),
    ensures
        agrees(b, pos, x),
        agrees(b, pos + x.len(), y),
{
    assert forall|j: int| 0 <= j < x.len() && pos + j < b.len() implies b[pos + j] == #[trigger] x[j] by {
        assert((x + y)[j] == x[j]);
    }
    assert forall|j: int|
        0 <= j < y.len() && pos + x.len() + j < b.len() implies b[pos + x.len() + j]
        == #[trigger] y[j] by {
        assert((x + y)[x.len() + j] == y[j]);
    }
}

proof fn lemma_find_crlf_at(b: Seq<u8>, i: int, e: int)
    requires
        0 <= i <= e,
        e + 1 < b.len(),
        b[e] == 13u8,
        b[e + 1] == 10u8,
        forall|k: int| i <= k < e ==> b[k] != 13u8,
    ensures
        find_crlf(b, i) == Some(e),
    decreases e - i,
{
    if i < e {
        lemma_find_crlf_at(b, i + 1, e);
    }
}

proof fn lemma_find_crlf_none(b: Seq<u8>, i: int)
    requires
        0 <= i,
        forall|k: int| i <= k < b.len() - 1 ==> b[k] != 13u8,
    ensures
        find_crlf(b, i) is None,
    decreases b.len() - i,
{
    if i + 1 < b.len() {
        lemma_find_crlf_none(b, i + 1);
    }
}

/// A line `tag c CR LF` followed by `tail`, held by `b` from `pos` on.
proof fn lemma_line(b: Seq<u8>, pos: int, tag: u8, c: Seq<u8>, tail: Seq<u8>)
    requires
        agrees(b, pos, seq![tag] + c + crlf() + tail),
        pos < b.len(),
        no_crlf(c),
    ensures
        b[pos] == tag,
        pos + 3 + c.len() <= b.len() ==> find_crlf(b, pos + 1) == Some(pos + 1 + c.len())
            && b.subrange(pos + 1, pos + 1 + c.len()) == c && agrees(b, pos + 3 + c.len(), tail),
        pos + 3 + c.len() > b.len() ==> find_crlf(b, pos + 1) is None,
{
    let w = seq![tag] + c + crlf() + tail;
    assert(w[0] == tag);
    assert forall|k: int| 0 <= k < c.len() implies #[trigger] w[1 + k] == c[k] && c[k] != 13u8 by {}
    assert(w[1 + c.len() as int] == 13u8);
    assert(w[2 + c.len() as int] == 10u8);
    assert forall|k: int| pos + 1 <= k < pos + 1 + c.len() && k < b.len() implies b[k] != 13u8 by {
        assert(w[1 + (k - pos - 1)] == c[k - pos - 1]);
        assert(b[pos + (1 + (k - pos - 1))] == w[1 + (k - pos - 1)]);
    }
    if pos + 3 + c.len() <= b.len() {
        assert(b[pos + (1 + c.len())] == w[1 + c.len() as int]);
        assert(b[pos + (2 + c.len())] == w[2 + c.len() as int]);
        lemma_find_crlf_at(b, pos + 1, pos + 1 + c.len());
        assert forall|k: int| 0 <= k < c.len() implies b.subrange(pos + 1, pos + 1 + c.len())[k]
            == c[k] by {
            assert(b[pos + (1 + k)] == w[1 + k]);
        }
        assert(b.subrange(pos + 1, pos + 1 + c.len()) =~= c);
        assert forall|j: int|
            0 <= j < tail.len() && pos + 3 + c.len() + j < b.len() implies b[pos + 3 + c.len() + j]
            == #[trigger] tail[j] by {
            assert(w[3 + c.len() + j] == tail[j]);
            assert(b[pos + (3 + c.len() + j)] == w[3 + c.len() + j]);
        }
    } else {
        if pos + 2 + c.len() == b.len() {
            assert(b[pos + (1 + c.len())] == w[1 + c.len() as int]);
        }
        lemma_find_crlf_none(b, pos + 1);
    }
}

proof fn lemma_decimal_digits(n: nat)
    requires
        n <= u64::MAX,
    ensures
        decimal(digits(n)) == Ok::<u64, FrameError>(n as u64),
        no_crlf(digits(n)),
        digits(n)[0] != 45u8,
{
    lemma_digits(n);
    lemma_all_digits_no_crlf(digits(n));
    assert(is_digit(digits(n)[0]));
}

proof fn lemma_encode_nonempty(f: FrameV)
    ensures
        encode(f).len() >= 1,
{
    match f {
        FrameV::Simple(s) => assert((seq![43u8] + encode_utf8(s) + crlf())[0] == 43u8),
        FrameV::Error(s) => assert((seq![45u8] + encode_utf8(s) + crlf())[0] == 45u8),
        _ => {},
    }
}

proof fn lemma_encode_items_cons(items: Seq<FrameV>)
    requires
        items.len() >= 1,
    ensures
        encode_items(items) == encode(items[0]) + encode_items(items.subrange(1, items.len() as int)),
    decreases items.len(),
{
    let tail = items.subrange(1, items.len() as int);
    if items.len() == 1 {
        assert(items.drop_last() =~= Seq::<FrameV>::empty());
        assert(tail =~= Seq::<FrameV>::empty());
        assert(encode_items(items) =~= encode(items[0]) + encode_items(tail));
    } else {
        let d = items.drop_last();
        lemma_encode_items_cons(d);
        assert(d.subrange(1, d.len() as int) =~= tail.drop_last());
        assert(tail.last() == items.last());
        assert(encode_items(items) =~= encode(items[0]) + encode_items(tail));
    }
}

proof fn lemma_decode_encode(f: FrameV, b: Seq<u8>, pos: int)
    requires
        well_formed(f),
        agrees(b, pos, encode(f)),
        pos + encode(f).len() <= b.len(),
    ensures
        decode_at(b, pos) == Decoded::Done(f, pos + encode(f).len()),
    decreases f,
{
    match f {
        FrameV::Simple(s) => {
            let c = encode_utf8(s);
            assert(encode(f) =~= seq![43u8] + c + crlf() + Seq::<u8>::empty());
            lemma_line(b, pos, 43u8, c, Seq::empty());
            encode_utf8_valid_utf8(s);
            encode_utf8_decode_utf8(s);
        },
        FrameV::Error(s) => {
            let c = encode_utf8(s);
            assert(encode(f) =~= seq![45u8] + c + crlf() + Seq::<u8>::empty());
            lemma_line(b, pos, 45u8, c, Seq::empty());
            encode_utf8_valid_utf8(s);
            encode_utf8_decode_utf8(s);
        },
        FrameV::Integer(n) => {
            let c = digits(n as nat);
            lemma_decimal_digits(n as nat);
            assert(encode(f) =~= seq![58u8] + c + crlf() + Seq::<u8>::empty());
            lemma_line(b, pos, 58u8, c, Seq::empty());
        },
        FrameV::Null => {
            let c = seq![45u8, 49u8];
            assert(encode(f) =~= seq![36u8] + c + crlf() + Seq::<u8>::empty());
            lemma_line(b, pos, 36u8, c, Seq::empty());
        },
        FrameV::Bulk(blob) => {
            let c = digits(blob.len());
            lemma_decimal_digits(blob.len());
            let tail = blob + crlf();
            assert(encode(f) =~= seq![36u8] + c + crlf() + tail);
            lemma_line(b, pos, 36u8, c, tail);
            let next = pos + 3 + c.len();
            assert(c != seq![45u8, 49u8]) by {
                if c == seq![45u8, 49u8] {
                    assert(c[0] == 45u8);
                }
            }
            assert(tail[blob.len() as int] == 13u8);
            assert(tail[blob.len() + 1int] == 10u8);
            assert(b[next + blob.len()] == tail[blob.len() as int]);
            assert(b[next + (blob.len() + 1)] == tail[blob.len() + 1int]);
            assert forall|k: int| 0 <= k < blob.len() implies b.subrange(next, next + blob.len())[k]
                == blob[k] by {
                assert(tail[k] == blob[k]);
                assert(b[next + k] == tail[k]);
            }
            assert(b.subrange(next, next + blob.len()) =~= blob);
        },
        FrameV::Array(items) => {
            let c = digits(items.len());
            lemma_decimal_digits(items.len());
            let tail = encode_items(items);
            assert(encode(f) =~= seq![42u8] + c + crlf() + tail);
            lemma_line(b, pos, 42u8, c, tail);
            lemma_decode_items(items, b, pos + 3 + c.len());
        },
    }
}

proof fn lemma_decode_items(items: Seq<FrameV>, b: Seq<u8>, p: int)
    requires
        forall|i: int| 0 <= i < items.len() ==> well_formed(#[trigger] items[i]),
        agrees(b, p, encode_items(items)),
        p + encode_items(items).len() <= b.len(),
    ensures
        decode_items(b, p, items.len()) == DecodedItems::Done(items, p + encode_items(items).len()),
    decreases items,
{
    if items.len() == 0 {
        assert(items =~= Seq::<FrameV>::empty());
    } else {
        let tail = items.subrange(1, items.len() as int);
        lemma_encode_items_cons(items);
        lemma_agrees_split(b, p, encode(items[0]), encode_items(tail));
        lemma_decode_encode(items[0], b, p);
        lemma_encode_nonempty(items[0]);
        let p2 = p + encode(items[0]).len();
        assert forall|i: int| 0 <= i < tail.len() implies well_formed(#[trigger] tail[i]) by {
            assert(tail[i] == items[i + 1]);
        }
        lemma_decode_items(tail, b, p2);
        assert(seq![items[0]] + tail =~= items);
    }
}

proof fn lemma_decode_prefix(f: FrameV, b: Seq<u8>, pos: int)
    requires
        well_formed(f),
        agrees(b, pos, encode(f)),
        b.len() < pos + encode(f).len(),
    ensures
        decode_at(b, pos) == Decoded::Fail(FrameError::Incomplete),
    decreases f,
{
    if pos < b.len() {
        match f {
            FrameV::Simple(s) => {
                assert(encode(f) =~= seq![43u8] + encode_utf8(s) + crlf() + Seq::<u8>::empty());
                lemma_line(b, pos, 43u8, encode_utf8(s), Seq::empty());
            },
            FrameV::Error(s) => {
                assert(encode(f) =~= seq![45u8] + encode_utf8(s) + crlf() + Seq::<u8>::empty());
                lemma_line(b, pos, 45u8, encode_utf8(s), Seq::empty());
            },
            FrameV::Integer(n) => {
                lemma_decimal_digits(n as nat);
                assert(encode(f) =~= seq![58u8] + digits(n as nat) + crlf() + Seq::<u8>::empty());
                lemma_line(b, pos, 58u8, digits(n as nat), Seq::empty());
            },
            FrameV::Null => {
                assert(encode(f) =~= seq![36u8] + seq![45u8, 49u8] + crlf() + Seq::<u8>::empty());
                lemma_line(b, pos, 36u8, seq![45u8, 49u8], Seq::empty());
            },
            FrameV::Bulk(blob) => {
                let c = digits(blob.len());
                lemma_decimal_digits(blob.len());
                assert(encode(f) =~= seq![36u8] + c + crlf() + (blob + crlf()));
                lemma_line(b, pos, 36u8, c, blob + crlf());
                assert(c != seq![45u8, 49u8]) by {
                    if c == seq![45u8, 49u8] {
                        assert(c[0] == 45u8);
                    }
                }
            },
            FrameV::Array(items) => {
                let c = digits(items.len());
                lemma_decimal_digits(items.len());
                let tail = encode_items(items);
                assert(encode(f) =~= seq![42u8] + c + crlf() + tail);
                lemma_line(b, pos, 42u8, c, tail);
                if pos + 3 + c.len() <= b.len() {
                    lemma_decode_items_prefix(items, b, pos + 3 + c.len());
                }
            },
        }
    }
}

proof fn lemma_decode_items_prefix(items: Seq<FrameV>, b: Seq<u8>, p: int)
    requires
        forall|i: int| 0 <= i < items.len() ==> well_formed(#[trigger] items[i]),
        agrees(b, p, encode_items(items)),
        b.len() < p + encode_items(items).len(),
    ensures
        decode_items(b, p, items.len()) == DecodedItems::Fail(FrameError::Incomplete),
    decreases items,
{
    if items.len() == 0 {
        assert(encode_items(items).len() == 0);
    } else {
        let tail = items.subrange(1, items.len() as int);
        lemma_encode_items_cons(items);
        let e0 = encode(items[0]);
        assert forall|i: int| 0 <= i < tail.len() implies well_formed(#[trigger] tail[i]) by {
            assert(tail[i] == items[i + 1]);
        }
        if b.len() < p + e0.len() {
            assert forall|j: int| 0 <= j < e0.len() && p + j < b.len() implies b[p + j]
                == #[trigger] e0[j] by {
                assert((e0 + encode_items(tail))[j] == e0[j]);
            }
            lemma_decode_prefix(items[0], b, p);
        } else {
            lemma_agrees_split(b, p, e0, encode_items(tail));
            lemma_decode_encode(items[0], b, p);
            lemma_encode_nonempty(items[0]);
            lemma_decode_items_prefix(tail, b, p + e0.len());
        }
    }
}

/// Reading back the bytes of a well-formed frame gives that frame, and stops
/// exactly where its bytes end, whatever follows them.
pub proof fn lemma_round_trip(f: FrameV, rest: Seq<u8>)
    requires
        well_formed(f),
    ensures
        decode_at(encode(f) + rest, 0) == Decoded::Done(f, encode(f).len() as int),
{
    let b = encode(f) + rest;
    assert forall|j: int| 0 <= j < encode(f).len() && j < b.len() implies b[0 + j] == #[trigger] encode(
        f,
    )[j] by {}
    lemma_decode_encode(f, b, 0);
}

/// Whatever the bytes arrive in pieces, the reader's answer on what has come so
/// far depends only on whether the whole of the next frame is there: until it
/// is, it asks for more; from then on, it gives that frame and how long it was.
pub proof fn lemma_streaming(f: FrameV, rest: Seq<u8>, k: int)
    requires
        well_formed(f),
        0 <= k <= encode(f).len() + rest.len(),
    ensures
        decode_at((encode(f) + rest).subrange(0, k), 0) == if k < encode(f).len() {
            Decoded::Fail(FrameError::Incomplete)
        } else {
            Decoded::Done(f, encode(f).len() as int)
        },
{
    let b = (encode(f) + rest).subrange(0, k);
    assert forall|j: int| 0 <= j < encode(f).len() && 0 + j < b.len() implies b[0 + j]
        == #[trigger] encode(f)[j] by {}
    if k < encode(f).len() {
        lemma_decode_prefix(f, b, 0);
    } else {
        lemma_decode_encode(f, b, 0);
    }
}

proof fn lemma_encode_items_concat(a: Seq<FrameV>, c: Seq<FrameV>)
    ensures
        encode_items(a + c) == encode_items(a) + encode_items(c),
    decreases c.len(),
{
    if c.len() == 0 {
        assert(a + c =~= a);
        assert(encode_items(a) + encode_items(c) =~= encode_items(a));
    } else {
        lemma_encode_items_concat(a, c.drop_last());
        assert((a + c).drop_last() =~= a + c.drop_last());
        assert((a + c).last() == c.last());
        assert(encode_items(a + c) =~= encode_items(a) + encode_items(c));
    }
}

/// Frames that arrive in pieces are read the same whatever the pieces: from
/// the first `k` bytes of a stream of well-formed frames, reading frame after
/// frame gives exactly the `j` frames whose bytes lie wholly within those `k`,
/// ending where they end, and the next frame, if any, reads as incomplete.
pub proof fn lemma_streaming_frames(fs: Seq<FrameV>, rest: Seq<u8>, j: int, k: int)
    requires
        forall|i: int| 0 <= i < fs.len() ==> well_formed(#[trigger] fs[i]),
        0 <= j <= fs.len(),
        encode_items(fs.subrange(0, j)).len() <= k <= encode_items(fs).len() + rest.len(),
        j < fs.len() ==> k < encode_items(fs.subrange(0, j)).len() + encode(fs[j]).len(),
    ensures
        decode_items((encode_items(fs) + rest).subrange(0, k), 0, j as nat) == DecodedItems::Done(
            fs.subrange(0, j),
            encode_items(fs.subrange(0, j)).len() as int,
        ),
        j < fs.len() ==> decode_at(
            (encode_items(fs) + rest).subrange(0, k),
            encode_items(fs.subrange(0, j)).len() as int,
        ) == Decoded::Fail(FrameError::Incomplete),
{
    let b = (encode_items(fs) + rest).subrange(0, k);
    let head = fs.subrange(0, j);
    let tail = fs.subrange(j, fs.len() as int);
    assert(head + tail =~= fs);
    lemma_encode_items_concat(head, tail);
    let eh = encode_items(head);
    assert forall|x: int| 0 <= x < eh.len() && 0 + x < b.len() implies b[0 + x] == #[trigger] eh[x] by {
        assert((eh + encode_items(tail))[x] == eh[x]);
    }
    assert forall|x: int| 0 <= x < head.len() implies well_formed(#[trigger] head[x]) by {
        assert(head[x] == fs[x]);
    }
    lemma_decode_items(head, b, 0);
    if j < fs.len() {
        lemma_encode_items_cons(tail);
        assert(tail[0] == fs[j]);
        let e0 = encode(fs[j]);
        let et = encode_items(tail.subrange(1, tail.len() as int));
        assert forall|x: int| 0 <= x < e0.len() && eh.len() + x < b.len() implies b[eh.len() + x]
            == #[trigger] e0[x] by {
            assert((eh + (e0 + et))[eh.len() + x] == e0[x]);
        }
        lemma_decode_prefix(fs[j], b, eh.len() as int);
    }
}

/// The number a whole byte string spells in decimal, if it is one and fits.
pub open spec fn decimal_in(b: Seq<u8>) -> Option<u64> {
    match decimal(b) {
        Ok(n) => Some(n),
        Err(_) => None,
    }
}

/// Reads a whole byte string as an unsigned decimal number.
pub fn parse_decimal(b: &[u8]) -> (r: Option<u64>)
    ensures
        r == decimal_in(b@),
{
    assert(b@.subrange(0, b.len() as int) =~= b@);
    match decimal_exec(b, 0, b.len()) {
        Ok(n) => Some(n),
        Err(_) => None,
    }
}

} // verus!

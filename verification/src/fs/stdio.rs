//! The console as standard input and output.

use vstd::prelude::*;
use vstd::utf8::{decode_utf8, encode_utf8, valid_utf8};

use super::buffer::{File, UserBuffer};

verus! {

/// Standard input: reads from the console.
pub struct Stdin;

/// Standard output: writes to the console.
pub struct Stdout;

impl File for Stdin {
    /// Standard input can be read.
    open spec fn can_read(&self) -> bool {
        true
    }

    /// Standard input cannot be written.
    open spec fn can_write(&self) -> bool {
        false
    }

    fn readable(&self) -> (r: bool) {
        true
    }

    fn writable(&self) -> (r: bool) {
        false
    }
}

impl File for Stdout {
    /// Standard output cannot be read.
    open spec fn can_read(&self) -> bool {
        false
    }

    /// Standard output can be written.
    open spec fn can_write(&self) -> bool {
        true
    }

    fn readable(&self) -> (r: bool) {
        false
    }

    fn writable(&self) -> (r: bool) {
        true
    }
}

/// `std::str::from_utf8`: the text that `bytes` encode, or `None` when they
/// are not valid UTF-8.  As its documentation says, the text is there
/// exactly when the bytes are valid UTF-8, and then it is what they decode
/// to.
#[verifier::external_body]
fn utf8_text(bytes: &[u8]) -> (r: Option<&str>)
    ensures
        r.is_some() == valid_utf8(bytes@),
        r matches Some(s) ==> s@ == decode_utf8(bytes@),
{
    std::str::from_utf8(bytes).ok()
}

/// `char::encode_utf8`: the UTF-8 encoding of `c`.
#[verifier::external_body]
fn utf8_bytes(c: char) -> (r: Vec<u8>)
    ensures
        r@ == encode_utf8(seq![c]),
{
    let mut buf = [0u8; 4];
    c.encode_utf8(&mut buf).as_bytes().to_vec()
}

/// Console input kept between reads: bytes received but not yet decoded,
/// and characters decoded but not yet read.
pub struct StdinBuffer {
    pub bytes: Vec<u8>,
    pub chars: Vec<char>,
}

/// What a read of standard input does after the console answered.
pub enum StdinStep {
    /// Nothing has arrived yet: ask the console again.
    Waiting,
    /// Input is arriving: ask the console for more.
    Receiving,
    /// The read is over: these are the bytes of the character read.
    Done { bytes: Vec<u8> },
    /// What arrived was not UTF-8 and was dropped: the read fails.
    Failed,
}

impl StdinBuffer {
    /// Nothing received, nothing decoded.
    pub fn new() -> (r: Self)
        ensures
            r.bytes@.len() == 0,
            r.chars@.len() == 0,
    {
        StdinBuffer { bytes: Vec::new(), chars: Vec::new() }
    }

    /// Records a byte received from the console.
    pub fn push_byte(&mut self, byte: u8)
        ensures
            final(self).bytes@ == old(self).bytes@.push(byte),
            final(self).chars@ == old(self).chars@,
    {
        self.bytes.push(byte);
    }

    /// Number of characters decoded and not yet read.
    pub fn chars_len(&self) -> (r: usize)
        ensures
            r == self.chars@.len(),
    {
        self.chars.len()
    }

    /// Decodes the bytes received: when they are valid UTF-8 their
    /// characters are queued; either way the bytes are dropped.  Returns
    /// whether they were valid.
    pub fn generate_chars(&mut self) -> (r: bool)
        ensures
            r == valid_utf8(old(self).bytes@),
            final(self).bytes@.len() == 0,
            final(self).chars@ == if r {
                old(self).chars@ + decode_utf8(old(self).bytes@)
            } else {
                old(self).chars@
            },
    {
        let r = match utf8_text(self.bytes.as_slice()) {
            Some(text) => {
                let n = text.unicode_len();
                let mut i: usize = 0;
                let ghost start = self.chars@;
                while i < n
                    invariant
                        i <= n,
                        n == text@.len(),
                        self.chars@ == start + text@.subrange(0, i as int),
                    decreases n - i,
                {
                    self.chars.push(text.get_char(i));
                    i = i + 1;
                    proof {
                        assert(self.chars@ =~= start + text@.subrange(0, i as int));
                    }
                }
                proof {
                    assert(text@.subrange(0, n as int) =~= text@);
                }
                true
            },
            None => false,
        };
        self.bytes.clear();
        r
    }

    /// Takes the first character decoded and gives its UTF-8 bytes.
    pub fn getchar_bytes(&mut self) -> (r: Vec<u8>)
        requires
            old(self).chars@.len() > 0,
        ensures
            r@ == encode_utf8(seq![old(self).chars@[0]]),
            final(self).chars@ == old(self).chars@.drop_first(),
            final(self).bytes@ == old(self).bytes@,
    {
        let c = self.chars.remove(0);
        utf8_bytes(c)
    }

    /// One answer `value` of the console during a read that found no
    /// character waiting; `started` tells whether a byte has arrived during
    /// this read.  Before the first byte, -1 (nothing) means waiting on;
    /// any other value is a byte received.  After it, a byte is recorded,
    /// and -1 ends the input: the bytes are decoded and the read gives the
    /// first character, or fails when they were not UTF-8.
    pub fn read_step(&mut self, started: bool, value: isize) -> (r: StdinStep)
        requires
            started ==> old(self).bytes@.len() > 0,
        ensures
            value != -1 ==> r is Receiving && final(self).bytes@ == old(self).bytes@.push(value as u8)
                && final(self).chars@ == old(self).chars@,
            value == -1 && !started ==> r is Waiting && *final(self) == *old(self),
            value == -1 && started && !valid_utf8(old(self).bytes@) ==> r is Failed
                && final(self).bytes@.len() == 0 && final(self).chars@ == old(self).chars@,
            value == -1 && started && valid_utf8(old(self).bytes@) ==> {
                let all = old(self).chars@ + decode_utf8(old(self).bytes@);
                &&& r matches StdinStep::Done { bytes } && bytes@ == encode_utf8(seq![all[0]])
                &&& final(self).bytes@.len() == 0
                &&& final(self).chars@ == all.drop_first()
            },
    {
        if value != -1 {
            self.push_byte(value as u8);
            StdinStep::Receiving
        } else if !started {
            StdinStep::Waiting
        } else {
            let ghost bytes = self.bytes@;
            if self.generate_chars() {
                proof {
                    lemma_decode_nonempty(bytes);
                }
                StdinStep::Done { bytes: self.getchar_bytes() }
            } else {
                StdinStep::Failed
            }
        }
    }
}

/// Valid UTF-8 bytes that are not empty decode to at least one character.
proof fn lemma_decode_nonempty(bytes: Seq<u8>)
    requires
        valid_utf8(bytes),
        bytes.len() > 0,
    ensures
        decode_utf8(bytes).len() > 0,
{
}

impl Stdout {
    /// What writing `buf` to the console prints, and the count returned:
    /// the buffer's bytes when they are valid UTF-8 and nothing otherwise;
    /// the count is the buffer's length either way.
    pub fn write(&self, buf: &UserBuffer) -> (r: (Vec<u8>, usize))
        requires
            buf.view().len() <= usize::MAX,
        ensures
            r.0@ == if valid_utf8(buf.view()) {
                buf.view()
            } else {
                Seq::empty()
            },
            r.1 == buf.view().len(),
    {
        let bytes = buf.concat();
        let text = match utf8_text(bytes.as_slice()) {
            Some(_) => bytes,
            None => Vec::new(),
        };
        (text, buf.len())
    }
}

} // verus!

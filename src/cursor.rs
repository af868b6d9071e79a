use vstd::prelude::*;
use vstd::slice::slice_subrange;

verus! {

/// Why a response buffer could not be decoded.
#[derive(Debug, Clone, Copy, PartialEq, Eq, Structural)]
pub enum DecodeError {
    /// The buffer ends before a fixed-size field is complete.
    Truncated,
    /// The leading byte is not the player-info response marker.
    InvalidCommand,
    /// No zero byte lies within the scan window of a string field.
    UnterminatedString,
    /// A duration does not fit in a time span.
    InvalidDuration,
    /// Bytes remain after the declared records.
    TrailingData,
}

/// What `String::from_utf8_lossy` makes of a byte sequence.
pub uninterp spec fn utf8_lossy(b: Seq<u8>) -> Seq<char>;

/// Relies on `String::from_utf8_lossy` (made owned): decodes the bytes as
/// UTF-8, putting U+FFFD in place of each invalid sequence.
#[verifier::external_body]
fn lossy_string(b: &[u8]) -> (r: String)
    ensures
        r@ == utf8_lossy(b@),
{
    String::from_utf8_lossy(b).into_owned()
}

/// The unsigned little-endian value of the eight bytes `s[0..8]`.
pub open spec fn le_u64_value(s: Seq<u8>) -> int {
    s[0] + 256 * (s[1] + 256 * (s[2] + 256 * (s[3] + 256 * (s[4] + 256 * (s[5] + 256 * (s[6]
        + 256 * s[7] as int))))))
}

/// The unsigned little-endian value of the four bytes `s[0..4]`.
pub open spec fn le_u32_value(s: Seq<u8>) -> int {
    s[0] + 256 * (s[1] + 256 * (s[2] + 256 * s[3] as int))
}

/// The end of a scan window of `max` bytes from `pos`, cut at the end of `b`.
pub open spec fn scan_end(b: Seq<u8>, pos: int, max: int) -> int {
    if pos + max < b.len() {
        pos + max
    } else {
        b.len() as int
    }
}

/// The first index in `from..end` that holds a zero byte, if any.
pub open spec fn terminator_at(b: Seq<u8>, from: int, end: int) -> Option<int>
    decreases end - from,
{
    if from >= end {
        None
    } else if b[from] == 0 {
        Some(from)
    } else {
        terminator_at(b, from + 1, end)
    }
}

/// `terminator_at` finds the first zero byte of the range, and finds none
/// only where the range holds no zero byte.
pub proof fn lemma_terminator_at(b: Seq<u8>, from: int, end: int)
    requires
        0 <= from,
        end <= b.len(),
    ensures
        match terminator_at(b, from, end) {
            Some(k) => from <= k < end && b[k] == 0 && forall|j: int|
                from <= j < k ==> b[j] != 0,
            None => forall|j: int| from <= j < end ==> b[j] != 0,
        },
    decreases end - from,
{
    if from < end && b[from] != 0 {
        lemma_terminator_at(b, from + 1, end);
    }
}

/// A forward-only reader over a borrowed byte buffer.
pub struct ByteArrayWithExtraction<'a> {
    bytes: &'a [u8],
    index: usize,
}

impl<'a> ByteArrayWithExtraction<'a> {
    /// The buffer being read.
    pub closed spec fn data(&self) -> Seq<u8> {
        self.bytes@
    }

    /// The offset of the next unread byte.
    pub closed spec fn position(&self) -> int {
        self.index as int
    }

    /// The read position never passes the end of the buffer.
    pub closed spec fn wf(&self) -> bool {
        self.index <= self.bytes@.len()
    }

    /// A well-formed reader stands within its buffer.
    pub proof fn lemma_wf(&self)
        requires
            self.wf(),
        ensures
            0 <= self.position() <= self.data().len(),
    {
    }

    /// A reader at the start of `bytes`.
    pub fn new(bytes: &'a [u8]) -> (r: ByteArrayWithExtraction<'a>)
        ensures
            r.wf(),
            r.data() == bytes@,
            r.position() == 0,
    {
        ByteArrayWithExtraction { bytes, index: 0 }
    }

    /// Reads one byte.
    pub fn extract_u8(&mut self) -> (r: Result<u8, DecodeError>)
        requires
            old(self).wf(),
        ensures
            final(self).wf(),
            final(self).data() == old(self).data(),
            old(self).position() < old(self).data().len() ==> r == Ok::<u8, DecodeError>(
                old(self).data()[old(self).position()],
            ) && final(self).position() == old(self).position() + 1,
            old(self).position() >= old(self).data().len() ==> r == Err::<u8, DecodeError>(
                DecodeError::Truncated,
            ) && final(self).position() == old(self).position(),
    {
        if self.index >= self.bytes.len() {
            return Err(DecodeError::Truncated);
        }
        let value = self.bytes[self.index];
        self.index = self.index + 1;
        Ok(value)
    }
    /// Reads an unsigned 64-bit little-endian integer.
    pub fn extract_u64(&mut self) -> (r: Result<u64, DecodeError>)
        requires
            old(self).wf(),
        ensures
            final(self).wf(),
            final(self).data() == old(self).data(),
            old(self).position() + 8 <= old(self).data().len() ==> r == Ok::<u64, DecodeError>(
                le_u64_value(
                    old(self).data().subrange(old(self).position(), old(self).position() + 8),
                ) as u64,
            ) && final(self).position() == old(self).position() + 8,
            old(self).position() + 8 > old(self).data().len() ==> r == Err::<u64, DecodeError>(
                DecodeError::Truncated,
            ) && final(self).position() == old(self).position(),
    {
        if self.bytes.len() - self.index < 8 {
            return Err(DecodeError::Truncated);
        }
        let i = self.index;
        let b = self.bytes;
        let value: u64 = b[i] as u64 + 256 * (b[i + 1] as u64 + 256 * (b[i + 2] as u64 + 256 * (
        b[i + 3] as u64 + 256 * (b[i + 4] as u64 + 256 * (b[i + 5] as u64 + 256 * (b[i + 6] as u64
            + 256 * b[i + 7] as u64))))));
        self.index = i + 8;
        Ok(value)
    }

    /// Reads the four bytes of a little-endian 32-bit float, as its bit pattern.
    pub fn extract_f32_bits(&mut self) -> (r: Result<u32, DecodeError>)
        requires
            old(self).wf(),
        ensures
            final(self).wf(),
            final(self).data() == old(self).data(),
            old(self).position() + 4 <= old(self).data().len() ==> r == Ok::<u32, DecodeError>(
                le_u32_value(
                    old(self).data().subrange(old(self).position(), old(self).position() + 4),
                ) as u32,
            ) && final(self).position() == old(self).position() + 4,
            old(self).position() + 4 > old(self).data().len() ==> r == Err::<u32, DecodeError>(
                DecodeError::Truncated,
            ) && final(self).position() == old(self).position(),
    {
        if self.bytes.len() - self.index < 4 {
            return Err(DecodeError::Truncated);
        }
        let i = self.index;
        let b = self.bytes;
        let value: u32 = b[i] as u32 + 256 * (b[i + 1] as u32 + 256 * (b[i + 2] as u32 + 256
            * b[i + 3] as u32));
        self.index = i + 4;
        Ok(value)
    }

    /// Reads a zero-terminated string that ends within `max_size` bytes of the
    /// read position. The string keeps its terminator; invalid UTF-8 is
    /// replaced rather than refused.
    pub fn extract_string(&mut self, max_size: usize) -> (r: Result<String, DecodeError>)
        requires
            old(self).wf(),
        ensures
            final(self).wf(),
            final(self).data() == old(self).data(),
            ({
                let b = old(self).data();
                let pos = old(self).position();
                match terminator_at(b, pos, scan_end(b, pos, max_size as int)) {
                    Some(k) => r matches Ok(s) && s@ == utf8_lossy(b.subrange(pos, k + 1))
                        && final(self).position() == k + 1,
                    None => r == Err::<String, DecodeError>(DecodeError::UnterminatedString)
                        && final(self).position() == pos,
                }
            }),
            (forall|j: int|
                old(self).position() <= j < scan_end(
                    old(self).data(),
                    old(self).position(),
                    max_size as int,
                ) ==> old(self).data()[j] != 0) ==> r == Err::<String, DecodeError>(
                DecodeError::UnterminatedString,
            ),
    {
        let ghost b = self.bytes@;
        let ghost pos = self.index as int;
        let ending_index: usize = if max_size < self.bytes.len() - self.index {
            self.index + max_size
        } else {
            self.bytes.len()
        };
        let mut i: usize = self.index;
        while i < ending_index
            invariant
                *self == *old(self),
                b == self.bytes@,
                pos == self.index,
                pos <= i <= ending_index,
                ending_index == scan_end(b, pos, max_size as int),
                ending_index <= b.len(),
                terminator_at(b, i as int, ending_index as int) == terminator_at(
                    b,
                    pos,
                    ending_index as int,
                ),
            decreases ending_index - i,
        {
            if self.bytes[i] == 0 {
                proof {
                    lemma_terminator_at(b, pos, ending_index as int);
                }
                assert(terminator_at(b, i as int, ending_index as int) == Some(i as int));
                let text = lossy_string(slice_subrange(self.bytes, self.index, i + 1));
                self.index = i + 1;
                return Ok(text);
            }
            i = i + 1;
        }
        proof {
            lemma_terminator_at(b, pos, ending_index as int);
        }
        Err(DecodeError::UnterminatedString)
    }

    /// Whether every byte has been read.
    pub fn exhausted(&self) -> (r: bool)
        requires
            self.wf(),
        ensures
            r == (self.position() == self.data().len()),
    {
        self.index >= self.bytes.len()
    }
}

} // verus!

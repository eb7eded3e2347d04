//! The read cursor over the watched file: where consumed content ends,
//! and how the cursor reacts to file growth and truncation.

use vstd::prelude::*;

use crate::lines::{consumed_len, lemma_consumed_shape, lines_of, split_lines, views_of};

verus! {

/// The durable read cursor: the byte offset up to which the watched file has
/// been consumed. It is owned by the caller's single polling loop; every
/// mutation happens through the methods here, so the cursor never moves past
/// a byte that was not handed out as part of a complete line.
pub struct Tailer {
    cursor: u64,
}

impl Tailer {
    /// The byte offset of the first not-yet-consumed byte of the file.
    pub closed spec fn offset(self) -> u64 {
        self.cursor
    }

    /// Start tailing at `end_of_file`: only activity after startup is
    /// observed, never the file's history.
    pub fn new(end_of_file: u64) -> (t: Tailer)
        ensures
            t.offset() == end_of_file,
    {
        Tailer { cursor: end_of_file }
    }

    /// The current cursor offset, for seeking before a read.
    pub fn position(&self) -> (r: u64)
        ensures
            r == self.offset(),
    {
        self.cursor
    }

    /// Truncation check at the start of a drain cycle. If the file is now
    /// shorter than the cursor, it was truncated or replaced: the cursor
    /// resets to the start of the file so newly appended content is still
    /// observed. Otherwise the cursor is untouched.
    pub fn begin_cycle(&mut self, file_size: u64) -> (truncated: bool)
        ensures
            truncated == (file_size < old(self).offset()),
            final(self).offset() == if truncated {
                0u64
            } else {
                old(self).offset()
            },
    {
        if file_size < self.cursor {
            self.cursor = 0;
            true
        } else {
            false
        }
    }

    /// Consumes the bytes read from the file at the cursor: yields every
    /// complete line they hold, each without its terminator, and advances the
    /// cursor exactly past those lines. A trailing fragment without a
    /// terminator is neither yielded nor consumed, so its bytes are read
    /// again on the next cycle once the rest has arrived.
    ///
    /// `new_bytes` must be the file's content from `self.offset()` to its
    /// end, which is the caller's side of the bargain; the bound below only
    /// keeps the advanced cursor representable.
    pub fn drain(&mut self, new_bytes: &Vec<u8>) -> (lines: Vec<Vec<u8>>)
        requires
            old(self).offset() + new_bytes@.len() <= u64::MAX,
        ensures
            views_of(lines@) == lines_of(new_bytes@),
            final(self).offset() == old(self).offset() + consumed_len(new_bytes@),
    {
        let (lines, consumed) = split_lines(new_bytes);
        proof {
            lemma_consumed_shape(new_bytes@);
        }
        self.cursor = self.cursor + consumed as u64;
        lines
    }
}

} // verus!

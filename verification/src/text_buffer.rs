pub mod error;

pub use error::Error;

use crate::position::Point;
use vstd::prelude::*;
use vstd::string::StrSliceExecFns;

verus! {

/// A line-addressable, in-memory text store.
///
/// The buffer holds the full text of one open file as a contiguous
/// sequence of characters with all line separators stripped out; the
/// table `line_sizes` records each line's character count.  The table
/// is the single source of truth for line boundaries: a line is
/// reconstructed on demand by slicing `data` at the running prefix
/// sums of `line_sizes`.
#[derive(Debug, Default)]
pub struct TextBuffer {
    /// Actual character data, separator-free.
    pub data: Vec<char>,
    /// Line descriptors: the character count of each line.
    pub line_sizes: Vec<usize>,
    /// File backing; absent for buffers built from raw text.
    pub path: Option<String>,
    /// Cursor position, owned by the store, moved by the caller
    /// between edits.
    pub cursor: Point,
}

/// Sum of the first `r` entries of a line-size table: the character
/// offset at which line `r` starts.
pub open spec fn sum_to(sizes: Seq<usize>, r: int) -> int
    decreases r,
{
    if r <= 0 {
        0
    } else {
        sum_to(sizes, r - 1) + sizes[r - 1]
    }
}

impl TextBuffer {
    /// The one invariant of the store: the line-size table accounts for
    /// every character of `data`, and nothing more.
    pub open spec fn inv(self) -> bool {
        sum_to(self.line_sizes@, self.line_sizes@.len() as int) == self.data@.len()
    }

    /// The character offset at which line `r` starts.
    pub open spec fn line_start(self, r: int) -> int {
        sum_to(self.line_sizes@, r)
    }

    /// The characters of line `r`, reconstructed from the table.
    pub open spec fn line_at(self, r: int) -> Seq<char> {
        self.data@.subrange(self.line_start(r), self.line_start(r) + self.line_sizes@[r])
    }

    /// Whether `point` addresses an existing character: its row has a
    /// line and its column holds a character of that line.
    pub open spec fn in_bounds(self, point: Point) -> bool {
        point.1 < self.line_sizes@.len() && point.0 < self.line_sizes@[point.1 as int]
    }

    /// Whether a span of `size` characters starting at `point` passes
    /// the span-resolution bound check.  The check deliberately
    /// reserves one character more than the span itself covers; see
    /// `offset_span`.
    pub open spec fn span_in_bounds(self, point: Point, size: int) -> bool {
        point.1 < self.line_sizes@.len() && point.0 + size + 1 <= self.line_sizes@[point.1 as int]
    }

    /// The absolute character offset of `point` in `data`.
    pub open spec fn offset_of(self, point: Point) -> int {
        self.line_start(point.1 as int) + point.0
    }

    /// All lines of the buffer, each reconstructed from the table.
    pub open spec fn buffer_lines(self) -> Seq<Seq<char>> {
        Seq::new(self.line_sizes@.len(), |r: int| self.line_at(r))
    }

    /// The character offset of the first entry of line `row`, computed
    /// by summing the table up to `row`.
    fn start_offset(&self, row: usize) -> (r: usize)
        requires
            self.inv(),
            row <= self.line_sizes@.len(),
        ensures
            r == sum_to(self.line_sizes@, row as int),
    {
        let ghost all = self.line_sizes@;
        // brings the data length into scope: it bounds every prefix
        // sum of the table, so the offset arithmetic cannot overflow
        let total = self.data.len();
        let mut acc: usize = 0;
        let mut i: usize = 0;
        while i < row
            invariant
                i <= row <= all.len(),
                all == self.line_sizes@,
                self.inv(),
                total == self.data@.len(),
                acc == sum_to(all, i as int),
            decreases row - i,
        {
            proof {
                lemma_sum_to_nonneg(all, i as int);
                lemma_sum_to_monotone(all, i + 1, all.len() as int);
                assert(sum_to(all, i + 1) == sum_to(all, i as int) + all[i as int]);
            }
            acc = acc + self.line_sizes[i];
            i = i + 1;
        }
        acc
    }

    /// Shared offset resolution for single-character edits that need a
    /// character to be present: gives the absolute offset of `point`,
    /// or reports the point out of bounds.
    fn offset(&self, point: Point) -> (result: Result<usize, Error>)
        requires
            self.inv(),
        ensures
            self.in_bounds(point) ==> result == Ok::<usize, Error>(
                (self.offset_of(point)) as usize,
            ),
            !self.in_bounds(point) ==> result == Err::<usize, Error>(Error::OutOfBounds(point)),
    {
        let (column, row) = point.into_inner();
        if row >= self.line_sizes.len() {
            return Err(Error::OutOfBounds(point));
        }
        let line_size = self.line_sizes[row];
        if column >= line_size {
            return Err(Error::OutOfBounds(point));
        }
        proof {
            lemma_sum_to_nonneg(self.line_sizes@, row as int);
            lemma_sum_to_monotone(self.line_sizes@, row + 1, self.line_sizes@.len() as int);
            assert(sum_to(self.line_sizes@, row + 1) == sum_to(self.line_sizes@, row as int)
                + self.line_sizes@[row as int]);
        }
        // brings the data length into scope: it bounds every prefix
        // sum of the table, so the offset arithmetic cannot overflow
        let total = self.data.len();
        let start = self.start_offset(row);
        Ok(start + column)
    }

    /// Shared offset resolution for span edits: gives the half-open
    /// offset range `[start, start + size)` that a span of `size`
    /// characters at `point` covers, or reports the point out of
    /// bounds.  The bound check requires `column + size + 1` to fit in
    /// the line, one character more than the span covers: the store
    /// keeps that historical rule exactly, so a span may never touch a
    /// line's last character.
    fn offset_span(&self, point: Point, size: usize) -> (result: Result<(usize, usize), Error>)
        requires
            self.inv(),
        ensures
            self.span_in_bounds(point, size as int) ==> result == Ok::<(usize, usize), Error>(
                ((self.offset_of(point)) as usize, (self.offset_of(point) + size) as usize),
            ),
            !self.span_in_bounds(point, size as int) ==> result == Err::<(usize, usize), Error>(
                Error::OutOfBounds(point),
            ),
    {
        let (column, row) = point.into_inner();
        if row >= self.line_sizes.len() {
            return Err(Error::OutOfBounds(point));
        }
        let line_size = self.line_sizes[row];
        if column >= line_size || size >= line_size - column {
            return Err(Error::OutOfBounds(point));
        }
        proof {
            lemma_sum_to_nonneg(self.line_sizes@, row as int);
            lemma_sum_to_monotone(self.line_sizes@, row + 1, self.line_sizes@.len() as int);
            assert(sum_to(self.line_sizes@, row + 1) == sum_to(self.line_sizes@, row as int)
                + self.line_sizes@[row as int]);
        }
        // brings the data length into scope: it bounds every prefix
        // sum of the table, so the offset arithmetic cannot overflow
        let total = self.data.len();
        let start = self.start_offset(row);
        Ok((start + column, start + column + size))
    }

    /// Inserts a character at `at`, growing the addressed line by one.
    /// Appending at end of line (`column == line length`) succeeds;
    /// a row with no line is out of bounds, and the store is then left
    /// unchanged.
    pub fn insert_char(&mut self, at: Point, ch: char) -> (result: Result<(), Error>)
        requires
            old(self).inv(),
            old(self).data@.len() < usize::MAX,
        ensures
            final(self).inv(),
            at.1 < old(self).line_sizes@.len() && at.0 <= old(self).line_sizes@[at.1 as int]
                ==> {
                &&& result == Ok::<(), Error>(())
                &&& final(self).line_sizes@ == old(self).line_sizes@.update(
                    at.1 as int,
                    (old(self).line_sizes@[at.1 as int] + 1) as usize,
                )
                &&& final(self).data@ == old(self).data@.insert(old(self).offset_of(at), ch)
                &&& final(self).path == old(self).path
                &&& final(self).cursor == old(self).cursor
            },
            !(at.1 < old(self).line_sizes@.len() && at.0 <= old(self).line_sizes@[at.1 as int])
                ==> {
                &&& result == Err::<(), Error>(Error::OutOfBounds(at))
                &&& *final(self) == *old(self)
            },
    {
        let (column, row) = at.into_inner();
        if row >= self.line_sizes.len() {
            return Err(Error::OutOfBounds(at));
        }
        let line_size = self.line_sizes[row];
        if column > line_size {
            return Err(Error::OutOfBounds(at));
        }
        proof {
            lemma_sum_to_nonneg(self.line_sizes@, row as int);
            lemma_sum_to_monotone(self.line_sizes@, row + 1, self.line_sizes@.len() as int);
            assert(sum_to(self.line_sizes@, row + 1) == sum_to(self.line_sizes@, row as int)
                + self.line_sizes@[row as int]);
        }
        // brings the data length into scope: it bounds every prefix
        // sum of the table, so the offset arithmetic cannot overflow
        let total = self.data.len();
        let start = self.start_offset(row);
        let offset = start + column;
        self.line_sizes[row] = line_size + 1;
        self.data.insert(offset, ch);
        proof {
            lemma_sum_to_update(
                old(self).line_sizes@,
                row as int,
                (line_size + 1) as usize,
                old(self).line_sizes@.len() as int,
            );
        }
        Ok(())
    }

    /// Removes the character at `at` and returns it, shrinking the
    /// addressed line by one.  The column must hold a character; on an
    /// out-of-bounds point the store is left unchanged.
    pub fn remove_char(&mut self, at: Point) -> (result: Result<char, Error>)
        requires
            old(self).inv(),
        ensures
            final(self).inv(),
            old(self).in_bounds(at) ==> {
                &&& result == Ok::<char, Error>(old(self).data@[old(self).offset_of(at)])
                &&& final(self).line_sizes@ == old(self).line_sizes@.update(
                    at.1 as int,
                    (old(self).line_sizes@[at.1 as int] - 1) as usize,
                )
                &&& final(self).data@ == old(self).data@.remove(old(self).offset_of(at))
                &&& final(self).path == old(self).path
                &&& final(self).cursor == old(self).cursor
            },
            !old(self).in_bounds(at) ==> {
                &&& result == Err::<char, Error>(Error::OutOfBounds(at))
                &&& *final(self) == *old(self)
            },
    {
        let offset = match self.offset(at) {
            Ok(o) => o,
            Err(e) => {
                return Err(e);
            },
        };
        let (_, row) = at.into_inner();
        let line_size = self.line_sizes[row];
        // brings the data length into scope: it bounds every prefix
        // sum of the table, so the offset arithmetic cannot overflow
        let total = self.data.len();
        proof {
            lemma_sum_to_nonneg(self.line_sizes@, row as int);
            lemma_sum_to_monotone(self.line_sizes@, row + 1, self.line_sizes@.len() as int);
            assert(sum_to(self.line_sizes@, row + 1) == sum_to(self.line_sizes@, row as int)
                + self.line_sizes@[row as int]);
        }
        self.line_sizes[row] = line_size - 1;
        let removed = self.data.remove(offset);
        proof {
            lemma_sum_to_update(
                old(self).line_sizes@,
                row as int,
                (line_size - 1) as usize,
                old(self).line_sizes@.len() as int,
            );
        }
        Ok(removed)
    }

    /// Replaces the character at `at` and returns the old one.  The
    /// line keeps its length.  The span-resolution rule applies with a
    /// span of one, so the point must leave one further character to
    /// its right in the line; otherwise the store is left unchanged.
    pub fn replace_char(&mut self, at: Point, ch: char) -> (result: Result<char, Error>)
        requires
            old(self).inv(),
        ensures
            final(self).inv(),
            old(self).span_in_bounds(at, 1) ==> {
                &&& result == Ok::<char, Error>(old(self).data@[old(self).offset_of(at)])
                &&& final(self).data@ == old(self).data@.update(old(self).offset_of(at), ch)
                &&& final(self).line_sizes == old(self).line_sizes
                &&& final(self).path == old(self).path
                &&& final(self).cursor == old(self).cursor
            },
            !old(self).span_in_bounds(at, 1) ==> {
                &&& result == Err::<char, Error>(Error::OutOfBounds(at))
                &&& *final(self) == *old(self)
            },
    {
        let (start, _end) = match self.offset_span(at, 1) {
            Ok(span) => span,
            Err(e) => {
                return Err(e);
            },
        };
        // brings the data length into scope: it bounds every prefix
        // sum of the table, so the offset arithmetic cannot overflow
        let total = self.data.len();
        proof {
            let row = at.1 as int;
            lemma_sum_to_nonneg(self.line_sizes@, row);
            lemma_sum_to_monotone(self.line_sizes@, row + 1, self.line_sizes@.len() as int);
            assert(sum_to(self.line_sizes@, row + 1) == sum_to(self.line_sizes@, row)
                + self.line_sizes@[row]);
        }
        let old_char = self.data[start];
        self.data[start] = ch;
        Ok(old_char)
    }

    /// Splices `value` into the addressed line at `at`, growing the
    /// line by `value`'s character count.  The span-resolution rule
    /// applies with a span of `value`'s length; on an out-of-bounds
    /// point the store is left unchanged.
    pub fn insert_str(&mut self, at: Point, value: &str) -> (result: Result<(), Error>)
        requires
            old(self).inv(),
            old(self).data@.len() + value@.len() <= usize::MAX,
        ensures
            final(self).inv(),
            old(self).span_in_bounds(at, value@.len() as int) ==> {
                &&& result == Ok::<(), Error>(())
                &&& final(self).line_sizes@ == old(self).line_sizes@.update(
                    at.1 as int,
                    (old(self).line_sizes@[at.1 as int] + value@.len()) as usize,
                )
                &&& final(self).data@ == old(self).data@.subrange(0, old(self).offset_of(at))
                    + value@ + old(self).data@.subrange(
                    old(self).offset_of(at),
                    old(self).data@.len() as int,
                )
                &&& final(self).path == old(self).path
                &&& final(self).cursor == old(self).cursor
            },
            !old(self).span_in_bounds(at, value@.len() as int) ==> {
                &&& result == Err::<(), Error>(Error::OutOfBounds(at))
                &&& *final(self) == *old(self)
            },
    {
        let cs = chars_of_str(value);
        let n = cs.len();
        let (start, _end) = match self.offset_span(at, n) {
            Ok(span) => span,
            Err(e) => {
                return Err(e);
            },
        };
        let (_, row) = at.into_inner();
        let line_size = self.line_sizes[row];
        proof {
            lemma_sum_to_nonneg(self.line_sizes@, row as int);
            lemma_sum_to_monotone(self.line_sizes@, row + 1, self.line_sizes@.len() as int);
            assert(sum_to(self.line_sizes@, row + 1) == sum_to(self.line_sizes@, row as int)
                + self.line_sizes@[row as int]);
        }
        // brings the data length into scope: it bounds every prefix
        // sum of the table, so the offset arithmetic cannot overflow
        let total = self.data.len();
        self.line_sizes[row] = line_size + n;
        self.data = spliced_insert(&self.data, start, &cs);
        proof {
            lemma_sum_to_update(
                old(self).line_sizes@,
                row as int,
                (line_size + n) as usize,
                old(self).line_sizes@.len() as int,
            );
        }
        Ok(())
    }

    /// Removes `size` characters of the addressed line starting at
    /// `at`, returning them, and shrinks the line by `size`.  The
    /// span-resolution rule applies; on an out-of-bounds point the
    /// store is left unchanged.
    pub fn remove_str(&mut self, at: Point, size: usize) -> (result: Result<String, Error>)
        requires
            old(self).inv(),
        ensures
            final(self).inv(),
            old(self).span_in_bounds(at, size as int) ==> {
                &&& result is Ok
                &&& result->Ok_0@ == old(self).data@.subrange(
                    old(self).offset_of(at),
                    old(self).offset_of(at) + size,
                )
                &&& final(self).line_sizes@ == old(self).line_sizes@.update(
                    at.1 as int,
                    (old(self).line_sizes@[at.1 as int] - size) as usize,
                )
                &&& final(self).data@ == old(self).data@.subrange(0, old(self).offset_of(at))
                    + old(self).data@.subrange(
                    old(self).offset_of(at) + size,
                    old(self).data@.len() as int,
                )
                &&& final(self).path == old(self).path
                &&& final(self).cursor == old(self).cursor
            },
            !old(self).span_in_bounds(at, size as int) ==> {
                &&& result == Err::<String, Error>(Error::OutOfBounds(at))
                &&& *final(self) == *old(self)
            },
    {
        let (start, end) = match self.offset_span(at, size) {
            Ok(span) => span,
            Err(e) => {
                return Err(e);
            },
        };
        let (_, row) = at.into_inner();
        let line_size = self.line_sizes[row];
        proof {
            lemma_sum_to_nonneg(self.line_sizes@, row as int);
            lemma_sum_to_monotone(self.line_sizes@, row + 1, self.line_sizes@.len() as int);
            assert(sum_to(self.line_sizes@, row + 1) == sum_to(self.line_sizes@, row as int)
                + self.line_sizes@[row as int]);
        }
        // brings the data length into scope: it bounds every prefix
        // sum of the table, so the offset arithmetic cannot overflow
        let total = self.data.len();
        self.line_sizes[row] = line_size - size;
        let (kept, removed) = spliced_remove(&self.data, start, end);
        self.data = kept;
        proof {
            lemma_sum_to_update(
                old(self).line_sizes@,
                row as int,
                (line_size - size) as usize,
                old(self).line_sizes@.len() as int,
            );
        }
        Ok(string_from_chars(&removed))
    }

    /// Replaces the `value`-sized span of the addressed line at `at`
    /// with `value`, returning the characters it overwrote.  The line
    /// keeps its length (same-length replacement); on an out-of-bounds
    /// point the store is left unchanged.
    pub fn replace_str(&mut self, at: Point, value: &str) -> (result: Result<String, Error>)
        requires
            old(self).inv(),
        ensures
            final(self).inv(),
            old(self).span_in_bounds(at, value@.len() as int) ==> {
                &&& result is Ok
                &&& result->Ok_0@ == old(self).data@.subrange(
                    old(self).offset_of(at),
                    old(self).offset_of(at) + value@.len(),
                )
                &&& final(self).data@ == old(self).data@.subrange(0, old(self).offset_of(at))
                    + value@ + old(self).data@.subrange(
                    old(self).offset_of(at) + value@.len(),
                    old(self).data@.len() as int,
                )
                &&& final(self).line_sizes == old(self).line_sizes
                &&& final(self).path == old(self).path
                &&& final(self).cursor == old(self).cursor
            },
            !old(self).span_in_bounds(at, value@.len() as int) ==> {
                &&& result == Err::<String, Error>(Error::OutOfBounds(at))
                &&& *final(self) == *old(self)
            },
    {
        let cs = chars_of_str(value);
        let n = cs.len();
        let (start, end) = match self.offset_span(at, n) {
            Ok(span) => span,
            Err(e) => {
                return Err(e);
            },
        };
        proof {
            let row = at.1 as int;
            lemma_sum_to_nonneg(self.line_sizes@, row);
            lemma_sum_to_monotone(self.line_sizes@, row + 1, self.line_sizes@.len() as int);
            assert(sum_to(self.line_sizes@, row + 1) == sum_to(self.line_sizes@, row)
                + self.line_sizes@[row]);
        }
        // brings the data length into scope: it bounds every prefix
        // sum of the table, so the offset arithmetic cannot overflow
        let total = self.data.len();
        let (kept, old_part) = spliced_remove(&self.data, start, end);
        let replaced = spliced_insert(&kept, start, &cs);
        self.data = replaced;
        proof {
            let offset = start as int;
            let odata = old(self).data@;
            assert(kept@.subrange(0, offset) =~= odata.subrange(0, offset));
            assert(kept@.subrange(offset, kept@.len() as int) =~= odata.subrange(
                end as int,
                odata.len() as int,
            ));
            assert(self.data@ =~= odata.subrange(0, offset) + value@ + odata.subrange(
                offset + value@.len(),
                odata.len() as int,
            ));
        }
        Ok(string_from_chars(&old_part))
    }

    /// Inserts a new line holding `value` at position `row`.
    ///
    /// Within bounds, the lines at and after `row` shift down by one
    /// and `value`'s characters are spliced into `data` at the start
    /// of the old line `row`.  Beyond the current line count the
    /// buffer grows instead: empty lines pad the table up to `row`,
    /// then the new line is appended.  Inserting a line never fails.
    pub fn insert_line(&mut self, row: usize, value: &str)
        requires
            old(self).inv(),
            old(self).data@.len() + value@.len() <= usize::MAX,
        ensures
            final(self).inv(),
            final(self).path == old(self).path,
            final(self).cursor == old(self).cursor,
            row < old(self).line_sizes@.len() ==> {
                &&& final(self).line_sizes@ == old(self).line_sizes@.insert(
                    row as int,
                    value@.len() as usize,
                )
                &&& final(self).data@ == old(self).data@.subrange(
                    0,
                    old(self).line_start(row as int),
                ) + value@ + old(self).data@.subrange(
                    old(self).line_start(row as int),
                    old(self).data@.len() as int,
                )
            },
            row >= old(self).line_sizes@.len() ==> {
                &&& final(self).line_sizes@ == old(self).line_sizes@ + Seq::new(
                    (row - old(self).line_sizes@.len()) as nat,
                    |k: int| 0usize,
                ).push(value@.len() as usize)
                &&& final(self).data@ == old(self).data@ + value@
            },
    {
        let cs = chars_of_str(value);
        let n = cs.len();
        if row >= self.line_sizes.len() {
            let ghost osizes = old(self).line_sizes@;
            while self.line_sizes.len() < row
                invariant
                    osizes.len() <= self.line_sizes@.len() <= row,
                    self.line_sizes@ == osizes + Seq::new(
                        (self.line_sizes@.len() - osizes.len()) as nat,
                        |k: int| 0usize,
                    ),
                    self.inv(),
                    self.data == old(self).data,
                    self.path == old(self).path,
                    self.cursor == old(self).cursor,
                decreases row - self.line_sizes@.len(),
            {
                let ghost before = self.line_sizes@;
                proof {
                    lemma_sum_to_push(before, 0usize, before.len() as int);
                    assert(sum_to(before.push(0usize), before.len() as int + 1) == sum_to(
                        before.push(0usize),
                        before.len() as int,
                    ) + before.push(0usize)[before.len() as int]);
                }
                self.line_sizes.push(0);
                proof {
                    assert(self.line_sizes@ =~= osizes + Seq::new(
                        (self.line_sizes@.len() - osizes.len()) as nat,
                        |k: int| 0usize,
                    ));
                }
            }
            let ghost padded = self.line_sizes@;
            proof {
                lemma_sum_to_push(padded, n as usize, padded.len() as int);
                assert(sum_to(padded.push(n as usize), padded.len() as int + 1) == sum_to(
                    padded.push(n as usize),
                    padded.len() as int,
                ) + padded.push(n as usize)[padded.len() as int]);
            }
            self.line_sizes.push(n);
            let m = cs.len();
            push_range(&mut self.data, &cs, 0, m);
            proof {
                assert(cs@.subrange(0, cs@.len() as int) =~= cs@);
                assert(self.line_sizes@ =~= osizes + Seq::new(
                    (row - osizes.len()) as nat,
                    |k: int| 0usize,
                ).push(value@.len() as usize));
            }
            return ;
        }
        proof {
            lemma_sum_to_nonneg(self.line_sizes@, row as int);
            lemma_sum_to_monotone(self.line_sizes@, row as int, self.line_sizes@.len() as int);
        }
        // brings the data length into scope: it bounds every prefix
        // sum of the table, so the offset arithmetic cannot overflow
        let total = self.data.len();
        let starting_offset = self.start_offset(row);
        self.line_sizes.insert(row, n);
        self.data = spliced_insert(&self.data, starting_offset, &cs);
        proof {
            lemma_sum_to_insert(
                old(self).line_sizes@,
                row as int,
                n as usize,
                old(self).line_sizes@.len() as int + 1,
            );
        }
    }

    /// Removes the line at `row` and returns its text, or `None`,
    /// without mutating anything, if there is no such row.  The lines
    /// after the removed one shift up by one.
    pub fn remove_line(&mut self, row: usize) -> (result: Option<String>)
        requires
            old(self).inv(),
        ensures
            final(self).inv(),
            final(self).path == old(self).path,
            final(self).cursor == old(self).cursor,
            row >= old(self).line_sizes@.len() ==> {
                &&& result is None
                &&& *final(self) == *old(self)
            },
            row < old(self).line_sizes@.len() ==> {
                &&& result is Some
                &&& result->0@ == old(self).line_at(row as int)
                &&& final(self).line_sizes@ == old(self).line_sizes@.remove(row as int)
                &&& final(self).data@ == old(self).data@.subrange(
                    0,
                    old(self).line_start(row as int),
                ) + old(self).data@.subrange(
                    old(self).line_start(row as int) + old(self).line_sizes@[row as int],
                    old(self).data@.len() as int,
                )
            },
    {
        if row >= self.line_sizes.len() {
            return None;
        }
        proof {
            lemma_sum_to_nonneg(self.line_sizes@, row as int);
            lemma_sum_to_monotone(self.line_sizes@, row + 1, self.line_sizes@.len() as int);
            assert(sum_to(self.line_sizes@, row + 1) == sum_to(self.line_sizes@, row as int)
                + self.line_sizes@[row as int]);
        }
        // brings the data length into scope: it bounds every prefix
        // sum of the table, so the offset arithmetic cannot overflow
        let total = self.data.len();
        let start = self.start_offset(row);
        let size = self.line_sizes.remove(row);
        let end = start + size;
        let (kept, removed) = spliced_remove(&self.data, start, end);
        self.data = kept;
        proof {
            lemma_sum_to_remove(
                old(self).line_sizes@,
                row as int,
                old(self).line_sizes@.len() as int - 1,
            );
        }
        Some(string_from_chars(&removed))
    }

    /// Builds a buffer from raw text, with no backing file.  The text
    /// splits into lines at every newline; a carriage return
    /// immediately before a newline belongs to the separator, and a
    /// final newline terminates the last line rather than opening an
    /// empty one.
    pub fn from_text(text: &str) -> (r: TextBuffer)
        ensures
            r.inv(),
            r.path is None,
            r.cursor.0 == 0 && r.cursor.1 == 0,
            r.buffer_lines() == split_lines(text@),
            r.line_sizes@.len() == split_lines(text@).len(),
            forall|k: int|
                0 <= k < r.line_sizes@.len() ==> r.line_sizes@[k] == split_lines(text@)[k].len(),
            r.data@ == flatten_lines(split_lines(text@)),
    {
        let cs = chars_of_str(text);
        let ghost full = split_lines(cs@);
        let mut data: Vec<char> = Vec::new();
        let mut sizes: Vec<usize> = Vec::new();
        let mut i: usize = 0;
        proof {
            assert(cs@.skip(0) =~= cs@);
            assert(full.skip(0) =~= full);
            assert(full.take(0) =~= Seq::<Seq<char>>::empty());
            assert(flatten_lines(Seq::<Seq<char>>::empty()) == Seq::<char>::empty());
        }
        while i < cs.len()
            invariant
                i <= cs@.len(),
                full == split_lines(cs@),
                split_lines(cs@.skip(i as int)) == full.skip(sizes@.len() as int),
                sizes@.len() <= full.len(),
                forall|k: int| 0 <= k < sizes@.len() ==> sizes@[k] == full[k].len(),
                data@ == flatten_lines(full.take(sizes@.len() as int)),
                sum_to(sizes@, sizes@.len() as int) == data@.len(),
            decreases cs@.len() - i,
        {
            let ghost count = sizes@.len() as int;
            let mut j: usize = i;
            while j < cs.len() && cs[j] != '\n'
                invariant
                    i <= j <= cs@.len(),
                    forall|k: int| i <= k < j ==> cs@[k] != '\n',
                decreases cs@.len() - j,
            {
                j = j + 1;
            }
            let ghost rest = cs@.skip(i as int);
            proof {
                assert forall|k: int| 0 <= k < j - i implies rest[k] != '\n' by {
                    assert(rest[k] == cs@[k + i]);
                };
                if (j as int) < cs@.len() {
                    assert(rest[j - i] == cs@[j as int]);
                }
                lemma_first_nl_at(rest, j - i);
            }
            let line_end = if j < cs.len() && j > i && cs[j - 1] == '\r' {
                j - 1
            } else {
                j
            };
            let ghost line = cs@.subrange(i as int, line_end as int);
            proof {
                // unfold one step of split_lines on the remaining text
                assert(rest.len() > 0);
                if j == cs.len() {
                    assert(rest =~= cs@.subrange(i as int, j as int));
                    assert(split_lines(rest) == seq![rest]);
                    assert(line =~= rest);
                } else {
                    assert(rest.take(j - i) =~= cs@.subrange(i as int, j as int));
                    assert(split_lines(rest) == seq![drop_cr(rest.take(j - i))] + split_lines(
                        rest.skip(j - i + 1),
                    ));
                    if j > i && cs@[j - 1] == '\r' {
                        assert(drop_cr(rest.take(j - i)) =~= line);
                    } else {
                        assert(drop_cr(rest.take(j - i)) =~= line);
                    }
                    assert(rest.skip(j - i + 1) =~= cs@.skip(j + 1));
                }
                // the next line is exactly full[count]
                assert(full.skip(count).len() > 0);
                assert(full.skip(count)[0] == full[count]);
                assert(full[count] == line);
                lemma_flatten_lines_push(full.take(count), line);
                assert(full.take(count).push(full[count]) =~= full.take(count + 1));
                lemma_sum_to_push(sizes@, (line_end - i) as usize, count);
                assert(sum_to(sizes@.push((line_end - i) as usize), count + 1) == sum_to(
                    sizes@.push((line_end - i) as usize),
                    count,
                ) + sizes@.push((line_end - i) as usize)[count]);
            }
            sizes.push(line_end - i);
            push_range(&mut data, &cs, i, line_end);
            proof {
                assert(data@ =~= flatten_lines(full.take(count + 1)));
                if j == cs.len() {
                    assert(cs@.skip(cs@.len() as int) =~= Seq::<char>::empty());
                    assert(split_lines(Seq::<char>::empty()) =~= Seq::<Seq<char>>::empty());
                    assert(full.skip(count).drop_first() =~= full.skip(count + 1));
                    assert(full.skip(count) =~= seq![full[count]]);
                    assert(full.skip(count + 1) =~= Seq::<Seq<char>>::empty());
                } else {
                    assert(full.skip(count).drop_first() =~= full.skip(count + 1));
                    assert(split_lines(rest).drop_first() =~= split_lines(cs@.skip(j + 1)));
                }
            }
            i = if j < cs.len() {
                j + 1
            } else {
                j
            };
        }
        proof {
            assert(cs@.skip(i as int) =~= Seq::<char>::empty());
            assert(split_lines(Seq::<char>::empty()) =~= Seq::<Seq<char>>::empty());
            assert(full.skip(sizes@.len() as int).len() == 0);
            assert(sizes@.len() == full.len());
            assert(full.take(sizes@.len() as int) =~= full);
        }
        let r = TextBuffer { data, line_sizes: sizes, path: None, cursor: Point::new(0, 0) };
        proof {
            assert forall|k: int| 0 <= k < r.line_sizes@.len() implies r.line_at(k) == full[k] by {
                lemma_flatten_lines_index(full, r.line_sizes@, k);
            };
            assert(r.buffer_lines() =~= split_lines(text@));
        }
        r
    }

    /// The exact text that save writes to the backing file: every
    /// line, the last included, followed by one newline.  Fails with
    /// `FileNotSet`, exactly when the buffer has no backing file; the
    /// caller performs the write itself.
    pub fn save_data(&self) -> (result: Result<String, Error>)
        requires
            self.inv(),
        ensures
            self.path is Some ==> {
                &&& result is Ok
                &&& result->Ok_0@ == join_lines(self.buffer_lines())
            },
            self.path is None ==> result == Err::<String, Error>(Error::FileNotSet),
    {
        if self.path.is_none() {
            return Err(Error::FileNotSet);
        }
        let ghost all = self.buffer_lines();
        let mut out: Vec<char> = Vec::new();
        let mut row: usize = 0;
        let mut start: usize = 0;
        proof {
            assert(all.take(0) =~= Seq::<Seq<char>>::empty());
            assert(join_lines(Seq::<Seq<char>>::empty()) == Seq::<char>::empty());
        }
        while row < self.line_sizes.len()
            invariant
                self.inv(),
                row <= self.line_sizes@.len(),
                all == self.buffer_lines(),
                start == sum_to(self.line_sizes@, row as int),
                out@ == join_lines(all.take(row as int)),
            decreases self.line_sizes@.len() - row,
        {
            let size = self.line_sizes[row];
            // brings the data length into scope: it bounds every prefix
        // sum of the table, so the offset arithmetic cannot overflow
        let total = self.data.len();
            proof {
                lemma_sum_to_nonneg(self.line_sizes@, row as int);
                lemma_sum_to_monotone(self.line_sizes@, row + 1, self.line_sizes@.len() as int);
                assert(sum_to(self.line_sizes@, row + 1) == sum_to(self.line_sizes@, row as int)
                    + self.line_sizes@[row as int]);
                lemma_join_lines_push(all.take(row as int), all[row as int]);
                assert(all.take(row as int).push(all[row as int]) =~= all.take(row + 1));
            }
            let end = start + size;
            push_range(&mut out, &self.data, start, end);
            out.push('\n');
            proof {
                assert(out@ =~= join_lines(all.take(row + 1)));
            }
            start = end;
            row = row + 1;
        }
        proof {
            assert(all.take(all.len() as int) =~= all);
        }
        Ok(string_from_chars(&out))
    }

    /// The buffer's current lines, reconstructed from `data` and the
    /// table, ready for display.  Line `r` is exactly the slice of
    /// `data` between the prefix sums of the table at `r` and `r + 1`.
    pub fn lines(&self) -> (result: Vec<String>)
        requires
            self.inv(),
        ensures
            result@.len() == self.line_sizes@.len(),
            forall|r: int| 0 <= r < result@.len() ==> result@[r]@ == self.line_at(r),
    {
        let mut result: Vec<String> = Vec::new();
        let mut row: usize = 0;
        let mut start: usize = 0;
        while row < self.line_sizes.len()
            invariant
                self.inv(),
                row <= self.line_sizes@.len(),
                start == sum_to(self.line_sizes@, row as int),
                result@.len() == row,
                forall|r: int| 0 <= r < row ==> result@[r]@ == self.line_at(r),
            decreases self.line_sizes@.len() - row,
        {
            let size = self.line_sizes[row];
            // brings the data length into scope: it bounds every prefix
        // sum of the table, so the offset arithmetic cannot overflow
        let total = self.data.len();
            proof {
                lemma_sum_to_nonneg(self.line_sizes@, row as int);
                lemma_sum_to_monotone(self.line_sizes@, row + 1, self.line_sizes@.len() as int);
                assert(sum_to(self.line_sizes@, row + 1) == sum_to(self.line_sizes@, row as int)
                    + self.line_sizes@[row as int]);
            }
            let end = start + size;
            let mut line_chars: Vec<char> = Vec::new();
            push_range(&mut line_chars, &self.data, start, end);
            result.push(string_from_chars(&line_chars));
            start = end;
            row = row + 1;
        }
        result
    }
}

/// Law: saving a freshly loaded text reproduces it, up to one newline
/// appended when the text did not end with one.  `from_text` builds
/// exactly `split_lines(t)` and `save_data` emits exactly
/// `join_lines` of the buffer's lines, so this covers the whole
/// load-then-save path.  Texts holding a carriage-return-newline pair
/// are left out: load normalizes that pair to a bare newline.
pub proof fn lemma_load_save_round_trip(t: Seq<char>)
    requires
        forall|i: int| 0 <= i && i + 1 < t.len() ==> !((#[trigger] t[i]) == '\r' && t[i + 1] == '\n'),
    ensures
        t.len() == 0 || t[t.len() - 1] == '\n' ==> join_lines(split_lines(t)) == t,
        t.len() > 0 && t[t.len() - 1] != '\n' ==> join_lines(split_lines(t)) == t.push('\n'),
    decreases t.len(),
{
    if t.len() == 0 {
        assert(split_lines(t) =~= Seq::<Seq<char>>::empty());
        assert(join_lines(split_lines(t)) =~= t);
    } else {
        lemma_first_nl_bounds(t);
        let j = first_nl(t);
        if j == t.len() {
            assert(split_lines(t) == seq![t]);
            assert(seq![t].drop_first() =~= Seq::<Seq<char>>::empty());
            assert(join_lines(Seq::<Seq<char>>::empty()) == Seq::<char>::empty());
            assert(join_lines(split_lines(t)) =~= t.push('\n'));
            assert(t[t.len() - 1] != '\n');
        } else {
            let head = t.take(j);
            let tail = t.skip(j + 1);
            assert(t[j] == '\n');
            assert(drop_cr(head) =~= head);
            assert forall|i: int|
                0 <= i && i + 1 < tail.len() implies !((#[trigger] tail[i]) == '\r' && tail[i + 1]
                == '\n') by {
                assert(tail[i] == t[i + j + 1]);
                assert(tail[i + 1] == t[i + j + 2]);
            };
            lemma_load_save_round_trip(tail);
            assert(split_lines(t) == seq![head] + split_lines(tail));
            let lines = split_lines(t);
            assert(lines[0] == head);
            assert(lines.drop_first() =~= split_lines(tail));
            assert(join_lines(lines) == head + seq!['\n'] + join_lines(split_lines(tail)));
            if tail.len() == 0 {
                assert(split_lines(tail) =~= Seq::<Seq<char>>::empty());
                assert(join_lines(Seq::<Seq<char>>::empty()) == Seq::<char>::empty());
                assert(t[t.len() - 1] == '\n');
                assert(join_lines(lines) =~= t);
            } else {
                assert(tail[tail.len() - 1] == t[t.len() - 1]);
                if tail[tail.len() - 1] == '\n' {
                    assert(join_lines(lines) =~= t);
                } else {
                    assert(join_lines(lines) =~= t.push('\n'));
                }
            }
        }
    }
}

/// Law: removing a line and inserting the removed text back at the
/// same row restores the line table and the character data exactly.
/// `data` and `sizes` are the store's fields before the removal, with
/// its invariant; the removal and the reinsertion are written out as
/// `remove_line`'s and `insert_line`'s contracts describe them.
pub proof fn lemma_remove_insert_restores(data: Seq<char>, sizes: Seq<usize>, row: int)
    requires
        sum_to(sizes, sizes.len() as int) == data.len(),
        0 <= row < sizes.len(),
    ensures
        ({
            let start = sum_to(sizes, row);
            let removed = data.subrange(start, start + sizes[row]);
            let data2 = data.subrange(0, start) + data.subrange(
                start + sizes[row],
                data.len() as int,
            );
            let sizes2 = sizes.remove(row);
            &&& removed.len() == sizes[row]
            &&& sizes2.insert(row, sizes[row]) == sizes
            &&& sum_to(sizes2, row) == start
            &&& data2.subrange(0, start) + removed + data2.subrange(start, data2.len() as int)
                == data
        }),
{
    let start = sum_to(sizes, row);
    let removed = data.subrange(start, start + sizes[row]);
    let data2 = data.subrange(0, start) + data.subrange(start + sizes[row], data.len() as int);
    let sizes2 = sizes.remove(row);
    lemma_sum_to_nonneg(sizes, row);
    lemma_sum_to_monotone(sizes, row + 1, sizes.len() as int);
    assert(sum_to(sizes, row + 1) == sum_to(sizes, row) + sizes[row]);
    assert(sizes2.insert(row, sizes[row]) =~= sizes);
    if row < sizes2.len() {
        lemma_sum_to_remove(sizes, row, row);
    } else {
        lemma_sum_to_remove(sizes, row, sizes.len() as int - 1);
    }
    assert(data2.subrange(0, start) =~= data.subrange(0, start));
    assert(data2.subrange(start, data2.len() as int) =~= data.subrange(
        start + sizes[row],
        data.len() as int,
    ));
    assert(data2.subrange(0, start) + removed + data2.subrange(start, data2.len() as int)
        =~= data);
}

impl From<&str> for TextBuffer {
    /// Builds a buffer from raw text, exactly as `from_text` does.
    fn from(data: &str) -> Self {
        TextBuffer::from_text(data)
    }
}

impl vstd::std_specs::convert::FromSpecImpl<&str> for TextBuffer {
    open spec fn obeys_from_spec() -> bool {
        false
    }

    open spec fn from_spec(t: &str) -> Self {
        arbitrary()
    }
}

/// Every prefix sum of a line-size table is non-negative.
pub proof fn lemma_sum_to_nonneg(sizes: Seq<usize>, i: int)
    requires
        0 <= i <= sizes.len(),
    ensures
        0 <= sum_to(sizes, i),
    decreases i,
{
    if i > 0 {
        lemma_sum_to_nonneg(sizes, i - 1);
    }
}

/// Prefix sums grow monotonically with the prefix length.
pub proof fn lemma_sum_to_monotone(sizes: Seq<usize>, i: int, j: int)
    requires
        0 <= i <= j <= sizes.len(),
    ensures
        sum_to(sizes, i) <= sum_to(sizes, j),
    decreases j - i,
{
    if i < j {
        lemma_sum_to_monotone(sizes, i, j - 1);
        lemma_sum_to_nonneg(sizes, i);
    }
}

/// Appending an entry leaves every prefix sum over the old entries as it was.
pub proof fn lemma_sum_to_push(sizes: Seq<usize>, v: usize, i: int)
    requires
        0 <= i <= sizes.len(),
    ensures
        sum_to(sizes.push(v), i) == sum_to(sizes, i),
    decreases i,
{
    if i > 0 {
        lemma_sum_to_push(sizes, v, i - 1);
    }
}

/// How inserting an entry at `r` moves the prefix sums.
pub proof fn lemma_sum_to_insert(sizes: Seq<usize>, r: int, v: usize, i: int)
    requires
        0 <= r <= sizes.len(),
        0 <= i <= sizes.len() + 1,
    ensures
        i <= r ==> sum_to(sizes.insert(r, v), i) == sum_to(sizes, i),
        i > r ==> sum_to(sizes.insert(r, v), i) == sum_to(sizes, i - 1) + v,
    decreases i,
{
    if i > 0 {
        lemma_sum_to_insert(sizes, r, v, i - 1);
    }
}

/// How removing the entry at `r` moves the prefix sums.
pub proof fn lemma_sum_to_remove(sizes: Seq<usize>, r: int, i: int)
    requires
        0 <= r < sizes.len(),
        0 <= i <= sizes.len() - 1,
    ensures
        i <= r ==> sum_to(sizes.remove(r), i) == sum_to(sizes, i),
        i > r ==> sum_to(sizes.remove(r), i) == sum_to(sizes, i + 1) - sizes[r],
    decreases i,
{
    if i > 0 {
        lemma_sum_to_remove(sizes, r, i - 1);
        if i > r {
            assert(sizes.remove(r)[i - 1] == sizes[i]);
            assert(sum_to(sizes.remove(r), i) == sum_to(sizes.remove(r), i - 1) + sizes.remove(
                r,
            )[i - 1]);
            assert(sum_to(sizes, i + 1) == sum_to(sizes, i) + sizes[i]);
            assert(sum_to(sizes, i) == sum_to(sizes, i - 1) + sizes[i - 1]);
        }
    }
}

/// How overwriting the entry at `r` moves the prefix sums.
pub proof fn lemma_sum_to_update(sizes: Seq<usize>, r: int, v: usize, i: int)
    requires
        0 <= r < sizes.len(),
        0 <= i <= sizes.len(),
    ensures
        i <= r ==> sum_to(sizes.update(r, v), i) == sum_to(sizes, i),
        i > r ==> sum_to(sizes.update(r, v), i) == sum_to(sizes, i) - sizes[r] + v,
    decreases i,
{
    if i > 0 {
        lemma_sum_to_update(sizes, r, v, i - 1);
    }
}

/// Index of the first newline in `text`, or `text.len()` if there is
/// none.
pub open spec fn first_nl(text: Seq<char>) -> int
    decreases text.len(),
{
    if text.len() == 0 {
        0
    } else if text[0] == '\n' {
        0
    } else {
        1 + first_nl(text.drop_first())
    }
}

/// A line segment as load keeps it: one carriage return at the end of
/// a newline-terminated segment is dropped.
pub open spec fn drop_cr(seg: Seq<char>) -> Seq<char> {
    if seg.len() > 0 && seg[seg.len() - 1] == '\r' {
        seg.drop_last()
    } else {
        seg
    }
}

/// The lines of `text` as load splits them: a segment ends at every
/// newline, a carriage return immediately before a newline belongs to
/// the separator, and a final newline terminates the last line rather
/// than opening an empty one.
pub open spec fn split_lines(text: Seq<char>) -> Seq<Seq<char>>
    decreases text.len(),
    via split_lines_decreases
{
    if text.len() == 0 {
        Seq::empty()
    } else {
        let j = first_nl(text);
        if j == text.len() {
            seq![text]
        } else {
            seq![drop_cr(text.take(j))] + split_lines(text.skip(j + 1))
        }
    }
}

#[via_fn]
proof fn split_lines_decreases(text: Seq<char>) {
    lemma_first_nl_bounds(text);
}

/// The concatenation of a sequence of lines, separator-free.
pub open spec fn flatten_lines(lines: Seq<Seq<char>>) -> Seq<char>
    decreases lines.len(),
{
    if lines.len() == 0 {
        Seq::empty()
    } else {
        lines[0] + flatten_lines(lines.drop_first())
    }
}

/// The text that save produces for a sequence of lines: every line,
/// the last included, is followed by one newline.
pub open spec fn join_lines(lines: Seq<Seq<char>>) -> Seq<char>
    decreases lines.len(),
{
    if lines.len() == 0 {
        Seq::empty()
    } else {
        lines[0] + seq!['\n'] + join_lines(lines.drop_first())
    }
}

/// `first_nl` stays within the text, points at a newline when it is
/// inside, and nothing before it is a newline.
pub proof fn lemma_first_nl_bounds(text: Seq<char>)
    ensures
        0 <= first_nl(text) <= text.len(),
        first_nl(text) < text.len() ==> text[first_nl(text)] == '\n',
        forall|k: int| 0 <= k < first_nl(text) ==> text[k] != '\n',
    decreases text.len(),
{
    if text.len() == 0 {
    } else if text[0] == '\n' {
    } else {
        let rest = text.drop_first();
        lemma_first_nl_bounds(rest);
        if first_nl(text) < text.len() {
            assert(rest[first_nl(rest)] == text[first_nl(text)]);
        }
        assert forall|k: int| 0 <= k < first_nl(text) implies text[k] != '\n' by {
            if k > 0 {
                assert(rest[k - 1] == text[k]);
            }
        };
    }
}

/// The position with no newline before it and a newline (or the text's
/// end) at it is exactly `first_nl`.
pub proof fn lemma_first_nl_at(text: Seq<char>, j: int)
    requires
        0 <= j <= text.len(),
        forall|k: int| 0 <= k < j ==> text[k] != '\n',
        j < text.len() ==> text[j] == '\n',
    ensures
        first_nl(text) == j,
    decreases j,
{
    if j > 0 {
        let rest = text.drop_first();
        assert(text[0] != '\n');
        assert forall|k: int| 0 <= k < j - 1 implies rest[k] != '\n' by {
            assert(rest[k] == text[k + 1]);
        };
        if j - 1 < rest.len() {
            assert(rest[j - 1] == text[j]);
        }
        lemma_first_nl_at(rest, j - 1);
    }
}

/// Appending a line extends the flattened text by that line.
pub proof fn lemma_flatten_lines_push(lines: Seq<Seq<char>>, x: Seq<char>)
    ensures
        flatten_lines(lines.push(x)) == flatten_lines(lines) + x,
    decreases lines.len(),
{
    if lines.len() == 0 {
        assert(lines.push(x)[0] == x);
        assert(lines.push(x).drop_first() =~= Seq::<Seq<char>>::empty());
        assert(flatten_lines(Seq::<Seq<char>>::empty()) == Seq::<char>::empty());
        assert(flatten_lines(lines.push(x)) =~= flatten_lines(lines) + x);
    } else {
        assert(lines.push(x).drop_first() =~= lines.drop_first().push(x));
        lemma_flatten_lines_push(lines.drop_first(), x);
        assert(lines.push(x)[0] == lines[0]);
        assert(flatten_lines(lines.push(x)) =~= flatten_lines(lines) + x);
    }
}

/// Appending a line extends the joined text by that line and one
/// newline.
pub proof fn lemma_join_lines_push(lines: Seq<Seq<char>>, x: Seq<char>)
    ensures
        join_lines(lines.push(x)) == join_lines(lines) + x + seq!['\n'],
    decreases lines.len(),
{
    if lines.len() == 0 {
        assert(lines.push(x)[0] == x);
        assert(lines.push(x).drop_first() =~= Seq::<Seq<char>>::empty());
        assert(join_lines(Seq::<Seq<char>>::empty()) == Seq::<char>::empty());
        assert(join_lines(lines.push(x)) =~= join_lines(lines) + x + seq!['\n']);
    } else {
        assert(lines.push(x).drop_first() =~= lines.drop_first().push(x));
        lemma_join_lines_push(lines.drop_first(), x);
        assert(lines.push(x)[0] == lines[0]);
        assert(join_lines(lines.push(x)) =~= join_lines(lines) + x + seq!['\n']);
    }
}

/// The prefix sum seen from the second entry on.
pub proof fn lemma_sum_to_drop_first(sizes: Seq<usize>, r: int)
    requires
        1 <= r <= sizes.len(),
    ensures
        sum_to(sizes, r) == sizes[0] + sum_to(sizes.drop_first(), r - 1),
    decreases r,
{
    if r > 1 {
        lemma_sum_to_drop_first(sizes, r - 1);
        assert(sizes.drop_first()[r - 2] == sizes[r - 1]);
        assert(sum_to(sizes, r) == sum_to(sizes, r - 1) + sizes[r - 1]);
        assert(sum_to(sizes.drop_first(), r - 1) == sum_to(sizes.drop_first(), r - 2)
            + sizes.drop_first()[r - 2]);
    } else {
        assert(sum_to(sizes, 1) == sum_to(sizes, 0) + sizes[0]);
        assert(sum_to(sizes, 0) == 0);
        assert(sum_to(sizes.drop_first(), 0) == 0);
    }
}

/// The flattened text of a line sequence is as long as the line sizes
/// say.
pub proof fn lemma_flatten_lines_len(lines: Seq<Seq<char>>, sizes: Seq<usize>)
    requires
        sizes.len() == lines.len(),
        forall|k: int| 0 <= k < lines.len() ==> sizes[k] == lines[k].len(),
    ensures
        flatten_lines(lines).len() == sum_to(sizes, sizes.len() as int),
    decreases lines.len(),
{
    if lines.len() > 0 {
        let lrest = lines.drop_first();
        let srest = sizes.drop_first();
        assert forall|k: int| 0 <= k < lrest.len() implies srest[k] == lrest[k].len() by {
            assert(srest[k] == sizes[k + 1]);
            assert(lrest[k] == lines[k + 1]);
        };
        lemma_flatten_lines_len(lrest, srest);
        lemma_sum_to_drop_first(sizes, sizes.len() as int);
    }
}

/// Slicing the flattened text at the prefix sums of the line sizes
/// gives back each line.
pub proof fn lemma_flatten_lines_index(lines: Seq<Seq<char>>, sizes: Seq<usize>, r: int)
    requires
        sizes.len() == lines.len(),
        forall|k: int| 0 <= k < lines.len() ==> sizes[k] == lines[k].len(),
        0 <= r < lines.len(),
    ensures
        flatten_lines(lines).subrange(sum_to(sizes, r), sum_to(sizes, r) + sizes[r]) == lines[r],
    decreases r,
{
    lemma_flatten_lines_len(lines, sizes);
    lemma_sum_to_nonneg(sizes, r);
    lemma_sum_to_monotone(sizes, r + 1, sizes.len() as int);
    assert(sum_to(sizes, r + 1) == sum_to(sizes, r) + sizes[r]);
    if r == 0 {
        assert(flatten_lines(lines).subrange(0, sizes[0] as int) =~= lines[0]);
    } else {
        let lrest = lines.drop_first();
        let srest = sizes.drop_first();
        assert forall|k: int| 0 <= k < lrest.len() implies srest[k] == lrest[k].len() by {
            assert(srest[k] == sizes[k + 1]);
            assert(lrest[k] == lines[k + 1]);
        };
        lemma_flatten_lines_index(lrest, srest, r - 1);
        lemma_flatten_lines_len(lrest, srest);
        lemma_sum_to_drop_first(sizes, r);
        lemma_sum_to_nonneg(srest, r - 1);
        assert(srest[r - 1] == sizes[r]);
        assert(flatten_lines(lines).subrange(sum_to(sizes, r), sum_to(sizes, r) + sizes[r])
            =~= flatten_lines(lrest).subrange(
            sum_to(srest, r - 1),
            sum_to(srest, r - 1) + srest[r - 1],
        ));
    }
}

/// Relies on `String::push`: appends the given character to the end of
/// this `String`.
#[verifier::external_body]
fn push_char(s: &mut String, c: char)
    ensures
        final(s)@ == old(s)@.push(c),
{
    s.push(c);
}

/// The characters of a string slice, collected into a vector.
fn chars_of_str(s: &str) -> (r: Vec<char>)
    ensures
        r@ == s@,
{
    let n = s.unicode_len();
    let mut r: Vec<char> = Vec::new();
    let mut i: usize = 0;
    while i < n
        invariant
            i <= n,
            n == s@.len(),
            r@ == s@.take(i as int),
        decreases n - i,
    {
        let c = s.get_char(i);
        r.push(c);
        proof {
            assert(r@ =~= s@.take(i + 1));
        }
        i = i + 1;
    }
    proof {
        assert(r@ =~= s@);
    }
    r
}

/// A `String` holding exactly the given characters.
fn string_from_chars(v: &Vec<char>) -> (r: String)
    ensures
        r@ == v@,
{
    let mut r = String::new();
    let mut i: usize = 0;
    while i < v.len()
        invariant
            i <= v@.len(),
            r@ == v@.take(i as int),
        decreases v@.len() - i,
    {
        push_char(&mut r, v[i]);
        proof {
            assert(r@ =~= v@.take(i + 1));
        }
        i = i + 1;
    }
    proof {
        assert(r@ =~= v@);
    }
    r
}

/// Appends `src[start..end]` to `dst`.
fn push_range(dst: &mut Vec<char>, src: &Vec<char>, start: usize, end: usize)
    requires
        start <= end <= src@.len(),
    ensures
        final(dst)@ == old(dst)@ + src@.subrange(start as int, end as int),
{
    let mut i: usize = start;
    proof {
        assert(dst@ =~= old(dst)@ + src@.subrange(start as int, start as int));
    }
    while i < end
        invariant
            start <= i <= end <= src@.len(),
            dst@ == old(dst)@ + src@.subrange(start as int, i as int),
        decreases end - i,
    {
        dst.push(src[i]);
        proof {
            assert(dst@ =~= old(dst)@ + src@.subrange(start as int, i + 1));
        }
        i = i + 1;
    }
}

/// `data` with `src` spliced in at `offset`.
fn spliced_insert(data: &Vec<char>, offset: usize, src: &Vec<char>) -> (r: Vec<char>)
    requires
        offset <= data@.len(),
    ensures
        r@ == data@.subrange(0, offset as int) + src@ + data@.subrange(
            offset as int,
            data@.len() as int,
        ),
{
    let mut out: Vec<char> = Vec::new();
    push_range(&mut out, data, 0, offset);
    let m = src.len();
    push_range(&mut out, src, 0, m);
    let n = data.len();
    push_range(&mut out, data, offset, n);
    proof {
        assert(src@.subrange(0, src@.len() as int) =~= src@);
    }
    out
}

/// `data` with the span `[start, end)` excised, together with the
/// excised characters.
fn spliced_remove(data: &Vec<char>, start: usize, end: usize) -> (r: (Vec<char>, Vec<char>))
    requires
        start <= end <= data@.len(),
    ensures
        r.0@ == data@.subrange(0, start as int) + data@.subrange(end as int, data@.len() as int),
        r.1@ == data@.subrange(start as int, end as int),
{
    let mut out: Vec<char> = Vec::new();
    push_range(&mut out, data, 0, start);
    let n = data.len();
    push_range(&mut out, data, end, n);
    let mut removed: Vec<char> = Vec::new();
    push_range(&mut removed, data, start, end);
    proof {
        assert(removed@ =~= data@.subrange(start as int, end as int));
    }
    (out, removed)
}

} // verus!


//! The word of a reader-writer lock.
//!
//! The two low bits say that threads of one kind are parked; the bits above them count
//! the readers that hold the lock. The largest count stands for a writer.

use vstd::prelude::*;

verus! {

/// Set while a writer holds the lock and readers may be parked.
pub const READERS_PARKED: usize = 0b0001;

/// Set while writers may be parked.
pub const WRITERS_PARKED: usize = 0b0010;

/// What one reader adds to the word.
pub const ONE_READER: usize = 0b0100;

/// What a writer puts into the word.
pub const ONE_WRITER: usize = !(READERS_PARKED | WRITERS_PARKED);

/// The count that stands for a writer.
pub open spec fn writer_count() -> int {
    usize::MAX as int / 4
}

/// A writer holds the lock.
pub open spec fn writer_in(word: usize) -> bool {
    word as int / 4 == writer_count()
}

/// The number of readers that hold the lock.
pub open spec fn readers_in(word: usize) -> int {
    if writer_in(word) {
        0
    } else {
        word as int / 4
    }
}

/// Nobody holds the lock.
pub open spec fn vacant(word: usize) -> bool {
    word as int / 4 == 0
}

/// The word says that readers may be parked.
pub open spec fn readers_marked(word: usize) -> bool {
    word as int % 2 == 1
}

/// The word says that writers may be parked.
pub open spec fn writers_marked(word: usize) -> bool {
    word as int / 2 % 2 == 1
}

/// One more reader can be counted in the word: no writer is in, and the count one higher
/// is not the one that stands for a writer.
pub open spec fn reader_fits(word: usize) -> bool {
    !writer_in(word) && readers_in(word) + 1 < writer_count()
}

/// A reader takes the lock.
pub open spec fn enters_shared(from: usize, to: usize) -> bool {
    reader_fits(from) && to == from + ONE_READER
}

/// A reader gives the lock back.
pub open spec fn leaves_shared(from: usize, to: usize) -> bool {
    readers_in(from) > 0 && to == from - ONE_READER
}

/// A writer takes the lock. A writer that was parked before marks the word again, for the
/// writers that are parked still.
pub open spec fn enters_exclusive(from: usize, to: usize, was_parked: bool) -> bool {
    &&& vacant(from)
    &&& writer_in(to)
    &&& readers_marked(to) == readers_marked(from)
    &&& writers_marked(to) == (writers_marked(from) || was_parked)
}

/// A writer gives the lock back. The marks go with it, except that readers go before
/// writers where both are parked.
pub open spec fn leaves_exclusive(from: usize, to: usize) -> bool {
    &&& writer_in(from)
    &&& to == if readers_marked(from) && writers_marked(from) {
        WRITERS_PARKED
    } else {
        0
    }
}

/// A writer becomes a reader.
pub open spec fn downgrades(from: usize, to: usize) -> bool {
    &&& writer_in(from)
    &&& to == ONE_READER + if writers_marked(from) {
        WRITERS_PARKED as int
    } else {
        0
    }
}

/// A reader that is about to park says so.
pub open spec fn marks_readers(from: usize, to: usize) -> bool {
    writer_in(from) && !readers_marked(from) && to == from + READERS_PARKED
}

/// A writer that is about to park says so.
pub open spec fn marks_writers(from: usize, to: usize) -> bool {
    !vacant(from) && !writers_marked(from) && to == from + WRITERS_PARKED
}

/// The last reader takes back the mark of the writers, to wake one of them.
pub open spec fn clears_writers(from: usize, to: usize) -> bool {
    from == WRITERS_PARKED && to == 0
}

/// What the bit operations on a word mean.
pub proof fn lemma_word(word: usize)
    ensures
        word & ONE_WRITER == 0 <==> vacant(word),
        word & ONE_WRITER == ONE_WRITER <==> writer_in(word),
        word & READERS_PARKED != 0 <==> readers_marked(word),
        word & WRITERS_PARKED != 0 <==> writers_marked(word),
        word & READERS_PARKED == 0 || word & READERS_PARKED == READERS_PARKED,
        word & WRITERS_PARKED == 0 || word & WRITERS_PARKED == WRITERS_PARKED,
        ONE_WRITER == usize::MAX - 3,
        ONE_WRITER | READERS_PARKED | WRITERS_PARKED == usize::MAX,
        READERS_PARKED | WRITERS_PARKED == 3,
        ONE_READER | WRITERS_PARKED == 6,
        word & (READERS_PARKED | WRITERS_PARKED) == word % 4,
        !readers_marked(word) ==> word | READERS_PARKED == word + READERS_PARKED,
        !writers_marked(word) ==> word | WRITERS_PARKED == word + WRITERS_PARKED,
        vacant(word) ==> word | ONE_WRITER | 0 == word + ONE_WRITER,
        vacant(word) && writers_marked(word) ==> word | ONE_WRITER | WRITERS_PARKED == word + ONE_WRITER,
        vacant(word) && !writers_marked(word) ==> word | ONE_WRITER | WRITERS_PARKED == word + ONE_WRITER
            + WRITERS_PARKED,
        writer_in(word) && writers_marked(word) ==> word & (ONE_READER | WRITERS_PARKED) == ONE_READER
            + WRITERS_PARKED,
        writer_in(word) && !writers_marked(word) ==> word & (ONE_READER | WRITERS_PARKED) == ONE_READER,
{
    let top = !(1usize | 2usize);
    assert(top == !0usize - 3 && (1usize | 2usize) == 3 && (4usize | 2usize) == 6 && (top | 1 | 2) == !0usize
        && (!0usize) / 4 == top / 4) by (bit_vector)
        requires
            top == !(1usize | 2usize),
    ;
    let most = usize::MAX;
    assert(most <= !0usize) by (bit_vector);
    assert((word & top == 0) == (word / 4 == 0) && (word & top == top) == (word / 4 == top / 4)) by (bit_vector)
        requires
            top == !(1usize | 2usize),
    ;
    assert(word & 1 == word % 2 && word & 2 == 2 * (word / 2 % 2) && word & (1usize | 2usize) == word % 4)
        by (bit_vector);
    assert((word % 2 == 0 ==> word | 1 == word + 1) && (word / 2 % 2 == 0 ==> word | 2 == word + 2))
        by (bit_vector);
    assert(word / 4 == 0 ==> {
        &&& word | top | 0 == word + top
        &&& word / 2 % 2 == 1 ==> word | top | 2 == word + top
        &&& word / 2 % 2 == 0 ==> word | top | 2 == word + top + 2
    }) by (bit_vector)
        requires
            top == !(1usize | 2usize),
    ;
    assert(word / 4 == top / 4 ==> {
        &&& word / 2 % 2 == 1 ==> word & (4usize | 2usize) == 6
        &&& word / 2 % 2 == 0 ==> word & (4usize | 2usize) == 4
    }) by (bit_vector)
        requires
            top == !(1usize | 2usize),
    ;
}

/// To take a reader out of the count is to give the lock back as a reader.
pub proof fn law_subtraction_leaves(word: usize)
    requires
        readers_in(word) > 0,
    ensures
        leaves_shared(word, (word - ONE_READER) as usize),
{
}

/// To keep no more than the lowest bit of the count and the mark of the writers turns the writer
/// into a reader.
pub proof fn law_mask_downgrades(word: usize)
    requires
        writer_in(word),
    ensures
        downgrades(word, word & (ONE_READER | WRITERS_PARKED)),
{
    lemma_word(word);
}

/// A reader that comes and goes, while nobody else changes the word, leaves the word as it was. If
/// nobody was in and only writers are parked, it was the last one in: it takes back their mark then
/// and wakes one of them.
pub proof fn law_reader_restores(word: usize, held: usize, after: usize)
    requires
        enters_shared(word, held),
        leaves_shared(held, after),
    ensures
        after == word,
        readers_in(held) == readers_in(word) + 1,
        readers_in(held) == 1 && writers_marked(held) && !readers_marked(held) <==> clears_writers(after, 0),
{
}

/// A writer that comes to a lock that nobody holds and that has no mark, and goes, while nobody else
/// changes the word, leaves the word as it was. If there was a mark of the writers, or the writer
/// itself was parked before, it takes the mark back and wakes one of them.
pub proof fn law_writer_restores(word: usize, held: usize, was_parked: bool, after: usize)
    requires
        enters_exclusive(word, held, was_parked),
        leaves_exclusive(held, after),
    ensures
        word == 0 && !was_parked ==> held == ONE_WRITER && after == word,
        !readers_marked(word) ==> after == 0,
        writers_marked(held) <==> writers_marked(word) || was_parked,
{
    lemma_word(ONE_WRITER);
}

} // verus!

//! Cutting a corpus file into chunks that end with the end token.
//!
//! The file is read in blocks of a fixed size. [`ChunkScanner`] is told what each
//! read returned and says where to read next, until it has seen the whole file.

use vstd::prelude::*;
use vstd::utf8::{encode_utf8, encode_utf8_valid_utf8, valid_utf8};

use crate::search::{
    find_bytes, first_occurrence, is_first, lemma_encode_concat, lemma_first_occurrence,
    lemma_occurs_in_text, occurs_at,
};
use crate::tokenizer::{law_end_tokens_cannot_overlap, END_TOKEN};

verus! {

/// How many bytes are read at a time.
pub const CHUNK_SIZE: usize = 4096;

/// The bytes of the end token.
pub open spec fn end_bytes() -> Seq<u8> {
    encode_utf8(END_TOKEN@)
}

/// Where the file is cut, from a position on: after every end token, and at the
/// end of the file.
pub open spec fn cuts(file: Seq<u8>, from: int) -> Seq<int>
    decreases file.len() - from,
{
    if from < 0 || from >= file.len() || end_bytes().len() == 0 {
        Seq::empty()
    } else {
        match first_occurrence(file.skip(from), end_bytes()) {
            None => seq![file.len() as int],
            Some(i) => {
                let next = from + i + end_bytes().len();
                if from < next <= file.len() {
                    seq![next] + cuts(file, next)
                } else {
                    Seq::empty()
                }
            },
        }
    }
}

/// What a scan knows: where it reads next, where the file is cut so far, and
/// whether it is done.
pub struct Scan {
    /// The position of the next read.
    pub offset: int,
    /// The cuts so far.
    pub positions: Seq<int>,
    /// Whether the end of the file was seen.
    pub done: bool,
}

/// What a scan knows after a read.
pub open spec fn scan_step(scan: Scan, chunk: Seq<u8>, file_len: int) -> Scan {
    if chunk.len() == 0 {
        Scan { done: true, ..scan }
    } else {
        match first_occurrence(chunk, end_bytes()) {
            Some(i) => {
                let next = scan.offset + i + end_bytes().len();
                Scan { offset: next, positions: scan.positions.push(next), done: false }
            },
            None => if chunk.len() == CHUNK_SIZE {
                Scan { offset: scan.offset + CHUNK_SIZE - end_bytes().len(), ..scan }
            } else {
                Scan { positions: scan.positions.push(file_len), done: true, ..scan }
            },
        }
    }
}

/// What a full read at a position returns.
pub open spec fn block_at(file: Seq<u8>, offset: int) -> Seq<u8> {
    if offset + CHUNK_SIZE <= file.len() {
        file.subrange(offset, offset + CHUNK_SIZE)
    } else {
        file.subrange(offset, file.len() as int)
    }
}

/// What a scan knows in the end, where every read is a full one.
pub open spec fn scan_rest(file: Seq<u8>, scan: Scan) -> Scan
    decreases file.len() - scan.offset,
{
    if scan.done || scan.offset < 0 || scan.offset > file.len() {
        scan
    } else {
        let next = scan_step(scan, block_at(file, scan.offset), file.len() as int);
        if !next.done && next.offset > scan.offset {
            scan_rest(file, next)
        } else {
            next
        }
    }
}

/// The end token in bytes.
proof fn lemma_end_bytes()
    ensures
        end_bytes().len() == 13,
{
    reveal_strlit("<|endoftext|>");
    let text = END_TOKEN@;
    vstd::utf8::is_ascii_chars_encode_utf8(text);
}

/// A scan of a file for the places at which it is cut.
pub struct ChunkScanner {
    offset: usize,
    positions: Vec<usize>,
    done: bool,
}

/// Positions as mathematical integers.
pub open spec fn as_ints(positions: Seq<usize>) -> Seq<int> {
    positions.map_values(|p: usize| p as int)
}

impl View for ChunkScanner {
    type V = Scan;

    closed spec fn view(&self) -> Scan {
        Scan { offset: self.offset as int, positions: as_ints(self.positions@), done: self.done }
    }
}

/// What a scan knows before the first read.
pub open spec fn scan_start() -> Scan {
    Scan { offset: 0, positions: seq![0], done: false }
}

impl ChunkScanner {
    /// A scan from the start of a file, where the first chunk starts.
    pub fn new() -> (scanner: ChunkScanner)
        ensures
            scanner@ == scan_start(),
    {
        let positions: Vec<usize> = vec![0];
        assert(as_ints(positions@) == scan_start().positions);
        ChunkScanner { offset: 0, positions, done: false }
    }

    /// Where to read next.
    pub fn offset(&self) -> (offset: usize)
        ensures
            offset == self@.offset,
    {
        self.offset
    }

    /// Whether there is nothing left to read.
    pub fn is_done(&self) -> (done: bool)
        ensures
            done == self@.done,
    {
        self.done
    }

    /// The places at which the file is cut.
    pub fn into_positions(self) -> (positions: Vec<usize>)
        ensures
            as_ints(positions@) == self@.positions,
    {
        self.positions
    }

    /// Takes in what a read at the current offset returned, at most a block, from
    /// a file of the given length.
    pub fn step(&mut self, chunk: &[u8], file_len: usize)
        requires
            chunk@.len() <= CHUNK_SIZE,
            old(self)@.offset + chunk@.len() <= usize::MAX,
        ensures
            final(self)@ == scan_step(old(self)@, chunk@, file_len as int),
    {
        proof {
            lemma_end_bytes();
        }
        let ghost before = self.positions@;
        let end_token = END_TOKEN.as_bytes();
        if chunk.len() == 0 {
            self.done = true;
        } else {
            match find_bytes(chunk, end_token) {
                Some(pos) => {
                    let next = self.offset + pos + end_token.len();
                    self.positions.push(next);
                    self.offset = next;
                    self.done = false;
                    assert(as_ints(self.positions@) == as_ints(before).push(next as int));
                },
                None => {
                    if chunk.len() == CHUNK_SIZE {
                        self.offset = self.offset + CHUNK_SIZE - end_token.len();
                    } else {
                        self.positions.push(file_len);
                        self.done = true;
                        assert(as_ints(self.positions@) == as_ints(before).push(file_len as int));
                    }
                },
            }
        }
    }
}

/// The stretches between cuts that follow each other.
pub open spec fn ranges(positions: Seq<int>) -> Seq<(int, int)> {
    if positions.len() == 0 {
        Seq::empty()
    } else {
        Seq::new((positions.len() - 1) as nat, |i: int| (positions[i], positions[i + 1]))
    }
}

/// The stretches between cuts that follow each other.
pub fn chunk_ranges(positions: &[usize]) -> (found: Vec<(usize, usize)>)
    ensures
        found@.map_values(|r: (usize, usize)| (r.0 as int, r.1 as int)) == ranges(
            as_ints(positions@),
        ),
{
    let mut found: Vec<(usize, usize)> = Vec::new();
    if positions.len() == 0 {
        return found;
    }
    let mut i: usize = 1;
    while i < positions.len()
        invariant
            1 <= i <= positions.len(),
            found@.len() == i - 1,
            forall|j: int| 0 <= j < i - 1 ==> #[trigger] found@[j] == (
                positions@[j],
                positions@[j + 1],
            ),
        decreases positions.len() - i,
    {
        found.push((positions[i - 1], positions[i]));
        i += 1;
    }
    found
}

// ---------------------------------------------------------------------------
// Laws
// ---------------------------------------------------------------------------

/// Occurrences in the rest of a sequence are those further on in the whole.
proof fn lemma_occurs_skip(file: Seq<u8>, part: Seq<u8>, from: int, j: int)
    requires
        0 <= from <= file.len(),
        0 <= j,
    ensures
        occurs_at(file.skip(from), part, j) == occurs_at(file, part, from + j),
{
    if from + j + part.len() <= file.len() {
        assert(file.skip(from).subrange(j, j + part.len()) == file.subrange(
            from + j,
            from + j + part.len(),
        ));
    }
}

/// An end token that is found in the part of a file from a position on.
proof fn lemma_next_cut(file: Seq<u8>, from: int, i: int)
    requires
        0 <= from <= file.len(),
        0 <= i,
        occurs_at(file, end_bytes(), from + i),
        forall|j: int|
            from <= j < from + i ==> !#[trigger] occurs_at(file, end_bytes(), j),
    ensures
        first_occurrence(file.skip(from), end_bytes()) == Some(i),
        cuts(file, from) == seq![from + i + end_bytes().len()] + cuts(
            file,
            from + i + end_bytes().len(),
        ),
{
    lemma_end_bytes();
    let rest = file.skip(from);
    lemma_occurs_skip(file, end_bytes(), from, i);
    assert forall|j: int| 0 <= j < i implies !#[trigger] occurs_at(rest, end_bytes(), j) by {
        lemma_occurs_skip(file, end_bytes(), from, j);
        assert(!occurs_at(file, end_bytes(), from + j));
    }
    assert(is_first(rest, end_bytes(), i));
    lemma_first_occurrence(rest, end_bytes(), i);
}

/// Where no end token starts in a stretch, the cuts from its start are those from
/// its end.
proof fn lemma_cuts_skip(file: Seq<u8>, from: int, to: int)
    requires
        0 <= from <= to < file.len(),
        forall|j: int| from <= j < to ==> !#[trigger] occurs_at(file, end_bytes(), j),
    ensures
        cuts(file, from) == cuts(file, to),
{
    lemma_end_bytes();
    let end = end_bytes();
    if exists|k: int| 0 <= k && #[trigger] occurs_at(file.skip(to), end, k) {
        let k = choose|k: int| 0 <= k && #[trigger] occurs_at(file.skip(to), end, k);
        lemma_first_occurrence(file.skip(to), end, k);
        let i = first_occurrence(file.skip(to), end)->0;
        lemma_occurs_skip(file, end, to, i);
        assert forall|j: int| to <= j < to + i implies !#[trigger] occurs_at(file, end, j) by {
            lemma_occurs_skip(file, end, to, j - to);
            assert(!occurs_at(file.skip(to), end, j - to));
        }
        lemma_next_cut(file, to, i);
        lemma_next_cut(file, from, to + i - from);
    } else {
        assert forall|k: int| !#[trigger] occurs_at(file.skip(from), end, k) by {
            if 0 <= k {
                lemma_occurs_skip(file, end, from, k);
                if from + k >= to {
                    lemma_occurs_skip(file, end, to, from + k - to);
                    assert(!occurs_at(file.skip(to), end, from + k - to));
                }
            }
        }
        assert(first_occurrence(file.skip(from), end) is None);
        assert(first_occurrence(file.skip(to), end) is None);
    }
}

/// A scan that reads full blocks finds the cuts from where it stands.
proof fn lemma_scan_rest(file: Seq<u8>, scan: Scan)
    requires
        !scan.done,
        0 <= scan.offset <= file.len(),
    ensures
        scan_rest(file, scan).done,
        scan_rest(file, scan).positions == scan.positions + cuts(file, scan.offset),
    decreases file.len() - scan.offset,
{
    lemma_end_bytes();
    let end = end_bytes();
    let from = scan.offset;
    let block = block_at(file, from);
    let next = scan_step(scan, block, file.len() as int);
    assert forall|j: int|
        0 <= j && j + end.len() <= block.len() implies (#[trigger] occurs_at(block, end, j)
        == occurs_at(file, end, from + j)) by {
        assert(block.subrange(j, j + end.len()) == file.subrange(from + j, from + j + end.len()));
    }
    if block.len() == 0 {
        assert(cuts(file, from) == Seq::<int>::empty());
    } else if exists|k: int| #[trigger] occurs_at(block, end, k) {
        let k = choose|k: int| #[trigger] occurs_at(block, end, k);
        lemma_first_occurrence(block, end, k);
        let i = first_occurrence(block, end)->0;
        assert(occurs_at(file, end, from + i));
        assert forall|j: int| from <= j < from + i implies !#[trigger] occurs_at(file, end, j) by {
            assert(!occurs_at(block, end, j - from));
        }
        lemma_next_cut(file, from, i);
        lemma_scan_rest(file, next);
        assert(scan.positions.push(next.offset) + cuts(file, next.offset) == scan.positions + (
        seq![next.offset] + cuts(file, next.offset)));
    } else {
        assert(first_occurrence(block, end) is None);
        if block.len() == CHUNK_SIZE {
            assert forall|j: int| from <= j < next.offset implies !#[trigger] occurs_at(
                file,
                end,
                j,
            ) by {
                assert(!occurs_at(block, end, j - from));
            }
            lemma_cuts_skip(file, from, next.offset);
            lemma_scan_rest(file, next);
        } else {
            assert(block == file.skip(from));
            assert(scan.positions.push(file.len() as int) == scan.positions + seq![
                file.len() as int,
            ]);
        }
    }
}

/// A scan that reads full blocks ends with the cuts of the file, wherever the
/// borders between blocks fall.
pub proof fn law_scan_finds_cuts(file: Seq<u8>)
    ensures
        scan_rest(file, scan_start()).done,
        scan_rest(file, scan_start()).positions == seq![0int] + cuts(file, 0),
{
    lemma_scan_rest(file, scan_start());
}

/// The chunks into which a file is cut.
pub open spec fn chunks_of(file: Seq<u8>, positions: Seq<int>) -> Seq<Seq<u8>> {
    ranges(positions).map_values(|r: (int, int)| file.subrange(r.0, r.1))
}

/// A chunk that ends with its only end token.
pub open spec fn ends_once(chunk: Seq<u8>) -> bool {
    is_first(chunk, end_bytes(), chunk.len() - end_bytes().len())
}

/// A chunk without an end token.
pub open spec fn never_ends(chunk: Seq<u8>) -> bool {
    forall|i: int| !#[trigger] occurs_at(chunk, end_bytes(), i)
}

/// The chunks from a position on make up the rest of the file, each ends with
/// its only end token but for the last, which may have none, and none is empty.
proof fn lemma_chunks(file: Seq<u8>, from: int)
    requires
        0 <= from <= file.len(),
    ensures
        ({
            let positions = seq![from] + cuts(file, from);
            let chunks = chunks_of(file, positions);
            &&& chunks.flatten() == file.skip(from)
            &&& forall|i: int| 0 <= i < chunks.len() ==> (#[trigger] chunks[i]).len() > 0
            &&& forall|i: int| 0 <= i < chunks.len() - 1 ==> ends_once(#[trigger] chunks[i])
            &&& chunks.len() > 0 ==> ends_once(chunks.last()) || never_ends(chunks.last())
            &&& forall|i: int|
                0 <= i < positions.len() ==> from <= #[trigger] positions[i] <= file.len()
            &&& forall|i: int, j: int|
                0 <= i < j < positions.len() ==> #[trigger] positions[i] < #[trigger] positions[j]
            &&& positions.last() == file.len()
        }),
    decreases file.len() - from,
{
    lemma_end_bytes();
    let end = end_bytes();
    let tail = cuts(file, from);
    let positions = seq![from] + tail;
    let chunks = chunks_of(file, positions);
    if from == file.len() {
        assert(tail == Seq::<int>::empty());
        assert(chunks == Seq::<Seq<u8>>::empty());
        assert(file.skip(from) == Seq::<u8>::empty());
    } else if exists|k: int| #[trigger] occurs_at(file.skip(from), end, k) {
        let k = choose|k: int| #[trigger] occurs_at(file.skip(from), end, k);
        lemma_first_occurrence(file.skip(from), end, k);
        let i = first_occurrence(file.skip(from), end)->0;
        let next = from + i + end.len();
        assert(tail == seq![next] + cuts(file, next));
        lemma_chunks(file, next);
        let after = seq![next] + cuts(file, next);
        assert(positions == seq![from] + after);
        let first = file.subrange(from, next);
        assert(chunks == seq![first] + chunks_of(file, after)) by {
            assert(ranges(positions) == seq![(from, next)] + ranges(after));
        }
        vstd::seq_lib::lemma_flatten_concat(seq![first], chunks_of(file, after));
        seq![first].lemma_flatten_one_element();
        assert(file.skip(from) == first + file.skip(next));
        assert(ends_once(first)) by {
            assert forall|j: int| 0 <= j <= i implies (#[trigger] occurs_at(first, end, j)
                == occurs_at(file.skip(from), end, j)) by {
                assert(first.subrange(j, j + end.len()) == file.skip(from).subrange(
                    j,
                    j + end.len(),
                ));
            }
            assert(occurs_at(first, end, i));
            assert(first.len() - end.len() == i);
            assert forall|j: int| 0 <= j < i implies !#[trigger] occurs_at(first, end, j) by {
                assert(!occurs_at(file.skip(from), end, j));
            }
        }
        assert forall|i: int| 0 <= i < chunks.len() - 1 implies ends_once(#[trigger] chunks[i]) by {
            if i > 0 {
                assert(chunks[i] == chunks_of(file, after)[i - 1]);
            }
        }
        assert forall|i: int| 0 <= i < chunks.len() implies (#[trigger] chunks[i]).len() > 0 by {
            if i > 0 {
                assert(chunks[i] == chunks_of(file, after)[i - 1]);
            }
        }
        if chunks_of(file, after).len() > 0 {
            assert(chunks.last() == chunks_of(file, after).last());
        } else {
            assert(chunks.last() == first);
        }
        assert forall|i: int| 0 <= i < positions.len() implies from <= #[trigger] positions[i]
            <= file.len() by {
            if i > 0 {
                assert(positions[i] == after[i - 1]);
            }
        }
        assert forall|i: int, j: int| 0 <= i < j < positions.len() implies #[trigger] positions[i]
            < #[trigger] positions[j] by {
            assert(positions[j] == after[j - 1]);
            if i > 0 {
                assert(positions[i] == after[i - 1]);
            }
        }
        assert(positions.last() == after.last());
    } else {
        assert(first_occurrence(file.skip(from), end) is None);
        assert(tail == seq![file.len() as int]);
        assert(ranges(positions) == seq![(from, file.len() as int)]);
        assert(chunks == seq![file.skip(from)]) by {
            assert(file.subrange(from, file.len() as int) == file.skip(from));
        }
        chunks.lemma_flatten_one_element();
        assert(never_ends(chunks.last()));
    }
}

/// The chunks of a file make up the whole file, none is empty, and each holds one
/// end token, as its last bytes; only the last chunk may have none. The cuts go
/// up from the start of the file to its end.
pub proof fn law_chunks_make_up_the_file(file: Seq<u8>)
    ensures
        ({
            let positions = seq![0int] + cuts(file, 0);
            let chunks = chunks_of(file, positions);
            &&& chunks.flatten() == file
            &&& forall|i: int| 0 <= i < chunks.len() ==> (#[trigger] chunks[i]).len() > 0
            &&& forall|i: int| 0 <= i < chunks.len() - 1 ==> ends_once(#[trigger] chunks[i])
            &&& chunks.len() > 0 ==> ends_once(chunks.last()) || never_ends(chunks.last())
            &&& forall|i: int|
                0 <= i < positions.len() ==> 0 <= #[trigger] positions[i] <= file.len()
            &&& forall|i: int, j: int|
                0 <= i < j < positions.len() ==> #[trigger] positions[i] < #[trigger] positions[j]
            &&& positions.last() == file.len()
        }),
{
    lemma_chunks(file, 0);
    assert(file.skip(0) == file);
}

/// The chunks from a position on are texts, where the rest of the file is one.
proof fn lemma_text_chunks(file: Seq<u8>, from: int, text: Seq<char>)
    requires
        0 <= from <= file.len(),
        file.skip(from) == encode_utf8(text),
    ensures
        forall|i: int|
            0 <= i < chunks_of(file, seq![from] + cuts(file, from)).len() ==> valid_utf8(
                #[trigger] chunks_of(file, seq![from] + cuts(file, from))[i],
            ),
    decreases file.len() - from,
{
    lemma_end_bytes();
    let end = end_bytes();
    let positions = seq![from] + cuts(file, from);
    let chunks = chunks_of(file, positions);
    let rest = file.skip(from);
    if from < file.len() {
        if exists|k: int| #[trigger] occurs_at(rest, end, k) {
            let k = choose|k: int| #[trigger] occurs_at(rest, end, k);
            lemma_first_occurrence(rest, end, k);
            let i = first_occurrence(rest, end)->0;
            let next = from + i + end.len();
            law_end_tokens_cannot_overlap();
            let c = lemma_occurs_in_text(text, END_TOKEN@, i);
            let head = text.take(c) + END_TOKEN@;
            let tail = text.skip(c + END_TOKEN@.len());
            assert(text == head + tail) by {
                assert(text.subrange(c, c + END_TOKEN@.len()) == END_TOKEN@);
            }
            lemma_encode_concat(head, tail);
            lemma_encode_concat(text.take(c), END_TOKEN@);
            assert(file.skip(next) == encode_utf8(tail)) by {
                assert(file.skip(next) == rest.skip(i + end.len()));
            }
            assert(file.subrange(from, next) == encode_utf8(head)) by {
                assert(file.subrange(from, next) == rest.take(i + end.len()));
            }
            encode_utf8_valid_utf8(head);
            lemma_text_chunks(file, next, tail);
            let after = seq![next] + cuts(file, next);
            assert(positions == seq![from] + after);
            assert forall|j: int| 0 <= j < chunks.len() implies valid_utf8(
                #[trigger] chunks[j],
            ) by {
                if j > 0 {
                    assert(chunks[j] == chunks_of(file, after)[j - 1]);
                }
            }
        } else {
            assert(first_occurrence(rest, end) is None);
            assert(file.subrange(from, file.len() as int) == rest);
            encode_utf8_valid_utf8(text);
        }
    }
}

/// A file of text is never cut inside a character: every chunk is a text.
pub proof fn law_text_is_cut_between_characters(text: Seq<char>)
    ensures
        forall|i: int|
            0 <= i < chunks_of(
                encode_utf8(text),
                seq![0int] + cuts(encode_utf8(text), 0),
            ).len() ==> valid_utf8(
                #[trigger] chunks_of(
                    encode_utf8(text),
                    seq![0int] + cuts(encode_utf8(text), 0),
                )[i],
            ),
{
    assert(encode_utf8(text).skip(0) == encode_utf8(text));
    lemma_text_chunks(encode_utf8(text), 0, text);
}

/// The chunks into which a whole file is cut.
pub open spec fn file_chunks(file: Seq<u8>) -> Seq<Seq<u8>> {
    chunks_of(file, seq![0int] + cuts(file, 0))
}

/// The file is empty or ends with an end token.
pub open spec fn file_ends(file: Seq<u8>) -> bool {
    file.len() == 0 || occurs_at(file, end_bytes(), file.len() - end_bytes().len())
}

/// The first byte of the end token stands in it once.
proof fn lemma_end_bytes_start()
    ensures
        end_bytes().len() == 13,
        forall|d: int| 0 < d < 13 ==> #[trigger] end_bytes()[d] != end_bytes()[0],
{
    reveal_strlit("<|endoftext|>");
    vstd::utf8::is_ascii_chars_encode_utf8(END_TOKEN@);
    assert forall|d: int| 0 < d < 13 implies #[trigger] end_bytes()[d] != end_bytes()[0] by {
        assert(END_TOKEN@[d] as u8 == end_bytes()[d]);
        assert(END_TOKEN@[0] as u8 == end_bytes()[0]);
    }
}

/// Documents that each end with their only end token are found again, where the
/// rest of the file is made of them.
proof fn lemma_documents(file: Seq<u8>, from: int, docs: Seq<Seq<u8>>)
    requires
        0 <= from <= file.len(),
        file.skip(from) == docs.flatten(),
        forall|i: int| 0 <= i < docs.len() ==> ends_once(#[trigger] docs[i]),
    ensures
        chunks_of(file, seq![from] + cuts(file, from)) == docs,
    decreases docs.len(),
{
    lemma_end_bytes();
    let end = end_bytes();
    let positions = seq![from] + cuts(file, from);
    if docs.len() == 0 {
        assert(file.skip(from).len() == 0);
        assert(cuts(file, from) == Seq::<int>::empty());
        assert(chunks_of(file, positions) == docs);
    } else {
        let first = docs[0];
        let rest = docs.drop_first();
        assert(ends_once(first));
        assert(docs.flatten() == first + rest.flatten());
        let i = first.len() - end.len();
        let next = from + first.len();
        assert(file.subrange(from, next) == first) by {
            assert(file.subrange(from, next) == file.skip(from).take(first.len() as int));
        }
        assert(file.skip(next) == rest.flatten()) by {
            assert(file.skip(next) == file.skip(from).skip(first.len() as int));
        }
        assert forall|j: int|
            0 <= j && j + end.len() <= first.len() implies (#[trigger] occurs_at(first, end, j)
            == occurs_at(file, end, from + j)) by {
            assert(first.subrange(j, j + end.len()) == file.subrange(
                from + j,
                from + j + end.len(),
            ));
        }
        assert(occurs_at(first, end, i));
        assert forall|j: int| from <= j < from + i implies !#[trigger] occurs_at(file, end, j) by {
            assert(!occurs_at(first, end, j - from));
        }
        lemma_next_cut(file, from, i);
        assert forall|j: int| 0 <= j < rest.len() implies ends_once(#[trigger] rest[j]) by {
            assert(ends_once(docs[j + 1]));
        }
        lemma_documents(file, next, rest);
        let after = seq![next] + cuts(file, next);
        assert(positions == seq![from] + after);
        assert(ranges(positions) == seq![(from, next)] + ranges(after));
        assert(chunks_of(file, positions) == seq![first] + chunks_of(file, after));
        assert(docs == seq![first] + rest);
    }
}

/// Documents never merge into one another: a file that is made of documents that
/// each end with their only end token is cut into just these documents.
pub proof fn law_documents_stay_apart(docs: Seq<Seq<u8>>)
    requires
        forall|i: int| 0 <= i < docs.len() ==> ends_once(#[trigger] docs[i]),
    ensures
        file_chunks(docs.flatten()) == docs,
{
    assert(docs.flatten().skip(0) == docs.flatten());
    lemma_documents(docs.flatten(), 0, docs);
}

/// Every chunk of a file that ends with an end token ends with its only end token.
pub proof fn law_ended_file_has_ended_chunks(file: Seq<u8>)
    requires
        file_ends(file),
    ensures
        forall|i: int|
            0 <= i < file_chunks(file).len() ==> ends_once(#[trigger] file_chunks(file)[i]),
{
    law_chunks_make_up_the_file(file);
    lemma_end_bytes_start();
    let end = end_bytes();
    let positions = seq![0int] + cuts(file, 0);
    let chunks = file_chunks(file);
    let m = chunks.len() as int;
    if m > 0 && !ends_once(chunks.last()) {
        assert(never_ends(chunks.last()));
        assert(positions.len() == m + 1);
        let p = positions[m - 1];
        assert(positions[m] == file.len());
        assert(chunks.last() == file.subrange(p, file.len() as int));
        let at = file.len() - end.len();
        assert(file.subrange(at, at + end.len()) == end);
        if at >= p {
            assert(chunks.last().subrange(at - p, at - p + end.len()) == end);
            assert(occurs_at(chunks.last(), end, at - p));
        } else {
            assert(m > 1);
            let before = chunks[m - 2];
            assert(ends_once(before));
            assert(before == file.subrange(positions[m - 2], p));
            let q = before.len() - end.len();
            assert(before.subrange(q, q + end.len()) == end);
            assert(positions[m - 1] < positions[m]);
            let d = file.len() - p;
            assert(before.subrange(q, q + end.len())[d] == file[at]);
            assert(file.subrange(at, at + end.len())[0] == file[at]);
            assert(end[d] != end[0]);
        }
        assert(false);
    }
}

/// The stretches between cuts go from each cut to the next, and there is one fewer than
/// there are cuts.
pub proof fn law_stretches_join_neighbouring_cuts(positions: Seq<int>, i: int)
    requires
        0 <= i < positions.len() - 1,
    ensures
        ranges(positions).len() == positions.len() - 1,
        ranges(positions)[i] == (positions[i], positions[i + 1]),
        ranges(seq![positions[i]]).len() == 0,
        ranges(Seq::empty()).len() == 0,
{
}

/// A read that finds an end token cuts the file behind it and goes on from there.
pub proof fn law_end_token_cuts_the_file(scan: Scan, before: Seq<u8>, after: Seq<u8>, len: int)
    requires
        forall|j: int|
            0 <= j < before.len() ==> !#[trigger] occurs_at(
                before + encode_utf8(END_TOKEN@) + after,
                encode_utf8(END_TOKEN@),
                j,
            ),
    ensures
        ({
            let next = scan_step(scan, before + encode_utf8(END_TOKEN@) + after, len);
            let cut = scan.offset + before.len() + 13;
            next.offset == cut && next.positions == scan.positions + seq![cut] && !next.done
        }),
{
    lemma_end_bytes();
    let end = encode_utf8(END_TOKEN@);
    let chunk = before + end + after;
    let i = before.len() as int;
    assert(chunk.subrange(i, i + end.len()) == end);
    assert(is_first(chunk, end, i));
    lemma_first_occurrence(chunk, end, i);
    assert(scan.positions.push(scan.offset + i + 13) == scan.positions + seq![scan.offset + i
        + 13]);
}

/// A read without an end token cuts nothing where it is full: the next one starts so
/// much earlier than its end that an end token across the border is seen whole. One that
/// is not full is the last, and the file is cut at its end. Where nothing is read, the
/// scan is over.
pub proof fn law_read_without_end_token_cuts_at_the_end(scan: Scan, chunk: Seq<u8>, len: int)
    requires
        forall|j: int| !#[trigger] occurs_at(chunk, encode_utf8(END_TOKEN@), j),
    ensures
        ({
            let next = scan_step(scan, chunk, len);
            &&& chunk.len() == 4096 ==> {
                &&& next.offset == scan.offset + 4096 - 13
                &&& next.positions == scan.positions
                &&& next.done == scan.done
            }
            &&& 0 < chunk.len() && chunk.len() != 4096 ==> {
                &&& next.offset == scan.offset
                &&& next.positions == scan.positions + seq![len]
                &&& next.done
            }
            &&& chunk.len() == 0 ==> {
                &&& next.offset == scan.offset
                &&& next.positions == scan.positions
                &&& next.done
            }
        }),
{
    lemma_end_bytes();
    assert(scan.positions.push(len) == scan.positions + seq![len]);
}

} // verus!

//! The storage rules of the observer: which journal files make up a run and
//! in what order, what a journal index may hold, what a journal must be to
//! be restored, which object ids are well formed, and the digests by which
//! stored objects are named and checked. The files themselves are read and
//! written outside.

use vstd::prelude::*;

use crate::text::{append_chars, to_chars};

verus! {

/// The name of a run's journal index.
pub const JOURNAL_INDEX: &'static str = "journal-index.json";

/// The chunk size of a new journal index, in bytes.
pub const DEFAULT_CHUNK_BYTES: usize = 16777216;

/// The largest chunk size a journal index may state.
pub const MAX_CHUNK_BYTES: usize = 33554432;

/// One sealed chunk of a journal.
#[derive(Clone, Debug)]
pub struct JournalChunk {
    pub file: String,
    pub first_sequence: u64,
    pub last_sequence: u64,
    pub records: u64,
    pub uncompressed_bytes: u64,
    pub compressed_bytes: u64,
    pub content_sha256: String,
}

/// The sealed chunks of a journal, oldest first.
#[derive(Clone, Debug)]
pub struct JournalIndex {
    pub schema: String,
    pub chunk_bytes: usize,
    pub chunks: Vec<JournalChunk>,
}

/// The only journal index schema this library reads.
pub open spec fn index_schema() -> Seq<char> {
    "benchmark-journal-index-v2"@
}

/// How many times `c` occurs in `s`.
pub open spec fn count_char(s: Seq<char>, c: char) -> nat
    decreases s.len(),
{
    if s.len() == 0 {
        0
    } else {
        count_char(s.drop_last(), c) + if s.last() == c {
            1nat
        } else {
            0nat
        }
    }
}

/// `s` holds two dots in a row.
pub open spec fn has_double_dot(s: Seq<char>) -> bool {
    exists|i: int| 0 <= i && i + 1 < s.len() && s[i] == '.' && #[trigger] s[i + 1] == '.'
}

/// `s` begins with `p`.
pub open spec fn begins_with(s: Seq<char>, p: Seq<char>) -> bool {
    p.len() <= s.len() && s.take(p.len() as int) == p
}

/// A chunk that may follow one whose last sequence was `previous`: a file
/// directly under `history/` with no `..` in its name, sequences that go
/// forward, and no more bytes than a chunk may hold.
pub open spec fn chunk_ok(c: JournalChunk, previous: u64, chunk_bytes: usize) -> bool {
    &&& begins_with(c.file@, "history/"@)
    &&& !has_double_dot(c.file@)
    &&& count_char(c.file@, '/') == 1
    &&& c.first_sequence > previous
    &&& c.first_sequence <= c.last_sequence
    &&& c.uncompressed_bytes <= chunk_bytes
}

/// The chunks from the `k`-th on are all in order after `previous`.
pub open spec fn chunks_ok(cs: Seq<JournalChunk>, k: int, previous: u64, chunk_bytes: usize) -> bool
    decreases cs.len() - k,
{
    if k < 0 || k >= cs.len() {
        true
    } else {
        chunk_ok(cs[k], previous, chunk_bytes) && chunks_ok(cs, k + 1, cs[k].last_sequence, chunk_bytes)
    }
}

/// Why a journal index is refused, if it is: first its schema and chunk
/// size, then its chunks.
pub open spec fn index_error(index: JournalIndex) -> Option<Seq<char>> {
    if index.schema@ != index_schema() || index.chunk_bytes == 0 || index.chunk_bytes > MAX_CHUNK_BYTES {
        Some("unsupported journal index schema"@)
    } else if !chunks_ok(index.chunks@, 0, 0, index.chunk_bytes) {
        Some("invalid journal chunk index"@)
    } else {
        None
    }
}

fn begins_with_exec(cs: &Vec<char>, p: &str) -> (r: bool)
    ensures
        r == begins_with(cs@, p@),
{
    let pc = to_chars(p);
    if pc.len() > cs.len() {
        return false;
    }
    let mut i: usize = 0;
    while i < pc.len()
        invariant
            pc@ == p@,
            pc@.len() <= cs@.len(),
            i <= pc@.len(),
            forall|j: int| 0 <= j < i ==> cs@[j] == pc@[j],
        decreases pc@.len() - i,
    {
        if cs[i] != pc[i] {
            return false;
        }
        i += 1;
    }
    assert(cs@.take(pc@.len() as int) =~= pc@);
    true
}

fn double_dot_exec(cs: &Vec<char>) -> (r: bool)
    ensures
        r == has_double_dot(cs@),
{
    let mut i: usize = 0;
    while i < cs.len()
        invariant
            i <= cs@.len(),
            forall|j: int| 0 <= j < i && j + 1 < cs@.len() ==> !(cs@[j] == '.' && #[trigger] cs@[j + 1] == '.'),
        decreases cs@.len() - i,
    {
        if i + 1 < cs.len() && cs[i] == '.' && cs[i + 1] == '.' {
            return true;
        }
        i += 1;
    }
    assert forall|j: int| 0 <= j && j + 1 < cs@.len() implies !(cs@[j] == '.' && #[trigger] cs@[j + 1] == '.') by {}
    false
}

fn count_char_exec(cs: &Vec<char>, c: char) -> (r: usize)
    ensures
        r == count_char(cs@, c),
{
    let mut n: usize = 0;
    let mut i: usize = 0;
    while i < cs.len()
        invariant
            i <= cs@.len(),
            n == count_char(cs@.take(i as int), c),
            n <= i,
        decreases cs@.len() - i,
    {
        assert(cs@.take(i + 1).drop_last() =~= cs@.take(i as int));
        if cs[i] == c {
            n += 1;
        }
        i += 1;
    }
    assert(cs@.take(cs@.len() as int) =~= cs@);
    n
}

fn chunk_fits(c: &JournalChunk, previous: u64, chunk_bytes: usize) -> (r: bool)
    ensures
        r == chunk_ok(*c, previous, chunk_bytes),
{
    let cs = to_chars(c.file.as_str());
    begins_with_exec(&cs, "history/") && !double_dot_exec(&cs) && count_char_exec(&cs, '/') == 1 && c.first_sequence
        > previous && c.first_sequence <= c.last_sequence && c.uncompressed_bytes <= chunk_bytes as u64
}

impl JournalIndex {
    /// The index of a journal that has sealed nothing yet.
    pub fn fresh() -> (r: JournalIndex)
        ensures
            r.schema@ == index_schema(),
            r.chunk_bytes == DEFAULT_CHUNK_BYTES,
            r.chunks@.len() == 0,
    {
        JournalIndex {
            schema: "benchmark-journal-index-v2".to_owned(),
            chunk_bytes: DEFAULT_CHUNK_BYTES,
            chunks: Vec::new(),
        }
    }

    /// Accepts the index, or refuses it with the reason [`index_error`]
    /// gives.
    pub fn check(&self) -> (r: Result<(), String>)
        ensures
            match index_error(*self) {
                None => r is Ok,
                Some(message) => r is Err && r->Err_0@ == message,
            },
    {
        let schema_ok = self.schema == "benchmark-journal-index-v2".to_owned();
        if !schema_ok || self.chunk_bytes == 0 || self.chunk_bytes > MAX_CHUNK_BYTES {
            return Err("unsupported journal index schema".to_owned());
        }
        let ghost cs = self.chunks@;
        let mut previous: u64 = 0;
        let mut k: usize = 0;
        while k < self.chunks.len()
            invariant
                cs == self.chunks@,
                k <= cs.len(),
                self.schema@ == index_schema(),
                0 < self.chunk_bytes <= MAX_CHUNK_BYTES,
                chunks_ok(cs, 0, 0, self.chunk_bytes) == chunks_ok(cs, k as int, previous, self.chunk_bytes),
            decreases cs.len() - k,
        {
            let c = &self.chunks[k];
            if !chunk_fits(c, previous, self.chunk_bytes) {
                return Err("invalid journal chunk index".to_owned());
            }
            previous = c.last_sequence;
            k += 1;
        }
        Ok(())
    }
}

/// The strings' characters.
pub open spec fn names(v: Seq<String>) -> Seq<Seq<char>> {
    v.map_values(|s: String| s@)
}

/// The files a run's journal is read from, in order: the sealed chunks,
/// then the append-only tail when there is one, or else, with no chunk at
/// all, the compressed journal when there is one.
pub open spec fn sources_spec(index: JournalIndex, tail_is_file: bool, zst_is_file: bool) -> Seq<Seq<char>> {
    let chunks = index.chunks@.map_values(|c: JournalChunk| c.file@);
    if tail_is_file {
        chunks.push("journal.jsonl"@)
    } else if index.chunks@.len() == 0 && zst_is_file {
        chunks.push("journal.jsonl.zst"@)
    } else {
        chunks
    }
}

/// See [`sources_spec`]; the caller says which of the two journal files
/// exist.
pub fn journal_sources(index: &JournalIndex, tail_is_file: bool, zst_is_file: bool) -> (r: Vec<String>)
    ensures
        names(r@) == sources_spec(*index, tail_is_file, zst_is_file),
{
    let ghost chunks = index.chunks@.map_values(|c: JournalChunk| c.file@);
    let mut out: Vec<String> = Vec::new();
    let mut k: usize = 0;
    while k < index.chunks.len()
        invariant
            k <= index.chunks@.len(),
            chunks == index.chunks@.map_values(|c: JournalChunk| c.file@),
            names(out@) == chunks.take(k as int),
        decreases index.chunks@.len() - k,
    {
        let ghost before = out@;
        out.push(index.chunks[k].file.clone());
        assert(names(out@) =~= names(before).push(index.chunks@[k as int].file@));
        assert(chunks.take(k + 1) =~= chunks.take(k as int).push(index.chunks@[k as int].file@));
        k += 1;
    }
    assert(chunks.take(index.chunks@.len() as int) =~= chunks);
    let ghost before = out@;
    if tail_is_file {
        out.push("journal.jsonl".to_owned());
        assert(names(out@) =~= names(before).push("journal.jsonl"@));
    } else if index.chunks.len() == 0 && zst_is_file {
        out.push("journal.jsonl.zst".to_owned());
        assert(names(out@) =~= names(before).push("journal.jsonl.zst"@));
    }
    out
}

/// The file that holds a run's journal: the plain journal when it exists,
/// else the journal index when it exists, else the compressed journal.
pub fn journal_source(plain_is_file: bool, index_is_file: bool) -> (r: &'static str)
    ensures
        r@ == if plain_is_file {
            "journal.jsonl"@
        } else if index_is_file {
            JOURNAL_INDEX@
        } else {
            "journal.jsonl.zst"@
        },
{
    if plain_is_file {
        "journal.jsonl"
    } else if index_is_file {
        JOURNAL_INDEX
    } else {
        "journal.jsonl.zst"
    }
}

/// Whether resuming a run first restores its plain journal from the
/// compressed one: only when there is no index, no plain journal and a
/// compressed one. The journal resumed is the plain one in every case.
pub fn restore_journal(index_is_file: bool, plain_exists: bool, zst_is_file: bool) -> (r: bool)
    ensures
        r == (!index_is_file && !plain_exists && zst_is_file),
{
    !index_is_file && !plain_exists && zst_is_file
}

/// An ASCII hexadecimal digit, either case.
pub open spec fn hex_digit_char(c: char) -> bool {
    ('0' <= c && c <= '9') || ('a' <= c && c <= 'f') || ('A' <= c && c <= 'F')
}

/// A stored object's id: 64 hexadecimal digits.
pub open spec fn object_id_ok(id: Seq<char>) -> bool {
    id.len() == 64 && forall|i: int| 0 <= i < id.len() ==> hex_digit_char(#[trigger] id[i])
}

/// See [`object_id_ok`].
pub fn valid_object_id(id: &str) -> (r: bool)
    ensures
        r == object_id_ok(id@),
{
    let cs = to_chars(id);
    if cs.len() != 64 {
        return false;
    }
    let mut i: usize = 0;
    while i < cs.len()
        invariant
            cs@ == id@,
            i <= cs@.len(),
            forall|j: int| 0 <= j < i ==> hex_digit_char(#[trigger] cs@[j]),
        decreases cs@.len() - i,
    {
        let c = cs[i];
        if !(('0' <= c && c <= '9') || ('a' <= c && c <= 'f') || ('A' <= c && c <= 'F')) {
            return false;
        }
        i += 1;
    }
    true
}

/// The SHA-256 digest of the bytes, as `sha2` computes it.
pub uninterp spec fn sha256_digest(data: Seq<u8>) -> Seq<u8>;

/// `sha2::Sha256::digest`: the SHA-256 digest of `data`, a function of the
/// data alone, which [`sha256_digest`] names; its output type
/// (`GenericArray<u8, U32>`) holds 32 bytes.
#[verifier::external_body]
fn sha256(data: &[u8]) -> (r: Vec<u8>)
    ensures
        r@ == sha256_digest(data@),
        r@.len() == 32,
{
    <sha2::Sha256 as sha2::Digest>::digest(data).to_vec()
}

/// The lowercase hexadecimal digit of a value below 16.
pub open spec fn hex_char(d: int) -> char {
    if d < 10 {
        (48 + d) as char
    } else {
        (87 + d) as char
    }
}

/// Each byte as two lowercase hexadecimal digits.
pub open spec fn hex_text(bytes: Seq<u8>) -> Seq<char>
    decreases bytes.len(),
{
    if bytes.len() == 0 {
        Seq::empty()
    } else {
        hex_text(bytes.drop_last()).push(hex_char(bytes.last() as int / 16)).push(hex_char(bytes.last() as int % 16))
    }
}

fn hex_char_exec(d: u8) -> (r: char)
    requires
        d < 16,
    ensures
        r == hex_char(d as int),
{
    if d < 10 {
        (48u8 + d) as char
    } else {
        (87u8 + d) as char
    }
}

/// The name of stored content: its SHA-256 digest in lowercase
/// hexadecimal.
pub fn digest(bytes: &[u8]) -> (r: String)
    ensures
        r@ == hex_text(sha256_digest(bytes@)),
{
    let d = sha256(bytes);
    let mut out = String::new();
    let mut i: usize = 0;
    while i < d.len()
        invariant
            i <= d@.len(),
            out@ == hex_text(d@.take(i as int)),
        decreases d@.len() - i,
    {
        let b = d[i];
        crate::text::push_char(&mut out, hex_char_exec(b / 16));
        crate::text::push_char(&mut out, hex_char_exec(b % 16));
        assert(d@.take(i + 1).drop_last() =~= d@.take(i as int));
        i += 1;
    }
    assert(d@.take(d@.len() as int) =~= d@);
    out
}

/// Why a stored object's bytes are refused, if they are: first a length
/// other than the one its descriptor states, then a digest other than the
/// one it states.
pub open spec fn object_error(id: Seq<char>, expected_len: Option<u64>, expected_sha: Option<Seq<char>>, bytes: Seq<u8>) -> Option<Seq<char>> {
    if expected_len matches Some(n) && n != bytes.len() {
        Some("observer object "@ + id + " length mismatch"@)
    } else if expected_sha matches Some(h) && h != hex_text(sha256_digest(bytes)) {
        Some("observer object "@ + id + " checksum mismatch"@)
    } else {
        None
    }
}

fn object_message(id: &str, what: &str) -> (r: String)
    ensures
        r@ == "observer object "@ + id@ + what@,
{
    let mut out = "observer object ".to_owned();
    append_chars(&mut out, to_chars(id).as_slice());
    append_chars(&mut out, to_chars(what).as_slice());
    out
}

/// Accepts a stored object's bytes, or refuses them as [`object_error`]
/// says.
pub fn check_object(id: &str, expected_len: Option<u64>, expected_sha: Option<&str>, bytes: &[u8]) -> (r: Result<
    (),
    String,
>)
    ensures
        match object_error(
            id@,
            expected_len,
            match expected_sha {
                Some(h) => Some(h@),
                None => None,
            },
            bytes@,
        ) {
            None => r is Ok,
            Some(message) => r is Err && r->Err_0@ == message,
        },
{
    if let Some(n) = expected_len {
        if n != bytes.len() as u64 {
            return Err(object_message(id, " length mismatch"));
        }
    }
    if let Some(h) = expected_sha {
        let actual = digest(bytes);
        if !(h.to_owned() == actual) {
            return Err(object_message(id, " checksum mismatch"));
        }
    }
    Ok(())
}

/// One line of a journal, as read: blank, unreadable (with the reader's
/// error), or a row with its `schema` and `sequence` members where they are
/// a string and an unsigned integer.
#[derive(Clone, Debug)]
pub enum JournalLine {
    Blank,
    Unreadable(String),
    Row { schema: Option<String>, sequence: Option<u64> },
}

/// The first problem among the lines from the `k`-th on, after a row of
/// sequence `previous`: an unreadable line, a row of another schema, a row
/// without a sequence, or one whose sequence does not go forward.
pub open spec fn lines_error(ls: Seq<JournalLine>, k: int, previous: u64, schema: Seq<char>) -> Option<Seq<char>>
    decreases ls.len() - k,
{
    if k < 0 || k >= ls.len() {
        None
    } else {
        match ls[k] {
            JournalLine::Blank => lines_error(ls, k + 1, previous, schema),
            JournalLine::Unreadable(e) => Some(e@),
            JournalLine::Row { schema: s, sequence } => if !(s matches Some(x) && x@ == schema) {
                Some("unsupported run event schema"@)
            } else {
                match sequence {
                    None => Some("missing run sequence"@),
                    Some(q) => if q <= previous {
                        Some("run sequence is not increasing"@)
                    } else {
                        lines_error(ls, k + 1, q, schema)
                    },
                }
            },
        }
    }
}

/// Why a journal cannot be restored, if it cannot: it does not end its last
/// record, or one of its lines fails as [`lines_error`] says.
pub open spec fn journal_error(complete: bool, ls: Seq<JournalLine>, schema: Seq<char>) -> Option<Seq<char>> {
    if !complete {
        Some("journal has an incomplete final record"@)
    } else {
        lines_error(ls, 0, 0, schema)
    }
}

/// Accepts a journal whose bytes are empty or end with a newline
/// (`complete`) and whose lines are these, or refuses it as
/// [`journal_error`] says; `schema` is the run event schema rows must name.
pub fn validate_journal(complete: bool, lines: &Vec<JournalLine>, schema: &str) -> (r: Result<(), String>)
    ensures
        match journal_error(complete, lines@, schema@) {
            None => r is Ok,
            Some(message) => r is Err && r->Err_0@ == message,
        },
{
    if !complete {
        return Err("journal has an incomplete final record".to_owned());
    }
    let mut previous: u64 = 0;
    let mut k: usize = 0;
    while k < lines.len()
        invariant
            k <= lines@.len(),
            complete,
            journal_error(complete, lines@, schema@) == lines_error(lines@, k as int, previous, schema@),
        decreases lines@.len() - k,
    {
        match &lines[k] {
            JournalLine::Blank => {},
            JournalLine::Unreadable(e) => {
                return Err(e.clone());
            },
            JournalLine::Row { schema: s, sequence } => {
                let named = match s {
                    Some(x) => x.clone() == schema.to_owned(),
                    None => false,
                };
                if !named {
                    return Err("unsupported run event schema".to_owned());
                }
                match sequence {
                    None => {
                        return Err("missing run sequence".to_owned());
                    },
                    Some(q) => {
                        if *q <= previous {
                            return Err("run sequence is not increasing".to_owned());
                        }
                        previous = *q;
                    },
                }
            },
        }
        k += 1;
    }
    Ok(())
}

/// The sequence of a row.
pub open spec fn row_sequence(l: JournalLine) -> Option<u64> {
    match l {
        JournalLine::Row { sequence, .. } => sequence,
        _ => None,
    }
}

proof fn lemma_lines_ok(ls: Seq<JournalLine>, k: int, previous: u64, schema: Seq<char>)
    requires
        0 <= k,
        lines_error(ls, k, previous, schema) is None,
    ensures
        forall|i: int| k <= i < ls.len() && (#[trigger] ls[i]) is Row ==> (row_sequence(ls[i]) is Some && row_sequence(ls[i])->0 > previous),
        forall|i: int, j: int|
            k <= i < j < ls.len() && (#[trigger] ls[i]) is Row && (#[trigger] ls[j]) is Row ==> row_sequence(ls[i])->0
                < row_sequence(ls[j])->0,
        forall|i: int| k <= i < ls.len() ==> !((#[trigger] ls[i]) is Unreadable),
    decreases ls.len() - k,
{
    if k < ls.len() {
        match ls[k] {
            JournalLine::Blank => {
                lemma_lines_ok(ls, k + 1, previous, schema);
            },
            JournalLine::Unreadable(_) => {},
            JournalLine::Row { schema: s, sequence } => {
                let q = sequence->0;
                lemma_lines_ok(ls, k + 1, q, schema);
            },
        }
    }
}

/// A journal that is accepted for restoring holds no unreadable line, and
/// the sequences of its rows go strictly forward.
pub proof fn law_accepted_journals_go_forward(complete: bool, ls: Seq<JournalLine>, schema: Seq<char>)
    requires
        journal_error(complete, ls, schema) is None,
    ensures
        complete,
        forall|i: int| 0 <= i < ls.len() ==> !((#[trigger] ls[i]) is Unreadable),
        forall|i: int| 0 <= i < ls.len() && (#[trigger] ls[i]) is Row ==> row_sequence(ls[i]) is Some,
        forall|i: int, j: int|
            0 <= i < j < ls.len() && (#[trigger] ls[i]) is Row && (#[trigger] ls[j]) is Row ==> row_sequence(ls[i])->0
                < row_sequence(ls[j])->0,
{
    lemma_lines_ok(ls, 0, 0, schema);
}

} // verus!

//! The note parser: splits the content of a note file on a fixed delimiter,
//! extracts a bracketed date header and a body from each chunk, and
//! returns the records newest-first (reverse of file order).
use vstd::prelude::*;
use vstd::string::*;
use crate::text::{
    chars_of, find_char, find_first, has_substring, is_bracket, lemma_find_first_ensures,
    lemma_strip_brackets_bracket_free, string_of, strip_brackets, strip_brackets_vec, subvec, trim,
    trim_vec,
};

verus! {

/// The delimiter that separates chunks in a note file: a run of 18 dashes.
pub open spec fn delim() -> Seq<char> {
    Seq::new(18, |i: int| '-')
}

/// Whether the delimiter occurs in `s` starting at position `i`.
pub open spec fn matches_at(s: Seq<char>, i: int) -> bool {
    0 <= i && i + delim().len() <= s.len() && s.subrange(i, i + delim().len()) == delim()
}

/// The chunks of `s`: the pieces between the exact, non-overlapping,
/// leftmost-first occurrences of the delimiter. A text with no delimiter is
/// one single chunk; a delimiter at either end or two adjacent delimiters
/// yield empty chunks.
pub open spec fn split_chunks(s: Seq<char>) -> Seq<Seq<char>>
    decreases s.len(),
{
    if s.len() < delim().len() {
        seq![s]
    } else if s.subrange(0, delim().len() as int) == delim() {
        seq![Seq::<char>::empty()] + split_chunks(s.skip(delim().len() as int))
    } else {
        let rest = split_chunks(s.skip(1));
        seq![seq![s[0]] + rest[0]] + rest.skip(1)
    }
}

/// A delimiter occurrence in the suffix `s.skip(start)` is one in `s`,
/// shifted by `start`.
proof fn lemma_matches_skip(s: Seq<char>, start: int, j: int)
    requires
        0 <= start <= s.len(),
        0 <= j,
    ensures
        matches_at(s.skip(start), j) == matches_at(s, start + j),
{
    if j + delim().len() <= s.len() - start {
        assert(s.skip(start).subrange(j, j + delim().len()) =~= s.subrange(
            start + j,
            start + j + delim().len(),
        ));
    }
}

/// If the first delimiter occurrence in `s` is at `k`, the first chunk is
/// `s.take(k)` and the rest are the chunks of what follows the occurrence.
proof fn lemma_split_at_match(s: Seq<char>, k: int)
    requires
        matches_at(s, k),
        forall|j: int| 0 <= j < k ==> !matches_at(s, j),
    ensures
        split_chunks(s) == seq![s.take(k)] + split_chunks(s.skip(k + delim().len())),
    decreases k,
{
    if k == 0 {
        assert(s.take(0) =~= Seq::<char>::empty());
        assert(seq![s.take(0)] =~= seq![Seq::<char>::empty()]);
    } else {
        assert(!matches_at(s, 0));
        assert(s.subrange(0, delim().len() as int) != delim());
        assert(matches_at(s.skip(1), k - 1)) by {
            lemma_matches_skip(s, 1, k - 1);
        }
        assert forall|j: int| 0 <= j < k - 1 implies !matches_at(s.skip(1), j) by {
            lemma_matches_skip(s, 1, j);
        }
        lemma_split_at_match(s.skip(1), k - 1);
        let rest = split_chunks(s.skip(1));
        assert(rest[0] == s.skip(1).take(k - 1));
        assert(seq![s[0]] + s.skip(1).take(k - 1) =~= s.take(k));
        assert(rest.skip(1) == split_chunks(s.skip(1).skip(k - 1 + delim().len()))) by {
            assert((seq![s.skip(1).take(k - 1)] + split_chunks(
                s.skip(1).skip(k - 1 + delim().len()),
            )).skip(1) =~= split_chunks(s.skip(1).skip(k - 1 + delim().len())));
        }
        assert(s.skip(1).skip(k - 1 + delim().len()) =~= s.skip(k + delim().len()));
        assert(split_chunks(s) =~= seq![s.take(k)] + split_chunks(s.skip(k + delim().len())));
    }
}

/// A text with no delimiter occurrence is one single chunk.
proof fn lemma_split_no_match(s: Seq<char>)
    requires
        forall|j: int| !matches_at(s, j),
    ensures
        split_chunks(s) == seq![s],
    decreases s.len(),
{
    if s.len() >= delim().len() {
        assert(!matches_at(s, 0));
        assert(s.subrange(0, delim().len() as int) != delim());
        assert forall|j: int| !matches_at(s.skip(1), j) by {
            if j >= 0 {
                lemma_matches_skip(s, 1, j);
            }
        }
        lemma_split_no_match(s.skip(1));
        let rest = split_chunks(s.skip(1));
        assert(rest[0] == s.skip(1));
        assert(seq![s[0]] + s.skip(1) =~= s);
        assert(rest.skip(1) =~= Seq::<Seq<char>>::empty());
        assert(split_chunks(s) =~= seq![s]);
    }
}

/// The views of a sequence of character vectors.
pub open spec fn views(s: Seq<Vec<char>>) -> Seq<Seq<char>> {
    s.map_values(|x: Vec<char>| x@)
}

/// Whether the delimiter occurs in `v` starting at position `i`.
fn delim_match(v: &Vec<char>, i: usize) -> (b: bool)
    requires
        i + delim().len() <= v@.len() <= usize::MAX,
    ensures
        b == matches_at(v@, i as int),
{
    let mut k: usize = 0;
    while k < 18
        invariant
            k <= 18,
            i + 18 <= v@.len() <= usize::MAX,
            forall|m: int| 0 <= m < k ==> #[trigger] v@[i + m] == '-',
        decreases 18 - k,
    {
        if v[i + k] != '-' {
            proof {
                if matches_at(v@, i as int) {
                    assert(v@.subrange(i as int, i + delim().len())[k as int] == v@[i + k]);
                    assert(delim()[k as int] == '-');
                }
            }
            return false;
        }
        k += 1;
    }
    proof {
        let sub = v@.subrange(i as int, i + delim().len());
        assert forall|m: int| 0 <= m < 18 implies sub[m] == delim()[m] by {
            assert(sub[m] == v@[i + m]);
            assert(delim()[m] == '-');
        }
        assert(sub =~= delim());
    }
    true
}

/// The chunks of `v`, in file order, split on the delimiter.
pub fn split_delim(v: &Vec<char>) -> (r: Vec<Vec<char>>)
    ensures
        views(r@) == split_chunks(v@),
{
    let n = v.len();
    let mut r: Vec<Vec<char>> = Vec::new();
    let mut start: usize = 0;
    let mut i: usize = 0;
    proof {
        assert(v@.skip(0) =~= v@);
        assert(views(r@) + split_chunks(v@) =~= split_chunks(v@));
    }
    while n - i >= 18
        invariant
            start <= i <= n == v@.len(),
            split_chunks(v@) == views(r@) + split_chunks(v@.skip(start as int)),
            forall|j: int| start <= j < i ==> !matches_at(v@, j),
        decreases n - i,
    {
        if delim_match(v, i) {
            proof {
                let t = v@.skip(start as int);
                lemma_matches_skip(v@, start as int, i - start);
                assert forall|j: int| 0 <= j < i - start implies !matches_at(t, j) by {
                    lemma_matches_skip(v@, start as int, j);
                }
                lemma_split_at_match(t, i - start);
                assert(t.take(i - start) =~= v@.subrange(start as int, i as int));
                assert(t.skip(i - start + delim().len()) =~= v@.skip(i + delim().len()));
            }
            let ghost old_r = r@;
            let chunk = subvec(v, start, i);
            r.push(chunk);
            proof {
                assert(views(r@) =~= views(old_r) + seq![v@.subrange(start as int, i as int)]);
                assert(views(old_r) + (seq![v@.subrange(start as int, i as int)] + split_chunks(
                    v@.skip(i + 18),
                )) =~= (views(old_r) + seq![v@.subrange(start as int, i as int)]) + split_chunks(
                    v@.skip(i + 18),
                ));
            }
            start = i + 18;
            i = start;
        } else {
            i += 1;
        }
    }
    proof {
        let t = v@.skip(start as int);
        assert forall|j: int| !matches_at(t, j) by {
            if 0 <= j && j + delim().len() <= t.len() {
                lemma_matches_skip(v@, start as int, j);
                assert(start + j < i);
            }
        }
        lemma_split_no_match(t);
    }
    let ghost old_r = r@;
    let last = subvec(v, start, n);
    r.push(last);
    proof {
        assert(v@.subrange(start as int, n as int) =~= v@.skip(start as int));
        assert(views(r@) =~= views(old_r) + seq![v@.skip(start as int)]);
    }
    r
}

/// The mathematical value of a note record: a date line with its brackets
/// stripped, and a body.
pub ghost struct NoteView {
    pub date: Seq<char>,
    pub content: Seq<char>,
}

/// A parsed note record: the date header of a chunk with `[` and `]`
/// stripped, and the trimmed body that followed the first newline.
pub struct Note {
    pub date: String,
    pub content: String,
}

impl View for Note {
    type V = NoteView;

    open spec fn view(&self) -> NoteView {
        NoteView { date: self.date@, content: self.content@ }
    }
}

/// The record a chunk yields, if any. A chunk that is empty after trimming,
/// or that holds no newline (so it cannot yield both a date and a body),
/// yields nothing. Otherwise the text before the first newline, trimmed and
/// with all brackets stripped, is the date, and the trimmed remainder is
/// the content.
pub open spec fn note_of_chunk(c: Seq<char>) -> Option<NoteView> {
    let t = trim(c);
    if t.len() == 0 {
        Option::None
    } else {
        match find_first(t, '\n') {
            Option::None => Option::None,
            Option::Some(i) => Option::Some(
                NoteView {
                    date: strip_brackets(trim(t.take(i))),
                    content: trim(t.skip(i + 1)),
                },
            ),
        }
    }
}

/// The record of one chunk as a sequence: empty, or one record.
pub open spec fn opt_note_seq(o: Option<NoteView>) -> Seq<NoteView> {
    match o {
        Option::None => Seq::empty(),
        Option::Some(n) => seq![n],
    }
}

/// The records of a sequence of chunks, in chunk order.
pub open spec fn notes_of(chunks: Seq<Seq<char>>) -> Seq<NoteView>
    decreases chunks.len(),
{
    if chunks.len() == 0 {
        Seq::empty()
    } else {
        opt_note_seq(note_of_chunk(chunks[0])) + notes_of(chunks.skip(1))
    }
}

/// What parsing a note file's content yields: the records of its chunks,
/// newest (last in the file) first.
pub open spec fn parse_notes_spec(s: Seq<char>) -> Seq<NoteView> {
    notes_of(split_chunks(s)).reverse()
}

/// The views of a sequence of note records.
pub open spec fn note_views(s: Seq<Note>) -> Seq<NoteView> {
    s.map_values(|n: Note| n@)
}

/// The record of one chunk, if any.
fn note_from_chunk(c: &Vec<char>) -> (r: Option<Note>)
    ensures
        match r {
            Option::None => note_of_chunk(c@) is None,
            Option::Some(n) => note_of_chunk(c@) == Option::Some(n@),
        },
{
    let t = trim_vec(c);
    if t.len() == 0 {
        return Option::None;
    }
    match find_char(&t, '\n') {
        Option::None => Option::None,
        Option::Some(i) => {
            proof {
                lemma_find_first_ensures(t@, '\n');
            }
            let head = subvec(&t, 0, i);
            proof {
                assert(head@ =~= t@.take(i as int));
            }
            let date = strip_brackets_vec(&trim_vec(&head));
            let tail = subvec(&t, i + 1, t.len());
            proof {
                assert(tail@ =~= t@.skip(i + 1));
            }
            let body = trim_vec(&tail);
            Option::Some(Note { date: string_of(&date), content: string_of(&body) })
        },
    }
}

/// Parses the full content of a note file into records, newest-first.
///
/// Chunks are the pieces between delimiter occurrences (the whole content
/// when there is none). A chunk that is empty after trimming or has no
/// newline is dropped; every other chunk yields one record. The output
/// order is the exact reverse of chunk order.
pub fn parse_notes(content: &str) -> (notes: Vec<Note>)
    ensures
        note_views(notes@) == parse_notes_spec(content@),
{
    let v = chars_of(content);
    let chunks = split_delim(&v);
    let ghost cv = views(chunks@);
    let mut out: Vec<Note> = Vec::new();
    let mut k: usize = chunks.len();
    proof {
        assert(cv.skip(cv.len() as int) =~= Seq::<Seq<char>>::empty());
        assert(note_views(out@) =~= notes_of(cv.skip(cv.len() as int)).reverse());
    }
    while k > 0
        invariant
            k <= cv.len() == chunks@.len(),
            cv == views(chunks@),
            note_views(out@) == notes_of(cv.skip(k as int)).reverse(),
        decreases k,
    {
        k -= 1;
        proof {
            assert(cv.skip(k as int)[0] == cv[k as int]);
            assert(cv[k as int] == chunks@[k as int]@);
            assert(cv.skip(k as int).skip(1) =~= cv.skip(k + 1));
        }
        let ghost rest = notes_of(cv.skip(k + 1));
        match note_from_chunk(&chunks[k]) {
            Option::None => {
                proof {
                    assert(notes_of(cv.skip(k as int)) =~= rest);
                }
            },
            Option::Some(n) => {
                let ghost old_out = out@;
                out.push(n);
                proof {
                    assert(notes_of(cv.skip(k as int)) =~= seq![n@] + rest);
                    assert((seq![n@] + rest).reverse() =~= rest.reverse() + seq![n@]);
                    assert(note_views(out@) =~= note_views(old_out) + seq![n@]);
                }
            },
        }
    }
    proof {
        assert(cv.skip(0) =~= cv);
    }
    out
}

/// The records come out in the exact reverse of chunk order: the record at
/// position `i` of the output is the record at position `len - 1 - i` of
/// the records in file order.
pub proof fn lemma_output_is_reverse_of_chunk_order(s: Seq<char>)
    ensures
        parse_notes_spec(s).len() == notes_of(split_chunks(s)).len(),
        forall|i: int|
            0 <= i < parse_notes_spec(s).len() ==> #[trigger] parse_notes_spec(s)[i] == notes_of(
                split_chunks(s),
            )[parse_notes_spec(s).len() - 1 - i],
{
}

/// The number of chunks that are non-empty after trimming.
pub open spec fn nonempty_chunk_count(chunks: Seq<Seq<char>>) -> int
    decreases chunks.len(),
{
    if chunks.len() == 0 {
        0
    } else {
        (if trim(chunks[0]).len() > 0 {
            1int
        } else {
            0int
        }) + nonempty_chunk_count(chunks.skip(1))
    }
}

proof fn lemma_notes_of_len(chunks: Seq<Seq<char>>)
    ensures
        notes_of(chunks).len() <= nonempty_chunk_count(chunks),
    decreases chunks.len(),
{
    if chunks.len() > 0 {
        lemma_notes_of_len(chunks.skip(1));
    }
}

/// A chunk with no newline yields no record.
pub proof fn lemma_no_newline_no_record(c: Seq<char>)
    ensures
        find_first(trim(c), '\n') is None ==> note_of_chunk(c) is None,
{
}

/// A chunk that is dropped (empty after trimming, or holding no newline)
/// never appears in the output: the output holds at most one record per
/// chunk that is non-empty after trimming.
pub proof fn lemma_output_len_bounded(s: Seq<char>)
    ensures
        parse_notes_spec(s).len() <= nonempty_chunk_count(split_chunks(s)),
{
    lemma_notes_of_len(split_chunks(s));
}

proof fn lemma_notes_of_dates_bracket_free(chunks: Seq<Seq<char>>)
    ensures
        forall|i: int, j: int|
            0 <= i < notes_of(chunks).len() && 0 <= j < notes_of(chunks)[i].date.len()
                ==> !is_bracket(#[trigger] notes_of(chunks)[i].date[j]),
    decreases chunks.len(),
{
    if chunks.len() > 0 {
        lemma_notes_of_dates_bracket_free(chunks.skip(1));
        let head = opt_note_seq(note_of_chunk(chunks[0]));
        let rest = notes_of(chunks.skip(1));
        assert forall|i: int, j: int|
            0 <= i < notes_of(chunks).len() && 0 <= j < notes_of(chunks)[i].date.len() implies
            !is_bracket(notes_of(chunks)[i].date[j]) by {
            if i < head.len() {
                assert(notes_of(chunks)[i] == head[i]);
                let t = trim(chunks[0]);
                lemma_strip_brackets_bracket_free(trim(t.take(find_first(t, '\n')->0)));
            } else {
                assert(notes_of(chunks)[i] == rest[i - head.len()]);
            }
        }
    }
}

/// Every date in the output is free of `[` and `]`, however many brackets
/// the chunk's date line held and wherever they stood.
pub proof fn lemma_output_dates_bracket_free(s: Seq<char>)
    ensures
        forall|i: int, j: int|
            0 <= i < parse_notes_spec(s).len() && 0 <= j < parse_notes_spec(s)[i].date.len()
                ==> !is_bracket(#[trigger] parse_notes_spec(s)[i].date[j]),
{
    lemma_notes_of_dates_bracket_free(split_chunks(s));
    lemma_output_is_reverse_of_chunk_order(s);
}

/// The text of the error returned when the note file cannot be read:
/// it names the path that failed and carries the underlying reason.
pub open spec fn read_failure_text(path: Seq<char>, detail: Seq<char>) -> Seq<char> {
    "Error reading file at '"@ + path + "': "@ + detail
}

/// Builds the error string for a note file that could not be read.
pub fn read_failure_message(path: &str, detail: &str) -> (msg: String)
    ensures
        msg@ == read_failure_text(path@, detail@),
{
    let mut msg = String::new();
    msg.append("Error reading file at '");
    msg.append(path);
    msg.append("': ");
    msg.append(detail);
    proof {
        assert(msg@ =~= read_failure_text(path@, detail@));
    }
    msg
}

/// The read-failure error string always contains the path that failed.
pub proof fn lemma_failure_message_contains_path(path: Seq<char>, detail: Seq<char>)
    ensures
        has_substring(read_failure_text(path, detail), path),
{
    let pre = "Error reading file at '"@;
    let msg = read_failure_text(path, detail);
    assert(msg.subrange(pre.len() as int, pre.len() + path.len() as int) =~= path);
}

} // verus!

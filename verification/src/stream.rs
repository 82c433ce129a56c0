//! Searching a file piece by piece, without holding all of it.

use vstd::prelude::*;

use crate::bytes::find_in_chunk;
use crate::bytes::same_letter;
use crate::bytes::stands_at;
use crate::bytes::stands_in;
use crate::matcher::reads_at;
use crate::multi_search::lemma_reads;
use crate::text::occurs_at;

verus! {

/// How many new bytes a read asks for.
pub const CHUNK: usize = 65536;

/// What happened to the file.
#[derive(Debug)]
pub enum StreamEvent {
    /// It could not be opened.
    OpenFailed,
    /// These bytes were read; none means that the file has ended.
    Chunk(Vec<u8>),
    /// It could not be read on.
    ReadFailed,
}

/// What to do next.
#[derive(Debug, PartialEq, Eq, Structural)]
pub enum StreamAction {
    /// Read on, this many bytes at most.
    Read { at_most: usize },
    /// Stop: the needle was found, or it was not.
    Done { found: bool },
}

/// A search for `needle` in the bytes seen so far. It keeps the last of them,
/// one fewer than the needle has, so that a match across two pieces is seen.
pub struct StreamSearch {
    needle: Vec<u8>,
    case_insensitive: bool,
    tail: Vec<u8>,
    seen: Ghost<Seq<u8>>,
}

/// The last `n` bytes of `s`, or all of it.
pub open spec fn last_bytes(s: Seq<u8>, n: int) -> Seq<u8> {
    if s.len() <= n {
        s
    } else {
        s.skip(s.len() - n)
    }
}

/// How many bytes to keep between two pieces.
pub open spec fn overlap(needle: Seq<u8>) -> int {
    if needle.len() == 0 {
        0
    } else {
        needle.len() - 1
    }
}

/// A match in `seen + more` that is none in `seen` lies in the kept bytes and
/// `more`.
proof fn lemma_match_in_window(
    seen: Seq<u8>,
    more: Seq<u8>,
    needle: Seq<u8>,
    case_insensitive: bool,
)
    requires
        seen.len() > 0 ==> !stands_in(seen, needle, case_insensitive),
        more.len() > 0,
    ensures
        stands_in(seen + more, needle, case_insensitive) == stands_in(
            last_bytes(seen, overlap(needle)) + more,
            needle,
            case_insensitive,
        ),
{
    let all = seen + more;
    let kept = last_bytes(seen, overlap(needle));
    let window = kept + more;
    let d = seen.len() - kept.len();
    assert(window =~= all.skip(d));
    if stands_in(all, needle, case_insensitive) {
        let p = choose|p: int| stands_at(all, needle, case_insensitive, p);
        if seen.len() > 0 && p + needle.len() <= seen.len() {
            if case_insensitive {
                assert forall|j: int| 0 <= j < needle.len() implies same_letter(
                    #[trigger] seen[p + j],
                    needle[j],
                ) by {
                    assert(same_letter(all[p + j], needle[j]));
                }
            } else {
                assert(seen.subrange(p, p + needle.len()) =~= all.subrange(p, p + needle.len()));
            }
            assert(stands_at(seen, needle, case_insensitive, p));
        }
        assert(p >= d);
        if case_insensitive {
            assert forall|j: int| 0 <= j < needle.len() implies same_letter(
                #[trigger] window[p - d + j],
                needle[j],
            ) by {
                assert(same_letter(all[p + j], needle[j]));
            }
        } else {
            assert(window.subrange(p - d, p - d + needle.len()) =~= all.subrange(
                p,
                p + needle.len(),
            ));
        }
        assert(stands_at(window, needle, case_insensitive, p - d));
    }
    if stands_in(window, needle, case_insensitive) {
        let p = choose|p: int| stands_at(window, needle, case_insensitive, p);
        if case_insensitive {
            assert forall|j: int| 0 <= j < needle.len() implies same_letter(
                #[trigger] all[p + d + j],
                needle[j],
            ) by {
                assert(same_letter(window[p + j], needle[j]));
            }
        } else {
            assert(window.subrange(p, p + needle.len()) =~= all.subrange(
                p + d,
                p + d + needle.len(),
            ));
        }
        assert(stands_at(all, needle, case_insensitive, p + d));
    }
}

impl StreamSearch {
    /// The bytes searched for.
    pub closed spec fn spec_needle(self) -> Seq<u8> {
        self.needle@
    }

    /// Whether case is left aside.
    pub closed spec fn spec_case_insensitive(self) -> bool {
        self.case_insensitive
    }

    /// The bytes read so far.
    pub closed spec fn spec_seen(self) -> Seq<u8> {
        self.seen@
    }

    /// The end of what was read is kept, and no match has been passed over.
    pub closed spec fn wf(self) -> bool {
        &&& self.tail@ == last_bytes(self.seen@, overlap(self.needle@))
        &&& self.seen@.len() > 0 ==> !stands_in(self.seen@, self.needle@, self.case_insensitive)
    }

    /// A search that has seen nothing yet.
    pub fn new(needle: &[u8], case_insensitive: bool) -> (res: StreamSearch)
        ensures
            res.wf(),
            res.spec_needle() == needle@,
            res.spec_case_insensitive() == case_insensitive,
            res.spec_seen() == Seq::<u8>::empty(),
    {
        StreamSearch {
            needle: vstd::slice::slice_to_vec(needle),
            case_insensitive,
            tail: Vec::new(),
            seen: Ghost(Seq::empty()),
        }
    }

    /// Takes note of what happened and says what to do. The search ends with
    /// success as soon as the needle stands in what was read, across pieces
    /// or not, and without it when the file ends or fails.
    pub fn step(&mut self, event: StreamEvent) -> (res: StreamAction)
        requires
            old(self).wf(),
        ensures
            final(self).wf() || res == (StreamAction::Done { found: true }),
            final(self).spec_needle() == old(self).spec_needle(),
            final(self).spec_case_insensitive() == old(self).spec_case_insensitive(),
            match event {
                StreamEvent::Chunk(bytes) => {
                    &&& final(self).spec_seen() == old(self).spec_seen() + bytes@
                    &&& if bytes@.len() == 0 {
                        res == (StreamAction::Done { found: false })
                    } else if stands_in(
                        old(self).spec_seen() + bytes@,
                        old(self).spec_needle(),
                        old(self).spec_case_insensitive(),
                    ) {
                        res == (StreamAction::Done { found: true })
                    } else {
                        res == (StreamAction::Read { at_most: CHUNK })
                    }
                },
                _ => {
                    &&& final(self).spec_seen() == old(self).spec_seen()
                    &&& res == (StreamAction::Done { found: false })
                },
            },
    {
        match event {
            StreamEvent::Chunk(bytes) => {
                let ghost before = self.seen@;
                if bytes.len() == 0 {
                    assert(before + bytes@ =~= before);
                    return StreamAction::Done { found: false };
                }
                let mut window: Vec<u8> = self.tail.clone();
                window.extend_from_slice(bytes.as_slice());
                assert(window@ =~= self.tail@ + bytes@);
                proof {
                    lemma_match_in_window(before, bytes@, self.needle@, self.case_insensitive);
                }
                let found = find_in_chunk(
                    window.as_slice(),
                    self.needle.as_slice(),
                    self.case_insensitive,
                );
                let keep: usize = if self.needle.len() == 0 {
                    0
                } else {
                    self.needle.len() - 1
                };
                self.seen = Ghost(before + bytes@);
                if found {
                    return StreamAction::Done { found: true };
                }
                let from: usize = if window.len() <= keep {
                    0
                } else {
                    window.len() - keep
                };
                self.tail = vstd::slice::slice_to_vec(
                    vstd::slice::slice_subrange(window.as_slice(), from, window.len()),
                );
                assert(self.tail@ =~= last_bytes(self.seen@, overlap(self.needle@)));
                StreamAction::Read { at_most: CHUNK }
            },
            StreamEvent::OpenFailed => StreamAction::Done { found: false },
            StreamEvent::ReadFailed => StreamAction::Done { found: false },
        }
    }
}

/// What was read of a file piece by piece: the pieces up to the first empty
/// one, which marks the end.
pub open spec fn read_in(pieces: Seq<Vec<u8>>) -> Seq<u8>
    decreases pieces.len(),
{
    if pieces.len() == 0 || pieces[0]@.len() == 0 {
        seq![]
    } else {
        pieces[0]@ + read_in(pieces.skip(1))
    }
}

/// What stands in the beginning of `s` stands in `s`.
proof fn lemma_stands_in_longer(s: Seq<u8>, more: Seq<u8>, needle: Seq<u8>, case_insensitive: bool)
    requires
        stands_in(s, needle, case_insensitive),
    ensures
        stands_in(s + more, needle, case_insensitive),
{
    let all = s + more;
    let p = choose|p: int| stands_at(s, needle, case_insensitive, p);
    if case_insensitive {
        assert forall|j: int| 0 <= j < needle.len() implies same_letter(
            #[trigger] all[p + j],
            needle[j],
        ) by {
            assert(same_letter(s[p + j], needle[j]));
        }
    } else {
        assert(all.subrange(p, p + needle.len()) =~= s.subrange(p, p + needle.len()));
    }
    assert(stands_at(all, needle, case_insensitive, p));
}

/// Searches a file that is read piece by piece. It finds the needle if and only
/// if it stands in the file, across pieces or not; in an empty file there is
/// nothing to find.
pub fn stream_match_literal(pieces: &Vec<Vec<u8>>, needle: &[u8], case_insensitive: bool) -> (res:
    bool)
    ensures
        res == (read_in(pieces@).len() > 0 && stands_in(
            read_in(pieces@),
            needle@,
            case_insensitive,
        )),
{
    let mut search = StreamSearch::new(needle, case_insensitive);
    let ghost whole = read_in(pieces@);
    let mut i: usize = 0;
    assert(pieces@.skip(0) =~= pieces@);
    assert(search.spec_seen() + whole =~= whole);
    while i < pieces.len()
        invariant
            i <= pieces@.len(),
            whole == read_in(pieces@),
            search.wf(),
            search.spec_needle() == needle@,
            search.spec_case_insensitive() == case_insensitive,
            search.spec_seen() + read_in(pieces@.skip(i as int)) == whole,
        decreases pieces@.len() - i,
    {
        let ghost before = search.spec_seen();
        let ghost rest = pieces@.skip(i as int);
        assert(rest[0] == pieces@[i as int]);
        assert(rest.skip(1) =~= pieces@.skip(i + 1));
        let piece = pieces[i].clone();
        assert(piece@ =~= pieces@[i as int]@);
        match search.step(StreamEvent::Chunk(piece)) {
            StreamAction::Done { found } => {
                proof {
                    if found {
                        lemma_stands_in_longer(
                            before + piece@,
                            read_in(rest.skip(1)),
                            needle@,
                            case_insensitive,
                        );
                        assert(before + piece@ + read_in(rest.skip(1)) =~= whole);
                    } else {
                        assert(before =~= whole);
                    }
                }
                return found;
            },
            StreamAction::Read { .. } => {
                assert(search.spec_seen() + read_in(rest.skip(1)) =~= whole);
            },
        }
        i = i + 1;
    }
    assert(search.spec_seen() =~= whole);
    false
}

/// What is read is all pieces up to the first empty one, one after the other.
pub proof fn law_pieces_are_read_in_order(piece: Vec<u8>, rest: Seq<Vec<u8>>)
    ensures
        read_in(seq![]).len() == 0,
        piece@.len() > 0 ==> read_in(seq![piece] + rest) == piece@ + read_in(rest),
        piece@.len() == 0 ==> read_in(seq![piece] + rest).len() == 0,
{
    assert((seq![piece] + rest).skip(1) =~= rest);
}

/// A stream holds a text if that stands somewhere in it: byte for byte, or but for
/// the case of ASCII letters if case is left aside. Where the pieces are cut does not
/// matter.
pub proof fn law_streams_hold_a_text(pieces: Seq<Vec<u8>>, needle: Seq<u8>)
    ensures
        stands_in(read_in(pieces), needle, false) <==> exists|p: int|
            occurs_at(read_in(pieces), needle, p),
        stands_in(read_in(pieces), needle, true) <==> exists|p: int|
            reads_at(read_in(pieces), needle, p),
{
    let hay = read_in(pieces);
    if stands_in(hay, needle, true) {
        let p = choose|p: int| stands_at(hay, needle, true, p);
        lemma_reads(hay, needle, p);
        assert(reads_at(hay, needle, p));
    }
    if exists|p: int| reads_at(hay, needle, p) {
        let p = choose|p: int| reads_at(hay, needle, p);
        lemma_reads(hay, needle, p);
        assert(stands_at(hay, needle, true, p));
    }
    if stands_in(hay, needle, false) {
        let p = choose|p: int| stands_at(hay, needle, false, p);
        assert(occurs_at(hay, needle, p));
    }
    if exists|p: int| occurs_at(hay, needle, p) {
        let p = choose|p: int| occurs_at(hay, needle, p);
        assert(stands_at(hay, needle, false, p));
    }
}

} // verus!

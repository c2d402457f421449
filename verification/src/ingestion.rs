//! Extraction of addresses from input text.
//!
//! [`extract_and_deduplicate`] finds every address in one text and returns
//! them sorted, without repetitions, exactly as written.
//!
//! [`Ingestor`] does the same for an input that arrives in chunks of bytes,
//! as it is read from a file or from standard input: each chunk is decoded
//! (invalid UTF-8 becoming U+FFFD) and appended to the text not searched
//! yet; that text is searched up to its last white space, as no address
//! reaches across white space, and the rest waits for the next chunk. Every
//! address found is kept in lower case, and the result is the addresses of
//! the decoded chunks taken together, however the input was cut into
//! chunks. Chunks are decoded one by one: a multi-byte character split
//! between two reads becomes a U+FFFD on each side, which ends any address
//! there. The total input is limited to [`MAX_INPUT_SIZE`] bytes.

use vstd::prelude::*;
use crate::email::{
    found_addresses, find_matches, is_email_syntax, joined, lemma_found_in_joined,
    lemma_matches_are_addresses, lemma_search_splits_at_separator, lemma_white_space_separates,
};
use crate::order::{
    is_sorted_set_of, lemma_strictly_sorted_unique, merge_unique, sort_unique, strictly_sorted,
    string_texts, strings_of, texts,
};
use crate::text::{chars_of, chars_range, is_white_space, lowercase, lowered, string_of, white_space};

verus! {

/// Largest accepted input, in bytes (10 MiB).
pub const MAX_INPUT_SIZE: u64 = 10485760;

/// Number of bytes read from the input at a time (64 KiB).
pub const CHUNK_SIZE: usize = 65536;

/// What `String::from_utf8_lossy` makes of a byte sequence.
pub uninterp spec fn lossy_text(bytes: Seq<u8>) -> Seq<char>;

/// Decodes bytes as UTF-8 with `String::from_utf8_lossy`, which replaces each
/// invalid sequence with U+FFFD and leaves valid input as it is.
#[verifier::external_body]
fn decode_lossy(bytes: &[u8]) -> (s: String)
    ensures
        s@ == lossy_text(bytes@),
        vstd::utf8::valid_utf8(bytes@) ==> s@ == vstd::utf8::decode_utf8(bytes@),
{
    String::from_utf8_lossy(bytes).into_owned()
}

/// The addresses in the text `cs`, as character vectors.
fn address_texts(cs: &Vec<char>) -> (out: Vec<Vec<char>>)
    ensures
        texts(out@) == found_addresses(cs@),
{
    let ms = find_matches(cs);
    let mut out: Vec<Vec<char>> = Vec::new();
    let mut k: usize = 0;
    proof {
        lemma_matches_are_addresses(cs@, 0);
    }
    while k < ms.len()
        invariant
            k <= ms.len(),
            ms@.len() == crate::email::matches_from(cs@, 0).len(),
            forall|i: int|
                0 <= i < ms@.len() ==> (ms@[i].0 as int, ms@[i].1 as int)
                    == #[trigger] crate::email::matches_from(cs@, 0)[i],
            forall|i: int|
                0 <= i < crate::email::matches_from(cs@, 0).len() ==> {
                    let m = #[trigger] crate::email::matches_from(cs@, 0)[i];
                    &&& 0 <= m.0 < m.1 <= cs@.len()
                },
            texts(out@) =~= found_addresses(cs@).take(k as int),
        decreases ms.len() - k,
    {
        let m = ms[k];
        assert(crate::email::matches_from(cs@, 0)[k as int] == (m.0 as int, m.1 as int));
        let piece = chars_range(cs, m.0, m.1);
        let ghost before = texts(out@);
        assert(found_addresses(cs@)[k as int] == piece@);
        out.push(piece);
        assert(texts(out@) =~= before.push(piece@));
        assert(texts(out@) =~= found_addresses(cs@).take(k + 1));
        k += 1;
    }
    assert(found_addresses(cs@).take(k as int) =~= found_addresses(cs@));
    out
}

/// Every address in `input`, sorted, each once, exactly as written.
///
/// Upper and lower case are kept: `Alice@Example.com` and `alice@example.com`
/// are two results.
pub fn extract_and_deduplicate(input: &str) -> (out: Vec<String>)
    ensures
        is_sorted_set_of(string_texts(out@), found_addresses(input@)),
        forall|k: int| 0 <= k < out@.len() ==> is_email_syntax(#[trigger] out@[k]@),
{
    let cs = chars_of(input);
    let found = address_texts(&cs);
    let sorted = sort_unique(&found);
    let out = strings_of(&sorted);
    proof {
        lemma_found_addresses_syntax(input@);
        assert forall|k: int| 0 <= k < out@.len() implies is_email_syntax(#[trigger] out@[k]@) by {
            assert(string_texts(out@)[k] == out@[k]@);
            assert(string_texts(out@).contains(out@[k]@));
        }
    }
    out
}

/// Every address that the search finds has the whole-string syntax.
pub proof fn lemma_found_addresses_syntax(s: Seq<char>)
    ensures
        forall|x: Seq<char>| found_addresses(s).contains(x) ==> is_email_syntax(x),
{
    lemma_matches_are_addresses(s, 0);
    assert forall|x: Seq<char>| found_addresses(s).contains(x) implies is_email_syntax(x) by {
        let k = choose|k: int| 0 <= k < found_addresses(s).len() && found_addresses(s)[k] == x;
        let m = crate::email::matches_from(s, 0)[k];
        assert(x == s.subrange(m.0, m.1));
    }
}

/// Extracting from two texts joined by a space gives, sorted and each
/// once, the addresses extracted from either: when `out_a`, `out_b` and
/// `out` are what [`extract_and_deduplicate`] returns for `a`, `b` and `a`,
/// a space and `b`, then `out` is the sorted set of `out_a` and `out_b`
/// together ([`lemma_strictly_sorted_unique`] makes it the only one).
pub proof fn lemma_extract_joined(
    a: Seq<char>,
    b: Seq<char>,
    out_a: Seq<Seq<char>>,
    out_b: Seq<Seq<char>>,
    out: Seq<Seq<char>>,
)
    requires
        is_sorted_set_of(out_a, found_addresses(a)),
        is_sorted_set_of(out_b, found_addresses(b)),
        is_sorted_set_of(out, found_addresses(a + seq![' '] + b)),
    ensures
        is_sorted_set_of(out, out_a + out_b),
{
    lemma_search_splits_at_separator(a, ' ', b);
    assert forall|x: Seq<char>| #[trigger] out.contains(x) <==> (out_a + out_b).contains(x) by {
        lemma_contains_concat(found_addresses(a), found_addresses(b), x);
        lemma_contains_concat(out_a, out_b, x);
    }
}

/// Extracting again from the extracted addresses, joined by spaces, gives
/// them back: when `out` is what [`extract_and_deduplicate`] returns for
/// `a`, and `again` what it returns for [`joined`]`(out)`, then
/// `again == out`.
pub proof fn lemma_extract_again(a: Seq<char>, out: Seq<Seq<char>>, again: Seq<Seq<char>>)
    requires
        is_sorted_set_of(out, found_addresses(a)),
        is_sorted_set_of(again, found_addresses(joined(out))),
    ensures
        again == out,
{
    lemma_found_addresses_syntax(a);
    assert forall|k: int| 0 <= k < out.len() implies is_email_syntax(#[trigger] out[k]) by {
        assert(out.contains(out[k]));
    }
    lemma_found_in_joined(out);
    lemma_strictly_sorted_unique(again, out);
}

// ---------------------------------------------------------------------------
// Chunked input
// ---------------------------------------------------------------------------

/// Index of the last white-space character of `c`, if any.
pub open spec fn last_white_space(c: Seq<char>) -> Option<int>
    decreases c.len(),
{
    if c.len() == 0 {
        None
    } else if is_white_space(c.last()) {
        Some(c.len() - 1)
    } else {
        last_white_space(c.drop_last())
    }
}

/// The part of a text that is searched at once: everything before its
/// last white-space character, or nothing when it has none.
pub open spec fn searched_head(c: Seq<char>) -> Seq<char> {
    match last_white_space(c) {
        Some(i) => c.subrange(0, i),
        None => Seq::empty(),
    }
}

/// The part of a text kept for the next chunk, as an address in it may go
/// on there: everything from its last white-space character on, or the
/// whole text when it has none.
pub open spec fn carried_tail(c: Seq<char>) -> Seq<char> {
    match last_white_space(c) {
        Some(i) => c.subrange(i, c.len() as int),
        None => c,
    }
}

/// Result of offering a chunk.
#[derive(PartialEq, Eq, Debug, Clone, Copy)]
pub enum FeedStatus {
    /// The chunk was taken in.
    Accepted,
    /// The chunk would take the input over [`MAX_INPUT_SIZE`]; nothing changed.
    TooLarge,
}

/// Result of the whole input.
#[derive(Debug)]
pub enum IngestOutcome {
    /// The addresses found, lower-cased, sorted, each once.
    Emails(Vec<String>),
    /// Standard input delivered no byte at all.
    NoInput,
    /// The input held no address.
    NoEmails,
}

/// Collects the addresses of an input that arrives in chunks.
pub struct Ingestor {
    found: Vec<Vec<char>>,
    carry: Vec<char>,
    bytes_read: u64,
    saw_input: bool,
    texts: Ghost<Seq<Seq<char>>>,
    searched: Ghost<Seq<char>>,
}

impl Ingestor {
    /// Lower-cased addresses found so far.
    pub closed spec fn found(&self) -> Seq<Seq<char>> {
        texts(self.found@)
    }

    /// Text kept for the next chunk, not searched yet.
    pub closed spec fn carry(&self) -> Seq<char> {
        self.carry@
    }

    /// Bytes accepted so far.
    pub closed spec fn bytes_read(&self) -> nat {
        self.bytes_read as nat
    }

    /// Whether any chunk was accepted.
    pub closed spec fn saw_input(&self) -> bool {
        self.saw_input
    }

    /// The decoded texts of the accepted chunks, in order.
    pub closed spec fn texts(&self) -> Seq<Seq<char>> {
        self.texts@
    }

    /// Holds of every ingestor: the addresses found are sorted, each once,
    /// and are those of the searched text, which with the carried text
    /// makes up the decoded chunks.
    #[verifier::type_invariant]
    closed spec fn inv(&self) -> bool {
        self.wf()
    }

    pub closed spec fn wf(&self) -> bool {
        &&& strictly_sorted(texts(self.found@))
        &&& self.bytes_read <= MAX_INPUT_SIZE
        &&& self.texts@.flatten_alt() == self.searched@ + self.carry@
        &&& (self.searched@.len() == 0 || (self.carry@.len() > 0 && is_white_space(self.carry@[0])))
        &&& forall|x: Seq<char>|
            #![trigger texts(self.found@).contains(x)]
            #![trigger lowered(found_addresses(self.searched@)).contains(x)]
            texts(self.found@).contains(x) <==> lowered(found_addresses(self.searched@)).contains(x)
    }

    /// Whatever the chunking, the addresses found so far together with
    /// those in the carried text are the lower-cased addresses of the whole
    /// input read so far.
    pub proof fn lemma_read_so_far(&self, x: Seq<char>)
        requires
            self.wf(),
        ensures
            (self.found().contains(x) || lowered(found_addresses(self.carry())).contains(x))
                <==> lowered(found_addresses(self.texts().flatten())).contains(x),
    {
        self.texts@.lemma_flatten_and_flatten_alt_are_equivalent();
        let sd = self.searched@;
        let c = self.carry@;
        assert(texts(self.found@).contains(x) <==> lowered(found_addresses(sd)).contains(x));
        lemma_no_address_in_empty(Seq::<char>::empty());
        if sd.len() == 0 {
            assert(sd + c =~= c);
        } else {
            let w = c[0];
            let r = c.subrange(1, c.len() as int);
            assert(c =~= seq![w] + r);
            assert(sd + c =~= sd + seq![w] + r);
            lemma_leading_white_space(w, r);
            lemma_white_space_separates(w);
            lemma_search_splits_at_separator(sd, w, r);
            lemma_lowered_concat(found_addresses(sd), found_addresses(r));
            lemma_contains_concat(lowered(found_addresses(sd)), lowered(found_addresses(r)), x);
        }
    }

    /// An ingestor that has seen nothing.
    pub fn new() -> (r: Self)
        ensures
            r.wf(),
            r.found() == Seq::<Seq<char>>::empty(),
            r.carry() == Seq::<char>::empty(),
            r.bytes_read() == 0,
            !r.saw_input(),
            r.texts() == Seq::<Seq<char>>::empty(),
    {
        let r = Ingestor {
            found: Vec::new(),
            carry: Vec::new(),
            bytes_read: 0,
            saw_input: false,
            texts: Ghost(Seq::empty()),
            searched: Ghost(Seq::empty()),
        };
        assert(texts(r.found@) =~= Seq::<Seq<char>>::empty());
        proof {
            assert(Seq::<Seq<char>>::empty().flatten_alt() =~= Seq::<char>::empty() + Seq::<char>::empty());
            lemma_no_address_in_empty(Seq::<char>::empty());
        }
        r
    }

    /// Offers the next chunk of the input. The carried text followed by the
    /// decoded chunk is searched up to its last white space; the rest is
    /// carried on.
    pub fn feed(&mut self, chunk: &[u8]) -> (status: FeedStatus)
        ensures
            final(self).wf(),
            status == FeedStatus::TooLarge <==> old(self).bytes_read() + chunk@.len()
                > MAX_INPUT_SIZE,
            status == FeedStatus::TooLarge ==> *final(self) == *old(self),
            status == FeedStatus::Accepted ==> {
                let combined = old(self).carry() + lossy_text(chunk@);
                &&& final(self).bytes_read() == old(self).bytes_read() + chunk@.len()
                &&& final(self).saw_input()
                &&& final(self).texts() == old(self).texts().push(lossy_text(chunk@))
                &&& final(self).carry() == carried_tail(combined)
                &&& forall|x: Seq<char>| #[trigger]
                    final(self).found().contains(x) <==> old(self).found().contains(x) || lowered(
                        found_addresses(searched_head(combined)),
                    ).contains(x)
            },
    {
        proof {
            use_type_invariant(&*self);
        }
        let n = chunk.len();
        if n as u64 > MAX_INPUT_SIZE - self.bytes_read {
            return FeedStatus::TooLarge;
        }
        let bytes_read = self.bytes_read + n as u64;
        let text = decode_lossy(chunk);
        let fresh = chars_of(text.as_str());
        let mut combined = self.carry.clone();
        let mut i: usize = 0;
        let ghost start = combined@;
        while i < fresh.len()
            invariant
                i <= fresh.len(),
                combined@ == start + fresh@.take(i as int),
            decreases fresh.len() - i,
        {
            combined.push(fresh[i]);
            assert(start + fresh@.take(i + 1) =~= (start + fresh@.take(i as int)).push(
                fresh@[i as int],
            ));
            i += 1;
        }
        assert(fresh@.take(fresh@.len() as int) =~= fresh@);
        let ghost old_texts = self.texts@;
        let ghost old_searched = self.searched@;
        let ghost t = lossy_text(chunk@);
        let len = combined.len();
        let (head, tail) = match last_white_space_exec(&combined) {
            Some(k) => (chars_range(&combined, 0, k), chars_range(&combined, k, len)),
            None => (Vec::new(), combined),
        };
        proof {
            lemma_last_white_space(start + t);
            assert(head@ =~= searched_head(start + t));
            assert(tail@ =~= carried_tail(start + t));
        }
        let lowered_found = lowered_addresses(&head);
        let found = merge_unique(&self.found, &lowered_found);
        let ghost searched = old_searched + head@;
        proof {
            lemma_step(old_searched, start, t);
            assert(old_texts.push(t).drop_last() =~= old_texts);
            assert(old_texts.push(t).flatten_alt() == old_texts.flatten_alt() + t);
            assert(old_searched + start + t =~= old_searched + (start + t));
            assert forall|x: Seq<char>|
                texts(found@).contains(x) <==> lowered(found_addresses(searched)).contains(x) by {}
        }
        *self = Ingestor {
            found,
            carry: tail,
            bytes_read,
            saw_input: true,
            texts: Ghost(old_texts.push(t)),
            searched: Ghost(searched),
        };
        FeedStatus::Accepted
    }

    /// Ends the input: searches the carried text and returns the addresses
    /// of the decoded chunks taken together, whatever the chunking. `from_stdin` tells whether
    /// the input was standard input, where receiving no byte at all is
    /// reported as such.
    pub fn finish(self, from_stdin: bool) -> (outcome: IngestOutcome)
        ensures
            outcome is NoInput <==> from_stdin && !self.saw_input(),
            outcome is NoEmails <==> !(from_stdin && !self.saw_input()) && forall|x: Seq<char>|
                !#[trigger] lowered(found_addresses(self.texts().flatten())).contains(x),
            outcome matches IngestOutcome::Emails(v) ==> {
                &&& v@.len() > 0
                &&& strictly_sorted(string_texts(v@))
                &&& forall|x: Seq<char>| #[trigger]
                    string_texts(v@).contains(x) <==> lowered(
                        found_addresses(self.texts().flatten()),
                    ).contains(x)
            },
    {
        proof {
            use_type_invariant(&self);
        }
        let ghost orig = self;
        let Ingestor { found, carry, bytes_read: _, saw_input, texts: _, searched: _ } = self;
        let all_found = if carry.len() > 0 {
            let tail_found = lowered_addresses(&carry);
            merge_unique(&found, &tail_found)
        } else {
            proof {
                lemma_no_address_in_empty(carry@);
            }
            found
        };
        proof {
            assert forall|x: Seq<char>| #[trigger] texts(all_found@).contains(x) <==> lowered(
                found_addresses(orig.texts().flatten()),
            ).contains(x) by {
                orig.lemma_read_so_far(x);
            }
        }
        if from_stdin && !saw_input {
            return IngestOutcome::NoInput;
        }
        if all_found.len() == 0 {
            proof {
                assert forall|x: Seq<char>|
                    !#[trigger] lowered(found_addresses(orig.texts().flatten())).contains(x) by {
                    if lowered(found_addresses(orig.texts().flatten())).contains(x) {
                        assert(texts(all_found@).contains(x));
                    }
                }
            }
            return IngestOutcome::NoEmails;
        }
        proof {
            let x0 = texts(all_found@)[0];
            assert(texts(all_found@).contains(x0));
        }
        IngestOutcome::Emails(strings_of(&all_found))
    }
}

/// An empty text holds no address.
proof fn lemma_no_address_in_empty(c: Seq<char>)
    requires
        c.len() == 0,
    ensures
        found_addresses(c).len() == 0,
        forall|x: Seq<char>| !lowered(found_addresses(c)).contains(x),
{
    assert(crate::email::matches_from(c, 0) =~= Seq::<(int, int)>::empty());
}

proof fn lemma_last_white_space(c: Seq<char>)
    ensures
        last_white_space(c) matches Some(i) ==> 0 <= i < c.len() && is_white_space(c[i]),
        last_white_space(c) is None ==> forall|k: int| 0 <= k < c.len() ==> !is_white_space(#[trigger] c[k]),
    decreases c.len(),
{
    if c.len() > 0 && !is_white_space(c.last()) {
        lemma_last_white_space(c.drop_last());
        if let Some(i) = last_white_space(c.drop_last()) {
            assert(c.drop_last()[i] == c[i]);
        } else {
            assert forall|k: int| 0 <= k < c.len() implies !is_white_space(#[trigger] c[k]) by {
                if k < c.len() - 1 {
                    assert(c.drop_last()[k] == c[k]);
                }
            }
        }
    }
}

proof fn lemma_lowered_concat(a: Seq<Seq<char>>, b: Seq<Seq<char>>)
    ensures
        lowered(a + b) == lowered(a) + lowered(b),
{
    assert(lowered(a + b) =~= lowered(a) + lowered(b));
}

proof fn lemma_contains_concat(a: Seq<Seq<char>>, b: Seq<Seq<char>>, x: Seq<char>)
    ensures
        (a + b).contains(x) <==> a.contains(x) || b.contains(x),
{
    if (a + b).contains(x) {
        let k = choose|k: int| 0 <= k < (a + b).len() && (a + b)[k] == x;
        if k < a.len() {
            assert(a[k] == x);
        } else {
            assert(b[k - a.len()] == x);
        }
    }
    if a.contains(x) {
        let k = choose|k: int| 0 <= k < a.len() && a[k] == x;
        assert((a + b)[k] == x);
    }
    if b.contains(x) {
        let k = choose|k: int| 0 <= k < b.len() && b[k] == x;
        assert((a + b)[k + a.len()] == x);
    }
}

/// Searching a white-space character followed by `t` finds what searching
/// `t` finds.
proof fn lemma_leading_white_space(w: char, t: Seq<char>)
    requires
        is_white_space(w),
    ensures
        found_addresses(seq![w] + t) == found_addresses(t),
{
    lemma_white_space_separates(w);
    lemma_search_splits_at_separator(Seq::<char>::empty(), w, t);
    lemma_no_address_in_empty(Seq::<char>::empty());
    assert(Seq::<char>::empty() + seq![w] + t =~= seq![w] + t);
    assert(found_addresses(Seq::<char>::empty()) + found_addresses(t) =~= found_addresses(t));
}

/// One step of reading: the searched text grows by the head of the carried
/// text followed by the new text, the rest is carried on, and the addresses
/// of the searched text grow by those of that head.
proof fn lemma_step(searched: Seq<char>, carry: Seq<char>, t: Seq<char>)
    requires
        searched.len() == 0 || (carry.len() > 0 && is_white_space(carry[0])),
    ensures
        ({
            let c = carry + t;
            &&& searched + searched_head(c) + carried_tail(c) == searched + c
            &&& (searched + searched_head(c)).len() == 0 || (carried_tail(c).len() > 0
                && is_white_space(carried_tail(c)[0]))
            &&& forall|x: Seq<char>| #[trigger]
                lowered(found_addresses(searched + searched_head(c))).contains(x) <==> lowered(
                    found_addresses(searched),
                ).contains(x) || lowered(found_addresses(searched_head(c))).contains(x)
        }),
{
    let c = carry + t;
    lemma_last_white_space(c);
    lemma_no_address_in_empty(Seq::<char>::empty());
    match last_white_space(c) {
        Some(i) => {
            assert(searched + searched_head(c) + carried_tail(c) =~= searched + c);
            let h = searched_head(c);
            if searched.len() == 0 {
                assert(searched + h =~= h);
            } else if h.len() == 0 {
                assert(searched + h =~= searched);
            } else {
                // The head begins with the white space that begins the carried text.
                let w = c[0];
                assert(w == carry[0]);
                let hr = h.subrange(1, h.len() as int);
                assert(h =~= seq![w] + hr);
                assert(searched + h =~= searched + seq![w] + hr);
                lemma_leading_white_space(w, hr);
                lemma_white_space_separates(w);
                lemma_search_splits_at_separator(searched, w, hr);
                lemma_lowered_concat(found_addresses(searched), found_addresses(hr));
                assert forall|x: Seq<char>| #[trigger]
                    lowered(found_addresses(searched + h)).contains(x) <==> lowered(
                        found_addresses(searched),
                    ).contains(x) || lowered(found_addresses(h)).contains(x) by {
                    lemma_contains_concat(lowered(found_addresses(searched)), lowered(found_addresses(hr)), x);
                }
            }
        },
        None => {
            if searched.len() > 0 {
                assert(c[0] == carry[0]);
            }
            assert(searched + searched_head(c) =~= searched);
            assert(searched + searched_head(c) + carried_tail(c) =~= searched + c);
        },
    }
}

/// The sorted set of the lower-cased addresses in `cs`.
fn lowered_addresses(cs: &Vec<char>) -> (out: Vec<Vec<char>>)
    ensures
        strictly_sorted(texts(out@)),
        forall|x: Seq<char>| #[trigger]
            texts(out@).contains(x) <==> lowered(found_addresses(cs@)).contains(x),
{
    let found = address_texts(cs);
    let mut low: Vec<Vec<char>> = Vec::new();
    let mut k: usize = 0;
    while k < found.len()
        invariant
            k <= found.len(),
            texts(found@) == found_addresses(cs@),
            texts(low@) =~= lowered(found_addresses(cs@)).take(k as int),
        decreases found.len() - k,
    {
        let s = string_of(&found[k]);
        let l = lowercase(s.as_str());
        let lc = chars_of(l.as_str());
        let ghost before = texts(low@);
        assert(lowered(found_addresses(cs@))[k as int] == lc@);
        low.push(lc);
        assert(texts(low@) =~= before.push(lc@));
        assert(texts(low@) =~= lowered(found_addresses(cs@)).take(k + 1));
        k += 1;
    }
    assert(lowered(found_addresses(cs@)).take(k as int) =~= lowered(found_addresses(cs@)));
    sort_unique(&low)
}

/// Index of the last white-space character of `c`, as [`last_white_space`].
fn last_white_space_exec(c: &Vec<char>) -> (r: Option<usize>)
    ensures
        match r {
            Some(i) => i < c.len() && last_white_space(c@) == Some(i as int),
            None => last_white_space(c@) is None,
        },
{
    let mut i: usize = c.len();
    assert(c@.take(c@.len() as int) =~= c@);
    while i > 0 && !white_space(c[i - 1])
        invariant
            i <= c.len(),
            last_white_space(c@) == last_white_space(c@.take(i as int)),
        decreases i,
    {
        assert(c@.take(i as int).drop_last() =~= c@.take(i - 1));
        i -= 1;
    }
    if i == 0 {
        assert(c@.take(0) =~= Seq::<char>::empty());
        None
    } else {
        assert(c@.take(i as int).last() == c@[i - 1]);
        Some(i - 1)
    }
}

} // verus!

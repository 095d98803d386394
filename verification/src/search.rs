use vstd::prelude::*;

verus! {

/// The line feed byte, which ends the status line and every header line.
pub const LF: u8 = 10;

/// The carriage return byte that may precede a line feed.
pub const CR: u8 = 13;

/// `needle` stands in `hay` at offset `at`.
pub open spec fn occurs_at(hay: Seq<u8>, needle: Seq<u8>, at: int) -> bool {
    &&& 0 <= at
    &&& at + needle.len() <= hay.len()
    &&& hay.subrange(at, at + needle.len()) == needle
}

/// `needle` stands somewhere in `hay`.
pub open spec fn occurs(hay: Seq<u8>, needle: Seq<u8>) -> bool {
    exists|at: int| occurs_at(hay, needle, at)
}

/// `needle` stands in `hay` at offset `at` and at no smaller offset.
pub open spec fn is_first_occurrence(hay: Seq<u8>, needle: Seq<u8>, at: int) -> bool {
    &&& occurs_at(hay, needle, at)
    &&& forall|earlier: int| 0 <= earlier < at ==> !occurs_at(hay, needle, earlier)
}

/// `s` holds a line feed.
pub open spec fn has_newline(s: Seq<u8>) -> bool {
    exists|i: int| 0 <= i < s.len() && s[i] == LF
}

/// `i` is the offset of the first line feed of `s`.
pub open spec fn is_first_newline(s: Seq<u8>, i: int) -> bool {
    &&& 0 <= i < s.len()
    &&& s[i] == LF
    &&& forall|j: int| 0 <= j < i ==> s[j] != LF
}

/// The offset of the first line feed of `s`; meaningful when `has_newline(s)`.
pub open spec fn first_newline(s: Seq<u8>) -> int {
    choose|i: int| is_first_newline(s, i)
}

/// A sequence with a line feed has exactly one first line feed.
pub proof fn lemma_first_newline(s: Seq<u8>)
    requires
        has_newline(s),
    ensures
        is_first_newline(s, first_newline(s)),
        forall|i: int| is_first_newline(s, i) ==> i == first_newline(s),
{
    let w = choose|i: int| 0 <= i < s.len() && s[i] == LF;
    lemma_first_newline_upto(s, w);
    let f = first_newline(s);
    assert forall|i: int| is_first_newline(s, i) implies i == f by {
        if i < f {
            assert(s[i] == LF);
        } else if f < i {
            assert(s[f] == LF);
        }
    }
}

proof fn lemma_first_newline_upto(s: Seq<u8>, w: int)
    requires
        0 <= w < s.len(),
        s[w] == LF,
    ensures
        exists|i: int| is_first_newline(s, i),
    decreases w,
{
    if exists|j: int| 0 <= j < w && s[j] == LF {
        let j = choose|j: int| 0 <= j < w && s[j] == LF;
        lemma_first_newline_upto(s, j);
    } else {
        assert(is_first_newline(s, w));
    }
}

/// Finds the first line feed in a slice.
pub fn find_newline(slice: &[u8]) -> (found: Option<usize>)
    ensures
        match found {
            Some(i) => is_first_newline(slice@, i as int),
            None => !has_newline(slice@),
        },
        found is Some <==> has_newline(slice@),
        found matches Some(i) ==> i as int == first_newline(slice@),
{
    let mut i: usize = 0;
    while i < slice.len()
        invariant
            i <= slice.len(),
            forall|j: int| 0 <= j < i ==> slice@[j] != LF,
        decreases slice.len() - i,
    {
        if slice[i] == LF {
            proof {
                assert(is_first_newline(slice@, i as int));
                lemma_first_newline(slice@);
            }
            return Some(i);
        }
        i += 1;
    }
    None
}

/// Whether `data` begins with `prefix`.
pub fn starts_with(data: &[u8], prefix: &[u8]) -> (yes: bool)
    ensures
        yes == prefix@.is_prefix_of(data@),
{
    if prefix.len() > data.len() {
        return false;
    }
    let mut i: usize = 0;
    while i < prefix.len()
        invariant
            i <= prefix.len() <= data.len(),
            forall|j: int| 0 <= j < i ==> data@[j] == prefix@[j],
        decreases prefix.len() - i,
    {
        if data[i] != prefix[i] {
            assert(data@.subrange(0, prefix@.len() as int)[i as int] != prefix@[i as int]);
            return false;
        }
        i += 1;
    }
    assert(prefix@ =~= data@.subrange(0, prefix@.len() as int));
    true
}

/// Whether `data` ends with `suffix`.
pub fn ends_with(data: &[u8], suffix: &[u8]) -> (yes: bool)
    ensures
        yes == suffix@.is_suffix_of(data@),
{
    if suffix.len() > data.len() {
        return false;
    }
    let skip: usize = data.len() - suffix.len();
    let mut i: usize = 0;
    while i < suffix.len()
        invariant
            i <= suffix.len() <= data.len(),
            skip == data.len() - suffix.len(),
            forall|j: int| 0 <= j < i ==> data@[skip + j] == suffix@[j],
        decreases suffix.len() - i,
    {
        if data[skip + i] != suffix[i] {
            assert(data@.subrange(skip as int, data@.len() as int)[i as int] != suffix@[i as int]);
            return false;
        }
        i += 1;
    }
    assert(suffix@ =~= data@.subrange(skip as int, data@.len() as int));
    true
}

/// Calls `TwoWaySearcher::new` on `needle` and `Searcher::search_in` on
/// `haystack`: the answer is the offset of the first place where the needle
/// stands in the haystack, or `None` when it stands nowhere.
#[verifier::external_body]
pub(crate) fn search_in(haystack: &[u8], needle: &[u8]) -> (found: Option<usize>)
    ensures
        match found {
            Some(at) => is_first_occurrence(haystack@, needle@, at as int),
            None => !occurs(haystack@, needle@),
        },
{
    memmem::Searcher::search_in(&memmem::TwoWaySearcher::new(needle), haystack)
}

/// The byte patterns that end a header block, in the order in which they
/// are looked for.
#[derive(Clone, Copy, Debug, PartialEq, Eq, Structural)]
pub enum Terminator {
    /// Two line breaks with carriage returns: `\r\n\r\n`.
    Strict,
    /// Two bare line feeds: `\n\n`.
    Lenient,
}

impl Terminator {
    /// The bytes of the terminator.
    pub open spec fn pattern(self) -> Seq<u8> {
        match self {
            Terminator::Strict => seq![CR, LF, CR, LF],
            Terminator::Lenient => seq![LF, LF],
        }
    }
}

/// The terminator that is taken to end the header block in `buf`: the strict
/// one where it occurs, else the lenient one where that occurs.
pub open spec fn terminator_in(buf: Seq<u8>) -> Option<Terminator> {
    if occurs(buf, Terminator::Strict.pattern()) {
        Some(Terminator::Strict)
    } else if occurs(buf, Terminator::Lenient.pattern()) {
        Some(Terminator::Lenient)
    } else {
        None
    }
}

/// Looks for a header-block terminator in `buf`, the strict one first.
pub fn find_terminator(buf: &[u8]) -> (found: Option<Terminator>)
    ensures
        found == terminator_in(buf@),
{
    let strict: [u8; 4] = [CR, LF, CR, LF];
    let lenient: [u8; 2] = [LF, LF];
    assert(strict@ =~= Terminator::Strict.pattern());
    assert(lenient@ =~= Terminator::Lenient.pattern());
    if search_in(buf, strict.as_slice()).is_some() {
        Some(Terminator::Strict)
    } else if search_in(buf, lenient.as_slice()).is_some() {
        Some(Terminator::Lenient)
    } else {
        None
    }
}

/// A buffer that ends with a pattern holds that pattern.
pub proof fn lemma_suffix_occurs(buf: Seq<u8>, pattern: Seq<u8>)
    requires
        pattern.is_suffix_of(buf),
    ensures
        occurs(buf, pattern),
{
    assert(occurs_at(buf, pattern, buf.len() - pattern.len()));
}

/// The end of an end of a sequence is an end of that sequence.
pub proof fn lemma_suffix_of_suffix(inner: Seq<u8>, middle: Seq<u8>, outer: Seq<u8>)
    requires
        inner.is_suffix_of(middle),
        middle.is_suffix_of(outer),
    ensures
        inner.is_suffix_of(outer),
{
    let skipped = outer.len() - middle.len();
    let from = middle.len() - inner.len();
    assert(inner =~= outer.subrange(skipped + from, outer.len() as int)) by {
        assert forall|i: int| 0 <= i < inner.len() implies inner[i] == outer[skipped + from
            + i] by {
            assert(inner[i] == middle.subrange(from, middle.len() as int)[i]);
            assert(middle[from + i] == outer.subrange(skipped, outer.len() as int)[from + i]);
        }
    }
}

} // verus!

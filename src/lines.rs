use vstd::prelude::*;

verus! {

broadcast use vstd::seq_lib::group_seq_properties, vstd::seq_lib::group_filter_ensures;

/// Whether `line` is a comment line: the marker is not empty and begins it.
/// An empty marker turns comment filtering off.
pub open spec fn is_comment_spec(line: Seq<char>, marker: Seq<char>) -> bool {
    marker.len() > 0 && marker.len() <= line.len() && line.take(marker.len() as int) == marker
}

pub open spec fn comment_pred(marker: Seq<char>) -> spec_fn(String) -> bool {
    |l: String| is_comment_spec(l@, marker)
}

pub open spec fn eligible_pred(marker: Seq<char>) -> spec_fn(String) -> bool {
    |l: String| !is_comment_spec(l@, marker)
}

/// Tells whether `line` begins with the comment marker.
pub fn is_comment(line: &str, marker: &str) -> (r: bool)
    ensures
        r == is_comment_spec(line@, marker@),
{
    let m = marker.unicode_len();
    if m == 0 {
        return false;
    }
    let len = line.unicode_len();
    if m > len {
        return false;
    }
    let mut i: usize = 0;
    while i < m
        invariant
            i <= m <= len,
            m == marker@.len(),
            len == line@.len(),
            forall|j: int| 0 <= j < i ==> line@[j] == marker@[j],
        decreases m - i,
    {
        if line.get_char(i) != marker.get_char(i) {
            assert(line@.take(m as int)[i as int] != marker@[i as int]);
            return false;
        }
        i = i + 1;
    }
    assert(line@.take(m as int) =~= marker@);
    true
}

/// Splits lines into the comment lines and the eligible ones, each kept
/// verbatim and in the order of the input.
pub fn split_comments(lines: &Vec<String>, marker: &str) -> (r: (Vec<String>, Vec<String>))
    ensures
        r.0@ == lines@.filter(comment_pred(marker@)),
        r.1@ == lines@.filter(eligible_pred(marker@)),
{
    let mut comments: Vec<String> = Vec::new();
    let mut eligible: Vec<String> = Vec::new();
    let mut i: usize = 0;
    while i < lines.len()
        invariant
            i <= lines.len(),
            comments@ == lines@.take(i as int).filter(comment_pred(marker@)),
            eligible@ == lines@.take(i as int).filter(eligible_pred(marker@)),
        decreases lines.len() - i,
    {
        let line = lines[i].clone();
        proof {
            assert(lines@.take(i + 1) =~= lines@.take(i as int).push(line));
            lines@.take(i as int).lemma_filter_push(line, comment_pred(marker@));
            lines@.take(i as int).lemma_filter_push(line, eligible_pred(marker@));
        }
        if is_comment(line.as_str(), marker) {
            comments.push(line);
        } else {
            eligible.push(line);
        }
        i = i + 1;
    }
    assert(lines@.take(i as int) =~= lines@);
    (comments, eligible)
}

/// How often `b` occurs in `s`.
pub open spec fn occurrences(s: Seq<u8>, b: u8) -> nat
    decreases s.len(),
{
    if s.len() == 0 {
        0
    } else {
        occurrences(s.drop_last(), b) + if s.last() == b {
            1nat
        } else {
            0nat
        }
    }
}

/// The number of lines in a text: one per line break, and one more for a
/// last line without a line break.
pub open spec fn line_count(s: Seq<u8>) -> nat {
    occurrences(s, 10) + if s.len() > 0 && s.last() != 10 {
        1nat
    } else {
        0nat
    }
}

proof fn lemma_occurrences_concat(a: Seq<u8>, c: Seq<u8>, b: u8)
    ensures
        occurrences(a + c, b) == occurrences(a, b) + occurrences(c, b),
    decreases c.len(),
{
    if c.len() > 0 {
        lemma_occurrences_concat(a, c.drop_last(), b);
        assert((a + c).drop_last() =~= a + c.drop_last());
    } else {
        assert(a + c =~= a);
    }
}

proof fn lemma_occurrences_bound(s: Seq<u8>, b: u8)
    ensures
        occurrences(s, b) <= s.len(),
        s.len() > 0 && s.last() != b ==> occurrences(s, b) < s.len(),
    decreases s.len(),
{
    if s.len() > 0 {
        lemma_occurrences_bound(s.drop_last(), b);
    }
}

/// Relies on `bytecount::count`: the number of occurrences of `needle` in
/// `haystack`.
#[verifier::external_body]
fn count_byte(haystack: &[u8], needle: u8) -> (r: usize)
    ensures
        r == occurrences(haystack@, needle),
{
    bytecount::count(haystack, needle)
}

/// Counts the lines of a text that arrives in chunks, without holding it.
pub struct LineTally {
    breaks: usize,
    consumed: usize,
    ends_open: bool,
    bytes: Ghost<Seq<u8>>,
}

impl LineTally {
    /// The bytes fed so far.
    pub closed spec fn bytes(&self) -> Seq<u8> {
        self.bytes@
    }

    pub closed spec fn wf(&self) -> bool {
        &&& self.consumed == self.bytes@.len()
        &&& self.breaks == occurrences(self.bytes@, 10)
        &&& self.ends_open == (self.bytes@.len() > 0 && self.bytes@.last() != 10)
    }

    pub fn new() -> (r: LineTally)
        ensures
            r.wf(),
            r.bytes() == Seq::<u8>::empty(),
    {
        LineTally { breaks: 0, consumed: 0, ends_open: false, bytes: Ghost(Seq::empty()) }
    }

    /// How many bytes were fed so far.
    pub fn consumed(&self) -> (r: usize)
        requires
            self.wf(),
        ensures
            r == self.bytes().len(),
    {
        self.consumed
    }

    /// Takes in the next chunk of the text.
    pub fn feed(&mut self, chunk: &[u8])
        requires
            old(self).wf(),
            old(self).bytes().len() + chunk@.len() <= usize::MAX,
        ensures
            final(self).wf(),
            final(self).bytes() == old(self).bytes() + chunk@,
    {
        let found = count_byte(chunk, 10u8);
        proof {
            lemma_occurrences_concat(self.bytes@, chunk@, 10);
            lemma_occurrences_bound(self.bytes@, 10);
            lemma_occurrences_bound(chunk@, 10);
        }
        let n = chunk.len();
        self.breaks = self.breaks + found;
        self.consumed = self.consumed + n;
        if n > 0 {
            self.ends_open = chunk[n - 1] != 10u8;
        }
        let ghost both = self.bytes@ + chunk@;
        proof {
            if n > 0 {
                assert(both.last() == chunk@.last());
            } else {
                assert(both =~= self.bytes@);
            }
        }
        self.bytes = Ghost(both);
    }

    /// The number of lines in what was fed so far.
    pub fn lines(&self) -> (r: usize)
        requires
            self.wf(),
        ensures
            r == line_count(self.bytes()),
    {
        proof {
            lemma_occurrences_bound(self.bytes@, 10);
        }
        if self.ends_open {
            self.breaks + 1
        } else {
            self.breaks
        }
    }
}

/// Counts the eligible lines of a text read line by line, and keeps its
/// comment lines.
pub struct CommentTally {
    marker: String,
    eligible: usize,
    total: usize,
    comments: Vec<String>,
    lines: Ghost<Seq<String>>,
}

impl CommentTally {
    /// The lines taken in so far.
    pub closed spec fn lines(&self) -> Seq<String> {
        self.lines@
    }

    pub closed spec fn marker(&self) -> Seq<char> {
        self.marker@
    }

    pub closed spec fn wf(&self) -> bool {
        &&& self.total == self.lines@.len()
        &&& self.eligible == self.lines@.filter(eligible_pred(self.marker@)).len()
        &&& self.comments@ == self.lines@.filter(comment_pred(self.marker@))
    }

    pub fn new(marker: String) -> (r: CommentTally)
        ensures
            r.wf(),
            r.lines() == Seq::<String>::empty(),
            r.marker() == marker@,
    {
        let ghost empty = Seq::<String>::empty();
        proof {
            assert(empty.filter(eligible_pred(marker@)) =~= empty) by {
                reveal(Seq::filter);
            }
            assert(empty.filter(comment_pred(marker@)) =~= empty) by {
                reveal(Seq::filter);
            }
        }
        CommentTally { marker, eligible: 0, total: 0, comments: Vec::new(), lines: Ghost(empty) }
    }

    /// Takes in the next line.
    pub fn add(&mut self, line: String)
        requires
            old(self).wf(),
            old(self).lines().len() < usize::MAX,
        ensures
            final(self).wf(),
            final(self).lines() == old(self).lines().push(line),
            final(self).marker() == old(self).marker(),
    {
        proof {
            self.lines@.lemma_filter_push(line, comment_pred(self.marker@));
            self.lines@.lemma_filter_push(line, eligible_pred(self.marker@));
        }
        let ghost pushed = self.lines@.push(line);
        if is_comment(line.as_str(), self.marker.as_str()) {
            self.comments.push(line);
        } else {
            self.eligible = self.eligible + 1;
        }
        self.total = self.total + 1;
        self.lines = Ghost(pushed);
    }

    /// How many lines were taken in.
    pub fn seen(&self) -> (r: usize)
        requires
            self.wf(),
        ensures
            r == self.lines().len(),
    {
        self.total
    }

    /// How many of them are eligible.
    pub fn eligible(&self) -> (r: usize)
        requires
            self.wf(),
        ensures
            r == self.lines().filter(eligible_pred(self.marker())).len(),
    {
        self.eligible
    }

    /// The comment lines, verbatim and in the order of the input.
    pub fn into_comments(self) -> (r: Vec<String>)
        requires
            self.wf(),
        ensures
            r@ == self.lines().filter(comment_pred(self.marker())),
    {
        self.comments
    }
}

} // verus!

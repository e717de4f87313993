use vstd::prelude::*;
use vstd::utf8::{decode_utf8, valid_utf8};

verus! {

/// The byte that separates a variable's name from its value.
pub const SEPARATOR: u8 = 0x3d;

/// `p` is the position of the first `b` in `s`.
pub open spec fn is_first_at(s: Seq<u8>, b: u8, p: int) -> bool {
    &&& 0 <= p < s.len()
    &&& s[p] == b
    &&& forall|j: int| 0 <= j < p ==> s[j] != b
}

/// `s` holds the byte `b` somewhere.
pub open spec fn contains_byte(s: Seq<u8>, b: u8) -> bool {
    exists|i: int| 0 <= i < s.len() && s[i] == b
}

/// The meaning of one environment line: split at the first separator into
/// the bytes before it and the bytes after it; nothing where there is none.
pub open spec fn parse_spec(line: Seq<u8>) -> Option<(Seq<u8>, Seq<u8>)> {
    if exists|p: int| is_first_at(line, SEPARATOR, p) {
        let p = choose|p: int| is_first_at(line, SEPARATOR, p);
        Some((line.subrange(0, p), line.subrange(p + 1, line.len() as int)))
    } else {
        None
    }
}

/// Relies on memchr::memchr: the index of the first occurrence of the
/// needle in the haystack, or `None` where it does not occur.
#[verifier::external_body]
fn find_byte(needle: u8, haystack: &[u8]) -> (r: Option<usize>)
    ensures
        match r {
            Some(p) => is_first_at(haystack@, needle, p as int),
            None => !contains_byte(haystack@, needle),
        },
{
    memchr::memchr(needle, haystack)
}

/// Splits one raw environment line at its first separator.
pub fn parse_env_line(input: &[u8]) -> (r: Option<(Vec<u8>, Vec<u8>)>)
    ensures
        match r {
            Some(kv) => parse_spec(input@) == Some((kv.0@, kv.1@)),
            None => parse_spec(input@) is None,
        },
{
    if input.len() == 0 {
        return None;
    }
    match find_byte(SEPARATOR, input) {
        Some(p) => {
            proof {
                lemma_first_unique(input@, SEPARATOR, p as int);
            }
            let name = vstd::slice::slice_subrange(input, 0, p);
            let value = vstd::slice::slice_subrange(input, p + 1, input.len());
            Some((vstd::slice::slice_to_vec(name), vstd::slice::slice_to_vec(value)))
        },
        None => None,
    }
}

/// The byte strings held by a vector of byte vectors.
pub open spec fn lines_view(v: Seq<Vec<u8>>) -> Seq<Seq<u8>> {
    v.map_values(|l: Vec<u8>| l@)
}

/// The byte-string pairs held by a vector of pairs of byte vectors.
pub open spec fn pairs_view(v: Seq<(Vec<u8>, Vec<u8>)>) -> Seq<(Seq<u8>, Seq<u8>)> {
    v.map_values(|kv: (Vec<u8>, Vec<u8>)| (kv.0@, kv.1@))
}

/// The pairs that a sequence of raw lines stands for: each line that parses
/// gives one pair, in the order of the lines; the others are dropped.
pub open spec fn parse_all(lines: Seq<Seq<u8>>) -> Seq<(Seq<u8>, Seq<u8>)>
    decreases lines.len(),
{
    if lines.len() == 0 {
        Seq::empty()
    } else {
        let rest = parse_all(lines.drop_last());
        match parse_spec(lines.last()) {
            Some(kv) => rest.push(kv),
            None => rest,
        }
    }
}

/// The line `NAME=VALUE` that a pair is written as.
pub open spec fn line_of(kv: (Seq<u8>, Seq<u8>)) -> Seq<u8> {
    kv.0 + seq![SEPARATOR] + kv.1
}

/// The lines that a sequence of pairs is written as, one per pair.
pub open spec fn lines_of(pairs: Seq<(Seq<u8>, Seq<u8>)>) -> Seq<Seq<u8>> {
    pairs.map_values(|kv: (Seq<u8>, Seq<u8>)| line_of(kv))
}

/// Both the name and the value of a pair are valid UTF-8.
pub open spec fn is_text_pair(kv: (Seq<u8>, Seq<u8>)) -> bool {
    valid_utf8(kv.0) && valid_utf8(kv.1)
}

/// An ordered list of environment variables, each a name and a value kept
/// as raw bytes. Names need not be unique.
#[derive(Clone)]
pub struct PamEnvList {
    inner: Vec<(Vec<u8>, Vec<u8>)>,
}

impl View for PamEnvList {
    type V = Seq<(Seq<u8>, Seq<u8>)>;

    closed spec fn view(&self) -> Seq<(Seq<u8>, Seq<u8>)> {
        pairs_view(self.inner@)
    }
}

/// A name or value of the list that is not valid UTF-8.
#[derive(Clone, Copy, Debug, PartialEq, Eq, Structural)]
pub struct DecodeError {
    /// The position in the list of the first pair that does not decode.
    pub entry: usize,
}

/// Relies on String::from_utf8: it accepts exactly the valid UTF-8 byte
/// strings, and the string it gives holds the characters they encode.
#[verifier::external_body]
fn decode_text(bytes: &[u8]) -> (r: Option<String>)
    ensures
        match r {
            Some(s) => valid_utf8(bytes@) && s@ == decode_utf8(bytes@),
            None => !valid_utf8(bytes@),
        },
{
    String::from_utf8(bytes.to_vec()).ok()
}

impl PamEnvList {
    /// Builds the list from the raw lines of a native environment array, in
    /// their order, dropping each line that holds no separator.
    pub fn from_entries(entries: &Vec<Vec<u8>>) -> (r: PamEnvList)
        ensures
            r@ == parse_all(lines_view(entries@)),
    {
        let ghost lines = lines_view(entries@);
        let mut inner: Vec<(Vec<u8>, Vec<u8>)> = Vec::new();
        let mut i: usize = 0;
        while i < entries.len()
            invariant
                i <= entries.len(),
                lines == lines_view(entries@),
                pairs_view(inner@) == parse_all(lines.subrange(0, i as int)),
            decreases entries.len() - i,
        {
            let ghost before = inner@;
            match parse_env_line(entries[i].as_slice()) {
                Some(kv) => {
                    inner.push(kv);
                    assert(pairs_view(inner@) =~= pairs_view(before).push((kv.0@, kv.1@)));
                },
                None => {},
            }
            assert(lines.subrange(0, i + 1).drop_last() =~= lines.subrange(0, i as int));
            i += 1;
        }
        assert(lines.subrange(0, i as int) =~= lines);
        PamEnvList { inner }
    }

    /// The list for what a native fetch gave: nothing where the native side
    /// had no environment, else the list of its lines.
    pub fn from_fetched(fetched: Option<Vec<Vec<u8>>>) -> (r: Option<PamEnvList>)
        ensures
            match fetched {
                None => r is None,
                Some(entries) => r is Some && r->0@ == parse_all(lines_view(entries@)),
            },
    {
        match fetched {
            None => None,
            Some(entries) => Some(PamEnvList::from_entries(&entries)),
        }
    }

    /// Builds the list from name/value pairs, kept as they are and in order.
    pub fn from_pairs(pairs: Vec<(Vec<u8>, Vec<u8>)>) -> (r: PamEnvList)
        ensures
            r@ == pairs_view(pairs@),
    {
        PamEnvList { inner: pairs }
    }

    /// The pairs as raw bytes.
    pub fn entries(&self) -> (r: &Vec<(Vec<u8>, Vec<u8>)>)
        ensures
            pairs_view(r@) == self@,
    {
        &self.inner
    }

    /// The number of pairs.
    pub fn len(&self) -> (r: usize)
        ensures
            r == self@.len(),
    {
        self.inner.len()
    }

    /// Writes each pair as the line `NAME=VALUE`, in order.
    pub fn to_lines(&self) -> (r: Vec<Vec<u8>>)
        ensures
            lines_view(r@) == lines_of(self@),
    {
        let mut out: Vec<Vec<u8>> = Vec::new();
        let mut i: usize = 0;
        while i < self.inner.len()
            invariant
                i <= self.inner@.len(),
                lines_view(out@) == lines_of(pairs_view(self.inner@).subrange(0, i as int)),
            decreases self.inner@.len() - i,
        {
            let ghost before = out@;
            let line = format_env_line(self.inner[i].0.as_slice(), self.inner[i].1.as_slice());
            out.push(line);
            assert(pairs_view(self.inner@)[i as int] == (self.inner@[i as int].0@, self.inner@[i as int].1@));
            assert(lines_view(out@) =~= lines_view(before).push(line@));
            assert(lines_view(out@) =~= lines_of(pairs_view(self.inner@).subrange(0, i + 1)));
            i += 1;
        }
        assert(pairs_view(self.inner@).subrange(0, i as int) =~= pairs_view(self.inner@));
        out
    }

    /// The pairs as text. Fails, naming the first pair at fault, where a name
    /// or a value is not valid UTF-8.
    pub fn to_vec(&self) -> (r: Result<Vec<(String, String)>, DecodeError>)
        ensures
            match r {
                Ok(v) => {
                    &&& forall|i: int| 0 <= i < self@.len() ==> is_text_pair(#[trigger] self@[i])
                    &&& v@.len() == self@.len()
                    &&& forall|i: int|
                        0 <= i < v@.len() ==> (#[trigger] v@[i]).0@ == decode_utf8(self@[i].0)
                            && v@[i].1@ == decode_utf8(self@[i].1)
                },
                Err(e) => {
                    &&& e.entry < self@.len()
                    &&& !is_text_pair(self@[e.entry as int])
                    &&& forall|i: int| 0 <= i < e.entry ==> is_text_pair(#[trigger] self@[i])
                },
            },
    {
        let mut out: Vec<(String, String)> = Vec::new();
        let mut i: usize = 0;
        while i < self.inner.len()
            invariant
                i <= self.inner@.len(),
                out@.len() == i,
                forall|j: int| 0 <= j < i ==> is_text_pair(#[trigger] self@[j]),
                forall|j: int|
                    0 <= j < i ==> (#[trigger] out@[j]).0@ == decode_utf8(self@[j].0)
                        && out@[j].1@ == decode_utf8(self@[j].1),
            decreases self.inner@.len() - i,
        {
            let name = decode_text(self.inner[i].0.as_slice());
            let value = decode_text(self.inner[i].1.as_slice());
            match (name, value) {
                (Some(n), Some(v)) => {
                    out.push((n, v));
                },
                _ => {
                    return Err(DecodeError { entry: i });
                },
            }
            i += 1;
        }
        Ok(out)
    }
}

/// Writes one pair as the line `NAME=VALUE`.
pub fn format_env_line(name: &[u8], value: &[u8]) -> (r: Vec<u8>)
    ensures
        r@ == line_of((name@, value@)),
{
    let mut line = vstd::slice::slice_to_vec(name);
    line.push(SEPARATOR);
    let mut rest = vstd::slice::slice_to_vec(value);
    line.append(&mut rest);
    line
}

/// Where a byte occurs at all, it has a first position.
proof fn lemma_first_exists(s: Seq<u8>, b: u8)
    requires
        contains_byte(s, b),
    ensures
        exists|p: int| is_first_at(s, b, p),
    decreases s.len(),
{
    if s[0] == b {
        assert(is_first_at(s, b, 0));
    } else {
        let t = s.drop_first();
        let i = choose|i: int| 0 <= i < s.len() && s[i] == b;
        assert(t[i - 1] == b);
        lemma_first_exists(t, b);
        let q = choose|q: int| is_first_at(t, b, q);
        assert forall|j: int| 0 <= j < q + 1 implies s[j] != b by {
            if j > 0 {
                assert(s[j] == t[j - 1]);
            }
        }
        assert(is_first_at(s, b, q + 1));
    }
}

/// A line that holds a separator parses, into the bytes before its first
/// separator and the bytes after it; either may be empty.
pub proof fn lemma_parse_splits_at_first(line: Seq<u8>)
    requires
        contains_byte(line, SEPARATOR),
    ensures
        parse_spec(line) is Some,
        forall|p: int|
            is_first_at(line, SEPARATOR, p) ==> parse_spec(line) == Some(
                (line.subrange(0, p), line.subrange(p + 1, line.len() as int)),
            ),
{
    lemma_first_exists(line, SEPARATOR);
    let p = choose|p: int| is_first_at(line, SEPARATOR, p);
    lemma_first_unique(line, SEPARATOR, p);
}

/// A line without a separator, the empty line among them, gives nothing.
pub proof fn lemma_parse_without_separator(line: Seq<u8>)
    requires
        !contains_byte(line, SEPARATOR),
    ensures
        parse_spec(line) is None,
{
}

/// Only the first separator splits: the name holds no separator, and the
/// value keeps every later one, so that name, separator and value give back
/// the line.
pub proof fn lemma_parse_rejoins(line: Seq<u8>)
    requires
        parse_spec(line) is Some,
    ensures
        !contains_byte((parse_spec(line)->0).0, SEPARATOR),
        line_of(parse_spec(line)->0) == line,
{
    let p = choose|p: int| is_first_at(line, SEPARATOR, p);
    let kv = parse_spec(line)->0;
    assert(line_of(kv) =~= line);
    if contains_byte(kv.0, SEPARATOR) {
        let i = choose|i: int| 0 <= i < kv.0.len() && kv.0[i] == SEPARATOR;
        assert(line[i] == SEPARATOR);
    }
}

/// A pair whose name holds no separator parses back from its line.
proof fn lemma_parse_line_of(kv: (Seq<u8>, Seq<u8>))
    requires
        !contains_byte(kv.0, SEPARATOR),
    ensures
        parse_spec(line_of(kv)) == Some(kv),
{
    let line = line_of(kv);
    let p = kv.0.len() as int;
    assert forall|j: int| 0 <= j < p implies line[j] != SEPARATOR by {
        assert(line[j] == kv.0[j]);
    }
    assert(is_first_at(line, SEPARATOR, p));
    lemma_first_unique(line, SEPARATOR, p);
    assert(line.subrange(0, p) =~= kv.0);
    assert(line.subrange(p + 1, line.len() as int) =~= kv.1);
}

/// Writing pairs whose names hold no separator as lines, and parsing the
/// lines again, gives back the same pairs in the same order.
pub proof fn lemma_round_trip(pairs: Seq<(Seq<u8>, Seq<u8>)>)
    requires
        forall|i: int| 0 <= i < pairs.len() ==> !contains_byte(#[trigger] pairs[i].0, SEPARATOR),
    ensures
        parse_all(lines_of(pairs)) == pairs,
    decreases pairs.len(),
{
    if pairs.len() > 0 {
        let rest = pairs.drop_last();
        assert(lines_of(pairs).drop_last() =~= lines_of(rest));
        assert(forall|i: int| 0 <= i < rest.len() ==> #[trigger] rest[i] == pairs[i]);
        lemma_round_trip(rest);
        lemma_parse_line_of(pairs.last());
        assert(lines_of(pairs).last() == line_of(pairs.last()));
        assert(rest.push(pairs.last()) =~= pairs);
    }
}

/// The first position of a byte is unique.
proof fn lemma_first_unique(s: Seq<u8>, b: u8, p: int)
    requires
        is_first_at(s, b, p),
    ensures
        forall|q: int| is_first_at(s, b, q) ==> q == p,
{
}

} // verus!

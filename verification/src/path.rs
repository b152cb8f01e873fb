//! Paths through a graph: sequences of text segments.

use vstd::prelude::*;

verus! {

/// The segments of the rest `s` of a path text, given the segment `current`
/// that is being read and the segments `done` before it. Segments are
/// separated by `/`; empty ones are dropped.
pub open spec fn split_from(s: Seq<char>, current: Seq<char>, done: Seq<Seq<char>>) -> Seq<
    Seq<char>,
>
    decreases s.len(),
{
    let closed = if current.len() > 0 {
        done.push(current)
    } else {
        done
    };
    if s.len() == 0 {
        closed
    } else if s[0] == '/' {
        split_from(s.skip(1), Seq::empty(), closed)
    } else {
        split_from(s.skip(1), current.push(s[0]), done)
    }
}

/// The segments of a path text.
pub open spec fn split_path(s: Seq<char>) -> Seq<Seq<char>> {
    split_from(s, Seq::empty(), Seq::empty())
}

/// `segment` could stand between two separators: it is not empty and holds
/// no `/`.
pub open spec fn is_segment(segment: Seq<char>) -> bool {
    segment.len() > 0 && forall|i: int| 0 <= i < segment.len() ==> segment[i] != '/'
}

/// Splitting gives segments only: none of them is empty or holds a `/`.
pub proof fn lemma_split_gives_segments(s: Seq<char>, current: Seq<char>, done: Seq<Seq<char>>)
    requires
        forall|i: int| 0 <= i < current.len() ==> current[i] != '/',
        forall|i: int| 0 <= i < done.len() ==> is_segment(#[trigger] done[i]),
    ensures
        forall|i: int|
            0 <= i < split_from(s, current, done).len() ==> is_segment(
                #[trigger] split_from(s, current, done)[i],
            ),
    decreases s.len(),
{
    let closed = if current.len() > 0 {
        done.push(current)
    } else {
        done
    };
    assert forall|i: int| 0 <= i < closed.len() implies is_segment(#[trigger] closed[i]) by {
        if i < done.len() {
            assert(is_segment(done[i]));
            assert(closed[i] == done[i]);
        } else {
            assert(closed[i] == current);
        }
    }
    let all = split_from(s, current, done);
    if s.len() == 0 {
        assert(all == closed);
    } else {
        if s[0] == '/' {
            lemma_split_gives_segments(s.skip(1), Seq::empty(), closed);
            assert(all == split_from(s.skip(1), Seq::empty(), closed));
        } else {
            let longer = current.push(s[0]);
            assert(all == split_from(s.skip(1), longer, done));
            assert forall|i: int| 0 <= i < longer.len() implies longer[i] != '/' by {
                if i < current.len() {
                    assert(longer[i] == current[i]);
                }
            }
            lemma_split_gives_segments(s.skip(1), longer, done);
        }
    }
}

/// A text without a `/` is, unless it is empty, its own one segment.
pub proof fn lemma_split_one_segment(s: Seq<char>, current: Seq<char>, done: Seq<Seq<char>>)
    requires
        forall|i: int| 0 <= i < s.len() ==> s[i] != '/',
    ensures
        current.len() + s.len() > 0 ==> split_from(s, current, done) == done.push(current + s),
        current.len() + s.len() == 0 ==> split_from(s, current, done) == done,
    decreases s.len(),
{
    if s.len() > 0 {
        lemma_split_one_segment(s.skip(1), current.push(s[0]), done);
        assert(current.push(s[0]) + s.skip(1) =~= current + s);
    } else {
        assert(current + s =~= current);
    }
}

/// The texts of `s` as character sequences.
pub open spec fn texts(s: Seq<String>) -> Seq<Seq<char>> {
    Seq::new(s.len(), |i: int| s[i]@)
}

/// `String::push`: appends one character.
#[verifier::external_body]
fn push_char(s: &mut String, c: char)
    ensures
        final(s)@ == old(s)@.push(c),
{
    s.push(c)
}

/// A path: the segments to follow, in order.
#[derive(Debug, Clone, PartialEq, Eq, Hash)]
pub struct Path {
    segments: Vec<String>,
}

impl View for Path {
    type V = Seq<Seq<char>>;

    closed spec fn view(&self) -> Seq<Seq<char>> {
        texts(self.segments@)
    }
}

impl Path {
    /// The empty path.
    pub fn new() -> (p: Self)
        ensures
            p@ == Seq::<Seq<char>>::empty(),
    {
        let p = Path { segments: Vec::new() };
        assert(p@ =~= Seq::<Seq<char>>::empty());
        p
    }

    /// The path that `text` spells: its segments between `/`, without the
    /// empty ones.
    pub fn parse(text: &str) -> (p: Self)
        ensures
            p@ == split_path(text@),
    {
        let mut segments: Vec<String> = Vec::new();
        let mut current = String::new();
        assert(texts(segments@) =~= Seq::<Seq<char>>::empty());
        assert(text@.skip(0) =~= text@);
        for c in it: text.chars()
            invariant
                it.seq() == text@,
                split_path(text@) == split_from(
                    text@.skip(it.index() as int),
                    current@,
                    texts(segments@),
                ),
        {
            let ghost before = texts(segments@);
            let ghost rest = text@.skip(it.index() as int);
            assert(rest.skip(1) =~= text@.skip(it.index() + 1));
            assert(rest.len() > 0 && rest[0] == c);
            if c == '/' {
                if !current.as_str().is_empty() {
                    segments.push(current);
                    assert(texts(segments@) =~= before.push(current@));
                    current = String::new();
                } else {
                    assert(current@ =~= Seq::<char>::empty());
                }
            } else {
                push_char(&mut current, c);
            }
        }
        let ghost before = texts(segments@);
        if !current.as_str().is_empty() {
            segments.push(current);
            assert(texts(segments@) =~= before.push(current@));
        }
        Path { segments }
    }

    /// The number of segments.
    pub fn len(&self) -> (n: usize)
        ensures
            n == self@.len(),
    {
        self.segments.len()
    }

    /// The segment at place `i`.
    pub fn segment(&self, i: usize) -> (s: &str)
        requires
            i < self@.len(),
        ensures
            s@ == self@[i as int],
    {
        self.segments[i].as_str()
    }
}


/// Whether `c` is one of the digits `0` to `9`.
pub open spec fn is_digit(c: char) -> bool {
    '0' <= c <= '9'
}

/// The number that the digits `s` spell in base ten.
pub open spec fn decimal(s: Seq<char>) -> nat
    decreases s.len(),
{
    if s.len() == 0 {
        0
    } else {
        decimal(s.drop_last()) * 10 + (s.last() as nat - 48) as nat
    }
}

/// Every character of `s` is a digit.
pub open spec fn all_digits(s: Seq<char>) -> bool {
    forall|i: int| 0 <= i < s.len() ==> is_digit(#[trigger] s[i])
}

/// The part of an index text that holds its digits: the text without a
/// leading `+`.
pub open spec fn digits_of(s: Seq<char>) -> Seq<char> {
    if s.len() > 0 && s[0] == '+' {
        s.skip(1)
    } else {
        s
    }
}

/// The list index that a path segment spells: one or more digits, after an
/// optional `+`, whose number the host can address.
pub open spec fn index_of_text(s: Seq<char>) -> Option<nat> {
    let digits = digits_of(s);
    if digits.len() == 0 || !all_digits(digits) || decimal(digits) > usize::MAX {
        None
    } else {
        Some(decimal(digits))
    }
}

/// The number that a sequence of digits spells is at least the number that
/// any of its beginnings spells.
pub proof fn lemma_decimal_grows(s: Seq<char>, k: int)
    requires
        0 <= k <= s.len(),
        all_digits(s),
    ensures
        decimal(s.take(k)) <= decimal(s),
    decreases s.len(),
{
    if k == s.len() {
        assert(s.take(k) =~= s);
    } else {
        let t = s.drop_last();
        assert(t.take(k) =~= s.take(k));
        assert(is_digit(s[s.len() - 1]));
        assert forall|i: int| 0 <= i < t.len() implies is_digit(#[trigger] t[i]) by {
            assert(t[i] == s[i]);
        }
        lemma_decimal_grows(t, k);
    }
}

/// Reads a path segment as a list index.
pub fn parse_index(text: &str) -> (res: Option<usize>)
    ensures
        match res {
            Some(i) => index_of_text(text@) == Some(i as nat),
            None => index_of_text(text@) is None,
        },
{
    let ghost digits = digits_of(text@);
    let ghost skipped: int = text@.len() - digits.len();
    let mut value: usize = 0;
    let ghost mut seen: int = 0;
    let mut any = false;
    let mut first = true;
    assert(digits.take(0) =~= Seq::<char>::empty());
    for c in it: text.chars()
        invariant
            it.seq() == text@,
            digits == digits_of(text@),
            skipped == text@.len() - digits.len(),
            first <==> it.index() == 0,
            0 <= seen <= it.index(),
            any <==> seen > 0,
            !first ==> seen == it.index() - skipped,
            first ==> seen == 0,
            all_digits(digits.take(seen)),
            value == decimal(digits.take(seen)),
    {
        let ghost at = it.index() as int;
        assert(c == text@[at]);
        if first && c == '+' {
            first = false;
        } else {
            first = false;
            let ghost before = digits.take(seen);
            let ghost after = digits.take(seen + 1);
            assert(0 <= seen < digits.len());
            assert(digits[seen] == c);
            assert(after.drop_last() =~= before);
            if !('0' <= c && c <= '9') {
                assert(!is_digit(digits[seen]));
                return None;
            }
            assert forall|i: int| 0 <= i < after.len() implies is_digit(#[trigger] after[i]) by {
                if i < seen {
                    assert(before[i] == after[i]);
                }
            }
            let d = (c as u32 - 48) as usize;
            let next = match value.checked_mul(10) {
                Some(tens) => tens.checked_add(d),
                None => None,
            };
            match next {
                Some(n) => {
                    value = n;
                    any = true;
                    proof {
                        seen = seen + 1;
                    }
                },
                None => {
                    proof {
                        if all_digits(digits) {
                            lemma_decimal_grows(digits, seen + 1);
                        }
                    }
                    return None;
                },
            }
        }
    }
    assert(digits.take(seen) =~= digits);
    if any {
        Some(value)
    } else {
        None
    }
}

} // verus!

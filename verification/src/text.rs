//! Scanning primitives over a text held as Unicode scalar values.
//!
//! Every scanner takes the whole input and an offset into it, counted in
//! scalar values, and answers with the offset at which it stopped.

use vstd::prelude::*;

verus! {

/// Whether `c` has the Unicode `Alphabetic` property, as `char::is_alphabetic` decides it.
pub uninterp spec fn char_is_alphabetic(c: char) -> bool;

/// Whether `c` is in one of the Unicode number categories, as `char::is_numeric` decides it.
pub uninterp spec fn char_is_numeric(c: char) -> bool;

/// Assumed of `char::is_alphabetic` of the standard library: its answer
/// depends on the scalar value alone. The contract gives that answer a name
/// and says nothing of which scalar values are alphabetic.
pub assume_specification[ char::is_alphabetic ](c: char) -> (r: bool)
    ensures
        r == char_is_alphabetic(c),
;

/// Assumed of `char::is_numeric` of the standard library: its answer
/// depends on the scalar value alone. The contract gives that answer a name
/// and says nothing of which scalar values are numeric.
pub assume_specification[ char::is_numeric ](c: char) -> (r: bool)
    ensures
        r == char_is_numeric(c),
;

/// Assumed of `String::push` of the standard library: it appends the one
/// scalar value to the end of the string and leaves what was there as it was.
pub assume_specification[ String::push ](s: &mut String, c: char)
    ensures
        final(s)@ == old(s)@.push(c),
;

/// Assumed of the equality of string slices in the standard library
/// (`PartialEq::eq` of `str`): two slices are equal exactly when they are the
/// same sequence of scalar values.
pub assume_specification[ <str as PartialEq>::eq ](a: &str, b: &str) -> (r: bool)
    ensures
        r == (a@ == b@),
;

/// Why a scanner or a production gave no result.
#[derive(Debug, PartialEq, Eq, Clone, Copy)]
pub enum Reject {
    /// The input holds something else at this place.
    Mismatch,
    /// The input ended before the question could be settled.
    EndOfInput,
}

/// A set of scalar values that a run is made of.
#[derive(Debug, PartialEq, Eq, Clone, Copy)]
pub enum CharClass {
    /// Space and tab.
    Blank,
    /// Space, tab, carriage return and line feed.
    Whitespace,
    /// What a section name is made of: alphabetic and numeric scalar values,
    /// underscore and hyphen.
    Word,
}

/// Where a scan stands: at an offset of the input, or stopped.
pub type Scan = Result<nat, Reject>;

/// The outcome of an executable scanner, as the specification sees it.
pub open spec fn scan(r: Result<usize, Reject>) -> Scan {
    match r {
        Ok(p) => Ok(p as nat),
        Err(e) => Err(e),
    }
}

/// The outcome of an executable production, as the specification sees it.
pub open spec fn parsed<T: View>(r: Result<(usize, T), Reject>) -> Result<(nat, T::V), Reject> {
    match r {
        Ok((end, value)) => Ok((end as nat, value@)),
        Err(e) => Err(e),
    }
}

/// Whether a scalar value with the given two Unicode classes may stand in a
/// section name.
pub open spec fn word_char_from(c: char, alphabetic: bool, numeric: bool) -> bool {
    alphabetic || numeric || c == '_' || c == '-'
}

impl CharClass {
    /// Membership of `c` in the class.
    pub open spec fn holds(self, c: char) -> bool {
        match self {
            CharClass::Blank => c == ' ' || c == '\t',
            CharClass::Whitespace => c == ' ' || c == '\t' || c == '\r' || c == '\n',
            CharClass::Word => word_char_from(c, char_is_alphabetic(c), char_is_numeric(c)),
        }
    }

    /// Decides membership of `c` in the class.
    pub fn contains(&self, c: char) -> (r: bool)
        ensures
            r == self.holds(c),
    {
        match self {
            CharClass::Blank => c == ' ' || c == '\t',
            CharClass::Whitespace => c == ' ' || c == '\t' || c == '\r' || c == '\n',
            CharClass::Word => in_word(c, c.is_alphabetic(), c.is_numeric()),
        }
    }
}

/// Decides from the two Unicode classes of `c` whether it may stand in a
/// section name.
pub fn in_word(c: char, alphabetic: bool, numeric: bool) -> (r: bool)
    ensures
        r == word_char_from(c, alphabetic, numeric),
{
    alphabetic || numeric || c == '_' || c == '-'
}

/// The length of the longest prefix of `s` made of members of `class`.
pub open spec fn run(s: Seq<char>, class: CharClass) -> nat
    decreases s.len(),
{
    if s.len() > 0 && class.holds(s[0]) {
        1 + run(s.skip(1), class)
    } else {
        0
    }
}

/// A run is a prefix: it is no longer than the text, every scalar value in it
/// belongs to the class, and the one behind it, if any, does not.
pub proof fn lemma_run_is_longest_prefix(s: Seq<char>, class: CharClass)
    ensures
        run(s, class) <= s.len(),
        forall|i: int| 0 <= i < run(s, class) ==> class.holds(#[trigger] s[i]),
        run(s, class) < s.len() ==> !class.holds(s[run(s, class) as int]),
    decreases s.len(),
{
    if s.len() > 0 && class.holds(s[0]) {
        let rest = s.skip(1);
        lemma_run_is_longest_prefix(rest, class);
        assert forall|i: int| 0 <= i < run(s, class) implies class.holds(#[trigger] s[i]) by {
            if i > 0 {
                assert(s[i] == rest[i - 1]);
            }
        }
        if run(s, class) < s.len() {
            assert(s[run(s, class) as int] == rest[run(rest, class) as int]);
        }
    }
}

/// Skipping a run that may be empty. The scan stops for want of input when
/// the run reaches the end, since more of it might follow.
pub open spec fn after_optional(s: Seq<char>, at: Scan, class: CharClass) -> Scan {
    match at {
        Ok(p) => {
            let end = p + run(s.skip(p as int), class);
            if end >= s.len() {
                Err(Reject::EndOfInput)
            } else {
                Ok(end)
            }
        },
        Err(e) => Err(e),
    }
}

/// Stepping over the one scalar value `c`.
pub open spec fn after_char(s: Seq<char>, at: Scan, c: char) -> Scan {
    match at {
        Ok(p) => {
            if p >= s.len() {
                Err(Reject::EndOfInput)
            } else if s[p as int] == c {
                Ok(p + 1)
            } else {
                Err(Reject::Mismatch)
            }
        },
        Err(e) => Err(e),
    }
}

/// Stepping over a section name, which is a run of `CharClass::Word` that is
/// not empty.
pub open spec fn after_word(s: Seq<char>, at: Scan) -> Scan {
    match at {
        Ok(p) => {
            let n = run(s.skip(p as int), CharClass::Word);
            if n == 0 {
                Err(Reject::Mismatch)
            } else {
                Ok(p + n)
            }
        },
        Err(e) => Err(e),
    }
}

/// The offset behind the run of `class` that starts at `at`.
pub fn run_end(input: &[char], at: usize, class: CharClass) -> (end: usize)
    requires
        at <= input.len(),
    ensures
        end == at + run(input@.skip(at as int), class),
        end <= input.len(),
{
    let mut i: usize = at;
    while i < input.len() && class.contains(input[i])
        invariant
            at <= i <= input.len(),
            run(input@.skip(at as int), class) == (i - at) + run(input@.skip(i as int), class),
        decreases input.len() - i,
    {
        assert(input@.skip(i as int).skip(1) == input@.skip(i + 1));
        i += 1;
    }
    i
}

/// Skips blanks or whitespace that may stand at `at`.
pub fn optional(input: &[char], at: usize, class: CharClass) -> (r: Result<usize, Reject>)
    requires
        at <= input.len(),
    ensures
        scan(r) == after_optional(input@, Ok(at as nat), class),
        r matches Ok(p) ==> at <= p < input.len(),
{
    let end = run_end(input, at, class);
    if end >= input.len() {
        Err(Reject::EndOfInput)
    } else {
        Ok(end)
    }
}

/// Steps over `c` at `at`.
pub fn expect(input: &[char], at: usize, c: char) -> (r: Result<usize, Reject>)
    requires
        at <= input.len(),
    ensures
        scan(r) == after_char(input@, Ok(at as nat), c),
        r matches Ok(p) ==> p == at + 1 && p <= input.len(),
{
    if at >= input.len() {
        Err(Reject::EndOfInput)
    } else if input[at] == c {
        Ok(at + 1)
    } else {
        Err(Reject::Mismatch)
    }
}

/// Steps over the section name at `at`.
pub fn word(input: &[char], at: usize) -> (r: Result<usize, Reject>)
    requires
        at <= input.len(),
    ensures
        scan(r) == after_word(input@, Ok(at as nat)),
        r matches Ok(p) ==> at < p <= input.len(),
{
    let end = run_end(input, at, CharClass::Word);
    if end == at {
        Err(Reject::Mismatch)
    } else {
        Ok(end)
    }
}

/// The text between two offsets of the input.
pub fn text_between(input: &[char], from: usize, to: usize) -> (r: String)
    requires
        from <= to <= input.len(),
    ensures
        r@ == input@.subrange(from as int, to as int),
{
    let mut out = String::new();
    let mut i: usize = from;
    while i < to
        invariant
            from <= i <= to <= input.len(),
            out@ == input@.subrange(from as int, i as int),
        decreases to - i,
    {
        out.push(input[i]);
        i += 1;
    }
    out
}

/// A section name at `at`: the longest run of word characters, which must
/// not be empty.
pub open spec fn parse_identifier(s: Seq<char>, at: nat) -> Result<(nat, Seq<char>), Reject> {
    match after_word(s, Ok(at)) {
        Ok(end) => Ok((end, s.subrange(at as int, end as int))),
        Err(e) => Err(e),
    }
}

/// Reads the section name at `at` and answers with the offset behind it.
pub fn identifier(input: &[char], at: usize) -> (r: Result<(usize, String), Reject>)
    requires
        at <= input.len(),
    ensures
        parsed(r) == parse_identifier(input@, at as nat),
        r matches Ok((end, _)) ==> at < end <= input.len(),
{
    let end = word(input, at)?;
    Ok((end, text_between(input, at, end)))
}

/// Whether `s` begins with a backslash followed by `until`, which together
/// stand for `until` itself.
pub open spec fn escape_in_front(s: Seq<char>, until: char) -> bool {
    s.len() >= 2 && s[0] == '\\' && s[1] == until
}

/// How much of `s` an escaped text takes. Read from the left, a backslash
/// followed by `until` is taken as a pair and any other scalar value alone;
/// the text ends before the first `until` that is met alone, or with `s`.
pub open spec fn escaped_len(s: Seq<char>, until: char) -> nat
    decreases s.len(),
{
    if s.len() == 0 {
        0
    } else if escape_in_front(s, until) {
        2 + escaped_len(s.skip(2), until)
    } else if s[0] == until {
        0
    } else {
        1 + escaped_len(s.skip(1), until)
    }
}

/// What the escaped text in front of `s` stands for: each backslash followed
/// by `until` gives `until`, and every other scalar value gives itself.
pub open spec fn unescaped(s: Seq<char>, until: char) -> Seq<char>
    decreases s.len(),
{
    if s.len() == 0 {
        Seq::empty()
    } else if escape_in_front(s, until) {
        seq![until] + unescaped(s.skip(2), until)
    } else if s[0] == until {
        Seq::empty()
    } else {
        seq![s[0]] + unescaped(s.skip(1), until)
    }
}

/// The escaped text at `at`. It never fails: where no `until` ends it, it
/// runs to the end of the input.
pub open spec fn parse_escaped(s: Seq<char>, at: nat, until: char) -> Result<
    (nat, Seq<char>),
    Reject,
> {
    Ok((at + escaped_len(s.skip(at as int), until), unescaped(s.skip(at as int), until)))
}

/// An escaped text stays inside the input, and it ends at the end of the
/// input or in front of an `until`.
pub proof fn lemma_escaped_len_bound(s: Seq<char>, until: char)
    ensures
        escaped_len(s, until) <= s.len(),
        escaped_len(s, until) < s.len() ==> s[escaped_len(s, until) as int] == until,
    decreases s.len(),
{
    if s.len() == 0 {
    } else if escape_in_front(s, until) {
        lemma_escaped_len_bound(s.skip(2), until);
    } else if s[0] == until {
    } else {
        lemma_escaped_len_bound(s.skip(1), until);
    }
}

/// Reads the escaped text at `at`, up to the first `until` that is not
/// escaped. The offset in the answer is that of this `until`, or the end of
/// the input.
pub fn escaped_until(input: &[char], at: usize, until: char) -> (r: Result<
    (usize, String),
    Reject,
>)
    requires
        at <= input.len(),
    ensures
        parsed(r) == parse_escaped(input@, at as nat, until),
        r matches Ok((end, _)) && at <= end <= input.len() && (end < input.len() ==> input[end as int]
            == until),
{
    let ghost s = input@;
    let mut out = String::new();
    let mut i: usize = at;
    loop
        invariant
            s == input@,
            at <= i <= input.len(),
            escaped_len(s.skip(at as int), until) == (i - at) + escaped_len(
                s.skip(i as int),
                until,
            ),
            unescaped(s.skip(at as int), until) == out@ + unescaped(s.skip(i as int), until),
        ensures
            at <= i <= input.len(),
            i == at + escaped_len(s.skip(at as int), until),
            out@ == unescaped(s.skip(at as int), until),
        decreases input.len() - i,
    {
        if i >= input.len() {
            break;
        }
        let c = input[i];
        if c == '\\' && i + 1 < input.len() && input[i + 1] == until {
            proof {
                assert(s.skip(i as int).skip(2) == s.skip(i + 2));
                assert(out@.push(until) + unescaped(s.skip(i + 2), until) == out@ + (seq![until]
                    + unescaped(s.skip(i + 2), until)));
            }
            out.push(until);
            i += 2;
        } else if c == until {
            break;
        } else {
            proof {
                assert(s.skip(i as int).skip(1) == s.skip(i + 1));
                assert(out@.push(c) + unescaped(s.skip(i + 1), until) == out@ + (seq![c]
                    + unescaped(s.skip(i + 1), until)));
            }
            out.push(c);
            i += 1;
        }
    }
    proof {
        lemma_escaped_len_bound(s.skip(at as int), until);
    }
    Ok((i, out))
}

/// Reads a description: an escaped text that a line feed ends.
pub fn desc_text(input: &[char], at: usize) -> (r: Result<(usize, String), Reject>)
    requires
        at <= input.len(),
    ensures
        parsed(r) == parse_escaped(input@, at as nat, '\n'),
        r matches Ok((end, _)) && at <= end <= input.len(),
{
    escaped_until(input, at, '\n')
}

/// Reads a trigger label: an escaped text that a closing parenthesis ends.
pub fn mapping_name(input: &[char], at: usize) -> (r: Result<(usize, String), Reject>)
    requires
        at <= input.len(),
    ensures
        parsed(r) == parse_escaped(input@, at as nat, ')'),
        r matches Ok((end, _)) && at <= end <= input.len(),
{
    escaped_until(input, at, ')')
}

/// The escaped form of `t`: a backslash is put before every `until`.
pub open spec fn escaped(t: Seq<char>, until: char) -> Seq<char>
    decreases t.len(),
{
    if t.len() == 0 {
        Seq::empty()
    } else if t[0] == until {
        seq!['\\', until] + escaped(t.skip(1), until)
    } else {
        seq![t[0]] + escaped(t.skip(1), until)
    }
}

/// Whether reading may go wrong where the escaped form of `t` meets `tail`:
/// it does not where nothing follows, nor where an `until` that is not a
/// backslash follows a text that does not end in a backslash.
pub open spec fn joins_cleanly(t: Seq<char>, until: char, tail: Seq<char>) -> bool {
    tail.len() == 0 || (tail[0] == until && until != '\\' && (t.len() > 0 ==> t.last() != '\\'))
}

proof fn lemma_escaped_front(t: Seq<char>, until: char)
    requires
        t.len() > 0,
    ensures
        escaped(t, until).len() > 0,
        t[0] != until ==> escaped(t, until)[0] == t[0],
        t[0] == until ==> escaped(t, until)[0] == '\\',
{
}

proof fn lemma_unescape_escaped(t: Seq<char>, until: char, tail: Seq<char>)
    requires
        joins_cleanly(t, until, tail),
    ensures
        unescaped(escaped(t, until) + tail, until) == t,
        escaped_len(escaped(t, until) + tail, until) == escaped(t, until).len(),
    decreases t.len(),
{
    let s = escaped(t, until) + tail;
    if t.len() == 0 {
        assert(s == tail);
    } else {
        let rest = t.skip(1);
        let inner = escaped(rest, until) + tail;
        if rest.len() > 0 {
            assert(rest.last() == t.last());
            lemma_escaped_front(rest, until);
        }
        lemma_unescape_escaped(rest, until, tail);
        if t[0] == until {
            assert(s.skip(2) == inner);
            assert(escape_in_front(s, until));
            assert(seq![until] + rest == t);
        } else {
            assert(s.skip(1) == inner);
            assert(s[0] == t[0]);
            if s.len() >= 2 {
                assert(s[1] == inner[0]);
            }
            assert(!escape_in_front(s, until));
            assert(seq![t[0]] + rest == t);
        }
    }
}

/// Escaping and reading back gives the text again: the escaped form of any
/// text, read to the end of the input, is taken whole and stands for that text.
pub proof fn lemma_escape_round_trip(t: Seq<char>, until: char)
    ensures
        parse_escaped(escaped(t, until), 0, until) == Ok::<(nat, Seq<char>), Reject>(
            (escaped(t, until).len(), t),
        ),
{
    let e = escaped(t, until);
    lemma_unescape_escaped(t, until, Seq::empty());
    assert(e + Seq::<char>::empty() == e);
    assert(e.skip(0) == e);
}

/// Escaping and reading back gives the text again in front of its
/// terminator too: where the escaped form of `t` is followed by `until` and
/// anything more, reading stops at that `until` and gives `t`. This needs an
/// `until` other than the backslash and a `t` that does not end in one, for
/// a backslash there would escape the terminator.
pub proof fn lemma_escape_round_trip_terminated(t: Seq<char>, until: char, rest: Seq<char>)
    requires
        until != '\\',
        t.len() > 0 ==> t.last() != '\\',
    ensures
        parse_escaped(escaped(t, until) + seq![until] + rest, 0, until) == Ok::<
            (nat, Seq<char>),
            Reject,
        >((escaped(t, until).len(), t)),
{
    let tail = seq![until] + rest;
    let s = escaped(t, until) + seq![until] + rest;
    lemma_unescape_escaped(t, until, tail);
    assert(s == escaped(t, until) + tail);
    assert(s.skip(0) == s);
}

} // verus!

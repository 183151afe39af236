//! Reading the document summary printed by the `pdfinfo` tool.
//!
//! The summary is a list of `Key: value` lines; blank lines are skipped and a
//! non-blank line without a colon makes the whole summary invalid.
use vstd::prelude::*;
use crate::rasterizer::parse_u32_spec;

verus! {

/// What the summary of a document says that the library needs.
#[derive(Clone, Copy, Debug, PartialEq, Eq, Structural)]
pub struct PdfInfo {
    page_count: u32,
}

/// Why a summary could not be read.
pub enum PdfInfoError {
    /// A non-blank line has no colon.
    InvalidLine { line: Vec<char> },
    /// No line gives the page count.
    MissingPageCount,
    /// The page count is not an unsigned 32-bit number.
    InvalidPageCount { value: Vec<char> },
}

/// Whether `c` is white space (the characters of Unicode's `White_Space`).
pub open spec fn is_white_space(c: char) -> bool {
    ||| ('\u{9}' <= c && c <= '\u{d}')
    ||| c == ' '
    ||| c == '\u{85}'
    ||| c == '\u{a0}'
    ||| c == '\u{1680}'
    ||| ('\u{2000}' <= c && c <= '\u{200a}')
    ||| c == '\u{2028}'
    ||| c == '\u{2029}'
    ||| c == '\u{202f}'
    ||| c == '\u{205f}'
    ||| c == '\u{3000}'
}

/// `s` without its leading white space.
pub open spec fn trim_start(s: Seq<char>) -> Seq<char>
    decreases s.len(),
{
    if s.len() > 0 && is_white_space(s[0]) {
        trim_start(s.drop_first())
    } else {
        s
    }
}

/// `s` without its trailing white space.
pub open spec fn trim_end(s: Seq<char>) -> Seq<char>
    decreases s.len(),
{
    if s.len() > 0 && is_white_space(s.last()) {
        trim_end(s.drop_last())
    } else {
        s
    }
}

/// `s` without leading and trailing white space.
pub open spec fn trim(s: Seq<char>) -> Seq<char> {
    trim_end(trim_start(s))
}

/// The pieces of `s` between line feeds (one more than there are line feeds).
pub open spec fn split_lines(s: Seq<char>) -> Seq<Seq<char>>
    decreases s.len(),
{
    if s.len() == 0 {
        seq![Seq::empty()]
    } else {
        let p = split_lines(s.drop_last());
        if s.last() == '\n' {
            p.push(Seq::empty())
        } else {
            p.update(p.len() - 1, p.last().push(s.last()))
        }
    }
}

/// The position of the first colon of `s`, if any.
pub open spec fn first_colon(s: Seq<char>) -> Option<int>
    decreases s.len(),
{
    if s.len() == 0 {
        None
    } else {
        match first_colon(s.drop_last()) {
            Some(k) => Some(k),
            None => if s.last() == ':' {
                Some(s.len() - 1)
            } else {
                None
            },
        }
    }
}

/// One line of the summary: nothing if blank, else its trimmed key and value
/// around the first colon; an error if it has no colon.
pub open spec fn parse_line(line: Seq<char>) -> Result<Option<(Seq<char>, Seq<char>)>, Seq<char>> {
    if trim(line).len() == 0 {
        Ok(None)
    } else {
        match first_colon(line) {
            Some(k) => Ok(Some((trim(line.take(k)), trim(line.skip(k + 1))))),
            None => Err(line),
        }
    }
}

/// The entries of the summary lines, in order; the first invalid line fails it.
pub open spec fn parse_lines(lines: Seq<Seq<char>>) -> Result<Seq<(Seq<char>, Seq<char>)>, Seq<char>>
    decreases lines.len(),
{
    if lines.len() == 0 {
        Ok(Seq::empty())
    } else {
        match parse_lines(lines.drop_last()) {
            Err(e) => Err(e),
            Ok(entries) => match parse_line(lines.last()) {
                Err(e) => Err(e),
                Ok(None) => Ok(entries),
                Ok(Some(entry)) => Ok(entries.push(entry)),
            },
        }
    }
}

/// The value of the last entry with key `key`, if any (a later entry for a key
/// replaces an earlier one).
pub open spec fn lookup_last(entries: Seq<(Seq<char>, Seq<char>)>, key: Seq<char>) -> Option<Seq<char>>
    decreases entries.len(),
{
    if entries.len() == 0 {
        None
    } else if entries.last().0 == key {
        Some(entries.last().1)
    } else {
        lookup_last(entries.drop_last(), key)
    }
}

/// The key of the page count.
pub open spec fn pages_key() -> Seq<char> {
    seq!['P', 'a', 'g', 'e', 's']
}

proof fn lemma_split_lines_nonempty(s: Seq<char>)
    ensures
        split_lines(s).len() >= 1,
    decreases s.len(),
{
    if s.len() > 0 {
        lemma_split_lines_nonempty(s.drop_last());
    }
}

/// Whether `c` is white space.
pub fn is_white_space_char(c: char) -> (r: bool)
    ensures
        r == is_white_space(c),
{
    ('\u{9}' <= c && c <= '\u{d}') || c == ' ' || c == '\u{85}' || c == '\u{a0}' || c
        == '\u{1680}' || ('\u{2000}' <= c && c <= '\u{200a}') || c == '\u{2028}' || c == '\u{2029}'
        || c == '\u{202f}' || c == '\u{205f}' || c == '\u{3000}'
}

/// The characters of `s` without leading and trailing white space.
pub fn trim_chars(s: &[char]) -> (r: Vec<char>)
    ensures
        r@ == trim(s@),
{
    let mut start: usize = 0;
    assert(s@.subrange(0, s@.len() as int) =~= s@);
    while start < s.len() && is_white_space_char(s[start])
        invariant
            0 <= start <= s.len(),
            trim_start(s@) == trim_start(s@.subrange(start as int, s@.len() as int)),
        decreases s.len() - start,
    {
        proof {
            let t = s@.subrange(start as int, s@.len() as int);
            assert(t.drop_first() =~= s@.subrange(start + 1, s@.len() as int));
        }
        start += 1;
    }
    let ghost rest = s@.subrange(start as int, s@.len() as int);
    assert(trim_start(rest) == rest);
    let mut end: usize = s.len();
    while end > start && is_white_space_char(s[end - 1])
        invariant
            start <= end <= s.len(),
            trim_start(s@) == rest,
            rest == s@.subrange(start as int, s@.len() as int),
            trim_end(rest) == trim_end(s@.subrange(start as int, end as int)),
        decreases end - start,
    {
        proof {
            let t = s@.subrange(start as int, end as int);
            assert(t.drop_last() =~= s@.subrange(start as int, end - 1));
        }
        end -= 1;
    }
    let mut r: Vec<char> = Vec::new();
    let mut i: usize = start;
    while i < end
        invariant
            start <= i <= end,
            end <= s.len(),
            r@ == s@.subrange(start as int, i as int),
        decreases end - i,
    {
        r.push(s[i]);
        assert(r@ =~= s@.subrange(start as int, i + 1));
        i += 1;
    }
    r
}

/// Reads one line of the summary.
pub fn parse_info_line(line: &[char]) -> (r: Result<Option<(Vec<char>, Vec<char>)>, Vec<char>>)
    ensures
        match r {
            Ok(None) => parse_line(line@) == Ok::<Option<(Seq<char>, Seq<char>)>, Seq<char>>(None),
            Ok(Some((k, v))) => parse_line(line@) == Ok::<Option<(Seq<char>, Seq<char>)>, Seq<char>>(
                Some((k@, v@)),
            ),
            Err(e) => parse_line(line@) == Err::<Option<(Seq<char>, Seq<char>)>, Seq<char>>(e@),
        },
{
    let trimmed = trim_chars(line);
    if trimmed.len() == 0 {
        return Ok(None);
    }
    let mut k: usize = 0;
    while k < line.len() && line[k] != ':'
        invariant
            0 <= k <= line.len(),
            first_colon(line@.take(k as int)) is None,
        decreases line.len() - k,
    {
        proof {
            assert(line@.take(k + 1).drop_last() =~= line@.take(k as int));
        }
        k += 1;
    }
    if k == line.len() {
        assert(line@.take(k as int) =~= line@);
        let mut copy: Vec<char> = Vec::new();
        let mut i: usize = 0;
        while i < line.len()
            invariant
                0 <= i <= line.len(),
                copy@ == line@.take(i as int),
            decreases line.len() - i,
        {
            copy.push(line[i]);
            assert(copy@ =~= line@.take(i + 1));
            i += 1;
        }
        assert(line@.take(line.len() as int) =~= line@);
        return Err(copy);
    }
    proof {
        lemma_first_colon_prefix(line@, k as int);
    }
    let key = trim_chars(&line[0..k]);
    let value = trim_chars(&line[k + 1..line.len()]);
    assert(line@.subrange(0, k as int) =~= line@.take(k as int));
    assert(line@.subrange(k + 1, line@.len() as int) =~= line@.skip(k + 1));
    Ok(Some((key, value)))
}

proof fn lemma_first_colon_prefix(s: Seq<char>, k: int)
    requires
        0 <= k < s.len(),
        s[k] == ':',
        first_colon(s.take(k)) is None,
    ensures
        first_colon(s) == Some(k),
    decreases s.len(),
{
    if s.len() - 1 > k {
        assert(s.drop_last().take(k) =~= s.take(k));
        lemma_first_colon_prefix(s.drop_last(), k);
    } else {
        assert(s.drop_last() =~= s.take(k));
    }
}

/// The views of parsed entries.
pub open spec fn entries_view(v: Seq<(Vec<char>, Vec<char>)>) -> Seq<(Seq<char>, Seq<char>)> {
    v.map_values(|e: (Vec<char>, Vec<char>)| (e.0@, e.1@))
}

/// Reads one more line into `entries`, or returns it if it is invalid.
fn read_line(entries: &mut Vec<(Vec<char>, Vec<char>)>, done: Ghost<Seq<Seq<char>>>, line: &[char]) -> (r:
    Result<(), Vec<char>>)
    requires
        parse_lines(done@) == Ok::<Seq<(Seq<char>, Seq<char>)>, Seq<char>>(entries_view(old(entries)@)),
    ensures
        match r {
            Ok(()) => parse_lines(done@.push(line@)) == Ok::<Seq<(Seq<char>, Seq<char>)>, Seq<char>>(
                entries_view(final(entries)@),
            ),
            Err(e) => parse_lines(done@.push(line@)) == Err::<Seq<(Seq<char>, Seq<char>)>, Seq<char>>(
                e@,
            ),
        },
{
    let ghost before = entries@;
    let parsed = parse_info_line(line);
    assert(done@.push(line@).drop_last() =~= done@);
    match parsed {
        Ok(None) => Ok(()),
        Ok(Some(entry)) => {
            entries.push(entry);
            assert(entries_view(entries@) =~= entries_view(before).push((entry.0@, entry.1@)));
            Ok(())
        },
        Err(e) => Err(e),
    }
}

/// Reads the entries of a summary; the first line without a colon (blank lines
/// aside) makes it invalid.
pub fn parse_pdf_info(text: &str) -> (r: Result<Vec<(Vec<char>, Vec<char>)>, PdfInfoError>)
    ensures
        match r {
            Ok(entries) => parse_lines(split_lines(text@)) == Ok::<
                Seq<(Seq<char>, Seq<char>)>,
                Seq<char>,
            >(entries_view(entries@)),
            Err(PdfInfoError::InvalidLine { line }) => parse_lines(split_lines(text@)) == Err::<
                Seq<(Seq<char>, Seq<char>)>,
                Seq<char>,
            >(line@),
            Err(_) => false,
        },
{
    let chars = crate::text::chars_of(text);
    let ghost s = text@;
    let mut entries: Vec<(Vec<char>, Vec<char>)> = Vec::new();
    let mut done: Ghost<Seq<Seq<char>>> = Ghost(Seq::empty());
    let mut start: usize = 0;
    let mut i: usize = 0;
    assert(s.take(0) =~= Seq::<char>::empty());
    assert(s.subrange(0, 0) =~= Seq::<char>::empty());
    assert(entries_view(entries@) =~= Seq::<(Seq<char>, Seq<char>)>::empty());
    while i < chars.len()
        invariant
            chars@ == s,
            s == text@,
            0 <= start <= i <= chars.len(),
            split_lines(s.take(i as int)) == done@.push(s.subrange(start as int, i as int)),
            parse_lines(done@) == Ok::<Seq<(Seq<char>, Seq<char>)>, Seq<char>>(
                entries_view(entries@),
            ),
        decreases chars.len() - i,
    {
        let t = Ghost(s.take(i + 1));
        assert(t@.drop_last() =~= s.take(i as int));
        if chars[i] == '\n' {
            let line = &chars.as_slice()[start..i];
            match read_line(&mut entries, done, line) {
                Ok(()) => {},
                Err(e) => {
                    proof {
                        assert(line@ == s.subrange(start as int, i as int));
                        assert(t@.last() == '\n');
                        assert(split_lines(t@) == split_lines(s.take(i as int)).push(Seq::empty()));
                        lemma_parse_lines_error_prefix(split_lines(s), done@.push(line@), false, s, i as int);
                    }
                    return Err(PdfInfoError::InvalidLine { line: e });
                },
            }
            assert(s.subrange(i + 1, i + 1) =~= Seq::<char>::empty());
            done = Ghost(done@.push(line@));
            start = i + 1;
        } else {
            proof {
                lemma_split_lines_nonempty(s.take(i as int));
                assert(s.subrange(start as int, i + 1) =~= s.subrange(start as int, i as int).push(
                    s[i as int],
                ));
            }
        }
        i += 1;
    }
    assert(s.take(i as int) =~= s);
    let line = &chars.as_slice()[start..i];
    match read_line(&mut entries, done, line) {
        Ok(()) => Ok(entries),
        Err(e) => Err(PdfInfoError::InvalidLine { line: e }),
    }
}

/// A failure at the last of a prefix of lines is the failure of all lines.
proof fn lemma_parse_lines_error_prefix(
    all: Seq<Seq<char>>,
    prefix: Seq<Seq<char>>,
    at_end: bool,
    s: Seq<char>,
    i: int,
)
    requires
        parse_lines(prefix) is Err,
        at_end ==> all == prefix,
        !at_end ==> 0 <= i < s.len() && s[i] == '\n' && all == split_lines(s) && split_lines(
            s.take(i + 1),
        ) == prefix.push(Seq::empty()),
    ensures
        parse_lines(all) == parse_lines(prefix),
{
    if !at_end {
        lemma_split_lines_extends(s, i + 1);
        let p = split_lines(s.take(i + 1));
        assert(p.len() == prefix.len() + 1);
        assert forall|j: int| 0 <= j < prefix.len() implies all[j] == prefix[j] by {
            assert(p[j] == prefix[j]);
        }
        lemma_parse_lines_err_extends(prefix, all);
    }
}

proof fn lemma_split_lines_extends(s: Seq<char>, n: int)
    requires
        0 <= n <= s.len(),
    ensures
        split_lines(s).len() >= split_lines(s.take(n)).len(),
        forall|j: int|
            0 <= j < split_lines(s.take(n)).len() - 1 ==> split_lines(s)[j] == #[trigger] split_lines(
                s.take(n),
            )[j],
    decreases s.len() - n,
{
    if n < s.len() {
        lemma_split_lines_extends(s, n + 1);
        let t = s.take(n + 1);
        assert(t.drop_last() =~= s.take(n));
        assert(t.last() == s[n]);
        lemma_split_lines_nonempty(s.take(n));
        let p = split_lines(s.take(n));
        let q = split_lines(t);
        assert(q.len() >= p.len());
        assert forall|j: int| 0 <= j < p.len() - 1 implies split_lines(s)[j] == #[trigger] p[j] by {
            assert(q[j] == p[j]);
            assert(split_lines(s)[j] == q[j]);
        }
    } else {
        assert(s.take(n) =~= s);
    }
}

proof fn lemma_parse_lines_err_extends(prefix: Seq<Seq<char>>, all: Seq<Seq<char>>)
    requires
        parse_lines(prefix) is Err,
        prefix.len() <= all.len(),
        forall|j: int| 0 <= j < prefix.len() ==> all[j] == prefix[j],
    ensures
        parse_lines(all) == parse_lines(prefix),
    decreases all.len(),
{
    if all.len() > prefix.len() {
        assert forall|j: int| 0 <= j < prefix.len() implies all.drop_last()[j] == prefix[j] by {}
        lemma_parse_lines_err_extends(prefix, all.drop_last());
    } else {
        assert(all =~= prefix);
    }
}

impl PdfInfo {
    /// The number of pages.
    pub fn page_count(&self) -> (r: u32)
        ensures
            r == self.page_count_spec(),
    {
        self.page_count
    }

    pub closed spec fn page_count_spec(&self) -> u32 {
        self.page_count
    }
}

/// Reads the page count from a summary: the value of its last `Pages` entry.
pub fn pdf_info_from_output(text: &str) -> (r: Result<PdfInfo, PdfInfoError>)
    ensures
        match r {
            Ok(info) => exists|entries: Seq<(Seq<char>, Seq<char>)>|
                parse_lines(split_lines(text@)) == Ok::<Seq<(Seq<char>, Seq<char>)>, Seq<char>>(
                    entries,
                ) && #[trigger] lookup_last(entries, pages_key()) is Some && parse_u32_spec(
                    lookup_last(entries, pages_key())->0,
                ) == Some(info.page_count_spec()),
            Err(PdfInfoError::InvalidLine { line }) => parse_lines(split_lines(text@)) == Err::<
                Seq<(Seq<char>, Seq<char>)>,
                Seq<char>,
            >(line@),
            Err(PdfInfoError::MissingPageCount) => exists|entries: Seq<(Seq<char>, Seq<char>)>|
                parse_lines(split_lines(text@)) == Ok::<Seq<(Seq<char>, Seq<char>)>, Seq<char>>(
                    entries,
                ) && #[trigger] lookup_last(entries, pages_key()) is None,
            Err(PdfInfoError::InvalidPageCount { value }) => exists|
                entries: Seq<(Seq<char>, Seq<char>)>,
            |
                parse_lines(split_lines(text@)) == Ok::<Seq<(Seq<char>, Seq<char>)>, Seq<char>>(
                    entries,
                ) && #[trigger] lookup_last(entries, pages_key()) == Some(value@) && parse_u32_spec(
                    value@,
                ) is None,
        },
{
    let parsed = parse_pdf_info(text);
    let entries = match parsed {
        Ok(entries) => entries,
        Err(e) => {
            return Err(e);
        },
    };
    let ghost es = entries_view(entries@);
    assert(parse_lines(split_lines(text@)) == Ok::<Seq<(Seq<char>, Seq<char>)>, Seq<char>>(es));
    let key = ['P', 'a', 'g', 'e', 's'];
    assert(key@ =~= pages_key());
    let mut j: usize = entries.len();
    assert(es.take(j as int) =~= es);
    while j > 0
        invariant
            j <= entries.len(),
            es == entries_view(entries@),
            parse_lines(split_lines(text@)) == Ok::<Seq<(Seq<char>, Seq<char>)>, Seq<char>>(es),
            key@ == pages_key(),
            lookup_last(es, pages_key()) == lookup_last(es.take(j as int), pages_key()),
        decreases j,
    {
        let ghost t = es.take(j as int);
        assert(t.drop_last() =~= es.take(j - 1));
        if crate::text::slice_eq(entries[j - 1].0.as_slice(), &key) {
            assert(t.last() == es[j - 1]);
            let value = &entries[j - 1].1;
            assert(lookup_last(es, pages_key()) == Some(value@));
            return match crate::rasterizer::parse_u32(value.as_slice()) {
                Some(n) => {
                    let info = PdfInfo { page_count: n };
                    assert(parse_u32_spec(lookup_last(es, pages_key())->0) == Some(
                        info.page_count_spec(),
                    ));
                    assert(lookup_last(es, pages_key()) is Some);
                    Ok(info)
                },
                None => {
                    let mut copy: Vec<char> = Vec::new();
                    let mut i: usize = 0;
                    while i < value.len()
                        invariant
                            0 <= i <= value.len(),
                            copy@ == value@.take(i as int),
                        decreases value.len() - i,
                    {
                        copy.push(value[i]);
                        assert(copy@ =~= value@.take(i + 1));
                        i += 1;
                    }
                    assert(value@.take(value.len() as int) =~= value@);
                    Err(PdfInfoError::InvalidPageCount { value: copy })
                },
            };
        }
        j -= 1;
    }
    assert(es.take(0) =~= Seq::<(Seq<char>, Seq<char>)>::empty());
    Err(PdfInfoError::MissingPageCount)
}

} // verus!

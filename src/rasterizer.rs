//! The command line of the page rasterizer and the reading of what it wrote.
//!
//! The rasterizer runs as an outside process; this module decides its
//! arguments, how many pages it is expected to write, which page each written
//! file holds, and when its progress is worth reporting.
use vstd::prelude::*;
use crate::temp_paths::{decimal, decimal_string};

verus! {

/// The image format of the written pages.
#[derive(Clone, Copy, Debug, PartialEq, Eq, Structural)]
pub enum Format {
    Png,
    Jpeg,
    Pdf,
    Svg,
    Eps,
}

/// The colours of the written pages.
#[derive(Clone, Copy, Debug, PartialEq, Eq, Structural)]
pub enum Color {
    Color,
    Mono,
    Gray,
}

/// Which pages are written, by parity.
#[derive(Clone, Copy, Debug, PartialEq, Eq, Structural)]
pub enum Pages {
    All,
    Odd,
    Even,
}

/// How to rasterize a document.
#[derive(Clone, Copy, Debug, PartialEq, Eq, Structural)]
pub struct Options {
    pub format: Format,
    pub color: Color,
    pub pages: Pages,
    /// One based.
    pub first_page: Option<u32>,
    /// One based.
    pub last_page: Option<u32>,
}

/// A written page image: its page number and where it is.
pub struct Page {
    pub index: u32,
    pub image_path: String,
}

/// The rasterizer's progress: pages written so far, out of how many.
#[derive(Clone, Copy, Debug, PartialEq, Eq, Structural)]
pub struct ProgressInfo {
    pub total_pages: u32,
    pub processed_pages: u32,
}

/// The command-line words that select a format.
pub open spec fn format_args(f: Format) -> Seq<Seq<char>> {
    match f {
        Format::Png => seq!["-png"@],
        Format::Jpeg => seq!["-jpeg"@],
        Format::Pdf => seq!["-pdf"@],
        Format::Svg => seq!["-svg"@],
        Format::Eps => seq!["-eps"@],
    }
}

/// The command-line words that select the colours.
pub open spec fn color_args(c: Color) -> Seq<Seq<char>> {
    match c {
        Color::Color => Seq::empty(),
        Color::Mono => seq!["-mono"@],
        Color::Gray => seq!["-gray"@],
    }
}

/// The command-line words that select pages by parity.
pub open spec fn pages_args(p: Pages) -> Seq<Seq<char>> {
    match p {
        Pages::All => Seq::empty(),
        Pages::Odd => seq!["-o"@],
        Pages::Even => seq!["-e"@],
    }
}

/// The views of a list of strings.
pub open spec fn words_view(v: Seq<String>) -> Seq<Seq<char>> {
    v.map_values(|s: String| s@)
}

impl Format {
    pub fn to_args(&self) -> (r: Vec<String>)
        ensures
            words_view(r@) == format_args(*self),
    {
        let mut r: Vec<String> = Vec::new();
        match self {
            Format::Png => r.push("-png".to_owned()),
            Format::Jpeg => r.push("-jpeg".to_owned()),
            Format::Pdf => r.push("-pdf".to_owned()),
            Format::Svg => r.push("-svg".to_owned()),
            Format::Eps => r.push("-eps".to_owned()),
        }
        assert(words_view(r@) =~= format_args(*self));
        r
    }
}

impl Color {
    pub fn to_args(&self) -> (r: Vec<String>)
        ensures
            words_view(r@) == color_args(*self),
    {
        let mut r: Vec<String> = Vec::new();
        match self {
            Color::Color => {},
            Color::Mono => r.push("-mono".to_owned()),
            Color::Gray => r.push("-gray".to_owned()),
        }
        assert(words_view(r@) =~= color_args(*self));
        r
    }
}

impl Pages {
    pub fn to_args(&self) -> (r: Vec<String>)
        ensures
            words_view(r@) == pages_args(*self),
    {
        let mut r: Vec<String> = Vec::new();
        match self {
            Pages::All => {},
            Pages::Odd => r.push("-o".to_owned()),
            Pages::Even => r.push("-e".to_owned()),
        }
        assert(words_view(r@) =~= pages_args(*self));
        r
    }
}

/// Whether page `i` (1-based) of a document of `n` pages is written. The parity
/// filter drops the pages of the named parity's opposite as the rasterizer's
/// numbering has it: `Odd` drops odd numbers and `Even` drops even ones.
pub open spec fn is_exported(o: Options, n: u32, i: int) -> bool {
    let first = match o.first_page {
        Some(f) => f as int,
        None => 1,
    };
    let last = match o.last_page {
        Some(l) => l as int,
        None => n as int,
    };
    &&& match o.pages {
        Pages::All => true,
        Pages::Odd => i % 2 != 1,
        Pages::Even => i % 2 != 0,
    }
    &&& first <= i
    &&& i <= last
}

/// How many of the pages 1 to `k` are written.
pub open spec fn exported_upto(o: Options, n: u32, k: int) -> int
    decreases k,
{
    if k <= 0 {
        0
    } else {
        exported_upto(o, n, k - 1) + if is_exported(o, n, k) {
            1int
        } else {
            0int
        }
    }
}

proof fn lemma_exported_upto_bounds(o: Options, n: u32, k: int)
    ensures
        0 <= exported_upto(o, n, k) <= if k < 0 {
            0
        } else {
            k
        },
    decreases k,
{
    if k > 0 {
        lemma_exported_upto_bounds(o, n, k - 1);
    }
}

impl Options {
    /// How many pages of a document of `pdf_page_count` pages are written.
    pub fn exported_page_count(&self, pdf_page_count: u32) -> (r: u32)
        ensures
            r == exported_upto(*self, pdf_page_count, pdf_page_count as int),
    {
        let first_page: u32 = match self.first_page {
            Some(f) => f,
            None => 1,
        };
        let last_page: u32 = match self.last_page {
            Some(l) => l,
            None => pdf_page_count,
        };
        let mut count: u32 = 0;
        let mut i: u32 = 1;
        while i <= pdf_page_count
            invariant
                1 <= i <= pdf_page_count as int + 1,
                count == exported_upto(*self, pdf_page_count, i - 1),
                first_page == match self.first_page {
                    Some(f) => f as int,
                    None => 1,
                },
                last_page == match self.last_page {
                    Some(l) => l as int,
                    None => pdf_page_count as int,
                },
            decreases pdf_page_count as int + 1 - i,
        {
            proof {
                lemma_exported_upto_bounds(*self, pdf_page_count, i - 1);
            }
            let parity_ok = match self.pages {
                Pages::All => true,
                Pages::Odd => i % 2 != 1,
                Pages::Even => i % 2 != 0,
            };
            if parity_ok && first_page <= i && i <= last_page {
                count += 1;
            }
            if i == u32::MAX {
                return count;
            }
            i += 1;
        }
        count
    }
}

/// The default: every page, in colour, as PNG.
impl Default for Options {
    fn default() -> (r: Options)
        ensures
            r.format == Format::Png,
            r.color == Color::Color,
            r.pages == Pages::All,
            r.first_page is None,
            r.last_page is None,
    {
        Options {
            format: Format::Png,
            color: Color::Color,
            pages: Pages::All,
            first_page: None,
            last_page: None,
        }
    }
}

/// The arguments of the rasterizer: the document, the prefix of the written
/// files, then the colour, format and parity words, then the page range.
pub open spec fn rasterizer_args(pdf: Seq<char>, prefix: Seq<char>, o: Options) -> Seq<Seq<char>> {
    seq![pdf, prefix] + color_args(o.color) + format_args(o.format) + pages_args(o.pages) + match o.first_page {
        Some(f) => seq!["-f"@, decimal(f as nat)],
        None => Seq::empty(),
    } + match o.last_page {
        Some(l) => seq!["-l"@, decimal(l as nat)],
        None => Seq::empty(),
    }
}

fn append_words(r: &mut Vec<String>, words: Vec<String>)
    ensures
        words_view(final(r)@) == words_view(old(r)@) + words_view(words@),
{
    let mut words = words;
    let ghost before = r@;
    let ghost added = words@;
    r.append(&mut words);
    assert(words_view(r@) =~= words_view(before) + words_view(added));
}

/// The command-line arguments that rasterize `pdf` into files named after `prefix`.
pub fn rasterizer_arguments(pdf: &str, prefix: &str, options: &Options) -> (r: Vec<String>)
    ensures
        words_view(r@) == rasterizer_args(pdf@, prefix@, *options),
{
    let mut r: Vec<String> = Vec::new();
    r.push(pdf.to_owned());
    r.push(prefix.to_owned());
    assert(words_view(r@) =~= seq![pdf@, prefix@]);
    append_words(&mut r, options.color.to_args());
    append_words(&mut r, options.format.to_args());
    append_words(&mut r, options.pages.to_args());
    let mut range: Vec<String> = Vec::new();
    match options.first_page {
        Some(f) => {
            range.push("-f".to_owned());
            range.push(decimal_string(f as u128));
        },
        None => {},
    }
    assert(words_view(range@) =~= match options.first_page {
        Some(f) => seq!["-f"@, decimal(f as nat)],
        None => Seq::empty(),
    });
    append_words(&mut r, range);
    let mut range: Vec<String> = Vec::new();
    match options.last_page {
        Some(l) => {
            range.push("-l".to_owned());
            range.push(decimal_string(l as u128));
        },
        None => {},
    }
    assert(words_view(range@) =~= match options.last_page {
        Some(l) => seq!["-l"@, decimal(l as nat)],
        None => Seq::empty(),
    });
    append_words(&mut r, range);
    r
}

/// The value of a character that is a decimal digit.
pub open spec fn digit_value(c: char) -> int {
    c as int - '0' as int
}

/// Whether `c` is a decimal digit.
pub open spec fn is_digit(c: char) -> bool {
    '0' <= c && c <= '9'
}

/// The number that the decimal digits `s` write.
pub open spec fn digits_value(s: Seq<char>) -> int
    decreases s.len(),
{
    if s.len() == 0 {
        0
    } else {
        digits_value(s.drop_last()) * 10 + digit_value(s.last())
    }
}

/// The unsigned 32-bit number written by `s`: one or more decimal digits whose
/// value fits; none otherwise.
pub open spec fn parse_u32_spec(s: Seq<char>) -> Option<u32> {
    if s.len() > 0 && (forall|i: int| 0 <= i < s.len() ==> is_digit(#[trigger] s[i]))
        && digits_value(s) <= u32::MAX {
        Some(digits_value(s) as u32)
    } else {
        None
    }
}

proof fn lemma_digits_value_monotone(s: Seq<char>)
    requires
        forall|i: int| 0 <= i < s.len() ==> is_digit(#[trigger] s[i]),
        s.len() > 0,
    ensures
        digits_value(s) >= digits_value(s.drop_last()) * 10,
        digits_value(s.drop_last()) >= 0,
    decreases s.len(),
{
    if s.len() > 1 {
        let d = s.drop_last();
        assert forall|i: int| 0 <= i < d.len() implies is_digit(#[trigger] d[i]) by {
            assert(d[i] == s[i]);
        }
        lemma_digits_value_monotone(d);
    }
    assert(is_digit(s[s.len() - 1]));
}

/// Reads an unsigned 32-bit number written in decimal digits.
pub fn parse_u32(s: &[char]) -> (r: Option<u32>)
    ensures
        r == parse_u32_spec(s@),
{
    if s.len() == 0 {
        return None;
    }
    let mut value: u64 = 0;
    let mut i: usize = 0;
    while i < s.len()
        invariant
            0 <= i <= s.len(),
            forall|k: int| 0 <= k < i ==> is_digit(#[trigger] s@[k]),
            value == digits_value(s@.take(i as int)),
            value <= u32::MAX,
        decreases s.len() - i,
    {
        let c = s[i];
        proof {
            assert(s@.take(i + 1).drop_last() =~= s@.take(i as int));
        }
        if !('0' <= c && c <= '9') {
            assert(!is_digit(s@[i as int]));
            return None;
        }
        let d = (c as u32 - '0' as u32) as u64;
        let next = value * 10 + d;
        if next > u32::MAX as u64 {
            proof {
                // Every longer prefix of digits only grows.
                assert forall|k: int| 0 <= k < i + 1 implies is_digit(#[trigger] s@.take(i + 1)[k]) by {
                    assert(s@.take(i + 1)[k] == s@[k]);
                }
                lemma_value_exceeds(s@, i + 1);
            }
            return None;
        }
        value = next;
        i += 1;
    }
    assert(s@.take(s.len() as int) =~= s@);
    Some(value as u32)
}

proof fn lemma_value_exceeds(s: Seq<char>, n: int)
    requires
        0 < n <= s.len(),
        forall|k: int| 0 <= k < n ==> is_digit(#[trigger] s[k]),
        digits_value(s.take(n)) > u32::MAX,
    ensures
        parse_u32_spec(s) is None,
    decreases s.len() - n,
{
    if n < s.len() {
        if is_digit(s[n]) {
            let t = s.take(n + 1);
            assert(t.drop_last() =~= s.take(n));
            assert forall|k: int| 0 <= k < n + 1 implies is_digit(#[trigger] s[k]) by {}
            assert forall|k: int| 0 <= k < t.len() implies is_digit(#[trigger] t[k]) by {
                assert(t[k] == s[k]);
            }
            lemma_digits_value_monotone(t);
            lemma_value_exceeds(s, n + 1);
        } else {
            assert(!is_digit(s[n]));
        }
    } else {
        assert(s.take(n) =~= s);
    }
}

/// The page number in the name of a written file (`p-01.png` holds page 1):
/// the digits after the two-character prefix, up to the first dot.
pub open spec fn page_number_of(name: Seq<char>) -> Option<u32> {
    let stem = stem_of(name);
    if stem.len() < 2 {
        None
    } else {
        parse_u32_spec(stem.subrange(2, stem.len() as int))
    }
}

/// The part of a file name before its first dot.
pub open spec fn stem_of(name: Seq<char>) -> Seq<char>
    decreases name.len(),
{
    if name.len() == 0 {
        name
    } else if stem_of(name.drop_last()).len() < name.len() - 1 {
        stem_of(name.drop_last())
    } else if name.last() == '.' {
        name.drop_last()
    } else {
        name
    }
}

proof fn lemma_stem_prefix(name: Seq<char>)
    ensures
        stem_of(name).len() <= name.len(),
        stem_of(name) == name.take(stem_of(name).len() as int),
        forall|k: int| 0 <= k < stem_of(name).len() ==> name[k] != '.',
        stem_of(name).len() < name.len() ==> name[stem_of(name).len() as int] == '.',
    decreases name.len(),
{
    if name.len() > 0 {
        let d = name.drop_last();
        lemma_stem_prefix(d);
        if stem_of(d).len() < d.len() {
            assert(d[stem_of(d).len() as int] == name[stem_of(d).len() as int]);
            assert forall|k: int| 0 <= k < stem_of(d).len() implies name[k] != '.' by {
                assert(d[k] == name[k]);
            }
            assert(name.take(stem_of(d).len() as int) =~= d.take(stem_of(d).len() as int));
        } else {
            assert(stem_of(d) =~= d);
            assert forall|k: int| 0 <= k < d.len() implies name[k] != '.' by {
                assert(d[k] == name[k]);
            }
            assert(name.take(d.len() as int) =~= d);
            assert(name.take(name.len() as int) =~= name);
        }
    } else {
        assert(name.take(0) =~= name);
    }
}

/// Reads the page number from the name of a written file.
pub fn page_number_from_file_name(name: &str) -> (r: Option<u32>)
    ensures
        r == page_number_of(name@),
{
    let chars = crate::text::chars_of(name);
    let mut end: usize = 0;
    while end < chars.len() && chars[end] != '.'
        invariant
            0 <= end <= chars.len(),
            chars@ == name@,
            forall|k: int| 0 <= k < end ==> chars@[k] != '.',
        decreases chars.len() - end,
    {
        end += 1;
    }
    proof {
        lemma_stem_prefix(name@);
        let s = stem_of(name@);
        if s.len() < end {
            assert(name@[s.len() as int] == '.');
        }
        if s.len() > end {
            assert(name@[end as int] != '.');
        }
        assert(s.len() == end);
    }
    if end < 2 {
        return None;
    }
    let digits = &chars.as_slice()[2..end];
    assert(digits@ =~= stem_of(name@).subrange(2, end as int));
    parse_u32(digits)
}

/// Sorted by ascending page number.
pub open spec fn is_index_sorted(s: Seq<Page>) -> bool {
    forall|i: int, j: int| 0 <= i < j < s.len() ==> s[i].index <= s[j].index
}

/// Inserts `p` after every page whose number is not greater.
pub open spec fn insert_by_index(s: Seq<Page>, p: Page) -> Seq<Page>
    decreases s.len(),
{
    if s.len() == 0 {
        seq![p]
    } else if s.last().index <= p.index {
        s.push(p)
    } else {
        insert_by_index(s.drop_last(), p).push(s.last())
    }
}

/// The stable sort of pages by page number.
pub open spec fn sort_by_index(s: Seq<Page>) -> Seq<Page>
    decreases s.len(),
{
    if s.len() == 0 {
        s
    } else {
        insert_by_index(sort_by_index(s.drop_last()), s.last())
    }
}

proof fn lemma_insert_by_index_sorted(s: Seq<Page>, p: Page)
    requires
        is_index_sorted(s),
    ensures
        is_index_sorted(insert_by_index(s, p)),
        forall|x: Page| #[trigger] insert_by_index(s, p).contains(x) ==> s.contains(x) || x == p,
    decreases s.len(),
{
    if s.len() > 0 && s.last().index > p.index {
        let d = s.drop_last();
        lemma_insert_by_index_sorted(d, p);
        let t = insert_by_index(d, p);
        let r = t.push(s.last());
        assert forall|x: Page| #[trigger] r.contains(x) implies s.contains(x) || x == p by {
            let k = choose|k: int| 0 <= k < r.len() && r[k] == x;
            if k < t.len() {
                assert(t.contains(x));
                if d.contains(x) {
                    let j = choose|j: int| 0 <= j < d.len() && d[j] == x;
                    assert(s[j] == x);
                }
            } else {
                assert(s[s.len() - 1] == x);
            }
        }
        assert forall|i: int, j: int| 0 <= i < j < r.len() implies r[i].index <= r[j].index by {
            if j == r.len() - 1 && i < t.len() {
                assert(t.contains(t[i]));
                if d.contains(t[i]) {
                    let k = choose|k: int| 0 <= k < d.len() && d[k] == t[i];
                    assert(s[k] == t[i]);
                }
            }
        }
    } else if s.len() > 0 {
        let r = s.push(p);
        assert forall|x: Page| #[trigger] r.contains(x) implies s.contains(x) || x == p by {
            let k = choose|k: int| 0 <= k < r.len() && r[k] == x;
            if k < s.len() {
                assert(s[k] == x);
            }
        }
    } else {
        assert forall|x: Page| #[trigger] insert_by_index(s, p).contains(x) implies s.contains(x)
            || x == p by {
            assert(insert_by_index(s, p)[0] == p);
        }
    }
}

proof fn lemma_sort_by_index_sorted(s: Seq<Page>)
    ensures
        is_index_sorted(sort_by_index(s)),
    decreases s.len(),
{
    if s.len() > 0 {
        lemma_sort_by_index_sorted(s.drop_last());
        lemma_insert_by_index_sorted(sort_by_index(s.drop_last()), s.last());
    }
}

proof fn lemma_insert_by_index_at(s: Seq<Page>, p: Page, k: int)
    requires
        is_index_sorted(s),
        0 <= k <= s.len(),
        forall|j: int| 0 <= j < k ==> s[j].index <= p.index,
        k < s.len() ==> s[k].index > p.index,
    ensures
        insert_by_index(s, p) == s.insert(k, p),
    decreases s.len(),
{
    if s.len() == 0 {
        assert(s.insert(k, p) =~= seq![p]);
    } else if s.last().index <= p.index {
        assert(k == s.len());
        assert(s.insert(k, p) =~= s.push(p));
    } else {
        let d = s.drop_last();
        lemma_insert_by_index_at(d, p, k);
        assert(s.insert(k, p) =~= d.insert(k, p).push(s.last()));
    }
}

/// Sorts written pages by page number; pages with equal numbers keep their order.
pub fn sort_pages(pages: Vec<Page>) -> (r: Vec<Page>)
    ensures
        r@ == sort_by_index(pages@),
{
    let ghost all = pages@;
    let mut rest = pages;
    let mut r: Vec<Page> = Vec::new();
    // Take the pages from the back, so that each is moved out once.
    let mut reversed: Vec<Page> = Vec::new();
    while rest.len() > 0
        invariant
            reversed@.len() + rest@.len() == all.len(),
            rest@ == all.take(rest@.len() as int),
            forall|k: int| 0 <= k < reversed@.len() ==> reversed@[k] == all[all.len() - 1 - k],
        decreases rest.len(),
    {
        let p = rest.pop().unwrap();
        reversed.push(p);
    }
    let mut i: usize = 0;
    let n = reversed.len();
    while reversed.len() > 0
        invariant
            reversed@.len() + i == n,
            n == all.len(),
            forall|k: int| 0 <= k < reversed@.len() ==> reversed@[k] == all[all.len() - 1 - k],
            r@ == sort_by_index(all.take(i as int)),
        decreases reversed.len(),
    {
        let p = reversed.pop().unwrap();
        assert(p == all[i as int]);
        proof {
            lemma_sort_by_index_sorted(all.take(i as int));
        }
        let mut k: usize = 0;
        while k < r.len() && r[k].index <= p.index
            invariant
                k <= r.len(),
                forall|j: int| 0 <= j < k ==> r@[j].index <= p.index,
            decreases r.len() - k,
        {
            k += 1;
        }
        proof {
            lemma_insert_by_index_at(r@, p, k as int);
            assert(all.take(i + 1).drop_last() =~= all.take(i as int));
        }
        r.insert(k, p);
        i += 1;
    }
    assert(all.take(n as int) =~= all);
    r
}

/// The rasterizer's progress as last reported.
pub struct ProgressTracker {
    pub last: ProgressInfo,
}

impl ProgressTracker {
    pub fn new() -> (r: ProgressTracker)
        ensures
            r.last == (ProgressInfo { total_pages: 0, processed_pages: 0 }),
    {
        ProgressTracker { last: ProgressInfo { total_pages: 0, processed_pages: 0 } }
    }

    /// Takes a new count of written pages: returns the progress to report when it
    /// differs from the last one reported, and remembers it.
    pub fn observe(&mut self, total_pages: u32, processed_pages: u32) -> (r: Option<ProgressInfo>)
        ensures
            final(self).last == (ProgressInfo { total_pages, processed_pages }),
            r == (if old(self).last == (ProgressInfo { total_pages, processed_pages }) {
                None
            } else {
                Some(ProgressInfo { total_pages, processed_pages })
            }),
    {
        let new = ProgressInfo { total_pages, processed_pages };
        if new == self.last {
            None
        } else {
            self.last = new;
            Some(new)
        }
    }
}

} // verus!

use vstd::prelude::*;

pub mod errors;
pub mod split;

pub use errors::AocError;
use split::{lines_of, split_lines, split_on, split_pattern, split_words, texts, words_of};

verus! {

/// The resolved half-open, zero-based range `[s, e)` of records selected by
/// the one-based inclusive line numbers `start` and `end`, or `None` when the
/// request is out of bounds.  A missing `start` means the first line, a
/// missing `end` the last one.
pub open spec fn range_of(start: Option<u32>, end: Option<u32>, count: nat) -> Option<(int, int)> {
    let start_ok = match start {
        Some(a) => 1 <= a && a <= count,
        None => true,
    };
    let end_ok = match end {
        Some(b) => 1 <= b && b <= count,
        None => true,
    };
    let ordered = match (start, end) {
        (Some(a), Some(b)) => a <= b,
        _ => true,
    };
    if start_ok && end_ok && ordered {
        let s: int = match start {
            Some(a) => a - 1,
            None => 0,
        };
        let e: int = match end {
            Some(b) => b as int,
            None => count as int,
        };
        Some((s, e))
    } else {
        None
    }
}

/// Lines `a` through `b`, with `1 <= a <= b <= count`, select `b - a + 1`
/// records, starting at the zero-based index `a - 1`.
pub proof fn lemma_range_length(a: u32, b: u32, count: nat)
    requires
        1 <= a <= b <= count,
    ensures
        range_of(Some(a), Some(b), count) matches Some((s, e)) && s == a - 1 && e - s == b - a + 1,
{
}

/// A line number outside `1..=count`, or a start after the end, is out of
/// bounds.
pub proof fn lemma_out_of_range(start: Option<u32>, end: Option<u32>, count: nat)
    requires
        (start matches Some(a) && (a < 1 || a > count))
            || (end matches Some(b) && (b < 1 || b > count))
            || (start matches Some(a) && end matches Some(b) && a > b),
    ensures
        range_of(start, end, count) is None,
{
}

/// Resolves one-based inclusive line numbers into a zero-based half-open
/// range over `count` records.
pub fn resolve_range(start: Option<u32>, end: Option<u32>, count: usize) -> (r: Result<(usize, usize), AocError>)
    ensures
        match range_of(start, end, count as nat) {
            Some((s, e)) => r matches Ok((rs, re)) && rs == s && re == e,
            None => r matches Err(AocError::OutOfBounds),
        },
{
    let s: usize = match start {
        Some(a) => {
            if a < 1 || a as usize > count {
                return Err(AocError::OutOfBounds);
            }
            (a - 1) as usize
        },
        None => 0,
    };
    let e: usize = match end {
        Some(b) => {
            if b < 1 || b as usize > count {
                return Err(AocError::OutOfBounds);
            }
            b as usize
        },
        None => count,
    };
    if let (Some(a), Some(b)) = (start, end) {
        if a > b {
            return Err(AocError::OutOfBounds);
        }
    }
    Ok((s, e))
}

/// How the text of an input is cut into records.
#[derive(PartialEq, Eq)]
pub enum Separator {
    /// Cut at each literal occurrence of the text, keeping empty pieces.
    Str(&'static str),
    /// Cut at runs of white space, dropping empty pieces.
    Whitespace,
    /// Cut at line breaks, with no empty record after a final one.
    Newline,
}

/// The records that `separator` cuts `text` into.
pub open spec fn records_of(text: Seq<char>, separator: Separator) -> Seq<Seq<char>> {
    match separator {
        Separator::Str(p) => split_on(text, p@),
        Separator::Whitespace => words_of(text),
        Separator::Newline => lines_of(text),
    }
}

/// An input held in memory: its text as read and the records cut from it.
pub struct AocParser {
    /// The text as it was read.
    pub original: String,
    /// The records, in the order in which they appear in the text.
    pub data: Vec<String>,
    /// The number of records.
    pub size: usize,
}

impl AocParser {
    /// The store is well formed when `size` counts the records.
    pub open spec fn wf(&self) -> bool {
        self.size == self.data@.len()
    }

    /// The records as texts.
    pub open spec fn records(&self) -> Seq<Seq<char>> {
        texts(self.data@)
    }

    /// Cuts `contents` into records with `separator` and keeps both.
    pub fn from_text(contents: String, separator: Separator) -> (r: AocParser)
        ensures
            r.wf(),
            r.original@ == contents@,
            r.records() == records_of(contents@, separator),
    {
        let data = match separator {
            Separator::Newline => split_lines(contents.as_str()),
            Separator::Whitespace => split_words(contents.as_str()),
            Separator::Str(pat) => split_pattern(contents.as_str(), pat),
        };
        let size = data.len();
        AocParser { original: contents, data, size }
    }

    /// The number of records.
    pub fn record_count(&self) -> (r: usize)
        requires
            self.wf(),
        ensures
            r == self.records().len(),
    {
        self.size
    }

    /// Consumes the store and hands out its records.
    pub fn get(self) -> (r: Vec<String>)
        ensures
            r@ == self.data@,
    {
        self.data
    }

    /// Consumes the store and hands out the text as it was read.
    pub fn get_str(self) -> (r: String)
        ensures
            r == self.original,
    {
        self.original
    }
    /// The records at one-based lines `start` through `end`, both inclusive;
    /// a missing `start` means the first line, a missing `end` the last one.
    pub fn slice_records(&self, start: Option<u32>, end: Option<u32>) -> (r: Result<Vec<String>, AocError>)
        requires
            self.wf(),
        ensures
            match range_of(start, end, self.records().len()) {
                Some((s, e)) => r matches Ok(v) && texts(v@) == self.records().subrange(s, e),
                None => r matches Err(AocError::OutOfBounds),
            },
    {
        let (s, e) = match resolve_range(start, end, self.size) {
            Ok(range) => range,
            Err(err) => return Err(err),
        };
        let mut out: Vec<String> = Vec::new();
        let mut i: usize = s;
        while i < e
            invariant
                s <= i <= e <= self.data@.len(),
                texts(out@) == self.records().subrange(s as int, i as int),
            decreases e - i,
        {
            let ghost before = out@;
            let record = self.data[i].clone();
            out.push(record);
            assert(texts(out@) =~= texts(before).push(self.data@[i as int]@));
            assert(texts(out@) =~= self.records().subrange(s as int, i + 1));
            i = i + 1;
        }
        Ok(out)
    }

    /// Parses the records at one-based lines `start` through `end`, both
    /// inclusive, as values of `T`, in order, stopping at the first record
    /// that does not parse; a missing `start` means the first line, a missing
    /// `end` the last one.  The range is checked before anything is parsed,
    /// and an empty range gives an empty vector.
    pub fn slice_as_type<T: core::str::FromStr>(&self, line_start: Option<u32>, line_end: Option<u32>) -> (r: Result<Vec<T>, AocError>)
        requires
            self.wf(),
        ensures
            match range_of(line_start, line_end, self.records().len()) {
                Some((s, e)) => match r {
                    Ok(v) => v@.len() == e - s,
                    Err(err) => err is ParseToTypeFailed,
                },
                None => r matches Err(AocError::OutOfBounds),
            },
            (range_of(line_start, line_end, self.records().len()) matches Some((s, e)) && s == e)
                ==> (r matches Ok(v) && v@.len() == 0),
    {
        let records = match self.slice_records(line_start, line_end) {
            Ok(records) => records,
            Err(err) => return Err(err),
        };
        let n = records.len();
        let mut parsed: Vec<Option<T>> = Vec::new();
        let mut failed = false;
        let mut i: usize = 0;
        while i < n && !failed
            invariant
                i <= n == records@.len(),
                i == 0 ==> !failed,
                !failed ==> parsed@.len() == i,
                !failed ==> forall|k: int| 0 <= k < parsed@.len() ==> parsed@[k] is Some,
                failed ==> exists|k: int| 0 <= k < parsed@.len() && parsed@[k] is None,
            decreases n - i,
        {
            let value = parse_record::<T>(records[i].as_str());
            failed = value.is_none();
            parsed.push(value);
            assert(failed ==> parsed@[parsed@.len() - 1] is None);
            i = i + 1;
        }
        proof {
            assert(texts(records@).len() == records@.len());
        }
        collect_parsed(parsed)
    }
}

/// Relies on `str::parse`: `Some` with the value that `T`'s `FromStr` reads
/// from `s`, `None` where it rejects `s`.
#[verifier::external_body]
fn parse_record<T: core::str::FromStr>(s: &str) -> (r: Option<T>) {
    s.parse::<T>().ok()
}

/// Gathers the outcomes of parsing records one by one: all the values, in
/// order, when every record parsed, and the conversion failure otherwise.
pub fn collect_parsed<T>(parsed: Vec<Option<T>>) -> (r: Result<Vec<T>, AocError>)
    ensures
        if forall|k: int| 0 <= k < parsed@.len() ==> parsed@[k] is Some {
            r matches Ok(v) && v@ == parsed@.map_values(|o: Option<T>| o->0)
        } else {
            r matches Err(AocError::ParseToTypeFailed)
        },
{
    let ghost all = parsed@;
    let mut out: Vec<T> = Vec::new();
    for item in it: parsed.into_iter()
        invariant
            it.seq() == all,
            out@ == all.take(it.index() as int).map_values(|o: Option<T>| o->0),
            forall|k: int| 0 <= k < it.index() ==> all[k] is Some,
    {
        match item {
            Some(value) => {
                out.push(value);
                proof {
                    assert(all.take(it.index() + 1) =~= all.take(it.index() as int).push(all[it.index() as int]));
                }
                assert(out@ =~= all.take(it.index() + 1).map_values(|o: Option<T>| o->0));
            },
            None => {
                return Err(AocError::ParseToTypeFailed);
            },
        }
    }
    assert(all.take(all.len() as int) =~= all);
    Ok(out)
}

} // verus!

//! Line search: the lines of a text that contain a query.

use vstd::prelude::*;

verus! {

/// What to search for, where, and how.
pub struct Config {
    pub query: String,
    pub file_path: String,
    pub ignore_case: bool,
}

/// The lines of a text, as `str::lines` yields them.
pub uninterp spec fn text_lines(text: Seq<char>) -> Seq<Seq<char>>;

/// A text without the whitespace at its ends, as `str::trim` gives it.
pub uninterp spec fn trim_text(text: Seq<char>) -> Seq<char>;

/// The lower-case form of a text, as `str::to_lowercase` gives it.
pub uninterp spec fn lowercase_text(text: Seq<char>) -> Seq<char>;

/// `part` occurs in `text` as a run of consecutive characters.
pub open spec fn occurs_in(part: Seq<char>, text: Seq<char>) -> bool {
    exists|i: int|
        0 <= i && i + part.len() <= text.len() && #[trigger] text.subrange(i, i + part.len()) == part
}

/// The texts that a list of string slices holds.
pub open spec fn texts(lines: Seq<&str>) -> Seq<Seq<char>> {
    Seq::new(lines.len(), |i: int| lines[i]@)
}

/// Of `lines`, in order, each one that contains `query`, trimmed.
pub open spec fn matching(lines: Seq<Seq<char>>, query: Seq<char>) -> Seq<Seq<char>>
    decreases lines.len(),
{
    if lines.len() == 0 {
        Seq::empty()
    } else {
        let before = matching(lines.drop_last(), query);
        if occurs_in(query, lines.last()) {
            before.push(trim_text(lines.last()))
        } else {
            before
        }
    }
}

/// Of `lines`, in order, each one whose lower-case form contains `query`,
/// trimmed.
pub open spec fn matching_lowered(lines: Seq<Seq<char>>, query: Seq<char>) -> Seq<Seq<char>>
    decreases lines.len(),
{
    if lines.len() == 0 {
        Seq::empty()
    } else {
        let before = matching_lowered(lines.drop_last(), query);
        if occurs_in(query, lowercase_text(lines.last())) {
            before.push(trim_text(lines.last()))
        } else {
            before
        }
    }
}

/// Collects `str::lines`. The contract only gives the lines their name,
/// `text_lines`.
#[verifier::external_body]
fn lines_of<'a>(text: &'a str) -> (lines: Vec<&'a str>)
    ensures
        texts(lines@) == text_lines(text@),
{
    text.lines().collect()
}

/// Calls `str::contains` with a string pattern: whether the pattern occurs
/// in the text.
#[verifier::external_body]
fn contains_text(text: &str, part: &str) -> (yes: bool)
    ensures
        yes == occurs_in(part@, text@),
{
    text.contains(part)
}

/// Calls `str::trim`. The contract only gives the result its name,
/// `trim_text`.
#[verifier::external_body]
fn trimmed<'a>(text: &'a str) -> (inner: &'a str)
    ensures
        inner@ == trim_text(text@),
{
    text.trim()
}

/// Calls `str::to_lowercase`. The contract only gives the result its name,
/// `lowercase_text`.
#[verifier::external_body]
fn lowered(text: &str) -> (lower: String)
    ensures
        lower@ == lowercase_text(text@),
{
    text.to_lowercase()
}

/// Of `lines`, in order, each one that contains `query`, without the
/// whitespace at its ends.
pub fn select_lines<'a>(query: &str, lines: &Vec<&'a str>) -> (res: Vec<&'a str>)
    ensures
        texts(res@) == matching(texts(lines@), query@),
{
    let mut res: Vec<&'a str> = Vec::new();
    let mut i: usize = 0;
    assert(texts(lines@).subrange(0, 0) =~= Seq::<Seq<char>>::empty());
    assert(texts(res@) =~= Seq::<Seq<char>>::empty());
    while i < lines.len()
        invariant
            i <= lines@.len(),
            texts(res@) == matching(texts(lines@).subrange(0, i as int), query@),
        decreases lines@.len() - i,
    {
        let line = lines[i];
        let ghost before = texts(res@);
        proof {
            let upto = texts(lines@).subrange(0, i + 1);
            assert(upto.drop_last() =~= texts(lines@).subrange(0, i as int));
            assert(upto.last() == line@);
        }
        if contains_text(line, query) {
            res.push(trimmed(line));
            assert(texts(res@) =~= before.push(trim_text(line@)));
        }
        i += 1;
    }
    assert(texts(lines@).subrange(0, i as int) =~= texts(lines@));
    res
}

/// Of `lines`, in order, each one whose lower-case form contains `query`,
/// without the whitespace at its ends.
pub fn select_lines_lowered<'a>(query: &str, lines: &Vec<&'a str>) -> (res: Vec<&'a str>)
    ensures
        texts(res@) == matching_lowered(texts(lines@), query@),
{
    let mut res: Vec<&'a str> = Vec::new();
    let mut i: usize = 0;
    assert(texts(lines@).subrange(0, 0) =~= Seq::<Seq<char>>::empty());
    assert(texts(res@) =~= Seq::<Seq<char>>::empty());
    while i < lines.len()
        invariant
            i <= lines@.len(),
            texts(res@) == matching_lowered(texts(lines@).subrange(0, i as int), query@),
        decreases lines@.len() - i,
    {
        let line = lines[i];
        let ghost before = texts(res@);
        proof {
            let upto = texts(lines@).subrange(0, i + 1);
            assert(upto.drop_last() =~= texts(lines@).subrange(0, i as int));
            assert(upto.last() == line@);
        }
        let lower = lowered(line);
        if contains_text(lower.as_str(), query) {
            res.push(trimmed(line));
            assert(texts(res@) =~= before.push(trim_text(line@)));
        }
        i += 1;
    }
    assert(texts(lines@).subrange(0, i as int) =~= texts(lines@));
    res
}

/// The lines of `contents` that contain `query`, each without the
/// whitespace at its ends, in the order in which they stand.
pub fn search<'a>(query: &str, contents: &'a str) -> (res: Vec<&'a str>)
    ensures
        texts(res@) == matching(text_lines(contents@), query@),
{
    let lines = lines_of(contents);
    select_lines(query, &lines)
}

/// The lines of `content` that contain `query` when letter case is ignored:
/// those whose lower-case form contains the lower-case form of `query`.
pub fn search_insensitive_case<'a>(query: &str, content: &'a str) -> (res: Vec<&'a str>)
    ensures
        texts(res@) == matching_lowered(text_lines(content@), lowercase_text(query@)),
{
    let query = lowered(query);
    let lines = lines_of(content);
    select_lines_lowered(query.as_str(), &lines)
}

impl Config {
    /// Reads the query and the file path from the second and third
    /// argument; fewer than three arguments are refused.
    pub fn new(args: &Vec<String>, ignore_case: bool) -> (r: std::result::Result<
        Config,
        &'static str,
    >)
        ensures
            match r {
                Ok(config) => args@.len() >= 3 && config.query == args@[1] && config.file_path
                    == args@[2] && config.ignore_case == ignore_case,
                Err(text) => args@.len() < 3 && text@ == "命令行参数小于3"@,
            },
    {
        if args.len() < 3 {
            Err("命令行参数小于3")
        } else {
            Ok(Config { query: args[1].clone(), file_path: args[2].clone(), ignore_case })
        }
    }

    /// The lines of `content` that the search of this configuration gives.
    pub fn select<'a>(&self, content: &'a str) -> (res: Vec<&'a str>)
        ensures
            texts(res@) == if self.ignore_case {
                matching_lowered(text_lines(content@), lowercase_text(self.query@))
            } else {
                matching(text_lines(content@), self.query@)
            },
    {
        if self.ignore_case {
            search_insensitive_case(self.query.as_str(), content)
        } else {
            search(self.query.as_str(), content)
        }
    }
}

} // verus!

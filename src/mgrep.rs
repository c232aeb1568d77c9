//! Searching text for the lines that contain a query.

use vstd::prelude::*;
use vstd::std_specs::iter::IteratorSpec;
use vstd::string::*;

verus! {

/// What a search is asked to do: the query, the file to read it from, and
/// whether case matters.
pub struct Config {
    pub query: String,
    pub filename: String,
    pub case_sensitive: bool,
}

impl Config {
    /// Reads a configuration from command-line arguments: the program name, then
    /// the query, then the file name; further arguments are ignored. Fewer than
    /// three arguments are refused.
    pub fn new(args: &[String], case_sensitive: bool) -> (r: Result<Config, &'static str>)
        ensures
            args@.len() < 3 <==> r.is_err(),
            r matches Err(e) ==> e@ == "Not enough arguments"@,
            r matches Ok(c) ==> c.query@ == args@[1]@ && c.filename@ == args@[2]@
                && c.case_sensitive == case_sensitive,
    {
        if args.len() < 3 {
            return Err("Not enough arguments");
        }
        let query = args[1].clone();
        let filename = args[2].clone();
        Ok(Config { query, filename, case_sensitive })
    }
}

/// `pat` occurs in `text` as a contiguous run of characters.
pub open spec fn contains_seq(text: Seq<char>, pat: Seq<char>) -> bool {
    exists|i: int| 0 <= i && i + pat.len() <= text.len() && #[trigger] text.subrange(i, i + pat.len()) == pat
}

/// `line` without one trailing carriage return, if it ends with one.
pub open spec fn without_cr(line: Seq<char>) -> Seq<char> {
    if line.len() > 0 && line.last() == '\r' {
        line.drop_last()
    } else {
        line
    }
}

/// The lines of `s` from position `i` on, where the current line began at
/// `start`. A line ends at `\n`, and a `\r` just before that `\n` belongs to the
/// line ending; the last line needs no `\n`, and nothing after a final `\n`
/// counts as a line.
pub open spec fn lines_from(s: Seq<char>, start: int, i: int) -> Seq<Seq<char>>
    decreases s.len() - i,
{
    if i >= s.len() {
        if start < s.len() {
            seq![s.subrange(start, s.len() as int)]
        } else {
            seq![]
        }
    } else if s[i] == '\n' {
        seq![without_cr(s.subrange(start, i))] + lines_from(s, i + 1, i + 1)
    } else {
        lines_from(s, start, i + 1)
    }
}

/// The lines of `s`.
pub open spec fn lines_of(s: Seq<char>) -> Seq<Seq<char>> {
    lines_from(s, 0, 0)
}

/// The lines of `contents` that contain `query`, in order.
pub open spec fn found(query: Seq<char>, contents: Seq<char>) -> Seq<Seq<char>> {
    lines_of(contents).filter(|l: Seq<char>| contains_seq(l, query))
}

/// The lines of `contents` that contain `query` once both are lower-cased, in
/// order and as they stand in `contents`.
pub open spec fn found_ignoring_case(query: Seq<char>, contents: Seq<char>) -> Seq<Seq<char>> {
    lines_of(contents).filter(|l: Seq<char>| contains_seq(lower_of(l), lower_of(query)))
}

/// What `str::to_lowercase` makes of a string.
pub uninterp spec fn lower_of(s: Seq<char>) -> Seq<char>;

/// Relies on `str::to_lowercase`: the result depends on the characters alone.
#[verifier::external_body]
fn lowercase(s: &str) -> (r: String)
    ensures
        r@ == lower_of(s@),
{
    s.to_lowercase()
}

/// The characters of `s`, one by one.
fn chars_of(s: &str) -> (r: Vec<char>)
    ensures
        r@ == s@,
{
    broadcast use vstd::string::group_string_axioms;

    let mut it = s.chars();
    let mut r: Vec<char> = Vec::new();
    loop
        invariant
            r@ + it.remaining() == s@,
            it.decrease() is Some,
        ensures
            r@ == s@,
        decreases it.decrease()->0,
    {
        match it.next() {
            Some(c) => {
                r.push(c);
            },
            None => {
                proof {
                    assert(r@ + it.remaining() =~= r@);
                }
                break ;
            },
        }
    }
    r
}

/// Whether `pat` occurs in `text`.
fn contains_chars(text: &Vec<char>, pat: &Vec<char>) -> (r: bool)
    ensures
        r == contains_seq(text@, pat@),
{
    let tl = text.len();
    let mut i: usize = 0;
    while i <= tl && pat.len() <= tl - i
        invariant
            tl == text@.len(),
            i <= text@.len() + 1,
            forall|k: int| 0 <= k < i ==> #[trigger] text@.subrange(k, k + pat@.len()) != pat@,
        decreases text@.len() + 1 - i,
    {
        let mut j: usize = 0;
        let mut same = true;
        while same && j < pat.len()
            invariant
                tl == text@.len(),
                i + pat@.len() <= text@.len(),
                j <= pat@.len(),
                forall|m: int| 0 <= m < j ==> text@[i + m] == pat@[m],
                !same ==> j < pat@.len() && text@[i + j] != pat@[j as int],
            decreases pat@.len() - j + if same { 1int } else { 0int },
        {
            if text[i + j] == pat[j] {
                j = j + 1;
            } else {
                same = false;
            }
        }
        if same {
            proof {
                assert(text@.subrange(i as int, i + pat@.len()) =~= pat@);
            }
            return true;
        }
        proof {
            assert(text@.subrange(i as int, i + pat@.len())[j as int] != pat@[j as int]);
        }
        i = i + 1;
    }
    proof {
        assert forall|k: int| 0 <= k && k + pat@.len() <= text@.len() implies #[trigger] text@.subrange(
            k,
            k + pat@.len(),
        ) != pat@ by {
            assert(k < i);
        }
    }
    false
}

/// Whether `query` occurs in `line`.
pub fn contains_query(line: &str, query: &str) -> (r: bool)
    ensures
        r == contains_seq(line@, query@),
{
    let l = chars_of(line);
    let q = chars_of(query);
    contains_chars(&l, &q)
}

/// The lines of `contents`, without their line endings.
pub fn lines<'a>(contents: &'a str) -> (r: Vec<&'a str>)
    ensures
        r@.map_values(|l: &str| l@) == lines_of(contents@),
{
    let c = chars_of(contents);
    let n = c.len();
    let mut r: Vec<&'a str> = Vec::new();
    let mut start: usize = 0;
    let mut i: usize = 0;
    while i < n
        invariant
            n == contents@.len(),
            c@ == contents@,
            start <= i <= n,
            lines_of(contents@) == r@.map_values(|l: &str| l@) + lines_from(
                contents@,
                start as int,
                i as int,
            ),
        decreases n - i,
    {
        if c[i] == '\n' {
            let end = if i > start && c[i - 1] == '\r' {
                i - 1
            } else {
                i
            };
            let line = contents.substring_char(start, end);
            proof {
                assert(line@ =~= without_cr(contents@.subrange(start as int, i as int)));
            }
            let ghost before = r@.map_values(|l: &str| l@);
            r.push(line);
            proof {
                assert(r@.map_values(|l: &str| l@) =~= before.push(line@));
                assert(before + lines_from(contents@, start as int, i as int) =~= r@.map_values(
                    |l: &str| l@,
                ) + lines_from(contents@, i + 1, i + 1));
            }
            start = i + 1;
        }
        i = i + 1;
    }
    if start < n {
        let line = contents.substring_char(start, n);
        let ghost before = r@.map_values(|l: &str| l@);
        r.push(line);
        proof {
            assert(r@.map_values(|l: &str| l@) =~= before + lines_from(
                contents@,
                start as int,
                n as int,
            ));
        }
    } else {
        proof {
            assert(r@.map_values(|l: &str| l@) =~= r@.map_values(|l: &str| l@) + lines_from(
                contents@,
                start as int,
                n as int,
            ));
        }
    }
    r
}

/// Filtering one more element of `s` keeps it exactly when it matches.
proof fn lemma_filter_take_step<A>(s: Seq<A>, k: int, p: spec_fn(A) -> bool)
    requires
        0 <= k < s.len(),
    ensures
        s.take(k + 1).filter(p) == if p(s[k]) {
            s.take(k).filter(p).push(s[k])
        } else {
            s.take(k).filter(p)
        },
{
    reveal(Seq::filter);
    assert(s.take(k + 1).drop_last() =~= s.take(k));
}

/// The lines of `contents` that contain `query`, in order.
pub fn search<'a>(query: &'a str, contents: &'a str) -> (r: Vec<&'a str>)
    ensures
        r@.map_values(|l: &str| l@) == found(query@, contents@),
{
    let ls = lines(contents);
    let q = chars_of(query);
    let ghost all = ls@.map_values(|l: &str| l@);
    let ghost p = |l: Seq<char>| contains_seq(l, query@);
    let mut r: Vec<&'a str> = Vec::new();
    let mut k: usize = 0;
    while k < ls.len()
        invariant
            all == ls@.map_values(|l: &str| l@),
            p == (|l: Seq<char>| contains_seq(l, query@)),
            q@ == query@,
            k <= ls@.len(),
            r@.map_values(|l: &str| l@) == all.take(k as int).filter(p),
        decreases ls@.len() - k,
    {
        let line = ls[k];
        let l = chars_of(line);
        let ghost before = r@.map_values(|l: &str| l@);
        proof {
            lemma_filter_take_step(all, k as int, p);
        }
        if contains_chars(&l, &q) {
            r.push(line);
            proof {
                assert(r@.map_values(|l: &str| l@) =~= before.push(line@));
            }
        }
        k = k + 1;
    }
    proof {
        assert(all.take(k as int) =~= all);
    }
    r
}

/// The lines of `contents` that contain `query` when both are lower-cased, in
/// order and as they stand in `contents`.
pub fn search_case_insensitive<'a>(query: &'a str, contents: &'a str) -> (r: Vec<&'a str>)
    ensures
        r@.map_values(|l: &str| l@) == found_ignoring_case(query@, contents@),
{
    let ls = lines(contents);
    let q = lowercase(query);
    let ghost all = ls@.map_values(|l: &str| l@);
    let ghost p = |l: Seq<char>| contains_seq(lower_of(l), lower_of(query@));
    let mut r: Vec<&'a str> = Vec::new();
    let mut k: usize = 0;
    while k < ls.len()
        invariant
            all == ls@.map_values(|l: &str| l@),
            p == (|l: Seq<char>| contains_seq(lower_of(l), lower_of(query@))),
            q@ == lower_of(query@),
            k <= ls@.len(),
            r@.map_values(|l: &str| l@) == all.take(k as int).filter(p),
        decreases ls@.len() - k,
    {
        let line = ls[k];
        let lower = lowercase(line);
        let ghost before = r@.map_values(|l: &str| l@);
        proof {
            lemma_filter_take_step(all, k as int, p);
        }
        if contains_query(lower.as_str(), q.as_str()) {
            r.push(line);
            proof {
                assert(r@.map_values(|l: &str| l@) =~= before.push(line@));
            }
        }
        k = k + 1;
    }
    proof {
        assert(all.take(k as int) =~= all);
    }
    r
}

/// The lines of `contents` that the search described by `config` finds: with
/// case, or ignoring it.
pub fn run<'a>(config: &'a Config, contents: &'a str) -> (r: Vec<&'a str>)
    ensures
        r@.map_values(|l: &str| l@) == if config.case_sensitive {
            found(config.query@, contents@)
        } else {
            found_ignoring_case(config.query@, contents@)
        },
{
    if config.case_sensitive {
        search(config.query.as_str(), contents)
    } else {
        search_case_insensitive(config.query.as_str(), contents)
    }
}

} // verus!

//! What the library needs to know of version control: the newest commit of
//! a repository, where a repository starts, and how to read the answer to
//! the question whether a path is ignored.

use vstd::prelude::*;
use vstd::string::StringExecFns;
use vstd::string::StringSliceAdditionalSpecFns;
use vstd::utf8::{decode_utf8, encode_utf8, is_char_boundary, valid_utf8};
use crate::path::{
    copy_range, joined, lemma_final_component_start, lemma_parent_shorter, metadata_dir,
    metadata_dir_name, parent_of, relative_to, FsPath,
};

verus! {

/// The newest commit of a repository.
#[derive(Debug, PartialEq, Eq)]
pub struct GitHead {
    pub hash: String,
    pub unix_seconds: i64,
    pub iso8601: String,
}

impl Clone for GitHead {
    fn clone(&self) -> (r: Self)
        ensures
            r == *self,
    {
        GitHead {
            hash: self.hash.clone(),
            unix_seconds: self.unix_seconds,
            iso8601: self.iso8601.clone(),
        }
    }
}

/// The path itself and the directories above it, nearest first.
pub open spec fn ancestors(p: Seq<u8>) -> Seq<Seq<u8>>
    decreases p.len(),
    via ancestors_decreases
{
    match parent_of(p) {
        Some(q) => seq![p] + ancestors(q),
        None => seq![p],
    }
}

#[via_fn]
proof fn ancestors_decreases(p: Seq<u8>) {
    lemma_parent_shorter(p);
}

/// Where version control keeps its metadata in the directory `dir`.
pub open spec fn marker_of(dir: Seq<u8>) -> Seq<u8> {
    joined(dir, metadata_dir_name())
}

/// `has_marker` has said `answer` of the marker of the directory `dir`.
pub open spec fn marker_seen<M: Fn(&FsPath) -> bool>(
    has_marker: &M,
    dir: Seq<u8>,
    answer: bool,
) -> bool {
    exists|marker: FsPath|
        marker@ == marker_of(dir) && #[trigger] call_ensures(*has_marker, (&marker,), answer)
}

/// `root` is the nearest of `start` and the directories above it in which
/// `has_marker` has found the metadata of version control: it has found
/// them there, and in none of those nearer to `start`.
pub open spec fn nearest_root<M: Fn(&FsPath) -> bool>(
    has_marker: &M,
    start: Seq<u8>,
    root: Seq<u8>,
) -> bool {
    exists|k: int|
        0 <= k < ancestors(start).len() && root == #[trigger] ancestors(start)[k] && marker_seen(
            has_marker,
            root,
            true,
        ) && forall|j: int|
            0 <= j < k ==> marker_seen(has_marker, #[trigger] ancestors(start)[j], false)
}

/// `has_marker` has found the metadata of version control neither in
/// `start` nor in any directory above it.
pub open spec fn no_root<M: Fn(&FsPath) -> bool>(has_marker: &M, start: Seq<u8>) -> bool {
    forall|j: int|
        0 <= j < ancestors(start).len() ==> marker_seen(
            has_marker,
            #[trigger] ancestors(start)[j],
            false,
        )
}

/// The root of the repository that holds `start`: the nearest of `start` and
/// the directories above it in which `has_marker` finds the metadata of
/// version control; `None` where it finds them in none.
pub fn find_git_root<M: Fn(&FsPath) -> bool>(start: &FsPath, has_marker: &M) -> (root: Option<
    FsPath,
>)
    requires
        forall|marker: FsPath| call_requires(*has_marker, (&marker,)),
    ensures
        match root {
            Some(found) => nearest_root(has_marker, start@, found@),
            None => no_root(has_marker, start@),
        },
{
    let name = metadata_dir();
    let mut dir = start.clone();
    let ghost all = ancestors(start@);
    let ghost mut k: int = 0;
    proof {
        lemma_ancestors(start@);
    }
    loop
        invariant
            all == ancestors(start@),
            name@ == metadata_dir_name(),
            0 <= k < all.len(),
            dir@ == all[k],
            ancestors(dir@) == all.subrange(k, all.len() as int),
            forall|j: int| 0 <= j < k ==> marker_seen(has_marker, #[trigger] all[j], false),
            forall|marker: FsPath| call_requires(*has_marker, (&marker,)),
        decreases all.len() - k,
    {
        let marker = dir.join(&name);
        let found = has_marker(&marker);
        proof {
            assert(marker_seen(has_marker, dir@, found));
        }
        if found {
            return Some(dir);
        }
        proof {
            lemma_ancestors(dir@);
        }
        match dir.parent() {
            Some(above) => {
                proof {
                    let rest = ancestors(dir@);
                    assert(rest.subrange(1, rest.len() as int) =~= ancestors(above@));
                    assert(ancestors(above@) =~= all.subrange(k + 1, all.len() as int));
                    assert(ancestors(above@)[0] == above@);
                    k = k + 1;
                }
                dir = above;
            },
            None => {
                proof {
                    assert(ancestors(dir@).len() == 1);
                    assert(k == all.len() - 1);
                }
                return None;
            },
        }
    }
}

/// The ancestors of a path start with the path itself.
pub proof fn lemma_ancestors(p: Seq<u8>)
    ensures
        ancestors(p).len() >= 1,
        ancestors(p)[0] == p,
        parent_of(p) matches Some(q) ==> ancestors(p) == seq![p] + ancestors(q),
        parent_of(p).is_none() ==> ancestors(p) == seq![p],
{
}

/// What the question whether version control ignores a path came to.
#[derive(Debug, PartialEq, Eq)]
pub enum IgnoreStatus {
    Ignored,
    NotIgnored,
    /// The query ended with the given exit code, which is no answer.
    Failed(i32),
    /// The query was ended by a signal.
    Killed,
}

/// What an exit code of the query whether a path is ignored says: 0 that it
/// is, 1 that it is not, any other that the query failed; no exit code says
/// that the query was ended by a signal.
pub open spec fn status_of(exit_code: Option<i32>) -> IgnoreStatus {
    match exit_code {
        Some(code) => if code == 0 {
            IgnoreStatus::Ignored
        } else if code == 1 {
            IgnoreStatus::NotIgnored
        } else {
            IgnoreStatus::Failed(code)
        },
        None => IgnoreStatus::Killed,
    }
}

/// Reads the exit code of the query whether a path is ignored.
pub fn ignore_status(exit_code: Option<i32>) -> (status: IgnoreStatus)
    ensures
        status == status_of(exit_code),
{
    match exit_code {
        Some(code) => {
            if code == 0 {
                IgnoreStatus::Ignored
            } else if code == 1 {
                IgnoreStatus::NotIgnored
            } else {
                IgnoreStatus::Failed(code)
            }
        },
        None => IgnoreStatus::Killed,
    }
}

/// Why the question whether a path is ignored got no answer.
#[derive(Debug, PartialEq, Eq)]
pub enum IgnoreError {
    /// The path does not lie in the repository.
    NotUnderRoot,
    /// The query could not be run.
    NotRun(String),
    /// The query ended with an exit code that is no answer.
    ExitCode(i32),
    /// The query was ended by a signal.
    Signal,
}

/// What the query said of the path `rest` of the repository.
pub open spec fn query_answered<Q: Fn(&FsPath) -> Result<Option<i32>, String>>(
    query: Q,
    rest: Seq<u8>,
    answer: Result<Option<i32>, String>,
) -> bool {
    exists|asked: FsPath| asked@ == rest && #[trigger] call_ensures(query, (&asked,), answer)
}

/// The answer to the question whether a path is ignored, as the outcome of
/// the query gives it.
pub open spec fn ignored_answer(outcome: Result<Option<i32>, String>) -> Result<bool, IgnoreError> {
    match outcome {
        Err(reason) => Err(IgnoreError::NotRun(reason)),
        Ok(code) => match status_of(code) {
            IgnoreStatus::Ignored => Ok(true),
            IgnoreStatus::NotIgnored => Ok(false),
            IgnoreStatus::Failed(other) => Err(IgnoreError::ExitCode(other)),
            IgnoreStatus::Killed => Err(IgnoreError::Signal),
        },
    }
}

/// Asks whether version control ignores `path` in the repository at
/// `repo_root`. The path must lie in the repository; `query` is handed the
/// path as seen from the root of the repository, and gives the exit code of
/// the query.
pub fn is_git_ignored<Q: Fn(&FsPath) -> Result<Option<i32>, String>>(
    repo_root: &FsPath,
    path: &FsPath,
    query: Q,
) -> (answer: Result<bool, IgnoreError>)
    requires
        forall|rest: FsPath| call_requires(query, (&rest,)),
    ensures
        match relative_to(path@, repo_root@) {
            None => answer == Err::<bool, IgnoreError>(IgnoreError::NotUnderRoot),
            Some(rest) => exists|outcome: Result<Option<i32>, String>|
                query_answered(query, rest, outcome) && answer == ignored_answer(outcome),
        },
{
    let rest = match path.strip_prefix(repo_root) {
        Some(rest) => rest,
        None => {
            return Err(IgnoreError::NotUnderRoot);
        },
    };
    let outcome = query(&rest);
    let ghost seen = outcome;
    let answer = match outcome {
        Err(reason) => Err(IgnoreError::NotRun(reason)),
        Ok(code) => match ignore_status(code) {
            IgnoreStatus::Ignored => Ok(true),
            IgnoreStatus::NotIgnored => Ok(false),
            IgnoreStatus::Failed(other) => Err(IgnoreError::ExitCode(other)),
            IgnoreStatus::Killed => Err(IgnoreError::Signal),
        },
    };
    proof {
        assert(query_answered(query, rest@, seen));
        assert(answer == ignored_answer(seen));
    }
    answer
}

/// The byte that ends a line.
pub const NEWLINE: u8 = 10;

/// The byte is blank: a space, a tab, or one of the bytes that end or break
/// a line.
pub open spec fn is_blank(b: u8) -> bool {
    b == 32 || (9 <= b <= 13)
}

/// Index of the end of the line that holds index `from`: the next newline,
/// or the end of the text.
pub open spec fn line_end(text: Seq<u8>, from: int) -> int
    decreases text.len() - from,
{
    if from < 0 || from >= text.len() {
        text.len() as int
    } else if text[from] == NEWLINE {
        from
    } else {
        line_end(text, from + 1)
    }
}

/// Index at which line `n` of the text starts, counting from 0; the end of
/// the text where it has fewer lines.
pub open spec fn line_start(text: Seq<u8>, n: nat) -> int
    decreases n,
{
    if n == 0 {
        0
    } else {
        let end = line_end(text, line_start(text, (n - 1) as nat));
        if end < text.len() {
            end + 1
        } else {
            text.len() as int
        }
    }
}

/// Line `n` of the text, without the newline; empty where the text has
/// fewer lines.
pub open spec fn nth_line(text: Seq<u8>, n: nat) -> Seq<u8> {
    text.subrange(line_start(text, n), line_end(text, line_start(text, n)))
}

/// Index of the first byte at or behind `from` that is not blank.
pub open spec fn skip_blank(text: Seq<u8>, from: int) -> int
    decreases text.len() - from,
{
    if 0 <= from < text.len() && is_blank(text[from]) {
        skip_blank(text, from + 1)
    } else {
        from
    }
}

/// Index behind the last byte in front of `to` that is not blank, going no
/// further back than `from`.
pub open spec fn drop_blank(text: Seq<u8>, from: int, to: int) -> int
    decreases to,
{
    if 0 <= from < to <= text.len() && is_blank(text[to - 1]) {
        drop_blank(text, from, to - 1)
    } else {
        to
    }
}

/// The text without the blank bytes at its start and at its end.
pub open spec fn trimmed(text: Seq<u8>) -> Seq<u8> {
    let from = skip_blank(text, 0);
    text.subrange(from, drop_blank(text, from, text.len() as int))
}

/// The byte is a decimal digit.
pub open spec fn is_digit(b: u8) -> bool {
    48 <= b <= 57
}

/// The text holds decimal digits only.
pub open spec fn all_digits(text: Seq<u8>) -> bool {
    forall|i: int| 0 <= i < text.len() ==> is_digit(#[trigger] text[i])
}

/// The number that the digits write.
pub open spec fn digits_value(text: Seq<u8>) -> int
    decreases text.len(),
{
    if text.len() == 0 {
        0
    } else {
        digits_value(text.drop_last()) * 10 + (text.last() - 48)
    }
}

/// The number that the text writes in decimal, with a sign or without;
/// `None` where the text is no such number or the number is out of range.
pub open spec fn parsed_seconds(text: Seq<u8>) -> Option<i64> {
    let signed = text.len() > 0 && (text[0] == 45 || text[0] == 43);
    let digits = if signed {
        text.subrange(1, text.len() as int)
    } else {
        text
    };
    let value = if signed && text[0] == 45 {
        -digits_value(digits)
    } else {
        digits_value(digits)
    };
    if digits.len() > 0 && all_digits(digits) && i64::MIN <= value <= i64::MAX {
        Some(value as i64)
    } else {
        None
    }
}

/// A number written with more digits is no smaller.
pub proof fn lemma_digits_grow(text: Seq<u8>, i: int)
    requires
        all_digits(text),
        0 <= i <= text.len(),
    ensures
        0 <= digits_value(text.subrange(0, i)) <= digits_value(text),
    decreases text.len() - i,
{
    if i == text.len() {
        assert(text.subrange(0, i) =~= text);
        lemma_digits_nonnegative(text);
    } else {
        lemma_digits_grow(text, i + 1);
        assert(text.subrange(0, i + 1).drop_last() =~= text.subrange(0, i));
        assert(is_digit(text[i]));
        lemma_digits_nonnegative(text.subrange(0, i));
    }
}

/// Digits write a number that is not negative.
pub proof fn lemma_digits_nonnegative(text: Seq<u8>)
    requires
        all_digits(text),
    ensures
        0 <= digits_value(text),
    decreases text.len(),
{
    if text.len() > 0 {
        assert(is_digit(text[text.len() - 1]));
        lemma_digits_nonnegative(text.drop_last());
    }
}

/// The bounds of line `n` of the text: where it starts and where it ends.
pub fn line_bounds(text: &Vec<u8>, n: usize) -> (bounds: (usize, usize))
    ensures
        bounds.0 == line_start(text@, n as nat),
        bounds.1 == line_end(text@, bounds.0 as int),
        bounds.0 <= bounds.1 <= text@.len(),
{
    let mut start: usize = 0;
    let mut k: usize = 0;
    while k < n
        invariant
            k <= n,
            start <= text@.len(),
            start == line_start(text@, k as nat),
        decreases n - k,
    {
        let end = end_of_line(text, start);
        start = if end < text.len() {
            end + 1
        } else {
            text.len()
        };
        k += 1;
    }
    (start, end_of_line(text, start))
}

/// Index of the end of the line that holds index `from`.
pub fn end_of_line(text: &Vec<u8>, from: usize) -> (end: usize)
    requires
        from <= text@.len(),
    ensures
        end == line_end(text@, from as int),
        from <= end <= text@.len(),
{
    let mut end = from;
    while end < text.len() && text[end] != NEWLINE
        invariant
            from <= end <= text@.len(),
            line_end(text@, from as int) == line_end(text@, end as int),
        decreases text@.len() - end,
    {
        end += 1;
    }
    end
}

/// The bytes of `text` from `from` to `to`, without the blank bytes at their
/// start and at their end.
pub fn trimmed_range(text: &Vec<u8>, from: usize, to: usize) -> (r: Vec<u8>)
    requires
        from <= to <= text@.len(),
    ensures
        r@ == trimmed(text@.subrange(from as int, to as int)),
{
    let ghost part = text@.subrange(from as int, to as int);
    let mut lo = from;
    while lo < to && is_blank_byte(text[lo])
        invariant
            from <= lo <= to,
            to <= text@.len(),
            part == text@.subrange(from as int, to as int),
            skip_blank(part, 0) == skip_blank(part, lo - from),
        decreases to - lo,
    {
        proof {
            assert(part[lo - from] == text@[lo as int]);
        }
        lo += 1;
    }
    proof {
        if lo < to {
            assert(part[lo - from] == text@[lo as int]);
        }
    }
    let mut hi = to;
    while hi > lo && is_blank_byte(text[hi - 1])
        invariant
            lo <= hi <= to,
            from <= lo,
            to <= text@.len(),
            part == text@.subrange(from as int, to as int),
            drop_blank(part, lo - from, part.len() as int) == drop_blank(
                part,
                lo - from,
                hi - from,
            ),
        decreases hi,
    {
        proof {
            assert(part[hi - 1 - from] == text@[hi - 1]);
        }
        hi -= 1;
    }
    proof {
        if hi > lo {
            assert(part[hi - 1 - from] == text@[hi - 1]);
        }
        assert(part.subrange(lo - from, hi - from) =~= text@.subrange(lo as int, hi as int));
    }
    copy_range(text, lo, hi)
}

/// Whether the byte is blank.
pub fn is_blank_byte(b: u8) -> (r: bool)
    ensures
        r == is_blank(b),
{
    b == 32 || (9 <= b && b <= 13)
}

/// Reads a number of seconds written in decimal.
pub fn parse_seconds(text: &Vec<u8>) -> (r: Option<i64>)
    ensures
        r == parsed_seconds(text@),
{
    let n = text.len();
    let signed = n > 0 && (text[0] == 45 || text[0] == 43);
    let negative = signed && text[0] == 45;
    let first: usize = if signed {
        1
    } else {
        0
    };
    if first == n {
        return None;
    }
    let ghost digits = text@.subrange(first as int, n as int);
    proof {
        if signed {
            assert(digits =~= text@.subrange(1, text@.len() as int));
        } else {
            assert(digits =~= text@);
        }
    }
    let mut value: i128 = 0;
    let mut i: usize = first;
    proof {
        assert(digits.subrange(0, 0) =~= Seq::empty());
    }
    while i < n
        invariant
            first <= i <= n,
            n == text@.len(),
            digits == text@.subrange(first as int, n as int),
            signed ==> digits == text@.subrange(1, text@.len() as int),
            !signed ==> digits == text@,
            signed == (text@.len() > 0 && (text@[0] == 45 || text@[0] == 43)),
            negative == (signed && text@[0] == 45),
            all_digits(digits.subrange(0, i - first)),
            value == digits_value(digits.subrange(0, i - first)),
            0 <= value <= 0x8000_0000_0000_0000,
        decreases n - i,
    {
        let b = text[i];
        if b < 48 || b > 57 {
            proof {
                assert(digits[i - first] == b);
                assert(!is_digit(digits[i - first]));
                assert(!all_digits(digits));
            }
            return None;
        }
        let ghost upto = digits.subrange(0, i + 1 - first);
        proof {
            assert(upto.drop_last() =~= digits.subrange(0, i - first));
            assert(upto.last() == b);
            assert forall|k: int| 0 <= k < upto.len() implies is_digit(#[trigger] upto[k]) by {
                if k < upto.len() - 1 {
                    assert(upto[k] == digits.subrange(0, i - first)[k]);
                }
            }
            assert(all_digits(upto));
        }
        value = value * 10 + (b - 48) as i128;
        proof {
            assert(value == digits_value(upto));
        }
        if value > 0x8000_0000_0000_0000 {
            proof {
                if all_digits(digits) {
                    lemma_digits_grow(digits, i + 1 - first);
                    assert(digits_value(digits) > 0x8000_0000_0000_0000);
                }
            }
            return None;
        }
        i += 1;
    }
    proof {
        assert(digits.subrange(0, n - first) =~= digits);
        assert(all_digits(digits));
        assert(value == digits_value(digits));
        if signed {
            assert(digits =~= text@.subrange(1, text@.len() as int));
        } else {
            assert(digits =~= text@);
        }
    }
    if negative {
        Some((-value) as i64)
    } else if value == 0x8000_0000_0000_0000 {
        None
    } else {
        Some(value as i64)
    }
}

/// `String::from_utf8` of the standard library: the text that the bytes
/// encode, where they are valid UTF-8, and nothing where they are not.
#[verifier::external_body]
fn text_of_utf8(bytes: Vec<u8>) -> (text: Option<String>)
    ensures
        text.is_some() == valid_utf8(bytes@),
        text matches Some(t) ==> t@ == decode_utf8(bytes@),
{
    String::from_utf8(bytes).ok()
}

/// Why the newest commit of a repository could not be read.
#[derive(Debug, Clone, Copy, PartialEq, Eq, Structural)]
pub enum HeadError {
    /// What version control wrote is not text.
    NotUtf8,
    /// What version control wrote as the time of the commit is no number.
    BadTimestamp,
}

/// The three lines that describe a commit, each without the blank bytes
/// around it: the hash, the time in seconds, and the date.
pub open spec fn head_lines(output: Seq<u8>) -> (Seq<u8>, Seq<u8>, Seq<u8>) {
    (trimmed(nth_line(output, 0)), trimmed(nth_line(output, 1)), trimmed(nth_line(output, 2)))
}

/// What the outcome of listing the newest commit says. A listing that
/// failed says that there is no commit. One that succeeded is read line by
/// line: the hash, the time in seconds since the Unix epoch, and the date;
/// an empty hash or date says that there is no commit.
pub open spec fn head_read(success: bool, output: Seq<u8>, head: Result<Option<GitHead>, HeadError>) -> bool {
    let lines = head_lines(output);
    if !success {
        head == Ok::<Option<GitHead>, HeadError>(None)
    } else if !valid_utf8(output) {
        head == Err::<Option<GitHead>, HeadError>(HeadError::NotUtf8)
    } else if parsed_seconds(lines.1).is_none() {
        head == Err::<Option<GitHead>, HeadError>(HeadError::BadTimestamp)
    } else if lines.0.len() == 0 || lines.2.len() == 0 {
        head == Ok::<Option<GitHead>, HeadError>(None)
    } else if !valid_utf8(lines.0) || !valid_utf8(lines.2) {
        head == Err::<Option<GitHead>, HeadError>(HeadError::NotUtf8)
    } else {
        head matches Ok(Some(commit)) && commit.hash@ == decode_utf8(lines.0)
            && commit.unix_seconds == parsed_seconds(lines.1).unwrap() && commit.iso8601@
            == decode_utf8(lines.2)
    }
}

/// Reads the newest commit of a repository from the outcome of listing it:
/// whether the listing succeeded, and what it wrote.
pub fn git_head(success: bool, output: &Vec<u8>) -> (head: Result<Option<GitHead>, HeadError>)
    ensures
        head_read(success, output@, head),
{
    if !success {
        return Ok(None);
    }
    if text_of_utf8(output.clone()).is_none() {
        return Err(HeadError::NotUtf8);
    }
    let (a, b) = line_bounds(output, 0);
    let hash = trimmed_range(output, a, b);
    let (a, b) = line_bounds(output, 1);
    let seconds = trimmed_range(output, a, b);
    let (a, b) = line_bounds(output, 2);
    let date = trimmed_range(output, a, b);
    let unix_seconds = match parse_seconds(&seconds) {
        Some(value) => value,
        None => {
            return Err(HeadError::BadTimestamp);
        },
    };
    if hash.len() == 0 || date.len() == 0 {
        return Ok(None);
    }
    match (text_of_utf8(hash), text_of_utf8(date)) {
        (Some(hash), Some(iso8601)) => Ok(Some(GitHead { hash, unix_seconds, iso8601 })),
        _ => Err(HeadError::NotUtf8),
    }
}

/// Bytes of a commit hash that the report shows.
pub const SHORT_HASH_LEN: usize = 8;

/// The start of a commit hash as the report shows it: its first eight bytes
/// where it has as many and they end between two characters, and else the
/// whole hash.
pub open spec fn short_hash(hash: Seq<char>) -> Seq<char> {
    let bytes = encode_utf8(hash);
    if is_char_boundary(bytes, SHORT_HASH_LEN as int) {
        decode_utf8(bytes.subrange(0, SHORT_HASH_LEN as int))
    } else {
        hash
    }
}

/// How the newest commit of a repository is shown: its date and the start
/// of its hash, or the note that there is none.
pub open spec fn head_text(head: Option<GitHead>) -> Seq<char> {
    match head {
        Some(h) => h.iso8601@ + " "@ + short_hash(h.hash@),
        None => "no commits"@,
    }
}

/// How the newest commit of a repository is shown.
pub fn head_display(head: &Option<GitHead>) -> (text: String)
    ensures
        text@ == head_text(*head),
{
    match head {
        Some(h) => {
            let mut text = h.iso8601.clone();
            text.append(" ");
            let hash = h.hash.as_str();
            if hash.is_char_boundary(SHORT_HASH_LEN) {
                let (start, _) = hash.split_at(SHORT_HASH_LEN);
                proof {
                    vstd::utf8::encode_utf8_decode_utf8(start@);
                }
                text.append(start);
            } else {
                text.append(hash);
            }
            text
        },
        None => String::from_str("no commits"),
    }
}

} // verus!

//! The dates in a theme file.
//!
//! A theme file is a property list, in XML or in binary form, and a property
//! list can hold dates. A theme has no use for them, but the loader of property
//! lists reads them all the same, and it cannot cope with a date near either end
//! of the calendar. Whether a file has such a date can be told from its bytes.
use crate::text::{first_from, lemma_first_from_unique};
use vstd::prelude::*;

verus! {

/// The first year of an XML date that is plain.
pub const FIRST_PLAIN_YEAR: u32 = 1602;

/// The last year of an XML date that is plain.
pub const LAST_PLAIN_YEAR: u32 = 9998;

/// The byte in front of a date in a binary property list.
pub const DATE_MARK: u8 = 0x33;

/// The bits of the earliest date, in seconds from the start of 2001, that the
/// loader accepts: the start of the year -9999.
pub const EARLIEST_BITS: u64 = 0xc256_0ad2_9f40_0000;

/// The bits of the start of the year 1601, in seconds from the start of 2001.
pub const FIRST_PLAIN_BITS: u64 = 0xc207_8302_cc00_0000;

// ---------- XML ----------

/// White space between the parts of an XML tag.
pub open spec fn is_tag_space(x: u8) -> bool {
    x == 32 || x == 13 || x == 10 || x == 9
}

/// The name of an XML tag ends here.
pub open spec fn ends_name(x: u8) -> bool {
    is_tag_space(x) || x == 62
}

/// Where the tag name that starts at `from` ends.
pub open spec fn name_end(b: Seq<u8>, from: int) -> int {
    first_from(b, from, |x: u8| ends_name(x))
}

/// At `i` starts an opening tag, and its name is `date`, with or without a
/// namespace before it.
pub open spec fn is_date_tag(b: Seq<u8>, i: int) -> bool {
    let end = name_end(b, i + 1);
    let start = end - 4;
    &&& b[i] == 60
    &&& i < start
    &&& b[i + 1] != 47
    &&& end < b.len()
    &&& b[start] == 100 && b[start + 1] == 97 && b[start + 2] == 116 && b[start + 3] == 101
    &&& start == i + 1 || b[start - 1] == 58
}

/// The byte is a decimal digit.
pub open spec fn is_digit(x: u8) -> bool {
    48 <= x <= 57
}

/// The number that the four digits at `at` make.
pub open spec fn year_at(b: Seq<u8>, at: int) -> int {
    (b[at] - 48) * 1000 + (b[at + 1] - 48) * 100 + (b[at + 2] - 48) * 10 + (b[at + 3] - 48)
}

/// The text at `at`, which follows a date tag, is no date or one in a plain
/// year.
pub open spec fn is_plain_date(b: Seq<u8>, at: int) -> bool {
    if at >= b.len() {
        true
    } else if is_digit(b[at]) {
        &&& at + 4 <= b.len()
        &&& is_digit(b[at + 1]) && is_digit(b[at + 2]) && is_digit(b[at + 3])
        &&& FIRST_PLAIN_YEAR <= year_at(b, at) <= LAST_PLAIN_YEAR
    } else if b[at] == 60 {
        at + 1 < b.len() ==> b[at + 1] == 47
    } else {
        b[at] != 38
    }
}

/// A date tag at `i` has no attributes and is followed by a plain date.
pub open spec fn is_plain_tag(b: Seq<u8>, i: int) -> bool {
    is_date_tag(b, i) ==> b[name_end(b, i + 1)] == 62 && is_plain_date(b, name_end(b, i + 1) + 1)
}

// ---------- binary ----------

/// The content is a binary property list: it starts with `bplist00`.
pub open spec fn is_binary(b: Seq<u8>) -> bool {
    &&& b.len() >= 8
    &&& b[0] == 98 && b[1] == 112 && b[2] == 108 && b[3] == 105
    &&& b[4] == 115 && b[5] == 116 && b[6] == 48 && b[7] == 48
}

/// The first `n` bytes from `at` on as a number, the greatest byte first.
pub open spec fn number_at(b: Seq<u8>, at: int, n: nat) -> int
    decreases n,
{
    if n == 0 {
        0
    } else {
        number_at(b, at, (n - 1) as nat) * 256 + b[at + n - 1]
    }
}

/// No date before the year 1601 that the loader accepts follows the mark at `i`.
/// Among negative floating-point numbers, the one with the greater bits is the
/// lesser.
pub open spec fn is_plain_mark(b: Seq<u8>, i: int) -> bool {
    b[i] == DATE_MARK && i + 8 < b.len() ==> !(FIRST_PLAIN_BITS < number_at(b, i + 1, 8)
        <= EARLIEST_BITS)
}

/// No date of the content stands near an end of the calendar.
///
/// The loader panics on an XML date that its offset moves out of the years 0 to
/// 9999, and on a binary date before the year 0. This leaves out more than that:
/// - XML dates in the years 0 and 9999, whatever their offset;
/// - dates before 1601 (in XML, 1602), because `SystemTime`, which holds a date,
///   does not reach back as far on every system;
/// - a date tag with attributes or white space in it, and one that is followed
///   by a reference, a comment or another tag, or by a digit that does not start
///   a year of four digits;
/// - what looks like such a date but stands in a comment, in a string or in
///   other data.
pub open spec fn has_plain_dates(b: Seq<u8>) -> bool {
    if is_binary(b) {
        forall|i: int| 0 <= i < b.len() ==> #[trigger] is_plain_mark(b, i)
    } else {
        forall|i: int| 0 <= i < b.len() ==> #[trigger] is_plain_tag(b, i)
    }
}

// ---------- the test ----------

/// Where the tag name that starts at `from` ends.
fn find_name_end(b: &[u8], from: usize) -> (r: usize)
    requires
        from <= b@.len(),
    ensures
        r == name_end(b@, from as int),
        from <= r <= b@.len(),
{
    let n: usize = b.len();
    let mut i: usize = from;
    while i < n && !(b[i] == 32 || b[i] == 13 || b[i] == 10 || b[i] == 9 || b[i] == 62)
        invariant
            from <= i <= n == b@.len(),
            forall|j: int| from <= j < i ==> !ends_name(#[trigger] b@[j]),
        decreases n - i,
    {
        i += 1;
    }
    proof {
        lemma_first_from_unique(b@, from as int, |x: u8| ends_name(x), i as int);
    }
    i
}

/// Whether the byte is a decimal digit.
fn digit_at(x: u8) -> (r: bool)
    ensures
        r == is_digit(x),
{
    48 <= x && x <= 57
}

/// Whether the text at `at` is no date or one in a plain year.
fn date_is_plain(b: &[u8], at: usize) -> (r: bool)
    requires
        at <= b@.len(),
    ensures
        r == is_plain_date(b@, at as int),
{
    let n: usize = b.len();
    if at >= n {
        true
    } else if digit_at(b[at]) {
        if n - at < 4 || !digit_at(b[at + 1]) || !digit_at(b[at + 2]) || !digit_at(b[at + 3]) {
            return false;
        }
        let year: u32 = (b[at] - 48) as u32 * 1000 + (b[at + 1] - 48) as u32 * 100 + (b[at + 2]
            - 48) as u32 * 10 + (b[at + 3] - 48) as u32;
        FIRST_PLAIN_YEAR <= year && year <= LAST_PLAIN_YEAR
    } else if b[at] == 60 {
        at == n - 1 || b[at + 1] == 47
    } else {
        b[at] != 38
    }
}

/// Whether a date tag at `i`, if there is one, has no attributes and is followed
/// by a plain date.
fn tag_is_plain(b: &[u8], i: usize) -> (r: bool)
    requires
        i < b@.len(),
    ensures
        r == is_plain_tag(b@, i as int),
{
    let n: usize = b.len();
    if b[i] != 60 {
        return true;
    }
    let end = find_name_end(b, i + 1);
    if end >= n || end - i < 5 || b[i + 1] == 47 {
        return true;
    }
    let start: usize = end - 4;
    if b[start] != 100 || b[start + 1] != 97 || b[start + 2] != 116 || b[start + 3] != 101 {
        return true;
    }
    if start != i + 1 && b[start - 1] != 58 {
        return true;
    }
    b[end] == 62 && date_is_plain(b, end + 1)
}

/// Whether no early date follows a mark at `i`.
fn mark_is_plain(b: &[u8], i: usize) -> (r: bool)
    requires
        i < b@.len(),
    ensures
        r == is_plain_mark(b@, i as int),
{
    let n: usize = b.len();
    if b[i] != DATE_MARK || n - i <= 8 {
        return true;
    }
    let mut bits: u128 = 0;
    let mut k: usize = 0;
    while k < 8
        invariant
            0 <= k <= 8,
            i + 8 < n == b@.len(),
            bits == number_at(b@, i + 1, k as nat),
            k == 0 ==> bits == 0,
            bits <= 0xffff_ffff_ffff_ffff,
            k < 8 ==> bits <= 0xff_ffff_ffff_ffff,
            k < 7 ==> bits <= 0xffff_ffff_ffff,
            k < 6 ==> bits <= 0xff_ffff_ffff,
            k < 5 ==> bits <= 0xffff_ffff,
            k < 4 ==> bits <= 0xff_ffff,
            k < 3 ==> bits <= 0xffff,
            k < 2 ==> bits <= 0xff,
        decreases 8 - k,
    {
        bits = bits * 256 + b[i + 1 + k] as u128;
        k += 1;
    }
    !(bits > FIRST_PLAIN_BITS as u128 && bits <= EARLIEST_BITS as u128)
}

/// Whether the content is a binary property list.
fn starts_binary(b: &[u8]) -> (r: bool)
    ensures
        r == is_binary(b@),
{
    b.len() >= 8 && b[0] == 98 && b[1] == 112 && b[2] == 108 && b[3] == 105 && b[4] == 115 && b[5]
        == 116 && b[6] == 48 && b[7] == 48
}

/// Whether no date of the content stands near an end of the calendar.
pub fn dates_are_plain(b: &[u8]) -> (r: bool)
    ensures
        r == has_plain_dates(b@),
{
    let binary = starts_binary(b);
    let mut i: usize = 0;
    while i < b.len()
        invariant
            0 <= i <= b@.len(),
            binary == is_binary(b@),
            binary ==> forall|j: int| 0 <= j < i ==> #[trigger] is_plain_mark(b@, j),
            !binary ==> forall|j: int| 0 <= j < i ==> #[trigger] is_plain_tag(b@, j),
        decreases b@.len() - i,
    {
        let plain = if binary {
            mark_is_plain(b, i)
        } else {
            tag_is_plain(b, i)
        };
        if !plain {
            return false;
        }
        i += 1;
    }
    true
}

} // verus!

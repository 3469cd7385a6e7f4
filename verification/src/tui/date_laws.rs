//! Which theme files pass the test on their dates.
use crate::text::{lemma_first_from, lemma_first_from_unique};
use crate::tui::theme_dates::{
    ends_name, has_plain_dates, is_binary, is_date_tag, is_plain_mark, is_plain_tag, name_end,
    number_at, year_at,
};
use vstd::prelude::*;

verus! {

/// The bytes `word` stand in `b` at `at`.
pub open spec fn spells(b: Seq<u8>, at: int, word: Seq<u8>) -> bool {
    &&& 0 <= at <= b.len() - word.len()
    &&& forall|k: int| 0 <= k < word.len() ==> b[at + k] == #[trigger] word[k]
}

/// `bplist00`, with which a binary property list starts.
pub open spec fn binary_start() -> Seq<u8> {
    seq![0x62u8, 0x70u8, 0x6cu8, 0x69u8, 0x73u8, 0x74u8, 0x30u8, 0x30u8]
}

/// `date`, the name of the tag of a date.
pub open spec fn date_name() -> Seq<u8> {
    seq![0x64u8, 0x61u8, 0x74u8, 0x65u8]
}

/// The four digits of `year` stand at `at`.
pub open spec fn spells_year(b: Seq<u8>, at: int, year: int) -> bool {
    &&& 0 <= year <= 9999
    &&& 0 <= at <= b.len() - 4
    &&& b[at] == 48 + year / 1000
    &&& b[at + 1] == 48 + year / 100 % 10
    &&& b[at + 2] == 48 + year / 10 % 10
    &&& b[at + 3] == 48 + year % 10
}

/// `<date>` and four digits of a year stand at `at`.
pub open spec fn spells_date(b: Seq<u8>, at: int, year: int) -> bool {
    &&& spells(b, at + 1, date_name())
    &&& 0 <= at
    &&& b[at] == 0x3c
    &&& b[at + 5] == 0x3e
    &&& spells_year(b, at + 6, year)
}

proof fn lemma_binary_start(b: Seq<u8>)
    ensures
        is_binary(b) == spells(b, 0, binary_start()),
{
    let word = binary_start();
    if spells(b, 0, word) {
        assert(b[0] == word[0] && b[1] == word[1] && b[2] == word[2] && b[3]
            == word[3]);
        assert(b[4] == word[4] && b[5] == word[5] && b[6] == word[6] && b[7]
            == word[7]);
    }
}

/// A tag of a date has the name of one in it.
proof fn lemma_date_tag_spells_its_name(b: Seq<u8>, i: int)
    requires
        0 <= i < b.len(),
        is_date_tag(b, i),
    ensures
        spells(b, name_end(b, i + 1) - 4, date_name()),
        i + 1 <= name_end(b, i + 1) - 4,
{
    lemma_first_from(b, i + 1, |x: u8| ends_name(x));
}

/// A file in which no date can stand passes: one in XML without the name of a
/// date, or a binary one without the byte 0x33.
pub proof fn law_files_without_dates_pass(b: Seq<u8>)
    requires
        spells(b, 0, binary_start()) ==> !b.contains(0x33u8),
        !spells(b, 0, binary_start()) ==> forall|at: int| !#[trigger] spells(b, at, date_name()),
    ensures
        has_plain_dates(b),
{
    lemma_binary_start(b);
    if spells(b, 0, binary_start()) {
        assert forall|i: int| 0 <= i < b.len() implies #[trigger] is_plain_mark(b, i) by {
            assert(b.contains(b[i]));
        }
    } else {
        assert forall|i: int| 0 <= i < b.len() implies #[trigger] is_plain_tag(b, i) by {
            if is_date_tag(b, i) {
                lemma_date_tag_spells_its_name(b, i);
            }
        }
    }
}

/// Where the tag of a spelled date ends.
proof fn lemma_spelled_date(b: Seq<u8>, at: int, year: int)
    requires
        spells_date(b, at, year),
    ensures
        is_date_tag(b, at),
        name_end(b, at + 1) == at + 5,
{
    let word = date_name();
    assert(b[at + 1 + 0] == word[0] && b[at + 1 + 1] == word[1] && b[at + 1 + 2] == word[2] && b[at
        + 1 + 3] == word[3]);
    lemma_first_from_unique(b, at + 1, |x: u8| ends_name(x), at + 5);
}

/// A file in XML passes if the only date in it is in one of the years from 1602
/// to 9998.
pub proof fn law_ordinary_dates_pass(b: Seq<u8>, at: int, year: int)
    requires
        !spells(b, 0, binary_start()),
        spells_date(b, at, year),
        1602 <= year <= 9998,
        forall|k: int| #[trigger] spells(b, k, date_name()) ==> k == at + 1,
    ensures
        has_plain_dates(b),
{
    lemma_binary_start(b);
    lemma_spelled_date(b, at, year);
    lemma_year(b, at + 6, year);
    assert forall|i: int| 0 <= i < b.len() implies #[trigger] is_plain_tag(b, i) by {
        if is_date_tag(b, i) {
            lemma_date_tag_spells_its_name(b, i);
            assert(name_end(b, i + 1) - 4 == at + 1);
            assert(i == at);
        }
    }
}

proof fn lemma_year(b: Seq<u8>, at: int, year: int)
    requires
        spells_year(b, at, year),
    ensures
        year_at(b, at) == year,
        48 <= b[at] <= 57,
        48 <= b[at + 1] <= 57,
        48 <= b[at + 2] <= 57,
        48 <= b[at + 3] <= 57,
{
}

/// A file in XML with a date before 1602 or after 9998 does not pass.
pub proof fn law_dates_near_the_ends_do_not_pass(b: Seq<u8>, at: int, year: int)
    requires
        !spells(b, 0, binary_start()),
        spells_date(b, at, year),
        year < 1602 || year > 9998,
    ensures
        !has_plain_dates(b),
{
    lemma_binary_start(b);
    lemma_spelled_date(b, at, year);
    lemma_year(b, at + 6, year);
    assert(!is_plain_tag(b, at));
}

/// The number that the bytes make, the greatest first.
pub open spec fn number_of(bytes: Seq<u8>) -> int
    decreases bytes.len(),
{
    if bytes.len() == 0 {
        0
    } else {
        number_of(bytes.drop_last()) * 256 + bytes.last()
    }
}

proof fn lemma_number_of(b: Seq<u8>, at: int, n: nat)
    requires
        0 <= at <= b.len() - n,
    ensures
        number_at(b, at, n) == number_of(b.subrange(at, at + n)),
    decreases n,
{
    if n > 0 {
        lemma_number_of(b, at, (n - 1) as nat);
        assert(b.subrange(at, at + n).drop_last() =~= b.subrange(at, at + n - 1));
    }
}

/// A date before the year 1601 that the loader reads follows the byte 0x33 at
/// `i`: eight bytes whose bits are those of a number of seconds in that range.
pub open spec fn is_early_date(b: Seq<u8>, i: int) -> bool {
    &&& 0 <= i < b.len() - 8
    &&& b[i] == 0x33
    &&& 0xc207_8302_cc00_0000 < number_of(b.subrange(i + 1, i + 9)) <= 0xc256_0ad2_9f40_0000
}

/// A binary file passes just where no byte 0x33 is followed by the bits of an
/// early date.
pub proof fn law_binary_files_pass_without_early_dates(b: Seq<u8>)
    requires
        spells(b, 0, binary_start()),
    ensures
        has_plain_dates(b) <==> forall|i: int| !#[trigger] is_early_date(b, i),
{
    lemma_binary_start(b);
    assert forall|i: int| 0 <= i < b.len() implies #[trigger] is_plain_mark(b, i)
        == !is_early_date(b, i) by {
        if i + 8 < b.len() {
            lemma_number_of(b, i + 1, 8);
        }
    }
    if has_plain_dates(b) {
        assert forall|i: int| !#[trigger] is_early_date(b, i) by {
            if 0 <= i < b.len() {
                assert(is_plain_mark(b, i));
            }
        }
    }
}

} // verus!

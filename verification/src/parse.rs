use vstd::prelude::*;
use vstd::string::StringSliceAdditionalSpecFns;
use vstd::utf8::encode_utf8;
use vstd::utf8::valid_utf8;
use crate::error::Error;
use crate::model::TableModel;
use crate::table::ResourceSizeTable;
use crate::util::hash_bytes;
use crate::util::name_prefix;
use crate::util::spec_hash;
use crate::util::spells_name;
use crate::util::Name;

verus! {

/// Why a text does not decode.
pub enum TextFault {
    /// A line has no colon followed by a space: the line.
    NoSeparator(Seq<u8>),
    /// The value of a line is not a decimal `u32`.
    BadNumber,
    /// A key that is to be kept as a name is too long for a name.
    BadName,
}

/// The fault that an error reports, if it reports one of a text.
pub open spec fn fault_of(error: Error) -> Option<TextFault> {
    match error {
        Error::YamlError(line) => Some(TextFault::NoSeparator(encode_utf8(line@))),
        Error::YamlInvalidNumber => Some(TextFault::BadNumber),
        Error::Utf8Error => Some(TextFault::BadName),
        _ => None,
    }
}

/// Every byte is an ASCII digit.
pub open spec fn all_digits(text: Seq<u8>) -> bool {
    forall|i: int| 0 <= i < text.len() ==> 48 <= #[trigger] text[i] <= 57
}

/// The number that decimal digits spell.
pub open spec fn digits_value(digits: Seq<u8>) -> nat
    decreases digits.len(),
{
    if digits.len() == 0 {
        0
    } else {
        digits_value(digits.drop_last()) * 10 + (digits.last() - 48) as nat
    }
}

/// The `u32` that a text spells in decimal: an optional plus sign, then at
/// least one digit, and a value that a `u32` can hold.
pub open spec fn decimal_value(text: Seq<u8>) -> Option<u32> {
    let digits = if text.len() > 0 && text[0] == 43 {
        text.drop_first()
    } else {
        text
    };
    if digits.len() > 0 && all_digits(digits) && digits_value(digits) <= u32::MAX {
        Some(digits_value(digits) as u32)
    } else {
        None
    }
}

/// More digits do not spell less.
pub proof fn lemma_digits_monotone(digits: Seq<u8>, k: int)
    requires
        all_digits(digits),
        0 <= k <= digits.len(),
    ensures
        digits_value(digits.take(k)) <= digits_value(digits),
    decreases digits.len() - k,
{
    if k < digits.len() {
        lemma_digits_monotone(digits, k + 1);
        assert(digits.take(k + 1).drop_last() =~= digits.take(k));
    } else {
        assert(digits.take(k) =~= digits);
    }
}

/// Reads a decimal `u32`.
pub fn parse_decimal(text: &[u8]) -> (r: Option<u32>)
    ensures
        r == decimal_value(text@),
{
    let start: usize = if text.len() > 0 && text[0] == 43 {
        1
    } else {
        0
    };
    let ghost digits = if text@.len() > 0 && text@[0] == 43 {
        text@.drop_first()
    } else {
        text@
    };
    if start == text.len() {
        return None;
    }
    let mut value: u64 = 0;
    let mut i: usize = start;
    while i < text.len()
        invariant
            start <= i <= text@.len(),
            digits == if text@.len() > 0 && text@[0] == 43 {
                text@.drop_first()
            } else {
                text@
            },
            digits.len() == text@.len() - start,
            forall|k: int| 0 <= k < digits.len() ==> digits[k] == text@[start + k],
            all_digits(digits.take(i - start)),
            value == digits_value(digits.take(i - start)),
            value <= u32::MAX,
        decreases text@.len() - i,
    {
        let byte = text[i];
        if byte < 48 || byte > 57 {
            proof {
                assert(digits[i - start] == byte);
                assert(!all_digits(digits));
            }
            return None;
        }
        let ghost before = digits.take(i - start);
        let ghost now = digits.take(i - start + 1);
        proof {
            assert(now.drop_last() =~= before);
            assert(now.last() == byte);
            assert forall|k: int| 0 <= k < now.len() implies 48 <= #[trigger] now[k] <= 57 by {
                if k < before.len() {
                    assert(now[k] == before[k]);
                }
            }
        }
        value = value * 10 + (byte - 48) as u64;
        if value > 0xFFFF_FFFF {
            proof {
                if all_digits(digits) {
                    lemma_digits_monotone(digits, i - start + 1);
                }
            }
            return None;
        }
        i += 1;
    }
    proof {
        assert(digits.take(i - start) =~= digits);
    }
    Some(value as u32)
}

/// A colon and a space stand at index `i` of `line`.
pub open spec fn separator_at(line: Seq<u8>, i: int) -> bool {
    0 <= i && i + 1 < line.len() && line[i] == 58 && line[i + 1] == 32
}

/// The index of the first colon that a space follows.
pub open spec fn first_separator(line: Seq<u8>) -> Option<int> {
    if exists|i: int| separator_at(line, i) {
        Some(
            choose|i: int|
                separator_at(line, i) && forall|j: int| 0 <= j < i ==> !separator_at(line, j),
        )
    } else {
        None
    }
}

/// Only one index holds a separator and has none before it.
pub proof fn lemma_first_separator(line: Seq<u8>, at: int)
    requires
        separator_at(line, at),
        forall|j: int| 0 <= j < at ==> !separator_at(line, j),
    ensures
        first_separator(line) == Some(at),
{
    let found = first_separator(line)->Some_0;
    if found < at {
        assert(!separator_at(line, found));
    } else if at < found {
        assert(!separator_at(line, at));
    }
}

/// Looks for the first colon that a space follows.
pub fn find_separator(line: &[u8]) -> (r: Option<usize>)
    ensures
        r matches Some(at) ==> first_separator(line@) == Some(at as int) && at + 2
            <= line@.len(),
        r is None ==> first_separator(line@) is None,
{
    let size: usize = line.len();
    if size < 2 {
        return None;
    }
    let mut i: usize = 0;
    while i < size - 1
        invariant
            2 <= size == line@.len(),
            i <= size - 1,
            forall|j: int| 0 <= j < i ==> !separator_at(line@, j),
        decreases size - i,
    {
        if line[i] == 58 && line[i + 1] == 32 {
            proof {
                lemma_first_separator(line@, i as int);
            }
            return Some(i);
        }
        i += 1;
    }
    None
}

/// The key and the value of a line: what stands before its first
/// separator, and what stands after it.
pub open spec fn split(line: Seq<u8>) -> Option<(Seq<u8>, Seq<u8>)> {
    match first_separator(line) {
        Some(at) => Some((line.take(at), line.skip(at + 2))),
        None => None,
    }
}

/// Splits a line at its first separator.
pub fn split_line(line: &[u8]) -> (r: Option<(&[u8], &[u8])>)
    ensures
        match split(line@) {
            Some((key, value)) => r is Some && r->Some_0.0@ == key && r->Some_0.1@ == value,
            None => r is None,
        },
{
    match find_separator(line) {
        Some(at) => {
            let key = vstd::slice::slice_subrange(line, 0, at);
            let size: usize = line.len();
            let value = vstd::slice::slice_subrange(line, at + 2, size);
            proof {
                assert(key@ =~= line@.take(at as int));
                assert(value@ =~= line@.skip(at + 2));
            }
            Some((key, value))
        },
        None => None,
    }
}

/// The table after a line of text is applied to it. The line is split at
/// its first separator into a key and a value, and the value is read as a
/// decimal `u32`. A key that reads as a decimal `u32` is a hash: where the
/// table holds no size for that hash yet it gets the value by hash, and
/// where it holds one already the text of the key gets the value by name.
/// Any other key is a path, and its hash gets the value by hash.
pub open spec fn apply_line(table: TableModel, line: Seq<u8>) -> Result<TableModel, TextFault> {
    match split(line) {
        None => Err(TextFault::NoSeparator(line)),
        Some((key, value)) => match decimal_value(value) {
            None => Err(TextFault::BadNumber),
            Some(value) => apply_pair(table, key, value),
        },
    }
}

/// The table after the key and the value of a line are applied to it.
pub open spec fn apply_pair(table: TableModel, key: Seq<u8>, value: u32) -> Result<
    TableModel,
    TextFault,
> {
    match decimal_value(key) {
        Some(hash) => if !table.hashes.contains_key(hash) {
            Ok(TableModel { hashes: table.hashes.insert(hash, value), ..table })
        } else if spells_name(key) {
            Ok(TableModel { names: table.names.insert(name_prefix(key), value), ..table })
        } else {
            Err(TextFault::BadName)
        },
        None => Ok(TableModel { hashes: table.hashes.insert(spec_hash(key), value), ..table }),
    }
}

/// The index of the first line feed of `text`, or its length where it has
/// none.
pub open spec fn line_end(text: Seq<u8>) -> nat
    decreases text.len(),
{
    if text.len() == 0 || text[0] == 10 {
        0
    } else {
        1 + line_end(text.drop_first())
    }
}

/// `line_end` is in range, no byte before it is a line feed, and the byte
/// at it is one where there is one.
pub proof fn lemma_line_end(text: Seq<u8>)
    ensures
        line_end(text) <= text.len(),
        forall|i: int| 0 <= i < line_end(text) ==> text[i] != 10,
        line_end(text) < text.len() ==> text[line_end(text) as int] == 10,
    decreases text.len(),
{
    if text.len() > 0 && text[0] != 10 {
        let rest = text.drop_first();
        lemma_line_end(rest);
        assert forall|i: int| 0 <= i < line_end(text) implies text[i] != 10 by {
            if i > 0 {
                assert(text[i] == rest[i - 1]);
            }
        }
    }
}

/// The first line of `text` without what ends it: a line feed, or a
/// carriage return and a line feed, or the end of the text.
pub open spec fn first_line(text: Seq<u8>) -> Seq<u8> {
    let end = line_end(text) as int;
    let raw = text.take(end);
    if end < text.len() && end > 0 && text[end - 1] == 13 {
        raw.drop_last()
    } else {
        raw
    }
}

/// What follows the first line of `text` and its line feed.
pub open spec fn after_first_line(text: Seq<u8>) -> Seq<u8> {
    let end = line_end(text) as int;
    if end < text.len() {
        text.skip(end + 1)
    } else {
        Seq::empty()
    }
}

/// The table after the lines of `text` are applied to it one after the
/// other, empty lines left out; or the fault of the first line that is
/// refused.
#[verifier::opaque]
pub open spec fn parse_lines(text: Seq<u8>, table: TableModel) -> Result<TableModel, TextFault>
    decreases text.len(),
{
    if text.len() == 0 {
        Ok(table)
    } else {
        let line = first_line(text);
        let rest = after_first_line(text);
        if line.len() == 0 {
            parse_lines(rest, table)
        } else {
            match apply_line(table, line) {
                Ok(next) => parse_lines(rest, next),
                Err(fault) => Err(fault),
            }
        }
    }
}

/// One step of `parse_lines`: the first line is applied, and the rest of
/// the text follows.
pub proof fn lemma_parse_step(text: Seq<u8>, table: TableModel)
    ensures
        text.len() == 0 ==> parse_lines(text, table) == Ok::<TableModel, TextFault>(table),
        text.len() > 0 && first_line(text).len() == 0 ==> parse_lines(text, table) == parse_lines(
            after_first_line(text),
            table,
        ),
        text.len() > 0 && first_line(text).len() > 0 ==> parse_lines(text, table) == match apply_line(
            table,
            first_line(text),
        ) {
            Ok(next) => parse_lines(after_first_line(text), next),
            Err(fault) => Err(fault),
        },
{
    reveal(parse_lines);
}

/// What a text decodes to.
pub open spec fn parse_text(text: Seq<u8>) -> Result<TableModel, TextFault> {
    parse_lines(text, TableModel::empty())
}

/// A string can be cut before a byte below 128 and after it.
proof fn lemma_cut(text: Seq<u8>, at: int)
    requires
        valid_utf8(text),
        0 <= at <= text.len(),
        at < text.len() ==> text[at] < 128,
    ensures
        vstd::utf8::is_char_boundary(text, at),
        at < text.len() ==> vstd::utf8::is_char_boundary(text.skip(at), 1),
        valid_utf8(text.skip(at)),
{
    if at < text.len() {
        vstd::utf8::is_char_boundary_iff_not_is_continuation_byte(text, at);
        vstd::utf8::valid_utf8_split(text, at);
        let tail = text.skip(at);
        assert(tail =~= text.subrange(at, text.len() as int));
        assert(tail[0] == text[at]);
        reveal_with_fuel(vstd::utf8::is_char_boundary, 2);
    } else {
        vstd::utf8::is_char_boundary_start_end_of_seq(text);
        assert(text.skip(at) =~= Seq::<u8>::empty());
    }
}

/// The first line of a string, and what follows it.
pub fn take_line(text: &str) -> (r: (&str, &str))
    ensures
        r.0.spec_bytes() == first_line(text.spec_bytes()),
        r.1.spec_bytes() == after_first_line(text.spec_bytes()),
        text.spec_bytes().len() > 0 ==> r.1.spec_bytes().len() < text.spec_bytes().len(),
{
    broadcast use vstd::utf8::encode_utf8_valid_utf8;

    let bytes = text.as_bytes();
    let mut end: usize = 0;
    while end < bytes.len() && bytes[end] != 10
        invariant
            end <= bytes@.len(),
            forall|i: int| 0 <= i < end ==> bytes@[i] != 10,
        decreases bytes@.len() - end,
    {
        end += 1;
    }
    proof {
        lemma_line_end(bytes@);
        assert(line_end(bytes@) == end) by {
            let found = line_end(bytes@) as int;
            if found < end {
                assert(bytes@[found] != 10);
            } else if end < found {
                assert(bytes@[end as int] != 10);
            }
        }
        assert(valid_utf8(bytes@));
        lemma_cut(bytes@, end as int);
    }
    let (raw, tail) = text.split_at(end);
    let line = if end < bytes.len() && end > 0 && bytes[end - 1] == 13 {
        proof {
            assert(raw.spec_bytes() =~= bytes@.take(end as int));
            assert(valid_utf8(raw.spec_bytes()));
            lemma_cut(raw.spec_bytes(), end - 1);
        }
        let (line, _) = raw.split_at(end - 1);
        proof {
            assert(line.spec_bytes() =~= bytes@.take(end as int).drop_last());
        }
        line
    } else {
        proof {
            assert(raw.spec_bytes() =~= bytes@.take(end as int));
        }
        raw
    };
    let rest = if end < bytes.len() {
        proof {
            assert(tail.spec_bytes() =~= bytes@.skip(end as int));
        }
        let (_, rest) = tail.split_at(1);
        proof {
            assert(rest.spec_bytes() =~= bytes@.skip(end + 1));
        }
        rest
    } else {
        proof {
            assert(tail.spec_bytes() =~= Seq::<u8>::empty());
        }
        tail
    };
    (line, rest)
}

/// The error for a line without a separator.
fn no_separator(line: &str) -> (error: Error)
    ensures
        fault_of(error) == Some(TextFault::NoSeparator(line.spec_bytes())),
{
    Error::YamlError(line.to_owned())
}

impl ResourceSizeTable {
    /// Applies a line of the text form to the table, which stays as it
    /// was where the line is refused.
    pub fn insert_line(&mut self, line: &str) -> (r: Result<(), Error>)
        ensures
            final(self).wf(),
            match apply_line(old(self)@, line.spec_bytes()) {
                Ok(table) => r is Ok && final(self)@ == table,
                Err(fault) => r is Err && fault_of(r->Err_0) == Some(fault) && final(self)@ == old(
                    self,
                )@,
            },
    {
        proof {
            use_type_invariant(&self.name_table);
            self.name_table.lemma_wf();
        }
        match split_line(line.as_bytes()) {
            None => Err(no_separator(line)),
            Some((key, value)) => match parse_decimal(value) {
                Some(value) => self.insert_pair(key, value),
                None => Err(Error::YamlInvalidNumber),
            },
        }
    }

    /// Applies the key and the value of a line of the text form to the
    /// table, which stays as it was where the key is refused.
    pub fn insert_pair(&mut self, key: &[u8], value: u32) -> (r: Result<(), Error>)
        ensures
            final(self).wf(),
            match apply_pair(old(self)@, key@, value) {
                Ok(table) => r is Ok && final(self)@ == table,
                Err(fault) => r == Err::<(), Error>(Error::Utf8Error) && fault
                    == TextFault::BadName && final(self)@ == old(self)@,
            },
    {
        broadcast use vstd::std_specs::btree::group_btree_axioms;

        proof {
            use_type_invariant(&self.name_table);
            self.name_table.lemma_wf();
        }
        match parse_decimal(key) {
            Some(hash) => {
                if !self.crc_table.contains_key(&hash) {
                    self.crc_table.insert(hash, value);
                } else {
                    match Name::from_bytes(key) {
                        Ok(name) => {
                            self.name_table.insert(name, value);
                        },
                        Err(_) => {
                            return Err(Error::Utf8Error);
                        },
                    }
                }
            },
            None => {
                self.crc_table.insert(hash_bytes(key), value);
            },
        }
        Ok(())
    }
}

impl ResourceSizeTable {
    /// Decodes the text form of a table.
    pub fn from_text(text: &str) -> (r: Result<ResourceSizeTable, Error>)
        ensures
            match parse_text(text.spec_bytes()) {
                Ok(table) => r is Ok && r->Ok_0@ == table && r->Ok_0.wf(),
                Err(fault) => r is Err && fault_of(r->Err_0) == Some(fault),
            },
    {
        let mut table = ResourceSizeTable::new();
        let mut remaining: &str = text;
        let mut left: usize = remaining.as_bytes().len();
        while left > 0
            invariant
                table.wf(),
                left == remaining.spec_bytes().len(),
                parse_lines(remaining.spec_bytes(), table@) == parse_text(text.spec_bytes()),
            decreases remaining.spec_bytes().len(),
        {
            proof {
                lemma_parse_step(remaining.spec_bytes(), table@);
            }
            let (line, rest) = take_line(remaining);
            if line.as_bytes().len() > 0 {
                match table.insert_line(line) {
                    Ok(()) => {},
                    Err(e) => {
                        return Err(e);
                    },
                }
            }
            remaining = rest;
            left = remaining.as_bytes().len();
        }
        proof {
            lemma_parse_step(remaining.spec_bytes(), table@);
        }
        Ok(table)
    }
}

} // verus!

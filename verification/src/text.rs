use vstd::prelude::*;
use vstd::utf8::encode_utf8;
use vstd::utf8::valid_utf8;
use crate::bin::ResTblReader;
use crate::bin::TableEntry;
use crate::error::Error;
use crate::listing::ascending;
use crate::model::TableModel;
use crate::table::entries_of;
use crate::table::ResourceSizeTable;
use crate::util::copy_into;
use crate::util::splice;

verus! {

/// The most bytes that the decimal form of a `u32` takes.
pub const DECIMAL_SIZE: usize = 10;

/// The decimal digits of `n` in ASCII, without leading zeros.
pub open spec fn decimal(n: nat) -> Seq<u8>
    decreases n,
{
    if n < 10 {
        seq![(48 + n) as u8]
    } else {
        decimal(n / 10).push((48 + n % 10) as u8)
    }
}

/// Ten to the power of `k`.
pub open spec fn pow10(k: nat) -> nat
    decreases k,
{
    if k == 0 {
        1
    } else {
        10 * pow10((k - 1) as nat)
    }
}

/// The decimal form is made of digits, and of at least one.
pub proof fn lemma_decimal_digits(n: nat)
    ensures
        decimal(n).len() >= 1,
        forall|i: int| 0 <= i < decimal(n).len() ==> 48 <= #[trigger] decimal(n)[i] <= 57,
    decreases n,
{
    if n >= 10 {
        lemma_decimal_digits(n / 10);
    }
}

/// A number below ten to the `k` has at most `k` digits.
pub proof fn lemma_decimal_len(n: nat, k: nat)
    requires
        k >= 1,
        n < pow10(k),
    ensures
        decimal(n).len() <= k,
    decreases k,
{
    if n >= 10 {
        assert(pow10(1) == 10) by {
            reveal_with_fuel(pow10, 2);
        }
        assert(k >= 2);
        lemma_decimal_len(n / 10, (k - 1) as nat);
    }
}

/// A `u32` has at most ten digits.
pub proof fn lemma_decimal_u32(n: u32)
    ensures
        1 <= decimal(n as nat).len() <= DECIMAL_SIZE,
{
    lemma_decimal_digits(n as nat);
    assert(pow10(10) == 10_000_000_000) by {
        reveal_with_fuel(pow10, 11);
    }
    lemma_decimal_len(n as nat, 10);
}

/// The separator between key and value: a colon and a space.
pub open spec fn separator() -> Seq<u8> {
    seq![58u8, 32u8]
}

/// The end of a line: a line feed.
pub open spec fn newline() -> Seq<u8> {
    seq![10u8]
}

/// The key of a record in the text form: the hash in decimal, or the name.
pub open spec fn entry_key(entry: TableEntry) -> Seq<u8> {
    match entry {
        TableEntry::Hash(entry) => decimal(entry.hash as nat),
        TableEntry::Name(entry) => entry.name@,
    }
}

/// The line of a record: its key, a colon and a space, its size in
/// decimal, a line feed.
pub open spec fn entry_line(entry: TableEntry) -> Seq<u8> {
    entry_key(entry) + separator() + decimal(entry.spec_value() as nat) + newline()
}

/// The lines of the records one after the other.
pub open spec fn lines(entries: Seq<TableEntry>) -> Seq<u8>
    decreases entries.len(),
{
    if entries.len() == 0 {
        Seq::empty()
    } else {
        lines(entries.drop_last()) + entry_line(entries.last())
    }
}

/// The text form of a table.
pub open spec fn text_of(table: TableModel) -> Seq<u8> {
    lines(entries_of(table))
}

/// Writes `value` in decimal over `buffer` from index `at` on, and returns
/// the number of digits. This is `lexical_core::write` for a `u32`: it
/// wants ten bytes of room, writes the digits without leading zeros at the
/// start of what it is given, leaves the rest as it was, and returns the
/// part that it wrote.
#[verifier::external_body]
fn write_decimal(value: u32, buffer: &mut [u8], at: usize) -> (len: usize)
    requires
        at + DECIMAL_SIZE <= old(buffer)@.len(),
    ensures
        len == decimal(value as nat).len(),
        final(buffer)@ == splice(old(buffer)@, at as int, decimal(value as nat)),
{
    lexical_core::write(value, &mut buffer[at..]).len()
}

/// The string with the bytes `bytes`, from `String::from_utf8`: the call
/// succeeds exactly on well-formed UTF-8, and the string then has these
/// very bytes.
#[verifier::external_body]
fn string_from_utf8(bytes: Vec<u8>) -> (r: Option<String>)
    ensures
        r is Some == valid_utf8(bytes@),
        r matches Some(s) ==> encode_utf8(s@) == bytes@,
{
    String::from_utf8(bytes).ok()
}

/// Bytes below 128 are UTF-8.
pub proof fn lemma_ascii_valid(bytes: Seq<u8>)
    requires
        forall|i: int| 0 <= i < bytes.len() ==> #[trigger] bytes[i] < 128,
    ensures
        valid_utf8(bytes),
{
    assert forall|i: int| 0 <= i < bytes.len() implies #[trigger] vstd::utf8::is_leading_byte_width_1(
        bytes[i],
    ) by {
        let b = bytes[i];
        assert(b < 128 ==> b & 0x80 == 0) by (bit_vector);
    }
    assert(bytes.subrange(0, 0) =~= Seq::<u8>::empty());
    assert(vstd::utf8::partial_valid_utf8(bytes, 0));
    vstd::utf8::partial_valid_utf8_extend_ascii_block(bytes, 0, bytes.len() as int);
    assert(bytes.subrange(0, bytes.len() as int) =~= bytes);
}

/// The line of a record with a well-formed name is UTF-8.
pub proof fn lemma_line_valid(entry: TableEntry)
    requires
        entry matches TableEntry::Name(named) ==> named.name.wf(),
    ensures
        valid_utf8(entry_line(entry)),
{
    let value = decimal(entry.spec_value() as nat);
    lemma_decimal_digits(entry.spec_value() as nat);
    let tail = separator() + value + newline();
    lemma_ascii_valid(tail);
    match entry {
        TableEntry::Hash(hashed) => {
            lemma_decimal_digits(hashed.hash as nat);
            lemma_ascii_valid(entry_key(entry));
        },
        TableEntry::Name(named) => {},
    }
    vstd::utf8::valid_utf8_concat(entry_key(entry), tail);
    assert(entry_line(entry) =~= entry_key(entry) + tail);
}

/// The lines of records with well-formed names are UTF-8.
pub proof fn lemma_lines_valid(entries: Seq<TableEntry>)
    requires
        forall|i: int|
            0 <= i < entries.len() ==> (#[trigger] entries[i] matches TableEntry::Name(named)
                ==> named.name.wf()),
    ensures
        valid_utf8(lines(entries)),
    decreases entries.len(),
{
    if entries.len() > 0 {
        let before = entries.drop_last();
        assert forall|i: int| 0 <= i < before.len() implies (#[trigger] before[i] matches TableEntry::Name(
            named,
        ) ==> named.name.wf()) by {
            assert(before[i] == entries[i]);
        }
        lemma_lines_valid(before);
        assert(entries[entries.len() - 1] == entries.last());
        lemma_line_valid(entries.last());
        vstd::utf8::valid_utf8_concat(lines(before), entry_line(entries.last()));
    }
}

/// Appends `value` in decimal.
pub fn push_decimal(out: &mut Vec<u8>, value: u32)
    ensures
        final(out)@ == old(out)@ + decimal(value as nat),
{
    let mut digits = [0u8; 10];
    let len = write_decimal(value, &mut digits, 0);
    proof {
        lemma_decimal_u32(value);
    }
    let written = vstd::slice::slice_subrange(digits.as_slice(), 0, len);
    proof {
        assert(written@ =~= decimal(value as nat));
    }
    out.extend_from_slice(written);
}

/// Appends the line of `entry`.
pub fn push_line(out: &mut Vec<u8>, entry: &TableEntry)
    ensures
        final(out)@ == old(out)@ + entry_line(*entry),
{
    match entry {
        TableEntry::Hash(hashed) => {
            push_decimal(out, hashed.hash);
        },
        TableEntry::Name(named) => {
            out.extend_from_slice(named.name.as_bytes());
        },
    }
    out.push(58u8);
    out.push(32u8);
    push_decimal(out, entry.value());
    out.push(10u8);
    proof {
        assert(out@ =~= old(out)@ + entry_line(*entry));
    }
}

/// The room that the line of a record may take: ten digits for a hash or
/// 160 bytes for a name, the separator, ten digits for the size, and the
/// line feed.
pub open spec fn line_room(entry: TableEntry) -> int {
    match entry {
        TableEntry::Hash(_) => 23,
        TableEntry::Name(_) => 173,
    }
}

/// A line fits in its room.
pub proof fn lemma_line_room(entry: TableEntry)
    requires
        entry matches TableEntry::Name(named) ==> named.name.wf(),
    ensures
        entry_line(entry).len() <= line_room(entry),
        entry_key(entry).len() + 2 + DECIMAL_SIZE + 1 <= line_room(entry),
        entry_line(entry).len() == entry_key(entry).len() + 2 + decimal(
            entry.spec_value() as nat,
        ).len() + 1,
{
    lemma_decimal_u32(entry.spec_value());
    match entry {
        TableEntry::Hash(hashed) => {
            lemma_decimal_u32(hashed.hash);
        },
        TableEntry::Name(named) => {},
    }
}

/// Writes the line of `entry` over `buffer` from index `at` on, and
/// returns the index after it.
pub fn write_line(buffer: &mut [u8], at: usize, entry: &TableEntry) -> (end: usize)
    requires
        at + line_room(*entry) <= old(buffer)@.len(),
    ensures
        end == at + entry_line(*entry).len(),
        final(buffer)@ == splice(old(buffer)@, at as int, entry_line(*entry)),
{
    let size: usize = buffer.len();
    let mut pos: usize = at;
    match entry {
        TableEntry::Hash(hashed) => {
            proof {
                lemma_line_room(*entry);
            }
            pos = pos + write_decimal(hashed.hash, buffer, pos);
        },
        TableEntry::Name(named) => {
            let name = named.name.as_bytes();
            proof {
                lemma_line_room(*entry);
            }
            copy_into(buffer, pos, name);
            pos = pos + name.len();
        },
    }
    proof {
        assert(buffer@ =~= splice(old(buffer)@, at as int, entry_key(*entry)));
    }
    buffer[pos] = 58u8;
    buffer[pos + 1] = 32u8;
    pos = pos + 2;
    pos = pos + write_decimal(entry.value(), buffer, pos);
    buffer[pos] = 10u8;
    pos = pos + 1;
    proof {
        assert(buffer@ =~= splice(old(buffer)@, at as int, entry_line(*entry)));
    }
    pos
}

impl<'a> ResTblReader<'a> {
    /// The room that the text form of the records may take.
    pub open spec fn text_room(&self) -> int {
        23 * self.hash_count() + 173 * self.name_count()
    }

    /// Writes the text form of the records over the start of `buffer`,
    /// which has room for it, and returns its length.
    pub fn write_text_to_buf_unchecked(&self, buffer: &mut [u8]) -> (len: usize)
        requires
            self.text_room() <= old(buffer)@.len(),
        ensures
            len == lines(self.entries()).len(),
            final(buffer)@ == splice(old(buffer)@, 0, lines(self.entries())),
    {
        let size: usize = buffer.len();
        let mut it = self.iter();
        let ghost all = self.entries();
        let ghost hashes = self.hash_count();
        let ghost names = self.name_count();
        let ghost mut done: int = 0;
        proof {
            use_type_invariant(self);
            self.lemma_wf();
        }
        proof {
            crate::bin::lemma_decodable(self.bytes(), self.spec_header(), 0);
            assert(buffer@ =~= splice(old(buffer)@, 0, lines(all.take(0))));
        }
        let mut pos: usize = 0;
        let mut next = it.next();
        while next.is_some()
            invariant
                self.wf(),
                all == self.entries(),
                hashes == self.hash_count(),
                names == self.name_count(),
                it.table() == self,
                0 <= done <= all.len(),
                all.len() <= hashes + names,
                it.position() == done + if next is Some {
                    1int
                } else {
                    0int
                },
                next matches Some(entry) ==> done < all.len() && entry == all[done],
                next matches Some(TableEntry::Name(entry)) ==> entry.name.wf(),
                next is None ==> done == all.len(),
                size == buffer@.len() == old(buffer)@.len(),
                23 * hashes + 173 * names <= size,
                pos == lines(all.take(done)).len(),
                pos <= if done < hashes {
                    23 * done
                } else {
                    23 * hashes + 173 * (done - hashes)
                },
                buffer@ == splice(old(buffer)@, 0, lines(all.take(done))),
            decreases all.len() - done,
        {
            let entry = next.unwrap();
            proof {
                lemma_line_room(entry);
                assert(all.take(done + 1).drop_last() =~= all.take(done));
                assert(all.take(done + 1).last() == entry);
            }
            pos = write_line(buffer, pos, &entry);
            proof {
                assert(buffer@ =~= splice(old(buffer)@, 0, lines(all.take(done + 1))));
                done = done + 1;
            }
            next = it.next();
        }
        proof {
            assert(all.take(done) =~= all);
        }
        pos
    }

    /// Writes the text form of the records over the start of `buffer` and
    /// returns its length, if the buffer has the room that the text form
    /// of this many records may take.
    pub fn write_text_to_buf(&self, buffer: &mut [u8]) -> (r: Result<usize, Error>)
        ensures
            old(buffer)@.len() < self.text_room() ==> r == Err::<usize, Error>(
                Error::InsufficientBuffer(old(buffer)@.len() as usize, self.text_room() as u64),
            ) && final(buffer)@ == old(buffer)@,
            old(buffer)@.len() >= self.text_room() ==> r == Ok::<usize, Error>(
                lines(self.entries()).len() as usize,
            ) && final(buffer)@ == splice(old(buffer)@, 0, lines(self.entries())),
    {
        let header = self.header();
        let min_size: u64 = header.crc_table_count as u64 * 23 + header.name_table_count as u64
            * 173;
        if (buffer.len() as u64) < min_size {
            Err(Error::InsufficientBuffer(buffer.len(), min_size))
        } else {
            Ok(self.write_text_to_buf_unchecked(buffer))
        }
    }

    /// The text form of the records.
    pub fn to_text(&self) -> (text: String)
        ensures
            encode_utf8(text@) == lines(self.entries()),
    {
        let mut out: Vec<u8> = Vec::new();
        let mut it = self.iter();
        let ghost all = self.entries();
        let ghost mut done: int = 0;
        let mut next = it.next();
        while next.is_some()
            invariant
                all == self.entries(),
                it.table() == self,
                0 <= done <= all.len(),
                it.position() == done + if next is Some {
                    1int
                } else {
                    0int
                },
                next matches Some(entry) ==> done < all.len() && entry == all[done],
                next matches Some(TableEntry::Name(entry)) ==> entry.name.wf(),
                next is None ==> done == all.len(),
                out@ == lines(all.take(done)),
                forall|i: int|
                    0 <= i < done ==> (#[trigger] all[i] matches TableEntry::Name(named)
                        ==> named.name.wf()),
            decreases all.len() - done,
        {
            let entry = next.unwrap();
            proof {
                assert(all.take(done + 1).drop_last() =~= all.take(done));
                assert(all.take(done + 1).last() == entry);
            }
            push_line(&mut out, &entry);
            proof {
                done = done + 1;
            }
            next = it.next();
        }
        proof {
            assert(all.take(done) =~= all);
            lemma_lines_valid(all);
        }
        string_from_utf8(out).unwrap()
    }
}

impl ResourceSizeTable {
    /// The text form of the table: a line for each size by hash in
    /// ascending order of the hashes, then a line for each size by name in
    /// ascending order of the names.
    pub fn to_text(&self) -> (text: String)
        ensures
            encode_utf8(text@) == text_of(self@),
    {
        let all = self.entries();
        let mut out: Vec<u8> = Vec::new();
        let mut i: usize = 0;
        while i < all.len()
            invariant
                i <= all@.len(),
                out@ == lines(all@.take(i as int)),
            decreases all@.len() - i,
        {
            proof {
                assert(all@.take(i + 1).drop_last() =~= all@.take(i as int));
                assert(all@.take(i + 1).last() == all@[i as int]);
            }
            push_line(&mut out, &all[i]);
            i += 1;
        }
        proof {
            assert(all@.take(i as int) =~= all@);
            lemma_lines_valid(all@);
        }
        string_from_utf8(out).unwrap()
    }
}

} // verus!

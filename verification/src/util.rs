use vstd::prelude::*;
use vstd::string::StringSliceAdditionalSpecFns;
use vstd::utf8::valid_utf8;
use vstd::std_specs::cmp::PartialEqSpecImpl;
use vstd::std_specs::convert::TryFromSpecImpl;
use crate::error::Error;
use crate::order::Position;
use crate::order::compare_bytes;
use crate::order::position;

verus! {

/// One shift of the reflected CRC-32 register.
pub open spec fn crc_shift(crc: u32) -> u32 {
    if crc & 1 == 1 {
        (crc >> 1) ^ 0xEDB88320
    } else {
        crc >> 1
    }
}

/// The register after `n` shifts.
pub open spec fn crc_rounds(crc: u32, n: nat) -> u32
    decreases n,
{
    if n == 0 {
        crc
    } else {
        crc_shift(crc_rounds(crc, (n - 1) as nat))
    }
}

/// The register after one more byte of input.
pub open spec fn crc_byte(crc: u32, byte: u8) -> u32 {
    crc_rounds(crc ^ (byte as u32), 8)
}

/// The register after all of `bytes`, starting from all ones.
pub open spec fn crc_register(bytes: Seq<u8>) -> u32
    decreases bytes.len(),
{
    if bytes.len() == 0 {
        0xFFFFFFFF
    } else {
        crc_byte(crc_register(bytes.drop_last()), bytes.last())
    }
}

/// The CRC-32 of `bytes`: polynomial 0xEDB88320, reflected, register
/// initialised to all ones and complemented at the end.
pub open spec fn spec_hash(bytes: Seq<u8>) -> u32 {
    !crc_register(bytes)
}

/// CRC-32 of a byte string.
pub fn hash_bytes(bytes: &[u8]) -> (h: u32)
    ensures
        h == spec_hash(bytes@),
{
    let mut crc: u32 = 0xFFFFFFFF;
    let mut i: usize = 0;
    while i < bytes.len()
        invariant
            i <= bytes.len(),
            crc == crc_register(bytes@.take(i as int)),
        decreases bytes.len() - i,
    {
        let ghost before = crc;
        crc ^= bytes[i] as u32;
        let mut j: u8 = 0;
        while j < 8
            invariant
                j <= 8,
                crc == crc_rounds(before ^ (bytes[i as int] as u32), j as nat),
            decreases 8 - j,
        {
            if crc & 1 == 1 {
                crc = (crc >> 1) ^ 0xEDB88320;
            } else {
                crc >>= 1;
            }
            j += 1;
        }
        proof {
            let next = bytes@.take(i + 1);
            assert(next.drop_last() =~= bytes@.take(i as int));
            assert(next.last() == bytes[i as int]);
        }
        i += 1;
    }
    proof {
        assert(bytes@.take(i as int) =~= bytes@);
    }
    !crc
}

/// The hash under which the game looks up the resource at `name`.
pub fn hash_name(name: &str) -> (h: u32)
    ensures
        h == spec_hash(name.spec_bytes()),
{
    hash_bytes(name.as_bytes())
}

/// The `u32` that four bytes hold, least significant byte first.
pub open spec fn le_u32(b: Seq<u8>) -> u32
    recommends
        b.len() >= 4,
{
    (b[0] as u32) | (b[1] as u32) << 8 | (b[2] as u32) << 16 | (b[3] as u32) << 24
}

/// The four bytes that hold `x`, least significant byte first.
pub open spec fn le_bytes(x: u32) -> Seq<u8> {
    seq![
        (x & 0xff) as u8,
        ((x >> 8) & 0xff) as u8,
        ((x >> 16) & 0xff) as u8,
        ((x >> 24) & 0xff) as u8,
    ]
}

/// Decoding what was encoded gives the number back.
pub proof fn lemma_le_decode_encode(x: u32)
    ensures
        le_u32(le_bytes(x)) == x,
{
    assert(((x & 0xff) as u8 as u32) | (((x >> 8) & 0xff) as u8 as u32) << 8 | (((x >> 16)
        & 0xff) as u8 as u32) << 16 | (((x >> 24) & 0xff) as u8 as u32) << 24 == x)
        by (bit_vector);
}

/// Encoding what was decoded gives the four bytes back.
pub proof fn lemma_le_encode_decode(b: Seq<u8>)
    requires
        b.len() == 4,
    ensures
        le_bytes(le_u32(b)) == b,
{
    let (b0, b1, b2, b3) = (b[0], b[1], b[2], b[3]);
    let x = le_u32(b);
    assert(x == (b0 as u32) | (b1 as u32) << 8 | (b2 as u32) << 16 | (b3 as u32) << 24);
    assert(x == (b0 as u32) | (b1 as u32) << 8 | (b2 as u32) << 16 | (b3 as u32) << 24 ==> (x
        & 0xff) as u8 == b0 && ((x >> 8) & 0xff) as u8 == b1 && ((x >> 16) & 0xff) as u8 == b2
        && ((x >> 24) & 0xff) as u8 == b3) by (bit_vector);
    assert(le_bytes(x) =~= b);
}

/// `buffer` with `part` written over it from index `at` on.
pub open spec fn splice(buffer: Seq<u8>, at: int, part: Seq<u8>) -> Seq<u8>
    recommends
        0 <= at,
        at + part.len() <= buffer.len(),
{
    buffer.take(at) + part + buffer.skip(at + part.len())
}

/// Writes `part` over `buffer` from index `at` on.
pub fn copy_into(buffer: &mut [u8], at: usize, part: &[u8])
    requires
        at + part@.len() <= old(buffer)@.len(),
    ensures
        final(buffer)@ == splice(old(buffer)@, at as int, part@),
{
    let size: usize = buffer.len();
    let mut i: usize = 0;
    while i < part.len()
        invariant
            i <= part@.len(),
            buffer@.len() == old(buffer)@.len(),
            at + part@.len() <= size == buffer@.len(),
            buffer@ == splice(old(buffer)@, at as int, part@.take(i as int)),
        decreases part@.len() - i,
    {
        buffer[at + i] = part[i];
        proof {
            assert(buffer@ =~= splice(old(buffer)@, at as int, part@.take(i + 1)));
        }
        i += 1;
    }
    proof {
        assert(part@.take(i as int) =~= part@);
    }
}

/// Writes `x` over four bytes of `buffer` from index `at` on, least
/// significant byte first.
pub fn write_u32(buffer: &mut [u8], at: usize, x: u32)
    requires
        at + 4 <= old(buffer)@.len(),
    ensures
        final(buffer)@ == splice(old(buffer)@, at as int, le_bytes(x)),
{
    let bytes: [u8; 4] = [
        (x & 0xff) as u8,
        ((x >> 8) & 0xff) as u8,
        ((x >> 16) & 0xff) as u8,
        ((x >> 24) & 0xff) as u8,
    ];
    proof {
        assert(bytes@ =~= le_bytes(x));
    }
    copy_into(buffer, at, bytes.as_slice());
}

/// Reads the little-endian `u32` at `offset`, or at the start of `value`
/// where no offset is given.
pub fn read_u32(value: &[u8], offset: Option<usize>) -> (r: Result<u32, Error>)
    requires
        offset matches Some(o) ==> o <= value@.len(),
    ensures
        ({
            let o = if let Some(o) = offset { o as int } else { 0 };
            if value@.len() < o + 4 {
                r == Err::<u32, Error>(
                    Error::InsufficientData((value@.len() - o) as usize, "4 bytes for u32"),
                )
            } else {
                r == Ok::<u32, Error>(le_u32(value@.subrange(o, o + 4)))
            }
        }),
{
    let offset: usize = match offset {
        Some(o) => o,
        None => 0,
    };
    if value.len() - offset < 4 {
        Err(Error::InsufficientData(value.len() - offset, "4 bytes for u32"))
    } else {
        Ok(read_stored(value, offset))
    }
}

/// Reads the little-endian `u32` stored at `at`, which the caller knows to
/// be there.
pub fn read_stored(data: &[u8], at: usize) -> (x: u32)
    requires
        at + 4 <= data@.len(),
    ensures
        x == le_u32(data@.subrange(at as int, at + 4)),
{
    let b0 = data[at] as u32;
    let b1 = data[at + 1] as u32;
    let b2 = data[at + 2] as u32;
    let b3 = data[at + 3] as u32;
    b0 | b1 << 8 | b2 << 16 | b3 << 24
}

/// The byte length of a name field.
pub const NAME_SIZE: usize = 160;

/// The index of the first zero byte of `bytes`, or their number where none
/// of them is zero.
pub open spec fn first_zero(bytes: Seq<u8>) -> int
    decreases bytes.len(),
{
    if bytes.len() == 0 || bytes[0] == 0 {
        0
    } else {
        1 + first_zero(bytes.drop_first())
    }
}

/// `first_zero` is in range, no byte before it is zero, and the byte at it
/// is zero where there is one.
pub proof fn lemma_first_zero(bytes: Seq<u8>)
    ensures
        0 <= first_zero(bytes) <= bytes.len(),
        forall|i: int| 0 <= i < first_zero(bytes) ==> bytes[i] != 0,
        first_zero(bytes) < bytes.len() ==> bytes[first_zero(bytes)] == 0,
    decreases bytes.len(),
{
    if bytes.len() > 0 && bytes[0] != 0 {
        let rest = bytes.drop_first();
        lemma_first_zero(rest);
        assert forall|i: int| 0 <= i < first_zero(bytes) implies bytes[i] != 0 by {
            if i > 0 {
                assert(bytes[i] == rest[i - 1]);
            }
        }
    }
}

/// Only one index has no zero byte before it and a zero byte, or the end,
/// at it.
pub proof fn lemma_first_zero_is(bytes: Seq<u8>, z: int)
    requires
        0 <= z <= bytes.len(),
        forall|i: int| 0 <= i < z ==> bytes[i] != 0,
        z < bytes.len() ==> bytes[z] == 0,
    ensures
        first_zero(bytes) == z,
{
    lemma_first_zero(bytes);
}

/// The name that a field or a byte string spells: what stands before the
/// first zero byte among at most `NAME_SIZE` bytes.
pub open spec fn name_prefix(bytes: Seq<u8>) -> Seq<u8> {
    let field = if bytes.len() > NAME_SIZE {
        bytes.take(NAME_SIZE as int)
    } else {
        bytes
    };
    field.take(first_zero(field))
}

/// Whether a field or a byte string spells a name: it ends before the
/// field does, and it is UTF-8.
pub open spec fn spells_name(bytes: Seq<u8>) -> bool {
    name_prefix(bytes).len() < NAME_SIZE && valid_utf8(name_prefix(bytes))
}

/// A name field: the name, then zero bytes up to `NAME_SIZE`.
pub open spec fn padded(name: Seq<u8>) -> Seq<u8>
    recommends
        name.len() <= NAME_SIZE,
{
    name + Seq::new((NAME_SIZE - name.len()) as nat, |i: int| 0u8)
}

/// A padded name fills the field.
pub proof fn lemma_padded_len(name: Seq<u8>)
    requires
        name.len() <= NAME_SIZE,
    ensures
        padded(name).len() == NAME_SIZE,
{
}

/// A field that spells a name and is zero after it is the padded name.
pub proof fn lemma_padded_prefix(name: Seq<u8>)
    requires
        name.len() < NAME_SIZE,
        forall|i: int| 0 <= i < name.len() ==> name[i] != 0,
    ensures
        padded(name).len() == NAME_SIZE,
        name_prefix(padded(name)) == name,
{
    let field = padded(name);
    lemma_first_zero_is(field, name.len() as int);
    assert(field.take(name.len() as int) =~= name);
}

/// A resource path of at most 159 bytes, stored in a field of 160.
#[derive(Clone, Copy, Debug)]
pub struct Name {
    inner: [u8; 160],
}

impl View for Name {
    type V = Seq<u8>;

    /// The bytes of the path.
    closed spec fn view(&self) -> Seq<u8> {
        name_prefix(self.inner@)
    }
}

impl Name {
    /// The field as it is stored.
    pub closed spec fn field(self) -> Seq<u8> {
        self.inner@
    }

    /// The name ends before the field does, is UTF-8, and only zero bytes
    /// follow it.
    pub open spec fn wf(self) -> bool {
        &&& self@.len() < NAME_SIZE
        &&& valid_utf8(self@)
        &&& forall|i: int| 0 <= i < self@.len() ==> self@[i] != 0
        &&& self.field() == padded(self@)
    }

    /// Every name is well-formed.
    #[verifier::type_invariant]
    spec fn inv(self) -> bool {
        self.wf()
    }

    /// Two well-formed names with the same bytes are the same value.
    pub proof fn lemma_view_injective(self, other: Name)
        requires
            self.wf(),
            other.wf(),
            self@ == other@,
        ensures
            self == other,
    {
        assert(self.inner@ =~= other.inner@);
        assert(self.inner == other.inner);
    }

    /// The well-formed name with the bytes `name`.
    pub open spec fn of(name: Seq<u8>) -> Name {
        choose|n: Name| n.wf() && n@ == name
    }

    /// What a field or a byte string decodes to: the name it spells, or an
    /// error where it spells none.
    pub open spec fn decode(bytes: Seq<u8>) -> Result<Name, Error> {
        if spells_name(bytes) {
            Ok(Name::of(name_prefix(bytes)))
        } else {
            Err(Error::Utf8Error)
        }
    }

    /// The field that holds the first `n` bytes of `name`, and zero bytes
    /// after them.
    spec fn field_of(name: Seq<u8>, n: int) -> [u8; 160]
        decreases n,
    {
        if n <= 0 {
            vstd::array::spec_array_fill_for_copy_type::<u8, 160>(0u8)
        } else {
            vstd::array::spec_array_update(Name::field_of(name, n - 1), n - 1, name[n - 1])
        }
    }

    /// `field_of` is the padded prefix.
    proof fn lemma_field_of(name: Seq<u8>, n: int)
        requires
            0 <= n <= name.len() <= NAME_SIZE,
        ensures
            Name::field_of(name, n)@ == padded(name.take(n)),
        decreases n,
    {
        broadcast use vstd::array::group_array_axioms;

        if n <= 0 {
            assert(Name::field_of(name, n)@ =~= padded(name.take(n)));
        } else {
            Name::lemma_field_of(name, n - 1);
            assert(Name::field_of(name, n)@ =~= padded(name.take(n)));
        }
    }

    /// Every byte string that can be a name is the bytes of a well-formed
    /// name.
    pub proof fn lemma_of(name: Seq<u8>)
        requires
            name.len() < NAME_SIZE,
            valid_utf8(name),
            forall|i: int| 0 <= i < name.len() ==> name[i] != 0,
        ensures
            Name::of(name).wf(),
            Name::of(name)@ == name,
    {
        let made = Name { inner: Name::field_of(name, name.len() as int) };
        Name::lemma_field_of(name, name.len() as int);
        assert(name.take(name.len() as int) =~= name);
        lemma_padded_prefix(name);
        assert(made.wf() && made@ == name);
    }

    /// What decodes is a well-formed name with the bytes that the field
    /// spells.
    pub proof fn lemma_decode(bytes: Seq<u8>)
        ensures
            Name::decode(bytes) matches Ok(name) ==> name.wf() && name@ == name_prefix(bytes),
    {
        if spells_name(bytes) {
            let field = if bytes.len() > NAME_SIZE {
                bytes.take(NAME_SIZE as int)
            } else {
                bytes
            };
            lemma_first_zero(field);
            Name::lemma_of(name_prefix(bytes));
        }
    }

    /// A well-formed name is the name of its bytes.
    pub proof fn lemma_of_view(self)
        requires
            self.wf(),
        ensures
            Name::of(self@) == self,
    {
        Name::of(self@).lemma_view_injective(self);
    }

    /// The name that `value` spells, if it spells one.
    pub fn from_bytes(value: &[u8]) -> (r: Result<Name, Error>)
        ensures
            r == Name::decode(value@),
            r matches Ok(n) ==> n.wf() && n@ == name_prefix(value@),
    {
        let mut inner: [u8; 160] = [0u8; 160];
        let limit: usize = if value.len() > NAME_SIZE {
            NAME_SIZE
        } else {
            value.len()
        };
        let ghost source = if value@.len() > NAME_SIZE {
            value@.take(NAME_SIZE as int)
        } else {
            value@
        };
        let mut len: usize = 0;
        while len < limit && value[len] != 0
            invariant
                len <= limit,
                limit == source.len(),
                limit <= NAME_SIZE,
                limit <= value@.len(),
                forall|i: int| 0 <= i < limit ==> source[i] == value@[i],
                forall|i: int| 0 <= i < len ==> inner@[i] == source[i] && source[i] != 0,
                forall|i: int| len <= i < NAME_SIZE ==> inner@[i] == 0,
            decreases limit - len,
        {
            inner[len] = value[len];
            len += 1;
        }
        proof {
            lemma_first_zero_is(source, len as int);
        }
        if len == NAME_SIZE {
            return Err(Error::Utf8Error);
        }
        let copied = vstd::slice::slice_subrange(value, 0, len);
        proof {
            assert(copied@ =~= name_prefix(value@));
        }
        if utf8_str(copied).is_none() {
            return Err(Error::Utf8Error);
        }
        proof {
            assert(inner@ =~= padded(copied@));
            lemma_padded_prefix(copied@);
        }
        let name = Name { inner };
        proof {
            name.lemma_of_view();
        }
        Ok(name)
    }

    /// The number of bytes of the name.
    pub fn len(&self) -> (n: usize)
        ensures
            n == self@.len(),
            n < NAME_SIZE,
            self.wf(),
    {
        proof {
            use_type_invariant(self);
            lemma_first_zero(self.inner@);
        }
        let mut n: usize = 0;
        while n < NAME_SIZE && self.inner[n] != 0
            invariant
                n <= NAME_SIZE,
                forall|i: int| 0 <= i < n ==> self.inner@[i] != 0,
            decreases NAME_SIZE - n,
        {
            n += 1;
        }
        proof {
            lemma_first_zero_is(self.inner@, n as int);
        }
        n
    }

    /// The bytes of the name.
    pub fn as_bytes(&self) -> (bytes: &[u8])
        ensures
            bytes@ == self@,
            self.wf(),
    {
        let n = self.len();
        let whole = self.inner.as_slice();
        let bytes = vstd::slice::slice_subrange(whole, 0, n);
        proof {
            lemma_first_zero(self.inner@);
            assert(whole@ == self.inner@);
            assert(bytes@ =~= self@);
        }
        bytes
    }

    /// The whole field: the name and the zero bytes after it.
    pub fn as_field(&self) -> (bytes: &[u8])
        ensures
            bytes@ == self.field(),
            bytes@.len() == NAME_SIZE,
            self.wf(),
    {
        proof {
            use_type_invariant(self);
        }
        self.inner.as_slice()
    }

    /// The name as a string.
    pub fn as_str(&self) -> (s: &str)
        ensures
            s.spec_bytes() == self@,
    {
        proof {
            use_type_invariant(self);
        }
        utf8_str(self.as_bytes()).unwrap()
    }

    /// Where this name stands relative to a path, in the order of `str`.
    pub fn compare(&self, path: &[u8]) -> (r: Position)
        ensures
            r == position(self@, path@),
    {
        compare_bytes(self.as_bytes(), path)
    }
}

/// The string that `bytes` encode, from `core::str::from_utf8`: a string
/// with these very bytes where they are well-formed UTF-8, and none
/// otherwise.
#[verifier::external_body]
fn utf8_str(bytes: &[u8]) -> (r: Option<&str>)
    ensures
        r is Some == valid_utf8(bytes@),
        r matches Some(s) ==> s.spec_bytes() == bytes@,
{
    core::str::from_utf8(bytes).ok()
}

impl PartialEq for Name {
    fn eq(&self, other: &Name) -> (r: bool) {
        proof {
            use_type_invariant(self);
            use_type_invariant(other);
            if self@ == other@ {
                self.lemma_view_injective(*other);
            }
        }
        match compare_bytes(self.as_bytes(), other.as_bytes()) {
            Position::Same => true,
            _ => false,
        }
    }
}

impl PartialEqSpecImpl for Name {
    open spec fn obeys_eq_spec() -> bool {
        true
    }

    open spec fn eq_spec(&self, other: &Name) -> bool {
        self@ == other@
    }
}

impl Eq for Name {

}

impl<'a> TryFrom<&'a [u8]> for Name {
    type Error = Error;

    fn try_from(value: &'a [u8]) -> (r: Result<Name, Error>) {
        Name::from_bytes(value)
    }
}

impl<'a> TryFromSpecImpl<&'a [u8]> for Name {
    open spec fn obeys_try_from_spec() -> bool {
        true
    }

    open spec fn try_from_spec(value: &'a [u8]) -> Result<Name, Error> {
        Name::decode(value@)
    }
}

} // verus!

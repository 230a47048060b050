//! Header fields, and the QPACK coder of the `qpack` crate that packs them into blocks.
use vstd::prelude::*;
use vstd::utf8::{decode_utf8, encode_utf8, valid_utf8};

verus! {

/// `qpack::EncoderError`, the reason why fields could not be packed.
#[verifier::external_type_specification]
#[verifier::external_body]
pub struct ExEncoderError(qpack::EncoderError);

/// `qpack::DecoderError`, the reason why a block could not be unpacked.
#[verifier::external_type_specification]
#[verifier::external_body]
pub struct ExDecoderError(qpack::DecoderError);

/// A header field.
#[derive(Debug)]
pub struct HeaderField {
    pub name: Vec<u8>,
    pub value: Vec<u8>,
}

/// A name and a value.
pub type FieldView = (Seq<u8>, Seq<u8>);

impl View for HeaderField {
    type V = FieldView;

    open spec fn view(&self) -> FieldView {
        (self.name@, self.value@)
    }
}

/// The names and values of several fields.
pub open spec fn field_views(fields: Seq<HeaderField>) -> Seq<FieldView> {
    fields.map_values(|field: HeaderField| field@)
}

/// The size of several fields as QPACK counts it: their bytes, and 32 more for each field.
pub open spec fn fields_size(fields: Seq<FieldView>) -> nat
    decreases fields.len(),
{
    if fields.len() == 0 {
        0
    } else {
        fields_size(fields.drop_last()) + fields.last().0.len() + fields.last().1.len() + 32
    }
}

/// The longest block that is unpacked: the coder counts the bits of a string in 32 bits.
pub const MAX_BLOCK_LEN: usize = 0x1fff_0000;

/// The longest name or value that is packed.
pub const MAX_TEXT_LEN: usize = 0x800_0000;

/// The block that `qpack::encode_stateless` packs fields into, or `None` where it fails.
pub uninterp spec fn qpack_block(fields: Seq<FieldView>) -> Option<Seq<u8>>;

/// The fields that `qpack::decode_stateless` unpacks a block into, or `None` where it fails.
pub uninterp spec fn qpack_fields(block: Seq<u8>, max_size: u64) -> Option<Seq<FieldView>>;

/// `qpack::encode_stateless`, which packs fields into a block that stands for itself. Unpacking
/// the block gives back the fields, unless their size is over the limit. The block starts with two
/// bytes; after them a field takes at most two numbers of ten bytes each, and four bytes for each
/// byte of its name and value. The coder counts in 32 bits, and overflows on names and values that
/// are longer than it asks for here.
#[verifier::external_body]
pub(crate) fn encode_fields(fields: &Vec<HeaderField>) -> (block: Result<
    Vec<u8>,
    qpack::EncoderError,
>)
    requires
        forall|i: int|
            0 <= i < fields@.len() ==> #[trigger] fields@[i].name@.len() <= MAX_TEXT_LEN
                && fields@[i].value@.len() <= MAX_TEXT_LEN,
    ensures
        match block {
            Ok(block) => qpack_block(field_views(fields@)) == Some(block@),
            Err(_) => qpack_block(field_views(fields@)) is None,
        },
        block matches Ok(block) ==> forall|max_size: u64|
            fields_size(field_views(fields@)) <= max_size ==> #[trigger] qpack_fields(
                block@,
                max_size,
            ) == Some(field_views(fields@)),
        block matches Ok(block) ==> block@.len() <= 4 * fields_size(field_views(fields@)) + 2,
{
    let field = |field: &HeaderField| qpack::HeaderField::new(&field.name[..], &field.value[..]);
    let fields = fields.iter().map(field);
    let mut block = Vec::new();
    qpack::encode_stateless(&mut block, fields)?;
    Ok(block)
}

/// `qpack::decode_stateless`, which unpacks a block that stands for itself, and fails on one whose
/// fields have a size over `max_size`. The coder counts in 32 bits, and overflows on a string of
/// half a gigabyte.
#[verifier::external_body]
pub(crate) fn decode_fields(block: &[u8], max_size: u64) -> (fields: Result<
    Vec<HeaderField>,
    qpack::DecoderError,
>)
    requires
        block@.len() <= MAX_BLOCK_LEN,
    ensures
        match fields {
            Ok(fields) => qpack_fields(block@, max_size) == Some(field_views(fields@)),
            Err(_) => qpack_fields(block@, max_size) is None,
        },
{
    let mut block = std::io::Cursor::new(block);
    let decoded = qpack::decode_stateless(&mut block, max_size)?;
    let fields = decoded.fields.into_iter().map(|field| field.into_inner());
    Ok(fields.map(|(name, value)| HeaderField { name: name.into(), value: value.into() }).collect())
}

/// `String::from_utf8`: the text whose UTF-8 bytes are given, if they are UTF-8.
#[verifier::external_body]
pub(crate) fn utf8_text(bytes: Vec<u8>) -> (text: Option<String>)
    ensures
        text is Some <==> valid_utf8(bytes@),
        text matches Some(text) ==> text@ == decode_utf8(bytes@),
{
    String::from_utf8(bytes).ok()
}

/// A header field made of two texts.
pub(crate) fn text_field(name: &str, value: &str) -> (field: HeaderField)
    ensures
        field@ == (encode_utf8(name@), encode_utf8(value@)),
{
    HeaderField {
        name: vstd::slice::slice_to_vec(name.as_bytes()),
        value: vstd::slice::slice_to_vec(value.as_bytes()),
    }
}

/// Whether two slices hold the same bytes.
pub(crate) fn same_bytes(left: &[u8], right: &[u8]) -> (same: bool)
    ensures
        same == (left@ == right@),
{
    if left.len() != right.len() {
        return false;
    }
    let mut i: usize = 0;
    while i < left.len()
        invariant
            i <= left@.len() == right@.len(),
            left@.take(i as int) == right@.take(i as int),
        decreases left@.len() - i,
    {
        if left[i] != right[i] {
            assert(left@[i as int] != right@[i as int]);
            return false;
        }
        i = i + 1;
        assert(left@.take(i as int) =~= left@.take(i - 1).push(left@[i - 1]));
        assert(right@.take(i as int) =~= right@.take(i - 1).push(right@[i - 1]));
    }
    assert(left@.take(i as int) =~= left@);
    assert(right@.take(i as int) =~= right@);
    true
}

/// The value of the last field that has the name.
pub open spec fn last_value(fields: Seq<FieldView>, name: Seq<u8>) -> Option<Seq<u8>>
    decreases fields.len(),
{
    if fields.len() == 0 {
        None
    } else if fields.last().0 == name {
        Some(fields.last().1)
    } else {
        last_value(fields.drop_last(), name)
    }
}

/// The value of the first field that has the name.
pub open spec fn first_value(fields: Seq<FieldView>, name: Seq<u8>) -> Option<Seq<u8>>
    decreases fields.len(),
{
    if fields.len() == 0 {
        None
    } else if fields[0].0 == name {
        Some(fields[0].1)
    } else {
        first_value(fields.skip(1), name)
    }
}

/// Different texts have different UTF-8 bytes.
pub proof fn lemma_utf8_injective(left: Seq<char>, right: Seq<char>)
    ensures
        encode_utf8(left) == encode_utf8(right) ==> left == right,
{
    vstd::utf8::encode_utf8_decode_utf8(left);
    vstd::utf8::encode_utf8_decode_utf8(right);
}

/// The last value of a name is that of the field that has the name and that no field with the name
/// follows, and the first value that of the field that no field with the name precedes.
pub proof fn values_by_name(fields: Seq<FieldView>, name: Seq<u8>)
    ensures
        match last_value(fields, name) {
            Some(value) => exists|i: int|
                0 <= i < fields.len() && #[trigger] fields[i] == (name, value) && forall|j: int|
                    i < j < fields.len() ==> (#[trigger] fields[j]).0 != name,
            None => forall|i: int| 0 <= i < fields.len() ==> (#[trigger] fields[i]).0 != name,
        },
        match first_value(fields, name) {
            Some(value) => exists|i: int|
                0 <= i < fields.len() && #[trigger] fields[i] == (name, value) && forall|j: int|
                    0 <= j < i ==> (#[trigger] fields[j]).0 != name,
            None => forall|i: int| 0 <= i < fields.len() ==> (#[trigger] fields[i]).0 != name,
        },
{
    lemma_last_value(fields, name);
    lemma_first_value(fields, name);
}

proof fn lemma_last_value(fields: Seq<FieldView>, name: Seq<u8>)
    ensures
        match last_value(fields, name) {
            Some(value) => exists|i: int|
                0 <= i < fields.len() && #[trigger] fields[i] == (name, value) && forall|j: int|
                    i < j < fields.len() ==> (#[trigger] fields[j]).0 != name,
            None => forall|i: int| 0 <= i < fields.len() ==> (#[trigger] fields[i]).0 != name,
        },
    decreases fields.len(),
{
    if fields.len() > 0 {
        let last = fields.len() - 1;
        if fields[last].0 == name {
            assert(fields[last] == (name, fields[last].1));
        } else {
            let front = fields.drop_last();
            lemma_last_value(front, name);
            if let Some(value) = last_value(front, name) {
                let i = choose|i: int|
                    0 <= i < front.len() && #[trigger] front[i] == (name, value) && forall|j: int|
                        i < j < front.len() ==> (#[trigger] front[j]).0 != name;
                assert(fields[i] == (name, value));
                assert forall|j: int| i < j < fields.len() implies (#[trigger] fields[j]).0
                    != name by {
                    if j < last {
                        assert(front[j] == fields[j]);
                    }
                }
            } else {
                assert forall|i: int| 0 <= i < fields.len() implies (#[trigger] fields[i]).0
                    != name by {
                    if i < last {
                        assert(front[i] == fields[i]);
                    }
                }
            }
        }
    }
}

proof fn lemma_first_value(fields: Seq<FieldView>, name: Seq<u8>)
    ensures
        match first_value(fields, name) {
            Some(value) => exists|i: int|
                0 <= i < fields.len() && #[trigger] fields[i] == (name, value) && forall|j: int|
                    0 <= j < i ==> (#[trigger] fields[j]).0 != name,
            None => forall|i: int| 0 <= i < fields.len() ==> (#[trigger] fields[i]).0 != name,
        },
    decreases fields.len(),
{
    if fields.len() > 0 {
        if fields[0].0 == name {
            assert(fields[0] == (name, fields[0].1));
        } else {
            let rest = fields.skip(1);
            lemma_first_value(rest, name);
            if let Some(value) = first_value(rest, name) {
                let i = choose|i: int|
                    0 <= i < rest.len() && #[trigger] rest[i] == (name, value) && forall|j: int|
                        0 <= j < i ==> (#[trigger] rest[j]).0 != name;
                assert(fields[i + 1] == (name, value));
                assert forall|j: int| 0 <= j < i + 1 implies (#[trigger] fields[j]).0 != name by {
                    if j > 0 {
                        assert(rest[j - 1] == fields[j]);
                    }
                }
            } else {
                assert forall|i: int| 0 <= i < fields.len() implies (#[trigger] fields[i]).0
                    != name by {
                    if i > 0 {
                        assert(rest[i - 1] == fields[i]);
                    }
                }
            }
        }
    }
}

} // verus!

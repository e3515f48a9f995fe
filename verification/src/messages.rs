//! Messages: how they are declared, and how to read one by its declaration.
use crate::dictionary::Dictionary;
use crate::encoding::{FieldType, FieldValue, MessageDecodeError};
use crate::string_map::StringMap;
use crate::text::{chars_of, find_char, push_decimal, same_text, string_of};
use std::marker::PhantomData;
use vstd::prelude::*;

verus! {

/// What is wrong with the declaration of a message.
#[derive(Debug)]
pub enum MessageSkipperError {
    /// An argument is not of the form `name=type`
    InvalidArgumentFormat(String),
    /// An argument, the first, has an unknown type, the second
    UnknownType(String, String),
    /// A directive in an output format is unknown. This is the text behind its percent sign
    InvalidFormatFieldType(String),
}

/// What a [`MessageSkipperError`] says.
pub enum Fault {
    InvalidArgumentFormat(Seq<char>),
    UnknownType(Seq<char>, Seq<char>),
    InvalidFormatFieldType(Seq<char>),
}

impl View for MessageSkipperError {
    type V = Fault;

    open spec fn view(&self) -> Fault {
        match *self {
            MessageSkipperError::InvalidArgumentFormat(a) => Fault::InvalidArgumentFormat(a@),
            MessageSkipperError::UnknownType(a, t) => Fault::UnknownType(a@, t@),
            MessageSkipperError::InvalidFormatFieldType(t) => Fault::InvalidFormatFieldType(t@),
        }
    }
}

/// An argument of a message: its name and type.
pub type Field = (Seq<char>, FieldType);

/// The arguments in a list of names and types.
pub open spec fn fields_of(fields: Seq<(String, FieldType)>) -> Seq<Field> {
    Seq::new(fields.len(), |i: int| (fields[i].0@, fields[i].1))
}

/// The arguments in a list of borrowed names and types.
pub open spec fn borrowed_fields_of(fields: Seq<(&str, FieldType)>) -> Seq<Field> {
    Seq::new(fields.len(), |i: int| (fields[i].0@, fields[i].1))
}

/// The types of arguments.
pub open spec fn types_of(fields: Seq<Field>) -> Seq<FieldType> {
    Seq::new(fields.len(), |i: int| fields[i].1)
}

// ---------------------------------------------------------------------------
// Declarations as text
// ---------------------------------------------------------------------------

/// How an argument is declared.
pub open spec fn field_text(field: Field) -> Seq<char> {
    field.0 + seq!['='] + crate::encoding::directive(field.1)
}

/// How arguments are declared: one behind the other, with a space between each two.
pub open spec fn args_text(fields: Seq<Field>) -> Seq<char>
    decreases fields.len(),
{
    if fields.len() == 0 {
        Seq::empty()
    } else if fields.len() == 1 {
        field_text(fields[0])
    } else {
        args_text(fields.drop_last()) + seq![' '] + field_text(fields.last())
    }
}

/// The declaration of some arguments.
pub fn format_command_args(fields: &Vec<(&str, FieldType)>) -> (r: String)
    ensures
        r@ == args_text(borrowed_fields_of(fields@)),
{
    let ghost all = borrowed_fields_of(fields@);
    let mut buf = String::new();
    let n: usize = fields.len();
    let mut idx: usize = 0;
    assert(all.take(0) =~= Seq::<Field>::empty());
    while idx < n
        invariant
            idx <= n == fields@.len(),
            all == borrowed_fields_of(fields@),
            buf@ == args_text(all.take(idx as int)),
        decreases n - idx,
    {
        let ghost before = buf@;
        if idx != 0 {
            buf.push(' ');
        }
        let (name, ty) = fields[idx];
        buf.append(name);
        buf.push('=');
        buf.append(ty.to_format());
        proof {
            let next = all.take(idx + 1);
            assert(next.drop_last() =~= all.take(idx as int));
            assert(next.last() == all[idx as int]);
            assert(buf@ =~= args_text(next));
        }
        idx += 1;
    }
    assert(all.take(n as int) =~= all);
    buf
}

/// The argument that a text declares.
pub open spec fn part_field(part: Seq<char>) -> Result<Field, Fault> {
    let i = crate::text::prefix_len(part, '=');
    if i == part.len() {
        Err(Fault::InvalidArgumentFormat(part))
    } else {
        match crate::encoding::named_type(part.skip(i + 1)) {
            Some(ty) => Ok((part.take(i), ty)),
            None => Err(Fault::UnknownType(part.take(i), part.skip(i + 1))),
        }
    }
}

/// The arguments that some texts declare, or what is wrong with the first text that declares none.
pub open spec fn parts_fields(parts: Seq<Seq<char>>) -> Result<Seq<Field>, Fault>
    decreases parts.len(),
{
    if parts.len() == 0 {
        Ok(Seq::empty())
    } else {
        match parts_fields(parts.drop_last()) {
            Err(e) => Err(e),
            Ok(fields) => match part_field(parts.last()) {
                Err(e) => Err(e),
                Ok(field) => Ok(fields.push(field)),
            },
        }
    }
}

/// An error in a text stays the error of the list, whatever follows.
proof fn parts_fields_error(parts: Seq<Seq<char>>, n: int)
    requires
        0 <= n <= parts.len(),
        parts_fields(parts.take(n)) is Err,
    ensures
        parts_fields(parts) == parts_fields(parts.take(n)),
    decreases parts.len() - n,
{
    if n == parts.len() {
        assert(parts.take(n) =~= parts);
    } else {
        assert(parts.take(n + 1).drop_last() =~= parts.take(n));
        parts_fields_error(parts, n + 1);
    }
}

/// Whether a text can be the name of a message or an argument in a declaration: it holds no space
/// and no equals sign.
pub open spec fn plain_name(name: Seq<char>) -> bool {
    forall|i: int| 0 <= i < name.len() ==> #[trigger] name[i] != ' ' && name[i] != '='
}

/// How a message is declared: its name, and behind it its arguments, with spaces between them.
pub open spec fn declaration(name: Seq<char>, fields: Seq<Field>) -> Seq<char> {
    if fields.len() == 0 {
        name
    } else {
        name + seq![' '] + args_text(fields)
    }
}

/// The argument that a declaration of an argument declares is that argument.
proof fn part_field_of_text(field: Field)
    requires
        plain_name(field.0),
    ensures
        part_field(field_text(field)) == Ok::<Field, Fault>(field),
        forall|i: int| 0 <= i < field_text(field).len() ==> #[trigger] field_text(field)[i] != ' ',
{
    let text = field_text(field);
    let n = field.0.len() as int;
    let d = crate::encoding::directive(field.1);
    assert forall|i: int| 0 <= i < n implies #[trigger] text[i] != '=' by {
        assert(text[i] == field.0[i]);
    }
    crate::text::prefix_len_unique(text, '=', n);
    assert(text.take(n) =~= field.0);
    assert(text.skip(n + 1) =~= d);
    crate::encoding::directive_names_its_type(field.1);
    assert forall|i: int| 0 <= i < text.len() implies #[trigger] text[i] != ' ' by {
        if i < n {
            assert(text[i] == field.0[i]);
        } else if i > n {
            assert(text[i] == d[i - n - 1]);
        }
    }
}

/// A declaration made of a name and arguments, taken apart at its spaces, gives back the name and
/// the arguments.
pub proof fn declaration_reads_back(name: Seq<char>, fields: Seq<Field>)
    requires
        plain_name(name),
        forall|i: int| 0 <= i < fields.len() ==> plain_name((#[trigger] fields[i]).0),
    ensures
        ({
            let pieces = crate::text::split_at_each(declaration(name, fields), ' ');
            &&& pieces.len() == fields.len() + 1
            &&& pieces[0] == name
            &&& parts_fields(pieces.skip(1)) == Ok::<Seq<Field>, Fault>(fields)
        }),
    decreases fields.len(),
{
    let text = declaration(name, fields);
    let pieces = crate::text::split_at_each(text, ' ');
    if fields.len() == 0 {
        crate::text::prefix_len_unique(name, ' ', name.len() as int);
        assert(fields =~= Seq::empty());
        assert(pieces.skip(1) =~= Seq::empty());
    } else {
        let front = fields.drop_last();
        let field = fields.last();
        assert(plain_name(fields[fields.len() - 1].0));
        assert forall|i: int| 0 <= i < front.len() implies plain_name((#[trigger] front[i]).0) by {
            assert(front[i] == fields[i]);
        }
        declaration_reads_back(name, front);
        part_field_of_text(field);
        let before = crate::text::split_at_each(declaration(name, front), ' ');
        assert(text =~= declaration(name, front) + seq![' '] + field_text(field));
        crate::text::split_at_each_push(declaration(name, front), ' ', field_text(field));
        assert(pieces.skip(1).drop_last() =~= before.skip(1));
        assert(pieces.skip(1).last() == field_text(field));
        assert(front.push(field) =~= fields);
    }
}

// ---------------------------------------------------------------------------
// Output formats
// ---------------------------------------------------------------------------

/// A piece of an output format.
#[derive(Debug)]
pub enum FormatBlock {
    /// Text that is output as it is
    Static(String),
    /// The place of an argument
    Field,
}

/// What a [`FormatBlock`] holds.
pub enum Block {
    Static(Seq<char>),
    Field,
}

impl View for FormatBlock {
    type V = Block;

    open spec fn view(&self) -> Block {
        match *self {
            FormatBlock::Static(s) => Block::Static(s@),
            FormatBlock::Field => Block::Field,
        }
    }
}

/// What some pieces hold.
pub open spec fn blocks_of(parts: Seq<FormatBlock>) -> Seq<Block> {
    Seq::new(parts.len(), |i: int| parts[i]@)
}

/// A piece for a text, or none if the text is empty.
pub open spec fn text_blocks(s: Seq<char>) -> Seq<Block> {
    if s.len() == 0 {
        Seq::empty()
    } else {
        seq![Block::Static(s)]
    }
}

/// The pieces of an output format, and the types of its arguments.
pub struct Layout {
    pub blocks: Seq<Block>,
    pub types: Seq<FieldType>,
}

/// The layout of an output format. Each percent sign starts a directive, up to a double percent
/// sign: it stands for one percent sign, and all text behind it is taken as it is.
pub open spec fn layout(format: Seq<char>) -> Result<Layout, Fault>
    decreases format.len(),
{
    let i = crate::text::prefix_len(format, '%');
    if i < 0 || i >= format.len() {
        Ok(Layout { blocks: text_blocks(format), types: Seq::empty() })
    } else {
        let head = text_blocks(format.take(i));
        let rest = format.skip(i);
        if crate::encoding::starts_with(rest, seq!['%', '%']) {
            Ok(
                Layout {
                    blocks: head + seq![Block::Static(seq!['%'])] + text_blocks(rest.skip(2)),
                    types: Seq::empty(),
                },
            )
        } else {
            match crate::encoding::leading_directive(rest) {
                None => Err(Fault::InvalidFormatFieldType(rest.skip(1))),
                Some((ty, n)) => match layout(rest.skip(n)) {
                    Err(e) => Err(e),
                    Ok(more) => Ok(
                        Layout {
                            blocks: head + seq![Block::Field] + more.blocks,
                            types: seq![ty] + more.types,
                        },
                    ),
                },
            }
        }
    }
}

/// The name that an argument of an output message is given.
pub open spec fn output_field_name(i: nat) -> Seq<char> {
    seq!['f', 'i', 'e', 'l', 'd', '_'] + crate::text::decimal(i)
}

/// The arguments of an output message.
pub open spec fn output_fields(types: Seq<FieldType>) -> Seq<Field> {
    Seq::new(types.len(), |i: int| (output_field_name(i as nat), types[i]))
}

/// Output text: each piece that is a place is replaced by the next value, and is left empty where
/// there is none left.
pub open spec fn output_text(
    blocks: Seq<Block>,
    values: Seq<crate::encoding::FieldData>,
) -> Seq<char>
    decreases blocks.len(),
{
    if blocks.len() == 0 {
        Seq::empty()
    } else {
        match blocks[0] {
            Block::Static(s) => s + output_text(blocks.skip(1), values),
            Block::Field => if values.len() > 0 {
                crate::encoding::value_text(values[0]) + output_text(
                    blocks.skip(1),
                    values.skip(1),
                )
            } else {
                output_text(blocks.skip(1), values)
            },
        }
    }
}

/// What some values hold.
pub open spec fn data_of(values: Seq<&FieldValue>) -> Seq<crate::encoding::FieldData> {
    Seq::new(values.len(), |i: int| values[i]@)
}

/// How many of the pieces are places of arguments.
pub open spec fn places(blocks: Seq<Block>) -> nat
    decreases blocks.len(),
{
    if blocks.len() == 0 {
        0
    } else {
        places(blocks.drop_last()) + (if blocks.last() is Field {
            1nat
        } else {
            0nat
        })
    }
}

/// Putting pieces behind pieces adds their places.
proof fn places_add(a: Seq<Block>, b: Seq<Block>)
    ensures
        places(a + b) == places(a) + places(b),
    decreases b.len(),
{
    if b.len() == 0 {
        assert(a + b =~= a);
    } else {
        assert((a + b).drop_last() =~= a + b.drop_last());
        places_add(a, b.drop_last());
    }
}

/// An output format has one place for each of its arguments.
pub proof fn layout_has_a_place_for_each_argument(format: Seq<char>)
    ensures
        layout(format) matches Ok(l) ==> places(l.blocks) == l.types.len(),
    decreases format.len(),
{
    reveal_with_fuel(places, 2);
    crate::text::prefix_len_is_first(format, '%');
    let i = crate::text::prefix_len(format, '%');
    if i < format.len() {
        let head = text_blocks(format.take(i));
        let rest = format.skip(i);
        assert(head.len() > 0 ==> head.drop_last() =~= Seq::<Block>::empty());
        if crate::encoding::starts_with(rest, seq!['%', '%']) {
            let percent = seq![Block::Static(seq!['%'])];
            let tail = text_blocks(rest.skip(2));
            assert(percent.drop_last() =~= Seq::<Block>::empty());
            assert(tail.len() > 0 ==> tail.drop_last() =~= Seq::<Block>::empty());
            places_add(head, percent);
            places_add(head + percent, tail);
        } else if let Some((ty, n)) = crate::encoding::leading_directive(rest) {
            layout_has_a_place_for_each_argument(rest.skip(n));
            if let Ok(more) = layout(rest.skip(n)) {
                let place = seq![Block::Field];
                assert(place.drop_last() =~= Seq::<Block>::empty());
                places_add(head, place);
                places_add(head + place, more.blocks);
            }
        }
    } else {
        let all = text_blocks(format);
        assert(all.len() > 0 ==> all.drop_last() =~= Seq::<Block>::empty());
    }
}

/// An output format without a percent sign is output as it is.
pub proof fn plain_format_is_output_as_it_is(
    format: Seq<char>,
    values: Seq<crate::encoding::FieldData>,
)
    requires
        forall|i: int| 0 <= i < format.len() ==> #[trigger] format[i] != '%',
    ensures
        layout(format) matches Ok(l) && l.types.len() == 0 && output_text(l.blocks, values)
            == format,
{
    reveal_with_fuel(output_text, 2);
    crate::text::prefix_len_unique(format, '%', format.len() as int);
    let blocks = text_blocks(format);
    if format.len() > 0 {
        assert(blocks.skip(1) =~= Seq::<Block>::empty());
        assert(format + Seq::<char>::empty() =~= format);
    } else {
        assert(format =~= Seq::<char>::empty());
    }
}

/// Holds the format of a `output()` style debug message
#[derive(Debug)]
pub struct OutputFormat {
    pub parts: Vec<FormatBlock>,
}

impl OutputFormat {
    /// The output text for some values.
    pub fn format(&self, fields: &Vec<&FieldValue>) -> (r: String)
        ensures
            r@ == output_text(blocks_of(self.parts@), data_of(fields@)),
    {
        let ghost blocks = blocks_of(self.parts@);
        let ghost values = data_of(fields@);
        let mut buf = String::new();
        let n: usize = self.parts.len();
        let mut i: usize = 0;
        let mut used: usize = 0;
        assert(blocks.skip(0) =~= blocks);
        assert(values.skip(0) =~= values);
        assert(buf@ + output_text(blocks, values) =~= output_text(blocks, values));
        while i < n
            invariant
                i <= n == self.parts@.len(),
                used <= fields@.len(),
                blocks == blocks_of(self.parts@),
                values == data_of(fields@),
                output_text(blocks, values) == buf@ + output_text(
                    blocks.skip(i as int),
                    values.skip(used as int),
                ),
            decreases n - i,
        {
            let ghost before = buf@;
            let ghost bs = blocks.skip(i as int);
            let ghost vs = values.skip(used as int);
            assert(bs.skip(1) =~= blocks.skip(i + 1));
            assert(bs[0] == self.parts@[i as int]@);
            match &self.parts[i] {
                FormatBlock::Static(s) => {
                    buf.append(s.as_str());
                    assert(before + output_text(bs, vs) =~= buf@ + output_text(bs.skip(1), vs));
                },
                FormatBlock::Field => {
                    if used < fields.len() {
                        assert(vs[0] == fields@[used as int]@);
                        assert(vs.skip(1) =~= values.skip(used + 1));
                        fields[used].push_text(&mut buf);
                        used += 1;
                        assert(before + output_text(bs, vs) =~= buf@ + output_text(
                            bs.skip(1),
                            vs.skip(1),
                        ));
                    }
                },
            }
            i += 1;
        }
        assert(blocks.skip(n as int) =~= Seq::<Block>::empty());
        assert(buf@ + Seq::<char>::empty() =~= buf@);
        buf
    }
}

// ---------------------------------------------------------------------------
// Reading messages
// ---------------------------------------------------------------------------

/// Takes values of the given types off the input, one behind the other. The first error ends it.
pub open spec fn fields_decode(types: Seq<FieldType>, input: Seq<u8>) -> crate::encoding::Decoded<
    Seq<crate::encoding::FieldData>,
>
    decreases types.len(),
{
    if types.len() == 0 {
        crate::encoding::Decoded { result: Ok(Seq::empty()), rest: input }
    } else {
        let d = fields_decode(types.drop_last(), input);
        match d.result {
            Err(e) => d,
            Ok(values) => {
                let f = crate::encoding::field_decode(types.last(), d.rest);
                crate::encoding::Decoded {
                    result: match f.result {
                        Ok(v) => Ok(values.push(v)),
                        Err(e) => Err(e),
                    },
                    rest: f.rest,
                }
            },
        }
    }
}

/// An error in the first values is the error of all of them.
proof fn fields_decode_error(types: Seq<FieldType>, input: Seq<u8>, n: int)
    requires
        0 <= n <= types.len(),
        fields_decode(types.take(n), input).result is Err,
    ensures
        fields_decode(types, input) == fields_decode(types.take(n), input),
    decreases types.len() - n,
{
    if n == types.len() {
        assert(types.take(n) =~= types);
    } else {
        assert(types.take(n + 1).drop_last() =~= types.take(n));
        fields_decode_error(types, input, n + 1);
    }
}

/// Where values are taken off an input, there is one for each type.
pub proof fn fields_decode_len(types: Seq<FieldType>, input: Seq<u8>)
    ensures
        fields_decode(types, input).result matches Ok(values) ==> values.len() == types.len(),
    decreases types.len(),
{
    if types.len() > 0 {
        fields_decode_len(types.drop_last(), input);
    }
}

/// Taking values off an input leaves no more than there was.
pub proof fn fields_decode_shortens(types: Seq<FieldType>, input: Seq<u8>)
    ensures
        fields_decode(types, input).rest.len() <= input.len(),
    decreases types.len(),
{
    if types.len() > 0 {
        fields_decode_shortens(types.drop_last(), input);
        crate::encoding::field_decode_shortens(
            types.last(),
            fields_decode(types.drop_last(), input).rest,
        );
    }
}

/// The encodings of values, one behind the other.
pub open spec fn fields_encode(values: Seq<crate::encoding::FieldData>) -> Seq<u8>
    decreases values.len(),
{
    if values.len() == 0 {
        Seq::empty()
    } else {
        fields_encode(values.drop_last()) + crate::encoding::field_encode(values.last())
    }
}

/// Whether a value can be encoded: the length of a string or byte array fits into 32 bits.
pub open spec fn encodable(d: crate::encoding::FieldData) -> bool {
    &&& d matches crate::encoding::FieldData::Text(s) ==> vstd::utf8::encode_utf8(s).len()
        <= u32::MAX
    &&& d matches crate::encoding::FieldData::Bytes(b) ==> b.len() <= u32::MAX
}

/// The types of values.
pub open spec fn value_types(values: Seq<crate::encoding::FieldData>) -> Seq<FieldType> {
    Seq::new(values.len(), |i: int| crate::encoding::type_of(values[i]))
}

/// The arguments of a message come back from their encoding, whatever bytes follow, and those bytes
/// are left.
pub proof fn fields_round_trip(values: Seq<crate::encoding::FieldData>, rest: Seq<u8>)
    requires
        forall|i: int| 0 <= i < values.len() ==> encodable(#[trigger] values[i]),
    ensures
        fields_decode(value_types(values), fields_encode(values) + rest) == (
        crate::encoding::Decoded {
            result: Ok::<Seq<crate::encoding::FieldData>, MessageDecodeError>(values),
            rest,
        }),
    decreases values.len(),
{
    let types = value_types(values);
    if values.len() == 0 {
        assert(fields_encode(values) + rest =~= rest);
        assert(values =~= Seq::empty());
    } else {
        let v = values.last();
        let bytes = crate::encoding::field_encode(v);
        assert forall|i: int| 0 <= i < values.drop_last().len() implies encodable(
            #[trigger] values.drop_last()[i],
        ) by {
            assert(values.drop_last()[i] == values[i]);
        }
        fields_round_trip(values.drop_last(), bytes + rest);
        assert(types.drop_last() =~= value_types(values.drop_last()));
        assert(fields_encode(values) + rest =~= fields_encode(values.drop_last()) + (bytes + rest));
        assert(encodable(values[values.len() - 1]));
        crate::encoding::field_round_trip(v, rest);
        assert(values.drop_last().push(v) =~= values);
    }
}

/// The object ID that a message carries: the value of its last `%c` argument of the name `oid`.
pub open spec fn oid_of(fields: Seq<Field>, values: Seq<crate::encoding::FieldData>) -> Option<u8>
    decreases fields.len(),
{
    if fields.len() == 0 {
        None
    } else {
        match (fields.last().0 == seq!['o', 'i', 'd'], values[fields.len() - 1]) {
            (true, crate::encoding::FieldData::U8(v)) => Some(v),
            _ => oid_of(fields.drop_last(), values),
        }
    }
}

/// The values of a message by the names of its arguments, in the order of the names. Of arguments
/// that share a name the last one counts.
pub open spec fn values_by_name(
    fields: Seq<Field>,
    values: Seq<crate::encoding::FieldData>,
) -> Seq<(Seq<char>, crate::encoding::FieldData)>
    decreases fields.len(),
{
    if fields.len() == 0 {
        Seq::empty()
    } else {
        crate::string_map::with_entry(
            values_by_name(fields.drop_last(), values),
            fields.last().0,
            values[fields.len() - 1],
        )
    }
}

/// [`oid_of`] does not look behind the values of the arguments.
proof fn oid_of_push(
    fields: Seq<Field>,
    values: Seq<crate::encoding::FieldData>,
    v: crate::encoding::FieldData,
)
    requires
        fields.len() <= values.len(),
    ensures
        oid_of(fields, values.push(v)) == oid_of(fields, values),
    decreases fields.len(),
{
    if fields.len() > 0 {
        oid_of_push(fields.drop_last(), values, v);
    }
}

/// [`values_by_name`] does not look behind the values of the arguments.
proof fn values_by_name_push(
    fields: Seq<Field>,
    values: Seq<crate::encoding::FieldData>,
    v: crate::encoding::FieldData,
)
    requires
        fields.len() <= values.len(),
    ensures
        values_by_name(fields, values.push(v)) == values_by_name(fields, values),
    decreases fields.len(),
{
    if fields.len() > 0 {
        values_by_name_push(fields.drop_last(), values, v);
    }
}

/// What the entries of a map of values hold.
pub open spec fn map_data(pairs: Seq<(Seq<char>, FieldValue)>) -> Seq<
    (Seq<char>, crate::encoding::FieldData),
> {
    Seq::new(pairs.len(), |i: int| (pairs[i].0, pairs[i].1@))
}

/// Setting an entry sets what it holds.
proof fn map_data_with_entry(pairs: Seq<(Seq<char>, FieldValue)>, key: Seq<char>, value: FieldValue)
    ensures
        map_data(crate::string_map::with_entry(pairs, key, value))
            == crate::string_map::with_entry(map_data(pairs), key, value@),
    decreases pairs.len(),
{
    let r = crate::string_map::with_entry(pairs, key, value);
    let q = map_data(pairs);
    if pairs.len() > 0 {
        assert(map_data(pairs.skip(1)) =~= q.skip(1));
        map_data_with_entry(pairs.skip(1), key, value);
    }
    assert(map_data(r) =~= crate::string_map::with_entry(q, key, value@));
}

/// The second components of some entries.
pub open spec fn entry_values(pairs: Seq<(Seq<char>, crate::encoding::FieldData)>) -> Seq<
    crate::encoding::FieldData,
> {
    Seq::new(pairs.len(), |i: int| pairs[i].1)
}

/// A key behind all others is put at the end.
proof fn with_entry_at_end(
    pairs: Seq<(Seq<char>, crate::encoding::FieldData)>,
    key: Seq<char>,
    value: crate::encoding::FieldData,
)
    requires
        forall|i: int|
            0 <= i < pairs.len() ==> crate::text::text_less((#[trigger] pairs[i]).0, key),
    ensures
        crate::string_map::with_entry(pairs, key, value) == pairs.push((key, value)),
    decreases pairs.len(),
{
    if pairs.len() == 0 {
        assert(seq![(key, value)] =~= pairs.push((key, value)));
    } else {
        let tail = pairs.skip(1);
        assert(crate::text::text_less(pairs[0].0, key));
        if key == pairs[0].0 {
            crate::text::text_less_irreflexive(key);
        }
        if crate::text::text_less(key, pairs[0].0) {
            crate::text::text_less_transitive(key, pairs[0].0, key);
            crate::text::text_less_irreflexive(key);
        }
        assert forall|i: int| 0 <= i < tail.len() implies crate::text::text_less(
            (#[trigger] tail[i]).0,
            key,
        ) by {
            assert(tail[i] == pairs[i + 1]);
        }
        with_entry_at_end(tail, key, value);
        assert(seq![pairs[0]] + tail.push((key, value)) =~= pairs.push((key, value)));
    }
}

/// Among the first ten arguments of an output message a name with a smaller number stands first.
proof fn output_field_names_in_order(i: nat, j: nat)
    requires
        i < j < 10,
    ensures
        crate::text::text_less(output_field_name(i), output_field_name(j)),
{
    let a = output_field_name(i);
    let b = output_field_name(j);
    reveal_with_fuel(crate::text::text_less, 8);
    assert(a.drop_first().drop_first().drop_first().drop_first().drop_first().drop_first()
        =~= seq![crate::text::digit_char(i)]);
    assert(b.drop_first().drop_first().drop_first().drop_first().drop_first().drop_first()
        =~= seq![crate::text::digit_char(j)]);
}

/// The values of an output message with up to ten arguments, taken in the order of the arguments'
/// names, stand in the order in which the message holds them. With more arguments they do not: the
/// name `field_10` stands before `field_2`.
pub proof fn output_values_keep_their_order(
    types: Seq<FieldType>,
    values: Seq<crate::encoding::FieldData>,
)
    requires
        types.len() == values.len() <= 10,
    ensures
        entry_values(values_by_name(output_fields(types), values)) == values,
{
    let pairs = values_by_name(output_fields(types), values);
    output_entries_in_order(types, values);
    assert(entry_values(pairs) =~= values);
}

proof fn output_entries_in_order(types: Seq<FieldType>, values: Seq<crate::encoding::FieldData>)
    requires
        types.len() == values.len() <= 10,
    ensures
        values_by_name(output_fields(types), values) == Seq::new(
            types.len(),
            |i: int| (output_field_name(i as nat), values[i]),
        ),
    decreases types.len(),
{
    let fields = output_fields(types);
    let all = Seq::new(types.len(), |i: int| (output_field_name(i as nat), values[i]));
    if types.len() == 0 {
        assert(values_by_name(fields, values) =~= all);
    } else {
        let last = (types.len() - 1) as nat;
        let before = values_by_name(output_fields(types.drop_last()), values.drop_last());
        output_entries_in_order(types.drop_last(), values.drop_last());
        assert(fields.drop_last() =~= output_fields(types.drop_last()));
        values_by_name_push(fields.drop_last(), values.drop_last(), values.last());
        assert(values.drop_last().push(values.last()) =~= values);
        assert forall|i: int| 0 <= i < before.len() implies crate::text::text_less(
            (#[trigger] before[i]).0,
            output_field_name(last),
        ) by {
            output_field_names_in_order(i as nat, last);
        }
        with_entry_at_end(before, output_field_name(last), values.last());
        assert(values_by_name(fields, values) =~= all);
    }
}

/// Reads messages of one kind.
#[derive(Debug)]
pub struct MessageParser {
    pub name: String,
    pub fields: Vec<(String, FieldType)>,
    pub output: Option<OutputFormat>,
}

/// What a [`MessageParser`] knows of its messages.
pub struct ParserData {
    pub name: Seq<char>,
    pub fields: Seq<Field>,
    pub output: Option<Seq<Block>>,
}

impl View for MessageParser {
    type V = ParserData;

    open spec fn view(&self) -> ParserData {
        ParserData {
            name: self.name@,
            fields: self.field_list(),
            output: match self.output {
                Some(o) => Some(blocks_of(o.parts@)),
                None => None,
            },
        }
    }
}

impl MessageParser {
    /// The arguments of the message.
    pub open spec fn field_list(&self) -> Seq<Field> {
        fields_of(self.fields@)
    }

    /// What comes of taking the arguments of the message off an input.
    pub open spec fn decoded(&self, input: Seq<u8>) -> crate::encoding::Decoded<
        Seq<crate::encoding::FieldData>,
    > {
        fields_decode(types_of(self.field_list()), input)
    }

    /// The parser for a message with the given name, whose arguments are declared by `parts`.
    pub fn new(name: &str, parts: &Vec<String>) -> (r: Result<MessageParser, MessageSkipperError>)
        ensures
            match parts_fields(crate::text::texts_of(parts@)) {
                Ok(fields) => {
                    &&& r matches Ok(p)
                    &&& p@ == (ParserData { name: name@, fields, output: None })
                },
                Err(e) => r matches Err(f) && f@ == e,
            },
    {
        let ghost all = crate::text::texts_of(parts@);
        let mut fields: Vec<(String, FieldType)> = Vec::new();
        let n: usize = parts.len();
        let mut i: usize = 0;
        assert(fields_of(fields@) =~= Seq::<Field>::empty());
        while i < n
            invariant
                i <= n == parts@.len(),
                all == crate::text::texts_of(parts@),
                parts_fields(all.take(i as int)) == Ok::<Seq<Field>, Fault>(fields_of(fields@)),
            decreases n - i,
        {
            let part = &parts[i];
            let ghost before = fields_of(fields@);
            let chars = chars_of(part.as_str());
            assert(chars@.skip(0) =~= chars@);
            let at: usize = find_char(&chars, 0, '=');
            proof {
                let next = all.take(i + 1);
                assert(next.drop_last() =~= all.take(i as int));
                assert(next.last() == part@);
            }
            if at == chars.len() {
                proof {
                    parts_fields_error(all, i + 1);
                }
                return Err(MessageSkipperError::InvalidArgumentFormat(part.clone()));
            }
            let arg = string_of(&chars, 0, at);
            let ty = string_of(&chars, at + 1, chars.len());
            assert(chars@.subrange(0, at as int) =~= part@.take(at as int));
            assert(chars@.subrange(at + 1, chars@.len() as int) =~= part@.skip(at + 1));
            match FieldType::from_msg(ty.as_str()) {
                Some(field_type) => {
                    fields.push((arg, field_type));
                    assert(fields_of(fields@) =~= before.push((arg@, field_type)));
                },
                None => {
                    proof {
                        parts_fields_error(all, i + 1);
                    }
                    return Err(MessageSkipperError::UnknownType(arg, ty));
                },
            }
            i += 1;
        }
        assert(all.take(n as int) =~= all);
        Ok(MessageParser { name: name.to_owned(), fields, output: None })
    }

    /// The name that an argument of an output message is given.
    fn output_name(i: usize) -> (r: String)
        ensures
            r@ == output_field_name(i as nat),
    {
        let mut name = String::new();
        name.append("field_");
        proof {
            reveal_strlit("field_");
            assert(name@ =~= seq!['f', 'i', 'e', 'l', 'd', '_']);
        }
        push_decimal(&mut name, i as u64);
        name
    }

    /// The parser for an output message with the given format.
    pub fn new_output(msg: &str) -> (r: Result<MessageParser, MessageSkipperError>)
        ensures
            match layout(msg@) {
                Ok(l) => {
                    &&& r matches Ok(p)
                    &&& p@ == (ParserData {
                        name: msg@,
                        fields: output_fields(l.types),
                        output: Some(l.blocks),
                    })
                },
                Err(e) => r matches Err(f) && f@ == e,
            },
    {
        let chars = chars_of(msg);
        let mut fields: Vec<(String, FieldType)> = Vec::new();
        let mut parts: Vec<FormatBlock> = Vec::new();
        let mut at: usize = 0;
        let ghost mut types: Seq<FieldType> = Seq::empty();
        let mut open: bool = true;
        assert(chars@.skip(0) =~= chars@);
        proof {
            assert(fields_of(fields@) =~= output_fields(types));
            assert(blocks_of(parts@) =~= Seq::<Block>::empty());
            if let Ok(l) = layout(msg@) {
                assert(Seq::<Block>::empty() + l.blocks =~= l.blocks);
                assert(Seq::<FieldType>::empty() + l.types =~= l.types);
            }
        }
        while open
            invariant
                chars@ == msg@,
                at <= chars@.len(),
                fields_of(fields@) == output_fields(types),
                open ==> layout(msg@) == prepended(
                    blocks_of(parts@),
                    types,
                    layout(chars@.skip(at as int)),
                ),
                !open ==> layout(msg@) == Ok::<Layout, Fault>(
                    Layout {
                        blocks: blocks_of(parts@) + text_blocks(chars@.skip(at as int)),
                        types,
                    },
                ),
            decreases chars@.len() - at, (if open { 1int } else { 0int }),
        {
            let ghost work = chars@.skip(at as int);
            let ghost blocks0 = blocks_of(parts@);
            let ghost types0 = types;
            let pos: usize = find_char(&chars, at, '%');
            if pos == chars.len() {
                open = false;
                assert(types0 + Seq::<FieldType>::empty() =~= types0);
            } else {
                let ghost head = text_blocks(work.take(pos - at));
                assert(work.skip(pos - at) =~= chars@.skip(pos as int));
                assert(work[pos - at] == '%');
                if pos > at {
                    parts.push(FormatBlock::Static(string_of(&chars, at, pos)));
                    assert(chars@.subrange(at as int, pos as int) =~= work.take(pos - at));
                }
                assert(blocks_of(parts@) =~= blocks0 + head);
                if pos + 1 < chars.len() && chars[pos + 1] == '%' {
                    let mut percent = String::new();
                    percent.push('%');
                    assert(percent@ =~= seq!['%']);
                    parts.push(FormatBlock::Static(percent));
                    proof {
                        prepended_percent(blocks0, types0, work, pos - at);
                        assert(work.skip(pos - at + 2) =~= chars@.skip(pos + 2));
                        assert(blocks_of(parts@) =~= blocks0 + head + seq![
                            Block::Static(seq!['%']),
                        ]);
                    }
                    at = pos + 2;
                    open = false;
                } else {
                    proof {
                        prepended_directive(blocks0, types0, work, pos - at);
                    }
                    match FieldType::from_format(&chars, pos) {
                        None => {
                            let bad = string_of(&chars, pos + 1, chars.len());
                            assert(bad@ =~= work.skip(pos - at + 1));
                            return Err(MessageSkipperError::InvalidFormatFieldType(bad));
                        },
                        Some((ty, n)) => {
                            parts.push(FormatBlock::Field);
                            let name = Self::output_name(fields.len());
                            let ghost fields0 = fields@;
                            fields.push((name, ty));
                            proof {
                                assert(blocks_of(parts@) =~= blocks0 + head + seq![Block::Field]);
                                assert(work.skip(pos - at + n) =~= chars@.skip(pos + n));
                                types = types.push(ty);
                                assert(fields_of(fields0).len() == output_fields(types0).len());
                                assert(fields_of(fields@) =~= fields_of(fields0).push(
                                    (name@, ty),
                                ));
                                assert(output_fields(types) =~= output_fields(types0).push(
                                    (output_field_name(types0.len()), ty),
                                ));
                            }
                            at = pos + n;
                        },
                    }
                }
            }
        }
        if at < chars.len() {
            let ghost blocks0 = blocks_of(parts@);
            parts.push(FormatBlock::Static(string_of(&chars, at, chars.len())));
            assert(chars@.subrange(at as int, chars@.len() as int) =~= chars@.skip(at as int));
            assert(blocks_of(parts@) =~= blocks0 + text_blocks(chars@.skip(at as int)));
        } else {
            assert(blocks_of(parts@) + Seq::<Block>::empty() =~= blocks_of(parts@));
        }
        Ok(
            MessageParser {
                name: msg.to_owned(),
                fields,
                output: Some(OutputFormat { parts }),
            },
        )
    }

    /// Passes over the arguments of the message.
    pub fn skip(&self, input: &mut &[u8]) -> (r: Result<(), MessageDecodeError>)
        ensures
            final(input)@ == self.decoded(old(input)@).rest,
            match self.decoded(old(input)@).result {
                Ok(_) => r is Ok,
                Err(e) => r matches Err(f) && f == e,
            },
    {
        match self.skip_with_oid(input) {
            Ok(_) => Ok(()),
            Err(e) => Err(e),
        }
    }

    /// Passes over the arguments of the message, and picks out the object ID.
    pub fn skip_with_oid(&self, input: &mut &[u8]) -> (r: Result<Option<u8>, MessageDecodeError>)
        ensures
            final(input)@ == self.decoded(old(input)@).rest,
            match self.decoded(old(input)@).result {
                Ok(values) => r matches Ok(oid) && oid == oid_of(self.field_list(), values),
                Err(e) => r matches Err(f) && f == e,
            },
    {
        let ghost start = input@;
        let ghost fields = self.field_list();
        let ghost types = types_of(fields);
        let mut oid: Option<u8> = None;
        let n: usize = self.fields.len();
        let mut i: usize = 0;
        let ghost mut values: Seq<crate::encoding::FieldData> = Seq::empty();
        proof {
            reveal_strlit("oid");
            assert("oid"@ =~= seq!['o', 'i', 'd']);
        }
        while i < n
            invariant
                i <= n == self.fields@.len(),
                start == old(input)@,
                fields == self.field_list(),
                types == types_of(fields),
                values.len() == i,
                fields_decode(types.take(i as int), start) == (crate::encoding::Decoded {
                    result: Ok::<Seq<crate::encoding::FieldData>, MessageDecodeError>(values),
                    rest: input@,
                }),
                oid == oid_of(fields.take(i as int), values),
                "oid"@ == seq!['o', 'i', 'd'],
            decreases n - i,
        {
            let name = &self.fields[i].0;
            let field: FieldType = self.fields[i].1;
            let ghost before = input@;
            let ghost values0 = values;
            proof {
                assert(types.take(i + 1).drop_last() =~= types.take(i as int));
                assert(types.take(i + 1).last() == field);
                assert(fields.take(i + 1).drop_last() =~= fields.take(i as int));
                assert(fields.take(i + 1).last() == (name@, field));
            }
            if same_text(name.as_str(), "oid") {
                match field.read(input) {
                    Ok(value) => {
                        proof {
                            values = values0.push(value@);
                            oid_of_push(fields.take(i as int), values0, value@);
                        }
                        if let FieldValue::U8(read_oid) = value {
                            oid = Some(read_oid);
                        }
                    },
                    Err(e) => {
                        proof {
                            fields_decode_error(types, start, i + 1);
                        }
                        return Err(e);
                    },
                }
            } else {
                match field.skip(input) {
                    Ok(()) => {
                        proof {
                            let v = crate::encoding::field_decode(field, before).result->Ok_0;
                            values = values0.push(v);
                            oid_of_push(fields.take(i as int), values0, v);
                        }
                    },
                    Err(e) => {
                        proof {
                            fields_decode_error(types, start, i + 1);
                        }
                        return Err(e);
                    },
                }
            }
            i += 1;
        }
        assert(types.take(n as int) =~= types);
        assert(fields.take(n as int) =~= fields);
        Ok(oid)
    }

    /// Reads the arguments of the message.
    pub fn parse(&self, input: &mut &[u8]) -> (r: Result<
        StringMap<FieldValue>,
        MessageDecodeError,
    >)
        ensures
            final(input)@ == self.decoded(old(input)@).rest,
            match self.decoded(old(input)@).result {
                Ok(values) => {
                    &&& r matches Ok(m)
                    &&& m.wf()
                    &&& map_data(m.pairs()) == values_by_name(self.field_list(), values)
                },
                Err(e) => r matches Err(f) && f == e,
            },
    {
        let ghost start = input@;
        let ghost fields = self.field_list();
        let ghost types = types_of(fields);
        let mut output: StringMap<FieldValue> = StringMap::new();
        let n: usize = self.fields.len();
        let mut i: usize = 0;
        let ghost mut values: Seq<crate::encoding::FieldData> = Seq::empty();
        assert(map_data(output.pairs()) =~= values_by_name(fields.take(0), values));
        while i < n
            invariant
                i <= n == self.fields@.len(),
                start == old(input)@,
                fields == self.field_list(),
                types == types_of(fields),
                values.len() == i,
                fields_decode(types.take(i as int), start) == (crate::encoding::Decoded {
                    result: Ok::<Seq<crate::encoding::FieldData>, MessageDecodeError>(values),
                    rest: input@,
                }),
                output.wf(),
                map_data(output.pairs()) == values_by_name(fields.take(i as int), values),
            decreases n - i,
        {
            let name = &self.fields[i].0;
            let field: FieldType = self.fields[i].1;
            let ghost values0 = values;
            proof {
                assert(types.take(i + 1).drop_last() =~= types.take(i as int));
                assert(types.take(i + 1).last() == field);
                assert(fields.take(i + 1).drop_last() =~= fields.take(i as int));
                assert(fields.take(i + 1).last() == (name@, field));
            }
            match field.read(input) {
                Ok(value) => {
                    proof {
                        values = values0.push(value@);
                        values_by_name_push(fields.take(i as int), values0, value@);
                        map_data_with_entry(output.pairs(), name@, value);
                    }
                    output.insert(name.clone(), value);
                },
                Err(e) => {
                    proof {
                        fields_decode_error(types, start, i + 1);
                    }
                    return Err(e);
                },
            }
            i += 1;
        }
        assert(types.take(n as int) =~= types);
        assert(fields.take(n as int) =~= fields);
        Ok(output)
    }

    /// Reads the arguments of an output message, and makes its text. For any other message there is
    /// nothing to do.
    pub fn parse_and_output(&self, input: &mut &[u8]) -> (r: Option<
        Result<String, MessageDecodeError>,
    >)
        ensures
            match self.output {
                None => r is None && final(input)@ == old(input)@,
                Some(o) => {
                    &&& final(input)@ == self.decoded(old(input)@).rest
                    &&& match self.decoded(old(input)@).result {
                        Ok(values) => {
                            &&& r matches Some(Ok(text))
                            &&& text@ == output_text(
                                blocks_of(o.parts@),
                                entry_values(values_by_name(self.field_list(), values)),
                            )
                        },
                        Err(e) => r matches Some(Err(f)) && f == e,
                    }
                },
            },
    {
        match &self.output {
            None => None,
            Some(output) => match self.parse(input) {
                Ok(fields) => {
                    let values = fields.values();
                    assert(data_of(values@) =~= entry_values(map_data(fields.pairs())));
                    Some(Ok(output.format(&values)))
                },
                Err(e) => Some(Err(e)),
            },
        }
    }
}

/// How a layout goes on from pieces and arguments with a double percent sign.
proof fn prepended_percent(
    blocks: Seq<Block>,
    types: Seq<FieldType>,
    work: Seq<char>,
    i: int,
)
    requires
        i == crate::text::prefix_len(work, '%'),
        0 <= i,
        i + 1 < work.len(),
        work[i] == '%',
        work[i + 1] == '%',
    ensures
        prepended(blocks, types, layout(work)) == Ok::<Layout, Fault>(
            Layout {
                blocks: blocks + text_blocks(work.take(i)) + seq![Block::Static(seq!['%'])]
                    + text_blocks(work.skip(i + 2)),
                types,
            },
        ),
{
    let rest = work.skip(i);
    assert(rest.take(2) =~= seq!['%', '%']);
    assert(rest.skip(2) =~= work.skip(i + 2));
    assert(types + Seq::<FieldType>::empty() =~= types);
    let head = text_blocks(work.take(i));
    let percent = seq![Block::Static(seq!['%'])];
    let tail = text_blocks(work.skip(i + 2));
    assert(blocks + (head + percent + tail) =~= blocks + head + percent + tail);
}

/// How a layout goes on from pieces and arguments with a directive.
proof fn prepended_directive(
    blocks: Seq<Block>,
    types: Seq<FieldType>,
    work: Seq<char>,
    i: int,
)
    requires
        i == crate::text::prefix_len(work, '%'),
        0 <= i < work.len(),
        i + 1 == work.len() || work[i + 1] != '%',
    ensures
        match crate::encoding::leading_directive(work.skip(i)) {
            None => layout(work) == Err::<Layout, Fault>(
                Fault::InvalidFormatFieldType(work.skip(i + 1)),
            ),
            Some((ty, n)) => prepended(blocks, types, layout(work)) == prepended(
                blocks + text_blocks(work.take(i)) + seq![Block::Field],
                types.push(ty),
                layout(work.skip(i + n)),
            ),
        },
{
    let rest = work.skip(i);
    assert(!crate::encoding::starts_with(rest, seq!['%', '%'])) by {
        if rest.len() >= 2 {
            assert(rest.take(2)[1] == work[i + 1]);
            assert(seq!['%', '%'][1] == '%');
        }
    }
    assert(rest.skip(1) =~= work.skip(i + 1));
    if let Some((ty, n)) = crate::encoding::leading_directive(rest) {
        assert(rest.skip(n) =~= work.skip(i + n));
        if let Ok(more) = layout(rest.skip(n)) {
            let head = text_blocks(work.take(i));
            let place = seq![Block::Field];
            assert(blocks + (head + place + more.blocks) =~= blocks + head + place + more.blocks);
            assert(types + (seq![ty] + more.types) =~= types.push(ty) + more.types);
        }
    }
}

/// A layout with more pieces and arguments in front.
spec fn prepended(
    blocks: Seq<Block>,
    types: Seq<FieldType>,
    more: Result<Layout, Fault>,
) -> Result<Layout, Fault> {
    match more {
        Ok(l) => Ok(Layout { blocks: blocks + l.blocks, types: types + l.types }),
        Err(e) => Err(e),
    }
}

// ---------------------------------------------------------------------------
// Kinds of messages
// ---------------------------------------------------------------------------

/// The ID of a message: the one that is fixed for it, or else the one that its name has in the
/// dictionary.
pub open spec fn id_in(fixed: Option<u16>, name: Seq<char>, dict: Option<&Dictionary>) -> Option<
    u16,
> {
    match (fixed, dict) {
        (Some(id), _) => Some(id),
        (None, Some(d)) => crate::string_map::lookup(d.message_ids.pairs(), name),
        (None, None) => None,
    }
}

/// Finds the ID of a message.
pub fn find_id(fixed: Option<u16>, name: &str, dict: Option<&Dictionary>) -> (r: Option<u16>)
    requires
        dict matches Some(d) ==> d.wf(),
    ensures
        r == id_in(fixed, name@, dict),
{
    match fixed {
        Some(id) => Some(id),
        None => match dict {
            Some(d) => match d.message_ids.get(name) {
                Some(id) => Some(*id),
                None => None,
            },
            None => None,
        },
    }
}

/// A kind of message that the host sends or receives.
pub trait Message: Sized + 'static {
    /// The arguments of a message, borrowed from the bytes that hold it.
    type Pod<'a>: std::fmt::Debug;

    /// The arguments of a message.
    type PodOwned: Clone + Send + std::fmt::Debug + 'static;

    /// The message ID, where it does not depend on the dictionary.
    open spec fn fixed_id() -> Option<u16> {
        None
    }

    /// The name of the message.
    open spec fn name() -> Seq<char> {
        Seq::empty()
    }

    /// The arguments of the message.
    open spec fn field_list() -> Seq<Field> {
        Seq::empty()
    }

    /// The values of the arguments.
    open spec fn pod_values<'a>(pod: Self::Pod<'a>) -> Seq<crate::encoding::FieldData> {
        Seq::empty()
    }

    /// The values of the arguments.
    open spec fn owned_values(owned: Self::PodOwned) -> Seq<crate::encoding::FieldData> {
        Seq::empty()
    }

    /// The message ID.
    fn get_id(dict: Option<&Dictionary>) -> (r: Option<u16>)
        requires
            dict matches Some(d) ==> d.wf(),
        ensures
            r == id_in(Self::fixed_id(), Self::name(), dict),
    ;

    /// The name of the message.
    fn get_name() -> (r: &'static str)
        ensures
            r@ == Self::name(),
    ;

    /// Takes the arguments of a message off the input.
    fn decode<'a>(input: &mut &'a [u8]) -> (r: Result<Self::Pod<'a>, MessageDecodeError>)
        ensures
            final(input)@ == fields_decode(types_of(Self::field_list()), old(input)@).rest,
            match fields_decode(types_of(Self::field_list()), old(input)@).result {
                Ok(values) => r matches Ok(pod) && Self::pod_values(pod) == values,
                Err(e) => r matches Err(f) && f == e,
            },
    ;

    /// Copies borrowed arguments.
    fn into_owned<'a>(pod: Self::Pod<'a>) -> (r: Self::PodOwned)
        ensures
            Self::owned_values(r) == Self::pod_values(pod),
    ;

    /// The arguments of the message.
    fn fields() -> (r: Vec<(&'static str, FieldType)>)
        ensures
            borrowed_fields_of(r@) == Self::field_list(),
    ;
}

/// A message that has an argument of the name `oid`.
pub trait WithOid: 'static {

}

/// A message that has no argument of the name `oid`.
pub trait WithoutOid: 'static {

}

/// Represents an encoded message, with a type-level link to the message kind
#[derive(Debug)]
pub struct EncodedMessage<M> {
    pub payload: FrontTrimmableBuffer,
    pub _message_kind: PhantomData<M>,
}

impl<M: Message> EncodedMessage<M> {
    /// The message ID.
    pub fn message_id(&self, dict: Option<&Dictionary>) -> (r: Option<u16>)
        requires
            dict matches Some(d) ==> d.wf(),
        ensures
            r == id_in(M::fixed_id(), M::name(), dict),
    {
        M::get_id(dict)
    }

    /// The name of the message.
    pub fn message_name(&self) -> (r: &'static str)
        ensures
            r@ == M::name(),
    {
        M::get_name()
    }
}

/// Wraps a `Vec<u8>` allowing removal of front bytes in a zero-copy way
#[derive(Debug)]
pub struct FrontTrimmableBuffer {
    pub content: Vec<u8>,
    pub offset: usize,
}

impl FrontTrimmableBuffer {
    /// The bytes that are left.
    pub open spec fn bytes(&self) -> Seq<u8> {
        self.content@.skip(self.offset as int)
    }

    /// The bytes that are left.
    pub fn as_slice(&self) -> (r: &[u8])
        requires
            self.offset <= self.content@.len(),
        ensures
            r@ == self.bytes(),
    {
        let r = &self.content.as_slice()[self.offset..self.content.len()];
        assert(r@ =~= self.bytes());
        r
    }
}

// ---------------------------------------------------------------------------
// What declarations and messages mean
// ---------------------------------------------------------------------------

/// An argument is declared by a name without an equals sign, an equals sign, and one of the eight
/// directives, which names its type. A text with an equals sign and anything else behind it has an
/// unknown type, and a text without one declares nothing.
pub proof fn arguments_are_declared_by_name_and_directive(
    name: Seq<char>,
    text: Seq<char>,
    ty: FieldType,
)
    requires
        forall|i: int| 0 <= i < name.len() ==> #[trigger] name[i] != '=',
    ensures
        crate::encoding::is_directive_of(text, ty) ==> part_field(name + seq!['='] + text) == Ok::<
            Field,
            Fault,
        >((name, ty)),
        (forall|t: FieldType| !#[trigger] crate::encoding::is_directive_of(text, t)) ==> part_field(
            name + seq!['='] + text,
        ) == Err::<Field, Fault>(Fault::UnknownType(name, text)),
        part_field(name) == Err::<Field, Fault>(Fault::InvalidArgumentFormat(name)),
{
    let part = name + seq!['='] + text;
    let n = name.len() as int;
    assert forall|i: int| 0 <= i < n implies #[trigger] part[i] != '=' by {
        assert(part[i] == name[i]);
    }
    crate::text::prefix_len_unique(part, '=', n);
    crate::text::prefix_len_unique(name, '=', n);
    assert(part.take(n) =~= name);
    assert(part.skip(n + 1) =~= text);
    crate::encoding::eight_directives_name_types(text, ty, Seq::empty());
    if let Some(t) = crate::encoding::named_type(text) {
        crate::encoding::eight_directives_name_types(text, t, Seq::empty());
    }
}

/// A list of declarations is accepted if, and only if, each of them is, and then declares their
/// arguments one for one. If not, the error is that of the first one that is refused.
pub proof fn declarations_are_taken_one_by_one(parts: Seq<Seq<char>>, k: int)
    requires
        0 <= k <= parts.len(),
        forall|i: int| 0 <= i < k ==> part_field(#[trigger] parts[i]) is Ok,
    ensures
        k == parts.len() ==> {
            &&& parts_fields(parts) matches Ok(fields)
            &&& fields.len() == parts.len()
            &&& forall|i: int|
                0 <= i < parts.len() ==> part_field(parts[i]) == Ok::<Field, Fault>(
                    #[trigger] fields[i],
                )
        },
        k < parts.len() ==> (part_field(parts[k]) matches Err(e) ==> parts_fields(parts) == Err::<
            Seq<Field>,
            Fault,
        >(e)),
    decreases parts.len(),
{
    if k < parts.len() {
        if part_field(parts[k]) is Err {
            let front = parts.take(k);
            assert forall|i: int| 0 <= i < k implies part_field(#[trigger] front[i]) is Ok by {
                assert(front[i] == parts[i]);
            }
            declarations_are_taken_one_by_one(front, k);
            assert(parts.take(k + 1).drop_last() =~= front);
            assert(parts.take(k + 1).last() == parts[k]);
            parts_fields_error(parts, k + 1);
        }
    } else if k > 0 {
        let front = parts.drop_last();
        assert forall|i: int| 0 <= i < front.len() implies part_field(#[trigger] front[i]) is Ok by {
            assert(front[i] == parts[i]);
        }
        declarations_are_taken_one_by_one(front, k - 1);
        assert(part_field(parts[k - 1]) is Ok);
        let before = parts_fields(front)->Ok_0;
        let fields = parts_fields(parts)->Ok_0;
        assert forall|i: int| 0 <= i < parts.len() implies part_field(parts[i]) == Ok::<Field, Fault>(
            #[trigger] fields[i],
        ) by {
            if i < front.len() {
                assert(fields[i] == before[i]);
                assert(front[i] == parts[i]);
            }
        }
    }
}

/// Arguments are declared as their names, an equals sign and their directives, with a space between
/// each two.
pub proof fn arguments_are_shown_one_by_one(fields: Seq<Field>, last: Field)
    ensures
        args_text(Seq::empty()) == Seq::<char>::empty(),
        args_text(fields.push(last)) == if fields.len() == 0 {
            last.0 + seq!['='] + crate::encoding::directive(last.1)
        } else {
            args_text(fields) + seq![' '] + (last.0 + seq!['='] + crate::encoding::directive(last.1))
        },
        crate::encoding::is_directive_of(crate::encoding::directive(last.1), last.1),
        last.1 is ByteArray ==> crate::encoding::directive(last.1) == seq!['%', '*', 's'],
{
    assert(fields.push(last).drop_last() =~= fields);
}

/// Text in front of an output format is put out as it is.
proof fn output_of_text_in_front(
    s: Seq<char>,
    blocks: Seq<Block>,
    values: Seq<crate::encoding::FieldData>,
)
    ensures
        output_text(text_blocks(s) + blocks, values) == s + output_text(blocks, values),
{
    let all = text_blocks(s) + blocks;
    if s.len() == 0 {
        assert(all =~= blocks);
        assert(s + output_text(blocks, values) =~= output_text(blocks, values));
    } else {
        assert(all.skip(1) =~= blocks);
    }
}

/// A directive in an output format, with plain text in front of it, stands for an argument of its
/// type: the text is put out, then the value, then what the rest of the format gives for the other
/// values. Without values the place is left empty. What is wrong with the rest is wrong with all of
/// it.
pub proof fn directive_stands_for_a_value(
    text: Seq<char>,
    directive: Seq<char>,
    ty: FieldType,
    rest: Seq<char>,
    value: crate::encoding::FieldData,
    values: Seq<crate::encoding::FieldData>,
)
    requires
        forall|i: int| 0 <= i < text.len() ==> #[trigger] text[i] != '%',
        crate::encoding::is_directive_of(directive, ty),
    ensures
        match layout(rest) {
            Err(e) => layout(text + directive + rest) == Err::<Layout, Fault>(e),
            Ok(more) => {
                &&& layout(text + directive + rest) matches Ok(l)
                &&& l.types == seq![ty] + more.types
                &&& output_text(l.blocks, seq![value] + values) == text
                    + crate::encoding::value_text(value) + output_text(more.blocks, values)
                &&& output_text(l.blocks, Seq::empty()) == text + output_text(
                    more.blocks,
                    Seq::empty(),
                )
            },
        },
{
    let all = text + directive + rest;
    let n = text.len() as int;
    assert(directive[0] == '%' && directive[1] != '%');
    assert forall|i: int| 0 <= i < n implies #[trigger] all[i] != '%' by {
        assert(all[i] == text[i]);
    }
    assert(all[n] == directive[0]);
    assert(all[n + 1] == directive[1]);
    crate::text::prefix_len_unique(all, '%', n);
    crate::encoding::eight_directives_name_types(directive, ty, rest);
    assert(all.skip(n) =~= directive + rest);
    assert(all.take(n) =~= text);
    assert((directive + rest).skip(directive.len() as int) =~= rest);
    assert(!crate::encoding::starts_with(all.skip(n), seq!['%', '%'])) by {
        assert(all.skip(n).take(2)[1] == directive[1]);
        assert(seq!['%', '%'][1] == '%');
    }
    if let Ok(more) = layout(rest) {
        let behind = seq![Block::Field] + more.blocks;
        let blocks = text_blocks(text) + seq![Block::Field] + more.blocks;
        assert(blocks =~= text_blocks(text) + behind);
        output_of_text_in_front(text, behind, seq![value] + values);
        output_of_text_in_front(text, behind, Seq::empty());
        assert(behind.skip(1) =~= more.blocks);
        assert((seq![value] + values).skip(1) =~= values);
        assert(text + (crate::encoding::value_text(value) + output_text(more.blocks, values))
            =~= text + crate::encoding::value_text(value) + output_text(more.blocks, values));
    }
}

/// A double percent sign in an output format, with plain text in front of it, is put out as one
/// percent sign, and all that follows as it is.
pub proof fn double_percent_sign_ends_the_directives(
    text: Seq<char>,
    rest: Seq<char>,
    values: Seq<crate::encoding::FieldData>,
)
    requires
        forall|i: int| 0 <= i < text.len() ==> #[trigger] text[i] != '%',
    ensures
        layout(text + seq!['%', '%'] + rest) matches Ok(l) && l.types.len() == 0 && output_text(
            l.blocks,
            values,
        ) == text + seq!['%'] + rest,
{
    let all = text + seq!['%', '%'] + rest;
    let n = text.len() as int;
    assert forall|i: int| 0 <= i < n implies #[trigger] all[i] != '%' by {
        assert(all[i] == text[i]);
    }
    assert(all[n] == '%');
    crate::text::prefix_len_unique(all, '%', n);
    assert(all.take(n) =~= text);
    assert(all.skip(n).take(2) =~= seq!['%', '%']);
    assert(all.skip(n).skip(2) =~= rest);
    let percent = text_blocks(seq!['%']);
    let tail = text_blocks(rest);
    let none = Seq::<Block>::empty();
    assert(text_blocks(text) + seq![Block::Static(seq!['%'])] + tail =~= text_blocks(text) + (percent
        + (tail + none)));
    output_of_text_in_front(text, percent + (tail + none), values);
    output_of_text_in_front(seq!['%'], tail + none, values);
    output_of_text_in_front(rest, none, values);
    assert(text + (seq!['%'] + (rest + Seq::<char>::empty())) =~= text + seq!['%'] + rest);
}

/// A percent sign that starts neither a directive nor a double percent sign is an error, which
/// holds the text behind it.
pub proof fn unknown_directive_is_refused(text: Seq<char>, rest: Seq<char>)
    requires
        forall|i: int| 0 <= i < text.len() ==> #[trigger] text[i] != '%',
        rest.len() == 0 || rest[0] != '%',
        forall|n: int, t: FieldType|
            0 <= n <= rest.len() + 1 ==> !#[trigger] crate::encoding::is_directive_of(
                (seq!['%'] + rest).take(n),
                t,
            ),
    ensures
        layout(text + seq!['%'] + rest) == Err::<Layout, Fault>(
            Fault::InvalidFormatFieldType(rest),
        ),
{
    let all = text + seq!['%'] + rest;
    let n = text.len() as int;
    assert forall|i: int| 0 <= i < n implies #[trigger] all[i] != '%' by {
        assert(all[i] == text[i]);
    }
    assert(all[n] == '%');
    crate::text::prefix_len_unique(all, '%', n);
    assert(all.skip(n) =~= seq!['%'] + rest);
    crate::encoding::leading_directive_is_a_directive(seq!['%'] + rest);
    assert((seq!['%'] + rest).skip(1) =~= rest);
    assert(!crate::encoding::starts_with(all.skip(n), seq!['%', '%'])) by {
        if rest.len() > 0 {
            assert(all.skip(n).take(2)[1] == rest[0]);
            assert(seq!['%', '%'][1] == '%');
        }
    }
}

/// The arguments of an output message are named `field_0`, `field_1` and so on, in order.
pub proof fn output_arguments_are_numbered(types: Seq<FieldType>, i: int)
    requires
        0 <= i < types.len(),
    ensures
        output_fields(types).len() == types.len(),
        output_fields(types)[i] == ("field_"@ + crate::text::decimal(i as nat), types[i]),
{
    reveal_strlit("field_");
    assert("field_"@ =~= seq!['f', 'i', 'e', 'l', 'd', '_']);
}

/// Values are taken off the front of the input in the order of their types. The first error ends
/// it, with what was left then.
pub proof fn fields_are_read_from_the_front(ty: FieldType, types: Seq<FieldType>, input: Seq<u8>)
    ensures
        fields_decode(Seq::empty(), input) == (crate::encoding::Decoded {
            result: Ok::<Seq<crate::encoding::FieldData>, MessageDecodeError>(Seq::empty()),
            rest: input,
        }),
        ({
            let first = crate::encoding::field_decode(ty, input);
            let all = fields_decode(seq![ty] + types, input);
            match first.result {
                Err(e) => all == (crate::encoding::Decoded {
                    result: Err::<Seq<crate::encoding::FieldData>, MessageDecodeError>(e),
                    rest: first.rest,
                }),
                Ok(value) => {
                    let more = fields_decode(types, first.rest);
                    &&& all.rest == more.rest
                    &&& all.result == match more.result {
                        Ok(values) => Ok::<Seq<crate::encoding::FieldData>, MessageDecodeError>(
                            seq![value] + values,
                        ),
                        Err(e) => Err::<Seq<crate::encoding::FieldData>, MessageDecodeError>(e),
                    }
                },
            }
        }),
    decreases types.len(),
{
    let all = seq![ty] + types;
    if types.len() == 0 {
        assert(all.drop_last() =~= Seq::empty());
        assert(all.last() == ty);
        if let Ok(value) = crate::encoding::field_decode(ty, input).result {
            assert(Seq::empty().push(value) =~= seq![value] + Seq::empty());
        }
    } else {
        fields_are_read_from_the_front(ty, types.drop_last(), input);
        assert(all.drop_last() =~= seq![ty] + types.drop_last());
        assert(all.last() == types.last());
        let first = crate::encoding::field_decode(ty, input);
        if let Ok(value) = first.result {
            let front = fields_decode(types.drop_last(), first.rest);
            if let Ok(values) = front.result {
                if let Ok(v) = crate::encoding::field_decode(types.last(), front.rest).result {
                    assert((seq![value] + values).push(v) =~= seq![value] + values.push(v));
                }
            }
        }
    }
}

/// Values are written one behind the other.
pub proof fn fields_are_written_from_the_front(
    value: crate::encoding::FieldData,
    values: Seq<crate::encoding::FieldData>,
)
    ensures
        fields_encode(Seq::empty()) == Seq::<u8>::empty(),
        fields_encode(seq![value] + values) == crate::encoding::field_encode(value) + fields_encode(
            values,
        ),
    decreases values.len(),
{
    let all = seq![value] + values;
    if values.len() == 0 {
        assert(all.drop_last() =~= Seq::empty());
        assert(fields_encode(all.drop_last()) =~= Seq::empty());
        assert(fields_encode(values) =~= Seq::empty());
        assert(all.last() == value);
        assert(fields_encode(all) =~= crate::encoding::field_encode(value) + fields_encode(values));
    } else {
        fields_are_written_from_the_front(value, values.drop_last());
        assert(all.drop_last() =~= seq![value] + values.drop_last());
        assert(fields_encode(all) =~= crate::encoding::field_encode(value) + fields_encode(values));
    }
}

/// The object ID of a message is the value of its `%c` argument of the name `oid`, the last one if
/// there are more, whatever types and values the other arguments have.
pub proof fn object_id_is_the_argument_of_that_name(
    fields: Seq<Field>,
    values: Seq<crate::encoding::FieldData>,
    j: int,
    oid: u8,
)
    requires
        0 <= j < fields.len() <= values.len(),
        fields[j].0 == "oid"@,
        values[j] == crate::encoding::FieldData::U8(oid),
        forall|i: int|
            j < i < fields.len() ==> (#[trigger] fields[i]).0 != "oid"@ || !(values[i] is U8),
    ensures
        oid_of(fields, values) == Some(oid),
    decreases fields.len(),
{
    reveal_strlit("oid");
    assert("oid"@ =~= seq!['o', 'i', 'd']);
    let n = fields.len() - 1;
    assert(fields.last() == fields[n]);
    if j < n {
        let front = fields.drop_last();
        assert(front[j] == fields[j]);
        assert forall|i: int| j < i < front.len() implies (#[trigger] front[i]).0 != "oid"@ || !(
        values[i] is U8) by {
            assert(front[i] == fields[i]);
        }
        object_id_is_the_argument_of_that_name(front, values, j, oid);
    }
}

/// A message without a `%c` argument of the name `oid` has no object ID.
pub proof fn no_object_id_without_that_name(
    fields: Seq<Field>,
    values: Seq<crate::encoding::FieldData>,
)
    requires
        fields.len() <= values.len(),
        forall|i: int|
            0 <= i < fields.len() ==> (#[trigger] fields[i]).0 != "oid"@ || !(values[i] is U8),
    ensures
        oid_of(fields, values) is None,
    decreases fields.len(),
{
    reveal_strlit("oid");
    assert("oid"@ =~= seq!['o', 'i', 'd']);
    if fields.len() > 0 {
        let front = fields.drop_last();
        assert(fields.last() == fields[fields.len() - 1]);
        assert forall|i: int| 0 <= i < front.len() implies (#[trigger] front[i]).0 != "oid"@ || !(
        values[i] is U8) by {
            assert(front[i] == fields[i]);
        }
        no_object_id_without_that_name(front, values);
    }
}

/// The values of a message are found by the names of its arguments: the value of the last argument
/// that has the name, and nothing where none has it. They are kept in the order of the names.
pub proof fn values_are_found_by_name(
    fields: Seq<Field>,
    values: Seq<crate::encoding::FieldData>,
    name: Seq<char>,
    j: int,
)
    requires
        fields.len() <= values.len(),
        -1 <= j < fields.len(),
        j >= 0 ==> fields[j].0 == name,
        forall|i: int| j < i < fields.len() ==> (#[trigger] fields[i]).0 != name,
    ensures
        crate::string_map::ordered(values_by_name(fields, values)),
        crate::string_map::lookup(values_by_name(fields, values), name) == if j >= 0 {
            Some(values[j])
        } else {
            None
        },
    decreases fields.len(),
{
    if fields.len() > 0 {
        let front = fields.drop_last();
        let n = fields.len() - 1;
        let before = values_by_name(front, values);
        assert(fields.last() == fields[n]);
        if j < n {
            assert forall|i: int| j < i < front.len() implies (#[trigger] front[i]).0 != name by {
                assert(front[i] == fields[i]);
            }
            assert(j >= 0 ==> front[j] == fields[j]);
            values_are_found_by_name(front, values, name, j);
        } else {
            values_by_name_ordered(front, values);
        }
        crate::string_map::with_entry_ordered(before, fields.last().0, values[n]);
        crate::string_map::lookup_with_entry(before, fields.last().0, values[n], name);
    }
}

proof fn values_by_name_ordered(fields: Seq<Field>, values: Seq<crate::encoding::FieldData>)
    ensures
        crate::string_map::ordered(values_by_name(fields, values)),
    decreases fields.len(),
{
    if fields.len() > 0 {
        values_by_name_ordered(fields.drop_last(), values);
        crate::string_map::with_entry_ordered(
            values_by_name(fields.drop_last(), values),
            fields.last().0,
            values[fields.len() - 1],
        );
    }
}

/// A fixed message ID counts whatever the dictionary says. Where none is fixed, the ID is that of
/// the name in the dictionary, and without a dictionary there is none.
pub proof fn fixed_ids_come_first(id: u16, name: Seq<char>, dict: Option<&Dictionary>)
    ensures
        id_in(Some(id), name, dict) == Some(id),
        dict is None ==> id_in(None, name, dict) is None,
        dict matches Some(d) ==> id_in(None, name, dict) == crate::string_map::lookup(
            d.message_ids.pairs(),
            name,
        ),
{
}

/// A parser knows its name, its arguments one for one, and the pieces of its format if it has one.
/// It reads values of the types of its arguments.
pub proof fn parsers_know_what_they_hold(p: MessageParser, i: int, input: Seq<u8>)
    ensures
        p@.name == p.name@,
        p@.fields == p.field_list(),
        p.field_list().len() == p.fields@.len(),
        0 <= i < p.fields@.len() ==> p.field_list()[i] == (p.fields@[i].0@, p.fields@[i].1)
            && types_of(p.field_list())[i] == p.fields@[i].1,
        types_of(p.field_list()).len() == p.fields@.len(),
        p.output is None <==> p@.output is None,
        p.output matches Some(o) ==> p@.output == Some(blocks_of(o.parts@)),
        p.decoded(input) == fields_decode(types_of(p.field_list()), input),
{
}

/// The pieces of a format hold their texts, and the lists of values hold their values, one for one.
pub proof fn lists_hold_their_items(
    text: String,
    parts: Seq<FormatBlock>,
    fields: Seq<(&str, FieldType)>,
    values: Seq<&FieldValue>,
    pairs: Seq<(Seq<char>, FieldValue)>,
    data: Seq<(Seq<char>, crate::encoding::FieldData)>,
    all: Seq<crate::encoding::FieldData>,
    i: int,
)
    ensures
        FormatBlock::Static(text)@ == Block::Static(text@),
        FormatBlock::Field@ == Block::Field,
        blocks_of(parts).len() == parts.len(),
        0 <= i < parts.len() ==> blocks_of(parts)[i] == parts[i]@,
        borrowed_fields_of(fields).len() == fields.len(),
        0 <= i < fields.len() ==> borrowed_fields_of(fields)[i] == (fields[i].0@, fields[i].1),
        data_of(values).len() == values.len(),
        0 <= i < values.len() ==> data_of(values)[i] == values[i]@,
        map_data(pairs).len() == pairs.len(),
        0 <= i < pairs.len() ==> map_data(pairs)[i] == (pairs[i].0, pairs[i].1@),
        entry_values(data).len() == data.len(),
        0 <= i < data.len() ==> entry_values(data)[i] == data[i].1,
        value_types(all).len() == all.len(),
        0 <= i < all.len() ==> value_types(all)[i] == crate::encoding::type_of(all[i]),
{
}

/// An error says what it holds.
pub proof fn declaration_errors_hold_their_texts(a: String, b: String)
    ensures
        MessageSkipperError::InvalidArgumentFormat(a)@ == Fault::InvalidArgumentFormat(a@),
        MessageSkipperError::UnknownType(a, b)@ == Fault::UnknownType(a@, b@),
        MessageSkipperError::InvalidFormatFieldType(a)@ == Fault::InvalidFormatFieldType(a@),
{
}

/// All integers can be written, and all strings and byte arrays whose length fits into 32 bits.
pub proof fn values_can_be_written(d: crate::encoding::FieldData)
    ensures
        encodable(d) <==> match d {
            crate::encoding::FieldData::Text(s) => vstd::utf8::encode_utf8(s).len() <= u32::MAX,
            crate::encoding::FieldData::Bytes(b) => b.len() <= u32::MAX,
            _ => true,
        },
{
}

/// A trimmed buffer has the bytes from its offset on.
pub proof fn buffer_has_the_bytes_from_its_offset_on(buffer: FrontTrimmableBuffer, i: int)
    requires
        buffer.offset <= buffer.content@.len(),
    ensures
        buffer.bytes().len() == buffer.content@.len() - buffer.offset,
        0 <= i < buffer.bytes().len() ==> buffer.bytes()[i] == buffer.content@[buffer.offset + i],
{
}

} // verus!

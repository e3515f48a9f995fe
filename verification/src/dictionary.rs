//! The dictionary in which a microcontroller declares its messages.
use crate::encoding::encode_vlq_int;
use crate::messages::{MessageParser, MessageSkipperError};
use crate::string_map::StringMap;
use crate::text::{same_text, split};
use std::collections::BTreeMap;
use vstd::prelude::*;

verus! {

/// [`serde_json::Value`] is carried through and never looked into.
#[verifier::external_type_specification]
#[verifier::external_body]
pub struct ExValue(serde_json::Value);

/// The value of a configuration constant.
#[derive(Debug, Clone)]
pub enum ConfigVar {
    String(String),
    /// A number, as the bits of its 64 bit floating-point form
    Number(u64),
}

/// The numbers that a name of an enumeration stands for.
#[derive(Debug)]
pub enum Enumeration {
    Single(i64),
    Range(i64, i64),
}

/// A dictionary as the microcontroller sends it.
#[derive(Debug)]
pub struct RawDictionary {
    pub config: BTreeMap<String, ConfigVar>,
    pub enumerations: BTreeMap<String, BTreeMap<String, Enumeration>>,
    pub commands: StringMap<i16>,
    pub responses: StringMap<i16>,
    pub output: StringMap<i16>,
    pub build_versions: Option<String>,
    pub version: Option<String>,
    pub extra: BTreeMap<String, serde_json::Value>,
}

/// Dictionary error
#[derive(Debug)]
pub enum DictionaryError {
    /// Found an empty command
    EmptyCommand,
    /// Received a command in an invalid format
    InvalidCommandFormat(String, MessageSkipperError),
    /// Received an output string with an invalid format
    InvalidOutputFormat(String, MessageSkipperError),
    /// Received a command with an invalid tag. These are the 16 bits of the tag
    InvalidCommandTag(u16),
}

/// What a [`DictionaryError`] says.
pub enum DictionaryFault {
    EmptyCommand,
    InvalidCommandFormat(Seq<char>, crate::messages::Fault),
    InvalidOutputFormat(Seq<char>, crate::messages::Fault),
    InvalidCommandTag(u16),
}

impl View for DictionaryError {
    type V = DictionaryFault;

    open spec fn view(&self) -> DictionaryFault {
        match *self {
            DictionaryError::EmptyCommand => DictionaryFault::EmptyCommand,
            DictionaryError::InvalidCommandFormat(s, e) => DictionaryFault::InvalidCommandFormat(
                s@,
                e@,
            ),
            DictionaryError::InvalidOutputFormat(s, e) => DictionaryFault::InvalidOutputFormat(
                s@,
                e@,
            ),
            DictionaryError::InvalidCommandTag(t) => DictionaryFault::InvalidCommandTag(t),
        }
    }
}

// ---------------------------------------------------------------------------
// Tags
// ---------------------------------------------------------------------------

/// Whether a tag can be the tag of a message.
///
/// The tags from -4096 to 12287 can, which are those whose encoding takes one or two bytes: a
/// message has room for two bytes of ID in front of its arguments. From -32 to 95 one byte is
/// enough. The tags from 96 to 127 have the same IDs as those from -32 to -1, and are accepted all
/// the same, as a microcontroller with many messages numbers them right through.
pub open spec fn valid_tag(tag: i16) -> bool {
    -0x1000 <= tag < 0x3000
}

/// The message ID for a valid tag: 7 bits of a tag whose encoding is one byte long, 14 bits of one
/// whose encoding is two bytes long.
pub open spec fn mapped_tag(tag: i16) -> int {
    if -0x20 <= tag < 0x60 {
        tag as int % 0x80
    } else {
        tag as int % 0x4000
    }
}

/// A message ID has at most 14 bits.
pub proof fn mapped_tag_has_14_bits(tag: i16)
    ensures
        0 <= mapped_tag(tag) < 0x4000,
{
}

/// The tags from zero to `0x2FFF` are their own message IDs. So any two of them differ in their
/// IDs.
pub proof fn mapped_tag_keeps_small_tags(tag: i16)
    requires
        0 <= tag < 0x3000,
    ensures
        mapped_tag(tag) == tag,
{
}

/// Apart from the tags from -32 to -1, two valid tags never have the same message ID.
pub proof fn mapped_tags_differ(a: i16, b: i16)
    requires
        valid_tag(a),
        valid_tag(b),
        a != b,
        !(-0x20 <= a < 0),
        !(-0x20 <= b < 0),
    ensures
        mapped_tag(a) != mapped_tag(b),
{
}

/// The message ID from the encoding of a tag. A tag is valid if, and only if, its encoding takes no
/// more than two bytes.
pub proof fn mapped_tag_from_encoding(tag: i16)
    ensures
        ({
            let b = crate::encoding::vlq_encode(tag as u32);
            &&& b.len() == 1 ==> (b[0] as u16) & 0x7F == mapped_tag(tag)
            &&& b.len() == 2 ==> (((b[0] as u16) & 0x7F) << 7) | ((b[1] as u16) & 0x7F)
                == mapped_tag(tag)
            &&& b.len() >= 1
            &&& valid_tag(tag) == (b.len() <= 2)
        }),
{
    let s: i32 = (tag as u32) as i32;
    let g0 = crate::encoding::vlq_group(s, 0);
    let g1 = crate::encoding::vlq_group(s, 7);
    assert(s == tag) by (bit_vector)
        requires
            s == (tag as u32) as i32,
    ;
    if -0x20 <= tag < 0x60 {
        assert((g0 as u16) & 0x7F == tag as int % 0x80) by (bit_vector)
            requires
                s == (tag as u32) as i32,
                g0 == ((s >> 0i32) & 0x7F) as u8,
        ;
    } else if -0x1000 <= tag < 0x3000 {
        assert(((((g1 | 0x80) as u16) & 0x7F) << 7) | ((g0 as u16) & 0x7F) == tag as int
            % 0x4000) by (bit_vector)
            requires
                s == (tag as u32) as i32,
                g0 == ((s >> 0i32) & 0x7F) as u8,
                g1 == ((s >> 7i32) & 0x7F) as u8,
        ;
    }
}

// ---------------------------------------------------------------------------
// Making a dictionary
// ---------------------------------------------------------------------------

/// The messages of a dictionary: their IDs by their names, in the order of the names, and how to
/// read them, by their IDs.
pub struct Catalogue {
    pub ids: Seq<(Seq<char>, u16)>,
    pub parsers: Map<u16, crate::messages::ParserData>,
}

/// What some parsers know.
pub open spec fn parser_data(parsers: Map<u16, MessageParser>) -> Map<
    u16,
    crate::messages::ParserData,
> {
    Map::new(|id: u16| parsers.dom().contains(id), |id: u16| parsers[id]@)
}

/// A catalogue with one more message, declared by a text of its name and arguments with spaces
/// between them. An empty text declares nothing.
pub open spec fn with_message(
    catalogue: Catalogue,
    text: Seq<char>,
    tag: i16,
) -> Result<Catalogue, DictionaryFault> {
    let pieces = crate::text::split_at_each(text, ' ');
    let name = pieces[0];
    let id = mapped_tag(tag) as u16;
    if text.len() == 0 {
        Err(DictionaryFault::EmptyCommand)
    } else {
        match crate::messages::parts_fields(pieces.skip(1)) {
            Err(e) => Err(DictionaryFault::InvalidCommandFormat(name, e)),
            Ok(fields) => if !valid_tag(tag) {
                Err(DictionaryFault::InvalidCommandTag(tag as u16))
            } else {
                Ok(
                    Catalogue {
                        ids: crate::string_map::with_entry(catalogue.ids, name, id),
                        parsers: catalogue.parsers.insert(
                            id,
                            crate::messages::ParserData { name, fields, output: None },
                        ),
                    },
                )
            },
        }
    }
}

/// A catalogue with more messages. The first error ends it.
pub open spec fn with_messages(
    catalogue: Catalogue,
    entries: Seq<(Seq<char>, i16)>,
) -> Result<Catalogue, DictionaryFault>
    decreases entries.len(),
{
    if entries.len() == 0 {
        Ok(catalogue)
    } else {
        match with_messages(catalogue, entries.drop_last()) {
            Err(e) => Err(e),
            Ok(c) => with_message(c, entries.last().0, entries.last().1),
        }
    }
}

/// A catalogue with one more output message, declared by its format. It has no name to find its ID
/// by.
pub open spec fn with_output(
    catalogue: Catalogue,
    format: Seq<char>,
    tag: i16,
) -> Result<Catalogue, DictionaryFault> {
    match crate::messages::layout(format) {
        Err(e) => Err(DictionaryFault::InvalidOutputFormat(format, e)),
        Ok(l) => if !valid_tag(tag) {
            Err(DictionaryFault::InvalidCommandTag(tag as u16))
        } else {
            Ok(
                Catalogue {
                    ids: catalogue.ids,
                    parsers: catalogue.parsers.insert(
                        mapped_tag(tag) as u16,
                        crate::messages::ParserData {
                            name: format,
                            fields: crate::messages::output_fields(l.types),
                            output: Some(l.blocks),
                        },
                    ),
                },
            )
        },
    }
}

/// A catalogue with more output messages. The first error ends it.
pub open spec fn with_outputs(
    catalogue: Catalogue,
    entries: Seq<(Seq<char>, i16)>,
) -> Result<Catalogue, DictionaryFault>
    decreases entries.len(),
{
    if entries.len() == 0 {
        Ok(catalogue)
    } else {
        match with_outputs(catalogue, entries.drop_last()) {
            Err(e) => Err(e),
            Ok(c) => with_output(c, entries.last().0, entries.last().1),
        }
    }
}

/// The catalogue without messages.
pub open spec fn no_messages() -> Catalogue {
    Catalogue { ids: Seq::empty(), parsers: Map::empty() }
}

/// The catalogue of commands, responses and output messages, put in in this order.
pub open spec fn catalogue_of(
    commands: Seq<(Seq<char>, i16)>,
    responses: Seq<(Seq<char>, i16)>,
    output: Seq<(Seq<char>, i16)>,
) -> Result<Catalogue, DictionaryFault> {
    match with_messages(no_messages(), commands) {
        Err(e) => Err(e),
        Ok(c) => match with_messages(c, responses) {
            Err(e) => Err(e),
            Ok(c) => with_outputs(c, output),
        },
    }
}

/// An error in the first messages is the error of all of them.
proof fn with_messages_error(catalogue: Catalogue, entries: Seq<(Seq<char>, i16)>, n: int)
    requires
        0 <= n <= entries.len(),
        with_messages(catalogue, entries.take(n)) is Err,
    ensures
        with_messages(catalogue, entries) == with_messages(catalogue, entries.take(n)),
    decreases entries.len() - n,
{
    if n == entries.len() {
        assert(entries.take(n) =~= entries);
    } else {
        assert(entries.take(n + 1).drop_last() =~= entries.take(n));
        with_messages_error(catalogue, entries, n + 1);
    }
}

/// An error in the first output messages is the error of all of them.
proof fn with_outputs_error(catalogue: Catalogue, entries: Seq<(Seq<char>, i16)>, n: int)
    requires
        0 <= n <= entries.len(),
        with_outputs(catalogue, entries.take(n)) is Err,
    ensures
        with_outputs(catalogue, entries) == with_outputs(catalogue, entries.take(n)),
    decreases entries.len() - n,
{
    if n == entries.len() {
        assert(entries.take(n) =~= entries);
    } else {
        assert(entries.take(n + 1).drop_last() =~= entries.take(n));
        with_outputs_error(catalogue, entries, n + 1);
    }
}

/// The catalogue that names and parsers make.
pub open spec fn catalogue_in(
    ids: StringMap<u16>,
    parsers: Map<u16, MessageParser>,
) -> Catalogue {
    Catalogue { ids: ids.pairs(), parsers: parser_data(parsers) }
}

/// Whether there is a parser for each ID that a name has.
pub open spec fn ids_have_parsers(catalogue: Catalogue) -> bool {
    forall|i: int|
        0 <= i < catalogue.ids.len() ==> catalogue.parsers.dom().contains(
            (#[trigger] catalogue.ids[i]).1,
        )
}

proof fn with_messages_ids_have_parsers(catalogue: Catalogue, entries: Seq<(Seq<char>, i16)>)
    requires
        ids_have_parsers(catalogue),
    ensures
        with_messages(catalogue, entries) matches Ok(c) ==> ids_have_parsers(c),
    decreases entries.len(),
{
    if entries.len() > 0 {
        with_messages_ids_have_parsers(catalogue, entries.drop_last());
        if let Ok(c) = with_messages(catalogue, entries.drop_last()) {
            let (text, tag) = entries.last();
            if let Ok(d) = with_message(c, text, tag) {
                let name = crate::text::split_at_each(text, ' ')[0];
                crate::string_map::with_entry_keys(c.ids, name, mapped_tag(tag) as u16);
                assert forall|i: int| 0 <= i < d.ids.len() implies d.parsers.dom().contains(
                    (#[trigger] d.ids[i]).1,
                ) by {
                    if d.ids[i] != (name, mapped_tag(tag) as u16) {
                        let k = choose|k: int|
                            0 <= k < c.ids.len() && d.ids[i] == #[trigger] c.ids[k];
                        assert(c.parsers.dom().contains(c.ids[k].1));
                    }
                }
            }
        }
    }
}

proof fn with_outputs_ids_have_parsers(catalogue: Catalogue, entries: Seq<(Seq<char>, i16)>)
    requires
        ids_have_parsers(catalogue),
    ensures
        with_outputs(catalogue, entries) matches Ok(c) ==> ids_have_parsers(c),
    decreases entries.len(),
{
    if entries.len() > 0 {
        with_outputs_ids_have_parsers(catalogue, entries.drop_last());
    }
}

/// In a dictionary, each ID that is found by a name has a parser.
pub proof fn catalogue_ids_have_parsers(
    commands: Seq<(Seq<char>, i16)>,
    responses: Seq<(Seq<char>, i16)>,
    output: Seq<(Seq<char>, i16)>,
)
    ensures
        catalogue_of(commands, responses, output) matches Ok(c) ==> ids_have_parsers(c),
{
    with_messages_ids_have_parsers(no_messages(), commands);
    if let Ok(c) = with_messages(no_messages(), commands) {
        with_messages_ids_have_parsers(c, responses);
        if let Ok(d) = with_messages(c, responses) {
            with_outputs_ids_have_parsers(d, output);
        }
    }
}

/// The name in the declaration of a message.
pub open spec fn declared_name(text: Seq<char>) -> Seq<char> {
    crate::text::split_at_each(text, ' ')[0]
}

/// Whether a catalogue has a message as it was declared: its ID is found by its name, and the ID
/// leads to a parser with its name and arguments.
pub open spec fn has_message(catalogue: Catalogue, text: Seq<char>, tag: i16) -> bool {
    let id = mapped_tag(tag) as u16;
    &&& crate::string_map::lookup(catalogue.ids, declared_name(text)) == Some(id)
    &&& catalogue.parsers.dom().contains(id)
    &&& catalogue.parsers[id].name == declared_name(text)
    &&& crate::messages::parts_fields(crate::text::split_at_each(text, ' ').skip(1)) == Ok::<
        Seq<crate::messages::Field>,
        crate::messages::Fault,
    >(catalogue.parsers[id].fields)
    &&& catalogue.parsers[id].output is None
}

/// A message stays when messages of other names and IDs are put in.
proof fn with_messages_keeps(
    catalogue: Catalogue,
    entries: Seq<(Seq<char>, i16)>,
    text: Seq<char>,
    tag: i16,
)
    requires
        has_message(catalogue, text, tag),
        forall|i: int|
            0 <= i < entries.len() ==> declared_name((#[trigger] entries[i]).0) != declared_name(
                text,
            ) && mapped_tag(entries[i].1) != mapped_tag(tag),
    ensures
        with_messages(catalogue, entries) matches Ok(c) ==> has_message(c, text, tag),
    decreases entries.len(),
{
    if entries.len() > 0 {
        let front = entries.drop_last();
        assert forall|i: int| 0 <= i < front.len() implies declared_name((#[trigger] front[i]).0)
            != declared_name(text) && mapped_tag(front[i].1) != mapped_tag(tag) by {
            assert(front[i] == entries[i]);
        }
        with_messages_keeps(catalogue, front, text, tag);
        let last = entries[entries.len() - 1];
        if let Ok(c) = with_messages(catalogue, front) {
            crate::string_map::lookup_with_entry(
                c.ids,
                declared_name(last.0),
                mapped_tag(last.1) as u16,
                declared_name(text),
            );
        }
    }
}

/// A message stays when output messages of other IDs are put in.
proof fn with_outputs_keeps(
    catalogue: Catalogue,
    entries: Seq<(Seq<char>, i16)>,
    text: Seq<char>,
    tag: i16,
)
    requires
        has_message(catalogue, text, tag),
        forall|i: int|
            0 <= i < entries.len() ==> mapped_tag((#[trigger] entries[i]).1) != mapped_tag(tag),
    ensures
        with_outputs(catalogue, entries) matches Ok(c) ==> has_message(c, text, tag),
    decreases entries.len(),
{
    if entries.len() > 0 {
        let front = entries.drop_last();
        assert forall|i: int| 0 <= i < front.len() implies mapped_tag((#[trigger] front[i]).1)
            != mapped_tag(tag) by {
            assert(front[i] == entries[i]);
        }
        with_outputs_keeps(catalogue, front, text, tag);
        assert(entries.last() == entries[entries.len() - 1]);
    }
}

/// Each message is there once all are put in, where no two share a name or an ID.
proof fn with_messages_has(catalogue: Catalogue, entries: Seq<(Seq<char>, i16)>, k: int)
    requires
        0 <= k < entries.len(),
        forall|i: int|
            k < i < entries.len() ==> declared_name((#[trigger] entries[i]).0) != declared_name(
                entries[k].0,
            ) && mapped_tag(entries[i].1) != mapped_tag(entries[k].1),
    ensures
        with_messages(catalogue, entries) matches Ok(c) ==> has_message(
            c,
            entries[k].0,
            entries[k].1,
        ),
    decreases entries.len(),
{
    let front = entries.drop_last();
    let last = entries[entries.len() - 1];
    if k < front.len() {
        assert(front[k] == entries[k]);
        assert forall|i: int| k < i < front.len() implies declared_name((#[trigger] front[i]).0)
            != declared_name(front[k].0) && mapped_tag(front[i].1) != mapped_tag(front[k].1) by {
            assert(front[i] == entries[i]);
        }
        with_messages_has(catalogue, front, k);
    }
    if let Ok(c) = with_messages(catalogue, front) {
        crate::string_map::lookup_with_entry(
            c.ids,
            declared_name(last.0),
            mapped_tag(last.1) as u16,
            declared_name(entries[k].0),
        );
    }
}

/// A command or response that a dictionary was made of is found in it by its name, with its ID and
/// arguments, unless a later one takes its name or ID.
pub proof fn declared_message_is_found(
    commands: Seq<(Seq<char>, i16)>,
    responses: Seq<(Seq<char>, i16)>,
    output: Seq<(Seq<char>, i16)>,
    k: int,
)
    requires
        0 <= k < commands.len() + responses.len(),
        forall|i: int|
            k < i < commands.len() + responses.len() ==> declared_name(
                (#[trigger] (commands + responses)[i]).0,
            ) != declared_name((commands + responses)[k].0),
        forall|i: int|
            k < i < commands.len() + responses.len() + output.len() ==> mapped_tag(
                (#[trigger] (commands + responses + output)[i]).1,
            ) != mapped_tag((commands + responses)[k].1),
    ensures
        catalogue_of(commands, responses, output) matches Ok(c) ==> has_message(
            c,
            (commands + responses)[k].0,
            (commands + responses)[k].1,
        ),
{
    let messages = commands + responses;
    let all = messages + output;
    let (text, tag) = messages[k];
    assert forall|i: int| k < i < messages.len() implies mapped_tag((#[trigger] messages[i]).1)
        != mapped_tag(tag) by {
        assert(all[i] == messages[i]);
    }
    assert forall|i: int| 0 <= i < output.len() implies mapped_tag((#[trigger] output[i]).1)
        != mapped_tag(tag) by {
        assert(all[messages.len() + i] == output[i]);
    }
    assert forall|i: int| k < i < commands.len() implies declared_name((#[trigger] commands[i]).0)
        != declared_name(text) && mapped_tag(commands[i].1) != mapped_tag(tag) by {
        assert(messages[i] == commands[i]);
    }
    assert forall|i: int|
        0 <= i < responses.len() && k < commands.len() + i implies declared_name(
        (#[trigger] responses[i]).0,
    ) != declared_name(text) && mapped_tag(responses[i].1) != mapped_tag(tag) by {
        assert(messages[commands.len() + i] == responses[i]);
    }
    if k < commands.len() {
        with_messages_has(no_messages(), commands, k);
    }
    if let Ok(c) = with_messages(no_messages(), commands) {
        if k < commands.len() {
            with_messages_keeps(c, responses, text, tag);
        } else {
            with_messages_has(c, responses, k - commands.len());
        }
        if let Ok(d) = with_messages(c, responses) {
            with_outputs_keeps(d, output, text, tag);
        }
    }
}

/// The messages that a microcontroller declares, and what else it says of itself.
#[derive(Debug)]
pub struct Dictionary {
    pub message_ids: StringMap<u16>,
    pub message_parsers: BTreeMap<u16, MessageParser>,
    pub config: BTreeMap<String, ConfigVar>,
    pub enumerations: BTreeMap<String, BTreeMap<String, Enumeration>>,
    pub build_versions: Option<String>,
    pub version: Option<String>,
    pub extra: BTreeMap<String, serde_json::Value>,
}

impl Dictionary {
    /// The messages of the dictionary.
    pub open spec fn catalogue(&self) -> Catalogue {
        catalogue_in(self.message_ids, self.message_parsers@)
    }

    /// The names can be searched, and there is a parser for each ID that a name has.
    pub open spec fn wf(&self) -> bool {
        &&& self.message_ids.wf()
        &&& ids_have_parsers(self.catalogue())
    }

    /// Adds commands or responses.
    fn add_messages(
        entries: &StringMap<i16>,
        message_ids: &mut StringMap<u16>,
        message_parsers: &mut BTreeMap<u16, MessageParser>,
    ) -> (r: Result<(), DictionaryError>)
        requires
            old(message_ids).wf(),
        ensures
            final(message_ids).wf(),
            match with_messages(
                catalogue_in(*old(message_ids), old(message_parsers)@),
                entries.pairs(),
            ) {
                Ok(c) => r is Ok && catalogue_in(*final(message_ids), final(message_parsers)@) == c,
                Err(e) => r matches Err(f) && f@ == e,
            },
    {
        let ghost start = catalogue_in(*message_ids, message_parsers@);
        let ghost pairs = entries.pairs();
        let n: usize = entries.entries.len();
        let mut i: usize = 0;
        while i < n
            invariant
                i <= n == entries.entries@.len(),
                start == catalogue_in(*old(message_ids), old(message_parsers)@),
                pairs == entries.pairs(),
                message_ids.wf(),
                with_messages(start, pairs.take(i as int)) == Ok::<Catalogue, DictionaryFault>(
                    catalogue_in(*message_ids, message_parsers@),
                ),
            decreases n - i,
        {
            let text = &entries.entries[i].0;
            let tag: i16 = entries.entries[i].1;
            proof {
                assert(pairs.take(i + 1).drop_last() =~= pairs.take(i as int));
                assert(pairs.take(i + 1).last() == (text@, tag));
                reveal_strlit("");
                assert(text@.len() == 0 ==> text@ =~= ""@);
            }
            if same_text(text.as_str(), "") {
                proof {
                    with_messages_error(start, pairs, i + 1);
                }
                return Err(DictionaryError::EmptyCommand);
            }
            let mut pieces = split(text.as_str(), ' ');
            let ghost texts = crate::text::texts_of(pieces@);
            let name = pieces.remove(0);
            proof {
                assert(crate::text::texts_of(pieces@) =~= texts.skip(1));
                assert(name@ == texts[0]);
            }
            match MessageParser::new(name.as_str(), &pieces) {
                Ok(parser) => match Self::map_tag(tag) {
                    Ok(id) => {
                        let ghost parsers = message_parsers@;
                        message_parsers.insert(id, parser);
                        assert(parser_data(message_parsers@) =~= parser_data(parsers).insert(
                            id,
                            parser@,
                        ));
                        message_ids.insert(name, id);
                    },
                    Err(e) => {
                        proof {
                            with_messages_error(start, pairs, i + 1);
                        }
                        return Err(e);
                    },
                },
                Err(e) => {
                    proof {
                        with_messages_error(start, pairs, i + 1);
                    }
                    return Err(DictionaryError::InvalidCommandFormat(name, e));
                },
            }
            i += 1;
        }
        assert(pairs.take(n as int) =~= pairs);
        Ok(())
    }

    /// Adds output messages.
    fn add_outputs(
        entries: &StringMap<i16>,
        message_ids: &StringMap<u16>,
        message_parsers: &mut BTreeMap<u16, MessageParser>,
    ) -> (r: Result<(), DictionaryError>)
        ensures
            match with_outputs(
                catalogue_in(*message_ids, old(message_parsers)@),
                entries.pairs(),
            ) {
                Ok(c) => r is Ok && catalogue_in(*message_ids, final(message_parsers)@) == c,
                Err(e) => r matches Err(f) && f@ == e,
            },
    {
        let ghost start = catalogue_in(*message_ids, message_parsers@);
        let ghost pairs = entries.pairs();
        let n: usize = entries.entries.len();
        let mut i: usize = 0;
        while i < n
            invariant
                i <= n == entries.entries@.len(),
                start == catalogue_in(*message_ids, old(message_parsers)@),
                pairs == entries.pairs(),
                with_outputs(start, pairs.take(i as int)) == Ok::<Catalogue, DictionaryFault>(
                    catalogue_in(*message_ids, message_parsers@),
                ),
            decreases n - i,
        {
            let msg = &entries.entries[i].0;
            let tag: i16 = entries.entries[i].1;
            proof {
                assert(pairs.take(i + 1).drop_last() =~= pairs.take(i as int));
                assert(pairs.take(i + 1).last() == (msg@, tag));
            }
            match MessageParser::new_output(msg.as_str()) {
                Ok(parser) => match Self::map_tag(tag) {
                    Ok(id) => {
                        let ghost parsers = message_parsers@;
                        message_parsers.insert(id, parser);
                        assert(parser_data(message_parsers@) =~= parser_data(parsers).insert(
                            id,
                            parser@,
                        ));
                    },
                    Err(e) => {
                        proof {
                            with_outputs_error(start, pairs, i + 1);
                        }
                        return Err(e);
                    },
                },
                Err(e) => {
                    proof {
                        with_outputs_error(start, pairs, i + 1);
                    }
                    return Err(DictionaryError::InvalidOutputFormat(msg.clone(), e));
                },
            }
            i += 1;
        }
        assert(pairs.take(n as int) =~= pairs);
        Ok(())
    }

    /// Makes a dictionary of what the microcontroller sent.
    pub fn from_raw_dictionary(raw: RawDictionary) -> (r: Result<Self, DictionaryError>)
        ensures
            match catalogue_of(raw.commands.pairs(), raw.responses.pairs(), raw.output.pairs()) {
                Ok(c) => {
                    &&& r matches Ok(d)
                    &&& d.wf()
                    &&& d.catalogue() == c
                    &&& d.config == raw.config
                    &&& d.enumerations == raw.enumerations
                    &&& d.build_versions == raw.build_versions
                    &&& d.version == raw.version
                    &&& d.extra == raw.extra
                },
                Err(e) => r matches Err(f) && f@ == e,
            },
    {
        proof {
            catalogue_ids_have_parsers(
                raw.commands.pairs(),
                raw.responses.pairs(),
                raw.output.pairs(),
            );
        }
        let mut message_ids: StringMap<u16> = StringMap::new();
        let mut message_parsers: BTreeMap<u16, MessageParser> = BTreeMap::new();
        assert(parser_data(message_parsers@) =~= Map::empty());
        match Self::add_messages(&raw.commands, &mut message_ids, &mut message_parsers) {
            Ok(()) => {},
            Err(e) => {
                return Err(e);
            },
        }
        match Self::add_messages(&raw.responses, &mut message_ids, &mut message_parsers) {
            Ok(()) => {},
            Err(e) => {
                return Err(e);
            },
        }
        match Self::add_outputs(&raw.output, &message_ids, &mut message_parsers) {
            Ok(()) => {},
            Err(e) => {
                return Err(e);
            },
        }
        Ok(
            Dictionary {
                message_ids,
                message_parsers,
                config: raw.config,
                enumerations: raw.enumerations,
                build_versions: raw.build_versions,
                version: raw.version,
                extra: raw.extra,
            },
        )
    }

    /// The message ID for a tag. Only the tags from -4096 to 12287 have one, as [`valid_tag`]
    /// explains; the error for another tag holds its 16 bits.
    pub fn map_tag(tag: i16) -> (r: Result<u16, DictionaryError>)
        ensures
            valid_tag(tag) ==> (r matches Ok(id) && id == mapped_tag(tag)),
            !valid_tag(tag) ==> (r matches Err(DictionaryError::InvalidCommandTag(t)) && t
                == tag as u16),
    {
        let mut buf: Vec<u8> = Vec::new();
        encode_vlq_int(&mut buf, tag as u32);
        proof {
            mapped_tag_from_encoding(tag);
            assert(buf@ =~= crate::encoding::vlq_encode(tag as u32));
        }
        if buf.len() > 2 {
            return Err(DictionaryError::InvalidCommandTag(tag as u16));
        }
        let v: u16 = if buf.len() > 1 {
            (((buf[0] as u16) & 0x7F) << 7) | ((buf[1] as u16) & 0x7F)
        } else {
            (buf[0] as u16) & 0x7F
        };
        Ok(v)
    }
}

// ---------------------------------------------------------------------------
// What a dictionary is made of
// ---------------------------------------------------------------------------

/// Tags from -4096 to 12287 are valid. Those from zero on are their own IDs, those from -32 to -1
/// count down from the end of 7 bits, and those below count down from the end of 14 bits.
pub proof fn tags_become_ids(tag: i16)
    ensures
        valid_tag(tag) <==> -4096 <= tag < 12288,
        0 <= tag < 12288 ==> mapped_tag(tag) == tag,
        -32 <= tag < 0 ==> mapped_tag(tag) == 128 + tag,
        -4096 <= tag < -32 ==> mapped_tag(tag) == 16384 + tag,
{
}

/// Whether a text declares an argument: a name without an equals sign, an equals sign, and one of
/// the eight directives.
pub open spec fn is_argument(piece: Seq<char>) -> bool {
    exists|n: int, ty: crate::encoding::FieldType|
        #![trigger crate::encoding::is_directive_of(piece.skip(n + 1), ty)]
        {
            &&& 0 <= n < piece.len()
            &&& piece[n] == '='
            &&& forall|k: int| 0 <= k < n ==> #[trigger] piece[k] != '='
            &&& crate::encoding::is_directive_of(piece.skip(n + 1), ty)
        }
}

/// Whether a message is declared well: its text is not empty, each piece of it behind the first
/// declares an argument, and its tag is valid.
pub open spec fn is_well_declared(entry: (Seq<char>, i16)) -> bool {
    let pieces = crate::text::split_at_each(entry.0, ' ');
    &&& entry.0.len() > 0
    &&& -4096 <= entry.1 < 12288
    &&& forall|j: int| 1 <= j < pieces.len() ==> is_argument(#[trigger] pieces[j])
}

proof fn well_declared_message_is_taken(catalogue: Catalogue, entry: (Seq<char>, i16))
    requires
        is_well_declared(entry),
    ensures
        with_message(catalogue, entry.0, entry.1) is Ok,
{
    let pieces = crate::text::split_at_each(entry.0, ' ');
    let parts = pieces.skip(1);
    assert forall|i: int| 0 <= i < parts.len() implies crate::messages::part_field(
        #[trigger] parts[i],
    ) is Ok by {
        let piece = pieces[i + 1];
        assert(is_argument(piece));
        let (n, ty) = choose|n: int, ty: crate::encoding::FieldType|
            #![trigger crate::encoding::is_directive_of(piece.skip(n + 1), ty)]
            {
                &&& 0 <= n < piece.len()
                &&& piece[n] == '='
                &&& forall|k: int| 0 <= k < n ==> #[trigger] piece[k] != '='
                &&& crate::encoding::is_directive_of(piece.skip(n + 1), ty)
            };
        let name = piece.take(n);
        let text = piece.skip(n + 1);
        assert forall|k: int| 0 <= k < name.len() implies #[trigger] name[k] != '=' by {
            assert(name[k] == piece[k]);
        }
        assert(piece =~= name + seq!['='] + text);
        crate::messages::arguments_are_declared_by_name_and_directive(name, text, ty);
        assert(parts[i] == piece);
    }
    crate::messages::declarations_are_taken_one_by_one(parts, parts.len() as int);
}

proof fn well_declared_messages_are_taken(catalogue: Catalogue, entries: Seq<(Seq<char>, i16)>)
    requires
        forall|i: int| 0 <= i < entries.len() ==> is_well_declared(#[trigger] entries[i]),
    ensures
        with_messages(catalogue, entries) is Ok,
    decreases entries.len(),
{
    if entries.len() > 0 {
        let front = entries.drop_last();
        assert forall|i: int| 0 <= i < front.len() implies is_well_declared(
            #[trigger] front[i],
        ) by {
            assert(front[i] == entries[i]);
        }
        well_declared_messages_are_taken(catalogue, front);
        assert(is_well_declared(entries[entries.len() - 1]));
        well_declared_message_is_taken(with_messages(catalogue, front)->Ok_0, entries.last());
    }
}

proof fn sound_outputs_are_taken(catalogue: Catalogue, entries: Seq<(Seq<char>, i16)>)
    requires
        forall|i: int|
            0 <= i < entries.len() ==> crate::messages::layout((#[trigger] entries[i]).0) is Ok
                && -4096 <= entries[i].1 < 12288,
    ensures
        with_outputs(catalogue, entries) is Ok,
    decreases entries.len(),
{
    if entries.len() > 0 {
        let front = entries.drop_last();
        assert forall|i: int| 0 <= i < front.len() implies crate::messages::layout(
            (#[trigger] front[i]).0,
        ) is Ok && -4096 <= front[i].1 < 12288 by {
            assert(front[i] == entries[i]);
        }
        sound_outputs_are_taken(catalogue, front);
        assert(crate::messages::layout(entries[entries.len() - 1].0) is Ok);
    }
}

/// A dictionary whose messages are all declared well, with output formats that are sound, is made
/// without an error.
pub proof fn good_declarations_make_a_dictionary(
    commands: Seq<(Seq<char>, i16)>,
    responses: Seq<(Seq<char>, i16)>,
    output: Seq<(Seq<char>, i16)>,
)
    requires
        forall|i: int| 0 <= i < commands.len() ==> is_well_declared(#[trigger] commands[i]),
        forall|i: int| 0 <= i < responses.len() ==> is_well_declared(#[trigger] responses[i]),
        forall|i: int|
            0 <= i < output.len() ==> crate::messages::layout((#[trigger] output[i]).0) is Ok
                && -4096 <= output[i].1 < 12288,
    ensures
        catalogue_of(commands, responses, output) is Ok,
{
    well_declared_messages_are_taken(no_messages(), commands);
    let c = with_messages(no_messages(), commands)->Ok_0;
    well_declared_messages_are_taken(c, responses);
    sound_outputs_are_taken(with_messages(c, responses)->Ok_0, output);
}

/// What is wrong with the declaration of a message. An empty text comes first, then an argument
/// that cannot be read, then a tag that is not valid.
proof fn bad_message_is_refused(catalogue: Catalogue, text: Seq<char>, tag: i16)
    ensures
        ({
            let pieces = crate::text::split_at_each(text, ' ');
            let r = with_message(catalogue, text, tag);
            &&& text.len() == 0 ==> r == Err::<Catalogue, DictionaryFault>(
                DictionaryFault::EmptyCommand,
            )
            &&& text.len() > 0 ==> (crate::messages::parts_fields(pieces.skip(1)) matches Err(e)
                ==> r == Err::<Catalogue, DictionaryFault>(
                DictionaryFault::InvalidCommandFormat(pieces[0], e),
            ))
            &&& text.len() > 0 && crate::messages::parts_fields(pieces.skip(1)) is Ok && !(-4096
                <= tag < 12288) ==> r == Err::<Catalogue, DictionaryFault>(
                DictionaryFault::InvalidCommandTag(tag as u16),
            )
        }),
{
}

/// The first command that is refused decides the error, if all before it are taken. The responses
/// come behind the commands, and the output messages behind both.
pub proof fn first_bad_command_is_reported(
    commands: Seq<(Seq<char>, i16)>,
    responses: Seq<(Seq<char>, i16)>,
    output: Seq<(Seq<char>, i16)>,
    k: int,
)
    requires
        0 <= k < commands.len(),
        catalogue_of(commands.take(k), Seq::empty(), Seq::empty()) is Ok,
    ensures
        ({
            let (text, tag) = commands[k];
            let pieces = crate::text::split_at_each(text, ' ');
            let r = catalogue_of(commands, responses, output);
            &&& text.len() == 0 ==> r == Err::<Catalogue, DictionaryFault>(
                DictionaryFault::EmptyCommand,
            )
            &&& text.len() > 0 ==> (crate::messages::parts_fields(pieces.skip(1)) matches Err(e)
                ==> r == Err::<Catalogue, DictionaryFault>(
                DictionaryFault::InvalidCommandFormat(pieces[0], e),
            ))
            &&& text.len() > 0 && crate::messages::parts_fields(pieces.skip(1)) is Ok && !(-4096
                <= tag < 12288) ==> r == Err::<Catalogue, DictionaryFault>(
                DictionaryFault::InvalidCommandTag(tag as u16),
            )
        }),
{
    let (text, tag) = commands[k];
    let before = with_messages(no_messages(), commands.take(k))->Ok_0;
    bad_message_is_refused(before, text, tag);
    assert(commands.take(k + 1).drop_last() =~= commands.take(k));
    if with_message(before, text, tag) is Err {
        with_messages_error(no_messages(), commands, k + 1);
    }
}

/// The first response that is refused decides the error, if all before it are taken.
pub proof fn first_bad_response_is_reported(
    commands: Seq<(Seq<char>, i16)>,
    responses: Seq<(Seq<char>, i16)>,
    output: Seq<(Seq<char>, i16)>,
    k: int,
)
    requires
        0 <= k < responses.len(),
        catalogue_of(commands, responses.take(k), Seq::empty()) is Ok,
    ensures
        ({
            let (text, tag) = responses[k];
            let pieces = crate::text::split_at_each(text, ' ');
            let r = catalogue_of(commands, responses, output);
            &&& text.len() == 0 ==> r == Err::<Catalogue, DictionaryFault>(
                DictionaryFault::EmptyCommand,
            )
            &&& text.len() > 0 ==> (crate::messages::parts_fields(pieces.skip(1)) matches Err(e)
                ==> r == Err::<Catalogue, DictionaryFault>(
                DictionaryFault::InvalidCommandFormat(pieces[0], e),
            ))
            &&& text.len() > 0 && crate::messages::parts_fields(pieces.skip(1)) is Ok && !(-4096
                <= tag < 12288) ==> r == Err::<Catalogue, DictionaryFault>(
                DictionaryFault::InvalidCommandTag(tag as u16),
            )
        }),
{
    let (text, tag) = responses[k];
    let start = with_messages(no_messages(), commands)->Ok_0;
    let before = with_messages(start, responses.take(k))->Ok_0;
    bad_message_is_refused(before, text, tag);
    assert(responses.take(k + 1).drop_last() =~= responses.take(k));
    if with_message(before, text, tag) is Err {
        with_messages_error(start, responses, k + 1);
    }
}

/// The first output message that is refused decides the error, if all before it are taken: its
/// format is not sound, or its tag is not valid.
pub proof fn first_bad_output_is_reported(
    commands: Seq<(Seq<char>, i16)>,
    responses: Seq<(Seq<char>, i16)>,
    output: Seq<(Seq<char>, i16)>,
    k: int,
)
    requires
        0 <= k < output.len(),
        catalogue_of(commands, responses, output.take(k)) is Ok,
    ensures
        ({
            let (format, tag) = output[k];
            let r = catalogue_of(commands, responses, output);
            &&& crate::messages::layout(format) matches Err(e) ==> r == Err::<
                Catalogue,
                DictionaryFault,
            >(DictionaryFault::InvalidOutputFormat(format, e))
            &&& crate::messages::layout(format) is Ok && !(-4096 <= tag < 12288) ==> r == Err::<
                Catalogue,
                DictionaryFault,
            >(DictionaryFault::InvalidCommandTag(tag as u16))
        }),
{
    let (format, tag) = output[k];
    let start = with_messages(
        with_messages(no_messages(), commands)->Ok_0,
        responses,
    )->Ok_0;
    assert(output.take(k + 1).drop_last() =~= output.take(k));
    let before = with_outputs(start, output.take(k))->Ok_0;
    if with_output(before, format, tag) is Err {
        with_outputs_error(start, output, k + 1);
    }
}

proof fn with_outputs_has(catalogue: Catalogue, entries: Seq<(Seq<char>, i16)>, k: int)
    requires
        0 <= k < entries.len(),
        forall|i: int|
            k < i < entries.len() ==> mapped_tag((#[trigger] entries[i]).1) != mapped_tag(
                entries[k].1,
            ),
    ensures
        with_outputs(catalogue, entries) matches Ok(c) ==> {
            let id = mapped_tag(entries[k].1) as u16;
            &&& c.parsers.dom().contains(id)
            &&& c.parsers[id].name == entries[k].0
            &&& crate::messages::layout(entries[k].0) matches Ok(l)
            &&& c.parsers[id].fields == crate::messages::output_fields(l.types)
            &&& c.parsers[id].output == Some(l.blocks)
        },
    decreases entries.len(),
{
    let front = entries.drop_last();
    let n = entries.len() - 1;
    assert(entries.last() == entries[n]);
    if k < n {
        assert(front[k] == entries[k]);
        assert forall|i: int| k < i < front.len() implies mapped_tag((#[trigger] front[i]).1)
            != mapped_tag(front[k].1) by {
            assert(front[i] == entries[i]);
        }
        with_outputs_has(catalogue, front, k);
        assert(mapped_tag(entries[n].1) != mapped_tag(entries[k].1));
    }
}

/// An output message that a dictionary was made of is found in it by its ID, with its format,
/// unless a later one takes its ID.
pub proof fn declared_output_is_found(
    commands: Seq<(Seq<char>, i16)>,
    responses: Seq<(Seq<char>, i16)>,
    output: Seq<(Seq<char>, i16)>,
    k: int,
)
    requires
        0 <= k < output.len(),
        forall|i: int|
            k < i < output.len() ==> mapped_tag((#[trigger] output[i]).1) != mapped_tag(
                output[k].1,
            ),
    ensures
        catalogue_of(commands, responses, output) matches Ok(c) ==> {
            let id = mapped_tag(output[k].1) as u16;
            &&& c.parsers.dom().contains(id)
            &&& c.parsers[id].name == output[k].0
            &&& crate::messages::layout(output[k].0) matches Ok(l)
            &&& c.parsers[id].fields == crate::messages::output_fields(l.types)
            &&& c.parsers[id].output == Some(l.blocks)
        },
{
    if let Ok(c) = with_messages(no_messages(), commands) {
        if let Ok(d) = with_messages(c, responses) {
            with_outputs_has(d, output, k);
        }
    }
}

proof fn with_messages_adds_nothing_else(
    catalogue: Catalogue,
    entries: Seq<(Seq<char>, i16)>,
    name: Seq<char>,
    id: u16,
)
    ensures
        with_messages(catalogue, entries) matches Ok(c) ==> {
            &&& (forall|i: int|
                0 <= i < entries.len() ==> declared_name((#[trigger] entries[i]).0) != name)
                ==> crate::string_map::lookup(c.ids, name) == crate::string_map::lookup(
                catalogue.ids,
                name,
            )
            &&& (forall|i: int|
                0 <= i < entries.len() ==> mapped_tag((#[trigger] entries[i]).1) != id)
                ==> c.parsers.dom().contains(id) == catalogue.parsers.dom().contains(id)
        },
    decreases entries.len(),
{
    if entries.len() > 0 {
        let front = entries.drop_last();
        let last = entries[entries.len() - 1];
        assert(entries.last() == last);
        assert forall|i: int| 0 <= i < front.len() implies #[trigger] front[i] == entries[i] by {}
        with_messages_adds_nothing_else(catalogue, front, name, id);
        if let Ok(c) = with_messages(catalogue, front) {
            crate::string_map::lookup_with_entry(
                c.ids,
                declared_name(last.0),
                mapped_tag(last.1) as u16,
                name,
            );
        }
    }
}

proof fn with_outputs_adds_nothing_else(
    catalogue: Catalogue,
    entries: Seq<(Seq<char>, i16)>,
    id: u16,
)
    ensures
        with_outputs(catalogue, entries) matches Ok(c) ==> {
            &&& c.ids == catalogue.ids
            &&& (forall|i: int|
                0 <= i < entries.len() ==> mapped_tag((#[trigger] entries[i]).1) != id)
                ==> c.parsers.dom().contains(id) == catalogue.parsers.dom().contains(id)
        },
    decreases entries.len(),
{
    if entries.len() > 0 {
        let front = entries.drop_last();
        assert(entries.last() == entries[entries.len() - 1]);
        assert forall|i: int| 0 <= i < front.len() implies #[trigger] front[i] == entries[i] by {}
        with_outputs_adds_nothing_else(catalogue, front, id);
    }
}

/// A name that no command or response declares is not found in a dictionary, and an ID that no
/// message has leads to nothing.
pub proof fn nothing_else_is_found(
    commands: Seq<(Seq<char>, i16)>,
    responses: Seq<(Seq<char>, i16)>,
    output: Seq<(Seq<char>, i16)>,
    name: Seq<char>,
    id: u16,
)
    ensures
        catalogue_of(commands, responses, output) matches Ok(c) ==> {
            &&& (forall|i: int|
                0 <= i < commands.len() ==> declared_name((#[trigger] commands[i]).0) != name) && (
            forall|i: int|
                0 <= i < responses.len() ==> declared_name((#[trigger] responses[i]).0) != name)
                ==> crate::string_map::lookup(c.ids, name) is None
            &&& (forall|i: int|
                0 <= i < commands.len() ==> mapped_tag((#[trigger] commands[i]).1) != id) && (
            forall|i: int|
                0 <= i < responses.len() ==> mapped_tag((#[trigger] responses[i]).1) != id) && (
            forall|i: int| 0 <= i < output.len() ==> mapped_tag((#[trigger] output[i]).1) != id)
                ==> !c.parsers.dom().contains(id)
        },
{
    with_messages_adds_nothing_else(no_messages(), commands, name, id);
    if let Ok(c) = with_messages(no_messages(), commands) {
        with_messages_adds_nothing_else(c, responses, name, id);
        if let Ok(d) = with_messages(c, responses) {
            with_outputs_adds_nothing_else(d, output, id);
        }
    }
}

/// The messages of a dictionary are its names with their IDs, and its parsers by their IDs.
pub proof fn dictionary_has_its_names_and_parsers(dictionary: Dictionary, id: u16)
    ensures
        dictionary.catalogue().ids == dictionary.message_ids.pairs(),
        dictionary.catalogue().parsers.dom().contains(id)
            == dictionary.message_parsers@.dom().contains(id),
        dictionary.message_parsers@.dom().contains(id) ==> dictionary.catalogue().parsers[id]
            == dictionary.message_parsers@[id]@,
{
}

/// An error says what it holds.
pub proof fn dictionary_errors_hold_their_texts(s: String, e: MessageSkipperError, tag: u16)
    ensures
        DictionaryError::EmptyCommand@ == DictionaryFault::EmptyCommand,
        DictionaryError::InvalidCommandFormat(s, e)@ == DictionaryFault::InvalidCommandFormat(s@, e@),
        DictionaryError::InvalidOutputFormat(s, e)@ == DictionaryFault::InvalidOutputFormat(s@, e@),
        DictionaryError::InvalidCommandTag(tag)@ == DictionaryFault::InvalidCommandTag(tag),
{
}

} // verus!

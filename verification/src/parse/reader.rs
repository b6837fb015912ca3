use vstd::prelude::*;
use struson::reader::JsonReader;
use struson::reader::JsonStreamReader;
use struson::reader::ReaderError;
use struson::reader::ReaderSettings;
use struson::reader::TransferError;
use struson::reader::ValueType;
use struson::writer::JsonStreamWriter;
use struson::writer::JsonWriter;
use crate::parse::tokens::Token;
use crate::parse::tokens::ValueKind;
use crate::parse::tokens::value_len;

verus! {

/// The error of struson's reader, carried through unread.
#[verifier::external_type_specification]
#[verifier::external_body]
pub struct ExReaderError(ReaderError);

/// The error of std's I/O, carried through unread.
#[verifier::external_type_specification]
#[verifier::external_body]
pub struct ExIoError(std::io::Error);

/// An array or an object that has been begun and not yet ended.
pub enum Container {
    Array,
    Object,
}

/// Where a reader stands in the document's structure. The reader refuses, by
/// a panic, a call that does not fit where it stands, whatever the document
/// holds; the calls below demand the fitting position.
pub struct Position {
    /// The containers begun and not ended, the outermost first.
    pub open: Seq<Container>,
    /// Inside an object, with a member name due next.
    pub awaiting_name: bool,
    /// The top-level value has been read to its end.
    pub finished: bool,
}

impl Position {
    /// Before the top-level value.
    pub open spec fn start() -> Position {
        Position { open: Seq::empty(), awaiting_name: false, finished: false }
    }

    /// Directly inside a container of the given sort.
    pub open spec fn inside(self, container: Container) -> bool {
        self.open.len() > 0 && self.open.last() == container
    }

    /// A value may be read here.
    pub open spec fn expects_value(self) -> bool {
        !self.awaiting_name && !self.finished
    }

    /// Between the elements of a container: inside an array, or inside an
    /// object with a member name due.
    pub open spec fn between_elements(self) -> bool {
        self.inside(Container::Array) || (self.inside(Container::Object) && self.awaiting_name)
    }

    /// The position after one whole value has been read here.
    pub open spec fn after_value(self) -> Position {
        Position {
            open: self.open,
            awaiting_name: self.inside(Container::Object),
            finished: self.open.len() == 0,
        }
    }

    /// The position after a container has been begun here.
    pub open spec fn entered(self, container: Container) -> Position {
        Position {
            open: self.open.push(container),
            awaiting_name: container == Container::Object,
            finished: false,
        }
    }

    /// The position after the innermost container has been ended.
    pub open spec fn left(self) -> Position {
        Position {
            open: self.open.drop_last(),
            awaiting_name: false,
            finished: false,
        }.after_value()
    }

    /// The position after a member name has been read.
    pub open spec fn named(self) -> Position {
        Position { open: self.open, awaiting_name: false, finished: self.finished }
    }
}

/// Why a value could not be copied out of the document.
pub enum CopyFault {
    /// The reader met a fault in the document.
    Read(ReaderError),
    /// The buffer that takes the copy could not be written.
    Write(std::io::Error),
}

/// A forward cursor over the tokens of one in-memory JSON document: struson's
/// `JsonStreamReader` over a byte slice. Verus does not look inside; what it
/// knows of a cursor are the two names `pending` and `position`.
#[verifier::external_body]
pub struct Tokenizer<'a> {
    reader: JsonStreamReader<&'a [u8]>,
}

/// The tokens that struson's reader delivers from a source when it is read
/// from its start, token by token, under the given limit on nesting depth and
/// with or without its restriction on the size of numbers: the tokens of the
/// top-level value, up to the first fault if there is one.
pub uninterp spec fn tokens_of(source: Seq<u8>, depth_limit: Option<u32>, restrict_numbers: bool) -> Seq<Token>;

/// The tokens that a cursor has yet to deliver: those that it delivers when
/// it is read on from where it stands, token by token, up to the end of the
/// top-level value or to the first fault.
pub uninterp spec fn pending(t: Tokenizer) -> Seq<Token>;

/// Where a cursor stands in the document's structure.
pub uninterp spec fn position(t: Tokenizer) -> Position;

/// The JSON text that struson's `JsonStreamWriter` writes, with its default
/// settings, for the one value that the tokens spell.
pub uninterp spec fn rendered(value: Seq<Token>) -> Seq<u8>;

impl<'a> Tokenizer<'a> {
    /// `JsonStreamReader::new_custom`, with the nesting limit and the number
    /// restriction as given and struson's defaults for the other settings.
    /// The new cursor stands before the top-level value and has the whole
    /// token stream of the source pending. Only readers that do not restrict
    /// numbers are described here: such a reader accepts the same values
    /// whether it skips them or copies them.
    #[verifier::external_body]
    pub(crate) fn open(source: &'a [u8], depth_limit: Option<u32>, restrict_numbers: bool) -> (t:
        Tokenizer<'a>)
        requires
            !restrict_numbers,
        ensures
            pending(t) == tokens_of(source@, depth_limit, restrict_numbers),
            position(t) == Position::start(),
    {
        let settings = ReaderSettings {
            max_nesting_depth: depth_limit,
            restrict_number_values: restrict_numbers,
            ..Default::default()
        };
        Tokenizer { reader: JsonStreamReader::new_custom(source, settings) }
    }

    /// `JsonReader::begin_object`. It panics where a member name is due or
    /// the document is finished. It succeeds exactly when the next token
    /// opens an object, and then consumes that token.
    #[verifier::external_body]
    pub(crate) fn begin_object(&mut self) -> (r: Result<(), ReaderError>)
        requires
            position(*old(self)).expects_value(),
        ensures
            r is Ok <==> pending(*old(self)).len() > 0 && pending(*old(self))[0]
                == Token::BeginObject,
            r is Ok ==> pending(*final(self)) == pending(*old(self)).skip(1),
            r is Ok ==> position(*final(self)) == position(*old(self)).entered(Container::Object),
    {
        self.reader.begin_object()
    }

    /// `JsonReader::end_object`. It panics outside an object and where a
    /// member's value is due. It succeeds exactly when the next token closes
    /// the object, and then consumes that token.
    #[verifier::external_body]
    pub(crate) fn end_object(&mut self) -> (r: Result<(), ReaderError>)
        requires
            position(*old(self)).inside(Container::Object),
            position(*old(self)).awaiting_name,
        ensures
            r is Ok <==> pending(*old(self)).len() > 0 && pending(*old(self))[0]
                == Token::EndObject,
            r is Ok ==> pending(*final(self)) == pending(*old(self)).skip(1),
            r is Ok ==> position(*final(self)) == position(*old(self)).left(),
    {
        self.reader.end_object()
    }

    /// `JsonReader::begin_array`. It panics where a member name is due or the
    /// document is finished. It succeeds exactly when the next token opens an
    /// array, and then consumes that token.
    #[verifier::external_body]
    pub(crate) fn begin_array(&mut self) -> (r: Result<(), ReaderError>)
        requires
            position(*old(self)).expects_value(),
        ensures
            r is Ok <==> pending(*old(self)).len() > 0 && pending(*old(self))[0]
                == Token::BeginArray,
            r is Ok ==> pending(*final(self)) == pending(*old(self)).skip(1),
            r is Ok ==> position(*final(self)) == position(*old(self)).entered(Container::Array),
    {
        self.reader.begin_array()
    }

    /// `JsonReader::end_array`. It panics outside an array. It succeeds
    /// exactly when the next token closes the array, and then consumes that
    /// token.
    #[verifier::external_body]
    pub(crate) fn end_array(&mut self) -> (r: Result<(), ReaderError>)
        requires
            position(*old(self)).inside(Container::Array),
        ensures
            r is Ok <==> pending(*old(self)).len() > 0 && pending(*old(self))[0]
                == Token::EndArray,
            r is Ok ==> pending(*final(self)) == pending(*old(self)).skip(1),
            r is Ok ==> position(*final(self)) == position(*old(self)).left(),
    {
        self.reader.end_array()
    }

    /// `JsonReader::has_next`. It panics at the top level and where a
    /// member's value is due. It consumes nothing. Where a token is pending
    /// it tells whether that token is something other than a closing bracket.
    #[verifier::external_body]
    pub(crate) fn has_next(&mut self) -> (r: Result<bool, ReaderError>)
        requires
            position(*old(self)).between_elements(),
        ensures
            pending(*old(self)).len() > 0 ==> (r matches Ok(more) && more == !pending(
                *old(self),
            )[0].closes()),
            r is Ok ==> pending(*final(self)) == pending(*old(self)),
            r is Ok ==> position(*final(self)) == position(*old(self)),
    {
        self.reader.has_next()
    }

    /// `JsonReader::next_name_owned`. It panics where no member name is due.
    /// It succeeds exactly when the next token is a member name, which it
    /// consumes and returns.
    #[verifier::external_body]
    pub(crate) fn next_name(&mut self) -> (r: Result<String, ReaderError>)
        requires
            position(*old(self)).awaiting_name,
        ensures
            r is Ok <==> pending(*old(self)).len() > 0 && pending(*old(self))[0] is Name,
            r matches Ok(name) ==> pending(*old(self))[0] == Token::Name(name@),
            r is Ok ==> pending(*final(self)) == pending(*old(self)).skip(1),
            r is Ok ==> position(*final(self)) == position(*old(self)).named(),
    {
        self.reader.next_name_owned()
    }

    /// `JsonReader::peek`. It panics where a member name is due or the
    /// document is finished. It consumes nothing. Where the next token opens
    /// a value it tells that value's shape.
    #[verifier::external_body]
    pub(crate) fn peek(&mut self) -> (r: Result<ValueKind, ReaderError>)
        requires
            position(*old(self)).expects_value(),
        ensures
            pending(*old(self)).len() > 0 && pending(*old(self))[0].kind() is Some ==> (r matches Ok(
                kind,
            ) && Some(kind) == pending(*old(self))[0].kind()),
            r is Ok ==> pending(*final(self)) == pending(*old(self)),
            r is Ok ==> position(*final(self)) == position(*old(self)),
    {
        match self.reader.peek() {
            Ok(ValueType::Array) => Ok(ValueKind::Array),
            Ok(ValueType::Object) => Ok(ValueKind::Object),
            Ok(ValueType::String) => Ok(ValueKind::String),
            Ok(ValueType::Number) => Ok(ValueKind::Number),
            Ok(ValueType::Boolean) => Ok(ValueKind::Boolean),
            Ok(ValueType::Null) => Ok(ValueKind::Null),
            Err(e) => Err(e),
        }
    }

    /// `JsonReader::skip_value`. It panics where a member name is due or the
    /// document is finished. It succeeds exactly when the pending tokens
    /// start with one complete value, of whatever shape and depth, and then
    /// consumes the tokens of that value and no more.
    #[verifier::external_body]
    pub(crate) fn skip_value(&mut self) -> (r: Result<(), ReaderError>)
        requires
            position(*old(self)).expects_value(),
        ensures
            r is Ok <==> value_len(pending(*old(self))) is Some,
            r is Ok ==> pending(*final(self)) == pending(*old(self)).skip(
                value_len(pending(*old(self)))->0 as int,
            ),
            r is Ok ==> position(*final(self)) == position(*old(self)).after_value(),
    {
        self.reader.skip_value()
    }

    /// `JsonReader::transfer_to`, into a `JsonStreamWriter` over a fresh
    /// buffer, which `finish_document` then closes. It panics where a member
    /// name is due or the document is finished. It succeeds exactly when the
    /// pending tokens start with one complete value; it then consumes the
    /// tokens of that value and no more, and returns the value written out
    /// again as JSON text of its own.
    #[verifier::external_body]
    pub(crate) fn take_value(&mut self) -> (r: Result<Vec<u8>, CopyFault>)
        requires
            position(*old(self)).expects_value(),
        ensures
            r is Ok <==> value_len(pending(*old(self))) is Some,
            r matches Ok(text) ==> text@ == rendered(
                pending(*old(self)).take(value_len(pending(*old(self)))->0 as int),
            ),
            r is Ok ==> pending(*final(self)) == pending(*old(self)).skip(
                value_len(pending(*old(self)))->0 as int,
            ),
            r is Ok ==> position(*final(self)) == position(*old(self)).after_value(),
    {
        let mut writer = JsonStreamWriter::new(Vec::new());
        match self.reader.transfer_to(&mut writer) {
            Ok(()) => match writer.finish_document() {
                Ok(text) => Ok(text),
                Err(e) => Err(CopyFault::Write(e)),
            },
            Err(TransferError::ReaderError(e)) => Err(CopyFault::Read(e)),
            Err(TransferError::WriterError(e)) => Err(CopyFault::Write(e)),
        }
    }
}

} // verus!

use vstd::prelude::*;

verus! {

/// The shape of a JSON value, as seen before it is read.
#[derive(Clone, Copy, PartialEq, Eq, Structural, Debug)]
pub enum ValueKind {
    Array,
    Object,
    String,
    Number,
    Boolean,
    Null,
}

/// One token of a JSON document, as a forward reader delivers it. Commas,
/// colons and whitespace are no tokens: they only separate them.
pub enum Token {
    BeginObject,
    EndObject,
    BeginArray,
    EndArray,
    /// The name of an object member.
    Name(Seq<char>),
    /// A string value, escapes resolved.
    Text(Seq<char>),
    /// A number value, as it is written.
    Number(Seq<char>),
    Boolean(bool),
    Null,
}

impl Token {
    /// The shape of the value that this token opens; `None` for a closing
    /// bracket and for a member name, which open no value.
    pub open spec fn kind(self) -> Option<ValueKind> {
        match self {
            Token::BeginObject => Some(ValueKind::Object),
            Token::BeginArray => Some(ValueKind::Array),
            Token::Text(_) => Some(ValueKind::String),
            Token::Number(_) => Some(ValueKind::Number),
            Token::Boolean(_) => Some(ValueKind::Boolean),
            Token::Null => Some(ValueKind::Null),
            Token::EndObject | Token::EndArray | Token::Name(_) => None,
        }
    }

    /// Whether this token closes an array or an object.
    pub open spec fn closes(self) -> bool {
        self == Token::EndObject || self == Token::EndArray
    }
}

/// Number of tokens of the one complete value that `ts` starts with, if it
/// starts with one.
pub open spec fn value_len(ts: Seq<Token>) -> Option<nat>
    decreases ts.len(), 0nat,
{
    if ts.len() == 0 {
        None
    } else {
        match ts[0] {
            Token::BeginArray => match items_len(ts.skip(1)) {
                Some(n) => Some(n + 1),
                None => None,
            },
            Token::BeginObject => match members_len(ts.skip(1)) {
                Some(n) => Some(n + 1),
                None => None,
            },
            Token::Text(_) | Token::Number(_) | Token::Boolean(_) | Token::Null => Some(1),
            Token::EndObject | Token::EndArray | Token::Name(_) => None,
        }
    }
}

/// Number of tokens from the first item of an array through the bracket that
/// closes it, where `ts` starts inside the array, before an item or before
/// the closing bracket.
pub open spec fn items_len(ts: Seq<Token>) -> Option<nat>
    decreases ts.len(), 1nat,
{
    if ts.len() == 0 {
        None
    } else if ts[0] == Token::EndArray {
        Some(1)
    } else {
        match value_len(ts) {
            Some(n) => if 0 < n <= ts.len() {
                match items_len(ts.skip(n as int)) {
                    Some(m) => Some(n + m),
                    None => None,
                }
            } else {
                None
            },
            None => None,
        }
    }
}

/// Number of tokens from the first member of an object through the bracket
/// that closes it, where `ts` starts inside the object, before a member name
/// or before the closing bracket.
pub open spec fn members_len(ts: Seq<Token>) -> Option<nat>
    decreases ts.len(), 1nat,
{
    if ts.len() == 0 {
        None
    } else {
        match ts[0] {
            Token::EndObject => Some(1),
            Token::Name(_) => match value_len(ts.skip(1)) {
                Some(n) => if 0 < n <= ts.len() - 1 {
                    match members_len(ts.skip(1 + n as int)) {
                        Some(m) => Some(1 + n + m),
                        None => None,
                    }
                } else {
                    None
                },
                None => None,
            },
            _ => None,
        }
    }
}

/// The items of an array, each as its own tokens, where `ts` starts inside
/// the array. Meaningful where `items_len(ts)` is `Some`.
pub open spec fn items(ts: Seq<Token>) -> Seq<Seq<Token>>
    decreases ts.len(),
{
    if ts.len() == 0 || ts[0] == Token::EndArray {
        Seq::empty()
    } else {
        match value_len(ts) {
            Some(n) => if 0 < n <= ts.len() {
                seq![ts.take(n as int)] + items(ts.skip(n as int))
            } else {
                Seq::empty()
            },
            None => Seq::empty(),
        }
    }
}

/// One member of an object: its name and the tokens of its value.
pub struct Member {
    pub key: Seq<char>,
    pub value: Seq<Token>,
}

/// The members of an object in document order, where `ts` starts inside the
/// object. Meaningful where `members_len(ts)` is `Some`.
pub open spec fn members(ts: Seq<Token>) -> Seq<Member>
    decreases ts.len(),
{
    if ts.len() == 0 {
        Seq::empty()
    } else {
        match ts[0] {
            Token::Name(key) => match value_len(ts.skip(1)) {
                Some(n) => if 0 < n <= ts.len() - 1 {
                    seq![Member { key, value: ts.subrange(1, 1 + n as int) }] + members(
                        ts.skip(1 + n as int),
                    )
                } else {
                    Seq::empty()
                },
                None => Seq::empty(),
            },
            _ => Seq::empty(),
        }
    }
}

/// The members of a document whose top-level value is a complete object;
/// `None` for every other token sequence.
pub open spec fn object_document(ts: Seq<Token>) -> Option<Seq<Member>> {
    if ts.len() > 0 && ts[0] == Token::BeginObject && members_len(ts.skip(1)) is Some {
        Some(members(ts.skip(1)))
    } else {
        None
    }
}

/// A complete value is never empty and never longer than what holds it.
pub proof fn lemma_value_len_bounds(ts: Seq<Token>)
    ensures
        value_len(ts) matches Some(n) ==> 0 < n <= ts.len(),
        items_len(ts) matches Some(n) ==> 0 < n <= ts.len(),
        members_len(ts) matches Some(n) ==> 0 < n <= ts.len(),
    decreases ts.len(),
{
    if ts.len() > 0 {
        lemma_value_len_bounds(ts.skip(1));
        match value_len(ts) {
            Some(n) => {
                if 0 < n <= ts.len() {
                    lemma_value_len_bounds(ts.skip(n as int));
                }
            },
            None => {},
        }
        match value_len(ts.skip(1)) {
            Some(n) => {
                if 0 < n <= ts.len() - 1 {
                    lemma_value_len_bounds(ts.skip(1 + n as int));
                }
            },
            None => {},
        }
    }
}

/// Whether a value is complete, and how long it is, depends only on its own
/// tokens: it reads the same in any prefix of `ts` that holds all of it.
pub proof fn lemma_value_local(ts: Seq<Token>, p: int)
    requires
        0 <= p <= ts.len(),
        value_len(ts) matches Some(n) && n <= p,
    ensures
        value_len(ts.take(p)) == value_len(ts),
    decreases ts.len(), 0nat,
{
    let n = value_len(ts)->0;
    lemma_value_len_bounds(ts);
    assert(ts.take(p)[0] == ts[0]);
    assert(ts.take(p).skip(1) == ts.skip(1).take(p - 1));
    match ts[0] {
        Token::BeginArray => {
            lemma_items_local(ts.skip(1), p - 1);
        },
        Token::BeginObject => {
            lemma_members_local(ts.skip(1), p - 1);
        },
        _ => {},
    }
}

/// The items of an array read the same in any prefix of `ts` that reaches
/// through the bracket that closes the array.
pub proof fn lemma_items_local(ts: Seq<Token>, p: int)
    requires
        0 <= p <= ts.len(),
        items_len(ts) matches Some(n) && n <= p,
    ensures
        items_len(ts.take(p)) == items_len(ts),
        items(ts.take(p)) == items(ts),
    decreases ts.len(), 1nat,
{
    lemma_value_len_bounds(ts);
    assert(ts.take(p)[0] == ts[0]);
    if ts[0] != Token::EndArray {
        let n = value_len(ts)->0;
        lemma_value_len_bounds(ts.skip(n as int));
        lemma_value_local(ts, p);
        lemma_items_local(ts.skip(n as int), p - n);
        assert(ts.take(p).skip(n as int) == ts.skip(n as int).take(p - n));
        assert(ts.take(p).take(n as int) == ts.take(n as int));
    }
}

/// What closes an object is found the same in any prefix of `ts` that
/// reaches through the closing bracket.
pub proof fn lemma_members_local(ts: Seq<Token>, p: int)
    requires
        0 <= p <= ts.len(),
        members_len(ts) matches Some(n) && n <= p,
    ensures
        members_len(ts.take(p)) == members_len(ts),
    decreases ts.len(), 1nat,
{
    lemma_value_len_bounds(ts);
    assert(ts.take(p)[0] == ts[0]);
    if ts[0] != Token::EndObject {
        let n = value_len(ts.skip(1))->0;
        lemma_value_len_bounds(ts.skip(1));
        lemma_value_len_bounds(ts.skip(1 + n as int));
        lemma_value_local(ts.skip(1), p - 1);
        lemma_members_local(ts.skip(1 + n as int), p - 1 - n);
        assert(ts.take(p).skip(1) == ts.skip(1).take(p - 1));
        assert(ts.take(p).skip(1 + n as int) == ts.skip(1 + n as int).take(p - 1 - n));
    }
}

} // verus!

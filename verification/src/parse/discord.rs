use vstd::prelude::*;
use crate::parse::json::document;
use crate::parse::json::handed_over;
use crate::parse::json::lemma_document_steps;
use crate::parse::json::script;
use crate::parse::json::DispatchError;
use crate::parse::json::JSONStreamHelper;
use crate::parse::json::RecordHandler;
use crate::parse::json::Step;
use crate::parse::ChatParser;

verus! {

/// A handler that counts the records that it is handed and accepts them
/// all. The count stops at the largest number that it can hold.
pub struct RecordCounter {
    count: usize,
    taken: Ghost<Seq<Seq<u8>>>,
    answers: Ghost<Seq<Result<(), ()>>>,
}

/// The number that a counter shows after it has taken so many records.
pub open spec fn counted(records: nat) -> usize {
    if records <= usize::MAX {
        records as usize
    } else {
        usize::MAX
    }
}

impl RecordCounter {
    /// The count always is the number of records taken, as far as it can
    /// be held.
    #[verifier::type_invariant]
    spec fn counts_what_it_took(self) -> bool {
        self.count == counted(self.taken@.len())
    }

    /// A counter that has taken nothing.
    pub fn new() -> (counter: Self)
        ensures
            counter.taken() == Seq::<Seq<u8>>::empty(),
            counter.answers() == Seq::<Result<(), ()>>::empty(),
            counter.never_refuses(),
    {
        RecordCounter { count: 0, taken: Ghost(Seq::empty()), answers: Ghost(Seq::empty()) }
    }

    /// The number of records taken so far.
    pub fn count(&self) -> (count: usize)
        ensures
            count == counted(self.taken().len()),
    {
        proof {
            use_type_invariant(self);
        }
        self.count
    }
}

impl RecordHandler for RecordCounter {
    type Failure = ();

    closed spec fn taken(&self) -> Seq<Seq<u8>> {
        self.taken@
    }

    closed spec fn answers(&self) -> Seq<Result<(), ()>> {
        self.answers@
    }

    open spec fn never_refuses(&self) -> bool {
        true
    }

    fn handle(&mut self, record: &[u8]) -> (answer: Result<(), ()>) {
        proof {
            use_type_invariant(&*self);
        }
        let count: usize = if self.count < usize::MAX {
            self.count + 1
        } else {
            self.count
        };
        *self = RecordCounter {
            count,
            taken: Ghost(self.taken@.push(record@)),
            answers: Ghost(self.answers@.push(Ok(()))),
        };
        Ok(())
    }
}

/// The root-level keys of a Discord export that hold records.
pub open spec fn discord_keys() -> Set<Seq<char>> {
    set!["guild"@, "channel"@, "messages"@]
}

/// The parser for Discord exports. An export holds one `guild` object, one
/// `channel` object and an array of `messages`.
#[derive(Debug)]
pub struct DiscordParser {}

impl Default for DiscordParser {
    fn default() -> (parser: Self)
        ensures
            parser == (DiscordParser {  }),
    {
        DiscordParser {  }
    }
}

impl DiscordParser {
    /// The dispatcher for a Discord export: the three handlers, each
    /// registered for its root-level key.
    pub fn dispatcher<H>(guild: H, channel: H, messages: H) -> (helper: JSONStreamHelper<H>)
        ensures
            helper.well_formed(),
            helper.registry() == Map::<Seq<char>, H>::empty().insert("guild"@, guild).insert(
                "channel"@,
                channel,
            ).insert("messages"@, messages),
            helper.registry().dom() == discord_keys(),
            helper.trace() == Seq::<Step>::empty(),
    {
        let mut helper = JSONStreamHelper::new();
        helper.on_object("guild", guild).on_object("channel", channel).on_object(
            "messages",
            messages,
        );
        assert(helper.registry().dom() =~= discord_keys());
        helper
    }

    /// Counts the messages of a Discord export: the records that a run
    /// hands over under the key `messages`. It succeeds exactly on a
    /// document whose top-level value is a complete object.
    pub fn count_messages(source: &[u8]) -> (r: Result<usize, DispatchError<()>>)
        ensures
            r is Ok <==> document(source@) is Some,
            r matches Ok(n) ==> n == counted(
                handed_over(script(document(source@)->0, discord_keys()), "messages"@).len(),
            ),
    {
        let mut helper = DiscordParser::dispatcher(
            RecordCounter::new(),
            RecordCounter::new(),
            RecordCounter::new(),
        );
        let ghost fresh = helper.registry();
        assert(fresh.dom().contains("messages"@));
        assert(fresh["messages"@].taken() == Seq::<Seq<u8>>::empty());
        let outcome = helper.run(source);
        proof {
            if document(source@) is Some {
                lemma_document_steps(source@, discord_keys());
            }
            let steps = helper.trace().skip(0);
            assert(helper.registry()["messages"@].taken() == Seq::<Seq<u8>>::empty() + handed_over(
                steps,
                "messages"@,
            ));
            assert(Seq::<Seq<u8>>::empty() + handed_over(steps, "messages"@) == handed_over(
                steps,
                "messages"@,
            ));
        }
        match outcome {
            Ok(()) => match helper.handler("messages") {
                Some(counter) => Ok(counter.count()),
                None => Ok(0),
            },
            Err(e) => Err(e),
        }
    }
}

impl ChatParser for DiscordParser {
    type Failure = ();

    /// Runs over a Discord export and counts what it holds. It succeeds
    /// exactly on a document whose top-level value is a complete object.
    fn parse(&self, source: &[u8]) -> (r: Result<(), DispatchError<()>>)
        ensures
            r is Ok <==> document(source@) is Some,
    {
        match DiscordParser::count_messages(source) {
            Ok(_) => Ok(()),
            Err(e) => Err(e),
        }
    }
}

} // verus!

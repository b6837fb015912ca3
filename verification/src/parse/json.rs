use vstd::prelude::*;
use struson::reader::ReaderError;
use crate::parse::reader::pending;
use crate::parse::reader::position;
use crate::parse::reader::rendered;
use crate::parse::reader::tokens_of;
use crate::parse::reader::Container;
use crate::parse::reader::CopyFault;
use crate::parse::reader::Position;
use crate::parse::reader::Tokenizer;
use crate::parse::tokens::items;
use crate::parse::tokens::items_len;
use crate::parse::tokens::lemma_items_local;
use crate::parse::tokens::lemma_value_len_bounds;
use crate::parse::tokens::members;
use crate::parse::tokens::members_len;
use crate::parse::tokens::object_document;
use crate::parse::tokens::value_len;
use crate::parse::tokens::Member;
use crate::parse::tokens::Token;
use crate::parse::tokens::ValueKind;

verus! {

/// The behaviour bound to one root-level key. It is handed one value at a
/// time, as JSON text of its own, and answers whether the run goes on.
///
/// A handler keeps account, in ghost state, of the records that it was
/// handed and of the answers that it gave; through that account the
/// dispatcher states what it has done to each handler. A verified handler
/// defines the three accounts below and proves that `handle` keeps them. A
/// handler that is written outside the verified code is left with the
/// bodies given here, which claim nothing of it: what the dispatcher says
/// of the accounts is then not proved of that handler, while what it says
/// of the trace and of its result holds all the same.
pub trait RecordHandler {
    /// What the handler reports when it ends the run.
    type Failure;

    /// The records that the handler has been handed so far, in order.
    open spec fn taken(&self) -> Seq<Seq<u8>> {
        Seq::empty()
    }

    /// The answers that the handler has given so far, one for each record.
    open spec fn answers(&self) -> Seq<Result<(), Self::Failure>> {
        Seq::empty()
    }

    /// Whether the handler is one that accepts whatever it is handed, now
    /// and from now on.
    open spec fn never_refuses(&self) -> bool {
        false
    }

    /// Takes one record. `Ok` lets the dispatcher go on; `Err` ends the run
    /// with that failure.
    fn handle(&mut self, record: &[u8]) -> (answer: Result<(), Self::Failure>)
        ensures
            final(self).taken() == old(self).taken().push(record@),
            final(self).answers() == old(self).answers().push(answer),
            old(self).never_refuses() ==> answer is Ok && final(self).never_refuses(),
    ;
}

/// Why a run ended early.
#[derive(Debug)]
pub enum DispatchError<E> {
    /// The document is not a well-formed JSON object.
    Malformed(ReaderError),
    /// A record could not be copied out of the document.
    Buffer(std::io::Error),
    /// A handler ended the run.
    Handler(E),
}

/// What the answer of a handler means for the run: an accepted record lets
/// it go on, and a failure ends it as the failure of a handler.
pub fn answer_of<E>(answer: Result<(), E>) -> (r: Result<(), DispatchError<E>>)
    ensures
        r == match answer {
            Ok(()) => Ok::<(), DispatchError<E>>(()),
            Err(failure) => Err(DispatchError::Handler(failure)),
        },
{
    match answer {
        Ok(()) => Ok(()),
        Err(failure) => Err(DispatchError::Handler(failure)),
    }
}

/// One thing that a run does, in the order in which it does it.
pub enum Step {
    /// It reads the name of the next root-level member.
    Key(Seq<char>),
    /// It hands a record to the handler of a key, which accepts it or not.
    Record { key: Seq<char>, text: Seq<u8>, accepted: bool },
}

/// The records that the items of an array call for, one each, in order.
pub open spec fn item_steps(key: Seq<char>, items: Seq<Seq<Token>>) -> Seq<Step> {
    items.map_values(
        |item: Seq<Token>| Step::Record { key, text: rendered(item), accepted: true },
    )
}

/// The steps that the value of one registered key calls for: a record for
/// each item of an array, in order; one record for an object; none for a
/// value of another shape.
pub open spec fn record_steps(key: Seq<char>, value: Seq<Token>) -> Seq<Step> {
    if value.len() == 0 {
        Seq::empty()
    } else {
        match value[0] {
            Token::BeginArray => item_steps(key, items(value.skip(1))),
            Token::BeginObject => seq![Step::Record { key, text: rendered(value), accepted: true }],
            _ => Seq::empty(),
        }
    }
}

/// The steps that one root-level member calls for: its key is read, and if
/// the key is registered the records of its value are handed over.
pub open spec fn member_steps(member: Member, registered: Set<Seq<char>>) -> Seq<Step> {
    if registered.contains(member.key) {
        seq![Step::Key(member.key)] + record_steps(member.key, member.value)
    } else {
        seq![Step::Key(member.key)]
    }
}

/// The steps of a whole run over the given members in which every handler
/// accepts every record.
pub open spec fn script(members: Seq<Member>, registered: Set<Seq<char>>) -> Seq<Step>
    decreases members.len(),
{
    if members.len() == 0 {
        Seq::empty()
    } else {
        script(members.drop_last(), registered) + member_steps(members.last(), registered)
    }
}

/// The records that a run hands to the handler of one key, in the order in
/// which it hands them over.
pub open spec fn handed_over(steps: Seq<Step>, key: Seq<char>) -> Seq<Seq<u8>>
    decreases steps.len(),
{
    if steps.len() == 0 {
        Seq::empty()
    } else {
        match steps.last() {
            Step::Record { key: owner, text, .. } => if owner == key {
                handed_over(steps.drop_last(), key).push(text)
            } else {
                handed_over(steps.drop_last(), key)
            },
            Step::Key(_) => handed_over(steps.drop_last(), key),
        }
    }
}

/// The records that are handed over of the value of a registered key, where
/// `ts` starts with the value and may end anywhere: every item that an
/// array holds whole, in order, up to the end of the array or to the first
/// fault; the one object if it is whole; nothing of a value of another
/// shape.
pub open spec fn value_steps(key: Seq<char>, ts: Seq<Token>) -> Seq<Step> {
    if ts.len() == 0 {
        Seq::empty()
    } else {
        match ts[0] {
            Token::BeginArray => item_steps(key, items(ts.skip(1))),
            Token::BeginObject => match value_len(ts) {
                Some(n) => seq![
                    Step::Record { key, text: rendered(ts.take(n as int)), accepted: true },
                ],
                None => Seq::empty(),
            },
            _ => Seq::empty(),
        }
    }
}

/// The steps of a run inside the root object, where `ts` starts before a
/// member name, every handler accepts every record and the tokens may end
/// anywhere: for each member in turn its key and, under a registered key,
/// the records of its value; the run goes on to the next member if the
/// value is whole, and ends if it is not.
pub open spec fn steps_within(ts: Seq<Token>, registered: Set<Seq<char>>) -> Seq<Step>
    decreases ts.len(),
{
    if ts.len() == 0 {
        Seq::empty()
    } else {
        match ts[0] {
            Token::Name(key) => {
                let records = if registered.contains(key) {
                    value_steps(key, ts.skip(1))
                } else {
                    Seq::empty()
                };
                let rest = match value_len(ts.skip(1)) {
                    Some(n) => if 0 < n <= ts.len() - 1 {
                        steps_within(ts.skip(1 + n as int), registered)
                    } else {
                        Seq::empty()
                    },
                    None => Seq::empty(),
                };
                seq![Step::Key(key)] + records + rest
            },
            _ => Seq::empty(),
        }
    }
}

/// The steps of a run over any tokens, complete document or not, in which
/// every handler accepts every record: none where the first token opens no
/// object, and else the steps inside the root object up to its end or to
/// the first fault.
pub open spec fn run_steps(tokens: Seq<Token>, registered: Set<Seq<char>>) -> Seq<Step> {
    if tokens.len() > 0 && tokens[0] == Token::BeginObject {
        steps_within(tokens.skip(1), registered)
    } else {
        Seq::empty()
    }
}

/// The steps of a run over a source, whatever it holds, in which every
/// handler accepts every record.
pub open spec fn source_steps(source: Seq<u8>, registered: Set<Seq<char>>) -> Seq<Step> {
    run_steps(tokens_of(source, None, false), registered)
}

/// The same steps, with the last one, a record, refused by its handler.
pub open spec fn refused_last(steps: Seq<Step>) -> Seq<Step> {
    match steps.last() {
        Step::Record { key, text, accepted } => steps.drop_last().push(
            Step::Record { key, text, accepted: false },
        ),
        Step::Key(_) => steps,
    }
}

/// Whether `steps` is what a run does that has `script` before it: all of
/// the script where no handler refuses a record, and else the script up to
/// the refused record, which is the last thing done.
pub open spec fn performed(script: Seq<Step>, steps: Seq<Step>, refused: bool) -> bool {
    if refused {
        &&& 0 < steps.len() <= script.len()
        &&& script[steps.len() - 1] is Record
        &&& steps == refused_last(script.take(steps.len() as int))
    } else {
        steps == script
    }
}

/// Whether a step is one that lets the run go on: every step does, but for
/// a record that its handler refuses.
pub open spec fn lets_go_on(step: Step) -> bool {
    match step {
        Step::Key(_) => true,
        Step::Record { accepted, .. } => accepted,
    }
}

/// Whether what a trace holds from index `from` on is an orderly stretch of
/// a run: every step lets the run go on, but for the last one where a
/// handler refused a record, which is then the last thing done.
pub open spec fn orderly(trace: Seq<Step>, from: int, refused: bool) -> bool {
    &&& refused ==> from < trace.len()
    &&& forall|i: int|
        from <= i < trace.len() ==> (lets_go_on(#[trigger] trace[i]) <==> !(refused && i
            == trace.len() - 1))
}

/// The members of the document that a source holds, if its top-level value
/// is a complete object.
pub open spec fn document(source: Seq<u8>) -> Option<Seq<Member>> {
    object_document(tokens_of(source, None, false))
}

/// A streaming dispatcher: handlers registered for root-level keys, and one
/// forward pass over a document that hands each registered value to its
/// handler.
pub struct JSONStreamHelper<H> {
    /// The registered keys, each once.
    keys: Vec<String>,
    /// The handler of each key, at the key's index.
    handlers: Vec<H>,
    /// What the runs have done so far, step by step.
    trace: Ghost<Seq<Step>>,
}

impl<H> Default for JSONStreamHelper<H> {
    /// A dispatcher with no key registered.
    fn default() -> (helper: Self)
        ensures
            helper.well_formed(),
            helper.registry() == Map::<Seq<char>, H>::empty(),
            helper.trace() == Seq::<Step>::empty(),
    {
        JSONStreamHelper::new()
    }
}

impl<H> JSONStreamHelper<H> {
    /// The index at which a key is registered.
    pub closed spec fn slot(&self, key: Seq<char>) -> Option<int> {
        if exists|i: int| 0 <= i < self.keys.len() && self.keys[i]@ == key {
            Some(choose|i: int| 0 <= i < self.keys.len() && self.keys[i]@ == key)
        } else {
            None
        }
    }

    /// The registry: each registered key with its handler.
    pub closed spec fn registry(&self) -> Map<Seq<char>, H> {
        Map::new(
            |key: Seq<char>| self.slot(key) is Some,
            |key: Seq<char>| self.handlers[self.slot(key)->0],
        )
    }

    /// No key is registered twice, and every key has its handler.
    pub closed spec fn well_formed(&self) -> bool {
        &&& self.keys.len() == self.handlers.len()
        &&& forall|i: int, j: int|
            0 <= i < j < self.keys.len() ==> self.keys[i]@ != self.keys[j]@
    }

    /// Everything that the runs of this dispatcher have done so far.
    pub closed spec fn trace(&self) -> Seq<Step> {
        self.trace@
    }

    proof fn lemma_slot(&self, i: int)
        requires
            self.well_formed(),
            0 <= i < self.keys.len(),
        ensures
            self.slot(self.keys[i]@) == Some(i),
    {
    }

    /// A dispatcher with no key registered.
    pub fn new() -> (helper: Self)
        ensures
            helper.well_formed(),
            helper.registry() == Map::<Seq<char>, H>::empty(),
            helper.trace() == Seq::<Step>::empty(),
    {
        let helper = JSONStreamHelper { keys: Vec::new(), handlers: Vec::new(), trace: Ghost(Seq::empty()) };
        assert(helper.registry() =~= Map::<Seq<char>, H>::empty());
        helper
    }

    /// Where a key is registered, if it is.
    fn find(&self, key: &String) -> (found: Option<usize>)
        requires
            self.well_formed(),
        ensures
            match found {
                Some(i) => i < self.keys.len() && self.keys[i as int]@ == key@,
                None => forall|i: int| 0 <= i < self.keys.len() ==> self.keys[i]@ != key@,
            },
            found is Some <==> self.registry().dom().contains(key@),
    {
        let mut i: usize = 0;
        while i < self.keys.len()
            invariant
                i <= self.keys.len(),
                forall|j: int| 0 <= j < i ==> self.keys[j]@ != key@,
            decreases self.keys.len() - i,
        {
            if self.keys[i] == *key {
                return Some(i);
            }
            i = i + 1;
        }
        None
    }

    /// The handler registered for a key, if there is one.
    pub fn handler(&self, key: &str) -> (found: Option<&H>)
        requires
            self.well_formed(),
        ensures
            match found {
                Some(handler) => self.registry().dom().contains(key@) && *handler == self.registry()[key@],
                None => !self.registry().dom().contains(key@),
            },
    {
        let owned = key.to_owned();
        match self.find(&owned) {
            Some(i) => {
                proof {
                    self.lemma_slot(i as int);
                }
                Some(&self.handlers[i])
            },
            None => None,
        }
    }

    /// Registers a handler for a root-level key. A handler registered for
    /// the same key before is replaced.
    pub fn on_object(&mut self, key: &str, handler: H) -> (chained: &mut Self)
        requires
            old(self).well_formed(),
        ensures
            chained.well_formed(),
            chained.registry() == old(self).registry().insert(key@, handler),
            chained.trace() == old(self).trace(),
            *final(self) == *final(chained),
    {
        let owned = key.to_owned();
        match self.find(&owned) {
            Some(i) => {
                proof {
                    self.lemma_slot(i as int);
                }
                self.handlers.set(i, handler);
                assert(self.registry() =~= old(self).registry().insert(key@, handler)) by {
                    assert forall|k: Seq<char>| self.slot(k) == old(self).slot(k) by {}
                }
            },
            None => {
                self.keys.push(owned);
                self.handlers.push(handler);
                assert(self.registry() =~= old(self).registry().insert(key@, handler)) by {
                    assert forall|k: Seq<char>| k != key@ implies self.slot(k) == old(self).slot(k) by {
                        if old(self).slot(k) is Some {
                            let i = old(self).slot(k)->0;
                            assert(self.keys[i]@ == k);
                        }
                    }
                    let last = self.keys.len() - 1;
                    assert(self.keys[last]@ == key@);
                }
            },
        }
        self
    }
}

/// Whether the last of the answers is a refusal with the given failure.
pub open spec fn ends_refusing<E>(answers: Seq<Result<(), E>>, failure: E) -> bool {
    answers.len() > 0 && answers.last() == Err::<(), E>(failure)
}

/// Inside the root object, with a member name due.
pub open spec fn between_members() -> Position {
    Position { open: seq![Container::Object], awaiting_name: true, finished: false }
}

/// Inside the root object, with the value of a member due.
pub open spec fn at_member_value() -> Position {
    Position { open: seq![Container::Object], awaiting_name: false, finished: false }
}

/// Inside an array that is the value of a root-level member.
pub open spec fn between_items() -> Position {
    Position {
        open: seq![Container::Object, Container::Array],
        awaiting_name: false,
        finished: false,
    }
}

/// How the positions of a run follow one another.
proof fn lemma_positions()
    ensures
        Position::start().expects_value(),
        Position::start().entered(Container::Object) == between_members(),
        between_members().between_elements(),
        between_members().awaiting_name,
        between_members().inside(Container::Object),
        between_members().named() == at_member_value(),
        at_member_value().expects_value(),
        at_member_value().after_value() == between_members(),
        at_member_value().entered(Container::Array) == between_items(),
        between_items().between_elements(),
        between_items().expects_value(),
        between_items().inside(Container::Array),
        between_items().after_value() == between_items(),
        between_items().left() == between_members(),
{
    assert(Seq::<Container>::empty().push(Container::Object) =~= seq![Container::Object]);
    assert(seq![Container::Object].push(Container::Array) =~= seq![
        Container::Object,
        Container::Array,
    ]);
    assert(seq![Container::Object, Container::Array].drop_last() =~= seq![Container::Object]);
}

/// The script of members in document order is the script of the first of
/// them followed by the script of the rest.
pub proof fn lemma_script_concat(a: Seq<Member>, b: Seq<Member>, registered: Set<Seq<char>>)
    ensures
        script(a + b, registered) == script(a, registered) + script(b, registered),
    decreases b.len(),
{
    if b.len() == 0 {
        assert(a + b == a);
    } else {
        lemma_script_concat(a, b.drop_last(), registered);
        assert((a + b).drop_last() == a + b.drop_last());
        assert((a + b).last() == b.last());
    }
}

/// The records handed over in two stretches of a run are those of the first
/// stretch followed by those of the second.
pub proof fn handed_over_concat(a: Seq<Step>, b: Seq<Step>, key: Seq<char>)
    ensures
        handed_over(a + b, key) == handed_over(a, key) + handed_over(b, key),
    decreases b.len(),
{
    if b.len() == 0 {
        assert(a + b == a);
    } else {
        handed_over_concat(a, b.drop_last(), key);
        assert((a + b).drop_last() == a + b.drop_last());
    }
}

/// Of a value that is whole, what is handed over is what its own tokens
/// call for.
pub proof fn lemma_whole_value_steps(key: Seq<char>, ts: Seq<Token>)
    requires
        value_len(ts) is Some,
    ensures
        value_steps(key, ts) == record_steps(key, ts.take(value_len(ts)->0 as int)),
{
    let n = value_len(ts)->0 as int;
    lemma_value_len_bounds(ts);
    assert(ts.take(n)[0] == ts[0]);
    if ts[0] == Token::BeginArray {
        lemma_items_local(ts.skip(1), n - 1);
        assert(ts.take(n).skip(1) == ts.skip(1).take(n - 1));
    }
}

/// Inside a root object that is whole, the steps of a run are the script of
/// its members.
pub proof fn lemma_whole_object_steps(ts: Seq<Token>, registered: Set<Seq<char>>)
    requires
        members_len(ts) is Some,
    ensures
        steps_within(ts, registered) == script(members(ts), registered),
    decreases ts.len(),
{
    lemma_value_len_bounds(ts);
    match ts[0] {
        Token::Name(key) => {
            let n = value_len(ts.skip(1))->0 as int;
            lemma_value_len_bounds(ts.skip(1));
            let member = Member { key, value: ts.subrange(1, 1 + n) };
            let tail = members(ts.skip(1 + n));
            lemma_whole_object_steps(ts.skip(1 + n), registered);
            lemma_whole_value_steps(key, ts.skip(1));
            assert(ts.skip(1).take(n) == ts.subrange(1, 1 + n));
            lemma_script_concat(seq![member], tail, registered);
            assert(seq![member].drop_last() == Seq::<Member>::empty());
            assert(script(seq![member], registered) == member_steps(member, registered)) by {
                assert(script(Seq::<Member>::empty(), registered) == Seq::<Step>::empty());
            }
            if !registered.contains(key) {
                assert(seq![Step::Key(key)] + Seq::<Step>::empty() == seq![Step::Key(key)]);
            }
        },
        _ => {
            assert(members(ts) == Seq::<Member>::empty());
        },
    }
}

/// Over a source whose top-level value is a complete object, the steps of a
/// run are the script of the object's members.
pub proof fn lemma_document_steps(source: Seq<u8>, registered: Set<Seq<char>>)
    requires
        document(source) is Some,
    ensures
        source_steps(source, registered) == script(document(source)->0, registered),
{
    lemma_whole_object_steps(tokens_of(source, None, false).skip(1), registered);
}

/// A sequence is its prefix followed by what comes after the prefix.
proof fn lemma_prefix_split(a: Seq<Step>, b: Seq<Step>)
    requires
        a.is_prefix_of(b),
    ensures
        b == a + b.skip(a.len() as int),
{
    assert(b =~= a + b.skip(a.len() as int));
}

/// An orderly stretch that is followed by another is, with it, one orderly
/// stretch.
proof fn lemma_orderly_extends(a: Seq<Step>, b: Seq<Step>, from: int, refused: bool)
    requires
        a.is_prefix_of(b),
        0 <= from <= a.len(),
        orderly(a, from, false),
        orderly(b, a.len() as int, refused),
    ensures
        orderly(b, from, refused),
{
    assert forall|i: int| from <= i < b.len() implies (lets_go_on(#[trigger] b[i]) <==> !(refused
        && i == b.len() - 1)) by {
        if i < a.len() {
            assert(b[i] == a[i]);
        }
    }
}

/// What is performed of a part of a script, after all that stands before
/// that part, is performed of the whole script.
pub proof fn lemma_performed_within(
    before: Seq<Step>,
    part: Seq<Step>,
    after: Seq<Step>,
    steps: Seq<Step>,
)
    requires
        performed(part, steps, true),
    ensures
        performed(before + part + after, before + steps, true),
{
    let whole = before + part + after;
    let n = steps.len() as int;
    assert(whole.take(before.len() + n) == before + part.take(n));
    assert((before + part.take(n)).drop_last() == before + part.take(n).drop_last());
    assert(whole[before.len() + n - 1] == part[n - 1]);
}

/// How the steps of a run stand after one more member has been dealt with:
/// the run had done `done`, read the member's key, and then performed the
/// member's records, wholly or up to a refusal.
proof fn lemma_member_done(
    base: Seq<Step>,
    done: Seq<Step>,
    key: Seq<char>,
    records: Seq<Step>,
    later: Seq<Step>,
    before: Seq<Step>,
    trace: Seq<Step>,
    refused: bool,
)
    requires
        before == base + done.push(Step::Key(key)),
        before.is_prefix_of(trace),
        performed(records, trace.skip(before.len() as int), refused),
    ensures
        trace.skip(base.len() as int) == done.push(Step::Key(key)) + trace.skip(
            before.len() as int,
        ),
        refused ==> performed(
            done + (seq![Step::Key(key)] + records + later),
            trace.skip(base.len() as int),
            true,
        ),
        !refused ==> trace == base + (done.push(Step::Key(key)) + records),
        !refused ==> done + (seq![Step::Key(key)] + records + later) == (done.push(Step::Key(key))
            + records) + later,
{
    let visited = done.push(Step::Key(key));
    let inner = trace.skip(before.len() as int);
    lemma_prefix_split(before, trace);
    assert(trace =~= base + (visited + inner));
    assert(trace.skip(base.len() as int) =~= visited + inner);
    assert(done + (seq![Step::Key(key)] + records + later) =~= visited + records + later);
    if refused {
        lemma_performed_within(visited, records, later, inner);
    }
}

/// What a refused record adds to the account of a key is its text, as for
/// an accepted one.
proof fn lemma_handed_over_refused(steps: Seq<Step>, key: Seq<char>)
    requires
        steps.len() > 0,
    ensures
        handed_over(refused_last(steps), key) == handed_over(steps, key),
{
    match steps.last() {
        Step::Record { key: k, text, accepted } => {
            let flipped = steps.drop_last().push(Step::Record { key: k, text, accepted: false });
            assert(flipped.drop_last() == steps.drop_last());
        },
        Step::Key(_) => {},
    }
}

impl<H: RecordHandler> JSONStreamHelper<H> {
    /// Whether the handlers are what those of `before` become when `steps`
    /// are done: the keys are the same, each handler has taken, besides
    /// what it had, the records handed over to its key, and a handler that
    /// never refused still never refuses.
    spec fn served(&self, before: Self, steps: Seq<Step>) -> bool {
        &&& self.keys == before.keys
        &&& self.handlers.len() == before.handlers.len()
        &&& forall|j: int|
            0 <= j < self.handlers.len() ==> (#[trigger] self.handlers[j]).taken()
                == before.handlers[j].taken() + handed_over(steps, self.keys[j]@)
        &&& forall|j: int|
            0 <= j < self.handlers.len() && before.handlers[j].never_refuses() ==> (
            #[trigger] self.handlers[j]).never_refuses()
    }

    /// Whether the last thing done was to hand a record to a handler that
    /// refused it with the given failure.
    pub open spec fn refused_with(&self, failure: H::Failure) -> bool {
        &&& self.trace().len() > 0
        &&& self.trace().last() matches Step::Record { key, .. }
        &&& self.registry().dom().contains(key)
        &&& ends_refusing(self.registry()[key].answers(), failure)
    }

    /// What the keys' handlers hold, told of the registry.
    proof fn lemma_registry_served(&self, before: Self, steps: Seq<Step>)
        requires
            self.well_formed(),
            before.well_formed(),
            self.served(before, steps),
        ensures
            self.registry().dom() == before.registry().dom(),
            forall|key: Seq<char>|
                before.registry().dom().contains(key) ==> (#[trigger] self.registry()[key]).taken()
                    == before.registry()[key].taken() + handed_over(steps, key),
            forall|key: Seq<char>|
                before.registry().dom().contains(key) && before.registry()[key].never_refuses()
                    ==> (#[trigger] self.registry()[key]).never_refuses(),
            (forall|key: Seq<char>|
                before.registry().dom().contains(key) ==> (#[trigger] before.registry()[key]).never_refuses()) ==> before.all_accept(),
    {
        assert forall|key: Seq<char>| self.slot(key) == before.slot(key) by {}
        assert(self.registry().dom() =~= before.registry().dom());
        if forall|key: Seq<char>|
            before.registry().dom().contains(key) ==> (#[trigger] before.registry()[key]).never_refuses() {
            assert forall|j: int| 0 <= j < before.handlers.len() implies (
            #[trigger] before.handlers[j]).never_refuses() by {
                before.lemma_slot(j);
                assert(before.registry().dom().contains(before.keys[j]@));
                assert(before.registry()[before.keys[j]@].never_refuses());
            }
        }
    }

    /// Whether every handler is one that never refuses.
    spec fn all_accept(&self) -> bool {
        forall|j: int| 0 <= j < self.handlers.len() ==> (#[trigger] self.handlers[j]).never_refuses()
    }

    proof fn lemma_served_nothing(&self)
        ensures
            self.served(*self, Seq::empty()),
    {
        assert forall|j: int| 0 <= j < self.handlers.len() implies (#[trigger] self.handlers[j]).taken()
            == self.handlers[j].taken() + handed_over(Seq::empty(), self.keys[j]@) by {
            assert(self.handlers[j].taken() + Seq::<Seq<u8>>::empty() == self.handlers[j].taken());
        }
    }

    proof fn lemma_served_on(&self, middle: Self, before: Self, first: Seq<Step>, then: Seq<Step>)
        requires
            middle.served(before, first),
            self.served(middle, then),
        ensures
            self.served(before, first + then),
    {
        assert forall|j: int| 0 <= j < self.handlers.len() implies (#[trigger] self.handlers[j]).taken()
            == before.handlers[j].taken() + handed_over(first + then, self.keys[j]@) by {
            handed_over_concat(first, then, self.keys[j]@);
            assert(middle.handlers[j].taken() == before.handlers[j].taken() + handed_over(
                first,
                self.keys[j]@,
            ));
            assert(before.handlers[j].taken() + handed_over(first, self.keys[j]@) + handed_over(
                then,
                self.keys[j]@,
            ) == before.handlers[j].taken() + (handed_over(first, self.keys[j]@) + handed_over(
                then,
                self.keys[j]@,
            )));
        }
        assert forall|j: int|
            0 <= j < self.handlers.len() && before.handlers[j].never_refuses() implies (
        #[trigger] self.handlers[j]).never_refuses() by {
            assert(middle.handlers[j].never_refuses());
        }
    }

    /// Reading a key changes no handler.
    proof fn lemma_served_key(&self, before: Self, steps: Seq<Step>, key: Seq<char>)
        requires
            self.served(before, steps),
        ensures
            self.served(before, steps.push(Step::Key(key))),
    {
        assert forall|j: int| 0 <= j < self.handlers.len() implies (#[trigger] self.handlers[j]).taken()
            == before.handlers[j].taken() + handed_over(
            steps.push(Step::Key(key)),
            self.keys[j]@,
        ) by {
            assert(steps.push(Step::Key(key)).drop_last() == steps);
        }
    }

    /// Hands one record to the handler registered at `slot` and notes in
    /// the trace what the handler answered.
    fn deliver(&mut self, slot: usize, record: &Vec<u8>, Ghost(key): Ghost<Seq<char>>) -> (r: Result<
        (),
        DispatchError<H::Failure>,
    >)
        requires
            old(self).well_formed(),
            slot < old(self).keys.len(),
            old(self).keys[slot as int]@ == key,
        ensures
            final(self).well_formed(),
            r is Ok || r is Err && r->Err_0 is Handler,
            final(self).trace@ == old(self).trace@.push(
                Step::Record { key, text: record@, accepted: r is Ok },
            ),
            orderly(final(self).trace@, old(self).trace@.len() as int, r is Err),
            final(self).served(
                *old(self),
                seq![Step::Record { key, text: record@, accepted: r is Ok }],
            ),
            old(self).handlers[slot as int].never_refuses() ==> r is Ok,
            r matches Err(DispatchError::Handler(e)) ==> ends_refusing(
                final(self).handlers[slot as int].answers(),
                e,
            ),
    {
        let answer = self.handlers[slot].handle(record.as_slice());
        proof {
            self.trace@ = self.trace@.push(
                Step::Record { key, text: record@, accepted: answer is Ok },
            );
            let step = Step::Record { key, text: record@, accepted: answer is Ok };
            assert(seq![step].drop_last() == Seq::<Step>::empty());
            assert forall|j: int| 0 <= j < self.handlers.len() implies (#[trigger] self.handlers[j]).taken()
                == old(self).handlers[j].taken() + handed_over(seq![step], self.keys[j]@) by {
                assert(handed_over(Seq::<Step>::empty(), self.keys[j]@) == Seq::<Seq<u8>>::empty());
                if j == slot {
                    assert(handed_over(seq![step], self.keys[j]@) == seq![record@]);
                    assert(old(self).handlers[j].taken().push(record@) == old(self).handlers[j].taken()
                        + seq![record@]);
                } else {
                    assert(self.keys[j]@ != key);
                    let had = old(self).handlers[j].taken();
                    assert(had + Seq::<Seq<u8>>::empty() == had);
                }
            }
        }
        answer_of(answer)
    }

    /// Reads an array from behind its opening bracket through its closing
    /// bracket and hands each item, in order, to the handler at `slot`.
    fn deliver_items(&mut self, reader: &mut Tokenizer, slot: usize, Ghost(key): Ghost<Seq<char>>) -> (r:
        Result<(), DispatchError<H::Failure>>)
        requires
            old(self).well_formed(),
            slot < old(self).keys.len(),
            old(self).keys[slot as int]@ == key,
            position(*old(reader)) == between_items(),
        ensures
            final(self).well_formed(),
            old(self).trace@.is_prefix_of(final(self).trace@),
            orderly(
                final(self).trace@,
                old(self).trace@.len() as int,
                r is Err && r->Err_0 is Handler,
            ),
            final(self).served(*old(self), final(self).trace@.skip(old(self).trace@.len() as int)),
            performed(
                item_steps(key, items(pending(*old(reader)))),
                final(self).trace@.skip(old(self).trace@.len() as int),
                r is Err && r->Err_0 is Handler,
            ),
            r is Ok ==> items_len(pending(*old(reader))) is Some,
            r is Ok ==> pending(*final(reader)) == pending(*old(reader)).skip(
                items_len(pending(*old(reader)))->0 as int,
            ),
            r is Ok ==> position(*final(reader)) == between_members(),
            items_len(pending(*old(reader))) is Some ==> (r is Ok || r->Err_0 is Handler),
            old(self).handlers[slot as int].never_refuses() ==> !(r is Err && r->Err_0 is Handler),
            r matches Err(DispatchError::Handler(e)) ==> ends_refusing(
                final(self).handlers[slot as int].answers(),
                e,
            ),
            r is Err && r->Err_0 is Handler ==> (final(self).trace@.last() matches Step::Record {
                key: owner,
                ..
            } && owner == key),
    {
        let ghost ts = pending(*reader);
        let ghost base = self.trace@;
        let ghost mut k: int = 0;
        let ghost mut done: Seq<Seq<Token>> = Seq::empty();
        proof {
            lemma_positions();
            self.lemma_served_nothing();
            assert(ts.skip(0) == ts);
            assert(base + item_steps(key, done) == base);
            assert(item_steps(key, done) == Seq::<Step>::empty());
        }
        loop
            invariant
                self.well_formed(),
                slot < self.keys.len(),
                self.keys[slot as int]@ == key,
                position(*reader) == between_items(),
                0 <= k <= ts.len(),
                pending(*reader) == ts.skip(k),
                items(ts) == done + items(ts.skip(k)),
                items_len(ts.skip(k)) matches Some(m) ==> items_len(ts) == Some((k + m) as nat),
                items_len(ts) is Some ==> items_len(ts.skip(k)) is Some,
                self.trace@ == base + item_steps(key, done),
                orderly(self.trace@, base.len() as int, false),
                self.served(*old(self), item_steps(key, done)),
                base == old(self).trace@,
                ts == pending(*old(reader)),
            decreases ts.len() - k,
        {
            let ghost cur = ts.skip(k);
            proof {
                lemma_positions();
                assert(self.trace@.skip(base.len() as int) == item_steps(key, done));
            }
            let more = match reader.has_next() {
                Ok(more) => more,
                Err(e) => {
                    proof {
                        assert(items(cur) == Seq::<Seq<Token>>::empty());
                        assert(done + items(cur) == done);
                    }
                    return Err(DispatchError::Malformed(e));
                },
            };
            if !more {
                proof {
                    assert(items(cur) == Seq::<Seq<Token>>::empty());
                    assert(done + items(cur) == done);
                }
                match reader.end_array() {
                    Ok(()) => {
                        proof {
                            assert(cur.skip(1) == ts.skip(k + 1));
                        }
                        return Ok(());
                    },
                    Err(e) => {
                        return Err(DispatchError::Malformed(e));
                    },
                }
            }
            let record = match reader.take_value() {
                Ok(record) => record,
                Err(CopyFault::Read(e)) => {
                    proof {
                        assert(items(cur) == Seq::<Seq<Token>>::empty());
                        assert(done + items(cur) == done);
                    }
                    return Err(DispatchError::Malformed(e));
                },
                Err(CopyFault::Write(e)) => {
                    proof {
                        assert(items(cur) == Seq::<Seq<Token>>::empty());
                        assert(done + items(cur) == done);
                    }
                    return Err(DispatchError::Buffer(e));
                },
            };
            let ghost n = value_len(cur)->0 as int;
            let ghost item = cur.take(n);
            proof {
                lemma_value_len_bounds(cur);
                assert(cur.skip(n) == ts.skip(k + n));
                assert(items(cur) == seq![item] + items(cur.skip(n)));
                assert(done + (seq![item] + items(cur.skip(n))) == done.push(item) + items(
                    cur.skip(n),
                ));
                assert(item_steps(key, done.push(item)) == item_steps(key, done).push(
                    Step::Record { key, text: rendered(item), accepted: true },
                ));
            }
            let ghost before = *self;
            let answer = self.deliver(slot, &record, Ghost(key));
            proof {
                let step = Step::Record { key, text: rendered(item), accepted: answer is Ok };
                lemma_orderly_extends(before.trace@, self.trace@, base.len() as int, answer is Err);
                self.lemma_served_on(before, *old(self), item_steps(key, done), seq![step]);
                assert(item_steps(key, done) + seq![step] == item_steps(key, done).push(step));
                assert(self.trace@.skip(base.len() as int) == item_steps(key, done).push(step));
            }
            if let Err(failure) = answer {
                proof {
                    let all = item_steps(key, items(ts));
                    let steps = self.trace@.skip(base.len() as int);
                    let kept = item_steps(key, done.push(item));
                    assert(all.take(steps.len() as int) == kept);
                    assert(kept.drop_last() == item_steps(key, done));
                }
                return Err(failure);
            }
            proof {
                k = k + n;
                done = done.push(item);
            }
        }
    }

    /// Deals with the value of one root-level member, of which `kind` is
    /// the shape seen ahead: hands it to the handler at `slot` where the key
    /// is registered and the value is an array or an object, and skips it
    /// whole in every other case.
    fn dispatch_value(
        &mut self,
        reader: &mut Tokenizer,
        slot: Option<usize>,
        kind: ValueKind,
        Ghost(key): Ghost<Seq<char>>,
    ) -> (r: Result<(), DispatchError<H::Failure>>)
        requires
            old(self).well_formed(),
            slot matches Some(i) ==> i < old(self).keys.len() && old(self).keys[i as int]@ == key,
            position(*old(reader)) == at_member_value(),
            pending(*old(reader)).len() > 0 && pending(*old(reader))[0].kind() is Some ==> pending(
                *old(reader),
            )[0].kind() == Some(kind),
        ensures
            final(self).well_formed(),
            old(self).trace@.is_prefix_of(final(self).trace@),
            orderly(
                final(self).trace@,
                old(self).trace@.len() as int,
                r is Err && r->Err_0 is Handler,
            ),
            final(self).served(*old(self), final(self).trace@.skip(old(self).trace@.len() as int)),
            performed(
                if slot is Some {
                    value_steps(key, pending(*old(reader)))
                } else {
                    Seq::empty()
                },
                final(self).trace@.skip(old(self).trace@.len() as int),
                r is Err && r->Err_0 is Handler,
            ),
            r is Ok ==> value_len(pending(*old(reader))) is Some,
            r is Ok ==> pending(*final(reader)) == pending(*old(reader)).skip(
                value_len(pending(*old(reader)))->0 as int,
            ),
            r is Ok ==> position(*final(reader)) == between_members(),
            value_len(pending(*old(reader))) is Some ==> (r is Ok || r->Err_0 is Handler),
            r is Err && r->Err_0 is Handler ==> slot is Some,
            slot matches Some(i) ==> (old(self).handlers[i as int].never_refuses() ==> !(r is Err
                && r->Err_0 is Handler)),
            slot matches Some(i) ==> (r matches Err(DispatchError::Handler(e)) ==> ends_refusing(
                final(self).handlers[i as int].answers(),
                e,
            )),
            r is Err && r->Err_0 is Handler ==> (final(self).trace@.last() matches Step::Record {
                key: owner,
                ..
            } && owner == key),
    {
        let ghost ts = pending(*reader);
        let ghost base = self.trace@;
        proof {
            lemma_positions();
            lemma_value_len_bounds(ts);
            self.lemma_served_nothing();
            assert(base.skip(base.len() as int) == Seq::<Step>::empty());
        }
        if let Some(i) = slot {
            match kind {
                ValueKind::Array => {
                    if let Err(e) = reader.begin_array() {
                        return Err(DispatchError::Malformed(e));
                    }
                    let r = self.deliver_items(reader, i, Ghost(key));
                    proof {
                        if r is Ok {
                            assert(ts.skip(1).skip(items_len(ts.skip(1))->0 as int) == ts.skip(
                                value_len(ts)->0 as int,
                            ));
                        }
                    }
                    return r;
                },
                ValueKind::Object => {
                    let record = match reader.take_value() {
                        Ok(record) => record,
                        Err(CopyFault::Read(e)) => {
                            return Err(DispatchError::Malformed(e));
                        },
                        Err(CopyFault::Write(e)) => {
                            return Err(DispatchError::Buffer(e));
                        },
                    };
                    let r = self.deliver(i, &record, Ghost(key));
                    proof {
                        let n = value_len(ts)->0 as int;
                        let step = Step::Record { key, text: record@, accepted: r is Ok };
                        let whole = seq![Step::Record { key, text: record@, accepted: true }];
                        assert(self.trace@.skip(base.len() as int) == seq![step]);
                        assert(value_steps(key, ts) == whole);
                        if r is Err {
                            assert(whole.take(1) == whole);
                            assert(seq![step] == refused_last(whole));
                        }
                    }
                    return r;
                },
                _ => {},
            }
        }
        match reader.skip_value() {
            Ok(()) => Ok(()),
            Err(e) => Err(DispatchError::Malformed(e)),
        }
    }

    /// The run, told of the handlers by their places in the registry.
    #[verifier::rlimit(50)]
    fn run_inner(&mut self, source: &[u8]) -> (r: Result<(), DispatchError<H::Failure>>)
        requires
            old(self).well_formed(),
        ensures
            final(self).well_formed(),
            old(self).trace@.is_prefix_of(final(self).trace@),
            orderly(
                final(self).trace@,
                old(self).trace@.len() as int,
                r is Err && r->Err_0 is Handler,
            ),
            final(self).served(*old(self), final(self).trace@.skip(old(self).trace@.len() as int)),
            performed(
                source_steps(source@, old(self).registry().dom()),
                final(self).trace@.skip(old(self).trace@.len() as int),
                r is Err && r->Err_0 is Handler,
            ),
            r is Ok ==> document(source@) is Some,
            document(source@) is Some ==> (r is Ok || r->Err_0 is Handler),
            old(self).all_accept() ==> !(r is Err && r->Err_0 is Handler),
            r matches Err(DispatchError::Handler(e)) ==> final(self).refused_with(e),
    {
        let mut reader = Tokenizer::open(source, None, false);
        let ghost all = tokens_of(source@, None, false);
        let ghost body = all.skip(1);
        let ghost base = self.trace@;
        let ghost registered = self.registry().dom();
        let ghost mut k: int = 0;
        let ghost mut done: Seq<Step> = Seq::empty();
        proof {
            lemma_positions();
            self.lemma_served_nothing();
            assert(base.skip(base.len() as int) == Seq::<Step>::empty());
        }
        if let Err(e) = reader.begin_object() {
            return Err(DispatchError::Malformed(e));
        }
        proof {
            assert(body.skip(0) == body);
            assert(base + done == base);
            assert(done + steps_within(body, registered) == steps_within(body, registered));
        }
        loop
            invariant
                self.well_formed(),
                registered == old(self).registry().dom(),
                base == old(self).trace@,
                all == tokens_of(source@, None, false),
                all.len() > 0 && all[0] == Token::BeginObject,
                body == all.skip(1),
                position(reader) == between_members(),
                0 <= k <= body.len(),
                pending(reader) == body.skip(k),
                steps_within(body, registered) == done + steps_within(body.skip(k), registered),
                members_len(body.skip(k)) is Some ==> members_len(body) is Some,
                members_len(body) is Some ==> members_len(body.skip(k)) is Some,
                self.trace@ == base + done,
                orderly(self.trace@, base.len() as int, false),
                self.served(*old(self), done),
            decreases body.len() - k,
        {
            let ghost cur = body.skip(k);
            proof {
                lemma_positions();
                self.lemma_registry_served(*old(self), done);
                assert(self.trace@.skip(base.len() as int) == done);
                assert(done + Seq::<Step>::empty() == done);
            }
            let more = match reader.has_next() {
                Ok(more) => more,
                Err(e) => {
                    return Err(DispatchError::Malformed(e));
                },
            };
            if !more {
                match reader.end_object() {
                    Ok(()) => {
                        return Ok(());
                    },
                    Err(e) => {
                        return Err(DispatchError::Malformed(e));
                    },
                }
            }
            let name = match reader.next_name() {
                Ok(name) => name,
                Err(e) => {
                    return Err(DispatchError::Malformed(e));
                },
            };
            let ghost key = name@;
            let ghost rest = cur.skip(1);
            let ghost visited = done.push(Step::Key(key));
            proof {
                self.trace@ = self.trace@.push(Step::Key(key));
                self.lemma_served_key(*old(self), done, key);
                assert(self.trace@ == base + visited);
                assert(self.trace@.skip(base.len() as int) == visited);
            }
            let slot = self.find(&name);
            let ghost records = if slot is Some {
                value_steps(key, rest)
            } else {
                Seq::<Step>::empty()
            };
            let ghost later = match value_len(rest) {
                Some(n) => steps_within(cur.skip(1 + n as int), registered),
                None => Seq::<Step>::empty(),
            };
            proof {
                lemma_value_len_bounds(rest);
                assert(steps_within(cur, registered) == seq![Step::Key(key)] + records + later);
                assert(done + (seq![Step::Key(key)] + records + later) == visited + records + later);
            }
            let kind = match reader.peek() {
                Ok(kind) => kind,
                Err(e) => {
                    proof {
                        assert(records == Seq::<Step>::empty());
                        assert(later == Seq::<Step>::empty());
                        assert(visited + records + later == visited);
                    }
                    return Err(DispatchError::Malformed(e));
                },
            };
            let ghost before = *self;
            let r = self.dispatch_value(&mut reader, slot, kind, Ghost(key));
            proof {
                let inner = self.trace@.skip(before.trace@.len() as int);
                let refused = r is Err && r->Err_0 is Handler;
                lemma_orderly_extends(before.trace@, self.trace@, base.len() as int, refused);
                self.lemma_served_on(before, *old(self), visited, inner);
                lemma_member_done(
                    base,
                    done,
                    key,
                    records,
                    later,
                    before.trace@,
                    self.trace@,
                    refused,
                );
                if refused {
                    let i = slot->0 as int;
                    self.lemma_slot(i);
                    assert(self.keys[i]@ == key);
                    assert(self.registry().dom().contains(key));
                    assert(self.registry()[key] == self.handlers[i]);
                    assert(self.trace@.len() > 0);
                    if old(self).all_accept() {
                        assert(before.handlers[i].never_refuses());
                    }
                } else if r is Ok {
                    let n = value_len(rest)->0 as int;
                    assert(cur.skip(1 + n) == body.skip(k + 1 + n));
                    assert(rest.skip(n) == body.skip(k + 1 + n));
                    k = k + 1 + n;
                    done = visited + records;
                } else {
                    assert(members_len(cur) is None);
                    assert(later == Seq::<Step>::empty());
                    assert((visited + records) + later == visited + records);
                }
            }
            if let Err(e) = r {
                return Err(e);
            }
        }
    }

    /// Processes a document with the registered handlers, in one forward
    /// pass. The top-level value must be an object. Each of its members is
    /// visited once, in document order: under a registered key every item of
    /// an array, or the one object, is handed to the key's handler as a
    /// record; every other value is skipped whole. A fault in the document
    /// ends the run, and so does a handler that answers with a failure:
    /// nothing is read or handed over after it.
    ///
    /// The run notes in the trace each key as it reads it and each record
    /// as it hands it over. What it notes is settled by the source and the
    /// registered keys: it is the steps of the source, all of them, or what
    /// leads up to the record that a handler refused. Each handler has
    /// taken, when the run ends, the records that the run handed over to
    /// its key and no other. The run succeeds exactly when the top-level
    /// value is a complete object and no handler refused a record; a
    /// failure that it returns is the one that the refusing handler gave.
    pub fn run(&mut self, source: &[u8]) -> (r: Result<(), DispatchError<H::Failure>>)
        requires
            old(self).well_formed(),
        ensures
            final(self).well_formed(),
            final(self).registry().dom() == old(self).registry().dom(),
            old(self).trace().is_prefix_of(final(self).trace()),
            orderly(
                final(self).trace(),
                old(self).trace().len() as int,
                r is Err && r->Err_0 is Handler,
            ),
            performed(
                source_steps(source@, old(self).registry().dom()),
                final(self).trace().skip(old(self).trace().len() as int),
                r is Err && r->Err_0 is Handler,
            ),
            r is Ok <==> document(source@) is Some && orderly(
                final(self).trace(),
                old(self).trace().len() as int,
                false,
            ),
            document(source@) is Some ==> (r is Ok || r->Err_0 is Handler),
            forall|key: Seq<char>|
                old(self).registry().dom().contains(key) ==> (#[trigger] final(self).registry()[key]).taken()
                    == old(self).registry()[key].taken() + handed_over(
                    final(self).trace().skip(old(self).trace().len() as int),
                    key,
                ),
            forall|key: Seq<char>|
                old(self).registry().dom().contains(key) && old(self).registry()[key].never_refuses()
                    ==> (#[trigger] final(self).registry()[key]).never_refuses(),
            (forall|key: Seq<char>|
                old(self).registry().dom().contains(key) ==> (#[trigger] old(self).registry()[key]).never_refuses()) ==> !(r is Err && r->Err_0 is Handler),
            r matches Err(DispatchError::Handler(e)) ==> final(self).refused_with(e),
    {
        let r = self.run_inner(source);
        proof {
            let steps = self.trace@.skip(old(self).trace@.len() as int);
            self.lemma_registry_served(*old(self), steps);
            if r is Err && r->Err_0 is Handler {
                assert(!lets_go_on(self.trace@[self.trace@.len() - 1]));
            }
        }
        r
    }
}

} // verus!

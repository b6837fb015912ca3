use vstd::prelude::*;
use crate::parse::json::document;
use crate::parse::json::handed_over;
use crate::parse::json::handed_over_concat;
use crate::parse::json::item_steps;
use crate::parse::json::lets_go_on;
use crate::parse::json::member_steps;
use crate::parse::json::performed;
use crate::parse::json::record_steps;
use crate::parse::json::script;
use crate::parse::json::source_steps;
use crate::parse::json::run_steps;
use crate::parse::json::steps_within;
use crate::parse::json::value_steps;
use crate::parse::json::lemma_document_steps;
use crate::parse::json::Step;
use crate::parse::reader::rendered;
use crate::parse::tokens::items;
use crate::parse::tokens::value_len;
use crate::parse::tokens::Member;
use crate::parse::tokens::Token;

verus! {

/// The keys that a run reads, in the order in which it reads them.
pub open spec fn visited_keys(steps: Seq<Step>) -> Seq<Seq<char>>
    decreases steps.len(),
{
    if steps.len() == 0 {
        Seq::empty()
    } else {
        match steps.last() {
            Step::Key(key) => visited_keys(steps.drop_last()).push(key),
            Step::Record { .. } => visited_keys(steps.drop_last()),
        }
    }
}

/// The number of records that a run hands to any handler.
pub open spec fn records_count(steps: Seq<Step>) -> nat
    decreases steps.len(),
{
    if steps.len() == 0 {
        0
    } else {
        match steps.last() {
            Step::Record { .. } => records_count(steps.drop_last()) + 1,
            Step::Key(_) => records_count(steps.drop_last()),
        }
    }
}

/// The keys read over two stretches of a run are those of the first stretch
/// followed by those of the second.
pub proof fn visited_keys_concat(a: Seq<Step>, b: Seq<Step>)
    ensures
        visited_keys(a + b) == visited_keys(a) + visited_keys(b),
    decreases b.len(),
{
    if b.len() == 0 {
        assert(a + b == a);
    } else {
        visited_keys_concat(a, b.drop_last());
        assert((a + b).drop_last() == a + b.drop_last());
    }
}

/// The number of records handed over in two stretches of a run is the sum
/// of the numbers of the two.
pub proof fn records_count_concat(a: Seq<Step>, b: Seq<Step>)
    ensures
        records_count(a + b) == records_count(a) + records_count(b),
    decreases b.len(),
{
    if b.len() == 0 {
        assert(a + b == a);
    } else {
        records_count_concat(a, b.drop_last());
        assert((a + b).drop_last() == a + b.drop_last());
    }
}

/// Handing over the items of an array reads no key, and hands to the
/// array's key each item once, in order, and nothing to any other key.
pub proof fn items_handed_over(key: Seq<char>, items: Seq<Seq<Token>>, other: Seq<char>)
    ensures
        visited_keys(item_steps(key, items)) == Seq::<Seq<char>>::empty(),
        handed_over(item_steps(key, items), key) == items.map_values(
            |item: Seq<Token>| rendered(item),
        ),
        other != key ==> handed_over(item_steps(key, items), other) == Seq::<Seq<u8>>::empty(),
        records_count(item_steps(key, items)) == items.len(),
    decreases items.len(),
{
    let steps = item_steps(key, items);
    let texts = items.map_values(|item: Seq<Token>| rendered(item));
    if items.len() == 0 {
        assert(handed_over(steps, key) == texts);
    } else {
        items_handed_over(key, items.drop_last(), other);
        assert(steps.drop_last() == item_steps(key, items.drop_last()));
        assert(texts.drop_last() == items.drop_last().map_values(
            |item: Seq<Token>| rendered(item),
        ));
        assert(handed_over(steps, key) == texts);
    }
}

/// A run visits every root-level key once, in document order, whether the
/// key is registered or not.
pub proof fn every_key_visited_once_in_order(members: Seq<Member>, registered: Set<Seq<char>>)
    ensures
        visited_keys(script(members, registered)) == members.map_values(|m: Member| m.key),
    decreases members.len(),
{
    let keys = members.map_values(|m: Member| m.key);
    if members.len() == 0 {
        assert(visited_keys(script(members, registered)) == keys);
    } else {
        let last = members.last();
        every_key_visited_once_in_order(members.drop_last(), registered);
        visited_keys_concat(script(members.drop_last(), registered), member_steps(last, registered));
        member_visits_its_key(last, registered);
        assert(keys.drop_last() == members.drop_last().map_values(|m: Member| m.key));
        assert(keys == keys.drop_last().push(last.key));
    }
}

/// Handling one member reads its key and no other.
pub proof fn member_visits_its_key(member: Member, registered: Set<Seq<char>>)
    ensures
        visited_keys(member_steps(member, registered)) == seq![member.key],
{
    let first = seq![Step::Key(member.key)];
    assert(first.drop_last() == Seq::<Step>::empty());
    assert(visited_keys(first) == seq![member.key]) by {
        assert(visited_keys(first.drop_last()) == Seq::<Seq<char>>::empty());
    }
    if registered.contains(member.key) {
        let records = record_steps(member.key, member.value);
        visited_keys_concat(first, records);
        if member.value.len() > 0 {
            match member.value[0] {
                Token::BeginArray => {
                    items_handed_over(member.key, items(member.value.skip(1)), member.key);
                },
                Token::BeginObject => {
                    assert(records.drop_last() == Seq::<Step>::empty());
                    assert(visited_keys(records.drop_last()) == Seq::<Seq<char>>::empty());
                },
                _ => {},
            }
        }
        assert(visited_keys(first) + visited_keys(records) == seq![member.key]);
    }
}

/// Under a registered key, an array of N items has its handler called N
/// times, once for each item and in their order.
pub proof fn registered_array_handled_item_by_item(member: Member, registered: Set<Seq<char>>)
    requires
        registered.contains(member.key),
        member.value.len() > 0,
        member.value[0] == Token::BeginArray,
    ensures
        handed_over(member_steps(member, registered), member.key) == items(
            member.value.skip(1),
        ).map_values(|item: Seq<Token>| rendered(item)),
        records_count(member_steps(member, registered)) == items(member.value.skip(1)).len(),
{
    let first = seq![Step::Key(member.key)];
    let records = record_steps(member.key, member.value);
    assert(first.drop_last() == Seq::<Step>::empty());
    assert(handed_over(first, member.key) == Seq::<Seq<u8>>::empty()) by {
        assert(handed_over(first.drop_last(), member.key) == Seq::<Seq<u8>>::empty());
    }
    assert(records_count(first) == 0) by {
        assert(records_count(first.drop_last()) == 0);
    }
    handed_over_concat(first, records, member.key);
    records_count_concat(first, records);
    items_handed_over(member.key, items(member.value.skip(1)), member.key);
    assert(Seq::<Seq<u8>>::empty() + handed_over(records, member.key) == handed_over(
        records,
        member.key,
    ));
}

/// Under a registered key, an object has its handler called once, with the
/// whole object.
pub proof fn registered_object_handled_once(member: Member, registered: Set<Seq<char>>)
    requires
        registered.contains(member.key),
        member.value.len() > 0,
        member.value[0] == Token::BeginObject,
    ensures
        member_steps(member, registered) == seq![
            Step::Key(member.key),
            Step::Record { key: member.key, text: rendered(member.value), accepted: true },
        ],
        handed_over(member_steps(member, registered), member.key) == seq![rendered(member.value)],
        records_count(member_steps(member, registered)) == 1,
{
    let steps = member_steps(member, registered);
    let first = seq![Step::Key(member.key)];
    assert(steps == seq![
        Step::Key(member.key),
        Step::Record { key: member.key, text: rendered(member.value), accepted: true },
    ]);
    assert(steps.drop_last() == first);
    assert(first.drop_last() == Seq::<Step>::empty());
    assert(handed_over(first, member.key) == Seq::<Seq<u8>>::empty()) by {
        assert(handed_over(first.drop_last(), member.key) == Seq::<Seq<u8>>::empty());
    }
    assert(records_count(first) == 0) by {
        assert(records_count(first.drop_last()) == 0);
    }
    assert(handed_over(steps, member.key) == seq![rendered(member.value)]);
}

/// A member whose key is not registered has no handler called, whatever
/// its value is: its key is read and that is all.
pub proof fn unregistered_member_calls_no_handler(member: Member, registered: Set<Seq<char>>)
    requires
        !registered.contains(member.key),
    ensures
        member_steps(member, registered) == seq![Step::Key(member.key)],
        records_count(member_steps(member, registered)) == 0,
{
    let first = seq![Step::Key(member.key)];
    assert(first.drop_last() == Seq::<Step>::empty());
    assert(records_count(first) == 0) by {
        assert(records_count(first.drop_last()) == 0);
    }
}

/// The handler of a key is handed nothing but records of members with that
/// key: over a document in which no member has the key, nothing at all.
pub proof fn absent_key_is_handed_nothing(
    members: Seq<Member>,
    registered: Set<Seq<char>>,
    key: Seq<char>,
)
    requires
        forall|i: int| 0 <= i < members.len() ==> members[i].key != key,
    ensures
        handed_over(script(members, registered), key) == Seq::<Seq<u8>>::empty(),
    decreases members.len(),
{
    if members.len() > 0 {
        let last = members.last();
        let first = seq![Step::Key(last.key)];
        let records = record_steps(last.key, last.value);
        absent_key_is_handed_nothing(members.drop_last(), registered, key);
        handed_over_concat(script(members.drop_last(), registered), member_steps(last, registered), key);
        assert(first.drop_last() == Seq::<Step>::empty());
        assert(handed_over(first, key) == Seq::<Seq<u8>>::empty()) by {
            assert(handed_over(first.drop_last(), key) == Seq::<Seq<u8>>::empty());
        }
        if registered.contains(last.key) {
            handed_over_concat(first, records, key);
            if last.value.len() > 0 {
                match last.value[0] {
                    Token::BeginArray => {
                        items_handed_over(last.key, items(last.value.skip(1)), key);
                    },
                    Token::BeginObject => {
                        assert(records.drop_last() == Seq::<Step>::empty());
                        assert(handed_over(records.drop_last(), key) == Seq::<Seq<u8>>::empty());
                    },
                    _ => {},
                }
            }
            assert(handed_over(records, key) == Seq::<Seq<u8>>::empty());
        }
        assert(handed_over(member_steps(last, registered), key) == Seq::<Seq<u8>>::empty());
    }
}

/// What a run does is settled by the bytes of the source and by the keys
/// that are registered, whatever the source holds: two sources of the same
/// bytes, under the same keys, have the same steps, and are the same
/// document where they are one.
pub proof fn same_bytes_same_run(first: Seq<u8>, second: Seq<u8>, registered: Set<Seq<char>>)
    requires
        first =~= second,
    ensures
        source_steps(first, registered) == source_steps(second, registered),
        document(first) == document(second),
        document(first) matches Some(members) ==> source_steps(first, registered) == script(
            members,
            registered,
        ),
{
    if document(first) is Some {
        lemma_document_steps(first, registered);
    }
}

/// Two runs over the same bytes under the same keys that end alike, both
/// unrefused or both refused after as many steps, have done the same steps
/// in the same order.
pub proof fn runs_over_same_bytes_agree(
    first: Seq<u8>,
    second: Seq<u8>,
    registered: Set<Seq<char>>,
    done_first: Seq<Step>,
    done_second: Seq<Step>,
    refused: bool,
)
    requires
        first =~= second,
        performed(source_steps(first, registered), done_first, refused),
        performed(source_steps(second, registered), done_second, refused),
        done_first.len() == done_second.len(),
    ensures
        done_first == done_second,
{
}

/// Over tokens of which the first opens no object, or over no tokens at
/// all, a run does nothing: it reads no key and calls no handler.
pub proof fn no_object_no_step(tokens: Seq<Token>, registered: Set<Seq<char>>, steps: Seq<Step>, refused: bool)
    requires
        tokens.len() == 0 || tokens[0] != Token::BeginObject,
        performed(run_steps(tokens, registered), steps, refused),
    ensures
        !refused,
        steps == Seq::<Step>::empty(),
{
}

/// Where the tokens end inside the value of a member, a run has done, when
/// it meets the fault, the key of that member and what its value hands
/// over whole, and nothing after it.
pub proof fn cut_member_is_the_last(ts: Seq<Token>, key: Seq<char>, registered: Set<Seq<char>>)
    requires
        ts.len() > 0,
        ts[0] == Token::Name(key),
        value_len(ts.skip(1)) is None,
    ensures
        steps_within(ts, registered) == seq![Step::Key(key)] + if registered.contains(key) {
            value_steps(key, ts.skip(1))
        } else {
            Seq::empty()
        },
{
    let records = if registered.contains(key) {
        value_steps(key, ts.skip(1))
    } else {
        Seq::<Step>::empty()
    };
    assert(seq![Step::Key(key)] + records + Seq::<Step>::empty() == seq![Step::Key(key)] + records);
}

/// Every step of a run in which no handler refuses lets the run go on,
/// whatever the source holds.
pub proof fn steps_let_go_on(ts: Seq<Token>, registered: Set<Seq<char>>, i: int)
    requires
        0 <= i < steps_within(ts, registered).len(),
    ensures
        lets_go_on(steps_within(ts, registered)[i]),
    decreases ts.len(),
{
    match ts[0] {
        Token::Name(key) => {
            let records = if registered.contains(key) {
                value_steps(key, ts.skip(1))
            } else {
                Seq::<Step>::empty()
            };
            let head = seq![Step::Key(key)] + records;
            if i >= head.len() {
                let n = value_len(ts.skip(1))->0 as int;
                steps_let_go_on(ts.skip(1 + n), registered, i - head.len());
            }
        },
        _ => {},
    }
}

/// In the script, every record is accepted.
pub proof fn script_lets_go_on(members: Seq<Member>, registered: Set<Seq<char>>, i: int)
    requires
        0 <= i < script(members, registered).len(),
    ensures
        lets_go_on(script(members, registered)[i]),
    decreases members.len(),
{
    if members.len() > 0 {
        let earlier = script(members.drop_last(), registered);
        if i < earlier.len() {
            script_lets_go_on(members.drop_last(), registered, i);
        }
    }
}

/// A refusal ends the run at once: the refused record is the last thing
/// done, all that was done before it is the script up to there with every
/// record accepted, and nothing that the script holds after it is done.
pub proof fn refusal_ends_the_run(members: Seq<Member>, registered: Set<Seq<char>>, steps: Seq<Step>)
    requires
        performed(script(members, registered), steps, true),
    ensures
        0 < steps.len() <= script(members, registered).len(),
        steps.last() is Record,
        !lets_go_on(steps.last()),
        forall|i: int|
            0 <= i < steps.len() - 1 ==> steps[i] == script(members, registered)[i] && lets_go_on(
                #[trigger] steps[i],
            ),
{
    let whole = script(members, registered);
    assert forall|i: int| 0 <= i < steps.len() - 1 implies steps[i] == whole[i] && lets_go_on(
        #[trigger] steps[i],
    ) by {
        script_lets_go_on(members, registered, i);
    }
}

/// A run that has no record to hand over cannot be refused: over a document
/// that calls for no record, it does the whole script.
pub proof fn run_without_records_is_not_refused(
    members: Seq<Member>,
    registered: Set<Seq<char>>,
    steps: Seq<Step>,
    refused: bool,
)
    requires
        records_count(script(members, registered)) == 0,
        performed(script(members, registered), steps, refused),
    ensures
        !refused,
        steps == script(members, registered),
{
    if refused {
        let whole = script(members, registered);
        no_records_no_record(whole, steps.len() - 1);
    }
}

/// Where no record is handed over, no step is a record.
pub proof fn no_records_no_record(steps: Seq<Step>, i: int)
    requires
        records_count(steps) == 0,
        0 <= i < steps.len(),
    ensures
        steps[i] is Key,
    decreases steps.len(),
{
    if i < steps.len() - 1 {
        no_records_no_record(steps.drop_last(), i);
    }
}

/// Where no handler refuses a record, the run does the whole script and
/// every step of it lets the run go on.
pub proof fn tolerance_reaches_the_end(
    members: Seq<Member>,
    registered: Set<Seq<char>>,
    steps: Seq<Step>,
)
    requires
        performed(script(members, registered), steps, false),
    ensures
        steps == script(members, registered),
        forall|i: int| 0 <= i < steps.len() ==> lets_go_on(#[trigger] steps[i]),
{
    assert forall|i: int| 0 <= i < steps.len() implies lets_go_on(#[trigger] steps[i]) by {
        script_lets_go_on(members, registered, i);
    }
}

} // verus!

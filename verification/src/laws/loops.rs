//! Laws of loops.

use vstd::prelude::*;

use crate::eval::Oracle;
use crate::field::loop_count_of;
use crate::json::{inserted, lookup, Entries, JsonView};
use crate::laws::maps::lookup_after_insertion;
use crate::number::NumberView;
use crate::packet::{parse, parse_field, parse_loop, Gathered, Outcome, Progress};
use crate::schema::BranchView;

verus! {

/// A loop that does not run gives an empty array under its name, and changes
/// nothing else.
pub proof fn a_loop_that_does_not_run(
    data: Seq<u8>,
    field: BranchView,
    dry_run: bool,
    oracle: Oracle,
    s: Gathered,
)
    requires
        field.loop_count == Some(JsonView::Number(NumberView::PosInt(0))),
    ensures
        parse_field(data, field, dry_run, oracle, s) == Outcome::Done(
            Gathered {
                fields: inserted(s.fields, field.name, JsonView::Array(Seq::empty())),
                offset: s.offset,
                progress: s.progress,
            },
        ),
{
}

/// A loop that runs once more than another one gives the item that its fields
/// come to first, and behind it the items of the other loop, which goes on from
/// there. Where the data ends within the first item, the array is empty and no
/// bits are taken; what became known on the way stays known.
pub proof fn once_more_round_a_loop(
    data: Seq<u8>,
    field: BranchView,
    nested: Seq<BranchView>,
    n: u64,
    dry_run: bool,
    oracle: Oracle,
    s: Gathered,
)
    requires
        n < u64::MAX,
        field.loop_count == Some(JsonView::Number(NumberView::PosInt((n + 1) as u64))),
        field.branches == Some(nested),
        0 <= s.offset / 8 <= data.len(),
    ensures
        ({
            let whole = parse_field(data, field, dry_run, oracle, s);
            let once_less = BranchView {
                loop_count: Some(JsonView::Number(NumberView::PosInt(n))),
                ..field
            };
            match parse(data.skip(s.offset / 8), nested, dry_run, oracle, s.progress) {
                Outcome::Unsupported => whole is Unsupported,
                Outcome::Failed { progress, .. } => whole == Outcome::Done(
                    Gathered {
                        fields: inserted(s.fields, field.name, JsonView::Array(Seq::empty())),
                        offset: s.offset,
                        progress,
                    },
                ),
                Outcome::Done(first) => if s.offset + first.offset > usize::MAX {
                    whole is Unsupported
                } else {
                    match parse_field(
                        data,
                        once_less,
                        dry_run,
                        oracle,
                        Gathered {
                            fields: s.fields,
                            offset: s.offset + first.offset,
                            progress: first.progress,
                        },
                    ) {
                        Outcome::Done(after) => {
                            &&& lookup(after.fields, field.name) matches Some(
                                JsonView::Array(others),
                            )
                            &&& whole == Outcome::Done(
                                Gathered {
                                    fields: inserted(
                                        s.fields,
                                        field.name,
                                        JsonView::Array(
                                            seq![JsonView::Object(first.fields)] + others,
                                        ),
                                    ),
                                    offset: after.offset,
                                    progress: after.progress,
                                },
                            )
                        },
                        Outcome::Failed { .. } => false,
                        Outcome::Unsupported => whole is Unsupported,
                    }
                },
            }
        }),
{
    let empty = Seq::<JsonView>::empty();
    if let Outcome::Done(first) = parse(
        data.skip(s.offset / 8),
        nested,
        dry_run,
        oracle,
        s.progress,
    ) {
        let next = s.offset + first.offset;
        let item = JsonView::Object(first.fields);
        lemma_items_before(
            data,
            nested,
            dry_run,
            oracle,
            n as nat,
            empty.push(item),
            next,
            first.progress,
        );
        if n == 0 {
            lookup_after_insertion(s.fields, field.name, JsonView::Array(empty), field.name);
            assert(empty.push(item) =~= seq![item] + empty);
        } else if let Some((others, _, _)) = parse_loop(
            data,
            nested,
            dry_run,
            oracle,
            n as nat,
            empty,
            next,
            first.progress,
        ) {
            lookup_after_insertion(s.fields, field.name, JsonView::Array(others), field.name);
            assert(empty.push(item) + others =~= seq![item] + others);
        }
    }
}

/// Items that are there before a loop make no difference to those it adds.
proof fn lemma_items_before(
    data: Seq<u8>,
    schema: Seq<BranchView>,
    dry_run: bool,
    oracle: Oracle,
    n: nat,
    items: Seq<JsonView>,
    offset: int,
    progress: Progress,
)
    ensures
        parse_loop(data, schema, dry_run, oracle, n, items, offset, progress) == match parse_loop(
            data,
            schema,
            dry_run,
            oracle,
            n,
            Seq::empty(),
            offset,
            progress,
        ) {
            Some((others, end, after)) => Some((items + others, end, after)),
            None => None,
        },
    decreases n,
{
    let empty = Seq::<JsonView>::empty();
    assert(items + empty =~= items);
    if n > 0 {
        if let Outcome::Done(inner) = parse(
            data.skip(offset / 8),
            schema,
            dry_run,
            oracle,
            progress,
        ) {
            let item = JsonView::Object(inner.fields);
            let left = (n - 1) as nat;
            let next = offset + inner.offset;
            lemma_items_before(
                data,
                schema,
                dry_run,
                oracle,
                left,
                items.push(item),
                next,
                inner.progress,
            );
            lemma_items_before(
                data,
                schema,
                dry_run,
                oracle,
                left,
                empty.push(item),
                next,
                inner.progress,
            );
            if let Some((others, _, _)) = parse_loop(
                data,
                schema,
                dry_run,
                oracle,
                left,
                empty,
                next,
                inner.progress,
            ) {
                assert(items.push(item) + others =~= items + (empty.push(item) + others));
            }
        }
    }
}

/// A loop that is counted by a name runs as often as one that is counted by the
/// number known by that name.
pub proof fn a_name_counts_as_its_number(
    data: Seq<u8>,
    field: BranchView,
    key: Seq<char>,
    n: u64,
    dry_run: bool,
    oracle: Oracle,
    s: Gathered,
)
    requires
        field.loop_count == Some(JsonView::String(key)),
        lookup(s.progress.cache, key) == Some(JsonView::Number(NumberView::PosInt(n))),
    ensures
        parse_field(data, field, dry_run, oracle, s) == parse_field(
            data,
            BranchView {
                loop_count: Some(JsonView::Number(NumberView::PosInt(n))),
                ..field
            },
            dry_run,
            oracle,
            s,
        ),
{
}

/// A loop has to have a count: an integer that is not negative, or the name that
/// such an integer is known by. Where it runs it has to have fields, and to start
/// within the data or at its end.
pub proof fn what_a_loop_has_to_have(
    data: Seq<u8>,
    field: BranchView,
    count: JsonView,
    dry_run: bool,
    oracle: Oracle,
    s: Gathered,
)
    requires
        field.loop_count == Some(count),
    ensures
        ({
            let known = match count {
                JsonView::String(key) => lookup(s.progress.cache, key),
                _ => Some(count),
            };
            match known {
                Some(JsonView::Number(NumberView::PosInt(n))) => n > 0 && (field.branches is None
                    || s.offset / 8 > data.len()) ==> parse_field(
                    data,
                    field,
                    dry_run,
                    oracle,
                    s,
                ) is Unsupported,
                _ => parse_field(data, field, dry_run, oracle, s) is Unsupported,
            }
        }),
{
}

/// The count of a loop: a number is one itself where it is an integer that is
/// not negative, and a text where such a number is known by it.
pub proof fn counts_of_loops(count: JsonView, cache: Entries)
    ensures
        match count {
            JsonView::Number(NumberView::PosInt(n)) => loop_count_of(count, cache) == Some(n),
            JsonView::String(key) => match lookup(cache, key) {
                Some(JsonView::Number(NumberView::PosInt(n))) => loop_count_of(count, cache)
                    == Some(n),
                _ => loop_count_of(count, cache) is None,
            },
            _ => loop_count_of(count, cache) is None,
        },
{
}

/// The bits that the first `i` packets of a row take.
pub open spec fn bits_taken(run: Seq<Gathered>, i: int) -> int
    decreases i,
{
    if i <= 0 {
        0
    } else {
        bits_taken(run, i - 1) + run[i - 1].offset
    }
}

/// What is known before packet `i` of a row.
pub open spec fn known_before(start: Progress, run: Seq<Gathered>, i: int) -> Progress {
    if i <= 0 {
        start
    } else {
        run[i - 1].progress
    }
}

/// Whether a row of packets is what the fields of a loop come to one after the
/// other, each at the byte in which the one before it ends.
pub open spec fn follow_each_other(
    data: Seq<u8>,
    schema: Seq<BranchView>,
    dry_run: bool,
    oracle: Oracle,
    offset: int,
    start: Progress,
    run: Seq<Gathered>,
) -> bool {
    forall|i: int|
        0 <= i < run.len() ==> #[trigger] parse(
            data.skip((offset + bits_taken(run, i)) / 8),
            schema,
            dry_run,
            oracle,
            known_before(start, run, i),
        ) == Outcome::Done(run[i])
}

/// The objects of a row of packets.
pub open spec fn objects_of(run: Seq<Gathered>) -> Seq<JsonView> {
    Seq::new(run.len(), |i: int| JsonView::Object(run[i].fields))
}

/// Whether a row of packets is all of a loop: there are as many as its count, or
/// one more fails. What is known at the end is known then.
pub open spec fn all_of_a_loop(
    data: Seq<u8>,
    schema: Seq<BranchView>,
    dry_run: bool,
    oracle: Oracle,
    offset: int,
    start: Progress,
    run: Seq<Gathered>,
    n: nat,
    known: Progress,
) -> bool {
    let end = offset + bits_taken(run, run.len() as int);
    let last = known_before(start, run, run.len() as int);
    ||| run.len() == n && known == last
    ||| run.len() < n && (parse(
        data.skip(end / 8),
        schema,
        dry_run,
        oracle,
        last,
    ) matches Outcome::Failed { progress, .. } && progress == known)
}

/// The array of a loop holds an object for each packet of a row: they follow
/// each other, and there are as many as the count says unless the next one
/// fails. The loop takes the bits of all of them.
pub proof fn items_of_a_loop_follow_each_other(
    data: Seq<u8>,
    field: BranchView,
    nested: Seq<BranchView>,
    n: u64,
    dry_run: bool,
    oracle: Oracle,
    s: Gathered,
    after: Gathered,
)
    requires
        field.loop_count is Some,
        loop_count_of(field.loop_count->0, s.progress.cache) == Some(n),
        field.branches == Some(nested),
        parse_field(data, field, dry_run, oracle, s) == Outcome::Done(after),
    ensures
        exists|run: Seq<Gathered>|
            {
                &&& #[trigger] follow_each_other(
                    data,
                    nested,
                    dry_run,
                    oracle,
                    s.offset,
                    s.progress,
                    run,
                )
                &&& lookup(after.fields, field.name) == Some(JsonView::Array(objects_of(run)))
                &&& after.offset == s.offset + bits_taken(run, run.len() as int)
                &&& all_of_a_loop(
                    data,
                    nested,
                    dry_run,
                    oracle,
                    s.offset,
                    s.progress,
                    run,
                    n as nat,
                    after.progress,
                )
            },
{
    let empty = Seq::<JsonView>::empty();
    if n == 0 {
        let run = Seq::<Gathered>::empty();
        assert(objects_of(run) =~= empty);
        lookup_after_insertion(s.fields, field.name, JsonView::Array(empty), field.name);
        assert(follow_each_other(data, nested, dry_run, oracle, s.offset, s.progress, run));
    } else {
        let run = lemma_run(data, nested, dry_run, oracle, n as nat, s.offset, s.progress);
        lookup_after_insertion(
            s.fields,
            field.name,
            JsonView::Array(objects_of(run)),
            field.name,
        );
        assert(follow_each_other(data, nested, dry_run, oracle, s.offset, s.progress, run));
    }
}

/// The bits that a packet and a row behind it take.
proof fn lemma_bits_taken(first: Gathered, run: Seq<Gathered>, i: int)
    requires
        0 <= i <= run.len(),
    ensures
        bits_taken(seq![first] + run, i + 1) == first.offset + bits_taken(run, i),
    decreases i,
{
    let all = seq![first] + run;
    assert(all[i] == (if i == 0 {
        first
    } else {
        run[i - 1]
    }));
    if i > 0 {
        lemma_bits_taken(first, run, i - 1);
    } else {
        assert(bits_taken(all, 0) == 0);
    }
}

/// The row of packets that a loop is made of.
proof fn lemma_run(
    data: Seq<u8>,
    schema: Seq<BranchView>,
    dry_run: bool,
    oracle: Oracle,
    n: nat,
    offset: int,
    progress: Progress,
) -> (run: Seq<Gathered>)
    requires
        parse_loop(data, schema, dry_run, oracle, n, Seq::empty(), offset, progress) is Some,
    ensures
        follow_each_other(data, schema, dry_run, oracle, offset, progress, run),
        parse_loop(data, schema, dry_run, oracle, n, Seq::empty(), offset, progress) matches Some(
            (items, end, known),
        ) && items == objects_of(run) && end == offset + bits_taken(run, run.len() as int)
            && all_of_a_loop(data, schema, dry_run, oracle, offset, progress, run, n, known),
    decreases n,
{
    let none = Seq::<Gathered>::empty();
    let empty = Seq::<JsonView>::empty();
    assert(objects_of(none) =~= empty);
    if n == 0 {
        none
    } else {
        match parse(data.skip(offset / 8), schema, dry_run, oracle, progress) {
            Outcome::Done(first) => {
                let left = (n - 1) as nat;
                let next = offset + first.offset;
                let item = JsonView::Object(first.fields);
                lemma_items_before(
                    data,
                    schema,
                    dry_run,
                    oracle,
                    left,
                    empty.push(item),
                    next,
                    first.progress,
                );
                let others = lemma_run(
                    data,
                    schema,
                    dry_run,
                    oracle,
                    left,
                    next,
                    first.progress,
                );
                let run = seq![first] + others;
                assert(objects_of(run) =~= empty.push(item) + objects_of(others));
                lemma_bits_taken(first, others, others.len() as int);
                assert forall|i: int| 0 <= i < run.len() implies #[trigger] parse(
                    data.skip((offset + bits_taken(run, i)) / 8),
                    schema,
                    dry_run,
                    oracle,
                    known_before(progress, run, i),
                ) == Outcome::Done(run[i]) by {
                    if i > 0 {
                        lemma_bits_taken(first, others, i - 1);
                        assert(run[i] == others[i - 1]);
                        assert(known_before(progress, run, i) == known_before(
                            first.progress,
                            others,
                            i - 1,
                        ));
                        assert(parse(
                            data.skip((next + bits_taken(others, i - 1)) / 8),
                            schema,
                            dry_run,
                            oracle,
                            known_before(first.progress, others, i - 1),
                        ) == Outcome::Done(others[i - 1]));
                    } else {
                        assert(bits_taken(run, 0) == 0);
                    }
                }
                assert(known_before(progress, run, run.len() as int) == known_before(
                    first.progress,
                    others,
                    others.len() as int,
                ));
                run
            },
            _ => none,
        }
    }
}

} // verus!

//! Reading the messages of a session, a batch at a time.
use vstd::prelude::*;

use crate::event;

verus! {

/// How many messages are asked for at once.
pub const POLL_BATCH: u32 = 100;

/// A message as the server hands it out: its offset in the session, and its
/// bytes.
pub struct Polled {
    pub offset: u64,
    pub payload: Vec<u8>,
}

/// The bytes of the messages of a batch.
pub open spec fn payloads(messages: Seq<Polled>) -> Seq<Seq<u8>> {
    messages.map_values(|m: Polled| m.payload@)
}

/// Where to read on after a batch that was asked for from an offset: behind its
/// last message, or at the same offset where it is empty.
pub open spec fn offset_after(offset: int, messages: Seq<Polled>) -> int {
    if messages.len() == 0 {
        offset
    } else {
        messages.last().offset + 1
    }
}

/// Takes apart a batch that was asked for from an offset: the bytes of its
/// messages, and where to read on.
pub fn read_batch(offset: u64, messages: Vec<Polled>) -> (read: (Vec<Vec<u8>>, u64))
    requires
        forall|i: int| 0 <= i < messages@.len() ==> (#[trigger] messages@[i]).offset < u64::MAX,
    ensures
        event::byte_views(read.0@) == payloads(messages@),
        read.1 == offset_after(offset as int, messages@),
{
    let ghost all = messages@;
    let mut next: u64 = offset;
    let mut out: Vec<Vec<u8>> = Vec::new();
    for m in it: messages
        invariant
            all == it.seq(),
            forall|i: int| 0 <= i < all.len() ==> (#[trigger] all[i]).offset < u64::MAX,
            out@.len() == it.index(),
            forall|i: int| 0 <= i < it.index() ==> (#[trigger] out@[i])@ == all[i].payload@,
            it.index() == 0 ==> next == offset,
            it.index() > 0 ==> next == all[it.index() - 1].offset + 1,
    {
        proof {
            assert(all[it.index() as int] == m);
        }
        next = m.offset + 1;
        out.push(m.payload);
    }
    proof {
        assert(event::byte_views(out@) =~= payloads(all));
    }
    (out, next)
}

/// What has been read of a session from its beginning.
pub struct Load {
    pub all: Vec<Vec<u8>>,
    pub offset: u64,
}

/// What a [`Load`] denotes.
pub struct LoadView {
    pub all: Seq<Seq<u8>>,
    pub offset: u64,
}

/// Messages of a session, and where to read on after them; or why there are none.
pub type Fetched = Result<(Vec<Vec<u8>>, u64), String>;

/// What a [`Fetched`] denotes.
pub open spec fn fetched_view(fetched: Fetched) -> Result<(Seq<Seq<u8>>, u64), Seq<char>> {
    match fetched {
        Ok((raw, next)) => Ok((event::byte_views(raw@), next)),
        Err(reason) => Err(reason@),
    }
}

/// How far a load has come.
pub enum Progress {
    /// There may be more.
    More(Load),
    /// Everything has been read, or a request failed.
    Done(Fetched),
}

/// What a [`Progress`] denotes.
pub enum ProgressView {
    More(LoadView),
    Done(Result<(Seq<Seq<u8>>, u64), Seq<char>>),
}

impl View for Progress {
    type V = ProgressView;

    open spec fn view(&self) -> ProgressView {
        match self {
            Progress::More(load) => ProgressView::More(load@),
            Progress::Done(fetched) => ProgressView::Done(fetched_view(*fetched)),
        }
    }
}

impl View for Load {
    type V = LoadView;

    open spec fn view(&self) -> LoadView {
        LoadView { all: event::byte_views(self.all@), offset: self.offset }
    }
}

/// A load that has not read anything yet.
pub open spec fn nothing_read() -> LoadView {
    LoadView { all: Seq::empty(), offset: 0 }
}

/// How far a load has come with the answer to its last request.
pub open spec fn stepped(load: LoadView, answer: Result<(Seq<Seq<u8>>, u64), Seq<char>>) -> ProgressView {
    match answer {
        Ok((batch, next)) => if batch.len() == 0 {
            ProgressView::Done(Ok((load.all, load.offset)))
        } else {
            ProgressView::More(LoadView { all: load.all + batch, offset: next })
        },
        Err(reason) => ProgressView::Done(Err(reason)),
    }
}

impl Load {
    /// Starts at the beginning of a session.
    pub fn new() -> (load: Self)
        ensures
            load@ == nothing_read(),
    {
        let load = Load { all: Vec::new(), offset: 0 };
        proof {
            assert(load@.all =~= Seq::empty());
        }
        load
    }

    /// Takes in the answer to a request for the messages from this load's offset
    /// on. An empty batch ends the load; a failure ends it too, and is handed on.
    pub fn step(self, answer: Fetched) -> (progress: Progress)
        ensures
            progress@ == stepped(self@, fetched_view(answer)),
    {
        match answer {
            Ok((batch, next)) => {
                let mut load = self;
                if batch.len() == 0 {
                    return Progress::Done(Ok((load.all, load.offset)));
                }
                let ghost before = load@.all;
                let ghost added = event::byte_views(batch@);
                let mut batch = batch;
                load.all.append(&mut batch);
                load.offset = next;
                proof {
                    assert(load@.all =~= before + added);
                }
                Progress::More(load)
            },
            Err(reason) => Progress::Done(Err(reason)),
        }
    }
}

/// How far a load from the beginning has come with a list of answers; once it is
/// done, further answers change nothing.
pub open spec fn after_answers(answers: Seq<Result<(Seq<Seq<u8>>, u64), Seq<char>>>) -> ProgressView
    decreases answers.len(),
{
    if answers.len() == 0 {
        ProgressView::More(nothing_read())
    } else {
        match after_answers(answers.drop_last()) {
            ProgressView::More(load) => stepped(load, answers.last()),
            ProgressView::Done(fetched) => ProgressView::Done(fetched),
        }
    }
}

/// The messages of a list of batches, in order.
pub open spec fn joined(answers: Seq<Result<(Seq<Seq<u8>>, u64), Seq<char>>>) -> Seq<Seq<u8>>
    decreases answers.len(),
{
    if answers.len() == 0 {
        Seq::empty()
    } else {
        joined(answers.drop_last()) + match answers.last() {
            Ok((batch, _)) => batch,
            Err(_) => Seq::empty(),
        }
    }
}

/// Whether an answer is a batch with messages.
pub open spec fn has_messages(answer: Result<(Seq<Seq<u8>>, u64), Seq<char>>) -> bool {
    answer matches Ok((batch, _)) && batch.len() > 0
}

/// Where to read on after a list of batches with messages.
pub open spec fn read_on(answers: Seq<Result<(Seq<Seq<u8>>, u64), Seq<char>>>) -> u64 {
    if answers.len() == 0 {
        0
    } else {
        answers.last()->Ok_0.1
    }
}

/// A load holds the messages of all its batches in order, and reads on after the
/// last of them.
pub proof fn a_load_joins_its_batches(answers: Seq<Result<(Seq<Seq<u8>>, u64), Seq<char>>>)
    requires
        forall|i: int| 0 <= i < answers.len() ==> has_messages(#[trigger] answers[i]),
    ensures
        after_answers(answers) == ProgressView::More(
            LoadView { all: joined(answers), offset: read_on(answers) },
        ),
    decreases answers.len(),
{
    if answers.len() > 0 {
        let init = answers.drop_last();
        assert forall|i: int| 0 <= i < init.len() implies has_messages(#[trigger] init[i]) by {
            assert(has_messages(answers[i]));
        }
        a_load_joins_its_batches(init);
        assert(has_messages(answers[answers.len() - 1]));
    }
}

/// A load ends with an empty batch and gives everything that was read before it.
pub proof fn an_empty_batch_ends_a_load(
    answers: Seq<Result<(Seq<Seq<u8>>, u64), Seq<char>>>,
    next: u64,
)
    requires
        forall|i: int| 0 <= i < answers.len() ==> has_messages(#[trigger] answers[i]),
    ensures
        after_answers(answers.push(Ok((Seq::empty(), next)))) == ProgressView::Done(
            Ok((joined(answers), read_on(answers))),
        ),
{
    a_load_joins_its_batches(answers);
    assert(answers.push(Ok((Seq::empty(), next))).drop_last() =~= answers);
}

/// A request that fails ends a load, and its failure is what the load gives.
pub proof fn a_failure_ends_a_load(
    answers: Seq<Result<(Seq<Seq<u8>>, u64), Seq<char>>>,
    reason: Seq<char>,
)
    requires
        forall|i: int| 0 <= i < answers.len() ==> has_messages(#[trigger] answers[i]),
    ensures
        after_answers(answers.push(Err(reason))) == ProgressView::Done(Err(reason)),
{
    a_load_joins_its_batches(answers);
    assert(answers.push(Err(reason)).drop_last() =~= answers);
}

/// A batch gives the bytes of its messages in order. It is read on behind the last of
/// them, or at the same place where there are none.
pub proof fn a_batch_is_read_in_order(offset: int, messages: Seq<Polled>)
    ensures
        payloads(messages).len() == messages.len(),
        forall|i: int|
            0 <= i < messages.len() ==> #[trigger] payloads(messages)[i] == messages[i].payload@,
        messages.len() == 0 ==> offset_after(offset, messages) == offset,
        messages.len() > 0 ==> offset_after(offset, messages) == messages[messages.len() - 1].offset
            + 1,
{
}

/// A load goes on with every batch that has messages, from where that batch ends, and
/// keeps what it had before them.
pub proof fn a_load_goes_on(load: LoadView, batch: Seq<Seq<u8>>, next: u64)
    ensures
        batch.len() > 0 ==> (stepped(load, Ok((batch, next))) matches ProgressView::More(after)
            && after.offset == next && after.all.len() == load.all.len() + batch.len()
            && after.all.take(load.all.len() as int) == load.all && after.all.skip(
            load.all.len() as int,
        ) == batch),
        batch.len() == 0 ==> stepped(load, Ok((batch, next))) == ProgressView::Done(
            Ok((load.all, load.offset)),
        ),
{
    let all = load.all + batch;
    assert(all.take(load.all.len() as int) =~= load.all);
    assert(all.skip(load.all.len() as int) =~= batch);
}

} // verus!

//! The fragmentation of the first bytes that are written to a connection.
//!
//! The first bytes go out in small pieces of random length, with a random delay after each. Once
//! enough of them have gone out, what is written passes through as it is.
use crate::random;
use vstd::prelude::*;

verus! {

/// How many bytes are fragmented; usually enough to cover a TLS ClientHello.
pub const MAX_FRAGMENT_BYTES: usize = 512;

/// The length of the longest piece.
pub const MAX_PIECE: usize = 40;

/// The shortest delay, in milliseconds.
pub const MIN_DELAY_MS: u64 = 5;

/// The longest delay, in milliseconds.
pub const MAX_DELAY_MS: u64 = 30;

/// How far the fragmentation of a connection has come.
#[derive(Clone, Copy, Debug)]
pub struct FragmentState {
    /// How many bytes went out in pieces.
    pub bytes_written: usize,
    /// How many bytes go out in pieces at least.
    pub max_fragment_bytes: usize,
    /// Whether the delay after a piece has not been waited for yet.
    pub is_delaying: bool,
    /// Whether what is written passes through.
    pub pass_through: bool,
}

/// What to do with bytes that are to be written.
#[derive(Clone, Copy, Debug, PartialEq, Eq, Structural)]
pub enum WritePlan {
    /// Write them as they are.
    PassThrough,
    /// Wait for the delay first.
    AwaitDelay,
    /// Write a piece of them.
    Piece,
}

/// How many of `len` bytes a piece has that is drawn to be `drawn` bytes long.
pub open spec fn piece_len(len: usize, drawn: usize) -> usize {
    if len < drawn {
        len
    } else {
        drawn
    }
}

/// The state of a new connection.
pub open spec fn fresh_state() -> FragmentState {
    FragmentState {
        bytes_written: 0,
        max_fragment_bytes: MAX_FRAGMENT_BYTES,
        is_delaying: false,
        pass_through: false,
    }
}

/// Something that happens at a connection. A call that writes to it is one of these, or a delay
/// that has passed and then one of the others.
pub enum Step {
    /// All of `data` was handed to the connection, which accepted `n` bytes.
    PassedThrough {
        /// What was to be written.
        data: Seq<u8>,
        /// How many bytes were accepted.
        n: usize,
    },
    /// The delay after a piece has passed.
    DelayPassed,
    /// A piece of `data` was handed to the connection, which accepted `n` bytes.
    PieceWritten {
        /// What was to be written.
        data: Seq<u8>,
        /// How long the piece was drawn to be.
        drawn: usize,
        /// How many bytes were accepted.
        n: usize,
    },
    /// A write failed, or has to wait: for the connection, or for the delay.
    NotWritten,
}

/// What a step hands to the connection.
pub open spec fn handed_over(step: Step) -> Seq<u8> {
    match step {
        Step::PassedThrough { data, .. } => data,
        Step::PieceWritten { data, drawn, .. } => data.take(
            piece_len(data.len() as usize, drawn) as int,
        ),
        _ => Seq::empty(),
    }
}

/// What the connection accepts in a step, which is how what it was handed starts.
pub open spec fn accepted(step: Step) -> Seq<u8> {
    match step {
        Step::PassedThrough { n, .. } => handed_over(step).take(n as int),
        Step::PieceWritten { n, .. } => handed_over(step).take(n as int),
        _ => Seq::empty(),
    }
}

/// What a step reports as written: the first `n` bytes of what was to be written.
pub open spec fn reported(step: Step) -> Seq<u8> {
    match step {
        Step::PassedThrough { data, n } => data.take(n as int),
        Step::PieceWritten { data, n, .. } => data.take(n as int),
        _ => Seq::empty(),
    }
}

impl FragmentState {
    /// What passes through, and what is delayed, is settled by what has been written.
    pub open spec fn wf(&self) -> bool {
        &&& self.max_fragment_bytes == MAX_FRAGMENT_BYTES
        &&& self.pass_through == (self.bytes_written >= MAX_FRAGMENT_BYTES)
        &&& self.is_delaying ==> !self.pass_through
    }

    /// What to do with `len` bytes that are to be written.
    pub open spec fn plan_spec(&self, len: usize) -> WritePlan {
        if self.pass_through || len == 0 {
            WritePlan::PassThrough
        } else if self.is_delaying {
            WritePlan::AwaitDelay
        } else {
            WritePlan::Piece
        }
    }

    /// The state once the delay has passed.
    pub open spec fn after_delay(&self) -> FragmentState {
        FragmentState { is_delaying: false, ..*self }
    }

    /// The state once `n` bytes of a piece have been written.
    pub open spec fn after_piece(&self, n: usize) -> FragmentState {
        let total = (self.bytes_written + n) as usize;
        if total >= self.max_fragment_bytes {
            FragmentState { bytes_written: total, pass_through: true, ..*self }
        } else if n > 0 {
            FragmentState { bytes_written: total, is_delaying: true, ..*self }
        } else {
            FragmentState { bytes_written: total, ..*self }
        }
    }

    /// Whether a delay follows once `n` bytes of a piece have been written.
    pub open spec fn delay_follows(&self, n: usize) -> bool {
        self.bytes_written + n < self.max_fragment_bytes && n > 0
    }

    /// Whether a step can happen: what is written follows the plan, and no more is accepted than
    /// was handed over.
    pub open spec fn can_take(&self, step: Step) -> bool {
        match step {
            Step::PassedThrough { data, n } => {
                &&& data.len() <= usize::MAX
                &&& self.plan_spec(data.len() as usize) is PassThrough
                &&& n <= handed_over(step).len()
            },
            Step::DelayPassed => self.is_delaying,
            Step::PieceWritten { data, drawn, n } => {
                &&& data.len() <= usize::MAX
                &&& self.plan_spec(data.len() as usize) is Piece
                &&& 1 <= drawn <= MAX_PIECE
                &&& n <= handed_over(step).len()
            },
            Step::NotWritten => true,
        }
    }

    /// The state after a step.
    pub open spec fn after_step(&self, step: Step) -> FragmentState {
        match step {
            Step::DelayPassed => self.after_delay(),
            Step::PieceWritten { n, .. } => self.after_piece(n),
            _ => *self,
        }
    }

    /// The state of a new connection.
    pub fn new() -> (r: Self)
        ensures
            r.wf(),
            r == fresh_state(),
    {
        FragmentState {
            bytes_written: 0,
            max_fragment_bytes: MAX_FRAGMENT_BYTES,
            is_delaying: false,
            pass_through: false,
        }
    }

    /// What to do with `len` bytes that are to be written.
    pub fn plan(&self, len: usize) -> (r: WritePlan)
        ensures
            r == self.plan_spec(len),
    {
        if self.pass_through || len == 0 {
            WritePlan::PassThrough
        } else if self.is_delaying {
            WritePlan::AwaitDelay
        } else {
            WritePlan::Piece
        }
    }

    /// Records that the delay has passed.
    pub fn delay_passed(&mut self)
        requires
            old(self).wf(),
        ensures
            final(self).wf(),
            *final(self) == old(self).after_delay(),
    {
        self.is_delaying = false;
    }

    /// Draws the length of the next piece of `len` bytes.
    pub fn next_piece(&self, len: usize) -> (r: usize)
        requires
            len > 0,
        ensures
            1 <= r <= len,
            exists|drawn: usize| 1 <= drawn <= MAX_PIECE && r == #[trigger] piece_len(len, drawn),
    {
        let drawn: usize = random::random_between(1, MAX_PIECE as u64) as usize;
        let r: usize = cut_piece(len, drawn);
        r
    }

    /// Records that `n` bytes of a piece have been written, and tells for how many milliseconds
    /// to delay, if at all: `drawn` milliseconds.
    pub fn piece_written_with(&mut self, n: usize, drawn: u64) -> (r: Option<u64>)
        requires
            old(self).wf(),
            old(self).plan_spec(1) is Piece,
            old(self).bytes_written + n <= usize::MAX,
        ensures
            final(self).wf(),
            *final(self) == old(self).after_piece(n),
            r == (if old(self).delay_follows(n) {
                Some(drawn)
            } else {
                None
            }),
    {
        self.bytes_written = self.bytes_written + n;
        if self.bytes_written >= self.max_fragment_bytes {
            self.pass_through = true;
            None
        } else if n > 0 {
            self.is_delaying = true;
            Some(drawn)
        } else {
            None
        }
    }

    /// Records that `n` bytes of a piece have been written, and draws for how many milliseconds
    /// to delay, if at all.
    pub fn piece_written(&mut self, n: usize) -> (r: Option<u64>)
        requires
            old(self).wf(),
            old(self).plan_spec(1) is Piece,
            old(self).bytes_written + n <= usize::MAX,
        ensures
            final(self).wf(),
            *final(self) == old(self).after_piece(n),
            r is Some <==> old(self).delay_follows(n),
            r matches Some(ms) ==> MIN_DELAY_MS <= ms <= MAX_DELAY_MS,
    {
        let mut drawn: u64 = 0;
        if n > 0 && self.bytes_written + n < self.max_fragment_bytes {
            drawn = random::random_between(MIN_DELAY_MS, MAX_DELAY_MS);
        }
        self.piece_written_with(n, drawn)
    }
}

/// How many of `len` bytes a piece has that is drawn to be `drawn` bytes long.
pub fn cut_piece(len: usize, drawn: usize) -> (r: usize)
    ensures
        r == piece_len(len, drawn),
{
    if len < drawn {
        len
    } else {
        drawn
    }
}

/// The state of a connection after pieces of these lengths have been written, with the delay
/// waited for before each.
pub open spec fn after_pieces(state: FragmentState, pieces: Seq<usize>) -> FragmentState
    decreases pieces.len(),
{
    if pieces.len() == 0 {
        state
    } else {
        after_pieces(state, pieces.drop_last()).after_delay().after_piece(pieces.last())
    }
}

/// How many bytes some pieces have.
pub open spec fn total(pieces: Seq<usize>) -> int
    decreases pieces.len(),
{
    if pieces.len() == 0 {
        0
    } else {
        total(pieces.drop_last()) + pieces.last()
    }
}

/// The state of a connection after some steps.
pub open spec fn after_steps(steps: Seq<Step>) -> FragmentState
    decreases steps.len(),
{
    if steps.len() == 0 {
        fresh_state()
    } else {
        after_steps(steps.drop_last()).after_step(steps.last())
    }
}

/// Whether some steps can happen at a new connection, one after the other.
pub open spec fn is_run(steps: Seq<Step>) -> bool
    decreases steps.len(),
{
    steps.len() > 0 ==> is_run(steps.drop_last()) && after_steps(steps.drop_last()).can_take(
        steps.last(),
    )
}

/// What a connection accepts in some steps, in its order.
pub open spec fn all_accepted(steps: Seq<Step>) -> Seq<u8>
    decreases steps.len(),
{
    if steps.len() == 0 {
        Seq::empty()
    } else {
        all_accepted(steps.drop_last()) + accepted(steps.last())
    }
}

/// What some steps report as written, in its order.
pub open spec fn all_reported(steps: Seq<Step>) -> Seq<u8>
    decreases steps.len(),
{
    if steps.len() == 0 {
        Seq::empty()
    } else {
        all_reported(steps.drop_last()) + reported(steps.last())
    }
}

/// What one step does: what is accepted is what is reported as written, passing through and the
/// count of bytes never go back, and what is not written changes nothing.
proof fn lemma_step(state: FragmentState, step: Step)
    requires
        state.wf(),
        state.bytes_written < MAX_FRAGMENT_BYTES + MAX_PIECE,
        state.can_take(step),
    ensures
        state.after_step(step).wf(),
        state.after_step(step).bytes_written < MAX_FRAGMENT_BYTES + MAX_PIECE,
        state.bytes_written <= state.after_step(step).bytes_written,
        state.pass_through ==> state.after_step(step).pass_through,
        step is NotWritten ==> state.after_step(step) == state,
        accepted(step) == reported(step),
{
    if let Step::PieceWritten { data, drawn, n } = step {
        assert(handed_over(step).len() <= MAX_PIECE);
        assert(handed_over(step).take(n as int) =~= data.take(n as int));
    }
}

/// Whatever is written to a connection, in whatever pieces and with whatever failures: what it
/// accepts is, in order, what the writes report as written. Fewer than 512 + 40 bytes go out in
/// pieces, and it passes bytes through exactly when at least 512 have.
pub proof fn lemma_any_run(steps: Seq<Step>)
    requires
        is_run(steps),
    ensures
        after_steps(steps).wf(),
        after_steps(steps).bytes_written < MAX_FRAGMENT_BYTES + MAX_PIECE,
        after_steps(steps).pass_through <==> after_steps(steps).bytes_written
            >= MAX_FRAGMENT_BYTES,
        all_accepted(steps) == all_reported(steps),
    decreases steps.len(),
{
    if steps.len() > 0 {
        lemma_any_run(steps.drop_last());
        lemma_step(after_steps(steps.drop_last()), steps.last());
    }
}

/// At every point of such a run: a step that writes nothing leaves the connection as it was, and
/// neither passing through nor the count of bytes goes back, then or later.
pub proof fn lemma_run_never_goes_back(steps: Seq<Step>, k: int)
    requires
        is_run(steps),
        0 <= k <= steps.len(),
    ensures
        is_run(steps.take(k)),
        after_steps(steps.take(k)).pass_through ==> after_steps(steps).pass_through,
        after_steps(steps.take(k)).bytes_written <= after_steps(steps).bytes_written,
        k < steps.len() && steps[k] is NotWritten ==> after_steps(steps.take(k + 1)) == after_steps(
            steps.take(k),
        ),
    decreases steps.len(),
{
    if k == steps.len() {
        assert(steps.take(k) =~= steps);
    } else {
        let init = steps.drop_last();
        assert(init.take(k) =~= steps.take(k));
        lemma_run_never_goes_back(init, k);
        lemma_any_run(init);
        lemma_step(after_steps(init), steps.last());
        assert(steps.take(k + 1).drop_last() =~= steps.take(k));
        assert(steps.take(k + 1).last() == steps[k]);
    }
}

/// Once a connection passes bytes through, it does so for good: nothing is cut up or delayed.
pub proof fn lemma_pass_through_is_final(state: FragmentState, len: usize)
    requires
        state.wf(),
        state.pass_through,
    ensures
        state.plan_spec(len) is PassThrough,
        !state.is_delaying,
        state.after_delay() == state,
{
}

/// Between two pieces there is always a delay.
pub proof fn lemma_delay_between_pieces(state: FragmentState, n: usize, len: usize)
    requires
        state.wf(),
        state.plan_spec(1) is Piece,
        0 < n <= MAX_PIECE,
    ensures
        !(state.after_piece(n).plan_spec(len) is Piece),
{
}

/// A connection passes bytes through exactly when 512 bytes have gone out in pieces, however they
/// were cut; and then fewer than 512 + 40 have.
pub proof fn lemma_fragmentation_ends(pieces: Seq<usize>)
    requires
        forall|i: int| 0 <= i < pieces.len() ==> #[trigger] pieces[i] <= MAX_PIECE,
        forall|k: int|
            0 <= k < pieces.len() ==> #[trigger] total(pieces.take(k)) < MAX_FRAGMENT_BYTES,
    ensures
        ({
            let end = after_pieces(fresh_state(), pieces);
            &&& end.wf()
            &&& end.bytes_written == total(pieces)
            &&& end.pass_through <==> total(pieces) >= MAX_FRAGMENT_BYTES
            &&& total(pieces) < MAX_FRAGMENT_BYTES + MAX_PIECE
        }),
    decreases pieces.len(),
{
    if pieces.len() > 0 {
        let init = pieces.drop_last();
        assert forall|i: int| 0 <= i < init.len() implies #[trigger] init[i] <= MAX_PIECE by {
            assert(init[i] == pieces[i]);
        }
        assert forall|k: int| 0 <= k < init.len() implies #[trigger] total(init.take(k))
            < MAX_FRAGMENT_BYTES by {
            assert(init.take(k) =~= pieces.take(k));
        }
        lemma_fragmentation_ends(init);
        assert(pieces.take(pieces.len() - 1) =~= init);
        assert(total(pieces.take(pieces.len() - 1)) < MAX_FRAGMENT_BYTES);
        assert(pieces[pieces.len() - 1] <= MAX_PIECE);
    }
}

/// As long as fewer than 512 bytes have gone out, whatever is written is cut up, however long it is:
/// it waits for the delay where there is one, and is cut otherwise. After that, and where nothing is
/// to be written, it passes through.
pub proof fn lemma_first_bytes_are_cut_up(state: FragmentState, len: usize)
    requires
        state.wf(),
    ensures
        state.plan_spec(len) is PassThrough <==> state.bytes_written >= 512 || len == 0,
        state.plan_spec(len) is AwaitDelay <==> state.bytes_written < 512 && len > 0
            && state.is_delaying,
        state.plan_spec(len) is Piece <==> state.bytes_written < 512 && len > 0
            && !state.is_delaying,
{
}

/// A piece is as long as it was drawn to be, or all there is where that is less.
pub proof fn lemma_piece_length(len: usize, drawn: usize)
    ensures
        piece_len(len, drawn) <= len,
        piece_len(len, drawn) <= drawn,
        piece_len(len, drawn) == len || piece_len(len, drawn) == drawn,
{
}

/// What a piece of `n` bytes does: they are counted, a delay follows where some went out and fewer
/// than 512 have in all, and with the 512th byte everything passes through. A delay that has passed
/// changes nothing else.
pub proof fn lemma_piece_is_counted(state: FragmentState, n: usize)
    requires
        state.wf(),
        state.bytes_written < 512,
        !state.is_delaying,
        n <= 40,
    ensures
        state.after_piece(n).bytes_written == state.bytes_written + n,
        state.after_piece(n).is_delaying <==> n > 0 && state.bytes_written + n < 512,
        state.after_piece(n).pass_through <==> state.bytes_written + n >= 512,
        state.delay_follows(n) <==> n > 0 && state.bytes_written + n < 512,
        !state.after_delay().is_delaying,
        state.after_delay().bytes_written == state.bytes_written,
        state.after_delay().pass_through == state.pass_through,
{
}

} // verus!
